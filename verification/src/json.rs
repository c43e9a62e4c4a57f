//! JSON values, and their text as `serde_json` writes it.

use crate::path::Segment;
use crate::text::same_text;
use vstd::prelude::*;

verus! {

use crate::path::{segment_views, SegmentView};

/// A JSON value.
#[derive(Debug)]
pub enum JsonValue {
    Null,
    Bool(bool),
    /// A number, as the text that stands for it in JSON. A text that is not the
    /// text of a number is written as `null`.
    Number(String),
    String(String),
    Array(Vec<JsonValue>),
    /// The fields of an object. Of fields of the same name the last one counts.
    Object(Vec<(String, JsonValue)>),
}

/// What a [`JsonValue`] stands for.
pub enum JsonTree {
    Null,
    Bool(bool),
    Number(Seq<char>),
    String(Seq<char>),
    Array(Seq<JsonTree>),
    Object(Seq<(Seq<char>, JsonTree)>),
}

impl JsonValue {
    /// The tree of this value.
    pub open spec fn tree(self) -> JsonTree
        decreases self,
    {
        match self {
            JsonValue::Null => JsonTree::Null,
            JsonValue::Bool(b) => JsonTree::Bool(b),
            JsonValue::Number(text) => JsonTree::Number(text@),
            JsonValue::String(text) => JsonTree::String(text@),
            JsonValue::Array(items) => JsonTree::Array(
                Seq::new(
                    items@.len(),
                    |i: int|
                        if 0 <= i < items@.len() {
                            items@[i].tree()
                        } else {
                            JsonTree::Null
                        },
                ),
            ),
            JsonValue::Object(fields) => JsonTree::Object(
                Seq::new(
                    fields@.len(),
                    |i: int|
                        if 0 <= i < fields@.len() {
                            (fields@[i].0@, fields@[i].1.tree())
                        } else {
                            (seq![], JsonTree::Null)
                        },
                ),
            ),
        }
    }
}

impl View for JsonValue {
    type V = JsonTree;

    open spec fn view(&self) -> JsonTree {
        self.tree()
    }
}

/// The trees of `items`, in order.
pub open spec fn trees(items: Seq<JsonValue>) -> Seq<JsonTree> {
    Seq::new(items.len(), |i: int| items[i]@)
}

/// The names and trees of `fields`, in order.
pub open spec fn field_trees(fields: Seq<(String, JsonValue)>) -> Seq<(Seq<char>, JsonTree)> {
    Seq::new(fields.len(), |i: int| (fields[i].0@, fields[i].1@))
}

/// The tree of an array holds the trees of its items, that of an object those of
/// its fields.
pub proof fn lemma_tree_of_parts(value: JsonValue)
    ensures
        value matches JsonValue::Array(items) ==> value@ == JsonTree::Array(trees(items@)),
        value matches JsonValue::Object(fields) ==> value@ == JsonTree::Object(
            field_trees(fields@),
        ),
{
    match value {
        JsonValue::Array(items) => {
            assert(value@->Array_0 =~= trees(items@));
        },
        JsonValue::Object(fields) => {
            assert(value@->Object_0 =~= field_trees(fields@));
        },
        _ => {},
    }
}

impl Clone for JsonValue {
    fn clone(&self) -> (r: Self)
        ensures
            r@ == self@,
        decreases self,
    {
        match self {
            JsonValue::Null => JsonValue::Null,
            JsonValue::Bool(b) => JsonValue::Bool(*b),
            JsonValue::Number(text) => JsonValue::Number(text.clone()),
            JsonValue::String(text) => JsonValue::String(text.clone()),
            JsonValue::Array(items) => {
                let mut copies: Vec<JsonValue> = Vec::new();
                let mut i: usize = 0;
                while i < items.len()
                    invariant
                        i <= items.len(),
                        copies.len() == i,
                        *self == JsonValue::Array(*items),
                        forall|j: int| 0 <= j < i ==> (#[trigger] copies@[j])@ == items@[j]@,
                    decreases items.len() - i,
                {
                    assert(decreases_to!(self => self->Array_0@[i as int]));
                    let copy = items[i].clone();
                    copies.push(copy);
                    i += 1;
                }
                proof {
                    lemma_tree_of_parts(*self);
                    lemma_tree_of_parts(JsonValue::Array(copies));
                    assert(trees(copies@) == trees(items@));
                }
                JsonValue::Array(copies)
            },
            JsonValue::Object(fields) => {
                let mut copies: Vec<(String, JsonValue)> = Vec::new();
                let mut i: usize = 0;
                while i < fields.len()
                    invariant
                        i <= fields.len(),
                        copies.len() == i,
                        *self == JsonValue::Object(*fields),
                        forall|j: int|
                            0 <= j < i ==> (#[trigger] copies@[j]).0@ == fields@[j].0@
                                && copies@[j].1@ == fields@[j].1@,
                    decreases fields.len() - i,
                {
                    assert(decreases_to!(self => self->Object_0@[i as int].1));
                    let copy = (fields[i].0.clone(), fields[i].1.clone());
                    copies.push(copy);
                    i += 1;
                }
                proof {
                    lemma_tree_of_parts(*self);
                    lemma_tree_of_parts(JsonValue::Object(copies));
                    assert(field_trees(copies@) == field_trees(fields@));
                }
                JsonValue::Object(copies)
            },
        }
    }
}

/// A copy of `items`.
pub fn copy_items(items: &Vec<JsonValue>) -> (r: Vec<JsonValue>)
    ensures
        trees(r@) == trees(items@),
{
    let mut copies: Vec<JsonValue> = Vec::new();
    let mut i: usize = 0;
    while i < items.len()
        invariant
            i <= items.len(),
            copies.len() == i,
            forall|j: int| 0 <= j < i ==> (#[trigger] copies@[j])@ == items@[j]@,
        decreases items.len() - i,
    {
        let copy = items[i].clone();
        copies.push(copy);
        i += 1;
    }
    assert(trees(copies@) == trees(items@));
    copies
}

/// `serde_json::Value`, carried through unread.
#[verifier::external_type_specification]
#[verifier::external_body]
pub struct ExValue(serde_json::Value);

/// `serde_json::Error`, carried through unread.
#[verifier::external_type_specification]
#[verifier::external_body]
pub struct ExError(serde_json::Error);

/// Whether `serde_json` reads `text` as a number.
pub uninterp spec fn is_number(text: Seq<char>) -> bool;

/// Whether `value` is the `serde_json::Value` of the JSON value `tree`.
pub uninterp spec fn converts_to(tree: JsonTree, value: serde_json::Value) -> bool;

/// The compact text that `serde_json` displays for the JSON value `tree`.
pub uninterp spec fn compact_text(tree: JsonTree) -> Seq<char>;

/// The indented text that `serde_json::to_string_pretty` gives for the JSON value
/// `tree`.
pub uninterp spec fn pretty_text(tree: JsonTree) -> Seq<char>;

/// The text of a truth value.
pub open spec fn bool_text(b: bool) -> Seq<char> {
    if b {
        "true"@
    } else {
        "false"@
    }
}

/// The JSON value that is written for `tree`: `null` stands in for a number whose
/// text is not that of a number.
pub open spec fn written(tree: JsonTree) -> JsonTree
    decreases tree,
{
    match tree {
        JsonTree::Number(text) => if is_number(text) {
            tree
        } else {
            JsonTree::Null
        },
        JsonTree::Array(items) => JsonTree::Array(
            Seq::new(
                items.len(),
                |i: int|
                    if 0 <= i < items.len() {
                        written(items[i])
                    } else {
                        JsonTree::Null
                    },
            ),
        ),
        JsonTree::Object(fields) => JsonTree::Object(
            Seq::new(
                fields.len(),
                |i: int|
                    if 0 <= i < fields.len() {
                        (fields[i].0, written(fields[i].1))
                    } else {
                        (seq![], JsonTree::Null)
                    },
            ),
        ),
        _ => tree,
    }
}

/// Whether `values` are the `serde_json::Value`s of `items`, one by one.
pub open spec fn items_convert(items: Seq<JsonTree>, values: Seq<serde_json::Value>) -> bool {
    items.len() == values.len() && forall|i: int|
        0 <= i < items.len() ==> converts_to(items[i], #[trigger] values[i])
}

/// Whether `pairs` are the names of `fields` with their `serde_json::Value`s, one by
/// one.
pub open spec fn fields_convert(
    fields: Seq<(Seq<char>, JsonTree)>,
    pairs: Seq<(String, serde_json::Value)>,
) -> bool {
    fields.len() == pairs.len() && forall|i: int|
        0 <= i < fields.len() ==> fields[i].0 == (#[trigger] pairs[i]).0@ && converts_to(
            fields[i].1,
            pairs[i].1,
        )
}

/// `serde_json::Value::Null`.
#[verifier::external_body]
fn null_value() -> (r: serde_json::Value)
    ensures
        converts_to(JsonTree::Null, r),
{
    serde_json::Value::Null
}

/// `serde_json::Value::Bool`.
#[verifier::external_body]
fn bool_value(b: bool) -> (r: serde_json::Value)
    ensures
        converts_to(JsonTree::Bool(b), r),
{
    serde_json::Value::Bool(b)
}

/// `serde_json::Value::Number`, with `serde_json::Number`'s `FromStr`: the number
/// that `text` reads as, or an error. Which of the two is a function of the text.
#[verifier::external_body]
fn number_value(text: &str) -> (r: Result<serde_json::Value, serde_json::Error>)
    ensures
        match r {
            Ok(value) => is_number(text@) && converts_to(JsonTree::Number(text@), value),
            Err(_) => !is_number(text@),
        },
{
    text.parse().map(serde_json::Value::Number)
}

/// `serde_json::Value::String`.
#[verifier::external_body]
fn string_value(text: String) -> (r: serde_json::Value)
    ensures
        converts_to(JsonTree::String(text@), r),
{
    serde_json::Value::String(text)
}

/// `serde_json::Value::Array`: the array of values.
#[verifier::external_body]
fn array_value(values: Vec<serde_json::Value>) -> (r: serde_json::Value)
    ensures
        forall|items: Seq<JsonTree>|
            items_convert(items, values@) ==> #[trigger] converts_to(JsonTree::Array(items), r),
{
    serde_json::Value::Array(values)
}

/// `serde_json::Value::Object`, with `serde_json::Map`'s `FromIterator`: the object
/// with these fields, put in one after the other.
#[verifier::external_body]
fn object_value(pairs: Vec<(String, serde_json::Value)>) -> (r: serde_json::Value)
    ensures
        forall|fields: Seq<(Seq<char>, JsonTree)>|
            fields_convert(fields, pairs@) ==> #[trigger] converts_to(JsonTree::Object(fields), r),
{
    serde_json::Value::Object(pairs.into_iter().collect())
}

/// `serde_json::Value`'s `Display`: the compact JSON text, which is a function of
/// the value. A truth value is displayed as `true` or `false`.
#[verifier::external_body]
fn display_value(value: &serde_json::Value) -> (r: String)
    ensures
        forall|tree: JsonTree| #[trigger]
            converts_to(tree, *value) ==> r@ == compact_text(tree) && (tree matches JsonTree::Bool(
                b,
            ) ==> r@ == bool_text(b)),
{
    value.to_string()
}

/// `serde_json::to_string_pretty` on a `serde_json::Value`: its indented JSON text,
/// which is a function of the value. It does not fail, as the names of all fields are
/// strings.
#[verifier::external_body]
fn pretty_value(value: &serde_json::Value) -> (r: Result<String, serde_json::Error>)
    ensures
        r is Ok,
        forall|tree: JsonTree| #[trigger]
            converts_to(tree, *value) ==> r->Ok_0@ == pretty_text(tree),
{
    serde_json::to_string_pretty(value)
}

/// The `serde_json::Value` of a JSON value.
fn to_serde(value: &JsonValue) -> (r: serde_json::Value)
    ensures
        converts_to(written(value@), r),
    decreases value,
{
    proof {
        lemma_tree_of_parts(*value);
    }
    match value {
        JsonValue::Null => null_value(),
        JsonValue::Bool(b) => bool_value(*b),
        JsonValue::Number(text) => match number_value(text.as_str()) {
            Ok(number) => number,
            Err(_) => null_value(),
        },
        JsonValue::String(text) => string_value(text.clone()),
        JsonValue::Array(items) => {
            let mut values: Vec<serde_json::Value> = Vec::new();
            let mut i: usize = 0;
            while i < items.len()
                invariant
                    i <= items.len(),
                    values.len() == i,
                    *value == JsonValue::Array(*items),
                    forall|j: int|
                        0 <= j < i ==> converts_to(written(items@[j]@), #[trigger] values@[j]),
                decreases items.len() - i,
            {
                assert(decreases_to!(value => value->Array_0@[i as int]));
                values.push(to_serde(&items[i]));
                i += 1;
            }
            let ghost parts = written(value@)->Array_0;
            assert(items_convert(parts, values@));
            array_value(values)
        },
        JsonValue::Object(fields) => {
            let mut pairs: Vec<(String, serde_json::Value)> = Vec::new();
            let mut i: usize = 0;
            while i < fields.len()
                invariant
                    i <= fields.len(),
                    pairs.len() == i,
                    *value == JsonValue::Object(*fields),
                    forall|j: int|
                        0 <= j < i ==> (#[trigger] pairs@[j]).0@ == fields@[j].0@ && converts_to(
                            written(fields@[j].1@),
                            pairs@[j].1,
                        ),
                decreases fields.len() - i,
            {
                assert(decreases_to!(value => value->Object_0@[i as int].1));
                let pair = (fields[i].0.clone(), to_serde(&fields[i].1));
                pairs.push(pair);
                i += 1;
            }
            let ghost parts = written(value@)->Object_0;
            assert(fields_convert(parts, pairs@));
            object_value(pairs)
        },
    }
}

/// The compact text of a JSON value.
pub fn to_compact(value: &JsonValue) -> (r: String)
    ensures
        r@ == compact_text(written(value@)),
        value matches JsonValue::Bool(b) ==> r@ == bool_text(*b),
{
    let converted = to_serde(value);
    display_value(&converted)
}

/// The indented text of a JSON value. There always is one.
pub fn to_pretty(value: &JsonValue) -> (r: Option<String>)
    ensures
        r matches Some(text) && text@ == pretty_text(written(value@)),
{
    let converted = to_serde(value);
    match pretty_value(&converted) {
        Ok(text) => Some(text),
        Err(_) => None,
    }
}

/// The value of the last field of `fields` with the name `key`.
pub open spec fn field_value(fields: Seq<(Seq<char>, JsonTree)>, key: Seq<char>) -> Option<JsonTree>
    decreases fields.len(),
{
    if fields.len() == 0 {
        None
    } else if fields.last().0 == key {
        Some(fields.last().1)
    } else {
        field_value(fields.drop_last(), key)
    }
}

/// What `segment` selects in `tree`: a key the field of an object, a position the
/// element of an array, anything else nothing.
pub open spec fn selected(tree: JsonTree, segment: SegmentView) -> Option<JsonTree> {
    match (tree, segment) {
        (JsonTree::Object(fields), SegmentView::Key(key)) => field_value(fields, key),
        (JsonTree::Array(items), SegmentView::Index(index)) => if index < items.len() {
            Some(items[index as int])
        } else {
            None
        },
        _ => None,
    }
}

/// What `segments` select in `tree`, one after the other.
pub open spec fn resolved(tree: JsonTree, segments: Seq<SegmentView>) -> Option<JsonTree>
    decreases segments.len(),
{
    if segments.len() == 0 {
        Some(tree)
    } else {
        match selected(tree, segments[0]) {
            Some(next) => resolved(next, segments.skip(1)),
            None => None,
        }
    }
}

/// Whether `found` is the value that `expected` describes.
pub open spec fn finds(found: Option<&JsonValue>, expected: Option<JsonTree>) -> bool {
    match found {
        Some(value) => expected == Some(value@),
        None => expected is None,
    }
}

/// The value of the last field of `fields` with the name `key`.
fn find_field<'a>(fields: &'a Vec<(String, JsonValue)>, key: &str) -> (r: Option<&'a JsonValue>)
    ensures
        finds(r, field_value(field_trees(fields@), key@)),
{
    let mut n: usize = fields.len();
    assert(field_trees(fields@).take(n as int) == field_trees(fields@));
    while n > 0
        invariant
            n <= fields.len(),
            field_value(field_trees(fields@), key@) == field_value(
                field_trees(fields@).take(n as int),
                key@,
            ),
        decreases n,
    {
        assert(field_trees(fields@).take(n as int).drop_last() == field_trees(fields@).take(n - 1));
        if same_text(fields[n - 1].0.as_str(), key) {
            return Some(&fields[n - 1].1);
        }
        n -= 1;
    }
    None
}

/// What `segment` selects in `value`.
fn select<'a>(value: &'a JsonValue, segment: &Segment) -> (r: Option<&'a JsonValue>)
    ensures
        finds(r, selected(value@, segment@)),
{
    proof {
        lemma_tree_of_parts(*value);
    }
    match (value, segment) {
        (JsonValue::Object(fields), Segment::Key(key)) => find_field(fields, key.as_str()),
        (JsonValue::Array(items), Segment::Index(index)) => {
            if *index < items.len() {
                Some(&items[*index])
            } else {
                None
            }
        },
        _ => None,
    }
}

/// Walks `data` along `segments`, and gives the value that they lead to.
pub fn resolve<'a>(data: &'a JsonValue, segments: &[Segment]) -> (r: Option<&'a JsonValue>)
    ensures
        finds(r, resolved(data@, segment_views(segments@))),
{
    let mut current: &'a JsonValue = data;
    let mut i: usize = 0;
    assert(segment_views(segments@).skip(0) == segment_views(segments@));
    while i < segments.len()
        invariant
            i <= segments.len(),
            resolved(data@, segment_views(segments@)) == resolved(
                current@,
                segment_views(segments@).skip(i as int),
            ),
        decreases segments.len() - i,
    {
        assert(segment_views(segments@).skip(i as int).skip(1) == segment_views(segments@).skip(
            i + 1,
        ));
        match select(current, &segments[i]) {
            Some(next) => {
                current = next;
            },
            None => {
                return None;
            },
        }
        i += 1;
    }
    Some(current)
}

/// Walking along two lists of segments, one after the other, is walking along the
/// first and from there along the second.
pub proof fn law_resolve_composes(tree: JsonTree, a: Seq<SegmentView>, b: Seq<SegmentView>)
    ensures
        resolved(tree, a + b) == match resolved(tree, a) {
            Some(next) => resolved(next, b),
            None => None,
        },
    decreases a.len(),
{
    if a.len() == 0 {
        assert(a + b == b);
    } else {
        assert((a + b).skip(1) == a.skip(1) + b);
        match selected(tree, a[0]) {
            Some(next) => law_resolve_composes(next, a.skip(1), b),
            None => {},
        }
    }
}

/// A key selects the value of the last field of that name in an object.
pub proof fn law_key_selects_last_field(
    before: Seq<(Seq<char>, JsonTree)>,
    key: Seq<char>,
    value: JsonTree,
    behind: Seq<(Seq<char>, JsonTree)>,
)
    requires
        forall|i: int| 0 <= i < behind.len() ==> (#[trigger] behind[i]).0 != key,
    ensures
        selected(JsonTree::Object(before + seq![(key, value)] + behind), SegmentView::Key(key))
            == Some(value),
    decreases behind.len(),
{
    let fields = before + seq![(key, value)] + behind;
    if behind.len() > 0 {
        let rest = behind.drop_last();
        assert forall|i: int| 0 <= i < rest.len() implies (#[trigger] rest[i]).0 != key by {
            assert(rest[i] == behind[i]);
        }
        law_key_selects_last_field(before, key, value, rest);
        assert(fields.drop_last() == before + seq![(key, value)] + rest);
        assert(fields.last() == behind.last());
        assert(behind[behind.len() - 1].0 != key);
    }
}

/// A key selects nothing where no field has that name, or where there is no object, and
/// a position selects nothing where there is no array.
pub proof fn law_nothing_is_selected(tree: JsonTree, key: Seq<char>, index: nat)
    ensures
        tree matches JsonTree::Object(fields) ==> (forall|i: int|
            0 <= i < fields.len() ==> (#[trigger] fields[i]).0 != key) ==> selected(
            tree,
            SegmentView::Key(key),
        ) is None,
        !(tree is Object) ==> selected(tree, SegmentView::Key(key)) is None,
        !(tree is Array) ==> selected(tree, SegmentView::Index(index)) is None,
{
    if let JsonTree::Object(fields) = tree {
        if forall|i: int| 0 <= i < fields.len() ==> (#[trigger] fields[i]).0 != key {
            lemma_no_such_field(fields, key);
        }
    }
}

/// Where no field has a name, none is found.
proof fn lemma_no_such_field(fields: Seq<(Seq<char>, JsonTree)>, key: Seq<char>)
    requires
        forall|i: int| 0 <= i < fields.len() ==> (#[trigger] fields[i]).0 != key,
    ensures
        field_value(fields, key) is None,
    decreases fields.len(),
{
    if fields.len() > 0 {
        assert(fields[fields.len() - 1].0 != key);
        let rest = fields.drop_last();
        assert forall|i: int| 0 <= i < rest.len() implies (#[trigger] rest[i]).0 != key by {
            assert(rest[i] == fields[i]);
        }
        lemma_no_such_field(rest, key);
    }
}

/// A position selects the element with as many elements before it, if there is one.
pub proof fn law_index_selects_element(
    before: Seq<JsonTree>,
    value: JsonTree,
    behind: Seq<JsonTree>,
)
    ensures
        selected(
            JsonTree::Array(before + seq![value] + behind),
            SegmentView::Index(before.len()),
        ) == Some(value),
        selected(JsonTree::Array(before), SegmentView::Index(before.len() + behind.len()))
            is None,
{
}

/// No segment leads to the value itself, and one segment to what it selects.
pub proof fn law_first_steps(tree: JsonTree, step: SegmentView)
    ensures
        resolved(tree, Seq::empty()) == Some(tree),
        resolved(tree, seq![step]) == selected(tree, step),
{
    reveal_with_fuel(resolved, 2);
    assert(seq![step].skip(1) == Seq::<SegmentView>::empty());
}

/// What is written keeps every string, truth value, name, number and order of parts:
/// only a number whose text is none becomes `null`.
pub proof fn law_written_keeps_values(tree: JsonTree)
    ensures
        tree is Null || tree is Bool || tree is String ==> written(tree) == tree,
        tree matches JsonTree::Number(text) ==> written(tree) == if is_number(text) {
            tree
        } else {
            JsonTree::Null
        },
        tree matches JsonTree::Array(items) ==> {
            &&& written(tree) matches JsonTree::Array(parts)
            &&& parts.len() == items.len()
            &&& forall|i: int| 0 <= i < items.len() ==> (#[trigger] parts[i]) == written(items[i])
        },
        tree matches JsonTree::Object(fields) ==> {
            &&& written(tree) matches JsonTree::Object(parts)
            &&& parts.len() == fields.len()
            &&& forall|i: int|
                0 <= i < fields.len() ==> (#[trigger] parts[i]).0 == fields[i].0 && parts[i].1
                    == written(fields[i].1)
        },
{
}

/// Selecting from what is written gives what is written of the selection.
pub proof fn law_written_commutes_with_selection(tree: JsonTree, step: SegmentView)
    requires
        tree is Array || tree is Object,
    ensures
        selected(written(tree), step) == match selected(tree, step) {
            Some(value) => Some(written(value)),
            None => None,
        },
{
    match (tree, step) {
        (JsonTree::Object(fields), SegmentView::Key(key)) => {
            let parts = written(tree)->Object_0;
            lemma_written_field(fields, parts, key);
        },
        _ => {},
    }
}

/// The fields that are written have the names of the fields they were written for.
proof fn lemma_written_field(
    fields: Seq<(Seq<char>, JsonTree)>,
    parts: Seq<(Seq<char>, JsonTree)>,
    key: Seq<char>,
)
    requires
        parts.len() == fields.len(),
        forall|i: int|
            0 <= i < fields.len() ==> (#[trigger] parts[i]).0 == fields[i].0 && parts[i].1
                == written(fields[i].1),
    ensures
        field_value(parts, key) == match field_value(fields, key) {
            Some(value) => Some(written(value)),
            None => None,
        },
    decreases fields.len(),
{
    if fields.len() > 0 {
        let rest = parts.drop_last();
        assert(parts[fields.len() - 1].0 == fields[fields.len() - 1].0);
        assert forall|i: int| 0 <= i < fields.drop_last().len() implies (#[trigger] rest[i]).0
            == fields.drop_last()[i].0 && rest[i].1 == written(fields.drop_last()[i].1) by {
            assert(rest[i] == parts[i]);
        }
        lemma_written_field(fields.drop_last(), rest, key);
    }
}

} // verus!
