//! Content-based filtering of notifications.
//!
//! A [`ContentFilter`] is one predicate over the JSON data of an event: a
//! selector, an operator, and a value to compare with. A notification is
//! delivered only if the data of its event satisfies the predicate.
//!
//! Where a comparison is numeric, it needs the numbers that certain texts stand
//! for. [`ContentFilter::numeric_texts`] lists those texts, the caller reads them
//! as double-precision numbers, and [`ContentFilter::evaluate`] decides by what
//! was read.

use crate::double::{Double, NumberReadings};
use crate::json::{resolve, to_compact, JsonValue};
use crate::path::{is_rooted, parse_path};
use crate::text::{contains_text, order_text, same_text, trim_text, Order};
use vstd::prelude::*;

verus! {

use crate::double::{law_order_is_numeric, reading, INFINITY_BITS};
use crate::json::{
    bool_text, compact_text, law_first_steps, law_key_selects_last_field, law_resolve_composes,
    lemma_tree_of_parts, resolved, selected, trees, written, JsonTree,
};
use crate::path::{
    law_bracket_selects_index, law_bracket_selects_key, law_dot_selects_key,
    law_path_extends, path_segments, starts_at_root, SegmentView,
};
use crate::text::{
    decimal, law_lexicographic_equal, law_occurs_between, law_trimmed_ignores_padding,
    lexicographic, occurs_in, texts, trimmed, white_space,
};

/// Supported comparison operators.
#[derive(Debug, Clone, Copy, PartialEq, Eq, Structural)]
pub enum FilterOp {
    /// Equal (numeric when both sides are numbers, else as text).
    Eq,
    /// Not equal.
    Ne,
    /// Greater than.
    Gt,
    /// Less than.
    Lt,
    /// Greater than or equal.
    Gte,
    /// Less than or equal.
    Lte,
    /// Field (string or array) contains the value.
    Contains,
    /// Field matches the value interpreted as a regular expression.
    Matches,
}

/// A single content filter predicate.
#[derive(Debug, Clone)]
pub struct ContentFilter {
    /// JSONPath-style selector, e.g. `$.amount` or `$.transfer.to`.
    pub path: String,
    /// Comparison operator.
    pub op: FilterOp,
    /// Right-hand comparison value (always provided as a string).
    pub value: String,
}

/// What a [`ContentFilter`] stands for.
pub struct FilterView {
    pub path: Seq<char>,
    pub op: FilterOp,
    pub value: Seq<char>,
}

impl View for ContentFilter {
    type V = FilterView;

    open spec fn view(&self) -> FilterView {
        FilterView { path: self.path@, op: self.op, value: self.value@ }
    }
}

/// `regex::Regex`, carried through unread.
#[verifier::external_type_specification]
#[verifier::external_body]
pub struct ExRegex(regex::Regex);

/// `regex::Error`, carried through unread.
#[verifier::external_type_specification]
#[verifier::external_body]
pub struct ExRegexError(regex::Error);

/// Whether `compiled` is what the regular expression `pattern` compiles to.
pub uninterp spec fn compiles_to(pattern: Seq<char>, compiled: regex::Regex) -> bool;

/// Whether compiling the regular expression `pattern` fails with `error`.
pub uninterp spec fn fails_with(pattern: Seq<char>, error: regex::Error) -> bool;

/// What the `regex` crate has against the regular expression `pattern`, if it
/// does not compile. For a pattern close to the limit of size this is the answer on
/// the pointer width that the library is built for.
pub uninterp spec fn regex_rejection(pattern: Seq<char>) -> Option<Seq<char>>;

/// Whether the regular expression `pattern`, which compiles, matches somewhere in
/// `text`.
pub uninterp spec fn regex_finds(pattern: Seq<char>, text: Seq<char>) -> bool;

/// `regex::Regex::new`: compiles a regular expression, or says why it does not
/// compile. Which of the two is a function of the pattern.
#[verifier::external_body]
fn compile_regex(pattern: &str) -> (r: Result<regex::Regex, regex::Error>)
    ensures
        match r {
            Ok(compiled) => compiles_to(pattern@, compiled) && regex_rejection(pattern@) is None,
            Err(error) => fails_with(pattern@, error) && regex_rejection(pattern@) is Some,
        },
{
    regex::Regex::new(pattern)
}

/// The displayed text of a `regex::Error`, a function of the pattern that was
/// rejected.
#[verifier::external_body]
fn regex_error_text(error: &regex::Error) -> (r: String)
    ensures
        forall|pattern: Seq<char>| #[trigger]
            fails_with(pattern, *error) ==> regex_rejection(pattern) == Some(r@),
{
    error.to_string()
}

/// `regex::Regex::is_match`: whether the expression matches somewhere in a text,
/// a function of the pattern and the text.
#[verifier::external_body]
fn regex_is_match(compiled: &regex::Regex, text: &str) -> (r: bool)
    ensures
        forall|pattern: Seq<char>| #[trigger]
            compiles_to(pattern, *compiled) ==> r == regex_finds(pattern, text@),
{
    compiled.is_match(text)
}

/// What is wrong with the regular expression `pattern`, if anything.
pub fn regex_error(pattern: &str) -> (r: Option<String>)
    ensures
        match r {
            Some(text) => regex_rejection(pattern@) == Some(text@),
            None => regex_rejection(pattern@) is None,
        },
{
    match compile_regex(pattern) {
        Ok(_) => None,
        Err(error) => Some(regex_error_text(&error)),
    }
}

/// Whether the regular expression `pattern` compiles and matches somewhere in
/// `text`.
pub fn regex_matches(pattern: &str, text: &str) -> (r: bool)
    ensures
        r == (regex_rejection(pattern@) is None && regex_finds(pattern@, text@)),
{
    match compile_regex(pattern) {
        Ok(compiled) => regex_is_match(&compiled, text),
        Err(_) => false,
    }
}

/// The text of `tree` for comparisons of text: a string itself, `null`, `true` or
/// `false`, else the compact JSON text.
pub open spec fn scalar_text(tree: JsonTree) -> Seq<char> {
    match tree {
        JsonTree::String(text) => text,
        JsonTree::Null => "null"@,
        JsonTree::Bool(b) => bool_text(b),
        _ => compact_text(written(tree)),
    }
}

/// The text that has to stand for a number if `tree` is to be compared as one:
/// that of a number itself, that of a string without white space at its ends.
pub open spec fn number_text(tree: JsonTree) -> Option<Seq<char>> {
    match tree {
        JsonTree::Number(text) => Some(text),
        JsonTree::String(text) => Some(trimmed(text)),
        _ => None,
    }
}

/// The number that `tree` is compared as.
pub open spec fn number_of(tree: JsonTree, readings: Map<Seq<char>, Double>) -> Option<Double> {
    match number_text(tree) {
        Some(text) => reading(readings, text),
        None => None,
    }
}

/// The truth value that `tree` is.
pub open spec fn truth_of(tree: JsonTree) -> Option<bool> {
    match tree {
        JsonTree::Bool(b) => Some(b),
        _ => None,
    }
}

/// The truth value that `text` names.
pub open spec fn truth_named(text: Seq<char>) -> Option<bool> {
    if text == "true"@ {
        Some(true)
    } else if text == "false"@ {
        Some(false)
    } else {
        None
    }
}

/// Whether the left side, a value with the number `left`, the truth value `truth`
/// and the text `text`, equals the right side, the text `expected` with the
/// number `right`: as numbers if both are numbers, else as truth values if both
/// are, else as texts.
pub open spec fn equal_by(
    left: Option<Double>,
    right: Option<Double>,
    truth: Option<bool>,
    text: Seq<char>,
    expected: Seq<char>,
) -> bool {
    if left is Some && right is Some {
        left->0.spec_equals(right->0)
    } else if truth is Some && truth_named(expected) is Some {
        truth == truth_named(expected)
    } else {
        text == expected
    }
}

/// How the left side, with the number `left` and the text `text`, stands to the
/// right side, the text `expected` with the number `right`: by number if both are
/// numbers, else in lexicographic order. `None` if one is not a number though it
/// was read as one.
pub open spec fn order_by(
    left: Option<Double>,
    right: Option<Double>,
    text: Seq<char>,
    expected: Seq<char>,
) -> Option<Order> {
    if left is Some && right is Some {
        left->0.spec_order(right->0)
    } else {
        Some(lexicographic(text, expected))
    }
}

/// Whether `op` is one of the operators that need an order.
pub open spec fn is_ordering(op: FilterOp) -> bool {
    op == FilterOp::Gt || op == FilterOp::Lt || op == FilterOp::Gte || op == FilterOp::Lte
}

/// Whether a left side that stands to the right side in the order `order`
/// satisfies `op`.
pub open spec fn order_satisfies(op: FilterOp, order: Option<Order>) -> bool {
    match order {
        Some(order) => match op {
            FilterOp::Gt => order == Order::Greater,
            FilterOp::Lt => order == Order::Less,
            FilterOp::Gte => order != Order::Less,
            FilterOp::Lte => order != Order::Greater,
            _ => false,
        },
        None => false,
    }
}

/// Whether `tree` equals `expected`.
pub open spec fn tree_equals(
    tree: JsonTree,
    expected: Seq<char>,
    readings: Map<Seq<char>, Double>,
) -> bool {
    equal_by(
        number_of(tree, readings),
        reading(readings, trimmed(expected)),
        truth_of(tree),
        scalar_text(tree),
        expected,
    )
}

/// How `tree` stands to `expected`.
pub open spec fn tree_order(
    tree: JsonTree,
    expected: Seq<char>,
    readings: Map<Seq<char>, Double>,
) -> Option<Order> {
    order_by(
        number_of(tree, readings),
        reading(readings, trimmed(expected)),
        scalar_text(tree),
        expected,
    )
}

/// Whether one of `items` equals `expected`.
pub open spec fn some_item_equals(
    items: Seq<JsonTree>,
    expected: Seq<char>,
    readings: Map<Seq<char>, Double>,
) -> bool {
    exists|i: int| 0 <= i < items.len() && tree_equals(#[trigger] items[i], expected, readings)
}

/// Whether `tree` contains `expected`: an array as an equal item, a string as part
/// of its text. Nothing else contains anything.
pub open spec fn tree_contains(
    tree: JsonTree,
    expected: Seq<char>,
    readings: Map<Seq<char>, Double>,
) -> bool {
    match tree {
        JsonTree::Array(items) => some_item_equals(items, expected, readings),
        JsonTree::String(text) => occurs_in(expected, text),
        _ => false,
    }
}

/// Whether `tree` satisfies the operator `op` with the right side `expected`.
pub open spec fn tree_satisfies(
    tree: JsonTree,
    op: FilterOp,
    expected: Seq<char>,
    readings: Map<Seq<char>, Double>,
) -> bool {
    match op {
        FilterOp::Eq => tree_equals(tree, expected, readings),
        FilterOp::Ne => !tree_equals(tree, expected, readings),
        FilterOp::Gt | FilterOp::Lt | FilterOp::Gte | FilterOp::Lte => order_satisfies(
            op,
            tree_order(tree, expected, readings),
        ),
        FilterOp::Contains => tree_contains(tree, expected, readings),
        FilterOp::Matches => regex_rejection(expected) is None && regex_finds(
            expected,
            scalar_text(tree),
        ),
    }
}

/// The value in `data` that `filter` speaks of, if its path is well formed and
/// leads to one.
pub open spec fn target(filter: FilterView, data: JsonTree) -> Option<JsonTree> {
    match path_segments(filter.path) {
        Some(segments) => resolved(data, segments),
        None => None,
    }
}

/// Whether a notification about an event with the data `data` is delivered: a
/// malformed path delivers nothing, a field that is absent is unequal to
/// everything and satisfies no other operator.
pub open spec fn delivers(
    filter: FilterView,
    data: JsonTree,
    readings: Map<Seq<char>, Double>,
) -> bool {
    path_segments(filter.path) is Some && match target(filter, data) {
        Some(tree) => tree_satisfies(tree, filter.op, filter.value, readings),
        None => filter.op == FilterOp::Ne,
    }
}

/// Renders a JSON value as text for comparisons of text. Objects and arrays
/// render as their compact JSON form.
pub fn scalar_to_string(value: &JsonValue) -> (r: String)
    ensures
        r@ == scalar_text(value@),
{
    match value {
        JsonValue::String(text) => text.clone(),
        JsonValue::Null => String::from_str("null"),
        _ => to_compact(value),
    }
}

/// The number that a JSON value is compared as.
pub fn as_number(value: &JsonValue, readings: &NumberReadings) -> (r: Option<Double>)
    ensures
        r == number_of(value@, readings@),
{
    match value {
        JsonValue::Number(text) => readings.get(text.as_str()),
        JsonValue::String(text) => readings.get(trim_text(text.as_str()).as_str()),
        _ => None,
    }
}

/// The truth value that `text` names.
pub fn parse_truth(text: &str) -> (r: Option<bool>)
    ensures
        r == truth_named(text@),
{
    if same_text(text, "true") {
        Some(true)
    } else if same_text(text, "false") {
        Some(false)
    } else {
        None
    }
}

/// Whether a left side with the number `left`, the truth value `truth` and the
/// text `text` equals the text `expected` with the number `right`.
pub fn decide_equal(
    left: Option<Double>,
    right: Option<Double>,
    truth: Option<bool>,
    text: &str,
    expected: &str,
) -> (r: bool)
    ensures
        r == equal_by(left, right, truth, text@, expected@),
{
    if let (Some(a), Some(b)) = (left, right) {
        return a.equals(&b);
    }
    if let Some(b) = truth {
        if let Some(named) = parse_truth(expected) {
            return b == named;
        }
    }
    same_text(text, expected)
}

/// How a left side with the number `left` and the text `text` stands to the text
/// `expected` with the number `right`.
pub fn decide_order(
    left: Option<Double>,
    right: Option<Double>,
    text: &str,
    expected: &str,
) -> (r: Option<Order>)
    ensures
        r == order_by(left, right, text@, expected@),
{
    match (left, right) {
        (Some(a), Some(b)) => a.order(&b),
        _ => Some(order_text(text, expected)),
    }
}

/// Whether a JSON value equals the value of a filter.
pub fn values_equal(value: &JsonValue, expected: &str, readings: &NumberReadings) -> (r: bool)
    ensures
        r == tree_equals(value@, expected@, readings@),
{
    let truth: Option<bool> = match value {
        JsonValue::Bool(b) => Some(*b),
        _ => None,
    };
    decide_equal(
        as_number(value, readings),
        readings.get(trim_text(expected).as_str()),
        truth,
        scalar_to_string(value).as_str(),
        expected,
    )
}

/// Whether a JSON value satisfies an operator that needs an order.
pub fn ordered_compare(
    value: &JsonValue,
    op: FilterOp,
    expected: &str,
    readings: &NumberReadings,
) -> (r: bool)
    requires
        is_ordering(op),
    ensures
        r == order_satisfies(op, tree_order(value@, expected@, readings@)),
{
    let order = decide_order(
        as_number(value, readings),
        readings.get(trim_text(expected).as_str()),
        scalar_to_string(value).as_str(),
        expected,
    );
    match order {
        Some(order) => match op {
            FilterOp::Gt => order == Order::Greater,
            FilterOp::Lt => order == Order::Less,
            FilterOp::Gte => order != Order::Less,
            _ => order != Order::Greater,
        },
        None => false,
    }
}

/// Whether a JSON value, an array or a string, contains the value of a filter.
pub fn contains(value: &JsonValue, expected: &str, readings: &NumberReadings) -> (r: bool)
    ensures
        r == tree_contains(value@, expected@, readings@),
{
    match value {
        JsonValue::Array(items) => {
            proof {
                lemma_tree_of_parts(*value);
            }
            let ghost parts = trees(items@);
            let mut i: usize = 0;
            while i < items.len()
                invariant
                    i <= items.len(),
                    parts == trees(items@),
                    value@ == JsonTree::Array(parts),
                    forall|j: int|
                        0 <= j < i ==> !tree_equals(#[trigger] parts[j], expected@, readings@),
                decreases items.len() - i,
            {
                if values_equal(&items[i], expected, readings) {
                    assert(tree_equals(parts[i as int], expected@, readings@));
                    return true;
                }
                i += 1;
            }
            false
        },
        JsonValue::String(text) => contains_text(text.as_str(), expected),
        _ => false,
    }
}

/// Compares a JSON value with the value of a filter.
pub fn compare(
    value: &JsonValue,
    op: FilterOp,
    expected: &str,
    readings: &NumberReadings,
) -> (r: bool)
    ensures
        r == tree_satisfies(value@, op, expected@, readings@),
{
    match op {
        FilterOp::Eq => values_equal(value, expected, readings),
        FilterOp::Ne => !values_equal(value, expected, readings),
        FilterOp::Gt | FilterOp::Lt | FilterOp::Gte | FilterOp::Lte => ordered_compare(
            value,
            op,
            expected,
            readings,
        ),
        FilterOp::Contains => contains(value, expected, readings),
        FilterOp::Matches => regex_matches(expected, scalar_to_string(value).as_str()),
    }
}

/// The texts of those of `items` that are compared as numbers, if they stand for
/// numbers.
pub open spec fn item_number_texts(items: Seq<JsonTree>) -> Seq<Seq<char>>
    decreases items.len(),
{
    if items.len() == 0 {
        seq![]
    } else {
        item_number_texts(items.drop_last()) + own_number_text(items.last())
    }
}

/// The text of `tree` that has to stand for a number, if there is one.
pub open spec fn own_number_text(tree: JsonTree) -> Seq<Seq<char>> {
    match number_text(tree) {
        Some(text) => seq![text],
        None => seq![],
    }
}

/// The texts whose readings decide whether `filter` delivers an event with the
/// data `data`.
pub open spec fn consulted_texts(filter: FilterView, data: JsonTree) -> Seq<Seq<char>> {
    match target(filter, data) {
        Some(tree) => match filter.op {
            FilterOp::Matches => seq![],
            FilterOp::Contains => match tree {
                JsonTree::Array(items) => item_number_texts(items).push(trimmed(filter.value)),
                _ => seq![],
            },
            _ => own_number_text(tree).push(trimmed(filter.value)),
        },
        None => seq![],
    }
}

/// Whether `readings` and `others` agree on every text of `consulted`.
pub open spec fn agree_on(
    consulted: Seq<Seq<char>>,
    readings: Map<Seq<char>, Double>,
    others: Map<Seq<char>, Double>,
) -> bool {
    forall|i: int|
        0 <= i < consulted.len() ==> reading(readings, #[trigger] consulted[i]) == reading(
            others,
            consulted[i],
        )
}

/// What is wrong with `filter`, given what is wrong with its value as a regular
/// expression: a path that does not start with `$`, one that selects no field, or
/// a value that is to be matched and does not compile.
pub open spec fn complaint(filter: FilterView, rejection: Option<Seq<char>>) -> Option<Seq<char>> {
    if !starts_at_root(filter.path) {
        Some("content_filter path must start with '$' (got '"@ + filter.path + "')"@)
    } else if path_segments(filter.path) is None || path_segments(filter.path)->0.len() == 0 {
        Some("content_filter path '"@ + filter.path + "' does not select a field"@)
    } else if filter.op == FilterOp::Matches && rejection is Some {
        Some("content_filter value is not a valid regex: "@ + rejection->0)
    } else {
        None
    }
}

/// Whether `outcome` tells exactly what is wrong.
pub open spec fn tells(outcome: Result<(), String>, wrong: Option<Seq<char>>) -> bool {
    match outcome {
        Ok(_) => wrong is None,
        Err(message) => wrong == Some(message@),
    }
}

/// The view of an optional string.
pub open spec fn optional_text(s: Option<String>) -> Option<Seq<char>> {
    match s {
        Some(text) => Some(text@),
        None => None,
    }
}

impl ContentFilter {
    /// Validates the filter, given what is wrong with its value as a regular
    /// expression.
    pub fn validate_given(&self, rejection: Option<String>) -> (r: Result<(), String>)
        ensures
            tells(r, complaint(self@, optional_text(rejection))),
    {
        if !is_rooted(self.path.as_str()) {
            let mut message = String::from_str("content_filter path must start with '$' (got '");
            message.append(self.path.as_str());
            message.append("')");
            return Err(message);
        }
        let selects: bool = match parse_path(self.path.as_str()) {
            Some(segments) => segments.len() > 0,
            None => false,
        };
        if !selects {
            let mut message = String::from_str("content_filter path '");
            message.append(self.path.as_str());
            message.append("' does not select a field");
            return Err(message);
        }
        if self.op == FilterOp::Matches {
            if let Some(text) = rejection {
                let mut message = String::from_str("content_filter value is not a valid regex: ");
                message.append(text.as_str());
                return Err(message);
            }
        }
        Ok(())
    }

    /// Validates the filter without evaluating it. Gives a human-readable error
    /// for invalid path syntax or an uncompilable regex (`matches`).
    pub fn validate(&self) -> (r: Result<(), String>)
        ensures
            tells(r, complaint(self@, regex_rejection(self@.value))),
    {
        let rejection: Option<String> = if self.op == FilterOp::Matches {
            regex_error(self.value.as_str())
        } else {
            None
        };
        self.validate_given(rejection)
    }

    /// The texts that are to be read as numbers before this filter is evaluated
    /// on `data`.
    pub fn numeric_texts(&self, data: &JsonValue) -> (r: Vec<String>)
        ensures
            texts(r@) == consulted_texts(self@, data@),
    {
        let mut out: Vec<String> = Vec::new();
        assert(texts(out@) == Seq::<Seq<char>>::empty());
        let segments = match parse_path(self.path.as_str()) {
            Some(segments) => segments,
            None => {
                return out;
            },
        };
        let value: &JsonValue = match resolve(data, segments.as_slice()) {
            Some(value) => value,
            None => {
                return out;
            },
        };
        if self.op == FilterOp::Matches {
            return out;
        }
        if self.op == FilterOp::Contains {
            match value {
                JsonValue::Array(items) => {
                    proof {
                        lemma_tree_of_parts(*value);
                    }
                    let ghost parts = trees(items@);
                    assert(parts.take(0) == Seq::<JsonTree>::empty());
                    let mut i: usize = 0;
                    while i < items.len()
                        invariant
                            i <= items.len(),
                            parts == trees(items@),
                            texts(out@) == item_number_texts(parts.take(i as int)),
                        decreases items.len() - i,
                    {
                        push_number_text(&mut out, &items[i]);
                        assert(parts.take(i + 1).drop_last() == parts.take(i as int));
                        i += 1;
                    }
                    assert(parts.take(parts.len() as int) == parts);
                },
                _ => {
                    return out;
                },
            }
        } else {
            push_number_text(&mut out, value);
            assert(Seq::<Seq<char>>::empty() + own_number_text(value@) == own_number_text(value@));
        }
        let ghost before = out@;
        out.push(trim_text(self.value.as_str()));
        assert(texts(out@) == texts(before).push(trimmed(self@.value)));
        out
    }

    /// Evaluates the filter on the data of an event, and tells whether the
    /// notification is to be delivered. A path that does not resolve satisfies
    /// only `ne`; a malformed path satisfies nothing, and so does `contains` on a
    /// value of a type that it is not for. `readings` holds the numbers that texts
    /// stand for, at least for those that [`ContentFilter::numeric_texts`] lists.
    pub fn evaluate(&self, data: &JsonValue, readings: &NumberReadings) -> (r: bool)
        ensures
            r == delivers(self@, data@, readings@),
    {
        let segments = match parse_path(self.path.as_str()) {
            Some(segments) => segments,
            None => {
                return false;
            },
        };
        match resolve(data, segments.as_slice()) {
            Some(value) => compare(value, self.op, self.value.as_str(), readings),
            None => self.op == FilterOp::Ne,
        }
    }
}

/// Appends the text of `value` that has to stand for a number, if there is one.
fn push_number_text(out: &mut Vec<String>, value: &JsonValue)
    ensures
        texts(final(out)@) == texts(old(out)@) + own_number_text(value@),
{
    let ghost before = out@;
    match value {
        JsonValue::Number(text) => {
            out.push(text.clone());
        },
        JsonValue::String(text) => {
            out.push(trim_text(text.as_str()));
        },
        _ => {},
    }
    assert(texts(out@) == texts(before) + own_number_text(value@));
}

/// `filter` with the operator `op`.
pub open spec fn with_op(filter: FilterView, op: FilterOp) -> FilterView {
    FilterView { path: filter.path, op, value: filter.value }
}

/// `filter` with the selector `path`.
pub open spec fn with_path(filter: FilterView, path: Seq<char>) -> FilterView {
    FilterView { path, op: filter.op, value: filter.value }
}

/// The texts of single items are among those of all items.
proof fn lemma_item_text_consulted(items: Seq<JsonTree>, i: int)
    requires
        0 <= i < items.len(),
        number_text(items[i]) is Some,
    ensures
        item_number_texts(items).contains(number_text(items[i])->0),
    decreases items.len(),
{
    let head = item_number_texts(items.drop_last());
    let own = own_number_text(items.last());
    if i == items.len() - 1 {
        assert((head + own)[head.len() as int] == own[0]);
    } else {
        lemma_item_text_consulted(items.drop_last(), i);
        let k = choose|k: int| 0 <= k < head.len() && head[k] == number_text(items[i])->0;
        assert((head + own)[k] == head[k]);
    }
}

/// The texts that a filter lists for an event are all that it has to know: any
/// two sets of readings that agree on them lead to the same decision.
pub proof fn law_listed_readings_suffice(
    filter: FilterView,
    data: JsonTree,
    readings: Map<Seq<char>, Double>,
    others: Map<Seq<char>, Double>,
)
    requires
        agree_on(consulted_texts(filter, data), readings, others),
    ensures
        delivers(filter, data, readings) == delivers(filter, data, others),
{
    let consulted = consulted_texts(filter, data);
    if let Some(tree) = target(filter, data) {
        match filter.op {
            FilterOp::Matches => {},
            FilterOp::Contains => {
                if let JsonTree::Array(items) = tree {
                    assert(consulted[consulted.len() - 1] == trimmed(filter.value));
                    assert forall|i: int| 0 <= i < items.len() implies tree_equals(
                        #[trigger] items[i],
                        filter.value,
                        readings,
                    ) == tree_equals(items[i], filter.value, others) by {
                        if number_text(items[i]) is Some {
                            lemma_item_text_consulted(items, i);
                            let own = item_number_texts(items);
                            let k = choose|k: int|
                                0 <= k < own.len() && own[k] == number_text(items[i])->0;
                            assert(consulted[k] == own[k]);
                        }
                    }
                    if some_item_equals(items, filter.value, readings) {
                        let i = choose|i: int|
                            0 <= i < items.len() && tree_equals(
                                #[trigger] items[i],
                                filter.value,
                                readings,
                            );
                        assert(tree_equals(items[i], filter.value, others));
                    }
                    if some_item_equals(items, filter.value, others) {
                        let i = choose|i: int|
                            0 <= i < items.len() && tree_equals(
                                #[trigger] items[i],
                                filter.value,
                                others,
                            );
                        assert(tree_equals(items[i], filter.value, readings));
                    }
                }
            },
            _ => {
                assert(consulted[consulted.len() - 1] == trimmed(filter.value));
                if number_text(tree) is Some {
                    assert(consulted[0] == number_text(tree)->0);
                }
            },
        }
    }
}

/// `ne` delivers exactly what `eq` does not, also where the field is absent, as
/// long as the path is well formed.
pub proof fn law_ne_negates_eq(
    filter: FilterView,
    data: JsonTree,
    readings: Map<Seq<char>, Double>,
)
    requires
        path_segments(filter.path) is Some,
    ensures
        delivers(with_op(filter, FilterOp::Ne), data, readings) == !delivers(
            with_op(filter, FilterOp::Eq),
            data,
            readings,
        ),
{
}

/// A path that leads nowhere delivers under `ne` and under no other operator.
pub proof fn law_absent_field_satisfies_only_ne(
    filter: FilterView,
    data: JsonTree,
    readings: Map<Seq<char>, Double>,
)
    requires
        path_segments(filter.path) is Some,
        target(filter, data) is None,
    ensures
        delivers(filter, data, readings) <==> filter.op == FilterOp::Ne,
{
}

/// A malformed path delivers nothing, under any operator.
pub proof fn law_malformed_path_delivers_nothing(
    filter: FilterView,
    data: JsonTree,
    readings: Map<Seq<char>, Double>,
)
    requires
        path_segments(filter.path) is None,
    ensures
        !delivers(filter, data, readings),
{
}

/// A filter that passes validation has a path that selects at least one field,
/// and a value that compiles if it is to be matched. A filter that does not pass
/// lacks one of these.
pub proof fn law_valid_filters(filter: FilterView)
    ensures
        complaint(filter, regex_rejection(filter.value)) is None <==> {
            &&& path_segments(filter.path) is Some
            &&& path_segments(filter.path)->0.len() > 0
            &&& filter.op == FilterOp::Matches ==> regex_rejection(filter.value) is None
        },
{
}

/// `gte` is `gt` or `eq`, and `lte` is `lt` or `eq`, by number and by text alike.
pub proof fn law_orders_agree_with_equality(
    filter: FilterView,
    data: JsonTree,
    readings: Map<Seq<char>, Double>,
)
    ensures
        delivers(with_op(filter, FilterOp::Gte), data, readings) == (delivers(
            with_op(filter, FilterOp::Gt),
            data,
            readings,
        ) || delivers(with_op(filter, FilterOp::Eq), data, readings)),
        delivers(with_op(filter, FilterOp::Lte), data, readings) == (delivers(
            with_op(filter, FilterOp::Lt),
            data,
            readings,
        ) || delivers(with_op(filter, FilterOp::Eq), data, readings)),
{
    if let Some(tree) = target(filter, data) {
        law_lexicographic_equal(scalar_text(tree), filter.value);
        assert("true"@ != "false"@) by {
            reveal_strlit("true");
            reveal_strlit("false");
            assert("true"@.len() != "false"@.len());
        }
    }
}

/// `gt` and `lte` never both deliver, nor do `lt` and `gte`. One of each pair does
/// wherever the field is there and neither side, read as a number, is "not a number".
pub proof fn law_orders_exclude_each_other(
    filter: FilterView,
    data: JsonTree,
    readings: Map<Seq<char>, Double>,
)
    ensures
        ({
            let gt = delivers(with_op(filter, FilterOp::Gt), data, readings);
            let lt = delivers(with_op(filter, FilterOp::Lt), data, readings);
            let gte = delivers(with_op(filter, FilterOp::Gte), data, readings);
            let lte = delivers(with_op(filter, FilterOp::Lte), data, readings);
            &&& !(gt && lte)
            &&& !(lt && gte)
            &&& target(filter, data) matches Some(tree) ==> (tree_order(
                tree,
                filter.value,
                readings,
            ) is Some ==> (gt || lte) && (lt || gte))
        }),
{
}

/// `path.key` speaks of the field `key` of what `path` speaks of.
pub proof fn law_dot_descends(filter: FilterView, key: Seq<char>, data: JsonTree)
    requires
        path_segments(filter.path) is Some,
        key.len() > 0,
        forall|i: int| 0 <= i < key.len() ==> (#[trigger] key[i]) != '.' && key[i] != '[',
    ensures
        target(with_path(filter, filter.path + (seq!['.'] + key)), data) == match target(
            filter,
            data,
        ) {
            Some(tree) => selected(tree, SegmentView::Key(key)),
            None => None,
        },
{
    let own = path_segments(filter.path)->0;
    let step = seq![SegmentView::Key(key)];
    law_dot_selects_key(key);
    law_path_extends(filter.path, seq!['.'] + key);
    law_resolve_composes(data, own, step);
    lemma_single_step(data, own, SegmentView::Key(key));
}

/// `path[i]` speaks of the element at position `i` of what `path` speaks of.
pub proof fn law_bracket_descends(filter: FilterView, i: nat, data: JsonTree)
    requires
        path_segments(filter.path) is Some,
        i <= usize::MAX,
    ensures
        target(with_path(filter, filter.path + (seq!['['] + decimal(i) + seq![']'])), data)
            == match target(filter, data) {
            Some(tree) => selected(tree, SegmentView::Index(i)),
            None => None,
        },
{
    let own = path_segments(filter.path)->0;
    law_bracket_selects_index(i);
    law_path_extends(filter.path, seq!['['] + decimal(i) + seq![']']);
    law_resolve_composes(data, own, seq![SegmentView::Index(i)]);
    lemma_single_step(data, own, SegmentView::Index(i));
}

/// `path['key']` speaks of the field `key` of what `path` speaks of, as `path.key`
/// does where that is well formed.
pub proof fn law_quoted_key_descends(filter: FilterView, key: Seq<char>, mark: char, data: JsonTree)
    requires
        path_segments(filter.path) is Some,
        mark == '\'' || mark == '"',
        key.len() > 0,
        !key.contains(']'),
        key[0] != '\'' && key[0] != '"',
        key.last() != '\'' && key.last() != '"',
    ensures
        target(with_path(filter, filter.path + (seq!['[', mark] + key + seq![mark, ']'])), data)
            == match target(filter, data) {
            Some(tree) => selected(tree, SegmentView::Key(key)),
            None => None,
        },
{
    let own = path_segments(filter.path)->0;
    law_bracket_selects_key(key, mark);
    law_path_extends(filter.path, seq!['[', mark] + key + seq![mark, ']']);
    law_resolve_composes(data, own, seq![SegmentView::Key(key)]);
    lemma_single_step(data, own, SegmentView::Key(key));
}

/// Walking along one segment is selecting by it.
proof fn lemma_single_step(data: JsonTree, own: Seq<SegmentView>, step: SegmentView)
    ensures
        resolved(data, own) matches Some(tree) ==> resolved(tree, seq![step]) == selected(
            tree,
            step,
        ),
{
    reveal_with_fuel(resolved, 2);
    assert(seq![step].skip(1) == Seq::<SegmentView>::empty());
}

/// Where both sides are numbers, neither of them infinite or "not a number", every
/// comparison is that of the numbers.
pub proof fn law_numbers_compare_by_value(
    filter: FilterView,
    data: JsonTree,
    readings: Map<Seq<char>, Double>,
    tree: JsonTree,
    left: Double,
    right: Double,
)
    requires
        target(filter, data) == Some(tree),
        number_of(tree, readings) == Some(left),
        reading(readings, trimmed(filter.value)) == Some(right),
        left.magnitude() < INFINITY_BITS,
        right.magnitude() < INFINITY_BITS,
    ensures
        delivers(with_op(filter, FilterOp::Eq), data, readings) <==> left.units() == right.units(),
        delivers(with_op(filter, FilterOp::Ne), data, readings) <==> left.units() != right.units(),
        delivers(with_op(filter, FilterOp::Gt), data, readings) <==> left.units() > right.units(),
        delivers(with_op(filter, FilterOp::Lt), data, readings) <==> left.units() < right.units(),
        delivers(with_op(filter, FilterOp::Gte), data, readings) <==> left.units() >= right.units(),
        delivers(with_op(filter, FilterOp::Lte), data, readings) <==> left.units() <= right.units(),
{
    law_order_is_numeric(left, right);
}

/// Where one side is not a number, every order is the lexicographic one of the texts.
pub proof fn law_texts_compare_in_lexicographic_order(
    filter: FilterView,
    data: JsonTree,
    readings: Map<Seq<char>, Double>,
    tree: JsonTree,
)
    requires
        target(filter, data) == Some(tree),
        number_of(tree, readings) is None || reading(readings, trimmed(filter.value)) is None,
    ensures
        ({
            let order = lexicographic(scalar_text(tree), filter.value);
            &&& delivers(with_op(filter, FilterOp::Gt), data, readings) <==> order
                == Order::Greater
            &&& delivers(with_op(filter, FilterOp::Lt), data, readings) <==> order == Order::Less
            &&& delivers(with_op(filter, FilterOp::Gte), data, readings) <==> order != Order::Less
            &&& delivers(with_op(filter, FilterOp::Lte), data, readings) <==> order
                != Order::Greater
        }),
{
}

/// `contains` delivers nothing where the value is neither a string nor an array.
pub proof fn law_contains_needs_string_or_array(
    filter: FilterView,
    data: JsonTree,
    readings: Map<Seq<char>, Double>,
    tree: JsonTree,
)
    requires
        target(filter, data) == Some(tree),
        !(tree is String),
        !(tree is Array),
    ensures
        !delivers(with_op(filter, FilterOp::Contains), data, readings),
{
}

/// An array contains a value exactly if `eq` delivers for one of its elements.
pub proof fn law_contains_is_eq_of_an_element(
    filter: FilterView,
    data: JsonTree,
    readings: Map<Seq<char>, Double>,
    items: Seq<JsonTree>,
)
    requires
        target(filter, data) == Some(JsonTree::Array(items)),
        items.len() <= usize::MAX,
    ensures
        delivers(with_op(filter, FilterOp::Contains), data, readings) <==> exists|i: nat|
            i < items.len() && #[trigger] delivers(
                with_op(element_filter(filter, i), FilterOp::Eq),
                data,
                readings,
            ),
{
    assert forall|i: nat| i < items.len() implies #[trigger] delivers(
        with_op(element_filter(filter, i), FilterOp::Eq),
        data,
        readings,
    ) == tree_equals(items[i as int], filter.value, readings) by {
        law_bracket_descends(with_op(filter, FilterOp::Eq), i, data);
        law_bracket_selects_index(i);
        law_path_extends(filter.path, seq!['['] + decimal(i) + seq![']']);
        assert(with_op(element_filter(filter, i), FilterOp::Eq) == with_path(
            with_op(filter, FilterOp::Eq),
            filter.path + (seq!['['] + decimal(i) + seq![']']),
        ));
    }
    if some_item_equals(items, filter.value, readings) {
        let i = choose|i: int|
            0 <= i < items.len() && tree_equals(#[trigger] items[i], filter.value, readings);
        assert(delivers(
            with_op(element_filter(filter, i as nat), FilterOp::Eq),
            data,
            readings,
        ));
    }
}

/// `filter` on the element at position `i` of what it speaks of.
pub open spec fn element_filter(filter: FilterView, i: nat) -> FilterView {
    with_path(filter, filter.path + (seq!['['] + decimal(i) + seq![']']))
}

/// A filter on the field `key`, by its name after a dot.
pub open spec fn field_filter(key: Seq<char>, op: FilterOp, value: Seq<char>) -> FilterView {
    FilterView { path: seq!['$', '.'] + key, op, value }
}

/// A filter on a field of the data speaks of the value of that field, wherever the
/// field stands among others.
pub proof fn law_filter_speaks_of_its_field(
    key: Seq<char>,
    op: FilterOp,
    value: Seq<char>,
    before: Seq<(Seq<char>, JsonTree)>,
    tree: JsonTree,
    behind: Seq<(Seq<char>, JsonTree)>,
)
    requires
        key.len() > 0,
        forall|i: int| 0 <= i < key.len() ==> (#[trigger] key[i]) != '.' && key[i] != '[',
        forall|i: int| 0 <= i < behind.len() ==> (#[trigger] behind[i]).0 != key,
    ensures
        path_segments(field_filter(key, op, value).path) is Some,
        target(
            field_filter(key, op, value),
            JsonTree::Object(before + seq![(key, tree)] + behind),
        ) == Some(tree),
{
    let filter = field_filter(key, op, value);
    law_dot_selects_key(key);
    assert(filter.path.skip(1) == seq!['.'] + key);
    law_first_steps(
        JsonTree::Object(before + seq![(key, tree)] + behind),
        SegmentView::Key(key),
    );
    law_key_selects_last_field(before, key, tree, behind);
}

/// `contains` on a string field delivers exactly if the string is the value of the
/// filter with something before it and something behind it, either of which may be
/// nothing.
pub proof fn law_contains_finds_every_occurrence(
    filter: FilterView,
    data: JsonTree,
    readings: Map<Seq<char>, Double>,
    text: Seq<char>,
)
    requires
        target(filter, data) == Some(JsonTree::String(text)),
    ensures
        delivers(with_op(filter, FilterOp::Contains), data, readings) <==> exists|
            a: Seq<char>,
            b: Seq<char>,
        |
            text == #[trigger] (a + filter.value + b),
{
    law_occurs_between(filter.value, text);
}

/// `contains` delivers on a field that holds the value of the filter between any two
/// texts, and on a field that is the value, starts with it or ends with it.
pub proof fn law_contains_delivers_around_value(
    key: Seq<char>,
    value: Seq<char>,
    a: Seq<char>,
    b: Seq<char>,
    readings: Map<Seq<char>, Double>,
)
    requires
        key.len() > 0,
        forall|i: int| 0 <= i < key.len() ==> (#[trigger] key[i]) != '.' && key[i] != '[',
    ensures
        delivers(
            field_filter(key, FilterOp::Contains, value),
            JsonTree::Object(seq![(key, JsonTree::String(a + value + b))]),
            readings,
        ),
        delivers(
            field_filter(key, FilterOp::Contains, value),
            JsonTree::Object(seq![(key, JsonTree::String(value + b))]),
            readings,
        ),
        delivers(
            field_filter(key, FilterOp::Contains, value),
            JsonTree::Object(seq![(key, JsonTree::String(a + value))]),
            readings,
        ),
{
    lemma_contains_around(key, value, a, b, readings);
    lemma_contains_around(key, value, Seq::empty(), b, readings);
    lemma_contains_around(key, value, a, Seq::empty(), readings);
    assert(Seq::<char>::empty() + value + b == value + b);
    assert(a + value + Seq::<char>::empty() == a + value);
}

/// `contains` delivers on a field that holds the value of the filter between two texts.
proof fn lemma_contains_around(
    key: Seq<char>,
    value: Seq<char>,
    a: Seq<char>,
    b: Seq<char>,
    readings: Map<Seq<char>, Double>,
)
    requires
        key.len() > 0,
        forall|i: int| 0 <= i < key.len() ==> (#[trigger] key[i]) != '.' && key[i] != '[',
    ensures
        delivers(
            field_filter(key, FilterOp::Contains, value),
            JsonTree::Object(seq![(key, JsonTree::String(a + value + b))]),
            readings,
        ),
{
    let tree = JsonTree::String(a + value + b);
    let none = Seq::<(Seq<char>, JsonTree)>::empty();
    let filter = field_filter(key, FilterOp::Contains, value);
    law_filter_speaks_of_its_field(key, FilterOp::Contains, value, none, tree, none);
    assert(none + seq![(key, tree)] + none == seq![(key, tree)]);
    let data = JsonTree::Object(seq![(key, tree)]);
    law_contains_finds_every_occurrence(filter, data, readings, a + value + b);
    assert(with_op(filter, FilterOp::Contains) == filter);
}

/// On a string field, `eq` delivers exactly where the string is the value of the filter,
/// unless both are numbers.
pub proof fn law_strings_are_equal_as_texts(
    filter: FilterView,
    data: JsonTree,
    readings: Map<Seq<char>, Double>,
    text: Seq<char>,
)
    requires
        target(filter, data) == Some(JsonTree::String(text)),
        !(readings.dom().contains(trimmed(text)) && readings.dom().contains(
            trimmed(filter.value),
        )),
    ensures
        delivers(with_op(filter, FilterOp::Eq), data, readings) <==> text == filter.value,
{
}

/// On a string field, every order is the lexicographic one of the string and the value
/// of the filter, unless both are numbers.
pub proof fn law_strings_are_ordered_as_texts(
    filter: FilterView,
    data: JsonTree,
    readings: Map<Seq<char>, Double>,
    text: Seq<char>,
)
    requires
        target(filter, data) == Some(JsonTree::String(text)),
        !(readings.dom().contains(trimmed(text)) && readings.dom().contains(
            trimmed(filter.value),
        )),
    ensures
        delivers(with_op(filter, FilterOp::Gt), data, readings) <==> lexicographic(
            text,
            filter.value,
        ) == Order::Greater,
        delivers(with_op(filter, FilterOp::Lt), data, readings) <==> lexicographic(
            text,
            filter.value,
        ) == Order::Less,
        delivers(with_op(filter, FilterOp::Gte), data, readings) <==> lexicographic(
            text,
            filter.value,
        ) != Order::Less,
        delivers(with_op(filter, FilterOp::Lte), data, readings) <==> lexicographic(
            text,
            filter.value,
        ) != Order::Greater,
{
}

/// A number in the data, and a string that reads as one, count as that number: with
/// white space around the string or without, and so does the value of the filter.
pub proof fn law_numeric_strings_count_as_numbers(
    filter: FilterView,
    data: JsonTree,
    readings: Map<Seq<char>, Double>,
    before: Seq<char>,
    numeral: Seq<char>,
    behind: Seq<char>,
)
    requires
        forall|i: int| 0 <= i < before.len() ==> white_space(#[trigger] before[i]),
        forall|i: int| 0 <= i < behind.len() ==> white_space(#[trigger] behind[i]),
        numeral.len() > 0,
        !white_space(numeral[0]),
        !white_space(numeral.last()),
        readings.dom().contains(numeral),
    ensures
        number_of(JsonTree::Number(numeral), readings) == Some(readings[numeral]),
        number_of(JsonTree::String(before + numeral + behind), readings) == Some(
            readings[numeral],
        ),
        reading(readings, trimmed(before + numeral + behind)) == Some(readings[numeral]),
        number_of(JsonTree::Null, readings) is None,
        forall|b: bool| #[trigger] number_of(JsonTree::Bool(b), readings) is None,
{
    law_trimmed_ignores_padding(before, numeral, behind);
}

/// A truth value equals its own name and not that of the other.
pub proof fn law_truth_values_are_equal_by_name(
    filter: FilterView,
    data: JsonTree,
    readings: Map<Seq<char>, Double>,
    b: bool,
)
    requires
        target(filter, data) == Some(JsonTree::Bool(b)),
    ensures
        delivers(with_op(filter, FilterOp::Eq), data, readings) <==> filter.value == if b {
            "true"@
        } else {
            "false"@
        },
{
    assert("true"@ != "false"@) by {
        reveal_strlit("true");
        reveal_strlit("false");
        assert("true"@.len() != "false"@.len());
    }
}

/// `null` equals the text `null` and nothing else.
pub proof fn law_null_equals_its_name(
    filter: FilterView,
    data: JsonTree,
    readings: Map<Seq<char>, Double>,
)
    requires
        target(filter, data) == Some(JsonTree::Null),
    ensures
        delivers(with_op(filter, FilterOp::Eq), data, readings) <==> filter.value == "null"@,
{
}

/// `matches` on a string field delivers exactly if the value of the filter compiles as a
/// regular expression and is found in the string.
pub proof fn law_matches_searches_the_string(
    filter: FilterView,
    data: JsonTree,
    readings: Map<Seq<char>, Double>,
    text: Seq<char>,
)
    requires
        target(filter, data) == Some(JsonTree::String(text)),
    ensures
        delivers(with_op(filter, FilterOp::Matches), data, readings) <==> (regex_rejection(
            filter.value,
        ) is None && regex_finds(filter.value, text)),
{
}

/// What a complaint about a filter names: the path where the path is to blame, else what
/// the regular expression was rejected for.
pub proof fn law_complaints_name_the_cause(filter: FilterView, rejection: Option<Seq<char>>)
    ensures
        complaint(filter, rejection) matches Some(message) ==> {
            if path_segments(filter.path) is None || path_segments(filter.path)->0.len() == 0 {
                exists|a: Seq<char>, b: Seq<char>| message == #[trigger] (a + filter.path + b)
            } else {
                &&& filter.op == FilterOp::Matches
                &&& rejection is Some
                &&& exists|a: Seq<char>| message == #[trigger] (a + rejection->0)
            }
        },
{
    if let Some(message) = complaint(filter, rejection) {
        if !starts_at_root(filter.path) {
            assert(message == "content_filter path must start with '$' (got '"@ + filter.path
                + "')"@);
        } else if path_segments(filter.path) is None || path_segments(filter.path)->0.len() == 0 {
            assert(message == "content_filter path '"@ + filter.path
                + "' does not select a field"@);
        } else {
            assert(message == "content_filter value is not a valid regex: "@ + rejection->0);
        }
    }
}

/// Where both sides read as numbers, infinite ones among them, every comparison is by
/// their order as numbers, and by nothing else: where one is "not a number", only `ne`
/// delivers.
pub proof fn law_readings_decide_comparisons(
    filter: FilterView,
    data: JsonTree,
    readings: Map<Seq<char>, Double>,
    tree: JsonTree,
    left: Double,
    right: Double,
)
    requires
        target(filter, data) == Some(tree),
        number_of(tree, readings) == Some(left),
        reading(readings, trimmed(filter.value)) == Some(right),
    ensures
        delivers(with_op(filter, FilterOp::Eq), data, readings) <==> left.spec_order(right)
            == Some(Order::Equal),
        delivers(with_op(filter, FilterOp::Ne), data, readings) <==> left.spec_order(right)
            != Some(Order::Equal),
        delivers(with_op(filter, FilterOp::Gt), data, readings) <==> left.spec_order(right)
            == Some(Order::Greater),
        delivers(with_op(filter, FilterOp::Lt), data, readings) <==> left.spec_order(right)
            == Some(Order::Less),
        left.magnitude() > INFINITY_BITS || right.magnitude() > INFINITY_BITS ==> {
            &&& delivers(with_op(filter, FilterOp::Ne), data, readings)
            &&& !delivers(with_op(filter, FilterOp::Eq), data, readings)
            &&& !delivers(with_op(filter, FilterOp::Gt), data, readings)
            &&& !delivers(with_op(filter, FilterOp::Lt), data, readings)
            &&& !delivers(with_op(filter, FilterOp::Gte), data, readings)
            &&& !delivers(with_op(filter, FilterOp::Lte), data, readings)
        },
{
}

} // verus!
