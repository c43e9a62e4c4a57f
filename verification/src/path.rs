//! JSONPath-style selectors: `$.a.b`, `$.a[0]`, `$['a']`.

use crate::text::{from_chars, read_index, to_chars, trim, unquote};
use vstd::prelude::*;
use vstd::slice::slice_subrange;

verus! {

use crate::text::{decimal, index_numeral, trimmed, unquoted};

/// One step of a selector.
#[derive(Debug, Clone)]
pub enum Segment {
    /// The field of an object with this name.
    Key(String),
    /// The element of an array at this position.
    Index(usize),
}

/// What a [`Segment`] stands for.
pub enum SegmentView {
    Key(Seq<char>),
    Index(nat),
}

impl View for Segment {
    type V = SegmentView;

    open spec fn view(&self) -> SegmentView {
        match self {
            Segment::Key(key) => SegmentView::Key(key@),
            Segment::Index(index) => SegmentView::Index(*index as nat),
        }
    }
}

/// The views of `segments`, in order.
pub open spec fn segment_views(segments: Seq<Segment>) -> Seq<SegmentView> {
    segments.map_values(|s: Segment| s@)
}

/// Where a key after a dot ends.
pub open spec fn ends_key(c: char) -> bool {
    c == '.' || c == '['
}

/// The number of characters of `s` before the first one that ends a key.
pub open spec fn key_len(s: Seq<char>) -> nat
    decreases s.len(),
{
    if s.len() == 0 || ends_key(s[0]) {
        0
    } else {
        1 + key_len(s.skip(1))
    }
}

/// The number of characters of `s` before the first `]`.
pub open spec fn bracket_len(s: Seq<char>) -> nat
    decreases s.len(),
{
    if s.len() == 0 || s[0] == ']' {
        0
    } else {
        1 + bracket_len(s.skip(1))
    }
}

/// The segment that `[inner]` selects: a position if `inner` is the numeral of
/// one, else a key, which may stand in quotation marks and is not empty.
pub open spec fn bracket_segment(inner: Seq<char>) -> Option<SegmentView> {
    match index_numeral(trimmed(inner)) {
        Some(index) => Some(SegmentView::Index(index)),
        None => if unquoted(trimmed(inner)).len() == 0 {
            None
        } else {
            Some(SegmentView::Key(unquoted(trimmed(inner))))
        },
    }
}

/// The segments that `s` lists: `.key` and `[inner]` in any order, or `None` if
/// `s` is anything else.
pub open spec fn listed_segments(s: Seq<char>) -> Option<Seq<SegmentView>>
    decreases s.len(),
{
    if s.len() == 0 {
        Some(seq![])
    } else if s[0] == '.' {
        let n = key_len(s.skip(1));
        if n == 0 {
            None
        } else {
            proof {
                lemma_key_len(s.skip(1));
            }
            prefixed(
                SegmentView::Key(s.subrange(1, 1 + n as int)),
                listed_segments(s.skip(1 + n as int)),
            )
        }
    } else if s[0] == '[' {
        let n = bracket_len(s.skip(1));
        if 1 + n >= s.len() {
            None
        } else {
            match bracket_segment(s.subrange(1, 1 + n as int)) {
                Some(segment) => prefixed(segment, listed_segments(s.skip(2 + n as int))),
                None => None,
            }
        }
    } else {
        None
    }
}

/// A key is no longer than the text that it starts.
pub proof fn lemma_key_len(s: Seq<char>)
    ensures
        key_len(s) <= s.len(),
    decreases s.len(),
{
    if s.len() > 0 && !ends_key(s[0]) {
        lemma_key_len(s.skip(1));
    }
}

/// `first` before the segments of `rest`, if there are any to be had.
pub open spec fn prefixed(
    first: SegmentView,
    rest: Option<Seq<SegmentView>>,
) -> Option<Seq<SegmentView>> {
    match rest {
        Some(segments) => Some(seq![first] + segments),
        None => None,
    }
}

/// Whether `path` starts with the `$` of a selector.
pub open spec fn starts_at_root(path: Seq<char>) -> bool {
    path.len() > 0 && path[0] == '$'
}

/// The segments of the selector `path`: a `$`, then a list of segments.
pub open spec fn path_segments(path: Seq<char>) -> Option<Seq<SegmentView>> {
    if starts_at_root(path) {
        listed_segments(path.skip(1))
    } else {
        None
    }
}

/// `head` before the segments of `rest`, if there are any to be had.
spec fn continued(
    head: Seq<SegmentView>,
    rest: Option<Seq<SegmentView>>,
) -> Option<Seq<SegmentView>> {
    match rest {
        Some(segments) => Some(head + segments),
        None => None,
    }
}

/// The number of characters of `chars` from `from` on before the first one that
/// ends a key.
fn scan_key(chars: &[char], from: usize) -> (n: usize)
    requires
        from <= chars.len(),
    ensures
        n == key_len(chars@.skip(from as int)),
        from + n <= chars.len(),
{
    let mut n: usize = 0;
    while from + n < chars.len() && chars[from + n] != '.' && chars[from + n] != '['
        invariant
            from + n <= chars.len(),
            key_len(chars@.skip(from as int)) == n + key_len(chars@.skip(from + n)),
        decreases chars.len() - n,
    {
        assert(chars@.skip(from + n).skip(1) == chars@.skip(from + n + 1));
        n += 1;
    }
    n
}

/// The number of characters of `chars` from `from` on before the first `]`.
fn scan_bracket(chars: &[char], from: usize) -> (n: usize)
    requires
        from <= chars.len(),
    ensures
        n == bracket_len(chars@.skip(from as int)),
        from + n <= chars.len(),
{
    let mut n: usize = 0;
    while from + n < chars.len() && chars[from + n] != ']'
        invariant
            from + n <= chars.len(),
            bracket_len(chars@.skip(from as int)) == n + bracket_len(chars@.skip(from + n)),
        decreases chars.len() - n,
    {
        assert(chars@.skip(from + n).skip(1) == chars@.skip(from + n + 1));
        n += 1;
    }
    n
}

/// The segment that `[inner]` selects.
fn read_bracket(inner: &[char]) -> (r: Option<Segment>)
    ensures
        match r {
            Some(segment) => bracket_segment(inner@) == Some(segment@),
            None => bracket_segment(inner@) is None,
        },
{
    let inner = trim(inner);
    match read_index(inner) {
        Some(index) => Some(Segment::Index(index)),
        None => {
            let key = unquote(inner);
            if key.len() == 0 {
                None
            } else {
                Some(Segment::Key(from_chars(key)))
            }
        },
    }
}

/// Whether `path` starts with the `$` of a selector.
pub fn is_rooted(path: &str) -> (r: bool)
    ensures
        r == starts_at_root(path@),
{
    let chars: Vec<char> = to_chars(path);
    chars.len() > 0 && chars[0] == '$'
}

/// Parses a JSONPath-style selector into segments. Supports `$.a.b`, `$.a[0]`
/// and bracketed keys `$['a']`; anything else is malformed and gives `None`.
pub fn parse_path(path: &str) -> (r: Option<Vec<Segment>>)
    ensures
        match r {
            Some(segments) => path_segments(path@) == Some(segment_views(segments@)),
            None => path_segments(path@) is None,
        },
{
    let all: Vec<char> = to_chars(path);
    let chars: &[char] = all.as_slice();
    if chars.len() == 0 || chars[0] != '$' {
        return None;
    }
    let mut segments: Vec<Segment> = Vec::new();
    let mut at: usize = 1;
    proof {
        let rest = listed_segments(chars@.skip(1));
        assert(rest == continued(segment_views(segments@), rest)) by {
            if rest is Some {
                assert(segment_views(segments@) + rest->0 == rest->0);
            }
        }
    }
    while at < chars.len()
        invariant
            1 <= at <= chars.len(),
            chars@ == path@,
            chars@[0] == '$',
            path_segments(path@) == continued(
                segment_views(segments@),
                listed_segments(chars@.skip(at as int)),
            ),
        decreases chars.len() - at,
    {
        let ghost s = chars@.skip(at as int);
        let ghost head = segment_views(segments@);
        let segment: Segment;
        let next: usize;
        if chars[at] == '.' {
            let n: usize = scan_key(chars, at + 1);
            assert(chars@.skip(at + 1) == s.skip(1));
            if n == 0 {
                return None;
            }
            let key = slice_subrange(chars, at + 1, at + 1 + n);
            assert(key@ == s.subrange(1, 1 + n as int));
            segment = Segment::Key(from_chars(key));
            next = at + 1 + n;
            assert(chars@.skip(next as int) == s.skip(1 + n as int));
        } else if chars[at] == '[' {
            let n: usize = scan_bracket(chars, at + 1);
            assert(chars@.skip(at + 1) == s.skip(1));
            if at + 1 + n == chars.len() {
                return None;
            }
            let inner = slice_subrange(chars, at + 1, at + 1 + n);
            assert(inner@ == s.subrange(1, 1 + n as int));
            match read_bracket(inner) {
                Some(found) => {
                    segment = found;
                },
                None => {
                    return None;
                },
            }
            next = at + 1 + n + 1;
            assert(chars@.skip(next as int) == s.skip(2 + n as int));
        } else {
            return None;
        }
        let ghost rest = listed_segments(chars@.skip(next as int));
        assert(listed_segments(s) == prefixed(segment@, rest));
        segments.push(segment);
        proof {
            assert(segment_views(segments@) == head.push(segment@));
            if rest is Some {
                assert(head + (seq![segment@] + rest->0) == segment_views(segments@) + rest->0);
            }
        }
        at = next;
    }
    proof {
        assert(chars@.skip(at as int).len() == 0);
        assert(segment_views(segments@) + Seq::<SegmentView>::empty() == segment_views(segments@));
    }
    Some(segments)
}

/// A key ends where it ended before, whatever a list of segments adds behind it.
proof fn lemma_key_len_append(s: Seq<char>, tail: Seq<char>)
    requires
        tail.len() > 0 ==> ends_key(tail[0]),
    ensures
        key_len(s + tail) == key_len(s),
    decreases s.len(),
{
    if s.len() > 0 {
        assert((s + tail).skip(1) == s.skip(1) + tail);
        if !ends_key(s[0]) {
            lemma_key_len_append(s.skip(1), tail);
        }
    } else {
        assert(s + tail == tail);
    }
}

/// A closed bracket closes where it closed before, whatever stands behind it.
proof fn lemma_bracket_len_append(s: Seq<char>, tail: Seq<char>)
    requires
        bracket_len(s) < s.len(),
    ensures
        bracket_len(s + tail) == bracket_len(s),
    decreases s.len(),
{
    assert((s + tail).skip(1) == s.skip(1) + tail);
    if s[0] != ']' {
        lemma_bracket_len_append(s.skip(1), tail);
    }
}

/// Two lists of segments, one behind the other, list the segments of both.
pub proof fn law_lists_concatenate(a: Seq<char>, b: Seq<char>)
    requires
        listed_segments(a) is Some,
        listed_segments(b) is Some,
    ensures
        listed_segments(a + b) == Some(listed_segments(a)->0 + listed_segments(b)->0),
    decreases a.len(),
{
    let whole = a + b;
    let y = listed_segments(b)->0;
    if a.len() == 0 {
        assert(whole == b);
        assert(listed_segments(a)->0 + y == y);
    } else {
        assert(whole.skip(1) == a.skip(1) + b);
        if a[0] == '.' {
            let n = key_len(a.skip(1));
            lemma_key_len(a.skip(1));
            lemma_key_len_append(a.skip(1), b);
            let rest = a.skip(1 + n as int);
            assert(whole.skip(1 + n as int) == rest + b);
            assert(whole.subrange(1, 1 + n as int) == a.subrange(1, 1 + n as int));
            law_lists_concatenate(rest, b);
            let first = seq![SegmentView::Key(a.subrange(1, 1 + n as int))];
            assert(first + (listed_segments(rest)->0 + y) == (first + listed_segments(rest)->0)
                + y);
        } else {
            let n = bracket_len(a.skip(1));
            lemma_bracket_len_append(a.skip(1), b);
            let rest = a.skip(2 + n as int);
            assert(whole.skip(2 + n as int) == rest + b);
            assert(whole.subrange(1, 1 + n as int) == a.subrange(1, 1 + n as int));
            law_lists_concatenate(rest, b);
            let first = seq![bracket_segment(a.subrange(1, 1 + n as int))->0];
            assert(first + (listed_segments(rest)->0 + y) == (first + listed_segments(rest)->0)
                + y);
        }
    }
}

/// A selector followed by a list of segments selects those segments after its
/// own.
pub proof fn law_path_extends(path: Seq<char>, list: Seq<char>)
    requires
        path_segments(path) is Some,
        listed_segments(list) is Some,
    ensures
        path_segments(path + list) == Some(path_segments(path)->0 + listed_segments(list)->0),
{
    assert((path + list).skip(1) == path.skip(1) + list);
    law_lists_concatenate(path.skip(1), list);
}

/// A text in which nothing ends a key is one key.
proof fn lemma_key_len_whole(s: Seq<char>)
    requires
        forall|i: int| 0 <= i < s.len() ==> !ends_key(#[trigger] s[i]),
    ensures
        key_len(s) == s.len(),
    decreases s.len(),
{
    if s.len() > 0 {
        assert(!ends_key(s[0]));
        assert forall|i: int| 0 <= i < s.skip(1).len() implies !ends_key(
            #[trigger] s.skip(1)[i],
        ) by {
            assert(s.skip(1)[i] == s[i + 1]);
        }
        lemma_key_len_whole(s.skip(1));
    }
}

/// A text without `]`, followed by `]`, closes at that `]`.
proof fn lemma_bracket_len_whole(s: Seq<char>)
    requires
        !s.contains(']'),
    ensures
        bracket_len(s.push(']')) == s.len(),
    decreases s.len(),
{
    if s.len() > 0 {
        assert(s.push(']').skip(1) == s.skip(1).push(']'));
        assert(s[0] != ']');
        assert forall|i: int| 0 <= i < s.skip(1).len() implies s.skip(1)[i] != ']' by {
            assert(s.skip(1)[i] == s[i + 1]);
        }
        lemma_bracket_len_whole(s.skip(1));
    }
}

/// `.key` selects the field `key`, whatever its name, as long as it is not empty
/// and holds neither `.` nor `[`.
pub proof fn law_dot_selects_key(key: Seq<char>)
    requires
        key.len() > 0,
        forall|i: int| 0 <= i < key.len() ==> (#[trigger] key[i]) != '.' && key[i] != '[',
    ensures
        listed_segments(seq!['.'] + key) == Some(seq![SegmentView::Key(key)]),
{
    let s = seq!['.'] + key;
    assert(s.skip(1) == key);
    lemma_key_len_whole(key);
    assert(s.subrange(1, 1 + key.len() as int) == key);
    assert(s.skip(1 + key.len() as int) == Seq::<char>::empty());
    assert(listed_segments(s.skip(1 + key.len() as int)) == Some(Seq::<SegmentView>::empty()));
    assert(seq![SegmentView::Key(key)] + Seq::<SegmentView>::empty() == seq![
        SegmentView::Key(key),
    ]);
}

/// What `[inner]` selects, where `inner` holds no `]`.
proof fn lemma_bracket_selects(inner: Seq<char>, segment: SegmentView)
    requires
        !inner.contains(']'),
        bracket_segment(inner) == Some(segment),
    ensures
        listed_segments(seq!['['] + inner + seq![']']) == Some(seq![segment]),
{
    let s = seq!['['] + inner + seq![']'];
    let n = inner.len();
    assert(s.skip(1) == inner.push(']'));
    lemma_bracket_len_whole(inner);
    assert(s.subrange(1, 1 + n as int) == inner);
    assert(s.skip(2 + n as int) == Seq::<char>::empty());
    assert(listed_segments(s.skip(2 + n as int)) == Some(Seq::<SegmentView>::empty()));
    assert(seq![segment] + Seq::<SegmentView>::empty() == seq![segment]);
}

/// `[i]` selects the element at position `i`, for every position.
pub proof fn law_bracket_selects_index(i: nat)
    requires
        i <= usize::MAX,
    ensures
        listed_segments(seq!['['] + decimal(i) + seq![']']) == Some(seq![SegmentView::Index(i)]),
{
    let inner = decimal(i);
    crate::text::law_decimal_reads_back(i);
    crate::text::law_index_reads_back(i);
    assert(crate::text::is_digit(inner[0]));
    assert(crate::text::is_digit(inner[inner.len() - 1]));
    crate::text::lemma_trimmed_keeps(inner);
    lemma_bracket_selects(inner, SegmentView::Index(i));
}

/// `['key']` selects the field `key`, also one that holds `.` or `[` or is a
/// numeral, as long as it is not empty, holds no `]` and does not start or end
/// with a quotation mark.
pub proof fn law_bracket_selects_key(key: Seq<char>, mark: char)
    requires
        mark == '\'' || mark == '"',
        key.len() > 0,
        !key.contains(']'),
        key[0] != '\'' && key[0] != '"',
        key.last() != '\'' && key.last() != '"',
    ensures
        listed_segments(seq!['[', mark] + key + seq![mark, ']']) == Some(
            seq![SegmentView::Key(key)],
        ),
{
    let inner = seq![mark] + key + seq![mark];
    let p = |c: char| crate::text::quote_mark(c);
    assert forall|i: int| 0 <= i < inner.len() implies inner[i] != ']' by {
        if 1 <= i <= key.len() {
            assert(inner[i] == key[i - 1]);
        }
    }
    crate::text::lemma_trimmed_keeps(inner);
    assert(!crate::text::is_digit(inner[0]));
    assert(index_numeral(trimmed(inner)) is None);
    assert(inner.skip(1) == key.push(mark));
    assert(crate::text::strip_start(inner.skip(1), p) == inner.skip(1));
    assert(key.push(mark).drop_last() == key);
    reveal_with_fuel(crate::text::strip_end, 2);
    assert(unquoted(inner) == key);
    lemma_bracket_selects(inner, SegmentView::Key(key));
    assert(seq!['['] + inner + seq![']'] == seq!['[', mark] + key + seq![mark, ']']);
}

/// A text that lists no segments lists none behind a list either, where it starts with
/// `.` or `[`.
pub proof fn law_malformed_rest(a: Seq<char>, b: Seq<char>)
    requires
        listed_segments(a) is Some,
        listed_segments(b) is None,
        b[0] == '.' || b[0] == '[',
    ensures
        listed_segments(a + b) is None,
    decreases a.len(),
{
    let whole = a + b;
    if a.len() == 0 {
        assert(whole == b);
    } else {
        assert(b.len() > 0);
        assert(whole.skip(1) == a.skip(1) + b);
        if a[0] == '.' {
            let n = key_len(a.skip(1));
            lemma_key_len(a.skip(1));
            lemma_key_len_append(a.skip(1), b);
            let rest = a.skip(1 + n as int);
            assert(whole.skip(1 + n as int) == rest + b);
            law_malformed_rest(rest, b);
        } else {
            let n = bracket_len(a.skip(1));
            lemma_bracket_len_append(a.skip(1), b);
            let rest = a.skip(2 + n as int);
            assert(whole.skip(2 + n as int) == rest + b);
            law_malformed_rest(rest, b);
        }
    }
}

/// A text without `]` closes no bracket.
proof fn lemma_bracket_len_open(s: Seq<char>)
    requires
        !s.contains(']'),
    ensures
        bracket_len(s) == s.len(),
    decreases s.len(),
{
    if s.len() > 0 {
        assert(s[0] != ']');
        assert forall|i: int| 0 <= i < s.skip(1).len() implies s.skip(1)[i] != ']' by {
            assert(s.skip(1)[i] == s[i + 1]);
        }
        lemma_bracket_len_open(s.skip(1));
    }
}

/// What is malformed: a path without `$`, a character other than `.` and `[` where a
/// segment is to start, an empty key, a bracket that is not closed, and one that holds
/// nothing but white space.
pub proof fn law_malformed_paths(s: Seq<char>, c: char, blank: Seq<char>)
    requires
        forall|i: int| 0 <= i < blank.len() ==> crate::text::white_space(#[trigger] blank[i]),
    ensures
        s.len() == 0 || s[0] != '$' ==> path_segments(s) is None,
        c != '.' && c != '[' ==> path_segments(seq!['$', c] + s) is None,
        path_segments(seq!['$', '.']) is None,
        path_segments(seq!['$', '.', '.'] + s) is None,
        path_segments(seq!['$', '.', '['] + s) is None,
        !s.contains(']') ==> path_segments(seq!['$', '['] + s) is None,
        path_segments(seq!['$', '['] + blank + seq![']'] + s) is None,
        path_segments(seq!['$']) == Some(Seq::<SegmentView>::empty()),
{
    assert((seq!['$', c] + s).skip(1) == seq![c] + s);
    assert(seq!['$', '.'].skip(1) == seq!['.']);
    assert(seq!['.'].skip(1) == Seq::<char>::empty());
    assert((seq!['$', '.', '.'] + s).skip(1).skip(1) == seq!['.'] + s);
    assert((seq!['$', '.', '['] + s).skip(1).skip(1) == seq!['['] + s);
    assert(seq!['$'].skip(1) == Seq::<char>::empty());
    if !s.contains(']') {
        let open = seq!['$', '['] + s;
        assert(open.skip(1) == seq!['['] + s);
        assert((seq!['['] + s).skip(1) == s);
        lemma_bracket_len_open(s);
    }
    let empty = seq!['$', '['] + blank + seq![']'] + s;
    let list = empty.skip(1);
    assert(list == seq!['['] + (blank + seq![']'] + s));
    assert(!blank.contains(']'));
    lemma_bracket_len_whole(blank);
    lemma_bracket_len_append(blank.push(']'), s);
    assert(list.skip(1) == blank.push(']') + s);
    assert(list.subrange(1, 1 + blank.len() as int) == blank);
    crate::text::law_trimmed_ignores_padding(blank, Seq::empty(), Seq::empty());
    assert(blank + Seq::<char>::empty() + Seq::<char>::empty() == blank);
    crate::text::law_index_numerals(Seq::empty(), 0);
    assert(unquoted(Seq::<char>::empty()).len() == 0);
}

/// White space inside a bracket, around what it holds, does not count.
pub proof fn law_bracket_ignores_padding(before: Seq<char>, inner: Seq<char>, behind: Seq<char>)
    requires
        forall|i: int| 0 <= i < before.len() ==> crate::text::white_space(#[trigger] before[i]),
        forall|i: int| 0 <= i < behind.len() ==> crate::text::white_space(#[trigger] behind[i]),
        inner.len() > 0,
        !inner.contains(']'),
        !crate::text::white_space(inner[0]),
        !crate::text::white_space(inner.last()),
    ensures
        listed_segments(seq!['['] + (before + inner + behind) + seq![']']) == listed_segments(
            seq!['['] + inner + seq![']'],
        ),
{
    let padded = before + inner + behind;
    crate::text::law_trimmed_ignores_padding(before, inner, behind);
    crate::text::law_trimmed_ignores_padding(Seq::empty(), inner, Seq::empty());
    assert(Seq::<char>::empty() + inner + Seq::<char>::empty() == inner);
    assert forall|i: int| 0 <= i < padded.len() implies padded[i] != ']' by {
        if i < before.len() {
            assert(padded[i] == before[i]);
        } else if i < before.len() + inner.len() {
            assert(padded[i] == inner[i - before.len()]);
        } else {
            assert(padded[i] == behind[i - before.len() - inner.len()]);
        }
    }
    match bracket_segment(inner) {
        Some(segment) => {
            lemma_bracket_selects(inner, segment);
            lemma_bracket_selects(padded, segment);
        },
        None => {
            let a = seq!['['] + inner + seq![']'];
            let b = seq!['['] + padded + seq![']'];
            assert(a.skip(1) == inner.push(']'));
            assert(b.skip(1) == padded.push(']'));
            lemma_bracket_len_whole(inner);
            lemma_bracket_len_whole(padded);
            assert(a.subrange(1, 1 + inner.len() as int) == inner);
            assert(b.subrange(1, 1 + padded.len() as int) == padded);
        },
    }
}

/// `[name]` without quotation marks selects the field `name`, unless it is the numeral
/// of a position.
pub proof fn law_bare_bracket_selects_key(name: Seq<char>, i: int)
    requires
        0 <= i < name.len(),
        name[0] != '+',
        !('0' as int <= name[i] as int <= '9' as int),
        !name.contains(']'),
        !crate::text::white_space(name[0]),
        !crate::text::white_space(name.last()),
        name[0] != '\'' && name[0] != '"' && name.last() != '\'' && name.last() != '"',
    ensures
        listed_segments(seq!['['] + name + seq![']']) == Some(seq![SegmentView::Key(name)]),
{
    crate::text::law_index_numerals(name, i);
    crate::text::lemma_trimmed_keeps(name);
    assert(unquoted(name) == name);
    lemma_bracket_selects(name, SegmentView::Key(name));
}

} // verus!
