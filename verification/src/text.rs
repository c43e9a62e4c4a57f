//! Text as sequences of characters: trimming, searching, ordering, numerals.
//!
//! The functions work on slices of `char`, so that every index is a character
//! index and every contract speaks of the sequence of characters alone.

use vstd::prelude::*;
use vstd::slice::slice_subrange;

verus! {

/// `String::push` appends one character.
pub assume_specification[ std::string::String::push ](s: &mut std::string::String, c: char)
    ensures
        final(s)@ == old(s)@.push(c),
;

/// The characters with the Unicode property `White_Space`.
pub open spec fn white_space(c: char) -> bool {
    let n = c as int;
    ||| 0x0009 <= n <= 0x000d
    ||| n == 0x0020
    ||| n == 0x0085
    ||| n == 0x00a0
    ||| n == 0x1680
    ||| 0x2000 <= n <= 0x200a
    ||| n == 0x2028
    ||| n == 0x2029
    ||| n == 0x202f
    ||| n == 0x205f
    ||| n == 0x3000
}

/// `char::is_whitespace` tells whether a character has the Unicode property
/// `White_Space`.
pub assume_specification[ char::is_whitespace ](c: char) -> (r: bool)
    ensures
        r == white_space(c),
;

/// `s` without its longest prefix of characters that satisfy `p`.
pub open spec fn strip_start(s: Seq<char>, p: spec_fn(char) -> bool) -> Seq<char>
    decreases s.len(),
{
    if s.len() > 0 && p(s[0]) {
        strip_start(s.skip(1), p)
    } else {
        s
    }
}

/// `s` without its longest suffix of characters that satisfy `p`.
pub open spec fn strip_end(s: Seq<char>, p: spec_fn(char) -> bool) -> Seq<char>
    decreases s.len(),
{
    if s.len() > 0 && p(s.last()) {
        strip_end(s.drop_last(), p)
    } else {
        s
    }
}

/// `s` without white space at either end.
pub open spec fn trimmed(s: Seq<char>) -> Seq<char> {
    strip_end(strip_start(s, |c: char| white_space(c)), |c: char| white_space(c))
}

/// A single or a double quotation mark.
pub open spec fn quote_mark(c: char) -> bool {
    c == '\'' || c == '"'
}

/// `s` without quotation marks at either end.
pub open spec fn unquoted(s: Seq<char>) -> Seq<char> {
    strip_end(strip_start(s, |c: char| quote_mark(c)), |c: char| quote_mark(c))
}

/// `s` with each ASCII upper-case letter replaced by its lower-case letter.
pub open spec fn ascii_lower(s: Seq<char>) -> Seq<char> {
    s.map_values(|c: char| lower_char(c))
}

/// The lower-case letter of an ASCII upper-case letter; any other character as
/// it is.
pub open spec fn lower_char(c: char) -> char {
    if 'A' as int <= c as int <= 'Z' as int {
        (c as int + 32) as char
    } else {
        c
    }
}

/// Whether `pattern` occurs in `s` as a run of consecutive characters.
pub open spec fn occurs_in(pattern: Seq<char>, s: Seq<char>) -> bool {
    exists|i: int| #[trigger] occurs_at(pattern, s, i)
}

/// Whether `pattern` occurs in `s` from position `i` on.
pub open spec fn occurs_at(pattern: Seq<char>, s: Seq<char>, i: int) -> bool {
    0 <= i && i + pattern.len() <= s.len() && s.subrange(i, i + pattern.len()) == pattern
}

/// How one value stands to another.
#[derive(Debug, Clone, Copy, PartialEq, Eq, Structural)]
pub enum Order {
    Less,
    Equal,
    Greater,
}

/// How `a` stands to `b` in lexicographic order by code point.
pub open spec fn lexicographic(a: Seq<char>, b: Seq<char>) -> Order
    decreases a.len(),
{
    if a.len() == 0 {
        if b.len() == 0 {
            Order::Equal
        } else {
            Order::Less
        }
    } else if b.len() == 0 {
        Order::Greater
    } else if (a[0] as int) < (b[0] as int) {
        Order::Less
    } else if (a[0] as int) > (b[0] as int) {
        Order::Greater
    } else {
        lexicographic(a.skip(1), b.skip(1))
    }
}

/// The hexadecimal digit of value `d`, in lower case.
pub open spec fn hex_digit(d: nat) -> char
    recommends
        d < 16,
{
    if d < 10 {
        ('0' as int + d) as char
    } else {
        ('a' as int + (d - 10)) as char
    }
}

/// The decimal numeral of `n`, without leading zeros.
pub open spec fn decimal(n: nat) -> Seq<char>
    decreases n,
{
    if n < 10 {
        seq![hex_digit(n)]
    } else {
        decimal(n / 10).push(hex_digit(n % 10))
    }
}

/// The two-digit hexadecimal numerals of `bytes`, one after the other.
pub open spec fn hex(bytes: Seq<u8>) -> Seq<char>
    decreases bytes.len(),
{
    if bytes.len() == 0 {
        seq![]
    } else {
        hex(bytes.drop_last()) + seq![
            hex_digit((bytes.last() / 16) as nat),
            hex_digit((bytes.last() % 16) as nat),
        ]
    }
}

/// Whether `c` is one of `0` to `9`.
pub open spec fn is_digit(c: char) -> bool {
    '0' as int <= c as int <= '9' as int
}

/// The number that a sequence of decimal digits stands for.
pub open spec fn digits_value(s: Seq<char>) -> nat
    decreases s.len(),
{
    if s.len() == 0 {
        0
    } else {
        10 * digits_value(s.drop_last()) + (s.last() as int - '0' as int) as nat
    }
}

/// Whether `s` consists of decimal digits alone.
pub open spec fn all_digits(s: Seq<char>) -> bool {
    forall|i: int| 0 <= i < s.len() ==> is_digit(#[trigger] s[i])
}

/// `s` without a leading `+`.
pub open spec fn without_plus(s: Seq<char>) -> Seq<char> {
    if s.len() > 0 && s[0] == '+' {
        s.skip(1)
    } else {
        s
    }
}

/// The index that `s` is the numeral of: an optional `+`, then one or more
/// decimal digits, of a value that fits in `usize`.
pub open spec fn index_numeral(s: Seq<char>) -> Option<nat> {
    let digits = without_plus(s);
    if digits.len() > 0 && all_digits(digits) && digits_value(digits) <= usize::MAX {
        Some(digits_value(digits))
    } else {
        None
    }
}

/// `parts` one after the other, with `separator` between neighbours.
pub open spec fn joined(parts: Seq<Seq<char>>, separator: Seq<char>) -> Seq<char>
    decreases parts.len(),
{
    if parts.len() == 0 {
        seq![]
    } else if parts.len() == 1 {
        parts[0]
    } else {
        joined(parts.drop_last(), separator) + separator + parts.last()
    }
}

/// The views of `strings`, in order.
pub open spec fn texts(strings: Seq<String>) -> Seq<Seq<char>> {
    strings.map_values(|s: String| s@)
}

/// The number of a character in Unicode.
fn code_point(c: char) -> (n: u32)
    ensures
        n as int == c as int,
{
    c as u32
}

/// The characters of `s`.
pub fn to_chars(s: &str) -> (r: Vec<char>)
    ensures
        r@ == s@,
{
    let mut out: Vec<char> = Vec::new();
    for c in it: s.chars()
        invariant
            out@ == it.seq().take(it.index() as int),
            it.seq() == s@,
    {
        out.push(c);
    }
    out
}

/// The string of the characters `chars`.
pub fn from_chars(chars: &[char]) -> (r: String)
    ensures
        r@ == chars@,
{
    let mut out = String::new();
    let mut i: usize = 0;
    while i < chars.len()
        invariant
            i <= chars.len(),
            out@ == chars@.take(i as int),
        decreases chars.len() - i,
    {
        out.push(chars[i]);
        i += 1;
    }
    assert(chars@.take(chars@.len() as int) == chars@);
    out
}

/// Whether `a` and `b` are the same sequence of characters.
pub fn same_chars(a: &[char], b: &[char]) -> (r: bool)
    ensures
        r == (a@ == b@),
{
    if a.len() != b.len() {
        return false;
    }
    let mut i: usize = 0;
    while i < a.len()
        invariant
            i <= a.len(),
            a.len() == b.len(),
            a@.take(i as int) == b@.take(i as int),
        decreases a.len() - i,
    {
        if a[i] != b[i] {
            return false;
        }
        i += 1;
        assert(a@.take(i as int) == a@.take(i - 1).push(a@[i - 1]));
        assert(b@.take(i as int) == b@.take(i - 1).push(b@[i - 1]));
    }
    assert(a@.take(i as int) == a@);
    assert(b@.take(i as int) == b@);
    true
}

/// Whether `a` and `b` are the same text.
pub fn same_text(a: &str, b: &str) -> (r: bool)
    ensures
        r == (a@ == b@),
{
    same_chars(to_chars(a).as_slice(), to_chars(b).as_slice())
}

/// `s` without white space at either end.
pub fn trim(s: &[char]) -> (r: &[char])
    ensures
        r@ == trimmed(s@),
{
    let ghost p = |c: char| white_space(c);
    let mut start: usize = 0;
    assert(s@.skip(0) == s@);
    while start < s.len() && s[start].is_whitespace()
        invariant
            start <= s.len(),
            p == (|c: char| white_space(c)),
            strip_start(s@, p) == strip_start(s@.skip(start as int), p),
        decreases s.len() - start,
    {
        assert(s@.skip(start as int).skip(1) == s@.skip(start + 1));
        start += 1;
    }
    let rest = slice_subrange(s, start, s.len());
    assert(rest@ == s@.skip(start as int));
    let mut end: usize = rest.len();
    assert(rest@.take(end as int) == rest@);
    while end > 0 && rest[end - 1].is_whitespace()
        invariant
            end <= rest.len(),
            p == (|c: char| white_space(c)),
            strip_end(rest@, p) == strip_end(rest@.take(end as int), p),
        decreases end,
    {
        assert(rest@.take(end as int).drop_last() == rest@.take(end - 1));
        end -= 1;
    }
    slice_subrange(rest, 0, end)
}

/// `s` without quotation marks at either end.
pub fn unquote(s: &[char]) -> (r: &[char])
    ensures
        r@ == unquoted(s@),
{
    let ghost p = |c: char| quote_mark(c);
    let mut start: usize = 0;
    assert(s@.skip(0) == s@);
    while start < s.len() && (s[start] == '\'' || s[start] == '"')
        invariant
            start <= s.len(),
            p == (|c: char| quote_mark(c)),
            strip_start(s@, p) == strip_start(s@.skip(start as int), p),
        decreases s.len() - start,
    {
        assert(s@.skip(start as int).skip(1) == s@.skip(start + 1));
        start += 1;
    }
    let rest = slice_subrange(s, start, s.len());
    assert(rest@ == s@.skip(start as int));
    let mut end: usize = rest.len();
    assert(rest@.take(end as int) == rest@);
    while end > 0 && (rest[end - 1] == '\'' || rest[end - 1] == '"')
        invariant
            end <= rest.len(),
            p == (|c: char| quote_mark(c)),
            strip_end(rest@, p) == strip_end(rest@.take(end as int), p),
        decreases end,
    {
        assert(rest@.take(end as int).drop_last() == rest@.take(end - 1));
        end -= 1;
    }
    slice_subrange(rest, 0, end)
}

/// The text `s` without white space at either end.
pub fn trim_text(s: &str) -> (r: String)
    ensures
        r@ == trimmed(s@),
{
    from_chars(trim(to_chars(s).as_slice()))
}

/// `s` with each ASCII upper-case letter replaced by its lower-case letter.
pub fn to_ascii_lower(s: &[char]) -> (r: Vec<char>)
    ensures
        r@ == ascii_lower(s@),
{
    let mut out: Vec<char> = Vec::new();
    let mut i: usize = 0;
    while i < s.len()
        invariant
            i <= s.len(),
            out@ == ascii_lower(s@.take(i as int)),
        decreases s.len() - i,
    {
        let c: char = s[i];
        let n: u32 = code_point(c);
        if 'A' as u32 <= n && n <= 'Z' as u32 {
            out.push((n as u8 + 32) as char);
        } else {
            out.push(c);
        }
        assert(out@.last() == lower_char(c));
        assert(s@.take(i + 1) == s@.take(i as int).push(c));
        assert(out@ == ascii_lower(s@.take(i + 1)));
        i += 1;
    }
    assert(s@.take(s@.len() as int) == s@);
    out
}

/// Whether `pattern` occurs in `s`.
pub fn contains_chars(s: &[char], pattern: &[char]) -> (r: bool)
    ensures
        r == occurs_in(pattern@, s@),
{
    if pattern.len() > s.len() {
        return false;
    }
    let last: usize = s.len() - pattern.len();
    let mut i: usize = 0;
    loop
        invariant
            i <= last,
            last + pattern.len() == s.len(),
            forall|j: int| 0 <= j < i ==> !(#[trigger] occurs_at(pattern@, s@, j)),
        decreases last - i,
    {
        if same_chars(slice_subrange(s, i, i + pattern.len()), pattern) {
            assert(occurs_at(pattern@, s@, i as int));
            return true;
        }
        assert(!occurs_at(pattern@, s@, i as int));
        if i == last {
            assert forall|j: int| !(#[trigger] occurs_at(pattern@, s@, j)) by {
                if j > last {
                    assert(j + pattern@.len() > s@.len());
                }
            }
            return false;
        }
        i += 1;
    }
}

/// Whether the text `pattern` occurs in the text `s`.
pub fn contains_text(s: &str, pattern: &str) -> (r: bool)
    ensures
        r == occurs_in(pattern@, s@),
{
    contains_chars(to_chars(s).as_slice(), to_chars(pattern).as_slice())
}

/// How `a` stands to `b` in lexicographic order.
pub fn order_chars(a: &[char], b: &[char]) -> (r: Order)
    ensures
        r == lexicographic(a@, b@),
{
    let mut i: usize = 0;
    assert(a@.skip(0) == a@);
    assert(b@.skip(0) == b@);
    while i < a.len() && i < b.len()
        invariant
            i <= a.len(),
            i <= b.len(),
            lexicographic(a@, b@) == lexicographic(a@.skip(i as int), b@.skip(i as int)),
        decreases a.len() - i,
    {
        let x: u32 = code_point(a[i]);
        let y: u32 = code_point(b[i]);
        if x < y {
            return Order::Less;
        }
        if x > y {
            return Order::Greater;
        }
        assert(a@.skip(i as int).skip(1) == a@.skip(i + 1));
        assert(b@.skip(i as int).skip(1) == b@.skip(i + 1));
        i += 1;
    }
    if i < a.len() {
        Order::Greater
    } else if i < b.len() {
        Order::Less
    } else {
        Order::Equal
    }
}

/// How the text `a` stands to the text `b` in lexicographic order.
pub fn order_text(a: &str, b: &str) -> (r: Order)
    ensures
        r == lexicographic(a@, b@),
{
    order_chars(to_chars(a).as_slice(), to_chars(b).as_slice())
}

/// The hexadecimal digit of value `d`.
pub fn digit_char(d: u8) -> (r: char)
    requires
        d < 16,
    ensures
        r == hex_digit(d as nat),
{
    if d < 10 {
        (48u8 + d) as char
    } else {
        (97u8 + (d - 10)) as char
    }
}

/// Appends the decimal numeral of `n` to `out`.
pub fn push_decimal(out: &mut String, n: u64)
    ensures
        final(out)@ == old(out)@ + decimal(n as nat),
    decreases n,
{
    if n >= 10 {
        push_decimal(out, n / 10);
    }
    out.push(digit_char((n % 10) as u8));
    assert(out@ == old(out)@ + decimal(n as nat));
}

/// The hexadecimal numerals of `bytes`.
pub fn to_hex(bytes: &[u8]) -> (r: String)
    ensures
        r@ == hex(bytes@),
{
    let mut out = String::new();
    let mut i: usize = 0;
    while i < bytes.len()
        invariant
            i <= bytes.len(),
            out@ == hex(bytes@.take(i as int)),
        decreases bytes.len() - i,
    {
        out.push(digit_char(bytes[i] / 16));
        out.push(digit_char(bytes[i] % 16));
        assert(bytes@.take(i + 1).drop_last() == bytes@.take(i as int));
        i += 1;
    }
    assert(bytes@.take(bytes@.len() as int) == bytes@);
    out
}

/// `parts` one after the other, with `separator` between neighbours.
pub fn join(parts: &Vec<String>, separator: &str) -> (r: String)
    ensures
        r@ == joined(texts(parts@), separator@),
{
    let mut out = String::new();
    let mut i: usize = 0;
    assert(texts(parts@).take(0) == Seq::<Seq<char>>::empty());
    while i < parts.len()
        invariant
            i <= parts.len(),
            out@ == joined(texts(parts@).take(i as int), separator@),
        decreases parts.len() - i,
    {
        if i > 0 {
            out.append(separator);
        }
        out.append(parts[i].as_str());
        assert(texts(parts@).take(i + 1).drop_last() == texts(parts@).take(i as int));
        assert(texts(parts@).take(i + 1).last() == parts@[i as int]@);
        i += 1;
    }
    assert(texts(parts@).take(parts@.len() as int) == texts(parts@));
    out
}

/// More digits never stand for a smaller number.
proof fn lemma_digits_value_grows(s: Seq<char>, i: int)
    requires
        0 <= i <= s.len(),
        forall|k: int| i <= k < s.len() ==> is_digit(#[trigger] s[k]),
    ensures
        digits_value(s.take(i)) <= digits_value(s),
    decreases s.len() - i,
{
    if i == s.len() {
        assert(s.take(i) == s);
    } else {
        assert(s.take(i + 1).drop_last() == s.take(i));
        assert(is_digit(s[i]));
        lemma_digits_value_grows(s, i + 1);
    }
}

/// The index that `s` is the numeral of, if it is one.
pub fn read_index(s: &[char]) -> (r: Option<usize>)
    ensures
        match r {
            Some(i) => index_numeral(s@) == Some(i as nat),
            None => index_numeral(s@) is None,
        },
{
    let digits: &[char] = if s.len() > 0 && s[0] == '+' {
        slice_subrange(s, 1, s.len())
    } else {
        s
    };
    assert(digits@ == without_plus(s@));
    if digits.len() == 0 {
        return None;
    }
    let mut value: usize = 0;
    let mut i: usize = 0;
    while i < digits.len()
        invariant
            digits@ == without_plus(s@),
            i <= digits.len(),
            forall|k: int| 0 <= k < i ==> is_digit(#[trigger] digits@[k]),
            value == digits_value(digits@.take(i as int)),
        decreases digits.len() - i,
    {
        let n: u32 = code_point(digits[i]);
        if n < '0' as u32 || n > '9' as u32 {
            assert(!is_digit(digits@[i as int]));
            return None;
        }
        let d: usize = (n - '0' as u32) as usize;
        assert(digits@.take(i + 1).drop_last() == digits@.take(i as int));
        if value > (usize::MAX - d) / 10 {
            proof {
                assert(digits_value(digits@.take(i + 1)) == 10 * value + d);
                assert(10 * value + d > usize::MAX) by (nonlinear_arith)
                    requires
                        value > (usize::MAX - d) / 10,
                        0 <= d <= usize::MAX,
                ;
                if all_digits(digits@) {
                    lemma_digits_value_grows(digits@, i + 1);
                }
            }
            return None;
        }
        value = 10 * value + d;
        i += 1;
    }
    assert(digits@.take(digits@.len() as int) == digits@);
    Some(value)
}

/// A decimal numeral consists of digits and stands for the number it was made
/// from.
pub proof fn law_decimal_reads_back(n: nat)
    ensures
        decimal(n).len() > 0,
        all_digits(decimal(n)),
        digits_value(decimal(n)) == n,
    decreases n,
{
    reveal_with_fuel(digits_value, 2);
    if n >= 10 {
        law_decimal_reads_back(n / 10);
        assert(decimal(n).drop_last() == decimal(n / 10));
    } else {
        assert(decimal(n).drop_last() == Seq::<char>::empty());
    }
}

/// The decimal numeral of an index reads back as that index.
pub proof fn law_index_reads_back(i: nat)
    requires
        i <= usize::MAX,
    ensures
        index_numeral(decimal(i)) == Some(i),
{
    law_decimal_reads_back(i);
    assert(is_digit(decimal(i)[0]));
}

/// Text without white space at its ends is left as it is.
pub proof fn lemma_trimmed_keeps(s: Seq<char>)
    requires
        s.len() > 0 ==> !white_space(s[0]) && !white_space(s.last()),
    ensures
        trimmed(s) == s,
{
}

/// Two texts are equal in lexicographic order exactly if they are the same.
pub proof fn law_lexicographic_equal(a: Seq<char>, b: Seq<char>)
    ensures
        lexicographic(a, b) == Order::Equal <==> a == b,
    decreases a.len(),
{
    if a.len() > 0 && b.len() > 0 {
        law_lexicographic_equal(a.skip(1), b.skip(1));
        if a[0] == b[0] && a.skip(1) == b.skip(1) {
            assert(a == seq![a[0]] + a.skip(1));
            assert(b == seq![b[0]] + b.skip(1));
        }
    } else if a.len() == 0 && b.len() == 0 {
        assert(a == b);
    }
}

/// Comparing two texts the other way round gives the opposite order.
pub proof fn law_lexicographic_reverses(a: Seq<char>, b: Seq<char>)
    ensures
        lexicographic(a, b) == Order::Less <==> lexicographic(b, a) == Order::Greater,
        lexicographic(a, b) == Order::Equal <==> lexicographic(b, a) == Order::Equal,
    decreases a.len(),
{
    if a.len() > 0 && b.len() > 0 {
        law_lexicographic_reverses(a.skip(1), b.skip(1));
    }
}

/// Lexicographic order is transitive.
pub proof fn law_lexicographic_transitive(a: Seq<char>, b: Seq<char>, c: Seq<char>)
    requires
        lexicographic(a, b) == Order::Less,
        lexicographic(b, c) == Order::Less,
    ensures
        lexicographic(a, c) == Order::Less,
    decreases a.len(),
{
    if a.len() > 0 && b.len() > 0 && c.len() > 0 && a[0] == b[0] && b[0] == c[0] {
        law_lexicographic_transitive(a.skip(1), b.skip(1), c.skip(1));
    }
}

/// A text occurs in another exactly if the other is that text with something before
/// it, possibly nothing, and something behind it, possibly nothing.
pub proof fn law_occurs_between(pattern: Seq<char>, s: Seq<char>)
    ensures
        occurs_in(pattern, s) <==> exists|a: Seq<char>, b: Seq<char>| s == #[trigger] (a + pattern
            + b),
{
    if occurs_in(pattern, s) {
        let i = choose|i: int| #[trigger] occurs_at(pattern, s, i);
        let a = s.take(i);
        let b = s.skip(i + pattern.len());
        assert(s =~= a + pattern + b) by {
            assert forall|k: int| 0 <= k < s.len() implies s[k] == (a + pattern + b)[k] by {
                if i <= k < i + pattern.len() {
                    assert(s.subrange(i, i + pattern.len())[k - i] == s[k]);
                }
            }
        }
    }
    if exists|a: Seq<char>, b: Seq<char>| s == #[trigger] (a + pattern + b) {
        let (a, b) = choose|a: Seq<char>, b: Seq<char>| s == #[trigger] (a + pattern + b);
        assert(s.subrange(a.len() as int, a.len() as int + pattern.len()) =~= pattern);
        assert(occurs_at(pattern, s, a.len() as int));
    }
}

/// What is stripped from the start of a text satisfies the predicate, and what is left
/// does not start with a character that does.
proof fn lemma_strip_start(s: Seq<char>, p: spec_fn(char) -> bool)
    ensures
        strip_start(s, p).len() <= s.len(),
        strip_start(s, p) == s.skip(s.len() - strip_start(s, p).len()),
        forall|i: int| 0 <= i < s.len() - strip_start(s, p).len() ==> p(#[trigger] s[i]),
        strip_start(s, p).len() > 0 ==> !p(strip_start(s, p)[0]),
    decreases s.len(),
{
    if s.len() > 0 && p(s[0]) {
        lemma_strip_start(s.skip(1), p);
        let rest = strip_start(s.skip(1), p);
        assert(rest == s.skip(s.len() - rest.len()));
        assert forall|i: int| 0 <= i < s.len() - rest.len() implies p(#[trigger] s[i]) by {
            if i > 0 {
                assert(s.skip(1)[i - 1] == s[i]);
            }
        }
    } else {
        assert(s.skip(0) == s);
    }
}

/// What is stripped from the end of a text satisfies the predicate, and what is left
/// does not end with a character that does.
proof fn lemma_strip_end(s: Seq<char>, p: spec_fn(char) -> bool)
    ensures
        strip_end(s, p).len() <= s.len(),
        strip_end(s, p) == s.take(strip_end(s, p).len() as int),
        forall|i: int| strip_end(s, p).len() <= i < s.len() ==> p(#[trigger] s[i]),
        strip_end(s, p).len() > 0 ==> !p(strip_end(s, p).last()),
    decreases s.len(),
{
    if s.len() > 0 && p(s.last()) {
        lemma_strip_end(s.drop_last(), p);
        let rest = strip_end(s.drop_last(), p);
        assert(rest == s.take(rest.len() as int));
        assert forall|i: int| rest.len() <= i < s.len() implies p(#[trigger] s[i]) by {
            if i < s.len() - 1 {
                assert(s.drop_last()[i] == s[i]);
            }
        }
    } else {
        assert(s.take(s.len() as int) == s);
    }
}

/// Whether `s` is `core` with characters that satisfy `p` around it, and `core` neither
/// starts nor ends with such a character.
pub open spec fn core_of(s: Seq<char>, core: Seq<char>, p: spec_fn(char) -> bool) -> bool {
    &&& core.len() > 0 ==> !p(core[0]) && !p(core.last())
    &&& exists|n: int|
        {
            &&& 0 <= n <= s.len() - core.len()
            &&& s.subrange(n, n + core.len()) == core
            &&& forall|i: int| 0 <= i < n ==> p(#[trigger] s[i])
            &&& #[trigger] all_from(s, n + core.len(), p)
        }
}

/// Whether every character of `s` from position `n` on satisfies `p`.
pub open spec fn all_from(s: Seq<char>, n: int, p: spec_fn(char) -> bool) -> bool {
    forall|i: int| n <= i < s.len() ==> p(#[trigger] s[i])
}

/// Stripping a text at both ends leaves its core.
proof fn lemma_stripped_is_core(s: Seq<char>, p: spec_fn(char) -> bool)
    ensures
        core_of(s, strip_end(strip_start(s, p), p), p),
{
    let rest = strip_start(s, p);
    let core = strip_end(rest, p);
    lemma_strip_start(s, p);
    lemma_strip_end(rest, p);
    let n = s.len() - rest.len();
    assert(s.subrange(n, n + core.len()) =~= core);
    assert forall|i: int| n + core.len() <= i < s.len() implies p(#[trigger] s[i]) by {
        assert(rest[i - n] == s[i]);
    }
    assert(all_from(s, n + core.len(), p));
    if core.len() > 0 {
        assert(core[0] == rest[0]);
    }
}

/// Trimming takes off white space alone, and all of it, at both ends.
pub proof fn law_trimmed_is_core(s: Seq<char>)
    ensures
        core_of(s, trimmed(s), |c: char| white_space(c)),
{
    lemma_stripped_is_core(s, |c: char| white_space(c));
}

/// White space around a text does not count where it is trimmed.
pub proof fn law_trimmed_ignores_padding(before: Seq<char>, s: Seq<char>, behind: Seq<char>)
    requires
        forall|i: int| 0 <= i < before.len() ==> white_space(#[trigger] before[i]),
        forall|i: int| 0 <= i < behind.len() ==> white_space(#[trigger] behind[i]),
        s.len() > 0 ==> !white_space(s[0]) && !white_space(s.last()),
    ensures
        trimmed(before + s + behind) == s,
{
    let p = |c: char| white_space(c);
    let all = before + s + behind;
    let core = trimmed(all);
    lemma_stripped_is_core(all, p);
    let n = choose|n: int|
        {
            &&& 0 <= n <= all.len() - core.len()
            &&& all.subrange(n, n + core.len()) == core
            &&& forall|i: int| 0 <= i < n ==> p(#[trigger] all[i])
            &&& #[trigger] all_from(all, n + core.len(), p)
        };
    assert forall|i: int| 0 <= i < before.len() implies p(#[trigger] all[i]) by {
        assert(all[i] == before[i]);
    }
    assert forall|i: int| before.len() + s.len() <= i < all.len() implies p(#[trigger] all[i]) by {
        assert(all[i] == behind[i - before.len() - s.len()]);
    }
    if core.len() > 0 {
        assert(core[0] == all[n]);
        assert(core.last() == all[n + core.len() - 1]);
        assert(!p(all[n]));
    }
    if s.len() > 0 {
        assert(all[before.len() as int] == s[0]);
        assert(all[before.len() + s.len() - 1] == s.last());
        assert(!p(all[before.len() as int]));
        assert(!p(all[before.len() + s.len() - 1]));
        if core.len() == 0 {
            assert(before.len() < n || p(all[before.len() as int]));
        }
        assert(n == before.len());
        assert(core.len() == s.len());
        assert(core =~= s);
    } else {
        if core.len() > 0 {
            assert(p(all[n]));
        }
        assert(core =~= s);
    }
}

/// Unquoting takes off quotation marks alone, and all of them, at both ends.
pub proof fn law_unquoted_is_core(s: Seq<char>)
    ensures
        core_of(s, unquoted(s), |c: char| quote_mark(c)),
{
    lemma_stripped_is_core(s, |c: char| quote_mark(c));
}

/// Lower case keeps the place in the alphabet of an ASCII upper-case letter, and keeps
/// every other character.
pub proof fn law_ascii_lower_keeps_letters(s: Seq<char>, i: int)
    requires
        0 <= i < s.len(),
    ensures
        ascii_lower(s).len() == s.len(),
        'A' as int <= s[i] as int <= 'Z' as int ==> ascii_lower(s)[i] as int - 'a' as int
            == s[i] as int - 'A' as int,
        !('A' as int <= s[i] as int <= 'Z' as int) ==> ascii_lower(s)[i] == s[i],
{
}

/// The first difference of two texts decides their order.
pub proof fn law_lexicographic_first_difference(
    common: Seq<char>,
    x: char,
    a: Seq<char>,
    y: char,
    b: Seq<char>,
)
    requires
        (x as int) < (y as int),
    ensures
        lexicographic(common + seq![x] + a, common + seq![y] + b) == Order::Less,
        lexicographic(common + seq![y] + b, common + seq![x] + a) == Order::Greater,
    decreases common.len(),
{
    let s = common + seq![x] + a;
    let t = common + seq![y] + b;
    if common.len() > 0 {
        law_lexicographic_first_difference(common.skip(1), x, a, y, b);
        assert(s.skip(1) == common.skip(1) + seq![x] + a);
        assert(t.skip(1) == common.skip(1) + seq![y] + b);
        assert(s[0] == t[0]);
    } else {
        assert(s[0] == x && t[0] == y);
    }
}

/// A text comes before every longer text that it starts.
pub proof fn law_lexicographic_prefix(s: Seq<char>, more: Seq<char>)
    requires
        more.len() > 0,
    ensures
        lexicographic(s, s + more) == Order::Less,
        lexicographic(s + more, s) == Order::Greater,
    decreases s.len(),
{
    if s.len() > 0 {
        law_lexicographic_prefix(s.skip(1), more);
        assert((s + more).skip(1) == s.skip(1) + more);
        assert((s + more)[0] == s[0]);
    }
}

/// A numeral may start with a plus sign, and leading zeros do not count. Anything that
/// holds another character is no numeral.
pub proof fn law_index_numerals(s: Seq<char>, i: int)
    ensures
        index_numeral(s) is Some && s[0] != '+' ==> index_numeral(seq!['+'] + s)
            == index_numeral(s) && index_numeral(seq!['0'] + s) == index_numeral(s),
        0 <= i < s.len() && !is_digit(s[i]) && !(i == 0 && s[i] == '+') ==> index_numeral(
            s,
        ) is None,
        index_numeral(Seq::empty()) is None,
        index_numeral(seq!['+']) is None,
{
    if index_numeral(s) is Some && s[0] != '+' {
        let plus = seq!['+'] + s;
        let zero = seq!['0'] + s;
        assert(plus.skip(1) == s);
        assert(without_plus(zero) == zero);
        lemma_leading_zero(s);
        assert forall|k: int| 0 <= k < zero.len() implies is_digit(#[trigger] zero[k]) by {
            if k > 0 {
                assert(zero[k] == s[k - 1]);
            }
        }
    }
    if 0 <= i < s.len() && !is_digit(s[i]) && !(i == 0 && s[i] == '+') {
        let digits = without_plus(s);
        if s[0] == '+' {
            assert(digits[i - 1] == s[i]);
        } else {
            assert(digits[i] == s[i]);
        }
    }
    assert(without_plus(seq!['+']).len() == 0);
}

/// A leading zero does not change what digits stand for.
proof fn lemma_leading_zero(s: Seq<char>)
    ensures
        digits_value(seq!['0'] + s) == digits_value(s),
    decreases s.len(),
{
    reveal_with_fuel(digits_value, 2);
    let t = seq!['0'] + s;
    if s.len() == 0 {
        assert(t.drop_last() == Seq::<char>::empty());
    } else {
        lemma_leading_zero(s.drop_last());
        assert(t.drop_last() == seq!['0'] + s.drop_last());
        assert(t.last() == s.last());
    }
}

/// One more part stands behind those that were joined, after a separator.
pub proof fn law_joined_grows(parts: Seq<Seq<char>>, part: Seq<char>, separator: Seq<char>)
    ensures
        joined(seq![part], separator) == part,
        parts.len() > 0 ==> joined(parts.push(part), separator) == joined(parts, separator)
            + separator + part,
{
    if parts.len() > 0 {
        assert(parts.push(part).drop_last() == parts);
    }
}

/// Parts that do not hold the separator read back from what they are joined to: only
/// the same parts are joined to the same text.
pub proof fn law_joined_reads_back(a: Seq<Seq<char>>, b: Seq<Seq<char>>, separator: char)
    requires
        a.len() > 0,
        b.len() > 0,
        forall|i: int| 0 <= i < a.len() ==> !(#[trigger] a[i]).contains(separator),
        forall|i: int| 0 <= i < b.len() ==> !(#[trigger] b[i]).contains(separator),
        joined(a, seq![separator]) == joined(b, seq![separator]),
    ensures
        a == b,
    decreases a.len(),
{
    let sep = seq![separator];
    let s = joined(a, sep);
    let x = a.last();
    let y = b.last();
    lemma_joined_tail(a, separator);
    lemma_joined_tail(b, separator);
    // Behind the last separator stands the last part.
    if x.len() < y.len() {
        let k = s.len() - x.len() - 1;
        assert(y[k - (s.len() - y.len())] == s[k]);
        assert(a.len() > 1);
        assert(s[k] == separator);
        assert(y.contains(separator));
    }
    if y.len() < x.len() {
        let k = s.len() - y.len() - 1;
        assert(x[k - (s.len() - x.len())] == s[k]);
        assert(b.len() > 1);
        assert(s[k] == separator);
        assert(x.contains(separator));
    }
    assert(x =~= y);
    if a.len() == 1 {
        if b.len() > 1 {
            assert(s.len() > y.len());
        }
        assert(a =~= seq![x]);
        assert(b =~= seq![y]);
    } else {
        if b.len() == 1 {
            assert(s.len() == y.len());
        }
        let ra = a.drop_last();
        let rb = b.drop_last();
        assert(joined(ra, sep) =~= s.take(s.len() - x.len() - 1));
        assert(joined(rb, sep) =~= s.take(s.len() - y.len() - 1));
        assert forall|i: int| 0 <= i < ra.len() implies !(#[trigger] ra[i]).contains(separator) by {
            assert(ra[i] == a[i]);
        }
        assert forall|i: int| 0 <= i < rb.len() implies !(#[trigger] rb[i]).contains(separator) by {
            assert(rb[i] == b[i]);
        }
        law_joined_reads_back(ra, rb, separator);
        assert(a =~= ra.push(x));
        assert(b =~= rb.push(y));
    }
}

/// The end of what parts are joined to.
proof fn lemma_joined_tail(a: Seq<Seq<char>>, separator: char)
    requires
        a.len() > 0,
    ensures
        ({
            let s = joined(a, seq![separator]);
            let x = a.last();
            &&& s.len() >= x.len()
            &&& s.skip(s.len() - x.len()) == x
            &&& a.len() == 1 ==> s == x
            &&& a.len() > 1 ==> s.len() > x.len() && s[s.len() - x.len() - 1] == separator
            &&& forall|k: int|
                s.len() - x.len() <= k < s.len() ==> #[trigger] s[k] == x[k - (s.len() - x.len())]
        }),
{
    let s = joined(a, seq![separator]);
    let x = a.last();
    if a.len() == 1 {
        assert(s.skip(0) == x);
    } else {
        let head = joined(a.drop_last(), seq![separator]) + seq![separator];
        assert(s == head + x);
        assert(s.skip(s.len() - x.len()) =~= x);
    }
}

/// Hexadecimal digits are told apart, and stand in the order of their values, the letters
/// in lower case behind the decimal digits.
pub proof fn law_hex_digits(a: nat, b: nat)
    requires
        a < b < 16,
    ensures
        (hex_digit(a) as int) < (hex_digit(b) as int),
        b < 10 ==> hex_digit(b) as int - '0' as int == b,
        b >= 10 ==> hex_digit(b) as int - 'a' as int == b - 10,
{
}

/// Bytes read back from their hexadecimal numerals: only the same bytes have the same
/// numerals.
pub proof fn law_hex_is_faithful(a: Seq<u8>, b: Seq<u8>)
    requires
        hex(a) == hex(b),
    ensures
        a == b,
    decreases a.len(),
{
    lemma_hex_length(a);
    lemma_hex_length(b);
    if a.len() == 0 {
        assert(a =~= b);
    } else {
        let s = hex(a);
        let n = s.len();
        let x = a.last();
        let y = b.last();
        assert(s[n - 2] == hex_digit((x / 16) as nat) && s[n - 1] == hex_digit((x % 16) as nat));
        assert(hex(b)[n - 2] == hex_digit((y / 16) as nat) && hex(b)[n - 1] == hex_digit(
            (y % 16) as nat,
        ));
        lemma_hex_digit_injective((x / 16) as nat, (y / 16) as nat);
        lemma_hex_digit_injective((x % 16) as nat, (y % 16) as nat);
        assert(x == y);
        assert(hex(a.drop_last()) =~= s.take(n - 2));
        assert(hex(b.drop_last()) =~= hex(b).take(n - 2));
        law_hex_is_faithful(a.drop_last(), b.drop_last());
        assert(a =~= a.drop_last().push(x));
        assert(b =~= b.drop_last().push(y));
    }
}

/// Equal hexadecimal digits have equal values.
proof fn lemma_hex_digit_injective(a: nat, b: nat)
    requires
        a < 16,
        b < 16,
        hex_digit(a) == hex_digit(b),
    ensures
        a == b,
{
    if a < b {
        law_hex_digits(a, b);
    } else if b < a {
        law_hex_digits(b, a);
    }
}

/// Two digits for each byte.
proof fn lemma_hex_length(bytes: Seq<u8>)
    ensures
        hex(bytes).len() == 2 * bytes.len(),
    decreases bytes.len(),
{
    if bytes.len() > 0 {
        lemma_hex_length(bytes.drop_last());
    }
}

} // verus!
