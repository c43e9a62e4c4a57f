//! Double-precision numbers, held as the bits of their IEEE 754 encoding.

use crate::text::{same_text, Order};
use vstd::prelude::*;

verus! {

use vstd::arithmetic::power2::pow2;

/// The bit that tells a negative number.
pub const SIGN_BIT: u64 = 0x8000_0000_0000_0000;

/// The encoding of infinity. Without the sign, every larger encoding is one of
/// "not a number".
pub const INFINITY_BITS: u64 = 0x7ff0_0000_0000_0000;

/// A double-precision number.
#[derive(Debug, Clone, Copy)]
pub struct Double {
    /// The IEEE 754 encoding: sign, eleven bits of exponent, 52 of fraction.
    pub bits: u64,
}

/// How `a` stands to `b`.
pub open spec fn order_of(a: int, b: int) -> Order {
    if a < b {
        Order::Less
    } else if a > b {
        Order::Greater
    } else {
        Order::Equal
    }
}

impl Double {
    /// Whether the sign bit is set.
    pub open spec fn negative(self) -> bool {
        self.bits >= SIGN_BIT
    }

    /// The encoding without its sign bit.
    pub open spec fn magnitude(self) -> int {
        if self.negative() {
            self.bits - SIGN_BIT
        } else {
            self.bits as int
        }
    }

    /// Whether this is "not a number".
    pub open spec fn nan(self) -> bool {
        self.magnitude() > INFINITY_BITS
    }

    /// An integer by which numbers are ordered: the encodings of numbers of one
    /// sign are ordered by size, and the two zeros are equal.
    pub open spec fn rank(self) -> int {
        if self.negative() {
            -self.magnitude()
        } else {
            self.magnitude()
        }
    }

    /// How this number stands to `other`, unless one of them is not a number.
    pub open spec fn spec_order(self, other: Double) -> Option<Order> {
        if self.nan() || other.nan() {
            None
        } else {
            Some(order_of(self.rank(), other.rank()))
        }
    }

    /// Whether this is a number and equal to `other`.
    pub open spec fn spec_equals(self, other: Double) -> bool {
        self.spec_order(other) == Some(Order::Equal)
    }

    /// The number itself, in units of the smallest positive number, for a number
    /// that is not infinite.
    pub open spec fn units(self) -> int {
        if self.negative() {
            -magnitude_units(self.magnitude())
        } else {
            magnitude_units(self.magnitude())
        }
    }

    /// How this number stands to `other`; `None` if one of them is not a number.
    pub fn order(&self, other: &Double) -> (r: Option<Order>)
        ensures
            r == self.spec_order(*other),
    {
        let negative: bool = self.bits >= SIGN_BIT;
        let other_negative: bool = other.bits >= SIGN_BIT;
        let magnitude: u64 = if negative {
            self.bits - SIGN_BIT
        } else {
            self.bits
        };
        let other_magnitude: u64 = if other_negative {
            other.bits - SIGN_BIT
        } else {
            other.bits
        };
        if magnitude > INFINITY_BITS || other_magnitude > INFINITY_BITS {
            return None;
        }
        if magnitude == 0 && other_magnitude == 0 {
            return Some(Order::Equal);
        }
        let order: Order = if negative != other_negative {
            if negative {
                Order::Less
            } else {
                Order::Greater
            }
        } else if magnitude == other_magnitude {
            Order::Equal
        } else if (magnitude < other_magnitude) != negative {
            Order::Less
        } else {
            Order::Greater
        };
        Some(order)
    }

    /// Whether this is a number and equal to `other`.
    pub fn equals(&self, other: &Double) -> (r: bool)
        ensures
            r == self.spec_equals(*other),
    {
        match self.order(other) {
            Some(order) => order == Order::Equal,
            None => false,
        }
    }
}

/// The size of the number encoded by `magnitude`, in units of the smallest
/// positive number: below `2^52` the encoding itself, from there on a fraction
/// of 53 bits, shifted by the exponent.
pub open spec fn magnitude_units(magnitude: int) -> int {
    let exponent = magnitude / 0x10_0000_0000_0000;
    let fraction = magnitude % 0x10_0000_0000_0000;
    if exponent == 0 {
        fraction
    } else {
        (0x10_0000_0000_0000 + fraction) * pow2((exponent - 1) as nat)
    }
}

/// The next larger encoding is that of a larger number.
proof fn lemma_next_magnitude(m: int)
    requires
        0 <= m,
    ensures
        magnitude_units(m) < magnitude_units(m + 1),
{
    let base: int = 0x10_0000_0000_0000;
    let e = m / base;
    let f = m % base;
    vstd::arithmetic::power2::lemma2_to64();
    assert(m == e * base + f);
    if f + 1 < base {
        assert((m + 1) / base == e && (m + 1) % base == f + 1);
        if e > 0 {
            let p = pow2((e - 1) as nat) as int;
            vstd::arithmetic::power2::lemma_pow2_pos((e - 1) as nat);
            assert((base + f) * p < (base + (f + 1)) * p) by (nonlinear_arith)
                requires
                    p > 0,
            ;
        }
    } else {
        assert((m + 1) / base == e + 1 && (m + 1) % base == 0);
        if e > 0 {
            let p = pow2((e - 1) as nat) as int;
            vstd::arithmetic::power2::lemma_pow2_pos((e - 1) as nat);
            vstd::arithmetic::power2::lemma_pow2_unfold(e as nat);
            assert((base + f) * p < base * (2 * p)) by (nonlinear_arith)
                requires
                    p > 0,
                    0 <= f < base,
            ;
        }
    }
}

/// A larger encoding is that of a larger number.
proof fn lemma_magnitude_units_increase(a: int, b: int)
    requires
        0 <= a < b,
    ensures
        magnitude_units(a) < magnitude_units(b),
    decreases b - a,
{
    if a + 1 < b {
        lemma_magnitude_units_increase(a, b - 1);
    }
    lemma_next_magnitude(b - 1);
}

/// Numbers are ordered as their values are: for two numbers, neither of them
/// infinite, the order of the encodings is the order of the numbers encoded.
pub proof fn law_order_is_numeric(a: Double, b: Double)
    requires
        a.magnitude() < INFINITY_BITS,
        b.magnitude() < INFINITY_BITS,
    ensures
        a.spec_order(b) == Some(order_of(a.units(), b.units())),
{
    let x = a.magnitude();
    let y = b.magnitude();
    assert(magnitude_units(0) == 0);
    if x > 0 {
        lemma_magnitude_units_increase(0, x);
    }
    if y > 0 {
        lemma_magnitude_units_increase(0, y);
    }
    if x < y {
        lemma_magnitude_units_increase(x, y);
    }
    if y < x {
        lemma_magnitude_units_increase(y, x);
    }
}

/// The infinities lie beyond every other number.
pub proof fn law_infinity_bounds(a: Double, infinity: Double)
    requires
        a.magnitude() < INFINITY_BITS,
        infinity.magnitude() == INFINITY_BITS,
    ensures
        a.spec_order(infinity) == Some(
            if infinity.negative() {
                Order::Greater
            } else {
                Order::Less
            },
        ),
{
}

/// Comparing the other way round gives the opposite order.
pub proof fn law_order_reverses(a: Double, b: Double)
    ensures
        match (a.spec_order(b), b.spec_order(a)) {
            (None, None) => a.nan() || b.nan(),
            (Some(x), Some(y)) => {
                &&& x == Order::Less <==> y == Order::Greater
                &&& x == Order::Equal <==> y == Order::Equal
            },
            _ => false,
        },
{
}

/// The numbers that texts stand for, as far as they stand for any.
#[derive(Debug, Clone)]
pub struct NumberReadings {
    entries: Vec<(String, Double)>,
}

/// The readings that `entries` record; a later entry replaces an earlier one.
spec fn recorded(entries: Seq<(String, Double)>) -> Map<Seq<char>, Double>
    decreases entries.len(),
{
    if entries.len() == 0 {
        Map::empty()
    } else {
        recorded(entries.drop_last()).insert(entries.last().0@, entries.last().1)
    }
}

impl View for NumberReadings {
    type V = Map<Seq<char>, Double>;

    closed spec fn view(&self) -> Map<Seq<char>, Double> {
        recorded(self.entries@)
    }
}

/// The number that `text` stands for by `readings`.
pub open spec fn reading(readings: Map<Seq<char>, Double>, text: Seq<char>) -> Option<Double> {
    if readings.dom().contains(text) {
        Some(readings[text])
    } else {
        None
    }
}

impl NumberReadings {
    /// No readings: no text stands for a number.
    pub fn new() -> (r: Self)
        ensures
            r@ == Map::<Seq<char>, Double>::empty(),
    {
        NumberReadings { entries: Vec::new() }
    }

    /// Records that `text` stands for `number`.
    pub fn record(&mut self, text: String, number: Double)
        ensures
            final(self)@ == old(self)@.insert(text@, number),
    {
        let ghost before = self.entries@;
        self.entries.push((text, number));
        assert(self.entries@.drop_last() == before);
    }

    /// The number that `text` stands for.
    pub fn get(&self, text: &str) -> (r: Option<Double>)
        ensures
            r == reading(self@, text@),
    {
        let mut n: usize = self.entries.len();
        assert(self.entries@.take(n as int) == self.entries@);
        while n > 0
            invariant
                n <= self.entries.len(),
                reading(self@, text@) == reading(recorded(self.entries@.take(n as int)), text@),
            decreases n,
        {
            assert(self.entries@.take(n as int).drop_last() == self.entries@.take(n - 1));
            if same_text(self.entries[n - 1].0.as_str(), text) {
                return Some(self.entries[n - 1].1);
            }
            n -= 1;
        }
        None
    }
}

/// What is "not a number" is neither ordered with anything nor equal to anything, itself
/// included; an infinity is equal to the infinity of the same sign.
pub proof fn law_special_values(nan: Double, infinity: Double, a: Double)
    requires
        nan.magnitude() > INFINITY_BITS,
        infinity.magnitude() == INFINITY_BITS,
    ensures
        nan.spec_order(a) is None,
        a.spec_order(nan) is None,
        !nan.spec_equals(a) && !a.spec_equals(nan),
        a.magnitude() == INFINITY_BITS ==> (infinity.spec_equals(a) <==> infinity.negative()
            == a.negative()),
{
}

/// Equality is that of the numbers: two numbers, neither of them infinite, are equal
/// exactly if they have the same value, so that the two zeros are.
pub proof fn law_equality_is_numeric(a: Double, b: Double)
    requires
        a.magnitude() < INFINITY_BITS,
        b.magnitude() < INFINITY_BITS,
    ensures
        a.spec_equals(b) <==> a.units() == b.units(),
{
    law_order_is_numeric(a, b);
}

} // verus!
