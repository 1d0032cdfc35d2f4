//! Double-precision numbers held as their IEEE 754 bit patterns.
//!
//! Prices, quantities and the numbers derived from them pass through the
//! library as 64-bit patterns. The library compares them and chooses among
//! them; sums, products and logarithms are computed by its callers.

use vstd::arithmetic::power2::{lemma_pow2_adds, lemma_pow2_pos, pow2};
use vstd::prelude::*;

verus! {

/// A double-precision number, held as its bit pattern.
#[derive(Clone, Copy, Debug, PartialEq, Eq, Structural)]
pub struct Binary64 {
    pub bits: u64,
}

/// The bit pattern of minus zero: the sign bit alone.
pub const SIGN_BIT: u64 = 0x8000_0000_0000_0000;

/// The magnitude of infinity. A larger magnitude stands for no number.
pub const INFINITY_MAGNITUDE: u64 = 0x7FF0_0000_0000_0000;

/// The number of patterns that share one exponent.
pub const FRACTION_RANGE: u64 = 0x10_0000_0000_0000;

/// The value of a pattern without its sign, counted in units of 2^-1074, the
/// smallest positive number of this format. Infinity is given the place that
/// its exponent has above all finite numbers.
pub open spec fn scaled_magnitude(magnitude: nat) -> nat {
    let exponent = magnitude / FRACTION_RANGE as nat;
    let fraction = magnitude % FRACTION_RANGE as nat;
    if exponent == 0 {
        fraction
    } else {
        (FRACTION_RANGE as nat + fraction) * pow2((exponent - 1) as nat)
    }
}

impl Binary64 {
    /// Whether the sign bit is set.
    pub open spec fn has_sign(self) -> bool {
        self.bits >= SIGN_BIT
    }

    /// The pattern without its sign bit.
    pub open spec fn magnitude(self) -> nat {
        if self.has_sign() {
            (self.bits - SIGN_BIT) as nat
        } else {
            self.bits as nat
        }
    }

    /// Whether the pattern stands for no number.
    pub open spec fn is_nan(self) -> bool {
        self.magnitude() > INFINITY_MAGNITUDE
    }

    /// The value, counted in units of 2^-1074. Both zeros have value 0.
    pub open spec fn scaled(self) -> int {
        if self.has_sign() {
            -(scaled_magnitude(self.magnitude()) as int)
        } else {
            scaled_magnitude(self.magnitude()) as int
        }
    }

    /// Numeric order. Nothing is below or above what is no number.
    pub open spec fn below(self, other: Self) -> bool {
        !self.is_nan() && !other.is_nan() && self.scaled() < other.scaled()
    }

    /// Whether this is a number greater than zero.
    pub open spec fn positive(self) -> bool {
        !self.is_nan() && self.scaled() > 0
    }

    /// Whether this is a number at or below zero.
    pub open spec fn at_most_zero(self) -> bool {
        !self.is_nan() && self.scaled() <= 0
    }

    /// The same number with the opposite sign.
    pub open spec fn negated(self) -> Self {
        if self.has_sign() {
            Binary64 { bits: (self.bits - SIGN_BIT) as u64 }
        } else {
            Binary64 { bits: (self.bits + SIGN_BIT) as u64 }
        }
    }

    /// The larger of two numbers, or the one of them that is a number.
    pub open spec fn larger(self, other: Self) -> Self {
        if self.is_nan() || self.below(other) {
            other
        } else {
            self
        }
    }

    /// The smaller of two numbers, or the one of them that is a number.
    pub open spec fn smaller(self, other: Self) -> Self {
        if self.is_nan() || other.below(self) {
            other
        } else {
            self
        }
    }

    fn sign(self) -> (r: bool)
        ensures
            r == self.has_sign(),
    {
        self.bits >= SIGN_BIT
    }

    fn unsigned_bits(self) -> (r: u64)
        ensures
            r == self.magnitude(),
    {
        if self.bits >= SIGN_BIT {
            self.bits - SIGN_BIT
        } else {
            self.bits
        }
    }

    /// Tests whether the pattern stands for no number.
    pub fn nan(self) -> (r: bool)
        ensures
            r == self.is_nan(),
    {
        self.unsigned_bits() > INFINITY_MAGNITUDE
    }

    /// Compares two numbers by value.
    pub fn less_than(self, other: Self) -> (r: bool)
        ensures
            r == self.below(other),
    {
        if self.nan() || other.nan() {
            return false;
        }
        let a: u64 = self.unsigned_bits();
        let b: u64 = other.unsigned_bits();
        proof {
            lemma_magnitude_order(a as nat, b as nat);
            lemma_magnitude_order(b as nat, a as nat);
            lemma_magnitude_order(0, a as nat);
            lemma_magnitude_order(0, b as nat);
            lemma_zero_magnitude();
        }
        if self.sign() {
            if other.sign() {
                b < a
            } else {
                a != 0 || b != 0
            }
        } else if other.sign() {
            false
        } else {
            a < b
        }
    }

    /// Tests whether this is a number greater than zero.
    pub fn is_positive(self) -> (r: bool)
        ensures
            r == self.positive(),
    {
        proof {
            lemma_zero_magnitude();
        }
        (Binary64 { bits: 0 }).less_than(self)
    }

    /// Tests whether this is a number at or below zero.
    pub fn is_at_most_zero(self) -> (r: bool)
        ensures
            r == self.at_most_zero(),
    {
        !self.nan() && !self.is_positive()
    }

    /// Turns the sign round.
    pub fn negate(self) -> (r: Self)
        ensures
            r == self.negated(),
    {
        if self.bits >= SIGN_BIT {
            Binary64 { bits: self.bits - SIGN_BIT }
        } else {
            Binary64 { bits: self.bits + SIGN_BIT }
        }
    }

    /// Picks the larger of two numbers.
    pub fn max_of(self, other: Self) -> (r: Self)
        ensures
            r == self.larger(other),
    {
        if self.nan() || self.less_than(other) {
            other
        } else {
            self
        }
    }

    /// Picks the smaller of two numbers.
    pub fn min_of(self, other: Self) -> (r: Self)
        ensures
            r == self.smaller(other),
    {
        if self.nan() || other.less_than(self) {
            other
        } else {
            self
        }
    }
}

proof fn lemma_zero_magnitude()
    ensures
        scaled_magnitude(0) == 0,
        (Binary64 { bits: 0 }).scaled() == 0,
{
}

/// Patterns without a sign are ordered as the numbers they stand for.
pub proof fn lemma_magnitude_order(a: nat, b: nat)
    requires
        a <= INFINITY_MAGNITUDE,
        b <= INFINITY_MAGNITUDE,
    ensures
        a < b <==> scaled_magnitude(a) < scaled_magnitude(b),
        a == b <==> scaled_magnitude(a) == scaled_magnitude(b),
{
    if a < b {
        lemma_magnitude_increases(a, b);
    } else if b < a {
        lemma_magnitude_increases(b, a);
    }
}

proof fn lemma_magnitude_increases(a: nat, b: nat)
    requires
        a < b,
    ensures
        scaled_magnitude(a) < scaled_magnitude(b),
{
    let range = FRACTION_RANGE as nat;
    let (ea, fa) = (a / range, a % range);
    let (eb, fb) = (b / range, b % range);
    if ea == eb {
        assert(fa < fb);
        if ea > 0 {
            let unit = pow2((ea - 1) as nat);
            lemma_pow2_pos((ea - 1) as nat);
            assert((range + fa) * unit < (range + fb) * unit) by (nonlinear_arith)
                requires
                    fa < fb,
                    unit > 0,
            ;
        }
    } else {
        assert(ea < eb);
        let unit = pow2((eb - 1) as nat);
        lemma_pow2_pos((eb - 1) as nat);
        assert((range + fb) * unit >= range * unit) by (nonlinear_arith)
            requires
                unit > 0,
        ;
        if ea == 0 {
            assert(range * unit >= range) by (nonlinear_arith)
                requires
                    unit > 0,
            ;
        } else {
            let low = pow2((ea - 1) as nat);
            lemma_pow2_pos((ea - 1) as nat);
            lemma_pow2_adds((ea - 1) as nat, (eb - ea) as nat);
            let step = pow2((eb - ea) as nat);
            assert(step >= 2) by {
                lemma_pow2_adds(1, (eb - ea - 1) as nat);
                lemma_pow2_pos((eb - ea - 1) as nat);
                vstd::arithmetic::power2::lemma2_to64();
            }
            assert((range + fa) * low < range * (low * step)) by (nonlinear_arith)
                requires
                    fa < range,
                    low > 0,
                    step >= 2,
            ;
        }
    }
}

/// Turning the sign round turns the value round.
pub proof fn law_negation(x: Binary64)
    ensures
        x.negated().scaled() == -x.scaled(),
        x.negated().is_nan() == x.is_nan(),
        x.negated().negated() == x,
{
}

/// Any two numbers are ordered or equal in value, and only the two zeros are
/// equal in value without being the same pattern.
pub proof fn law_order_is_total(a: Binary64, b: Binary64)
    requires
        !a.is_nan(),
        !b.is_nan(),
    ensures
        a.below(b) || b.below(a) || a.scaled() == b.scaled(),
        a.scaled() == b.scaled() && a.scaled() != 0 ==> a == b,
{
    lemma_magnitude_order(a.magnitude(), b.magnitude());
    lemma_magnitude_order(0, a.magnitude());
    lemma_magnitude_order(0, b.magnitude());
    lemma_zero_magnitude();
}

/// Which patterns are numbers, which of them lie above zero and which do not.
pub proof fn law_patterns_tell_what_a_number_is(x: Binary64)
    ensures
        x.is_nan() <==> 0x7FF0_0000_0000_0000 < x.bits < 0x8000_0000_0000_0000 || x.bits
            > 0xFFF0_0000_0000_0000,
        x.positive() <==> 0 < x.bits <= 0x7FF0_0000_0000_0000,
        x.at_most_zero() <==> x.bits == 0 || 0x8000_0000_0000_0000 <= x.bits
            <= 0xFFF0_0000_0000_0000,
{
    lemma_zero_magnitude();
    if !x.is_nan() {
        lemma_magnitude_order(0, x.magnitude());
    }
}

/// Numbers without a sign are ordered as their patterns are, numbers with one the
/// other way round, and those with a sign come before those without, but for the
/// two zeros. Nothing lies below or above what is no number.
pub proof fn law_patterns_tell_the_order(a: Binary64, b: Binary64)
    ensures
        a.is_nan() || b.is_nan() ==> !a.below(b),
        !a.is_nan() && !b.is_nan() ==> {
            let sign: u64 = 0x8000_0000_0000_0000;
            &&& a.bits < sign && b.bits < sign ==> a.below(b) == (a.bits < b.bits)
            &&& a.bits >= sign && b.bits >= sign ==> a.below(b) == (b.bits < a.bits)
            &&& a.bits < sign && b.bits >= sign ==> !a.below(b)
            &&& a.bits >= sign && b.bits < sign ==> a.below(b) == (a.bits != sign || b.bits != 0)
        },
{
    if !a.is_nan() && !b.is_nan() {
        lemma_magnitude_order(a.magnitude(), b.magnitude());
        lemma_magnitude_order(b.magnitude(), a.magnitude());
        lemma_magnitude_order(0, a.magnitude());
        lemma_magnitude_order(0, b.magnitude());
        lemma_zero_magnitude();
    }
}

/// Turning the sign round changes the sign bit alone.
pub proof fn law_negation_turns_the_sign_bit(x: Binary64)
    ensures
        x.bits < 0x8000_0000_0000_0000 ==> x.negated().bits == x.bits + 0x8000_0000_0000_0000,
        x.bits >= 0x8000_0000_0000_0000 ==> x.negated().bits == x.bits - 0x8000_0000_0000_0000,
{
}

/// The larger of two numbers is one of them and lies below neither, the smaller
/// one lies above neither. Where one of the two is no number, it is the other.
pub proof fn law_the_larger_and_the_smaller_are_bounds(a: Binary64, b: Binary64)
    ensures
        a.is_nan() ==> a.larger(b) == b && a.smaller(b) == b,
        b.is_nan() && !a.is_nan() ==> a.larger(b) == a && a.smaller(b) == a,
        !a.is_nan() && !b.is_nan() ==> {
            let (hi, lo) = (a.larger(b), a.smaller(b));
            &&& hi == a || hi == b
            &&& lo == a || lo == b
            &&& !hi.below(a) && !hi.below(b)
            &&& !a.below(lo) && !b.below(lo)
        },
{
}

/// The smallest positive pattern stands for one unit, the next exponent for twice
/// the value, and within one exponent equal steps of the pattern are equal steps
/// of the value.
pub proof fn law_exponents_double_values(bits: u64)
    requires
        bits + 0x10_0000_0000_0000 <= 0x7FF0_0000_0000_0000,
    ensures
        bits < 0x10_0000_0000_0000 ==> (Binary64 { bits }).scaled() == bits,
        bits >= 0x10_0000_0000_0000 ==> (Binary64 {
            bits: (bits + 0x10_0000_0000_0000) as u64,
        }).scaled() == 2 * (Binary64 { bits }).scaled(),
        bits < 0x10_0000_0000_0000 ==> (Binary64 {
            bits: (bits + 0x10_0000_0000_0000) as u64,
        }).scaled() == 0x10_0000_0000_0000 + bits,
{
    let range = FRACTION_RANGE as nat;
    let (e, f) = (bits as nat / range, bits as nat % range);
    let next = (bits + 0x10_0000_0000_0000) as nat;
    assert(next / range == e + 1 && next % range == f);
    vstd::arithmetic::power2::lemma2_to64();
    if e > 0 {
        lemma_pow2_adds(1, (e - 1) as nat);
        assert((range + f) * (2 * pow2((e - 1) as nat)) == 2 * ((range + f) * pow2((e - 1) as nat)))
            by (nonlinear_arith);
    } else {
        assert((range + f) * 1 == range + f);
    }
}

} // verus!
