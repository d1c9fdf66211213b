//! Double-precision numbers as bit patterns.
//!
//! Ranking keys, weights and draws are binary64 numbers. Here they are held
//! as the 64 bits that encode them, and classified and ordered by integer
//! arithmetic on those bits.

use std::cmp::Ordering;
use vstd::arithmetic::div_mod::{
    lemma_basic_div, lemma_div_by_multiple, lemma_div_is_ordered,
    lemma_div_multiples_vanish_quotient,
};
use vstd::arithmetic::power2::{
    lemma2_to64, lemma_pow2_adds, lemma_pow2_pos, lemma_pow2_strictly_increases,
    lemma_pow2_unfold, pow2,
};
use vstd::bits::{
    lemma_u128_shr_is_div, lemma_u64_mul_pow2_le_max_iff_max_shr, lemma_u64_shl_is_mul,
};
use vstd::prelude::*;

verus! {

/// The pattern of the sign bit alone; as a number it is negative zero.
pub const SIGN_BIT: u64 = 0x8000_0000_0000_0000;

/// The pattern of positive infinity: all exponent bits set, no fraction bit.
pub const INFINITY_BITS: u64 = 0x7FF0_0000_0000_0000;

/// The pattern of negative infinity.
pub const NEG_INFINITY_BITS: u64 = 0xFFF0_0000_0000_0000;

/// The pattern of the number one.
pub const ONE_BITS: u64 = 0x3FF0_0000_0000_0000;

/// Two to the power of fifty-two: the weight of the lowest exponent bit.
pub const FRACTION_RANGE: u64 = 0x0010_0000_0000_0000;

/// A binary64 number, given by its bit pattern: one sign bit, eleven
/// exponent bits and fifty-two fraction bits, from the top down.
#[derive(Clone, Copy, Debug, PartialEq, Eq, Structural)]
pub struct Binary64 {
    pub bits: u64,
}

impl Binary64 {
    /// The pattern without its sign bit.
    pub open spec fn magnitude(self) -> int {
        if self.bits >= SIGN_BIT {
            self.bits - SIGN_BIT
        } else {
            self.bits as int
        }
    }

    /// Whether the sign bit is set.
    pub open spec fn is_negative(self) -> bool {
        self.bits >= SIGN_BIT
    }

    /// Not a number: the exponent bits are all set and some fraction bit is.
    pub open spec fn spec_is_nan(self) -> bool {
        self.magnitude() > INFINITY_BITS
    }

    /// Positive or negative zero.
    pub open spec fn spec_is_zero(self) -> bool {
        self.magnitude() == 0
    }

    /// Positive infinity.
    pub open spec fn is_infinity(self) -> bool {
        self.bits == INFINITY_BITS
    }

    /// Neither NaN nor an infinity.
    pub open spec fn is_finite(self) -> bool {
        self.magnitude() < INFINITY_BITS
    }

    /// The exponent bits, as a number.
    pub open spec fn exponent(self) -> int {
        self.magnitude() / (FRACTION_RANGE as int)
    }

    /// The fraction bits, as a number.
    pub open spec fn fraction(self) -> int {
        self.magnitude() % (FRACTION_RANGE as int)
    }

    /// The absolute value of a finite number, in units of the smallest
    /// positive number, which is two to the power of minus 1074: the
    /// fraction alone where the exponent bits are zero, and else the fraction
    /// with a leading one, doubled once for each step of the exponent above
    /// one.
    pub open spec fn scaled_magnitude(self) -> int {
        if self.exponent() == 0 {
            self.fraction()
        } else {
            (FRACTION_RANGE + self.fraction()) * pow2((self.exponent() - 1) as nat)
        }
    }

    /// The whole units in a finite number that is not negative, where `unit`
    /// units make the number one: the value times `unit`, rounded down.
    pub open spec fn whole_units(self, unit: u32) -> int {
        (self.scaled_magnitude() * unit) / (pow2(1074) as int)
    }

    /// A number as a count of units: its whole units, as far as sixty-four
    /// bits hold them, and none for NaN and for any number with the sign bit
    /// set.
    pub open spec fn units(self, unit: u32) -> u64 {
        if self.is_nan() || self.is_negative() {
            0
        } else if self.is_infinity() || self.whole_units(unit) > u64::MAX {
            u64::MAX
        } else {
            self.whole_units(unit) as u64
        }
    }

    /// The value of a finite number, in the same units.
    pub open spec fn scaled_value(self) -> int {
        if self.is_negative() {
            -self.scaled_magnitude()
        } else {
            self.scaled_magnitude()
        }
    }

    /// The place of a number in the numeric order: for patterns that are not
    /// NaN, one number is below another exactly when its rank is smaller, and
    /// the two zeros share rank zero. A larger magnitude lies further from
    /// zero, on the side that the sign gives.
    pub open spec fn rank(self) -> int {
        if self.is_negative() {
            -self.magnitude()
        } else {
            self.magnitude()
        }
    }

    /// The numeric comparison of two patterns: none where either is NaN,
    /// else the order of their ranks.
    pub open spec fn partial_order(self, other: Binary64) -> Option<Ordering> {
        if self.is_nan() || other.is_nan() {
            None
        } else if self.rank() < other.rank() {
            Some(Ordering::Less)
        } else if self.rank() == other.rank() {
            Some(Ordering::Equal)
        } else {
            Some(Ordering::Greater)
        }
    }

    /// The number with the given pattern.
    pub fn from_bits(bits: u64) -> (out: Binary64)
        ensures
            out.bits == bits,
    {
        Binary64 { bits }
    }

    /// The pattern of the number.
    pub fn to_bits(&self) -> (out: u64)
        ensures
            out == self.bits,
    {
        self.bits
    }

    /// Positive infinity, above every other number.
    pub fn infinity() -> (out: Binary64)
        ensures
            out.bits == INFINITY_BITS,
            out.is_infinity(),
            !out.is_nan(),
    {
        Binary64 { bits: INFINITY_BITS }
    }

    /// Negative infinity, below every other number.
    pub fn negative_infinity() -> (out: Binary64)
        ensures
            out.bits == NEG_INFINITY_BITS,
    {
        Binary64 { bits: NEG_INFINITY_BITS }
    }

    /// The number one.
    pub fn one() -> (out: Binary64)
        ensures
            out.bits == ONE_BITS,
    {
        Binary64 { bits: ONE_BITS }
    }

    fn magnitude_bits(&self) -> (out: u64)
        ensures
            out == self.magnitude(),
    {
        if self.bits >= SIGN_BIT {
            self.bits - SIGN_BIT
        } else {
            self.bits
        }
    }

    /// Whether this is NaN, which compares with nothing.
    #[verifier::when_used_as_spec(spec_is_nan)]
    pub fn is_nan(self) -> (out: bool)
        ensures
            out == self.spec_is_nan(),
    {
        self.magnitude_bits() > INFINITY_BITS
    }

    /// Whether this is zero, of either sign.
    #[verifier::when_used_as_spec(spec_is_zero)]
    pub fn is_zero(self) -> (out: bool)
        ensures
            out == self.spec_is_zero(),
    {
        self.magnitude_bits() == 0
    }

    /// Counts the units in a number, of which `unit` make the number one.
    pub fn to_units(&self, unit: u32) -> (out: u64)
        ensures
            out == self.units(unit),
    {
        let m: u64 = self.magnitude_bits();
        if self.bits >= SIGN_BIT || m > INFINITY_BITS {
            return 0;
        }
        if m == INFINITY_BITS {
            return u64::MAX;
        }
        let e: u64 = m / FRACTION_RANGE;
        let f: u64 = m % FRACTION_RANGE;
        let significand: u64 = if e == 0 {
            f
        } else {
            FRACTION_RANGE + f
        };
        let doublings: u64 = if e == 0 {
            0
        } else {
            e - 1
        };
        assert(significand * unit < 0x20_0000_0000_0000 * 0x1_0000_0000) by (nonlinear_arith)
            requires
                significand < 0x20_0000_0000_0000,
                unit < 0x1_0000_0000,
        ;
        let product: u128 = (significand as u128) * (unit as u128);
        proof {
            lemma2_to64();
            assert(self.scaled_magnitude() == significand * pow2(doublings as nat));
            assert(self.scaled_magnitude() * unit == product * pow2(doublings as nat))
                by (nonlinear_arith)
                requires
                    self.scaled_magnitude() == significand * pow2(doublings as nat),
                    product == significand * unit,
            ;
        }
        if doublings >= 1074 {
            let k: u64 = doublings - 1074;
            proof {
                lemma_pow2_adds(1074, k as nat);
                lemma_pow2_pos(1074);
                lemma_pow2_pos(k as nat);
                assert(product * pow2(doublings as nat) == (product * pow2(k as nat)) * pow2(1074))
                    by (nonlinear_arith)
                    requires
                        pow2(doublings as nat) == pow2(1074) * pow2(k as nat),
                ;
                assert(0 <= product * pow2(k as nat)) by (nonlinear_arith)
                    requires
                        0 <= product,
                        0 < pow2(k as nat),
                ;
                lemma_div_by_multiple(product * pow2(k as nat), pow2(1074) as int);
                assert(self.whole_units(unit) == product * pow2(k as nat));
            }
            if product == 0 {
                assert(product * pow2(k as nat) == 0) by (nonlinear_arith)
                    requires
                        product == 0,
                ;
                0
            } else if k >= 64 {
                proof {
                    if k > 64 {
                        lemma_pow2_strictly_increases(64, k as nat);
                    }
                    assert(product * pow2(k as nat) >= pow2(64)) by (nonlinear_arith)
                        requires
                            product >= 1,
                            pow2(k as nat) >= pow2(64),
                    ;
                }
                u64::MAX
            } else {
                let most: u64 = u64::MAX >> k;
                if product > most as u128 {
                    proof {
                        if product <= u64::MAX {
                            lemma_u64_mul_pow2_le_max_iff_max_shr(product as u64, k, u64::MAX);
                        } else {
                            assert(product * pow2(k as nat) >= product) by (nonlinear_arith)
                                requires
                                    product >= 0,
                                    pow2(k as nat) >= 1,
                            ;
                        }
                    }
                    u64::MAX
                } else {
                    proof {
                        lemma_u64_mul_pow2_le_max_iff_max_shr(product as u64, k, u64::MAX);
                        lemma_u64_shl_is_mul(product as u64, k);
                    }
                    (product as u64) << k
                }
            }
        } else {
            let j: u64 = 1074 - doublings;
            proof {
                lemma_pow2_adds(doublings as nat, j as nat);
                lemma_pow2_pos(doublings as nat);
                lemma_pow2_pos(j as nat);
                lemma_div_multiples_vanish_quotient(
                    pow2(doublings as nat) as int,
                    product as int,
                    pow2(j as nat) as int,
                );
                assert(product * pow2(doublings as nat) == pow2(doublings as nat) * product)
                    by (nonlinear_arith);
                assert(self.whole_units(unit) == product as int / pow2(j as nat) as int);
            }
            if j >= 85 {
                proof {
                    lemma_pow2_adds(64, 21);
                    if j > 85 {
                        lemma_pow2_strictly_increases(85, j as nat);
                    }
                    assert(pow2(85) == 0x20_0000_0000_0000 * 0x1_0000_0000);
                    lemma_basic_div(product as int, pow2(j as nat) as int);
                }
                0
            } else {
                proof {
                    lemma_u128_shr_is_div(product, j as u128);
                }
                let whole: u128 = product >> (j as u128);
                if whole > u64::MAX as u128 {
                    u64::MAX
                } else {
                    whole as u64
                }
            }
        }
    }

    /// Compares two numbers as binary64 arithmetic does.
    pub fn partial_cmp(&self, other: &Binary64) -> (out: Option<Ordering>)
        ensures
            out == self.partial_order(*other),
    {
        if self.is_nan() || other.is_nan() {
            return None;
        }
        let a: u64 = self.magnitude_bits();
        let b: u64 = other.magnitude_bits();
        let a_negative = self.bits >= SIGN_BIT;
        let b_negative = other.bits >= SIGN_BIT;
        let order = if a_negative && b_negative {
            Self::order_of(b, a)
        } else if a_negative {
            if a == 0 && b == 0 {
                Ordering::Equal
            } else {
                Ordering::Less
            }
        } else if b_negative {
            if a == 0 && b == 0 {
                Ordering::Equal
            } else {
                Ordering::Greater
            }
        } else {
            Self::order_of(a, b)
        };
        Some(order)
    }

    fn order_of(a: u64, b: u64) -> (out: Ordering)
        ensures
            a < b ==> out == Ordering::Less,
            a == b ==> out == Ordering::Equal,
            a > b ==> out == Ordering::Greater,
    {
        if a < b {
            Ordering::Less
        } else if a == b {
            Ordering::Equal
        } else {
            Ordering::Greater
        }
    }
}

/// Of two finite numbers, the one with the smaller pattern below the sign
/// bit has the smaller absolute value.
proof fn lemma_magnitude_grows_with_value(a: Binary64, b: Binary64)
    requires
        a.is_finite(),
        b.is_finite(),
        a.magnitude() < b.magnitude(),
    ensures
        0 <= a.scaled_magnitude() < b.scaled_magnitude(),
{
    let range = FRACTION_RANGE as int;
    let ea = a.exponent();
    let eb = b.exponent();
    let fa = a.fraction();
    let fb = b.fraction();
    assert(a.magnitude() == ea * range + fa && 0 <= fa < range && 0 <= ea);
    assert(b.magnitude() == eb * range + fb && 0 <= fb < range && 0 <= eb);
    assert(ea <= eb);
    if ea == eb {
        if ea > 0 {
            let p = pow2((ea - 1) as nat) as int;
            lemma_pow2_pos((ea - 1) as nat);
            assert((range + fa) * p < (range + fb) * p) by (nonlinear_arith)
                requires
                    fa < fb,
                    p > 0,
            ;
            assert(0 <= (range + fa) * p) by (nonlinear_arith)
                requires
                    0 <= fa,
                    range > 0,
                    p > 0,
            ;
        }
    } else {
        let q = pow2((eb - 1) as nat) as int;
        lemma_pow2_pos((eb - 1) as nat);
        assert(range * q <= (range + fb) * q) by (nonlinear_arith)
            requires
                0 <= fb,
                q > 0,
        ;
        assert(range <= range * q) by (nonlinear_arith)
            requires
                range > 0,
                q >= 1,
        ;
        if ea > 0 {
            let p = pow2((ea - 1) as nat) as int;
            lemma_pow2_pos((ea - 1) as nat);
            lemma_pow2_unfold(ea as nat);
            if ea < eb - 1 {
                lemma_pow2_strictly_increases(ea as nat, (eb - 1) as nat);
            }
            assert(2 * p <= q);
            assert((range + fa) * p < range * q) by (nonlinear_arith)
                requires
                    0 <= fa < range,
                    p > 0,
                    2 * p <= q,
            ;
            assert(0 <= (range + fa) * p) by (nonlinear_arith)
                requires
                    0 <= fa,
                    range > 0,
                    p > 0,
            ;
        }
    }
}

/// The rank orders the finite numbers as their values do, and gives equal
/// ranks to equal values only: to either zero, or to one pattern.
pub proof fn law_rank_orders_as_values(a: Binary64, b: Binary64)
    requires
        a.is_finite(),
        b.is_finite(),
    ensures
        a.rank() < b.rank() <==> a.scaled_value() < b.scaled_value(),
        a.rank() == b.rank() <==> a.scaled_value() == b.scaled_value(),
{
    let zero = Binary64 { bits: 0 };
    assert(zero.scaled_magnitude() == 0);
    if a.magnitude() < b.magnitude() {
        lemma_magnitude_grows_with_value(a, b);
    }
    if b.magnitude() < a.magnitude() {
        lemma_magnitude_grows_with_value(b, a);
    }
    if 0 < a.magnitude() {
        lemma_magnitude_grows_with_value(zero, a);
    }
    if 0 < b.magnitude() {
        lemma_magnitude_grows_with_value(zero, b);
    }
}

/// A larger number holds no fewer units.
pub proof fn law_larger_numbers_hold_more_units(a: Binary64, b: Binary64, unit: u32)
    requires
        !a.is_nan(),
        !b.is_nan(),
        a.rank() <= b.rank(),
    ensures
        a.units(unit) <= b.units(unit),
{
    let zero = Binary64 { bits: 0 };
    let whole = pow2(1074) as int;
    lemma_pow2_pos(1074);
    assert(zero.scaled_magnitude() == 0);
    if !a.is_negative() && a.is_finite() && b.is_finite() {
        if 0 < a.magnitude() {
            lemma_magnitude_grows_with_value(zero, a);
        }
        assert(0 <= a.scaled_magnitude() * unit) by (nonlinear_arith)
            requires
                0 <= a.scaled_magnitude(),
                unit >= 0,
        ;
        lemma_div_is_ordered(0, a.scaled_magnitude() * unit, whole);
        lemma_basic_div(0, whole);
        if b.is_negative() {
            assert(a.magnitude() == 0);
            assert(a.scaled_magnitude() == 0);
            assert(a.scaled_magnitude() * unit == 0);
        } else {
            if a.magnitude() < b.magnitude() {
                lemma_magnitude_grows_with_value(a, b);
            }
            assert(a.scaled_magnitude() * unit <= b.scaled_magnitude() * unit) by (nonlinear_arith)
                requires
                    a.scaled_magnitude() <= b.scaled_magnitude(),
                    unit >= 0,
            ;
            lemma_div_is_ordered(a.scaled_magnitude() * unit, b.scaled_magnitude() * unit, whole);
        }
    }
}

/// Nothing that is a number ranks above positive infinity.
pub proof fn lemma_infinity_is_greatest(x: Binary64)
    requires
        !x.is_nan(),
    ensures
        x.rank() <= INFINITY_BITS,
        x.rank() == INFINITY_BITS <==> x.is_infinity(),
{
}

} // verus!
