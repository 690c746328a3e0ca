//! The IEEE 754 binary64 encoding, modelled over the integers.
//!
//! A pattern without its sign bit is called a *magnitude*. The magnitudes from
//! zero up to infinity are ordered as the numbers they encode, and stepping to
//! the next pattern steps to the next representable number. Values are
//! measured in *units* of the smallest subnormal, two to the power -1074, so
//! that every finite binary64 number is a whole number of units.
use vstd::arithmetic::power2::{lemma2_to64, lemma_pow2_pos, lemma_pow2_unfold, pow2};
use vstd::prelude::*;

verus! {

/// The sign bit of a pattern.
pub const SIGN_BIT: u64 = 0x8000_0000_0000_0000;

/// The weight of the implicit leading bit of a normal significand, two to the
/// power 52. It is also the magnitude of the smallest normal number.
pub const HIDDEN_BIT: u64 = 0x0010_0000_0000_0000;

/// The magnitude of infinity. Every larger magnitude encodes a NaN.
pub const INFINITY_BITS: u64 = 0x7FF0_0000_0000_0000;

/// The pattern of the number one.
pub const ONE_BITS: u64 = 0x3FF0_0000_0000_0000;

/// The pattern of the number one half.
pub const HALF_BITS: u64 = 0x3FE0_0000_0000_0000;

/// The significand of a magnitude: the fraction field, with the implicit
/// leading bit unless the number is subnormal.
pub open spec fn significand(m: u64) -> nat {
    if m < HIDDEN_BIT {
        m as nat
    } else {
        (HIDDEN_BIT + m % HIDDEN_BIT) as nat
    }
}

/// The power of two, counted from that of the subnormals, by which the
/// significand of a magnitude is scaled.
pub open spec fn scale(m: u64) -> nat {
    if m < HIDDEN_BIT {
        0
    } else {
        (m / HIDDEN_BIT - 1) as nat
    }
}

/// The number that a magnitude encodes, in units of the smallest subnormal.
/// Infinity counts as two to the power 1024, the number that would follow the
/// largest finite one.
pub open spec fn units(m: u64) -> nat {
    significand(m) * pow2(scale(m))
}

/// Splits a magnitude into its significand and its scale.
pub fn decompose(m: u64) -> (r: (u64, u64))
    ensures
        r.0 == significand(m),
        r.1 == scale(m),
        r.0 < 2 * HIDDEN_BIT,
        r.1 > 0 ==> r.0 >= HIDDEN_BIT,
{
    if m < HIDDEN_BIT {
        (m, 0)
    } else {
        (HIDDEN_BIT + m % HIDDEN_BIT, m / HIDDEN_BIT - 1)
    }
}

/// The gap between the number that a magnitude encodes and the next
/// representable number above it.
pub open spec fn spacing(m: u64) -> nat {
    pow2(scale(m))
}

/// Stepping to the next pattern steps to the next representable number.
pub proof fn lemma_units_successor(m: u64)
    requires
        m < u64::MAX,
    ensures
        units((m + 1) as u64) == units(m) + spacing(m),
{
    let next: u64 = (m + 1) as u64;
    let p: nat = pow2(scale(m));
    lemma2_to64();
    if next <= HIDDEN_BIT {
        assert(scale(m) == 0 && scale(next) == 0);
        assert(significand(m) == m && significand(next) == next);
        assert(units(m) == m) by (nonlinear_arith)
            requires
                units(m) == significand(m) * p,
                significand(m) == m,
                p == 1,
        ;
        assert(units(next) == next) by (nonlinear_arith)
            requires
                units(next) == significand(next) * p,
                significand(next) == next,
                p == 1,
        ;
    } else if next % HIDDEN_BIT != 0 {
        assert(scale(next) == scale(m));
        assert(significand(next) == significand(m) + 1);
        assert((significand(m) + 1) * p == significand(m) * p + p) by (nonlinear_arith);
    } else {
        assert(scale(next) == scale(m) + 1);
        assert(significand(next) == HIDDEN_BIT);
        assert(significand(m) == 2 * HIDDEN_BIT - 1);
        lemma_pow2_unfold(scale(next));
        assert(HIDDEN_BIT * (2 * p) == (2 * HIDDEN_BIT - 1) * p + p) by (nonlinear_arith);
    }
}

/// Larger magnitudes encode larger numbers.
pub proof fn lemma_units_increasing(a: u64, b: u64)
    requires
        a < b,
    ensures
        units(a) < units(b),
    decreases b,
{
    let prev: u64 = (b - 1) as u64;
    lemma_units_successor(prev);
    lemma_pow2_pos(scale(prev));
    if a < prev {
        lemma_units_increasing(a, prev);
    }
}

/// The magnitude that holds the significand `sig` at the scale `k` is
/// `k * HIDDEN_BIT + sig`. A significand of two to the power 53 carries into
/// the exponent field by itself.
pub proof fn lemma_units_assemble(k: nat, sig: nat)
    requires
        sig <= 2 * HIDDEN_BIT,
        k > 0 ==> HIDDEN_BIT <= sig,
        k * HIDDEN_BIT + sig <= u64::MAX,
    ensures
        units((k * HIDDEN_BIT + sig) as u64) == sig * pow2(k),
{
    let m: u64 = (k * HIDDEN_BIT + sig) as u64;
    if sig < HIDDEN_BIT {
        assert(m == sig && scale(m) == 0);
    } else if sig < 2 * HIDDEN_BIT {
        assert(m / HIDDEN_BIT == k + 1);
        assert(m % HIDDEN_BIT == sig - HIDDEN_BIT);
    } else {
        assert(m / HIDDEN_BIT == k + 2);
        assert(m % HIDDEN_BIT == 0);
        lemma_pow2_unfold(k + 1);
        assert(HIDDEN_BIT * (2 * pow2(k)) == (2 * HIDDEN_BIT) * pow2(k)) by (nonlinear_arith);
    }
}

/// Magnitudes are ordered exactly as the numbers that they encode.
pub proof fn lemma_units_order(a: u64, b: u64)
    ensures
        a < b <==> units(a) < units(b),
        a == b <==> units(a) == units(b),
        a <= b <==> units(a) <= units(b),
{
    if a < b {
        lemma_units_increasing(a, b);
    }
    if b < a {
        lemma_units_increasing(b, a);
    }
}

/// The magnitude zero encodes the number zero, and no other magnitude does.
pub proof fn lemma_units_zero(m: u64)
    ensures
        units(m) == 0 <==> m == 0,
{
    assert(units(0) == 0) by (nonlinear_arith)
        requires
            units(0) == 0 * pow2(0),
    ;
    lemma_units_order(0, m);
}

/// A binary64 number, held as its 64-bit pattern.
///
/// Two values are equal when their patterns are: positive and negative zero
/// differ, and a NaN equals itself.
#[derive(Clone, Copy, Debug, PartialEq, Eq, Structural)]
pub struct Binary64 {
    pub bits: u64,
}

impl Binary64 {
    /// The pattern without its sign bit.
    pub open spec fn magnitude(self) -> u64 {
        (self.bits % SIGN_BIT) as u64
    }

    /// Whether the sign bit is set. It may be set on a zero and on a NaN.
    pub open spec fn is_negative(self) -> bool {
        self.bits >= SIGN_BIT
    }

    /// Whether the pattern encodes a NaN: whether its magnitude lies beyond
    /// that of infinity.
    pub open spec fn spec_is_nan(self) -> bool {
        self.magnitude() > INFINITY_BITS
    }

    /// The encoded number, in units of the smallest subnormal. Both zeros have
    /// the value zero; the infinities count as plus and minus two to the
    /// power 1024. The value of a NaN has no meaning.
    pub open spec fn value(self) -> int {
        if self.is_negative() {
            -(units(self.magnitude()) as int)
        } else {
            units(self.magnitude()) as int
        }
    }

    /// The pattern with the sign of `self` and the magnitude `m`.
    pub open spec fn with_magnitude(self, m: u64) -> Binary64 {
        Binary64 { bits: (self.bits - self.magnitude() + m) as u64 }
    }

    /// Whether the number lies between zero and one, both included.
    pub open spec fn in_unit_interval(self) -> bool {
        !self.spec_is_nan() && 0 <= self.value() <= units(ONE_BITS)
    }

    /// The order of the encoded numbers, which holds of no NaN.
    pub open spec fn spec_le(self, other: Binary64) -> bool {
        !self.spec_is_nan() && !other.spec_is_nan() && self.value() <= other.value()
    }

    /// The number moved into the unit interval by the shortest way. A NaN,
    /// and a number that lies in the interval already, keeps its pattern.
    pub open spec fn spec_clamp_unit(self) -> Binary64 {
        if self.spec_is_nan() {
            self
        } else if self.value() < 0 {
            Binary64 { bits: 0 }
        } else if self.value() > units(ONE_BITS) {
            Binary64 { bits: ONE_BITS }
        } else {
            self
        }
    }

    /// The number one.
    pub fn one() -> (r: Binary64)
        ensures
            r.bits == ONE_BITS,
    {
        Binary64 { bits: ONE_BITS }
    }

    /// Whether the pattern encodes a NaN.
    #[verifier::when_used_as_spec(spec_is_nan)]
    pub fn is_nan(self) -> (r: bool)
        ensures
            r == self.spec_is_nan(),
    {
        self.bits % SIGN_BIT > INFINITY_BITS
    }

    /// The comparison `self <= other` of IEEE 754: false as soon as either
    /// side is a NaN, and otherwise the order of the encoded numbers, in which
    /// the two zeros are equal.
    #[verifier::when_used_as_spec(spec_le)]
    pub fn le(self, other: Binary64) -> (r: bool)
        ensures
            r == self.spec_le(other),
    {
        if self.is_nan() || other.is_nan() {
            return false;
        }
        let a: u64 = self.bits % SIGN_BIT;
        let b: u64 = other.bits % SIGN_BIT;
        proof {
            lemma_units_order(a, b);
            lemma_units_zero(a);
            lemma_units_zero(b);
        }
        if self.bits < SIGN_BIT {
            if other.bits < SIGN_BIT {
                a <= b
            } else {
                a == 0 && b == 0
            }
        } else {
            if other.bits < SIGN_BIT {
                true
            } else {
                b <= a
            }
        }
    }

    /// Clamps the number into the unit interval: a number below zero becomes
    /// positive zero, a number above one becomes one, and every other pattern,
    /// a NaN and negative zero among them, is returned as it is.
    pub fn clamp_unit(self) -> (r: Binary64)
        ensures
            r == self.spec_clamp_unit(),
            !self.spec_is_nan() ==> r.in_unit_interval(),
    {
        let m: u64 = self.bits % SIGN_BIT;
        proof {
            lemma_units_order(m, ONE_BITS);
            lemma_units_zero(m);
            lemma_units_zero(0);
        }
        if m > INFINITY_BITS {
            self
        } else if self.bits > SIGN_BIT {
            Binary64 { bits: 0 }
        } else if self.bits < SIGN_BIT && m > ONE_BITS {
            Binary64 { bits: ONE_BITS }
        } else {
            self
        }
    }
}

} // verus!
