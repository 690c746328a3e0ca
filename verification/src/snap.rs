//! The snap rule of the Rao distance.
//!
//! Summing square roots in binary64 can leave the Bhattacharyya coefficient of
//! two equal distributions a few units short of one, and the arc cosine of
//! such a number is a small angle where the distance should be zero. A
//! coefficient is therefore clamped into the unit interval and then *snapped*:
//! if it lies within [`SNAP_FACTOR`] tolerances of one, it becomes one.
use crate::binary64::{
    decompose, lemma_units_assemble, lemma_units_order, lemma_units_successor, lemma_units_zero,
    units, Binary64, HALF_BITS, HIDDEN_BIT, INFINITY_BITS, ONE_BITS, SIGN_BIT,
};
use crate::rounding::{
    is_nearest_even, lemma_nearest_between, lemma_nearest_exact, lemma_nearest_overflow,
    lemma_nearest_monotone, lemma_round_exists, lemma_round_is, lemma_scaled_rounding,
    nearest_quotient, round_half_even, round_nearest_even, scaled_rounding,
};
use vstd::arithmetic::div_mod::{lemma_basic_div, lemma_fundamental_div_mod, lemma_small_mod};
use vstd::arithmetic::power2::{
    lemma2_to64, lemma2_to64_rest, lemma_pow2_adds, lemma_pow2_pos, lemma_pow2_strictly_increases,
    lemma_pow2_unfold, pow2,
};
use vstd::bits::{lemma_u64_pow2_no_overflow, lemma_u64_shl_is_mul};
use vstd::prelude::*;

verus! {

/// By how much the caller's tolerance is widened to decide that a coefficient
/// is one: rounding in a sum of square roots adds up to more than the
/// tolerance that the input was accepted with.
pub const SNAP_FACTOR: u64 = 10;

/// The snap margin of a tolerance: [`SNAP_FACTOR`] times the tolerance,
/// rounded as the binary64 product is. IEEE 754 leaves open which NaN the
/// product of a NaN is; here the margin of a NaN is that NaN.
pub open spec fn spec_snap_margin(tol: Binary64) -> Binary64 {
    if tol.spec_is_nan() {
        tol
    } else {
        tol.with_magnitude(round_nearest_even(SNAP_FACTOR * units(tol.magnitude())))
    }
}

/// How many low bits of a significand product do not fit into a significand,
/// and the power of two that divides them away.
fn excess_bits(product: u64) -> (r: (u64, u64))
    requires
        product < 0x200_0000_0000_0000,
    ensures
        r.0 <= 4,
        r.1 > 0,
        r.1 == pow2(r.0 as nat),
        product / r.1 < 2 * HIDDEN_BIT,
        r.0 > 0 ==> product / r.1 >= HIDDEN_BIT,
        r.0 == 0 <==> product < 2 * HIDDEN_BIT,
{
    proof {
        lemma2_to64();
    }
    if product < 0x20_0000_0000_0000 {
        return (0, 1);
    }
    if product < 0x40_0000_0000_0000 {
        return (1, 2);
    }
    if product < 0x80_0000_0000_0000 {
        return (2, 4);
    }
    if product < 0x100_0000_0000_0000 {
        return (3, 8);
    }
    (4, 16)
}

/// Computes the snap margin of a tolerance: what the binary64 product of the
/// tolerance and [`SNAP_FACTOR`] gives, bit for bit, but for the choice of a
/// NaN.
pub fn snap_margin(tol: Binary64) -> (r: Binary64)
    ensures
        r == spec_snap_margin(tol),
{
    let mag: u64 = tol.bits % SIGN_BIT;
    if mag >= INFINITY_BITS {
        proof {
            if mag == INFINITY_BITS {
                lemma_nearest_overflow(SNAP_FACTOR * units(mag));
                lemma_round_is(INFINITY_BITS, SNAP_FACTOR * units(mag));
            }
        }
        return tol;
    }
    // The product of the significands is exact in 64 bits. Its excess bits
    // are rounded away, and a carry out of the significand moves into the
    // exponent field by the addition that assembles the pattern.
    let sign: u64 = tol.bits - mag;
    let (sig, sc): (u64, u64) = decompose(mag);
    let product: u64 = SNAP_FACTOR * sig;
    let (shift, d): (u64, u64) = excess_bits(product);
    let m: u64 = nearest_quotient(product, d);
    let pattern: u64 = (sc + shift) * HIDDEN_BIT + m;
    let rounded: u64 = if pattern < INFINITY_BITS {
        pattern
    } else {
        INFINITY_BITS
    };
    proof {
        let x: int = SNAP_FACTOR * units(mag);
        assert(product * pow2(sc as nat) == x) by (nonlinear_arith)
            requires
                product == SNAP_FACTOR * sig,
                units(mag) == sig * pow2(sc as nat),
                x == SNAP_FACTOR * units(mag),
        ;
        lemma_scaled_rounding(product as nat, sc as nat, shift as nat);
        assert(rounded == scaled_rounding(product as nat, sc as nat, shift as nat));
        lemma_round_is(rounded, x);
    }
    Binary64 { bits: sign + rounded }
}

/// The gap between a number of the unit interval and one, rounded as the
/// binary64 difference is. The difference is never negative, so it is its own
/// absolute value.
pub open spec fn spec_unit_gap(c: Binary64) -> Binary64 {
    Binary64 { bits: round_nearest_even(units(ONE_BITS) - c.value()) }
}

/// One is two to the power 53 spacings of the numbers just below it.
proof fn lemma_units_one()
    ensures
        units(ONE_BITS) == 2 * HIDDEN_BIT * pow2(1021),
{
    lemma_units_assemble(1022, HIDDEN_BIT as nat);
    lemma_pow2_unfold(1022);
    assert(HIDDEN_BIT * (2 * pow2(1021)) == 2 * HIDDEN_BIT * pow2(1021)) by (nonlinear_arith);
}

/// Rounding the gap of a number below one half: the gap lies in the binade
/// just below one, and rounding the number itself to the spacing of that
/// binade rounds the gap.
proof fn lemma_gap_rounding(sig: nat, sc: nat)
    requires
        0 < sig < 2 * HIDDEN_BIT,
        sc <= 1020,
    ensures
        round_half_even(sig, pow2((1021 - sc) as nat)) <= HIDDEN_BIT,
        is_nearest_even(
            (1021 * HIDDEN_BIT + 2 * HIDDEN_BIT - round_half_even(
                sig,
                pow2((1021 - sc) as nat),
            )) as u64,
            units(ONE_BITS) - sig * pow2(sc),
        ),
{
    let sh: nat = (1021 - sc) as nat;
    let d: nat = pow2(sh);
    let p: nat = pow2(sc);
    let w: nat = pow2(1021);
    let q: nat = sig / d;
    let rem: nat = sig % d;
    let x: int = units(ONE_BITS) - sig * p;
    lemma_units_one();
    lemma_pow2_adds(sc, sh);
    lemma_pow2_pos(sc);
    lemma_pow2_pos((sh - 1) as nat);
    lemma_pow2_unfold(sh);
    lemma_fundamental_div_mod(sig as int, d as int);
    assert(q < HIDDEN_BIT) by (nonlinear_arith)
        requires
            sig == d * q + rem,
            sig < 2 * HIDDEN_BIT,
            d >= 2,
    ;
    let top: nat = (2 * HIDDEN_BIT - q) as nat;
    let lo: u64 = (1021 * HIDDEN_BIT + top - 1) as u64;
    let hi: u64 = (lo + 1) as u64;
    lemma_units_assemble(1021, top);
    lemma_units_assemble(1021, (top - 1) as nat);
    assert(top * w - x == rem * p && x - (top - 1) * w == (d - rem) * p && 2 * x - ((top - 1) * w
        + top * w) == (d - 2 * rem) * p) by (nonlinear_arith)
        requires
            x == 2 * HIDDEN_BIT * w - sig * p,
            sig == d * q + rem,
            w == p * d,
            top == 2 * HIDDEN_BIT - q,
    ;
    assert(rem * p >= 0 && (d - rem) * p > 0 && (rem == 0 ==> rem * p == 0)) by (nonlinear_arith)
        requires
            0 <= rem < d,
            p > 0,
    ;
    assert((2 * rem > d ==> (d - 2 * rem) * p < 0) && (2 * rem < d ==> (d - 2 * rem) * p > 0) && (2
        * rem == d ==> (d - 2 * rem) * p == 0)) by (nonlinear_arith)
        requires
            p > 0,
    ;
    let n: nat = round_half_even(sig, d);
    let r: u64 = (1021 * HIDDEN_BIT + 2 * HIDDEN_BIT - n) as u64;
    if rem == 0 {
        lemma_nearest_exact(hi);
    } else {
        lemma_nearest_between(lo, x, r);
    }
}

/// Computes the gap between a number of the unit interval and one: what the
/// binary64 subtraction of the number from one gives, bit for bit.
pub fn unit_gap(c: Binary64) -> (r: Binary64)
    requires
        c.in_unit_interval(),
    ensures
        r == spec_unit_gap(c),
        r.in_unit_interval(),
{
    let mag: u64 = c.bits % SIGN_BIT;
    proof {
        lemma_units_order(mag, ONE_BITS);
        lemma_units_zero(mag);
        lemma_units_zero(0);
        lemma_units_one();
    }
    if mag == 0 {
        proof {
            lemma_nearest_exact(ONE_BITS);
            lemma_round_is(ONE_BITS, units(ONE_BITS) - c.value());
        }
        return Binary64 { bits: ONE_BITS };
    }
    if mag == ONE_BITS {
        proof {
            lemma_nearest_exact(0);
            lemma_round_is(0, units(ONE_BITS) - c.value());
        }
        return Binary64 { bits: 0 };
    }
    let ghost x: int = units(ONE_BITS) - c.value();
    if mag >= HALF_BITS {
        // From one half on the difference is exact: it is `short` spacings of
        // the binade below one, and only has to be normalized.
        let short: u64 = HIDDEN_BIT - mag % HIDDEN_BIT;
        let mut k: u64 = short;
        let mut j: u64 = 0;
        proof {
            lemma2_to64();
            lemma2_to64_rest();
        }
        while k < HIDDEN_BIT
            invariant
                1 <= short <= HIDDEN_BIT,
                k == short * pow2(j as nat),
                1 <= k < 2 * HIDDEN_BIT,
                j <= 52,
                pow2(52) == HIDDEN_BIT,
            decreases 2 * HIDDEN_BIT - k,
        {
            proof {
                lemma_pow2_unfold((j + 1) as nat);
                assert(short * (2 * pow2(j as nat)) == 2 * (short * pow2(j as nat)))
                    by (nonlinear_arith);
                assert(pow2(j as nat) <= k) by (nonlinear_arith)
                    requires
                        k == short * pow2(j as nat),
                        short >= 1,
                ;
            }
            k = 2 * k;
            j = j + 1;
        }
        let pattern: u64 = (1021 - j) * HIDDEN_BIT + k;
        proof {
            lemma_units_assemble((1021 - j) as nat, k as nat);
            lemma_pow2_adds(j as nat, (1021 - j) as nat);
            assert(units(mag) == (2 * HIDDEN_BIT - short) * pow2(1021));
            assert(units(pattern) == x) by (nonlinear_arith)
                requires
                    units(pattern) == k * pow2((1021 - j) as nat),
                    k == short * pow2(j as nat),
                    pow2(1021) == pow2(j as nat) * pow2((1021 - j) as nat),
                    x == 2 * HIDDEN_BIT * pow2(1021) - (2 * HIDDEN_BIT - short) * pow2(1021),
            ;
            lemma_units_order(pattern, ONE_BITS);
            lemma_nearest_exact(pattern);
            lemma_round_is(pattern, x);
        }
        return Binary64 { bits: pattern };
    }
    // Below one half the difference lies in the binade below one, or is one:
    // the number is rounded to the spacing of that binade and taken from one.
    let (sig, sc): (u64, u64) = decompose(mag);
    let sh: u64 = 1021 - sc;
    let n: u64 = if sh >= 54 {
        proof {
            lemma2_to64_rest();
            if sh > 54 {
                lemma_pow2_strictly_increases(54, sh as nat);
            }
            lemma_basic_div(sig as int, pow2(sh as nat) as int);
            lemma_small_mod(sig as nat, pow2(sh as nat));
        }
        0
    } else {
        proof {
            lemma_u64_pow2_no_overflow(sh as nat);
            lemma_u64_shl_is_mul(1, sh);
        }
        nearest_quotient(sig, 1u64 << sh)
    };
    proof {
        lemma_gap_rounding(sig as nat, sc as nat);
    }
    let pattern: u64 = 1021 * HIDDEN_BIT + (2 * HIDDEN_BIT - n);
    proof {
        lemma_units_order(pattern, ONE_BITS);
        lemma_round_is(pattern, x);
    }
    Binary64 { bits: pattern }
}

/// Whether a clamped coefficient snaps to one: whether its gap to one is at
/// most the snap margin of the tolerance, as binary64 compares them. A NaN on
/// either side never snaps.
pub open spec fn snaps(c: Binary64, tol: Binary64) -> bool {
    c.in_unit_interval() && spec_unit_gap(c).spec_le(spec_snap_margin(tol))
}

/// The stabilized coefficient: clamped into the unit interval, then snapped.
pub open spec fn spec_stabilize(bc: Binary64, tol: Binary64) -> Binary64 {
    let c: Binary64 = bc.spec_clamp_unit();
    if snaps(c, tol) {
        Binary64 { bits: ONE_BITS }
    } else {
        c
    }
}

/// Stabilizes a Bhattacharyya coefficient for the arc cosine: clamps it into
/// the unit interval and snaps it to one where it lies within the snap margin
/// of `tol`. A NaN coefficient is returned as it is.
pub fn stabilize(bc: Binary64, tol: Binary64) -> (r: Binary64)
    ensures
        r == spec_stabilize(bc, tol),
        !bc.spec_is_nan() ==> r.in_unit_interval(),
{
    let c: Binary64 = bc.clamp_unit();
    if c.is_nan() {
        return c;
    }
    let gap: Binary64 = unit_gap(c);
    let margin: Binary64 = snap_margin(tol);
    if gap.le(margin) {
        Binary64::one()
    } else {
        c
    }
}

/// Boundedness: the stabilized form of every coefficient but a NaN lies in
/// the unit interval, whatever the tolerance. A NaN stays the NaN it was.
pub proof fn lemma_stabilize_bounded(bc: Binary64, tol: Binary64)
    ensures
        !bc.spec_is_nan() ==> spec_stabilize(bc, tol).in_unit_interval(),
        bc.spec_is_nan() ==> spec_stabilize(bc, tol) == bc,
{
    lemma_units_order(bc.magnitude(), ONE_BITS);
    lemma_units_zero(bc.magnitude());
    lemma_units_zero(0);
}

/// Identity: the coefficient one stays one under every tolerance, a NaN
/// included.
pub proof fn lemma_stabilize_one(tol: Binary64)
    ensures
        spec_stabilize(Binary64 { bits: ONE_BITS }, tol) == (Binary64 { bits: ONE_BITS }),
{
}

/// The snap is exact: a coefficient whose clamped value lies within
/// [`SNAP_FACTOR`] tolerances of one, in exact arithmetic, is stabilized to
/// precisely one. Rounding cannot undo the snap, because rounding keeps the
/// order.
pub proof fn lemma_snap_within_margin(bc: Binary64, tol: Binary64)
    requires
        !bc.spec_is_nan(),
        !tol.spec_is_nan(),
        units(ONE_BITS) - bc.spec_clamp_unit().value() <= SNAP_FACTOR * tol.value(),
    ensures
        spec_stabilize(bc, tol) == (Binary64 { bits: ONE_BITS }),
{
    let c: Binary64 = bc.spec_clamp_unit();
    lemma_stabilize_bounded(bc, tol);
    lemma_units_order(bc.magnitude(), ONE_BITS);
    lemma_units_zero(bc.magnitude());
    lemma_units_zero(0);
    let x: int = units(ONE_BITS) - c.value();
    let y: int = SNAP_FACTOR * units(tol.magnitude());
    lemma_round_exists(x);
    lemma_round_exists(y);
    let gap: u64 = round_nearest_even(x);
    let margin: u64 = round_nearest_even(y);
    if tol.is_negative() {
        lemma_units_zero(tol.magnitude());
        lemma_nearest_exact(0);
        lemma_round_is(0, 0);
    } else {
        lemma_nearest_monotone(gap, x, margin, y);
        lemma_units_order(gap, margin);
    }
}

/// The snap reaches no further than rounding does: a coefficient that was not
/// one after clamping and is stabilized to one met a tolerance that is no
/// NaN and not below zero, and its gap lies within the exact margin, or so
/// little beyond it that the two round to the same number.
pub proof fn lemma_snap_only_near_margin(bc: Binary64, tol: Binary64)
    requires
        !bc.spec_is_nan(),
        bc.spec_clamp_unit().bits != ONE_BITS,
        spec_stabilize(bc, tol).bits == ONE_BITS,
    ensures
        !tol.spec_is_nan(),
        tol.value() >= 0,
        units(ONE_BITS) - bc.spec_clamp_unit().value() <= SNAP_FACTOR * tol.value()
            || round_nearest_even(units(ONE_BITS) - bc.spec_clamp_unit().value())
            == round_nearest_even(SNAP_FACTOR * tol.value()),
{
    let c: Binary64 = bc.spec_clamp_unit();
    lemma_stabilize_bounded(bc, tol);
    lemma_units_order(c.magnitude(), ONE_BITS);
    lemma_units_zero(c.magnitude());
    lemma_units_zero(0);
    let x: int = units(ONE_BITS) - c.value();
    let y: int = SNAP_FACTOR * units(tol.magnitude());
    lemma_round_exists(x);
    lemma_round_exists(y);
    let gap: u64 = round_nearest_even(x);
    let margin: u64 = round_nearest_even(y);
    assert(gap != 0) by {
        lemma_units_successor(0);
        lemma2_to64();
        assert(units(1) == 1);
        assert(x >= 1);
    }
    lemma_units_zero(gap);
    lemma_units_order(gap, margin);
    if y < x {
        lemma_nearest_monotone(margin, y, gap, x);
    }
}

} // verus!
