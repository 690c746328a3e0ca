//! Rounding to the nearest binary64 number, ties to even.
//!
//! The exact result of an operation is a whole number of units. Its rounding
//! is the magnitude whose number lies nearest; of two that lie equally near,
//! it is the one whose pattern is even. Infinity takes part as two to the
//! power 1024, which makes the overflow rule of IEEE 754 a case of the same
//! definition.
use crate::binary64::{
    lemma_units_assemble, lemma_units_order, lemma_units_zero, units, HIDDEN_BIT, INFINITY_BITS,
};
use vstd::arithmetic::div_mod::lemma_fundamental_div_mod;
use vstd::arithmetic::power2::{lemma_pow2_adds, lemma_pow2_pos, pow2};
use vstd::prelude::*;

verus! {

/// How far apart two whole numbers are.
pub open spec fn distance(a: int, b: int) -> int {
    if a <= b {
        b - a
    } else {
        a - b
    }
}

/// Whether the magnitude `r` is the rounding of `x` units.
pub open spec fn is_nearest_even(r: u64, x: int) -> bool {
    &&& r <= INFINITY_BITS
    &&& forall|d: u64|
        d <= INFINITY_BITS ==> distance(units(r) as int, x) <= distance(
            #[trigger] units(d) as int,
            x,
        )
    &&& forall|d: u64|
        d <= INFINITY_BITS && d != r && distance(#[trigger] units(d) as int, x) == distance(
            units(r) as int,
            x,
        ) ==> r % 2 == 0
}

/// The magnitude that `x` units round to.
pub open spec fn round_nearest_even(x: int) -> u64 {
    choose|r: u64| is_nearest_even(r, x)
}

/// A number has at most one rounding.
pub proof fn lemma_nearest_unique(r1: u64, r2: u64, x: int)
    requires
        is_nearest_even(r1, x),
        is_nearest_even(r2, x),
    ensures
        r1 == r2,
{
    if r1 != r2 {
        let lo: u64 = if r1 < r2 { r1 } else { r2 };
        let hi: u64 = if r1 < r2 { r2 } else { r1 };
        let mid: u64 = (lo + 1) as u64;
        lemma_units_order(lo, hi);
        lemma_units_order(lo, mid);
        lemma_units_order(mid, hi);
        assert(distance(units(r1) as int, x) == distance(units(r2) as int, x));
        assert(r1 % 2 == 0 && r2 % 2 == 0);
        assert(mid != hi);
        assert(distance(units(mid) as int, x) < distance(units(lo) as int, x));
    }
}

/// Whatever is the rounding of `x` is what `round_nearest_even` names.
pub proof fn lemma_round_is(r: u64, x: int)
    requires
        is_nearest_even(r, x),
    ensures
        round_nearest_even(x) == r,
{
    lemma_nearest_unique(r, round_nearest_even(x), x);
}

/// Rounding keeps the order: of two exact results, the smaller does not round
/// to the larger magnitude.
pub proof fn lemma_nearest_monotone(rx: u64, x: int, ry: u64, y: int)
    requires
        is_nearest_even(rx, x),
        is_nearest_even(ry, y),
        x <= y,
    ensures
        rx <= ry,
{
    if ry < rx {
        lemma_units_order(ry, rx);
        assert(distance(units(rx) as int, x) <= distance(units(ry) as int, x));
        assert(distance(units(ry) as int, y) <= distance(units(rx) as int, y));
        assert(x == y);
        lemma_nearest_unique(rx, ry, x);
    }
}

/// A representable number rounds to itself.
pub proof fn lemma_nearest_exact(r: u64)
    requires
        r <= INFINITY_BITS,
    ensures
        is_nearest_even(r, units(r) as int),
{
    assert forall|d: u64| d != r implies #[trigger] units(d) != units(r) by {
        lemma_units_order(d, r);
    }
}

/// A number that lies between two neighbouring magnitudes rounds to the nearer
/// one, and from half way between them to the even one.
pub proof fn lemma_nearest_between(lo: u64, x: int, r: u64)
    requires
        lo < INFINITY_BITS,
        units(lo) <= x <= units((lo + 1) as u64),
        r == lo || r == lo + 1,
        r == lo ==> 2 * x <= units(lo) + units((lo + 1) as u64),
        r == lo + 1 ==> 2 * x >= units(lo) + units((lo + 1) as u64),
        2 * x == units(lo) + units((lo + 1) as u64) ==> r % 2 == 0,
    ensures
        is_nearest_even(r, x),
{
    let hi: u64 = (lo + 1) as u64;
    assert forall|d: u64| d <= lo implies #[trigger] units(d) <= units(lo) by {
        lemma_units_order(d, lo);
    }
    assert forall|d: u64| d < lo implies #[trigger] units(d) < units(lo) by {
        lemma_units_order(d, lo);
    }
    assert forall|d: u64| d >= hi implies #[trigger] units(d) >= units(hi) by {
        lemma_units_order(hi, d);
    }
    assert forall|d: u64| d > hi implies #[trigger] units(d) > units(hi) by {
        lemma_units_order(hi, d);
    }
    lemma_units_order(lo, hi);
}

/// A number at or beyond two to the power 1024 rounds to infinity.
pub proof fn lemma_nearest_overflow(x: int)
    requires
        units(INFINITY_BITS) <= x,
    ensures
        is_nearest_even(INFINITY_BITS, x),
{
    assert forall|d: u64| d < INFINITY_BITS implies #[trigger] units(d) < units(INFINITY_BITS) by {
        lemma_units_order(d, INFINITY_BITS);
    }
}

/// The largest magnitude up to `bound` whose number does not exceed `x`.
proof fn lemma_floor(x: int, bound: u64) -> (lo: u64)
    requires
        0 <= x,
    ensures
        lo <= bound,
        units(lo) <= x,
        lo < bound ==> x < units((lo + 1) as u64),
    decreases bound,
{
    if units(bound) <= x {
        bound
    } else {
        assert(bound > 0) by {
            lemma_units_zero(bound);
        }
        lemma_floor(x, (bound - 1) as u64)
    }
}

/// Every number from zero on has a rounding, and `round_nearest_even` names it.
pub proof fn lemma_round_exists(x: int)
    requires
        0 <= x,
    ensures
        is_nearest_even(round_nearest_even(x), x),
{
    let lo: u64 = lemma_floor(x, INFINITY_BITS);
    if lo == INFINITY_BITS {
        lemma_nearest_overflow(x);
    } else {
        let hi: u64 = (lo + 1) as u64;
        let sum: int = (units(lo) + units(hi)) as int;
        let r: u64 = if 2 * x < sum || (2 * x == sum && lo % 2 == 0) {
            lo
        } else {
            hi
        };
        lemma_nearest_between(lo, x, r);
    }
}

/// The whole number nearest to `n / d`, ties to even.
pub open spec fn round_half_even(n: nat, d: nat) -> nat {
    let q: nat = n / d;
    let rem: nat = n % d;
    if 2 * rem > d || (2 * rem == d && q % 2 == 1) {
        q + 1
    } else {
        q
    }
}

/// Computes [`round_half_even`].
pub fn nearest_quotient(n: u64, d: u64) -> (m: u64)
    requires
        d > 0,
        n < u64::MAX,
    ensures
        m == round_half_even(n as nat, d as nat),
{
    let q: u64 = n / d;
    let rem: u64 = n % d;
    assert(q <= n) by (nonlinear_arith)
        requires
            q == n / d,
            d > 0,
    ;
    if rem > d - rem || (rem == d - rem && q % 2 == 1) {
        q + 1
    } else {
        q
    }
}

/// The magnitude that `n` times two to the power `sc` rounds to, where
/// dropping the lowest `shift` bits of `n` leaves a significand.
pub open spec fn scaled_rounding(n: nat, sc: nat, shift: nat) -> u64 {
    let pattern: int = (sc + shift) * HIDDEN_BIT + round_half_even(n, pow2(shift));
    if pattern < INFINITY_BITS {
        pattern as u64
    } else {
        INFINITY_BITS
    }
}

/// Rounding by parts: where the lowest `shift` bits of `n` are what does not
/// fit into a significand, rounding them away and assembling the pattern
/// rounds the scaled number, overflow to infinity included.
pub proof fn lemma_scaled_rounding(n: nat, sc: nat, shift: nat)
    requires
        sc + shift <= 2050,
        n / pow2(shift) < 2 * HIDDEN_BIT,
        sc + shift > 0 ==> n / pow2(shift) >= HIDDEN_BIT,
    ensures
        is_nearest_even(scaled_rounding(n, sc, shift), (n * pow2(sc)) as int),
{
    let d: nat = pow2(shift);
    let p: nat = pow2(sc);
    let k: nat = sc + shift;
    let q: nat = n / d;
    let rem: nat = n % d;
    let x: int = (n * p) as int;
    lemma_pow2_pos(shift);
    lemma_pow2_pos(sc);
    lemma_pow2_adds(sc, shift);
    lemma_fundamental_div_mod(n as int, d as int);
    let lo: u64 = (k * HIDDEN_BIT + q) as u64;
    let hi: u64 = (lo + 1) as u64;
    lemma_units_assemble(k, q);
    lemma_units_assemble(k, q + 1);
    let w: nat = pow2(k);
    assert(x - q * w == rem * p && (q + 1) * w - x == (d - rem) * p && 2 * x - (q * w + (q + 1) * w)
        == (2 * rem - d) * p) by (nonlinear_arith)
        requires
            x == n * p,
            n == d * q + rem,
            w == p * d,
    ;
    assert(rem * p >= 0 && (d - rem) * p > 0) by (nonlinear_arith)
        requires
            0 <= rem < d,
            p > 0,
    ;
    assert((2 * rem > d ==> (2 * rem - d) * p > 0) && (2 * rem < d ==> (2 * rem - d) * p < 0) && (2
        * rem == d ==> (2 * rem - d) * p == 0)) by (nonlinear_arith)
        requires
            p > 0,
    ;
    let m: nat = round_half_even(n, d);
    let r: u64 = (k * HIDDEN_BIT + m) as u64;
    if lo < INFINITY_BITS {
        lemma_nearest_between(lo, x, r);
    } else {
        lemma_units_order(INFINITY_BITS, lo);
        lemma_nearest_overflow(x);
    }
}

} // verus!
