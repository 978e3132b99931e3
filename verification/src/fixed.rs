//! Exact fixed-point scalars.
//!
//! A signal value is stored as an integer count of `1 / SCALE` units, so
//! every arithmetic step of the engine has an exact mathematical meaning.
//! Division and the scaling step of multiplication truncate toward zero,
//! exactly as the executable code computes them.

use vstd::arithmetic::div_mod::{
    lemma_div_nonincreasing, lemma_div_pos_is_pos, lemma_fundamental_div_mod,
    lemma_mod_division_less_than_divisor,
};
use vstd::prelude::*;

verus! {

/// Number of fixed-point units per whole unit of the signal: `1 << 32`.
pub const SCALE: i128 = 4294967296;

/// Magnitude cap on the fixed-point bits that the quadrature rules accept
/// for interval endpoints and sampled values: `1 << 61`. It keeps every
/// intermediate product inside `i128`.
pub const QBOUND: i128 = 2305843009213693952;

/// Magnitude of an integer.
pub open spec fn iabs(x: int) -> int {
    if x < 0 {
        -x
    } else {
        x
    }
}

/// Quotient of `a` by `n` rounded toward zero, as the machine computes it;
/// meaningful for `n >= 1`.
pub open spec fn trunc_div(a: int, n: int) -> int {
    if a >= 0 {
        a / n
    } else {
        -((-a) / n)
    }
}

/// A signal value: `bits / SCALE` in real terms.
#[derive(Clone, Copy, PartialEq, Eq, Structural, Debug)]
pub struct Fixed {
    pub bits: i128,
}

impl View for Fixed {
    type V = int;

    open spec fn view(&self) -> int {
        self.bits as int
    }
}

impl Fixed {
    /// Builds a value from its raw fixed-point bit count.
    pub fn from_bits(bits: i128) -> (r: Fixed)
        ensures
            r@ == bits as int,
    {
        Fixed { bits }
    }

    /// Builds the value representing the whole number `v`.
    pub fn from_int(v: i64) -> (r: Fixed)
        ensures
            r@ == v as int * SCALE as int,
    {
        Fixed { bits: (v as i128) * SCALE }
    }

    /// The raw fixed-point bit count.
    pub fn bits(&self) -> (r: i128)
        ensures
            r as int == self@,
    {
        self.bits
    }
}

/// Bounds of a product follow from bounds of its factors.
pub proof fn lemma_abs_mul(x: int, y: int, bx: int, by: int)
    requires
        iabs(x) <= bx,
        iabs(y) <= by,
    ensures
        iabs(x * y) <= bx * by,
{
    assert(iabs(x * y) <= bx * by) by (nonlinear_arith)
        requires
            iabs(x) <= bx,
            iabs(y) <= by,
    ;
}

/// Dividing by a positive count shrinks the magnitude, and multiplying the
/// quotient back never exceeds the dividend.
pub proof fn lemma_trunc_div_bounds(a: int, n: int)
    requires
        n >= 1,
    ensures
        iabs(trunc_div(a, n)) * n <= iabs(a),
        iabs(trunc_div(a, n)) <= iabs(a),
        a >= 0 ==> trunc_div(a, n) >= 0,
        a < 0 ==> trunc_div(a, n) <= 0,
{
    let p = iabs(a);
    let q = p / n;
    lemma_div_pos_is_pos(p, n);
    lemma_div_nonincreasing(p, n);
    lemma_fundamental_div_mod(p, n);
    lemma_mod_division_less_than_divisor(p, n);
    assert(n * q <= p);
    assert(q * n == n * q) by (nonlinear_arith);
}

/// A quotient bounded through a bound on the dividend: if `|a| <= c * n`
/// then `|a / n| <= c` for truncating division.
pub proof fn lemma_trunc_div_le(a: int, n: int, c: int)
    requires
        n >= 1,
        0 <= c,
        iabs(a) <= c * n,
    ensures
        iabs(trunc_div(a, n)) <= c,
{
    lemma_trunc_div_bounds(a, n);
    let q = iabs(trunc_div(a, n));
    assert(q * n <= c * n);
    assert(q <= c) by (nonlinear_arith)
        requires
            q * n <= c * n,
            n >= 1,
    ;
}

/// Truncating division by a positive count, computed through unsigned
/// division so that the rounding direction is pinned down exactly.
pub fn div_trunc(a: i128, n: i128) -> (r: i128)
    requires
        1 <= n,
        a != i128::MIN,
    ensures
        r as int == trunc_div(a as int, n as int),
        iabs(r as int) <= iabs(a as int),
{
    proof {
        lemma_trunc_div_bounds(a as int, n as int);
    }
    if a >= 0 {
        let q: u128 = (a as u128) / (n as u128);
        q as i128
    } else {
        let q: u128 = ((-a) as u128) / (n as u128);
        -(q as i128)
    }
}

} // verus!
