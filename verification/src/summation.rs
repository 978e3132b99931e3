//! Quadrature rules and the interpolated sample table they evaluate.
//!
//! Each rule approximates the definite integral of a `Callable` over an
//! interval with a fixed number of equal slices. All arithmetic is exact
//! fixed-point arithmetic, so every rule's result is pinned down by a spec
//! function of its inputs.

use crate::fixed::{
    div_trunc, iabs, lemma_abs_mul, lemma_trunc_div_bounds, lemma_trunc_div_le, trunc_div, Fixed,
    QBOUND, SCALE,
};
use vstd::arithmetic::div_mod::{
    lemma_div_pos_is_pos, lemma_fundamental_div_mod, lemma_mod_division_less_than_divisor,
};
use vstd::arithmetic::mul::lemma_mul_inequality;
use vstd::prelude::*;

verus! {

/// The ways a computation of the engine can fail.
#[derive(Clone, Copy, Debug, PartialEq, Eq, Structural)]
pub enum SimError {
    /// A quadrature call was configured with zero slices.
    ConfigurationError,
    /// An interpolation query needed a sample beyond the stored table.
    IndexOutOfRange,
}

/// Something that can be queried at a fixed-point position and returns a
/// fixed-point value.
pub trait Callable {
    /// Whether a query at position `x` (in bits) is supported.
    spec fn valid_at(&self, x: int) -> bool;

    /// The exact value (in bits) returned for a query at `x`.
    spec fn value_at(&self, x: int) -> int;

    /// Queries the callable at the given position.
    fn call(&self, given: Fixed) -> (r: Fixed)
        requires
            self.valid_at(given@),
        ensures
            r@ == self.value_at(given@),
    ;
}

/// The callable as a plain mathematical function of the query position.
pub open spec fn fun_of<T: Callable>(cb: &T) -> spec_fn(int) -> int {
    |x: int| cb.value_at(x)
}

/// Position of grid point `i`: start `l`, pitch `st`, shift `off`.
pub open spec fn sample(l: int, st: int, off: int, i: int) -> int {
    l + i * st + off
}

/// Sum of `f` over the first `k` grid points.
pub open spec fn sum_points(f: spec_fn(int) -> int, l: int, st: int, off: int, k: int) -> int
    decreases k,
{
    if k <= 0 {
        0
    } else {
        sum_points(f, l, st, off, k - 1) + f(sample(l, st, off, k - 1))
    }
}

/// Coefficient of grid point `i` in Simpson's rule over `n` slices.
pub open spec fn simpson_weight(i: int, n: int) -> int {
    if i == 0 || i == n {
        1
    } else if i % 2 == 1 {
        4
    } else {
        2
    }
}

/// Weighted sum of `f` over the first `k` of the `n + 1` Simpson grid points.
pub open spec fn sum_simpson(f: spec_fn(int) -> int, l: int, st: int, n: int, k: int) -> int
    decreases k,
{
    if k <= 0 {
        0
    } else {
        sum_simpson(f, l, st, n, k - 1) + simpson_weight(k - 1, n) * f(sample(l, st, 0, k - 1))
    }
}

/// The grid pitch: the interval length divided by the slice count,
/// truncated toward zero.
pub open spec fn spec_step(l: int, u: int, n: int) -> int {
    trunc_div(u - l, n)
}

/// Both interval endpoints are small enough for exact evaluation.
pub open spec fn endpoints_ok(l: int, u: int) -> bool {
    iabs(l) <= QBOUND as int && iabs(u) <= QBOUND as int
}

/// The first `k` grid points are all supported by the callable and yield
/// values of magnitude at most `cap`.
pub open spec fn points_ok<T: Callable>(
    cb: &T,
    l: int,
    st: int,
    off: int,
    k: int,
    cap: int,
) -> bool {
    forall|i: int|
        0 <= i < k ==> cb.valid_at(#[trigger] sample(l, st, off, i)) && iabs(
            cb.value_at(sample(l, st, off, i)),
        ) <= cap
}

/// Inputs on which the left Riemann rule evaluates exactly.
pub open spec fn left_riemann_ok<T: Callable>(cb: &T, l: int, u: int, n: int) -> bool {
    endpoints_ok(l, u) && points_ok(cb, l, spec_step(l, u, n), 0, n, QBOUND as int)
}

/// Inputs on which the midpoint Riemann rule evaluates exactly.
pub open spec fn mid_riemann_ok<T: Callable>(cb: &T, l: int, u: int, n: int) -> bool {
    endpoints_ok(l, u) && points_ok(
        cb,
        l,
        spec_step(l, u, n),
        trunc_div(spec_step(l, u, n), 2),
        n,
        QBOUND as int,
    )
}

/// Inputs on which the right Riemann rule evaluates exactly.
pub open spec fn right_riemann_ok<T: Callable>(cb: &T, l: int, u: int, n: int) -> bool {
    endpoints_ok(l, u) && points_ok(cb, l, spec_step(l, u, n), spec_step(l, u, n), n, QBOUND as int)
}

/// Inputs on which the trapezoidal rule evaluates exactly.
pub open spec fn trapezoidal_ok<T: Callable>(cb: &T, l: int, u: int, n: int) -> bool {
    &&& endpoints_ok(l, u)
    &&& points_ok(cb, l, spec_step(l, u, n), 0, n, QBOUND as int)
    &&& cb.valid_at(l) && iabs(cb.value_at(l)) <= QBOUND as int
    &&& cb.valid_at(u) && iabs(cb.value_at(u)) <= QBOUND as int
}

/// Inputs on which Simpson's rule evaluates exactly.
pub open spec fn simpsons_ok<T: Callable>(cb: &T, l: int, u: int, n: int) -> bool {
    endpoints_ok(l, u) && points_ok(cb, l, spec_step(l, u, n), 0, n + 1, QBOUND as int)
}

/// The exact left Riemann sum: `st * (f(l) + f(l + st) + ...)`, scaled.
pub open spec fn spec_left_riemann(f: spec_fn(int) -> int, l: int, u: int, n: int) -> int {
    trunc_div(sum_points(f, l, spec_step(l, u, n), 0, n) * spec_step(l, u, n), SCALE as int)
}

/// The exact midpoint Riemann sum: samples shifted by half a pitch.
pub open spec fn spec_mid_riemann(f: spec_fn(int) -> int, l: int, u: int, n: int) -> int {
    trunc_div(
        sum_points(f, l, spec_step(l, u, n), trunc_div(spec_step(l, u, n), 2), n) * spec_step(
            l,
            u,
            n,
        ),
        SCALE as int,
    )
}

/// The exact right Riemann sum: samples shifted by one pitch.
pub open spec fn spec_right_riemann(f: spec_fn(int) -> int, l: int, u: int, n: int) -> int {
    trunc_div(
        sum_points(f, l, spec_step(l, u, n), spec_step(l, u, n), n) * spec_step(l, u, n),
        SCALE as int,
    )
}

/// The exact trapezoidal sum: the left sum plus the halved endpoint values.
pub open spec fn spec_trapezoidal(f: spec_fn(int) -> int, l: int, u: int, n: int) -> int {
    trunc_div(
        (trunc_div(f(u) + f(l), 2) + sum_points(f, l, spec_step(l, u, n), 0, n)) * spec_step(
            l,
            u,
            n,
        ),
        SCALE as int,
    )
}

/// The exact Simpson sum: weighted samples scaled by a third of the pitch.
pub open spec fn spec_simpsons(f: spec_fn(int) -> int, l: int, u: int, n: int) -> int {
    trunc_div(
        trunc_div(spec_step(l, u, n) * sum_simpson(f, l, spec_step(l, u, n), n, n + 1), SCALE as int),
        3,
    )
}

/// A weighted sample sum times the grid pitch stays inside `i128` whenever
/// the total weight is at most `4 * (n + 1)`.
proof fn lemma_product_in_range(s: int, st: int, n: int, m: int)
    requires
        1 <= n,
        0 <= m <= 4 * (n + 1),
        iabs(s) <= m * (QBOUND as int),
        iabs(st) * n <= 2 * (QBOUND as int),
        iabs(st) <= 2 * (QBOUND as int),
    ensures
        iabs(s * st) <= 16 * (QBOUND as int) * (QBOUND as int),
{
    let qb = QBOUND as int;
    lemma_abs_mul(s, st, m * qb, iabs(st));
    assert((m * qb) * iabs(st) == qb * (m * iabs(st))) by (nonlinear_arith);
    lemma_mul_inequality(m, 4 * (n + 1), iabs(st));
    assert((4 * (n + 1)) * iabs(st) == 4 * (n * iabs(st)) + 4 * iabs(st)) by (nonlinear_arith);
    assert(n * iabs(st) == iabs(st) * n) by (nonlinear_arith);
    assert(m * iabs(st) <= 16 * qb);
    lemma_mul_inequality(m * iabs(st), 16 * qb, qb);
    assert(qb * (m * iabs(st)) == (m * iabs(st)) * qb) by (nonlinear_arith);
    assert((16 * qb) * qb == 16 * qb * qb) by (nonlinear_arith);
}

/// Sums the callable over `k` grid points, exactly.
fn sample_sum<T: Callable>(cb: &T, lb: i128, st: i128, off: i128, k: u32) -> (s: i128)
    requires
        points_ok(cb, lb as int, st as int, off as int, k as int, QBOUND as int),
        iabs(lb as int) <= QBOUND as int,
        iabs(st as int) * (k as int) <= 2 * (QBOUND as int),
        iabs(off as int) <= 2 * (QBOUND as int),
    ensures
        s as int == sum_points(fun_of(cb), lb as int, st as int, off as int, k as int),
        iabs(s as int) <= (k as int) * (QBOUND as int),
{
    let mut sum: i128 = 0;
    let mut iter: u32 = 0;
    while iter < k
        invariant
            iter <= k,
            points_ok(cb, lb as int, st as int, off as int, k as int, QBOUND as int),
            iabs(lb as int) <= QBOUND as int,
            iabs(st as int) * (k as int) <= 2 * (QBOUND as int),
            iabs(off as int) <= 2 * (QBOUND as int),
            sum as int == sum_points(fun_of(cb), lb as int, st as int, off as int, iter as int),
            iabs(sum as int) <= (iter as int) * (QBOUND as int),
        decreases k - iter,
    {
        proof {
            lemma_abs_mul(iter as int, st as int, iter as int, iabs(st as int));
            lemma_mul_inequality(iter as int, k as int, iabs(st as int));
            assert(iabs(st as int) * (iter as int) == (iter as int) * iabs(st as int))
                by (nonlinear_arith);
            assert(iabs(st as int) * (k as int) == (k as int) * iabs(st as int))
                by (nonlinear_arith);
        }
        let x: i128 = lb + (iter as i128) * st + off;
        proof {
            assert(x as int == sample(lb as int, st as int, off as int, iter as int));
        }
        let y = cb.call(Fixed::from_bits(x));
        proof {
            assert(fun_of(cb)(x as int) == cb.value_at(x as int));
        }
        sum = sum + y.bits();
        iter = iter + 1;
    }
    sum
}

/// Performs a left Riemann summation with the given callable.
pub fn left_riemann<T: Callable>(lower: Fixed, upper: Fixed, iterations: u32, cb: &T) -> (r: Result<
    Fixed,
    SimError,
>)
    requires
        iterations != 0 ==> left_riemann_ok(cb, lower@, upper@, iterations as int),
    ensures
        iterations == 0 ==> (r matches Err(e) && e == SimError::ConfigurationError),
        iterations != 0 ==> (r matches Ok(v) && v@ == spec_left_riemann(
            fun_of(cb),
            lower@,
            upper@,
            iterations as int,
        )),
{
    if iterations == 0 {
        return Err(SimError::ConfigurationError);
    }
    let lb: i128 = lower.bits();
    let ub: i128 = upper.bits();
    let d: i128 = ub - lb;
    let st: i128 = div_trunc(d, iterations as i128);
    proof {
        lemma_trunc_div_bounds(d as int, iterations as int);
    }
    let s: i128 = sample_sum(cb, lb, st, 0, iterations);
    proof {
        lemma_product_in_range(s as int, st as int, iterations as int, iterations as int);
    }
    let p: i128 = s * st;
    let rb: i128 = div_trunc(p, SCALE);
    Ok(Fixed::from_bits(rb))
}


/// Performs a midpoint Riemann summation with the given callable.
pub fn mid_riemann<T: Callable>(lower: Fixed, upper: Fixed, iterations: u32, cb: &T) -> (r: Result<
    Fixed,
    SimError,
>)
    requires
        iterations != 0 ==> mid_riemann_ok(cb, lower@, upper@, iterations as int),
    ensures
        iterations == 0 ==> (r matches Err(e) && e == SimError::ConfigurationError),
        iterations != 0 ==> (r matches Ok(v) && v@ == spec_mid_riemann(
            fun_of(cb),
            lower@,
            upper@,
            iterations as int,
        )),
{
    if iterations == 0 {
        return Err(SimError::ConfigurationError);
    }
    let lb: i128 = lower.bits();
    let ub: i128 = upper.bits();
    let d: i128 = ub - lb;
    let st: i128 = div_trunc(d, iterations as i128);
    let half: i128 = div_trunc(st, 2);
    proof {
        lemma_trunc_div_bounds(d as int, iterations as int);
    }
    let s: i128 = sample_sum(cb, lb, st, half, iterations);
    proof {
        lemma_product_in_range(s as int, st as int, iterations as int, iterations as int);
    }
    let p: i128 = s * st;
    let rb: i128 = div_trunc(p, SCALE);
    Ok(Fixed::from_bits(rb))
}

/// Performs a right Riemann summation with the given callable.
pub fn right_riemann<T: Callable>(lower: Fixed, upper: Fixed, iterations: u32, cb: &T) -> (r:
    Result<Fixed, SimError>)
    requires
        iterations != 0 ==> right_riemann_ok(cb, lower@, upper@, iterations as int),
    ensures
        iterations == 0 ==> (r matches Err(e) && e == SimError::ConfigurationError),
        iterations != 0 ==> (r matches Ok(v) && v@ == spec_right_riemann(
            fun_of(cb),
            lower@,
            upper@,
            iterations as int,
        )),
{
    if iterations == 0 {
        return Err(SimError::ConfigurationError);
    }
    let lb: i128 = lower.bits();
    let ub: i128 = upper.bits();
    let d: i128 = ub - lb;
    let st: i128 = div_trunc(d, iterations as i128);
    proof {
        lemma_trunc_div_bounds(d as int, iterations as int);
    }
    let s: i128 = sample_sum(cb, lb, st, st, iterations);
    proof {
        lemma_product_in_range(s as int, st as int, iterations as int, iterations as int);
    }
    let p: i128 = s * st;
    let rb: i128 = div_trunc(p, SCALE);
    Ok(Fixed::from_bits(rb))
}

/// Performs a trapezoidal summation with the given callable.
pub fn trapezoidal<T: Callable>(lower: Fixed, upper: Fixed, iterations: u32, cb: &T) -> (r: Result<
    Fixed,
    SimError,
>)
    requires
        iterations != 0 ==> trapezoidal_ok(cb, lower@, upper@, iterations as int),
    ensures
        iterations == 0 ==> (r matches Err(e) && e == SimError::ConfigurationError),
        iterations != 0 ==> (r matches Ok(v) && v@ == spec_trapezoidal(
            fun_of(cb),
            lower@,
            upper@,
            iterations as int,
        )),
{
    if iterations == 0 {
        return Err(SimError::ConfigurationError);
    }
    let lb: i128 = lower.bits();
    let ub: i128 = upper.bits();
    let fu = cb.call(upper);
    let fl = cb.call(lower);
    let s0: i128 = div_trunc(fu.bits() + fl.bits(), 2);
    proof {
        lemma_trunc_div_le(fu@ + fl@, 2, QBOUND as int);
    }
    let d: i128 = ub - lb;
    let st: i128 = div_trunc(d, iterations as i128);
    proof {
        lemma_trunc_div_bounds(d as int, iterations as int);
    }
    let s: i128 = sample_sum(cb, lb, st, 0, iterations);
    let tot: i128 = s0 + s;
    proof {
        lemma_product_in_range(tot as int, st as int, iterations as int, (iterations as int) + 1);
    }
    let p: i128 = tot * st;
    let rb: i128 = div_trunc(p, SCALE);
    Ok(Fixed::from_bits(rb))
}

/// Performs a Simpson summation with the given callable.
pub fn simpsons<T: Callable>(lower: Fixed, upper: Fixed, iterations: u32, cb: &T) -> (r: Result<
    Fixed,
    SimError,
>)
    requires
        iterations != 0 ==> simpsons_ok(cb, lower@, upper@, iterations as int),
    ensures
        iterations == 0 ==> (r matches Err(e) && e == SimError::ConfigurationError),
        iterations != 0 ==> (r matches Ok(v) && v@ == spec_simpsons(
            fun_of(cb),
            lower@,
            upper@,
            iterations as int,
        )),
{
    if iterations == 0 {
        return Err(SimError::ConfigurationError);
    }
    let lb: i128 = lower.bits();
    let ub: i128 = upper.bits();
    let d: i128 = ub - lb;
    let st: i128 = div_trunc(d, iterations as i128);
    proof {
        lemma_trunc_div_bounds(d as int, iterations as int);
    }
    let nn: u64 = iterations as u64;
    let mut sum: i128 = 0;
    let mut iter: u64 = 0;
    while iter <= nn
        invariant
            iter <= nn + 1,
            nn == iterations as u64,
            1 <= iterations,
            simpsons_ok(cb, lb as int, ub as int, iterations as int),
            st as int == spec_step(lb as int, ub as int, iterations as int),
            iabs(st as int) * (iterations as int) <= iabs(ub - lb),
            iabs(lb as int) <= QBOUND as int,
            iabs(ub as int) <= QBOUND as int,
            sum as int == sum_simpson(
                fun_of(cb),
                lb as int,
                st as int,
                iterations as int,
                iter as int,
            ),
            iabs(sum as int) <= 4 * (iter as int) * (QBOUND as int),
        decreases nn + 1 - iter,
    {
        proof {
            lemma_abs_mul(iter as int, st as int, iter as int, iabs(st as int));
            lemma_mul_inequality(iter as int, iterations as int, iabs(st as int));
            assert(iabs(st as int) * (iter as int) == (iter as int) * iabs(st as int))
                by (nonlinear_arith);
            assert(iabs(st as int) * (iterations as int) == (iterations as int) * iabs(st as int))
                by (nonlinear_arith);
        }
        let x: i128 = lb + (iter as i128) * st;
        proof {
            assert(x as int == sample(lb as int, st as int, 0, iter as int));
        }
        let y = cb.call(Fixed::from_bits(x));
        let res: i128 = y.bits();
        let w: i128 = if iter == 0 || iter == nn {
            res
        } else if iter % 2 == 1 {
            4 * res
        } else {
            2 * res
        };
        proof {
            assert(fun_of(cb)(x as int) == cb.value_at(x as int));
            assert(w as int == simpson_weight(iter as int, iterations as int) * fun_of(cb)(
                sample(lb as int, st as int, 0, iter as int),
            ));
        }
        sum = sum + w;
        iter = iter + 1;
    }
    proof {
        lemma_product_in_range(
            sum as int,
            st as int,
            iterations as int,
            4 * ((iterations as int) + 1),
        );
        assert(iabs(ub - lb) <= 2 * (QBOUND as int));
    }
    let p: i128 = st * sum;
    let m1: i128 = div_trunc(p, SCALE);
    let rb: i128 = div_trunc(m1, 3);
    Ok(Fixed::from_bits(rb))
}

/// Magnitude cap on stored samples for which interpolation is supported:
/// `1 << 90`. It keeps the scaled products of a query inside `i128`.
pub const VALBOUND: i128 = 1237940039285380274899124224;

/// The raw bit counts of a sample sequence.
pub open spec fn bits_of(s: Seq<Fixed>) -> Seq<int> {
    Seq::new(s.len(), |i: int| s[i]@)
}

/// Whether a query at `x` touches only stored, representable samples:
/// `x` must be non-negative, the samples on both sides of `x` must exist
/// (just the one sample when `x` lands exactly on it), and the touched
/// samples must be within `VALBOUND`.
pub open spec fn interp_valid(s: Seq<int>, x: int) -> bool {
    &&& 0 <= x
    &&& if x % (SCALE as int) == 0 {
        &&& x / (SCALE as int) < s.len()
        &&& iabs(s[x / (SCALE as int)]) <= VALBOUND as int
    } else {
        &&& x / (SCALE as int) + 1 < s.len()
        &&& iabs(s[x / (SCALE as int)]) <= VALBOUND as int
        &&& iabs(s[x / (SCALE as int) + 1]) <= VALBOUND as int
    }
}

/// The exact piecewise-linear value of a sample sequence at `x`: the stored
/// sample when `x` lands on one, otherwise `y0 + frac * (y1 - y0)` with the
/// product truncated back to bits.
pub open spec fn interp_at(s: Seq<int>, x: int) -> int {
    let i = x / SCALE as int;
    let frac = x % SCALE as int;
    if frac == 0 {
        s[i]
    } else {
        s[i] + trunc_div(frac * (s[i + 1] - s[i]), SCALE as int)
    }
}

/// An interpolated value lies between the two samples around it, so any
/// magnitude cap on the stored samples caps the interpolated values too.
pub proof fn lemma_interp_bounded(s: Seq<int>, x: int, cap: int)
    requires
        interp_valid(s, x),
        0 <= cap,
        forall|j: int| 0 <= j < s.len() ==> iabs(#[trigger] s[j]) <= cap,
    ensures
        iabs(interp_at(s, x)) <= cap,
{
    let sc = SCALE as int;
    let i = x / sc;
    let frac = x % sc;
    lemma_div_pos_is_pos(x, sc);
    lemma_mod_division_less_than_divisor(x, sc);
    if frac != 0 {
        let dv = s[i + 1] - s[i];
        let t = trunc_div(frac * dv, sc);
        lemma_abs_mul(frac, dv, sc, iabs(dv));
        assert(sc * iabs(dv) == iabs(dv) * sc) by (nonlinear_arith);
        lemma_trunc_div_le(frac * dv, sc, iabs(dv));
        lemma_trunc_div_bounds(frac * dv, sc);
        if dv >= 0 {
            assert(frac * dv >= 0) by (nonlinear_arith)
                requires
                    frac >= 0,
                    dv >= 0,
            ;
            assert(0 <= t <= dv);
        } else {
            assert(frac * dv <= 0) by (nonlinear_arith)
                requires
                    frac >= 0,
                    dv <= 0,
            ;
            assert(dv <= t <= 0);
        }
    }
}

/// Provides interpolated lookups between stored samples.
///
/// Each index of the table is the x position and the value stored at that
/// index is the y value. A query landing exactly on an index returns the
/// stored sample; any other query returns the linear interpolation between
/// the two neighbouring samples.
#[derive(Debug, Clone)]
pub struct InterpolateLookup {
    pub lookup: Vec<Fixed>,
}

impl View for InterpolateLookup {
    type V = Seq<Fixed>;

    open spec fn view(&self) -> Seq<Fixed> {
        self.lookup@
    }
}

/// The table index a raw query selects: the whole-unit part of the
/// position, clamped below at zero as a saturating cast to an index is.
pub open spec fn floor_index(x: int) -> int {
    if x < 0 {
        0
    } else {
        x / SCALE as int
    }
}

impl InterpolateLookup {
    /// Attempts to retrieve the stored sample that the given position
    /// selects, if the table holds one.
    pub fn try_get_index(&self, given: Fixed) -> (r: Option<Fixed>)
        ensures
            floor_index(given@) < self@.len() ==> r == Some(self@[floor_index(given@)]),
            floor_index(given@) >= self@.len() ==> r is None,
    {
        let len: usize = self.lookup.len();
        let b: i128 = given.bits();
        if b < 0 {
            if len > 0 {
                Some(self.lookup[0])
            } else {
                None
            }
        } else {
            let q: i128 = div_trunc(b, SCALE);
            proof {
                lemma_div_pos_is_pos(b as int, SCALE as int);
            }
            if (q as u128) < (len as u128) {
                Some(self.lookup[q as usize])
            } else {
                None
            }
        }
    }

    /// Retrieves the stored sample that the given position selects; the
    /// position must select one.
    pub fn get_index(&self, given: Fixed) -> (r: Fixed)
        requires
            floor_index(given@) < self@.len(),
        ensures
            r == self@[floor_index(given@)],
    {
        let got = self.try_get_index(given);
        match got {
            Some(v) => v,
            None => {
                proof {
                    assert(false);
                }
                Fixed::from_bits(0)
            },
        }
    }

    /// Returns the current length of the lookup table.
    pub fn len(&self) -> (r: usize)
        ensures
            r == self@.len(),
    {
        self.lookup.len()
    }

    /// Adds a new sample to the end of the lookup table.
    pub fn push(&mut self, given: Fixed)
        ensures
            final(self)@ == old(self)@.push(given),
    {
        self.lookup.push(given);
    }

    /// Checked evaluation: interpolates like `call`, and reports a query
    /// outside the supported domain instead of requiring it.
    pub fn try_call(&self, given: Fixed) -> (r: Result<Fixed, SimError>)
        ensures
            interp_valid(bits_of(self@), given@) ==> (r matches Ok(v) && v@ == interp_at(
                bits_of(self@),
                given@,
            )),
            !interp_valid(bits_of(self@), given@) ==> (r matches Err(e) && e
                == SimError::IndexOutOfRange),
    {
        let len: usize = self.lookup.len();
        let b: i128 = given.bits();
        if b < 0 {
            return Err(SimError::IndexOutOfRange);
        }
        let q: i128 = div_trunc(b, SCALE);
        proof {
            lemma_div_pos_is_pos(b as int, SCALE as int);
            lemma_fundamental_div_mod(b as int, SCALE as int);
            lemma_mod_division_less_than_divisor(b as int, SCALE as int);
        }
        let rem: i128 = b - q * SCALE;
        if rem == 0 {
            if (q as u128) < (len as u128) {
                let y0 = self.lookup[q as usize];
                if -VALBOUND <= y0.bits() && y0.bits() <= VALBOUND {
                    proof {
                        assert(interp_valid(bits_of(self@), given@));
                    }
                    Ok(self.call(given))
                } else {
                    Err(SimError::IndexOutOfRange)
                }
            } else {
                Err(SimError::IndexOutOfRange)
            }
        } else {
            if (q as u128) + 1 < (len as u128) {
                let y0 = self.lookup[q as usize];
                let y1 = self.lookup[q as usize + 1];
                if -VALBOUND <= y0.bits() && y0.bits() <= VALBOUND && -VALBOUND <= y1.bits()
                    && y1.bits() <= VALBOUND {
                    proof {
                        assert(interp_valid(bits_of(self@), given@));
                    }
                    Ok(self.call(given))
                } else {
                    Err(SimError::IndexOutOfRange)
                }
            } else {
                Err(SimError::IndexOutOfRange)
            }
        }
    }
}

impl Callable for InterpolateLookup {
    open spec fn valid_at(&self, x: int) -> bool {
        interp_valid(bits_of(self@), x)
    }

    open spec fn value_at(&self, x: int) -> int {
        interp_at(bits_of(self@), x)
    }

    fn call(&self, given: Fixed) -> (r: Fixed) {
        let len: usize = self.lookup.len();
        let b: i128 = given.bits();
        let q: i128 = div_trunc(b, SCALE);
        proof {
            lemma_div_pos_is_pos(b as int, SCALE as int);
            lemma_fundamental_div_mod(b as int, SCALE as int);
            lemma_mod_division_less_than_divisor(b as int, SCALE as int);
        }
        let rem: i128 = b - q * SCALE;
        let idx: usize = q as usize;
        if rem == 0 {
            self.lookup[idx]
        } else {
            let y0 = self.lookup[idx];
            let y1 = self.lookup[idx + 1];
            let dv: i128 = y1.bits() - y0.bits();
            proof {
                lemma_abs_mul(rem as int, dv as int, SCALE as int, iabs(dv as int));
            }
            let p: i128 = rem * dv;
            let t: i128 = div_trunc(p, SCALE);
            Fixed::from_bits(y0.bits() + t)
        }
    }
}


impl From<Vec<Fixed>> for InterpolateLookup {
    fn from(given: Vec<Fixed>) -> (r: Self) {
        InterpolateLookup { lookup: given }
    }
}

impl vstd::std_specs::convert::FromSpecImpl<Vec<Fixed>> for InterpolateLookup {
    open spec fn obeys_from_spec() -> bool {
        true
    }

    open spec fn from_spec(given: Vec<Fixed>) -> InterpolateLookup {
        InterpolateLookup { lookup: given }
    }
}

/// Magnitude cap on the coefficients of a `Quadratic` and on the positions
/// it accepts: `1 << 46`, that is 16384 whole units. It keeps every product
/// of an evaluation inside `i128`.
pub const COEFFBOUND: i128 = 70368744177664;

/// The exact value of the curve `a2 x^2 + a1 x + a0` at `x`, each product
/// truncated back to bits.
pub open spec fn quad_at(a2: int, a1: int, a0: int, x: int) -> int {
    trunc_div(a2 * trunc_div(x * x, SCALE as int), SCALE as int) + trunc_div(
        a1 * x,
        SCALE as int,
    ) + a0
}

/// Whether the curve evaluates exactly at `x`.
pub open spec fn quad_valid(a2: int, a1: int, a0: int, x: int) -> bool {
    &&& iabs(x) <= COEFFBOUND as int
    &&& iabs(a2) <= COEFFBOUND as int
    &&& iabs(a1) <= COEFFBOUND as int
    &&& iabs(a0) <= COEFFBOUND as int
}

/// A closed-form quadratic curve `a2 x^2 + a1 x + a0`: the function-valued
/// variant of `Callable`.
#[derive(Debug, Clone, Copy)]
pub struct Quadratic {
    pub a2: Fixed,
    pub a1: Fixed,
    pub a0: Fixed,
}

impl Callable for Quadratic {
    open spec fn valid_at(&self, x: int) -> bool {
        quad_valid(self.a2@, self.a1@, self.a0@, x)
    }

    open spec fn value_at(&self, x: int) -> int {
        quad_at(self.a2@, self.a1@, self.a0@, x)
    }

    fn call(&self, given: Fixed) -> (r: Fixed) {
        let x: i128 = given.bits();
        proof {
            lemma_abs_mul(x as int, x as int, COEFFBOUND as int, COEFFBOUND as int);
        }
        let xx: i128 = div_trunc(x * x, SCALE);
        proof {
            assert((COEFFBOUND as int) * (COEFFBOUND as int) == 1152921504606846976 * (
            SCALE as int)) by (nonlinear_arith);
            lemma_trunc_div_le((x * x) as int, SCALE as int, 1152921504606846976);
            lemma_abs_mul(self.a2@, xx as int, COEFFBOUND as int, 1152921504606846976);
            lemma_abs_mul(self.a1@, x as int, COEFFBOUND as int, COEFFBOUND as int);
        }
        let t2: i128 = div_trunc(self.a2.bits() * xx, SCALE);
        let t1: i128 = div_trunc(self.a1.bits() * x, SCALE);
        Fixed::from_bits(t2 + t1 + self.a0.bits())
    }
}

} // verus!
