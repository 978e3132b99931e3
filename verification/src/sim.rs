//! The double-integration driver.
//!
//! One pass integrates a sample table over each unit time interval with the
//! selected quadrature rule and accumulates the running totals into a new
//! table. The driver runs two passes: acceleration to velocity, then
//! velocity to position. A sequential and a worker-pool execution are
//! offered; both compute exactly the same values.

use crate::fixed::{
    iabs, lemma_abs_mul, lemma_trunc_div_bounds, lemma_trunc_div_le, trunc_div, Fixed, QBOUND,
    SCALE,
};
use crate::summation::{
    bits_of, fun_of, interp_at, interp_valid, left_riemann, left_riemann_ok, lemma_interp_bounded,
    mid_riemann, mid_riemann_ok, right_riemann, right_riemann_ok, sample, simpsons, simpsons_ok,
    spec_left_riemann, spec_mid_riemann, spec_right_riemann, spec_simpsons, spec_step,
    spec_trapezoidal, sum_points, sum_simpson, trapezoidal, trapezoidal_ok, Callable,
    InterpolateLookup, SimError, VALBOUND,
};
use vstd::arithmetic::div_mod::{
    lemma_div_is_ordered, lemma_div_multiples_vanish, lemma_div_pos_is_pos,
    lemma_fundamental_div_mod, lemma_mod_division_less_than_divisor,
};
use vstd::arithmetic::mul::{lemma_mul_inequality, lemma_mul_nonnegative};
use vstd::prelude::*;

use rayon::iter::{IntoParallelIterator, ParallelIterator};

verus! {

/// The available summation algorithms that the simulation is capable of
/// running.
#[derive(Debug, Clone, Copy, PartialEq, Eq, Structural)]
pub enum AppAlgo {
    LeftRiemann,
    MidRiemann,
    RightRiemann,
    Trapezoidal,
    Simpsons,
}

/// Common options between simulations: the selected algorithm, the number
/// of benchmark repetitions, and the slice count of each quadrature call.
#[derive(Debug, Clone, Copy)]
pub struct SimOpts {
    pub algo: AppAlgo,
    pub iterations: u32,
    pub step: u32,
}

/// Magnitude cap on the acceleration samples the driver accepts:
/// `1 << 40`, that is 256 whole units.
pub const ACCEL_LIMIT: i128 = 1099511627776;

/// Largest sample count the driver accepts.
pub const LEN_LIMIT: usize = 65536;

/// Magnitude cap on every velocity sample the driver derives:
/// `LEN_LIMIT * 8 * ACCEL_LIMIT`, which is `1 << 59`.
pub const VEL_LIMIT: i128 = 576460752303423488;

/// A sample sequence as a mathematical function of the query position.
pub open spec fn table_fun(s: Seq<int>) -> spec_fn(int) -> int {
    |x: int| interp_at(s, x)
}

/// The integral approximation the selected rule yields over the unit time
/// interval `[s - 1, s]`.
pub open spec fn spec_delta(f: spec_fn(int) -> int, algo: AppAlgo, n: int, s: int) -> int {
    let l = (s - 1) * (SCALE as int);
    let u = s * (SCALE as int);
    match algo {
        AppAlgo::LeftRiemann => spec_left_riemann(f, l, u, n),
        AppAlgo::MidRiemann => spec_mid_riemann(f, l, u, n),
        AppAlgo::RightRiemann => spec_right_riemann(f, l, u, n),
        AppAlgo::Trapezoidal => spec_trapezoidal(f, l, u, n),
        AppAlgo::Simpsons => spec_simpsons(f, l, u, n),
    }
}

/// Whether the selected rule evaluates exactly over `[s - 1, s]`.
pub open spec fn delta_ok<T: Callable>(cb: &T, algo: AppAlgo, n: int, s: int) -> bool {
    let l = (s - 1) * (SCALE as int);
    let u = s * (SCALE as int);
    match algo {
        AppAlgo::LeftRiemann => left_riemann_ok(cb, l, u, n),
        AppAlgo::MidRiemann => mid_riemann_ok(cb, l, u, n),
        AppAlgo::RightRiemann => right_riemann_ok(cb, l, u, n),
        AppAlgo::Trapezoidal => trapezoidal_ok(cb, l, u, n),
        AppAlgo::Simpsons => simpsons_ok(cb, l, u, n),
    }
}

/// Running total of the deltas of the first `k` unit intervals.
pub open spec fn spec_prefix(f: spec_fn(int) -> int, algo: AppAlgo, n: int, k: int) -> int
    decreases k,
{
    if k <= 0 {
        0
    } else {
        spec_prefix(f, algo, n, k - 1) + spec_delta(f, algo, n, k)
    }
}

/// The derived table of one integration pass: entry `k` is the running
/// total after `k` unit intervals, starting at zero.
pub open spec fn spec_pass(a: Seq<int>, algo: AppAlgo, n: int) -> Seq<int> {
    Seq::new(a.len(), |k: int| spec_prefix(table_fun(a), algo, n, k))
}

/// The deltas of all `m` unit intervals, in interval order.
pub open spec fn spec_deltas(f: spec_fn(int) -> int, algo: AppAlgo, n: int, m: nat) -> Seq<int> {
    Seq::new(m, |i: int| spec_delta(f, algo, n, i + 1))
}

/// Sum of the first `k` entries of a sequence.
pub open spec fn sum_first(d: Seq<int>, k: int) -> int
    decreases k,
{
    if k <= 0 {
        0
    } else {
        sum_first(d, k - 1) + d[k - 1]
    }
}

/// The derived table of one pass when the deltas are collected first and
/// accumulated afterwards, as the worker-pool execution does.
pub open spec fn spec_pass_par(a: Seq<int>, algo: AppAlgo, n: int) -> Seq<int> {
    Seq::new(
        a.len(),
        |k: int| sum_first(spec_deltas(table_fun(a), algo, n, (a.len() - 1) as nat), k),
    )
}

/// The final position value of the worker-pool execution: the plain sum of
/// the position deltas over the velocity table.
pub open spec fn spec_final_par(a: Seq<int>, algo: AppAlgo, n: int) -> int {
    sum_first(
        spec_deltas(table_fun(spec_pass_par(a, algo, n)), algo, n, (a.len() - 1) as nat),
        a.len() - 1,
    )
}

/// Inputs on which the driver evaluates exactly: at least one sample, not
/// more than `LEN_LIMIT`, every sample within `ACCEL_LIMIT`.
pub open spec fn sim_input_ok(a: Seq<int>) -> bool {
    &&& 1 <= a.len() <= LEN_LIMIT as int
    &&& forall|j: int| 0 <= j < a.len() ==> iabs(#[trigger] a[j]) <= ACCEL_LIMIT as int
}

/// Every query between `lo` and `hi` is supported by a table whose samples
/// all stay within `cap`, and yields a value within `cap`.
proof fn lemma_interp_range(s: Seq<int>, lo: int, hi: int, cap: int)
    requires
        1 <= s.len(),
        0 <= lo,
        hi <= (s.len() - 1) * (SCALE as int),
        0 <= cap <= VALBOUND as int,
        forall|j: int| 0 <= j < s.len() ==> iabs(#[trigger] s[j]) <= cap,
    ensures
        forall|x: int|
            lo <= x <= hi ==> interp_valid(s, x) && iabs(#[trigger] interp_at(s, x)) <= cap,
{
    let sc = SCALE as int;
    let top = (s.len() - 1) * sc;
    assert forall|x: int| lo <= x <= hi implies interp_valid(s, x) && iabs(
        #[trigger] interp_at(s, x),
    ) <= cap by {
        let q = x / sc;
        lemma_div_pos_is_pos(x, sc);
        lemma_mod_division_less_than_divisor(x, sc);
        lemma_fundamental_div_mod(x, sc);
        lemma_div_is_ordered(x, top, sc);
        lemma_div_multiples_vanish(s.len() - 1, sc);
        assert(top / sc == s.len() - 1);
        if x % sc != 0 {
            assert(q < s.len() - 1);
        }
        assert(interp_valid(s, x));
        lemma_interp_bounded(s, x, cap);
    }
}

/// All five rules evaluate exactly over a unit interval on which the
/// callable is supported and bounded by `QBOUND`.
proof fn lemma_rules_ok_on_range<T: Callable>(cb: &T, l: int, u: int, n: int)
    requires
        1 <= n,
        0 <= l,
        u == l + SCALE as int,
        iabs(u) <= QBOUND as int,
        forall|x: int|
            l <= x <= u ==> #[trigger] cb.valid_at(x) && iabs(cb.value_at(x)) <= QBOUND as int,
    ensures
        left_riemann_ok(cb, l, u, n),
        mid_riemann_ok(cb, l, u, n),
        right_riemann_ok(cb, l, u, n),
        trapezoidal_ok(cb, l, u, n),
        simpsons_ok(cb, l, u, n),
{
    let sc = SCALE as int;
    let st = spec_step(l, u, n);
    lemma_trunc_div_bounds(sc, n);
    assert(st >= 0 && iabs(st) * n <= sc && iabs(st) <= sc);
    assert(iabs(st) == st);
    assert(n * st == st * n) by (nonlinear_arith);
    assert(n * st <= sc);
    let half = trunc_div(st, 2);
    lemma_trunc_div_bounds(st, 2);
    assert(iabs(half) == half && half <= st);
    assert(cb.valid_at(l) && iabs(cb.value_at(l)) <= QBOUND as int);
    assert(cb.valid_at(u) && iabs(cb.value_at(u)) <= QBOUND as int);
    assert forall|i: int| 0 <= i < n + 1 implies cb.valid_at(#[trigger] sample(l, st, 0, i))
        && iabs(cb.value_at(sample(l, st, 0, i))) <= QBOUND as int by {
        lemma_mul_nonnegative(i, st);
        lemma_mul_inequality(i, n, st);
        assert(l <= sample(l, st, 0, i) <= u);
    }
    assert forall|i: int| 0 <= i < n implies cb.valid_at(#[trigger] sample(l, st, half, i))
        && iabs(cb.value_at(sample(l, st, half, i))) <= QBOUND as int by {
        lemma_mul_nonnegative(i, st);
        lemma_mul_inequality(i, n - 1, st);
        assert((n - 1) * st + st == n * st) by (nonlinear_arith);
        assert(l <= sample(l, st, half, i) <= u);
    }
    assert forall|i: int| 0 <= i < n implies cb.valid_at(#[trigger] sample(l, st, st, i)) && iabs(
        cb.value_at(sample(l, st, st, i)),
    ) <= QBOUND as int by {
        lemma_mul_nonnegative(i, st);
        lemma_mul_inequality(i, n - 1, st);
        assert((n - 1) * st + st == n * st) by (nonlinear_arith);
        assert(l <= sample(l, st, st, i) <= u);
    }
}

/// Bound on a plain sample sum from a bound on the sampled values.
proof fn lemma_sum_points_bound(
    f: spec_fn(int) -> int,
    l: int,
    st: int,
    off: int,
    k: int,
    cap: int,
)
    requires
        0 <= k,
        0 <= cap,
        forall|i: int| 0 <= i < k ==> iabs(f(#[trigger] sample(l, st, off, i))) <= cap,
    ensures
        iabs(sum_points(f, l, st, off, k)) <= k * cap,
    decreases k,
{
    if k > 0 {
        lemma_sum_points_bound(f, l, st, off, k - 1, cap);
        assert((k - 1) * cap + cap == k * cap) by (nonlinear_arith);
    }
}

/// Bound on a Simpson sample sum from a bound on the sampled values.
proof fn lemma_sum_simpson_bound(
    f: spec_fn(int) -> int,
    l: int,
    st: int,
    n: int,
    k: int,
    cap: int,
)
    requires
        0 <= k,
        0 <= cap,
        forall|i: int| 0 <= i < k ==> iabs(f(#[trigger] sample(l, st, 0, i))) <= cap,
    ensures
        iabs(sum_simpson(f, l, st, n, k)) <= 4 * k * cap,
    decreases k,
{
    if k > 0 {
        lemma_sum_simpson_bound(f, l, st, n, k - 1, cap);
        let w = crate::summation::simpson_weight(k - 1, n);
        assert(0 <= w <= 4);
        lemma_abs_mul(w, f(sample(l, st, 0, k - 1)), 4, cap);
        assert(4 * (k - 1) * cap + 4 * cap == 4 * k * cap) by (nonlinear_arith);
    }
}

/// A unit-interval delta is at most eight times the cap on the sampled
/// values, whatever the rule and the slice count.
proof fn lemma_delta_bound(f: spec_fn(int) -> int, algo: AppAlgo, n: int, s: int, cap: int)
    requires
        1 <= n,
        1 <= s,
        0 <= cap,
        forall|x: int|
            (s - 1) * (SCALE as int) <= x <= s * (SCALE as int) ==> iabs(#[trigger] f(x)) <= cap,
    ensures
        iabs(spec_delta(f, algo, n, s)) <= 8 * cap,
{
    let sc = SCALE as int;
    let l = (s - 1) * sc;
    let u = s * sc;
    assert(s * sc - (s - 1) * sc == sc) by (nonlinear_arith);
    assert((s - 1) * sc >= 0) by (nonlinear_arith)
        requires
            s >= 1,
            sc >= 0,
    ;
    let st = spec_step(l, u, n);
    lemma_trunc_div_bounds(sc, n);
    assert(st >= 0 && iabs(st) * n <= sc && iabs(st) <= sc);
    assert(iabs(st) == st);
    assert(n * st == st * n) by (nonlinear_arith);
    assert(n * st <= sc);
    let half = trunc_div(st, 2);
    lemma_trunc_div_bounds(st, 2);
    assert(iabs(half) == half && half <= st);
    match algo {
        AppAlgo::LeftRiemann => {
            assert forall|i: int| 0 <= i < n implies iabs(f(#[trigger] sample(l, st, 0, i)))
                <= cap by {
                lemma_mul_nonnegative(i, st);
                lemma_mul_inequality(i, n, st);
                assert(l <= sample(l, st, 0, i) <= u);
            }
            lemma_sum_points_bound(f, l, st, 0, n, cap);
            let sm = sum_points(f, l, st, 0, n);
            lemma_abs_mul(sm, st, n * cap, st);
            assert((n * cap) * st == cap * (n * st)) by (nonlinear_arith);
            assert(cap * (n * st) <= cap * sc && cap * sc == sc * cap) by (nonlinear_arith)
                requires
                    n * st <= sc,
                    cap >= 0,
            ;
            lemma_trunc_div_le(sm * st, sc, cap);
        },
        AppAlgo::MidRiemann => {
            assert forall|i: int| 0 <= i < n implies iabs(f(#[trigger] sample(l, st, half, i)))
                <= cap by {
                lemma_mul_nonnegative(i, st);
                lemma_mul_inequality(i, n - 1, st);
                assert((n - 1) * st + st == n * st) by (nonlinear_arith);
                assert(l <= sample(l, st, half, i) <= u);
            }
            lemma_sum_points_bound(f, l, st, half, n, cap);
            let sm = sum_points(f, l, st, half, n);
            lemma_abs_mul(sm, st, n * cap, st);
            assert((n * cap) * st == cap * (n * st)) by (nonlinear_arith);
            assert(cap * (n * st) <= cap * sc && cap * sc == sc * cap) by (nonlinear_arith)
                requires
                    n * st <= sc,
                    cap >= 0,
            ;
            lemma_trunc_div_le(sm * st, sc, cap);
        },
        AppAlgo::RightRiemann => {
            assert forall|i: int| 0 <= i < n implies iabs(f(#[trigger] sample(l, st, st, i)))
                <= cap by {
                lemma_mul_nonnegative(i, st);
                lemma_mul_inequality(i, n - 1, st);
                assert((n - 1) * st + st == n * st) by (nonlinear_arith);
                assert(l <= sample(l, st, st, i) <= u);
            }
            lemma_sum_points_bound(f, l, st, st, n, cap);
            let sm = sum_points(f, l, st, st, n);
            lemma_abs_mul(sm, st, n * cap, st);
            assert((n * cap) * st == cap * (n * st)) by (nonlinear_arith);
            assert(cap * (n * st) <= cap * sc && cap * sc == sc * cap) by (nonlinear_arith)
                requires
                    n * st <= sc,
                    cap >= 0,
            ;
            lemma_trunc_div_le(sm * st, sc, cap);
        },
        AppAlgo::Trapezoidal => {
            assert forall|i: int| 0 <= i < n implies iabs(f(#[trigger] sample(l, st, 0, i)))
                <= cap by {
                lemma_mul_nonnegative(i, st);
                lemma_mul_inequality(i, n, st);
                assert(l <= sample(l, st, 0, i) <= u);
            }
            lemma_sum_points_bound(f, l, st, 0, n, cap);
            let sm = sum_points(f, l, st, 0, n);
            let ends = trunc_div(f(u) + f(l), 2);
            lemma_trunc_div_le(f(u) + f(l), 2, cap);
            let tot = ends + sm;
            assert(iabs(tot) <= (n + 1) * cap) by (nonlinear_arith)
                requires
                    iabs(ends) <= cap,
                    iabs(sm) <= n * cap,
                    iabs(tot) <= iabs(ends) + iabs(sm),
            ;
            lemma_abs_mul(tot, st, (n + 1) * cap, st);
            assert(((n + 1) * cap) * st == cap * (n * st) + cap * st) by (nonlinear_arith);
            assert(cap * (n * st) + cap * st <= (2 * cap) * sc) by (nonlinear_arith)
                requires
                    n * st <= sc,
                    0 <= st <= sc,
                    cap >= 0,
            ;
            lemma_trunc_div_le(tot * st, sc, 2 * cap);
        },
        AppAlgo::Simpsons => {
            assert forall|i: int| 0 <= i < n + 1 implies iabs(f(#[trigger] sample(l, st, 0, i)))
                <= cap by {
                lemma_mul_nonnegative(i, st);
                lemma_mul_inequality(i, n, st);
                assert(l <= sample(l, st, 0, i) <= u);
            }
            lemma_sum_simpson_bound(f, l, st, n, n + 1, cap);
            let sm = sum_simpson(f, l, st, n, n + 1);
            lemma_abs_mul(st, sm, st, 4 * (n + 1) * cap);
            assert(st * (4 * (n + 1) * cap) == 4 * (cap * (n * st)) + 4 * (cap * st))
                by (nonlinear_arith);
            assert(4 * (cap * (n * st)) + 4 * (cap * st) <= (8 * cap) * sc) by (nonlinear_arith)
                requires
                    n * st <= sc,
                    0 <= st <= sc,
                    cap >= 0,
            ;
            lemma_trunc_div_le(st * sm, sc, 8 * cap);
            lemma_trunc_div_bounds(trunc_div(st * sm, sc), 3);
        },
    }
}

/// Accumulating collected deltas afterwards yields the same running totals
/// as accumulating them as they are produced.
pub proof fn lemma_modes_agree(f: spec_fn(int) -> int, algo: AppAlgo, n: int, m: nat, k: int)
    requires
        0 <= k <= m,
    ensures
        sum_first(spec_deltas(f, algo, n, m), k) == spec_prefix(f, algo, n, k),
    decreases k,
{
    if k > 0 {
        lemma_modes_agree(f, algo, n, m, k - 1);
    }
}


/// The selected rule applied to the unit time interval `[sec - 1, sec]`.
pub fn interval_delta<T: Callable>(cb: &T, algo: AppAlgo, iterations: u32, sec: usize) -> (r:
    Fixed)
    requires
        1 <= iterations,
        1 <= sec,
        delta_ok(cb, algo, iterations as int, sec as int),
    ensures
        r@ == spec_delta(fun_of(cb), algo, iterations as int, sec as int),
{
    let lo = Fixed::from_bits(((sec - 1) as i128) * SCALE);
    let hi = Fixed::from_bits((sec as i128) * SCALE);
    let res = match algo {
        AppAlgo::LeftRiemann => left_riemann(lo, hi, iterations, cb),
        AppAlgo::MidRiemann => mid_riemann(lo, hi, iterations, cb),
        AppAlgo::RightRiemann => right_riemann(lo, hi, iterations, cb),
        AppAlgo::Trapezoidal => trapezoidal(lo, hi, iterations, cb),
        AppAlgo::Simpsons => simpsons(lo, hi, iterations, cb),
    };
    match res {
        Ok(v) => v,
        Err(_) => {
            proof {
                assert(false);
            }
            Fixed::from_bits(0)
        },
    }
}

/// One integration pass: the running totals of the per-interval deltas of
/// `table`, starting at zero, one entry per sample of `table`. The ghost
/// `cap` bounds the samples of `table`; every derived entry stays within
/// `LEN_LIMIT * 8 * cap`.
fn run_pass(algo: AppAlgo, step: u32, table: &InterpolateLookup, cap: Ghost<int>) -> (out:
    InterpolateLookup)
    requires
        1 <= step,
        1 <= table@.len() <= LEN_LIMIT as int,
        0 <= cap@ <= QBOUND as int,
        cap@ <= VALBOUND as int,
        forall|j: int| 0 <= j < table@.len() ==> iabs(#[trigger] bits_of(table@)[j]) <= cap@,
    ensures
        out@.len() == table@.len(),
        bits_of(out@) == spec_pass(bits_of(table@), algo, step as int),
        forall|k: int|
            0 <= k < out@.len() ==> iabs(#[trigger] bits_of(out@)[k]) <= (LEN_LIMIT as int) * (8
                * cap@),
{
    let ghost tb = bits_of(table@);
    let ghost f = table_fun(tb);
    let length: usize = table.len();
    let mut start: Vec<Fixed> = Vec::new();
    start.push(Fixed::from_bits(0));
    let mut out = InterpolateLookup::from(start);
    let mut last: i128 = 0;
    let mut sec: usize = 1;
    while sec < length
        invariant
            1 <= sec <= length,
            length == table@.len(),
            1 <= step,
            1 <= length <= LEN_LIMIT as int,
            0 <= cap@ <= QBOUND as int,
            cap@ <= VALBOUND as int,
            forall|j: int| 0 <= j < table@.len() ==> iabs(#[trigger] bits_of(table@)[j]) <= cap@,
            tb == bits_of(table@),
            f == table_fun(tb),
            out@.len() == sec,
            forall|k: int|
                0 <= k < sec ==> bits_of(out@)[k] == spec_prefix(f, algo, step as int, k),
            forall|k: int|
                0 <= k < sec ==> iabs(#[trigger] bits_of(out@)[k]) <= (LEN_LIMIT as int) * (8
                    * cap@),
            last as int == spec_prefix(f, algo, step as int, sec as int - 1),
            iabs(last as int) <= (sec as int - 1) * (8 * cap@),
        decreases length - sec,
    {
        let ghost sc = SCALE as int;
        let ghost l = (sec as int - 1) * sc;
        let ghost u = (sec as int) * sc;
        proof {
            lemma_interp_range(tb, 0, (length as int - 1) * sc, cap@);
            assert((sec as int) * sc - (sec as int - 1) * sc == sc) by (nonlinear_arith);
            assert((sec as int - 1) * sc >= 0) by (nonlinear_arith)
                requires
                    sec >= 1,
                    sc >= 0,
            ;
            lemma_mul_inequality(sec as int, length as int - 1, sc);
            lemma_mul_inequality(length as int - 1, LEN_LIMIT as int, sc);
            assert forall|x: int| l <= x <= u implies #[trigger] table.valid_at(x) && iabs(
                table.value_at(x),
            ) <= QBOUND as int by {
                assert(interp_valid(tb, x) && iabs(interp_at(tb, x)) <= cap@);
            }
            lemma_rules_ok_on_range(table, l, u, step as int);
            assert(delta_ok(table, algo, step as int, sec as int));
        }
        let d = interval_delta(table, algo, step, sec);
        proof {
            assert(fun_of(table) =~= f);
            assert forall|x: int| l <= x <= u implies iabs(#[trigger] f(x)) <= cap@ by {
                assert(iabs(interp_at(tb, x)) <= cap@);
            }
            lemma_delta_bound(f, algo, step as int, sec as int, cap@);
            assert((sec as int - 1) * (8 * cap@) + 8 * cap@ == (sec as int) * (8 * cap@))
                by (nonlinear_arith);
            lemma_mul_inequality(sec as int, LEN_LIMIT as int, 8 * cap@);
        }
        let nl: i128 = last + d.bits();
        let ghost prev = out@;
        out.push(Fixed::from_bits(nl));
        proof {
            assert forall|k: int| 0 <= k < sec + 1 implies iabs(#[trigger] bits_of(out@)[k]) <= (
            LEN_LIMIT as int) * (8 * cap@) by {
                if k < sec {
                    assert(bits_of(out@)[k] == bits_of(prev)[k]);
                } else {
                    assert(bits_of(out@)[k] == nl as int);
                }
            }
        }
        last = nl;
        sec = sec + 1;
    }
    proof {
        assert(bits_of(out@) =~= spec_pass(tb, algo, step as int));
    }
    out
}

/// What one full driver iteration reports: the two derived tables and
/// their final entries.
#[derive(Debug, Clone)]
pub struct SimOutcome {
    /// The derived velocity table, one entry per elapsed time unit.
    pub velocity: InterpolateLookup,
    /// The derived position table, same shape as the velocity table.
    pub position: InterpolateLookup,
    /// The last entry of the velocity table.
    pub vel_final: Fixed,
    /// The last entry of the position table.
    pub pos_final: Fixed,
}

/// Runs one sequential driver iteration: integrates the acceleration table
/// into a velocity table, then the velocity table into a position table.
pub fn run_sim(algo: AppAlgo, step: u32, accel: &InterpolateLookup) -> (r: Result<
    SimOutcome,
    SimError,
>)
    requires
        sim_input_ok(bits_of(accel@)),
    ensures
        step == 0 ==> (r matches Err(e) && e == SimError::ConfigurationError),
        step != 0 ==> (r matches Ok(o) && {
            let a = bits_of(accel@);
            let v = spec_pass(a, algo, step as int);
            let p = spec_pass(v, algo, step as int);
            &&& o.velocity@.len() == accel@.len()
            &&& bits_of(o.velocity@) == v
            &&& bits_of(o.position@) == p
            &&& o.vel_final@ == v[a.len() - 1]
            &&& o.pos_final@ == p[a.len() - 1]
        }),
{
    if step == 0 {
        return Err(SimError::ConfigurationError);
    }
    let velocity = run_pass(algo, step, accel, Ghost(ACCEL_LIMIT as int));
    let ghost vel_cap = (LEN_LIMIT as int) * (8 * (ACCEL_LIMIT as int));
    let position = run_pass(algo, step, &velocity, Ghost(vel_cap));
    let length: usize = velocity.len();
    let vf = velocity.lookup[length - 1];
    let pf = position.lookup[length - 1];
    Ok(SimOutcome { velocity, position, vel_final: vf, pos_final: pf })
}

/// Computes the per-interval deltas of all unit intervals concurrently.
///
/// Relies on rayon: a `Range<usize>` is an indexed parallel iterator, `map`
/// keeps it indexed, and collecting an indexed parallel iterator into a
/// `Vec` stores each item at its index, so the result holds exactly the
/// items `interval_delta(cb, algo, iterations, sec)` for `sec` in
/// `1 .. length`, in interval order; each item itself is computed by the
/// verified `interval_delta`.
#[verifier::external_body]
fn par_deltas<T: Callable + Sync>(cb: &T, length: usize, algo: AppAlgo, iterations: u32) -> (r:
    Vec<Fixed>)
    requires
        1 <= iterations,
        1 <= length,
        forall|s2: int| 1 <= s2 < length ==> delta_ok(cb, algo, iterations as int, s2),
    ensures
        r@.len() == length - 1,
        forall|j: int|
            0 <= j < length - 1 ==> (#[trigger] r@[j])@ == spec_delta(
                fun_of(cb),
                algo,
                iterations as int,
                j + 1,
            ),
{
    (1..length).into_par_iter().map(|sec| interval_delta(cb, algo, iterations, sec)).collect()
}

/// Runs one worker-pool driver iteration: the per-interval deltas of each
/// pass are computed concurrently, collected in interval order, and then
/// accumulated; the position pass reports only its final value, as only
/// that value is surfaced.
pub fn run_sim_rayon(algo: AppAlgo, step: u32, accel: &InterpolateLookup) -> (r: Result<
    (InterpolateLookup, Fixed, Fixed),
    SimError,
>)
    requires
        sim_input_ok(bits_of(accel@)),
    ensures
        step == 0 ==> (r matches Err(e) && e == SimError::ConfigurationError),
        step != 0 ==> (r matches Ok(t) && {
            let a = bits_of(accel@);
            &&& t.0@.len() == a.len()
            &&& bits_of(t.0@) == spec_pass_par(a, algo, step as int)
            &&& t.1@ == spec_pass_par(a, algo, step as int)[a.len() - 1]
            &&& t.2@ == spec_final_par(a, algo, step as int)
        }),
{
    if step == 0 {
        return Err(SimError::ConfigurationError);
    }
    let ghost a = bits_of(accel@);
    let ghost fa = table_fun(a);
    let ghost sc = SCALE as int;
    let length: usize = accel.len();
    let ghost ds = spec_deltas(fa, algo, step as int, (length - 1) as nat);
    proof {
        lemma_interp_range(a, 0, (length as int - 1) * sc, ACCEL_LIMIT as int);
        assert forall|s2: int| 1 <= s2 < length implies delta_ok(
            accel,
            algo,
            step as int,
            s2,
        ) by {
            let l = (s2 - 1) * sc;
            let u = s2 * sc;
            assert(s2 * sc - (s2 - 1) * sc == sc) by (nonlinear_arith);
            assert((s2 - 1) * sc >= 0) by (nonlinear_arith)
                requires
                    s2 >= 1,
                    sc >= 0,
            ;
            lemma_mul_inequality(s2, length as int - 1, sc);
            lemma_mul_inequality(length as int - 1, LEN_LIMIT as int, sc);
            assert forall|x: int| l <= x <= u implies #[trigger] accel.valid_at(x) && iabs(
                accel.value_at(x),
            ) <= QBOUND as int by {
                assert(interp_valid(a, x) && iabs(interp_at(a, x)) <= ACCEL_LIMIT as int);
            }
            lemma_rules_ok_on_range(accel, l, u, step as int);
        }
    }
    let deltas = par_deltas(accel, length, algo, step);
    proof {
        assert(fun_of(accel) =~= fa);
        assert forall|j: int| 0 <= j < length - 1 implies iabs(#[trigger] ds[j]) <= 8 * (
        ACCEL_LIMIT as int) by {
            lemma_mul_inequality(j + 1, length as int - 1, sc);
            lemma_mul_inequality(length as int - 1, LEN_LIMIT as int, sc);
            assert forall|x: int| (j + 1 - 1) * sc <= x <= (j + 1) * sc implies iabs(
                #[trigger] fa(x),
            ) <= ACCEL_LIMIT as int by {
                assert((j + 1 - 1) * sc >= 0) by (nonlinear_arith)
                    requires
                        j >= 0,
                        sc >= 0,
                ;
                assert(iabs(interp_at(a, x)) <= ACCEL_LIMIT as int);
            }
            lemma_delta_bound(fa, algo, step as int, j + 1, ACCEL_LIMIT as int);
        }
    }
    let mut start: Vec<Fixed> = Vec::new();
    start.push(Fixed::from_bits(0));
    let mut vel = InterpolateLookup::from(start);
    let mut rolling: i128 = 0;
    let mut k: usize = 0;
    while k < length - 1
        invariant
            k <= length - 1,
            1 <= length <= LEN_LIMIT as int,
            ds == spec_deltas(fa, algo, step as int, (length - 1) as nat),
            deltas@.len() == length - 1,
            forall|j: int| 0 <= j < length - 1 ==> (#[trigger] deltas@[j])@ == ds[j],
            forall|j: int| 0 <= j < length - 1 ==> iabs(#[trigger] ds[j]) <= 8 * (
            ACCEL_LIMIT as int),
            vel@.len() == k + 1,
            forall|j: int| 0 <= j <= k ==> bits_of(vel@)[j] == sum_first(ds, j),
            forall|j: int|
                0 <= j <= k ==> iabs(#[trigger] bits_of(vel@)[j]) <= VEL_LIMIT as int,
            rolling as int == sum_first(ds, k as int),
            iabs(rolling as int) <= (k as int) * (8 * (ACCEL_LIMIT as int)),
        decreases length - 1 - k,
    {
        let dv = deltas[k];
        proof {
            assert((#[trigger] deltas@[k as int])@ == ds[k as int]);
            assert(iabs(ds[k as int]) <= 8 * (ACCEL_LIMIT as int));
            assert((k as int) * (8 * (ACCEL_LIMIT as int)) + 8 * (ACCEL_LIMIT as int) == (k as int
                + 1) * (8 * (ACCEL_LIMIT as int))) by (nonlinear_arith);
            lemma_mul_inequality(k as int + 1, LEN_LIMIT as int, 8 * (ACCEL_LIMIT as int));
            assert((LEN_LIMIT as int) * (8 * (ACCEL_LIMIT as int)) == VEL_LIMIT as int)
                by (nonlinear_arith);
        }
        let nl: i128 = rolling + dv.bits();
        let ghost prev = vel@;
        vel.push(Fixed::from_bits(nl));
        proof {
            assert forall|j: int| 0 <= j <= k + 1 implies iabs(#[trigger] bits_of(vel@)[j])
                <= VEL_LIMIT as int by {
                if j <= k {
                    assert(bits_of(vel@)[j] == bits_of(prev)[j]);
                } else {
                    assert(bits_of(vel@)[j] == nl as int);
                }
            }
            assert forall|j: int| 0 <= j <= k + 1 implies bits_of(vel@)[j] == sum_first(
                ds,
                j,
            ) by {
                if j <= k {
                    assert(bits_of(vel@)[j] == bits_of(prev)[j]);
                } else {
                    assert(bits_of(vel@)[j] == nl as int);
                }
            }
        }
        rolling = nl;
        k = k + 1;
    }
    let ghost vb = bits_of(vel@);
    let ghost fv = table_fun(vb);
    let ghost ds2 = spec_deltas(fv, algo, step as int, (length - 1) as nat);
    proof {
        assert(vb =~= spec_pass_par(a, algo, step as int));
        lemma_interp_range(vb, 0, (length as int - 1) * sc, VEL_LIMIT as int);
        assert forall|s2: int| 1 <= s2 < length implies delta_ok(
            &vel,
            algo,
            step as int,
            s2,
        ) by {
            let l = (s2 - 1) * sc;
            let u = s2 * sc;
            assert(s2 * sc - (s2 - 1) * sc == sc) by (nonlinear_arith);
            assert((s2 - 1) * sc >= 0) by (nonlinear_arith)
                requires
                    s2 >= 1,
                    sc >= 0,
            ;
            lemma_mul_inequality(s2, length as int - 1, sc);
            lemma_mul_inequality(length as int - 1, LEN_LIMIT as int, sc);
            assert forall|x: int| l <= x <= u implies #[trigger] vel.valid_at(x) && iabs(
                vel.value_at(x),
            ) <= QBOUND as int by {
                assert(interp_valid(vb, x) && iabs(interp_at(vb, x)) <= VEL_LIMIT as int);
            }
            lemma_rules_ok_on_range(&vel, l, u, step as int);
        }
    }
    let pos_deltas = par_deltas(&vel, length, algo, step);
    proof {
        assert(fun_of(&vel) =~= fv);
        assert forall|j: int| 0 <= j < length - 1 implies iabs(#[trigger] ds2[j]) <= 8 * (
        VEL_LIMIT as int) by {
            lemma_mul_inequality(j + 1, length as int - 1, sc);
            lemma_mul_inequality(length as int - 1, LEN_LIMIT as int, sc);
            assert forall|x: int| (j + 1 - 1) * sc <= x <= (j + 1) * sc implies iabs(
                #[trigger] fv(x),
            ) <= VEL_LIMIT as int by {
                assert((j + 1 - 1) * sc >= 0) by (nonlinear_arith)
                    requires
                        j >= 0,
                        sc >= 0,
                ;
                assert(iabs(interp_at(vb, x)) <= VEL_LIMIT as int);
            }
            lemma_delta_bound(fv, algo, step as int, j + 1, VEL_LIMIT as int);
        }
    }
    let mut pos_sum: i128 = 0;
    let mut k2: usize = 0;
    while k2 < length - 1
        invariant
            k2 <= length - 1,
            1 <= length <= LEN_LIMIT as int,
            ds2 == spec_deltas(fv, algo, step as int, (length - 1) as nat),
            pos_deltas@.len() == length - 1,
            forall|j: int| 0 <= j < length - 1 ==> (#[trigger] pos_deltas@[j])@ == ds2[j],
            forall|j: int| 0 <= j < length - 1 ==> iabs(#[trigger] ds2[j]) <= 8 * (
            VEL_LIMIT as int),
            pos_sum as int == sum_first(ds2, k2 as int),
            iabs(pos_sum as int) <= (k2 as int) * (8 * (VEL_LIMIT as int)),
        decreases length - 1 - k2,
    {
        let dv = pos_deltas[k2];
        proof {
            assert((#[trigger] pos_deltas@[k2 as int])@ == ds2[k2 as int]);
            assert(iabs(ds2[k2 as int]) <= 8 * (VEL_LIMIT as int));
            assert((k2 as int) * (8 * (VEL_LIMIT as int)) + 8 * (VEL_LIMIT as int) == (k2 as int
                + 1) * (8 * (VEL_LIMIT as int))) by (nonlinear_arith);
            lemma_mul_inequality(k2 as int + 1, LEN_LIMIT as int, 8 * (VEL_LIMIT as int));
        }
        pos_sum = pos_sum + dv.bits();
        k2 = k2 + 1;
    }
    let vel_final = Fixed::from_bits(rolling);
    let pos_final = Fixed::from_bits(pos_sum);
    proof {
        assert(bits_of(vel@)[length as int - 1] == sum_first(ds, length as int - 1));
    }
    Ok((vel, vel_final, pos_final))
}

/// Cross-mode agreement: collecting every per-interval delta first and
/// accumulating afterwards — the worker-pool plan — yields exactly the
/// running totals of the interleaved sequential pass, so the two modes
/// report equal velocity tables and equal final position values.
pub proof fn lemma_cross_mode_agreement(a: Seq<int>, algo: AppAlgo, n: int)
    requires
        1 <= a.len(),
    ensures
        spec_pass_par(a, algo, n) == spec_pass(a, algo, n),
        spec_final_par(a, algo, n) == spec_pass(spec_pass(a, algo, n), algo, n)[a.len() - 1],
{
    let f = table_fun(a);
    let m = (a.len() - 1) as nat;
    assert forall|k: int| 0 <= k < a.len() implies sum_first(spec_deltas(f, algo, n, m), k)
        == spec_prefix(f, algo, n, k) by {
        lemma_modes_agree(f, algo, n, m, k);
    }
    assert(spec_pass_par(a, algo, n) =~= spec_pass(a, algo, n));
    let v = spec_pass(a, algo, n);
    let fv = table_fun(v);
    lemma_modes_agree(fv, algo, n, m, a.len() - 1);
}

/// The sequential driver is deterministic: the derived tables are a
/// function of the input table, the selected rule and the slice count
/// alone, so two runs with identical configuration and input report
/// identical velocity and position results.
pub proof fn lemma_sequential_deterministic(
    a: Seq<int>,
    algo: AppAlgo,
    n: int,
    vel_a: Seq<int>,
    pos_a: Seq<int>,
    vel_b: Seq<int>,
    pos_b: Seq<int>,
)
    requires
        vel_a == spec_pass(a, algo, n),
        pos_a == spec_pass(spec_pass(a, algo, n), algo, n),
        vel_b == spec_pass(a, algo, n),
        pos_b == spec_pass(spec_pass(a, algo, n), algo, n),
    ensures
        vel_a == vel_b,
        pos_a == pos_b,
{
}

} // verus!
