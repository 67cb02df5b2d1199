//! Search for the run that reaches furthest into the queued steps.
//!
//! The search bisects over the increment `add`. For each candidate increment
//! it scans the queued steps, narrowing the range of first intervals that keep
//! every step inside its window, until the range is empty or the steps run out.

use vstd::prelude::*;
use crate::arith::{
    ceil_div, floor_div, idiv_down, idiv_up, lemma_ceil_div_bounds, lemma_ceil_div_least, lemma_floor_div_bounds,
    lemma_floor_div_greatest,
};
use crate::step_compressor::CLOCK_DIFF_MAX;
use crate::step_run::{
    add_factor, lemma_add_factor_next, lemma_min_point_after_prev, max_point, min_point,
    minmax_point, points_ok, rel_points, run_fits, run_offset, step_in_range, StepMove,
};

verus! {

/// Most steps one run may hold.
pub const MAX_RUN_STEPS: usize = 65535;

/// A run longer than this ends the search at once.
pub const EARLY_EXIT_STEPS: i64 = 0x200;

/// Bound on how far the increment may move between two candidates, scaled by
/// the allowed error and divided by the square of the candidate's length.
pub const QUADRATIC_DEV: i64 = 11;

pub const MIN_ADD: i64 = -0x8000;

pub const MAX_ADD: i64 = 0x7fff;

/// Reach of a search that has seen no candidate yet.
pub const NO_REACH: i64 = i64::MIN;

/// Result of scanning the queued steps with one increment.
pub struct Scan {
    /// The steps ran out while the range of intervals was still non-empty.
    pub exhausted: bool,
    /// Largest first interval that fits all steps before `next_count`.
    pub interval: int,
    /// Number of the step at which the scan ended.
    pub next_count: int,
    /// The range of intervals after step `next_count` was taken in; empty
    /// unless the steps ran out.
    pub next_min: int,
    pub next_max: int,
}

/// The lower end of the range of first intervals once step `k` is taken in.
pub open spec fn narrow_min(pts: Seq<int>, max_error: int, add: int, nmin: int, k: int) -> int {
    let lo = min_point(pts, max_error, k) - add * add_factor(k);
    if nmin * k < lo {
        ceil_div(lo, k)
    } else {
        nmin
    }
}

/// The upper end of the range of first intervals once step `k` is taken in.
pub open spec fn narrow_max(pts: Seq<int>, add: int, nmax: int, k: int) -> int {
    let hi = max_point(pts, k) - add * add_factor(k);
    if nmax * k > hi {
        floor_div(hi, k)
    } else {
        nmax
    }
}

/// Narrows `[nmin, nmax]` by the steps after step `nc`, one at a time.
pub open spec fn scan(
    pts: Seq<int>,
    max_error: int,
    n: int,
    add: int,
    nmin: int,
    nmax: int,
    interval: int,
    nc: int,
) -> Scan
    decreases n - nc,
{
    let k = nc + 1;
    if k > n {
        Scan { exhausted: true, interval, next_count: k, next_min: nmin, next_max: nmax }
    } else {
        let nmin2 = narrow_min(pts, max_error, add, nmin, k);
        let nmax2 = narrow_max(pts, add, nmax, k);
        if nmin2 > nmax2 {
            Scan { exhausted: false, interval, next_count: k, next_min: nmin2, next_max: nmax2 }
        } else {
            scan(pts, max_error, n, add, nmin2, nmax2, nmax2, k)
        }
    }
}

/// What the search carries from one candidate increment to the next.
pub struct SearchState {
    pub outer_min: int,
    pub outer_max: int,
    pub add: int,
    pub min_add: int,
    pub max_add: int,
    pub best_interval: int,
    pub best_count: int,
    pub best_add: int,
    pub best_reach: int,
    pub zero_interval: int,
    pub zero_count: int,
}

pub enum Outcome {
    Done(StepMove),
    Continue(SearchState),
}

pub open spec fn initial_state(pts: Seq<int>, max_error: int) -> SearchState {
    SearchState {
        outer_min: min_point(pts, max_error, 1),
        outer_max: max_point(pts, 1),
        add: 0,
        min_add: MIN_ADD as int,
        max_add: MAX_ADD as int,
        best_interval: 0,
        best_count: 1,
        best_add: 1,
        best_reach: NO_REACH as int,
        zero_interval: 0,
        zero_count: 0,
    }
}

/// The choice between the best candidate and the best one without increment:
/// the latter wins unless it is shorter by more than a sixteenth.
pub open spec fn pick(st: SearchState) -> StepMove {
    if st.zero_count + st.zero_count / 16 >= st.best_count {
        StepMove { interval: st.zero_interval as u32, count: st.zero_count as u16, add: 0 }
    } else {
        StepMove {
            interval: st.best_interval as u32,
            count: st.best_count as u16,
            add: st.best_add as i16,
        }
    }
}

/// The state with the scanned candidate recorded, where it reaches further
/// than the best so far, or as far with a longer first interval.
pub open spec fn record(st: SearchState, sc: Scan) -> SearchState {
    let count = sc.next_count - 1;
    let reach = st.add * add_factor(count) + sc.interval * count;
    if reach > st.best_reach || (reach == st.best_reach && sc.interval > st.best_interval) {
        SearchState {
            best_interval: sc.interval,
            best_count: count,
            best_add: st.add,
            best_reach: reach,
            zero_interval: if st.add == 0 {
                sc.interval
            } else {
                st.zero_interval
            },
            zero_count: if st.add == 0 {
                count
            } else {
                st.zero_count
            },
            ..st
        }
    } else {
        st
    }
}

pub open spec fn improves(st: SearchState, sc: Scan) -> bool {
    let count = sc.next_count - 1;
    let reach = st.add * add_factor(count) + sc.interval * count;
    reach > st.best_reach || (reach == st.best_reach && sc.interval > st.best_interval)
}

/// The bounds on the increment and on the first interval after a scan that
/// stopped at step `sc.next_count`.
pub open spec fn narrow(pts: Seq<int>, max_error: int, st: SearchState, sc: Scan) -> SearchState {
    let nc = sc.next_count;
    let count = nc - 1;
    let naf = add_factor(nc);
    let np_min = min_point(pts, max_error, nc);
    let np_max = max_point(pts, nc);
    let next_reach = st.add * naf + sc.interval * nc;
    let short = next_reach < np_min;
    let min_add1 = if short {
        st.add + 1
    } else {
        st.min_add
    };
    let max_add1 = if short {
        st.max_add
    } else {
        st.add - 1
    };
    let outer_max1 = if short {
        sc.next_max
    } else {
        st.outer_max
    };
    let outer_min1 = if short {
        st.outer_min
    } else {
        sc.next_min
    };
    let err_delta = max_error * QUADRATIC_DEV / (count * count);
    let min_add2 = if count > 1 && min_add1 < st.add - err_delta {
        st.add - err_delta
    } else {
        min_add1
    };
    let max_add2 = if count > 1 && max_add1 > st.add + err_delta {
        st.add + err_delta
    } else {
        max_add1
    };
    let c = outer_max1 * nc;
    let min_add3 = if min_add2 * naf < np_min - c {
        ceil_div(np_min - c, naf)
    } else {
        min_add2
    };
    let c2 = outer_min1 * nc;
    let max_add3 = if max_add2 * naf > np_max - c2 {
        floor_div(np_max - c2, naf)
    } else {
        max_add2
    };
    SearchState {
        outer_min: outer_min1,
        outer_max: outer_max1,
        min_add: min_add3,
        max_add: max_add3,
        add: max_add3 - (max_add3 - min_add3) / 4,
        ..st
    }
}

/// One candidate increment: scan, record, and either settle or narrow.
pub open spec fn outer_step(pts: Seq<int>, max_error: int, n: int, st: SearchState) -> Outcome {
    let sc = scan(pts, max_error, n, st.add, st.outer_min, st.outer_max, st.outer_max, 1);
    if sc.exhausted {
        Outcome::Done(
            StepMove { interval: sc.interval as u32, count: n as u16, add: st.add as i16 },
        )
    } else {
        let st1 = record(st, sc);
        if improves(st, sc) && sc.next_count - 1 > EARLY_EXIT_STEPS {
            Outcome::Done(pick(st1))
        } else {
            let st2 = narrow(pts, max_error, st1, sc);
            if st2.min_add > st2.max_add {
                Outcome::Done(pick(st1))
            } else {
                Outcome::Continue(st2)
            }
        }
    }
}

/// Bound on the size of every first interval that the search handles.
pub const INTERVAL_BOUND: i64 = 0x7000_0000;

/// What the search is given: steps in order, `n` of them to look at.
pub open spec fn search_setting(pts: Seq<int>, max_error: int, n: int) -> bool {
    &&& points_ok(pts)
    &&& 1 <= n <= pts.len()
    &&& n <= MAX_RUN_STEPS
    &&& 0 <= max_error <= u32::MAX
}

/// Least first interval that puts step `k` at or after its window's start.
pub open spec fn lower_bound(pts: Seq<int>, max_error: int, add: int, k: int) -> int {
    ceil_div(min_point(pts, max_error, k) - add * add_factor(k), k)
}

/// Greatest first interval that puts step `k` at or before its window's end.
pub open spec fn upper_bound(pts: Seq<int>, add: int, k: int) -> int {
    floor_div(max_point(pts, k) - add * add_factor(k), k)
}

/// `add * add_factor(k)` is at most `2^30 * k` in size.
pub proof fn lemma_increment_share(add: int, k: int)
    requires
        MIN_ADD <= add <= MAX_ADD,
        1 <= k <= 0x1_0000,
    ensures
        -0x4000_0000 * k <= add * add_factor(k) <= 0x4000_0000 * k,
        0 <= add_factor(k) <= 0x8000 * k,
        k >= 2 ==> add_factor(k) >= 1,
{
    lemma_add_factor_next(k);
    let f = add_factor(k);
    assert(k * (k - 1) <= k * 0x1_0000) by (nonlinear_arith)
        requires
            1 <= k <= 0x1_0000,
    ;
    assert(f <= 0x8000 * k);
    if k >= 2 {
        assert(k * (k - 1) >= 2) by (nonlinear_arith)
            requires
                k >= 2,
        ;
    }
    assert(-0x8000 * f <= add * f <= 0x8000 * f) by (nonlinear_arith)
        requires
            -0x8000 <= add <= 0x8000,
            f >= 0,
    ;
}

/// A quotient of a value of size at most `bound * k` by `k` has size at most `bound`.
pub proof fn lemma_quotient_bound(v: int, k: int, bound: int)
    requires
        k >= 1,
        bound >= 0,
        -bound * k <= v <= bound * k,
    ensures
        -bound <= ceil_div(v, k) <= bound,
        -bound <= floor_div(v, k) <= bound,
{
    lemma_ceil_div_bounds(v, k);
    lemma_floor_div_bounds(v, k);
    let c = ceil_div(v, k);
    let f = floor_div(v, k);
    assert(-bound <= c <= bound) by (nonlinear_arith)
        requires
            k >= 1,
            bound >= 0,
            -bound * k <= v <= bound * k,
            (c - 1) * k < v <= c * k,
    ;
    assert(-bound <= f <= bound) by (nonlinear_arith)
        requires
            k >= 1,
            bound >= 0,
            -bound * k <= v <= bound * k,
            f * k <= v < (f + 1) * k,
    ;
}

/// The two bounds on the first interval that step `k` imposes are within `INTERVAL_BOUND`.
pub proof fn lemma_step_bounds(pts: Seq<int>, max_error: int, add: int, k: int)
    requires
        points_ok(pts),
        max_error >= 0,
        MIN_ADD <= add <= MAX_ADD,
        1 <= k <= pts.len(),
        k <= 0x1_0000,
    ensures
        -INTERVAL_BOUND <= lower_bound(pts, max_error, add, k) <= INTERVAL_BOUND,
        -INTERVAL_BOUND <= upper_bound(pts, add, k) <= INTERVAL_BOUND,
{
    lemma_increment_share(add, k);
    lemma_min_point_after_prev(pts, max_error, k);
    let c = add * add_factor(k);
    let lo = min_point(pts, max_error, k) - c;
    let hi = max_point(pts, k) - c;
    assert(0x3000_0000 <= 0x3000_0000 * k) by (nonlinear_arith)
        requires
            k >= 1,
    ;
    assert(INTERVAL_BOUND * k == 0x3000_0000 * k + 0x4000_0000 * k) by (nonlinear_arith);
    assert(-INTERVAL_BOUND * k == -(INTERVAL_BOUND * k)) by (nonlinear_arith);
    lemma_quotient_bound(lo, k, INTERVAL_BOUND as int);
    lemma_quotient_bound(hi, k, INTERVAL_BOUND as int);
}

/// What holds of the range `[nmin, nmax]` after the scan took in step `nc`.
pub open spec fn scan_acc(
    pts: Seq<int>,
    max_error: int,
    add: int,
    omin: int,
    omax: int,
    nmin: int,
    nmax: int,
    interval: int,
    nc: int,
) -> bool {
    &&& omin <= nmin <= INTERVAL_BOUND
    &&& -INTERVAL_BOUND <= nmax <= omax
    &&& forall|k: int|
        2 <= k <= nc ==> #[trigger] lower_bound(pts, max_error, add, k) <= nmin && nmax
            <= upper_bound(pts, add, k)
    &&& nc == 1 ==> interval == omax && nmin == omin && nmax == omax
    &&& nc >= 2 ==> nmin <= nmax && interval == nmax
}

/// What holds of a scan's result.
pub open spec fn scan_result_ok(
    pts: Seq<int>,
    max_error: int,
    n: int,
    add: int,
    omin: int,
    omax: int,
    sc: Scan,
) -> bool {
    &&& 2 <= sc.next_count <= n + 1
    &&& sc.exhausted <==> sc.next_count == n + 1
    &&& -INTERVAL_BOUND <= sc.interval <= INTERVAL_BOUND
    &&& sc.next_count == 2 ==> sc.interval == omax
    &&& sc.next_count > 2 ==> omin <= sc.interval <= omax
    &&& forall|k: int|
        2 <= k <= sc.next_count - 1 ==> #[trigger] lower_bound(pts, max_error, add, k)
            <= sc.interval && sc.interval <= upper_bound(pts, add, k)
    &&& omin <= sc.next_min <= INTERVAL_BOUND
    &&& -INTERVAL_BOUND <= sc.next_max <= omax
    &&& !sc.exhausted ==> sc.next_min > sc.next_max
}

/// Taking in step `k` moves the two ends of the range toward each other, to
/// the bounds that the step imposes where they were wider.
pub proof fn lemma_narrow(pts: Seq<int>, max_error: int, add: int, nmin: int, nmax: int, k: int)
    requires
        points_ok(pts),
        max_error >= 0,
        MIN_ADD <= add <= MAX_ADD,
        2 <= k <= pts.len(),
        k <= 0x1_0000,
        nmin <= INTERVAL_BOUND,
        -INTERVAL_BOUND <= nmax,
    ensures
        nmin <= narrow_min(pts, max_error, add, nmin, k) <= INTERVAL_BOUND,
        -INTERVAL_BOUND <= narrow_max(pts, add, nmax, k) <= nmax,
        lower_bound(pts, max_error, add, k) <= narrow_min(pts, max_error, add, nmin, k),
        narrow_max(pts, add, nmax, k) <= upper_bound(pts, add, k),
{
    let c = add * add_factor(k);
    let lo = min_point(pts, max_error, k) - c;
    let hi = max_point(pts, k) - c;
    lemma_step_bounds(pts, max_error, add, k);
    lemma_ceil_div_least(lo, k, nmin);
    lemma_floor_div_greatest(hi, k, nmax);
}

pub proof fn lemma_scan_acc_next(
    pts: Seq<int>,
    max_error: int,
    add: int,
    omin: int,
    omax: int,
    nmin: int,
    nmax: int,
    interval: int,
    nc: int,
)
    requires
        points_ok(pts),
        max_error >= 0,
        MIN_ADD <= add <= MAX_ADD,
        1 <= nc < pts.len(),
        nc < 0x1_0000,
        scan_acc(pts, max_error, add, omin, omax, nmin, nmax, interval, nc),
        narrow_min(pts, max_error, add, nmin, nc + 1) <= narrow_max(pts, add, nmax, nc + 1),
    ensures
        scan_acc(
            pts,
            max_error,
            add,
            omin,
            omax,
            narrow_min(pts, max_error, add, nmin, nc + 1),
            narrow_max(pts, add, nmax, nc + 1),
            narrow_max(pts, add, nmax, nc + 1),
            nc + 1,
        ),
{
    let k = nc + 1;
    let nmin2 = narrow_min(pts, max_error, add, nmin, k);
    let nmax2 = narrow_max(pts, add, nmax, k);
    lemma_narrow(pts, max_error, add, nmin, nmax, k);
    assert forall|j: int| 2 <= j <= k implies #[trigger] lower_bound(pts, max_error, add, j)
        <= nmin2 && nmax2 <= upper_bound(pts, add, j) by {
        if j < k {
            assert(lower_bound(pts, max_error, add, j) <= nmin);
            assert(nmax <= upper_bound(pts, add, j));
        }
    }
}

pub proof fn lemma_scan(
    pts: Seq<int>,
    max_error: int,
    n: int,
    add: int,
    omin: int,
    omax: int,
    nmin: int,
    nmax: int,
    interval: int,
    nc: int,
)
    requires
        search_setting(pts, max_error, n),
        MIN_ADD <= add <= MAX_ADD,
        1 <= nc <= n,
        -INTERVAL_BOUND <= omax <= INTERVAL_BOUND,
        -INTERVAL_BOUND <= omin <= INTERVAL_BOUND,
        scan_acc(pts, max_error, add, omin, omax, nmin, nmax, interval, nc),
    ensures
        scan_result_ok(
            pts,
            max_error,
            n,
            add,
            omin,
            omax,
            scan(pts, max_error, n, add, nmin, nmax, interval, nc),
        ),
        scan(pts, max_error, n, add, nmin, nmax, interval, nc).next_count > nc,
    decreases n - nc,
{
    let k = nc + 1;
    let res = scan(pts, max_error, n, add, nmin, nmax, interval, nc);
    if k > n {
        assert(res == Scan { exhausted: true, interval, next_count: k, next_min: nmin, next_max: nmax });
        lemma_scan_stop(pts, max_error, n, add, omin, omax, nmin, nmax, interval, nc, res);
    } else {
        let nmin2 = narrow_min(pts, max_error, add, nmin, k);
        let nmax2 = narrow_max(pts, add, nmax, k);
        lemma_narrow(pts, max_error, add, nmin, nmax, k);
        if nmin2 > nmax2 {
            assert(res == Scan { exhausted: false, interval, next_count: k, next_min: nmin2, next_max: nmax2 });
            lemma_scan_stop(pts, max_error, n, add, omin, omax, nmin, nmax, interval, nc, res);
        } else {
            lemma_scan_acc_next(pts, max_error, add, omin, omax, nmin, nmax, interval, nc);
            lemma_scan(pts, max_error, n, add, omin, omax, nmin2, nmax2, nmax2, k);
            assert(res == scan(pts, max_error, n, add, nmin2, nmax2, nmax2, k));
        }
    }
}

/// A scan that ends right after step `nc` hands out what it had gathered.
proof fn lemma_scan_stop(
    pts: Seq<int>,
    max_error: int,
    n: int,
    add: int,
    omin: int,
    omax: int,
    nmin: int,
    nmax: int,
    interval: int,
    nc: int,
    res: Scan,
)
    requires
        1 <= nc <= n,
        -INTERVAL_BOUND <= omax <= INTERVAL_BOUND,
        -INTERVAL_BOUND <= omin <= INTERVAL_BOUND,
        scan_acc(pts, max_error, add, omin, omax, nmin, nmax, interval, nc),
        res.interval == interval,
        res.next_count == nc + 1,
        res.exhausted <==> nc == n,
        nmin <= res.next_min <= INTERVAL_BOUND,
        -INTERVAL_BOUND <= res.next_max <= nmax,
        !res.exhausted ==> res.next_min > res.next_max,
    ensures
        scan_result_ok(pts, max_error, n, add, omin, omax, res),
{
    assert forall|k: int| 2 <= k <= res.next_count - 1 implies #[trigger] lower_bound(
        pts,
        max_error,
        add,
        k,
    ) <= res.interval && res.interval <= upper_bound(pts, add, k) by {
        assert(lower_bound(pts, max_error, add, k) <= nmin);
        assert(nmax <= upper_bound(pts, add, k));
    }
}

/// A first interval inside the bounds that the steps up to `count` impose
/// gives a run that fits them.
pub proof fn lemma_bounds_fit(
    pts: Seq<int>,
    max_error: int,
    interval: int,
    count: int,
    add: int,
)
    requires
        points_ok(pts),
        max_error >= 0,
        1 <= count <= pts.len(),
        min_point(pts, max_error, 1) <= interval <= max_point(pts, 1),
        forall|k: int|
            2 <= k <= count ==> #[trigger] lower_bound(pts, max_error, add, k) <= interval
                && interval <= upper_bound(pts, add, k),
    ensures
        run_fits(pts, max_error, interval, count, add),
{
    assert forall|k: int| 1 <= k <= count implies #[trigger] step_in_range(
        pts,
        max_error,
        interval,
        add,
        k,
    ) by {
        if k == 1 {
            assert(add_factor(1) == 0) by (nonlinear_arith);
            assert(interval * 1 + add * 0 == interval) by (nonlinear_arith);
        } else {
            let c = add * add_factor(k);
            assert(lower_bound(pts, max_error, add, k) <= interval);
            lemma_ceil_div_least(min_point(pts, max_error, k) - c, k, interval);
            lemma_floor_div_greatest(max_point(pts, k) - c, k, interval);
        }
    }
}

/// A run that fits starts with an interval inside the first step's window.
pub proof fn lemma_fit_first(pts: Seq<int>, max_error: int, interval: int, count: int, add: int)
    requires
        points_ok(pts),
        max_error >= 0,
        run_fits(pts, max_error, interval, count, add),
    ensures
        0 <= min_point(pts, max_error, 1) <= interval <= max_point(pts, 1) < CLOCK_DIFF_MAX,
{
    assert(step_in_range(pts, max_error, interval, add, 1));
    assert(add_factor(1) == 0) by (nonlinear_arith);
    assert(interval * 1 + add * 0 == interval) by (nonlinear_arith);
    lemma_min_point_after_prev(pts, max_error, 1);
}

/// A run of two or more steps that fits ends at or after the first step's own time.
pub proof fn lemma_fit_reach(pts: Seq<int>, max_error: int, interval: int, count: int, add: int)
    requires
        points_ok(pts),
        max_error >= 0,
        count >= 2,
        run_fits(pts, max_error, interval, count, add),
    ensures
        run_offset(interval, add, count) >= max_point(pts, 1),
{
    assert(step_in_range(pts, max_error, interval, add, count));
    lemma_min_point_after_prev(pts, max_error, count);
    assert(pts[0] <= pts[count - 2]);
}

/// The candidate that a search has recorded, and the one without increment.
pub open spec fn candidate_ok(pts: Seq<int>, max_error: int, n: int, st: SearchState) -> bool {
    &&& n >= 2
    &&& run_fits(pts, max_error, st.best_interval, st.best_count, st.best_add)
    &&& st.best_count <= n
    &&& MIN_ADD <= st.best_add <= MAX_ADD
    &&& st.best_reach == run_offset(st.best_interval, st.best_add, st.best_count)
    &&& st.best_reach >= max_point(pts, 1)
    &&& run_fits(pts, max_error, st.zero_interval, st.zero_count, 0)
    &&& st.zero_count <= n
}

pub open spec fn ranges_ok(pts: Seq<int>, max_error: int, st: SearchState) -> bool {
    &&& min_point(pts, max_error, 1) <= st.outer_min <= INTERVAL_BOUND
    &&& -INTERVAL_BOUND <= st.outer_max <= max_point(pts, 1)
    &&& MIN_ADD <= st.min_add <= st.add <= st.max_add <= MAX_ADD
}

/// What holds of the search's state before each candidate increment.
pub open spec fn search_inv(pts: Seq<int>, max_error: int, n: int, st: SearchState) -> bool {
    &&& ranges_ok(pts, max_error, st)
    &&& if st.best_reach == NO_REACH {
        &&& st.outer_min == min_point(pts, max_error, 1)
        &&& st.outer_max == max_point(pts, 1)
        &&& st.add == 0
    } else {
        candidate_ok(pts, max_error, n, st)
    }
}

/// The scan that a candidate increment starts with.
pub open spec fn first_scan(pts: Seq<int>, max_error: int, n: int, st: SearchState) -> Scan {
    scan(pts, max_error, n, st.add, st.outer_min, st.outer_max, st.outer_max, 1)
}

pub proof fn lemma_first_scan(pts: Seq<int>, max_error: int, n: int, st: SearchState)
    requires
        search_setting(pts, max_error, n),
        ranges_ok(pts, max_error, st),
    ensures
        scan_result_ok(
            pts,
            max_error,
            n,
            st.add,
            st.outer_min,
            st.outer_max,
            first_scan(pts, max_error, n, st),
        ),
{
    lemma_min_point_after_prev(pts, max_error, 1);
    lemma_scan(
        pts,
        max_error,
        n,
        st.add,
        st.outer_min,
        st.outer_max,
        st.outer_min,
        st.outer_max,
        st.outer_max,
        1,
    );
}

/// The run that a scan found fits, where it holds two steps or more, or
/// where the search has not narrowed the first interval yet.
pub proof fn lemma_scanned_fits(pts: Seq<int>, max_error: int, n: int, st: SearchState, sc: Scan)
    requires
        search_setting(pts, max_error, n),
        ranges_ok(pts, max_error, st),
        scan_result_ok(pts, max_error, n, st.add, st.outer_min, st.outer_max, sc),
        sc.next_count > 2 || min_point(pts, max_error, 1) <= st.outer_max,
    ensures
        run_fits(pts, max_error, sc.interval, sc.next_count - 1, st.add),
{
    lemma_bounds_fit(pts, max_error, sc.interval, sc.next_count - 1, st.add);
}

/// Recording a scanned candidate leaves a state whose candidates fit.
pub proof fn lemma_record(pts: Seq<int>, max_error: int, n: int, st: SearchState, sc: Scan)
    requires
        search_setting(pts, max_error, n),
        search_inv(pts, max_error, n, st),
        scan_result_ok(pts, max_error, n, st.add, st.outer_min, st.outer_max, sc),
        !sc.exhausted,
    ensures
        candidate_ok(pts, max_error, n, record(st, sc)),
        ranges_ok(pts, max_error, record(st, sc)),
        record(st, sc).best_reach != NO_REACH,
        record(st, sc).add == st.add,
        record(st, sc).min_add == st.min_add,
        record(st, sc).max_add == st.max_add,
        record(st, sc).outer_min == st.outer_min,
        record(st, sc).outer_max == st.outer_max,
{
    let count = sc.next_count - 1;
    let reach = st.add * add_factor(count) + sc.interval * count;
    lemma_min_point_after_prev(pts, max_error, 1);
    assert(reach == run_offset(sc.interval, st.add, count));
    if count == 1 {
        assert(add_factor(1) == 0) by (nonlinear_arith);
        assert(st.add * 0 + sc.interval * 1 == sc.interval) by (nonlinear_arith);
        assert(reach == sc.interval);
        assert(sc.interval == st.outer_max);
    }
    if improves(st, sc) {
        if count == 1 {
            if st.best_reach != NO_REACH {
                assert(st.best_reach >= max_point(pts, 1));
                assert(sc.interval == max_point(pts, 1));
            }
            lemma_scanned_fits(pts, max_error, n, st, sc);
        } else {
            lemma_scanned_fits(pts, max_error, n, st, sc);
            lemma_fit_reach(pts, max_error, sc.interval, count, st.add);
        }
    } else {
        if st.best_reach == NO_REACH {
            if count >= 2 {
                lemma_scanned_fits(pts, max_error, n, st, sc);
                lemma_fit_reach(pts, max_error, sc.interval, count, st.add);
            }
            assert(reach >= 0);
            assert(false);
        }
    }
}

/// The run that the search settles on once no increment is left to try.
pub proof fn lemma_pick(pts: Seq<int>, max_error: int, n: int, st: SearchState)
    requires
        search_setting(pts, max_error, n),
        candidate_ok(pts, max_error, n, st),
    ensures
        run_fits(
            pts,
            max_error,
            pick(st).interval as int,
            pick(st).count as int,
            pick(st).add as int,
        ),
        pick(st).count <= n,
{
    lemma_fit_first(pts, max_error, st.best_interval, st.best_count, st.best_add);
    lemma_fit_first(pts, max_error, st.zero_interval, st.zero_count, 0);
}

/// Narrowing shrinks the range of increments and keeps the first interval's
/// range inside the first step's window.
pub proof fn lemma_narrow_state(
    pts: Seq<int>,
    max_error: int,
    n: int,
    st: SearchState,
    sc: Scan,
)
    requires
        search_setting(pts, max_error, n),
        ranges_ok(pts, max_error, st),
        scan_result_ok(pts, max_error, n, st.add, st.outer_min, st.outer_max, sc),
        !sc.exhausted,
    ensures
        ({
            let st2 = narrow(pts, max_error, st, sc);
            &&& min_point(pts, max_error, 1) <= st2.outer_min <= INTERVAL_BOUND
            &&& -INTERVAL_BOUND <= st2.outer_max <= max_point(pts, 1)
            &&& st.min_add <= st2.min_add
            &&& st2.max_add <= st.max_add
            &&& st2.max_add - st2.min_add < st.max_add - st.min_add
            &&& st2.min_add <= st2.max_add ==> st2.min_add <= st2.add <= st2.max_add
            &&& st2.best_interval == st.best_interval
            &&& st2.best_count == st.best_count
            &&& st2.best_add == st.best_add
            &&& st2.best_reach == st.best_reach
            &&& st2.zero_interval == st.zero_interval
            &&& st2.zero_count == st.zero_count
        }),
{
    let nc = sc.next_count;
    let count = nc - 1;
    let naf = add_factor(nc);
    let np_min = min_point(pts, max_error, nc);
    let np_max = max_point(pts, nc);
    let next_reach = st.add * naf + sc.interval * nc;
    let short = next_reach < np_min;
    let min_add1 = if short {
        st.add + 1
    } else {
        st.min_add
    };
    let max_add1 = if short {
        st.max_add
    } else {
        st.add - 1
    };
    let outer_max1 = if short {
        sc.next_max
    } else {
        st.outer_max
    };
    let outer_min1 = if short {
        st.outer_min
    } else {
        sc.next_min
    };
    let err_delta = max_error * QUADRATIC_DEV / (count * count);
    let min_add2 = if count > 1 && min_add1 < st.add - err_delta {
        st.add - err_delta
    } else {
        min_add1
    };
    let max_add2 = if count > 1 && max_add1 > st.add + err_delta {
        st.add + err_delta
    } else {
        max_add1
    };
    let c = outer_max1 * nc;
    let min_add3 = if min_add2 * naf < np_min - c {
        ceil_div(np_min - c, naf)
    } else {
        min_add2
    };
    let c2 = outer_min1 * nc;
    let max_add3 = if max_add2 * naf > np_max - c2 {
        floor_div(np_max - c2, naf)
    } else {
        max_add2
    };
    lemma_increment_share(st.add, nc);
    assert(naf >= 1);
    assert(min_add1 <= min_add2);
    assert(max_add2 <= max_add1);
    lemma_ceil_div_least(np_min - c, naf, min_add2);
    lemma_floor_div_greatest(np_max - c2, naf, max_add2);
    assert(min_add2 <= min_add3);
    assert(max_add3 <= max_add2);
    assert(max_add1 - min_add1 < st.max_add - st.min_add);
    let st2 = narrow(pts, max_error, st, sc);
    assert(st2.min_add == min_add3);
    assert(st2.max_add == max_add3);
    assert(st2.add == max_add3 - (max_add3 - min_add3) / 4);
}

/// What one candidate increment leads to: a run that fits, or a state with
/// fewer increments left.
pub proof fn lemma_outer_step(pts: Seq<int>, max_error: int, n: int, st: SearchState)
    requires
        search_setting(pts, max_error, n),
        search_inv(pts, max_error, n, st),
    ensures
        match outer_step(pts, max_error, n, st) {
            Outcome::Done(m) => run_fits(
                pts,
                max_error,
                m.interval as int,
                m.count as int,
                m.add as int,
            ) && m.count <= n,
            Outcome::Continue(st2) => search_inv(pts, max_error, n, st2) && 0 <= st2.max_add
                - st2.min_add < st.max_add - st.min_add,
        },
{
    let sc = first_scan(pts, max_error, n, st);
    lemma_first_scan(pts, max_error, n, st);
    lemma_min_point_after_prev(pts, max_error, 1);
    if sc.exhausted {
        if n == 1 {
            assert(st.best_reach == NO_REACH);
        }
        lemma_scanned_fits(pts, max_error, n, st, sc);
        lemma_fit_first(pts, max_error, sc.interval, n, st.add);
    } else {
        let st1 = record(st, sc);
        lemma_record(pts, max_error, n, st, sc);
        lemma_pick(pts, max_error, n, st1);
        if improves(st, sc) && sc.next_count - 1 > EARLY_EXIT_STEPS {
        } else {
            lemma_narrow_state(pts, max_error, n, st1, sc);
        }
    }
}

/// The run that the search arrives at from state `st`.
pub open spec fn search_from(pts: Seq<int>, max_error: int, n: int, st: SearchState) -> StepMove
    decreases st.max_add - st.min_add,
    when search_setting(pts, max_error, n) && search_inv(pts, max_error, n, st)
    via search_from_decreases
{
    match outer_step(pts, max_error, n, st) {
        Outcome::Done(m) => m,
        Outcome::Continue(st2) => search_from(pts, max_error, n, st2),
    }
}

#[via_fn]
proof fn search_from_decreases(pts: Seq<int>, max_error: int, n: int, st: SearchState) {
    lemma_outer_step(pts, max_error, n, st);
}

/// Number of queued steps that one run may cover.
pub open spec fn search_span(pts: Seq<int>) -> int {
    if pts.len() > MAX_RUN_STEPS {
        MAX_RUN_STEPS as int
    } else {
        pts.len() as int
    }
}

/// The run chosen for the queued steps `pts`.
pub open spec fn search(pts: Seq<int>, max_error: int) -> StepMove {
    search_from(pts, max_error, search_span(pts), initial_state(pts, max_error))
}

pub proof fn lemma_search_from_fits(pts: Seq<int>, max_error: int, n: int, st: SearchState)
    requires
        search_setting(pts, max_error, n),
        search_inv(pts, max_error, n, st),
    ensures
        run_fits(
            pts,
            max_error,
            search_from(pts, max_error, n, st).interval as int,
            search_from(pts, max_error, n, st).count as int,
            search_from(pts, max_error, n, st).add as int,
        ),
        search_from(pts, max_error, n, st).count <= n,
    decreases st.max_add - st.min_add,
{
    lemma_outer_step(pts, max_error, n, st);
    match outer_step(pts, max_error, n, st) {
        Outcome::Done(m) => {},
        Outcome::Continue(st2) => {
            lemma_search_from_fits(pts, max_error, n, st2);
        },
    }
}

/// The run chosen for queued steps in order places every one of its steps
/// inside the window of the queued step that it stands for.
pub proof fn lemma_search_fits(pts: Seq<int>, max_error: int)
    requires
        points_ok(pts),
        pts.len() >= 1,
        0 <= max_error <= u32::MAX,
    ensures
        run_fits(
            pts,
            max_error,
            search(pts, max_error).interval as int,
            search(pts, max_error).count as int,
            search(pts, max_error).add as int,
        ),
        search(pts, max_error).count <= MAX_RUN_STEPS,
{
    lemma_min_point_after_prev(pts, max_error, 1);
    lemma_search_from_fits(pts, max_error, search_span(pts), initial_state(pts, max_error));
}

/// A product of a bounded factor and a count stays far inside 64 bits.
pub proof fn lemma_product_bound(a: int, k: int, bound: int)
    requires
        -bound <= a <= bound,
        0 <= k <= 0x1_0000,
        0 <= bound <= 0x1_0000_0000,
    ensures
        -0x1_0000_0000_0000 <= a * k <= 0x1_0000_0000_0000,
{
    let m = bound * k;
    assert(0 <= m <= 0x1_0000_0000 * 0x1_0000) by (nonlinear_arith)
        requires
            m == bound * k,
            0 <= k <= 0x1_0000,
            0 <= bound <= 0x1_0000_0000,
    ;
    assert(-m <= a * k <= m) by (nonlinear_arith)
        requires
            m == bound * k,
            -bound <= a <= bound,
            0 <= k,
    ;
}

/// Outcome of one scan, as machine integers.
pub struct ScanOut {
    pub exhausted: bool,
    pub interval: i64,
    pub next_count: i64,
    pub next_min: i64,
    pub next_max: i64,
}

impl View for ScanOut {
    type V = Scan;

    open spec fn view(&self) -> Scan {
        Scan {
            exhausted: self.exhausted,
            interval: self.interval as int,
            next_count: self.next_count as int,
            next_min: self.next_min as int,
            next_max: self.next_max as int,
        }
    }
}

/// Scans the queued steps from `queue_pos` on with the increment `add`,
/// starting from the range `[outer_min, outer_max]` of first intervals.
pub fn scan_steps(
    queue: &Vec<u64>,
    queue_pos: usize,
    last_step_clock: u64,
    max_error: u32,
    n: i64,
    add: i64,
    outer_min: i64,
    outer_max: i64,
) -> (out: ScanOut)
    requires
        queue_pos < queue.len(),
        search_setting(rel_points(queue@, queue_pos as int, last_step_clock), max_error as int, n as int),
        MIN_ADD <= add <= MAX_ADD,
        -INTERVAL_BOUND <= outer_min <= INTERVAL_BOUND,
        -INTERVAL_BOUND <= outer_max <= INTERVAL_BOUND,
    ensures
        out@ == scan(
            rel_points(queue@, queue_pos as int, last_step_clock),
            max_error as int,
            n as int,
            add as int,
            outer_min as int,
            outer_max as int,
            outer_max as int,
            1,
        ),
{
    let ghost pts = rel_points(queue@, queue_pos as int, last_step_clock);
    let ghost me = max_error as int;
    let mut nmin: i64 = outer_min;
    let mut nmax: i64 = outer_max;
    let mut interval: i64 = outer_max;
    let mut nc: i64 = 1;
    loop
        invariant
            queue_pos < queue.len(),
            pts == rel_points(queue@, queue_pos as int, last_step_clock),
            me == max_error as int,
            search_setting(pts, me, n as int),
            MIN_ADD <= add <= MAX_ADD,
            -INTERVAL_BOUND <= outer_min <= INTERVAL_BOUND,
            -INTERVAL_BOUND <= outer_max <= INTERVAL_BOUND,
            1 <= nc <= n,
            scan_acc(
                pts,
                me,
                add as int,
                outer_min as int,
                outer_max as int,
                nmin as int,
                nmax as int,
                interval as int,
                nc as int,
            ),
            scan(pts, me, n as int, add as int, nmin as int, nmax as int, interval as int, nc as int)
                == scan(
                pts,
                me,
                n as int,
                add as int,
                outer_min as int,
                outer_max as int,
                outer_max as int,
                1,
            ),
        decreases n - nc,
    {
        let k: i64 = nc + 1;
        if k > n {
            return ScanOut { exhausted: true, interval, next_count: k, next_min: nmin, next_max: nmax };
        }
        let point = minmax_point(
            queue,
            queue_pos,
            queue_pos + (k - 1) as usize,
            last_step_clock,
            max_error,
        );
        proof {
            lemma_increment_share(add as int, k as int);
            lemma_min_point_after_prev(pts, me, k as int);
            lemma_product_bound(nmin as int, k as int, INTERVAL_BOUND as int);
            lemma_product_bound(nmax as int, k as int, INTERVAL_BOUND as int);
            lemma_narrow(pts, me, add as int, nmin as int, nmax as int, k as int);
            lemma_add_factor_next(k as int);
            assert(k * (k - 1) <= 0x1_0000 * 0x1_0000) by (nonlinear_arith)
                requires
                    1 <= k <= 0x1_0000,
            ;
        }
        let factor: i64 = k * (k - 1) / 2;
        let c: i64 = add * factor;
        let mut nmin2: i64 = nmin;
        if nmin * k < point.minp - c {
            nmin2 = idiv_up(point.minp - c, k);
        }
        let mut nmax2: i64 = nmax;
        if nmax * k > point.maxp - c {
            nmax2 = idiv_down(point.maxp - c, k);
        }
        assert(nmin2 == narrow_min(pts, me, add as int, nmin as int, k as int));
        assert(nmax2 == narrow_max(pts, add as int, nmax as int, k as int));
        if nmin2 > nmax2 {
            return ScanOut {
                exhausted: false,
                interval,
                next_count: k,
                next_min: nmin2,
                next_max: nmax2,
            };
        }
        proof {
            lemma_scan_acc_next(
                pts,
                me,
                add as int,
                outer_min as int,
                outer_max as int,
                nmin as int,
                nmax as int,
                interval as int,
                nc as int,
            );
        }
        nmin = nmin2;
        nmax = nmax2;
        interval = nmax2;
        nc = k;
    }
}

/// A product of two bounded factors is bounded by the product of the bounds.
pub proof fn lemma_mul_bound(a: int, b: int, abound: int, bbound: int)
    requires
        -abound <= a <= abound,
        0 <= b <= bbound,
    ensures
        -(abound * bbound) <= a * b <= abound * bbound,
{
    assert(-(abound * bbound) <= a * b <= abound * bbound) by (nonlinear_arith)
        requires
            -abound <= a <= abound,
            0 <= b <= bbound,
    ;
}

/// The search's state as machine integers.
#[derive(Clone, Copy)]
pub struct SearchVars {
    pub outer_min: i64,
    pub outer_max: i64,
    pub add: i64,
    pub min_add: i64,
    pub max_add: i64,
    pub best_interval: i64,
    pub best_count: i64,
    pub best_add: i64,
    pub best_reach: i64,
    pub zero_interval: i64,
    pub zero_count: i64,
}

impl View for SearchVars {
    type V = SearchState;

    open spec fn view(&self) -> SearchState {
        SearchState {
            outer_min: self.outer_min as int,
            outer_max: self.outer_max as int,
            add: self.add as int,
            min_add: self.min_add as int,
            max_add: self.max_add as int,
            best_interval: self.best_interval as int,
            best_count: self.best_count as int,
            best_add: self.best_add as int,
            best_reach: self.best_reach as int,
            zero_interval: self.zero_interval as int,
            zero_count: self.zero_count as int,
        }
    }
}

/// Records the scanned candidate where it beats the best so far; says
/// whether it did.
pub fn record_scan(vars: SearchVars, sc: &ScanOut) -> (r: (SearchVars, bool))
    requires
        MIN_ADD <= vars.add <= MAX_ADD,
        -INTERVAL_BOUND <= sc.interval <= INTERVAL_BOUND,
        2 <= sc.next_count <= 0x1_0000,
    ensures
        r.0@ == record(vars@, sc@),
        r.1 == improves(vars@, sc@),
{
    let count: i64 = sc.next_count - 1;
    proof {
        lemma_increment_share(vars.add as int, count as int);
        lemma_product_bound(sc.interval as int, count as int, INTERVAL_BOUND as int);
        lemma_add_factor_next(count as int);
        assert(count * (count - 1) <= 0x1_0000 * 0x1_0000) by (nonlinear_arith)
            requires
                1 <= count <= 0x1_0000,
        ;
    }
    let factor: i64 = count * (count - 1) / 2;
    let reach: i64 = vars.add * factor + sc.interval * count;
    if reach > vars.best_reach || (reach == vars.best_reach && sc.interval > vars.best_interval) {
        let mut out = vars;
        out.best_interval = sc.interval;
        out.best_count = count;
        out.best_add = vars.add;
        out.best_reach = reach;
        if vars.add == 0 {
            out.zero_interval = sc.interval;
            out.zero_count = count;
        }
        (out, true)
    } else {
        (vars, false)
    }
}

/// Narrows the bounds on the increment and on the first interval after a
/// scan that stopped, and picks the next increment where one is left.
pub fn narrow_vars(
    queue: &Vec<u64>,
    queue_pos: usize,
    last_step_clock: u64,
    max_error: u32,
    n: i64,
    vars: SearchVars,
    sc: &ScanOut,
) -> (r: SearchVars)
    requires
        queue_pos < queue.len(),
        search_setting(rel_points(queue@, queue_pos as int, last_step_clock), max_error as int, n as int),
        ranges_ok(rel_points(queue@, queue_pos as int, last_step_clock), max_error as int, vars@),
        scan_result_ok(
            rel_points(queue@, queue_pos as int, last_step_clock),
            max_error as int,
            n as int,
            vars.add as int,
            vars.outer_min as int,
            vars.outer_max as int,
            sc@,
        ),
        !sc.exhausted,
    ensures
        ({
            let st2 = narrow(
                rel_points(queue@, queue_pos as int, last_step_clock),
                max_error as int,
                vars@,
                sc@,
            );
            &&& r.outer_min == st2.outer_min
            &&& r.outer_max == st2.outer_max
            &&& r.min_add == st2.min_add
            &&& r.max_add == st2.max_add
            &&& r.min_add <= r.max_add ==> r@ == st2
        }),
{
    let ghost pts = rel_points(queue@, queue_pos as int, last_step_clock);
    let ghost me = max_error as int;
    let next_count: i64 = sc.next_count;
    let count: i64 = next_count - 1;
    let add: i64 = vars.add;
    let mut out = vars;
    let next_point = minmax_point(
        queue,
        queue_pos,
        queue_pos + (next_count - 1) as usize,
        last_step_clock,
        max_error,
    );
    proof {
        lemma_increment_share(add as int, next_count as int);
        lemma_product_bound(sc.interval as int, next_count as int, INTERVAL_BOUND as int);
        lemma_add_factor_next(next_count as int);
        assert(next_count * (next_count - 1) <= 0x1_0000 * 0x1_0000) by (nonlinear_arith)
            requires
                1 <= next_count <= 0x1_0000,
        ;
        assert(1 <= count * count <= 0x1_0000 * 0x1_0000) by (nonlinear_arith)
            requires
                1 <= count <= 0x1_0000,
        ;
        lemma_min_point_after_prev(pts, me, next_count as int);
        lemma_min_point_after_prev(pts, me, 1);
    }
    let next_add_factor: i64 = next_count * (next_count - 1) / 2;
    let next_reach: i64 = add * next_add_factor + sc.interval * next_count;
    if next_reach < next_point.minp {
        out.min_add = add + 1;
        out.outer_max = sc.next_max;
    } else {
        out.max_add = add - 1;
        out.outer_min = sc.next_min;
    }
    if count > 1 {
        proof {
            let cc = count * count;
            let num = max_error * QUADRATIC_DEV;
            assert(0 <= num / cc <= num) by (nonlinear_arith)
                requires
                    0 <= num,
                    1 <= cc,
            ;
        }
        let err_delta: i64 = max_error as i64 * QUADRATIC_DEV / (count * count);
        if out.min_add < add - err_delta {
            out.min_add = add - err_delta;
        }
        if out.max_add > add + err_delta {
            out.max_add = add + err_delta;
        }
    }
    proof {
        lemma_product_bound(out.outer_max as int, next_count as int, INTERVAL_BOUND as int);
        lemma_product_bound(out.outer_min as int, next_count as int, INTERVAL_BOUND as int);
        lemma_mul_bound(out.min_add as int, next_add_factor as int, 0x8001, 0x8000_0000);
        lemma_mul_bound(out.max_add as int, next_add_factor as int, 0x8001, 0x8000_0000);
    }
    let c: i64 = out.outer_max * next_count;
    if out.min_add * next_add_factor < next_point.minp - c {
        out.min_add = idiv_up(next_point.minp - c, next_add_factor);
    }
    let c2: i64 = out.outer_min * next_count;
    if out.max_add * next_add_factor > next_point.maxp - c2 {
        out.max_add = idiv_down(next_point.maxp - c2, next_add_factor);
    }
    if out.min_add <= out.max_add {
        proof {
            lemma_narrow_state(pts, me, n as int, vars@, sc@);
        }
        out.add = out.max_add - (out.max_add - out.min_add) / 4;
    }
    out
}

/// Picks the run for the queued steps from `queue_pos` on: the one that the
/// bisection over the increment arrives at. Every step of the run lies in
/// the window of the queued step that it stands for.
pub fn compress_bisect_add(
    queue: &Vec<u64>,
    queue_pos: usize,
    last_step_clock: u64,
    max_error: u32,
) -> (mv: StepMove)
    requires
        queue_pos < queue.len(),
        points_ok(rel_points(queue@, queue_pos as int, last_step_clock)),
    ensures
        mv == search(rel_points(queue@, queue_pos as int, last_step_clock), max_error as int),
        run_fits(
            rel_points(queue@, queue_pos as int, last_step_clock),
            max_error as int,
            mv.interval as int,
            mv.count as int,
            mv.add as int,
        ),
{
    let ghost pts = rel_points(queue@, queue_pos as int, last_step_clock);
    let ghost me = max_error as int;
    let avail: usize = queue.len() - queue_pos;
    let n: i64 = if avail > MAX_RUN_STEPS {
        MAX_RUN_STEPS as i64
    } else {
        avail as i64
    };
    let point = minmax_point(queue, queue_pos, queue_pos, last_step_clock, max_error);
    let mut vars = SearchVars {
        outer_min: point.minp,
        outer_max: point.maxp,
        add: 0,
        min_add: MIN_ADD,
        max_add: MAX_ADD,
        best_interval: 0,
        best_count: 1,
        best_add: 1,
        best_reach: NO_REACH,
        zero_interval: 0,
        zero_count: 0,
    };
    proof {
        lemma_search_fits(pts, me);
        lemma_min_point_after_prev(pts, me, 1);
        assert(vars@ == initial_state(pts, me));
    }
    loop
        invariant_except_break
            search_inv(pts, me, n as int, vars@),
            search_from(pts, me, n as int, vars@) == search(pts, me),
        invariant
            queue_pos < queue.len(),
            pts == rel_points(queue@, queue_pos as int, last_step_clock),
            me == max_error as int,
            search_setting(pts, me, n as int),
            run_fits(
                pts,
                me,
                search(pts, me).interval as int,
                search(pts, me).count as int,
                search(pts, me).add as int,
            ),
        ensures
            candidate_ok(pts, me, n as int, vars@),
            pick(vars@) == search(pts, me),
        decreases vars.max_add - vars.min_add,
    {
        let ghost st = vars@;
        proof {
            lemma_first_scan(pts, me, n as int, st);
            lemma_outer_step(pts, me, n as int, st);
        }
        let sc = scan_steps(
            queue,
            queue_pos,
            last_step_clock,
            max_error,
            n,
            vars.add,
            vars.outer_min,
            vars.outer_max,
        );
        assert(sc@ == first_scan(pts, me, n as int, st));
        if sc.exhausted {
            proof {
                if n == 1 {
                    assert(st.best_reach == NO_REACH);
                }
                lemma_min_point_after_prev(pts, me, 1);
                lemma_scanned_fits(pts, me, n as int, st, sc@);
                lemma_fit_first(pts, me, sc.interval as int, n as int, st.add);
            }
            return StepMove {
                interval: sc.interval as u32,
                count: n as u16,
                add: vars.add as i16,
            };
        }
        let (recorded, improved) = record_scan(vars, &sc);
        proof {
            lemma_record(pts, me, n as int, st, sc@);
        }
        vars = recorded;
        if improved && sc.next_count - 1 > EARLY_EXIT_STEPS {
            break;
        }
        let narrowed = narrow_vars(queue, queue_pos, last_step_clock, max_error, n, vars, &sc);
        if narrowed.min_add > narrowed.max_add {
            break;
        }
        vars = narrowed;
    }
    proof {
        lemma_fit_first(pts, me, vars@.best_interval, vars@.best_count, vars@.best_add);
        lemma_fit_first(pts, me, vars@.zero_interval, vars@.zero_count, 0);
    }
    if vars.zero_count + vars.zero_count / 16 >= vars.best_count {
        StepMove { interval: vars.zero_interval as u32, count: vars.zero_count as u16, add: 0 }
    } else {
        StepMove {
            interval: vars.best_interval as u32,
            count: vars.best_count as u16,
            add: vars.best_add as i16,
        }
    }
}

} // verus!
