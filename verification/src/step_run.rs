//! Geometry of a run: where its steps fall, and which queued steps it may stand for.

use vstd::prelude::*;
use crate::step_compressor::StepCompressError;
use crate::step_compressor::CLOCK_DIFF_MAX;

verus! {

/// Interval, count and increment of a candidate run.
#[derive(Debug, Clone, Copy, PartialEq, Eq, Structural)]
pub struct StepMove {
    pub interval: u32,
    pub count: u16,
    pub add: i16,
}

/// Earliest and latest tick, relative to the last emitted step, at which a
/// run may place one queued step.
#[derive(Debug, Clone, Copy, PartialEq, Eq, Structural)]
pub struct Points {
    pub minp: i64,
    pub maxp: i64,
}

/// The queued steps from `pos` on, as distances from `base`.
pub open spec fn rel_points(queue: Seq<u64>, pos: int, base: u64) -> Seq<int> {
    Seq::new((queue.len() - pos) as nat, |i: int| queue[pos + i] - base)
}

/// Largest distance that the arithmetic on windows takes.
pub const POINT_LIMIT: i64 = 0x3fff_ffff_ffff_ffff;

/// Distances that never decrease, from zero up to `POINT_LIMIT`.
pub open spec fn points_sorted(pts: Seq<int>) -> bool {
    &&& forall|i: int| 0 <= i < pts.len() ==> 0 <= #[trigger] pts[i] <= POINT_LIMIT
    &&& forall|i: int, j: int| 0 <= i <= j < pts.len() ==> pts[i] <= pts[j]
}

/// Distances that never decrease and stay in `[0, CLOCK_DIFF_MAX)`.
pub open spec fn points_ok(pts: Seq<int>) -> bool {
    &&& forall|i: int| 0 <= i < pts.len() ==> 0 <= #[trigger] pts[i] < CLOCK_DIFF_MAX
    &&& forall|i: int, j: int| 0 <= i <= j < pts.len() ==> pts[i] <= pts[j]
}

/// Distance of the step before step `k` (steps are numbered from 1).
pub open spec fn prev_point(pts: Seq<int>, k: int) -> int {
    if k <= 1 {
        0
    } else {
        pts[k - 2]
    }
}

/// How far before its own time step `k` may be placed.
pub open spec fn slack(pts: Seq<int>, max_error: int, k: int) -> int {
    let half = (pts[k - 1] - prev_point(pts, k)) / 2;
    if half > max_error {
        max_error
    } else {
        half
    }
}

pub open spec fn min_point(pts: Seq<int>, max_error: int, k: int) -> int {
    pts[k - 1] - slack(pts, max_error, k)
}

pub open spec fn max_point(pts: Seq<int>, k: int) -> int {
    pts[k - 1]
}

/// `0 + 1 + ... + (k - 1)`.
pub open spec fn add_factor(k: int) -> int {
    k * (k - 1) / 2
}

/// Tick, relative to the step before the run, of the run's step `k`.
pub open spec fn run_offset(interval: int, add: int, k: int) -> int {
    interval * k + add * add_factor(k)
}

/// Interval that leads to the run's step `k`.
pub open spec fn interval_at(interval: int, add: int, k: int) -> int {
    interval + add * (k - 1)
}

/// Step `k` of the run falls where queued step `k` allows.
pub open spec fn step_in_range(pts: Seq<int>, max_error: int, interval: int, add: int, k: int) -> bool {
    min_point(pts, max_error, k) <= run_offset(interval, add, k) <= max_point(pts, k)
}

/// Every step of the run falls where the queued step of the same number allows.
pub open spec fn run_fits(pts: Seq<int>, max_error: int, interval: int, count: int, add: int) -> bool {
    &&& 1 <= count <= pts.len()
    &&& forall|k: int| 1 <= k <= count ==> #[trigger] step_in_range(pts, max_error, interval, add, k)
}

pub proof fn lemma_add_factor_next(k: int)
    requires
        k >= 0,
    ensures
        add_factor(k + 1) == add_factor(k) + k,
        add_factor(k) >= 0,
        2 * add_factor(k) == k * (k - 1),
{
    assert((k + 1) * k == k * (k - 1) + 2 * k) by (nonlinear_arith);
    assert(k * (k - 1) >= 0) by (nonlinear_arith)
        requires
            k >= 0,
    ;
    lemma_consecutive_even(k);
}

/// The product of two neighbours is even.
pub proof fn lemma_consecutive_even(k: int)
    requires
        k >= 0,
    ensures
        (k * (k - 1)) % 2 == 0,
        ((k + 1) * k) % 2 == 0,
    decreases k,
{
    if k == 0 {
        assert(0 * (0 - 1) == 0) by (nonlinear_arith);
        assert((0 + 1) * 0 == 0) by (nonlinear_arith);
    } else {
        lemma_consecutive_even(k - 1);
        assert(k * (k - 1) == (k - 1 + 1) * (k - 1)) by (nonlinear_arith);
        assert((k + 1) * k == k * (k - 1) + 2 * k) by (nonlinear_arith);
    }
}

pub proof fn lemma_run_offset_next(interval: int, add: int, k: int)
    requires
        k >= 0,
    ensures
        run_offset(interval, add, k + 1) == run_offset(interval, add, k) + interval_at(
            interval,
            add,
            k + 1,
        ),
{
    lemma_add_factor_next(k);
    let f = add_factor(k);
    assert(interval * (k + 1) + add * (f + k) == interval * k + add * f + (interval + add * k))
        by (nonlinear_arith);
}

/// A later step may not be placed before an earlier one's own time.
pub proof fn lemma_min_point_after_prev(pts: Seq<int>, max_error: int, k: int)
    requires
        points_sorted(pts),
        max_error >= 0,
        1 <= k <= pts.len(),
    ensures
        prev_point(pts, k) <= min_point(pts, max_error, k) <= max_point(pts, k),
        0 <= min_point(pts, max_error, k),
        max_point(pts, k) <= POINT_LIMIT,
        points_ok(pts) ==> max_point(pts, k) < CLOCK_DIFF_MAX,
        k >= 2 ==> max_point(pts, k - 1) <= min_point(pts, max_error, k),
{
    let p = pts[k - 1];
    let q = prev_point(pts, k);
    if k >= 2 {
        assert(pts[k - 2] <= pts[k - 1]);
        assert(0 <= pts[k - 2]);
    }
    assert(0 <= q <= p);
}

/// The window a run may use for the queued step at `idx`.
pub fn minmax_point(
    queue: &Vec<u64>,
    queue_pos: usize,
    idx: usize,
    last_step_clock: u64,
    max_error: u32,
) -> (pt: Points)
    requires
        queue_pos <= idx < queue.len(),
        points_sorted(rel_points(queue@, queue_pos as int, last_step_clock)),
    ensures
        pt.minp == min_point(
            rel_points(queue@, queue_pos as int, last_step_clock),
            max_error as int,
            idx - queue_pos + 1,
        ),
        pt.maxp == max_point(
            rel_points(queue@, queue_pos as int, last_step_clock),
            idx - queue_pos + 1,
        ),
{
    let ghost pts = rel_points(queue@, queue_pos as int, last_step_clock);
    proof {
        assert(pts[idx - queue_pos] == queue@[idx as int] - last_step_clock);
        if idx > queue_pos {
            assert(pts[idx - queue_pos - 1] == queue@[idx - 1] - last_step_clock);
            assert(pts[idx - queue_pos - 1] <= pts[idx - queue_pos]);
        }
    }
    let point: i64 = (queue[idx] - last_step_clock) as i64;
    let prevpoint: i64 = if idx > queue_pos {
        (queue[idx - 1] - last_step_clock) as i64
    } else {
        0
    };
    let mut slack: i64 = (point - prevpoint) / 2;
    if slack > max_error as i64 {
        slack = max_error as i64;
    }
    Points { minp: point - slack, maxp: point }
}

/// A run that no stepper can execute, whatever the queue holds.
pub open spec fn invalid_sequence(mv: StepMove) -> bool {
    mv.count == 0 || (mv.interval == 0 && mv.add == 0 && mv.count > 1) || mv.interval
        >= 0x8000_0000u32
}

/// Fault of the first step from `k` on that falls outside its window or
/// follows an interval of 2^31 ticks or more.
pub open spec fn first_fault(pts: Seq<int>, max_error: int, mv: StepMove, k: int) -> Result<
    (),
    StepCompressError,
>
    decreases mv.count - k + 1,
{
    if k < 1 || k > mv.count {
        Ok(())
    } else if !step_in_range(pts, max_error, mv.interval as int, mv.add as int, k) {
        Err(
            StepCompressError::PointOutOfRange {
                index: k as u16,
                value: run_offset(mv.interval as int, mv.add as int, k) as i64,
                min: min_point(pts, max_error, k) as i64,
                max: max_point(pts, k) as i64,
                interval: mv.interval,
                count: mv.count,
                add: mv.add,
            },
        )
    } else if interval_at(mv.interval as int, mv.add as int, k) >= 0x8000_0000 {
        Err(
            StepCompressError::IntervalOverflow {
                index: k as u16,
                interval: mv.interval,
                count: mv.count,
                add: mv.add,
            },
        )
    } else {
        first_fault(pts, max_error, mv, k + 1)
    }
}

/// Verdict on a candidate run held against the queued steps it would replace.
pub open spec fn check_line_result(pts: Seq<int>, max_error: int, mv: StepMove) -> Result<
    (),
    StepCompressError,
> {
    if invalid_sequence(mv) {
        Err(
            StepCompressError::InvalidSequence {
                interval: mv.interval,
                count: mv.count,
                add: mv.add,
            },
        )
    } else {
        first_fault(pts, max_error, mv, 1)
    }
}

/// No fault from `k` on means that every step from `k` on is in its window
/// after an interval below 2^31.
pub proof fn lemma_first_fault_ok(pts: Seq<int>, max_error: int, mv: StepMove, k: int)
    requires
        k >= 1,
    ensures
        first_fault(pts, max_error, mv, k).is_ok() <==> (forall|j: int|
            k <= j <= mv.count ==> #[trigger] step_in_range(
                pts,
                max_error,
                mv.interval as int,
                mv.add as int,
                j,
            ) && interval_at(mv.interval as int, mv.add as int, j) < 0x8000_0000),
    decreases mv.count - k + 1,
{
    if k > mv.count {
    } else {
        lemma_first_fault_ok(pts, max_error, mv, k + 1);
        if step_in_range(pts, max_error, mv.interval as int, mv.add as int, k) && interval_at(
            mv.interval as int,
            mv.add as int,
            k,
        ) < 0x8000_0000 {
            if first_fault(pts, max_error, mv, k + 1).is_ok() {
                assert forall|j: int| k <= j <= mv.count implies #[trigger] step_in_range(
                    pts,
                    max_error,
                    mv.interval as int,
                    mv.add as int,
                    j,
                ) && interval_at(mv.interval as int, mv.add as int, j) < 0x8000_0000 by {
                    if j > k {
                    }
                }
            }
        } else {
            assert(!first_fault(pts, max_error, mv, k).is_ok());
        }
    }
}

/// Holds a candidate run against the queued steps from `queue_pos` on.
pub fn check_line(
    queue: &Vec<u64>,
    queue_pos: usize,
    last_step_clock: u64,
    max_error: u32,
    mv: StepMove,
) -> (r: Result<(), StepCompressError>)
    requires
        queue_pos <= queue.len(),
        mv.count <= queue.len() - queue_pos,
        points_sorted(rel_points(queue@, queue_pos as int, last_step_clock)),
    ensures
        r == check_line_result(
            rel_points(queue@, queue_pos as int, last_step_clock),
            max_error as int,
            mv,
        ),
{
    if mv.count == 0 || (mv.interval == 0 && mv.add == 0 && mv.count > 1) || mv.interval
        >= 0x8000_0000 {
        return Err(
            StepCompressError::InvalidSequence {
                interval: mv.interval,
                count: mv.count,
                add: mv.add,
            },
        );
    }
    let ghost pts = rel_points(queue@, queue_pos as int, last_step_clock);
    let mut interval: i64 = mv.interval as i64;
    let mut p: i64 = 0;
    let mut i: u16 = 0;
    proof {
        assert(add_factor(0) == 0) by (nonlinear_arith);
        assert(run_offset(mv.interval as int, mv.add as int, 0) == 0) by (nonlinear_arith)
            requires
                add_factor(0) == 0,
        ;
    }
    while i < mv.count
        invariant
            i <= mv.count,
            !invalid_sequence(mv),
            queue_pos <= queue.len(),
            mv.count <= queue.len() - queue_pos,
            pts == rel_points(queue@, queue_pos as int, last_step_clock),
            points_sorted(pts),
            p == run_offset(mv.interval as int, mv.add as int, i as int),
            interval == interval_at(mv.interval as int, mv.add as int, i + 1),
            i > 0 ==> 0 <= p <= POINT_LIMIT,
            first_fault(pts, max_error as int, mv, i + 1) == first_fault(
                pts,
                max_error as int,
                mv,
                1,
            ),
        decreases mv.count - i,
    {
        let point = minmax_point(queue, queue_pos, queue_pos + i as usize, last_step_clock, max_error);
        proof {
            lemma_run_offset_next(mv.interval as int, mv.add as int, i as int);
            lemma_min_point_after_prev(pts, max_error as int, i + 1);
            assert(-0x8000 * 0x1_0000 <= mv.add * i <= 0x8000 * 0x1_0000) by (nonlinear_arith)
                requires
                    -0x8000 <= mv.add < 0x8000,
                    0 <= i < 0x1_0000,
            ;
        }
        p = p + interval;
        if p < point.minp || p > point.maxp {
            return Err(
                StepCompressError::PointOutOfRange {
                    index: i + 1,
                    value: p,
                    min: point.minp,
                    max: point.maxp,
                    interval: mv.interval,
                    count: mv.count,
                    add: mv.add,
                },
            );
        }
        if interval >= 0x8000_0000 {
            return Err(
                StepCompressError::IntervalOverflow {
                    index: i + 1,
                    interval: mv.interval,
                    count: mv.count,
                    add: mv.add,
                },
            );
        }
        proof {
            assert(mv.add * (i + 1) == mv.add * i + mv.add) by (nonlinear_arith);
        }
        interval = interval + mv.add as i64;
        i = i + 1;
    }
    Ok(())
}

} // verus!
