//! Step compression: fuses step clocks into arithmetic-progression runs.

use vstd::prelude::*;
use std::collections::VecDeque;
use crate::bisect::{
    compress_bisect_add, lemma_fit_first, lemma_fit_reach, lemma_search_fits, search,
    MAX_RUN_STEPS,
};
use crate::step_run::{
    add_factor, check_line, check_line_result, lemma_add_factor_next, lemma_min_point_after_prev,
    lemma_run_offset_next, points_ok, rel_points, run_fits, run_offset, step_in_range, StepMove,
};

verus! {

/// Largest distance, in ticks, between the last emitted step and a queued one.
pub const CLOCK_DIFF_MAX: u64 = 805306368;

/// Why a candidate run was refused.
#[derive(Debug, Clone, Copy, PartialEq, Eq, Structural)]
pub enum StepCompressError {
    InvalidSequence { interval: u32, count: u16, add: i16 },
    PointOutOfRange {
        index: u16,
        value: i64,
        min: i64,
        max: i64,
        interval: u32,
        count: u16,
        add: i16,
    },
    IntervalOverflow { index: u16, interval: u32, count: u16, add: i16 },
}

/// A run of `count` steps: the first `interval` ticks after the previous step,
/// each following interval longer by `add`.
#[derive(Debug, Clone, Copy, PartialEq, Eq, Structural)]
pub struct QueueStep {
    pub oid: u32,
    pub first_clock: u64,
    pub last_clock: u64,
    pub interval: u32,
    pub count: u16,
    pub add: i16,
    pub req_clock: u64,
    pub min_clock: u64,
}

/// Direction for the runs that follow.
#[derive(Debug, Clone, Copy, PartialEq, Eq, Structural)]
pub struct SetNextStepDir {
    pub oid: u32,
    pub dir: bool,
    pub req_clock: u64,
}

#[derive(Debug, Clone, Copy, PartialEq, Eq, Structural)]
pub enum Command {
    QueueStep(QueueStep),
    SetNextStepDir(SetNextStepDir),
}

/// One emitted run as kept for position queries.
#[derive(Debug, Clone, Copy, PartialEq, Eq, Structural)]
pub struct PullHistoryStep {
    pub first_clock: u64,
    pub last_clock: u64,
    pub start_position: i64,
    pub step_count: i32,
    pub interval: u32,
    pub add: i16,
}

/// Where emitted commands go.
pub trait CommandSink {
    /// Everything pushed so far, oldest first.
    spec fn commands(&self) -> Seq<Command>;

    fn push(&mut self, command: Command)
        ensures
            final(self).commands() == old(self).commands().push(command),
    ;
}

/// A sink that keeps every command.
#[derive(Debug)]
pub struct RecordingSink {
    pub commands: Vec<Command>,
}

impl CommandSink for RecordingSink {
    open spec fn commands(&self) -> Seq<Command> {
        self.commands@
    }

    fn push(&mut self, command: Command) {
        self.commands.push(command);
    }
}

impl Default for RecordingSink {
    fn default() -> (sink: Self)
        ensures
            sink.commands@ == Seq::<Command>::empty(),
    {
        RecordingSink { commands: Vec::new() }
    }
}

/// The one step that may still be taken back.
#[derive(Debug, Clone, Copy, PartialEq, Eq, Structural)]
pub enum PendingStep {
    Idle,
    Pending { clock: u64, dir: i32 },
}

/// Outcome of an operation on the model: the state it leaves and its verdict.
pub struct Flushed {
    pub model: ScModel,
    pub result: Result<(), StepCompressError>,
}

/// Steps queued beyond this number are flushed before another is queued.
pub const QUEUE_WINDOW: usize = 67535;

/// A compressor's state as mathematics.
pub struct ScModel {
    pub oid: u32,
    pub max_error: u32,
    /// Time, in nanoseconds, at which the clock reads zero.
    pub mcu_time_offset: i64,
    /// Ticks of the clock per second.
    pub mcu_freq: u64,
    pub last_step_clock: u64,
    /// Direction of the runs being emitted: 1, 0, or -1 while none is set.
    pub sdir: i32,
    pub invert_sdir: bool,
    pub pending: PendingStep,
    /// Clocks of the committed steps that no run stands for yet.
    pub steps: Seq<u64>,
    pub last_position: i64,
    /// Emitted runs, newest first.
    pub history: Seq<PullHistoryStep>,
    pub emitted: Seq<Command>,
}

/// A recorded run stands for at most `MAX_RUN_STEPS` steps and ends at a position
/// that 64 bits hold.
pub open spec fn entry_ok(e: PullHistoryStep) -> bool {
    &&& -(MAX_RUN_STEPS as int) <= e.step_count <= MAX_RUN_STEPS
    &&& i64::MIN <= e.start_position + e.step_count <= i64::MAX
}

/// Ticks from a run's first step to its last.
pub open spec fn tail_ticks(mv: StepMove) -> int {
    mv.add * add_factor(mv.count as int) + mv.interval * (mv.count - 1)
}

impl ScModel {
    /// The queued steps as distances from the last emitted step.
    pub open spec fn points(self) -> Seq<int> {
        rel_points(self.steps, 0, self.last_step_clock)
    }

    /// Steps taken in and not yet emitted.
    pub open spec fn queued(self) -> int {
        self.steps.len() + if self.pending is Pending {
            1int
        } else {
            0int
        }
    }

    /// Clock of the newest committed step.
    pub open spec fn newest_clock(self) -> u64 {
        if self.steps.len() > 0 {
            self.steps.last()
        } else {
            self.last_step_clock
        }
    }

    pub open spec fn wf(self) -> bool {
        &&& self.sdir == -1 || self.sdir == 0 || self.sdir == 1
        &&& points_ok(self.points())
        &&& self.newest_clock() < u64::MAX || self.steps.len() == 0
        &&& match self.pending {
            PendingStep::Pending { clock, dir } => (dir == 0 || dir == 1) && self.newest_clock()
                <= clock < u64::MAX,
            PendingStep::Idle => true,
        }
        &&& self.room(0)
        &&& forall|i: int| 0 <= i < self.history.len() ==> entry_ok(#[trigger] self.history[i])
    }

    /// The state after the run `mv`, whose first step is at `first_clock`,
    /// went out; the queue is left as it was.
    pub open spec fn emit_run(self, first_clock: u64, mv: StepMove) -> ScModel {
        let last_clock = (first_clock + tail_ticks(mv)) as u64;
        let far = mv.count == 1 && first_clock - self.last_step_clock >= CLOCK_DIFF_MAX;
        let step_count = if self.sdir != 0 {
            mv.count as i32
        } else {
            (-(mv.count as int)) as i32
        };
        ScModel {
            last_step_clock: last_clock,
            last_position: (self.last_position + step_count) as i64,
            history: seq![
                PullHistoryStep {
                    first_clock,
                    last_clock,
                    start_position: self.last_position,
                    step_count,
                    interval: mv.interval,
                    add: mv.add,
                },
            ] + self.history,
            emitted: self.emitted.push(
                Command::QueueStep(
                    QueueStep {
                        oid: self.oid,
                        first_clock,
                        last_clock,
                        interval: mv.interval,
                        count: mv.count,
                        add: mv.add,
                        req_clock: if far {
                            first_clock
                        } else {
                            self.last_step_clock
                        },
                        min_clock: self.last_step_clock,
                    },
                ),
            ),
            ..self
        }
    }

    /// The run chosen for the head of the queue.
    pub open spec fn next_run(self) -> StepMove {
        search(self.points(), self.max_error as int)
    }

    /// The state after the run `mv` replaced the steps at the head of the queue.
    pub open spec fn take_run(self, mv: StepMove) -> ScModel {
        let first_clock = (self.last_step_clock + mv.interval) as u64;
        ScModel { steps: self.steps.skip(mv.count as int), ..self.emit_run(first_clock, mv) }
    }

    /// Turns queued steps into runs until the last emitted step is at or
    /// after `move_clock`, the queue is empty, or a run is refused.
    pub open spec fn queue_flush(self, move_clock: u64) -> Flushed
        decreases self.steps.len(),
    {
        if self.steps.len() == 0 || self.last_step_clock >= move_clock {
            Flushed { model: self, result: Ok(()) }
        } else {
            let mv = self.next_run();
            match check_line_result(self.points(), self.max_error as int, mv) {
                Err(e) => Flushed { model: self, result: Err(e) },
                Ok(_) => {
                    if mv.count >= self.steps.len() {
                        Flushed {
                            model: ScModel { steps: Seq::empty(), ..self.take_run(mv) },
                            result: Ok(()),
                        }
                    } else {
                        self.take_run(mv).queue_flush(move_clock)
                    }
                },
            }
        }
    }

    /// Room for `extra` more steps before the position leaves 64 bits.
    pub open spec fn room(self, extra: int) -> bool {
        &&& i64::MIN <= self.last_position - self.queued() - extra
        &&& self.last_position + self.queued() + extra <= i64::MAX
    }

    /// The direction bit that stands for `sdir` on the wire.
    pub open spec fn dir_bit(self, sdir: i32) -> bool {
        (sdir != 0) != self.invert_sdir
    }

    /// Makes `sdir` the direction of the runs that follow: where it differs
    /// from the current one, everything queued goes out first, then the
    /// direction command.
    pub open spec fn set_next_step_dir(self, sdir: i32) -> Flushed {
        if self.sdir == sdir {
            Flushed { model: self, result: Ok(()) }
        } else {
            let f = self.queue_flush(u64::MAX);
            if f.result is Err {
                f
            } else {
                Flushed {
                    model: ScModel {
                        sdir,
                        emitted: f.model.emitted.push(
                            Command::SetNextStepDir(
                                SetNextStepDir {
                                    oid: self.oid,
                                    dir: self.dir_bit(sdir),
                                    req_clock: f.model.last_step_clock,
                                },
                            ),
                        ),
                        ..f.model
                    },
                    result: Ok(()),
                }
            }
        }
    }

    /// Queues the step at `clock`, after a flush that keeps the queue
    /// within its window.
    pub open spec fn queue_push(self, clock: u64) -> Flushed {
        let f = if self.steps.len() > QUEUE_WINDOW {
            self.queue_flush(self.steps[self.steps.len() - MAX_RUN_STEPS])
        } else {
            Flushed { model: self, result: Ok(()) }
        };
        if f.result is Err {
            f
        } else {
            Flushed {
                model: ScModel { steps: f.model.steps.push(clock), ..f.model },
                result: Ok(()),
            }
        }
    }

    /// Takes in a step that lies `CLOCK_DIFF_MAX` ticks or more after the
    /// last emitted one: the queue is flushed up to `CLOCK_DIFF_MAX` before
    /// the step, and the step goes out alone where it is still that far away.
    pub open spec fn queue_append_far(self, clock: u64) -> Flushed {
        let f = self.queue_flush((clock - CLOCK_DIFF_MAX + 1) as u64);
        if f.result is Err {
            f
        } else if clock - f.model.last_step_clock >= CLOCK_DIFF_MAX {
            Flushed {
                model: f.model.emit_run(clock, far_run(f.model.last_step_clock, clock)),
                result: Ok(()),
            }
        } else {
            Flushed {
                model: ScModel { steps: f.model.steps.push(clock), ..f.model },
                result: Ok(()),
            }
        }
    }

    /// Commits the pending step.
    pub open spec fn queue_append(self) -> Flushed {
        match self.pending {
            PendingStep::Idle => Flushed { model: self, result: Ok(()) },
            PendingStep::Pending { clock, dir } => {
                let f = self.set_next_step_dir(dir);
                if f.result is Err {
                    f
                } else {
                    let m = ScModel { pending: PendingStep::Idle, ..f.model };
                    if clock - m.last_step_clock >= CLOCK_DIFF_MAX {
                        m.queue_append_far(clock)
                    } else {
                        m.queue_push(clock)
                    }
                }
            },
        }
    }

    /// Takes in the step at `step_clock` in direction `sdir`. A pending
    /// step in the other direction less than `SDS_FILTER_MICROS` before it
    /// is dropped together with the new one; any other pending step is
    /// committed and the new one becomes pending.
    pub open spec fn append(self, sdir: i32, step_clock: u64) -> Flushed {
        match self.pending {
            PendingStep::Idle => Flushed {
                model: ScModel {
                    pending: PendingStep::Pending { clock: step_clock, dir: sdir },
                    ..self
                },
                result: Ok(()),
            },
            PendingStep::Pending { clock, dir } => {
                if sdir != dir && sds_close(step_clock - clock, self.mcu_freq) {
                    Flushed {
                        model: ScModel { pending: PendingStep::Idle, ..self },
                        result: Ok(()),
                    }
                } else {
                    let f = self.queue_append();
                    if f.result is Err {
                        f
                    } else {
                        Flushed {
                            model: ScModel {
                                pending: PendingStep::Pending { clock: step_clock, dir: sdir },
                                ..f.model
                            },
                            result: Ok(()),
                        }
                    }
                }
            },
        }
    }

    /// The clock of the step that is found `step_time` nanoseconds into a
    /// segment that starts at `print_time`.
    pub open spec fn clock_of(self, print_time: i64, step_time: i64) -> u64 {
        clock_at(self.last_step_clock, print_time + step_time, self.mcu_time_offset, self.mcu_freq)
    }

    /// Takes in the step found `step_time` nanoseconds into a segment that
    /// starts at `print_time`, in direction `sdir`.
    pub open spec fn append_at(self, sdir: i32, print_time: i64, step_time: i64) -> Flushed {
        self.append(sdir, self.clock_of(print_time, step_time))
    }

    /// Commits the pending step, if there is one.
    pub open spec fn commit(self) -> Flushed {
        if self.pending is Pending {
            self.queue_append()
        } else {
            Flushed { model: self, result: Ok(()) }
        }
    }

    /// Commits a pending step that is due by `move_clock`, then turns
    /// queued steps into runs up to `move_clock`.
    pub open spec fn flush(self, move_clock: u64) -> Flushed {
        match self.pending {
            PendingStep::Pending { clock, dir } if move_clock >= clock => {
                let f = self.queue_append();
                if f.result is Err {
                    f
                } else {
                    f.model.queue_flush(move_clock)
                }
            },
            _ => self.queue_flush(move_clock),
        }
    }
}

/// Two steps in opposite directions closer than this many microseconds
/// cancel each other.
pub const SDS_FILTER_MICROS: u64 = 750;

pub const NANOS_PER_SECOND: u64 = 1_000_000_000;

/// The clock that a time falls on: the ticks from `time_offset` to `time`
/// (both in nanoseconds) at `mcu_freq` ticks per second, rounded to the
/// nearest tick, a half upward; not before `last_step_clock`, and not
/// beyond 64 bits.
pub open spec fn clock_at(last_step_clock: u64, time: int, time_offset: i64, mcu_freq: u64) -> u64 {
    let ticks = ((time - time_offset) * mcu_freq + 500_000_000) / 1_000_000_000;
    if ticks <= last_step_clock {
        last_step_clock
    } else if ticks >= u64::MAX {
        u64::MAX
    } else {
        ticks as u64
    }
}

/// `ticks` at `mcu_freq` ticks per second are less than `SDS_FILTER_MICROS`.
pub open spec fn sds_close(ticks: int, mcu_freq: u64) -> bool {
    ticks * 1_000_000 < SDS_FILTER_MICROS * mcu_freq
}

/// The run that holds the one step at `clock`, far after `last_step_clock`.
/// The interval is the distance as far as 32 bits hold it.
pub open spec fn far_run(last_step_clock: u64, clock: u64) -> StepMove {
    StepMove { interval: ((clock - last_step_clock) % 0x1_0000_0000) as u32, count: 1, add: 0 }
}

/// The distances of the queued steps do not depend on what lies before them
/// in the buffer.
pub proof fn lemma_rel_points_skip(queue: Seq<u64>, pos: int, base: u64)
    requires
        0 <= pos <= queue.len(),
    ensures
        rel_points(queue, pos, base) == rel_points(queue.skip(pos), 0, base),
{
    assert(rel_points(queue, pos, base) =~= rel_points(queue.skip(pos), 0, base));
}

/// What follows when a run that fits replaces the head of the queue.
pub proof fn lemma_take_run(m: ScModel, mv: StepMove)
    requires
        m.wf(),
        run_fits(m.points(), m.max_error as int, mv.interval as int, mv.count as int, mv.add as int),
    ensures
        m.last_step_clock + mv.interval <= m.steps[0],
        0 <= tail_ticks(mv),
        mv.interval + tail_ticks(mv) == run_offset(
            mv.interval as int,
            mv.add as int,
            mv.count as int,
        ),
        m.last_step_clock + mv.interval + tail_ticks(mv) <= m.steps[mv.count - 1],
        m.take_run(mv).last_step_clock == m.last_step_clock + mv.interval + tail_ticks(mv),
        m.take_run(mv).wf(),
        (ScModel { steps: Seq::empty(), ..m.take_run(mv) }).wf(),
{
    let pts = m.points();
    let me = m.max_error as int;
    let i = mv.interval as int;
    let a = mv.add as int;
    let c = mv.count as int;
    lemma_fit_first(pts, me, i, c, a);
    lemma_min_point_after_prev(pts, me, c);
    assert(step_in_range(pts, me, i, a, c));
    assert(pts[0] == m.steps[0] - m.last_step_clock);
    assert(pts[c - 1] == m.steps[c - 1] - m.last_step_clock);
    assert(run_offset(i, a, c) == i + tail_ticks(mv)) by (nonlinear_arith)
        requires
            run_offset(i, a, c) == i * c + a * add_factor(c),
            tail_ticks(mv) == a * add_factor(c) + i * (c - 1),
    ;
    if c >= 2 {
        lemma_fit_reach(pts, me, i, c, a);
    } else {
        assert(add_factor(1) == 0) by (nonlinear_arith);
        assert(a * 0 + i * (1 - 1) == 0) by (nonlinear_arith);
    }
    let off = run_offset(i, a, c);
    let t = m.take_run(mv);
    assert(t.last_step_clock == m.last_step_clock + off);
    let tp = t.points();
    assert forall|j: int| 0 <= j < tp.len() implies 0 <= #[trigger] tp[j] < CLOCK_DIFF_MAX by {
        assert(tp[j] == pts[c + j] - off);
        assert(pts[c - 1] <= pts[c + j]);
    }
    assert forall|j: int, k: int| 0 <= j <= k < tp.len() implies tp[j] <= tp[k] by {
        assert(tp[j] == pts[c + j] - off);
        assert(tp[k] == pts[c + k] - off);
        assert(pts[c + j] <= pts[c + k]);
    }
    assert(points_ok(tp));
    if t.steps.len() > 0 {
        assert(t.steps.last() == m.steps.last());
    } else {
        assert(pts[c - 1] <= pts[pts.len() - 1]);
    }
    let e = ScModel { steps: Seq::empty(), ..t };
    assert(e.points() =~= Seq::<int>::empty());
    assert(pts[c - 1] <= pts[pts.len() - 1]);
}

/// `b` begins with `a`.
pub open spec fn extends<T>(b: Seq<T>, a: Seq<T>) -> bool {
    &&& a.len() <= b.len()
    &&& forall|i: int| 0 <= i < a.len() ==> b[i] == a[i]
}

impl ScModel {
    /// The clock that the next step may not lie before.
    pub open spec fn latest_clock(self) -> u64 {
        match self.pending {
            PendingStep::Pending { clock, dir } => clock,
            PendingStep::Idle => self.newest_clock(),
        }
    }

    /// `self` differs from `from` only in what emitting runs changes.
    pub open spec fn same_setup(self, from: ScModel) -> bool {
        &&& self.oid == from.oid
        &&& self.max_error == from.max_error
        &&& self.mcu_time_offset == from.mcu_time_offset
        &&& self.mcu_freq == from.mcu_freq
        &&& self.sdir == from.sdir
        &&& self.invert_sdir == from.invert_sdir
        &&& self.pending == from.pending
    }
}

/// What a flush of the queue keeps and what it reaches.
pub proof fn lemma_queue_flush(m: ScModel, move_clock: u64, extra: int)
    requires
        m.wf(),
        extra >= 0,
        m.room(extra),
    ensures
        ({
            let f = m.queue_flush(move_clock);
            &&& f.model.wf()
            &&& f.model.room(extra)
            &&& f.result is Ok ==> f.model.steps.len() == 0 || f.model.last_step_clock
                >= move_clock
            &&& f.model.same_setup(m)
            &&& m.last_step_clock <= f.model.last_step_clock <= m.newest_clock()
            &&& f.model.newest_clock() <= m.newest_clock()
            &&& f.model.steps.len() > 0 ==> f.model.newest_clock() == m.newest_clock()
            &&& extends(f.model.emitted, m.emitted)
        }),
    decreases m.steps.len(),
{
    let pts = m.points();
    if m.steps.len() > 0 {
        assert(pts[pts.len() - 1] == m.steps.last() - m.last_step_clock);
    }
    if m.steps.len() == 0 || m.last_step_clock >= move_clock {
    } else {
        let mv = m.next_run();
        if check_line_result(pts, m.max_error as int, mv) is Ok {
            lemma_search_fits(pts, m.max_error as int);
            lemma_take_run(m, mv);
            let t = m.take_run(mv);
            assert(pts[mv.count - 1] == m.steps[mv.count - 1] - m.last_step_clock);
            assert(pts[mv.count - 1] <= pts[pts.len() - 1]);
            if mv.count >= m.steps.len() {
                let e = ScModel { steps: Seq::empty(), ..t };
                assert(e.room(extra));
                assert(extends(e.emitted, m.emitted));
            } else {
                assert(t.steps.last() == m.steps.last());
                assert(t.room(extra));
                lemma_queue_flush(t, move_clock, extra);
                let f = t.queue_flush(move_clock);
                assert(extends(t.emitted, m.emitted));
                assert(extends(f.model.emitted, m.emitted));
            }
        }
    }
}

/// The newest committed step lies within reach of the last emitted one.
pub proof fn lemma_newest(m: ScModel)
    requires
        m.wf(),
    ensures
        m.last_step_clock <= m.newest_clock(),
        m.newest_clock() - m.last_step_clock < CLOCK_DIFF_MAX,
        m.newest_clock() <= m.latest_clock(),
{
    let pts = m.points();
    if pts.len() > 0 {
        assert(pts[pts.len() - 1] == m.steps.last() - m.last_step_clock);
    }
}

/// Queueing a step that is in order and within reach keeps the state well formed.
pub proof fn lemma_push(m: ScModel, clock: u64, extra: int)
    requires
        m.wf(),
        m.pending is Idle,
        extra >= 0,
        m.room(extra + 1),
        m.newest_clock() <= clock < u64::MAX,
        clock - m.last_step_clock < CLOCK_DIFF_MAX,
    ensures
        (ScModel { steps: m.steps.push(clock), ..m }).wf(),
        (ScModel { steps: m.steps.push(clock), ..m }).room(extra),
        (ScModel { steps: m.steps.push(clock), ..m }).newest_clock() == clock,
{
    lemma_newest(m);
    let r = ScModel { steps: m.steps.push(clock), ..m };
    let pts = r.points();
    let old_pts = m.points();
    assert(pts[old_pts.len() as int] == clock - m.last_step_clock);
    assert forall|i: int| 0 <= i < pts.len() implies 0 <= #[trigger] pts[i] < CLOCK_DIFF_MAX by {
        if i < old_pts.len() {
            assert(pts[i] == old_pts[i]);
        }
    }
    assert forall|i: int, j: int| 0 <= i <= j < pts.len() implies pts[i] <= pts[j] by {
        if j < old_pts.len() {
            assert(pts[i] == old_pts[i]);
            assert(pts[j] == old_pts[j]);
        } else if i < old_pts.len() {
            assert(pts[i] == old_pts[i]);
            assert(old_pts[i] <= old_pts[old_pts.len() - 1]);
            assert(old_pts[old_pts.len() - 1] == m.steps.last() - m.last_step_clock);
        }
    }
}

pub proof fn lemma_set_next_step_dir(m: ScModel, sdir: i32, extra: int)
    requires
        m.wf(),
        sdir == 0 || sdir == 1,
        extra >= 0,
        m.room(extra),
    ensures
        ({
            let f = m.set_next_step_dir(sdir);
            &&& f.model.wf()
            &&& f.model.room(extra)
            &&& f.model.pending == m.pending
            &&& f.result is Ok ==> f.model.sdir == sdir
            &&& m.last_step_clock <= f.model.last_step_clock <= m.newest_clock()
            &&& f.model.newest_clock() <= m.newest_clock()
            &&& f.model.steps.len() > 0 ==> f.model.newest_clock() == m.newest_clock()
            &&& extends(f.model.emitted, m.emitted)
            &&& f.model.oid == m.oid && f.model.max_error == m.max_error && f.model.mcu_freq
                == m.mcu_freq && f.model.invert_sdir == m.invert_sdir
        }),
{
    lemma_newest(m);
    if m.sdir != sdir {
        lemma_queue_flush(m, u64::MAX, extra);
        let f = m.queue_flush(u64::MAX);
        if f.result is Ok {
            let r = m.set_next_step_dir(sdir).model;
            assert(r.points() == f.model.points());
            assert(extends(r.emitted, m.emitted));
        }
    }
}

pub proof fn lemma_queue_push(m: ScModel, clock: u64, extra: int)
    requires
        m.wf(),
        m.pending is Idle,
        extra >= 0,
        m.room(extra + 1),
        m.newest_clock() <= clock < u64::MAX,
        clock - m.last_step_clock < CLOCK_DIFF_MAX,
    ensures
        ({
            let f = m.queue_push(clock);
            &&& f.model.wf()
            &&& f.result is Ok ==> f.model.room(extra)
            &&& f.model.pending is Idle
            &&& f.result is Ok ==> f.model.newest_clock() == clock
            &&& extends(f.model.emitted, m.emitted)
            &&& f.model.sdir == m.sdir
        }),
{
    lemma_newest(m);
    if m.steps.len() > QUEUE_WINDOW {
        let target = m.steps[m.steps.len() - MAX_RUN_STEPS];
        lemma_queue_flush(m, target, extra + 1);
        let f = m.queue_flush(target);
        if f.result is Ok {
            lemma_push(f.model, clock, extra);
        }
    } else {
        lemma_push(m, clock, extra);
    }
}

pub proof fn lemma_queue_append_far(m: ScModel, clock: u64, extra: int)
    requires
        m.wf(),
        m.pending is Idle,
        extra >= 0,
        m.room(extra + 1),
        m.newest_clock() <= clock < u64::MAX,
        clock - m.last_step_clock >= CLOCK_DIFF_MAX,
    ensures
        ({
            let f = m.queue_append_far(clock);
            &&& f.model.wf()
            &&& f.result is Ok ==> f.model.room(extra)
            &&& f.model.pending is Idle
            &&& f.result is Ok ==> f.model.newest_clock() == clock
            &&& extends(f.model.emitted, m.emitted)
            &&& f.model.sdir == m.sdir
        }),
{
    lemma_newest(m);
    let target = (clock - CLOCK_DIFF_MAX + 1) as u64;
    lemma_queue_flush(m, target, extra + 1);
    let f = m.queue_flush(target);
    if f.result is Ok {
        if clock - f.model.last_step_clock >= CLOCK_DIFF_MAX {
            assert(f.model.steps.len() == 0);
            let mv = far_run(f.model.last_step_clock, clock);
            lemma_far_run(mv);
            let r = f.model.emit_run(clock, mv);
            assert(r.points() =~= Seq::<int>::empty());
            assert(extends(r.emitted, m.emitted));
        } else {
            lemma_push(f.model, clock, extra);
        }
    }
}

/// A run of one step ends where it starts.
pub proof fn lemma_far_run(mv: StepMove)
    requires
        mv.count == 1,
    ensures
        tail_ticks(mv) == 0,
{
    assert(add_factor(1) == 0) by (nonlinear_arith);
    assert(mv.add * 0 + mv.interval * (1 - 1) == 0) by (nonlinear_arith);
}

pub proof fn lemma_queue_append(m: ScModel, extra: int)
    requires
        m.wf(),
        extra >= 0,
        m.room(extra),
    ensures
        ({
            let f = m.queue_append();
            &&& f.model.wf()
            &&& f.result is Ok ==> f.model.pending is Idle
            &&& f.result is Ok ==> f.model.room(extra)
            &&& f.result is Ok ==> f.model.newest_clock() == m.latest_clock()
            &&& f.result is Ok && m.pending is Pending ==> f.model.sdir == m.pending->dir
            &&& m.pending is Idle ==> f.model == m
            &&& extends(f.model.emitted, m.emitted)
        }),
{
    lemma_newest(m);
    match m.pending {
        PendingStep::Idle => {},
        PendingStep::Pending { clock, dir } => {
            lemma_set_next_step_dir(m, dir, extra);
            let f = m.set_next_step_dir(dir);
            if f.result is Ok {
                let i = ScModel { pending: PendingStep::Idle, ..f.model };
                assert(i.points() == f.model.points());
                assert(i.wf());
                assert(i.room(extra + 1));
                lemma_newest(i);
                assert(extends(i.emitted, m.emitted));
                if clock - i.last_step_clock >= CLOCK_DIFF_MAX {
                    lemma_queue_append_far(i, clock, extra);
                    let g = i.queue_append_far(clock);
                    assert(extends(g.model.emitted, m.emitted));
                } else {
                    lemma_queue_push(i, clock, extra);
                    let g = i.queue_push(clock);
                    assert(extends(g.model.emitted, m.emitted));
                }
            }
        },
    }
}

pub proof fn lemma_flush(m: ScModel, move_clock: u64, extra: int)
    requires
        m.wf(),
        extra >= 0,
        m.room(extra),
    ensures
        ({
            let f = m.flush(move_clock);
            &&& f.model.wf()
            &&& f.result is Ok ==> f.model.room(extra)
            &&& extends(f.model.emitted, m.emitted)
            &&& f.result is Ok ==> f.model.steps.len() == 0 || f.model.last_step_clock
                >= move_clock
            &&& f.result is Ok ==> (match f.model.pending {
                PendingStep::Pending { clock, dir } => clock > move_clock,
                PendingStep::Idle => true,
            })
            &&& f.result is Ok && move_clock == u64::MAX ==> f.model.queued() == 0
        }),
{
    lemma_newest(m);
    let due = match m.pending {
        PendingStep::Pending { clock, dir } => move_clock >= clock,
        PendingStep::Idle => false,
    };
    if due {
        lemma_queue_append(m, extra);
        let f = m.queue_append();
        if f.result is Ok {
            lemma_queue_flush(f.model, move_clock, extra);
            let g = f.model.queue_flush(move_clock);
            lemma_newest(g.model);
            assert(extends(g.model.emitted, m.emitted));
        }
    } else {
        lemma_queue_flush(m, move_clock, extra);
        lemma_newest(m.queue_flush(move_clock).model);
    }
}

/// Steps of a run of `limit` steps that lie at or before `ticks`, counted
/// from the run's first interval: the last step that does.
pub open spec fn steps_within(interval: int, add: int, ticks: int, limit: int) -> int
    decreases limit,
{
    if limit <= 0 {
        0
    } else if run_offset(interval, add, limit) <= ticks {
        limit
    } else {
        steps_within(interval, add, ticks, limit - 1)
    }
}

/// The count that `steps_within` gives is the number of the last step of
/// the run that lies at or before `ticks`: that step does, and no later one.
pub proof fn lemma_steps_within(interval: int, add: int, ticks: int, limit: int, later: int)
    requires
        steps_within(interval, add, ticks, limit) < later <= limit,
    ensures
        0 <= steps_within(interval, add, ticks, limit) <= limit,
        steps_within(interval, add, ticks, limit) >= 1 ==> run_offset(
            interval,
            add,
            steps_within(interval, add, ticks, limit),
        ) <= ticks,
        run_offset(interval, add, later) > ticks,
    decreases limit,
{
    if limit <= 0 {
    } else if run_offset(interval, add, limit) <= ticks {
    } else if later < limit {
        lemma_steps_within(interval, add, ticks, limit - 1, later);
    } else {
        lemma_steps_within_range(interval, add, ticks, limit - 1);
    }
}

pub proof fn lemma_steps_within_range(interval: int, add: int, ticks: int, limit: int)
    ensures
        0 <= steps_within(interval, add, ticks, limit),
        limit >= 0 ==> steps_within(interval, add, ticks, limit) <= limit,
        steps_within(interval, add, ticks, limit) >= 1 ==> run_offset(
            interval,
            add,
            steps_within(interval, add, ticks, limit),
        ) <= ticks,
    decreases limit,
{
    if limit <= 0 {
    } else if run_offset(interval, add, limit) <= ticks {
    } else {
        lemma_steps_within_range(interval, add, ticks, limit - 1);
    }
}

/// Position at `clock` inside the recorded run `e`.
pub open spec fn position_in(e: PullHistoryStep, clock: u64) -> int {
    let ticks = clock - e.first_clock + e.interval;
    if e.step_count < 0 {
        e.start_position - steps_within(e.interval as int, e.add as int, ticks, -e.step_count)
    } else {
        e.start_position + steps_within(
            e.interval as int,
            e.add as int,
            ticks,
            e.step_count as int,
        )
    }
}

/// Position at `clock` as the records from `i` on give it, newest first;
/// `fallback` where every one of them starts after `clock`.
pub open spec fn past_position(h: Seq<PullHistoryStep>, i: int, clock: u64, fallback: i64) -> int
    decreases h.len() - i,
{
    if i < 0 || i >= h.len() {
        fallback as int
    } else if clock < h[i].first_clock {
        past_position(h, i + 1, clock, h[i].start_position)
    } else if clock >= h[i].last_clock {
        h[i].start_position + h[i].step_count
    } else {
        position_in(h[i], clock)
    }
}

/// The records from `i` on that overlap `(start_clock, end_clock)`, newest
/// first, added to `acc` until it holds `max` or a record ends at or before
/// `start_clock`.
pub open spec fn pull_from(
    h: Seq<PullHistoryStep>,
    i: int,
    max: int,
    start_clock: u64,
    end_clock: u64,
    acc: Seq<PullHistoryStep>,
) -> Seq<PullHistoryStep>
    decreases h.len() - i,
{
    if i < 0 || i >= h.len() {
        acc
    } else if start_clock >= h[i].last_clock || acc.len() >= max {
        acc
    } else if end_clock <= h[i].first_clock {
        pull_from(h, i + 1, max, start_clock, end_clock, acc)
    } else {
        pull_from(h, i + 1, max, start_clock, end_clock, acc.push(h[i]))
    }
}

/// The records without the oldest ones that ended at or before `end_clock`.
pub open spec fn expire(h: Seq<PullHistoryStep>, end_clock: u64) -> Seq<PullHistoryStep>
    decreases h.len(),
{
    if h.len() == 0 || h.last().last_clock > end_clock {
        h
    } else {
        expire(h.drop_last(), end_clock)
    }
}

/// The record that marks a position set from outside.
pub open spec fn position_marker(clock: u64, position: i64) -> PullHistoryStep {
    PullHistoryStep {
        first_clock: clock,
        last_clock: clock,
        start_position: position,
        step_count: 0,
        interval: 0,
        add: 0,
    }
}

impl ScModel {
    /// Swaps the meaning of the direction bit; the direction of the runs
    /// that follow is kept on the wire.
    pub open spec fn set_invert_sdir(self, invert: bool) -> ScModel {
        if self.invert_sdir != invert {
            ScModel {
                invert_sdir: invert,
                sdir: if self.sdir >= 0 {
                    (1 - self.sdir) as i32
                } else {
                    self.sdir
                },
                ..self
            }
        } else {
            self
        }
    }

    /// Emits everything taken in, then sets the position and marks it.
    pub open spec fn set_last_position(self, clock: u64, position: i64) -> Flushed {
        let f = self.flush(u64::MAX);
        if f.result is Err {
            f
        } else {
            Flushed {
                model: ScModel {
                    last_position: position,
                    history: seq![position_marker(clock, position)] + f.model.history,
                    ..f.model
                },
                result: Ok(()),
            }
        }
    }

    /// Emits everything taken in, then restarts at `last_step_clock` with
    /// no direction set.
    pub open spec fn reset(self, last_step_clock: u64) -> Flushed {
        let f = self.flush(u64::MAX);
        if f.result is Err {
            f
        } else {
            Flushed {
                model: ScModel { last_step_clock, sdir: -1i32, ..f.model },
                result: Ok(()),
            }
        }
    }
}

/// Compresses step clocks into runs and hands them to a sink.
pub struct StepCompressor<S: CommandSink> {
    oid: u32,
    max_error: u32,
    mcu_time_offset: i64,
    mcu_freq: u64,
    last_step_clock: u64,
    sdir: i32,
    invert_sdir: bool,
    pending: PendingStep,
    queue: Vec<u64>,
    queue_pos: usize,
    last_position: i64,
    history: VecDeque<PullHistoryStep>,
    sink: S,
}

impl<S: CommandSink> View for StepCompressor<S> {
    type V = ScModel;

    closed spec fn view(&self) -> ScModel {
        ScModel {
            oid: self.oid,
            max_error: self.max_error,
            mcu_time_offset: self.mcu_time_offset,
            mcu_freq: self.mcu_freq,
            last_step_clock: self.last_step_clock,
            sdir: self.sdir,
            invert_sdir: self.invert_sdir,
            pending: self.pending,
            steps: self.queue@.skip(self.queue_pos as int),
            last_position: self.last_position,
            history: self.history@,
            emitted: self.sink.commands(),
        }
    }
}

impl<S: CommandSink> StepCompressor<S> {
    /// The buffer's read position is inside it, and the state is well formed.
    pub closed spec fn wf(&self) -> bool {
        &&& self.queue_pos <= self.queue@.len()
        &&& self@.wf()
    }

    /// A compressor for the stepper `oid` that keeps every step within
    /// `max_error` ticks of its time; nothing is queued or emitted yet.
    pub fn new(oid: u32, max_error: u32, sink: S) -> (sc: Self)
        ensures
            sc.wf(),
            sc@ == (ScModel {
                oid,
                max_error,
                mcu_time_offset: 0,
                mcu_freq: 1,
                last_step_clock: 0,
                sdir: -1i32,
                invert_sdir: false,
                pending: PendingStep::Idle,
                steps: Seq::empty(),
                last_position: 0,
                history: Seq::empty(),
                emitted: sink.commands(),
            }),
    {
        let sc = StepCompressor {
            oid,
            max_error,
            mcu_time_offset: 0,
            mcu_freq: 1,
            last_step_clock: 0,
            sdir: -1,
            invert_sdir: false,
            pending: PendingStep::Idle,
            queue: Vec::with_capacity(1024),
            queue_pos: 0,
            last_position: 0,
            history: VecDeque::new(),
            sink,
        };
        proof {
            assert(sc@.steps =~= Seq::<u64>::empty());
            assert(sc@.points() =~= Seq::<int>::empty());
        }
        sc
    }

    /// Emits one run and records it.
    fn add_move(&mut self, first_clock: u64, mv: StepMove)
        requires
            mv.count >= 1,
            0 <= tail_ticks(mv),
            first_clock + tail_ticks(mv) <= u64::MAX,
            first_clock >= old(self).last_step_clock,
            i64::MIN <= old(self).last_position - mv.count,
            old(self).last_position + mv.count <= i64::MAX,
        ensures
            final(self)@ == old(self)@.emit_run(first_clock, mv),
            final(self).queue == old(self).queue,
            final(self).queue_pos == old(self).queue_pos,
    {
        let count: i64 = mv.count as i64;
        proof {
            lemma_add_factor_next(count as int);
            assert(count * (count - 1) <= 0x1_0000 * 0x1_0000) by (nonlinear_arith)
                requires
                    1 <= count <= 0x1_0000,
            ;
            let f = add_factor(count as int);
            assert(-0x8000 * 0x8000_0000 <= mv.add * f <= 0x8000 * 0x8000_0000)
                by (nonlinear_arith)
                requires
                    -0x8000 <= mv.add <= 0x8000,
                    0 <= f <= 0x8000_0000,
            ;
            assert(0 <= mv.interval * (count - 1) <= 0x1_0000_0000 * 0x1_0000)
                by (nonlinear_arith)
                requires
                    0 <= mv.interval <= 0x1_0000_0000,
                    0 <= count - 1 <= 0x1_0000,
            ;
        }
        let factor: i64 = count * (count - 1) / 2;
        let ticks: i64 = mv.add as i64 * factor + mv.interval as i64 * (count - 1);
        let last_clock: u64 = first_clock + ticks as u64;
        let min_clock: u64 = self.last_step_clock;
        let req_clock: u64 = if mv.count == 1 && first_clock - self.last_step_clock
            >= CLOCK_DIFF_MAX {
            first_clock
        } else {
            self.last_step_clock
        };
        self.sink.push(
            Command::QueueStep(
                QueueStep {
                    oid: self.oid,
                    first_clock,
                    last_clock,
                    interval: mv.interval,
                    count: mv.count,
                    add: mv.add,
                    req_clock,
                    min_clock,
                },
            ),
        );
        self.last_step_clock = last_clock;
        let step_count: i32 = if self.sdir != 0 {
            mv.count as i32
        } else {
            -(mv.count as i32)
        };
        let entry = PullHistoryStep {
            first_clock,
            last_clock,
            start_position: self.last_position,
            step_count,
            interval: mv.interval,
            add: mv.add,
        };
        self.last_position = self.last_position + step_count as i64;
        self.history.push_front(entry);
    }

    /// Drops the part of the buffer that runs have replaced, once it is the
    /// larger part.
    fn compact(&mut self)
        requires
            old(self).queue_pos <= old(self).queue@.len(),
        ensures
            final(self)@ == old(self)@,
            final(self).queue_pos <= final(self).queue@.len(),
            2 * old(self).queue_pos > old(self).queue@.len() ==> final(self).queue_pos == 0
                && final(self).queue@ == old(self).queue@.skip(old(self).queue_pos as int),
            2 * old(self).queue_pos <= old(self).queue@.len() ==> final(self).queue_pos == old(
                self,
            ).queue_pos && final(self).queue@ == old(self).queue@,
    {
        if self.queue_pos > 0 && self.queue_pos > self.queue.len() - self.queue_pos {
            let tail = self.queue.split_off(self.queue_pos);
            self.queue = tail;
            self.queue_pos = 0;
            proof {
                assert(self.queue@ =~= old(self).queue@.skip(old(self).queue_pos as int));
                assert(self@.steps =~= old(self)@.steps);
            }
        }
    }

    /// Turns queued steps into runs up to `move_clock`.
    fn queue_flush(&mut self, move_clock: u64) -> (r: Result<(), StepCompressError>)
        requires
            old(self).wf(),
        ensures
            final(self).wf(),
            final(self)@ == old(self)@.queue_flush(move_clock).model,
            r == old(self)@.queue_flush(move_clock).result,
    {
        if self.queue_pos >= self.queue.len() {
            return Ok(());
        }
        loop
            invariant
                self.wf(),
                self.queue_pos < self.queue@.len(),
                self@.queue_flush(move_clock) == old(self)@.queue_flush(move_clock),
            decreases self.queue@.len() - self.queue_pos,
        {
            if self.last_step_clock >= move_clock {
                self.compact();
                return Ok(());
            }
            let ghost m = self@;
            proof {
                lemma_rel_points_skip(self.queue@, self.queue_pos as int, self.last_step_clock);
            }
            let mv = compress_bisect_add(
                &self.queue,
                self.queue_pos,
                self.last_step_clock,
                self.max_error,
            );
            match check_line(&self.queue, self.queue_pos, self.last_step_clock, self.max_error, mv) {
                Err(e) => {
                    return Err(e);
                },
                Ok(_) => {},
            }
            proof {
                lemma_take_run(m, mv);
            }
            let first_clock: u64 = self.last_step_clock + mv.interval as u64;
            self.add_move(first_clock, mv);
            let advance: usize = mv.count as usize;
            if advance >= self.queue.len() - self.queue_pos {
                self.queue.clear();
                self.queue_pos = 0;
                proof {
                    assert(self@.steps =~= Seq::<u64>::empty());
                    assert(self@ == (ScModel { steps: Seq::empty(), ..m.take_run(mv) }));
                }
                return Ok(());
            }
            self.queue_pos = self.queue_pos + advance;
            proof {
                assert(self@.steps =~= m.steps.skip(mv.count as int));
                assert(self@ == m.take_run(mv));
            }
        }
    }

    /// Makes `sdir` the direction of the runs that follow.
    fn set_next_step_dir(&mut self, sdir: i32) -> (r: Result<(), StepCompressError>)
        requires
            old(self).wf(),
            sdir == 0 || sdir == 1,
        ensures
            final(self).wf(),
            final(self)@ == old(self)@.set_next_step_dir(sdir).model,
            r == old(self)@.set_next_step_dir(sdir).result,
    {
        if self.sdir == sdir {
            return Ok(());
        }
        proof {
            lemma_set_next_step_dir(old(self)@, sdir, 0);
        }
        match self.queue_flush(u64::MAX) {
            Err(e) => {
                return Err(e);
            },
            Ok(_) => {},
        }
        self.sdir = sdir;
        let dir: bool = (sdir != 0) != self.invert_sdir;
        self.sink.push(
            Command::SetNextStepDir(
                SetNextStepDir { oid: self.oid, dir, req_clock: self.last_step_clock },
            ),
        );
        Ok(())
    }

    /// Queues a committed step that lies within reach of the last emitted one.
    fn queue_push(&mut self, clock: u64) -> (r: Result<(), StepCompressError>)
        requires
            old(self).wf(),
            old(self)@.pending is Idle,
            old(self)@.room(1),
            old(self)@.newest_clock() <= clock < u64::MAX,
            clock - old(self)@.last_step_clock < CLOCK_DIFF_MAX,
        ensures
            final(self).wf(),
            final(self)@ == old(self)@.queue_push(clock).model,
            r == old(self)@.queue_push(clock).result,
    {
        proof {
            lemma_queue_push(old(self)@, clock, 0);
        }
        if self.queue.len() - self.queue_pos > QUEUE_WINDOW {
            let target: u64 = self.queue[self.queue.len() - MAX_RUN_STEPS];
            proof {
                assert(old(self)@.steps[old(self)@.steps.len() - MAX_RUN_STEPS] == target);
            }
            match self.queue_flush(target) {
                Err(e) => {
                    return Err(e);
                },
                Ok(_) => {},
            }
        }
        let ghost m = self@;
        self.queue.push(clock);
        proof {
            assert(self@.steps =~= m.steps.push(clock));
        }
        Ok(())
    }

    /// Takes in a committed step that lies far after the last emitted one.
    fn queue_append_far(&mut self, clock: u64) -> (r: Result<(), StepCompressError>)
        requires
            old(self).wf(),
            old(self)@.pending is Idle,
            old(self)@.room(1),
            old(self)@.newest_clock() <= clock < u64::MAX,
            clock - old(self)@.last_step_clock >= CLOCK_DIFF_MAX,
        ensures
            final(self).wf(),
            final(self)@ == old(self)@.queue_append_far(clock).model,
            r == old(self)@.queue_append_far(clock).result,
    {
        let target: u64 = clock - CLOCK_DIFF_MAX + 1;
        proof {
            lemma_queue_append_far(old(self)@, clock, 0);
            lemma_queue_flush(old(self)@, target, 1);
        }
        match self.queue_flush(target) {
            Err(e) => {
                return Err(e);
            },
            Ok(_) => {},
        }
        let ghost m = self@;
        if clock - self.last_step_clock >= CLOCK_DIFF_MAX {
            let mv = StepMove {
                interval: ((clock - self.last_step_clock) % 0x1_0000_0000) as u32,
                count: 1,
                add: 0,
            };
            proof {
                lemma_far_run(mv);
            }
            self.add_move(clock, mv);
            Ok(())
        } else {
            self.queue.push(clock);
            proof {
                assert(self@.steps =~= m.steps.push(clock));
            }
            Ok(())
        }
    }

    /// Commits the pending step.
    fn queue_append(&mut self) -> (r: Result<(), StepCompressError>)
        requires
            old(self).wf(),
        ensures
            final(self).wf(),
            final(self)@ == old(self)@.queue_append().model,
            r == old(self)@.queue_append().result,
    {
        let (clock, dir) = match self.pending {
            PendingStep::Idle => {
                return Ok(());
            },
            PendingStep::Pending { clock, dir } => (clock, dir),
        };
        proof {
            lemma_queue_append(old(self)@, 0);
            lemma_set_next_step_dir(old(self)@, dir, 0);
        }
        match self.set_next_step_dir(dir) {
            Err(e) => {
                return Err(e);
            },
            Ok(_) => {},
        }
        self.pending = PendingStep::Idle;
        proof {
            assert(self@.points() == old(self)@.set_next_step_dir(dir).model.points());
            lemma_newest(self@);
        }
        if clock - self.last_step_clock >= CLOCK_DIFF_MAX {
            self.queue_append_far(clock)
        } else {
            self.queue_push(clock)
        }
    }

    /// Sets the time, in nanoseconds, at which the clock reads zero, and the
    /// clock's rate in ticks per second.
    pub fn set_time(&mut self, time_offset: i64, mcu_freq: u64)
        requires
            old(self).wf(),
        ensures
            final(self).wf(),
            final(self)@ == (ScModel { mcu_time_offset: time_offset, mcu_freq, ..old(self)@ }),
    {
        self.mcu_time_offset = time_offset;
        self.mcu_freq = mcu_freq;
    }

    /// The clock of the step that is found `step_time` nanoseconds into a
    /// segment that starts at `print_time`.
    pub fn clock_of(&self, print_time: i64, step_time: i64) -> (clock: u64)
        ensures
            clock == self@.clock_of(print_time, step_time),
    {
        step_clock(
            self.last_step_clock,
            print_time,
            step_time,
            self.mcu_time_offset,
            self.mcu_freq,
        )
    }

    /// Takes in the step found `step_time` nanoseconds into a segment that
    /// starts at `print_time`, in direction `sdir` (1 or 0): the step at
    /// the clock that this time falls on.
    pub fn append(&mut self, sdir: i32, print_time: i64, step_time: i64) -> (r: Result<
        (),
        StepCompressError,
    >)
        requires
            old(self).wf(),
            sdir == 0 || sdir == 1,
            old(self)@.latest_clock() <= old(self)@.clock_of(print_time, step_time) < u64::MAX,
            old(self)@.room(1),
        ensures
            final(self).wf(),
            final(self)@ == old(self)@.append_at(sdir, print_time, step_time).model,
            r == old(self)@.append_at(sdir, print_time, step_time).result,
    {
        let clock = self.clock_of(print_time, step_time);
        self.append_clock(sdir, clock)
    }

    /// Takes in the step at `step_clock` in direction `sdir` (1 or 0).
    /// A pending step in the other direction less than 750 microseconds
    /// before it is dropped together with the new one. Otherwise the
    /// pending step is committed and the new one becomes pending.
    pub fn append_clock(&mut self, sdir: i32, step_clock: u64) -> (r: Result<
        (),
        StepCompressError,
    >)
        requires
            old(self).wf(),
            sdir == 0 || sdir == 1,
            old(self)@.latest_clock() <= step_clock < u64::MAX,
            old(self)@.room(1),
        ensures
            final(self).wf(),
            final(self)@ == old(self)@.append(sdir, step_clock).model,
            r == old(self)@.append(sdir, step_clock).result,
    {
        proof {
            lemma_queue_append(old(self)@, 1);
            lemma_newest(old(self)@);
        }
        match self.pending {
            PendingStep::Idle => {},
            PendingStep::Pending { clock, dir } => {
                if sdir != dir && (step_clock - clock) as u128 * 1_000_000
                    < SDS_FILTER_MICROS as u128 * self.mcu_freq as u128 {
                    self.pending = PendingStep::Idle;
                    return Ok(());
                }
                match self.queue_append() {
                    Err(e) => {
                        return Err(e);
                    },
                    Ok(_) => {},
                }
            },
        }
        self.pending = PendingStep::Pending { clock: step_clock, dir: sdir };
        Ok(())
    }

    /// Commits the pending step, if there is one: it can no longer be
    /// taken back.
    pub fn commit(&mut self) -> (r: Result<(), StepCompressError>)
        requires
            old(self).wf(),
        ensures
            final(self).wf(),
            final(self)@ == old(self)@.commit().model,
            r == old(self)@.commit().result,
    {
        match self.pending {
            PendingStep::Idle => Ok(()),
            PendingStep::Pending { clock, dir } => self.queue_append(),
        }
    }

    /// Commits a pending step that is due by `move_clock`, then emits runs
    /// for the queued steps until the last emitted step is at or after
    /// `move_clock` or the queue is empty.
    pub fn flush(&mut self, move_clock: u64) -> (r: Result<(), StepCompressError>)
        requires
            old(self).wf(),
        ensures
            final(self).wf(),
            final(self)@ == old(self)@.flush(move_clock).model,
            r == old(self)@.flush(move_clock).result,
    {
        match self.pending {
            PendingStep::Idle => {},
            PendingStep::Pending { clock, dir } => {
                if move_clock >= clock {
                    match self.queue_append() {
                        Err(e) => {
                            return Err(e);
                        },
                        Ok(_) => {},
                    }
                }
            },
        }
        self.queue_flush(move_clock)
    }

    /// Swaps the meaning of the direction bit.
    pub fn set_invert_sdir(&mut self, invert: bool)
        requires
            old(self).wf(),
        ensures
            final(self).wf(),
            final(self)@ == old(self)@.set_invert_sdir(invert),
    {
        if self.invert_sdir != invert {
            self.invert_sdir = invert;
            if self.sdir >= 0 {
                self.sdir = 1 - self.sdir;
            }
        }
    }

    /// Direction of the last run: `true` for 1, `false` for 0 and while
    /// none is set.
    pub fn get_last_dir(&self) -> (dir: bool)
        ensures
            dir == (self@.sdir > 0),
    {
        if self.sdir < 0 {
            false
        } else {
            self.sdir != 0
        }
    }

    /// Emits everything taken in, then sets the position to
    /// `last_position` and records that it was so at `clock`.
    pub fn set_last_position(&mut self, clock: u64, last_position: i64) -> (r: Result<
        (),
        StepCompressError,
    >)
        requires
            old(self).wf(),
        ensures
            final(self).wf(),
            final(self)@ == old(self)@.set_last_position(clock, last_position).model,
            r == old(self)@.set_last_position(clock, last_position).result,
    {
        proof {
            lemma_flush(old(self)@, u64::MAX, 0);
        }
        match self.flush(u64::MAX) {
            Err(e) => {
                return Err(e);
            },
            Ok(_) => {},
        }
        let ghost m = self@;
        self.last_position = last_position;
        self.history.push_front(
            PullHistoryStep {
                first_clock: clock,
                last_clock: clock,
                start_position: last_position,
                step_count: 0,
                interval: 0,
                add: 0,
            },
        );
        proof {
            assert(self@.points() == m.points());
            assert forall|i: int| 0 <= i < self@.history.len() implies entry_ok(
                #[trigger] self@.history[i],
            ) by {
                if i > 0 {
                    assert(self@.history[i] == m.history[i - 1]);
                }
            }
        }
        Ok(())
    }

    /// Emits everything taken in, then restarts at `last_step_clock` with
    /// no direction set.
    pub fn reset(&mut self, last_step_clock: u64) -> (r: Result<(), StepCompressError>)
        requires
            old(self).wf(),
        ensures
            final(self).wf(),
            final(self)@ == old(self)@.reset(last_step_clock).model,
            r == old(self)@.reset(last_step_clock).result,
    {
        proof {
            lemma_flush(old(self)@, u64::MAX, 0);
        }
        match self.flush(u64::MAX) {
            Err(e) => {
                return Err(e);
            },
            Ok(_) => {},
        }
        self.last_step_clock = last_step_clock;
        self.sdir = -1;
        proof {
            assert(self@.points() =~= Seq::<int>::empty());
        }
        Ok(())
    }

    /// Position at `clock`: the start of the oldest known run that begins
    /// after `clock`, the end of the newest run that ended by `clock`, or
    /// the step reached inside the run that holds `clock`.
    pub fn find_past_position(&self, clock: u64) -> (pos: i64)
        requires
            self.wf(),
        ensures
            pos == past_position(self@.history, 0, clock, self@.last_position),
    {
        let mut last_position: i64 = self.last_position;
        let mut i: usize = 0;
        while i < self.history.len()
            invariant
                self.wf(),
                i <= self.history@.len(),
                past_position(self@.history, i as int, clock, last_position) == past_position(
                    self@.history,
                    0,
                    clock,
                    self@.last_position,
                ),
            decreases self.history@.len() - i,
        {
            let entry = self.history[i];
            assert(entry_ok(self@.history[i as int]));
            if clock < entry.first_clock {
                last_position = entry.start_position;
                i = i + 1;
            } else if clock >= entry.last_clock {
                return entry.start_position + entry.step_count as i64;
            } else {
                return position_in_run(entry, clock);
            }
        }
        last_position
    }

    /// Up to `max` recorded runs that overlap the clocks between
    /// `start_clock` and `end_clock`, newest first.
    pub fn extract_old(&self, max: usize, start_clock: u64, end_clock: u64) -> (res: Vec<
        PullHistoryStep,
    >)
        ensures
            res@ == pull_from(
                self@.history,
                0,
                max as int,
                start_clock,
                end_clock,
                Seq::<PullHistoryStep>::empty(),
            ),
            res@.len() <= max,
            forall|k: int|
                0 <= k < res@.len() ==> start_clock < (#[trigger] res@[k]).last_clock && end_clock
                    > res@[k].first_clock,
    {
        let mut res: Vec<PullHistoryStep> = Vec::new();
        let mut i: usize = 0;
        while i < self.history.len()
            invariant
                i <= self.history@.len(),
                res@.len() <= max,
                forall|k: int|
                    0 <= k < res@.len() ==> start_clock < (#[trigger] res@[k]).last_clock
                        && end_clock > res@[k].first_clock,
                pull_from(self@.history, i as int, max as int, start_clock, end_clock, res@)
                    == pull_from(
                    self@.history,
                    0,
                    max as int,
                    start_clock,
                    end_clock,
                    Seq::<PullHistoryStep>::empty(),
                ),
            decreases self.history@.len() - i,
        {
            let entry = self.history[i];
            if start_clock >= entry.last_clock || res.len() >= max {
                return res;
            }
            if end_clock > entry.first_clock {
                res.push(entry);
            }
            i = i + 1;
        }
        res
    }

    /// Forgets the oldest recorded runs that ended at or before `end_clock`.
    pub fn expire_history(&mut self, end_clock: u64)
        requires
            old(self).wf(),
        ensures
            final(self).wf(),
            final(self)@ == (ScModel {
                history: expire(old(self)@.history, end_clock),
                ..old(self)@
            }),
    {
        loop
            invariant
                self.wf(),
                self@ == (ScModel { history: self@.history, ..old(self)@ }),
                expire(self@.history, end_clock) == expire(old(self)@.history, end_clock),
            decreases self.history@.len(),
        {
            let n = self.history.len();
            if n == 0 {
                return ;
            }
            let back = self.history[n - 1];
            if back.last_clock > end_clock {
                return ;
            }
            let ghost before = self@;
            self.history.pop_back();
            proof {
                assert(self@.history =~= before.history.drop_last());
                assert(self@.points() == before.points());
                assert forall|i: int| 0 <= i < self@.history.len() implies entry_ok(
                    #[trigger] self@.history[i],
                ) by {
                    assert(self@.history[i] == before.history[i]);
                }
            }
        }
    }

    /// Position after the last emitted step.
    pub fn last_position(&self) -> (pos: i64)
        ensures
            pos == self@.last_position,
    {
        self.last_position
    }

    /// Clock of the last emitted step.
    pub fn last_step_clock(&self) -> (clock: u64)
        ensures
            clock == self@.last_step_clock,
    {
        self.last_step_clock
    }

    /// The clock that the next step may not lie before.
    pub fn latest_clock(&self) -> (clock: u64)
        requires
            self.wf(),
        ensures
            clock == self@.latest_clock(),
    {
        match self.pending {
            PendingStep::Pending { clock, dir } => clock,
            PendingStep::Idle => {
                if self.queue_pos < self.queue.len() {
                    self.queue[self.queue.len() - 1]
                } else {
                    self.last_step_clock
                }
            },
        }
    }

    /// Whether `extra` more steps can be taken in before the position
    /// leaves 64 bits.
    pub fn has_room(&self, extra: u32) -> (ok: bool)
        requires
            self.wf(),
        ensures
            ok == self@.room(extra as int),
    {
        let waiting: u128 = (self.queue.len() - self.queue_pos) as u128;
        let pending: u128 = match self.pending {
            PendingStep::Pending { clock, dir } => 1,
            PendingStep::Idle => 0,
        };
        let need: u128 = waiting + pending + extra as u128;
        if self.last_position >= 0 {
            need <= (i64::MAX - self.last_position) as u128
        } else {
            need <= (self.last_position as i128 - i64::MIN as i128) as u128
        }
    }

    /// Hands back the sink with everything that was emitted.
    pub fn into_sink(self) -> (sink: S)
        ensures
            sink.commands() == self@.emitted,
    {
        self.sink
    }
}

/// The step reached at `clock` inside a recorded run that holds it.
pub fn position_in_run(entry: PullHistoryStep, clock: u64) -> (pos: i64)
    requires
        entry_ok(entry),
        entry.first_clock <= clock,
    ensures
        pos == position_in(entry, clock),
{
    let interval: i128 = entry.interval as i128;
    let add: i128 = entry.add as i128;
    let ticks: i128 = (clock - entry.first_clock) as i128 + interval;
    let limit: i128 = if entry.step_count < 0 {
        -(entry.step_count as i128)
    } else {
        entry.step_count as i128
    };
    let mut k: i128 = limit;
    proof {
        lemma_add_factor_next(k as int);
        assert(k * (k - 1) <= 0x1_0000 * 0x1_0000) by (nonlinear_arith)
            requires
                0 <= k <= 0x1_0000,
        ;
        assert(0 <= interval * k <= 0x1_0000_0000 * 0x1_0000) by (nonlinear_arith)
            requires
                0 <= interval <= 0x1_0000_0000,
                0 <= k <= 0x1_0000,
        ;
        let f = add_factor(k as int);
        assert(-0x8000 * 0x8000_0000 <= add * f <= 0x8000 * 0x8000_0000) by (nonlinear_arith)
            requires
                -0x8000 <= add <= 0x8000,
                0 <= f <= 0x8000_0000,
        ;
    }
    let mut offset: i128 = interval * k + add * (k * (k - 1) / 2);
    while k > 0 && offset > ticks
        invariant
            0 <= k <= limit <= 0x1_0000,
            interval == entry.interval,
            add == entry.add,
            offset == run_offset(interval as int, add as int, k as int),
            -0x1_0000_0000_0000_0000 <= offset <= 0x1_0000_0000_0000_0000,
            steps_within(interval as int, add as int, ticks as int, k as int) == steps_within(
                interval as int,
                add as int,
                ticks as int,
                limit as int,
            ),
        decreases k,
    {
        proof {
            lemma_run_offset_next(interval as int, add as int, k - 1);
            assert(-0x8000 * 0x1_0000 <= add * (k - 1) <= 0x8000 * 0x1_0000) by (nonlinear_arith)
                requires
                    -0x8000 <= add <= 0x8000,
                    0 <= k - 1 <= 0x1_0000,
            ;
            lemma_offset_bound(interval as int, add as int, k - 1);
        }
        offset = offset - (interval + add * (k - 1));
        k = k - 1;
    }
    if entry.step_count < 0 {
        (entry.start_position as i128 - k) as i64
    } else {
        (entry.start_position as i128 + k) as i64
    }
}

/// The offsets of a run's steps stay far inside 128 bits.
pub proof fn lemma_offset_bound(interval: int, add: int, k: int)
    requires
        0 <= interval <= 0x1_0000_0000,
        -0x8000 <= add <= 0x8000,
        0 <= k <= 0x1_0000,
    ensures
        -0x1_0000_0000_0000_0000 <= run_offset(interval, add, k) <= 0x1_0000_0000_0000_0000,
{
    lemma_add_factor_next(k);
    assert(k * (k - 1) <= 0x1_0000 * 0x1_0000) by (nonlinear_arith)
        requires
            0 <= k <= 0x1_0000,
    ;
    assert(0 <= interval * k <= 0x1_0000_0000 * 0x1_0000) by (nonlinear_arith)
        requires
            0 <= interval <= 0x1_0000_0000,
            0 <= k <= 0x1_0000,
    ;
    let f = add_factor(k);
    assert(-0x8000 * 0x8000_0000 <= add * f <= 0x8000 * 0x8000_0000) by (nonlinear_arith)
        requires
            -0x8000 <= add <= 0x8000,
            0 <= f <= 0x8000_0000,
    ;
}

/// Ticks in `diff` nanoseconds, rounded to the nearest, counted by whole
/// seconds and the rest.
pub proof fn lemma_ticks_by_seconds(diff: int, freq: int, seconds: int, rest: int)
    requires
        diff == seconds * 1_000_000_000 + rest,
        0 <= rest < 1_000_000_000,
        0 <= freq,
    ensures
        (diff * freq + 500_000_000) / 1_000_000_000 == seconds * freq + (rest * freq
            + 500_000_000) / 1_000_000_000,
{
    let n = 1_000_000_000int;
    let part = rest * freq + 500_000_000;
    let whole = seconds * freq;
    assert(diff * freq + 500_000_000 == whole * n + part) by (nonlinear_arith)
        requires
            diff == seconds * n + rest,
            part == rest * freq + 500_000_000,
            whole == seconds * freq,
    ;
    vstd::arithmetic::div_mod::lemma_fundamental_div_mod(part, n);
    let q = part / n;
    let r = part % n;
    assert(whole * n + part == n * (whole + q) + r) by (nonlinear_arith)
        requires
            part == n * q + r,
    ;
    vstd::arithmetic::div_mod::lemma_fundamental_div_mod_converse(
        whole * n + part,
        n,
        whole + q,
        r,
    );
}

/// The clock that the time `print_time + step_time` falls on.
pub fn step_clock(
    last_step_clock: u64,
    print_time: i64,
    step_time: i64,
    time_offset: i64,
    mcu_freq: u64,
) -> (clock: u64)
    ensures
        clock == clock_at(last_step_clock, print_time + step_time, time_offset, mcu_freq),
{
    let diff: i128 = print_time as i128 + step_time as i128 - time_offset as i128;
    if diff <= 0 {
        proof {
            assert(diff * mcu_freq <= 0) by (nonlinear_arith)
                requires
                    diff <= 0,
                    mcu_freq >= 0,
            ;
        }
        return last_step_clock;
    }
    let seconds: u128 = (diff / 1_000_000_000) as u128;
    let rest: u128 = (diff % 1_000_000_000) as u128;
    proof {
        assert(diff == seconds * 1_000_000_000 + rest && 0 <= rest < 1_000_000_000
            && 0 <= seconds <= 0x10_0000_0000) by (nonlinear_arith)
            requires
                0 < diff < 0x2_0000_0000_0000_0000,
                seconds == diff / 1_000_000_000,
                rest == diff % 1_000_000_000,
        ;
        lemma_ticks_by_seconds(diff as int, mcu_freq as int, seconds as int, rest as int);
        assert(seconds * mcu_freq <= 0x10_0000_0000 * 0x1_0000_0000_0000_0000)
            by (nonlinear_arith)
            requires
                0 <= seconds <= 0x10_0000_0000,
                0 <= mcu_freq <= 0x1_0000_0000_0000_0000,
        ;
        assert(rest * mcu_freq <= 1_000_000_000 * 0x1_0000_0000_0000_0000) by (nonlinear_arith)
            requires
                0 <= rest <= 1_000_000_000,
                0 <= mcu_freq <= 0x1_0000_0000_0000_0000,
        ;
    }
    let ticks: u128 = seconds * mcu_freq as u128 + (rest * mcu_freq as u128 + 500_000_000)
        / 1_000_000_000;
    if ticks <= last_step_clock as u128 {
        last_step_clock
    } else if ticks >= u64::MAX as u128 {
        u64::MAX
    } else {
        ticks as u64
    }
}

} // verus!
