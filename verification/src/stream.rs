//! What holds of the commands that a compressor emits.

use vstd::prelude::*;
use crate::step_compressor::{
    extends, far_run, lemma_far_run, lemma_flush, lemma_newest, lemma_queue_append,
    lemma_queue_flush, lemma_set_next_step_dir, lemma_take_run, past_position, sds_close,
    Command, Flushed, PendingStep, PullHistoryStep, QueueStep, ScModel, SetNextStepDir,
    CLOCK_DIFF_MAX, QUEUE_WINDOW,
};
use crate::bisect::{lemma_fit_first, lemma_search_fits, MAX_RUN_STEPS};
use crate::step_run::{
    add_factor, check_line_result, interval_at, invalid_sequence, lemma_first_fault_ok,
    lemma_min_point_after_prev, lemma_run_offset_next, min_point, points_ok, rel_points,
    run_fits, run_offset, step_in_range, StepMove,
};
use crate::step_compressor::StepCompressError;

verus! {

/// Flushing twice up to the same clock emits what flushing once emits: the
/// second flush finds nothing to do.
pub proof fn lemma_flush_idempotent(m: ScModel, move_clock: u64)
    requires
        m.wf(),
        m.flush(move_clock).result is Ok,
    ensures
        m.flush(move_clock).model.flush(move_clock).result is Ok,
        m.flush(move_clock).model.flush(move_clock).model == m.flush(move_clock).model,
        m.flush(move_clock).model.flush(move_clock).model.emitted == m.flush(
            move_clock,
        ).model.emitted,
{
    lemma_flush(m, move_clock, 0);
    let f = m.flush(move_clock);
    let again = f.model.queue_flush(move_clock);
    assert(again.model == f.model);
    assert(f.model.flush(move_clock) == again);
}

/// Sum of the step counts of the recorded runs.
pub open spec fn history_total(h: Seq<PullHistoryStep>) -> int
    decreases h.len(),
{
    if h.len() == 0 {
        0
    } else {
        h[0].step_count + history_total(h.drop_first())
    }
}

/// The position less the steps that the recorded runs account for.
pub open spec fn position_base(m: ScModel) -> int {
    m.last_position - history_total(m.history)
}

pub proof fn lemma_history_total_push(e: PullHistoryStep, h: Seq<PullHistoryStep>)
    ensures
        history_total(seq![e] + h) == e.step_count + history_total(h),
{
    assert((seq![e] + h).drop_first() =~= h);
}

/// Emitting runs moves the position by the steps that their records hold.
pub proof fn lemma_queue_flush_balance(m: ScModel, move_clock: u64)
    requires
        m.wf(),
    ensures
        position_base(m.queue_flush(move_clock).model) == position_base(m),
    decreases m.steps.len(),
{
    if m.steps.len() == 0 || m.last_step_clock >= move_clock {
    } else {
        let mv = m.next_run();
        if check_line_result(m.points(), m.max_error as int, mv) is Ok {
            lemma_search_fits(m.points(), m.max_error as int);
            lemma_take_run(m, mv);
            let t = m.take_run(mv);
            let first_clock = (m.last_step_clock + mv.interval) as u64;
            let e = m.emit_run(first_clock, mv);
            lemma_history_total_push(e.history[0], m.history);
            assert(e.history =~= seq![e.history[0]] + m.history);
            assert(position_base(t) == position_base(m));
            if mv.count >= m.steps.len() {
            } else {
                lemma_queue_flush_balance(t, move_clock);
            }
        }
    }
}

pub proof fn lemma_queue_append_balance(m: ScModel)
    requires
        m.wf(),
    ensures
        position_base(m.queue_append().model) == position_base(m),
{
    match m.pending {
        PendingStep::Idle => {},
        PendingStep::Pending { clock, dir } => {
            let f = m.set_next_step_dir(dir);
            if m.sdir != dir {
                lemma_queue_flush_balance(m, u64::MAX);
                lemma_queue_flush(m, u64::MAX, 0);
            }
            if f.result is Ok {
                let i = ScModel { pending: PendingStep::Idle, ..f.model };
                assert(i.points() == f.model.points());
                lemma_newest(m);
                if clock - i.last_step_clock >= CLOCK_DIFF_MAX {
                    let target = (clock - CLOCK_DIFF_MAX + 1) as u64;
                    lemma_queue_flush_balance(i, target);
                    lemma_queue_flush(i, target, 1);
                    let g = i.queue_flush(target);
                    if g.result is Ok && clock - g.model.last_step_clock >= CLOCK_DIFF_MAX {
                        let mv = far_run(g.model.last_step_clock, clock);
                        lemma_far_run(mv);
                        let e = g.model.emit_run(clock, mv);
                        lemma_history_total_push(e.history[0], g.model.history);
                        assert(e.history =~= seq![e.history[0]] + g.model.history);
                    }
                } else {
                    if i.steps.len() > QUEUE_WINDOW {
                        let target = i.steps[i.steps.len() - MAX_RUN_STEPS];
                        lemma_queue_flush_balance(i, target);
                    }
                }
            }
        },
    }
}

/// Taking in steps, committing and flushing keep the balance: the position
/// moves by exactly the steps that the new records hold. From a fresh
/// compressor on, the recorded step counts add up to the position.
pub proof fn lemma_round_trip(m: ScModel, sdir: i32, step_clock: u64, move_clock: u64)
    requires
        m.wf(),
    ensures
        position_base(m.commit().model) == position_base(m),
        position_base(m.flush(move_clock).model) == position_base(m),
        position_base(m.append(sdir, step_clock).model) == position_base(m),
{
    lemma_queue_append_balance(m);
    lemma_queue_append(m, 0);
    let f = m.queue_append();
    lemma_queue_flush_balance(f.model, move_clock);
    lemma_queue_flush_balance(m, move_clock);
}

/// Two steps in opposite directions less than 750 microseconds apart,
/// taken in while nothing is pending, leave no trace: nothing is emitted
/// and nothing is pending.
pub proof fn lemma_sds_filter(m: ScModel, dir: i32, back: i32, first: u64, second: u64)
    requires
        m.pending is Idle,
        dir != back,
        first <= second,
        sds_close(second - first, m.mcu_freq),
    ensures
        m.append(dir, first).model.append(back, second) == (Flushed {
            model: m,
            result: Ok(()),
        }),
{
}

/// A pending step that lies `CLOCK_DIFF_MAX` ticks or more after the last
/// emitted one, committed while nothing is queued and the direction
/// stays, goes out as a run of its own.
pub proof fn lemma_far_point(m: ScModel)
    requires
        m.wf(),
        m.steps.len() == 0,
        m.pending is Pending,
        m.pending->dir == m.sdir,
        m.pending->clock - m.last_step_clock >= CLOCK_DIFF_MAX,
    ensures
        m.commit().result is Ok,
        m.commit().model == (ScModel {
            pending: PendingStep::Idle,
            ..m
        }).emit_run(m.pending->clock, far_run(m.last_step_clock, m.pending->clock)),
        m.commit().model.emitted.last() == Command::QueueStep(
            QueueStep {
                oid: m.oid,
                first_clock: m.pending->clock,
                last_clock: m.pending->clock,
                interval: far_run(m.last_step_clock, m.pending->clock).interval,
                count: 1,
                add: 0,
                req_clock: m.pending->clock,
                min_clock: m.last_step_clock,
            },
        ),
{
    let clock = m.pending->clock;
    let i = ScModel { pending: PendingStep::Idle, ..m };
    lemma_far_run(far_run(m.last_step_clock, clock));
    assert(i.queue_flush((clock - CLOCK_DIFF_MAX + 1) as u64).model == i);
}

/// The newest record ends at or before the last emitted step, at the
/// current position.
pub open spec fn anchored(m: ScModel) -> bool {
    m.history.len() > 0 ==> {
        &&& m.history[0].first_clock <= m.history[0].last_clock <= m.last_step_clock
        &&& m.history[0].start_position + m.history[0].step_count == m.last_position
    }
}

/// The position at the clock of the last emitted step is the current position.
pub proof fn lemma_position_at_last_step(m: ScModel)
    requires
        anchored(m),
    ensures
        past_position(m.history, 0, m.last_step_clock, m.last_position) == m.last_position,
{
}

/// The run `q` stands for the first `q.count` of `steps`, each of its steps
/// inside the window of the step it stands for, counted from `base`.
pub open spec fn regular_run(base: u64, steps: Seq<u64>, max_error: int, q: QueueStep) -> bool {
    &&& run_fits(
        rel_points(steps, 0, base),
        max_error,
        q.interval as int,
        q.count as int,
        q.add as int,
    )
    &&& q.interval < 0x8000_0000
    &&& q.first_clock == base + q.interval
    &&& q.last_clock == base + run_offset(q.interval as int, q.add as int, q.count as int)
}

/// The run `q` holds the first of `steps` alone, which lies
/// `CLOCK_DIFF_MAX` ticks or more after `base`.
pub open spec fn far_single(base: u64, steps: Seq<u64>, q: QueueStep) -> bool {
    &&& steps.len() >= 1
    &&& steps[0] - base >= CLOCK_DIFF_MAX
    &&& q.count == 1
    &&& q.add == 0
    &&& q.interval == (steps[0] - base) % 0x1_0000_0000
    &&& q.first_clock == steps[0]
    &&& q.last_clock == steps[0]
}

/// The runs among `cmds`, in order, stand for `steps` from the front on,
/// each counted from the end of the one before, the first from `base`.
pub open spec fn runs_cover(base: u64, steps: Seq<u64>, max_error: int, cmds: Seq<Command>) -> bool
    decreases cmds.len(),
{
    if cmds.len() == 0 {
        true
    } else {
        match cmds[0] {
            Command::SetNextStepDir(_) => runs_cover(base, steps, max_error, cmds.drop_first()),
            Command::QueueStep(q) => {
                &&& regular_run(base, steps, max_error, q) || far_single(base, steps, q)
                &&& runs_cover(
                    q.last_clock,
                    steps.skip(q.count as int),
                    max_error,
                    cmds.drop_first(),
                )
            },
        }
    }
}

/// Number of steps that the runs among `cmds` hold.
pub open spec fn covered(cmds: Seq<Command>) -> int
    decreases cmds.len(),
{
    if cmds.len() == 0 {
        0
    } else {
        covered(cmds.drop_first()) + match cmds[0] {
            Command::QueueStep(q) => q.count as int,
            Command::SetNextStepDir(_) => 0,
        }
    }
}

/// Clock of the last step of the last run among `cmds`; `base` where there is none.
pub open spec fn end_clock(base: u64, cmds: Seq<Command>) -> u64
    decreases cmds.len(),
{
    if cmds.len() == 0 {
        base
    } else {
        match cmds[0] {
            Command::QueueStep(q) => end_clock(q.last_clock, cmds.drop_first()),
            Command::SetNextStepDir(_) => end_clock(base, cmds.drop_first()),
        }
    }
}

pub proof fn lemma_covered_nonneg(cmds: Seq<Command>)
    ensures
        covered(cmds) >= 0,
    decreases cmds.len(),
{
    if cmds.len() > 0 {
        lemma_covered_nonneg(cmds.drop_first());
    }
}

/// Runs that stand for a prefix of `steps`, followed by runs that stand for
/// what comes after, stand for `steps` together.
pub proof fn lemma_cover_concat(
    base: u64,
    steps: Seq<u64>,
    max_error: int,
    a: Seq<Command>,
    b: Seq<Command>,
)
    requires
        runs_cover(base, steps, max_error, a),
        covered(a) <= steps.len(),
        runs_cover(end_clock(base, a), steps.skip(covered(a)), max_error, b),
    ensures
        runs_cover(base, steps, max_error, a + b),
        covered(a + b) == covered(a) + covered(b),
        end_clock(base, a + b) == end_clock(end_clock(base, a), b),
    decreases a.len(),
{
    if a.len() == 0 {
        assert(a + b =~= b);
        assert(steps.skip(0) =~= steps);
    } else {
        let rest = a.drop_first();
        assert((a + b).drop_first() =~= rest + b);
        assert((a + b)[0] == a[0]);
        lemma_covered_nonneg(rest);
        match a[0] {
            Command::SetNextStepDir(_) => {
                lemma_cover_concat(base, steps, max_error, rest, b);
            },
            Command::QueueStep(q) => {
                let c = q.count as int;
                assert(steps.skip(c).skip(covered(rest)) =~= steps.skip(covered(a)));
                lemma_cover_concat(q.last_clock, steps.skip(c), max_error, rest, b);
            },
        }
    }
}

/// A run that fits the head of `steps` fits it whatever follows `steps`.
pub proof fn lemma_regular_more(
    base: u64,
    steps: Seq<u64>,
    more: Seq<u64>,
    max_error: int,
    q: QueueStep,
)
    requires
        regular_run(base, steps, max_error, q),
    ensures
        regular_run(base, steps + more, max_error, q),
{
    let p = rel_points(steps, 0, base);
    let longer = rel_points(steps + more, 0, base);
    assert forall|k: int| 1 <= k <= q.count implies #[trigger] step_in_range(
        longer,
        max_error,
        q.interval as int,
        q.add as int,
        k,
    ) by {
        assert(step_in_range(p, max_error, q.interval as int, q.add as int, k));
        assert(longer[k - 1] == p[k - 1]);
        if k >= 2 {
            assert(longer[k - 2] == p[k - 2]);
        }
    }
}

/// Runs that stand for a prefix of `steps` stand for the same prefix of
/// `steps` with more steps behind.
pub proof fn lemma_cover_more(
    base: u64,
    steps: Seq<u64>,
    more: Seq<u64>,
    max_error: int,
    cmds: Seq<Command>,
)
    requires
        runs_cover(base, steps, max_error, cmds),
        covered(cmds) <= steps.len(),
    ensures
        runs_cover(base, steps + more, max_error, cmds),
    decreases cmds.len(),
{
    if cmds.len() > 0 {
        let rest = cmds.drop_first();
        lemma_covered_nonneg(rest);
        match cmds[0] {
            Command::SetNextStepDir(_) => {
                lemma_cover_more(base, steps, more, max_error, rest);
            },
            Command::QueueStep(q) => {
                let c = q.count as int;
                if regular_run(base, steps, max_error, q) {
                    lemma_regular_more(base, steps, more, max_error, q);
                } else {
                    assert((steps + more)[0] == steps[0]);
                }
                lemma_cover_more(q.last_clock, steps.skip(c), more, max_error, rest);
                assert((steps + more).skip(c) =~= steps.skip(c) + more);
            },
        }
    }
}

/// The steps that a compressor has taken in and not emitted, in order.
pub open spec fn taken(m: ScModel) -> Seq<u64> {
    match m.pending {
        PendingStep::Pending { clock, dir } => m.steps.push(clock),
        PendingStep::Idle => m.steps,
    }
}

/// From state `a` to state `b` runs went out that stand for a prefix of the
/// steps that `a` held, in order and each within its window; `b` holds the
/// rest, and its last emitted step is the last of those runs.
pub open spec fn flows(a: ScModel, b: ScModel) -> bool {
    let new = b.emitted.skip(a.emitted.len() as int);
    &&& extends(b.emitted, a.emitted)
    &&& b.max_error == a.max_error
    &&& runs_cover(a.last_step_clock, taken(a), a.max_error as int, new)
    &&& covered(new) <= taken(a).len()
    &&& taken(b) == taken(a).skip(covered(new))
    &&& b.last_step_clock == end_clock(a.last_step_clock, new)
}

pub proof fn lemma_flows_self(a: ScModel)
    ensures
        flows(a, a),
{
    assert(a.emitted.skip(a.emitted.len() as int) =~= Seq::<Command>::empty());
    assert(taken(a).skip(0) =~= taken(a));
}

pub proof fn lemma_flows_chain(a: ScModel, b: ScModel, c: ScModel)
    requires
        flows(a, b),
        flows(b, c),
    ensures
        flows(a, c),
{
    let ab = b.emitted.skip(a.emitted.len() as int);
    let bc = c.emitted.skip(b.emitted.len() as int);
    let ac = c.emitted.skip(a.emitted.len() as int);
    assert(ac =~= ab + bc);
    lemma_cover_concat(a.last_step_clock, taken(a), a.max_error as int, ab, bc);
    lemma_covered_nonneg(ab);
    lemma_covered_nonneg(bc);
    assert(taken(a).skip(covered(ab)).skip(covered(bc)) =~= taken(a).skip(covered(ac)));
}

/// One run that stands for the head of what `a` holds leads to a state that
/// holds the rest.
pub proof fn lemma_flows_run(a: ScModel, b: ScModel, q: QueueStep)
    requires
        b.emitted == a.emitted.push(Command::QueueStep(q)),
        b.max_error == a.max_error,
        regular_run(a.last_step_clock, taken(a), a.max_error as int, q) || far_single(
            a.last_step_clock,
            taken(a),
            q,
        ),
        q.count <= taken(a).len(),
        taken(b) == taken(a).skip(q.count as int),
        b.last_step_clock == q.last_clock,
    ensures
        flows(a, b),
{
    let new = b.emitted.skip(a.emitted.len() as int);
    assert(new =~= seq![Command::QueueStep(q)]);
    let rest = new.drop_first();
    assert(rest =~= Seq::<Command>::empty());
    assert(runs_cover(q.last_clock, taken(a).skip(q.count as int), a.max_error as int, rest));
    assert(covered(rest) == 0);
    assert(end_clock(q.last_clock, rest) == q.last_clock);
    assert(new[0] == Command::QueueStep(q));
    assert(runs_cover(a.last_step_clock, taken(a), a.max_error as int, new));
    assert(covered(new) == q.count);
    assert(end_clock(a.last_step_clock, new) == q.last_clock);
}

/// A direction command stands for no step.
pub proof fn lemma_flows_dir(a: ScModel, b: ScModel, d: SetNextStepDir)
    requires
        b.emitted == a.emitted.push(Command::SetNextStepDir(d)),
        b.max_error == a.max_error,
        taken(b) == taken(a),
        b.last_step_clock == a.last_step_clock,
    ensures
        flows(a, b),
{
    let new = b.emitted.skip(a.emitted.len() as int);
    assert(new =~= seq![Command::SetNextStepDir(d)]);
    let rest = new.drop_first();
    assert(rest =~= Seq::<Command>::empty());
    assert(runs_cover(a.last_step_clock, taken(a), a.max_error as int, rest));
    assert(covered(rest) == 0);
    assert(end_clock(a.last_step_clock, rest) == a.last_step_clock);
    assert(new[0] == Command::SetNextStepDir(d));
    assert(runs_cover(a.last_step_clock, taken(a), a.max_error as int, new));
    assert(covered(new) == 0);
    assert(end_clock(a.last_step_clock, new) == a.last_step_clock);
    assert(taken(a).skip(0) =~= taken(a));
}

/// The run that replaces the head of the queue stands for the steps it replaces.
pub proof fn lemma_take_run_flows(m: ScModel, mv: StepMove)
    requires
        m.wf(),
        m.steps.len() > 0,
        mv == m.next_run(),
        check_line_result(m.points(), m.max_error as int, mv) is Ok,
    ensures
        flows(m, m.take_run(mv)),
        mv.count >= m.steps.len() ==> (ScModel { steps: Seq::empty(), ..m.take_run(mv) })
            == m.take_run(mv),
{
    lemma_search_fits(m.points(), m.max_error as int);
    lemma_take_run(m, mv);
    let t = m.take_run(mv);
    let first_clock = (m.last_step_clock + mv.interval) as u64;
    let q = QueueStep {
        oid: m.oid,
        first_clock,
        last_clock: t.last_step_clock,
        interval: mv.interval,
        count: mv.count,
        add: mv.add,
        req_clock: m.last_step_clock,
        min_clock: m.last_step_clock,
    };
    assert(t.emitted == m.emitted.push(Command::QueueStep(q)));
    assert(regular_run(m.last_step_clock, m.steps, m.max_error as int, q));
    let more = match m.pending {
        PendingStep::Pending { clock, dir } => seq![clock],
        PendingStep::Idle => Seq::<u64>::empty(),
    };
    assert(taken(m) =~= m.steps + more);
    lemma_regular_more(m.last_step_clock, m.steps, more, m.max_error as int, q);
    assert(taken(t) =~= taken(m).skip(mv.count as int));
    lemma_flows_run(m, t, q);
    if mv.count >= m.steps.len() {
        let e = ScModel { steps: Seq::empty(), ..t };
        assert(e.steps =~= t.steps);
    }
}

/// The runs that a flush of the queue emits stand for the steps it takes
/// from the queue.
pub proof fn lemma_queue_flush_flows(m: ScModel, move_clock: u64)
    requires
        m.wf(),
    ensures
        flows(m, m.queue_flush(move_clock).model),
    decreases m.steps.len(),
{
    lemma_flows_self(m);
    if m.steps.len() == 0 || m.last_step_clock >= move_clock {
    } else {
        let mv = m.next_run();
        if check_line_result(m.points(), m.max_error as int, mv) is Ok {
            lemma_take_run_flows(m, mv);
            lemma_search_fits(m.points(), m.max_error as int);
            lemma_take_run(m, mv);
            let t = m.take_run(mv);
            if mv.count >= m.steps.len() {
            } else {
                lemma_queue_flush_flows(t, move_clock);
                lemma_flows_chain(m, t, t.queue_flush(move_clock).model);
            }
        }
    }
}

/// A flush of the queue does not look at the pending step.
pub proof fn lemma_queue_flush_pending(m: ScModel, pending: PendingStep, move_clock: u64)
    ensures
        (ScModel { pending, ..m }).queue_flush(move_clock).model == (ScModel {
            pending,
            ..m.queue_flush(move_clock).model
        }),
        (ScModel { pending, ..m }).queue_flush(move_clock).result == m.queue_flush(
            move_clock,
        ).result,
    decreases m.steps.len(),
{
    let p = ScModel { pending, ..m };
    assert(p.points() == m.points());
    if m.steps.len() == 0 || m.last_step_clock >= move_clock {
        assert((ScModel { pending, ..m.queue_flush(move_clock).model }) == p);
    } else {
        let mv = m.next_run();
        match check_line_result(m.points(), m.max_error as int, mv) {
            Err(e) => {},
            Ok(_) => {
                let t = m.take_run(mv);
                let tp = p.take_run(mv);
                assert(tp == (ScModel { pending, ..t }));
                if mv.count >= m.steps.len() {
                } else {
                    lemma_queue_flush_pending(t, pending, move_clock);
                }
            },
        }
    }
}

/// Announcing a direction emits the queued steps as runs that stand for them.
pub proof fn lemma_set_next_step_dir_flows(m: ScModel, sdir: i32)
    requires
        m.wf(),
        sdir == 0 || sdir == 1,
    ensures
        flows(m, m.set_next_step_dir(sdir).model),
{
    lemma_flows_self(m);
    if m.sdir != sdir {
        lemma_queue_flush_flows(m, u64::MAX);
        let g = m.queue_flush(u64::MAX);
        if g.result is Ok {
            let r = m.set_next_step_dir(sdir).model;
            let d = SetNextStepDir {
                oid: m.oid,
                dir: m.dir_bit(sdir),
                req_clock: g.model.last_step_clock,
            };
            lemma_flows_dir(g.model, r, d);
            lemma_flows_chain(m, g.model, r);
        }
    }
}

/// From state `a` on, runs went out that stand for a prefix of the steps
/// that `a` held, and `b` has emitted them; what `b` still holds is not said.
pub open spec fn flows_dropping(a: ScModel, b: ScModel) -> bool {
    let new = b.emitted.skip(a.emitted.len() as int);
    &&& extends(b.emitted, a.emitted)
    &&& runs_cover(a.last_step_clock, taken(a), a.max_error as int, new)
    &&& covered(new) <= taken(a).len()
    &&& b.last_step_clock == end_clock(a.last_step_clock, new)
}

/// The flush that makes room in the queue, or reaches toward a far step,
/// while the step being committed is held aside.
proof fn lemma_commit_flush(m: ScModel, s: ScModel, target: u64)
    requires
        m.wf(),
        s.wf(),
        s.pending is Pending,
        flows(m, s),
    ensures
        ({
            let i = ScModel { pending: PendingStep::Idle, ..s };
            let g = i.queue_flush(target);
            let gp = ScModel { pending: s.pending, ..g.model };
            &&& flows(m, gp)
            &&& flows_dropping(m, g.model)
        }),
{
    let i = ScModel { pending: PendingStep::Idle, ..s };
    lemma_queue_flush_pending(i, s.pending, target);
    assert((ScModel { pending: s.pending, ..i }) == s);
    lemma_queue_flush_flows(s, target);
    let gp = s.queue_flush(target).model;
    lemma_flows_chain(m, s, gp);
}

/// The step that goes out alone stands for itself.
proof fn lemma_far_single_flows(gp: ScModel, clock: u64)
    requires
        gp.steps.len() == 0,
        gp.pending is Pending,
        gp.pending->clock == clock,
        clock - gp.last_step_clock >= CLOCK_DIFF_MAX,
    ensures
        flows(
            gp,
            (ScModel { pending: PendingStep::Idle, ..gp }).emit_run(
                clock,
                far_run(gp.last_step_clock, clock),
            ),
        ),
{
    let g = ScModel { pending: PendingStep::Idle, ..gp };
    let mv = far_run(gp.last_step_clock, clock);
    lemma_far_run(mv);
    let e = g.emit_run(clock, mv);
    let q = QueueStep {
        oid: gp.oid,
        first_clock: clock,
        last_clock: clock,
        interval: mv.interval,
        count: 1,
        add: 0,
        req_clock: clock,
        min_clock: gp.last_step_clock,
    };
    assert(e.emitted == gp.emitted.push(Command::QueueStep(q)));
    assert(taken(gp) =~= seq![clock]);
    assert(taken(e) =~= taken(gp).skip(1));
    assert(far_single(gp.last_step_clock, taken(gp), q));
    lemma_flows_run(gp, e, q);
}

/// Committing the pending step emits runs that stand for a prefix of the
/// steps taken in: each regular run within the windows of its steps, a
/// step far after the one before it in a run of its own. What is not
/// emitted is still held, unless a run was refused.
pub proof fn lemma_queue_append_flows(m: ScModel)
    requires
        m.wf(),
    ensures
        flows_dropping(m, m.queue_append().model),
        m.queue_append().result is Ok ==> flows(m, m.queue_append().model),
{
    lemma_flows_self(m);
    lemma_newest(m);
    match m.pending {
        PendingStep::Idle => {},
        PendingStep::Pending { clock, dir } => {
            lemma_set_next_step_dir_flows(m, dir);
            lemma_set_next_step_dir(m, dir, 0);
            let s = m.set_next_step_dir(dir);
            if s.result is Ok {
                let i = ScModel { pending: PendingStep::Idle, ..s.model };
                assert(i.points() == s.model.points());
                lemma_newest(i);
                if clock - i.last_step_clock >= CLOCK_DIFF_MAX {
                    let target = (clock - CLOCK_DIFF_MAX + 1) as u64;
                    lemma_commit_flush(m, s.model, target);
                    lemma_queue_flush(i, target, 1);
                    let g = i.queue_flush(target);
                    let gp = ScModel { pending: s.model.pending, ..g.model };
                    if g.result is Ok {
                        if clock - g.model.last_step_clock >= CLOCK_DIFF_MAX {
                            lemma_far_single_flows(gp, clock);
                            assert((ScModel { pending: PendingStep::Idle, ..gp }) == g.model);
                            let e = g.model.emit_run(
                                clock,
                                far_run(g.model.last_step_clock, clock),
                            );
                            lemma_flows_chain(m, gp, e);
                        } else {
                            let r = ScModel { steps: g.model.steps.push(clock), ..g.model };
                            assert(taken(r) == taken(gp));
                        }
                    }
                } else {
                    if i.steps.len() > QUEUE_WINDOW {
                        let target = i.steps[i.steps.len() - MAX_RUN_STEPS];
                        lemma_commit_flush(m, s.model, target);
                        lemma_queue_flush(i, target, 1);
                        let g = i.queue_flush(target);
                        let gp = ScModel { pending: s.model.pending, ..g.model };
                        if g.result is Ok {
                            let r = ScModel { steps: g.model.steps.push(clock), ..g.model };
                            assert(taken(r) == taken(gp));
                        }
                    } else {
                        let r = ScModel { steps: i.steps.push(clock), ..i };
                        assert(taken(r) == taken(s.model));
                    }
                }
            }
        },
    }
}

/// Every run that an operation emits stands for steps that were taken in,
/// in their order: a regular run places each of its steps within the
/// window of the step it stands for, with a first interval below 2^31 and
/// an increment of 16 bits; a step that lies `CLOCK_DIFF_MAX` ticks or
/// more after the one before it goes out alone.
pub proof fn lemma_emitted_runs_fit(m: ScModel, sdir: i32, step_clock: u64, move_clock: u64)
    requires
        m.wf(),
    ensures
        flows_dropping(m, m.commit().model),
        flows_dropping(m, m.flush(move_clock).model),
        flows_dropping(m, m.append(sdir, step_clock).model),
        m.commit().result is Ok ==> flows(m, m.commit().model),
        m.flush(move_clock).result is Ok ==> flows(m, m.flush(move_clock).model),
{
    lemma_flows_self(m);
    lemma_queue_append_flows(m);
    lemma_queue_append(m, 0);
    lemma_queue_flush_flows(m, move_clock);
    let f = m.queue_append();
    if f.result is Ok {
        lemma_queue_flush_flows(f.model, move_clock);
        lemma_flows_chain(m, f.model, f.model.queue_flush(move_clock).model);
    }
}

/// Clocks that grow strictly, the first of them after `base`.
pub open spec fn ascending(base: u64, steps: Seq<u64>) -> bool {
    &&& steps.len() > 0 ==> base < steps[0]
    &&& forall|i: int, j: int| 0 <= i < j < steps.len() ==> steps[i] < steps[j]
}

/// Each run among `cmds` starts after the run before it has ended, the
/// first after `base`.
pub open spec fn runs_ordered(base: u64, cmds: Seq<Command>) -> bool
    decreases cmds.len(),
{
    if cmds.len() == 0 {
        true
    } else {
        match cmds[0] {
            Command::SetNextStepDir(_) => runs_ordered(base, cmds.drop_first()),
            Command::QueueStep(q) => {
                &&& base < q.first_clock <= q.last_clock
                &&& runs_ordered(q.last_clock, cmds.drop_first())
            },
        }
    }
}

/// A regular run for steps that grow strictly from `base` starts after
/// `base` with an interval of at least one tick, and ends at or before
/// the last step it stands for.
pub proof fn lemma_regular_run_ordered(base: u64, steps: Seq<u64>, max_error: int, q: QueueStep)
    requires
        max_error >= 0,
        ascending(base, steps),
        regular_run(base, steps, max_error, q),
    ensures
        q.interval >= 1,
        base < q.first_clock <= q.last_clock <= steps[q.count - 1],
{
    let pts = rel_points(steps, 0, base);
    let i = q.interval as int;
    let a = q.add as int;
    let c = q.count as int;
    assert(step_in_range(pts, max_error, i, a, 1));
    assert(add_factor(1) == 0) by (nonlinear_arith);
    assert(i * 1 + a * 0 == i) by (nonlinear_arith);
    assert(pts[0] == steps[0] - base);
    assert(min_point(pts, max_error, 1) >= 1);
    assert(step_in_range(pts, max_error, i, a, c));
    assert(pts[c - 1] == steps[c - 1] - base);
    if c >= 2 {
        assert(pts[c - 2] == steps[c - 2] - base);
        assert(steps[0] <= steps[c - 2]);
        assert(steps[c - 2] < steps[c - 1]);
        assert(min_point(pts, max_error, c) >= pts[c - 2]);
    }
}

/// Where the steps taken in grow strictly, every run starts after the one
/// before it has ended.
pub proof fn lemma_runs_ordered(base: u64, steps: Seq<u64>, max_error: int, cmds: Seq<Command>)
    requires
        max_error >= 0,
        ascending(base, steps),
        runs_cover(base, steps, max_error, cmds),
        covered(cmds) <= steps.len(),
    ensures
        runs_ordered(base, cmds),
    decreases cmds.len(),
{
    if cmds.len() > 0 {
        let rest = cmds.drop_first();
        lemma_covered_nonneg(rest);
        match cmds[0] {
            Command::SetNextStepDir(_) => {
                lemma_runs_ordered(base, steps, max_error, rest);
            },
            Command::QueueStep(q) => {
                let c = q.count as int;
                if regular_run(base, steps, max_error, q) {
                    lemma_regular_run_ordered(base, steps, max_error, q);
                }
                let tail = steps.skip(c);
                assert forall|i: int, j: int| 0 <= i < j < tail.len() implies tail[i]
                    < tail[j] by {
                    assert(tail[i] == steps[c + i]);
                    assert(tail[j] == steps[c + j]);
                }
                if tail.len() > 0 {
                    assert(tail[0] == steps[c]);
                    assert(steps[c - 1] < steps[c]);
                }
                lemma_runs_ordered(q.last_clock, tail, max_error, rest);
            },
        }
    }
}

/// The last direction command among `cmds`.
pub open spec fn last_dir(cmds: Seq<Command>) -> Option<SetNextStepDir>
    decreases cmds.len(),
{
    if cmds.len() == 0 {
        None
    } else {
        match cmds.last() {
            Command::SetNextStepDir(d) => Some(d),
            Command::QueueStep(_) => last_dir(cmds.drop_last()),
        }
    }
}

/// Steps are queued only under a direction, and the last direction command
/// emitted is the one for the direction in force.
pub open spec fn direction_announced(m: ScModel) -> bool {
    &&& m.steps.len() > 0 ==> m.sdir == 0 || m.sdir == 1
    &&& m.sdir == 0 || m.sdir == 1 ==> (last_dir(m.emitted) matches Some(d) && d.oid == m.oid
        && d.dir == m.dir_bit(m.sdir))
}

pub proof fn lemma_last_dir_run(cmds: Seq<Command>, q: QueueStep)
    ensures
        last_dir(cmds.push(Command::QueueStep(q))) == last_dir(cmds),
{
    assert(cmds.push(Command::QueueStep(q)).drop_last() =~= cmds);
}

pub proof fn lemma_queue_flush_announced(m: ScModel, move_clock: u64)
    requires
        m.wf(),
        direction_announced(m),
    ensures
        direction_announced(m.queue_flush(move_clock).model),
        last_dir(m.queue_flush(move_clock).model.emitted) == last_dir(m.emitted),
    decreases m.steps.len(),
{
    if m.steps.len() == 0 || m.last_step_clock >= move_clock {
    } else {
        let mv = m.next_run();
        if check_line_result(m.points(), m.max_error as int, mv) is Ok {
            lemma_search_fits(m.points(), m.max_error as int);
            lemma_take_run(m, mv);
            let t = m.take_run(mv);
            let first_clock = (m.last_step_clock + mv.interval) as u64;
            let e = m.emit_run(first_clock, mv);
            lemma_last_dir_run(m.emitted, e.emitted.last()->QueueStep_0);
            assert(e.emitted == m.emitted.push(e.emitted.last()));
            assert(direction_announced(t));
            if mv.count >= m.steps.len() {
            } else {
                lemma_queue_flush_announced(t, move_clock);
            }
        }
    }
}

pub proof fn lemma_queue_append_announced(m: ScModel)
    requires
        m.wf(),
        direction_announced(m),
    ensures
        direction_announced(m.queue_append().model),
{
    lemma_newest(m);
    match m.pending {
        PendingStep::Idle => {},
        PendingStep::Pending { clock, dir } => {
            let s = m.set_next_step_dir(dir);
            lemma_set_next_step_dir(m, dir, 0);
            if m.sdir != dir {
                lemma_queue_flush_announced(m, u64::MAX);
                lemma_queue_flush(m, u64::MAX, 0);
                let g = m.queue_flush(u64::MAX);
                if g.result is Ok {
                    lemma_newest(g.model);
                    assert(g.model.steps.len() == 0);
                }
            }
            assert(direction_announced(s.model));
            if s.result is Ok {
                let i = ScModel { pending: PendingStep::Idle, ..s.model };
                assert(i.points() == s.model.points());
                assert(direction_announced(i));
                lemma_newest(i);
                if clock - i.last_step_clock >= CLOCK_DIFF_MAX {
                    let target = (clock - CLOCK_DIFF_MAX + 1) as u64;
                    lemma_queue_flush_announced(i, target);
                    lemma_queue_flush(i, target, 1);
                    let g = i.queue_flush(target);
                    if g.result is Ok && clock - g.model.last_step_clock >= CLOCK_DIFF_MAX {
                        let e = g.model.emit_run(clock, far_run(g.model.last_step_clock, clock));
                        lemma_last_dir_run(g.model.emitted, e.emitted.last()->QueueStep_0);
                        assert(e.emitted == g.model.emitted.push(e.emitted.last()));
                    }
                } else {
                    if i.steps.len() > QUEUE_WINDOW {
                        let target = i.steps[i.steps.len() - MAX_RUN_STEPS];
                        lemma_queue_flush_announced(i, target);
                        lemma_queue_flush(i, target, 1);
                    }
                }
            }
        },
    }
}

/// A change of direction is announced before any run in the new direction:
/// taking in steps, committing and flushing keep the last direction
/// command emitted in step with the direction of the steps that are queued.
pub proof fn lemma_direction_announced(m: ScModel, sdir: i32, step_clock: u64, move_clock: u64)
    requires
        m.wf(),
        direction_announced(m),
    ensures
        direction_announced(m.commit().model),
        direction_announced(m.flush(move_clock).model),
        direction_announced(m.append(sdir, step_clock).model),
        m.commit().result is Ok && m.pending is Pending ==> m.commit().model.sdir
            == m.pending->dir,
{
    lemma_queue_append_announced(m);
    lemma_queue_append(m, 0);
    lemma_queue_flush_announced(m, move_clock);
    let f = m.queue_append();
    lemma_queue_flush_announced(f.model, move_clock);
}

pub proof fn lemma_queue_flush_anchored(m: ScModel, move_clock: u64)
    requires
        m.wf(),
        anchored(m),
    ensures
        anchored(m.queue_flush(move_clock).model),
    decreases m.steps.len(),
{
    if m.steps.len() == 0 || m.last_step_clock >= move_clock {
    } else {
        let mv = m.next_run();
        if check_line_result(m.points(), m.max_error as int, mv) is Ok {
            lemma_search_fits(m.points(), m.max_error as int);
            lemma_take_run(m, mv);
            let t = m.take_run(mv);
            assert(anchored(t));
            if mv.count >= m.steps.len() {
            } else {
                lemma_queue_flush_anchored(t, move_clock);
            }
        }
    }
}

pub proof fn lemma_queue_append_anchored(m: ScModel)
    requires
        m.wf(),
        anchored(m),
    ensures
        anchored(m.queue_append().model),
{
    lemma_newest(m);
    match m.pending {
        PendingStep::Idle => {},
        PendingStep::Pending { clock, dir } => {
            let s = m.set_next_step_dir(dir);
            lemma_set_next_step_dir(m, dir, 0);
            if m.sdir != dir {
                lemma_queue_flush_anchored(m, u64::MAX);
            }
            assert(anchored(s.model));
            if s.result is Ok {
                let i = ScModel { pending: PendingStep::Idle, ..s.model };
                assert(i.points() == s.model.points());
                lemma_newest(i);
                if clock - i.last_step_clock >= CLOCK_DIFF_MAX {
                    let target = (clock - CLOCK_DIFF_MAX + 1) as u64;
                    lemma_queue_flush_anchored(i, target);
                    lemma_queue_flush(i, target, 1);
                    let g = i.queue_flush(target);
                    if g.result is Ok && clock - g.model.last_step_clock >= CLOCK_DIFF_MAX {
                        lemma_far_run(far_run(g.model.last_step_clock, clock));
                    }
                } else {
                    if i.steps.len() > QUEUE_WINDOW {
                        let target = i.steps[i.steps.len() - MAX_RUN_STEPS];
                        lemma_queue_flush_anchored(i, target);
                    }
                }
            }
        },
    }
}

/// Taking in steps, committing and flushing keep the newest record at the
/// last emitted step, so that the position asked for at that step's clock
/// is the current position.
pub proof fn lemma_anchored_kept(m: ScModel, sdir: i32, step_clock: u64, move_clock: u64)
    requires
        m.wf(),
        anchored(m),
    ensures
        anchored(m.commit().model),
        anchored(m.flush(move_clock).model),
        anchored(m.append(sdir, step_clock).model),
{
    lemma_queue_append_anchored(m);
    lemma_queue_append(m, 0);
    lemma_queue_flush_anchored(m, move_clock);
    let f = m.queue_append();
    lemma_queue_flush_anchored(f.model, move_clock);
}

/// A run that fits steps in order is refused for one reason only: it
/// holds several steps without interval or increment, all at the clock of
/// the last emitted step.
pub proof fn lemma_fitting_run_checked(pts: Seq<int>, max_error: int, mv: StepMove)
    requires
        points_ok(pts),
        max_error >= 0,
        run_fits(pts, max_error, mv.interval as int, mv.count as int, mv.add as int),
    ensures
        invalid_sequence(mv) <==> mv.interval == 0 && mv.add == 0 && mv.count > 1,
        !invalid_sequence(mv) ==> check_line_result(pts, max_error, mv) is Ok,
        invalid_sequence(mv) ==> check_line_result(pts, max_error, mv) == Err::<
            (),
            StepCompressError,
        >(
            StepCompressError::InvalidSequence {
                interval: mv.interval,
                count: mv.count,
                add: mv.add,
            },
        ),
        invalid_sequence(mv) ==> pts[0] == 0 && pts[1] == 0,
{
    let i = mv.interval as int;
    let a = mv.add as int;
    lemma_fit_first(pts, max_error, i, mv.count as int, a);
    assert forall|k: int| 1 <= k <= mv.count implies #[trigger] step_in_range(
        pts,
        max_error,
        i,
        a,
        k,
    ) && interval_at(i, a, k) < 0x8000_0000 by {
        assert(step_in_range(pts, max_error, i, a, k));
        if k >= 2 {
            assert(step_in_range(pts, max_error, i, a, k - 1));
            lemma_run_offset_next(i, a, k - 1);
            lemma_min_point_after_prev(pts, max_error, k - 1);
            lemma_min_point_after_prev(pts, max_error, k);
        }
    }
    lemma_first_fault_ok(pts, max_error, mv, 1);
    if invalid_sequence(mv) {
        assert(step_in_range(pts, max_error, i, a, 2));
        assert(add_factor(2) == 1) by (nonlinear_arith);
        assert(0 * 2 + 0 * 1 == 0) by (nonlinear_arith);
        lemma_min_point_after_prev(pts, max_error, 2);
        lemma_min_point_after_prev(pts, max_error, 1);
    }
}

/// While the first queued step lies after the last emitted one, the run
/// chosen for the head of the queue is accepted.
pub proof fn lemma_next_run_accepted(m: ScModel)
    requires
        m.wf(),
        m.steps.len() > 0,
        m.steps[0] > m.last_step_clock,
    ensures
        check_line_result(m.points(), m.max_error as int, m.next_run()) is Ok,
{
    lemma_search_fits(m.points(), m.max_error as int);
    lemma_fitting_run_checked(m.points(), m.max_error as int, m.next_run());
    assert(m.points()[0] == m.steps[0] - m.last_step_clock);
}

} // verus!
