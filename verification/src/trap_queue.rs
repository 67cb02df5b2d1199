//! Queue of trapezoid segments on one timeline, with the segments that have
//! passed kept for later questions.
//!
//! Times are whole nanoseconds. What a segment does between its start and
//! its end is the caller's own data, carried along unread.

use vstd::prelude::*;
use std::collections::VecDeque;
use crate::itersolve::ActiveFlags;

verus! {

/// Time of the tail sentinel while nothing is queued.
pub const NEVER_TIME: i64 = i64::MAX;

pub const TICKS_PER_SECOND: i64 = 1_000_000_000;

/// Longest segment of rest that is put before the first segment of a queue.
pub const MAX_NULL_MOVE: i64 = 1_000_000_000;

/// End of the head sentinel: one second before time zero.
pub const HEAD_TIME: i64 = -1_000_000_000;

/// Latest time that a segment may end at.
pub const TIME_LIMIT: i64 = 0x3fff_ffff_ffff_ffff;

/// One segment of the timeline.
#[derive(Debug, Clone, Copy)]
pub struct Move<P> {
    /// Start, in nanoseconds.
    pub print_time: i64,
    /// Duration, in nanoseconds.
    pub move_t: i64,
    /// Neither velocity nor acceleration: the toolhead rests.
    pub still: bool,
    /// The segment was put in to fill a gap; it rests where the segment
    /// after it starts, whose data it carries.
    pub fill: bool,
    /// The axes along which the toolhead moves.
    pub axes: ActiveFlags,
    /// The caller's data: velocities, start position, direction.
    pub payload: P,
}

/// Times of the sentinel behind the last segment.
#[derive(Debug, Clone, Copy, PartialEq, Eq, Structural)]
pub struct Sentinel {
    pub print_time: i64,
    pub move_t: i64,
}

/// Why a segment was refused.
#[derive(Debug, Clone, Copy, PartialEq, Eq, Structural)]
pub enum PlanError {
    /// The segment starts before the one before it has ended.
    NonMonotonic,
    /// The segment's duration is negative.
    NegativeDuration,
}

/// One phase of a trapezoid: how long it lasts, and what it does.
#[derive(Debug, Clone, Copy)]
pub struct Phase<P> {
    pub duration: i64,
    pub still: bool,
    pub payload: P,
}

/// End of a segment.
pub open spec fn end_of<P>(m: Move<P>) -> int {
    m.print_time + m.move_t
}

/// A segment with times inside the limits.
pub open spec fn move_ok<P>(m: Move<P>) -> bool {
    &&& m.move_t >= 0
    &&& HEAD_TIME <= m.print_time
    &&& end_of(m) <= TIME_LIMIT
    &&& m.fill ==> m.still
}

/// Each segment starts where the one before it ends.
pub open spec fn gap_free<P>(moves: Seq<Move<P>>) -> bool {
    forall|i: int| 0 <= i < moves.len() - 1 ==> end_of(#[trigger] moves[i]) == moves[i + 1].print_time
}

/// Newest first: no record starts after the one before it in the sequence.
pub open spec fn newest_first<P>(history: Seq<Move<P>>) -> bool {
    forall|i: int, j: int|
        0 <= i <= j < history.len() ==> (#[trigger] history[i]).print_time >= (
        #[trigger] history[j]).print_time
}

/// The segment of rest that fills the time from `start` to the start of `m`.
pub open spec fn fill_before<P>(m: Move<P>, start: i64) -> Move<P> {
    Move {
        print_time: start,
        move_t: (m.print_time - start) as i64,
        still: true,
        fill: true,
        axes: ActiveFlags::none(),
        payload: m.payload,
    }
}

/// Start of the rest before the first segment of a queue: the end of the
/// head sentinel, or `MAX_NULL_MOVE` before the segment where that is later.
pub open spec fn first_fill_start(print_time: i64) -> i64 {
    if print_time > MAX_NULL_MOVE {
        (print_time - MAX_NULL_MOVE) as i64
    } else {
        HEAD_TIME
    }
}

/// The queue with `m` behind it, and with rest before `m` where time is
/// left open.
pub open spec fn with_move<P>(moves: Seq<Move<P>>, last_end: i64, m: Move<P>) -> Seq<Move<P>> {
    if moves.len() == 0 {
        if HEAD_TIME < m.print_time {
            seq![fill_before(m, first_fill_start(m.print_time)), m]
        } else {
            seq![m]
        }
    } else if last_end < m.print_time {
        moves.push(fill_before(m, last_end)).push(m)
    } else {
        moves.push(m)
    }
}

/// Number of segments at the front of `moves` that end at or before `time`.
pub open spec fn expired<P>(moves: Seq<Move<P>>, time: i64) -> int
    decreases moves.len(),
{
    if moves.len() == 0 || end_of(moves[0]) > time {
        0
    } else {
        1 + expired(moves.drop_first(), time)
    }
}

/// The records with the first `count` of `moves` added, the later ones
/// before the earlier ones; segments of rest are left out.
pub open spec fn archive<P>(history: Seq<Move<P>>, moves: Seq<Move<P>>, count: int) -> Seq<Move<P>>
    decreases count,
{
    if count <= 0 || moves.len() == 0 {
        history
    } else if moves[0].still {
        archive(history, moves.drop_first(), count - 1)
    } else {
        archive(seq![moves[0]] + history, moves.drop_first(), count - 1)
    }
}

/// The records without the oldest ones that ended at or before `time`;
/// the newest one stays whatever its time.
pub open spec fn trimmed<P>(history: Seq<Move<P>>, time: i64) -> Seq<Move<P>>
    decreases history.len(),
{
    if history.len() <= 1 || end_of(history.last()) > time {
        history
    } else {
        trimmed(history.drop_last(), time)
    }
}

/// The records without the newest ones that start at or after `time`.
pub open spec fn rewound<P>(history: Seq<Move<P>>, time: i64) -> Seq<Move<P>>
    decreases history.len(),
{
    if history.len() == 0 || history[0].print_time < time {
        history
    } else {
        rewound(history.drop_first(), time)
    }
}

/// The records with the newest one cut off at `time` where it reaches beyond.
pub open spec fn cut_at<P>(history: Seq<Move<P>>, time: i64) -> Seq<Move<P>> {
    if history.len() > 0 && end_of(history[0]) > time {
        history.update(0, Move { move_t: (time - history[0].print_time) as i64, ..history[0] })
    } else {
        history
    }
}

/// The record that marks a position set from outside at `time`.
pub open spec fn marker<P>(time: i64, payload: P) -> Move<P> {
    Move {
        print_time: time,
        move_t: 0,
        still: true,
        fill: false,
        axes: ActiveFlags::none(),
        payload,
    }
}

/// The segments among `moves[..upto]` and then `history[from..]` that
/// overlap the time from `start_time` to `end_time`, later ones first,
/// added to `acc` until it holds `max` or a segment ends before `start_time`.
pub open spec fn pulled_active<P>(
    moves: Seq<Move<P>>,
    upto: int,
    history: Seq<Move<P>>,
    max: int,
    start_time: i64,
    end_time: i64,
    acc: Seq<Move<P>>,
) -> Seq<Move<P>>
    decreases upto,
{
    if upto <= 0 || upto > moves.len() {
        pulled_history(history, 0, max, start_time, end_time, acc)
    } else if acc.len() >= max {
        acc
    } else if moves[upto - 1].print_time > end_time {
        pulled_active(moves, upto - 1, history, max, start_time, end_time, acc)
    } else if end_of(moves[upto - 1]) < start_time {
        pulled_history(history, 0, max, start_time, end_time, acc)
    } else {
        pulled_active(
            moves,
            upto - 1,
            history,
            max,
            start_time,
            end_time,
            acc.push(moves[upto - 1]),
        )
    }
}

pub open spec fn pulled_history<P>(
    history: Seq<Move<P>>,
    from: int,
    max: int,
    start_time: i64,
    end_time: i64,
    acc: Seq<Move<P>>,
) -> Seq<Move<P>>
    decreases history.len() - from,
{
    if from < 0 || from >= history.len() || acc.len() >= max {
        acc
    } else if history[from].print_time > end_time {
        pulled_history(history, from + 1, max, start_time, end_time, acc)
    } else if end_of(history[from]) < start_time {
        acc
    } else {
        pulled_history(history, from + 1, max, start_time, end_time, acc.push(history[from]))
    }
}

/// A queue's state as mathematics.
pub struct TqModel<P> {
    /// The queued segments in time order.
    pub active: Seq<Move<P>>,
    /// The segments that have passed, newest first.
    pub past: Seq<Move<P>>,
    /// End of the last segment taken in, or the time of the last position
    /// set from outside: no segment may start before it.
    pub last_end: i64,
    pub tail: Sentinel,
    /// The tail sentinel is to be computed anew.
    pub tail_stale: bool,
}

/// Outcome of taking in a segment: the state left and the verdict.
pub struct Planned<P> {
    pub model: TqModel<P>,
    pub result: Result<(), PlanError>,
}

pub open spec fn never() -> Sentinel {
    Sentinel { print_time: NEVER_TIME, move_t: NEVER_TIME }
}

impl<P> TqModel<P> {
    pub open spec fn wf(self) -> bool {
        &&& forall|i: int| 0 <= i < self.active.len() ==> move_ok(#[trigger] self.active[i])
        &&& gap_free(self.active)
        &&& HEAD_TIME <= self.last_end <= TIME_LIMIT
        &&& self.active.len() > 0 ==> end_of(self.active.last()) == self.last_end
        &&& forall|i: int| 0 <= i < self.past.len() ==> move_ok(#[trigger] self.past[i])
        &&& newest_first(self.past)
        &&& self.past.len() > 0 ==> self.past[0].print_time <= self.last_end
        &&& forall|i: int|
            0 <= i < self.active.len() && self.past.len() > 0 && !(#[trigger] self.active[i]).still
                ==> self.active[i].print_time >= self.past[0].print_time
        &&& if self.tail_stale {
            self.tail == (Sentinel { print_time: 0, move_t: 0 }) && self.active.len() > 0
        } else if self.active.len() == 0 {
            self.tail == never()
        } else {
            self.tail == (Sentinel { print_time: self.last_end, move_t: 0 })
        }
    }

    /// The tail sentinel computed anew where it was stale: at the end of the
    /// last segment.
    pub open spec fn check_sentinels(self) -> TqModel<P> {
        if self.tail_stale {
            TqModel {
                tail: Sentinel { print_time: self.last_end, move_t: 0 },
                tail_stale: false,
                ..self
            }
        } else {
            self
        }
    }

    /// Takes in the segment `m` behind the queue, with rest before it where
    /// time is left open. A negative duration and a start before the end of
    /// the segment before it are refused.
    pub open spec fn add_move(self, m: Move<P>) -> Planned<P> {
        if m.move_t < 0 {
            Planned { model: self, result: Err(PlanError::NegativeDuration) }
        } else if m.print_time < self.last_end {
            Planned { model: self, result: Err(PlanError::NonMonotonic) }
        } else {
            Planned {
                model: TqModel {
                    active: with_move(self.active, self.last_end, m),
                    last_end: (m.print_time + m.move_t) as i64,
                    tail: Sentinel { print_time: 0, move_t: 0 },
                    tail_stale: true,
                    ..self
                },
                result: Ok(()),
            }
        }
    }

    /// Takes in one phase of a trapezoid at `time`, where it lasts.
    pub open spec fn add_phase(self, time: i64, axes: ActiveFlags, phase: Phase<P>) -> Planned<P> {
        if phase.duration > 0 {
            self.add_move(
                Move {
                    print_time: time,
                    move_t: phase.duration,
                    still: phase.still,
                    fill: false,
                    axes,
                    payload: phase.payload,
                },
            )
        } else {
            Planned { model: self, result: Ok(()) }
        }
    }

    /// Takes in a trapezoid that starts at `print_time`: its acceleration,
    /// cruise and deceleration, each where it lasts, one behind the other.
    pub open spec fn append(
        self,
        print_time: i64,
        axes: ActiveFlags,
        accel: Phase<P>,
        cruise: Phase<P>,
        decel: Phase<P>,
    ) -> Planned<P> {
        let a = self.add_phase(print_time, axes, accel);
        if a.result is Err {
            a
        } else {
            let t1 = (print_time + lasting(accel.duration)) as i64;
            let c = a.model.add_phase(t1, axes, cruise);
            if c.result is Err {
                c
            } else {
                let t2 = (t1 + lasting(cruise.duration)) as i64;
                c.model.add_phase(t2, axes, decel)
            }
        }
    }

    /// Moves the segments that end at or before `print_time` to the
    /// records, leaving out those of rest, and forgets the records that
    /// ended at or before `clear_history_time`, but for the newest.
    pub open spec fn finalize_moves(self, print_time: i64, clear_history_time: i64) -> TqModel<P> {
        let count = expired(self.active, print_time);
        let rest = self.active.skip(count);
        TqModel {
            active: rest,
            past: trimmed(archive(self.past, self.active, count), clear_history_time),
            tail: if rest.len() == 0 {
                never()
            } else {
                self.tail
            },
            tail_stale: if rest.len() == 0 {
                false
            } else {
                self.tail_stale
            },
            ..self
        }
    }

    /// Records that the toolhead was put at the position that `payload`
    /// holds at `print_time`: every queued segment moves to the records,
    /// the records from `print_time` on are dropped, the one that reaches
    /// beyond `print_time` is cut off there, and a marker is put in front.
    pub open spec fn set_position(self, print_time: i64, payload: P) -> TqModel<P> {
        let f = self.finalize_moves(NEVER_TIME, 0);
        TqModel {
            past: seq![marker(print_time, payload)] + cut_at(
                rewound(f.past, print_time),
                print_time,
            ),
            last_end: print_time,
            ..f
        }
    }
}

/// The time that a phase takes: its duration where that is positive.
pub open spec fn lasting(duration: i64) -> int {
    if duration > 0 {
        duration as int
    } else {
        0
    }
}

/// In a queue without gaps, an earlier segment ends at or before the start
/// of a later one.
pub proof fn lemma_time_ordered<P>(moves: Seq<Move<P>>, i: int, j: int)
    requires
        gap_free(moves),
        forall|k: int| 0 <= k < moves.len() ==> move_ok(#[trigger] moves[k]),
        0 <= i < j < moves.len(),
    ensures
        end_of(moves[i]) <= moves[j].print_time,
        end_of(moves[i]) <= end_of(moves[j]),
        moves[i].print_time <= moves[j].print_time,
    decreases j - i,
{
    assert(move_ok(moves[i]));
    assert(move_ok(moves[j]));
    if j == i + 1 {
        assert(end_of(moves[i]) == moves[i + 1].print_time);
    } else {
        lemma_time_ordered(moves, i, j - 1);
        assert(move_ok(moves[j - 1]));
        assert(end_of(moves[j - 1]) == moves[j - 1 + 1].print_time);
    }
}

/// Taking in a segment keeps the queue in order and without gaps.
pub proof fn lemma_add_move<P>(q: TqModel<P>, m: Move<P>)
    requires
        q.wf(),
        HEAD_TIME <= m.print_time,
        m.print_time + m.move_t <= TIME_LIMIT,
        m.fill ==> m.still,
    ensures
        q.add_move(m).model.wf(),
        q.add_move(m).result is Ok ==> q.add_move(m).model.active.len() > 0
            && q.add_move(m).model.active.last() == m,
{
    let r = q.add_move(m).model;
    if q.add_move(m).result is Ok {
        let a = r.active;
        if q.active.len() == 0 {
            if HEAD_TIME < m.print_time {
                let f = fill_before(m, first_fill_start(m.print_time));
                assert(a[0] == f && a[1] == m);
                assert(move_ok(f));
            }
        } else if q.last_end < m.print_time {
            let f = fill_before(m, q.last_end);
            assert(move_ok(f));
            assert(a[a.len() - 2] == f);
            assert forall|i: int| 0 <= i < a.len() implies move_ok(#[trigger] a[i]) by {
                if i < q.active.len() {
                    assert(a[i] == q.active[i]);
                }
            }
            assert forall|i: int| 0 <= i < a.len() - 1 implies end_of(#[trigger] a[i]) == a[i
                + 1].print_time by {
                if i < q.active.len() - 1 {
                    assert(a[i] == q.active[i]);
                    assert(a[i + 1] == q.active[i + 1]);
                } else if i == q.active.len() - 1 {
                    assert(a[i] == q.active.last());
                }
            }
        } else {
            assert forall|i: int| 0 <= i < a.len() implies move_ok(#[trigger] a[i]) by {
                if i < q.active.len() {
                    assert(a[i] == q.active[i]);
                }
            }
            assert forall|i: int| 0 <= i < a.len() - 1 implies end_of(#[trigger] a[i]) == a[i
                + 1].print_time by {
                if i < q.active.len() - 1 {
                    assert(a[i] == q.active[i]);
                    assert(a[i + 1] == q.active[i + 1]);
                } else {
                    assert(a[i] == q.active.last());
                }
            }
        }
        assert forall|i: int|
            0 <= i < a.len() && r.past.len() > 0 && !(#[trigger] a[i]).still implies a[i].print_time
            >= r.past[0].print_time by {
            if i < q.active.len() && q.active.len() > 0 {
                assert(a[i] == q.active[i]);
            }
        }
    }
}

pub proof fn lemma_expired_bounds<P>(moves: Seq<Move<P>>, time: i64)
    ensures
        0 <= expired(moves, time) <= moves.len(),
    decreases moves.len(),
{
    if moves.len() == 0 || end_of(moves[0]) > time {
    } else {
        lemma_expired_bounds(moves.drop_first(), time);
    }
}

/// What holds of the two lists of a well-formed queue.
pub open spec fn lists_ok<P>(active: Seq<Move<P>>, past: Seq<Move<P>>, last_end: i64) -> bool {
    &&& forall|i: int| 0 <= i < active.len() ==> move_ok(#[trigger] active[i])
    &&& gap_free(active)
    &&& HEAD_TIME <= last_end <= TIME_LIMIT
    &&& active.len() > 0 ==> end_of(active.last()) == last_end
    &&& forall|i: int| 0 <= i < past.len() ==> move_ok(#[trigger] past[i])
    &&& newest_first(past)
    &&& past.len() > 0 ==> past[0].print_time <= last_end
    &&& forall|i: int|
        0 <= i < active.len() && past.len() > 0 && !(#[trigger] active[i]).still
            ==> active[i].print_time >= past[0].print_time
}

/// Moving the first queued segment to the records keeps both lists in order.
pub proof fn lemma_settle_one<P>(active: Seq<Move<P>>, past: Seq<Move<P>>, last_end: i64)
    requires
        lists_ok(active, past, last_end),
        active.len() > 0,
    ensures
        lists_ok(active.drop_first(), past, last_end),
        !active[0].still ==> lists_ok(active.drop_first(), seq![active[0]] + past, last_end),
        forall|i: int| 0 <= i < active.len() ==> end_of(active[0]) <= end_of(#[trigger] active[i]),
{
    let rest = active.drop_first();
    assert forall|i: int| 0 <= i < rest.len() implies move_ok(#[trigger] rest[i]) by {
        assert(rest[i] == active[i + 1]);
    }
    assert forall|i: int| 0 <= i < rest.len() - 1 implies end_of(#[trigger] rest[i]) == rest[i
        + 1].print_time by {
        assert(rest[i] == active[i + 1]);
        assert(rest[i + 1] == active[i + 2]);
        assert(end_of(active[i + 1]) == active[i + 1 + 1].print_time);
    }
    if rest.len() > 0 {
        assert(rest.last() == active.last());
    }
    assert forall|i: int|
        0 <= i < rest.len() && past.len() > 0 && !(#[trigger] rest[i]).still implies rest[i].print_time
        >= past[0].print_time by {
        assert(rest[i] == active[i + 1]);
    }
    assert forall|i: int| 0 <= i < active.len() implies end_of(active[0]) <= end_of(
        #[trigger] active[i],
    ) by {
        if i > 0 {
            lemma_time_ordered(active, 0, i);
        }
    }
    if !active[0].still {
        let m = active[0];
        let joined = seq![m] + past;
        assert(move_ok(m));
        assert(end_of(m) <= end_of(active.last()));
        assert forall|i: int| 0 <= i < joined.len() implies move_ok(#[trigger] joined[i]) by {
            if i > 0 {
                assert(joined[i] == past[i - 1]);
            }
        }
        assert forall|i: int, j: int| 0 <= i <= j < joined.len() implies (#[trigger] joined[i]).print_time
            >= (#[trigger] joined[j]).print_time by {
            if i > 0 {
                assert(joined[i] == past[i - 1]);
                assert(joined[j] == past[j - 1]);
            } else if j > 0 {
                assert(joined[j] == past[j - 1]);
                assert(past[0].print_time >= past[j - 1].print_time);
            }
        }
        assert forall|i: int|
            0 <= i < rest.len() && joined.len() > 0 && !(#[trigger] rest[i]).still implies rest[i].print_time
            >= joined[0].print_time by {
            assert(rest[i] == active[i + 1]);
            lemma_time_ordered(active, 0, i + 1);
        }
    }
}

/// The timeline of trapezoid segments.
pub struct TrapQueue<P> {
    moves: VecDeque<Move<P>>,
    history: VecDeque<Move<P>>,
    last_end: i64,
    tail: Sentinel,
    tail_stale: bool,
}

impl<P: Copy> View for TrapQueue<P> {
    type V = TqModel<P>;

    closed spec fn view(&self) -> TqModel<P> {
        TqModel {
            active: self.moves@,
            past: self.history@,
            last_end: self.last_end,
            tail: self.tail,
            tail_stale: self.tail_stale,
        }
    }
}

impl<P: Copy> TrapQueue<P> {
    /// An empty queue: nothing queued, nothing recorded, the tail sentinel
    /// at `NEVER_TIME`.
    pub fn new() -> (queue: Self)
        ensures
            queue@.wf(),
            queue@ == (TqModel {
                active: Seq::<Move<P>>::empty(),
                past: Seq::<Move<P>>::empty(),
                last_end: HEAD_TIME,
                tail: never(),
                tail_stale: false,
            }),
    {
        TrapQueue {
            moves: VecDeque::new(),
            history: VecDeque::new(),
            last_end: HEAD_TIME,
            tail: Sentinel { print_time: NEVER_TIME, move_t: NEVER_TIME },
            tail_stale: false,
        }
    }

    /// Computes the tail sentinel anew where a segment was taken in since:
    /// it then stands at the end of the last segment.
    pub fn check_sentinels(&mut self)
        requires
            old(self)@.wf(),
        ensures
            final(self)@.wf(),
            final(self)@ == old(self)@.check_sentinels(),
            !final(self)@.tail_stale,
            final(self)@.active.len() == 0 ==> final(self)@.tail == never(),
            final(self)@.active.len() > 0 ==> final(self)@.tail.print_time == end_of(
                final(self)@.active.last(),
            ),
    {
        if self.tail_stale {
            self.tail = Sentinel { print_time: self.last_end, move_t: 0 };
            self.tail_stale = false;
        }
    }

    /// Takes in a segment behind the queue. Where it starts after the end
    /// of the segment before it, a segment of rest fills the time between;
    /// before the first segment of a queue the rest lasts from the head
    /// sentinel on, or for `MAX_NULL_MOVE` where that is shorter.
    pub fn add_move(&mut self, m: Move<P>) -> (r: Result<(), PlanError>)
        requires
            old(self)@.wf(),
            HEAD_TIME <= m.print_time,
            m.print_time + m.move_t <= TIME_LIMIT,
            m.fill ==> m.still,
        ensures
            final(self)@.wf(),
            final(self)@ == old(self)@.add_move(m).model,
            r == old(self)@.add_move(m).result,
    {
        proof {
            lemma_add_move(old(self)@, m);
        }
        if m.move_t < 0 {
            return Err(PlanError::NegativeDuration);
        }
        if m.print_time < self.last_end {
            return Err(PlanError::NonMonotonic);
        }
        if self.moves.len() == 0 {
            if HEAD_TIME < m.print_time {
                let start: i64 = if m.print_time > MAX_NULL_MOVE {
                    m.print_time - MAX_NULL_MOVE
                } else {
                    HEAD_TIME
                };
                self.moves.push_back(
                    Move {
                        print_time: start,
                        move_t: m.print_time - start,
                        still: true,
                        fill: true,
                        axes: ActiveFlags::new(),
                        payload: m.payload,
                    },
                );
            }
        } else if self.last_end < m.print_time {
            self.moves.push_back(
                Move {
                    print_time: self.last_end,
                    move_t: m.print_time - self.last_end,
                    still: true,
                    fill: true,
                    axes: ActiveFlags::new(),
                    payload: m.payload,
                },
            );
        }
        self.moves.push_back(m);
        self.last_end = m.print_time + m.move_t;
        self.tail = Sentinel { print_time: 0, move_t: 0 };
        self.tail_stale = true;
        proof {
            assert(self@.active =~= with_move(old(self)@.active, old(self)@.last_end, m));
        }
        Ok(())
    }

    /// Takes in one phase of a trapezoid at `time`, where it lasts.
    fn add_phase(&mut self, time: i64, axes: ActiveFlags, phase: Phase<P>) -> (r: Result<
        (),
        PlanError,
    >)
        requires
            old(self)@.wf(),
            HEAD_TIME <= time,
            time + lasting(phase.duration) <= TIME_LIMIT,
        ensures
            final(self)@.wf(),
            final(self)@ == old(self)@.add_phase(time, axes, phase).model,
            r == old(self)@.add_phase(time, axes, phase).result,
    {
        if phase.duration > 0 {
            self.add_move(
                Move {
                    print_time: time,
                    move_t: phase.duration,
                    still: phase.still,
                    fill: false,
                    axes,
                    payload: phase.payload,
                },
            )
        } else {
            Ok(())
        }
    }

    /// Takes in a trapezoid that starts at `print_time`: acceleration,
    /// cruise and deceleration, one behind the other, each where its
    /// duration is positive.
    pub fn append(
        &mut self,
        print_time: i64,
        axes: ActiveFlags,
        accel: Phase<P>,
        cruise: Phase<P>,
        decel: Phase<P>,
    ) -> (r: Result<(), PlanError>)
        requires
            old(self)@.wf(),
            HEAD_TIME <= print_time,
            print_time + lasting(accel.duration) + lasting(cruise.duration) + lasting(
                decel.duration,
            ) <= TIME_LIMIT,
        ensures
            final(self)@.wf(),
            final(self)@ == old(self)@.append(print_time, axes, accel, cruise, decel).model,
            r == old(self)@.append(print_time, axes, accel, cruise, decel).result,
    {
        let mut time: i64 = print_time;
        match self.add_phase(time, axes, accel) {
            Err(e) => {
                return Err(e);
            },
            Ok(_) => {},
        }
        if accel.duration > 0 {
            time = time + accel.duration;
        }
        match self.add_phase(time, axes, cruise) {
            Err(e) => {
                return Err(e);
            },
            Ok(_) => {},
        }
        if cruise.duration > 0 {
            time = time + cruise.duration;
        }
        self.add_phase(time, axes, decel)
    }

    /// Moves the segments that end at or before `print_time` to the
    /// records, leaving out those of rest, and forgets the records that
    /// ended at or before `clear_history_time`. The newest record stays
    /// whatever its time.
    pub fn finalize_moves(&mut self, print_time: i64, clear_history_time: i64)
        requires
            old(self)@.wf(),
        ensures
            final(self)@.wf(),
            final(self)@ == old(self)@.finalize_moves(print_time, clear_history_time),
            forall|i: int|
                0 <= i < final(self)@.active.len() ==> end_of(#[trigger] final(self)@.active[i])
                    > print_time,
    {
        let ghost start = self@;
        loop
            invariant
                lists_ok(self@.active, self@.past, self@.last_end),
                self@.last_end == start.last_end,
                self@.tail == start.tail,
                self@.tail_stale == start.tail_stale,
                start == old(self)@,
                start.wf(),
                self@.active.skip(expired(self@.active, print_time)) == start.active.skip(
                    expired(start.active, print_time),
                ),
                archive(self@.past, self@.active, expired(self@.active, print_time)) == archive(
                    start.past,
                    start.active,
                    expired(start.active, print_time),
                ),
            ensures
                lists_ok(self@.active, self@.past, self@.last_end),
                self@.last_end == start.last_end,
                self@.tail == start.tail,
                self@.tail_stale == start.tail_stale,
                self@.active == start.active.skip(expired(start.active, print_time)),
                self@.past == archive(start.past, start.active, expired(start.active, print_time)),
                forall|i: int|
                    0 <= i < self@.active.len() ==> end_of(#[trigger] self@.active[i]) > print_time,
            decreases self@.active.len(),
        {
            if self.moves.len() == 0 {
                proof {
                    assert(self@.active.skip(0) =~= self@.active);
                }
                break ;
            }
            let m = self.moves[0];
            assert(move_ok(self@.active[0]));
            if m.print_time + m.move_t > print_time {
                proof {
                    assert(self@.active.skip(0) =~= self@.active);
                    lemma_settle_one(self@.active, self@.past, self@.last_end);
                }
                break ;
            }
            proof {
                lemma_settle_one(self@.active, self@.past, self@.last_end);
                lemma_expired_bounds(self@.active.drop_first(), print_time);
                assert(self@.active.skip(1 + expired(self@.active.drop_first(), print_time))
                    =~= self@.active.drop_first().skip(
                    expired(self@.active.drop_first(), print_time),
                ));
            }
            let ghost before = self@;
            self.moves.pop_front();
            proof {
                assert(self@.active =~= before.active.drop_first());
            }
            if !m.still {
                self.history.push_front(m);
            }
        }
        if self.moves.len() == 0 {
            self.tail = Sentinel { print_time: NEVER_TIME, move_t: NEVER_TIME };
            self.tail_stale = false;
        }
        let ghost settled = self@;
        loop
            invariant
                self@ == (TqModel { past: self@.past, ..settled }),
                lists_ok(self@.active, self@.past, self@.last_end),
                trimmed(self@.past, clear_history_time) == trimmed(
                    settled.past,
                    clear_history_time,
                ),
            ensures
                self@ == (TqModel { past: trimmed(settled.past, clear_history_time), ..settled }),
                lists_ok(self@.active, self@.past, self@.last_end),
            decreases self@.past.len(),
        {
            let n = self.history.len();
            if n <= 1 {
                break ;
            }
            let last = self.history[n - 1];
            assert(move_ok(self@.past[n - 1]));
            if last.print_time + last.move_t > clear_history_time {
                break ;
            }
            let ghost before = self@;
            self.history.pop_back();
            proof {
                assert(self@.past =~= before.past.drop_last());
                assert forall|i: int| 0 <= i < self@.past.len() implies move_ok(
                    #[trigger] self@.past[i],
                ) by {
                    assert(self@.past[i] == before.past[i]);
                }
                assert forall|i: int, j: int| 0 <= i <= j < self@.past.len() implies (
                #[trigger] self@.past[i]).print_time >= (#[trigger] self@.past[j]).print_time by {
                    assert(self@.past[i] == before.past[i]);
                    assert(self@.past[j] == before.past[j]);
                }
                assert(self@.past[0] == before.past[0]);
            }
        }
    }

    /// The queued segments in time order.
    pub fn get_active_moves(&self) -> (moves: &VecDeque<Move<P>>)
        ensures
            moves@ == self@.active,
    {
        &self.moves
    }

    /// The recorded segments, newest first.
    pub fn get_history_moves(&self) -> (moves: &VecDeque<Move<P>>)
        ensures
            moves@ == self@.past,
    {
        &self.history
    }

    pub fn active_len(&self) -> (n: usize)
        ensures
            n == self@.active.len(),
    {
        self.moves.len()
    }

    pub fn history_len(&self) -> (n: usize)
        ensures
            n == self@.past.len(),
    {
        self.history.len()
    }

    /// The tail sentinel as it stands: zero times while it is stale.
    pub fn tail_sentinel(&self) -> (tail: Sentinel)
        ensures
            tail == self@.tail,
    {
        self.tail
    }

    /// The time that the next segment may not start before.
    pub fn last_end(&self) -> (time: i64)
        ensures
            time == self@.last_end,
    {
        self.last_end
    }

    /// Records that the toolhead was put at the position that `payload`
    /// holds at `print_time`. Every queued segment moves to the records;
    /// the records that start at or after `print_time` are dropped, the one
    /// that reaches beyond it is cut off there, and a marker without
    /// duration is put in front.
    pub fn set_position(&mut self, print_time: i64, payload: P)
        requires
            old(self)@.wf(),
            HEAD_TIME <= print_time <= TIME_LIMIT,
        ensures
            final(self)@.wf(),
            final(self)@ == old(self)@.set_position(print_time, payload),
            final(self)@.active.len() == 0,
    {
        self.finalize_moves(NEVER_TIME, 0);
        let ghost flushed = self@;
        proof {
            if flushed.active.len() > 0 {
                assert(move_ok(flushed.active[0]));
                assert(end_of(flushed.active[0]) > NEVER_TIME);
            }
        }
        loop
            invariant
                self@ == (TqModel { past: self@.past, ..flushed }),
                flushed.active.len() == 0,
                forall|i: int| 0 <= i < self@.past.len() ==> move_ok(#[trigger] self@.past[i]),
                newest_first(self@.past),
                rewound(self@.past, print_time) == rewound(flushed.past, print_time),
            ensures
                self@ == (TqModel { past: rewound(flushed.past, print_time), ..flushed }),
                forall|i: int| 0 <= i < self@.past.len() ==> move_ok(#[trigger] self@.past[i]),
                newest_first(self@.past),
                self@.past.len() > 0 ==> self@.past[0].print_time < print_time,
            decreases self@.past.len(),
        {
            if self.history.len() == 0 {
                break ;
            }
            let first = self.history[0];
            if first.print_time < print_time {
                break ;
            }
            let ghost before = self@;
            self.history.pop_front();
            proof {
                assert(self@.past =~= before.past.drop_first());
                assert forall|i: int| 0 <= i < self@.past.len() implies move_ok(
                    #[trigger] self@.past[i],
                ) by {
                    assert(self@.past[i] == before.past[i + 1]);
                }
                assert forall|i: int, j: int| 0 <= i <= j < self@.past.len() implies (
                #[trigger] self@.past[i]).print_time >= (#[trigger] self@.past[j]).print_time by {
                    assert(self@.past[i] == before.past[i + 1]);
                    assert(self@.past[j] == before.past[j + 1]);
                }
            }
        }
        let ghost rewound_state = self@;
        if self.history.len() > 0 {
            let first = self.history[0];
            assert(move_ok(self@.past[0]));
            if first.print_time + first.move_t > print_time {
                self.history.pop_front();
                self.history.push_front(
                    Move {
                        print_time: first.print_time,
                        move_t: print_time - first.print_time,
                        still: first.still,
                        fill: first.fill,
                        axes: first.axes,
                        payload: first.payload,
                    },
                );
                proof {
                    assert(self@.past =~= cut_at(rewound_state.past, print_time));
                }
            }
        }
        let ghost cut = self@;
        proof {
            assert(cut.past == cut_at(rewound_state.past, print_time));
            assert forall|i: int| 0 <= i < cut.past.len() implies move_ok(#[trigger] cut.past[i])
                && cut.past[i].print_time == rewound_state.past[i].print_time by {
                if i > 0 {
                    assert(cut.past[i] == rewound_state.past[i]);
                }
                assert(move_ok(rewound_state.past[i]));
            }
        }
        self.history.push_front(
            Move {
                print_time,
                move_t: 0,
                still: true,
                fill: false,
                axes: ActiveFlags::new(),
                payload,
            },
        );
        self.last_end = print_time;
        proof {
            let p = self@.past;
            assert(p =~= seq![marker(print_time, payload)] + cut.past);
            assert forall|i: int| 0 <= i < p.len() implies move_ok(#[trigger] p[i]) by {
                if i > 0 {
                    assert(p[i] == cut.past[i - 1]);
                }
            }
            assert forall|i: int, j: int| 0 <= i <= j < p.len() implies (#[trigger] p[i]).print_time
                >= (#[trigger] p[j]).print_time by {
                if i > 0 {
                    assert(p[i] == cut.past[i - 1]);
                    assert(p[j] == cut.past[j - 1]);
                    assert(rewound_state.past[i - 1].print_time >= rewound_state.past[j
                        - 1].print_time);
                } else if j > 0 {
                    assert(p[j] == cut.past[j - 1]);
                    assert(rewound_state.past[0].print_time >= rewound_state.past[j
                        - 1].print_time);
                }
            }
        }
    }

    /// Up to `max` segments that overlap the time from `start_time` to
    /// `end_time`: the queued ones from the last on, then the recorded
    /// ones from the newest on. The search ends at the first segment that
    /// ends before `start_time`.
    pub fn extract_old(&self, max: usize, start_time: i64, end_time: i64) -> (res: Vec<Move<P>>)
        requires
            self@.wf(),
        ensures
            res@ == pulled_active(
                self@.active,
                self@.active.len() as int,
                self@.past,
                max as int,
                start_time,
                end_time,
                Seq::<Move<P>>::empty(),
            ),
            res@.len() <= max,
            forall|k: int|
                0 <= k < res@.len() ==> (#[trigger] res@[k]).print_time <= end_time && end_of(
                    res@[k],
                ) >= start_time,
    {
        let mut res: Vec<Move<P>> = Vec::new();
        let mut upto: usize = self.moves.len();
        let ghost goal = pulled_active(
            self@.active,
            self@.active.len() as int,
            self@.past,
            max as int,
            start_time,
            end_time,
            Seq::<Move<P>>::empty(),
        );
        loop
            invariant
                self@.wf(),
                upto <= self@.active.len(),
                res@.len() <= max,
                forall|k: int|
                    0 <= k < res@.len() ==> (#[trigger] res@[k]).print_time <= end_time && end_of(
                        res@[k],
                    ) >= start_time,
                pulled_active(
                    self@.active,
                    upto as int,
                    self@.past,
                    max as int,
                    start_time,
                    end_time,
                    res@,
                ) == goal,
            ensures
                res@.len() <= max,
                forall|k: int|
                    0 <= k < res@.len() ==> (#[trigger] res@[k]).print_time <= end_time && end_of(
                        res@[k],
                    ) >= start_time,
                pulled_history(self@.past, 0, max as int, start_time, end_time, res@) == goal,
            decreases upto,
        {
            if upto == 0 {
                break ;
            }
            if res.len() >= max {
                break ;
            }
            let m = self.moves[upto - 1];
            assert(move_ok(self@.active[upto - 1]));
            if m.print_time > end_time {
                upto = upto - 1;
            } else if m.print_time + m.move_t < start_time {
                break ;
            } else {
                res.push(m);
                upto = upto - 1;
            }
        }
        let mut from: usize = 0;
        while from < self.history.len() && res.len() < max
            invariant
                self@.wf(),
                goal == pulled_active(
                    self@.active,
                    self@.active.len() as int,
                    self@.past,
                    max as int,
                    start_time,
                    end_time,
                    Seq::<Move<P>>::empty(),
                ),
                from <= self@.past.len(),
                res@.len() <= max,
                forall|k: int|
                    0 <= k < res@.len() ==> (#[trigger] res@[k]).print_time <= end_time && end_of(
                        res@[k],
                    ) >= start_time,
                pulled_history(self@.past, from as int, max as int, start_time, end_time, res@)
                    == goal,
            decreases self@.past.len() - from,
        {
            let m = self.history[from];
            assert(move_ok(self@.past[from as int]));
            if m.print_time > end_time {
                from = from + 1;
            } else if m.print_time + m.move_t < start_time {
                assert(end_of(self@.past[from as int]) < start_time);
                assert(pulled_history(
                    self@.past,
                    from as int,
                    max as int,
                    start_time,
                    end_time,
                    res@,
                ) == res@);
                return res;
            } else {
                res.push(m);
                from = from + 1;
            }
        }
        res
    }
}

impl<P: Copy> Default for TrapQueue<P> {
    fn default() -> (queue: Self)
        ensures
            queue@.wf(),
            queue@.active.len() == 0,
            queue@.past.len() == 0,
            queue@.last_end == HEAD_TIME,
            queue@.tail == never(),
            !queue@.tail_stale,
    {
        TrapQueue::new()
    }
}

/// The newest record outlasts the forgetting of old ones.
pub proof fn lemma_newest_record_stays<P>(history: Seq<Move<P>>, time: i64)
    requires
        history.len() > 0,
    ensures
        trimmed(history, time).len() > 0,
        trimmed(history, time)[0] == history[0],
    decreases history.len(),
{
    if history.len() <= 1 || end_of(history.last()) > time {
    } else {
        lemma_newest_record_stays(history.drop_last(), time);
    }
}

/// After segments were moved to the records, no queued segment ends at or
/// before the time given, the records are in order, and the newest record
/// is there whatever time was given for forgetting.
pub proof fn lemma_finalize_moves<P>(q: TqModel<P>, print_time: i64, clear_history_time: i64)
    requires
        q.wf(),
    ensures
        newest_first(q.finalize_moves(print_time, clear_history_time).past),
        archive(q.past, q.active, expired(q.active, print_time)).len() > 0 ==> q.finalize_moves(
            print_time,
            clear_history_time,
        ).past.len() > 0 && q.finalize_moves(print_time, clear_history_time).past[0] == archive(
            q.past,
            q.active,
            expired(q.active, print_time),
        )[0],
{
    let a = archive(q.past, q.active, expired(q.active, print_time));
    if a.len() > 0 {
        lemma_newest_record_stays(a, clear_history_time);
    }
    lemma_archive_ordered(q.active, q.past, q.last_end, expired(q.active, print_time));
    lemma_trimmed_ordered(a, clear_history_time);
}

pub proof fn lemma_archive_ordered<P>(
    active: Seq<Move<P>>,
    past: Seq<Move<P>>,
    last_end: i64,
    count: int,
)
    requires
        lists_ok(active, past, last_end),
    ensures
        newest_first(archive(past, active, count)),
    decreases count,
{
    if count <= 0 || active.len() == 0 {
    } else {
        lemma_settle_one(active, past, last_end);
        if active[0].still {
            lemma_archive_ordered(active.drop_first(), past, last_end, count - 1);
        } else {
            lemma_archive_ordered(active.drop_first(), seq![active[0]] + past, last_end, count - 1);
        }
    }
}

pub proof fn lemma_trimmed_ordered<P>(history: Seq<Move<P>>, time: i64)
    requires
        newest_first(history),
    ensures
        newest_first(trimmed(history, time)),
    decreases history.len(),
{
    if history.len() <= 1 || end_of(history.last()) > time {
    } else {
        let h = history.drop_last();
        assert forall|i: int, j: int| 0 <= i <= j < h.len() implies (#[trigger] h[i]).print_time
            >= (#[trigger] h[j]).print_time by {
            assert(h[i] == history[i]);
            assert(h[j] == history[j]);
        }
        lemma_trimmed_ordered(h, time);
    }
}

/// Whatever segments were taken in, the queue is ordered in time and has
/// no gap, and its tail sentinel, once checked, stands at `NEVER_TIME`
/// while the queue is empty and at the end of the last segment otherwise.
pub proof fn lemma_queue_in_order<P>(q: TqModel<P>, i: int, j: int)
    requires
        q.wf(),
        0 <= i < j < q.active.len(),
    ensures
        gap_free(q.active),
        end_of(q.active[i]) <= q.active[j].print_time,
        q.check_sentinels().wf(),
        q.active.len() == 0 ==> q.check_sentinels().tail == never(),
        q.active.len() > 0 ==> q.check_sentinels().tail.print_time == end_of(q.active.last()),
{
    lemma_time_ordered(q.active, i, j);
}

} // verus!
