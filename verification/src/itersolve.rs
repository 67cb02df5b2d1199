//! Which Cartesian axes drive a stepper, and over which stretches of the
//! queued segments its steps are to be looked for.

use vstd::prelude::*;
use std::collections::VecDeque;
use crate::trap_queue::{end_of, move_ok, Move, HEAD_TIME, TIME_LIMIT};

verus! {

/// The set of Cartesian axes whose motion reaches one stepper.
#[derive(Debug, Clone, Copy)]
pub struct ActiveFlags(u8);

/// Called after each batch of steps was generated.
pub trait PostCallback {
    fn post_step(&mut self);
}

impl PostCallback for () {
    fn post_step(&mut self) {
    }
}

impl ActiveFlags {
    pub closed spec fn active_x(self) -> bool {
        self.0 & 1u8 != 0
    }

    pub closed spec fn active_y(self) -> bool {
        self.0 & 2u8 != 0
    }

    pub closed spec fn active_z(self) -> bool {
        self.0 & 4u8 != 0
    }

    /// The empty set.
    pub closed spec fn none() -> Self {
        ActiveFlags(0)
    }

    /// No axis.
    pub fn new() -> (flags: Self)
        ensures
            flags == Self::none(),
            !flags.active_x(),
            !flags.active_y(),
            !flags.active_z(),
    {
        assert(0u8 & 1u8 == 0 && 0u8 & 2u8 == 0 && 0u8 & 4u8 == 0) by (bit_vector);
        ActiveFlags(0)
    }

    pub fn with_x(self) -> (flags: Self)
        ensures
            flags.active_x(),
            flags.active_y() == self.active_y(),
            flags.active_z() == self.active_z(),
    {
        let v = self.0;
        assert((v | 1u8) & 1u8 != 0 && (v | 1u8) & 2u8 == v & 2u8 && (v | 1u8) & 4u8 == v & 4u8)
            by (bit_vector);
        ActiveFlags(v | 1)
    }

    pub fn with_y(self) -> (flags: Self)
        ensures
            flags.active_x() == self.active_x(),
            flags.active_y(),
            flags.active_z() == self.active_z(),
    {
        let v = self.0;
        assert((v | 2u8) & 2u8 != 0 && (v | 2u8) & 1u8 == v & 1u8 && (v | 2u8) & 4u8 == v & 4u8)
            by (bit_vector);
        ActiveFlags(v | 2)
    }

    pub fn with_z(self) -> (flags: Self)
        ensures
            flags.active_x() == self.active_x(),
            flags.active_y() == self.active_y(),
            flags.active_z(),
    {
        let v = self.0;
        assert((v | 4u8) & 4u8 != 0 && (v | 4u8) & 1u8 == v & 1u8 && (v | 4u8) & 2u8 == v & 2u8)
            by (bit_vector);
        ActiveFlags(v | 4)
    }

    pub fn has_x(&self) -> (active: bool)
        ensures
            active == self.active_x(),
    {
        self.0 & 1 != 0
    }

    pub fn has_y(&self) -> (active: bool)
        ensures
            active == self.active_y(),
    {
        self.0 & 2 != 0
    }

    pub fn has_z(&self) -> (active: bool)
        ensures
            active == self.active_z(),
    {
        self.0 & 4 != 0
    }

    /// Whether a move reaches the stepper: it does when it moves along an
    /// axis of the set.
    pub fn check_active(&self, moves_x: bool, moves_y: bool, moves_z: bool) -> (active: bool)
        ensures
            active == ((self.active_x() && moves_x) || (self.active_y() && moves_y) || (
            self.active_z() && moves_z)),
    {
        (self.has_x() && moves_x) || (self.has_y() && moves_y) || (self.has_z() && moves_z)
    }

    /// Whether the axis named by `axis`, in either case, is in the set.
    pub fn is_active_axis(&self, axis: char) -> (active: bool)
        ensures
            active == (((axis == 'x' || axis == 'X') && self.active_x()) || ((axis == 'y' || axis
                == 'Y') && self.active_y()) || ((axis == 'z' || axis == 'Z')
                && self.active_z())),
    {
        if axis == 'x' || axis == 'X' {
            self.has_x()
        } else if axis == 'y' || axis == 'Y' {
            self.has_y()
        } else if axis == 'z' || axis == 'Z' {
            self.has_z()
        } else {
            false
        }
    }
}

impl Default for ActiveFlags {
    fn default() -> (flags: Self)
        ensures
            !flags.active_x(),
            !flags.active_y(),
            !flags.active_z(),
    {
        ActiveFlags::new()
    }
}

/// A stretch of time, inside one queued segment, over which steps are to
/// be looked for.
#[derive(Debug, Clone, Copy, PartialEq, Eq, Structural)]
pub struct SolveRange {
    /// Place of the segment in the queue.
    pub move_index: usize,
    pub abs_start: i64,
    pub abs_end: i64,
}

/// What a stepper needs to know to pick its stretches.
#[derive(Debug, Clone, Copy)]
pub struct StepGenerator {
    pub active_flags: ActiveFlags,
    /// How long before a segment that reaches the stepper steps are looked for.
    pub gen_steps_pre_active: i64,
    /// How long after it.
    pub gen_steps_post_active: i64,
    pub last_flush_time: i64,
    pub last_move_time: i64,
}

/// The stretches picked and the end of the last segment that reached the stepper.
pub struct Walk {
    pub ranges: Seq<SolveRange>,
    pub last_move_time: i64,
}

/// Whether a segment moves along an axis that drives the stepper.
pub open spec fn reaches<P>(flags: ActiveFlags, m: Move<P>) -> bool {
    (flags.active_x() && m.axes.active_x()) || (flags.active_y() && m.axes.active_y()) || (
    flags.active_z() && m.axes.active_z())
}

/// Place of the first segment from `from` on that ends after `time`.
pub open spec fn first_open<P>(moves: Seq<Move<P>>, from: int, time: i64) -> int
    decreases moves.len() - from,
{
    if from < 0 || from >= moves.len() {
        moves.len() as int
    } else if time < end_of(moves[from]) {
        from
    } else {
        first_open(moves, from + 1, time)
    }
}

/// Place of the first of up to `skip_count` segments before `at` that
/// start after `abs_start`.
pub open spec fn walk_back<P>(moves: Seq<Move<P>>, at: int, skip_count: int, abs_start: i64) -> int
    decreases at,
{
    if skip_count <= 0 || at <= 0 || at > moves.len() {
        at
    } else if moves[at - 1].print_time <= abs_start {
        at
    } else {
        walk_back(moves, at - 1, skip_count - 1, abs_start)
    }
}

/// The same stretch of time for each segment from `from` up to `to`.
pub open spec fn ranges_over(from: int, to: int, abs_start: i64, abs_end: i64) -> Seq<SolveRange> {
    Seq::new(
        (to - from) as nat,
        |k: int| SolveRange { move_index: (from + k) as usize, abs_start, abs_end },
    )
}

pub open spec fn latest(a: int, b: int, c: int) -> int {
    if a >= b && a >= c {
        a
    } else if b >= c {
        b
    } else {
        c
    }
}

impl StepGenerator {
    pub open spec fn wf(self) -> bool {
        &&& 0 <= self.gen_steps_pre_active <= TIME_LIMIT
        &&& 0 <= self.gen_steps_post_active <= TIME_LIMIT
        &&& HEAD_TIME <= self.last_flush_time <= TIME_LIMIT
        &&& HEAD_TIME <= self.last_move_time <= TIME_LIMIT
    }

    /// The stretches for the segments from `idx` on. `skip_count` segments
    /// before `idx` were passed over; up to `force` steps are looked for in
    /// any segment.
    pub open spec fn walk<P>(
        self,
        moves: Seq<Move<P>>,
        flush_time: i64,
        idx: int,
        skip_count: int,
        force: int,
        last_move_time: i64,
        ranges: Seq<SolveRange>,
    ) -> Walk
        decreases moves.len() - idx,
    {
        if idx < 0 || idx >= moves.len() {
            Walk { ranges, last_move_time }
        } else {
            let m = moves[idx];
            if reaches(self.active_flags, m) {
                let lead = if skip_count > 0 && self.gen_steps_pre_active > 0 {
                    let abs_start = latest(
                        m.print_time - self.gen_steps_pre_active,
                        self.last_flush_time as int,
                        force,
                    ) as i64;
                    ranges + ranges_over(
                        walk_back(moves, idx, skip_count, abs_start),
                        idx,
                        abs_start,
                        flush_time,
                    )
                } else {
                    ranges
                };
                let with_own = lead.push(
                    SolveRange {
                        move_index: idx as usize,
                        abs_start: self.last_flush_time,
                        abs_end: flush_time,
                    },
                );
                if end_of(m) >= flush_time {
                    Walk { ranges: with_own, last_move_time: flush_time }
                } else {
                    self.walk(
                        moves,
                        flush_time,
                        idx + 1,
                        0,
                        end_of(m) + self.gen_steps_post_active,
                        end_of(m) as i64,
                        with_own,
                    )
                }
            } else {
                let forced = m.print_time < force;
                let trail = if forced {
                    ranges.push(
                        SolveRange {
                            move_index: idx as usize,
                            abs_start: self.last_flush_time,
                            abs_end: if force > flush_time {
                                flush_time
                            } else {
                                force as i64
                            },
                        },
                    )
                } else {
                    ranges
                };
                if flush_time + self.gen_steps_pre_active <= end_of(m) {
                    Walk { ranges: trail, last_move_time }
                } else {
                    self.walk(
                        moves,
                        flush_time,
                        idx + 1,
                        if forced {
                            1
                        } else {
                            skip_count + 1
                        },
                        force,
                        last_move_time,
                        trail,
                    )
                }
            }
        }
    }

    /// The stretches over which steps are to be looked for up to
    /// `flush_time`: every segment that reaches the stepper, from the
    /// last flush on; the segments passed over before it, as far back
    /// as `gen_steps_pre_active`; the segments after it, as far as
    /// `gen_steps_post_active`.
    pub open spec fn plan<P>(self, moves: Seq<Move<P>>, flush_time: i64) -> Walk {
        self.walk(
            moves,
            flush_time,
            first_open(moves, 0, self.last_flush_time),
            0,
            self.last_move_time + self.gen_steps_post_active,
            self.last_move_time,
            Seq::empty(),
        )
    }

    /// Start of the first segment from `idx` on that reaches the stepper,
    /// unless a segment before it ends at or after `flush_time`.
    pub open spec fn active_from<P>(self, moves: Seq<Move<P>>, flush_time: i64, idx: int) -> Option<
        i64,
    >
        decreases moves.len() - idx,
    {
        if idx < 0 || idx >= moves.len() {
            None
        } else if reaches(self.active_flags, moves[idx]) {
            Some(moves[idx].print_time)
        } else if flush_time <= end_of(moves[idx]) {
            None
        } else {
            self.active_from(moves, flush_time, idx + 1)
        }
    }

    /// A generator that has flushed nothing yet.
    pub fn new(
        active_flags: ActiveFlags,
        gen_steps_pre_active: i64,
        gen_steps_post_active: i64,
    ) -> (generator: Self)
        requires
            0 <= gen_steps_pre_active <= TIME_LIMIT,
            0 <= gen_steps_post_active <= TIME_LIMIT,
        ensures
            generator.wf(),
            generator.active_flags == active_flags,
            generator.gen_steps_pre_active == gen_steps_pre_active,
            generator.gen_steps_post_active == gen_steps_post_active,
            generator.last_flush_time == 0,
            generator.last_move_time == 0,
    {
        StepGenerator {
            active_flags,
            gen_steps_pre_active,
            gen_steps_post_active,
            last_flush_time: 0,
            last_move_time: 0,
        }
    }

    /// Whether a segment moves along an axis that drives the stepper.
    pub fn check_active<P>(&self, m: &Move<P>) -> (active: bool)
        ensures
            active == reaches(self.active_flags, *m),
    {
        self.active_flags.check_active(m.axes.has_x(), m.axes.has_y(), m.axes.has_z())
    }

    /// Whether the axis named by `axis` drives the stepper.
    pub fn is_active_axis(&self, axis: char) -> (active: bool)
        ensures
            active == (((axis == 'x' || axis == 'X') && self.active_flags.active_x()) || ((axis
                == 'y' || axis == 'Y') && self.active_flags.active_y()) || ((axis == 'z' || axis
                == 'Z') && self.active_flags.active_z())),
    {
        self.active_flags.is_active_axis(axis)
    }

    /// Place of the first segment that ends after the last flush.
    fn first_unflushed<P>(&self, moves: &VecDeque<Move<P>>) -> (idx: usize)
        requires
            forall|i: int| 0 <= i < moves@.len() ==> move_ok(#[trigger] moves@[i]),
        ensures
            idx == first_open(moves@, 0, self.last_flush_time),
            idx <= moves@.len(),
    {
        let mut idx: usize = 0;
        while idx < moves.len()
            invariant
                idx <= moves@.len(),
                forall|i: int| 0 <= i < moves@.len() ==> move_ok(#[trigger] moves@[i]),
                first_open(moves@, idx as int, self.last_flush_time) == first_open(
                    moves@,
                    0,
                    self.last_flush_time,
                ),
            decreases moves@.len() - idx,
        {
            let m = &moves[idx];
            assert(move_ok(moves@[idx as int]));
            if self.last_flush_time < m.print_time + m.move_t {
                return idx;
            }
            idx = idx + 1;
        }
        idx
    }

    /// Start of the first segment that reaches the stepper between the
    /// last flush and `flush_time`.
    pub fn check_active_time<P>(&self, moves: &VecDeque<Move<P>>, flush_time: i64) -> (start:
        Option<i64>)
        requires
            forall|i: int| 0 <= i < moves@.len() ==> move_ok(#[trigger] moves@[i]),
        ensures
            start == self.active_from(
                moves@,
                flush_time,
                first_open(moves@, 0, self.last_flush_time),
            ),
    {
        let mut idx: usize = self.first_unflushed(moves);
        while idx < moves.len()
            invariant
                idx <= moves@.len(),
                forall|i: int| 0 <= i < moves@.len() ==> move_ok(#[trigger] moves@[i]),
                self.active_from(moves@, flush_time, idx as int) == self.active_from(
                    moves@,
                    flush_time,
                    first_open(moves@, 0, self.last_flush_time),
                ),
            decreases moves@.len() - idx,
        {
            let m = &moves[idx];
            assert(move_ok(moves@[idx as int]));
            if self.check_active(m) {
                return Some(m.print_time);
            }
            if flush_time <= m.print_time + m.move_t {
                return None;
            }
            idx = idx + 1;
        }
        None
    }
}

/// Adds to `ranges` the stretch from `abs_start` to `abs_end` for each of
/// up to `skip_count` segments before `idx` that start after `abs_start`.
fn push_lead<P>(
    moves: &VecDeque<Move<P>>,
    idx: usize,
    skip_count: usize,
    abs_start: i64,
    abs_end: i64,
    ranges: &mut Vec<SolveRange>,
)
    requires
        idx <= moves@.len(),
        forall|k: int| 0 <= k < old(ranges)@.len() ==> (#[trigger] old(ranges)@[k]).move_index
            < moves@.len(),
    ensures
        final(ranges)@.len() >= old(ranges)@.len(),
        forall|k: int|
            0 <= k < old(ranges)@.len() ==> (#[trigger] final(ranges)@[k]) == old(ranges)@[k],
        forall|k: int|
            old(ranges)@.len() <= k < final(ranges)@.len() ==> (#[trigger] final(ranges)@[k]).abs_start
                == abs_start && final(ranges)@[k].abs_end == abs_end,
        final(ranges)@ == old(ranges)@ + ranges_over(
            walk_back(moves@, idx as int, skip_count as int, abs_start),
            idx as int,
            abs_start,
            abs_end,
        ),
        forall|k: int| 0 <= k < final(ranges)@.len() ==> (#[trigger] final(ranges)@[k]).move_index
            < moves@.len(),
{
    let mut pm: usize = idx;
    let mut left: usize = skip_count;
    while left > 0 && pm > 0
        invariant
            pm <= idx <= moves@.len(),
            walk_back(moves@, pm as int, left as int, abs_start) == walk_back(
                moves@,
                idx as int,
                skip_count as int,
                abs_start,
            ),
        ensures
            pm <= idx,
            pm == walk_back(moves@, idx as int, skip_count as int, abs_start),
        decreases pm,
    {
        if moves[pm - 1].print_time <= abs_start {
            break ;
        }
        pm = pm - 1;
        left = left - 1;
    }
    let ghost first = pm;
    while pm < idx
        invariant
            first <= pm <= idx <= moves@.len(),
            ranges@ == old(ranges)@ + ranges_over(first as int, pm as int, abs_start, abs_end),
            forall|k: int| 0 <= k < ranges@.len() ==> (#[trigger] ranges@[k]).move_index
                < moves@.len(),
        decreases idx - pm,
    {
        ranges.push(SolveRange { move_index: pm, abs_start, abs_end });
        proof {
            assert(ranges_over(first as int, pm + 1, abs_start, abs_end) =~= ranges_over(
                first as int,
                pm as int,
                abs_start,
                abs_end,
            ).push(SolveRange { move_index: pm, abs_start, abs_end }));
            assert(ranges@ =~= old(ranges)@ + ranges_over(
                first as int,
                pm + 1,
                abs_start,
                abs_end,
            ));
        }
        pm = pm + 1;
    }
}

impl StepGenerator {
    /// Picks the stretches over which steps are to be looked for up to
    /// `flush_time`, and notes the flush.
    pub fn generate_steps<P>(&mut self, moves: &VecDeque<Move<P>>, flush_time: i64) -> (ranges:
        Vec<SolveRange>)
        requires
            old(self).wf(),
            forall|i: int| 0 <= i < moves@.len() ==> move_ok(#[trigger] moves@[i]),
            HEAD_TIME <= flush_time <= TIME_LIMIT,
        ensures
            final(self).wf(),
            ranges@ == old(self).plan(moves@, flush_time).ranges,
            final(self).last_move_time == old(self).plan(moves@, flush_time).last_move_time,
            final(self).last_flush_time == flush_time,
            final(self).active_flags == old(self).active_flags,
            final(self).gen_steps_pre_active == old(self).gen_steps_pre_active,
            final(self).gen_steps_post_active == old(self).gen_steps_post_active,
            forall|k: int| 0 <= k < ranges@.len() ==> (#[trigger] ranges@[k]).move_index
                < moves@.len(),
            forall|k: int|
                0 <= k < ranges@.len() ==> old(self).last_flush_time <= (
                #[trigger] ranges@[k]).abs_start && ranges@[k].abs_end <= flush_time,
    {
        let ghost g = *self;
        let last_flush_time: i64 = self.last_flush_time;
        let pre: i64 = self.gen_steps_pre_active;
        let post: i64 = self.gen_steps_post_active;
        let mut idx: usize = self.first_unflushed(moves);
        let mut force: i64 = self.last_move_time + post;
        let mut skip_count: usize = 0;
        let mut last_move_time: i64 = self.last_move_time;
        let mut ranges: Vec<SolveRange> = Vec::new();
        loop
            invariant_except_break
                skip_count <= idx,
                g.walk(
                    moves@,
                    flush_time,
                    idx as int,
                    skip_count as int,
                    force as int,
                    last_move_time,
                    ranges@,
                ) == g.plan(moves@, flush_time),
            invariant
                g == *old(self),
                *self == g,
                g.wf(),
                last_flush_time == g.last_flush_time,
                pre == g.gen_steps_pre_active,
                post == g.gen_steps_post_active,
                HEAD_TIME <= flush_time <= TIME_LIMIT,
                forall|i: int| 0 <= i < moves@.len() ==> move_ok(#[trigger] moves@[i]),
                idx <= moves@.len(),
                HEAD_TIME <= force <= 2 * TIME_LIMIT,
                HEAD_TIME <= last_move_time <= TIME_LIMIT,
                forall|k: int| 0 <= k < ranges@.len() ==> (#[trigger] ranges@[k]).move_index
                    < moves@.len(),
                forall|k: int|
                    0 <= k < ranges@.len() ==> last_flush_time <= (#[trigger] ranges@[k]).abs_start
                        && ranges@[k].abs_end <= flush_time,
            ensures
                HEAD_TIME <= last_move_time <= TIME_LIMIT,
                *self == g,
                forall|k: int| 0 <= k < ranges@.len() ==> (#[trigger] ranges@[k]).move_index
                    < moves@.len(),
                forall|k: int|
                    0 <= k < ranges@.len() ==> last_flush_time <= (#[trigger] ranges@[k]).abs_start
                        && ranges@[k].abs_end <= flush_time,
                ranges@ == g.plan(moves@, flush_time).ranges,
                last_move_time == g.plan(moves@, flush_time).last_move_time,
            decreases moves@.len() - idx,
        {
            if idx >= moves.len() {
                break ;
            }
            let m = &moves[idx];
            assert(move_ok(moves@[idx as int]));
            let move_start: i64 = m.print_time;
            let move_end: i64 = m.print_time + m.move_t;
            if self.check_active(m) {
                if skip_count > 0 && pre > 0 {
                    let mut abs_start: i64 = move_start - pre;
                    if abs_start < last_flush_time {
                        abs_start = last_flush_time;
                    }
                    if abs_start < force {
                        abs_start = force;
                    }
                    push_lead(moves, idx, skip_count, abs_start, flush_time, &mut ranges);
                }
                ranges.push(
                    SolveRange { move_index: idx, abs_start: last_flush_time, abs_end: flush_time },
                );
                if move_end >= flush_time {
                    last_move_time = flush_time;
                    break ;
                }
                skip_count = 0;
                last_move_time = move_end;
                force = move_end + post;
            } else {
                if move_start < force {
                    let abs_end: i64 = if force > flush_time {
                        flush_time
                    } else {
                        force
                    };
                    ranges.push(
                        SolveRange { move_index: idx, abs_start: last_flush_time, abs_end },
                    );
                    skip_count = 1;
                } else {
                    skip_count = skip_count + 1;
                }
                if flush_time + pre <= move_end {
                    break ;
                }
            }
            idx = idx + 1;
        }
        self.last_flush_time = flush_time;
        self.last_move_time = last_move_time;
        ranges
    }
}

/// A stepper that no queued segment reaches, with nothing left to look
/// for behind the last segment that reached it, gets no stretch.
pub proof fn lemma_unreached_gets_nothing<P>(
    g: StepGenerator,
    moves: Seq<Move<P>>,
    flush_time: i64,
    idx: int,
    skip_count: int,
    force: int,
    last_move_time: i64,
    ranges: Seq<SolveRange>,
)
    requires
        0 <= idx,
        forall|i: int| idx <= i < moves.len() ==> !reaches(g.active_flags, #[trigger] moves[i]),
        forall|i: int| idx <= i < moves.len() ==> (#[trigger] moves[i]).print_time >= force,
    ensures
        g.walk(moves, flush_time, idx, skip_count, force, last_move_time, ranges).ranges == ranges,
        g.walk(
            moves,
            flush_time,
            idx,
            skip_count,
            force,
            last_move_time,
            ranges,
        ).last_move_time == last_move_time,
    decreases moves.len() - idx,
{
    if idx < moves.len() {
        assert(!reaches(g.active_flags, moves[idx]));
        assert(moves[idx].print_time >= force);
        if flush_time + g.gen_steps_pre_active <= end_of(moves[idx]) {
        } else {
            lemma_unreached_gets_nothing(
                g,
                moves,
                flush_time,
                idx + 1,
                skip_count + 1,
                force,
                last_move_time,
                ranges,
            );
        }
    }
}

/// The part of a stretch that lies inside a segment, counted from the
/// segment's start.
pub fn clip_range<P>(m: &Move<P>, abs_start: i64, abs_end: i64) -> (local: (i64, i64))
    requires
        move_ok(*m),
        HEAD_TIME <= abs_start <= TIME_LIMIT,
        HEAD_TIME <= abs_end <= TIME_LIMIT,
    ensures
        local.0 == if abs_start - m.print_time < 0 {
            0
        } else {
            abs_start - m.print_time
        },
        local.1 == if abs_end - m.print_time > m.move_t {
            m.move_t as int
        } else {
            abs_end - m.print_time
        },
{
    let mut start: i64 = abs_start - m.print_time;
    let mut end: i64 = abs_end - m.print_time;
    if start < 0 {
        start = 0;
    }
    if end > m.move_t {
        end = m.move_t;
    }
    (start, end)
}

} // verus!
