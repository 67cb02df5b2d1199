use scherzo_core::itersolve::{clip_range, ActiveFlags, SolveRange, StepGenerator};
use scherzo_core::trap_queue::{Move, TrapQueue, TICKS_PER_SECOND};

const S: i64 = TICKS_PER_SECOND;

fn x() -> ActiveFlags {
    ActiveFlags::new().with_x()
}

fn y() -> ActiveFlags {
    ActiveFlags::new().with_y()
}

fn queue(segments: &[(i64, i64, ActiveFlags)]) -> TrapQueue<u8> {
    let mut tq: TrapQueue<u8> = TrapQueue::new();
    for (start, duration, axes) in segments.iter() {
        let m = Move {
            print_time: *start,
            move_t: *duration,
            still: false,
            fill: false,
            axes: *axes,
            payload: 0u8,
        };
        tq.add_move(m).unwrap();
    }
    tq
}

fn range(move_index: usize, abs_start: i64, abs_end: i64) -> SolveRange {
    SolveRange { move_index, abs_start, abs_end }
}

#[test]
fn segments_that_reach_the_stepper_are_solved_up_to_the_flush() {
    let tq = queue(&[(0, S, x()), (S, S, x())]);
    let mut generator = StepGenerator::new(x(), 0, 0);
    let ranges = generator.generate_steps(tq.get_active_moves(), 3 * S / 2);
    // place 0 holds the rest before the first segment
    assert_eq!(ranges, vec![range(1, 0, 3 * S / 2), range(2, 0, 3 * S / 2)]);
    assert_eq!(generator.last_flush_time, 3 * S / 2);
    assert_eq!(generator.last_move_time, 3 * S / 2);
}

#[test]
fn next_flush_starts_at_the_segment_that_is_still_open() {
    let tq = queue(&[(0, S, x()), (S, S, x()), (2 * S, S, x())]);
    let mut generator = StepGenerator::new(x(), 0, 0);
    generator.generate_steps(tq.get_active_moves(), 3 * S / 2);
    let ranges = generator.generate_steps(tq.get_active_moves(), 3 * S);
    assert_eq!(ranges, vec![range(2, 3 * S / 2, 3 * S), range(3, 3 * S / 2, 3 * S)]);
    assert_eq!(generator.last_move_time, 3 * S);
    // everything is flushed: nothing is left to solve
    let none = generator.generate_steps(tq.get_active_moves(), 4 * S);
    assert!(none.is_empty());
    assert_eq!(generator.last_flush_time, 4 * S);
    assert_eq!(generator.last_move_time, 3 * S);
}

#[test]
fn respects_axis_filtering() {
    let tq = queue(&[(0, S / 2, x()), (S / 2, S / 2, x()), (S, S / 2, x())]);
    let mut generator = StepGenerator::new(y(), 0, 0);
    let ranges = generator.generate_steps(tq.get_active_moves(), 3 * S / 2);
    assert_eq!(ranges.len(), 0, "Expected no ranges for filtered axis");
    assert_eq!(generator.last_move_time, 0);
    assert_eq!(generator.last_flush_time, 3 * S / 2);
}

#[test]
fn empty_queue_only_notes_the_flush() {
    let tq: TrapQueue<u8> = TrapQueue::new();
    let mut generator = StepGenerator::new(x(), S, S);
    assert!(generator.generate_steps(tq.get_active_moves(), 5 * S).is_empty());
    assert_eq!(generator.last_flush_time, 5 * S);
    assert_eq!(generator.last_move_time, 0);
}

#[test]
fn segments_after_an_active_one_are_solved_for_a_while() {
    let tq = queue(&[(0, S, x()), (S, S, y()), (2 * S, S, y())]);
    let mut generator = StepGenerator::new(x(), 0, S / 2);
    let ranges = generator.generate_steps(tq.get_active_moves(), 3 * S);
    assert_eq!(ranges, vec![range(1, 0, 3 * S), range(2, 0, 3 * S / 2)]);
    assert_eq!(generator.last_move_time, S);
}

#[test]
fn trailing_stretch_ends_at_the_flush_where_that_is_earlier() {
    let tq = queue(&[(0, S, x()), (S, 4 * S, y())]);
    let mut generator = StepGenerator::new(x(), 0, 2 * S);
    let ranges = generator.generate_steps(tq.get_active_moves(), 2 * S);
    assert_eq!(ranges, vec![range(1, 0, 2 * S), range(2, 0, 2 * S)]);
}

#[test]
fn segment_that_starts_where_the_trailing_time_ends_is_passed_over() {
    // the trailing time ends at 1.5 s; a segment that starts exactly there is not solved
    let tq = queue(&[(0, S, x()), (S, S / 2, y()), (3 * S / 2, S, y())]);
    let mut generator = StepGenerator::new(x(), 0, S / 2);
    let ranges = generator.generate_steps(tq.get_active_moves(), 3 * S);
    assert_eq!(ranges, vec![range(1, 0, 3 * S), range(2, 0, 3 * S / 2)]);
}

#[test]
fn segments_before_an_active_one_are_solved_from_the_lead_time_on() {
    let tq = queue(&[(0, S, y()), (S, S, y()), (2 * S, S, x())]);
    let mut generator = StepGenerator::new(x(), 3 * S / 2, 0);
    let ranges = generator.generate_steps(tq.get_active_moves(), 3 * S);
    // the lead starts at 0.5 s: the segment that starts after it is solved from
    // there on, the one that holds it is not
    assert_eq!(ranges, vec![range(2, S / 2, 3 * S), range(3, 0, 3 * S)]);
    assert_eq!(generator.last_move_time, 3 * S);
}

#[test]
fn short_lead_reaches_no_segment() {
    let tq = queue(&[(0, S, y()), (S, S, y()), (2 * S, S, x())]);
    let mut generator = StepGenerator::new(x(), 3 * S / 10, 0);
    let ranges = generator.generate_steps(tq.get_active_moves(), 3 * S);
    assert_eq!(ranges, vec![range(3, 0, 3 * S)]);
}

#[test]
fn walk_ends_at_the_segment_that_outlasts_flush_and_lead() {
    let tq = queue(&[(0, S, y()), (S, 5 * S, y()), (6 * S, S, x())]);
    let mut generator = StepGenerator::new(x(), S, 0);
    let ranges = generator.generate_steps(tq.get_active_moves(), 2 * S);
    assert!(ranges.is_empty());
    assert_eq!(generator.last_move_time, 0);
}

#[test]
fn check_active_time_finds_the_next_active_start() {
    let tq = queue(&[(0, S, y()), (S, S, y()), (2 * S, S, x())]);
    let generator = StepGenerator::new(x(), 0, 0);
    assert_eq!(generator.check_active_time(tq.get_active_moves(), 3 * S), Some(2 * S));
    // a segment that ends at or after the flush ends the search
    assert_eq!(generator.check_active_time(tq.get_active_moves(), S), None);
    assert_eq!(generator.check_active_time(tq.get_active_moves(), 2 * S), None);
    assert_eq!(generator.check_active_time(tq.get_active_moves(), 2 * S + 1), Some(2 * S));
    let other = StepGenerator::new(ActiveFlags::new().with_z(), 0, 0);
    assert_eq!(other.check_active_time(tq.get_active_moves(), 10 * S), None);
    let empty: TrapQueue<u8> = TrapQueue::new();
    assert_eq!(generator.check_active_time(empty.get_active_moves(), 10 * S), None);
}

#[test]
fn check_active_time_starts_after_the_last_flush() {
    let tq = queue(&[(0, S, x()), (S, S, y()), (2 * S, S, x())]);
    let mut generator = StepGenerator::new(x(), 0, 0);
    assert_eq!(generator.check_active_time(tq.get_active_moves(), 3 * S), Some(0));
    generator.last_flush_time = S;
    assert_eq!(generator.check_active_time(tq.get_active_moves(), 3 * S), Some(2 * S));
}

#[test]
fn generator_knows_its_axes() {
    let generator = StepGenerator::new(ActiveFlags::new().with_x().with_z(), 0, 0);
    assert!(generator.is_active_axis('x'));
    assert!(generator.is_active_axis('Z'));
    assert!(!generator.is_active_axis('y'));
    let m = Move { print_time: 0, move_t: 1, still: false, fill: false, axes: y(), payload: 0u8 };
    assert!(!generator.check_active(&m));
    let both = Move { axes: y().with_z(), ..m };
    assert!(generator.check_active(&both));
}

#[test]
fn stretch_is_cut_to_the_segment() {
    let m = Move { print_time: 2 * S, move_t: S, still: false, fill: false, axes: x(), payload: 0u8 };
    assert_eq!(clip_range(&m, 0, 10 * S), (0, S));
    assert_eq!(clip_range(&m, 2 * S + 5, 2 * S + 9), (5, 9));
    assert_eq!(clip_range(&m, 2 * S, 3 * S), (0, S));
    // a stretch that ends before the segment starts is empty
    assert_eq!(clip_range(&m, 0, S), (0, -S));
}
