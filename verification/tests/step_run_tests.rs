use scherzo_core::bisect::compress_bisect_add;
use scherzo_core::step_compressor::StepCompressError;
use scherzo_core::step_run::{check_line, minmax_point, Points, StepMove};

#[test]
fn window_is_half_the_gap_or_the_allowed_error() {
    let queue: Vec<u64> = vec![1100, 1110, 1500];
    // first step: counted from the last emitted one
    assert_eq!(minmax_point(&queue, 0, 0, 1000, 25), Points { minp: 75, maxp: 100 });
    // gap of 10 ticks: half of it
    assert_eq!(minmax_point(&queue, 0, 1, 1000, 25), Points { minp: 105, maxp: 110 });
    // wide gap: the allowed error
    assert_eq!(minmax_point(&queue, 0, 2, 1000, 25), Points { minp: 475, maxp: 500 });
    // odd gap: half rounded down
    let odd: Vec<u64> = vec![7];
    assert_eq!(minmax_point(&odd, 0, 0, 0, 25), Points { minp: 4, maxp: 7 });
}

#[test]
fn window_counts_from_the_read_position() {
    let queue: Vec<u64> = vec![5, 1100, 1200];
    // the step before the read position is not looked at
    assert_eq!(minmax_point(&queue, 1, 1, 1000, 1000), Points { minp: 50, maxp: 100 });
    assert_eq!(minmax_point(&queue, 1, 2, 1000, 1000), Points { minp: 150, maxp: 200 });
}

#[test]
fn check_line_accepts_a_run_that_fits() {
    let queue: Vec<u64> = vec![100, 190, 270, 340];
    let mv = StepMove { interval: 100, count: 4, add: -10 };
    assert_eq!(check_line(&queue, 0, 0, 0, mv), Ok(()));
}

#[test]
fn check_line_names_an_empty_run() {
    let queue: Vec<u64> = vec![100];
    let mv = StepMove { interval: 100, count: 0, add: 0 };
    assert_eq!(
        check_line(&queue, 0, 0, 10, mv),
        Err(StepCompressError::InvalidSequence { interval: 100, count: 0, add: 0 })
    );
}

#[test]
fn check_line_names_a_run_that_stands_still() {
    let queue: Vec<u64> = vec![0, 0];
    let mv = StepMove { interval: 0, count: 2, add: 0 };
    assert_eq!(
        check_line(&queue, 0, 0, 10, mv),
        Err(StepCompressError::InvalidSequence { interval: 0, count: 2, add: 0 })
    );
    // one step without interval is a run
    let one = StepMove { interval: 0, count: 1, add: 0 };
    assert_eq!(check_line(&queue, 0, 0, 10, one), Ok(()));
}

#[test]
fn check_line_names_an_interval_of_31_bits() {
    let queue: Vec<u64> = vec![0x8000_0000];
    let mv = StepMove { interval: 0x8000_0000, count: 1, add: 0 };
    assert_eq!(
        check_line(&queue, 0, 0, 10, mv),
        Err(StepCompressError::InvalidSequence { interval: 0x8000_0000, count: 1, add: 0 })
    );
    let below = StepMove { interval: 0x7fff_ffff, count: 1, add: 0 };
    let queue2: Vec<u64> = vec![0x7fff_ffff];
    assert_eq!(check_line(&queue2, 0, 0, 10, below), Ok(()));
}

#[test]
fn check_line_names_the_first_step_out_of_its_window() {
    let queue: Vec<u64> = vec![100, 200, 300];
    // the third step comes at 330, its window is 290..=300
    let mv = StepMove { interval: 100, count: 3, add: 10 };
    assert_eq!(
        check_line(&queue, 0, 0, 10, mv),
        Err(StepCompressError::PointOutOfRange {
            index: 2,
            value: 210,
            min: 190,
            max: 200,
            interval: 100,
            count: 3,
            add: 10
        })
    );
    // too early counts as well
    let early = StepMove { interval: 89, count: 1, add: 0 };
    assert_eq!(
        check_line(&queue, 0, 0, 10, early),
        Err(StepCompressError::PointOutOfRange {
            index: 1,
            value: 89,
            min: 90,
            max: 100,
            interval: 89,
            count: 1,
            add: 0
        })
    );
}

#[test]
fn check_line_names_an_interval_that_grows_to_31_bits() {
    let queue: Vec<u64> = vec![0x7fff_ffff, 0xffff_ffff];
    let mv = StepMove { interval: 0x7fff_ffff, count: 2, add: 1 };
    assert_eq!(
        check_line(&queue, 0, 0, 0, mv),
        Err(StepCompressError::IntervalOverflow {
            index: 2,
            interval: 0x7fff_ffff,
            count: 2,
            add: 1
        })
    );
}

#[test]
fn search_finds_the_constant_run() {
    let queue: Vec<u64> = vec![1000, 2000, 3000, 4000];
    assert_eq!(
        compress_bisect_add(&queue, 0, 0, 25),
        StepMove { interval: 1000, count: 4, add: 0 }
    );
}

#[test]
fn search_finds_the_slowing_interval() {
    // intervals 100, 90, 80, 70, to be met exactly
    let queue: Vec<u64> = vec![100, 190, 270, 340];
    assert_eq!(
        compress_bisect_add(&queue, 0, 0, 0),
        StepMove { interval: 100, count: 4, add: -10 }
    );
}

#[test]
fn search_takes_one_step_where_one_is_queued() {
    let queue: Vec<u64> = vec![99, 1234];
    assert_eq!(compress_bisect_add(&queue, 1, 1000, 5), StepMove { interval: 234, count: 1, add: 0 });
}

#[test]
fn search_result_always_passes_the_check() {
    // steps of a move that speeds up, cruises and slows down
    let mut queue: Vec<u64> = Vec::new();
    let mut clock: u64 = 0;
    let mut interval: u64 = 5000;
    for i in 0..300u64 {
        clock += interval;
        queue.push(clock);
        if i < 100 {
            interval -= 37;
        } else if i >= 200 {
            interval += 41;
        }
    }
    let mut pos = 0usize;
    let mut last: u64 = 0;
    let mut runs = 0;
    while pos < queue.len() {
        let mv = compress_bisect_add(&queue, pos, last, 20);
        assert_eq!(check_line(&queue, pos, last, 20, mv), Ok(()));
        assert!(mv.count >= 1);
        let c = mv.count as i64;
        let ticks = mv.interval as i64 * c + mv.add as i64 * (c * (c - 1) / 2);
        last += ticks as u64;
        pos += mv.count as usize;
        assert!(last <= queue[pos - 1] && last + 20 >= queue[pos - 1]);
        runs += 1;
    }
    assert!(runs < 60, "300 steps took {} runs", runs);
}
