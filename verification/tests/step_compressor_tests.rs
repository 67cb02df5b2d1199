use scherzo_core::step_compressor::{
    position_in_run, step_clock, Command, PullHistoryStep, QueueStep, RecordingSink,
    SetNextStepDir, StepCompressError, StepCompressor, CLOCK_DIFF_MAX,
};

fn compressor_with_sink() -> StepCompressor<RecordingSink> {
    let sink = RecordingSink::default();
    let mut sc = StepCompressor::new(1, 10, sink);
    sc.set_time(0, 1000);
    sc
}

fn compressor(oid: u32, max_error: u32, mcu_freq: u64) -> StepCompressor<RecordingSink> {
    let mut sc = StepCompressor::new(oid, max_error, RecordingSink::default());
    sc.set_time(0, mcu_freq);
    sc
}

fn total_steps(commands: &[Command]) -> u32 {
    commands
        .iter()
        .filter_map(|cmd| match cmd {
            Command::QueueStep(step) => Some(step.count as u32),
            _ => None,
        })
        .sum()
}

#[test]
fn compresses_constant_interval() {
    let mut sc = compressor_with_sink();
    for i in 0..5i64 {
        sc.append(1, 0, i * 1_000_000).unwrap();
        sc.commit().unwrap();
    }
    sc.flush(u64::MAX).unwrap();
    let sink = sc.into_sink();
    match &sink.commands[0] {
        Command::SetNextStepDir(_) => {}
        _ => panic!("expected direction setup first"),
    }
    let mut steps = Vec::new();
    for cmd in sink.commands.iter().skip(1) {
        if let Command::QueueStep(step) = cmd {
            steps.push(step);
        }
    }
    let total: u32 = steps.iter().map(|s| s.count as u32).sum();
    assert_eq!(total, 5);
}

#[test]
fn sds_filter_rolls_back_direction_flip() {
    let mut sc = compressor_with_sink();
    // initial step
    sc.append(0, 0, 0).unwrap();
    // next step very close with opposite dir -> should rollback previous
    sc.append(1, 0, 0).unwrap();
    sc.commit().unwrap();
    sc.flush(u64::MAX).unwrap();
    let sink = sc.into_sink();
    let total: u32 = sink
        .commands
        .iter()
        .filter_map(|cmd| match cmd {
            Command::QueueStep(step) => Some(step.count as u32),
            _ => None,
        })
        .sum();
    assert_eq!(total, 0);
}

#[test]
fn history_lookup_matches_offset() {
    let mut sc = compressor_with_sink();
    sc.append(1, 0, 0).unwrap();
    sc.commit().unwrap();
    sc.append(1, 0, 1_000_000).unwrap();
    sc.commit().unwrap();
    sc.flush(u64::MAX).unwrap();
    assert_eq!(sc.last_position(), 2);
    let pos = sc.find_past_position(sc.last_step_clock());
    assert_eq!(pos, 2);
}

#[test]
fn nothing_goes_out_before_a_flush() {
    let mut sc = compressor(7, 25, 1_000_000);
    for i in 1..=4u64 {
        sc.append_clock(1, i * 1000).unwrap();
    }
    // three steps wait in the queue, one is pending
    assert_eq!(sc.last_step_clock(), 0);
    assert_eq!(sc.last_position(), 0);
    assert_eq!(sc.latest_clock(), 4000);
    let sink = sc.into_sink();
    // the direction was announced when the first step was committed
    assert_eq!(
        sink.commands,
        vec![Command::SetNextStepDir(SetNextStepDir { oid: 7, dir: true, req_clock: 0 })]
    );
}

#[test]
fn constant_run_is_emitted_exactly() {
    let mut sc = compressor(7, 25, 1_000_000);
    for i in 1..=4u64 {
        sc.append_clock(1, i * 1000).unwrap();
    }
    sc.flush(u64::MAX).unwrap();
    assert_eq!(sc.last_step_clock(), 4000);
    assert_eq!(sc.last_position(), 4);
    assert!(sc.get_last_dir());
    let sink = sc.into_sink();
    assert_eq!(
        sink.commands,
        vec![
            Command::SetNextStepDir(SetNextStepDir { oid: 7, dir: true, req_clock: 0 }),
            Command::QueueStep(QueueStep {
                oid: 7,
                first_clock: 1000,
                last_clock: 4000,
                interval: 1000,
                count: 4,
                add: 0,
                req_clock: 0,
                min_clock: 0,
            }),
        ]
    );
}

#[test]
fn slowing_run_is_emitted_exactly() {
    let mut sc = compressor(3, 0, 1_000_000);
    for clock in [100u64, 190, 270, 340] {
        sc.append_clock(0, clock).unwrap();
    }
    sc.flush(u64::MAX).unwrap();
    assert_eq!(sc.last_position(), -4);
    assert!(!sc.get_last_dir());
    let history = sc.extract_old(10, 0, u64::MAX);
    assert_eq!(
        history,
        vec![PullHistoryStep {
            first_clock: 100,
            last_clock: 340,
            start_position: 0,
            step_count: -4,
            interval: 100,
            add: -10,
        }]
    );
    let sink = sc.into_sink();
    assert_eq!(
        sink.commands,
        vec![
            Command::SetNextStepDir(SetNextStepDir { oid: 3, dir: false, req_clock: 0 }),
            Command::QueueStep(QueueStep {
                oid: 3,
                first_clock: 100,
                last_clock: 340,
                interval: 100,
                count: 4,
                add: -10,
                req_clock: 0,
                min_clock: 0,
            }),
        ]
    );
}

#[test]
fn pending_step_waits_for_commit_or_due_flush() {
    let mut sc = compressor(1, 10, 1_000_000);
    sc.append_clock(1, 5000).unwrap();
    // not due yet: nothing goes out
    sc.flush(4999).unwrap();
    assert_eq!(sc.last_step_clock(), 0);
    // due: it is committed and emitted
    sc.flush(5000).unwrap();
    assert_eq!(sc.last_step_clock(), 5000);
    assert_eq!(sc.last_position(), 1);
    let sink = sc.into_sink();
    assert_eq!(sink.commands.len(), 2);
}

#[test]
fn flush_stops_once_the_clock_is_reached() {
    let mut sc = compressor(1, 0, 1_000_000);
    // two runs that cannot be one: the interval jumps
    for clock in [100u64, 200, 300, 1000, 1700, 2400] {
        sc.append_clock(1, clock).unwrap();
    }
    sc.commit().unwrap();
    sc.flush(250).unwrap();
    // the first run reaches 300, which is past 250: the rest stays queued
    assert_eq!(sc.last_step_clock(), 300);
    assert_eq!(sc.last_position(), 3);
    sc.flush(u64::MAX).unwrap();
    assert_eq!(sc.last_step_clock(), 2400);
    assert_eq!(sc.last_position(), 6);
    let sink = sc.into_sink();
    let runs: Vec<(u32, u16, i16)> = sink
        .commands
        .iter()
        .filter_map(|c| match c {
            Command::QueueStep(q) => Some((q.interval, q.count, q.add)),
            _ => None,
        })
        .collect();
    assert_eq!(runs, vec![(100, 3, 0), (700, 3, 0)]);
}

#[test]
fn flushing_twice_emits_nothing_more() {
    let mut sc = compressor(1, 10, 1_000_000);
    for clock in [100u64, 200, 300, 1000, 1700, 2400] {
        sc.append_clock(1, clock).unwrap();
    }
    sc.flush(1500).unwrap();
    let clock = sc.last_step_clock();
    let position = sc.last_position();
    sc.flush(1500).unwrap();
    assert_eq!(sc.last_step_clock(), clock);
    assert_eq!(sc.last_position(), position);
    let mut again = compressor(1, 10, 1_000_000);
    for clock in [100u64, 200, 300, 1000, 1700, 2400] {
        again.append_clock(1, clock).unwrap();
    }
    again.flush(1500).unwrap();
    assert_eq!(sc.into_sink().commands, again.into_sink().commands);
}

#[test]
fn direction_change_is_announced_between_runs() {
    let mut sc = compressor(9, 10, 1000);
    // at 1000 ticks per second the filter takes reversals closer than a tick
    sc.append_clock(1, 10).unwrap();
    sc.append_clock(1, 20).unwrap();
    sc.append_clock(0, 30).unwrap();
    sc.append_clock(0, 40).unwrap();
    sc.flush(u64::MAX).unwrap();
    assert_eq!(sc.last_position(), 0);
    let sink = sc.into_sink();
    assert_eq!(
        sink.commands,
        vec![
            Command::SetNextStepDir(SetNextStepDir { oid: 9, dir: true, req_clock: 0 }),
            Command::QueueStep(QueueStep {
                oid: 9,
                first_clock: 10,
                last_clock: 20,
                interval: 10,
                count: 2,
                add: 0,
                req_clock: 0,
                min_clock: 0,
            }),
            Command::SetNextStepDir(SetNextStepDir { oid: 9, dir: false, req_clock: 20 }),
            Command::QueueStep(QueueStep {
                oid: 9,
                first_clock: 30,
                last_clock: 40,
                interval: 10,
                count: 2,
                add: 0,
                req_clock: 20,
                min_clock: 20,
            }),
        ]
    );
}

#[test]
fn inverted_direction_flips_the_bit_only() {
    let mut sc = compressor(2, 10, 1000);
    sc.set_invert_sdir(true);
    sc.append_clock(1, 10).unwrap();
    sc.flush(u64::MAX).unwrap();
    assert_eq!(sc.last_position(), 1);
    assert!(sc.get_last_dir());
    // swapping again flips the direction that is in force along with the bit
    sc.set_invert_sdir(false);
    assert!(!sc.get_last_dir());
    sc.set_invert_sdir(false);
    assert!(!sc.get_last_dir());
    let sink = sc.into_sink();
    assert_eq!(
        sink.commands[0],
        Command::SetNextStepDir(SetNextStepDir { oid: 2, dir: false, req_clock: 0 })
    );
}

#[test]
fn last_dir_is_false_before_any_step() {
    let sc = compressor(1, 10, 1000);
    assert!(!sc.get_last_dir());
}

#[test]
fn reversal_within_750_microseconds_drops_both_steps() {
    let mut sc = compressor(1, 10, 1_000_000);
    sc.append_clock(1, 1000).unwrap();
    sc.append_clock(0, 1749).unwrap();
    sc.commit().unwrap();
    sc.flush(u64::MAX).unwrap();
    assert_eq!(sc.last_position(), 0);
    assert!(sc.into_sink().commands.is_empty());
}

#[test]
fn reversal_after_750_microseconds_keeps_both_steps() {
    let mut sc = compressor(1, 10, 1_000_000);
    sc.append_clock(1, 1000).unwrap();
    sc.append_clock(0, 1750).unwrap();
    sc.commit().unwrap();
    sc.flush(u64::MAX).unwrap();
    assert_eq!(sc.last_position(), 0);
    let sink = sc.into_sink();
    assert_eq!(total_steps(&sink.commands), 2);
    assert_eq!(sink.commands.len(), 4);
}

#[test]
fn same_direction_is_never_filtered() {
    let mut sc = compressor(1, 10, 1_000_000);
    sc.append_clock(1, 1000).unwrap();
    sc.append_clock(1, 1001).unwrap();
    sc.flush(u64::MAX).unwrap();
    assert_eq!(sc.last_position(), 2);
}

#[test]
fn committed_step_is_not_taken_back() {
    let mut sc = compressor(1, 10, 1_000_000);
    sc.append_clock(1, 1000).unwrap();
    sc.commit().unwrap();
    sc.append_clock(0, 1001).unwrap();
    sc.flush(u64::MAX).unwrap();
    assert_eq!(total_steps(&sc.into_sink().commands), 2);
}

#[test]
fn far_step_goes_out_alone() {
    let mut sc = compressor(4, 10, 1_000_000);
    sc.append_clock(1, 10).unwrap();
    sc.commit().unwrap();
    let far = 10 + CLOCK_DIFF_MAX;
    sc.append_clock(1, far).unwrap();
    sc.commit().unwrap();
    // the far step was emitted by the commit itself, after the queue
    assert_eq!(sc.last_step_clock(), far);
    assert_eq!(sc.last_position(), 2);
    let sink = sc.into_sink();
    assert_eq!(
        sink.commands,
        vec![
            Command::SetNextStepDir(SetNextStepDir { oid: 4, dir: true, req_clock: 0 }),
            Command::QueueStep(QueueStep {
                oid: 4,
                first_clock: 10,
                last_clock: 10,
                interval: 10,
                count: 1,
                add: 0,
                req_clock: 0,
                min_clock: 0,
            }),
            Command::QueueStep(QueueStep {
                oid: 4,
                first_clock: far,
                last_clock: far,
                interval: 805306368,
                count: 1,
                add: 0,
                req_clock: far,
                min_clock: 10,
            }),
        ]
    );
}

#[test]
fn step_just_within_reach_is_queued() {
    let mut sc = compressor(4, 10, 1_000_000);
    sc.append_clock(1, CLOCK_DIFF_MAX - 1).unwrap();
    sc.commit().unwrap();
    assert_eq!(sc.last_step_clock(), 0);
    sc.flush(u64::MAX).unwrap();
    let sink = sc.into_sink();
    match &sink.commands[1] {
        Command::QueueStep(q) => {
            assert_eq!(q.interval as u64, CLOCK_DIFF_MAX - 1);
            assert_eq!(q.req_clock, 0);
        }
        _ => panic!("expected a run"),
    }
}

#[test]
fn far_interval_keeps_its_low_32_bits() {
    let mut sc = compressor(4, 10, 1_000_000);
    let far: u64 = 0x1_0000_0005;
    sc.append_clock(1, far).unwrap();
    sc.commit().unwrap();
    let sink = sc.into_sink();
    match &sink.commands[1] {
        Command::QueueStep(q) => {
            assert_eq!(q.interval, 5);
            assert_eq!(q.first_clock, far);
            assert_eq!(q.last_clock, far);
        }
        _ => panic!("expected a run"),
    }
}

#[test]
fn steps_at_the_clock_of_the_last_one_are_refused_as_a_run() {
    let mut sc = compressor(1, 10, 1000);
    sc.append_clock(1, 0).unwrap();
    sc.commit().unwrap();
    sc.append_clock(1, 0).unwrap();
    sc.commit().unwrap();
    assert_eq!(
        sc.flush(u64::MAX),
        Err(StepCompressError::InvalidSequence { interval: 0, count: 2, add: 0 })
    );
}

#[test]
fn one_step_at_the_clock_of_the_last_one_is_a_run_without_interval() {
    let mut sc = compressor(1, 10, 1000);
    sc.append_clock(1, 0).unwrap();
    sc.flush(u64::MAX).unwrap();
    let sink = sc.into_sink();
    match &sink.commands[1] {
        Command::QueueStep(q) => assert_eq!((q.interval, q.count, q.add), (0, 1, 0)),
        _ => panic!("expected a run"),
    }
}

#[test]
fn recorded_counts_add_up_to_the_position() {
    let mut sc = compressor(1, 5, 1000);
    let mut clock = 0u64;
    for i in 0..40u64 {
        clock += 50 + (i % 7) * 13;
        let dir = if (i / 10) % 2 == 0 { 1 } else { 0 };
        sc.append_clock(dir, clock).unwrap();
    }
    sc.flush(u64::MAX).unwrap();
    let history = sc.extract_old(1000, 0, u64::MAX);
    let sum: i64 = history.iter().map(|h| h.step_count as i64).sum();
    assert_eq!(sum, sc.last_position());
    assert_eq!(sc.last_position(), 0);
    assert_eq!(sc.find_past_position(sc.last_step_clock()), sc.last_position());
    // every run starts after the one before it has ended
    let sink = sc.into_sink();
    let mut last_end = 0u64;
    let mut dirs = 0;
    for c in sink.commands.iter() {
        match c {
            Command::QueueStep(q) => {
                assert!(q.first_clock > last_end);
                assert!(q.first_clock <= q.last_clock);
                assert!(q.interval >= 1 && q.interval < 0x8000_0000);
                last_end = q.last_clock;
            }
            Command::SetNextStepDir(d) => {
                assert_eq!(d.oid, 1);
                dirs += 1;
            }
        }
    }
    assert_eq!(dirs, 4);
}

#[test]
fn position_inside_a_run_counts_the_steps_taken() {
    let mut sc = compressor(3, 0, 1_000_000);
    for clock in [100u64, 190, 270, 340] {
        sc.append_clock(1, clock).unwrap();
    }
    sc.flush(u64::MAX).unwrap();
    assert_eq!(sc.find_past_position(50), 0);
    assert_eq!(sc.find_past_position(100), 1);
    assert_eq!(sc.find_past_position(189), 1);
    assert_eq!(sc.find_past_position(190), 2);
    assert_eq!(sc.find_past_position(200), 2);
    assert_eq!(sc.find_past_position(339), 3);
    assert_eq!(sc.find_past_position(340), 4);
    assert_eq!(sc.find_past_position(1_000_000), 4);
}

#[test]
fn position_inside_a_backward_run_counts_down() {
    let entry = PullHistoryStep {
        first_clock: 1000,
        last_clock: 1300,
        start_position: 10,
        step_count: -4,
        interval: 100,
        add: 0,
    };
    assert_eq!(position_in_run(entry, 1000), 9);
    assert_eq!(position_in_run(entry, 1099), 9);
    assert_eq!(position_in_run(entry, 1100), 8);
    assert_eq!(position_in_run(entry, 1250), 7);
    let up = PullHistoryStep { step_count: 4, ..entry };
    assert_eq!(position_in_run(up, 1250), 13);
}

#[test]
fn set_last_position_marks_the_history() {
    let mut sc = compressor(1, 10, 1000);
    sc.append_clock(1, 10).unwrap();
    sc.set_last_position(50, -7).unwrap();
    // the pending step was emitted before the position was set
    assert_eq!(sc.last_step_clock(), 10);
    assert_eq!(sc.last_position(), -7);
    let history = sc.extract_old(10, 0, u64::MAX);
    assert_eq!(history.len(), 2);
    assert_eq!(
        history[0],
        PullHistoryStep {
            first_clock: 50,
            last_clock: 50,
            start_position: -7,
            step_count: 0,
            interval: 0,
            add: 0,
        }
    );
    assert_eq!(sc.find_past_position(60), -7);
    assert_eq!(sc.find_past_position(20), 1);
    assert_eq!(sc.find_past_position(5), 0);
}

#[test]
fn reset_flushes_and_forgets_the_direction() {
    let mut sc = compressor(1, 10, 1000);
    sc.append_clock(1, 10).unwrap();
    sc.reset(500).unwrap();
    assert_eq!(sc.last_step_clock(), 500);
    assert_eq!(sc.last_position(), 1);
    assert!(!sc.get_last_dir());
    sc.append_clock(1, 510).unwrap();
    sc.flush(u64::MAX).unwrap();
    let sink = sc.into_sink();
    // the same direction is announced anew after a reset
    assert_eq!(
        sink.commands[2],
        Command::SetNextStepDir(SetNextStepDir { oid: 1, dir: true, req_clock: 500 })
    );
    assert_eq!(sink.commands.len(), 4);
}

#[test]
fn extract_old_is_newest_first_and_bounded() {
    let mut sc = compressor(1, 0, 1_000_000);
    for clock in [100u64, 200, 300, 1000, 1700, 2400, 2410, 2420] {
        sc.append_clock(1, clock).unwrap();
    }
    sc.flush(u64::MAX).unwrap();
    let all = sc.extract_old(10, 0, u64::MAX);
    let spans: Vec<(u64, u64)> = all.iter().map(|h| (h.first_clock, h.last_clock)).collect();
    assert_eq!(spans, vec![(2410, 2420), (1000, 2400), (100, 300)]);
    assert_eq!(sc.extract_old(2, 0, u64::MAX).len(), 2);
    assert!(sc.extract_old(0, 0, u64::MAX).is_empty());
    // records that start at or after the end of the span are passed over
    let early: Vec<u64> = sc.extract_old(10, 0, 1000).iter().map(|h| h.first_clock).collect();
    assert_eq!(early, vec![100]);
    // the search ends at the first record that ended by the start of the span
    let late: Vec<u64> = sc.extract_old(10, 2400, u64::MAX).iter().map(|h| h.first_clock).collect();
    assert_eq!(late, vec![2410]);
}

#[test]
fn expire_history_drops_the_oldest_records() {
    let mut sc = compressor(1, 0, 1_000_000);
    for clock in [100u64, 200, 300, 1000, 1700, 2400, 2410, 2420] {
        sc.append_clock(1, clock).unwrap();
    }
    sc.flush(u64::MAX).unwrap();
    sc.expire_history(299);
    assert_eq!(sc.extract_old(10, 0, u64::MAX).len(), 3);
    sc.expire_history(300);
    assert_eq!(sc.extract_old(10, 0, u64::MAX).len(), 2);
    sc.expire_history(u64::MAX);
    assert!(sc.extract_old(10, 0, u64::MAX).is_empty());
    assert_eq!(sc.find_past_position(0), sc.last_position());
}

#[test]
fn room_and_latest_clock_say_what_may_be_taken_in() {
    let mut sc = compressor(1, 10, 1000);
    assert_eq!(sc.latest_clock(), 0);
    assert!(sc.has_room(1));
    sc.append_clock(1, 100).unwrap();
    assert_eq!(sc.latest_clock(), 100);
    sc.commit().unwrap();
    assert_eq!(sc.latest_clock(), 100);
    sc.flush(u64::MAX).unwrap();
    assert_eq!(sc.latest_clock(), 100);
    sc.set_last_position(200, i64::MAX).unwrap();
    assert!(sc.has_room(0));
    assert!(!sc.has_room(1));
    sc.set_last_position(200, i64::MIN + 2).unwrap();
    assert!(sc.has_room(2));
    assert!(!sc.has_room(3));
}

#[test]
fn long_queue_is_flushed_to_its_window() {
    let mut sc = compressor(1, 0, 1_000_000);
    let mut clock = 0u64;
    for i in 0..70_000u64 {
        // intervals that no run of more than two steps can follow
        clock += if i % 3 == 0 { 100 } else { 1000 + (i % 5) * 7 };
        sc.append_clock(1, clock).unwrap();
    }
    // once more than 67535 steps wait, the head of the queue goes out
    assert!(sc.last_step_clock() > 0);
    assert!(sc.last_position() > 0);
    assert!(sc.last_position() < 70_000 - 60_000);
    sc.flush(u64::MAX).unwrap();
    assert_eq!(sc.last_position(), 70_000);
    assert_eq!(sc.last_step_clock(), clock);
}

#[test]
fn steps_a_millisecond_apart_go_out_in_one_or_two_runs() {
    let mut sc = compressor(1, 10, 1000);
    for k in 0..5i64 {
        sc.append(1, 0, k * 1_000_000).unwrap();
    }
    sc.flush(u64::MAX).unwrap();
    let sink = sc.into_sink();
    assert_eq!(
        sink.commands[0],
        Command::SetNextStepDir(SetNextStepDir { oid: 1, dir: true, req_clock: 0 })
    );
    let runs: Vec<&Command> =
        sink.commands.iter().filter(|c| matches!(c, Command::QueueStep(_))).collect();
    assert!(runs.len() == 1 || runs.len() == 2);
    assert_eq!(runs.len() + 1, sink.commands.len());
    assert_eq!(total_steps(&sink.commands), 5);
}

#[test]
fn reversal_at_the_same_instant_leaves_no_step() {
    let mut sc = compressor(1, 10, 1000);
    sc.append(0, 0, 0).unwrap();
    sc.append(1, 0, 0).unwrap();
    sc.commit().unwrap();
    sc.flush(u64::MAX).unwrap();
    assert_eq!(total_steps(&sc.into_sink().commands), 0);
}

#[test]
fn clock_is_the_time_in_ticks_rounded_to_the_nearest() {
    // 1000 ticks per second: a tick lasts a million nanoseconds
    let sc = compressor(1, 10, 1000);
    assert_eq!(sc.clock_of(0, 0), 0);
    assert_eq!(sc.clock_of(0, 499_999), 0);
    assert_eq!(sc.clock_of(0, 500_000), 1);
    assert_eq!(sc.clock_of(0, 1_499_999), 1);
    assert_eq!(sc.clock_of(0, 1_500_000), 2);
    assert_eq!(sc.clock_of(3_000_000_000, 250_000_000), 3250);
    // the start of the segment and the time into it add up
    assert_eq!(sc.clock_of(7_000_000, 0), sc.clock_of(0, 7_000_000));
    assert_eq!(sc.clock_of(7_000_000, -2_000_000), 5);
    // a time before the clock's zero falls on the last step's clock
    assert_eq!(sc.clock_of(-5_000_000, 0), 0);
}

#[test]
fn clock_counts_from_the_time_offset() {
    let mut sc = StepCompressor::new(1, 10, RecordingSink::default());
    sc.set_time(2_000_000_000, 16_000_000);
    assert_eq!(sc.clock_of(2_000_000_000, 0), 0);
    assert_eq!(sc.clock_of(2_000_000_000, 1_000_000_000), 16_000_000);
    // 62.5 nanoseconds to the tick
    assert_eq!(sc.clock_of(2_000_000_000, 62), 1);
    assert_eq!(sc.clock_of(2_000_000_000, 31), 0);
    assert_eq!(sc.clock_of(2_000_000_000, 32), 1);
    assert_eq!(sc.clock_of(1_000_000_000, 0), 0);
}

#[test]
fn clock_is_never_before_the_last_step() {
    let mut sc = compressor(1, 10, 1000);
    sc.append(1, 0, 50_000_000).unwrap();
    sc.flush(u64::MAX).unwrap();
    assert_eq!(sc.last_step_clock(), 50);
    assert_eq!(sc.clock_of(0, 20_000_000), 50);
    assert_eq!(sc.clock_of(0, 50_000_000), 50);
    assert_eq!(sc.clock_of(0, 51_000_000), 51);
}

#[test]
fn clock_stays_within_64_bits() {
    assert_eq!(step_clock(0, i64::MAX, i64::MAX, i64::MIN, u64::MAX), u64::MAX);
    assert_eq!(step_clock(7, i64::MIN, i64::MIN, i64::MAX, u64::MAX), 7);
    assert_eq!(step_clock(0, i64::MAX, 0, 0, 1), 9_223_372_037);
    assert_eq!(step_clock(0, 1_000_000_000, 0, 0, u64::MAX), u64::MAX);
    assert_eq!(step_clock(0, 1_000_000_000, 0, 0, u64::MAX - 1), u64::MAX - 1);
    assert_eq!(step_clock(0, 5, 5, 10, 12345), 0);
    assert_eq!(step_clock(0, 0, 1, 0, 0), 0);
}

#[test]
fn clock_agrees_with_the_time_in_seconds() {
    // the time counted from half a tick before the last step, in floating point
    let by_seconds = |last: u64, freq: f64, offset: f64, print_time: f64, step_time: f64| {
        let last_step_print_time = offset + (last as f64 - 0.5) / freq;
        last + ((step_time + (print_time - last_step_print_time)) * freq) as u64
    };
    for (freq, print_ms, step_us) in
        [(1000u64, 0i64, 3_200i64), (16_000_000, 1500, 730), (72_000_000, 20, 999_990), (400, 12_345, 1)]
    {
        let print_ns = print_ms * 1_000_000;
        let step_ns = step_us * 1_000 + 17;
        let expected = by_seconds(
            0,
            freq as f64,
            0.0,
            print_ns as f64 / 1e9,
            step_ns as f64 / 1e9,
        );
        assert_eq!(step_clock(0, print_ns, step_ns, 0, freq), expected);
    }
}

#[test]
fn long_even_run_is_cut_at_65535_steps() {
    let mut sc = compressor(1, 0, 1_000_000);
    for i in 1..=70_000u64 {
        sc.append_clock(1, i * 100).unwrap();
    }
    sc.flush(u64::MAX).unwrap();
    let sink = sc.into_sink();
    let runs: Vec<(u32, u16, i16)> = sink
        .commands
        .iter()
        .filter_map(|c| match c {
            Command::QueueStep(q) => Some((q.interval, q.count, q.add)),
            _ => None,
        })
        .collect();
    assert_eq!(runs, vec![(100, 65535, 0), (100, 4465, 0)]);
}

#[test]
fn even_run_of_two_thousand_steps_is_one_run() {
    let mut sc = compressor(1, 25, 1_000_000);
    for i in 1..=2000u64 {
        sc.append_clock(1, i * 640).unwrap();
    }
    sc.flush(u64::MAX).unwrap();
    let sink = sc.into_sink();
    assert_eq!(
        sink.commands[1],
        Command::QueueStep(QueueStep {
            oid: 1,
            first_clock: 640,
            last_clock: 1_280_000,
            interval: 640,
            count: 2000,
            add: 0,
            req_clock: 0,
            min_clock: 0,
        })
    );
    assert_eq!(sink.commands.len(), 2);
}
