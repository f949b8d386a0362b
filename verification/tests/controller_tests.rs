use data_collector::controller::Controller;
use data_collector::scheduler::Scheduler;

#[test]
fn test_threshold_three_devices() {
    // Intervals 1s, 2s, 4s: the spread ratio is 4, so the threshold is
    // 2 devices-rounds * 3 devices * 4 = 24.
    let c = Controller::new(3, 1_000_000_000, 4_000_000_000);
    assert_eq!(c.threshold, 24);
    assert_eq!(c.fail_count, 0);
}

#[test]
fn test_threshold_ratio_rounds_up() {
    // 3s over 2s is a ratio of 2 after rounding up: threshold 2 * 1 * 2.
    let c = Controller::new(1, 2_000_000_000, 3_000_000_000);
    assert_eq!(c.threshold, 4);
}

#[test]
fn test_continuous_failure_terminates_at_threshold() {
    let mut c = Controller::new(3, 1_000_000_000, 4_000_000_000);
    for k in 1..=24u64 {
        assert!(!c.should_exit());
        c.on_failure();
        assert_eq!(c.fail_count, k);
    }
    assert!(c.should_exit());
}

#[test]
fn test_one_success_decrements_by_one() {
    let mut c = Controller::new(3, 1_000_000_000, 4_000_000_000);
    for _ in 0..23 {
        c.on_failure();
    }
    assert!(!c.should_exit());
    // One success mid-run resets nothing beyond decrementing by one.
    c.on_success();
    assert_eq!(c.fail_count, 22);
    c.on_failure();
    c.on_failure();
    assert_eq!(c.fail_count, 24);
    assert!(c.should_exit());
}

#[test]
fn test_success_floors_at_zero() {
    let mut c = Controller::new(1, 1_000_000_000, 1_000_000_000);
    c.on_success();
    c.on_success();
    assert_eq!(c.fail_count, 0);
    c.on_failure();
    c.on_success();
    c.on_success();
    assert_eq!(c.fail_count, 0);
}

#[test]
fn test_scheduler_first_tick_after_one_interval() {
    let s = Scheduler::new(vec![1_000, 2_000, 4_000], 10_000);
    assert_eq!(s.next_fire_ns, vec![11_000, 12_000, 14_000]);
    assert_eq!(s.next_due(), Some((0, 11_000)));
}

#[test]
fn test_scheduler_advance_keeps_cadence() {
    let mut s = Scheduler::new(vec![1_000, 3_000], 0);
    assert_eq!(s.next_due(), Some((0, 1_000)));
    // The round for device 0 finishes shortly after its tick.
    s.advance(0, 1_200);
    assert_eq!(s.next_fire_ns[0], 2_000);
    assert_eq!(s.next_fire_ns[1], 3_000);
}

#[test]
fn test_scheduler_coalesces_missed_ticks() {
    let mut s = Scheduler::new(vec![1_000, 3_000], 0);
    // A long round for device 0 runs past several of its own ticks: they
    // collapse into the next on-cadence tick, none queue up.
    s.advance(0, 5_500);
    assert_eq!(s.next_fire_ns[0], 6_000);
}

#[test]
fn test_scheduler_ties_go_to_earliest_index() {
    let s = Scheduler::new(vec![2_000, 2_000], 0);
    assert_eq!(s.next_due(), Some((0, 2_000)));
    let empty = Scheduler::new(Vec::new(), 0);
    assert_eq!(empty.next_due(), None);
}
