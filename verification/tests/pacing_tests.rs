use poisson_ticker::SpinTimer;
use poisson_ticker::TickAction;
use poisson_ticker::TimerArm;
use poisson_ticker::TimerMachine;
use poisson_ticker::TimerPhase;
use poisson_ticker::requests::DistributionType;
use poisson_ticker::requests::RequestSchedule;

fn schedule_of(intervals: Vec<u64>, rate: u64) -> RequestSchedule {
    let n = intervals.len();
    RequestSchedule::new(n, rate, DistributionType::Exponential, intervals).unwrap()
}

#[test]
fn spin_timer_waits_for_scheduled_interval() {
    let s = schedule_of(vec![100_000, 200_000], 10_000);
    let mut t = SpinTimer::new(s, 1_000_000_000);
    assert_eq!(t.cur_idx, 0);
    assert_eq!(t.deficit_ns, 0);
    assert_eq!(t.id, None);
    assert_eq!(t.next_tick(), TickAction::WaitFor { wait_ns: 100_000 });
    assert_eq!(t.cur_idx, 1);
    assert_eq!(t.deficit_ns, 0);
}

#[test]
fn spin_timer_overshoot_feeds_deficit_and_catches_up() {
    let s = schedule_of(vec![100_000, 40_000, 40_000], 10_000);
    let mut t = SpinTimer::new(s, 1_000_000_000);
    assert_eq!(t.next_tick(), TickAction::WaitFor { wait_ns: 100_000 });
    // the wait ran 50 microseconds late
    t.complete_wait(100_000, 150_000);
    assert_eq!(t.deficit_ns, 50_000);
    // the deficit exceeds the next interval: fire immediately, consume it
    assert_eq!(t.next_tick(), TickAction::Immediate);
    assert_eq!(t.deficit_ns, 10_000);
    // the remaining deficit no longer covers an interval: wait again
    assert_eq!(t.next_tick(), TickAction::WaitFor { wait_ns: 40_000 });
    assert_eq!(t.deficit_ns, 10_000);
}

#[test]
fn spin_timer_short_interval_fires_immediately() {
    let s = schedule_of(vec![50, 99, 100], 10_000_000);
    let mut t = SpinTimer::new(s, 1_000_000_000);
    assert_eq!(t.next_tick(), TickAction::Immediate);
    assert_eq!(t.next_tick(), TickAction::Immediate);
    // exactly at the floor: a real wait
    assert_eq!(t.next_tick(), TickAction::WaitFor { wait_ns: 100 });
}

#[test]
fn spin_timer_done_on_exhaustion_or_deadline() {
    let s = schedule_of(vec![1_000], 1_000_000);
    let mut t = SpinTimer::new_with_log_id(s, 5_000, Some(42));
    assert_eq!(t.id, Some(42));
    assert!(!t.done(0));
    // wall-clock budget spent
    assert!(t.done(5_000));
    // schedule exhausted
    t.next_tick();
    assert!(t.done(0));
}

#[test]
fn spin_timer_flags_long_samples() {
    let s = RequestSchedule::new(4, 1_000, DistributionType::Uniform, Vec::new()).unwrap();
    let t = SpinTimer::new(s, 1_000_000_000);
    // mean is 1ms; ten times the mean is the diagnostic threshold
    assert!(!t.is_long_sample(10_000_000));
    assert!(t.is_long_sample(10_000_001));
}

#[test]
fn timer_machine_two_state_cycle() {
    let s = schedule_of(vec![50, 200_000], 10_000);
    let mut t = TimerMachine::new(s, 1_000_000_000);
    assert_eq!(t.phase, TimerPhase::NeedsSample);
    // below the floor: fire now, stay ready to sample
    assert_eq!(t.arm_next(), TimerArm::FireNow);
    assert_eq!(t.phase, TimerPhase::NeedsSample);
    // a real interval: arm the one-shot timer and wait for it
    assert_eq!(t.arm_next(), TimerArm::Arm { dur_ns: 200_000 });
    assert_eq!(t.phase, TimerPhase::Waiting);
    t.timer_fired();
    assert_eq!(t.phase, TimerPhase::NeedsSample);
    assert!(t.done(0));
}

#[test]
fn timer_machine_done_matches_spin_timer() {
    let s = schedule_of(vec![1_000], 1_000_000);
    let t = TimerMachine::new(s, 5_000);
    assert!(!t.done(4_999));
    assert!(t.done(5_000));
}
