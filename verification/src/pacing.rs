//! Pacing state machines: decide, for each scheduled interarrival, whether
//! the next tick fires immediately or after a wait, with deficit accounting
//! so that ticks that fire late are paid back by later immediate ticks.
//!
//! The machines here hold no clock. The surrounding driver reads the wall
//! clock, passes elapsed nanoseconds in, performs the waits these decisions
//! ask for, and reports back how long a wait really took.

use crate::requests::RequestSchedule;
use vstd::prelude::*;

verus! {

/// Sampled interarrivals below this floor, in nanoseconds, fire immediately:
/// a cooperative scheduler cannot usefully wait at that granularity.
pub const MIN_INTERARRIVAL_NS: u64 = 100;

/// What the driver should do for the tick that was just scheduled.
#[derive(Debug, Eq, PartialEq, Copy, Clone, Structural)]
pub enum TickAction {
    /// Resolve the tick now, without waiting.
    Immediate,
    /// Wait `wait_ns` nanoseconds from now, then resolve the tick and
    /// report the measured wait back through [`SpinTimer::complete_wait`].
    WaitFor { wait_ns: u64 },
}

/// The busy-poll pacing machine: walks a [`RequestSchedule`] by index and
/// keeps a deficit accumulator of nanoseconds owed from ticks that fired
/// late, consumed by letting later ticks fire immediately.
pub struct SpinTimer {
    /// The interarrival schedule being replayed.
    pub schedule: RequestSchedule,
    /// Nanoseconds of accumulated lateness not yet paid back.
    pub deficit_ns: u64,
    /// Optional numeric id, carried for the driver's diagnostics only.
    pub id: Option<usize>,
    /// Index of the next interarrival to schedule.
    pub cur_idx: usize,
    /// Wall-clock run budget in nanoseconds from the driver's start instant.
    pub end_time_ns: u64,
}

impl SpinTimer {
    /// A fresh machine at index zero with no deficit and no diagnostic id.
    pub fn new(r: RequestSchedule, end_time_ns: u64) -> (t: SpinTimer)
        ensures
            t == (SpinTimer {
                schedule: r,
                deficit_ns: 0u64,
                id: None::<usize>,
                cur_idx: 0usize,
                end_time_ns,
            }),
    {
        SpinTimer::new_with_log_id(r, end_time_ns, None)
    }

    /// As [`SpinTimer::new`], with a diagnostic id attached.
    pub fn new_with_log_id(r: RequestSchedule, end_time_ns: u64, id: Option<usize>) -> (t:
        SpinTimer)
        ensures
            t == (SpinTimer {
                schedule: r,
                deficit_ns: 0u64,
                id,
                cur_idx: 0usize,
                end_time_ns,
            }),
    {
        SpinTimer { schedule: r, deficit_ns: 0, id, cur_idx: 0, end_time_ns }
    }

    /// True once the schedule is exhausted or the run's wall-clock budget,
    /// measured by the caller as `elapsed_ns` since the run began, is spent.
    /// The two terminal conditions are deliberately equivalent.
    pub fn done(&self, elapsed_ns: u64) -> (r: bool)
        ensures
            r == (self.cur_idx >= self.schedule.interarrivals@.len() || elapsed_ns
                >= self.end_time_ns),
    {
        self.cur_idx >= self.schedule.len() || elapsed_ns >= self.end_time_ns
    }

    /// Schedules the tick at the current index and advances the index.
    ///
    /// If the accumulated deficit exceeds the sampled interarrival, that much
    /// deficit is consumed and the tick fires immediately: this is the
    /// catch-up path that keeps the long-run average period from drifting
    /// above target. An interarrival below [`MIN_INTERARRIVAL_NS`] also
    /// fires immediately. Otherwise the driver is asked to wait for the
    /// sampled interarrival.
    pub fn next_tick(&mut self) -> (r: TickAction)
        requires
            old(self).cur_idx < old(self).schedule.interarrivals@.len(),
        ensures
            final(self).schedule == old(self).schedule,
            final(self).id == old(self).id,
            final(self).end_time_ns == old(self).end_time_ns,
            final(self).cur_idx == old(self).cur_idx + 1,
            ({
                let interval = old(self).schedule.interarrivals@[old(self).cur_idx as int];
                if old(self).deficit_ns > interval {
                    r == TickAction::Immediate && final(self).deficit_ns == old(self).deficit_ns
                        - interval
                } else if interval < MIN_INTERARRIVAL_NS {
                    r == TickAction::Immediate && final(self).deficit_ns == old(self).deficit_ns
                } else {
                    r == (TickAction::WaitFor { wait_ns: interval }) && final(self).deficit_ns
                        == old(self).deficit_ns
                }
            }),
    {
        proof {
            broadcast use vstd::std_specs::vec::axiom_spec_len;

            assert(self.schedule.interarrivals.len() == self.schedule.interarrivals@.len());
        }
        let next_interarrival_ns = self.schedule.get(self.cur_idx);
        self.cur_idx = self.cur_idx + 1;
        if self.deficit_ns > next_interarrival_ns {
            self.deficit_ns = self.deficit_ns - next_interarrival_ns;
            TickAction::Immediate
        } else if next_interarrival_ns < MIN_INTERARRIVAL_NS {
            TickAction::Immediate
        } else {
            TickAction::WaitFor { wait_ns: next_interarrival_ns }
        }
    }

    /// Records the outcome of a wait the driver performed: the overshoot
    /// (measured wait minus scheduled wait) is added to the deficit, to be
    /// consumed by future catch-up ticks. Saturates at the top of the
    /// counter rather than wrapping.
    pub fn complete_wait(&mut self, scheduled_ns: u64, elapsed_ns: u64)
        requires
            elapsed_ns >= scheduled_ns,
        ensures
            final(self).schedule == old(self).schedule,
            final(self).id == old(self).id,
            final(self).end_time_ns == old(self).end_time_ns,
            final(self).cur_idx == old(self).cur_idx,
            final(self).deficit_ns == if old(self).deficit_ns + (elapsed_ns - scheduled_ns)
                <= u64::MAX {
                (old(self).deficit_ns + (elapsed_ns - scheduled_ns)) as u64
            } else {
                u64::MAX
            },
    {
        let overshoot = elapsed_ns - scheduled_ns;
        self.deficit_ns = self.deficit_ns.saturating_add(overshoot);
    }

    /// True when a sampled interarrival is more than ten times the scheduled
    /// mean: a diagnostic anomaly the driver may log, never an error.
    pub fn is_long_sample(&self, interval_ns: u64) -> (r: bool)
        ensures
            r == (interval_ns > 10 * self.schedule.avg_interarrival),
    {
        (interval_ns as u128) > 10u128 * (self.schedule.avg_interarrival as u128)
    }
}

/// The two states of the one-shot timer machine.
#[derive(Debug, Eq, PartialEq, Copy, Clone, Structural)]
pub enum TimerPhase {
    /// The next interarrival has not been drawn from the schedule yet.
    NeedsSample,
    /// A one-shot timer has been armed and has not fired yet.
    Waiting,
}

/// What the driver should do after the machine draws an interarrival.
#[derive(Debug, Eq, PartialEq, Copy, Clone, Structural)]
pub enum TimerArm {
    /// The interarrival was below the floor: resolve the tick now.
    FireNow,
    /// Arm a one-shot timer for `dur_ns` nanoseconds, then report its
    /// completion through [`TimerMachine::timer_fired`].
    Arm { dur_ns: u64 },
}

/// The one-shot timer pacing machine. Unlike [`SpinTimer`] it keeps no
/// deficit: its drift is bounded by the driver's timer resolution rather
/// than corrected explicitly.
pub struct TimerMachine {
    /// The interarrival schedule being replayed.
    pub schedule: RequestSchedule,
    /// Index of the next interarrival to schedule.
    pub cur_idx: usize,
    /// Wall-clock run budget in nanoseconds from the driver's start instant.
    pub end_time_ns: u64,
    /// Which of the two states the machine is in.
    pub phase: TimerPhase,
}

impl TimerMachine {
    /// A fresh machine at index zero, ready to draw its first sample.
    pub fn new(r: RequestSchedule, end_time_ns: u64) -> (t: TimerMachine)
        ensures
            t == (TimerMachine {
                schedule: r,
                cur_idx: 0usize,
                end_time_ns,
                phase: TimerPhase::NeedsSample,
            }),
    {
        TimerMachine { schedule: r, cur_idx: 0, end_time_ns, phase: TimerPhase::NeedsSample }
    }

    /// Same terminal conditions as [`SpinTimer::done`]: schedule exhausted
    /// or wall-clock budget spent.
    pub fn done(&self, elapsed_ns: u64) -> (r: bool)
        ensures
            r == (self.cur_idx >= self.schedule.interarrivals@.len() || elapsed_ns
                >= self.end_time_ns),
    {
        self.cur_idx >= self.schedule.len() || elapsed_ns >= self.end_time_ns
    }

    /// Draws the interarrival at the current index. Below the floor the tick
    /// resolves immediately and the machine stays in `NeedsSample`;
    /// otherwise the driver arms a one-shot timer and the machine waits.
    pub fn arm_next(&mut self) -> (r: TimerArm)
        requires
            old(self).phase == TimerPhase::NeedsSample,
            old(self).cur_idx < old(self).schedule.interarrivals@.len(),
        ensures
            final(self).schedule == old(self).schedule,
            final(self).end_time_ns == old(self).end_time_ns,
            final(self).cur_idx == old(self).cur_idx + 1,
            ({
                let interval = old(self).schedule.interarrivals@[old(self).cur_idx as int];
                if interval < MIN_INTERARRIVAL_NS {
                    r == TimerArm::FireNow && final(self).phase == TimerPhase::NeedsSample
                } else {
                    r == (TimerArm::Arm { dur_ns: interval }) && final(self).phase
                        == TimerPhase::Waiting
                }
            }),
    {
        proof {
            broadcast use vstd::std_specs::vec::axiom_spec_len;

            assert(self.schedule.interarrivals.len() == self.schedule.interarrivals@.len());
        }
        let next_interarrival_ns = self.schedule.get(self.cur_idx);
        self.cur_idx = self.cur_idx + 1;
        if next_interarrival_ns < MIN_INTERARRIVAL_NS {
            TimerArm::FireNow
        } else {
            self.phase = TimerPhase::Waiting;
            TimerArm::Arm { dur_ns: next_interarrival_ns }
        }
    }

    /// The armed one-shot timer completed: the tick resolves and the machine
    /// is ready to draw the next sample.
    pub fn timer_fired(&mut self)
        requires
            old(self).phase == TimerPhase::Waiting,
        ensures
            final(self).schedule == old(self).schedule,
            final(self).end_time_ns == old(self).end_time_ns,
            final(self).cur_idx == old(self).cur_idx,
            final(self).phase == TimerPhase::NeedsSample,
    {
        self.phase = TimerPhase::NeedsSample;
    }
}

} // verus!
