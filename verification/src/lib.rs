//! Open-loop request pacing and latency analysis.
//!
//! The crate has two halves. The first builds a schedule of interarrival
//! times for a target request rate ([`requests`]) and drives it through a
//! drift-compensating pacing state machine ([`pacing`]). The second records
//! per-request send and receive timestamps, turns them into raw latency
//! buffers with quantile queries, and compresses a run's window into a
//! bucketed summary report.
//!
//! All times are unsigned nanosecond counts measured from a caller-chosen
//! origin; quantiles and rates are exact rationals given as a numerator and a
//! denominator. The caller supplies the clock readings and any random draws,
//! so every decision made here is a function of its arguments.

pub mod histogram;
pub mod pacing;
pub mod requests;
pub mod summary_stats;

pub use pacing::MIN_INTERARRIVAL_NS;
pub use pacing::SpinTimer;
pub use pacing::TickAction;
pub use pacing::TimerArm;
pub use pacing::TimerMachine;
pub use pacing::TimerPhase;
