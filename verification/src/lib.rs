//! Discrete-event simulation of a shared-capacity, multi-server queue under
//! preemptive size-based scheduling disciplines (shortest-remaining-time-first
//! and variants).
//!
//! Every quantity of the model — clock, job sizes, thresholds, tolerances —
//! is a fixed-point tick count: the caller picks a tick length (say one tick
//! per 1e-9 of the simulated time unit) and expresses sizes, gaps, and the
//! tolerance `epsilon` in it. Random sampling is the caller's business: the
//! engine consumes plain tick counts and is a deterministic function of them.

pub mod dist;
pub mod engine;
pub mod job;
pub mod policy;

pub use dist::Dist;
pub use engine::ConfigError;
pub use engine::Sim;
pub use job::Job;
pub use policy::Policy;
