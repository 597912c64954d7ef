use vstd::prelude::*;

verus! {

/// One unit of work: when it arrived, how much service it asked for, and how
/// much service it is still owed. All three are fixed-point tick counts.
#[derive(Clone, Copy, PartialEq, Eq, Structural, Debug)]
pub struct Job {
    /// Simulated-clock timestamp at enqueue; never changes afterwards.
    pub arrival_time: u64,
    /// Total service requirement, fixed at arrival.
    pub original_size: u64,
    /// Service still outstanding; only the engine's service step lowers it.
    pub rem_size: u64,
}

impl Job {
    /// A job never owes more service than it arrived with.
    pub open spec fn wf(self) -> bool {
        self.rem_size <= self.original_size
    }
}

} // verus!
