use vstd::prelude::*;

use crate::job::Job;
use vstd::math::{max, min};

verus! {

/// A scheduling discipline. A policy is a pure decision rule: it owns no
/// state, and one value may serve many simulation runs.
#[derive(Clone, Copy, PartialEq, Eq, Structural, Debug)]
pub enum Policy {
    /// Shortest remaining processing time: priority by `rem_size`.
    Srpt,
    /// Preemptive shortest job first: priority by `original_size`.
    Psjf,
    /// Product priority: `original_size * rem_size`.
    Rs,
    /// SRPT, except that near the given size threshold (in ticks) the server
    /// assignment is perturbed; see `decide`.
    SrptExcept(u64),
}

impl Policy {
    /// The priority index: the queue is served in ascending order of this.
    pub open spec fn priority_spec(self, job: Job) -> int {
        match self {
            Policy::Srpt => job.rem_size as int,
            Policy::Psjf => job.original_size as int,
            Policy::Rs => job.original_size * job.rem_size,
            Policy::SrptExcept(_) => job.rem_size as int,
        }
    }

    /// The priority index of one job under this policy.
    pub fn priority(&self, job: &Job) -> (r: u128)
        ensures
            r == self.priority_spec(*job),
    {
        match self {
            Policy::Srpt => job.rem_size as u128,
            Policy::Psjf => job.original_size as u128,
            Policy::Rs => {
                let a = job.original_size as u128;
                let b = job.rem_size as u128;
                proof {
                    assert(a * b <= 0xffff_ffff_ffff_ffff * 0xffff_ffff_ffff_ffff)
                        by (nonlinear_arith)
                        requires
                            a <= 0xffff_ffff_ffff_ffff && b <= 0xffff_ffff_ffff_ffff,
                    ;
                }
                a * b
            },
            Policy::SrptExcept(_) => job.rem_size as u128,
        }
    }
}

/// The queue is sorted ascending by the policy's priority index.
pub open spec fn sorted_by(p: Policy, q: Seq<Job>) -> bool {
    forall|i: int, j: int|
        0 <= i < j < q.len() ==> p.priority_spec(q[i]) <= p.priority_spec(q[j])
}

/// The first `n` queue positions, in order.
pub open spec fn prefix_positions(n: int) -> Seq<usize> {
    Seq::new(n as nat, |i: int| i as usize)
}

/// SRPTExcept near-threshold case: on a three-job queue with remaining sizes
/// `r1 <= r2 <= r3`, the middle job sits at or below the threshold while the
/// longest sits at or above it (both within `eps`).
pub open spec fn boundary_case(q: Seq<Job>, cut: int, eps: int) -> bool
    recommends
        q.len() == 3,
{
    q[1].rem_size <= cut + eps && q[2].rem_size + eps >= cut
}

/// SRPTExcept overshoot case: both larger jobs are within the shortest job's
/// remaining size of the threshold, and the longest is clearly above it.
pub open spec fn overshoot_case(q: Seq<Job>, cut: int, eps: int) -> bool
    recommends
        q.len() == 3,
{
    q[1].rem_size < q[0].rem_size + cut && q[2].rem_size < q[0].rem_size + cut && q[2].rem_size
        >= cut + eps
}

/// Which queue positions the policy serves, given the queue sorted ascending
/// by the policy's priority index.
pub open spec fn served_spec(p: Policy, q: Seq<Job>, eps: int) -> Seq<usize> {
    match p {
        Policy::Srpt | Policy::Psjf | Policy::Rs => prefix_positions(min(2, q.len() as int)),
        Policy::SrptExcept(cut) => if q.len() != 3 {
            prefix_positions(min(2, q.len() as int))
        } else if boundary_case(q, cut as int, eps) {
            seq![0usize, 2usize]
        } else {
            seq![0usize, 1usize]
        },
    }
}

/// The service duration the policy grants before the decision must be
/// revisited, already scaled by the server count of two (the engine divides
/// the elapsed interval by the server count before decrementing, so every
/// served job decays at rate one half). `None` stands for an unbounded
/// duration: the queue is empty and the engine jumps to the next arrival.
pub open spec fn duration_spec(p: Policy, q: Seq<Job>, eps: int) -> Option<int> {
    if q.len() == 0 {
        None
    } else {
        match p {
            Policy::Srpt | Policy::Psjf | Policy::Rs => if q.len() == 1 {
                Some(2 * q[0].rem_size)
            } else {
                Some(2 * min(q[0].rem_size as int, q[1].rem_size as int))
            },
            Policy::SrptExcept(cut) => if q.len() != 3 {
                Some(2 * q[0].rem_size)
            } else if boundary_case(q, cut as int, eps) {
                Some(2 * min(q[0].rem_size as int, q[2].rem_size + 2 * eps - cut))
            } else if overshoot_case(q, cut as int, eps) {
                Some(2 * (max(q[1].rem_size - cut, q[2].rem_size - cut) + eps))
            } else {
                Some(2 * q[0].rem_size)
            },
        }
    }
}

/// A finite duration in ticks, viewed as a mathematical integer.
pub open spec fn duration_as_int(d: Option<u128>) -> Option<int> {
    match d {
        Option::None => None,
        Option::Some(x) => Some(x as int),
    }
}

/// Law: under SRPT, on a queue sorted ascending by remaining size, the served
/// set is a prefix of that order — position `k` of the served list is queue
/// position `k`, and the list covers the front `min(2, len)` positions.
pub proof fn lemma_srpt_serves_prefix(q: Seq<Job>, eps: int)
    requires
        sorted_by(Policy::Srpt, q),
    ensures
        served_spec(Policy::Srpt, q, eps) == prefix_positions(min(2, q.len() as int)),
        served_spec(Policy::Srpt, q, eps).len() == min(2, q.len() as int),
        forall|k: int|
            0 <= k < served_spec(Policy::Srpt, q, eps).len() ==> served_spec(Policy::Srpt, q, eps)[k]
                == k as usize,
{
}

/// Law: the granted duration never outruns a served job by more than the
/// tolerance. For every policy, on a queue sorted ascending by the policy's
/// priority index, the scaled duration is at most `2 * (rem_size + eps)` for
/// each served job — so the engine's per-job decrement (the elapsed interval,
/// at most the duration, divided by the two servers) exceeds a served job's
/// remaining size by at most `eps`, and the true remaining size never falls
/// below `-eps`. For `SrptExcept` this needs the threshold to be at least the
/// tolerance; a threshold below it (say `SrptExcept(0)` with `eps == 10`) can
/// overshoot the longest job by up to `2 * eps - cut` in the near-threshold
/// case.
pub proof fn lemma_decrement_bounded(p: Policy, q: Seq<Job>, eps: int, d: int, k: int)
    requires
        sorted_by(p, q),
        eps >= 0,
        p matches Policy::SrptExcept(cut) ==> cut >= eps,
        duration_spec(p, q, eps) == Some(d),
        0 <= k < served_spec(p, q, eps).len(),
    ensures
        d <= 2 * (q[served_spec(p, q, eps)[k] as int].rem_size + eps),
        d / 2 <= q[served_spec(p, q, eps)[k] as int].rem_size + eps,
{
    let pos = served_spec(p, q, eps)[k] as int;
    match p {
        Policy::Srpt | Policy::Psjf | Policy::Rs => {
            assert(served_spec(p, q, eps) =~= prefix_positions(min(2, q.len() as int)));
        },
        Policy::SrptExcept(cut) => {
            if q.len() != 3 {
                assert(served_spec(p, q, eps) =~= prefix_positions(min(2, q.len() as int)));
                if pos == 1 {
                    assert(p.priority_spec(q[0]) <= p.priority_spec(q[1]));
                }
            } else {
                assert(p.priority_spec(q[0]) <= p.priority_spec(q[1]));
                assert(p.priority_spec(q[1]) <= p.priority_spec(q[2]));
            }
        },
    }
}

impl Policy {
    /// Given the queue sorted ascending by `priority`, return the served
    /// positions and the service duration (see `served_spec` and
    /// `duration_spec` for the exact values).
    ///
    /// Selection: all policies serve the front `min(2, len)` positions,
    /// except `SrptExcept(cut)` on a queue of exactly three jobs with sorted
    /// remaining sizes `r1 <= r2 <= r3`:
    /// - near-threshold case (`r2 <= cut + eps` and `r3 >= cut - eps`): serve
    ///   positions 0 and 2, skipping the middle job, for
    ///   `min(r1, r3 - cut + 2 * eps)` — the clamp keeps `r3` from decaying
    ///   below the threshold within the interval, which would invalidate the
    ///   case before the next decision;
    /// - overshoot case (`r2 - cut < r1`, `r3 - cut < r1`, `r3 >= cut + eps`):
    ///   serve positions 0 and 1 for `max(r2 - cut, r3 - cut) + eps` — the
    ///   overshoot forces strict progress past the threshold so no epoch has
    ///   zero length;
    /// - otherwise an ordinary two-job SRPT step of length `r1`.
    ///
    /// The returned duration is scaled by `server_count`; `None` (only on an
    /// empty queue) means the engine should jump straight to the next
    /// arrival. The shipped policies assume exactly two servers.
    pub fn decide(&self, queue: &Vec<Job>, server_count: u64, epsilon: u64) -> (r: (
        Vec<usize>,
        Option<u128>,
    ))
        requires
            server_count == 2,
        ensures
            r.0@ == served_spec(*self, queue@, epsilon as int),
            duration_as_int(r.1) == duration_spec(*self, queue@, epsilon as int),
            r.0@.len() <= server_count,
            forall|k: int| 0 <= k < r.0@.len() ==> (r.0@[k] as int) < queue@.len(),
            forall|k1: int, k2: int| 0 <= k1 < k2 < r.0@.len() ==> r.0@[k1] < r.0@[k2],
    {
        let n = queue.len();
        let special = match self {
            Policy::SrptExcept(_) => n == 3,
            _ => false,
        };
        if !special {
            let mut served: Vec<usize> = Vec::new();
            if n >= 1 {
                served.push(0);
            }
            if n >= 2 {
                served.push(1);
            }
            proof {
                assert(served@ =~= prefix_positions(min(2, queue@.len() as int)));
            }
            let duration: Option<u128> = if n == 0 {
                None
            } else {
                match self {
                    Policy::Srpt | Policy::Psjf | Policy::Rs => {
                        if n == 1 {
                            Some(2 * (queue[0].rem_size as u128))
                        } else {
                            let r0 = queue[0].rem_size;
                            let r1 = queue[1].rem_size;
                            let m = if r0 <= r1 {
                                r0
                            } else {
                                r1
                            };
                            Some(2 * (m as u128))
                        }
                    },
                    Policy::SrptExcept(_) => Some(2 * (queue[0].rem_size as u128)),
                }
            };
            (served, duration)
        } else {
            let cut = match self {
                Policy::SrptExcept(c) => *c,
                _ => 0,
            };
            let r1 = queue[0].rem_size as u128;
            let r2 = queue[1].rem_size as u128;
            let r3 = queue[2].rem_size as u128;
            let c = cut as u128;
            let e = epsilon as u128;
            if r2 <= c + e && r3 + e >= c {
                let cap = r3 + 2 * e - c;
                let raw = if r1 <= cap {
                    r1
                } else {
                    cap
                };
                let mut served: Vec<usize> = Vec::new();
                served.push(0);
                served.push(2);
                proof {
                    assert(served@ =~= seq![0usize, 2usize]);
                }
                (served, Some(2 * raw))
            } else {
                let mut served: Vec<usize> = Vec::new();
                served.push(0);
                served.push(1);
                proof {
                    assert(served@ =~= seq![0usize, 1usize]);
                }
                if r2 < r1 + c && r3 < r1 + c && r3 >= c + e {
                    let mx = if r2 >= r3 {
                        r2 - c
                    } else {
                        r3 - c
                    };
                    (served, Some(2 * (mx + e)))
                } else {
                    (served, Some(2 * r1))
                }
            }
        }
    }
}

} // verus!
