use vstd::prelude::*;

use crate::dist::{Dist, MAX_SCALE};
use crate::job::Job;
use crate::policy::{duration_spec, served_spec, sorted_by, Policy};
use vstd::math::min;

verus! {

/// One job after `dec` ticks of service, clamped at zero: the stored
/// remaining size never goes negative, the true remainder being within the
/// tolerance of zero whenever the policy granted the duration (see
/// `crate::policy::lemma_decrement_bounded`).
pub open spec fn serve_job(j: Job, dec: int) -> Job {
    Job {
        arrival_time: j.arrival_time,
        original_size: j.original_size,
        rem_size: if j.rem_size >= dec {
            (j.rem_size - dec) as u64
        } else {
            0u64
        },
    }
}

/// The sorted queue after the epoch's service step: every served position
/// loses `dec` ticks of remaining size, the rest stand untouched.
pub open spec fn served_queue(p: Policy, q1: Seq<Job>, eps: int, dec: int) -> Seq<Job> {
    Seq::new(
        q1.len(),
        |i: int|
            if served_spec(p, q1, eps).contains(i as usize) {
                serve_job(q1[i], dec)
            } else {
                q1[i]
            },
    )
}

/// The served positions, among the first `upto` of the served list, whose
/// remaining size fell below `eps`: the jobs this epoch retires, in
/// ascending position order.
pub open spec fn completed_positions(
    p: Policy,
    q1: Seq<Job>,
    eps: int,
    dec: int,
    upto: int,
) -> Seq<usize>
    decreases upto,
{
    if upto <= 0 {
        Seq::empty()
    } else {
        let pre = completed_positions(p, q1, eps, dec, upto - 1);
        let pos = served_spec(p, q1, eps)[upto - 1];
        if serve_job(q1[pos as int], dec).rem_size < eps {
            pre.push(pos)
        } else {
            pre
        }
    }
}

/// The queue left after retiring the given positions, processed from the
/// highest position down so that the lower positions stay valid.
pub open spec fn remove_positions(q: Seq<Job>, rem: Seq<usize>) -> Seq<Job>
    decreases rem.len(),
{
    if rem.len() == 0 {
        q
    } else {
        remove_positions(q, rem.drop_first()).remove(rem.first() as int)
    }
}

/// The (arrival, completion) pairs the epoch appends to the completion log:
/// one per retired position, highest position first (the processing order),
/// each completed at time `t`.
pub open spec fn completion_pairs(q2: Seq<Job>, rem: Seq<usize>, t: u64) -> Seq<(u64, u64)>
    decreases rem.len(),
{
    if rem.len() == 0 {
        Seq::empty()
    } else {
        completion_pairs(q2, rem.drop_first(), t).push((q2[rem.first() as int].arrival_time, t))
    }
}

/// What one decision epoch does, given `q1`, the queue as sorted by the
/// policy's priority — a stable permutation of the previous queue (equal
/// priorities keep their relative order), which pins `q1` down, so the whole
/// step is a function of the previous state: the clock moves
/// by the granted duration or to the pending arrival, whichever is earlier;
/// each served position loses the elapsed interval divided by the two
/// servers; the served positions that fell below the tolerance leave the
/// queue, each adding one (arrival, completion-now) pair to the log; and the
/// epoch reports whether it ended at the arrival time.
pub open spec fn epoch_rel(pre: Sim, q1: Seq<Job>, post: Sim, was_arrival: bool) -> bool {
    let p = pre.policy;
    let eps = pre.epsilon as int;
    let gap = pre.next_arrival - pre.clock;
    let interval = match duration_spec(p, q1, eps) {
        Option::None => gap,
        Option::Some(d) => min(d, gap),
    };
    let dec = interval / 2;
    let q2 = served_queue(p, q1, eps, dec);
    let rem = completed_positions(p, q1, eps, dec, served_spec(p, q1, eps).len() as int);
    &&& sorted_by(p, q1)
    &&& q1.to_multiset() == pre.queue@.to_multiset()
    &&& exists|f: Seq<int>| stable_sort_map(f, pre.queue@, q1, p)
    &&& was_arrival == match duration_spec(p, q1, eps) {
        Option::None => true,
        Option::Some(d) => gap < d,
    }
    &&& post.clock == pre.clock + interval
    &&& post.queue@ == remove_positions(q2, rem)
    &&& post.completions@ == pre.completions@ + completion_pairs(q2, rem, post.clock)
    &&& post.num_completions == pre.num_completions + rem.len()
}

/// The retired positions are strictly ascending, valid, and drawn from the
/// served list.
proof fn lemma_completed_positions_props(p: Policy, q1: Seq<Job>, eps: int, dec: int, upto: int)
    requires
        0 <= upto <= served_spec(p, q1, eps).len(),
        forall|a: int, b: int|
            0 <= a < b < served_spec(p, q1, eps).len() ==> served_spec(p, q1, eps)[a]
                < served_spec(p, q1, eps)[b],
        forall|a: int|
            0 <= a < served_spec(p, q1, eps).len() ==> (served_spec(p, q1, eps)[a] as int)
                < q1.len(),
    ensures
        forall|a: int, b: int|
            0 <= a < b < completed_positions(p, q1, eps, dec, upto).len() ==> completed_positions(
                p,
                q1,
                eps,
                dec,
                upto,
            )[a] < completed_positions(p, q1, eps, dec, upto)[b],
        forall|a: int|
            0 <= a < completed_positions(p, q1, eps, dec, upto).len() ==> exists|t: int|
                0 <= t < upto && #[trigger] (completed_positions(p, q1, eps, dec, upto)[a])
                    == served_spec(p, q1, eps)[t],
        forall|a: int|
            0 <= a < completed_positions(p, q1, eps, dec, upto).len() ==> (#[trigger] (
            completed_positions(p, q1, eps, dec, upto)[a]) as int) < q1.len(),
    decreases upto,
{
    if upto > 0 {
        lemma_completed_positions_props(p, q1, eps, dec, upto - 1);
        let pre = completed_positions(p, q1, eps, dec, upto - 1);
        let cur = completed_positions(p, q1, eps, dec, upto);
        let served = served_spec(p, q1, eps);
        if cur.len() > pre.len() {
            assert forall|a: int| 0 <= a < pre.len() implies pre[a] < served[upto - 1] by {
                let t = choose|t: int| 0 <= t < upto - 1 && pre[a] == served[t];
                assert(served[t] < served[upto - 1]);
            }
        }
    }
}

/// Retiring positions that all lie above `i` neither moves nor touches the
/// entry at `i`, and removes exactly one entry each.
proof fn lemma_remove_positions_prefix(q: Seq<Job>, rem: Seq<usize>, i: int)
    requires
        forall|a: int, b: int| 0 <= a < b < rem.len() ==> rem[a] < rem[b],
        forall|a: int| 0 <= a < rem.len() ==> (rem[a] as int) < q.len(),
        0 <= i < q.len(),
        forall|a: int| 0 <= a < rem.len() ==> i < rem[a],
    ensures
        remove_positions(q, rem).len() == q.len() - rem.len(),
        remove_positions(q, rem)[i] == q[i],
    decreases rem.len(),
{
    if rem.len() > 0 {
        let tail = rem.drop_first();
        lemma_remove_positions_prefix(q, tail, i);
        if rem.len() > 1 {
            lemma_ascending_gap(rem, 0, rem.len() - 1);
        }
        assert(remove_positions(q, tail)[i] == q[i]);
        assert((rem.first() as int) + (rem.len() - 1) <= q.len());
    }
}

/// Sum of completion time minus arrival time over recorded pairs.
pub open spec fn sum_responses(s: Seq<(u64, u64)>) -> int
    decreases s.len(),
{
    if s.len() == 0 {
        0
    } else {
        sum_responses(s.drop_last()) + (s.last().1 - s.last().0)
    }
}

/// Appending one pair adds exactly its response time to the sum.
pub proof fn lemma_sum_responses_push(s: Seq<(u64, u64)>, p: (u64, u64))
    ensures
        sum_responses(s.push(p)) == sum_responses(s) + (p.1 - p.0),
{
    assert(s.push(p).drop_last() =~= s);
}

/// Each recorded response fits in a `u64`, so the sum is bounded by the count.
pub proof fn lemma_sum_responses_bound(s: Seq<(u64, u64)>)
    ensures
        sum_responses(s) <= s.len() * 0xffff_ffff_ffff_ffff,
    decreases s.len(),
{
    if s.len() > 0 {
        lemma_sum_responses_bound(s.drop_last());
    }
}

/// The rejections a run's configuration can earn before any event processing.
#[derive(Clone, Copy, PartialEq, Eq, Structural, Debug)]
pub enum ConfigError {
    /// The size distribution's mean is not one within the tolerance (or its
    /// parameters are malformed), so the load factor would lose its meaning.
    MeanNotOne,
    /// The shipped policies' decision logic assumes exactly two servers.
    ServerCountNotTwo,
}

/// The state of one simulation run: simulated clock, pending arrival, queue,
/// and the response-time statistics, all in ticks. The ghost `completions`
/// log underpins the conservation law: `total_response` always equals the sum
/// of completion minus arrival time over the jobs completed so far.
pub struct Sim {
    /// The active scheduling discipline.
    pub policy: Policy,
    /// Number of servers; always two.
    pub server_count: u64,
    /// Tolerance in ticks: completion threshold, near-equality slack, and the
    /// overshoot that forces progress past a threshold.
    pub epsilon: u64,
    /// The simulated clock.
    pub clock: u64,
    /// Absolute time of the next arrival.
    pub next_arrival: u64,
    /// Jobs waiting for or receiving service.
    pub queue: Vec<Job>,
    /// How many jobs have entered the system.
    pub num_arrivals: u64,
    /// How many jobs have completed.
    pub num_completions: u64,
    /// Sum over completed jobs of completion time minus arrival time.
    pub total_response: u128,
    /// The (arrival, completion) times of every completed job, in order of
    /// completion.
    pub completions: Ghost<Seq<(u64, u64)>>,
}

impl Sim {
    /// What every engine step preserves: the clock never passes the pending
    /// arrival, queued jobs arrived in the past and owe no more than they
    /// asked for, every job is either queued or completed, and the
    /// response-time accumulator equals the sum over the completion log.
    pub open spec fn inv(self) -> bool {
        &&& self.server_count == 2
        &&& self.clock <= self.next_arrival
        &&& forall|i: int|
            0 <= i < self.queue@.len() ==> (#[trigger] self.queue@[i]).wf()
                && self.queue@[i].arrival_time <= self.clock
        &&& self.num_completions == self.completions@.len()
        &&& self.num_completions + self.queue@.len() == self.num_arrivals
        &&& self.total_response == sum_responses(self.completions@)
        &&& forall|i: int|
            0 <= i < self.completions@.len() ==> (#[trigger] self.completions@[i]).0
                <= self.completions@[i].1 <= self.clock
    }

    /// Start a run: empty queue, clock at zero, first arrival after
    /// `first_gap` ticks. The two fatal pre-run validations of the
    /// configuration happen here, before any event processing: the size
    /// distribution must have mean one (within `epsilon`) at the given scale,
    /// and the server count must be two.
    pub fn new(
        policy: Policy,
        server_count: u64,
        epsilon: u64,
        dist: Dist,
        scale: u64,
        first_gap: u64,
    ) -> (r: Result<Sim, ConfigError>)
        requires
            scale <= MAX_SCALE,
        ensures
            !(dist.valid_params(scale) && dist.mean_near_one(scale, epsilon)) ==> r == Result::<
                Sim,
                ConfigError,
            >::Err(ConfigError::MeanNotOne),
            dist.valid_params(scale) && dist.mean_near_one(scale, epsilon) && server_count != 2
                ==> r == Result::<Sim, ConfigError>::Err(ConfigError::ServerCountNotTwo),
            dist.valid_params(scale) && dist.mean_near_one(scale, epsilon) && server_count == 2
                ==> r is Ok,
            r matches Result::Ok(s) ==> {
                &&& s.inv()
                &&& s.policy == policy
                &&& s.server_count == 2
                &&& s.epsilon == epsilon
                &&& s.clock == 0
                &&& s.next_arrival == first_gap
                &&& s.queue@.len() == 0
                &&& s.num_arrivals == 0
                &&& s.num_completions == 0
                &&& s.total_response == 0
                &&& s.completions@ == Seq::<(u64, u64)>::empty()
            },
    {
        if !dist.check_mean(scale, epsilon) {
            return Err(ConfigError::MeanNotOne);
        }
        if server_count != 2 {
            return Err(ConfigError::ServerCountNotTwo);
        }
        Ok(
            Sim {
                policy,
                server_count,
                epsilon,
                clock: 0,
                next_arrival: first_gap,
                queue: Vec::new(),
                num_arrivals: 0,
                num_completions: 0,
                total_response: 0,
                completions: Ghost(Seq::empty()),
            },
        )
    }

    /// Admit the job arriving now: enqueue it with both sizes set to the
    /// drawn `size`, and schedule the next arrival `gap` ticks from now. To
    /// be called exactly when `advance` reported that the epoch ended at the
    /// arrival time, with a freshly drawn size and inter-arrival gap.
    pub fn arrive(&mut self, size: u64, gap: u64)
        requires
            old(self).inv(),
            old(self).clock == old(self).next_arrival,
            size >= 1,
            old(self).clock + gap <= u64::MAX,
            old(self).num_arrivals < u64::MAX,
        ensures
            final(self).inv(),
            final(self).policy == old(self).policy,
            final(self).server_count == old(self).server_count,
            final(self).epsilon == old(self).epsilon,
            final(self).clock == old(self).clock,
            final(self).next_arrival == old(self).clock + gap,
            final(self).queue@ == old(self).queue@.push(
                Job { arrival_time: old(self).clock, original_size: size, rem_size: size },
            ),
            final(self).num_arrivals == old(self).num_arrivals + 1,
            final(self).num_completions == old(self).num_completions,
            final(self).total_response == old(self).total_response,
            final(self).completions@ == old(self).completions@,
    {
        let job = Job { arrival_time: self.clock, original_size: size, rem_size: size };
        self.queue.push(job);
        self.next_arrival = self.clock + gap;
        self.num_arrivals = self.num_arrivals + 1;
    }

    /// The reported statistic: accumulated response time divided by the
    /// completion count (rounded down to whole ticks), or `None` while
    /// nothing has completed.
    pub fn mean_response(&self) -> (r: Option<u128>)
        ensures
            self.num_completions == 0 ==> r is None,
            self.num_completions != 0 ==> r == Some(
                (self.total_response / self.num_completions as u128) as u128,
            ),
    {
        if self.num_completions == 0 {
            None
        } else {
            Some(self.total_response / (self.num_completions as u128))
        }
    }
}

/// `f` sends each position of `sorted` to the position, in `orig`, of the job
/// that landed there: a bijection under which the sort is stable — jobs of
/// equal priority keep their original relative order.
pub open spec fn stable_sort_map(f: Seq<int>, orig: Seq<Job>, sorted: Seq<Job>, p: Policy) -> bool {
    &&& f.len() == sorted.len()
    &&& sorted.len() == orig.len()
    &&& forall|t: int| 0 <= t < f.len() ==> 0 <= #[trigger] f[t] < orig.len()
    &&& forall|t: int| 0 <= t < f.len() ==> sorted[t] == orig[#[trigger] f[t]]
    &&& forall|a: int, b: int| 0 <= a < b < f.len() ==> f[a] != f[b]
    &&& forall|a: int, b: int|
        0 <= a < b < f.len() && p.priority_spec(sorted[a]) == p.priority_spec(sorted[b]) ==> f[a]
            < f[b]
}

/// Re-sort the queue ascending by the policy's priority index. Insertion
/// sort, shifting each job left only past strictly greater priorities, so
/// equal-priority jobs keep their relative order (the `stable_sort_map`
/// witness).
#[verifier::loop_isolation(false)]
#[verifier::rlimit(60)]
fn sort_queue(p: &Policy, q: &mut Vec<Job>)
    ensures
        final(q)@.len() == old(q)@.len(),
        final(q)@.to_multiset() == old(q)@.to_multiset(),
        sorted_by(*p, final(q)@),
        forall|i: int| 0 <= i < final(q)@.len() ==> old(q)@.contains(#[trigger] final(q)@[i]),
        exists|f: Seq<int>| stable_sort_map(f, old(q)@, final(q)@, *p),
{
    broadcast use vstd::seq_lib::group_to_multiset_ensures;

    let ghost q0 = q@;
    let ghost mut f = Seq::new(q0.len(), |t: int| t);
    let mut i: usize = 1;
    while i < q.len()
        invariant
            1 <= i,
            i <= q@.len() || q@.len() <= 1,
            q@.len() == q0.len(),
            q@.to_multiset() == q0.to_multiset(),
            forall|a: int, b: int|
                0 <= a < b < i && b < q@.len() ==> p.priority_spec(q@[a]) <= p.priority_spec(q@[b]),
            f.len() == q0.len(),
            forall|t: int| i <= t < f.len() ==> #[trigger] f[t] == t,
            forall|t: int|
                0 <= t < i && t < f.len() ==> 0 <= #[trigger] f[t] < i && f[t] < f.len(),
            forall|t: int| 0 <= t < f.len() ==> q@[t] == q0[#[trigger] f[t]],
            forall|a: int, b: int| 0 <= a < b < f.len() ==> f[a] != f[b],
            forall|a: int, b: int|
                0 <= a < b < i && b < f.len() && p.priority_spec(q@[a]) == p.priority_spec(q@[b])
                    ==> f[a] < f[b],
        decreases q@.len() - i,
    {
        let job = q[i];
        let key = p.priority(&job);
        let mut j: usize = i;
        while j > 0 && p.priority(&q[j - 1]) > key
            invariant
                j <= i,
                forall|t: int| j <= t < i ==> p.priority_spec(q@[t]) > key,
            decreases j,
        {
            j = j - 1;
        }
        let ghost q_before = q@;
        let ghost f_before = f;
        let moved = q.remove(i);
        q.insert(j, moved);
        proof {
            f = f.remove(i as int).insert(j as int, i as int);
            assert(q@.to_multiset() =~= q_before.to_multiset());
            assert forall|a: int, b: int|
                0 <= a < b < i + 1 && b < q@.len() implies p.priority_spec(q@[a])
                <= p.priority_spec(q@[b]) by {
                if j > 0 {
                    assert(p.priority_spec(q_before[j - 1]) <= key);
                }
                if a < j {
                    assert(q@[a] == q_before[a]);
                }
                if b < j {
                    assert(q@[b] == q_before[b]);
                }
                if a > j {
                    assert(q@[a] == q_before[a - 1]);
                }
                if b > j {
                    assert(q@[b] == q_before[b - 1]);
                }
                if a < j && j > 0 {
                    assert(p.priority_spec(q_before[a]) <= p.priority_spec(q_before[j - 1]));
                }
            }
            // How the new map reads off the old one around the moved entry.
            assert forall|t: int| 0 <= t < f.len() implies #[trigger] f[t] == (if t < j {
                f_before[t]
            } else if t == j {
                i as int
            } else if t <= i {
                f_before[t - 1]
            } else {
                f_before[t]
            }) by {
                let inner = f_before.remove(i as int);
                assert(f == inner.insert(j as int, i as int));
            }
            assert(f_before[i as int] == i as int);
            // Injectivity: the moved entry keeps its old origin, the rest
            // shift to distinct old origins.
            assert forall|a: int, b: int| 0 <= a < b < f.len() implies f[a] != f[b] by {
                if a != j && b != j {
                    let a0 = if j < a && a <= i {
                        a - 1
                    } else {
                        a
                    };
                    let b0 = if j < b && b <= i {
                        b - 1
                    } else {
                        b
                    };
                    assert(f[a] == f_before[a0] && f[b] == f_before[b0]);
                    assert(a0 != b0);
                } else if a == j {
                    let b0 = if b <= i {
                        b - 1
                    } else {
                        b
                    };
                    assert(f[b] == f_before[b0] && b0 != i);
                } else {
                    assert(f[a] == f_before[a] && a < i);
                }
            }
            // Stability: a job moves left only past strictly greater
            // priorities, so equal-priority pairs keep their old origin order.
            assert forall|a: int, b: int|
                0 <= a < b < i + 1 && b < f.len() && p.priority_spec(q@[a]) == p.priority_spec(
                    q@[b],
                ) implies f[a] < f[b] by {
                if b == j {
                    assert(f[a] == f_before[a] && f_before[a] < i);
                } else if a == j {
                    assert(q@[b] == q_before[b - 1]);
                    assert(p.priority_spec(q_before[b - 1]) > key);
                } else if b < j {
                    assert(f[a] == f_before[a] && f[b] == f_before[b]);
                } else if a < j {
                    assert(q@[a] == q_before[a] && q@[b] == q_before[b - 1]);
                    assert(f[a] == f_before[a] && f[b] == f_before[b - 1]);
                    assert(a < b - 1);
                } else {
                    assert(q@[a] == q_before[a - 1] && q@[b] == q_before[b - 1]);
                    assert(f[a] == f_before[a - 1] && f[b] == f_before[b - 1]);
                }
            }
        }
        i = i + 1;
    }
    proof {
        assert forall|i: int| 0 <= i < q@.len() implies q0.contains(#[trigger] q@[i]) by {
            assert(q@.contains(q@[i]));
            assert(q@.to_multiset().count(q@[i]) > 0);
        }
        if q0.len() <= 1 {
            assert(q@ =~= q0);
        }
        assert forall|t: int| 0 <= t < f.len() implies 0 <= #[trigger] f[t] < q0.len() by {
            if t < i {
                assert(0 <= f[t] < i);
            } else {
                assert(f[t] == t);
            }
        }
        assert(stable_sort_map(f, q0, q@, *p));
    }
}

/// In a strictly ascending sequence, positions grow at least as fast as
/// indices.
proof fn lemma_ascending_gap(s: Seq<usize>, a: int, b: int)
    requires
        forall|x: int, y: int| 0 <= x < y < s.len() ==> s[x] < s[y],
        0 <= a <= b < s.len(),
    ensures
        s[a] + (b - a) <= s[b],
    decreases b - a,
{
    if a < b {
        lemma_ascending_gap(s, a, b - 1);
    }
}

/// Position `i` occurs among the first `k` served positions.
spec fn hit(served: Seq<usize>, k: int, i: int) -> bool {
    exists|t: int| 0 <= t < k && (served[t] as int) == i
}

impl Sim {
    /// One decision epoch. Re-sort the queue by the policy's priority, ask
    /// the policy for the served positions and duration, advance the clock by
    /// the granted duration or to the next arrival, whichever comes first,
    /// decrement each served job's remaining size by the elapsed interval
    /// divided by the server count (clamping at zero), and retire — highest
    /// position first — every served job whose remaining size fell below
    /// `epsilon`, adding its response time to the accumulator. The exact step
    /// is `epoch_rel`, witnessed by the sorted queue.
    ///
    /// Returns true when the epoch ended at the next arrival time; the caller
    /// must then draw a size and an inter-arrival gap (in that order, from
    /// the run's one random stream) and hand them to `arrive`.
    #[verifier::rlimit(100)]
    pub fn advance(&mut self) -> (was_arrival: bool)
        requires
            old(self).inv(),
        ensures
            exists|q1: Seq<Job>| epoch_rel(*old(self), q1, *final(self), was_arrival),
            final(self).inv(),
            final(self).policy == old(self).policy,
            final(self).server_count == old(self).server_count,
            final(self).epsilon == old(self).epsilon,
            final(self).num_arrivals == old(self).num_arrivals,
            final(self).next_arrival == old(self).next_arrival,
            old(self).clock <= final(self).clock <= old(self).next_arrival,
            was_arrival ==> final(self).clock == old(self).next_arrival,
            old(self).completions@.is_prefix_of(final(self).completions@),
            final(self).completions@.len() - old(self).completions@.len() == old(self).queue@.len()
                - final(self).queue@.len(),
            forall|t: int|
                old(self).completions@.len() <= t < final(self).completions@.len() ==> (
                #[trigger] final(self).completions@[t]).1 == final(self).clock,
            old(self).queue@.len() == 0 ==> was_arrival && final(self).queue@.len() == 0
                && final(self).completions@ == old(self).completions@,
    {
        let p = self.policy;
        let eps = self.epsilon;
        sort_queue(&p, &mut self.queue);
        proof {
            assert forall|i: int|
                0 <= i < self.queue@.len() implies (#[trigger] self.queue@[i]).wf()
                && self.queue@[i].arrival_time <= self.clock by {
                let jb = self.queue@[i];
                assert(old(self).queue@.contains(jb));
            }
        }
        let (served, duration) = p.decide(&self.queue, self.server_count, eps);
        let ghost q1 = self.queue@;
        let gap = self.next_arrival - self.clock;
        let mut interval: u64 = gap;
        let mut was_arrival: bool = true;
        match duration {
            None => {},
            Some(d) => {
                if (gap as u128) <= d {
                    interval = gap;
                    was_arrival = (gap as u128) < d;
                } else {
                    interval = d as u64;
                    was_arrival = false;
                }
            },
        }
        self.clock = self.clock + interval;
        let dec = interval / self.server_count;
        let ghost decs = dec as int;
        let ghost ieps = eps as int;
        let ghost s_mid = *self;

        let mut removals: Vec<usize> = Vec::new();
        let mut k: usize = 0;
        while k < served.len()
            invariant
                k <= served@.len(),
                ieps == eps as int,
                decs == dec as int,
                served@ == served_spec(p, q1, ieps),
                forall|a: int, b: int| 0 <= a < b < served@.len() ==> served@[a] < served@[b],
                forall|a: int| 0 <= a < served@.len() ==> (#[trigger] served@[a] as int) < q1.len(),
                self.policy == s_mid.policy,
                self.server_count == s_mid.server_count,
                self.epsilon == s_mid.epsilon,
                self.clock == s_mid.clock,
                self.next_arrival == s_mid.next_arrival,
                self.num_arrivals == s_mid.num_arrivals,
                self.num_completions == s_mid.num_completions,
                self.total_response == s_mid.total_response,
                self.completions == s_mid.completions,
                self.queue@.len() == q1.len(),
                forall|i: int|
                    0 <= i < self.queue@.len() ==> #[trigger] self.queue@[i] == (if hit(
                        served@,
                        k as int,
                        i,
                    ) {
                        serve_job(q1[i], decs)
                    } else {
                        q1[i]
                    }),
                forall|i: int|
                    0 <= i < self.queue@.len() ==> (#[trigger] self.queue@[i]).wf()
                        && self.queue@[i].arrival_time <= self.clock,
                removals@ == completed_positions(p, q1, ieps, decs, k as int),
            decreases served@.len() - k,
        {
            let idx = served[k];
            proof {
                assert forall|t: int| 0 <= t < k implies (served@[t] as int) != idx as int by {
                    assert(served@[t] < served@[k as int]);
                }
                assert(!hit(served@, k as int, idx as int));
                assert(self.queue@[idx as int] == q1[idx as int]);
            }
            let mut job = self.queue[idx];
            let new_rem = if job.rem_size >= dec {
                job.rem_size - dec
            } else {
                0
            };
            job.rem_size = new_rem;
            self.queue[idx] = job;
            proof {
                assert(job == serve_job(q1[idx as int], decs));
                assert forall|i: int|
                    0 <= i < self.queue@.len() && i != idx as int implies hit(served@, k + 1, i)
                    == hit(served@, k as int, i) by {
                    if hit(served@, k + 1, i) {
                        let t = choose|t: int| 0 <= t < k + 1 && (served@[t] as int) == i;
                        assert(t < k);
                        assert(hit(served@, k as int, i));
                    }
                    if hit(served@, k as int, i) {
                        let t = choose|t: int| 0 <= t < k && (served@[t] as int) == i;
                        assert(0 <= t < k + 1 && (served@[t] as int) == i);
                    }
                }
                assert(hit(served@, k + 1, idx as int));
            }
            if new_rem < eps {
                removals.push(idx);
            }
            k = k + 1;
        }
        proof {
            vstd::std_specs::vec::axiom_spec_len(&self.queue);
            assert(self.queue@.len() == q1.len());
            assert forall|i: int|
                0 <= i < q1.len() implies self.queue@[i] == served_queue(p, q1, ieps, decs)[i] by {
                if served_spec(p, q1, ieps).contains(i as usize) {
                    let t = choose|t: int|
                        0 <= t < served_spec(p, q1, ieps).len() && served_spec(p, q1, ieps)[t]
                            == i as usize;
                    assert(served@[t] == i as usize);
                    assert(0 <= t < k && (served@[t] as int) == i);
                    assert(hit(served@, k as int, i));
                } else {
                    if hit(served@, k as int, i) {
                        let t = choose|t: int| 0 <= t < k && (served@[t] as int) == i;
                        assert(served_spec(p, q1, ieps).contains(i as usize));
                    }
                }
            }
            assert(self.queue@ =~= served_queue(p, q1, ieps, decs));
            lemma_completed_positions_props(p, q1, ieps, decs, served@.len() as int);
        }

        let ghost comp0 = self.completions@;
        let ghost q2 = self.queue@;
        let mut m: usize = removals.len();
        while m > 0
            invariant
                m <= removals@.len(),
                q2.len() == q1.len(),
                forall|a: int, b: int| 0 <= a < b < removals@.len() ==> removals@[a] < removals@[b],
                forall|a: int|
                    0 <= a < removals@.len() ==> (#[trigger] removals@[a] as int) < q2.len(),
                self.policy == s_mid.policy,
                self.server_count == s_mid.server_count,
                self.epsilon == s_mid.epsilon,
                self.clock == s_mid.clock,
                self.next_arrival == s_mid.next_arrival,
                self.num_arrivals == s_mid.num_arrivals,
                self.queue@.len() + (removals@.len() - m) == q1.len(),
                self.queue@ == remove_positions(
                    q2,
                    removals@.subrange(m as int, removals@.len() as int),
                ),
                self.completions@ == comp0 + completion_pairs(
                    q2,
                    removals@.subrange(m as int, removals@.len() as int),
                    self.clock,
                ),
                forall|i: int|
                    0 <= i < self.queue@.len() ==> (#[trigger] self.queue@[i]).wf()
                        && self.queue@[i].arrival_time <= self.clock,
                self.num_completions == self.completions@.len(),
                self.num_completions + self.queue@.len() == self.num_arrivals,
                self.total_response == sum_responses(self.completions@),
                self.completions@.len() == comp0.len() + (removals@.len() - m),
                comp0.is_prefix_of(self.completions@),
                forall|t: int|
                    0 <= t < self.completions@.len() ==> (#[trigger] self.completions@[t]).0
                        <= self.completions@[t].1 <= self.clock,
                forall|t: int|
                    comp0.len() <= t < self.completions@.len() ==> (
                    #[trigger] self.completions@[t]).1 == self.clock,
            decreases m,
        {
            m = m - 1;
            let idx = removals[m];
            let ghost rtail = removals@.subrange(m + 1, removals@.len() as int);
            proof {
                lemma_ascending_gap(removals@, m as int, removals@.len() - 1);
                assert forall|a: int| 0 <= a < rtail.len() implies (idx as int) < rtail[a] by {
                    assert(removals@[m as int] < removals@[m + 1 + a]);
                }
                lemma_remove_positions_prefix(q2, rtail, idx as int);
            }
            let job = self.queue.remove(idx);
            let resp = self.clock - job.arrival_time;
            proof {
                assert(job == q2[idx as int]);
                lemma_sum_responses_bound(self.completions@);
            }
            self.total_response = self.total_response + (resp as u128);
            self.num_completions = self.num_completions + 1;
            proof {
                let ghost c_old = self.completions@;
                lemma_sum_responses_push(c_old, (job.arrival_time, self.clock));
                self.completions@ = c_old.push((job.arrival_time, self.clock));
                assert(comp0.is_prefix_of(self.completions@));
                let ghost rcur = removals@.subrange(m as int, removals@.len() as int);
                assert(rcur.drop_first() =~= rtail);
                assert(rcur.first() == removals@[m as int]);
                assert(self.queue@ == remove_positions(q2, rcur));
                assert(self.completions@ =~= comp0 + completion_pairs(q2, rcur, self.clock));
            }
        }
        proof {
            assert(removals@.subrange(0, removals@.len() as int) =~= removals@);
            assert(epoch_rel(*old(self), q1, *self, was_arrival));
        }
        was_arrival
    }
}

/// Law: in any epoch the engine takes, each served job's decrement — the
/// elapsed interval split between the two servers — exceeds the job's
/// remaining size by at most the tolerance, so the true (un-clamped)
/// remainder never falls below `-epsilon`. For `SrptExcept` this asks the
/// threshold to be at least the tolerance (see
/// `crate::policy::lemma_decrement_bounded`).
pub proof fn lemma_epoch_decrement_bounded(
    pre: Sim,
    q1: Seq<Job>,
    post: Sim,
    was_arrival: bool,
    k: int,
)
    requires
        epoch_rel(pre, q1, post, was_arrival),
        pre.clock <= pre.next_arrival,
        pre.policy matches Policy::SrptExcept(cut) ==> cut >= pre.epsilon,
        0 <= k < served_spec(pre.policy, q1, pre.epsilon as int).len(),
    ensures
        (post.clock - pre.clock) / 2 <= q1[served_spec(pre.policy, q1, pre.epsilon as int)[k] as int].rem_size
            + pre.epsilon,
{
    let p = pre.policy;
    let eps = pre.epsilon as int;
    if duration_spec(p, q1, eps) is Some {
        let d = duration_spec(p, q1, eps)->Some_0;
        crate::policy::lemma_decrement_bounded(p, q1, eps, d, k);
    }
}

/// Law (conservation): in every reachable engine state the response-time
/// accumulator equals the sum of completion minus arrival time over the jobs
/// completed so far, the completion counter equals their number, and every
/// job that ever arrived is either still queued or accounted among them.
pub proof fn lemma_response_conservation(s: Sim)
    requires
        s.inv(),
    ensures
        s.total_response == sum_responses(s.completions@),
        s.num_completions == s.completions@.len(),
        s.num_arrivals == s.num_completions + s.queue@.len(),
{
}

} // verus!

