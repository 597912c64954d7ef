use rand::rngs::StdRng;
use rand::{Rng, SeedableRng};
use rand_distr::{Distribution, Exp};
use srpt_sim::dist::Dist;
use srpt_sim::engine::Sim;
use srpt_sim::policy::Policy;

const SCALE: u64 = 1_000_000_000;
const EPS: u64 = 10;

fn to_ticks(x: f64) -> u64 {
    (x * SCALE as f64).round() as u64
}

#[derive(Copy, Clone)]
enum SizeDist {
    Hyperexp(f64, f64, f64),
    Uniform(f64, f64),
}

impl SizeDist {
    fn sample<R: Rng>(&self, rng: &mut R) -> f64 {
        match self {
            SizeDist::Hyperexp(low_rate, high_rate, prob_low) => {
                let rate = if rng.random::<f64>() < *prob_low {
                    *low_rate
                } else {
                    *high_rate
                };
                Exp::new(rate).unwrap().sample(rng)
            }
            SizeDist::Uniform(low, high) => rng.random_range(*low..*high),
        }
    }

    fn fixed(&self) -> Dist {
        match self {
            SizeDist::Hyperexp(l, h, p) => {
                Dist::Hyperexp(to_ticks(*l), to_ticks(*h), to_ticks(*p))
            }
            SizeDist::Uniform(l, h) => Dist::Uniform(to_ticks(*l), to_ticks(*h)),
        }
    }
}

/// One full run: returns the raw accumulator and completion count, so that
/// determinism can be checked bit for bit.
fn simulate(
    policy: Policy,
    num_servers: u64,
    num_jobs: u64,
    dist: SizeDist,
    rho: f64,
    seed: u64,
) -> (u128, u64) {
    assert!(0.0 < rho && rho < 1.0);
    let mut rng = StdRng::seed_from_u64(seed);
    let arrival_dist = Exp::new(rho).unwrap();
    let first_gap = to_ticks(arrival_dist.sample(&mut rng));
    let mut sim = Sim::new(policy, num_servers, EPS, dist.fixed(), SCALE, first_gap).unwrap();
    while sim.num_completions < num_jobs {
        if sim.advance() {
            // Size first, inter-arrival gap second, both from the one run
            // stream: the arrival trace does not depend on the policy.
            let size = to_ticks(dist.sample(&mut rng)).max(1);
            let gap = to_ticks(arrival_dist.sample(&mut rng));
            assert_eq!(sim.clock, sim.next_arrival);
            assert!(sim.clock.checked_add(gap).is_some());
            sim.arrive(size, gap);
        }
    }
    (sim.total_response, sim.num_completions)
}

fn mean_seconds(run: (u128, u64)) -> f64 {
    run.0 as f64 / run.1 as f64 / SCALE as f64
}

#[test]
fn same_seed_reproduces_the_run_bit_for_bit() {
    let dist = SizeDist::Hyperexp(1.9, 0.1, 0.95);
    let a = simulate(Policy::Srpt, 2, 500, dist, 0.7, 42);
    let b = simulate(Policy::Srpt, 2, 500, dist, 0.7, 42);
    assert_eq!(a, b);
}

#[test]
fn uniform_load_run_terminates_and_higher_load_waits_longer() {
    let dist = SizeDist::Uniform(0.0, 2.0);
    let low = simulate(Policy::Srpt, 2, 1000, dist, 0.5, 0);
    assert_eq!(low.1, 1000);
    let low_mean = mean_seconds(low);
    assert!(low_mean.is_finite());
    assert!(low_mean > 0.0);
    let high = simulate(Policy::Srpt, 2, 1000, dist, 0.9, 0);
    let high_mean = mean_seconds(high);
    assert!(high_mean.is_finite());
    assert!(high_mean > low_mean);
}

#[test]
fn srpt_mean_response_no_worse_than_rs_or_psjf() {
    // Paired comparison on an identical arrival trace (same seed).
    let dist = SizeDist::Hyperexp(1.9, 0.1, 0.95);
    let srpt = mean_seconds(simulate(Policy::Srpt, 2, 10_000, dist, 0.7, 0));
    let rs = mean_seconds(simulate(Policy::Rs, 2, 10_000, dist, 0.7, 0));
    let psjf = mean_seconds(simulate(Policy::Psjf, 2, 10_000, dist, 0.7, 0));
    assert!(srpt <= rs);
    assert!(srpt <= psjf);
}

#[test]
fn srpt_except_runs_close_to_srpt() {
    // The perturbed policy is still a working discipline: it drains the same
    // trace and reports a finite positive mean.
    let dist = SizeDist::Uniform(0.0, 2.0);
    let run = simulate(Policy::SrptExcept(to_ticks(0.5)), 2, 1000, dist, 0.7, 7);
    assert_eq!(run.1, 1000);
    assert!(mean_seconds(run) > 0.0);
}
