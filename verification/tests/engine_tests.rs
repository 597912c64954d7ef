use srpt_sim::dist::Dist;
use srpt_sim::engine::Sim;
use srpt_sim::policy::Policy;

const SCALE: u64 = 1_000_000_000;
const EPS: u64 = 10;

fn unit_dist() -> Dist {
    Dist::Uniform(0, 2_000_000_000)
}

#[test]
fn single_job_runs_at_half_rate_and_completes() {
    let mut sim = Sim::new(Policy::Srpt, 2, EPS, unit_dist(), SCALE, 100).unwrap();
    // Empty queue: jump straight to the first arrival.
    assert!(sim.advance());
    assert_eq!(sim.clock, 100);
    sim.arrive(1000, 10_000);
    assert_eq!(sim.next_arrival, 10_100);
    // One job of size 1000 served alone still decays at rate 1/2: it takes
    // 2000 ticks of wall clock, ending before the next arrival.
    let was_arrival = sim.advance();
    assert!(!was_arrival);
    assert_eq!(sim.clock, 2100);
    assert_eq!(sim.num_completions, 1);
    assert_eq!(sim.total_response, 2000);
    assert_eq!(sim.mean_response(), Some(2000));
    assert!(sim.queue.is_empty());
}

#[test]
fn response_accumulator_equals_sum_of_sojourn_times() {
    let mut sim = Sim::new(Policy::Srpt, 2, EPS, unit_dist(), SCALE, 0).unwrap();
    assert!(sim.advance());
    sim.arrive(1000, 0);
    // The second arrival is due immediately: a zero-length epoch.
    assert!(sim.advance());
    assert_eq!(sim.clock, 0);
    sim.arrive(500, 1_000_000);
    // Both jobs arrived at time 0. SRPT serves both; the shorter one
    // completes at 1000, the longer at 2000 (each decays at rate 1/2).
    assert!(!sim.advance());
    assert_eq!(sim.clock, 1000);
    assert_eq!(sim.num_completions, 1);
    assert_eq!(sim.total_response, 1000);
    assert!(!sim.advance());
    assert_eq!(sim.clock, 2000);
    assert_eq!(sim.num_completions, 2);
    // Conservation: (1000 - 0) + (2000 - 0).
    assert_eq!(sim.total_response, 3000);
    assert_eq!(sim.mean_response(), Some(1500));
    assert_eq!(sim.num_arrivals, 2);
    assert!(sim.queue.is_empty());
}

#[test]
fn overshoot_clamp_stays_within_epsilon() {
    // SrptExcept(50) with eps = 4 on remaining sizes 20, 55, 69: the
    // overshoot case serves {0, 1} for 2 * (max(5, 19) + 4) = 46 ticks, so
    // each served job loses 23. The shortest job held only 20: its true
    // remainder, -3, stays above -eps and the stored value clamps to zero.
    let mut sim = Sim::new(Policy::SrptExcept(50), 2, 4, unit_dist(), SCALE, 0).unwrap();
    assert!(sim.advance());
    sim.arrive(20, 0);
    assert!(sim.advance());
    sim.arrive(55, 0);
    assert!(sim.advance());
    sim.arrive(69, 1_000_000);
    assert!(!sim.advance());
    assert_eq!(sim.clock, 46);
    assert_eq!(sim.num_completions, 1);
    assert_eq!(sim.total_response, 46);
    let rems: Vec<u64> = sim.queue.iter().map(|j| j.rem_size).collect();
    assert_eq!(rems, vec![32, 69]);
}

#[test]
fn arrivals_are_conserved_across_a_long_run() {
    // Drive the engine with a small deterministic generator and drain 200
    // completions; every arrival must be queued or completed, and sojourn
    // times are positive.
    let mut state: u64 = 12345;
    let mut next = || {
        state = state
            .wrapping_mul(6364136223846793005)
            .wrapping_add(1442695040888963407);
        state >> 33
    };
    let mut sim = Sim::new(Policy::SrptExcept(500_000_000), 2, EPS, unit_dist(), SCALE, 0).unwrap();
    while sim.num_completions < 200 {
        if sim.advance() {
            let size = (next() % 2_000_000_000).max(1);
            let gap = next() % 2_000_000_000;
            assert!(sim.clock.checked_add(gap).is_some());
            sim.arrive(size, gap);
        }
    }
    assert_eq!(
        sim.num_arrivals,
        sim.num_completions + sim.queue.len() as u64
    );
    assert_eq!(sim.num_completions, 200);
    let mean = sim.mean_response().unwrap();
    assert!(mean > 0);
}

#[test]
fn equal_sizes_complete_in_arrival_order() {
    // Three jobs of equal size arrive together: the sort is stable, so the
    // first two arrivals are served first and finish together, the third
    // waits a full service interval.
    let mut sim = Sim::new(Policy::Srpt, 2, EPS, unit_dist(), SCALE, 0).unwrap();
    assert!(sim.advance());
    sim.arrive(100, 0);
    assert!(sim.advance());
    sim.arrive(100, 0);
    assert!(sim.advance());
    sim.arrive(100, 10_000_000);
    assert!(!sim.advance());
    assert_eq!(sim.clock, 200);
    assert_eq!(sim.num_completions, 2);
    assert_eq!(sim.total_response, 400);
    assert!(!sim.advance());
    assert_eq!(sim.clock, 400);
    assert_eq!(sim.num_completions, 3);
    // (200 - 0) + (200 - 0) + (400 - 0).
    assert_eq!(sim.total_response, 800);
}

#[test]
fn largest_size_does_not_overflow() {
    let mut sim = Sim::new(Policy::Srpt, 2, EPS, unit_dist(), SCALE, 10).unwrap();
    assert!(sim.advance());
    sim.arrive(u64::MAX, 1000);
    // The pending arrival bounds the epoch; the huge job sheds half the
    // elapsed interval.
    assert!(sim.advance());
    assert_eq!(sim.clock, 1010);
    assert_eq!(sim.queue[0].rem_size, u64::MAX - 500);
    assert_eq!(sim.num_completions, 0);
}
