use srpt_sim::dist::Dist;
use srpt_sim::engine::{ConfigError, Sim};
use srpt_sim::policy::Policy;

const SCALE: u64 = 1_000_000_000;
const EPS: u64 = 10;

#[test]
fn hyperexp_mean_is_one() {
    // Hyperexp(1.9, 0.1, 0.95): 0.95 / 1.9 + 0.05 / 0.1 = 0.5 + 0.5 = 1.0.
    let d = Dist::Hyperexp(1_900_000_000, 100_000_000, 950_000_000);
    assert_eq!(d.mean(SCALE), SCALE as u128);
    assert!(d.check_mean(SCALE, EPS));
}

#[test]
fn uniform_mean_is_the_midpoint() {
    let d = Dist::Uniform(0, 2_000_000_000);
    assert_eq!(d.mean(SCALE), SCALE as u128);
    assert!(d.check_mean(SCALE, EPS));
    let half = Dist::Uniform(0, 1_000_000_000);
    assert_eq!(half.mean(SCALE), 500_000_000);
    assert!(!half.check_mean(SCALE, EPS));
}

#[test]
fn non_unit_mean_fails_before_any_event() {
    // 0.5 / 1.9 + 0.5 / 0.1 is far above one.
    let bad = Dist::Hyperexp(1_900_000_000, 100_000_000, 500_000_000);
    assert!(!bad.check_mean(SCALE, EPS));
    let r = Sim::new(Policy::Srpt, 2, EPS, bad, SCALE, 0);
    assert!(matches!(r, Err(ConfigError::MeanNotOne)));
}

#[test]
fn malformed_parameters_fail_validation() {
    // A zero rate cannot stand for an exponential branch.
    let bad = Dist::Hyperexp(0, 100_000_000, 950_000_000);
    assert!(!bad.check_mean(SCALE, EPS));
    let r = Sim::new(Policy::Srpt, 2, EPS, bad, SCALE, 0);
    assert!(matches!(r, Err(ConfigError::MeanNotOne)));
}

#[test]
fn server_count_other_than_two_is_rejected() {
    let d = Dist::Uniform(0, 2_000_000_000);
    for n in [0, 1, 3, 16] {
        let r = Sim::new(Policy::Srpt, n, EPS, d, SCALE, 0);
        assert!(matches!(r, Err(ConfigError::ServerCountNotTwo)));
    }
    assert!(Sim::new(Policy::Srpt, 2, EPS, d, SCALE, 0).is_ok());
}
