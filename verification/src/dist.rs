use vstd::prelude::*;

verus! {

/// Largest fixed-point scale `Dist::mean` accepts; keeps its intermediate
/// products within `u128`.
pub const MAX_SCALE: u64 = 0x1_0000_0000;

/// A job-size distribution, described by its fixed-point parameters relative
/// to a scale chosen by the caller (the tick count that stands for 1.0).
/// The engine reads only the mean; drawing samples needs a random-number
/// stream and stays with the caller, who feeds each drawn size to the engine
/// as a plain tick count.
#[derive(Clone, Copy, PartialEq, Eq, Structural, Debug)]
pub enum Dist {
    /// `(low_rate, high_rate, prob_low)`: with probability `prob_low / scale`
    /// the size is exponential with rate `low_rate / scale`, otherwise
    /// exponential with rate `high_rate / scale`.
    Hyperexp(u64, u64, u64),
    /// Uniform over `[low, high]` ticks.
    Uniform(u64, u64),
}

impl Dist {
    /// The parameters make sense at the given scale: rates are nonzero and
    /// the mixing probability is at most one.
    pub open spec fn valid_params(self, scale: u64) -> bool {
        match self {
            Dist::Hyperexp(low_rate, high_rate, prob_low) => low_rate >= 1 && high_rate >= 1
                && prob_low <= scale,
            Dist::Uniform(low, high) => low <= high,
        }
    }

    /// The distribution's mean in ticks, with each division rounded down.
    pub open spec fn mean_spec(self, scale: u64) -> int {
        match self {
            Dist::Hyperexp(low_rate, high_rate, prob_low) => (prob_low * scale) / (
            low_rate as int) + ((scale - prob_low) * scale) / (high_rate as int),
            Dist::Uniform(low, high) => (low + high) / 2,
        }
    }

    /// The mean falls within `epsilon` ticks of one (that is, of `scale`).
    pub open spec fn mean_near_one(self, scale: u64, epsilon: u64) -> bool {
        -(epsilon as int) < self.mean_spec(scale) - scale < epsilon as int
    }

    /// Mean of the distribution in ticks, where `scale` is the fixed-point
    /// representation of 1.0.
    pub fn mean(&self, scale: u64) -> (r: u128)
        requires
            self.valid_params(scale),
            scale <= MAX_SCALE,
        ensures
            r == self.mean_spec(scale),
    {
        match self {
            Dist::Hyperexp(low_rate, high_rate, prob_low) => {
                let p = *prob_low as u128;
                let s = scale as u128;
                proof {
                    assert(p * s <= 0x1_0000_0000 * 0x1_0000_0000 && (s - p) * s <= 0x1_0000_0000
                        * 0x1_0000_0000) by (nonlinear_arith)
                        requires
                            p <= s <= 0x1_0000_0000,
                    ;
                }
                p * s / (*low_rate as u128) + (s - p) * s / (*high_rate as u128)
            },
            Dist::Uniform(low, high) => (*low as u128 + *high as u128) / 2,
        }
    }

    /// Pre-run validation: the parameters are well formed and the mean equals
    /// one within `epsilon`. A simulation whose load factor is to mean
    /// anything must use a unit-mean size distribution.
    pub fn check_mean(&self, scale: u64, epsilon: u64) -> (r: bool)
        requires
            scale <= MAX_SCALE,
        ensures
            r == (self.valid_params(scale) && self.mean_near_one(scale, epsilon)),
    {
        let ok = match self {
            Dist::Hyperexp(low_rate, high_rate, prob_low) => *low_rate >= 1 && *high_rate >= 1
                && *prob_low <= scale,
            Dist::Uniform(low, high) => *low <= *high,
        };
        if !ok {
            return false;
        }
        let m = self.mean(scale);
        let s = scale as u128;
        let diff = if m >= s {
            m - s
        } else {
            s - m
        };
        diff < epsilon as u128
    }
}

} // verus!
