//! Observations, hyperparameters and the fitted model.
//!
//! All quantities are fixed-point values in millionths (see
//! [`crate::fixed::SCALE`]).

use vstd::prelude::*;
use crate::fixed::{s_add, s_abs, s_mul, s_sub, fx_add, fx_abs, fx_mul, fx_sub};

verus! {

/// One (mileage, price) data point, in fixed-point units.
#[derive(Debug, Clone, Copy, PartialEq, Eq, Structural)]
pub struct Entry {
    pub km: i64,
    pub price: i64,
}

/// A fitted model: intercept and slope in original units.
#[derive(Debug, Clone, Copy, PartialEq, Eq, Structural)]
pub struct TrainedPredictor {
    pub theta_0: i64,
    pub theta_1: i64,
}

/// The error a training run reports when a feature has zero variance, so
/// that standardization would divide by zero.
#[derive(Debug, Clone, Copy, PartialEq, Eq, Structural)]
pub enum TrainError {
    ZeroVariance,
}

/// The prediction `theta_0 + theta_1 * km` in fixed-point arithmetic.
pub open spec fn s_predict(t0: int, t1: int, km: int) -> int {
    s_add(t0, s_mul(t1, km))
}

/// The convergence metric between predictor states `a` and `b`:
/// `|a0 - b0| + (a1 - b1)^2`. Deliberately asymmetric between the two
/// coefficients; it is the early-stop criterion, not a distance.
pub open spec fn s_delta(a0: int, a1: int, b0: int, b1: int) -> int {
    s_add(s_abs(s_sub(a0, b0)), s_mul(s_sub(a1, b1), s_sub(a1, b1)))
}

/// A predictor compared with itself has delta zero.
pub proof fn lemma_delta_self(t0: int, t1: int)
    requires
        i64::MIN <= t0 <= i64::MAX,
        i64::MIN <= t1 <= i64::MAX,
    ensures
        s_delta(t0, t1, t0, t1) == 0,
{
    assert(s_sub(t0, t0) == 0);
    assert(s_sub(t1, t1) == 0);
    assert(s_abs(0) == 0);
    assert(s_mul(0, 0) == 0);
    assert(s_add(0, 0) == 0);
}

impl TrainedPredictor {
    /// Predicts a price for the given mileage: `theta_0 + theta_1 * km`.
    pub fn predict(&self, millage: i64) -> (r: i64)
        ensures
            r as int == s_predict(self.theta_0 as int, self.theta_1 as int, millage as int),
    {
        fx_add(self.theta_0, fx_mul(self.theta_1, millage))
    }

    /// The convergence metric between this predictor and `other`.
    pub fn delta(&self, other: &Self) -> (r: i64)
        ensures
            r as int == s_delta(
                self.theta_0 as int,
                self.theta_1 as int,
                other.theta_0 as int,
                other.theta_1 as int,
            ),
    {
        let d1 = fx_sub(self.theta_1, other.theta_1);
        fx_add(fx_abs(fx_sub(self.theta_0, other.theta_0)), fx_mul(d1, d1))
    }
}

impl Default for TrainedPredictor {
    /// The zero model.
    fn default() -> (r: Self)
        ensures
            r.theta_0 == 0 && r.theta_1 == 0,
    {
        TrainedPredictor { theta_0: 0, theta_1: 0 }
    }
}

/// The observation set together with the training hyperparameters.
#[derive(Debug)]
pub struct LinearRegresser {
    pub data: Vec<Entry>,
    /// Gradient-descent step size, in millionths.
    pub learning_rate: i64,
    /// Upper bound on descent iterations.
    pub iterations: usize,
    /// Early-stop threshold on the convergence metric, in millionths;
    /// a value of zero disables the early stop.
    pub delta_threshold: i64,
}

impl Default for LinearRegresser {
    /// No data, a step size of one tenth, a thousand iterations, and an
    /// early-stop threshold of one ten-thousandth.
    fn default() -> (r: Self)
        ensures
            r.data@.len() == 0,
            r.learning_rate == 100_000,
            r.iterations == 1000,
            r.delta_threshold == 100,
    {
        LinearRegresser {
            data: Vec::new(),
            learning_rate: 100_000,
            iterations: 1000,
            delta_threshold: 100,
        }
    }
}

} // verus!
