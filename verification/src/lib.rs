//! A univariate linear model fitted by batch gradient descent.
//!
//! Quantities are saturating fixed-point values: `i64` counts of
//! millionths (see [`fixed::SCALE`]). The trainer standardizes its
//! observations, iterates the descent update with an early-stop rule,
//! maps the coefficients back to original units, and reports the
//! root-mean-square residual over the original data.

use vstd::prelude::*;

pub mod codec;
pub mod fixed;
pub mod model;
pub mod trainer;

pub use codec::{encode_model, format_value, parse_model, parse_observations, parse_value};
pub use model::{Entry, LinearRegresser, TrainError, TrainedPredictor};
pub use trainer::{mean_std, rmse};

verus! {

/// Returns the first command-line argument after the program name, or
/// `err` when none was given.
pub fn get_first_arg_or<T>(args: &Vec<String>, err: T) -> (r: Result<String, T>)
    ensures
        args@.len() >= 2 ==> (r matches Ok(s) && s@ == args@[1]@),
        args@.len() < 2 ==> (r matches Err(e) && e == err),
{
    if args.len() >= 2 {
        Ok(args[1].clone())
    } else {
        Err(err)
    }
}

} // verus!
