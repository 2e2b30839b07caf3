//! Password generation under per-category composition rules, and a strength estimate for
//! arbitrary passwords.
use vstd::prelude::*;

pub mod charset;
pub mod common;
pub mod entropy;
pub mod generator;
pub mod pattern;
mod random;
pub mod strength;

verus! {

} // verus!
