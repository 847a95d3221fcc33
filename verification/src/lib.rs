//! Array-based binary decision trees for Bayesian Additive Regression Trees,
//! their compact binary forest format, and the bookkeeping of posterior draws.
pub mod codec;
pub mod tree;
pub mod forest;
pub mod posterior;
pub mod rules;
