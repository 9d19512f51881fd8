//! An evolutionary game on a fixed network: agents cooperate, defect or
//! fight, accumulate wealth through pairwise interactions, and imitate
//! their neighbours' strategies under a Fermi rule.
//!
//! All wealth, payoffs and probabilities are held as fixed-point integers
//! in millionths of a unit, so that the whole engine can be reasoned about
//! exactly.

pub mod fixed;
pub mod rng;
pub mod agent;
pub mod engine;
pub mod utils;
