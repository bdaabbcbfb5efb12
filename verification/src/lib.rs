//! Search-and-evaluation core of a hyperparameter tuner for
//! implicit-feedback factorization recommenders: user-based train/test
//! partitioning, reproducible hyperparameter sampling, Mean Reciprocal
//! Rank scoring, and a durable, resumable leaderboard of trial outcomes.
//!
//! Scores are carried as exact fixed-point millionths so that every rule
//! about them (sorting, filtering of not-a-number trials, best-so-far)
//! is stated and proved over plain integers.

pub mod fraction;
pub mod score;
pub mod interaction;
pub mod rng;
pub mod split;
pub mod mrr;
pub mod hyper;
pub mod leaderboard;
pub mod search;
