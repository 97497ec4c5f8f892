//! Reconciliation of a package registry snapshot against a report of squatted
//! packages: indices over the snapshot, re-validation of the prior report, a
//! placeholder-vocabulary heuristic, owner attribution and a leaderboard.

pub mod classify;
pub mod flagged;
pub mod index;
pub mod leaderboard;
pub mod name;
pub mod report;
pub mod sorted;
