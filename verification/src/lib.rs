//! A human-in-the-loop ranking engine.
//!
//! Named entries live in named categories and are ordered through pairwise
//! judgments supplied by a single external decision-maker.  The engine offers
//! two strategies: a continuous Elo-style rating update and a discrete
//! order-statistic protocol (binary insertion plus an adjacent-swap repair
//! pass), both driven through a resumable match-scheduling state machine.

pub mod codec;
pub mod elo;
pub mod errors;
pub mod image_search;
pub mod model;
pub mod order_stat;
pub mod scheduler;
pub mod sort;
pub mod store;
