//! A task orchestrator: directed acyclic graphs of tasks, their dependency
//! counters, concurrency and capacity slots, and an at-least-once webhook queue.
//!
//! The library works on plain rows ([`store::Store`]): a caller loads the rows
//! of one transaction, calls an operation, and writes the rows back.

pub mod action;
pub mod action_laws;
pub mod auth;
pub mod config;
pub mod db;
pub mod dtos;
pub mod error;
pub mod handlers;
pub mod metric_ids;
pub mod metric_laws;
pub mod metrics;
pub mod models;
pub mod order;
pub mod rule;
pub mod store;
pub mod tally;
pub mod text;
pub mod text_laws;
pub mod validation;
pub mod workers;

use vstd::prelude::*;

verus! {

} // verus!
