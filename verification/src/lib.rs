//! Exact allocation of amounts from sources to sinks over routing
//! expressions with capacities.
//!
//! `value` holds the graph under construction and runs the allocation,
//! `graph` plans a step, `apply` and `book` take it, and `model`, `flow`,
//! `laws`, `planned` and `progress` say in mathematical terms what all of
//! this computes and what holds of it.

pub mod amount;
pub mod apply;
pub mod book;
pub mod date;
pub mod error;
pub mod flow;
pub mod graph;
pub mod laws;
pub mod model;
pub mod names;
pub mod planned;
pub mod progress;
pub mod value;
