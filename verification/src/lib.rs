//! A workflow execution engine: a directed graph of declarative action
//! nodes is validated, ordered topologically by Kahn's algorithm with a
//! deterministic declaration-order tie-break, and turned into the exact
//! sequence of repository actions to perform. Graph validation, scheduling
//! and dispatch are fully carried out before any side effect runs; the
//! actual repository mutations and the HTTP session client are external
//! collaborators that consume this crate's output.

pub mod dispatch;
pub mod engine;
pub mod graph;
pub mod models;
pub mod schedule;
