//! In-process transactional state engine with capability-based access control.
//!
//! The engine holds a versioned, logically immutable [`state::State`]. Writers
//! open short-lived [`transaction::Transaction`]s, mutate working copies through
//! [`proxy::SupervisorProxy`] and [`guards::ContextGuard`], and commit
//! all-or-nothing: at close the transaction infers deltas from its shadow
//! copies, replays the delta log, validates the result against an optional
//! schema, swaps the engine state, and flushes the transaction outbox.
//! Per-path permissions come from a zone taxonomy ([`zones`]) intersected
//! with each process's declared inputs and outputs.
use vstd::prelude::*;

pub mod conflict;
pub mod engine;
pub mod errors;
pub mod guards;
pub mod laws;
pub mod paths;
pub mod proxy;
pub mod registry;
pub mod state;
pub mod transaction;
pub mod value;
pub mod zones;

verus! {

} // verus!
