//! The core engine of a personal task tracker. Tasks form a tree through
//! optional parent references, notes accrue logged time against tasks,
//! and both feed duration statistics. The engine reconstructs the tree
//! from the flat task list, finds open leaves, aggregates durations,
//! selects and groups recently updated work, and keeps the transactional
//! link between a new note and its task's body. Everything here runs over
//! an in-memory record store; a database, an editor and a command line
//! can be wrapped around it, but stay outside.

use vstd::prelude::*;

pub mod duration;
pub mod hierarchy;
pub mod leaves;
pub mod models;
pub mod ordering;
pub mod review;
pub mod store;
pub mod text;

verus! {

/// The error taxonomy of the task engine.
///
/// - `NotFound`: a referenced task id or template name does not exist; the
///   operation aborts with no state change.
/// - `MalformedInput`: a delimiter-based text split failed because the
///   delimiter is missing; no store mutation is attempted.
/// - `StoreFailure`: a write against the record store cannot be performed
///   (the id space is exhausted); fatal to the current operation, prior
///   state is untouched.
/// - `TransactionFailure`: the two writes of a transactional note append
///   cannot both commit; the whole unit is rolled back.
#[derive(Clone, Copy, Debug, PartialEq, Eq, Structural)]
pub enum Error {
    NotFound,
    MalformedInput,
    StoreFailure,
    TransactionFailure,
}

} // verus!
