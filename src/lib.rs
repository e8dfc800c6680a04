//! Registry and scheduling core of a parallel system executor for an ECS runtime.
//!
//! Systems are registered under optional handles with handle-level dependencies;
//! the executor keeps a topological order of them, a conflict relation derived
//! from their declared borrows, and drives parallel dispatch as a state machine.
use vstd::prelude::*;

pub mod borrows;
pub mod builder;
pub mod error;
pub mod executor;
pub mod dispatch;
pub mod laws;

pub use borrows::SystemBorrows;
pub use builder::ExecutorBuilder;
pub use dispatch::Dispatch;
pub use error::{CantInsertSystem, NoSuchSystem};
pub use executor::Executor;

verus! {

} // verus!
