//! Optimizes the history above a commit of a git repository: where several commits have the same
//! tree, branches that stand on one of them are moved onto the canonical one.
//!
//! A run does no input or output of its own. [`optimize_history`] begins it; the [`Session`] that
//! it gives says what it wants to know of the repository, and each reply takes it on. Whoever
//! carries the run out answers the requests and performs the effects.
//!
//! [`model`] says what a run does, as a state machine, and [`laws`] what follows from that for
//! every run.
use vstd::prelude::*;

pub mod canonical;
pub mod laws;
pub mod messages;
pub mod model;
pub mod oid;
pub mod oid_map;
pub mod order;
pub mod protocol;
pub mod refs;
pub mod rewrites;
pub mod session;
pub mod text;
pub mod walk;

pub use crate::oid::Oid;
pub use crate::protocol::{Effect, Outcome, Reply, Request};
pub use crate::refs::{GitError, RefRecord};
pub use crate::session::{optimize_history, Revset, Session, Step};

verus! {

} // verus!
