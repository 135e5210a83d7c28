//! A branch-stack manager core for a content-addressed version control
//! system: it builds a per-commit tree embedding a set of local branches,
//! annotates each node with an action (pick, protected, drop, fixup),
//! compiles the annotated tree into a script of low-level operations, and
//! interprets that script against an in-memory repository snapshot with
//! dry-run and per-branch failure discipline.
//!
//! All repository reads and writes performed here act on [`repo::Repo`], a
//! plain in-memory snapshot; a front end is expected to load such a snapshot
//! from the real ref store and to replay the resulting scripts against it.
#![verifier::loop_isolation(false)]

pub mod annotate;
pub mod backup;
pub mod branches;
pub mod error;
pub mod executor;
pub mod graph;
pub mod ids;
pub mod laws;
pub mod names;
pub mod protect;
pub mod repo;
pub mod script;
pub mod state;

use vstd::prelude::*;

verus! {

} // verus!
