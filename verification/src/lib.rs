//! Which projects of a monorepo does a change affect?
//!
//! The library reads a git diff, follows the changed symbols through the
//! reference facts of a workspace, adds implicit dependents and reports the
//! affected projects, with the reasons where they are asked for.

pub mod affected;
pub mod error;
mod fx;
pub mod git;
pub mod header;
pub mod index;
pub mod laws;
pub mod order;
pub mod path;
pub mod pattern;
pub mod propagate;
pub mod reach;
pub mod reasons;
pub mod resolve;
pub mod state;
pub mod text;
pub mod trace;
pub mod types;
pub mod workspace;
