//! Resolution of short tokens (issue ids, commit-ish strings, ".") into URLs
//! through pattern rules and rules scoped to a git push remote, and the
//! reading of git's output that goes with it.

pub mod branches;
pub mod config;
pub mod git;
pub mod matcher;
pub mod open;
pub mod subst;
pub mod term_colors;
pub mod text;
