//! Reasoning about the state of local Git repositories: which directories a
//! configuration selects, which local branches no remote holds, which
//! branches were used last, and how long ago.
//!
//! The library computes on plain values and leaves the file system and the
//! version-control backend to its caller:
//!
//! - [`rules`] reads the lines of a configuration, and [`resolve`] turns the
//!   repository roots found for it into the ordered list of repositories;
//! - [`unpushed`] finds the local branches that no remote branch holds, one
//!   question to the backend at a time;
//! - [`reflog`] and [`recent`] list the branches that the log of `HEAD`
//!   names, the most recently used first;
//! - [`age`] tells how long ago something was.

pub mod age;
pub mod error;
pub mod recent;
pub mod reflog;
pub mod resolve;
pub mod rules;
pub mod text;
pub mod unpushed;
pub mod verbosity;

pub use verbosity::Verbosity;
