//! Batched moves of filesystem paths.
//!
//! The library plans a set of simultaneous renames: it reads the records that
//! name the sources and destinations, normalizes the paths, rejects duplicate
//! sources and destinations, stages every entry through a private scratch
//! directory and orders the operations so that nested sources and
//! destinations are handled safely.  The program around it performs the
//! planned filesystem operations.
//!
//! - [`codec`]: the escape codec used with the helper process.
//! - [`path`]: lexical normalization of paths.
//! - [`moves`]: collecting pairs and detecting duplicates.
//! - [`scratch`]: scratch names and subtree relations.
//! - [`plan`]: the validated, staged and ordered rename set.
//! - [`schedule`]: the operations that carry the set out.
//! - [`namespace`]: what a run leaves behind, on a model of the namespace.
//! - [`records`]: record streams on standard input and the helper's pipes.
//! - [`flags`]: command-line flags.
//! - [`error`]: the errors of a run.

pub mod codec;
pub mod error;
pub mod flags;
pub mod moves;
pub mod namespace;
pub mod path;
pub mod plan;
pub mod records;
pub mod schedule;
pub mod scratch;
