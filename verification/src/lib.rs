//! A minimal command-line shell, split in two verified parts:
//!
//! * [`parser`] turns a raw input line into a pipeline: a sequence of
//!   stage descriptors (argv, optional stdin/stdout redirection).
//! * [`plan`] turns a pipeline and a set of pipe file descriptors into
//!   explicit per-process action lists, proved to wire every standard
//!   descriptor correctly and to close every pipe end exactly where it
//!   must be closed.
//!
//! Everything that touches the operating system (forking, duplicating
//! descriptors, replacing process images) lives outside this crate and
//! merely interprets the action lists computed here.

pub mod parser;
pub mod plan;

pub use parser::parse;
pub use parser::starts;
pub use parser::Command;
