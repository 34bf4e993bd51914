//! The commands of the command line, and what each of them does to the
//! store and the backend.

pub mod data;
pub mod learning;
pub mod task;
pub mod vcs;
