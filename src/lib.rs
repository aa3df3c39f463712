//! Planning and decision logic for a directory-maintenance tool that flattens
//! per-subject directory trees and renames every file to a random identifier.
//!
//! Everything that touches the file system, the host clock or the host's task
//! scheduler is done by the caller; this library decides what to do and proves
//! that its decisions keep every file exactly once.
pub mod consolidate;
pub mod engine;
pub mod naming;
pub mod relocation;
pub mod schedule;
pub mod text;
