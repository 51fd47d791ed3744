//! Mirrors watched key/value configuration objects onto a directory and
//! signals a dependent process when a file changed.
//!
//! The library holds the decisions: how a process is found in a snapshot of
//! the process table, which files a reconcile writes and removes, and how the
//! object cache moves on watch events. Reading the process table, touching
//! files and sending signals is left to the caller.
pub mod bumper;
pub mod config;
pub mod keyed;
pub mod operator;
pub mod updater;
