//! A small task-tracking library: tasks with optional due dates are kept in a
//! local SQLite table, listed in a canonical order (dated tasks first, in
//! chronological order, undated tasks after them), and addressed by their
//! position in that order.
//!
//! The ordering, position resolution, projection to display records, and
//! due-date normalization are verified; the SQLite calls themselves stand
//! behind small trusted wrappers.

pub mod config;
pub mod dates;
pub mod store;
pub mod tasks;
