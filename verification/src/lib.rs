//! Selection of the tests that a change calls for, from per-test line coverage
//! recorded ahead of time.
//!
//! The crate holds the coverage store's data model, the rules for reading and
//! rebuilding the store, and the selection of tests for a set of lines. Every
//! function is verified against its contract; reading files and running
//! processes is left to the caller, who hands over plain values.

pub mod artifact;
pub mod builder;
pub mod db;
pub mod diff;
pub mod digest;
pub mod failure;
pub mod lines;
pub mod model;
pub mod opts;
pub mod paths;
pub mod progress;
pub mod range_set;
pub mod report;
pub mod restorer;
pub mod run;
pub mod select;
pub mod session;
pub mod str_map;
pub mod text;
pub mod warn;
