//! Grammar databases: keys in a double array, with everything that it takes to build, store,
//! list and look them up.
//!
//! Contracts are stated over what an array means (`trie`), what a sequence of keys stands for
//! (`words`, `keyset`), where its nodes go (`sketch`, `graph`, `plan`), how keys are encoded
//! (`codec`) and what a file looks like (`gram`).
//! `laws` relates them. What follows for callers, in terms of what goes in and what comes out,
//! is in `promises`, `listing` and `refusals` (double arrays), `database` (databases), `codec`
//! (keys) and `usage` (the command line); `sharing` and `marks` say what a
//! word graph shares.

pub mod array;
pub mod bits;
pub mod builder;
pub mod bytes;
pub mod chains;
pub mod cli;
pub mod codec;
pub mod database;
pub mod dawg;
pub mod direct;
pub mod error;
pub mod gram;
pub mod graph;
pub mod keyset;
pub mod laws;
pub mod listing;
pub mod marks;
pub mod nodes;
pub mod plan;
pub mod progress;
pub mod promises;
pub mod refusals;
pub mod sharing;
pub mod sketch;
pub mod slots;
pub mod sort;
pub mod trie;
pub mod unit;
pub mod usage;
pub mod words;
