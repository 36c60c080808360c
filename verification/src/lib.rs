//! Graphs of git histories.
//!
//! [`graph::GitGraph::new`] takes what a repository answers when it is read and finds, for each
//! commit, the branch that it belongs to and, for each branch, the positions that it spans and the
//! column that it is drawn in. The [`laws`] say what holds of every graph, the [`readings`] how it
//! answers to what was read.

pub mod assign;
pub mod branch;
pub mod chains;
pub mod children;
pub mod claims;
pub mod columns;
pub mod commit;
pub mod extract;
pub mod fcfs;
pub mod filter;
pub mod graph;
pub mod invariants;
pub mod laws;
pub mod length;
pub mod matching;
pub mod oid;
pub mod outcomes;
pub mod patterns;
pub mod ranges;
pub mod readings;
pub mod scheduling;
pub mod settings;
pub mod sorting;
pub mod sources;
pub mod trace;
pub mod trails;
