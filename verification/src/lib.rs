//! Disk-space analysis.
use vstd::prelude::*;

pub mod age;
pub mod applications;
pub mod builder;
pub mod bytes;
pub mod cache;
pub mod catalog;
pub mod category;
pub mod cleanup;
pub mod digest;
pub mod dupes;
pub mod dupescan;
pub mod engine;
pub mod explore;
pub mod layout;
pub mod leftovers;
pub mod locate;
pub mod names;
pub mod navigate;
pub mod order;
pub mod paths;
pub mod platform;
pub mod progress;
pub mod quickwins;
pub mod recycling;
pub mod rollup;
pub mod scan;
pub mod seqs;
pub mod shares;
pub mod sidebar;
pub mod surgery;
pub mod text;
pub mod top;
pub mod totals;
pub mod tree;

verus! {

} // verus!
