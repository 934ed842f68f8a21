//! Block-processing core of a rollup full node.
//!
//! The node follows a data-availability layer, keeps one state snapshot per
//! block that is not final yet, survives reorganisations of the recent chain,
//! and records a height for good once it has become final.

pub mod chain_index;
pub mod diff;
pub mod fee;
pub mod finality;
pub mod laws;
pub mod ledger;
pub mod notifier;
pub mod runner;
pub mod storage;
pub mod types;
