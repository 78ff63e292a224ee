//! An interactive explorer for a content-addressed package dependency graph:
//! the graph store, the closure and marginal ("added") size engine, the
//! root-to-target reachability search, and the pane/history/modal navigation
//! state machine that drives browsing.

mod util;

pub mod cli;
pub mod nav;
pub mod path_stats;
pub mod store_path;
