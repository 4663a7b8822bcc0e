//! An interactive file finder's verified core: a bounded append-only history
//! log with compaction, a deduplicating merge feeder for the selector's
//! input, lexical path display and expansion, and the mode-cycling state
//! machine that interprets the selector's output.
pub mod feeder;
pub mod history;
pub mod lines;
pub mod paths;
pub mod selector;
