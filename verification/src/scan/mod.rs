//! The table scan: what to read, how to read it, and what to drop.

pub mod filter;
pub mod merge_drain;
pub mod merge_laws;
pub mod merge_order;
pub mod merge_sources;
pub mod merge_turn_laws;
pub mod merged_rows;
pub mod operator;
pub mod operator_laws;
pub mod path;
pub mod predicate;
pub mod predicate_laws;
pub mod scan_laws;
