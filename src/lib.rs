//! Semantic place skyline queries over directed graphs whose nodes carry keywords.
//!
//! For a query keyword list, every node gets a distance vector: entry `i` is the
//! length of the shortest directed path from the node to a node carrying keyword
//! `i`. The skyline is the set of nodes whose vector no other node's vector
//! dominates.

pub mod dominance;
pub mod distance;
pub mod graph;
pub mod input;
pub mod laws;
pub mod parse;
pub mod query;
