//! The in-memory model: the lifeline subgraph and the recent tangle.
pub mod lifeline_subgraph;
pub mod transaction;
pub mod tangle;
