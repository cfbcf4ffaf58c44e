//! Decision engine of a planet-conquest agent: a per-planet forward simulator
//! and a max-flow based planner for coordinated fleet operations.

pub mod planet;
pub mod timeline;
pub mod flow;
pub mod operation;
pub mod graphs;
pub mod world;
pub mod search;
