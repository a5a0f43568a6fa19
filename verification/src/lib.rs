//! Core of a wave-function-collapse tiling engine.
//!
//! A small exemplar grid of hand-placed oriented tiles is read into a
//! direction-indexed adjacency table, the table is expanded over the rotation
//! group of each tile prototype, and a wave grid of candidate sets is then
//! collapsed cell by cell: the least-uncertain cell is observed at random and
//! the resulting restrictions are propagated to its neighbours until every
//! cell is resolved, impossible, or the step budget of the tick runs out.

pub mod grid;
pub mod history;
pub mod rules;
pub mod solver;
pub mod tile;
pub mod tileset;
