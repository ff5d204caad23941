//! An incremental, steppable pathfinding engine over a finite 2D grid.
//!
//! The crate models a rectangular world of cells, enumerates neighbors under a
//! chosen connectivity strategy, validates a search configuration, and runs an
//! A*-like relaxation one expansion at a time, so the frontier, costs and the
//! reconstructed path can be inspected mid-search.  Costs are fixed-point
//! integers in thousandths of a cell edge, so every step is deterministic.

pub mod astar;
pub mod cost;
pub mod errors;
pub mod session;
pub mod world;
