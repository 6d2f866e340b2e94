//! Perfect mazes over square, triangular, hexagonal and octagon-and-square grids.
//!
//! A maze is a grid of cells. Each cell has a fixed number of slots, one per
//! direction; a slot names the neighbouring cell in that direction, if there is
//! one, and says whether a wall stands between the two. A topology decides
//! which cells are neighbours, the generator carves a spanning tree of
//! passages, and the solver finds the shortest way from the first cell to the
//! last.
//!
//! - [`genericmaze`] holds the cells, the maze and the interface of a topology,
//!   [`shapes`] the four topologies.
//! - [`generator`] and [`solver`] hold the two algorithms.
//! - [`grid`] is the graph that a maze stands for, in which the contracts are
//!   written; [`tree`] and [`order`] hold what is proved of such graphs.
//! - [`random`] is the only place where chance comes in.

mod carving;
pub mod generator;
pub mod genericmaze;
pub mod grid;
pub mod order;
pub mod random;
mod search;
pub mod shapes;
pub mod solver;
pub mod tree;
