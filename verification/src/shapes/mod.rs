//! The four topologies.

mod hex_shape;
mod oct_shape;
mod rect_shape;
mod tri_shape;

pub use hex_shape::{hex_gate, hex_step, hex_table, HexShape};
pub use oct_shape::{oct_gate, oct_step, oct_table, octagon_at, OctShape};
pub use rect_shape::{rect_gate, rect_step, rect_table, RectShape};
pub use tri_shape::{points_up, tri_gate, tri_step, tri_table, TriShape};
