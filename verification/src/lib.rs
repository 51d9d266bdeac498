//! Wave-function-collapse over voxel tiles.
//!
//! Tile sets are built from raw voxel buffers: each file yields four tiles
//! (its quarter-turn rotations), face geometry is canonicalized into
//! sockets, and the compatibility matrix between every tile pair is derived
//! from socket matching and an exclusion list.  The solver then collapses a
//! three-dimensional grid of option bitsets, cell by cell, propagating
//! constraints to a fixed point.

pub mod bitmath;
pub mod bits;
pub mod node;
pub mod node_data;
pub mod rng;
pub mod utils;
pub mod voxel;
pub mod wfc;

pub use bits::bits_of;
pub use bits::Bits;
pub use node::Direction;
pub use node::Node;
pub use node_data::NodeData;
pub use utils::collapse_x_axis;
pub use utils::collapse_y_axis;
pub use utils::collapse_z_axis;
pub use utils::constrain_x_axis;
pub use utils::constrain_y_axis;
pub use utils::constrain_z_axis;
pub use voxel::TileError;
pub use voxel::VoxFile;
pub use wfc::Solver;
