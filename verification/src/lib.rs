//! Conway's Game of Life: a fixed-size boolean grid, a verified transition
//! engine with two boundary policies, and the GOLN textual grid format.

pub mod codec;
pub mod engine;
pub mod model;
pub mod store;

pub use codec::encode_goln;
pub use codec::map_split_once_to_usize;
pub use codec::parse_goln;
pub use codec::random_grid;
pub use codec::GridError;
pub use engine::live_neighbours;
pub use engine::next_generation;
pub use engine::step;
pub use engine::EdgeCaseMethod;
