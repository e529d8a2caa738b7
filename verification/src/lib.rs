//! Wave-function-collapse map generation: a dense 2D grid of per-cell
//! domain bitsets, narrowed by constraint propagation and resolved by
//! weighted random collapse.

pub mod array2d;
pub mod bits;
pub mod engine;
pub mod model;
pub mod rng;
pub mod terrain;
pub mod tile;

pub use array2d::Array2D;
pub use array2d::coords_to_index;
pub use array2d::index_to_coords;
pub use engine::WFCError;
pub use terrain::TerrainExample;
pub use engine::WFCGenerator;
pub use tile::WFCState;
