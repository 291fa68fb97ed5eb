//! A multi-resolution tile pyramid for very large images: quadtree
//! addressing, a tile store, pyramid construction, island pruning,
//! cropping and region reads.

pub mod convert;
pub mod database;
pub mod error;
pub mod quadtree;
pub mod raster;
pub mod types;
pub mod util;

pub use database::Database;
pub use database::SlideData;
pub use error::Error;
pub use raster::Raster;
pub use types::Diagnosis;
pub use types::Patch;
pub use types::Stain;
pub use types::Tile;
pub use types::TileLabel;
