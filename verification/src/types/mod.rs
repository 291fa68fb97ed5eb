pub mod diagnosis;
pub mod names;
pub mod patch;
pub mod stain;
pub mod tile;
pub mod tile_label;

pub use diagnosis::Diagnosis;
pub use patch::Patch;
pub use stain::Stain;
pub use tile::Tile;
pub use tile_label::TileLabel;
