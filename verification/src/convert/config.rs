//! The settings of a conversion that the pyramid engine reads.

use vstd::prelude::*;

verus! {

#[derive(Debug, Clone, Copy, PartialEq, Eq, Structural)]
pub struct Config {
    /// Side length of the tiles to cut, in pixels.
    pub tile_size: u64,
    /// Side length of the image on which edges are detected.
    pub edge_detect_size: u64,
    /// A cluster is an island only if it is narrower or lower than this many tiles.
    pub island_size: u64,
    /// A cluster is an island only if it has at most this many tiles.
    pub island_tiles: u64,
}

impl Config {
    pub fn default() -> (c: Config)
        ensures
            c == (Config { tile_size: 512, edge_detect_size: 64, island_size: 5, island_tiles: 15 }),
    {
        Config { tile_size: 512, edge_detect_size: 64, island_size: 5, island_tiles: 15 }
    }
}

} // verus!
