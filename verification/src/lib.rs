//! Converts per-tile terrain map files into a compact, addon-consumable grid
//! of per-chunk area identifiers. Each input file covers one cell of a
//! continent's 64x64 grid and carries up to 256 sub-chunk area identifiers;
//! the library derives the tile position from the filename, normalizes and
//! packs the identifiers into a 1024-byte little-endian record, encodes the
//! record as base64 text, aggregates the records per continent in ascending
//! tile-index order, and serializes them as a generated table artifact.

use vstd::prelude::*;

pub mod codec;
pub mod driver;
pub mod errors;
pub mod export;
pub mod extract;
pub mod resolver;

verus! {

/// Packed grid position of a tile: row-major over the 64x64 continent grid.
pub open spec fn tile_index(tile_x: int, tile_y: int) -> int {
    tile_y * 64 + tile_x
}

/// Packs a tile's grid coordinates into a single table key.
pub fn tile_key(tile_x: u32, tile_y: u32) -> (r: u32)
    requires
        tile_y * 64 + tile_x <= u32::MAX,
    ensures
        r == tile_index(tile_x as int, tile_y as int),
{
    tile_y * 64 + tile_x
}

/// The tile index formula is injective over the 64x64 grid: no two distinct
/// in-grid coordinate pairs share a packed index.
pub proof fn lemma_tile_index_injective(x1: int, y1: int, x2: int, y2: int)
    requires
        0 <= x1 < 64,
        0 <= y1 < 64,
        0 <= x2 < 64,
        0 <= y2 < 64,
        tile_index(x1, y1) == tile_index(x2, y2),
    ensures
        x1 == x2,
        y1 == y2,
{
}

} // verus!
