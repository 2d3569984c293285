//! Block ids and the per-block properties the engine's logic reads.

use vstd::prelude::*;

verus! {

pub type BlockId = u16;

pub const AIR: BlockId = 0;

pub const STONE: BlockId = 1;

pub const DIRT: BlockId = 2;

pub const GRASS: BlockId = 3;

pub const SAND: BlockId = 4;

/// Number of block kinds in the block table; ids at or above it are unknown.
pub const BLOCK_KINDS: u16 = 5;

/// Whether a known block is solid: every kind but air.
pub open spec fn solid(id: BlockId) -> bool {
    id != AIR
}

/// Whether the block is solid. Only ids of the block table are known.
pub fn is_solid(id: BlockId) -> (r: bool)
    requires
        id < BLOCK_KINDS,
    ensures
        r == solid(id),
        r <==> id != AIR,
{
    id != AIR
}

/// Every known kind of block but air is solid (stone, dirt, grass and sand
/// all hide the faces behind them and are drawn), and air is not.
pub proof fn law_every_block_but_air_is_solid()
    ensures
        forall|id: BlockId| 0 < id < BLOCK_KINDS ==> #[trigger] solid(id),
        !solid(AIR),
        solid(STONE) && solid(DIRT) && solid(GRASS) && solid(SAND),
{
}

/// The RGBA8 vertex color of a known block: its flat display color with
/// each channel scaled to 0..=255 and rounded, fully opaque.
pub open spec fn vertex_color_spec(id: BlockId) -> [u8; 4] {
    if id == STONE {
        [128u8, 128u8, 133u8, 255u8]
    } else if id == DIRT {
        [102u8, 71u8, 41u8, 255u8]
    } else if id == GRASS {
        [77u8, 148u8, 56u8, 255u8]
    } else if id == SAND {
        [209u8, 194u8, 133u8, 255u8]
    } else {
        [0u8, 0u8, 0u8, 255u8]
    }
}

/// The RGBA8 vertex color of a known block.
pub fn vertex_color(id: BlockId) -> (r: [u8; 4])
    requires
        id < BLOCK_KINDS,
    ensures
        r == vertex_color_spec(id),
{
    if id == STONE {
        [128, 128, 133, 255]
    } else if id == DIRT {
        [102, 71, 41, 255]
    } else if id == GRASS {
        [77, 148, 56, 255]
    } else if id == SAND {
        [209, 194, 133, 255]
    } else {
        [0, 0, 0, 255]
    }
}

} // verus!
