//! Terrain rules: which block a column of given surface height holds at each
//! altitude, and where caves may be carved. Heights and cave noise are
//! sampled by the caller; this module decides the blocks.

use super::block::{AIR, BLOCK_KINDS, BlockId, DIRT, GRASS, SAND, STONE};
use super::chunk::{CHUNK_SIZE, Chunk, VOLUME, voxel_index, voxel_index_spec};
use super::{ChunkPos, Pos3, chunk_origin, origin_fits, origin_of};
use vstd::prelude::*;

verus! {

pub const SEA_LEVEL: i32 = 62;

/// How many blocks of dirt/grass/sand sit under the surface block before
/// stone starts.
pub const SURFACE_LAYER_DEPTH: i32 = 4;

/// How far below the surface caves are allowed to start, kept comfortably
/// past `SURFACE_LAYER_DEPTH` so a cave can never hole through the visible
/// ground layer.
pub const CAVE_SURFACE_MARGIN: i32 = 6;

/// Chunks span world y in `[0, VERTICAL_CHUNKS * CHUNK_SIZE)`; loaded and
/// unloaded per column (all `VERTICAL_CHUNKS` chunks at once).
pub const VERTICAL_CHUNKS: i32 = 4;

/// The block of a column whose surface is at `height`, at altitude
/// `world_y`, before caves: air above the surface, sand or grass on it
/// (sand near sea level), dirt for the next layers down, stone below.
pub open spec fn terrain_block(world_y: int, height: int) -> BlockId {
    if world_y > height {
        AIR
    } else if world_y == height {
        if height <= SEA_LEVEL + 1 {
            SAND
        } else {
            GRASS
        }
    } else if world_y > height - SURFACE_LAYER_DEPTH {
        DIRT
    } else {
        STONE
    }
}

/// Deep enough underground that a cave may be carved there.
pub open spec fn cave_depth_ok(world_y: int, height: int) -> bool {
    world_y <= height - CAVE_SURFACE_MARGIN
}

/// Whether a voxel that would otherwise be solid is carved into a cave:
/// inside the cave noise's band *and* deep enough underground not to breach
/// the surface layer.
pub fn should_carve_cave(world_y: i32, height: i32, in_cave_band: bool) -> (r: bool)
    ensures
        r == (cave_depth_ok(world_y as int, height as int) && in_cave_band),
{
    (world_y as i64) <= (height as i64) - (CAVE_SURFACE_MARGIN as i64) && in_cave_band
}

fn terrain_block_at(world_y: i32, height: i32) -> (b: BlockId)
    ensures
        b == terrain_block(world_y as int, height as int),
{
    let wy = world_y as i64;
    let h = height as i64;
    if wy > h {
        AIR
    } else if wy == h {
        if h <= SEA_LEVEL as i64 + 1 {
            SAND
        } else {
            GRASS
        }
    } else if wy > h - SURFACE_LAYER_DEPTH as i64 {
        DIRT
    } else {
        STONE
    }
}

/// What generation puts at one voxel whose column surface is at `height`,
/// given the cave noise's verdict `carved` there: the terrain block, except
/// that solid blocks deep enough underground become air where carved.
pub open spec fn generated_block(world_y: int, height: int, carved: bool) -> BlockId {
    let t = terrain_block(world_y, height);
    if t != AIR && cave_depth_ok(world_y, height) && carved {
        AIR
    } else {
        t
    }
}

/// The chunk-local voxel `(x, y, z)` of a chunk with world origin `origin`
/// holds what generation puts there for some verdict of `in_cave_band`.
pub open spec fn voxel_generated<F: Fn(i32, i32, i32) -> bool>(
    chunk: Seq<BlockId>,
    origin: Pos3,
    heights: Seq<i32>,
    in_cave_band: F,
    x: int,
    y: int,
    z: int,
) -> bool {
    let h = heights[z * 32 + x] as int;
    let wx = (origin.x + x) as i32;
    let wy = (origin.y + y) as i32;
    let wz = (origin.z + z) as i32;
    let t = terrain_block(wy as int, h);
    if t != AIR && cave_depth_ok(wy as int, h) {
        exists|carved: bool|
            #![trigger generated_block(wy as int, h, carved)]
            in_cave_band.ensures((wx, wy, wz), carved) && chunk[voxel_index_spec(x, y, z)]
                == generated_block(wy as int, h, carved)
    } else {
        chunk[voxel_index_spec(x, y, z)] == t
    }
}

/// Caves never reach into the surface layer: every voxel within
/// `SURFACE_LAYER_DEPTH` of the surface (or above it) holds its terrain block
/// whatever the cave noise says there.
pub proof fn law_caves_spare_surface_layer(world_y: int, height: int, carved: bool)
    requires
        world_y > height - SURFACE_LAYER_DEPTH,
    ensures
        !cave_depth_ok(world_y, height),
        generated_block(world_y, height, carved) == terrain_block(world_y, height),
{
}

/// The layers of a generated column with its surface at `height`: air above
/// the surface; on it sand where the surface is at most one block above sea
/// level and grass elsewhere; dirt for the `SURFACE_LAYER_DEPTH - 1` blocks
/// under it, whatever the height; stone below, except air where a cave is
/// carved at least `CAVE_SURFACE_MARGIN` blocks down.
pub proof fn law_terrain_layers(world_y: int, height: int, carved: bool)
    ensures
        world_y > height ==> generated_block(world_y, height, carved) == AIR,
        world_y == height && height <= SEA_LEVEL + 1 ==> generated_block(world_y, height, carved) == SAND,
        world_y == height && height > SEA_LEVEL + 1 ==> generated_block(world_y, height, carved) == GRASS,
        height - SURFACE_LAYER_DEPTH < world_y < height ==> generated_block(world_y, height, carved) == DIRT,
        world_y <= height - SURFACE_LAYER_DEPTH ==> generated_block(world_y, height, carved) == if carved
            && world_y <= height - CAVE_SURFACE_MARGIN {
            AIR
        } else {
            STONE
        },
{
}

/// Origins whose voxels all have representable world coordinates.
pub open spec fn fill_origin_ok(origin: Pos3) -> bool {
    &&& origin.x + 31 <= i32::MAX
    &&& origin.y + 31 <= i32::MAX
    &&& origin.z + 31 <= i32::MAX
}

/// Fills one chunk of a column: `heights` holds the surface height of each
/// `(x, z)` cell of the column (`z * CHUNK_SIZE + x`), and `in_cave_band`
/// reports whether the cave noise carves a world voxel. The cave noise is
/// only consulted for solid voxels deep enough for a cave.
pub fn fill_chunk<F: Fn(i32, i32, i32) -> bool>(origin: Pos3, heights: &[i32], in_cave_band: &F) -> (r:
    Chunk)
    requires
        heights@.len() == CHUNK_SIZE * CHUNK_SIZE,
        fill_origin_ok(origin),
        forall|x: i32, y: i32, z: i32| in_cave_band.requires((x, y, z)),
    ensures
        forall|i: int| 0 <= i < VOLUME ==> #[trigger] r@[i] < BLOCK_KINDS,
        forall|x: int, y: int, z: int|
            0 <= x < 32 && 0 <= y < 32 && 0 <= z < 32 ==> voxel_generated(
                r@,
                origin,
                heights@,
                *in_cave_band,
                x,
                y,
                z,
            ),
{
    let mut dense: Vec<BlockId> = Vec::new();
    while dense.len() < VOLUME
        invariant
            dense.len() <= VOLUME,
            forall|i: int| 0 <= i < dense.len() ==> dense@[i] == AIR,
        decreases VOLUME - dense.len(),
    {
        dense.push(AIR);
    }
    let mut z: usize = 0;
    while z < CHUNK_SIZE
        invariant
            z <= 32,
            dense.len() == VOLUME,
            heights@.len() == 1024,
            fill_origin_ok(origin),
            forall|x: i32, y: i32, z: i32| in_cave_band.requires((x, y, z)),
            forall|i: int| 0 <= i < VOLUME ==> #[trigger] dense@[i] < BLOCK_KINDS,
            forall|xx: int, yy: int, zz: int|
                0 <= xx < 32 && 0 <= yy < 32 && 0 <= zz < z ==> voxel_generated(
                    dense@,
                    origin,
                    heights@,
                    *in_cave_band,
                    xx,
                    yy,
                    zz,
                ),
        decreases 32 - z,
    {
        let mut x: usize = 0;
        while x < CHUNK_SIZE
            invariant
                z < 32,
                x <= 32,
                dense.len() == VOLUME,
                heights@.len() == 1024,
                fill_origin_ok(origin),
                forall|x: i32, y: i32, z: i32| in_cave_band.requires((x, y, z)),
                forall|i: int| 0 <= i < VOLUME ==> #[trigger] dense@[i] < BLOCK_KINDS,
                forall|xx: int, yy: int, zz: int|
                    0 <= xx < 32 && 0 <= yy < 32 && (0 <= zz < z || (zz == z && 0 <= xx < x))
                        ==> voxel_generated(dense@, origin, heights@, *in_cave_band, xx, yy, zz),
            decreases 32 - x,
        {
            let height = heights[z * CHUNK_SIZE + x];
            let mut y: usize = 0;
            while y < CHUNK_SIZE
                invariant
                    z < 32,
                    x < 32,
                    y <= 32,
                    height == heights@[z * 32 + x],
                    dense.len() == VOLUME,
                    heights@.len() == 1024,
                    fill_origin_ok(origin),
                    forall|x: i32, y: i32, z: i32| in_cave_band.requires((x, y, z)),
                    forall|i: int| 0 <= i < VOLUME ==> #[trigger] dense@[i] < BLOCK_KINDS,
                    forall|xx: int, yy: int, zz: int|
                        0 <= xx < 32 && 0 <= yy < 32 && (0 <= zz < z || (zz == z && 0 <= xx < x) || (
                        zz == z && xx == x && 0 <= yy < y)) ==> voxel_generated(
                            dense@,
                            origin,
                            heights@,
                            *in_cave_band,
                            xx,
                            yy,
                            zz,
                        ),
                decreases 32 - y,
            {
                let world_y = origin.y + y as i32;
                let world_x = origin.x + x as i32;
                let world_z = origin.z + z as i32;
                let terrain = terrain_block_at(world_y, height);
                let ghost carved_verdict: Option<bool> = None;
                let block = if terrain == AIR {
                    AIR
                } else if (world_y as i64) <= (height as i64) - (CAVE_SURFACE_MARGIN as i64) {
                    let carved = in_cave_band(world_x, world_y, world_z);
                    proof {
                        carved_verdict = Some(carved);
                    }
                    if should_carve_cave(world_y, height, carved) {
                        AIR
                    } else {
                        terrain
                    }
                } else {
                    terrain
                };
                let i = voxel_index(x, y, z);
                let ghost before = dense@;
                dense.set(i, block);
                proof {
                    assert forall|xx: int, yy: int, zz: int|
                        0 <= xx < 32 && 0 <= yy < 32 && (0 <= zz < z || (zz == z && 0 <= xx < x) || (
                        zz == z && xx == x && 0 <= yy < y + 1)) implies voxel_generated(
                        dense@,
                        origin,
                        heights@,
                        *in_cave_band,
                        xx,
                        yy,
                        zz,
                    ) by {
                        if xx == x && yy == y && zz == z {
                            if let Some(c) = carved_verdict {
                                assert(dense@[voxel_index_spec(xx, yy, zz)] == generated_block(
                                    world_y as int,
                                    height as int,
                                    c,
                                ));
                            }
                        } else {
                            assert(voxel_index_spec(xx, yy, zz) != i);
                            assert(voxel_generated(before, origin, heights@, *in_cave_band, xx, yy, zz));
                            assert(dense@[voxel_index_spec(xx, yy, zz)] == before[voxel_index_spec(xx, yy, zz)]);
                        }
                    }
                }
                y = y + 1;
            }
            x = x + 1;
        }
        z = z + 1;
    }
    Chunk::from_dense(dense.as_slice())
}

/// Column coordinates whose chunks all have representable voxel coordinates.
pub open spec fn column_fits(x: int, z: int) -> bool {
    &&& i32::MIN <= x * 32
    &&& x * 32 + 31 <= i32::MAX
    &&& i32::MIN <= z * 32
    &&& z * 32 + 31 <= i32::MAX
}

/// Generates every vertically-stacked chunk of the `(x, z)` column, reusing
/// one heightmap sample of the column (`heights`, see `fill_chunk`) for all
/// of them.
pub fn fill_column<F: Fn(i32, i32, i32) -> bool>(x: i32, z: i32, heights: &[i32], in_cave_band: &F) -> (r:
    Vec<(ChunkPos, Chunk)>)
    requires
        heights@.len() == CHUNK_SIZE * CHUNK_SIZE,
        column_fits(x as int, z as int),
        forall|a: i32, b: i32, c: i32| in_cave_band.requires((a, b, c)),
    ensures
        r@.len() == VERTICAL_CHUNKS,
        forall|y: int|
            0 <= y < VERTICAL_CHUNKS ==> (#[trigger] r@[y]).0 == (Pos3 { x, y: y as i32, z }),
        forall|y: int, i: int|
            0 <= y < VERTICAL_CHUNKS && 0 <= i < VOLUME ==> #[trigger] r@[y].1@[i] < BLOCK_KINDS,
        forall|y: int, lx: int, ly: int, lz: int|
            0 <= y < VERTICAL_CHUNKS && 0 <= lx < 32 && 0 <= ly < 32 && 0 <= lz < 32
                ==> #[trigger] voxel_generated(
                r@[y].1@,
                Pos3 { x: (x * 32) as i32, y: (y * 32) as i32, z: (z * 32) as i32 },
                heights@,
                *in_cave_band,
                lx,
                ly,
                lz,
            ),
{
    let mut r: Vec<(ChunkPos, Chunk)> = Vec::new();
    let mut y: i32 = 0;
    while y < VERTICAL_CHUNKS
        invariant
            0 <= y <= VERTICAL_CHUNKS,
            r@.len() == y,
            heights@.len() == 1024,
            column_fits(x as int, z as int),
            forall|a: i32, b: i32, c: i32| in_cave_band.requires((a, b, c)),
            forall|yy: int| 0 <= yy < y ==> (#[trigger] r@[yy]).0 == (Pos3 { x, y: yy as i32, z }),
            forall|yy: int, i: int| 0 <= yy < y && 0 <= i < VOLUME ==> #[trigger] r@[yy].1@[i] < BLOCK_KINDS,
            forall|yy: int, lx: int, ly: int, lz: int|
                0 <= yy < y && 0 <= lx < 32 && 0 <= ly < 32 && 0 <= lz < 32 ==> #[trigger] voxel_generated(
                    r@[yy].1@,
                    Pos3 { x: (x * 32) as i32, y: (yy * 32) as i32, z: (z * 32) as i32 },
                    heights@,
                    *in_cave_band,
                    lx,
                    ly,
                    lz,
                ),
        decreases VERTICAL_CHUNKS - y,
    {
        let pos = Pos3::new(x, y, z);
        let origin = chunk_origin(pos);
        let chunk = fill_chunk(origin, heights, in_cave_band);
        let ghost before = r@;
        r.push((pos, chunk));
        proof {
            assert forall|yy: int, lx: int, ly: int, lz: int|
                0 <= yy < y + 1 && 0 <= lx < 32 && 0 <= ly < 32 && 0 <= lz < 32 implies #[trigger] voxel_generated(
                r@[yy].1@,
                Pos3 { x: (x * 32) as i32, y: (yy * 32) as i32, z: (z * 32) as i32 },
                heights@,
                *in_cave_band,
                lx,
                ly,
                lz,
            ) by {
                if yy < y {
                    assert(r@[yy] == before[yy]);
                } else {
                    assert(origin == Pos3 { x: (x * 32) as i32, y: (yy * 32) as i32, z: (z * 32) as i32 });
                }
            }
        }
        y = y + 1;
    }
    r
}

} // verus!
