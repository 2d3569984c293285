//! Greedy meshing of a chunk into axis-aligned quads, culled against the
//! loaded neighborhood.

use super::block::{BLOCK_KINDS, BlockId, is_solid, solid, vertex_color, vertex_color_spec};
use super::chunk::{CHUNK_SIZE, Chunk, VOLUME, voxel_index_spec};
use super::{ChunkPos, Pos3, World, block_at, chunk_of, local_of, chunk_origin, origin_fits};
use super::bits::lemma_div32;
use vstd::prelude::*;

verus! {

/// A packed 8-byte chunk vertex. `packed` holds the chunk-local position
/// (0..=CHUNK_SIZE, 6 bits per axis) plus a face-normal index (3 bits):
/// `x | y << 6 | z << 12 | normal << 18`.
#[derive(Clone, Copy, Debug)]
pub struct ChunkVertex {
    pub packed: u32,
    pub color: [u8; 4],
}

pub struct ChunkMesh {
    pub vertices: Vec<ChunkVertex>,
    pub indices: Vec<u32>,
}

impl ChunkMesh {
    pub fn is_empty(&self) -> (r: bool)
        ensures
            r == (self.indices@.len() == 0),
    {
        self.indices.is_empty()
    }
}

/// A visible face: the solid block it belongs to, and whether its normal
/// points toward the negative end of the sweep axis.
#[derive(Clone, Copy, PartialEq, Eq, Structural, Debug)]
pub struct MaskEntry {
    pub block: BlockId,
    pub backface: bool,
}

/// Value of a packed vertex word.
pub open spec fn packed_spec(p: (int, int, int), normal: int) -> int {
    p.0 + p.1 * 64 + p.2 * 4096 + normal * 262144
}

fn pack_vertex(local: [i32; 3], normal_index: u32) -> (r: u32)
    requires
        0 <= local[0] <= 32,
        0 <= local[1] <= 32,
        0 <= local[2] <= 32,
        normal_index < 8,
    ensures
        r as int == packed_spec((local[0] as int, local[1] as int, local[2] as int), normal_index as int),
{
    let a = local[0] as u32;
    let b = local[1] as u32;
    let c = local[2] as u32;
    assert(a | (b << 6u32) | (c << 12u32) | (normal_index << 18u32) == a + b * 64 + c * 4096
        + normal_index * 262144) by (bit_vector)
        requires
            a <= 32,
            b <= 32,
            c <= 32,
            normal_index < 8,
    ;
    a | (b << 6u32) | (c << 12u32) | (normal_index << 18u32)
}

/// The point whose coordinate on axis `d` is `a_d`, on axis `(d + 1) % 3`
/// is `a_u` and on axis `(d + 2) % 3` is `a_v`.
pub open spec fn point_on_axis(d: int, a_d: int, a_u: int, a_v: int) -> (int, int, int) {
    if d == 0 {
        (a_d, a_u, a_v)
    } else if d == 1 {
        (a_v, a_d, a_u)
    } else {
        (a_u, a_v, a_d)
    }
}

fn axis_point(d: usize, a_d: i32, a_u: i32, a_v: i32) -> (p: [i32; 3])
    requires
        d < 3,
    ensures
        (p[0] as int, p[1] as int, p[2] as int) == point_on_axis(
            d as int,
            a_d as int,
            a_u as int,
            a_v as int,
        ),
{
    if d == 0 {
        [a_d, a_u, a_v]
    } else if d == 1 {
        [a_v, a_d, a_u]
    } else {
        [a_u, a_v, a_d]
    }
}

/// The block at chunk-local point `p` of chunk `c` (the point may lie in a
/// neighboring chunk).
pub open spec fn block_near(world: Map<ChunkPos, Chunk>, c: ChunkPos, p: (int, int, int)) -> BlockId {
    block_at(
        world,
        Pos3 { x: (c.x * 32 + p.0) as i32, y: (c.y * 32 + p.1) as i32, z: (c.z * 32 + p.2) as i32 },
    )
}

pub open spec fn solid_near(world: Map<ChunkPos, Chunk>, c: ChunkPos, p: (int, int, int)) -> Option<
    BlockId,
> {
    let b = block_near(world, c, p);
    if solid(b) {
        Some(b)
    } else {
        None
    }
}

/// Chunk coordinates whose one-voxel neighborhood has representable world
/// coordinates.
pub open spec fn mesh_pos_ok(c: ChunkPos) -> bool {
    &&& -0x400_0000 < c.x < 0x400_0000 - 1
    &&& -0x400_0000 < c.y < 0x400_0000 - 1
    &&& -0x400_0000 < c.z < 0x400_0000 - 1
}

/// Every block the mesher may look at around chunk `c` is a known block.
pub open spec fn blocks_known_near(world: Map<ChunkPos, Chunk>, c: ChunkPos) -> bool {
    forall|a: int, b: int, e: int|
        -1 <= a <= 32 && -1 <= b <= 32 && -1 <= e <= 32 ==> #[trigger] block_near(world, c, (a, b, e))
            < BLOCK_KINDS
}

/// Every block of every loaded chunk is a known block.
pub open spec fn world_known(world: Map<ChunkPos, Chunk>) -> bool {
    forall|p: ChunkPos, i: int|
        world.contains_key(p) && 0 <= i < VOLUME ==> #[trigger] world[p]@[i] < BLOCK_KINDS
}

/// In a world of known blocks, every chunk's neighborhood is known.
pub proof fn lemma_world_known_near(world: Map<ChunkPos, Chunk>, c: ChunkPos)
    requires
        world_known(world),
    ensures
        blocks_known_near(world, c),
{
    assert forall|a: int, b: int, e: int|
        -1 <= a <= 32 && -1 <= b <= 32 && -1 <= e <= 32 implies #[trigger] block_near(world, c, (a, b, e))
        < BLOCK_KINDS by {
        let q = Pos3 { x: (c.x * 32 + a) as i32, y: (c.y * 32 + b) as i32, z: (c.z * 32 + e) as i32 };
        let l = local_of(q);
        assert(0 <= voxel_index_spec(l.0, l.1, l.2) < VOLUME);
    }
}

/// The face on the boundary `plane` of sweep axis `d` (between layers
/// `plane - 1` and `plane`) at in-plane cell `(i, j)`: present where exactly
/// one side is solid, belonging to that side's block.
pub open spec fn face(world: Map<ChunkPos, Chunk>, c: ChunkPos, d: int, plane: int, i: int, j: int) -> Option<
    MaskEntry,
> {
    let a = solid_near(world, c, point_on_axis(d, plane - 1, i, j));
    let b = solid_near(world, c, point_on_axis(d, plane, i, j));
    if a is Some && b is None {
        Some(MaskEntry { block: a->0, backface: false })
    } else if a is None && b is Some {
        Some(MaskEntry { block: b->0, backface: true })
    } else {
        None
    }
}

/// A rectangle of faces: on boundary `plane` of axis `axis`, cells
/// `i .. i + w` by `j .. j + h`.
pub struct Quad {
    pub axis: int,
    pub plane: int,
    pub i: int,
    pub j: int,
    pub w: int,
    pub h: int,
    pub entry: MaskEntry,
}

pub open spec fn rect_covers(q: Quad, i: int, j: int) -> bool {
    q.i <= i < q.i + q.w && q.j <= j < q.j + q.h
}

pub open spec fn quad_well_formed(q: Quad) -> bool {
    &&& 0 <= q.axis < 3
    &&& 0 <= q.plane <= 32
    &&& 1 <= q.w
    &&& 1 <= q.h
    &&& 0 <= q.i
    &&& q.i + q.w <= 32
    &&& 0 <= q.j
    &&& q.j + q.h <= 32
    &&& q.entry.block < BLOCK_KINDS
}

/// Corner `t` (0..4) of a quad, in emission order: counter-clockwise as seen
/// from the side the face is visible from.
pub open spec fn quad_corner(q: Quad, t: int) -> (int, int, int) {
    let (du, dv) = if q.entry.backface {
        (if t == 2 || t == 3 { q.w } else { 0 }, if t == 1 || t == 2 { q.h } else { 0 })
    } else {
        (if t == 1 || t == 2 { q.w } else { 0 }, if t == 2 || t == 3 { q.h } else { 0 })
    };
    point_on_axis(q.axis, q.plane, q.i + du, q.j + dv)
}

pub open spec fn normal_index_spec(q: Quad) -> int {
    2 * q.axis + if q.entry.backface {
        1int
    } else {
        0int
    }
}

pub open spec fn quad_vertex(q: Quad, t: int) -> ChunkVertex {
    ChunkVertex {
        packed: packed_spec(quad_corner(q, t), normal_index_spec(q)) as u32,
        color: vertex_color_spec(q.entry.block),
    }
}

/// Offsets of the two triangles of a quad within its four vertices.
pub open spec fn tri_offset(t: int) -> int {
    if t == 0 || t == 3 {
        0
    } else if t == 1 {
        1
    } else if t == 2 || t == 4 {
        2
    } else {
        3
    }
}

pub open spec fn vtx(vs: Seq<ChunkVertex>, k: int, t: int) -> ChunkVertex {
    vs[4 * k + t]
}

pub open spec fn idx(is: Seq<u32>, k: int, t: int) -> u32 {
    is[6 * k + t]
}

/// `vs` holds the four vertices of each quad, in order.
pub open spec fn vertices_encode(vs: Seq<ChunkVertex>, quads: Seq<Quad>) -> bool {
    &&& vs.len() == 4 * quads.len()
    &&& forall|k: int, t: int|
        0 <= k < quads.len() && 0 <= t < 4 ==> #[trigger] vtx(vs, k, t) == quad_vertex(quads[k], t)
}

/// `is` holds the two triangles of each of `n` quads, in order.
pub open spec fn indices_encode(is: Seq<u32>, n: nat) -> bool {
    &&& is.len() == 6 * n
    &&& forall|k: int, t: int|
        0 <= k < n && 0 <= t < 6 ==> #[trigger] idx(is, k, t) == 4 * k + tri_offset(t)
}

/// The largest number of quads a chunk can produce: one per face cell of
/// every boundary plane of every axis.
pub open spec fn quad_limit() -> int {
    101376int
}

pub open spec fn quad_of(d: int, plane: int, i: int, j: int, w: int, h: int, entry: MaskEntry) -> Quad {
    Quad { axis: d, plane, i, j, w, h, entry }
}

/// Appends the four vertices and two triangles of one quad.
#[allow(clippy::too_many_arguments)]
fn emit_quad(
    vertices: &mut Vec<ChunkVertex>,
    indices: &mut Vec<u32>,
    d: usize,
    u: usize,
    v: usize,
    plane: i32,
    i: i32,
    j: i32,
    w: i32,
    h: i32,
    entry: MaskEntry,
    Ghost(prev): Ghost<Seq<Quad>>,
)
    requires
        d < 3,
        u == (d + 1) % 3,
        v == (d + 2) % 3,
        quad_well_formed(quad_of(d as int, plane as int, i as int, j as int, w as int, h as int, entry)),
        vertices_encode(old(vertices)@, prev),
        indices_encode(old(indices)@, prev.len()),
        prev.len() < quad_limit(),
    ensures
        vertices_encode(
            final(vertices)@,
            prev.push(quad_of(d as int, plane as int, i as int, j as int, w as int, h as int, entry)),
        ),
        indices_encode(final(indices)@, prev.len() + 1),
{
    let ghost q = quad_of(d as int, plane as int, i as int, j as int, w as int, h as int, entry);
    let c00 = axis_point(d, plane, i, j);
    let c10 = axis_point(d, plane, i + w, j);
    let c11 = axis_point(d, plane, i + w, j + h);
    let c01 = axis_point(d, plane, i, j + h);

    // Axis `d` contributes normal index `d * 2`, plus one for the
    // negative-facing (backface) direction.
    let normal_index = (d as u32) * 2 + if entry.backface {
        1u32
    } else {
        0u32
    };
    let color = vertex_color(entry.block);
    let base = vertices.len() as u32;
    let ghost old_v = vertices@;
    let ghost old_i = indices@;

    let quad = if entry.backface {
        [c00, c01, c11, c10]
    } else {
        [c00, c10, c11, c01]
    };

    let mut t: usize = 0;
    while t < 4
        invariant
            0 <= t <= 4,
            vertices@.len() == old_v.len() + t,
            forall|m: int| 0 <= m < old_v.len() ==> vertices@[m] == old_v[m],
            forall|m: int| 0 <= m < t ==> #[trigger] vertices@[old_v.len() + m] == quad_vertex(q, m),
            quad == (if entry.backface { [c00, c01, c11, c10] } else { [c00, c10, c11, c01] }),
            normal_index as int == normal_index_spec(q),
            color == vertex_color_spec(q.entry.block),
            quad_well_formed(q),
            q == quad_of(d as int, plane as int, i as int, j as int, w as int, h as int, entry),
            (c00[0] as int, c00[1] as int, c00[2] as int) == point_on_axis(d as int, plane as int, i as int, j as int),
            (c10[0] as int, c10[1] as int, c10[2] as int) == point_on_axis(d as int, plane as int, i + w, j as int),
            (c11[0] as int, c11[1] as int, c11[2] as int) == point_on_axis(d as int, plane as int, i + w, j + h),
            (c01[0] as int, c01[1] as int, c01[2] as int) == point_on_axis(d as int, plane as int, i as int, j + h),
        decreases 4 - t,
    {
        let local = quad[t];
        let packed = pack_vertex(local, normal_index);
        vertices.push(ChunkVertex { packed, color });
        proof {
            let tt = t as int;
            assert((local[0] as int, local[1] as int, local[2] as int) == quad_corner(q, tt));
        }
        t = t + 1;
    }
    indices.push(base);
    indices.push(base + 1);
    indices.push(base + 2);
    indices.push(base);
    indices.push(base + 2);
    indices.push(base + 3);
    proof {
        let all = prev.push(q);
        assert forall|k: int, tt: int| 0 <= k < all.len() && 0 <= tt < 4 implies #[trigger] vtx(
            vertices@,
            k,
            tt,
        ) == quad_vertex(all[k], tt) by {
            if k < prev.len() {
                assert(vtx(old_v, k, tt) == quad_vertex(prev[k], tt));
            } else {
                assert(vertices@[old_v.len() + tt] == quad_vertex(q, tt));
            }
        }
        assert forall|k: int, tt: int| 0 <= k < prev.len() + 1 && 0 <= tt < 6 implies #[trigger] idx(
            indices@,
            k,
            tt,
        ) == 4 * k + tri_offset(tt) by {
            if k < prev.len() {
                assert(idx(old_i, k, tt) == 4 * k + tri_offset(tt));
            }
        }
    }
}

/// The mask entry of in-plane cell `(i, j)`.
pub open spec fn at(m: Seq<Option<MaskEntry>>, i: int, j: int) -> Option<MaskEntry> {
    m[i + j * 32]
}

pub open spec fn in_plane(i: int, j: int) -> bool {
    0 <= i < 32 && 0 <= j < 32
}

/// `quads` partition the faces of `mask` into rectangles of equal faces:
/// each quad lies on boundary `plane` of axis `d` and covers only cells
/// holding its own entry, no two quads overlap, and every face cell is
/// covered.
pub open spec fn slice_tiled(mask: Seq<Option<MaskEntry>>, quads: Seq<Quad>, d: int, plane: int) -> bool {
    &&& forall|k: int|
        0 <= k < quads.len() ==> quad_well_formed(#[trigger] quads[k]) && quads[k].axis == d
            && quads[k].plane == plane
    &&& forall|k: int, i: int, j: int|
        0 <= k < quads.len() && #[trigger] rect_covers(quads[k], i, j) ==> at(mask, i, j) == Some(
            quads[k].entry,
        )
    &&& forall|k1: int, k2: int, i: int, j: int|
        0 <= k1 < quads.len() && 0 <= k2 < quads.len() && k1 != k2 && #[trigger] rect_covers(
            quads[k1],
            i,
            j,
        ) ==> !#[trigger] rect_covers(quads[k2], i, j)
    &&& forall|i: int, j: int|
        in_plane(i, j) && (#[trigger] at(mask, i, j)) is Some ==> exists|k: int|
            0 <= k < quads.len() && #[trigger] rect_covers(quads[k], i, j)
}

/// Cell `(i, j)` of `mask` holds face `e` and no quad before `k` covers it.
pub open spec fn free_in(mask: Seq<Option<MaskEntry>>, quads: Seq<Quad>, k: int, i: int, j: int, e: MaskEntry) -> bool {
    &&& in_plane(i, j)
    &&& at(mask, i, j) == Some(e)
    &&& forall|k2: int| 0 <= k2 < k ==> !#[trigger] rect_covers(quads[k2], i, j)
}

/// Quad `k` is the greedy choice given the quads before it: it starts at
/// the first face cell (row by row) that none of them covers, is as wide as
/// the run of its face allows, and as tall as full rows of it allow.
pub open spec fn greedy_in(mask: Seq<Option<MaskEntry>>, quads: Seq<Quad>, k: int) -> bool {
    let q = quads[k];
    &&& forall|i: int, j: int|
        in_plane(i, j) && (j < q.j || (j == q.j && i < q.i)) && (#[trigger] at(mask, i, j)) is Some
            ==> exists|k2: int| 0 <= k2 < k && #[trigger] rect_covers(quads[k2], i, j)
    &&& (q.i + q.w == 32 || !free_in(mask, quads, k, q.i + q.w, q.j, q.entry))
    &&& (q.j + q.h == 32 || exists|i: int|
        q.i <= i < q.i + q.w && !#[trigger] free_in(mask, quads, k, i, q.j + q.h, q.entry))
}

/// Clears the mask cells of the `w` by `h` rectangle at `(i, j)`.
fn clear_rect(mask: &mut Vec<Option<MaskEntry>>, i: usize, j: usize, w: usize, h: usize)
    requires
        old(mask).len() == 1024,
        i + w <= 32,
        j + h <= 32,
    ensures
        final(mask).len() == 1024,
        forall|ci: int, cj: int|
            in_plane(ci, cj) ==> #[trigger] at(final(mask)@, ci, cj) == if i <= ci < i + w && j <= cj
                < j + h {
                None
            } else {
                at(old(mask)@, ci, cj)
            },
{
    let mut l: usize = 0;
    while l < h
        invariant
            mask.len() == 1024,
            i + w <= 32,
            j + h <= 32,
            l <= h,
            forall|ci: int, cj: int|
                in_plane(ci, cj) ==> #[trigger] at(mask@, ci, cj) == if i <= ci < i + w && j <= cj
                    < j + l {
                    None
                } else {
                    at(old(mask)@, ci, cj)
                },
        decreases h - l,
    {
        let mut k: usize = 0;
        while k < w
            invariant
                mask.len() == 1024,
                i + w <= 32,
                j + h <= 32,
                l < h,
                k <= w,
                forall|ci: int, cj: int|
                    in_plane(ci, cj) ==> #[trigger] at(mask@, ci, cj) == if (i <= ci < i + w && j
                        <= cj < j + l) || (cj == j + l && i <= ci < i + k) {
                        None
                    } else {
                        at(old(mask)@, ci, cj)
                    },
            decreases w - k,
        {
            let ghost before = mask@;
            mask.set(i + k + (j + l) * 32, None);
            proof {
                assert forall|ci: int, cj: int| in_plane(ci, cj) implies #[trigger] at(
                    mask@,
                    ci,
                    cj,
                ) == if (i <= ci < i + w && j <= cj < j + l) || (cj == j + l && i <= ci < i + k
                    + 1) {
                    None
                } else {
                    at(old(mask)@, ci, cj)
                } by {
                    if ci == i + k && cj == j + l {
                    } else {
                        assert(ci + cj * 32 != (i + k) + (j + l) * 32);
                        assert(at(mask@, ci, cj) == at(before, ci, cj));
                    }
                }
            }
            k = k + 1;
        }
        l = l + 1;
    }
}

fn same_entry(c: Option<MaskEntry>, entry: MaskEntry) -> (r: bool)
    ensures
        r == (c == Some(entry)),
{
    match c {
        Some(e) => e == entry,
        None => false,
    }
}

/// Whether quad `k` is greedy depends only on the quads up to `k`.
proof fn lemma_greedy_in_prefix(mask: Seq<Option<MaskEntry>>, short: Seq<Quad>, long: Seq<Quad>, k: int)
    requires
        0 <= k < short.len() <= long.len(),
        forall|k2: int| 0 <= k2 < short.len() ==> long[k2] == short[k2],
        greedy_in(mask, short, k),
    ensures
        greedy_in(mask, long, k),
{
    let q = long[k];
    assert(q == short[k]);
    assert forall|i: int, j: int|
        in_plane(i, j) && (j < q.j || (j == q.j && i < q.i)) && (#[trigger] at(mask, i, j)) is Some
            implies exists|k2: int| 0 <= k2 < k && #[trigger] rect_covers(long[k2], i, j) by {
        let k2 = choose|k2: int| 0 <= k2 < k && #[trigger] rect_covers(short[k2], i, j);
        assert(long[k2] == short[k2]);
    }
    if q.i + q.w != 32 {
        if free_in(mask, long, k, q.i + q.w, q.j, q.entry) {
            assert forall|k2: int| 0 <= k2 < k implies !#[trigger] rect_covers(short[k2], q.i + q.w, q.j) by {
                assert(long[k2] == short[k2]);
            }
        }
    }
    if q.j + q.h != 32 {
        let i = choose|i: int| q.i <= i < q.i + q.w && !#[trigger] free_in(mask, short, k, i, q.j + q.h, q.entry);
        if free_in(mask, long, k, i, q.j + q.h, q.entry) {
            assert forall|k2: int| 0 <= k2 < k implies !#[trigger] rect_covers(short[k2], i, q.j + q.h) by {
                assert(long[k2] == short[k2]);
            }
        }
    }
}

/// The quad `greedy_slice` emits next is greedy: `cur` is the mask with the
/// cells of the quads so far cleared, so a cell of `cur` holds `e` exactly
/// when it is free for `e`.
proof fn lemma_greedy_new(
    orig: Seq<Option<MaskEntry>>,
    cur: Seq<Option<MaskEntry>>,
    quads: Seq<Quad>,
    q: Quad,
    bad: int,
    grow: bool,
)
    requires
        quad_well_formed(q),
        forall|ci: int, cj: int|
            in_plane(ci, cj) && (#[trigger] at(cur, ci, cj)) is Some ==> at(cur, ci, cj) == at(orig, ci, cj)
                && forall|k: int| 0 <= k < quads.len() ==> !#[trigger] rect_covers(quads[k], ci, cj),
        forall|ci: int, cj: int|
            in_plane(ci, cj) && (#[trigger] at(orig, ci, cj)) is Some && at(cur, ci, cj) is None ==> exists|k: int|
                0 <= k < quads.len() && #[trigger] rect_covers(quads[k], ci, cj),
        forall|ci: int, cj: int|
            in_plane(ci, cj) && (cj < q.j || (cj == q.j && ci < q.i)) ==> (#[trigger] at(cur, ci, cj)) is None,
        q.i + q.w == 32 || at(cur, q.i + q.w, q.j) != Some(q.entry),
        q.j + q.h == 32 || (!grow && 0 <= bad < q.w && at(cur, q.i + bad, q.j + q.h) != Some(q.entry)),
        q.j + q.h < 32 ==> !grow,
    ensures
        greedy_in(orig, quads.push(q), quads.len() as int),
{
    let all = quads.push(q);
    let k = quads.len() as int;
    assert(all[k] == q);
    assert forall|i: int, j: int|
        in_plane(i, j) && (j < q.j || (j == q.j && i < q.i)) && (#[trigger] at(orig, i, j)) is Some
            implies exists|k2: int| 0 <= k2 < k && #[trigger] rect_covers(all[k2], i, j) by {
        assert(at(cur, i, j) is None);
        let k2 = choose|k2: int| 0 <= k2 < quads.len() && #[trigger] rect_covers(quads[k2], i, j);
        assert(all[k2] == quads[k2]);
    }
    if q.i + q.w != 32 {
        let (ci, cj) = (q.i + q.w, q.j);
        if free_in(orig, all, k, ci, cj, q.entry) {
            assert forall|k2: int| 0 <= k2 < quads.len() implies !#[trigger] rect_covers(quads[k2], ci, cj) by {
                assert(all[k2] == quads[k2]);
                assert(!rect_covers(all[k2], ci, cj));
            }
            if at(cur, ci, cj) is None {
                let k2 = choose|k2: int| 0 <= k2 < quads.len() && #[trigger] rect_covers(quads[k2], ci, cj);
            }
        }
    }
    if q.j + q.h != 32 {
        let (ci, cj) = (q.i + bad, q.j + q.h);
        if free_in(orig, all, k, ci, cj, q.entry) {
            assert forall|k2: int| 0 <= k2 < quads.len() implies !#[trigger] rect_covers(quads[k2], ci, cj) by {
                assert(all[k2] == quads[k2]);
                assert(!rect_covers(all[k2], ci, cj));
            }
            if at(cur, ci, cj) is None {
                let k2 = choose|k2: int| 0 <= k2 < quads.len() && #[trigger] rect_covers(quads[k2], ci, cj);
            }
        }
        assert(!free_in(orig, all, k, ci, cj, q.entry));
    }
}

/// Greedily merges the faces of one mask slice into maximal-width, then
/// maximal-height rectangles, emitting a quad for each and clearing the
/// mask as it goes.
fn greedy_slice(
    mask: &mut Vec<Option<MaskEntry>>,
    vertices: &mut Vec<ChunkVertex>,
    indices: &mut Vec<u32>,
    d: usize,
    plane: i32,
    Ghost(prev): Ghost<Seq<Quad>>,
) -> (new_quads: Ghost<Seq<Quad>>)
    requires
        old(mask).len() == 1024,
        d < 3,
        0 <= plane <= 32,
        forall|i: int, j: int|
            in_plane(i, j) ==> (#[trigger] at(old(mask)@, i, j) matches Some(e) ==> e.block
                < BLOCK_KINDS),
        vertices_encode(old(vertices)@, prev),
        indices_encode(old(indices)@, prev.len()),
        prev.len() + 1024 <= quad_limit(),
    ensures
        final(mask).len() == 1024,
        slice_tiled(old(mask)@, new_quads@, d as int, plane as int),
        forall|k: int| 0 <= k < new_quads@.len() ==> #[trigger] greedy_in(old(mask)@, new_quads@, k),
        new_quads@.len() <= 1024,
        vertices_encode(final(vertices)@, prev + new_quads@),
        indices_encode(final(indices)@, (prev.len() + new_quads@.len()) as nat),
{
    let ghost orig = mask@;
    let ghost mut quads: Seq<Quad> = Seq::empty();
    let mut n: usize = 0;
    let mut i: usize = 0;
    let mut j: usize = 0;
    assert(prev + quads =~= prev);
    while j < 32
        invariant
            mask.len() == 1024,
            d < 3,
            0 <= plane <= 32,
            i < 32,
            j <= 32,
            j == 32 ==> i == 0,
            n == i + j * 32,
            forall|ci: int, cj: int|
                in_plane(ci, cj) ==> (#[trigger] at(orig, ci, cj) matches Some(e) ==> e.block
                    < BLOCK_KINDS),
            forall|ci: int, cj: int|
                in_plane(ci, cj) && (#[trigger] at(mask@, ci, cj)) is Some ==> at(mask@, ci, cj)
                    == at(orig, ci, cj) && forall|k: int|
                    0 <= k < quads.len() ==> !#[trigger] rect_covers(quads[k], ci, cj),
            forall|ci: int, cj: int|
                in_plane(ci, cj) && (#[trigger] at(orig, ci, cj)) is Some && at(mask@, ci, cj)
                    is None ==> exists|k: int| 0 <= k < quads.len() && #[trigger] rect_covers(quads[k], ci, cj),
            forall|ci: int, cj: int|
                in_plane(ci, cj) && (cj < j || (cj == j && ci < i)) ==> (#[trigger] at(
                    mask@,
                    ci,
                    cj,
                )) is None,
            forall|k: int|
                0 <= k < quads.len() ==> quad_well_formed(#[trigger] quads[k]) && quads[k].axis
                    == d && quads[k].plane == plane,
            forall|k: int, ci: int, cj: int|
                0 <= k < quads.len() && #[trigger] rect_covers(quads[k], ci, cj) ==> at(orig, ci, cj)
                    == Some(quads[k].entry),
            forall|k1: int, k2: int, ci: int, cj: int|
                0 <= k1 < quads.len() && 0 <= k2 < quads.len() && k1 != k2 && #[trigger] rect_covers(
                    quads[k1],
                    ci,
                    cj,
                ) ==> !#[trigger] rect_covers(quads[k2], ci, cj),
            forall|k: int| 0 <= k < quads.len() ==> #[trigger] greedy_in(orig, quads, k),
            quads.len() <= n,
            prev.len() + 1024 <= quad_limit(),
            vertices_encode(vertices@, prev + quads),
            indices_encode(indices@, (prev.len() + quads.len()) as nat),
        decreases 1024 - n,
    {
        let cell = mask[n];
        assert(at(mask@, i as int, j as int) == cell);
        match cell {
            None => {
                i = i + 1;
                n = n + 1;
                if i == 32 {
                    i = 0;
                    j = j + 1;
                }
            },
            Some(entry) => {
                let mut w: usize = 1;
                while i + w < 32 && same_entry(mask[n + w], entry)
                    invariant
                        mask.len() == 1024,
                        i < 32,
                        j < 32,
                        n == i + j * 32,
                        1 <= w,
                        i + w <= 32,
                        forall|k: int| 0 <= k < w ==> #[trigger] at(mask@, i + k, j as int) == Some(entry),
                    decreases 32 - w,
                {
                    assert(at(mask@, i + w, j as int) == mask@[n + w]);
                    w = w + 1;
                }
                let ghost width_end = i + w == 32 || at(mask@, i + w, j as int) != Some(entry);
                assert(width_end);
                let mut h: usize = 1;
                let mut grow = true;
                let ghost mut bad: int = 0;
                while grow && j + h < 32
                    invariant
                        mask.len() == 1024,
                        i < 32,
                        j < 32,
                        n == i + j * 32,
                        1 <= w,
                        i + w <= 32,
                        1 <= h,
                        j + h <= 32,
                        forall|k: int, l: int|
                            0 <= k < w && 0 <= l < h ==> #[trigger] at(mask@, i + k, j + l) == Some(entry),
                        !grow ==> j + h < 32 && 0 <= bad < w && at(mask@, i + bad, j + h) != Some(entry),
                    decreases 33 - h - (if grow { 0int } else { 1int }),
                {
                    let mut k: usize = 0;
                    let mut row_ok = true;
                    while k < w && row_ok
                        invariant
                            mask.len() == 1024,
                            i + w <= 32,
                            j + h < 32,
                            n == i + j * 32,
                            k <= w,
                            row_ok ==> forall|k2: int|
                                0 <= k2 < k ==> #[trigger] at(mask@, i + k2, (j + h) as int) == Some(entry),
                            !row_ok ==> k < w && at(mask@, i + k, (j + h) as int) != Some(entry),
                        decreases w + 1 - k - (if row_ok { 0int } else { 1int }),
                    {
                        assert(at(mask@, i + k, (j + h) as int) == mask@[n + k + h * 32]);
                        if !same_entry(mask[n + k + h * 32], entry) {
                            row_ok = false;
                        } else {
                            k = k + 1;
                        }
                    }
                    if row_ok {
                        h = h + 1;
                    } else {
                        proof {
                            bad = k as int;
                        }
                        grow = false;
                    }
                }
                let ghost q = quad_of(d as int, plane as int, i as int, j as int, w as int, h as int, entry);
                proof {
                    assert(at(orig, i as int, j as int) == Some(entry));
                    assert forall|ci: int, cj: int| #[trigger] rect_covers(q, ci, cj) implies at(
                        mask@,
                        ci,
                        cj,
                    ) == Some(entry) by {
                        assert(at(mask@, i + (ci - i), j + (cj - j)) == Some(entry));
                    }
                }
                emit_quad(
                    vertices,
                    indices,
                    d,
                    (d + 1) % 3,
                    (d + 2) % 3,
                    plane,
                    i as i32,
                    j as i32,
                    w as i32,
                    h as i32,
                    entry,
                    Ghost(prev + quads),
                );
                let ghost before = mask@;
                clear_rect(mask, i, j, w, h);
                proof {
                    let old_quads = quads;
                    quads = quads.push(q);
                    assert((prev + old_quads).push(q) =~= prev + quads);
                    assert forall|ci: int, cj: int|
                        in_plane(ci, cj) && (#[trigger] at(mask@, ci, cj)) is Some implies at(
                            mask@,
                            ci,
                            cj,
                        ) == at(orig, ci, cj) && forall|k: int|
                            0 <= k < quads.len() ==> !#[trigger] rect_covers(quads[k], ci, cj) by {
                        assert(!rect_covers(q, ci, cj));
                        assert(at(before, ci, cj) is Some);
                        assert forall|k: int| 0 <= k < quads.len() implies !#[trigger] rect_covers(
                            quads[k],
                            ci,
                            cj,
                        ) by {
                            if k < old_quads.len() {
                                assert(quads[k] == old_quads[k]);
                            }
                        }
                    }
                    assert forall|ci: int, cj: int|
                        in_plane(ci, cj) && (#[trigger] at(orig, ci, cj)) is Some && at(mask@, ci, cj)
                            is None implies exists|k: int|
                        0 <= k < quads.len() && #[trigger] rect_covers(quads[k], ci, cj) by {
                        if rect_covers(q, ci, cj) {
                            assert(quads[old_quads.len() as int] == q);
                        } else {
                            let k = choose|k: int|
                                0 <= k < old_quads.len() && #[trigger] rect_covers(old_quads[k], ci, cj);
                            assert(quads[k] == old_quads[k]);
                        }
                    }
                    assert forall|k: int|
                        0 <= k < quads.len() implies quad_well_formed(#[trigger] quads[k])
                            && quads[k].axis == d && quads[k].plane == plane by {
                        if k < old_quads.len() {
                            assert(quads[k] == old_quads[k]);
                        }
                    }
                    assert forall|k: int| 0 <= k < quads.len() implies #[trigger] greedy_in(orig, quads, k) by {
                        if k < old_quads.len() {
                            assert(greedy_in(orig, old_quads, k));
                            lemma_greedy_in_prefix(orig, old_quads, quads, k);
                        } else {
                            lemma_greedy_new(orig, before, old_quads, q, bad, grow);
                        }
                    }
                    assert forall|k: int, ci: int, cj: int|
                        0 <= k < quads.len() && #[trigger] rect_covers(quads[k], ci, cj) implies at(
                            orig,
                            ci,
                            cj,
                        ) == Some(quads[k].entry) by {
                        if k < old_quads.len() {
                            assert(quads[k] == old_quads[k]);
                        } else {
                            assert(at(before, ci, cj) == Some(entry));
                        }
                    }
                    assert forall|k1: int, k2: int, ci: int, cj: int|
                        0 <= k1 < quads.len() && 0 <= k2 < quads.len() && k1 != k2
                            && #[trigger] rect_covers(quads[k1], ci, cj) implies !#[trigger] rect_covers(
                        quads[k2],
                        ci,
                        cj,
                    ) by {
                        if k1 < old_quads.len() && k2 < old_quads.len() {
                            assert(quads[k1] == old_quads[k1]);
                            assert(quads[k2] == old_quads[k2]);
                        } else if k1 < old_quads.len() {
                            assert(quads[k1] == old_quads[k1]);
                            assert(quads[k2] == q);
                            if rect_covers(q, ci, cj) {
                                assert(at(before, ci, cj) == Some(entry));
                            }
                        } else {
                            assert(quads[k2] == old_quads[k2]);
                            assert(quads[k1] == q);
                            assert(at(before, ci, cj) == Some(entry));
                        }
                    }
                }
                i = i + w;
                n = n + w;
                if i == 32 {
                    i = 0;
                    j = j + 1;
                }
            },
        }
    }
    proof {
        assert forall|ci: int, cj: int|
            in_plane(ci, cj) && (#[trigger] at(orig, ci, cj)) is Some implies exists|k: int|
                0 <= k < quads.len() && #[trigger] rect_covers(quads[k], ci, cj) by {
            assert(at(mask@, ci, cj) is None);
        }
    }
    Ghost(quads)
}

/// The slices already meshed: every boundary plane of axes before `d`, and
/// the planes before `next_plane` of axis `d`.
pub open spec fn slice_done(axis: int, plane: int, d: int, next_plane: int) -> bool {
    axis < d || (axis == d && plane < next_plane)
}

/// No quad before `k` on the slice of quad `k` covers cell `(i, j)`.
pub open spec fn uncovered_before(quads: Seq<Quad>, k: int, i: int, j: int) -> bool {
    forall|k2: int|
        0 <= k2 < k && quads[k2].axis == quads[k].axis && quads[k2].plane == quads[k].plane
            ==> !#[trigger] rect_covers(quads[k2], i, j)
}

/// Cell `(i, j)` of the slice of quad `k` shows face `e`, and no quad
/// before `k` on that slice covers it.
pub open spec fn open_face(
    world: Map<ChunkPos, Chunk>,
    c: ChunkPos,
    quads: Seq<Quad>,
    k: int,
    i: int,
    j: int,
    e: MaskEntry,
) -> bool {
    &&& in_plane(i, j)
    &&& face(world, c, quads[k].axis, quads[k].plane, i, j) == Some(e)
    &&& uncovered_before(quads, k, i, j)
}

/// Quad `k` is the greedy choice on its slice given the quads before it:
/// it starts at the first face (row by row) that none of them covers, is as
/// wide as the run of its face allows, and as tall as full rows of it allow.
pub open spec fn greedy_at(world: Map<ChunkPos, Chunk>, c: ChunkPos, quads: Seq<Quad>, k: int) -> bool {
    let q = quads[k];
    &&& forall|i: int, j: int|
        in_plane(i, j) && (j < q.j || (j == q.j && i < q.i)) && (#[trigger] face(world, c, q.axis, q.plane, i, j))
            is Some ==> !uncovered_before(quads, k, i, j)
    &&& (q.i + q.w == 32 || !open_face(world, c, quads, k, q.i + q.w, q.j, q.entry))
    &&& (q.j + q.h == 32 || exists|i: int|
        q.i <= i < q.i + q.w && !#[trigger] open_face(world, c, quads, k, i, q.j + q.h, q.entry))
}

/// The quads come slice by slice: by axis, then by plane.
pub open spec fn slices_in_order(quads: Seq<Quad>) -> bool {
    forall|k1: int, k2: int|
        0 <= k1 < k2 < quads.len() ==> (#[trigger] quads[k1]).axis < (#[trigger] quads[k2]).axis || (
        quads[k1].axis == quads[k2].axis && quads[k1].plane <= quads[k2].plane)
}

/// `quads` greedily tile exactly the faces of the meshed slices of chunk
/// `c`: each is well formed and lies on a meshed slice, covers only faces
/// equal to its entry, no two quads of a slice overlap, every face of a
/// meshed slice is covered, the quads come slice by slice, and each is the
/// greedy choice on its slice.
pub open spec fn tiles_faces_upto(
    world: Map<ChunkPos, Chunk>,
    c: ChunkPos,
    quads: Seq<Quad>,
    d: int,
    next_plane: int,
) -> bool {
    &&& forall|k: int|
        0 <= k < quads.len() ==> quad_well_formed(#[trigger] quads[k]) && slice_done(
            quads[k].axis,
            quads[k].plane,
            d,
            next_plane,
        )
    &&& forall|k: int, i: int, j: int|
        0 <= k < quads.len() && #[trigger] rect_covers(quads[k], i, j) ==> face(
            world,
            c,
            quads[k].axis,
            quads[k].plane,
            i,
            j,
        ) == Some(quads[k].entry)
    &&& forall|k1: int, k2: int, i: int, j: int|
        0 <= k1 < quads.len() && 0 <= k2 < quads.len() && k1 != k2 && quads[k1].axis
            == quads[k2].axis && quads[k1].plane == quads[k2].plane && #[trigger] rect_covers(
            quads[k1],
            i,
            j,
        ) ==> !#[trigger] rect_covers(quads[k2], i, j)
    &&& forall|a: int, pl: int, i: int, j: int|
        0 <= a < 3 && 0 <= pl <= 32 && in_plane(i, j) && slice_done(a, pl, d, next_plane) && (
        #[trigger] face(world, c, a, pl, i, j)) is Some ==> exists|k: int|
            0 <= k < quads.len() && quads[k].axis == a && quads[k].plane == pl
                && #[trigger] rect_covers(quads[k], i, j)
    &&& slices_in_order(quads)
    &&& forall|k: int| 0 <= k < quads.len() ==> #[trigger] greedy_at(world, c, quads, k)
}

/// `quads` greedily tile exactly the visible faces of chunk `c`.
pub open spec fn tiles_faces(world: Map<ChunkPos, Chunk>, c: ChunkPos, quads: Seq<Quad>) -> bool {
    tiles_faces_upto(world, c, quads, 3, 0)
}

/// `mesh` is the encoding of the greedy tiling of the visible faces of
/// chunk `c`.
pub open spec fn meshes_chunk(world: Map<ChunkPos, Chunk>, c: ChunkPos, mesh: ChunkMesh) -> bool {
    exists|quads: Seq<Quad>|
        #![trigger tiles_faces(world, c, quads)]
        tiles_faces(world, c, quads) && vertices_encode(mesh.vertices@, quads) && indices_encode(
            mesh.indices@,
            quads.len(),
        )
}


proof fn lemma_faces_known(
    wv: Map<ChunkPos, Chunk>,
    c: ChunkPos,
    mask: Seq<Option<MaskEntry>>,
    d: int,
    plane: int,
)
    requires
        0 <= d < 3,
        0 <= plane <= 32,
        blocks_known_near(wv, c),
        forall|ci: int, cj: int|
            in_plane(ci, cj) ==> #[trigger] at(mask, ci, cj) == face(wv, c, d, plane, ci, cj),
    ensures
        forall|ci: int, cj: int|
            in_plane(ci, cj) ==> (#[trigger] at(mask, ci, cj) matches Some(e) ==> e.block
                < BLOCK_KINDS),
{
    assert forall|ci: int, cj: int| in_plane(ci, cj) implies (#[trigger] at(
        mask,
        ci,
        cj,
    ) matches Some(e) ==> e.block < BLOCK_KINDS) by {
        let pa = point_on_axis(d, plane - 1, ci, cj);
        let pb = point_on_axis(d, plane, ci, cj);
        assert(block_near(wv, c, (pa.0, pa.1, pa.2)) < BLOCK_KINDS);
        assert(block_near(wv, c, (pb.0, pb.1, pb.2)) < BLOCK_KINDS);
    }
}

/// Adding the tiling of the next slice extends a tiling of the slices
/// before it.
proof fn lemma_add_slice(
    wv: Map<ChunkPos, Chunk>,
    chunk_pos: ChunkPos,
    old_quads: Seq<Quad>,
    nq: Seq<Quad>,
    mask_view: Seq<Option<MaskEntry>>,
    d: int,
    plane: int,
)
    requires
        0 <= d < 3,
        0 <= plane <= 32,
        tiles_faces_upto(wv, chunk_pos, old_quads, d, plane),
        slice_tiled(mask_view, nq, d, plane),
        forall|k: int| 0 <= k < nq.len() ==> #[trigger] greedy_in(mask_view, nq, k),
        forall|ci: int, cj: int|
            in_plane(ci, cj) ==> #[trigger] at(mask_view, ci, cj) == face(wv, chunk_pos, d, plane, ci, cj),
    ensures
        tiles_faces_upto(wv, chunk_pos, old_quads + nq, d, plane + 1),
{
    let quads = old_quads + nq;
    let ol = old_quads.len();
    assert forall|k: int| 0 <= k < quads.len() implies quad_well_formed(
        #[trigger] quads[k],
    ) && slice_done(quads[k].axis, quads[k].plane, d, plane + 1) by {
        if k < ol {
            assert(quads[k] == old_quads[k]);
        } else {
            assert(quads[k] == nq[k - ol]);
        }
    }
    assert forall|k: int, i: int, j: int|
        0 <= k < quads.len() && #[trigger] rect_covers(quads[k], i, j) implies face(
            wv,
            chunk_pos,
            quads[k].axis,
            quads[k].plane,
            i,
            j,
        ) == Some(quads[k].entry) by {
        if k < ol {
            assert(quads[k] == old_quads[k]);
        } else {
            assert(quads[k] == nq[k - ol]);
            assert(rect_covers(nq[k - ol], i, j));
            assert(at(mask_view, i, j) == Some(nq[k - ol].entry));
        }
    }
    assert forall|k1: int, k2: int, i: int, j: int|
        0 <= k1 < quads.len() && 0 <= k2 < quads.len() && k1 != k2 && quads[k1].axis
            == quads[k2].axis && quads[k1].plane == quads[k2].plane
            && #[trigger] rect_covers(quads[k1], i, j) implies !#[trigger] rect_covers(
        quads[k2],
        i,
        j,
    ) by {
        if k1 < ol && k2 < ol {
            assert(quads[k1] == old_quads[k1]);
            assert(quads[k2] == old_quads[k2]);
        } else if k1 >= ol && k2 >= ol {
            assert(quads[k1] == nq[k1 - ol]);
            assert(quads[k2] == nq[k2 - ol]);
            assert(rect_covers(nq[k1 - ol], i, j));
        } else if k1 < ol {
            assert(quads[k1] == old_quads[k1]);
            assert(quads[k2] == nq[k2 - ol]);
        } else {
            assert(quads[k2] == old_quads[k2]);
            assert(quads[k1] == nq[k1 - ol]);
        }
    }
    assert forall|a: int, pl: int, i: int, j: int|
        0 <= a < 3 && 0 <= pl <= 32 && in_plane(i, j) && slice_done(a, pl, d, plane + 1)
            && (#[trigger] face(wv, chunk_pos, a, pl, i, j)) is Some implies exists|k: int|
        0 <= k < quads.len() && quads[k].axis == a && quads[k].plane == pl
            && #[trigger] rect_covers(quads[k], i, j) by {
        if slice_done(a, pl, d, plane) {
            let k = choose|k: int|
                0 <= k < ol && old_quads[k].axis == a && old_quads[k].plane == pl
                    && #[trigger] rect_covers(old_quads[k], i, j);
            assert(quads[k] == old_quads[k]);
        } else {
            assert(a == d && pl == plane);
            assert(at(mask_view, i, j) == face(wv, chunk_pos, a, pl, i, j));
            let k = choose|k: int| 0 <= k < nq.len() && #[trigger] rect_covers(nq[k], i, j);
            assert(quads[ol + k] == nq[k]);
        }
    }
    assert forall|k1: int, k2: int| 0 <= k1 < k2 < quads.len() implies (#[trigger] quads[k1]).axis < (
    #[trigger] quads[k2]).axis || (quads[k1].axis == quads[k2].axis && quads[k1].plane <= quads[k2].plane) by {
        if k2 < ol {
            assert(quads[k1] == old_quads[k1]);
            assert(quads[k2] == old_quads[k2]);
        } else if k1 < ol {
            assert(quads[k1] == old_quads[k1]);
            assert(quads[k2] == nq[k2 - ol]);
        } else {
            assert(quads[k1] == nq[k1 - ol]);
            assert(quads[k2] == nq[k2 - ol]);
        }
    }
    assert forall|k: int| 0 <= k < quads.len() implies #[trigger] greedy_at(wv, chunk_pos, quads, k) by {
        if k < ol {
            assert(greedy_at(wv, chunk_pos, old_quads, k));
            lemma_greedy_at_prefix(wv, chunk_pos, old_quads, quads, k);
        } else {
            assert(greedy_in(mask_view, nq, k - ol));
            lemma_greedy_at_new(wv, chunk_pos, old_quads, nq, mask_view, d, plane, k);
        }
    }
}

/// Whether quad `k` is greedy depends only on the quads up to `k`.
proof fn lemma_greedy_at_prefix(wv: Map<ChunkPos, Chunk>, c: ChunkPos, short: Seq<Quad>, long: Seq<Quad>, k: int)
    requires
        0 <= k < short.len() <= long.len(),
        forall|k2: int| 0 <= k2 < short.len() ==> long[k2] == short[k2],
        greedy_at(wv, c, short, k),
    ensures
        greedy_at(wv, c, long, k),
{
    let q = long[k];
    assert(q == short[k]);
    assert forall|i: int, j: int| uncovered_before(long, k, i, j) == uncovered_before(short, k, i, j) by {
        if uncovered_before(short, k, i, j) {
            assert forall|k2: int|
                0 <= k2 < k && long[k2].axis == long[k].axis && long[k2].plane == long[k].plane
                    implies !#[trigger] rect_covers(long[k2], i, j) by {
                assert(long[k2] == short[k2]);
            }
        }
        if uncovered_before(long, k, i, j) {
            assert forall|k2: int|
                0 <= k2 < k && short[k2].axis == short[k].axis && short[k2].plane == short[k].plane
                    implies !#[trigger] rect_covers(short[k2], i, j) by {
                assert(long[k2] == short[k2]);
            }
        }
    }
    if q.j + q.h != 32 {
        let i = choose|i: int| q.i <= i < q.i + q.w && !#[trigger] open_face(wv, c, short, k, i, q.j + q.h, q.entry);
        assert(!open_face(wv, c, long, k, i, q.j + q.h, q.entry));
    }
}

/// A quad of the newest slice is greedy among all quads when it is greedy
/// among the quads of its slice.
proof fn lemma_greedy_at_new(
    wv: Map<ChunkPos, Chunk>,
    c: ChunkPos,
    old_quads: Seq<Quad>,
    nq: Seq<Quad>,
    mask_view: Seq<Option<MaskEntry>>,
    d: int,
    plane: int,
    k: int,
)
    requires
        old_quads.len() <= k < old_quads.len() + nq.len(),
        forall|k2: int| 0 <= k2 < old_quads.len() ==> slice_done(#[trigger] old_quads[k2].axis, old_quads[k2].plane, d, plane),
        forall|k2: int| 0 <= k2 < nq.len() ==> (#[trigger] nq[k2]).axis == d && nq[k2].plane == plane,
        greedy_in(mask_view, nq, k - old_quads.len()),
        forall|ci: int, cj: int|
            in_plane(ci, cj) ==> #[trigger] at(mask_view, ci, cj) == face(wv, c, d, plane, ci, cj),
    ensures
        greedy_at(wv, c, old_quads + nq, k),
{
    let quads = old_quads + nq;
    let ol = old_quads.len() as int;
    let kl = k - ol;
    let q = quads[k];
    assert(q == nq[kl]);
    assert(q.axis == d && q.plane == plane);
    // On this slice, the quads before `k` are the slice's quads before `kl`.
    assert forall|i: int, j: int|
        uncovered_before(quads, k, i, j) <==> forall|k2: int| 0 <= k2 < kl ==> !#[trigger] rect_covers(nq[k2], i, j) by {
        if uncovered_before(quads, k, i, j) {
            assert forall|k2: int| 0 <= k2 < kl implies !#[trigger] rect_covers(nq[k2], i, j) by {
                assert(quads[ol + k2] == nq[k2]);
                assert(!rect_covers(quads[ol + k2], i, j));
            }
        }
        if forall|k2: int| 0 <= k2 < kl ==> !#[trigger] rect_covers(nq[k2], i, j) {
            assert forall|k2: int|
                0 <= k2 < k && quads[k2].axis == quads[k].axis && quads[k2].plane == quads[k].plane
                    implies !#[trigger] rect_covers(quads[k2], i, j) by {
                if k2 < ol {
                    assert(quads[k2] == old_quads[k2]);
                    assert(slice_done(old_quads[k2].axis, old_quads[k2].plane, d, plane));
                } else {
                    assert(quads[k2] == nq[k2 - ol]);
                }
            }
        }
    }
    assert forall|i: int, j: int|
        in_plane(i, j) && (j < q.j || (j == q.j && i < q.i)) && (#[trigger] face(wv, c, q.axis, q.plane, i, j))
            is Some implies !uncovered_before(quads, k, i, j) by {
        assert(at(mask_view, i, j) is Some);
        let k2 = choose|k2: int| 0 <= k2 < kl && #[trigger] rect_covers(nq[k2], i, j);
    }
    if q.i + q.w != 32 {
        if open_face(wv, c, quads, k, q.i + q.w, q.j, q.entry) {
            assert(at(mask_view, q.i + q.w, q.j) == Some(q.entry));
            assert(free_in(mask_view, nq, kl, q.i + q.w, q.j, q.entry));
        }
    }
    if q.j + q.h != 32 {
        let i = choose|i: int| q.i <= i < q.i + q.w && !#[trigger] free_in(mask_view, nq, kl, i, q.j + q.h, q.entry);
        if open_face(wv, c, quads, k, i, q.j + q.h, q.entry) {
            assert(at(mask_view, i, q.j + q.h) == Some(q.entry));
            assert(free_in(mask_view, nq, kl, i, q.j + q.h, q.entry));
        }
        assert(!open_face(wv, c, quads, k, i, q.j + q.h, q.entry));
    }
}

/// Whether the block at a chunk-local point (possibly in a neighboring
/// chunk) is solid, and which block it is.
fn solid_block_at(
    world: &World,
    this_chunk: Option<&Chunk>,
    chunk_pos: ChunkPos,
    origin: Pos3,
    local: [i32; 3],
) -> (r: Option<BlockId>)
    requires
        mesh_pos_ok(chunk_pos),
        blocks_known_near(world@, chunk_pos),
        (origin.x as int, origin.y as int, origin.z as int) == super::origin_of(chunk_pos),
        match this_chunk {
            Some(ch) => world@.contains_key(chunk_pos) && *ch == world@[chunk_pos],
            None => !world@.contains_key(chunk_pos),
        },
        -1 <= local[0] <= 32,
        -1 <= local[1] <= 32,
        -1 <= local[2] <= 32,
    ensures
        r == solid_near(world@, chunk_pos, (local[0] as int, local[1] as int, local[2] as int)),
{
    let ghost p = (local[0] as int, local[1] as int, local[2] as int);
    assert(block_near(world@, chunk_pos, p) < BLOCK_KINDS);
    let id = if 0 <= local[0] && local[0] < 32 && 0 <= local[1] && local[1] < 32 && 0 <= local[2]
        && local[2] < 32 {
        proof {
            lemma_div32(chunk_pos.x as int, p.0);
            lemma_div32(chunk_pos.y as int, p.1);
            lemma_div32(chunk_pos.z as int, p.2);
        }
        match this_chunk {
            Some(chunk) => chunk.get(local[0] as usize, local[1] as usize, local[2] as usize),
            None => super::block::AIR,
        }
    } else {
        world.get_block(Pos3::new(origin.x + local[0], origin.y + local[1], origin.z + local[2]))
    };
    if is_solid(id) {
        Some(id)
    } else {
        None
    }
}

/// Greedy-meshes a single chunk against the live world (so faces against
/// already-loaded neighbor chunks are culled correctly, not just faces
/// against air within the chunk itself).
pub fn mesh_chunk(world: &World, chunk_pos: ChunkPos) -> (mesh: ChunkMesh)
    requires
        mesh_pos_ok(chunk_pos),
        blocks_known_near(world@, chunk_pos),
    ensures
        meshes_chunk(world@, chunk_pos, mesh),
{
    let mut vertices: Vec<ChunkVertex> = Vec::new();
    let mut indices: Vec<u32> = Vec::new();
    let origin = chunk_origin(chunk_pos);
    // Of the three axes checked per voxel face, only the swept axis ever
    // steps outside this chunk, so most lookups go straight to this chunk.
    let this_chunk = world.chunk(chunk_pos);
    let ghost wv = world@;
    let ghost mut quads: Seq<Quad> = Seq::empty();
    let mut d: usize = 0;
    while d < 3
        invariant
            d <= 3,
            wv == world@,
            mesh_pos_ok(chunk_pos),
            blocks_known_near(wv, chunk_pos),
            (origin.x as int, origin.y as int, origin.z as int) == super::origin_of(chunk_pos),
            match this_chunk {
                Some(ch) => wv.contains_key(chunk_pos) && *ch == wv[chunk_pos],
                None => !wv.contains_key(chunk_pos),
            },
            tiles_faces_upto(wv, chunk_pos, quads, d as int, 0),
            quads.len() <= d * 33 * 1024,
            vertices_encode(vertices@, quads),
            indices_encode(indices@, quads.len()),
        decreases 3 - d,
    {
        let u = (d + 1) % 3;
        let v = (d + 2) % 3;
        let mut mask: Vec<Option<MaskEntry>> = Vec::new();
        while mask.len() < 1024
            invariant
                mask.len() <= 1024,
            decreases 1024 - mask.len(),
        {
            mask.push(None);
        }
        assert(tiles_faces_upto(wv, chunk_pos, quads, d as int, 0));
        let mut layer: i32 = -1;
        while layer < 32
            invariant
                d < 3,
                u == (d + 1) % 3,
                v == (d + 2) % 3,
                -1 <= layer <= 32,
                mask.len() == 1024,
                wv == world@,
                mesh_pos_ok(chunk_pos),
                blocks_known_near(wv, chunk_pos),
                (origin.x as int, origin.y as int, origin.z as int) == super::origin_of(chunk_pos),
                match this_chunk {
                    Some(ch) => wv.contains_key(chunk_pos) && *ch == wv[chunk_pos],
                    None => !wv.contains_key(chunk_pos),
                },
                tiles_faces_upto(wv, chunk_pos, quads, d as int, layer + 1),
                quads.len() <= d * 33 * 1024 + (layer + 1) * 1024,
                vertices_encode(vertices@, quads),
                indices_encode(indices@, quads.len()),
            decreases 32 - layer,
        {
            let plane = layer + 1;
            let mut cv: usize = 0;
            while cv < 32
                invariant
                    d < 3,
                    -1 <= layer < 32,
                    plane == layer + 1,
                    mask.len() == 1024,
                    cv <= 32,
                    wv == world@,
                    mesh_pos_ok(chunk_pos),
                    blocks_known_near(wv, chunk_pos),
                    (origin.x as int, origin.y as int, origin.z as int) == super::origin_of(chunk_pos),
                    match this_chunk {
                        Some(ch) => wv.contains_key(chunk_pos) && *ch == wv[chunk_pos],
                        None => !wv.contains_key(chunk_pos),
                    },
                    forall|ci: int, cj: int|
                        in_plane(ci, cj) && cj < cv ==> #[trigger] at(mask@, ci, cj) == face(
                            wv,
                            chunk_pos,
                            d as int,
                            plane as int,
                            ci,
                            cj,
                        ),
                decreases 32 - cv,
            {
                let mut cu: usize = 0;
                while cu < 32
                    invariant
                        d < 3,
                        -1 <= layer < 32,
                        plane == layer + 1,
                        mask.len() == 1024,
                        cv < 32,
                        cu <= 32,
                        wv == world@,
                        mesh_pos_ok(chunk_pos),
                        blocks_known_near(wv, chunk_pos),
                        (origin.x as int, origin.y as int, origin.z as int) == super::origin_of(
                            chunk_pos,
                        ),
                        match this_chunk {
                            Some(ch) => wv.contains_key(chunk_pos) && *ch == wv[chunk_pos],
                            None => !wv.contains_key(chunk_pos),
                        },
                        forall|ci: int, cj: int|
                            in_plane(ci, cj) && (cj < cv || (cj == cv && ci < cu))
                                ==> #[trigger] at(mask@, ci, cj) == face(
                                wv,
                                chunk_pos,
                                d as int,
                                plane as int,
                                ci,
                                cj,
                            ),
                    decreases 32 - cu,
                {
                    let a = solid_block_at(
                        world,
                        this_chunk,
                        chunk_pos,
                        origin,
                        axis_point(d, layer, cu as i32, cv as i32),
                    );
                    let b = solid_block_at(
                        world,
                        this_chunk,
                        chunk_pos,
                        origin,
                        axis_point(d, plane, cu as i32, cv as i32),
                    );
                    let entry = match (a, b) {
                        (Some(block), None) => Some(MaskEntry { block, backface: false }),
                        (None, Some(block)) => Some(MaskEntry { block, backface: true }),
                        _ => None,
                    };
                    let ghost before = mask@;
                    mask.set(cu + cv * 32, entry);
                    proof {
                        assert(entry == face(wv, chunk_pos, d as int, plane as int, cu as int, cv as int));
                        assert forall|ci: int, cj: int|
                            in_plane(ci, cj) && (cj < cv || (cj == cv && ci < cu + 1))
                                implies #[trigger] at(mask@, ci, cj) == face(
                                wv,
                                chunk_pos,
                                d as int,
                                plane as int,
                                ci,
                                cj,
                            ) by {
                            if ci == cu && cj == cv {
                            } else {
                                assert(ci + cj * 32 != cu + cv * 32);
                                assert(at(mask@, ci, cj) == at(before, ci, cj));
                            }
                        }
                    }
                    cu = cu + 1;
                }
                cv = cv + 1;
            }
            proof {
                lemma_faces_known(wv, chunk_pos, mask@, d as int, plane as int);
            }
            let ghost mask_view = mask@;
            let ghost old_quads = quads;
            let new_quads = greedy_slice(
                &mut mask,
                &mut vertices,
                &mut indices,
                d,
                plane,
                Ghost(quads),
            );
            proof {
                lemma_add_slice(wv, chunk_pos, old_quads, new_quads@, mask_view, d as int, plane as int);
                quads = old_quads + new_quads@;
            }
            layer = layer + 1;
        }
        proof {
            assert forall|k: int| 0 <= k < quads.len() implies slice_done(
                #[trigger] quads[k].axis,
                quads[k].plane,
                d + 1,
                0,
            ) by {}
        }
        d = d + 1;
    }
    let mesh = ChunkMesh { vertices, indices };
    assert(tiles_faces(wv, chunk_pos, quads));
    mesh
}

} // verus!
