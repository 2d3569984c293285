//! Loads, unloads and remeshes chunk columns around a moving focus point:
//! which columns to load (nearest first, within a per-call budget) and to
//! drop, the world updates, and which chunks need new meshes. Terrain comes
//! from a caller-supplied column generator.

use super::chunk::Chunk;
use super::meshing::{ChunkMesh, lemma_world_known_near, mesh_chunk, mesh_pos_ok, meshes_chunk, world_known};
use super::block::BLOCK_KINDS;
use super::chunk::VOLUME;
use super::generation::VERTICAL_CHUNKS;
use super::{ChunkPos, Pos3, World};
use std::collections::HashSet;
use vstd::prelude::*;

verus! {

broadcast use vstd::std_specs::hash::group_hash_axioms;

/// (x, z) chunk-column coordinate: one column covers every chunk from
/// y = 0..VERTICAL_CHUNKS at that x/z, and is the unit of loading/unloading.
pub type ColumnPos = (i32, i32);

/// Injective encoding of a column as a set key.
pub open spec fn col_key(c: ColumnPos) -> u64 {
    ((c.0 as int + 0x8000_0000) * 0x1_0000_0000 + (c.1 as int + 0x8000_0000)) as u64
}

pub open spec fn key_col(k: u64) -> ColumnPos {
    ((k as int / 0x1_0000_0000 - 0x8000_0000) as i32, (k as int % 0x1_0000_0000 - 0x8000_0000) as i32)
}

proof fn lemma_col_key(c: ColumnPos)
    ensures
        key_col(col_key(c)) == c,
        0 <= (c.0 as int + 0x8000_0000) * 0x1_0000_0000 + (c.1 as int + 0x8000_0000) <= u64::MAX,
{
    let a = c.0 as int + 0x8000_0000;
    let b = c.1 as int + 0x8000_0000;
    assert(0 <= a * 0x1_0000_0000 + b <= u64::MAX) by (nonlinear_arith)
        requires
            0 <= a < 0x1_0000_0000,
            0 <= b < 0x1_0000_0000,
    ;
    vstd::arithmetic::div_mod::lemma_fundamental_div_mod_converse(
        a * 0x1_0000_0000 + b,
        0x1_0000_0000,
        a,
        b,
    );
}

proof fn lemma_key_col(k: u64)
    ensures
        col_key(key_col(k)) == k,
{
    let a = k as int / 0x1_0000_0000;
    let b = k as int % 0x1_0000_0000;
    assert(0 <= a < 0x1_0000_0000) by {
        vstd::arithmetic::div_mod::lemma_div_pos_is_pos(k as int, 0x1_0000_0000);
        vstd::arithmetic::div_mod::lemma_div_is_ordered(k as int, u64::MAX as int, 0x1_0000_0000);
    }
    vstd::arithmetic::div_mod::lemma_fundamental_div_mod(k as int, 0x1_0000_0000);
}

proof fn lemma_col_key_injective(a: ColumnPos, b: ColumnPos)
    ensures
        col_key(a) == col_key(b) ==> a == b,
{
    lemma_col_key(a);
    lemma_col_key(b);
}

fn column_key(c: ColumnPos) -> (k: u64)
    ensures
        k == col_key(c),
{
    proof {
        lemma_col_key(c);
    }
    let a = (c.0 as i64 + 0x8000_0000) as u64;
    let b = (c.1 as i64 + 0x8000_0000) as u64;
    a * 0x1_0000_0000 + b
}

fn key_column(k: u64) -> (c: ColumnPos)
    ensures
        c == key_col(k),
{
    proof {
        lemma_key_col(k);
    }
    let a = (k / 0x1_0000_0000) as i64 - 0x8000_0000;
    let b = (k % 0x1_0000_0000) as i64 - 0x8000_0000;
    (a as i32, b as i32)
}

/// Squared Euclidean distance between two columns.
pub open spec fn dist2(a: ColumnPos, b: ColumnPos) -> int {
    (a.0 - b.0) * (a.0 - b.0) + (a.1 - b.1) * (a.1 - b.1)
}

fn column_dist_sq(a: ColumnPos, b: ColumnPos) -> (r: i128)
    ensures
        r == dist2(a, b),
{
    let dx = a.0 as i128 - b.0 as i128;
    let dz = a.1 as i128 - b.1 as i128;
    assert(0 <= dx * dx <= 0x1_0000_0000_0000_0000) by (nonlinear_arith)
        requires
            -0x1_0000_0000 <= dx <= 0x1_0000_0000,
    ;
    assert(0 <= dz * dz <= 0x1_0000_0000_0000_0000) by (nonlinear_arith)
        requires
            -0x1_0000_0000 <= dz <= 0x1_0000_0000,
    ;
    dx * dx + dz * dz
}

/// Columns whose neighbors, and whose chunks' block coordinates (with a
/// one-block margin), are representable: the columns that can be streamed.
pub open spec fn col_interior(c: ColumnPos) -> bool {
    -0x400_0000 < c.0 < 0x400_0000 - 1 && -0x400_0000 < c.1 < 0x400_0000 - 1
}

/// Inside the load region of radius `r` around `center`: within `r` along
/// both axes and within Euclidean distance `r` (a disc, not a square).
pub open spec fn in_load_disk(center: ColumnPos, r: int, c: ColumnPos) -> bool {
    &&& -r <= c.0 - center.0 <= r
    &&& -r <= c.1 - center.1 <= r
    &&& dist2(center, c) <= r * r
}

/// A column that should be loaded but is not yet.
pub open spec fn load_candidate(center: ColumnPos, r: int, loaded: Set<ColumnPos>, c: ColumnPos) -> bool {
    in_load_disk(center, r, c) && !loaded.contains(c)
}

/// Loading order: nearer columns first; equally near ones by z, then by x.
pub open spec fn load_before(center: ColumnPos, a: ColumnPos, b: ColumnPos) -> bool {
    let da = dist2(center, a);
    let db = dist2(center, b);
    da < db || (da == db && (a.1 < b.1 || (a.1 == b.1 && a.0 < b.0)))
}

/// `to_load` is the first `budget` candidates in loading order (all of them
/// when there are fewer).
pub open spec fn load_plan_ok(
    center: ColumnPos,
    r: int,
    loaded: Set<ColumnPos>,
    budget: nat,
    to_load: Seq<ColumnPos>,
) -> bool {
    &&& to_load.len() <= budget
    &&& forall|i: int| 0 <= i < to_load.len() ==> load_candidate(center, r, loaded, #[trigger] to_load[i])
    &&& forall|i: int, j: int|
        0 <= i < j < to_load.len() ==> load_before(center, #[trigger] to_load[i], #[trigger] to_load[j])
    &&& forall|c: ColumnPos|
        #[trigger] load_candidate(center, r, loaded, c) && !to_load.contains(c) ==> to_load.len()
            == budget && forall|i: int| 0 <= i < to_load.len() ==> load_before(center, #[trigger] to_load[i], c)
}

/// `to_unload` lists, once each, exactly the loaded columns farther than
/// `ru` from `center`.
pub open spec fn unload_plan_ok(center: ColumnPos, ru: int, loaded: Set<ColumnPos>, to_unload: Seq<ColumnPos>) -> bool {
    &&& to_unload.no_duplicates()
    &&& forall|c: ColumnPos|
        #[trigger] to_unload.contains(c) <==> (loaded.contains(c) && dist2(center, c) > ru * ru)
}

/// Every column of the load region around `center` can be streamed.
pub open spec fn candidates_fit(center: ColumnPos, r: int) -> bool {
    r < 0 || (-0x400_0000 < center.0 - r && center.0 + r < 0x400_0000 - 1 && -0x400_0000 < center.1 - r
        && center.1 + r < 0x400_0000 - 1)
}

/// The gap between the unload and load radii that a change of load radius
/// keeps: the current gap, but at least one column.
pub open spec fn kept_gap(load_r: int, unload_r: int) -> int {
    if unload_r - load_r > 1 {
        unload_r - load_r
    } else {
        1
    }
}

/// Columns to generate and columns to drop for one streaming step.
pub struct StreamPlan {
    pub to_load: Vec<ColumnPos>,
    pub to_unload: Vec<ColumnPos>,
}

fn before(center: ColumnPos, a: ColumnPos, b: ColumnPos) -> (r: bool)
    ensures
        r == load_before(center, a, b),
{
    let da = column_dist_sq(center, a);
    let db = column_dist_sq(center, b);
    da < db || (da == db && (a.1 < b.1 || (a.1 == b.1 && a.0 < b.0)))
}


/// Chunk meshes to upload/replace, and chunks that no longer exist and
/// should have their GPU meshes dropped.
pub struct StreamingUpdate {
    pub meshes: Vec<(ChunkPos, ChunkMesh)>,
    pub removed: Vec<ChunkPos>,
}

/// `c` is column `a` or one of its four edge neighbors.
pub open spec fn near_col(c: ColumnPos, a: ColumnPos) -> bool {
    ||| c == a
    ||| (c.0 == a.0 && (c.1 == a.1 + 1 || c.1 == a.1 - 1))
    ||| (c.1 == a.1 && (c.0 == a.0 + 1 || c.0 == a.0 - 1))
}

/// Some column of `cols` is `c` or borders it.
pub open spec fn touched(cols: Seq<ColumnPos>, c: ColumnPos) -> bool {
    exists|i: int| 0 <= i < cols.len() && near_col(c, #[trigger] cols[i])
}

/// The chunk positions of a column.
pub open spec fn in_column(p: ChunkPos, c: ColumnPos) -> bool {
    p.x == c.0 && p.z == c.1 && 0 <= p.y < VERTICAL_CHUNKS
}

/// `m` with each generated chunk stored in order (later ones win).
pub open spec fn insert_all(m: Map<ChunkPos, Chunk>, gen: Seq<(ChunkPos, Chunk)>) -> Map<ChunkPos, Chunk>
    decreases gen.len(),
{
    if gen.len() == 0 {
        m
    } else {
        insert_all(m, gen.drop_last()).insert(gen.last().0, gen.last().1)
    }
}

/// The chunk positions of the columns `cols`, column by column, bottom to top.
pub open spec fn column_chunk(cols: Seq<ColumnPos>, i: int, y: int) -> ChunkPos {
    Pos3 { x: cols[i].0, y: y as i32, z: cols[i].1 }
}

fn add_with_neighbors(set: &mut HashSet<u64>, c: ColumnPos)
    requires
        col_interior(c),
    ensures
        forall|a: ColumnPos| #[trigger] final(set)@.contains(col_key(a)) <==> (old(set)@.contains(col_key(a)) || near_col(a, c)),
{
    let ghost start = set@;
    set.insert(column_key(c));
    set.insert(column_key((c.0 + 1, c.1)));
    set.insert(column_key((c.0 - 1, c.1)));
    set.insert(column_key((c.0, c.1 + 1)));
    set.insert(column_key((c.0, c.1 - 1)));
    proof {
        assert forall|a: ColumnPos| #[trigger] set@.contains(col_key(a)) <==> (start.contains(col_key(a)) || near_col(a, c)) by {
            lemma_col_key_injective(a, c);
            lemma_col_key_injective(a, ((c.0 + 1) as i32, c.1));
            lemma_col_key_injective(a, ((c.0 - 1) as i32, c.1));
            lemma_col_key_injective(a, (c.0, (c.1 + 1) as i32));
            lemma_col_key_injective(a, (c.0, (c.1 - 1) as i32));
        }
    }
}

/// The chunk positions of column `c`, bottom to top.
pub open spec fn column_seq(c: ColumnPos) -> Seq<ChunkPos> {
    Seq::new(VERTICAL_CHUNKS as nat, |y: int| Pos3 { x: c.0, y: y as i32, z: c.1 })
}

/// The chunks of the first `n` columns of `cols`.
pub open spec fn columns_chunks(cols: Seq<ColumnPos>, n: int) -> Set<ChunkPos> {
    Set::new(|p: ChunkPos| exists|i: int| 0 <= i < n && in_column(p, #[trigger] cols[i]))
}

proof fn lemma_column_seq(c: ColumnPos, p: ChunkPos)
    ensures
        column_seq(c).contains(p) <==> in_column(p, c),
        column_seq(c).no_duplicates(),
{
    if in_column(p, c) {
        assert(column_seq(c)[p.y as int] == p);
    }
}

proof fn lemma_touched_step(cols: Seq<ColumnPos>, i: int, a: ColumnPos)
    requires
        0 <= i < cols.len(),
    ensures
        touched(cols.take(i + 1), a) <==> (touched(cols.take(i), a) || near_col(a, cols[i])),
{
    if touched(cols.take(i + 1), a) {
        let j = choose|j: int| 0 <= j < i + 1 && near_col(a, #[trigger] cols.take(i + 1)[j]);
        if j < i {
            assert(cols.take(i)[j] == cols[j]);
        }
    }
    if touched(cols.take(i), a) {
        let j = choose|j: int| 0 <= j < i && near_col(a, #[trigger] cols.take(i)[j]);
        assert(cols.take(i + 1)[j] == cols[j]);
    }
    if near_col(a, cols[i]) {
        assert(cols.take(i + 1)[i] == cols[i]);
    }
}

fn push_column(out: &mut Vec<ChunkPos>, c: ColumnPos)
    ensures
        final(out)@ == old(out)@ + column_seq(c),
{
    let ghost start = out@;
    let mut y: i32 = 0;
    while y < VERTICAL_CHUNKS
        invariant
            0 <= y <= VERTICAL_CHUNKS,
            out@ == start + column_seq(c).take(y as int),
        decreases VERTICAL_CHUNKS - y,
    {
        out.push(Pos3 { x: c.0, y, z: c.1 });
        assert(column_seq(c).take(y + 1) =~= column_seq(c).take(y as int).push(Pos3 { x: c.0, y, z: c.1 }));
        y = y + 1;
    }
    assert(column_seq(c).take(VERTICAL_CHUNKS as int) =~= column_seq(c));
}

/// Drops every chunk of column `c` from `world`, appending their positions
/// to `removed`.
fn remove_column(world: &mut World, c: ColumnPos, removed: &mut Vec<ChunkPos>)
    ensures
        final(world)@ == old(world)@.remove_keys(column_seq(c).to_set()),
        final(removed)@ == old(removed)@ + column_seq(c),
{
    let ghost w0 = world@;
    let ghost start = removed@;
    let mut y: i32 = 0;
    while y < VERTICAL_CHUNKS
        invariant
            0 <= y <= VERTICAL_CHUNKS,
            removed@ == start + column_seq(c).take(y as int),
            world@ == w0.remove_keys(column_seq(c).take(y as int).to_set()),
        decreases VERTICAL_CHUNKS - y,
    {
        let pos = Pos3 { x: c.0, y, z: c.1 };
        let ghost w1 = world@;
        world.remove_chunk(pos);
        removed.push(pos);
        proof {
            let t0 = column_seq(c).take(y as int);
            let t1 = column_seq(c).take(y + 1);
            assert(t1 =~= t0.push(pos));
            assert(t1.to_set() =~= t0.to_set().insert(pos)) by {
                assert forall|p: ChunkPos| t1.to_set().contains(p) <==> t0.to_set().insert(pos).contains(p) by {
                    if t1.contains(p) && p != pos {
                        let m = choose|m: int| 0 <= m < t1.len() && t1[m] == p;
                        assert(t0[m] == p);
                    }
                    if t0.contains(p) {
                        let m = choose|m: int| 0 <= m < t0.len() && t0[m] == p;
                        assert(t1[m] == p);
                    }
                    if p == pos {
                        assert(t1[y as int] == p);
                    }
                }
            }
            assert(world@ =~= w0.remove_keys(t1.to_set()));
        }
        y = y + 1;
    }
    assert(column_seq(c).take(VERTICAL_CHUNKS as int) =~= column_seq(c));
}

/// Stores each generated chunk in `world`, in order.
fn store_generated(world: &mut World, generated: Vec<(ChunkPos, Chunk)>)
    ensures
        final(world)@ == insert_all(old(world)@, generated@),
{
    let ghost w0 = world@;
    let ghost g = generated@;
    for item in it: generated.into_iter()
        invariant
            it.seq() == g,
            world@ == insert_all(w0, g.take(it.index())),
    {
        let ghost idx = it.index();
        assert(item == g[idx]);
        let (pos, chunk) = item;
        world.insert_chunk(pos, chunk);
        assert(g.take(idx + 1).drop_last() =~= g.take(idx));
    }
    assert(g.take(g.len() as int) =~= g);
}

/// The generator's output for column `c`: the column's chunks, bottom to
/// top, every block of them a known block.
pub open spec fn column_generated(c: ColumnPos, out: Seq<(ChunkPos, Chunk)>) -> bool {
    &&& out.len() == VERTICAL_CHUNKS
    &&& forall|y: int| 0 <= y < VERTICAL_CHUNKS ==> (#[trigger] out[y]).0 == (Pos3 { x: c.0, y: y as i32, z: c.1 })
    &&& forall|y: int, i: int| 0 <= y < VERTICAL_CHUNKS && 0 <= i < VOLUME ==> #[trigger] out[y].1@[i] < BLOCK_KINDS
}

/// Some entry of `g` is for position `p`.
pub open spec fn in_gen(g: Seq<(ChunkPos, Chunk)>, p: ChunkPos) -> bool {
    exists|j: int| 0 <= j < g.len() && (#[trigger] g[j]).0 == p
}

/// The positions of a list of meshes.
pub open spec fn mesh_positions(m: Seq<(ChunkPos, ChunkMesh)>) -> Seq<ChunkPos> {
    m.map_values(|e: (ChunkPos, ChunkMesh)| e.0)
}

/// `world1` is `world0` with the columns `to_load` (re)generated and the
/// columns `to_unload` dropped; every other chunk is kept as it was.
pub open spec fn world_step(
    world0: Map<ChunkPos, Chunk>,
    world1: Map<ChunkPos, Chunk>,
    to_load: Seq<ColumnPos>,
    to_unload: Seq<ColumnPos>,
) -> bool {
    &&& forall|p: ChunkPos|
        #[trigger] world1.contains_key(p) <==> ((world0.contains_key(p) || columns_chunks(
            to_load,
            to_load.len() as int,
        ).contains(p)) && !columns_chunks(to_unload, to_unload.len() as int).contains(p))
    &&& forall|p: ChunkPos|
        world1.contains_key(p) && !columns_chunks(to_load, to_load.len() as int).contains(p) ==> #[trigger] world1[p]
            == world0[p]
}

/// One streaming step around `center` took the plan `(to_load, to_unload)`:
/// the plan is the one `plan_update` makes, the loaded columns and the world
/// changed as `apply_update` changes them, `removed` lists the dropped chunk
/// positions column by column, and `remeshed` lists, once each, every chunk
/// of a still-loaded column in or next to a planned column.
pub open spec fn streamed(
    center: ColumnPos,
    r: int,
    ru: int,
    loaded0: Set<ColumnPos>,
    budget: nat,
    world0: Map<ChunkPos, Chunk>,
    loaded1: Set<ColumnPos>,
    world1: Map<ChunkPos, Chunk>,
    removed: Seq<ChunkPos>,
    remeshed: Seq<ChunkPos>,
    to_load: Seq<ColumnPos>,
    to_unload: Seq<ColumnPos>,
) -> bool {
    &&& load_plan_ok(center, r, loaded0, budget, to_load)
    &&& unload_plan_ok(center, ru, loaded0, to_unload)
    &&& loaded1 == loaded0.union(to_load.to_set()).difference(to_unload.to_set())
    &&& world_step(world0, world1, to_load, to_unload)
    &&& removed.len() == VERTICAL_CHUNKS * to_unload.len()
    &&& forall|i: int, y: int|
        0 <= i < to_unload.len() && 0 <= y < VERTICAL_CHUNKS ==> removed[VERTICAL_CHUNKS * i + y]
            == #[trigger] column_chunk(to_unload, i, y)
    &&& remeshed.no_duplicates()
    &&& forall|p: ChunkPos|
        #[trigger] remeshed.contains(p) <==> (0 <= p.y < VERTICAL_CHUNKS && (touched(to_load, (p.x, p.z))
            || touched(to_unload, (p.x, p.z))) && loaded1.contains((p.x, p.z)))
}

/// `chunk` is what `generate` gives, for some call on column `c`, as the
/// column's `y`-th chunk.
pub open spec fn generated_for<G: Fn(i32, i32) -> Vec<(ChunkPos, Chunk)>>(
    generate: G,
    c: ColumnPos,
    y: int,
    chunk: Chunk,
) -> bool {
    exists|out: Vec<(ChunkPos, Chunk)>| #[trigger] generate.ensures((c.0, c.1), out) && chunk == out@[y].1
}

/// `world` holds, for every chunk of the columns `cols`, a chunk that
/// `generate` gave for that column.
pub open spec fn holds_generated<G: Fn(i32, i32) -> Vec<(ChunkPos, Chunk)>>(
    world: Map<ChunkPos, Chunk>,
    cols: Seq<ColumnPos>,
    generate: G,
) -> bool {
    forall|i: int, y: int|
        0 <= i < cols.len() && 0 <= y < VERTICAL_CHUNKS ==> world.contains_key(#[trigger] column_chunk(cols, i, y))
            && generated_for(generate, cols[i], y, world[column_chunk(cols, i, y)])
}

/// Where a position occurs exactly once among the entries of `g`, storing
/// them all leaves that entry's chunk there.
proof fn lemma_insert_all_unique(m: Map<ChunkPos, Chunk>, g: Seq<(ChunkPos, Chunk)>, k: int)
    requires
        0 <= k < g.len(),
        forall|j: int| 0 <= j < g.len() && (#[trigger] g[j]).0 == g[k].0 ==> j == k,
    ensures
        insert_all(m, g).contains_key(g[k].0),
        insert_all(m, g)[g[k].0] == g[k].1,
    decreases g.len(),
{
    if k < g.len() - 1 {
        let h = g.drop_last();
        assert forall|j: int| 0 <= j < h.len() && (#[trigger] h[j]).0 == h[k].0 implies j == k by {
            assert(h[j] == g[j]);
        }
        lemma_insert_all_unique(m, h, k);
        assert(g[g.len() - 1].0 != g[k].0);
    }
}

/// The chunks generated for the planned columns are the ones the world
/// holds after the step.
proof fn lemma_generated_kept<G: Fn(i32, i32) -> Vec<(ChunkPos, Chunk)>>(
    w0: Map<ChunkPos, Chunk>,
    gen: Seq<(ChunkPos, Chunk)>,
    w1: Map<ChunkPos, Chunk>,
    to_load: Seq<ColumnPos>,
    to_unload: Seq<ColumnPos>,
    generate: G,
    center: ColumnPos,
    r: int,
    ru: int,
    loaded0: Set<ColumnPos>,
    budget: nat,
)
    requires
        load_plan_ok(center, r, loaded0, budget, to_load),
        unload_plan_ok(center, ru, loaded0, to_unload),
        gen.len() == VERTICAL_CHUNKS * to_load.len(),
        forall|j: int, y: int|
            0 <= j < to_load.len() && 0 <= y < VERTICAL_CHUNKS ==> gen[VERTICAL_CHUNKS * j + y].0
                == #[trigger] column_chunk(to_load, j, y) && generated_for(
                generate,
                to_load[j],
                y,
                gen[VERTICAL_CHUNKS * j + y].1,
            ),
        w1 == insert_all(w0, gen).remove_keys(columns_chunks(to_unload, to_unload.len() as int)),
    ensures
        holds_generated(w1, to_load, generate),
{
    assert forall|i: int, y: int| 0 <= i < to_load.len() && 0 <= y < VERTICAL_CHUNKS implies w1.contains_key(
        #[trigger] column_chunk(to_load, i, y),
    ) && generated_for(generate, to_load[i], y, w1[column_chunk(to_load, i, y)]) by {
        let p = column_chunk(to_load, i, y);
        let k = VERTICAL_CHUNKS * i + y;
        assert(gen[k].0 == p);
        assert forall|j: int| 0 <= j < gen.len() && (#[trigger] gen[j]).0 == gen[k].0 implies j == k by {
            vstd::arithmetic::div_mod::lemma_fundamental_div_mod(j, VERTICAL_CHUNKS as int);
            let a = j / VERTICAL_CHUNKS as int;
            let b = j % VERTICAL_CHUNKS as int;
            assert(0 <= a < to_load.len()) by {
                vstd::arithmetic::div_mod::lemma_div_pos_is_pos(j, VERTICAL_CHUNKS as int);
                if a >= to_load.len() {
                    assert(j >= VERTICAL_CHUNKS * to_load.len());
                }
            }
            assert(j == VERTICAL_CHUNKS * a + b);
            assert(gen[j].0 == column_chunk(to_load, a, b));
            if a != i {
                if a < i {
                    assert(load_before(center, to_load[a], to_load[i]));
                } else {
                    assert(load_before(center, to_load[i], to_load[a]));
                }
            }
        }
        lemma_insert_all_unique(w0, gen, k);
        assert(!columns_chunks(to_unload, to_unload.len() as int).contains(p)) by {
            if columns_chunks(to_unload, to_unload.len() as int).contains(p) {
                let j = choose|j: int| 0 <= j < to_unload.len() && in_column(p, #[trigger] to_unload[j]);
                assert(to_unload.contains(to_unload[j]));
                assert(to_unload[j] == to_load[i]);
                assert(load_candidate(center, r, loaded0, to_load[i]));
            }
        }
    }
}

proof fn lemma_insert_all(m: Map<ChunkPos, Chunk>, g: Seq<(ChunkPos, Chunk)>)
    ensures
        forall|p: ChunkPos| #[trigger] insert_all(m, g).contains_key(p) <==> (m.contains_key(p) || in_gen(g, p)),
        forall|p: ChunkPos|
            insert_all(m, g).contains_key(p) && !in_gen(g, p) ==> #[trigger] insert_all(m, g)[p] == m[p],
        world_known(m) && (forall|j: int, i: int|
            0 <= j < g.len() && 0 <= i < VOLUME ==> #[trigger] g[j].1@[i] < BLOCK_KINDS) ==> world_known(
            insert_all(m, g),
        ),
    decreases g.len(),
{
    if g.len() > 0 {
        let h = g.drop_last();
        lemma_insert_all(m, h);
        assert forall|p: ChunkPos| in_gen(g, p) <==> (in_gen(h, p) || g.last().0 == p) by {
            if in_gen(g, p) {
                let j = choose|j: int| 0 <= j < g.len() && (#[trigger] g[j]).0 == p;
                if j < h.len() {
                    assert(h[j] == g[j]);
                }
            }
            if in_gen(h, p) {
                let j = choose|j: int| 0 <= j < h.len() && (#[trigger] h[j]).0 == p;
                assert(g[j] == h[j]);
            }
            if g.last().0 == p {
                assert(g[g.len() - 1].0 == p);
            }
        }
        if world_known(m) && (forall|j: int, i: int|
            0 <= j < g.len() && 0 <= i < VOLUME ==> #[trigger] g[j].1@[i] < BLOCK_KINDS) {
            assert forall|j: int, i: int| 0 <= j < h.len() && 0 <= i < VOLUME implies #[trigger] h[j].1@[i]
                < BLOCK_KINDS by {
                assert(h[j] == g[j]);
            }
            let w = insert_all(m, g);
            assert forall|p: ChunkPos, i: int| w.contains_key(p) && 0 <= i < VOLUME implies #[trigger] w[p]@[i]
                < BLOCK_KINDS by {
                if p == g.last().0 {
                    assert(g[g.len() - 1].1@[i] < BLOCK_KINDS);
                }
            }
        }
    }
}

/// Loads/unloads chunk columns around a moving point (the camera), keeping
/// the world within `load_radius` chunks populated. Columns are only
/// unloaded once they exceed `unload_radius` (a wider radius than
/// `load_radius`) so hovering near a boundary doesn't thrash load/unload
/// every frame.
pub struct ChunkStreamer {
    seed: u32,
    loaded_columns: HashSet<u64>,
    load_radius: i32,
    unload_radius: i32,
}

impl ChunkStreamer {
    #[verifier::type_invariant]
    spec fn inv(self) -> bool {
        &&& self.load_radius <= self.unload_radius
        &&& forall|k: u64| #[trigger] self.loaded_columns@.contains(k) ==> col_interior(key_col(k))
    }

    /// The loaded columns.
    pub closed spec fn loaded(&self) -> Set<ColumnPos> {
        Set::new(|c: ColumnPos| self.loaded_columns@.contains(col_key(c)))
    }

    pub closed spec fn load_r(&self) -> int {
        self.load_radius as int
    }

    pub closed spec fn unload_r(&self) -> int {
        self.unload_radius as int
    }

    pub closed spec fn seed_spec(&self) -> u32 {
        self.seed
    }

    /// The not-yet-loaded columns of the load region, in row-major scan order.
    fn load_candidates(&self, center: ColumnPos) -> (cands: Vec<ColumnPos>)
        requires
            candidates_fit(center, self.load_r()),
        ensures
            forall|c: ColumnPos|
                #[trigger] cands@.contains(c) <==> load_candidate(center, self.load_r(), self.loaded(), c),
    {
        proof {
            use_type_invariant(self);
        }
        let r = self.load_radius as i64;
        let r128 = self.load_radius as i128;
        assert(0 <= r128 * r128 <= 0x4000_0000_0000_0000) by (nonlinear_arith)
            requires
                -0x8000_0000 <= r128 <= 0x8000_0000,
        ;
        let r2 = r128 * r128;
        let mut cands: Vec<ColumnPos> = Vec::new();
        let mut dz: i64 = -r;
        while dz <= r
            invariant
                r == self.load_r(),
                r2 == r * r,
                candidates_fit(center, r as int),
                -r <= dz,
                r < 0 || dz <= r + 1,
                forall|c: ColumnPos|
                    #[trigger] cands@.contains(c) <==> (load_candidate(center, r as int, self.loaded(), c)
                        && c.1 - center.1 < dz),
            decreases r + 1 - dz,
        {
            let mut dx: i64 = -r;
            while dx <= r
                invariant
                    r == self.load_r(),
                    r2 == r * r,
                    candidates_fit(center, r as int),
                    -r <= dz <= r,
                    -r <= dx <= r + 1,
                    forall|c: ColumnPos|
                        #[trigger] cands@.contains(c) <==> (load_candidate(center, r as int, self.loaded(), c)
                            && (c.1 - center.1 < dz || (c.1 - center.1 == dz && c.0 - center.0 < dx))),
                decreases r + 1 - dx,
            {
                let col: ColumnPos = ((center.0 as i64 + dx) as i32, (center.1 as i64 + dz) as i32);
                let k = column_key(col);
                let ghost before = cands@;
                let is_cand = column_dist_sq(center, col) <= r2 && !self.loaded_columns.contains(&k);
                assert(is_cand == load_candidate(center, r as int, self.loaded(), col));
                if is_cand {
                    cands.push(col);
                }
                proof {
                    assert forall|c: ColumnPos|
                        #![trigger cands@.contains(c)]
                        #![trigger before.contains(c)]
                        cands@.contains(c) <==> (before.contains(c) || (is_cand && c == col)) by {
                        if is_cand {
                            if cands@.contains(c) && c != col {
                                let m = choose|m: int| 0 <= m < cands@.len() && cands@[m] == c;
                                assert(before[m] == c);
                            }
                            if before.contains(c) {
                                let m = choose|m: int| 0 <= m < before.len() && before[m] == c;
                                assert(cands@[m] == c);
                            }
                            assert(cands@[before.len() as int] == col);
                        }
                    }
                    assert(col.0 - center.0 == dx && col.1 - center.1 == dz);
                    assert forall|c: ColumnPos|
                        #[trigger] cands@.contains(c) <==> (load_candidate(center, r as int, self.loaded(), c)
                            && (c.1 - center.1 < dz || (c.1 - center.1 == dz && c.0 - center.0 < dx + 1))) by {
                        if c == col {
                            assert(cands@.contains(c) <==> (before.contains(c) || is_cand));
                            assert(!before.contains(c));
                        } else {
                            assert(cands@.contains(c) <==> before.contains(c));
                            if c.1 - center.1 == dz && c.0 - center.0 == dx {
                                assert(c.0 == col.0 && c.1 == col.1);
                                assert(c == col);
                            }
                        }
                    }
                }
                dx = dx + 1;
            }
            dz = dz + 1;
        }
        cands
    }

    /// Plans one streaming step around `center`: at most `load_budget`
    /// columns to load, nearest first, and every loaded column beyond the
    /// unload radius to drop.
    pub fn plan_update(&self, center: ColumnPos, load_budget: usize) -> (p: StreamPlan)
        requires
            candidates_fit(center, self.load_r()),
        ensures
            load_plan_ok(center, self.load_r(), self.loaded(), load_budget as nat, p.to_load@),
            unload_plan_ok(center, self.unload_r(), self.loaded(), p.to_unload@),
    {
        let cands = self.load_candidates(center);
        let ghost loaded = self.loaded();
        let ghost r = self.load_r();
        let mut to_load: Vec<ColumnPos> = Vec::new();
        let mut last: Option<ColumnPos> = None;
        let mut done = false;
        while !done && to_load.len() < load_budget
            invariant
                to_load@.len() <= load_budget,
                forall|c: ColumnPos| #[trigger] cands@.contains(c) <==> load_candidate(center, r, loaded, c),
                forall|i: int| 0 <= i < to_load@.len() ==> load_candidate(center, r, loaded, #[trigger] to_load@[i]),
                forall|i: int, j: int|
                    0 <= i < j < to_load@.len() ==> load_before(center, #[trigger] to_load@[i], #[trigger] to_load@[j]),
                match last {
                    None => to_load@.len() == 0,
                    Some(l) => to_load@.len() > 0 && l == to_load@.last(),
                },
                forall|c: ColumnPos|
                    #[trigger] load_candidate(center, r, loaded, c) && !to_load@.contains(c) ==> (last matches Some(l)
                        ==> load_before(center, l, c)),
                done ==> forall|c: ColumnPos|
                    #[trigger] load_candidate(center, r, loaded, c) ==> to_load@.contains(c),
            decreases load_budget - to_load@.len() + (if done { 0int } else { 1int }),
        {
            let mut best: Option<ColumnPos> = None;
            let mut k: usize = 0;
            while k < cands.len()
                invariant
                    k <= cands.len(),
                    match best {
                        None => forall|m: int|
                            0 <= m < k ==> !(last matches Some(l) ==> load_before(center, l, #[trigger] cands@[m])),
                        Some(b) => cands@.contains(b) && (last matches Some(l) ==> load_before(center, l, b))
                            && forall|m: int|
                            0 <= m < k && (last matches Some(l) ==> load_before(center, l, #[trigger] cands@[m]))
                                ==> !load_before(center, cands@[m], b),
                    },
                decreases cands.len() - k,
            {
                let c = cands[k];
                let above = match last {
                    None => true,
                    Some(l) => before(center, l, c),
                };
                if above {
                    let better = match best {
                        None => true,
                        Some(b) => before(center, c, b),
                    };
                    if better {
                        best = Some(c);
                    }
                }
                k = k + 1;
            }
            match best {
                None => {
                    proof {
                        assert forall|c: ColumnPos| #[trigger] load_candidate(center, r, loaded, c) implies to_load@.contains(c) by {
                            if !to_load@.contains(c) {
                                assert(cands@.contains(c));
                                let m = choose|m: int| 0 <= m < cands@.len() && cands@[m] == c;
                            }
                        }
                    }
                    done = true;
                },
                Some(b) => {
                    let ghost old_load = to_load@;
                    to_load.push(b);
                    last = Some(b);
                    proof {
                        assert forall|i: int, j: int|
                            0 <= i < j < to_load@.len() implies load_before(center, #[trigger] to_load@[i], #[trigger] to_load@[j]) by {
                            if j == old_load.len() {
                                if i < old_load.len() - 1 {
                                    assert(load_before(center, old_load[i], old_load.last()));
                                }
                            }
                        }
                        assert forall|c: ColumnPos|
                            #[trigger] load_candidate(center, r, loaded, c) && !to_load@.contains(c) implies load_before(center, b, c) by {
                            if old_load.contains(c) {
                                let m = choose|m: int| 0 <= m < old_load.len() && old_load[m] == c;
                                assert(to_load@[m] == c);
                            }
                            assert(to_load@[old_load.len() as int] == b);
                            assert(cands@.contains(c));
                            let m = choose|m: int| 0 <= m < cands@.len() && cands@[m] == c;
                            assert(c != b);
                            assert(!load_before(center, c, b));
                        }
                    }
                },
            }
        }
        proof {
            assert forall|c: ColumnPos|
                #[trigger] load_candidate(center, r, loaded, c) && !to_load@.contains(c) implies to_load@.len()
                    == load_budget && forall|i: int| 0 <= i < to_load@.len() ==> load_before(center, #[trigger] to_load@[i], c) by {
                if to_load@.len() > 0 {
                    let l = to_load@.last();
                    assert forall|i: int| 0 <= i < to_load@.len() implies load_before(center, #[trigger] to_load@[i], c) by {
                        if i < to_load@.len() - 1 {
                            assert(load_before(center, to_load@[i], l));
                        }
                    }
                }
            }
        }
        let to_unload = self.columns_beyond(center);
        StreamPlan { to_load, to_unload }
    }

    /// Every loaded column farther than the unload radius from `center`.
    fn columns_beyond(&self, center: ColumnPos) -> (r: Vec<ColumnPos>)
        ensures
            unload_plan_ok(center, self.unload_r(), self.loaded(), r@),
    {
        let ru = self.unload_radius as i128;
        assert(0 <= ru * ru <= 0x4000_0000_0000_0000) by (nonlinear_arith)
            requires
                -0x8000_0000 <= ru <= 0x8000_0000,
        ;
        let ru2 = ru * ru;
        let mut out: Vec<ColumnPos> = Vec::new();
        let ghost keys = vstd::std_specs::iter::IteratorSpec::remaining(&vstd::std_specs::hash::spec_hash_keys_iter(&self.loaded_columns)).unref();
        let ghost mut seen: int = 0;
        for kref in it: self.loaded_columns.iter()
            invariant
                ru2 == self.unload_r() * self.unload_r(),
                keys == it.seq().unref(),
                seen == it.index(),
                it.seq().unref().to_set() == self.loaded_columns@,
                it.seq().unref().no_duplicates(),
                out@.no_duplicates(),
                forall|c: ColumnPos|
                    #[trigger] out@.contains(c) <==> (exists|i: int|
                        0 <= i < it.index() && key_col(it.seq().unref()[i]) == c) && dist2(center, c) > ru2,
        {
            let ghost idx = it.index();
            let k = *kref;
            assert(0 <= idx < it.seq().len());
            assert(*it.seq()[idx] == k);
            assert(k == keys[idx]);
            let col = key_column(k);
            let ghost before = out@;
            if column_dist_sq(center, col) > ru2 {
                proof {
                    if before.contains(col) {
                        let i = choose|i: int| 0 <= i < idx && key_col(keys[i]) == col;
                        lemma_key_col(keys[i]);
                        lemma_key_col(k);
                        assert(keys[i] == keys[idx]);
                    }
                }
                out.push(col);
            }
            proof {
                assert forall|c: ColumnPos|
                    #[trigger] out@.contains(c) <==> (exists|i: int|
                        0 <= i < idx + 1 && key_col(keys[i]) == c) && dist2(center, c) > ru2 by {
                    if out@.contains(c) && c != col {
                        let m = choose|m: int| 0 <= m < out@.len() && out@[m] == c;
                        assert(before[m] == c);
                    }
                    if before.contains(c) {
                        let m = choose|m: int| 0 <= m < before.len() && before[m] == c;
                        assert(out@[m] == c);
                    }
                    if c == col && dist2(center, c) > ru2 {
                        assert(out@[out@.len() - 1] == col);
                    }
                }
                seen = seen + 1;
            }
        }
        assert(seen == keys.len());
        proof {
            assert forall|c: ColumnPos| #[trigger] out@.contains(c) <==> (self.loaded().contains(c)
                && dist2(center, c) > self.unload_r() * self.unload_r()) by {
                let ks = keys;
                if out@.contains(c) {
                    let i = choose|i: int| 0 <= i < ks.len() && key_col(ks[i]) == c;
                    lemma_key_col(ks[i]);
                    assert(ks.to_set().contains(ks[i]));
                }
                if self.loaded().contains(c) {
                    assert(ks.to_set().contains(col_key(c)));
                    let i = choose|i: int| 0 <= i < ks.len() && ks[i] == col_key(c);
                    lemma_col_key(c);
                }
            }
        }
        out
    }

    /// Applies a planned step: stores the generated chunks, marks the
    /// planned columns loaded, drops the chunks of the columns to unload,
    /// and lists them (`removed`) along with every chunk of a still-loaded
    /// column that a loaded or unloaded column touches (`remesh`), since its
    /// faces toward that column may have changed.
    pub fn apply_update(
        &mut self,
        world: &mut World,
        plan: &StreamPlan,
        generated: Vec<(ChunkPos, Chunk)>,
    ) -> (r: (Vec<ChunkPos>, Vec<ChunkPos>))
        requires
            forall|i: int| 0 <= i < plan.to_load@.len() ==> col_interior(#[trigger] plan.to_load@[i]),
            forall|i: int| 0 <= i < plan.to_unload@.len() ==> col_interior(#[trigger] plan.to_unload@[i]),
        ensures
            final(self).loaded() == old(self).loaded().union(plan.to_load@.to_set()).difference(
                plan.to_unload@.to_set(),
            ),
            final(self).load_r() == old(self).load_r(),
            final(self).unload_r() == old(self).unload_r(),
            final(self).seed_spec() == old(self).seed_spec(),
            final(world)@ == insert_all(old(world)@, generated@).remove_keys(
                columns_chunks(plan.to_unload@, plan.to_unload@.len() as int),
            ),
            r.0@.len() == VERTICAL_CHUNKS * plan.to_unload@.len(),
            forall|i: int, y: int|
                0 <= i < plan.to_unload@.len() && 0 <= y < VERTICAL_CHUNKS ==> r.0@[VERTICAL_CHUNKS * i + y]
                    == #[trigger] column_chunk(plan.to_unload@, i, y),
            r.1@.no_duplicates(),
            forall|p: ChunkPos|
                #[trigger] r.1@.contains(p) <==> (0 <= p.y < VERTICAL_CHUNKS && (touched(plan.to_load@, (p.x, p.z))
                    || touched(plan.to_unload@, (p.x, p.z))) && final(self).loaded().contains((p.x, p.z))),
    {
        store_generated(world, generated);
        self.mark_loaded(&plan.to_load);
        let removed = self.unload_columns(world, &plan.to_unload);
        let remesh = self.remesh_positions(plan);
        (removed, remesh)
    }

    /// Marks every column of `cols` loaded.
    fn mark_loaded(&mut self, cols: &Vec<ColumnPos>)
        requires
            forall|i: int| 0 <= i < cols@.len() ==> col_interior(#[trigger] cols@[i]),
        ensures
            final(self).loaded() == old(self).loaded().union(cols@.to_set()),
            final(self).load_r() == old(self).load_r(),
            final(self).unload_r() == old(self).unload_r(),
            final(self).seed_spec() == old(self).seed_spec(),
    {
        proof {
            use_type_invariant(&*self);
        }
        let mut set: HashSet<u64> = HashSet::new();
        std::mem::swap(&mut set, &mut self.loaded_columns);
        let ghost s0 = set@;
        let mut i: usize = 0;
        while i < cols.len()
            invariant
                i <= cols@.len(),
                forall|j: int| 0 <= j < cols@.len() ==> col_interior(#[trigger] cols@[j]),
                forall|k: u64| #[trigger] set@.contains(k) ==> col_interior(key_col(k)),
                forall|a: ColumnPos|
                    #[trigger] set@.contains(col_key(a)) <==> (s0.contains(col_key(a))
                        || cols@.take(i as int).contains(a)),
            decreases cols@.len() - i,
        {
            let c = cols[i];
            let ghost before = set@;
            set.insert(column_key(c));
            proof {
                lemma_col_key(c);
                assert(cols@.take(i + 1) =~= cols@.take(i as int).push(c));
                assert forall|a: ColumnPos|
                    #[trigger] set@.contains(col_key(a)) <==> (s0.contains(col_key(a))
                        || cols@.take(i + 1).contains(a)) by {
                    lemma_col_key_injective(a, c);
                    let t0 = cols@.take(i as int);
                    let t1 = cols@.take(i + 1);
                    if t1.contains(a) && a != c {
                        let m = choose|m: int| 0 <= m < t1.len() && t1[m] == a;
                        assert(t0[m] == a);
                    }
                    if t0.contains(a) {
                        let m = choose|m: int| 0 <= m < t0.len() && t0[m] == a;
                        assert(t1[m] == a);
                    }
                    if a == c {
                        assert(t1[i as int] == a);
                    }
                }
            }
            i = i + 1;
        }
        proof {
            assert(cols@.take(cols@.len() as int) =~= cols@);
        }
        *self = ChunkStreamer {
            seed: self.seed,
            loaded_columns: set,
            load_radius: self.load_radius,
            unload_radius: self.unload_radius,
        };
        assert(self.loaded() =~= old(self).loaded().union(cols@.to_set()));
    }

    /// Forgets the columns `cols` and drops their chunks from `world`,
    /// returning the dropped positions column by column, bottom to top.
    fn unload_columns(&mut self, world: &mut World, cols: &Vec<ColumnPos>) -> (removed: Vec<ChunkPos>)
        ensures
            final(self).loaded() == old(self).loaded().difference(cols@.to_set()),
            final(self).load_r() == old(self).load_r(),
            final(self).unload_r() == old(self).unload_r(),
            final(self).seed_spec() == old(self).seed_spec(),
            final(world)@ == old(world)@.remove_keys(columns_chunks(cols@, cols@.len() as int)),
            removed@.len() == VERTICAL_CHUNKS * cols@.len(),
            forall|i: int, y: int|
                0 <= i < cols@.len() && 0 <= y < VERTICAL_CHUNKS ==> removed@[VERTICAL_CHUNKS * i + y]
                    == #[trigger] column_chunk(cols@, i, y),
    {
        proof {
            use_type_invariant(&*self);
        }
        let mut set: HashSet<u64> = HashSet::new();
        std::mem::swap(&mut set, &mut self.loaded_columns);
        let ghost s0 = set@;
        let ghost w0 = world@;
        let mut removed: Vec<ChunkPos> = Vec::new();
        let mut i: usize = 0;
        while i < cols.len()
            invariant
                i <= cols@.len(),
                forall|k: u64| #[trigger] set@.contains(k) ==> col_interior(key_col(k)),
                forall|a: ColumnPos|
                    #[trigger] set@.contains(col_key(a)) <==> (s0.contains(col_key(a))
                        && !cols@.take(i as int).contains(a)),
                world@ == w0.remove_keys(columns_chunks(cols@, i as int)),
                removed@.len() == VERTICAL_CHUNKS * i,
                forall|j: int, y: int|
                    0 <= j < i && 0 <= y < VERTICAL_CHUNKS ==> removed@[VERTICAL_CHUNKS * j + y]
                        == #[trigger] column_chunk(cols@, j, y),
            decreases cols@.len() - i,
        {
            let c = cols[i];
            set.remove(&column_key(c));
            let ghost r0 = removed@;
            let ghost wb = world@;
            remove_column(world, c, &mut removed);
            proof {
                assert(cols@.take(i + 1) =~= cols@.take(i as int).push(c));
                assert forall|a: ColumnPos|
                    #[trigger] set@.contains(col_key(a)) <==> (s0.contains(col_key(a))
                        && !cols@.take(i + 1).contains(a)) by {
                    lemma_col_key_injective(a, c);
                    let t0 = cols@.take(i as int);
                    let t1 = cols@.take(i + 1);
                    if t1.contains(a) && a != c {
                        let m = choose|m: int| 0 <= m < t1.len() && t1[m] == a;
                        assert(t0[m] == a);
                    }
                    if t0.contains(a) {
                        let m = choose|m: int| 0 <= m < t0.len() && t0[m] == a;
                        assert(t1[m] == a);
                    }
                    if a == c {
                        assert(t1[i as int] == a);
                    }
                }
                assert(columns_chunks(cols@, i + 1) =~= columns_chunks(cols@, i as int).union(
                    column_seq(c).to_set(),
                )) by {
                    assert forall|p: ChunkPos| #[trigger] columns_chunks(cols@, i + 1).contains(p)
                        <==> columns_chunks(cols@, i as int).union(column_seq(c).to_set()).contains(p) by {
                        lemma_column_seq(c, p);
                        if columns_chunks(cols@, i + 1).contains(p) {
                            let j = choose|j: int| 0 <= j < i + 1 && in_column(p, #[trigger] cols@[j]);
                            if j < i {
                                assert(columns_chunks(cols@, i as int).contains(p));
                            }
                        }
                        if in_column(p, c) {
                            assert(in_column(p, cols@[i as int]));
                        }
                    }
                }
                assert(world@ =~= w0.remove_keys(columns_chunks(cols@, i + 1)));
                assert forall|j: int, y: int|
                    0 <= j < i + 1 && 0 <= y < VERTICAL_CHUNKS implies removed@[VERTICAL_CHUNKS * j + y]
                        == #[trigger] column_chunk(cols@, j, y) by {
                    if j < i {
                        assert(removed@[VERTICAL_CHUNKS * j + y] == r0[VERTICAL_CHUNKS * j + y]);
                    } else {
                        assert(removed@[VERTICAL_CHUNKS * j + y] == column_seq(c)[y]);
                    }
                }
            }
            i = i + 1;
        }
        proof {
            assert(cols@.take(cols@.len() as int) =~= cols@);
        }
        *self = ChunkStreamer {
            seed: self.seed,
            loaded_columns: set,
            load_radius: self.load_radius,
            unload_radius: self.unload_radius,
        };
        assert(self.loaded() =~= old(self).loaded().difference(cols@.to_set()));
        removed
    }

    /// Every chunk of a loaded column that is in, or borders, a column of
    /// `plan`; each once.
    fn remesh_positions(&self, plan: &StreamPlan) -> (r: Vec<ChunkPos>)
        requires
            forall|i: int| 0 <= i < plan.to_load@.len() ==> col_interior(#[trigger] plan.to_load@[i]),
            forall|i: int| 0 <= i < plan.to_unload@.len() ==> col_interior(#[trigger] plan.to_unload@[i]),
        ensures
            r@.no_duplicates(),
            forall|p: ChunkPos|
                #[trigger] r@.contains(p) <==> (0 <= p.y < VERTICAL_CHUNKS && (touched(plan.to_load@, (p.x, p.z))
                    || touched(plan.to_unload@, (p.x, p.z))) && self.loaded().contains((p.x, p.z))),
    {
        let mut affected: HashSet<u64> = HashSet::new();
        let mut i: usize = 0;
        while i < plan.to_load.len()
            invariant
                i <= plan.to_load@.len(),
                forall|j: int| 0 <= j < plan.to_load@.len() ==> col_interior(#[trigger] plan.to_load@[j]),
                forall|a: ColumnPos|
                    #[trigger] affected@.contains(col_key(a)) <==> touched(plan.to_load@.take(i as int), a),
            decreases plan.to_load@.len() - i,
        {
            let ghost before = affected@;
            add_with_neighbors(&mut affected, plan.to_load[i]);
            proof {
                assert forall|a: ColumnPos|
                    #[trigger] affected@.contains(col_key(a)) <==> touched(plan.to_load@.take(i + 1), a) by {
                    lemma_touched_step(plan.to_load@, i as int, a);
                }
            }
            i = i + 1;
        }
        assert(plan.to_load@.take(plan.to_load@.len() as int) =~= plan.to_load@);
        let mut i: usize = 0;
        while i < plan.to_unload.len()
            invariant
                i <= plan.to_unload@.len(),
                forall|j: int| 0 <= j < plan.to_unload@.len() ==> col_interior(#[trigger] plan.to_unload@[j]),
                forall|a: ColumnPos|
                    #[trigger] affected@.contains(col_key(a)) <==> (touched(plan.to_load@, a) || touched(
                        plan.to_unload@.take(i as int),
                        a,
                    )),
            decreases plan.to_unload@.len() - i,
        {
            add_with_neighbors(&mut affected, plan.to_unload[i]);
            proof {
                assert forall|a: ColumnPos|
                    #[trigger] affected@.contains(col_key(a)) <==> (touched(plan.to_load@, a) || touched(
                        plan.to_unload@.take(i + 1),
                        a,
                    )) by {
                    lemma_touched_step(plan.to_unload@, i as int, a);
                }
            }
            i = i + 1;
        }
        assert(plan.to_unload@.take(plan.to_unload@.len() as int) =~= plan.to_unload@);
        let mut out: Vec<ChunkPos> = Vec::new();
        let ghost keys = vstd::std_specs::iter::IteratorSpec::remaining(&vstd::std_specs::hash::spec_hash_keys_iter(&affected)).unref();
        let ghost mut seen: int = 0;
        for kref in it: affected.iter()
            invariant
                keys == it.seq().unref(),
                seen == it.index(),
                it.seq().unref().to_set() == affected@,
                it.seq().unref().no_duplicates(),
                out@.no_duplicates(),
                forall|p: ChunkPos|
                    #[trigger] out@.contains(p) <==> ((exists|i: int|
                        0 <= i < it.index() && key_col(it.seq().unref()[i]) == (p.x, p.z)) && 0 <= p.y
                        < VERTICAL_CHUNKS && self.loaded().contains((p.x, p.z))),
        {
            let ghost idx = it.index();
            let k = *kref;
            assert(0 <= idx < it.seq().len());
            assert(*it.seq()[idx] == k);
            assert(k == keys[idx]);
            let col = key_column(k);
            let ghost before = out@;
            proof {
                lemma_key_col(k);
            }
            if self.loaded_columns.contains(&k) {
                push_column(&mut out, col);
                proof {
                    assert forall|a: int, b: int| 0 <= a < b < out@.len() implies out@[a] != out@[b] by {
                        if b >= before.len() {
                            let q = out@[b];
                            assert(column_seq(col).contains(q));
                            lemma_column_seq(col, q);
                            if a < before.len() {
                                let pa = before[a];
                                assert(before.contains(pa));
                                if out@[a] == out@[b] {
                                    let m = choose|m: int| 0 <= m < idx && key_col(keys[m]) == (pa.x, pa.z);
                                    lemma_key_col(keys[m]);
                                    assert(keys[m] == keys[idx]);
                                }
                            } else {
                                lemma_column_seq(col, out@[a]);
                            }
                        }
                    }
                }
            }
            proof {
                assert forall|p: ChunkPos|
                    #[trigger] out@.contains(p) <==> ((exists|i: int|
                        0 <= i < idx + 1 && key_col(keys[i]) == (p.x, p.z)) && 0 <= p.y < VERTICAL_CHUNKS
                        && self.loaded().contains((p.x, p.z))) by {
                    lemma_column_seq(col, p);
                    if out@.contains(p) && !before.contains(p) {
                        let m = choose|m: int| 0 <= m < out@.len() && out@[m] == p;
                        assert(column_seq(col)[m - before.len()] == p);
                        assert(column_seq(col).contains(p));
                    }
                    if before.contains(p) {
                        let m = choose|m: int| 0 <= m < before.len() && before[m] == p;
                        assert(out@[m] == p);
                    }
                    if (p.x, p.z) == col && 0 <= p.y < VERTICAL_CHUNKS && self.loaded().contains((p.x, p.z)) {
                        assert(column_seq(col).contains(p));
                        let m = choose|m: int| 0 <= m < column_seq(col).len() && column_seq(col)[m] == p;
                        assert(out@[before.len() + m] == p);
                    }
                }
                seen = seen + 1;
            }
        }
        assert(seen == keys.len());
        proof {
            assert forall|p: ChunkPos|
                #[trigger] out@.contains(p) <==> (0 <= p.y < VERTICAL_CHUNKS && (touched(plan.to_load@, (p.x, p.z))
                    || touched(plan.to_unload@, (p.x, p.z))) && self.loaded().contains((p.x, p.z))) by {
                let c: ColumnPos = (p.x, p.z);
                if exists|i: int| 0 <= i < keys.len() && key_col(keys[i]) == c {
                    let i = choose|i: int| 0 <= i < keys.len() && key_col(keys[i]) == c;
                    lemma_key_col(keys[i]);
                    assert(keys.to_set().contains(keys[i]));
                }
                if affected@.contains(col_key(c)) {
                    assert(keys.to_set().contains(col_key(c)));
                    let i = choose|i: int| 0 <= i < keys.len() && keys[i] == col_key(c);
                    lemma_col_key(c);
                }
            }
        }
        out
    }

    /// Loads and unloads columns around `center` (the column under the
    /// camera), generating at most `load_budget` new columns this call with
    /// `generate` (pass `usize::MAX` to load everything needed in one go,
    /// e.g. at startup), and remeshes every chunk whose neighborhood changed.
    pub fn update<G: Fn(i32, i32) -> Vec<(ChunkPos, Chunk)>>(
        &mut self,
        world: &mut World,
        center: ColumnPos,
        load_budget: usize,
        generate: &G,
    ) -> (u: StreamingUpdate)
        requires
            candidates_fit(center, old(self).load_r()),
            world_known(old(world)@),
            forall|x: i32, z: i32| generate.requires((x, z)),
            forall|x: i32, z: i32, out: Vec<(ChunkPos, Chunk)>|
                #[trigger] generate.ensures((x, z), out) ==> column_generated((x, z), out@),
        ensures
            exists|to_load: Seq<ColumnPos>, to_unload: Seq<ColumnPos>|
                #[trigger] streamed(
                    center,
                    old(self).load_r(),
                    old(self).unload_r(),
                    old(self).loaded(),
                    load_budget as nat,
                    old(world)@,
                    final(self).loaded(),
                    final(world)@,
                    u.removed@,
                    mesh_positions(u.meshes@),
                    to_load,
                    to_unload,
                ) && holds_generated(final(world)@, to_load, *generate),
            world_known(final(world)@),
            forall|i: int|
                0 <= i < u.meshes@.len() ==> meshes_chunk(final(world)@, (#[trigger] u.meshes@[i]).0, u.meshes@[i].1),
            final(self).load_r() == old(self).load_r(),
            final(self).unload_r() == old(self).unload_r(),
            final(self).seed_spec() == old(self).seed_spec(),
    {
        proof {
            use_type_invariant(&*self);
        }
        let plan = self.plan_update(center, load_budget);
        proof {
            assert forall|i: int| 0 <= i < plan.to_load@.len() implies col_interior(#[trigger] plan.to_load@[i]) by {
                assert(load_candidate(center, self.load_r(), self.loaded(), plan.to_load@[i]));
            }
            assert forall|i: int| 0 <= i < plan.to_unload@.len() implies col_interior(
                #[trigger] plan.to_unload@[i],
            ) by {
                let c = plan.to_unload@[i];
                assert(plan.to_unload@.contains(c));
                lemma_col_key(c);
            }
        }
        let ghost w0 = world@;
        let mut generated: Vec<(ChunkPos, Chunk)> = Vec::new();
        let mut i: usize = 0;
        while i < plan.to_load.len()
            invariant
                i <= plan.to_load@.len(),
                forall|x: i32, z: i32| generate.requires((x, z)),
                forall|x: i32, z: i32, out: Vec<(ChunkPos, Chunk)>|
                    #[trigger] generate.ensures((x, z), out) ==> column_generated((x, z), out@),
                forall|p: ChunkPos|
                    #[trigger] in_gen(generated@, p) <==> columns_chunks(plan.to_load@, i as int).contains(p),
                forall|j: int, k: int|
                    0 <= j < generated@.len() && 0 <= k < VOLUME ==> #[trigger] generated@[j].1@[k] < BLOCK_KINDS,
                generated@.len() == VERTICAL_CHUNKS * i,
                forall|j: int, y: int|
                    0 <= j < i && 0 <= y < VERTICAL_CHUNKS ==> generated@[VERTICAL_CHUNKS * j + y].0
                        == #[trigger] column_chunk(plan.to_load@, j, y) && generated_for(
                        *generate,
                        plan.to_load@[j],
                        y,
                        generated@[VERTICAL_CHUNKS * j + y].1,
                    ),
            decreases plan.to_load@.len() - i,
        {
            let c = plan.to_load[i];
            let mut out = generate(c.0, c.1);
            let ghost g0 = generated@;
            let ghost o = out@;
            let ghost out_snapshot = out;
            assert(column_generated(c, o));
            generated.append(&mut out);
            proof {
                assert forall|p: ChunkPos|
                    #[trigger] in_gen(generated@, p) <==> columns_chunks(plan.to_load@, i + 1).contains(p) by {
                    if in_gen(generated@, p) {
                        let j = choose|j: int| 0 <= j < generated@.len() && (#[trigger] generated@[j]).0 == p;
                        if j < g0.len() {
                            assert(g0[j] == generated@[j]);
                            assert(in_gen(g0, p));
                            let m = choose|m: int| 0 <= m < i && in_column(p, #[trigger] plan.to_load@[m]);
                            assert(columns_chunks(plan.to_load@, i + 1).contains(p));
                        } else {
                            assert(o[j - g0.len()] == generated@[j]);
                            assert(in_column(p, plan.to_load@[i as int]));
                        }
                    }
                    if columns_chunks(plan.to_load@, i + 1).contains(p) {
                        let m = choose|m: int| 0 <= m < i + 1 && in_column(p, #[trigger] plan.to_load@[m]);
                        if m < i {
                            assert(columns_chunks(plan.to_load@, i as int).contains(p));
                            assert(in_gen(g0, p));
                            let j = choose|j: int| 0 <= j < g0.len() && (#[trigger] g0[j]).0 == p;
                            assert(generated@[j] == g0[j]);
                        } else {
                            let y = p.y as int;
                            assert(o[y].0 == p);
                            assert(generated@[g0.len() + y] == o[y]);
                        }
                    }
                }
                assert forall|j: int, k: int|
                    0 <= j < generated@.len() && 0 <= k < VOLUME implies #[trigger] generated@[j].1@[k] < BLOCK_KINDS by {
                    if j < g0.len() {
                        assert(g0[j] == generated@[j]);
                        assert(g0[j].1@[k] < BLOCK_KINDS);
                    } else {
                        assert(o[j - g0.len()] == generated@[j]);
                        assert(o[j - g0.len()].1@[k] < BLOCK_KINDS);
                    }
                }
                assert forall|j: int, y: int|
                    0 <= j < i + 1 && 0 <= y < VERTICAL_CHUNKS implies generated@[VERTICAL_CHUNKS * j + y].0
                        == #[trigger] column_chunk(plan.to_load@, j, y) && generated_for(
                        *generate,
                        plan.to_load@[j],
                        y,
                        generated@[VERTICAL_CHUNKS * j + y].1,
                    ) by {
                    if j < i {
                        assert(generated@[VERTICAL_CHUNKS * j + y] == g0[VERTICAL_CHUNKS * j + y]);
                        assert(g0[VERTICAL_CHUNKS * j + y].0 == column_chunk(plan.to_load@, j, y) && generated_for(
                            *generate,
                            plan.to_load@[j],
                            y,
                            g0[VERTICAL_CHUNKS * j + y].1,
                        ));
                    } else {
                        assert(generated@[VERTICAL_CHUNKS * j + y] == o[y]);
                        assert(generate.ensures((c.0, c.1), out_snapshot));
                        assert(generate.ensures((plan.to_load@[j].0, plan.to_load@[j].1), out_snapshot)
                            && generated@[VERTICAL_CHUNKS * j + y].1 == out_snapshot@[y].1);
                    }
                }
            }
            i = i + 1;
        }
        let ghost gen = generated@;
        let ghost loaded0 = self.loaded();
        let (removed, remesh) = self.apply_update(world, &plan, generated);
        proof {
            use_type_invariant(&*self);
            lemma_insert_all(w0, gen);
            let n = plan.to_load@.len() as int;
            assert(world_known(world@));
            assert forall|p: ChunkPos| #[trigger] world@.contains_key(p) <==> ((w0.contains_key(p) || columns_chunks(
                plan.to_load@,
                n,
            ).contains(p)) && !columns_chunks(plan.to_unload@, plan.to_unload@.len() as int).contains(p)) by {
                assert(insert_all(w0, gen).contains_key(p) <==> (w0.contains_key(p) || in_gen(gen, p)));
            }
            assert forall|p: ChunkPos|
                world@.contains_key(p) && !columns_chunks(plan.to_load@, n).contains(p) implies #[trigger] world@[p]
                    == w0[p] by {
                assert(!in_gen(gen, p));
                assert(insert_all(w0, gen)[p] == w0[p]);
            }
            assert forall|j: int| 0 <= j < remesh@.len() implies mesh_pos_ok(#[trigger] remesh@[j]) by {
                let p = remesh@[j];
                assert(remesh@.contains(p));
                lemma_col_key((p.x, p.z));
            }
        }
        let mut meshes: Vec<(ChunkPos, ChunkMesh)> = Vec::new();
        let mut k: usize = 0;
        while k < remesh.len()
            invariant
                k <= remesh@.len(),
                meshes@.len() == k,
                world_known(world@),
                forall|j: int| 0 <= j < remesh@.len() ==> mesh_pos_ok(#[trigger] remesh@[j]),
                forall|j: int|
                    0 <= j < k ==> (#[trigger] meshes@[j]).0 == remesh@[j] && meshes_chunk(world@, meshes@[j].0, meshes@[j].1),
            decreases remesh@.len() - k,
        {
            let pos = remesh[k];
            proof {
                lemma_world_known_near(world@, pos);
            }
            let mesh = mesh_chunk(world, pos);
            meshes.push((pos, mesh));
            k = k + 1;
        }
        proof {
            assert(mesh_positions(meshes@) =~= remesh@);
        }
        let u = StreamingUpdate { meshes, removed };
        proof {
            lemma_generated_kept(
                w0,
                gen,
                world@,
                plan.to_load@,
                plan.to_unload@,
                *generate,
                center,
                old(self).load_r(),
                old(self).unload_r(),
                loaded0,
                load_budget as nat,
            );
            assert(streamed(
                center,
                old(self).load_r(),
                old(self).unload_r(),
                old(self).loaded(),
                load_budget as nat,
                old(world)@,
                self.loaded(),
                world@,
                u.removed@,
                mesh_positions(u.meshes@),
                plan.to_load@,
                plan.to_unload@,
            ));
        }
        u
    }

    /// The loaded columns, each once.
    pub fn loaded_columns(&self) -> (r: Vec<ColumnPos>)
        ensures
            r@.no_duplicates(),
            forall|c: ColumnPos| #[trigger] r@.contains(c) <==> self.loaded().contains(c),
    {
        let mut out: Vec<ColumnPos> = Vec::new();
        let ghost keys = vstd::std_specs::iter::IteratorSpec::remaining(&vstd::std_specs::hash::spec_hash_keys_iter(&self.loaded_columns)).unref();
        let ghost mut seen: int = 0;
        for kref in it: self.loaded_columns.iter()
            invariant
                keys == it.seq().unref(),
                seen == it.index(),
                it.seq().unref().to_set() == self.loaded_columns@,
                it.seq().unref().no_duplicates(),
                out@.no_duplicates(),
                forall|c: ColumnPos|
                    #[trigger] out@.contains(c) <==> exists|i: int|
                        0 <= i < it.index() && key_col(it.seq().unref()[i]) == c,
        {
            let ghost idx = it.index();
            let k = *kref;
            assert(0 <= idx < it.seq().len());
            assert(*it.seq()[idx] == k);
            assert(k == keys[idx]);
            let col = key_column(k);
            let ghost before = out@;
            proof {
                if before.contains(col) {
                    let i = choose|i: int| 0 <= i < idx && key_col(keys[i]) == col;
                    lemma_key_col(keys[i]);
                    lemma_key_col(k);
                    assert(keys[i] == keys[idx]);
                }
            }
            out.push(col);
            proof {
                assert forall|c: ColumnPos|
                    #[trigger] out@.contains(c) <==> exists|i: int| 0 <= i < idx + 1 && key_col(keys[i]) == c by {
                    if out@.contains(c) && c != col {
                        let m = choose|m: int| 0 <= m < out@.len() && out@[m] == c;
                        assert(before[m] == c);
                    }
                    if before.contains(c) {
                        let m = choose|m: int| 0 <= m < before.len() && before[m] == c;
                        assert(out@[m] == c);
                    }
                    if c == col {
                        assert(out@[out@.len() - 1] == col);
                    }
                }
                seen = seen + 1;
            }
        }
        assert(seen == keys.len());
        proof {
            assert forall|c: ColumnPos| #[trigger] out@.contains(c) <==> self.loaded().contains(c) by {
                let ks = keys;
                if out@.contains(c) {
                    let i = choose|i: int| 0 <= i < ks.len() && key_col(ks[i]) == c;
                    lemma_key_col(ks[i]);
                    assert(ks.to_set().contains(ks[i]));
                }
                if self.loaded().contains(c) {
                    assert(ks.to_set().contains(col_key(c)));
                    let i = choose|i: int| 0 <= i < ks.len() && ks[i] == col_key(c);
                    lemma_col_key(c);
                }
            }
        }
        out
    }

    pub fn new(seed: u32, load_radius: i32, unload_radius: i32) -> (r: Self)
        requires
            unload_radius >= load_radius,
        ensures
            r.seed_spec() == seed,
            r.load_r() == load_radius,
            r.unload_r() == unload_radius,
            r.loaded() == Set::<ColumnPos>::empty(),
    {
        let r = ChunkStreamer { seed, loaded_columns: HashSet::new(), load_radius, unload_radius };
        assert(r.loaded() =~= Set::<ColumnPos>::empty());
        r
    }

    /// The world seed the streamed columns are generated from.
    pub fn seed(&self) -> (r: u32)
        ensures
            r == self.seed_spec(),
    {
        self.seed
    }

    pub fn load_radius(&self) -> (r: i32)
        ensures
            r == self.load_r(),
    {
        self.load_radius
    }

    pub fn unload_radius(&self) -> (r: i32)
        ensures
            r == self.unload_r(),
    {
        self.unload_radius
    }

    /// Changes the load radius at runtime (e.g. from a `/settings rd` chat
    /// command), keeping the existing gap between load and unload radii (at
    /// least one) so hysteresis still holds. Columns aren't force-reloaded
    /// immediately: later updates converge on the new radius at the normal
    /// per-frame budget.
    pub fn set_load_radius(&mut self, load_radius: i32)
        requires
            load_radius + kept_gap(old(self).load_r(), old(self).unload_r()) <= i32::MAX,
        ensures
            final(self).load_r() == load_radius,
            final(self).unload_r() == load_radius + kept_gap(old(self).load_r(), old(self).unload_r()),
            final(self).loaded() == old(self).loaded(),
            final(self).seed_spec() == old(self).seed_spec(),
    {
        proof {
            use_type_invariant(&*self);
        }
        let diff = self.unload_radius as i64 - self.load_radius as i64;
        let gap = if diff > 1 {
            diff
        } else {
            1
        };
        let mut loaded_columns: HashSet<u64> = HashSet::new();
        std::mem::swap(&mut loaded_columns, &mut self.loaded_columns);
        *self = ChunkStreamer {
            seed: self.seed,
            loaded_columns,
            load_radius,
            unload_radius: (load_radius as i64 + gap) as i32,
        };
    }
}


/// Columns of the load disk lie within the unload radius (for a load radius
/// no larger than the unload radius).
proof fn lemma_disk_within_unload(center: ColumnPos, r: int, ru: int, c: ColumnPos)
    requires
        r <= ru,
        in_load_disk(center, r, c),
    ensures
        dist2(center, c) <= ru * ru,
{
    assert(r * r <= ru * ru) by (nonlinear_arith)
        requires
            0 <= r <= ru,
    ;
}

/// `a` and `b` are distinct columns sharing an edge.
pub open spec fn edge_neighbors(a: ColumnPos, b: ColumnPos) -> bool {
    (a.0 == b.0 && (a.1 - b.1 == 1 || b.1 - a.1 == 1)) || (a.1 == b.1 && (a.0 - b.0 == 1 || b.0 - a.0 == 1))
}

/// What a streaming step remeshes: every chunk of every column it loads,
/// and every chunk of a still-loaded column sharing an edge with a column it
/// loads or unloads (whose faces toward that column change); nothing else.
pub proof fn law_step_remeshes_loaded_columns_and_their_neighbors(
    center: ColumnPos,
    r: int,
    ru: int,
    loaded0: Set<ColumnPos>,
    budget: nat,
    world0: Map<ChunkPos, Chunk>,
    loaded1: Set<ColumnPos>,
    world1: Map<ChunkPos, Chunk>,
    removed: Seq<ChunkPos>,
    remeshed: Seq<ChunkPos>,
    to_load: Seq<ColumnPos>,
    to_unload: Seq<ColumnPos>,
)
    requires
        streamed(center, r, ru, loaded0, budget, world0, loaded1, world1, removed, remeshed, to_load, to_unload),
    ensures
        forall|i: int, y: int|
            0 <= i < to_load.len() && 0 <= y < VERTICAL_CHUNKS ==> remeshed.contains(
                #[trigger] column_chunk(to_load, i, y),
            ),
        forall|p: ChunkPos, a: ColumnPos|
            0 <= p.y < VERTICAL_CHUNKS && loaded1.contains((p.x, p.z)) && edge_neighbors((p.x, p.z), a) && (
            #[trigger] to_load.contains(a) || to_unload.contains(a)) ==> #[trigger] remeshed.contains(p),
        forall|p: ChunkPos|
            #[trigger] remeshed.contains(p) ==> 0 <= p.y < VERTICAL_CHUNKS && loaded1.contains((p.x, p.z)) && (
            to_load.contains((p.x, p.z)) || exists|a: ColumnPos|
                #![trigger edge_neighbors((p.x, p.z), a)]
                edge_neighbors((p.x, p.z), a) && (to_load.contains(a) || to_unload.contains(a))),
{
    assert forall|i: int, y: int|
        0 <= i < to_load.len() && 0 <= y < VERTICAL_CHUNKS implies remeshed.contains(
            #[trigger] column_chunk(to_load, i, y),
        ) by {
        let p = column_chunk(to_load, i, y);
        let c = to_load[i];
        assert((p.x, p.z) == c);
        assert(near_col(c, to_load[i]));
        assert(touched(to_load, (p.x, p.z)));
        assert(load_candidate(center, r, loaded0, to_load[i]));
        assert(to_load.contains(c));
        assert(!to_unload.contains(c));
        assert(loaded1.contains(c));
    }
    assert forall|p: ChunkPos, a: ColumnPos|
        0 <= p.y < VERTICAL_CHUNKS && loaded1.contains((p.x, p.z)) && edge_neighbors((p.x, p.z), a) && (
        #[trigger] to_load.contains(a) || to_unload.contains(a)) implies #[trigger] remeshed.contains(p) by {
        let c: ColumnPos = (p.x, p.z);
        if to_load.contains(a) {
            let i = choose|i: int| 0 <= i < to_load.len() && to_load[i] == a;
            assert(near_col(c, to_load[i]));
        } else {
            let i = choose|i: int| 0 <= i < to_unload.len() && to_unload[i] == a;
            assert(near_col(c, to_unload[i]));
        }
    }
    assert forall|p: ChunkPos| #[trigger] remeshed.contains(p) implies 0 <= p.y < VERTICAL_CHUNKS
        && loaded1.contains((p.x, p.z)) && (to_load.contains((p.x, p.z)) || exists|a: ColumnPos|
        #![trigger edge_neighbors((p.x, p.z), a)]
        edge_neighbors((p.x, p.z), a) && (to_load.contains(a) || to_unload.contains(a))) by {
        let c: ColumnPos = (p.x, p.z);
        if touched(to_load, c) {
            let i = choose|i: int| 0 <= i < to_load.len() && near_col(c, #[trigger] to_load[i]);
            assert(to_load.contains(to_load[i]));
            if c != to_load[i] {
                let a = to_load[i];
                assert(edge_neighbors(c, a) && (to_load.contains(a) || to_unload.contains(a)));
            }
        } else {
            let i = choose|i: int| 0 <= i < to_unload.len() && near_col(c, #[trigger] to_unload[i]);
            assert(to_unload.contains(to_unload[i]));
            assert(!loaded1.contains(to_unload[i]));
            let a = to_unload[i];
            assert(c != a);
            assert(edge_neighbors(c, a) && (to_load.contains(a) || to_unload.contains(a)));
        }
    }
}

/// A step whose budget was not used up loads every column of the load disk,
/// and keeps loaded only columns within the unload radius.
pub proof fn law_full_step_loads_disk(
    center: ColumnPos,
    r: int,
    ru: int,
    loaded0: Set<ColumnPos>,
    budget: nat,
    world0: Map<ChunkPos, Chunk>,
    loaded1: Set<ColumnPos>,
    world1: Map<ChunkPos, Chunk>,
    removed: Seq<ChunkPos>,
    remeshed: Seq<ChunkPos>,
    to_load: Seq<ColumnPos>,
    to_unload: Seq<ColumnPos>,
)
    requires
        r <= ru,
        streamed(center, r, ru, loaded0, budget, world0, loaded1, world1, removed, remeshed, to_load, to_unload),
        to_load.len() < budget,
    ensures
        forall|c: ColumnPos| #[trigger] in_load_disk(center, r, c) ==> loaded1.contains(c),
        forall|c: ColumnPos| #[trigger] loaded1.contains(c) ==> dist2(center, c) <= ru * ru,
{
    assert forall|c: ColumnPos| #[trigger] in_load_disk(center, r, c) implies loaded1.contains(c) by {
        lemma_disk_within_unload(center, r, ru, c);
        if !loaded0.contains(c) {
            assert(load_candidate(center, r, loaded0, c));
            assert(to_load.contains(c));
        }
        assert(!to_unload.contains(c));
    }
    assert forall|c: ColumnPos| #[trigger] loaded1.contains(c) implies dist2(center, c) <= ru * ru by {
        if to_load.contains(c) {
            let i = choose|i: int| 0 <= i < to_load.len() && to_load[i] == c;
            assert(load_candidate(center, r, loaded0, to_load[i]));
            lemma_disk_within_unload(center, r, ru, c);
        } else {
            assert(!to_unload.contains(c));
        }
    }
}

/// The first step of a fresh streamer in an empty world, with a budget it
/// does not use up, loads exactly the columns of the load disk (a disc, not
/// a square) and exactly their chunks.
pub proof fn law_first_step_loads_exactly_disk(
    center: ColumnPos,
    r: int,
    ru: int,
    budget: nat,
    loaded1: Set<ColumnPos>,
    world1: Map<ChunkPos, Chunk>,
    removed: Seq<ChunkPos>,
    remeshed: Seq<ChunkPos>,
    to_load: Seq<ColumnPos>,
    to_unload: Seq<ColumnPos>,
)
    requires
        r <= ru,
        streamed(
            center,
            r,
            ru,
            Set::empty(),
            budget,
            Map::empty(),
            loaded1,
            world1,
            removed,
            remeshed,
            to_load,
            to_unload,
        ),
        to_load.len() < budget,
    ensures
        forall|c: ColumnPos| #[trigger] loaded1.contains(c) <==> in_load_disk(center, r, c),
        forall|p: ChunkPos|
            #[trigger] world1.contains_key(p) <==> (0 <= p.y < VERTICAL_CHUNKS && in_load_disk(center, r, (p.x, p.z))),
{
    law_full_step_loads_disk(
        center,
        r,
        ru,
        Set::empty(),
        budget,
        Map::empty(),
        loaded1,
        world1,
        removed,
        remeshed,
        to_load,
        to_unload,
    );
    assert(to_unload.len() == 0) by {
        if to_unload.len() > 0 {
            assert(to_unload.contains(to_unload[0]));
        }
    }
    assert forall|c: ColumnPos| #[trigger] loaded1.contains(c) implies in_load_disk(center, r, c) by {
        let i = choose|i: int| 0 <= i < to_load.len() && to_load[i] == c;
        assert(load_candidate(center, r, Set::empty(), to_load[i]));
    }
    assert forall|p: ChunkPos|
        #[trigger] world1.contains_key(p) <==> (0 <= p.y < VERTICAL_CHUNKS && in_load_disk(center, r, (p.x, p.z))) by {
        let c: ColumnPos = (p.x, p.z);
        if world1.contains_key(p) {
            assert(columns_chunks(to_load, to_load.len() as int).contains(p));
            let i = choose|i: int| 0 <= i < to_load.len() && in_column(p, #[trigger] to_load[i]);
            assert(to_load[i] == c);
            assert(load_candidate(center, r, Set::empty(), to_load[i]));
        }
        if 0 <= p.y < VERTICAL_CHUNKS && in_load_disk(center, r, c) {
            assert(load_candidate(center, r, Set::empty(), c));
            assert(to_load.contains(c));
            let i = choose|i: int| 0 <= i < to_load.len() && to_load[i] == c;
            assert(in_column(p, to_load[i]));
            assert(columns_chunks(to_load, to_load.len() as int).contains(p));
            assert(!columns_chunks(to_unload, 0).contains(p));
        }
    }
}

/// Standing still does not churn: after a step whose budget was not used
/// up, a second step around the same center, with any budget, loads,
/// unloads, removes and remeshes nothing, and leaves the loaded columns and
/// the world as they were.
pub proof fn law_standing_still_settles(
    center: ColumnPos,
    r: int,
    ru: int,
    loaded0: Set<ColumnPos>,
    budget: nat,
    world0: Map<ChunkPos, Chunk>,
    loaded1: Set<ColumnPos>,
    world1: Map<ChunkPos, Chunk>,
    removed1: Seq<ChunkPos>,
    remeshed1: Seq<ChunkPos>,
    to_load1: Seq<ColumnPos>,
    to_unload1: Seq<ColumnPos>,
    budget2: nat,
    loaded2: Set<ColumnPos>,
    world2: Map<ChunkPos, Chunk>,
    removed2: Seq<ChunkPos>,
    remeshed2: Seq<ChunkPos>,
    to_load2: Seq<ColumnPos>,
    to_unload2: Seq<ColumnPos>,
)
    requires
        r <= ru,
        streamed(center, r, ru, loaded0, budget, world0, loaded1, world1, removed1, remeshed1, to_load1, to_unload1),
        to_load1.len() < budget,
        streamed(center, r, ru, loaded1, budget2, world1, loaded2, world2, removed2, remeshed2, to_load2, to_unload2),
    ensures
        removed2.len() == 0,
        remeshed2.len() == 0,
        loaded2 == loaded1,
        world2 == world1,
{
    law_full_step_loads_disk(
        center,
        r,
        ru,
        loaded0,
        budget,
        world0,
        loaded1,
        world1,
        removed1,
        remeshed1,
        to_load1,
        to_unload1,
    );
    assert(to_load2.len() == 0) by {
        if to_load2.len() > 0 {
            assert(load_candidate(center, r, loaded1, to_load2[0]));
        }
    }
    assert(to_unload2.len() == 0) by {
        if to_unload2.len() > 0 {
            assert(to_unload2.contains(to_unload2[0]));
        }
    }
    assert(remeshed2.len() == 0) by {
        if remeshed2.len() > 0 {
            let p = remeshed2[0];
            assert(remeshed2.contains(p));
            let c: ColumnPos = (p.x, p.z);
            if touched(to_load2, c) {
                let i = choose|i: int| 0 <= i < to_load2.len() && near_col(c, #[trigger] to_load2[i]);
            }
            if touched(to_unload2, c) {
                let i = choose|i: int| 0 <= i < to_unload2.len() && near_col(c, #[trigger] to_unload2[i]);
            }
        }
    }
    assert(loaded2 =~= loaded1);
    assert forall|p: ChunkPos| #[trigger] world2.contains_key(p) <==> world1.contains_key(p) by {
        if columns_chunks(to_load2, 0).contains(p) {
            let i = choose|i: int| 0 <= i < 0 && in_column(p, #[trigger] to_load2[i]);
        }
    }
    assert(world2 =~= world1);
}

} // verus!
