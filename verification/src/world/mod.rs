//! The voxel world: block ids, chunk storage, chunk positions and the map of
//! loaded chunks.

pub mod bits;
pub mod block;
pub mod chunk;

use block::{AIR, BlockId};
use chunk::{CHUNK_SIZE_I32, Chunk, voxel_index_spec};
use std::collections::HashMap;
use vstd::prelude::*;

verus! {

broadcast use vstd::std_specs::hash::group_hash_axioms;

/// An integer 3D vector: a chunk position (in chunks) or a world block
/// position (in blocks).
#[derive(Clone, Copy, PartialEq, Eq, Structural, Debug, Hash)]
pub struct Pos3 {
    pub x: i32,
    pub y: i32,
    pub z: i32,
}

impl Pos3 {
    pub fn new(x: i32, y: i32, z: i32) -> (r: Self)
        ensures
            r == (Pos3 { x, y, z }),
    {
        Pos3 { x, y, z }
    }
}

pub type ChunkPos = Pos3;

/// The chunk holding a world block position, and the block's coordinates
/// inside it (Euclidean division by the chunk size).
pub open spec fn chunk_of(p: Pos3) -> Pos3 {
    Pos3 {
        x: (p.x as int / 32) as i32,
        y: (p.y as int / 32) as i32,
        z: (p.z as int / 32) as i32,
    }
}

pub open spec fn local_of(p: Pos3) -> (int, int, int) {
    (p.x as int % 32, p.y as int % 32, p.z as int % 32)
}

/// Converts a world-space block coordinate into (chunk position, local voxel coordinate).
pub fn world_to_chunk(world_pos: Pos3) -> (r: (ChunkPos, [usize; 3]))
    ensures
        r.0 == chunk_of(world_pos),
        r.1[0] as int == local_of(world_pos).0,
        r.1[1] as int == local_of(world_pos).1,
        r.1[2] as int == local_of(world_pos).2,
        r.1[0] < 32 && r.1[1] < 32 && r.1[2] < 32,
{
    let cx = world_pos.x.checked_div_euclid(CHUNK_SIZE_I32).unwrap();
    let cy = world_pos.y.checked_div_euclid(CHUNK_SIZE_I32).unwrap();
    let cz = world_pos.z.checked_div_euclid(CHUNK_SIZE_I32).unwrap();
    let lx = world_pos.x.checked_rem_euclid(CHUNK_SIZE_I32).unwrap();
    let ly = world_pos.y.checked_rem_euclid(CHUNK_SIZE_I32).unwrap();
    let lz = world_pos.z.checked_rem_euclid(CHUNK_SIZE_I32).unwrap();
    (Pos3 { x: cx, y: cy, z: cz }, [lx as usize, ly as usize, lz as usize])
}

/// World-space position of a chunk's minimum corner.
pub open spec fn origin_of(c: Pos3) -> (int, int, int) {
    (c.x * 32, c.y * 32, c.z * 32)
}

/// Chunk coordinates whose origin is representable.
pub open spec fn origin_fits(c: Pos3) -> bool {
    &&& i32::MIN <= c.x * 32 <= i32::MAX
    &&& i32::MIN <= c.y * 32 <= i32::MAX
    &&& i32::MIN <= c.z * 32 <= i32::MAX
}

/// World-space position of a chunk's minimum corner.
pub fn chunk_origin(chunk_pos: ChunkPos) -> (r: Pos3)
    requires
        origin_fits(chunk_pos),
    ensures
        (r.x as int, r.y as int, r.z as int) == origin_of(chunk_pos),
{
    Pos3 {
        x: chunk_pos.x * CHUNK_SIZE_I32,
        y: chunk_pos.y * CHUNK_SIZE_I32,
        z: chunk_pos.z * CHUNK_SIZE_I32,
    }
}

/// Injective encoding of a position as a hash-map key.
pub open spec fn pos_key(p: Pos3) -> u128 {
    ((p.x as int + 0x8000_0000) * 0x1_0000_0000_0000_0000 + (p.y as int + 0x8000_0000)
        * 0x1_0000_0000 + (p.z as int + 0x8000_0000)) as u128
}

proof fn lemma_pos_key_injective(a: Pos3, b: Pos3)
    ensures
        pos_key(a) == pos_key(b) ==> a == b,
{
    let ax = a.x as int + 0x8000_0000;
    let ay = a.y as int + 0x8000_0000;
    let az = a.z as int + 0x8000_0000;
    let bx = b.x as int + 0x8000_0000;
    let by_ = b.y as int + 0x8000_0000;
    let bz = b.z as int + 0x8000_0000;
    let ka = ax * 0x1_0000_0000_0000_0000 + ay * 0x1_0000_0000 + az;
    let kb = bx * 0x1_0000_0000_0000_0000 + by_ * 0x1_0000_0000 + bz;
    assert(0 <= ka < 0x1_0000_0000_0000_0000_0000_0000) by (nonlinear_arith)
        requires
            0 <= ax < 0x1_0000_0000,
            0 <= ay < 0x1_0000_0000,
            0 <= az < 0x1_0000_0000,
            ka == ax * 0x1_0000_0000_0000_0000 + ay * 0x1_0000_0000 + az,
    ;
    assert(0 <= kb < 0x1_0000_0000_0000_0000_0000_0000) by (nonlinear_arith)
        requires
            0 <= bx < 0x1_0000_0000,
            0 <= by_ < 0x1_0000_0000,
            0 <= bz < 0x1_0000_0000,
            kb == bx * 0x1_0000_0000_0000_0000 + by_ * 0x1_0000_0000 + bz,
    ;
    if ka == kb {
        let ha = ax * 0x1_0000_0000 + ay;
        let hb = bx * 0x1_0000_0000 + by_;
        assert(ka == ha * 0x1_0000_0000 + az);
        assert(kb == hb * 0x1_0000_0000 + bz);
        vstd::arithmetic::div_mod::lemma_fundamental_div_mod_converse(ka, 0x1_0000_0000, ha, az);
        vstd::arithmetic::div_mod::lemma_fundamental_div_mod_converse(kb, 0x1_0000_0000, hb, bz);
        vstd::arithmetic::div_mod::lemma_fundamental_div_mod_converse(ha, 0x1_0000_0000, ax, ay);
        vstd::arithmetic::div_mod::lemma_fundamental_div_mod_converse(hb, 0x1_0000_0000, bx, by_);
    }
}

/// The position a key below 2^96 encodes (inverse of `pos_key`).
pub open spec fn key_pos(k: u128) -> Pos3 {
    Pos3 {
        x: (k as int / 0x1_0000_0000_0000_0000 - 0x8000_0000) as i32,
        y: ((k as int / 0x1_0000_0000) % 0x1_0000_0000 - 0x8000_0000) as i32,
        z: (k as int % 0x1_0000_0000 - 0x8000_0000) as i32,
    }
}

proof fn lemma_pos_key_bound(p: Pos3)
    ensures
        pos_key(p) < 0x1_0000_0000_0000_0000_0000_0000,
        pos_key(p) as int == (p.x as int + 0x8000_0000) * 0x1_0000_0000_0000_0000 + (p.y as int + 0x8000_0000)
            * 0x1_0000_0000 + (p.z as int + 0x8000_0000),
{
    let x = p.x as int + 0x8000_0000;
    let y = p.y as int + 0x8000_0000;
    let z = p.z as int + 0x8000_0000;
    assert(0 <= x * 0x1_0000_0000_0000_0000 + y * 0x1_0000_0000 + z < 0x1_0000_0000_0000_0000_0000_0000)
        by (nonlinear_arith)
        requires
            0 <= x < 0x1_0000_0000,
            0 <= y < 0x1_0000_0000,
            0 <= z < 0x1_0000_0000,
    ;
}

proof fn lemma_key_pos(k: u128)
    requires
        k < 0x1_0000_0000_0000_0000_0000_0000,
    ensures
        pos_key(key_pos(k)) == k,
{
    let ki = k as int;
    let hi = ki / 0x1_0000_0000;
    let c = ki % 0x1_0000_0000;
    let a = hi / 0x1_0000_0000;
    let b = hi % 0x1_0000_0000;
    vstd::arithmetic::div_mod::lemma_fundamental_div_mod(ki, 0x1_0000_0000);
    vstd::arithmetic::div_mod::lemma_fundamental_div_mod(hi, 0x1_0000_0000);
    vstd::arithmetic::div_mod::lemma_div_denominator(ki, 0x1_0000_0000, 0x1_0000_0000);
    assert(a == ki / 0x1_0000_0000_0000_0000);
    assert(0 <= a < 0x1_0000_0000) by {
        vstd::arithmetic::div_mod::lemma_div_pos_is_pos(ki, 0x1_0000_0000_0000_0000);
        vstd::arithmetic::div_mod::lemma_div_is_ordered(
            ki,
            0x1_0000_0000_0000_0000_0000_0000 - 1,
            0x1_0000_0000_0000_0000,
        );
    }
    assert(ki == a * 0x1_0000_0000_0000_0000 + b * 0x1_0000_0000 + c) by (nonlinear_arith)
        requires
            ki == hi * 0x1_0000_0000 + c,
            hi == a * 0x1_0000_0000 + b,
    ;
    lemma_pos_key_bound(key_pos(k));
}

fn pos_of_key(k: u128) -> (p: Pos3)
    requires
        k < 0x1_0000_0000_0000_0000_0000_0000,
    ensures
        p == key_pos(k),
{
    proof {
        lemma_key_pos(k);
    }
    let x = (k / 0x1_0000_0000_0000_0000) as i64 - 0x8000_0000;
    let y = ((k / 0x1_0000_0000) % 0x1_0000_0000) as i64 - 0x8000_0000;
    let z = (k % 0x1_0000_0000) as i64 - 0x8000_0000;
    Pos3 { x: x as i32, y: y as i32, z: z as i32 }
}

fn key_of(p: Pos3) -> (k: u128)
    ensures
        k == pos_key(p),
{
    let x = (p.x as i64 + 0x8000_0000) as u128;
    let y = (p.y as i64 + 0x8000_0000) as u128;
    let z = (p.z as i64 + 0x8000_0000) as u128;
    assert(x * 0x1_0000_0000_0000_0000 + y * 0x1_0000_0000 + z < 0x1_0000_0000_0000_0000_0000_0000)
        by (nonlinear_arith)
        requires
            x < 0x1_0000_0000,
            y < 0x1_0000_0000,
            z < 0x1_0000_0000,
    ;
    x * 0x1_0000_0000_0000_0000 + y * 0x1_0000_0000 + z
}

/// The block at a world position: the loaded chunk's block there, or air
/// where no chunk is loaded.
pub open spec fn block_at(chunks: Map<ChunkPos, Chunk>, p: Pos3) -> BlockId {
    let c = chunk_of(p);
    let l = local_of(p);
    if chunks.contains_key(c) {
        chunks[c]@[voxel_index_spec(l.0, l.1, l.2)]
    } else {
        AIR
    }
}

/// Every loaded chunk, keyed by chunk position.
pub struct World {
    chunks: HashMap<u128, Chunk>,
}

impl View for World {
    type V = Map<ChunkPos, Chunk>;

    closed spec fn view(&self) -> Map<ChunkPos, Chunk> {
        Map::new(
            |p: ChunkPos| self.chunks@.contains_key(pos_key(p)),
            |p: ChunkPos| self.chunks@[pos_key(p)],
        )
    }
}

impl World {
    #[verifier::type_invariant]
    spec fn inv(self) -> bool {
        forall|k: u128| #[trigger] self.chunks@.contains_key(k) ==> k < 0x1_0000_0000_0000_0000_0000_0000
    }

    pub fn new() -> (r: Self)
        ensures
            r@ == Map::<ChunkPos, Chunk>::empty(),
    {
        let r = World { chunks: HashMap::new() };
        assert(r@ =~= Map::<ChunkPos, Chunk>::empty());
        r
    }

    /// Stores `chunk` at `pos`, replacing any chunk there.
    pub fn insert_chunk(&mut self, pos: ChunkPos, chunk: Chunk)
        ensures
            final(self)@ == old(self)@.insert(pos, chunk),
    {
        let k = key_of(pos);
        proof {
            use_type_invariant(&*self);
            lemma_pos_key_bound(pos);
        }
        let mut chunks: HashMap<u128, Chunk> = HashMap::new();
        std::mem::swap(&mut chunks, &mut self.chunks);
        chunks.insert(k, chunk);
        *self = World { chunks };
        proof {
            assert forall|p: ChunkPos| #[trigger] self@.contains_key(p) == old(self)@.insert(
                pos,
                chunk,
            ).contains_key(p) by {
                lemma_pos_key_injective(p, pos);
            }
            assert forall|p: ChunkPos| self@.contains_key(p) implies #[trigger] self@[p] == old(
                self,
            )@.insert(pos, chunk)[p] by {
                lemma_pos_key_injective(p, pos);
            }
        }
        assert(self@ =~= old(self)@.insert(pos, chunk));
    }

    /// Drops the chunk at `pos`, if any.
    pub fn remove_chunk(&mut self, pos: ChunkPos)
        ensures
            final(self)@ == old(self)@.remove(pos),
    {
        let k = key_of(pos);
        proof {
            use_type_invariant(&*self);
        }
        let mut chunks: HashMap<u128, Chunk> = HashMap::new();
        std::mem::swap(&mut chunks, &mut self.chunks);
        chunks.remove(&k);
        *self = World { chunks };
        proof {
            assert forall|p: ChunkPos| #[trigger] self@.contains_key(p) == old(self)@.remove(
                pos,
            ).contains_key(p) by {
                lemma_pos_key_injective(p, pos);
            }
        }
        assert(self@ =~= old(self)@.remove(pos));
    }

    /// The chunk at `pos`, if loaded.
    pub fn chunk(&self, pos: ChunkPos) -> (r: Option<&Chunk>)
        ensures
            match r {
                Some(c) => self@.contains_key(pos) && *c == self@[pos],
                None => !self@.contains_key(pos),
            },
    {
        let k = key_of(pos);
        self.chunks.get(&k)
    }

    /// The positions of the loaded chunks, each once.
    pub fn loaded_chunk_positions(&self) -> (r: Vec<ChunkPos>)
        ensures
            r@.no_duplicates(),
            forall|p: ChunkPos| #[trigger] r@.contains(p) <==> self@.contains_key(p),
    {
        proof {
            use_type_invariant(self);
        }
        let mut out: Vec<ChunkPos> = Vec::new();
        let ghost keys = vstd::std_specs::iter::IteratorSpec::remaining(&vstd::std_specs::hash::spec_keys_iter(&self.chunks)).unref();
        let ghost mut seen: int = 0;
        for kref in it: self.chunks.keys()
            invariant
                keys == it.seq().unref(),
                seen == it.index(),
                it.seq().unref().to_set() == self.chunks@.dom(),
                it.seq().unref().no_duplicates(),
                forall|k: u128| #[trigger] self.chunks@.contains_key(k) ==> k < 0x1_0000_0000_0000_0000_0000_0000,
                out@.no_duplicates(),
                forall|p: ChunkPos|
                    #[trigger] out@.contains(p) <==> exists|i: int|
                        0 <= i < it.index() && key_pos(it.seq().unref()[i]) == p,
        {
            let ghost idx = it.index();
            let k = *kref;
            assert(0 <= idx < it.seq().len());
            assert(*it.seq()[idx] == k);
            assert(k == keys[idx]);
            assert(keys.to_set().contains(k));
            let p = pos_of_key(k);
            let ghost before = out@;
            proof {
                if before.contains(p) {
                    let i = choose|i: int| 0 <= i < idx && key_pos(keys[i]) == p;
                    assert(keys.to_set().contains(keys[i]));
                    lemma_key_pos(keys[i]);
                    lemma_key_pos(k);
                    assert(keys[i] == keys[idx]);
                }
            }
            out.push(p);
            proof {
                assert forall|q: ChunkPos|
                    #[trigger] out@.contains(q) <==> exists|i: int| 0 <= i < idx + 1 && key_pos(keys[i]) == q by {
                    if out@.contains(q) && q != p {
                        let m = choose|m: int| 0 <= m < out@.len() && out@[m] == q;
                        assert(before[m] == q);
                    }
                    if before.contains(q) {
                        let m = choose|m: int| 0 <= m < before.len() && before[m] == q;
                        assert(out@[m] == q);
                    }
                    if q == p {
                        assert(out@[out@.len() - 1] == p);
                    }
                }
                seen = seen + 1;
            }
        }
        assert(seen == keys.len());
        proof {
            assert forall|p: ChunkPos| #[trigger] out@.contains(p) <==> self@.contains_key(p) by {
                if out@.contains(p) {
                    let i = choose|i: int| 0 <= i < keys.len() && key_pos(keys[i]) == p;
                    assert(keys.to_set().contains(keys[i]));
                    lemma_key_pos(keys[i]);
                }
                if self@.contains_key(p) {
                    assert(keys.to_set().contains(pos_key(p)));
                    let i = choose|i: int| 0 <= i < keys.len() && keys[i] == pos_key(p);
                    lemma_pos_key_bound(p);
                    lemma_key_pos(keys[i]);
                    lemma_pos_key_injective(key_pos(keys[i]), p);
                }
            }
        }
        out
    }

    /// The block at a world position (air where nothing is loaded).
    pub fn get_block(&self, world_pos: Pos3) -> (r: BlockId)
        ensures
            r == block_at(self@, world_pos),
    {
        let (chunk_pos, local) = world_to_chunk(world_pos);
        match self.chunk(chunk_pos) {
            Some(chunk) => chunk.get(local[0], local[1], local[2]),
            None => AIR,
        }
    }
}

impl Default for World {
    fn default() -> (r: Self)
        ensures
            r@ == Map::<ChunkPos, Chunk>::empty(),
    {
        Self::new()
    }
}

} // verus!
pub mod meshing;
pub mod generation;
pub mod streaming;
