//! Palette-compressed storage of a cubic chunk of blocks.

use super::bits::{
    bit64, bits_value, lemma_bits_value_eq, lemma_bits_value_zero, lemma_div32, lemma_field64,
    lemma_field_matches, lemma_mask_idempotent, lemma_masked_fits, lemma_read_straddle,
    lemma_write_high_part, lemma_write_low_part, lemma_write_within, lemma_zero_bit, low_mask,
    word_bit, bit_length, lemma_bit_length_leading_zeros, lemma_bit_length_fits,
    lemma_bit_length_bound,
};
use super::block::{AIR, BlockId};
use vstd::prelude::*;

verus! {

pub const CHUNK_SIZE: usize = 32;

pub const CHUNK_SIZE_I32: i32 = 32;

pub const VOLUME: usize = 32768;

/// Position of voxel `(x, y, z)` in the dense, row-major order used by chunks:
/// `x` fastest, then `z`, then `y`.
pub open spec fn voxel_index_spec(x: int, y: int, z: int) -> int {
    x + z * 32 + y * 1024
}

/// Dense index of the voxel at local coordinates `(x, y, z)`.
pub fn voxel_index(x: usize, y: usize, z: usize) -> (r: usize)
    requires
        x + z * 32 + y * 1024 <= usize::MAX,
    ensures
        r == voxel_index_spec(x as int, y as int, z as int),
{
    x + z * CHUNK_SIZE + y * CHUNK_SIZE * CHUNK_SIZE
}

proof fn lemma_mask_monotone(v: u64, b1: u64, b2: u64)
    requires
        b1 <= b2 <= 32,
        v <= low_mask(b1),
    ensures
        v <= low_mask(b2),
{
    assert(v <= (((1u64 << b2) - 1) as u64)) by (bit_vector)
        requires
            b1 <= b2 <= 32,
            v <= (((1u64 << b1) - 1) as u64),
    ;
}

proof fn lemma_mask_le(v: u64, m: u64, b: u64)
    requires
        v <= m,
        m <= low_mask(b),
    ensures
        v <= low_mask(b),
{
}

proof fn lemma_entry_range(i: int, n: int, b: int)
    requires
        0 <= i < n,
        0 <= b,
    ensures
        i * b + b <= n * b,
        0 <= i * b,
{
    assert(i * b + b <= n * b) by (nonlinear_arith)
        requires
            0 <= i < n,
            0 <= b,
    ;
    assert(0 <= i * b) by (nonlinear_arith)
        requires
            0 <= i,
            0 <= b,
    ;
}

proof fn lemma_entries_disjoint(i: int, j: int, b: int)
    requires
        0 <= i,
        0 <= j,
        i != j,
        0 <= b,
    ensures
        j * b + b <= i * b || i * b + b <= j * b,
{
    if j < i {
        assert(j * b + b <= i * b) by (nonlinear_arith)
            requires
                j < i,
                0 <= b,
        ;
    } else {
        assert(i * b + b <= j * b) by (nonlinear_arith)
            requires
                i < j,
                0 <= b,
        ;
    }
}

/// A packed array of fixed-width unsigned integers, backed by `u32` words.
/// Entries may straddle a word boundary.
pub struct BitBuffer {
    len: usize,
    bits_per_entry: u8,
    words: Vec<u32>,
}

impl BitBuffer {
    /// Widths of 1 to 32 bits, a length whose bit count fits `usize`, and
    /// enough words to hold every entry.
    pub closed spec fn wf(&self) -> bool {
        &&& 1 <= self.bits_per_entry <= 32
        &&& self.len * self.bits_per_entry <= usize::MAX
        &&& self.words.len() * 32 >= self.len * self.bits_per_entry
    }

    pub closed spec fn len_spec(&self) -> nat {
        self.len as nat
    }

    pub closed spec fn width(&self) -> nat {
        self.bits_per_entry as nat
    }

    /// Value of entry `i`: bits `i * b .. i * b + b` of the words.
    pub closed spec fn entry(&self, i: int) -> int {
        bits_value(self.words@, i * self.bits_per_entry, self.bits_per_entry as nat)
    }

    /// A buffer of `len` entries of `bits_per_entry` bits each, all zero.
    pub fn new(len: usize, bits_per_entry: u8) -> (r: Self)
        requires
            1 <= bits_per_entry <= 32,
            len * bits_per_entry <= usize::MAX,
        ensures
            r.wf(),
            r.len_spec() == len,
            r.width() == bits_per_entry,
            forall|i: int| 0 <= i < len ==> r.entry(i) == 0,
    {
        let total_bits = len * bits_per_entry as usize;
        let n_words = total_bits / 32 + if total_bits % 32 != 0 {
            1
        } else {
            0
        };
        let mut words: Vec<u32> = Vec::new();
        let mut k: usize = 0;
        while k < n_words
            invariant
                k <= n_words,
                words.len() == k,
                forall|m: int| 0 <= m < k ==> words@[m] == 0,
            decreases n_words - k,
        {
            words.push(0);
            k = k + 1;
        }
        let r = BitBuffer { len, bits_per_entry, words };
        proof {
            assert forall|k: int| 0 <= k < r.words@.len() * 32 implies #[trigger] word_bit(
                r.words@,
                k,
            ) == 0 by {
                lemma_zero_bit((k % 32) as u64);
            }
            assert forall|i: int| 0 <= i < len implies r.entry(i) == 0 by {
                let b = bits_per_entry as int;
                lemma_entry_range(i, len as int, b);
                lemma_bits_value_zero(r.words@, i * b, b as nat);
            }
        }
        r
    }

    /// Entry `index`.
    pub fn get(&self, index: usize) -> (r: u32)
        requires
            self.wf(),
            index < self.len_spec(),
        ensures
            r as int == self.entry(index as int),
            r as u64 <= low_mask(self.width() as u64),
    {
        let bb: u64 = self.bits_per_entry as u64;
        let b = self.bits_per_entry as usize;
        proof {
            lemma_entry_range(index as int, self.len as int, b as int);
        }
        let bit_start = index * b;
        let word_idx = bit_start / 32;
        let bit_off = bit_start % 32;
        let off = bit_off as u64;
        assert(1u64 << bb >= 1) by (bit_vector)
            requires
                bb <= 32,
        ;
        let mask: u64 = (1u64 << bb) - 1;
        let ghost words = self.words@;
        let ghost start = bit_start as int;
        assert(start == word_idx * 32 + bit_off);
        let lo = self.words[word_idx] as u64;
        let value = if bit_off + b <= 32 {
            lo >> off
        } else {
            let hi = self.words[word_idx + 1] as u64;
            (lo >> off) | (hi << (32 - off))
        };
        proof {
            lemma_masked_fits(value, bb);
            assert((value & mask) as u32 as u64 == value & mask);
            if bit_off + b <= 32 {
                lemma_field64(lo, off, bb);
                assert forall|k: int| start <= k < start + b implies #[trigger] word_bit(words, k)
                    == bit64(lo, (k - start + off) as u64) by {
                    lemma_div32(word_idx as int, k - start + off);
                }
                lemma_field_matches(lo, off, words, start, b as nat);
            } else {
                let hi = words[word_idx + 1] as u64;
                assert(value >> 0u64 == value) by (bit_vector);
                lemma_field64(value, 0, bb);
                assert forall|k: int| start <= k < start + b implies #[trigger] word_bit(words, k)
                    == bit64(value, (k - start) as u64) by {
                    let i = k - start;
                    lemma_read_straddle(lo, hi, off, i as u64);
                    if off + i < 32 {
                        lemma_div32(word_idx as int, off + i);
                    } else {
                        lemma_div32(word_idx + 1, off + i - 32);
                    }
                }
                lemma_field_matches(value, 0, words, start, b as nat);
            }
        }
        (value & mask) as u32
    }

    /// Stores the low `width` bits of `value` as entry `index`.
    pub fn set(&mut self, index: usize, value: u32)
        requires
            old(self).wf(),
            index < old(self).len_spec(),
        ensures
            final(self).wf(),
            final(self).len_spec() == old(self).len_spec(),
            final(self).width() == old(self).width(),
            final(self).entry(index as int) == (value as u64 & low_mask(old(self).width() as u64)) as int,
            forall|j: int|
                0 <= j < old(self).len_spec() && j != index ==> final(self).entry(j) == old(
                    self,
                ).entry(j),
    {
        let bb: u64 = self.bits_per_entry as u64;
        let b = self.bits_per_entry as usize;
        proof {
            lemma_entry_range(index as int, self.len as int, b as int);
        }
        let bit_start = index * b;
        let word_idx = bit_start / 32;
        let bit_off = bit_start % 32;
        let off = bit_off as u64;
        assert(1u64 << bb >= 1) by (bit_vector)
            requires
                bb <= 32,
        ;
        let mask: u64 = (1u64 << bb) - 1;
        let v = value as u64 & mask;
        proof {
            lemma_masked_fits(value as u64, bb);
        }
        let ghost old_words = self.words@;
        let ghost start = bit_start as int;
        assert(start == word_idx * 32 + bit_off);
        if bit_off + b <= 32 {
            let w = self.words[word_idx] as u64;
            let r = (w & !(mask << off)) | (v << off);
            proof {
                lemma_write_within(w, v, off, bb, 0);
            }
            self.words.set(word_idx, r as u32);
            proof {
                let new_words = self.words@;
                assert forall|k: int| 0 <= k < old_words.len() * 32 implies #[trigger] word_bit(
                    new_words,
                    k,
                ) == if start <= k < start + b {
                    bit64(v, (k - start) as u64)
                } else {
                    word_bit(old_words, k)
                } by {
                    if k / 32 == word_idx as int {
                        lemma_div32(word_idx as int, k % 32);
                        lemma_write_within(w, v, off, bb, (k % 32) as u64);
                    }
                }
            }
        } else {
            let split = 32 - off;
            let w0 = self.words[word_idx] as u64;
            let w1 = self.words[word_idx + 1] as u64;
            assert(1u64 << split >= 1) by (bit_vector)
                requires
                    split <= 32,
            ;
            let lo_mask = mask & ((1u64 << split) - 1);
            let r0 = (w0 & !(lo_mask << off)) | ((v & lo_mask) << off);
            let hi_mask = mask >> split;
            let r1 = (w1 & !hi_mask) | (v >> split);
            proof {
                lemma_write_low_part(w0, v, off, bb, 0);
                lemma_write_high_part(w1, v, off, bb, 0);
            }
            self.words.set(word_idx, r0 as u32);
            self.words.set(word_idx + 1, r1 as u32);
            proof {
                let new_words = self.words@;
                assert forall|k: int| 0 <= k < old_words.len() * 32 implies #[trigger] word_bit(
                    new_words,
                    k,
                ) == if start <= k < start + b {
                    bit64(v, (k - start) as u64)
                } else {
                    word_bit(old_words, k)
                } by {
                    if k / 32 == word_idx as int {
                        lemma_div32(word_idx as int, k % 32);
                        lemma_write_low_part(w0, v, off, bb, (k % 32) as u64);
                    } else if k / 32 == word_idx + 1 {
                        lemma_div32(word_idx + 1, k % 32);
                        lemma_write_high_part(w1, v, off, bb, (k % 32) as u64);
                    }
                }
            }
        }
        proof {
            let new_words = self.words@;
            assert forall|k: int| start <= k < start + b implies #[trigger] word_bit(new_words, k)
                == bit64(v, (k - start + 0) as u64) by {}
            lemma_field_matches(v, 0, new_words, start, b as nat);
            lemma_field64(v, 0, bb);
            lemma_mask_idempotent(v, bb);
            assert forall|j: int| 0 <= j < self.len && j != index implies self.entry(j) == old(
                self,
            ).entry(j) by {
                lemma_entries_disjoint(index as int, j, b as int);
                lemma_entry_range(j, self.len as int, b as int);
                assert forall|k: int| j * b <= k < j * b + b implies #[trigger] word_bit(
                    new_words,
                    k,
                ) == word_bit(old_words, k) by {}
                lemma_bits_value_eq(new_words, old_words, j * b, b as nat);
            }
        }
    }

    fn grow(&mut self, new_bits_per_entry: u8)
        requires
            old(self).wf(),
            old(self).bits_per_entry <= new_bits_per_entry <= 32,
            old(self).len * new_bits_per_entry <= usize::MAX,
        ensures
            final(self).wf(),
            final(self).len == old(self).len,
            final(self).bits_per_entry == new_bits_per_entry,
            forall|i: int| 0 <= i < old(self).len ==> final(self).entry(i) == old(self).entry(i),
    {
        let mut grown = BitBuffer::new(self.len, new_bits_per_entry);
        let n = self.len;
        let mut i: usize = 0;
        while i < n
            invariant
                n == self.len,
                self.wf(),
                i <= n,
                grown.wf(),
                grown.len == n,
                grown.bits_per_entry == new_bits_per_entry,
                self.bits_per_entry <= new_bits_per_entry,
                forall|k: int| 0 <= k < i ==> grown.entry(k) == self.entry(k),
            decreases n - i,
        {
            let v = self.get(i);
            proof {
                lemma_mask_monotone(v as u64, self.bits_per_entry as u64, new_bits_per_entry as u64);
                lemma_mask_idempotent(v as u64, new_bits_per_entry as u64);
            }
            grown.set(i, v);
            i = i + 1;
        }
        *self = grown;
    }
}

/// Bits needed to index a palette of `p` entries (at least one).
pub open spec fn bits_needed_spec(p: nat) -> nat {
    if p <= 1 {
        1
    } else {
        bit_length((p - 1) as nat)
    }
}

fn bits_needed(palette_len: usize) -> (r: u8)
    requires
        palette_len <= 65536,
    ensures
        r == bits_needed_spec(palette_len as nat),
        1 <= r <= 16,
        palette_len <= 1 || (palette_len - 1) as u64 <= low_mask(r as u64),
{
    if palette_len <= 1 {
        return 1;
    }
    let m = (palette_len - 1) as u64;
    let lz = m.leading_zeros();
    proof {
        lemma_bit_length_leading_zeros(m);
        lemma_bit_length_fits(m);
        assert(m <= (((1u64 << 16u64) - 1) as u64)) by (bit_vector)
            requires
                m < 65536,
        ;
        lemma_bit_length_bound(m, 16);
    }
    (64 - lz) as u8
}

/// A sequence of distinct block ids has at most 2^16 entries.
proof fn lemma_distinct_blocks_bound(p: Seq<BlockId>)
    requires
        p.no_duplicates(),
    ensures
        p.len() <= 65536,
{
    let s = p.to_set();
    p.unique_seq_to_set();
    vstd::seq_lib::seq_to_set_is_finite(p);
    let f = |x: u16| x as int;
    let t = s.map(f);
    assert(vstd::relations::injective_on(f, s));
    vstd::set_lib::lemma_map_size(s, t, f);
    vstd::set_lib::lemma_int_range(0, 65536);
    assert(t.subset_of(vstd::set_lib::set_int_range(0, 65536)));
    vstd::set_lib::lemma_len_subset(t, vstd::set_lib::set_int_range(0, 65536));
}

/// Index of the first occurrence of `block` in `palette`.
fn find_block(palette: &Vec<BlockId>, block: BlockId) -> (r: Option<usize>)
    ensures
        match r {
            Some(i) => i < palette.len() && palette@[i as int] == block && forall|j: int|
                0 <= j < i ==> palette@[j] != block,
            None => !palette@.contains(block),
        },
{
    let mut i: usize = 0;
    while i < palette.len()
        invariant
            i <= palette.len(),
            forall|j: int| 0 <= j < i ==> palette@[j] != block,
        decreases palette.len() - i,
    {
        if palette[i] == block {
            return Some(i);
        }
        i = i + 1;
    }
    None
}

enum Storage {
    /// Every voxel in the chunk is this block. The common case for air/stone-only chunks.
    Uniform(BlockId),
    Palette { palette: Vec<BlockId>, data: BitBuffer },
}

spec fn storage_wf(s: Storage) -> bool {
    match s {
        Storage::Uniform(_) => true,
        Storage::Palette { palette, data } => {
            &&& data.wf()
            &&& data.len == VOLUME
            &&& data.bits_per_entry <= 16
            &&& palette.len() >= 1
            &&& (palette.len() - 1) as u64 <= low_mask(data.bits_per_entry as u64)
            &&& palette@.no_duplicates()
            &&& forall|i: int| 0 <= i < VOLUME ==> 0 <= #[trigger] data.entry(i) < palette.len()
        },
    }
}

spec fn storage_view(s: Storage) -> Seq<BlockId> {
    match s {
        Storage::Uniform(b) => Seq::new(VOLUME as nat, |i: int| b),
        Storage::Palette { palette, data } => Seq::new(
            VOLUME as nat,
            |i: int| palette@[data.entry(i)],
        ),
    }
}

/// A `CHUNK_SIZE`^3 volume of blocks, stored with palette compression: chunks
/// typically contain only a handful of distinct block types, so voxels are
/// stored as small bit-packed indices into a per-chunk palette rather than
/// as full `BlockId`s.
pub struct Chunk {
    storage: Storage,
}

impl View for Chunk {
    type V = Seq<BlockId>;

    /// The block at every dense voxel index.
    closed spec fn view(&self) -> Seq<BlockId> {
        storage_view(self.storage)
    }
}

impl Chunk {
    #[verifier::type_invariant]
    spec fn inv(self) -> bool {
        storage_wf(self.storage)
    }

    /// The block filling the whole chunk when it is stored as a single
    /// uniform block, `None` when it is palette-stored.
    pub closed spec fn uniform_block(&self) -> Option<BlockId> {
        match self.storage {
            Storage::Uniform(b) => Some(b),
            Storage::Palette { .. } => None,
        }
    }

    pub proof fn lemma_view_len(&self)
        ensures
            self@.len() == VOLUME,
            self.uniform_block() matches Some(b) ==> forall|i: int|
                0 <= i < VOLUME ==> #[trigger] self@[i] == b,
    {
    }

    /// A chunk filled with `block` everywhere.
    pub fn uniform(block: BlockId) -> (r: Self)
        ensures
            r@ == Seq::new(VOLUME as nat, |i: int| block),
            r.uniform_block() == Some(block),
    {
        Chunk { storage: Storage::Uniform(block) }
    }

    /// A chunk of air.
    pub fn empty() -> (r: Self)
        ensures
            r@ == Seq::new(VOLUME as nat, |i: int| AIR),
            r.uniform_block() == Some(AIR),
    {
        Self::uniform(AIR)
    }

    /// Builds a chunk from a dense, row-major (`voxel_index` order) array of
    /// block ids, deduplicating into a palette in one pass. Prefer this over
    /// repeated `set` calls when generating a chunk from scratch.
    pub fn from_dense(dense: &[BlockId]) -> (r: Self)
        requires
            dense@.len() == VOLUME,
        ensures
            r@ == dense@,
            (r.uniform_block() is Some) <==> (forall|i: int, j: int|
                0 <= i < VOLUME && 0 <= j < VOLUME ==> dense@[i] == dense@[j]),
    {
        let mut palette: Vec<BlockId> = Vec::new();
        let mut k: usize = 0;
        while k < dense.len()
            invariant
                k <= dense.len() == VOLUME,
                palette@.no_duplicates(),
                palette@.len() <= k,
                forall|i: int| 0 <= i < k ==> palette@.contains(#[trigger] dense@[i]),
                forall|j: int| 0 <= j < palette@.len() ==> dense@.contains(#[trigger] palette@[j]),
            decreases dense.len() - k,
        {
            let b = dense[k];
            match find_block(&palette, b) {
                Some(_) => {},
                None => {
                    let ghost before = palette@;
                    palette.push(b);
                    proof {
                        assert(palette@.no_duplicates()) by {
                            assert forall|a: int, c: int|
                                0 <= a < palette@.len() && 0 <= c < palette@.len() && a != c
                                implies palette@[a] != palette@[c] by {
                                if a < before.len() && c < before.len() {
                                } else if a == before.len() {
                                    assert(before.contains(palette@[c]) || c == a);
                                } else {
                                    assert(before.contains(palette@[a]));
                                }
                            }
                        }
                        assert forall|i: int| 0 <= i < k implies palette@.contains(
                            #[trigger] dense@[i],
                        ) by {
                            let w = choose|w: int| 0 <= w < before.len() && before[w] == dense@[i];
                            assert(palette@[w] == dense@[i]);
                        }
                        assert(dense@.contains(palette@[palette@.len() - 1])) by {
                            assert(dense@[k as int] == b);
                        }
                    }
                },
            }
            proof {
                assert(palette@.contains(dense@[k as int]));
            }
            k = k + 1;
        }
        assert(palette@.contains(dense@[0]));
        if palette.len() <= 1 {
            let only = palette[0];
            proof {
                assert(palette@.contains(dense@[0]));
                assert forall|i: int| 0 <= i < VOLUME implies dense@[i] == only by {
                    assert(palette@.contains(dense@[i]));
                }
            }
            let r = Chunk { storage: Storage::Uniform(only) };
            assert(r@ =~= dense@);
            return r;
        }
        let bits = bits_needed(palette.len());
        let mut data = BitBuffer::new(VOLUME, bits);
        let mut i: usize = 0;
        while i < dense.len()
            invariant
                i <= dense.len() == VOLUME,
                2 <= palette@.len() <= VOLUME,
                forall|j: int| 0 <= j < VOLUME ==> palette@.contains(#[trigger] dense@[j]),
                data.wf(),
                data.len == VOLUME,
                data.bits_per_entry == bits,
                (palette.len() - 1) as u64 <= low_mask(bits as u64),
                forall|j: int| 0 <= j < i ==> 0 <= #[trigger] data.entry(j) < palette.len()
                    && palette@[data.entry(j)] == dense@[j],
                forall|j: int| i <= j < VOLUME ==> #[trigger] data.entry(j) == 0,
            decreases dense.len() - i,
        {
            let b = dense[i];
            assert(palette@.contains(dense@[i as int]));
            let palette_idx = find_block(&palette, b).unwrap();
            proof {
                lemma_mask_le(palette_idx as u64, (palette.len() - 1) as u64, bits as u64);
                lemma_mask_idempotent(palette_idx as u64, bits as u64);
            }
            data.set(i, palette_idx as u32);
            i = i + 1;
        }
        let r = Chunk { storage: Storage::Palette { palette, data } };
        proof {
            assert(r@ =~= dense@);
            assert(palette@[0] != palette@[1]);
            let a = choose|a: int| 0 <= a < VOLUME && dense@[a] == palette@[0];
            let c = choose|c: int| 0 <= c < VOLUME && dense@[c] == palette@[1];
            assert(dense@[a] != dense@[c]);
        }
        r
    }

    /// The block at local coordinates `(x, y, z)`.
    pub fn get(&self, x: usize, y: usize, z: usize) -> (r: BlockId)
        requires
            x < CHUNK_SIZE,
            y < CHUNK_SIZE,
            z < CHUNK_SIZE,
        ensures
            r == self@[voxel_index_spec(x as int, y as int, z as int)],
    {
        proof {
            use_type_invariant(self);
        }
        match &self.storage {
            Storage::Uniform(b) => *b,
            Storage::Palette { palette, data } => {
                let i = data.get(voxel_index(x, y, z));
                palette[i as usize]
            },
        }
    }

    /// Whether the chunk is stored as uniform air.
    pub fn is_empty(&self) -> (r: bool)
        ensures
            r == (self.uniform_block() == Some(AIR)),
            r ==> forall|i: int| 0 <= i < VOLUME ==> #[trigger] self@[i] == AIR,
    {
        match &self.storage {
            Storage::Uniform(b) => *b == AIR,
            Storage::Palette { .. } => false,
        }
    }

    /// Sets the block at local coordinates `(x, y, z)`. A uniform chunk stays
    /// uniform only when the block is the one it is filled with; otherwise
    /// the chunk is palette-stored from then on.
    pub fn set(&mut self, x: usize, y: usize, z: usize, block: BlockId)
        requires
            x < CHUNK_SIZE,
            y < CHUNK_SIZE,
            z < CHUNK_SIZE,
        ensures
            final(self)@ == old(self)@.update(voxel_index_spec(x as int, y as int, z as int), block),
            final(self).uniform_block() == if old(self).uniform_block() == Some(block) {
                Some(block)
            } else {
                None
            },
    {
        proof {
            use_type_invariant(&*self);
        }
        let idx = voxel_index(x, y, z);
        let ghost old_view = self@;
        let mut storage = Storage::Uniform(AIR);
        std::mem::swap(&mut storage, &mut self.storage);
        let new_storage = match storage {
            Storage::Uniform(current) => {
                if current == block {
                    Storage::Uniform(current)
                } else {
                    let mut data = BitBuffer::new(VOLUME, 1);
                    data.set(idx, 1);
                    assert(1u64 & (((1u64 << 1u64) - 1) as u64) == 1) by (bit_vector);
                    let palette = vec![current, block];
                    assert(palette@.no_duplicates()) by {
                        assert(palette@[0] == current && palette@[1] == block);
                    }
                    assert(1u64 <= (((1u64 << 1u64) - 1) as u64)) by (bit_vector);
                    Storage::Palette { palette, data }
                }
            },
            Storage::Palette { mut palette, mut data } => {
                let ghost old_palette = palette@;
                let ghost old_data = data;
                proof {
                    lemma_distinct_blocks_bound(palette@);
                }
                let palette_idx = match find_block(&palette, block) {
                    Some(i) => i,
                    None => {
                        proof {
                            lemma_distinct_blocks_bound(palette@);
                        }
                        palette.push(block);
                        proof {
                            assert(palette@.no_duplicates()) by {
                                assert forall|a: int, b: int|
                                    0 <= a < palette@.len() && 0 <= b < palette@.len() && a != b
                                    implies palette@[a] != palette@[b] by {
                                    if a < old_palette.len() && b < old_palette.len() {
                                    } else if a == old_palette.len() {
                                        assert(old_palette.contains(palette@[b]) || b == a);
                                    } else {
                                        assert(old_palette.contains(palette@[a]));
                                    }
                                }
                            }
                            lemma_distinct_blocks_bound(palette@);
                        }
                        let needed_bits = bits_needed(palette.len());
                        if needed_bits > data.bits_per_entry {
                            data.grow(needed_bits);
                        } else {
                            proof {
                                lemma_mask_monotone(
                                    (palette.len() - 1) as u64,
                                    needed_bits as u64,
                                    data.bits_per_entry as u64,
                                );
                            }
                        }
                        palette.len() - 1
                    },
                };
                let ghost mid_data = data;
                assert(palette_idx < palette.len() <= 65536);
                assert((palette.len() - 1) as u64 <= low_mask(data.bits_per_entry as u64));
                data.set(idx, palette_idx as u32);
                proof {
                    assert(palette_idx as u64 <= low_mask(data.bits_per_entry as u64)) by {
                        lemma_mask_le(palette_idx as u64, (palette.len() - 1) as u64, data.bits_per_entry as u64);
                    }
                    lemma_mask_idempotent(palette_idx as u64, data.bits_per_entry as u64);
                    assert(palette_idx as u32 as u64 == palette_idx as u64);
                    assert forall|i: int| 0 <= i < VOLUME implies 0 <= #[trigger] data.entry(i) < palette.len()
                        && palette@[data.entry(i)] == old_view.update(idx as int, block)[i] by {
                        if i != idx {
                            assert(mid_data.entry(i) == old_data.entry(i));
                            assert(palette@[old_data.entry(i)] == old_palette[old_data.entry(i)]);
                        }
                    }
                }
                Storage::Palette { palette, data }
            },
        };
        self.storage = new_storage;
        assert(self@ =~= old_view.update(idx as int, block));
    }
}


/// Distinct in-chunk coordinates have distinct dense indices, all below
/// `VOLUME`.
pub proof fn lemma_voxel_index_injective(x: int, y: int, z: int, x2: int, y2: int, z2: int)
    requires
        0 <= x < 32,
        0 <= y < 32,
        0 <= z < 32,
        0 <= x2 < 32,
        0 <= y2 < 32,
        0 <= z2 < 32,
    ensures
        0 <= voxel_index_spec(x, y, z) < VOLUME,
        voxel_index_spec(x, y, z) == voxel_index_spec(x2, y2, z2) ==> x == x2 && y == y2 && z == z2,
{
}

/// Reading a voxel after writing it gives the written block; every other
/// voxel reads as it did before the write.
pub proof fn law_chunk_read_after_write(
    before: Chunk,
    after: Chunk,
    x: int,
    y: int,
    z: int,
    block: BlockId,
    x2: int,
    y2: int,
    z2: int,
)
    requires
        0 <= x < 32,
        0 <= y < 32,
        0 <= z < 32,
        0 <= x2 < 32,
        0 <= y2 < 32,
        0 <= z2 < 32,
        after@ == before@.update(voxel_index_spec(x, y, z), block),
    ensures
        after@[voxel_index_spec(x2, y2, z2)] == if x2 == x && y2 == y && z2 == z {
            block
        } else {
            before@[voxel_index_spec(x2, y2, z2)]
        },
{
    before.lemma_view_len();
    lemma_voxel_index_injective(x, y, z, x2, y2, z2);
}

/// A value that fits the buffer's width reads back unchanged after it is
/// stored.
pub proof fn law_bit_buffer_roundtrip(buf: BitBuffer, index: int, value: u32)
    requires
        buf.wf(),
        value as u64 <= low_mask(buf.width() as u64),
        buf.entry(index) == (value as u64 & low_mask(buf.width() as u64)) as int,
    ensures
        buf.entry(index) == value,
{
    lemma_mask_idempotent(value as u64, buf.width() as u64);
}

/// `after` is `before` with entry `index` holding the low `width` bits of
/// `value` and every other entry as it was: what `BitBuffer::set` leaves.
pub open spec fn set_step(before: BitBuffer, after: BitBuffer, index: int, value: u32) -> bool {
    &&& after.len_spec() == before.len_spec()
    &&& after.width() == before.width()
    &&& 0 <= index < before.len_spec()
    &&& after.entry(index) == (value as u64 & low_mask(before.width() as u64)) as int
    &&& forall|j: int| 0 <= j < before.len_spec() && j != index ==> after.entry(j) == before.entry(j)
}

/// Entry `i` of a zeroed buffer of width `width` after the writes `writes`
/// (index and value), in order: the low `width` bits of the last value
/// written at `i`, or 0 if none was.
pub open spec fn last_written(writes: Seq<(int, u32)>, i: int, width: nat) -> int
    decreases writes.len(),
{
    if writes.len() == 0 {
        0
    } else if writes.last().0 == i {
        (writes.last().1 as u64 & low_mask(width as u64)) as int
    } else {
        last_written(writes.drop_last(), i, width)
    }
}

/// After any sequence of writes to a new (all-zero) buffer, every entry
/// reads back the low `width` bits of the last value written to it, or 0 if
/// none was; writes to other entries never change it. `bufs[k + 1]` is
/// `bufs[k]` after the `k`-th write.
pub proof fn law_bit_buffer_reads_last_write(bufs: Seq<BitBuffer>, writes: Seq<(int, u32)>, i: int)
    requires
        bufs.len() == writes.len() + 1,
        0 <= i < bufs[0].len_spec(),
        forall|j: int| 0 <= j < bufs[0].len_spec() ==> bufs[0].entry(j) == 0,
        forall|k: int|
            0 <= k < writes.len() ==> #[trigger] set_step(bufs[k], bufs[k + 1], writes[k].0, writes[k].1),
    ensures
        bufs.last().len_spec() == bufs[0].len_spec(),
        bufs.last().width() == bufs[0].width(),
        bufs.last().entry(i) == last_written(writes, i, bufs[0].width()),
    decreases writes.len(),
{
    if writes.len() > 0 {
        let n = writes.len() - 1;
        let prefix = bufs.drop_last();
        assert forall|k: int| 0 <= k < writes.drop_last().len() implies #[trigger] set_step(
            prefix[k],
            prefix[k + 1],
            writes.drop_last()[k].0,
            writes.drop_last()[k].1,
        ) by {
            assert(set_step(bufs[k], bufs[k + 1], writes[k].0, writes[k].1));
        }
        law_bit_buffer_reads_last_write(prefix, writes.drop_last(), i);
        assert(set_step(bufs[n], bufs[n + 1], writes[n].0, writes[n].1));
        assert(prefix.last() == bufs[n]);
    }
}

} // verus!
