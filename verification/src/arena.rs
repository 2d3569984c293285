//! Byte-range bookkeeping of a growable GPU buffer shared by many chunk
//! meshes: a first-fit free list whose ranges stay sorted by offset and
//! merged wherever adjacent, so fragmentation never grows unbounded.

use vstd::prelude::*;

verus! {

/// Free ranges `(offset, size)` inside `[0, capacity)`: non-empty, sorted by
/// offset, and neither overlapping nor touching (touching ones are merged).
pub open spec fn ranges_wf(rs: Seq<(u64, u64)>, capacity: u64) -> bool {
    &&& forall|i: int| 0 <= i < rs.len() ==> (#[trigger] rs[i]).1 > 0 && rs[i].0 + rs[i].1 <= capacity
    &&& forall|i: int, j: int| 0 <= i < j < rs.len() ==> (#[trigger] rs[i]).0 + rs[i].1 < (#[trigger] rs[j]).0
}

/// Byte `b` lies in a free range.
pub open spec fn covers(rs: Seq<(u64, u64)>, b: int) -> bool {
    exists|i: int| 0 <= i < rs.len() && (#[trigger] rs[i]).0 <= b < rs[i].0 + rs[i].1
}

/// Index of the first range of at least `size` bytes (`rs.len()` if none).
pub open spec fn first_fit(rs: Seq<(u64, u64)>, size: u64) -> int
    decreases rs.len(),
{
    if rs.len() == 0 {
        0
    } else if rs[0].1 >= size {
        0
    } else {
        1 + first_fit(rs.drop_first(), size)
    }
}

/// The free ranges after taking `size` bytes from the front of the first
/// range that fits.
pub open spec fn after_alloc(rs: Seq<(u64, u64)>, size: u64) -> Seq<(u64, u64)> {
    let i = first_fit(rs, size);
    if rs[i].1 == size {
        rs.remove(i)
    } else {
        rs.update(i, ((rs[i].0 + size) as u64, (rs[i].1 - size) as u64))
    }
}

proof fn lemma_first_fit(rs: Seq<(u64, u64)>, size: u64)
    ensures
        0 <= first_fit(rs, size) <= rs.len(),
        forall|j: int| 0 <= j < first_fit(rs, size) ==> (#[trigger] rs[j]).1 < size,
        first_fit(rs, size) < rs.len() ==> rs[first_fit(rs, size)].1 >= size,
    decreases rs.len(),
{
    if rs.len() > 0 && rs[0].1 < size {
        lemma_first_fit(rs.drop_first(), size);
        assert forall|j: int| 0 <= j < first_fit(rs, size) implies (#[trigger] rs[j]).1 < size by {
            if j > 0 {
                assert(rs[j] == rs.drop_first()[j - 1]);
            }
        }
    }
}


/// Where a freed range goes: ranges before `idx` end at or before it, the
/// rest start at or after its end.
proof fn lemma_free_split(rs: Seq<(u64, u64)>, offset: u64, size: u64, idx: int)
    requires
        forall|i: int| 0 <= i < rs.len() ==> (#[trigger] rs[i]).1 > 0,
        forall|i: int, j: int| 0 <= i < j < rs.len() ==> (#[trigger] rs[i]).0 + rs[i].1 < (#[trigger] rs[j]).0,
        size > 0,
        0 <= idx <= rs.len(),
        forall|j: int| 0 <= j < idx ==> (#[trigger] rs[j]).0 < offset,
        idx < rs.len() ==> rs[idx].0 >= offset,
        forall|j: int| 0 <= j < rs.len() ==> (#[trigger] rs[j]).0 + rs[j].1 <= offset || offset + size <= rs[j].0,
    ensures
        forall|j: int| 0 <= j < idx ==> (#[trigger] rs[j]).0 + rs[j].1 <= offset,
        forall|j: int| idx <= j < rs.len() ==> offset + size <= (#[trigger] rs[j]).0,
{
    assert forall|j: int| idx <= j < rs.len() implies offset + size <= (#[trigger] rs[j]).0 by {
        if j > idx {
            assert(rs[idx].0 + rs[idx].1 < rs[j].0);
        }
    }
}

/// The list a `free` leaves: the ranges before the freed bytes, the freed
/// bytes merged with the ranges they touch, and the ranges after them.
proof fn lemma_free_merged(
    rs: Seq<(u64, u64)>,
    cap: u64,
    offset: u64,
    size: u64,
    idx: int,
    merge_prev: bool,
    merge_next: bool,
    f: Seq<(u64, u64)>,
)
    requires
        ranges_wf(rs, cap),
        size > 0,
        offset + size <= cap,
        0 <= idx <= rs.len(),
        forall|j: int| 0 <= j < idx ==> (#[trigger] rs[j]).0 + rs[j].1 <= offset,
        forall|j: int| 0 <= j < idx ==> (#[trigger] rs[j]).0 < offset,
        forall|j: int| idx <= j < rs.len() ==> offset + size <= (#[trigger] rs[j]).0,
        merge_prev == (idx > 0 && rs[idx - 1].0 + rs[idx - 1].1 == offset),
        merge_next == (idx < rs.len() && offset + size == rs[idx].0),
        f == rs.take(if merge_prev { idx - 1 } else { idx }).push(
            (
                (if merge_prev { rs[idx - 1].0 as int } else { offset as int }) as u64,
                ((if merge_next { rs[idx].0 + rs[idx].1 } else { offset + size }) - (if merge_prev {
                    rs[idx - 1].0 as int
                } else {
                    offset as int
                })) as u64,
            ),
        ) + rs.skip(if merge_next { idx + 1 } else { idx }),
    ensures
        ranges_wf(f, cap),
        forall|b: int| covers(f, b) <==> (covers(rs, b) || (offset <= b < offset + size)),
{
    let n = rs.len() as int;
    let p: int = if merge_prev { idx - 1 } else { idx };
    let q: int = if merge_next { idx + 1 } else { idx };
    let lo: int = if merge_prev { rs[idx - 1].0 as int } else { offset as int };
    let hi: int = if merge_next { rs[idx].0 + rs[idx].1 } else { offset + size };
    let m: (u64, u64) = (lo as u64, (hi - lo) as u64);
    assert(f == rs.take(p).push(m) + rs.skip(q));
    assert(lo <= offset && offset + size <= hi <= cap);
    assert(f.len() == p + 1 + (n - q));
    assert(f[p] == m);
    assert forall|i: int| 0 <= i < p implies f[i] == rs[i] by {}
    assert forall|i: int| p < i < f.len() implies f[i] == rs[i - p - 1 + q] by {}
    assert forall|i: int| 0 <= i < p implies rs[i].0 + rs[i].1 < lo by {
        if merge_prev {
            assert(rs[i].0 + rs[i].1 < rs[idx - 1].0);
        } else if i < idx - 1 {
            assert(rs[i].0 + rs[i].1 < rs[idx - 1].0);
        }
    }
    assert forall|j: int| q <= j < n implies hi < rs[j].0 by {
        if merge_next {
            assert(rs[idx].0 + rs[idx].1 < rs[j].0);
        } else if j > idx {
            assert(rs[idx].0 + rs[idx].1 < rs[j].0);
        }
    }
    assert forall|i: int| 0 <= i < f.len() implies (#[trigger] f[i]).1 > 0 && f[i].0 + f[i].1 <= cap by {
        if i > p {
            assert(f[i] == rs[i - p - 1 + q]);
        }
    }
    assert forall|i: int, j: int| 0 <= i < j < f.len() implies (#[trigger] f[i]).0 + f[i].1 < (#[trigger] f[j]).0 by {
        if j <= p {
        } else if i < p {
            assert(f[j] == rs[j - p - 1 + q]);
            assert(rs[i].0 + rs[i].1 < lo);
        } else if i == p {
            assert(f[j] == rs[j - p - 1 + q]);
        } else {
            assert(f[i] == rs[i - p - 1 + q]);
            assert(f[j] == rs[j - p - 1 + q]);
        }
    }
    assert forall|b: int| covers(f, b) <==> (covers(rs, b) || (offset <= b < offset + size)) by {
        if covers(f, b) {
            let i = choose|i: int| 0 <= i < f.len() && (#[trigger] f[i]).0 <= b < f[i].0 + f[i].1;
            if i < p {
                assert(rs[i].0 <= b < rs[i].0 + rs[i].1);
            } else if i > p {
                let k = i - p - 1 + q;
                assert(f[i] == rs[k]);
                assert(rs[k].0 <= b < rs[k].0 + rs[k].1);
            } else {
                if b < offset {
                    assert(rs[idx - 1].0 <= b < rs[idx - 1].0 + rs[idx - 1].1);
                } else if b >= offset + size {
                    assert(rs[idx].0 <= b < rs[idx].0 + rs[idx].1);
                }
            }
        }
        if covers(rs, b) {
            let k = choose|k: int| 0 <= k < rs.len() && (#[trigger] rs[k]).0 <= b < rs[k].0 + rs[k].1;
            if k < p {
                assert(f[k] == rs[k]);
            } else if k >= q {
                assert(f[k - q + p + 1] == rs[k]);
            } else {
                assert(f[p].0 <= b < f[p].0 + f[p].1);
            }
        }
        if offset <= b < offset + size {
            assert(f[p].0 <= b < f[p].0 + f[p].1);
        }
    }
}


/// The bytes free after an allocation: those free before, less the bytes
/// handed out.
proof fn lemma_alloc_bytes(rs: Seq<(u64, u64)>, cap: u64, size: u64, after: Seq<(u64, u64)>)
    requires
        ranges_wf(rs, cap),
        size > 0,
        first_fit(rs, size) < rs.len(),
        after == after_alloc(rs, size),
    ensures
        rs[first_fit(rs, size)].0 + size <= cap,
        forall|b: int|
            covers(after, b) <==> (covers(rs, b) && !(rs[first_fit(rs, size)].0 <= b < rs[first_fit(rs, size)].0
                + size)),
{
    lemma_first_fit(rs, size);
    let i = first_fit(rs, size);
    let o = rs[i].0 as int;
    assert forall|b: int| covers(after, b) <==> (covers(rs, b) && !(o <= b < o + size)) by {
        if covers(after, b) {
            let j = choose|j: int| 0 <= j < after.len() && (#[trigger] after[j]).0 <= b < after[j].0 + after[j].1;
            if rs[i].1 == size {
                let k = if j >= i { j + 1 } else { j };
                assert(after[j] == rs[k]);
                assert(rs[k].0 <= b < rs[k].0 + rs[k].1);
                if k > i {
                    assert(rs[i].0 + rs[i].1 < rs[k].0);
                } else {
                    assert(rs[k].0 + rs[k].1 < rs[i].0);
                }
            } else if j == i {
                assert(rs[i].0 <= b < rs[i].0 + rs[i].1);
            } else {
                assert(rs[j].0 <= b < rs[j].0 + rs[j].1);
                if j > i {
                    assert(rs[i].0 + rs[i].1 < rs[j].0);
                } else {
                    assert(rs[j].0 + rs[j].1 < rs[i].0);
                }
            }
        }
        if covers(rs, b) && !(o <= b < o + size) {
            let k = choose|k: int| 0 <= k < rs.len() && (#[trigger] rs[k]).0 <= b < rs[k].0 + rs[k].1;
            if rs[i].1 == size {
                if k > i {
                    assert(after[k - 1] == rs[k]);
                } else {
                    assert(after[k] == rs[k]);
                }
            } else {
                assert(after[k].0 <= b < after[k].0 + after[k].1);
            }
        }
    }
}

/// Growing by at least `min_extra` bytes leaves a free range of at least
/// `min_extra` bytes, so an allocation of that size right after a grow
/// always succeeds.
pub proof fn law_grow_makes_room(rs: Seq<(u64, u64)>, old_cap: u64, new_cap: u64, min_extra: u64)
    requires
        rs.len() > 0,
        rs.last().0 <= old_cap,
        rs.last().0 + rs.last().1 == new_cap,
        new_cap >= old_cap + min_extra,
    ensures
        first_fit(rs, min_extra) < rs.len(),
        exists|i: int| 0 <= i < rs.len() && (#[trigger] rs[i]).1 >= min_extra,
{
    lemma_first_fit(rs, min_extra);
    assert(rs[rs.len() - 1].1 >= min_extra);
}

/// Freeing what an allocation handed out restores the free bytes as they
/// were before it.
pub proof fn law_free_undoes_alloc(
    rs: Seq<(u64, u64)>,
    cap: u64,
    size: u64,
    allocated: Seq<(u64, u64)>,
    freed: Seq<(u64, u64)>,
)
    requires
        ranges_wf(rs, cap),
        size > 0,
        first_fit(rs, size) < rs.len(),
        allocated == after_alloc(rs, size),
        forall|b: int|
            covers(freed, b) <==> (covers(allocated, b) || (rs[first_fit(rs, size)].0 <= b < rs[first_fit(
                rs,
                size,
            )].0 + size)),
    ensures
        forall|b: int| covers(freed, b) <==> covers(rs, b),
{
    lemma_alloc_bytes(rs, cap, size, allocated);
    lemma_first_fit(rs, size);
    let i = first_fit(rs, size);
    assert forall|b: int| covers(freed, b) <==> covers(rs, b) by {
        if rs[i].0 <= b < rs[i].0 + size {
            assert(rs[i].0 <= b < rs[i].0 + rs[i].1);
        }
    }
}

pub struct FreeList {
    capacity: u64,
    free: Vec<(u64, u64)>,
}

impl FreeList {
    #[verifier::type_invariant]
    spec fn inv(self) -> bool {
        ranges_wf(self.free@, self.capacity) && self.capacity >= 4
    }

    /// The free ranges, by offset.
    pub closed spec fn ranges(&self) -> Seq<(u64, u64)> {
        self.free@
    }

    /// Size of the buffer the ranges are in.
    pub closed spec fn cap(&self) -> u64 {
        self.capacity
    }

    /// All of a buffer of `initial_capacity` bytes (at least 4) is free.
    pub fn new(initial_capacity: u64) -> (r: Self)
        ensures
            r.cap() == if initial_capacity > 4 {
                initial_capacity
            } else {
                4
            },
            r.ranges() == seq![(0u64, r.cap())],
            ranges_wf(r.ranges(), r.cap()),
    {
        let capacity = if initial_capacity > 4 {
            initial_capacity
        } else {
            4
        };
        let r = FreeList { capacity, free: vec![(0, capacity)] };
        assert(r.ranges() =~= seq![(0u64, r.cap())]);
        r
    }

    /// Size of the buffer the ranges are in.
    pub fn capacity(&self) -> (r: u64)
        ensures
            r == self.cap(),
    {
        self.capacity
    }

    /// Takes `size` bytes from the first free range that has room (first
    /// fit) and returns their offset; `None` when no range is big enough.
    pub fn try_alloc(&mut self, size: u64) -> (r: Option<u64>)
        ensures
            ranges_wf(old(self).ranges(), old(self).cap()),
            ranges_wf(final(self).ranges(), final(self).cap()),
            final(self).cap() == old(self).cap(),
            (r is Some) <==> exists|i: int| 0 <= i < old(self).ranges().len() && (#[trigger] old(self).ranges()[i]).1 >= size,
            r is None ==> final(self).ranges() == old(self).ranges(),
            r matches Some(o) ==> {
                let i = first_fit(old(self).ranges(), size);
                &&& 0 <= i < old(self).ranges().len()
                &&& o == old(self).ranges()[i].0
                &&& final(self).ranges() == after_alloc(old(self).ranges(), size)
                &&& forall|b: int| o <= b < o + size ==> covers(old(self).ranges(), b)
                &&& forall|j: int|
                    0 <= j < final(self).ranges().len() ==> (#[trigger] final(self).ranges()[j]).0
                        + final(self).ranges()[j].1 <= o || o + size <= final(self).ranges()[j].0
            },
    {
        proof {
            use_type_invariant(&*self);
            lemma_first_fit(self.free@, size);
        }
        let ghost rs = self.free@;
        let ghost cap = self.capacity;
        let mut idx: usize = 0;
        while idx < self.free.len() && self.free[idx].1 < size
            invariant
                rs == self.free@,
                idx <= rs.len(),
                forall|j: int| 0 <= j < idx ==> (#[trigger] rs[j]).1 < size,
            decreases rs.len() - idx,
        {
            idx = idx + 1;
        }
        proof {
            assert(idx == first_fit(rs, size)) by {
                if (idx as int) < first_fit(rs, size) {
                    assert(rs[idx as int].1 < size);
                } else if (idx as int) > first_fit(rs, size) {
                    let f = first_fit(rs, size);
                    assert(rs[f].1 < size);
                }
            }
        }
        if idx == self.free.len() {
            proof {
                assert forall|i: int| 0 <= i < rs.len() implies (#[trigger] rs[i]).1 < size by {}
            }
            return None;
        }
        let (offset, free_size) = self.free[idx];
        assert(old(self).ranges()[idx as int].1 >= size);
        let mut free: Vec<(u64, u64)> = Vec::new();
        std::mem::swap(&mut free, &mut self.free);
        if free_size == size {
            free.remove(idx);
        } else {
            free.set(idx, (offset + size, free_size - size));
        }
        proof {
            let f = free@;
            assert(f == after_alloc(rs, size));
            assert forall|i: int| 0 <= i < f.len() implies (#[trigger] f[i]).1 > 0 && f[i].0 + f[i].1 <= self.capacity by {
                if free_size == size {
                    if i >= idx {
                        assert(f[i] == rs[i + 1]);
                    }
                }
            }
            assert forall|i: int, j: int| 0 <= i < j < f.len() implies (#[trigger] f[i]).0 + f[i].1 < (#[trigger] f[j]).0 by {
                if free_size == size {
                    let a = if i >= idx { i + 1 } else { i };
                    let b = if j >= idx { j + 1 } else { j };
                    assert(f[i] == rs[a]);
                    assert(f[j] == rs[b]);
                } else {
                    assert(rs[i].0 + rs[i].1 < rs[j].0);
                }
            }
            assert forall|b: int| offset <= b < offset + size implies covers(rs, b) by {
                assert(rs[idx as int].0 <= b < rs[idx as int].0 + rs[idx as int].1);
            }
            assert forall|j: int| 0 <= j < f.len() implies (#[trigger] f[j]).0 + f[j].1 <= offset || offset + size
                <= f[j].0 by {
                if free_size == size {
                    if j >= idx {
                        assert(f[j] == rs[j + 1]);
                        assert(rs[idx as int].0 + rs[idx as int].1 < rs[j + 1].0);
                    } else {
                        assert(rs[j].0 + rs[j].1 < rs[idx as int].0);
                    }
                } else if j != idx {
                    if j > idx {
                        assert(rs[idx as int].0 + rs[idx as int].1 < rs[j].0);
                    } else {
                        assert(rs[j].0 + rs[j].1 < rs[idx as int].0);
                    }
                }
            }
        }
        self.free = free;
        Some(offset)
    }

    /// Returns `size` bytes at `offset` to the free list, merging them with
    /// the free ranges they touch. Bytes given back must lie in the buffer
    /// and be in use (in no free range); freeing zero bytes does nothing,
    /// whatever the offset.
    pub fn free(&mut self, offset: u64, size: u64)
        requires
            size > 0 ==> offset + size <= old(self).cap(),
            size > 0 ==> forall|j: int|
                0 <= j < old(self).ranges().len() ==> (#[trigger] old(self).ranges()[j]).0 + old(self).ranges()[j].1
                    <= offset || offset + size <= old(self).ranges()[j].0,
        ensures
            ranges_wf(final(self).ranges(), final(self).cap()),
            final(self).cap() == old(self).cap(),
            size == 0 ==> final(self).ranges() == old(self).ranges(),
            forall|b: int|
                covers(final(self).ranges(), b) <==> (covers(old(self).ranges(), b) || (offset <= b < offset + size)),
    {
        proof {
            use_type_invariant(&*self);
        }
        let ghost rs = self.free@;
        let ghost cap = self.capacity;
        if size == 0 {
            return;
        }
        let mut idx: usize = 0;
        while idx < self.free.len() && self.free[idx].0 < offset
            invariant
                rs == self.free@,
                idx <= rs.len(),
                forall|j: int| 0 <= j < idx ==> (#[trigger] rs[j]).0 < offset,
            decreases rs.len() - idx,
        {
            idx = idx + 1;
        }
        let n = self.free.len();
        proof {
            assert(rs == old(self).ranges());
            assert forall|j: int| 0 <= j < n implies (#[trigger] rs[j]).0 + rs[j].1 <= offset || offset + size
                <= rs[j].0 by {
                assert(old(self).ranges()[j] == rs[j]);
            }
            lemma_free_split(rs, offset, size, idx as int);
        }
        let merge_prev = idx > 0 && self.free[idx - 1].0 + self.free[idx - 1].1 == offset;
        let merge_next = idx < n && offset + size == self.free[idx].0;
        let mut free: Vec<(u64, u64)> = Vec::new();
        std::mem::swap(&mut free, &mut self.free);
        let ghost p: int = if merge_prev { idx - 1 } else { idx as int };
        let ghost q: int = if merge_next { idx + 1 } else { idx as int };
        let ghost lo: int = if merge_prev { rs[idx - 1].0 as int } else { offset as int };
        let ghost hi: int = if merge_next { rs[idx as int].0 + rs[idx as int].1 } else { offset + size };
        if merge_prev && merge_next {
            let (po, ps) = free[idx - 1];
            let (_, ns) = free[idx];
            free.set(idx - 1, (po, ps + size + ns));
            free.remove(idx);
        } else if merge_prev {
            let (po, ps) = free[idx - 1];
            free.set(idx - 1, (po, ps + size));
        } else if merge_next {
            let (_, ns) = free[idx];
            free.set(idx, (offset, size + ns));
        } else {
            free.insert(idx, (offset, size));
        }
        proof {
            assert(free@ =~= rs.take(p).push((lo as u64, (hi - lo) as u64)) + rs.skip(q));
            lemma_free_merged(rs, cap, offset, size, idx as int, merge_prev, merge_next, free@);
        }
        self.free = free;
    }

    /// Grows the buffer to twice its size, or by `min_extra` bytes if that is
    /// more, and frees the new bytes; returns the new capacity.
    pub fn grow(&mut self, min_extra: u64) -> (new_capacity: u64)
        requires
            old(self).cap() + min_extra <= u64::MAX,
            2 * old(self).cap() <= u64::MAX,
        ensures
            ranges_wf(final(self).ranges(), final(self).cap()),
            new_capacity == final(self).cap(),
            new_capacity == if 2 * old(self).cap() > old(self).cap() + min_extra {
                2 * old(self).cap()
            } else {
                old(self).cap() + min_extra
            },
            forall|b: int|
                covers(final(self).ranges(), b) <==> (covers(old(self).ranges(), b) || (old(self).cap() <= b
                    < new_capacity)),
            final(self).ranges().len() > 0,
            final(self).ranges().last().0 <= old(self).cap(),
            final(self).ranges().last().0 + final(self).ranges().last().1 == new_capacity,
    {
        proof {
            use_type_invariant(&*self);
        }
        let ghost rs = self.free@;
        let cap = self.capacity;
        let doubled = cap * 2;
        let new_capacity = if doubled > cap + min_extra {
            doubled
        } else {
            cap + min_extra
        };
        let extra = new_capacity - cap;
        let mut free: Vec<(u64, u64)> = Vec::new();
        std::mem::swap(&mut free, &mut self.free);
        let n = free.len();
        if n > 0 && free[n - 1].0 + free[n - 1].1 == cap {
            let (lo, s) = free[n - 1];
            free.set(n - 1, (lo, s + extra));
        } else {
            free.push((cap, extra));
        }
        proof {
            let f = free@;
            assert forall|i: int, j: int| 0 <= i < j < f.len() implies (#[trigger] f[i]).0 + f[i].1 < (#[trigger] f[j]).0 by {
                if j == n {
                    assert(rs[i].0 + rs[i].1 <= cap);
                    if i < n - 1 {
                        assert(rs[i].0 + rs[i].1 < rs[n - 1].0);
                    }
                }
            }
            assert forall|b: int| covers(f, b) <==> (covers(rs, b) || (cap <= b < new_capacity)) by {
                if covers(f, b) {
                    let i = choose|i: int| 0 <= i < f.len() && (#[trigger] f[i]).0 <= b < f[i].0 + f[i].1;
                    if i < n && i != n - 1 {
                        assert(rs[i].0 <= b < rs[i].0 + rs[i].1);
                    } else if i == n - 1 && b < cap {
                        assert(rs[i].0 <= b < rs[i].0 + rs[i].1);
                    }
                }
                if covers(rs, b) {
                    let k = choose|k: int| 0 <= k < rs.len() && (#[trigger] rs[k]).0 <= b < rs[k].0 + rs[k].1;
                    assert(f[k].0 <= b < f[k].0 + f[k].1);
                }
                if cap <= b < new_capacity {
                    let l = f.len() - 1;
                    assert(f[l].0 <= b < f[l].0 + f[l].1);
                }
            }
        }
        *self = FreeList { capacity: new_capacity, free };
        new_capacity
    }


    /// Reserves `size` bytes and returns their offset, growing the buffer
    /// (see `grow`) if no free range is big enough; then also returns the
    /// old and new capacity, so the caller can move the buffer's contents.
    /// Zero bytes are always at offset 0.
    pub fn allocate(&mut self, size: u64) -> (r: (u64, Option<(u64, u64)>))
        requires
            old(self).cap() + size <= u64::MAX,
            2 * old(self).cap() <= u64::MAX,
        ensures
            ranges_wf(final(self).ranges(), final(self).cap()),
            size == 0 ==> r == (0u64, None::<(u64, u64)>) && final(self).ranges() == old(self).ranges()
                && final(self).cap() == old(self).cap(),
            size > 0 && first_fit(old(self).ranges(), size) < old(self).ranges().len() ==> {
                &&& r.1 is None
                &&& r.0 == old(self).ranges()[first_fit(old(self).ranges(), size)].0
                &&& final(self).ranges() == after_alloc(old(self).ranges(), size)
                &&& final(self).cap() == old(self).cap()
            },
            size > 0 && first_fit(old(self).ranges(), size) == old(self).ranges().len() ==> {
                &&& r.1 == Some((old(self).cap(), final(self).cap()))
                &&& final(self).cap() == if 2 * old(self).cap() > old(self).cap() + size {
                    2 * old(self).cap()
                } else {
                    old(self).cap() + size
                }
            },
            size > 0 ==> r.0 + size <= final(self).cap(),
            size > 0 ==> forall|b: int|
                covers(final(self).ranges(), b) <==> ((covers(old(self).ranges(), b) || (old(self).cap() <= b
                    < final(self).cap())) && !(r.0 <= b < r.0 + size)),
    {
        proof {
            use_type_invariant(&*self);
            lemma_first_fit(self.free@, size);
        }
        if size == 0 {
            return (0, None);
        }
        let ghost rs0 = self.free@;
        match self.try_alloc(size) {
            Some(offset) => {
                proof {
                    lemma_alloc_bytes(rs0, self.capacity, size, self.free@);
                }
                return (offset, None);
            },
            None => {},
        }
        let old_capacity = self.capacity;
        let new_capacity = self.grow(size);
        let ghost rs1 = self.free@;
        proof {
            law_grow_makes_room(rs1, old_capacity, new_capacity, size);
        }
        match self.try_alloc(size) {
            Some(offset) => {
                proof {
                    lemma_alloc_bytes(rs1, self.capacity, size, self.free@);
                }
                (offset, Some((old_capacity, new_capacity)))
            },
            None => {
                proof {
                    assert(false);
                }
                (0, None)
            },
        }
    }


    /// Whether the `size` bytes at `offset` lie in the buffer and in no free
    /// range: bytes that `free` may return.
    pub fn range_in_use(&self, offset: u64, size: u64) -> (r: bool)
        ensures
            r == (offset + size <= self.cap() && forall|j: int|
                0 <= j < self.ranges().len() ==> (#[trigger] self.ranges()[j]).0 + self.ranges()[j].1 <= offset
                    || offset + size <= self.ranges()[j].0),
    {
        if offset > self.capacity || size > self.capacity - offset {
            return false;
        }
        let mut k: usize = 0;
        while k < self.free.len()
            invariant
                k <= self.free@.len(),
                offset + size <= self.capacity,
                forall|j: int|
                    0 <= j < k ==> (#[trigger] self.free@[j]).0 + self.free@[j].1 <= offset || offset + size
                        <= self.free@[j].0,
            decreases self.free@.len() - k,
        {
            let (o, s) = self.free[k];
            if !(o as u128 + s as u128 <= offset as u128 || offset as u128 + size as u128 <= o as u128) {
                assert(self.ranges()[k as int] == (o, s));
                return false;
            }
            k = k + 1;
        }
        true
    }

}

} // verus!
