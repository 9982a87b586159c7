//! The first-fit engine: an ordered free list and the live allocations over
//! one extent of addresses.
//!
//! Block bookkeeping lives outside the managed extent, so no header bytes are
//! taken from it: a remainder of any nonzero size is kept as a free block,
//! and an empty one is never recorded. Alignment padding in front of an
//! allocation goes with it: the live allocation records the whole range
//! taken from the chosen block, the remainder behind it takes that block's
//! place in the free list, and `deallocate` rebuilds the whole range from
//! the pointer, size and alignment it is given.
use vstd::prelude::*;
use crate::block::{
    Block, end, covers, count, total, align_up, lemma_count_concat, lemma_total_concat,
    lemma_count_single, lemma_total_single, lemma_count_two, lemma_count_pos, lemma_align_up,
};

verus! {

/// Why an allocation request was not served.
#[derive(Clone, Copy, Debug, PartialEq, Eq, Structural)]
pub enum AllocErr {
    /// No single free block can hold the request.
    Exhausted,
    /// A zero size or a zero alignment was asked for.
    Unsupported,
    /// The allocator has not been given memory yet.
    Uninitialized,
}

/// Why a release was refused.
#[derive(Clone, Copy, Debug, PartialEq, Eq, Structural)]
pub enum FreeErr {
    /// The range is not a live allocation of this heap.
    NotAllocated,
    /// The allocator has not been given memory yet.
    Uninitialized,
}

/// The mathematical state of a heap: its extent, the free list in list
/// order, and the live allocations in the order they were made.
pub struct HeapModel {
    pub base: int,
    pub size: int,
    pub free: Seq<Block>,
    pub live: Seq<Block>,
}

/// The request `(size, align)` can be carved out of `b`.
pub open spec fn fits(b: Block, size: int, align: int) -> bool {
    align_up(b.addr as int, align) + size <= end(b)
}

/// `i` is the first index of `s` whose block fits the request.
pub open spec fn is_first_fit(s: Seq<Block>, size: int, align: int, i: int) -> bool {
    &&& 0 <= i < s.len()
    &&& fits(s[i], size, align)
    &&& forall|k: int| 0 <= k < i ==> !fits(#[trigger] s[k], size, align)
}

/// What is left of `b` once `[b.addr, p + size)` is taken from it: the part
/// behind the allocation, where it is not empty. The padding in front of `p`
/// goes with the allocation.
pub open spec fn pieces(b: Block, p: int, size: int) -> Seq<Block> {
    if p + size < end(b) {
        seq![Block { addr: (p + size) as usize, size: (end(b) - p - size) as usize }]
    } else {
        Seq::<Block>::empty()
    }
}

/// `g` is the range granted for a request of `size` bytes aligned to `align`
/// that was handed out at `ptr`: it runs from the start of the block it was
/// taken from, padding included, to `ptr + size`.
pub open spec fn grants(g: Block, ptr: usize, size: usize, align: usize) -> bool {
    &&& size > 0
    &&& align > 0
    &&& g.addr <= ptr
    &&& align_up(g.addr as int, align as int) == ptr
    &&& end(g) == ptr + size
}

/// The range taken from `b` for an allocation at `p` of `size` bytes.
pub open spec fn granted(b: Block, p: int, size: int) -> Block {
    Block { addr: b.addr, size: (p + size - b.addr) as usize }
}

/// `s` with its block at `i` replaced, in place, by what is left of it.
pub open spec fn carve(s: Seq<Block>, i: int, p: int, size: int) -> Seq<Block> {
    s.take(i) + pieces(s[i], p, size) + s.skip(i + 1)
}

/// The blocks of `s` that touch neither `lo` from below nor `hi` from above,
/// in list order.
pub open spec fn detached(s: Seq<Block>, lo: int, hi: int) -> Seq<Block>
    decreases s.len(),
{
    if s.len() == 0 {
        s
    } else {
        let r = detached(s.drop_last(), lo, hi);
        if end(s.last()) == lo || s.last().addr == hi {
            r
        } else {
            r.push(s.last())
        }
    }
}

/// Where a range starting at `lo` starts once merged with a block of `s`
/// that ends at `lo` (the last such block in list order).
pub open spec fn merged_start(s: Seq<Block>, lo: int) -> int
    decreases s.len(),
{
    if s.len() == 0 {
        lo
    } else if end(s.last()) == lo {
        s.last().addr as int
    } else {
        merged_start(s.drop_last(), lo)
    }
}

/// Where a range ending at `hi` ends once merged with a block of `s` that
/// starts at `hi` (the last such block in list order).
pub open spec fn merged_end(s: Seq<Block>, hi: int) -> int
    decreases s.len(),
{
    if s.len() == 0 {
        hi
    } else if s.last().addr == hi {
        end(s.last())
    } else {
        merged_end(s.drop_last(), hi)
    }
}

/// A heap over `[start, end)` with nothing allocated: one free block
/// covering all of it, or none where it is empty.
pub open spec fn fresh(start: int, end: int) -> HeapModel {
    HeapModel {
        base: start,
        size: end - start,
        free: if start < end {
            seq![Block { addr: start as usize, size: (end - start) as usize }]
        } else {
            Seq::<Block>::empty()
        },
        live: Seq::<Block>::empty(),
    }
}

impl HeapModel {
    pub open spec fn in_region(self, x: int) -> bool {
        self.base <= x < self.base + self.size
    }

    /// Every block the heap accounts for, free ones first.
    pub open spec fn blocks(self) -> Seq<Block> {
        self.free + self.live
    }

    /// No free block ends where another one starts.
    pub open spec fn coalesced(self) -> bool {
        forall|i: int, j: int|
            0 <= i < self.free.len() && 0 <= j < self.free.len() ==> end(#[trigger] self.free[i])
                != (#[trigger] self.free[j]).addr
    }

    /// The free blocks and the live allocations are nonempty and tile the
    /// extent exactly: each address of it lies in exactly one of them, and
    /// no other address in any. Their sizes add up to the extent's size.
    pub open spec fn wf(self) -> bool {
        &&& 0 <= self.base
        &&& 0 <= self.size
        &&& self.base + self.size <= usize::MAX
        &&& forall|i: int| 0 <= i < self.free.len() ==> (#[trigger] self.free[i]).size > 0
        &&& forall|i: int| 0 <= i < self.live.len() ==> (#[trigger] self.live[i]).size > 0
        &&& forall|x: int|
            #[trigger] count(self.blocks(), x) == if self.in_region(x) {
                1nat
            } else {
                0nat
            }
        &&& total(self.free) + total(self.live) == self.size
        &&& self.coalesced()
    }

    /// Some free block can hold the request.
    pub open spec fn can_alloc(self, size: int, align: int) -> bool {
        exists|i: int| 0 <= i < self.free.len() && fits(#[trigger] self.free[i], size, align)
    }

    /// The index of the first free block, in list order, that can hold the request.
    pub open spec fn first_fit(self, size: int, align: int) -> int {
        choose|i: int| is_first_fit(self.free, size, align, i)
    }

    /// What an allocation of `size` bytes aligned to `align` returns.
    pub open spec fn alloc_result(self, size: usize, align: usize) -> Result<usize, AllocErr> {
        if size == 0 || align == 0 {
            Err(AllocErr::Unsupported)
        } else if !self.can_alloc(size as int, align as int) {
            Err(AllocErr::Exhausted)
        } else {
            Ok(
                align_up(
                    self.free[self.first_fit(size as int, align as int)].addr as int,
                    align as int,
                ) as usize,
            )
        }
    }

    /// `ptr` was handed out for a request of `size` bytes aligned to
    /// `align`, and its range is still live.
    pub open spec fn is_live(self, ptr: usize, size: usize, align: usize) -> bool {
        exists|j: int| 0 <= j < self.live.len() && grants(#[trigger] self.live[j], ptr, size, align)
    }

    /// Where the range granted at `ptr` stands among the live allocations.
    pub open spec fn live_index(self, ptr: usize, size: usize, align: usize) -> int {
        choose|j: int| 0 <= j < self.live.len() && grants(#[trigger] self.live[j], ptr, size, align)
    }

    /// What a release of the allocation at `ptr` of `size` bytes aligned to
    /// `align` returns.
    pub open spec fn free_result(self, ptr: usize, size: usize, align: usize) -> Result<(), FreeErr> {
        if self.is_live(ptr, size, align) {
            Ok(())
        } else {
            Err(FreeErr::NotAllocated)
        }
    }

    /// The heap after a release of the allocation at `ptr`: its whole granted
    /// range, padding included, leaves the live allocations, absorbs the free
    /// blocks it touches on either side, and the merged block goes to the
    /// front of the free list.
    pub open spec fn free_state(self, ptr: usize, size: usize, align: usize) -> HeapModel {
        if self.is_live(ptr, size, align) {
            let g = self.live[self.live_index(ptr, size, align)];
            let lo = merged_start(self.free, g.addr as int);
            let hi = merged_end(self.free, end(g));
            HeapModel {
                free: seq![Block { addr: lo as usize, size: (hi - lo) as usize }] + detached(
                    self.free,
                    g.addr as int,
                    end(g),
                ),
                live: self.live.remove(self.live_index(ptr, size, align)),
                ..self
            }
        } else {
            self
        }
    }

    /// The heap after an allocation of `size` bytes aligned to `align`.
    pub open spec fn alloc_state(self, size: usize, align: usize) -> HeapModel {
        match self.alloc_result(size, align) {
            Ok(p) => HeapModel {
                free: carve(self.free, self.first_fit(size as int, align as int), p as int, size as int),
                live: self.live.push(granted(self.free[self.first_fit(size as int, align as int)], p as int, size as int)),
                ..self
            },
            Err(_) => self,
        }
    }
}

/// Every block a well-formed heap accounts for lies inside its extent.
pub proof fn lemma_block_in_region(m: HeapModel, k: int)
    requires
        m.wf(),
        0 <= k < m.blocks().len(),
    ensures
        m.base <= m.blocks()[k].addr,
        end(m.blocks()[k]) <= m.base + m.size,
        m.blocks()[k].size > 0,
{
    let b = m.blocks()[k];
    if k < m.free.len() {
        assert(b == m.free[k]);
    } else {
        assert(b == m.live[k - m.free.len()]);
    }
    lemma_count_pos(m.blocks(), k, b.addr as int);
    lemma_count_pos(m.blocks(), k, end(b) - 1);
}

/// Where some block fits, a first one does.
pub(crate) proof fn lemma_first_fit_exists(s: Seq<Block>, size: int, align: int, i: int)
    requires
        0 <= i < s.len(),
        fits(s[i], size, align),
    ensures
        exists|j: int| is_first_fit(s, size, align, j),
    decreases i,
{
    if exists|k: int| 0 <= k < i && fits(#[trigger] s[k], size, align) {
        let k = choose|k: int| 0 <= k < i && fits(#[trigger] s[k], size, align);
        lemma_first_fit_exists(s, size, align, k);
    } else {
        assert(is_first_fit(s, size, align, i));
    }
}

/// The first fitting index is the one `first_fit` names.
proof fn lemma_first_fit_unique(m: HeapModel, size: int, align: int, i: int)
    requires
        is_first_fit(m.free, size, align, i),
    ensures
        m.first_fit(size, align) == i,
        m.can_alloc(size, align),
{
    let j = m.first_fit(size, align);
    assert(is_first_fit(m.free, size, align, j));
    if j < i {
        assert(!fits(m.free[j], size, align));
    }
    if i < j {
        assert(!fits(m.free[i], size, align));
    }
}

/// The piece left of `b` and the granted range `[b.addr, p + size)` tile `b`.
proof fn lemma_pieces_tile(b: Block, p: int, size: int)
    requires
        b.addr <= p,
        p + size <= end(b),
        size > 0,
        p + size <= usize::MAX,
    ensures
        forall|x: int| #[trigger]
            count(pieces(b, p, size), x) + (if covers(granted(b, p, size), x) { 1nat } else { 0nat })
                == (if covers(b, x) {
                1nat
            } else {
                0nat
            }),
        total(pieces(b, p, size)) + granted(b, p, size).size == b.size,
        granted(b, p, size).size > 0,
        end(granted(b, p, size)) == p + size,
        forall|k: int| 0 <= k < pieces(b, p, size).len() ==> (#[trigger] pieces(b, p, size)[k]).size > 0
            && pieces(b, p, size)[k].addr == p + size && end(pieces(b, p, size)[k]) == end(b),
{
    let pc = pieces(b, p, size);
    let tail = Block { addr: (p + size) as usize, size: (end(b) - p - size) as usize };
    lemma_total_single(tail);
    if p + size < end(b) {
        assert(pc =~= seq![tail]);
    } else {
        assert(pc =~= Seq::<Block>::empty());
        assert(total(pc) == 0);
    }
    assert forall|x: int| #[trigger]
        count(pc, x) + (if covers(granted(b, p, size), x) { 1nat } else { 0nat }) == (if covers(b, x) {
            1nat
        } else {
            0nat
        }) by {
        lemma_count_single(tail, x);
        if p + size >= end(b) {
            assert(count(pc, x) == 0);
        }
    }
}

/// Carving an allocation out of free block `i` keeps addresses counted once
/// and sizes summed.
proof fn lemma_carve_tiles(m: HeapModel, i: int, p: int, size: usize)
    requires
        m.wf(),
        0 <= i < m.free.len(),
        m.free[i].addr <= p,
        p + size <= end(m.free[i]),
        size > 0,
    ensures
        ({
            let r = HeapModel {
                free: carve(m.free, i, p, size as int),
                live: m.live.push(granted(m.free[i], p, size as int)),
                ..m
            };
            &&& forall|x: int| #[trigger] count(r.blocks(), x) == count(m.blocks(), x)
            &&& total(r.free) + total(r.live) == m.size
        }),
{
    let b = m.free[i];
    lemma_free_block_bounds(m, i);
    lemma_pieces_tile(b, p, size as int);
    let a = granted(b, p, size as int);
    let pc = pieces(b, p, size as int);
    let t = carve(m.free, i, p, size as int);
    let lv = m.live.push(a);
    let r = HeapModel { free: t, live: lv, ..m };
    assert(m.free =~= m.free.take(i) + seq![b] + m.free.skip(i + 1));
    assert(lv.drop_last() =~= m.live);
    assert forall|x: int| #[trigger] count(r.blocks(), x) == count(m.blocks(), x) by {
        lemma_count_concat(m.free.take(i), pc, x);
        lemma_count_concat(m.free.take(i) + pc, m.free.skip(i + 1), x);
        lemma_count_concat(t, lv, x);
        lemma_count_concat(m.free.take(i), seq![b], x);
        lemma_count_concat(m.free.take(i) + seq![b], m.free.skip(i + 1), x);
        lemma_count_concat(m.free, m.live, x);
        lemma_count_single(b, x);
    }
    lemma_total_concat(m.free.take(i), pc);
    lemma_total_concat(m.free.take(i) + pc, m.free.skip(i + 1));
    lemma_total_concat(m.free.take(i), seq![b]);
    lemma_total_concat(m.free.take(i) + seq![b], m.free.skip(i + 1));
    lemma_total_single(b);
    assert(total(lv) == total(m.live) + a.size);
}

/// Carving an allocation out of free block `i` leaves no two free blocks touching.
proof fn lemma_carve_coalesced(m: HeapModel, i: int, p: int, size: usize)
    requires
        m.wf(),
        0 <= i < m.free.len(),
        m.free[i].addr <= p,
        p + size <= end(m.free[i]),
        size > 0,
    ensures
        forall|u: int, v: int|
            0 <= u < carve(m.free, i, p, size as int).len() && 0 <= v < carve(m.free, i, p, size as int).len()
                ==> end(#[trigger] carve(m.free, i, p, size as int)[u]) != (
            #[trigger] carve(m.free, i, p, size as int)[v]).addr,
{
    let b = m.free[i];
    lemma_free_block_bounds(m, i);
    lemma_pieces_tile(b, p, size as int);
    let pc = pieces(b, p, size as int);
    let t = carve(m.free, i, p, size as int);
    let np = pc.len() as int;
    assert(m.blocks()[i] == b);
    assert forall|u: int, v: int| 0 <= u < t.len() && 0 <= v < t.len() implies end(
        #[trigger] t[u],
    ) != (#[trigger] t[v]).addr by {
        let ou = if u < i { u } else if u >= i + np { u - np + 1 } else { -1 };
        let ov = if v < i { v } else if v >= i + np { v - np + 1 } else { -1 };
        if ou >= 0 {
            assert(t[u] == m.free[ou]);
            assert(m.blocks()[ou] == m.free[ou]);
        } else {
            assert(t[u] == pc[u - i]);
        }
        if ov >= 0 {
            assert(t[v] == m.free[ov]);
            assert(m.blocks()[ov] == m.free[ov]);
        } else {
            assert(t[v] == pc[v - i]);
        }
        if ou >= 0 && ov >= 0 {
            assert(end(m.free[ou]) != m.free[ov].addr);
        } else if ou >= 0 {
            let y = t[v].addr as int;
            if end(t[u]) == y {
                if y == b.addr {
                    assert(end(m.free[ou]) != m.free[i].addr);
                } else {
                    assert(covers(m.blocks()[ou], y - 1));
                    assert(covers(m.blocks()[i], y - 1));
                    lemma_count_two(m.blocks(), ou, i, y - 1);
                }
            }
        } else if ov >= 0 {
            let y = end(t[u]);
            if y == t[v].addr {
                if y == end(b) {
                    assert(end(m.free[i]) != m.free[ov].addr);
                } else {
                    assert(covers(m.blocks()[ov], y));
                    assert(covers(m.blocks()[i], y));
                    lemma_count_two(m.blocks(), ov, i, y);
                }
            }
        }
    }
}

/// A successful allocation keeps the heap well formed.
pub proof fn lemma_alloc_wf(m: HeapModel, size: usize, align: usize)
    requires
        m.wf(),
        m.alloc_result(size, align) is Ok,
    ensures
        m.alloc_state(size, align).wf(),
{
    let w = choose|w: int| 0 <= w < m.free.len() && fits(#[trigger] m.free[w], size as int, align as int);
    lemma_first_fit_exists(m.free, size as int, align as int, w);
    let i = m.first_fit(size as int, align as int);
    assert(is_first_fit(m.free, size as int, align as int, i));
    let b = m.free[i];
    let p = align_up(b.addr as int, align as int);
    lemma_align_up(b.addr as int, align as int);
    lemma_free_block_bounds(m, i);
    lemma_carve_tiles(m, i, p, size);
    lemma_carve_coalesced(m, i, p, size);
    lemma_pieces_tile(b, p, size as int);
    let t = carve(m.free, i, p, size as int);
    let r = m.alloc_state(size, align);
    assert(r.free == t);
    assert(r.live == m.live.push(granted(b, p, size as int)));
    let np = pieces(b, p, size as int).len() as int;
    assert forall|k: int| 0 <= k < t.len() implies (#[trigger] t[k]).size > 0 by {
        if k >= i + np {
            assert(t[k] == m.free[k - np + 1]);
        } else if k >= i {
            assert(t[k] == pieces(b, p, size as int)[k - i]);
        }
    }
    assert forall|k: int| 0 <= k < r.live.len() implies (#[trigger] r.live[k]).size > 0 by {
        if k < m.live.len() {
            assert(r.live[k] == m.live[k]);
        }
    }
    assert(r.coalesced());
}

/// Detaching the blocks that touch `[lo, hi)` splits the counts and sizes
/// of `s` into what stays and the stretches `[merged_start, lo)` and
/// `[hi, merged_end)` that are absorbed.
pub(crate) proof fn lemma_detach(s: Seq<Block>, lo: int, hi: int, x: int)
    requires
        lo < hi,
        forall|i: int| 0 <= i < s.len() ==> (#[trigger] s[i]).size > 0,
        forall|i: int, j: int|
            0 <= i < s.len() && 0 <= j < s.len() && end(#[trigger] s[i]) == lo && end(#[trigger] s[j])
                == lo ==> i == j,
        forall|i: int, j: int|
            0 <= i < s.len() && 0 <= j < s.len() && (#[trigger] s[i]).addr == hi && (
            #[trigger] s[j]).addr == hi ==> i == j,
    ensures
        count(s, x) == count(detached(s, lo, hi), x) + (if merged_start(s, lo) <= x < lo {
            1nat
        } else {
            0nat
        }) + (if hi <= x < merged_end(s, hi) {
            1nat
        } else {
            0nat
        }),
        total(s) == total(detached(s, lo, hi)) + (lo - merged_start(s, lo)) + (merged_end(s, hi)
            - hi),
        merged_start(s, lo) <= lo,
        merged_end(s, hi) >= hi,
        (forall|i: int| 0 <= i < s.len() ==> end(#[trigger] s[i]) != lo) ==> merged_start(s, lo)
            == lo,
        merged_start(s, lo) != lo ==> exists|i: int|
            0 <= i < s.len() && end(#[trigger] s[i]) == lo && s[i].addr == merged_start(s, lo),
        (forall|i: int| 0 <= i < s.len() ==> (#[trigger] s[i]).addr != hi) ==> merged_end(s, hi)
            == hi,
        merged_end(s, hi) != hi ==> exists|i: int|
            0 <= i < s.len() && (#[trigger] s[i]).addr == hi && end(s[i]) == merged_end(s, hi),
        forall|k: int|
            0 <= k < detached(s, lo, hi).len() ==> exists|i: int|
                0 <= i < s.len() && #[trigger] detached(s, lo, hi)[k] == s[i] && end(s[i]) != lo
                    && s[i].addr != hi,
    decreases s.len(),
{
    if s.len() > 0 {
        let t = s.drop_last();
        let b = s.last();
        let n = s.len() - 1;
        assert(b == s[n]);
        assert forall|i: int| 0 <= i < t.len() implies (#[trigger] t[i]).size > 0 by {
            assert(t[i] == s[i]);
        }
        lemma_detach(t, lo, hi, x);
        assert(count(seq![b], x) == 0 || covers(b, x)) by {
            lemma_count_single(b, x);
        }
        let d = detached(s, lo, hi);
        let dt = detached(t, lo, hi);
        if end(b) == lo {
            assert forall|i: int| 0 <= i < t.len() implies end(#[trigger] t[i]) != lo by {
                assert(t[i] == s[i]);
            }
            assert(d == dt);
        } else if b.addr == hi {
            assert forall|i: int| 0 <= i < t.len() implies (#[trigger] t[i]).addr != hi by {
                assert(t[i] == s[i]);
            }
            assert(d == dt);
        } else {
            assert(d == dt.push(b));
            assert(d.drop_last() =~= dt);
            assert forall|k: int| 0 <= k < d.len() implies exists|i: int|
                0 <= i < s.len() && #[trigger] d[k] == s[i] && end(s[i]) != lo && s[i].addr != hi by {
                if k == d.len() - 1 {
                    assert(d[k] == s[n]);
                } else {
                    assert(d[k] == dt[k]);
                    let i = choose|i: int|
                        0 <= i < t.len() && #[trigger] dt[k] == t[i] && end(t[i]) != lo && t[i].addr
                            != hi;
                    assert(s[i] == t[i]);
                }
            }
        }
        if merged_start(s, lo) != lo && end(b) != lo {
            let i = choose|i: int|
                0 <= i < t.len() && end(#[trigger] t[i]) == lo && t[i].addr == merged_start(t, lo);
            assert(s[i] == t[i]);
        }
        if merged_end(s, hi) != hi && b.addr != hi {
            let i = choose|i: int|
                0 <= i < t.len() && (#[trigger] t[i]).addr == hi && end(t[i]) == merged_end(t, hi);
            assert(s[i] == t[i]);
        }
        if end(b) == lo || b.addr == hi {
            assert forall|k: int| 0 <= k < d.len() implies exists|i: int|
                0 <= i < s.len() && #[trigger] d[k] == s[i] && end(s[i]) != lo && s[i].addr != hi by {
                let i = choose|i: int|
                    0 <= i < t.len() && #[trigger] dt[k] == t[i] && end(t[i]) != lo && t[i].addr != hi;
                assert(s[i] == t[i]);
            }
        }
        if forall|i: int| 0 <= i < s.len() ==> end(#[trigger] s[i]) != lo {
            assert(end(s[n]) != lo);
            assert forall|i: int| 0 <= i < t.len() implies end(#[trigger] t[i]) != lo by {
                assert(t[i] == s[i]);
            }
        }
        if forall|i: int| 0 <= i < s.len() ==> (#[trigger] s[i]).addr != hi {
            assert(s[n].addr != hi);
            assert forall|i: int| 0 <= i < t.len() implies (#[trigger] t[i]).addr != hi by {
                assert(t[i] == s[i]);
            }
        }
    }
}

/// In a well-formed heap at most one live range is granted at `ptr` for a
/// request of `size` bytes aligned to `align`.
pub(crate) proof fn lemma_live_unique(m: HeapModel, j1: int, j2: int, ptr: usize, size: usize, align: usize)
    requires
        m.wf(),
        0 <= j1 < m.live.len(),
        0 <= j2 < m.live.len(),
        grants(m.live[j1], ptr, size, align),
        grants(m.live[j2], ptr, size, align),
    ensures
        j1 == j2,
{
    if j1 != j2 {
        let n = m.free.len() as int;
        assert(m.blocks()[n + j1] == m.live[j1]);
        assert(m.blocks()[n + j2] == m.live[j2]);
        lemma_count_two(m.blocks(), n + j1, n + j2, ptr + size - 1);
    }
}

/// In a well-formed heap, at most one free block ends at `lo` and at most
/// one starts at `hi`.
pub(crate) proof fn lemma_free_edges_unique(m: HeapModel, lo: int, hi: int)
    requires
        m.wf(),
    ensures
        forall|i: int, j: int|
            0 <= i < m.free.len() && 0 <= j < m.free.len() && end(#[trigger] m.free[i]) == lo && end(
                #[trigger] m.free[j],
            ) == lo ==> i == j,
        forall|i: int, j: int|
            0 <= i < m.free.len() && 0 <= j < m.free.len() && (#[trigger] m.free[i]).addr == hi && (
            #[trigger] m.free[j]).addr == hi ==> i == j,
{
    assert forall|i: int, j: int|
        0 <= i < m.free.len() && 0 <= j < m.free.len() && end(#[trigger] m.free[i]) == lo && end(
            #[trigger] m.free[j],
        ) == lo implies i == j by {
        if i != j {
            assert(m.blocks()[i] == m.free[i]);
            assert(m.blocks()[j] == m.free[j]);
            lemma_count_two(m.blocks(), i, j, lo - 1);
        }
    }
    assert forall|i: int, j: int|
        0 <= i < m.free.len() && 0 <= j < m.free.len() && (#[trigger] m.free[i]).addr == hi && (
        #[trigger] m.free[j]).addr == hi implies i == j by {
        if i != j {
            assert(m.blocks()[i] == m.free[i]);
            assert(m.blocks()[j] == m.free[j]);
            lemma_count_two(m.blocks(), i, j, hi);
        }
    }
}

/// A release of a live allocation keeps the heap well formed.
pub proof fn lemma_free_wf(m: HeapModel, ptr: usize, size: usize, align: usize)
    requires
        m.wf(),
        m.is_live(ptr, size, align),
    ensures
        m.free_state(ptr, size, align).wf(),
{
    let j = m.live_index(ptr, size, align);
    let pb = m.live[j];
    let st = pb.addr;
    let n = m.free.len() as int;
    assert(m.blocks()[n + j] == pb);
    lemma_block_in_region(m, n + j);
    let q = end(pb);
    let f = m.free;
    lemma_free_edges_unique(m, st as int, q);
    lemma_detach(f, st as int, q, 0);
    let lo = merged_start(f, st as int);
    let hi = merged_end(f, q);
    if lo != st {
        let i = choose|i: int| 0 <= i < f.len() && end(#[trigger] f[i]) == st && f[i].addr == lo;
    }
    if hi != q {
        let i = choose|i: int| 0 <= i < f.len() && (#[trigger] f[i]).addr == q && end(f[i]) == hi;
        lemma_block_in_region(m, i);
        assert(m.blocks()[i] == f[i]);
    }
    let mb = Block { addr: lo as usize, size: (hi - lo) as usize };
    let d = detached(f, st as int, q);
    let lv = m.live.remove(j);
    let r = m.free_state(ptr, size, align);
    assert(r.free == seq![mb] + d);
    assert(r.live == lv);
    assert(m.live =~= m.live.take(j) + seq![pb] + m.live.skip(j + 1));
    assert(lv =~= m.live.take(j) + m.live.skip(j + 1));
    assert forall|x: int| #[trigger] count(r.blocks(), x) == count(m.blocks(), x) by {
        lemma_detach(f, st as int, q, x);
        lemma_count_single(mb, x);
        lemma_count_single(pb, x);
        lemma_count_concat(seq![mb], d, x);
        lemma_count_concat(seq![mb] + d, lv, x);
        lemma_count_concat(f, m.live, x);
        lemma_count_concat(m.live.take(j), m.live.skip(j + 1), x);
        lemma_count_concat(m.live.take(j), seq![pb], x);
        lemma_count_concat(m.live.take(j) + seq![pb], m.live.skip(j + 1), x);
    }
    lemma_total_single(mb);
    lemma_total_single(pb);
    lemma_total_concat(seq![mb], d);
    lemma_total_concat(m.live.take(j), m.live.skip(j + 1));
    lemma_total_concat(m.live.take(j), seq![pb]);
    lemma_total_concat(m.live.take(j) + seq![pb], m.live.skip(j + 1));
    assert forall|k: int| 0 <= k < r.free.len() implies (#[trigger] r.free[k]).size > 0 by {
        if k > 0 {
            assert(r.free[k] == d[k - 1]);
            let i = choose|i: int|
                0 <= i < f.len() && #[trigger] d[k - 1] == f[i] && end(f[i]) != st && f[i].addr != q;
        }
    }
    assert forall|k: int| 0 <= k < lv.len() implies (#[trigger] lv[k]).size > 0 by {
        if k < j {
            assert(lv[k] == m.live[k]);
        } else {
            assert(lv[k] == m.live[k + 1]);
        }
    }
    assert forall|u: int, v: int| 0 <= u < r.free.len() && 0 <= v < r.free.len() implies end(
        #[trigger] r.free[u],
    ) != (#[trigger] r.free[v]).addr by {
        if u > 0 {
            assert(r.free[u] == d[u - 1]);
        }
        if v > 0 {
            assert(r.free[v] == d[v - 1]);
        }
        if u > 0 && v > 0 {
            let iu = choose|i: int|
                0 <= i < f.len() && #[trigger] d[u - 1] == f[i] && end(f[i]) != st && f[i].addr != q;
            let iv = choose|i: int|
                0 <= i < f.len() && #[trigger] d[v - 1] == f[i] && end(f[i]) != st && f[i].addr != q;
            assert(end(f[iu]) != f[iv].addr);
        } else if u > 0 {
            let iu = choose|i: int|
                0 <= i < f.len() && #[trigger] d[u - 1] == f[i] && end(f[i]) != st && f[i].addr != q;
            if lo != st {
                let il = choose|i: int| 0 <= i < f.len() && end(#[trigger] f[i]) == st && f[i].addr == lo;
                assert(end(f[iu]) != f[il].addr);
            }
        } else if v > 0 {
            let iv = choose|i: int|
                0 <= i < f.len() && #[trigger] d[v - 1] == f[i] && end(f[i]) != st && f[i].addr != q;
            if hi != q {
                let ih = choose|i: int| 0 <= i < f.len() && (#[trigger] f[i]).addr == q && end(f[i]) == hi;
                assert(end(f[ih]) != f[iv].addr);
            }
        }
    }
    assert(r.coalesced());
}

/// An address that an allocation hands out is aligned, and the range it
/// starts fits in the address space.
pub proof fn lemma_alloc_result(m: HeapModel, size: usize, align: usize)
    requires
        m.wf(),
        m.alloc_result(size, align) is Ok,
    ensures
        m.alloc_result(size, align) matches Ok(p) ==> p % align == 0 && p + size <= usize::MAX,
{
    let w = choose|w: int| 0 <= w < m.free.len() && fits(#[trigger] m.free[w], size as int, align as int);
    lemma_first_fit_exists(m.free, size as int, align as int, w);
    let i = m.first_fit(size as int, align as int);
    assert(is_first_fit(m.free, size as int, align as int, i));
    lemma_free_block_bounds(m, i);
    lemma_align_up(m.free[i].addr as int, align as int);
}

/// A release that succeeds was for a nonempty range that fits in the
/// address space.
pub proof fn lemma_free_result(m: HeapModel, ptr: usize, size: usize, align: usize)
    requires
        m.wf(),
        m.free_result(ptr, size, align) is Ok,
    ensures
        size > 0,
        ptr + size <= usize::MAX,
{
    let j = m.live_index(ptr, size, align);
    let n = m.free.len() as int;
    assert(m.blocks()[n + j] == m.live[j]);
    lemma_block_in_region(m, n + j);
}

/// The blocks of the free list of `m`, at `i`, can be read without overflow.
proof fn lemma_free_block_bounds(m: HeapModel, i: int)
    requires
        m.wf(),
        0 <= i < m.free.len(),
    ensures
        m.free[i].addr + m.free[i].size <= usize::MAX,
        m.free[i].size > 0,
{
    lemma_block_in_region(m, i);
    assert(m.blocks()[i] == m.free[i]);
}

/// A heap over one extent of addresses.
pub struct Heap {
    base: usize,
    size: usize,
    free: Vec<Block>,
    live: Vec<Block>,
}

impl View for Heap {
    type V = HeapModel;

    closed spec fn view(&self) -> HeapModel {
        HeapModel { base: self.base as int, size: self.size as int, free: self.free@, live: self.live@ }
    }
}

/// The aligned start of the request inside `b`, where the request fits there.
fn fit_addr(b: Block, size: usize, align: usize) -> (r: Option<usize>)
    requires
        align > 0,
        b.addr + b.size <= usize::MAX,
    ensures
        r is Some <==> fits(b, size as int, align as int),
        r matches Some(p) ==> p == align_up(b.addr as int, align as int),
{
    let rem = b.addr % align;
    let pad: usize = if rem == 0 { 0 } else { align - rem };
    if pad > b.size {
        None
    } else if size > b.size - pad {
        None
    } else {
        Some(b.addr + pad)
    }
}

/// Whether `g` is the range granted at `ptr` for `size` bytes aligned to `align`.
fn is_granted(g: Block, ptr: usize, size: usize, align: usize) -> (r: bool)
    requires
        g.addr + g.size <= usize::MAX,
    ensures
        r == grants(g, ptr, size, align),
{
    if size == 0 || align == 0 || g.addr > ptr {
        return false;
    }
    let off = ptr - g.addr;
    if off > g.size || g.size - off != size {
        return false;
    }
    let rem = g.addr % align;
    let pad: usize = if rem == 0 { 0 } else { align - rem };
    pad == off
}

impl Heap {
    pub open spec fn wf(&self) -> bool {
        self@.wf()
    }

    /// A heap over `[start, end)`, all of it free.
    pub fn new(start: usize, end: usize) -> (h: Heap)
        requires
            start <= end,
        ensures
            h.wf(),
            h@ == fresh(start as int, end as int),
    {
        let mut free: Vec<Block> = Vec::new();
        if start < end {
            free.push(Block { addr: start, size: end - start });
        }
        let h = Heap { base: start, size: end - start, free, live: Vec::new() };
        proof {
            let m = h@;
            let b = Block { addr: start, size: (end - start) as usize };
            assert(m.blocks() =~= m.free);
            assert forall|x: int| #[trigger]
                count(m.blocks(), x) == if m.in_region(x) {
                    1nat
                } else {
                    0nat
                } by {
                lemma_count_single(b, x);
                if start == end {
                    assert(count(m.free, x) == 0);
                }
            }
            lemma_total_single(b);
            assert(total(m.live) == 0);
            if start == end {
                assert(total(m.free) == 0);
            }
        }
        h
    }

    /// The first address of the managed extent.
    pub fn base(&self) -> (r: usize)
        ensures
            r == self@.base,
    {
        self.base
    }

    /// The number of bytes in the managed extent.
    pub fn size(&self) -> (r: usize)
        ensures
            r == self@.size,
    {
        self.size
    }

    /// The free list, in list order.
    pub fn free_blocks(&self) -> (r: Vec<Block>)
        ensures
            r@ == self@.free,
    {
        self.free.clone()
    }

    /// The live allocations, in the order they were made.
    pub fn live_blocks(&self) -> (r: Vec<Block>)
        ensures
            r@ == self@.live,
    {
        self.live.clone()
    }

    /// Allocates `size` bytes aligned to `align` from the first free block,
    /// in list order, that can hold them. The allocation takes that block
    /// from its start, alignment padding included; what is left behind it
    /// takes the block's place in the list.
    pub fn allocate(&mut self, size: usize, align: usize) -> (r: Result<usize, AllocErr>)
        requires
            old(self).wf(),
        ensures
            final(self).wf(),
            r == old(self)@.alloc_result(size, align),
            final(self)@ == old(self)@.alloc_state(size, align),
    {
        if size == 0 || align == 0 {
            return Err(AllocErr::Unsupported);
        }
        let ghost m = self@;
        let n = self.free.len();
        let mut i: usize = 0;
        let mut found: Option<usize> = None;
        while found.is_none() && i < n
            invariant
                self@ == m,
                m.wf(),
                n == m.free.len(),
                align > 0,
                0 <= i <= n,
                found is None ==> forall|k: int|
                    0 <= k < i ==> !fits(#[trigger] m.free[k], size as int, align as int),
                found matches Some(p) ==> is_first_fit(m.free, size as int, align as int, i as int)
                    && p == align_up(m.free[i as int].addr as int, align as int),
            decreases n - i + if found is None { 1int } else { 0int },
        {
            proof {
                lemma_free_block_bounds(m, i as int);
            }
            let b = self.free[i];
            match fit_addr(b, size, align) {
                Some(p) => {
                    found = Some(p);
                },
                None => {
                    i = i + 1;
                },
            }
        }
        let p = match found {
            Some(p) => p,
            None => {
                assert(!m.can_alloc(size as int, align as int));
                return Err(AllocErr::Exhausted);
            },
        };
        proof {
            lemma_first_fit_unique(m, size as int, align as int, i as int);
            lemma_free_block_bounds(m, i as int);
            lemma_align_up(m.free[i as int].addr as int, align as int);
            lemma_alloc_wf(m, size, align);
        }
        let b = self.free[i];
        let stop = b.addr + b.size;
        let after = p + size;
        if after < stop {
            self.free[i] = Block { addr: after, size: stop - after };
        } else {
            self.free.remove(i);
        }
        self.live.push(Block { addr: b.addr, size: after - b.addr });
        assert(self@.free =~= carve(m.free, i as int, p as int, size as int));
        assert(self@.live =~= m.live.push(granted(b, p as int, size as int)));
        Ok(p)
    }

    /// Gives back the allocation handed out at `ptr` for `size` bytes
    /// aligned to `align`. Its whole granted range, alignment padding
    /// included, is merged with the free blocks directly in front of and
    /// behind it, and the merged block goes to the front of the free list.
    /// A request that matches no live allocation is refused and nothing
    /// changes.
    pub fn deallocate(&mut self, ptr: usize, size: usize, align: usize) -> (r: Result<(), FreeErr>)
        requires
            old(self).wf(),
        ensures
            final(self).wf(),
            r == old(self)@.free_result(ptr, size, align),
            final(self)@ == old(self)@.free_state(ptr, size, align),
    {
        let ghost m = self@;
        let nl = self.live.len();
        let mut j: usize = 0;
        let mut found = false;
        while !found && j < nl
            invariant
                self@ == m,
                m.wf(),
                nl == m.live.len(),
                0 <= j <= nl,
                found ==> j < nl && grants(m.live[j as int], ptr, size, align),
                !found ==> forall|k: int| 0 <= k < j ==> !grants(#[trigger] m.live[k], ptr, size, align),
            decreases nl - j + if found { 0int } else { 1int },
        {
            proof {
                lemma_block_in_region(m, m.free.len() + j);
                assert(m.blocks()[m.free.len() + j] == m.live[j as int]);
            }
            if is_granted(self.live[j], ptr, size, align) {
                found = true;
            } else {
                j = j + 1;
            }
        }
        if !found {
            assert(!m.is_live(ptr, size, align));
            return Err(FreeErr::NotAllocated);
        }
        let g = self.live[j];
        let st = g.addr;
        proof {
            lemma_live_unique(m, j as int, m.live_index(ptr, size, align), ptr, size, align);
            lemma_block_in_region(m, m.free.len() + j);
            assert(m.blocks()[m.free.len() + j] == g);
            lemma_free_wf(m, ptr, size, align);
            lemma_free_edges_unique(m, st as int, end(g));
        }
        self.live.remove(j);
        let q = st + g.size;
        let mut lo = st;
        let mut hi = q;
        let mut rest: Vec<Block> = Vec::new();
        let nf = self.free.len();
        let mut i: usize = 0;
        while i < nf
            invariant
                self@.free == m.free,
                m.wf(),
                nf == m.free.len(),
                st == g.addr,
                q == end(g),
                g.size > 0,
                0 <= i <= nf,
                lo == merged_start(m.free.take(i as int), st as int),
                hi == merged_end(m.free.take(i as int), q as int),
                rest@ == detached(m.free.take(i as int), st as int, q as int),
            decreases nf - i,
        {
            proof {
                lemma_free_block_bounds(m, i as int);
                assert(m.free.take(i + 1).drop_last() =~= m.free.take(i as int));
                assert(m.free.take(i + 1).last() == m.free[i as int]);
            }
            let b = self.free[i];
            let e = b.addr + b.size;
            if e == st {
                lo = b.addr;
            } else if b.addr == q {
                hi = e;
            } else {
                rest.push(b);
            }
            i = i + 1;
        }
        proof {
            assert(m.free.take(nf as int) =~= m.free);
        }
        let ghost r = m.free_state(ptr, size, align);
        proof {
            lemma_detach(m.free, st as int, q as int, 0);
            if hi != q {
                let k = choose|k: int|
                    0 <= k < m.free.len() && (#[trigger] m.free[k]).addr == q && end(m.free[k]) == hi;
                lemma_free_block_bounds(m, k);
            }
        }
        rest.insert(0, Block { addr: lo, size: hi - lo });
        self.free = rest;
        assert(self@.free =~= r.free);
        assert(self@.live =~= r.live);
        Ok(())
    }
}

} // verus!
