//! What holds of every heap and of every sequence of requests.
use vstd::prelude::*;
use vstd::arithmetic::power2::is_pow2;
use crate::block::{Block, align_up, covers, end, total, lemma_align_up, lemma_count_two};
use crate::heap::{
    AllocErr, HeapModel, fits, granted, grants, merged_start, merged_end, lemma_alloc_wf,
    lemma_alloc_result, lemma_free_wf,
};

verus! {

/// In every well-formed heap, the bytes of the live allocations and the
/// bytes of the free list add up to the size of the managed extent (no
/// header bytes are taken from it). Every allocation and release keeps a
/// heap well formed (`lemma_alloc_wf`, `lemma_free_wf`), so this holds after
/// any sequence of them.
pub proof fn lemma_conservation(m: HeapModel)
    requires
        m.wf(),
    ensures
        total(m.live) + total(m.free) == m.size,
{
}

/// No two live allocations of a well-formed heap share an address.
pub proof fn lemma_live_disjoint(m: HeapModel, i: int, j: int, x: int)
    requires
        m.wf(),
        0 <= i < m.live.len(),
        0 <= j < m.live.len(),
        i != j,
        covers(m.live[i], x),
    ensures
        !covers(m.live[j], x),
{
    let n = m.free.len() as int;
    assert(m.blocks()[n + i] == m.live[i]);
    assert(m.blocks()[n + j] == m.live[j]);
    if covers(m.live[j], x) {
        lemma_count_two(m.blocks(), n + i, n + j, x);
    }
}

/// A request larger than every free block fails with `Exhausted`, however
/// many bytes are free in all: free blocks are never combined to serve it.
pub proof fn lemma_no_compaction(m: HeapModel, size: usize, align: usize)
    requires
        m.wf(),
        size > 0,
        align > 0,
        forall|i: int| 0 <= i < m.free.len() ==> (#[trigger] m.free[i]).size < size,
    ensures
        m.alloc_result(size, align) == Err::<usize, AllocErr>(AllocErr::Exhausted),
{
    assert forall|i: int| 0 <= i < m.free.len() implies !fits(
        #[trigger] m.free[i],
        size as int,
        align as int,
    ) by {
        lemma_align_up(m.free[i].addr as int, align as int);
    }
}

/// A smaller power of two divides a larger one.
proof fn lemma_pow2_divides(a: int, b: int)
    requires
        is_pow2(a),
        is_pow2(b),
        b <= a,
    ensures
        a % b == 0,
    decreases b,
{
    reveal(is_pow2);
    if b != 1 {
        assert(a != 1);
        lemma_pow2_divides(a / 2, b / 2);
        let k = (a / 2) / (b / 2);
        assert(a / 2 == k * (b / 2)) by {
            vstd::arithmetic::div_mod::lemma_fundamental_div_mod(a / 2, b / 2);
        }
        assert(a == k * b) by (nonlinear_arith)
            requires
                a / 2 == k * (b / 2),
                a % 2 == 0,
                b % 2 == 0,
        ;
        vstd::arithmetic::div_mod::lemma_mod_multiples_basic(k, b);
    }
}

/// A multiple of `a` is a multiple of every divisor of `a`.
proof fn lemma_mod_trans(p: int, a: int, b: int)
    requires
        p >= 0,
        b > 0,
        a > 0,
        p % a == 0,
        a % b == 0,
    ensures
        p % b == 0,
{
    vstd::arithmetic::div_mod::lemma_fundamental_div_mod(p, a);
    vstd::arithmetic::div_mod::lemma_fundamental_div_mod(a, b);
    let k = (p / a) * (a / b);
    assert(p == k * b) by (nonlinear_arith)
        requires
            p == a * (p / a),
            a == b * (a / b),
            k == (p / a) * (a / b),
    ;
    vstd::arithmetic::div_mod::lemma_mod_multiples_basic(k, b);
}

/// `align_up(x, a)` is the least multiple of `a` from `x` on.
proof fn lemma_align_up_least(x: int, y: int, a: int)
    requires
        0 <= x <= y,
        a > 0,
        y % a == 0,
    ensures
        align_up(x, a) <= y,
{
    lemma_align_up(x, a);
    let u = align_up(x, a);
    vstd::arithmetic::div_mod::lemma_fundamental_div_mod(u, a);
    vstd::arithmetic::div_mod::lemma_fundamental_div_mod(y, a);
    let ku = u / a;
    let ky = y / a;
    if u > y {
        assert(false) by (nonlinear_arith)
            requires
                u == a * ku,
                y == a * ky,
                y < u,
                u < y + a,
                a > 0,
        ;
    }
}

/// Allocating `size` bytes aligned to `align`, then giving them back, leaves
/// a heap from which `size2 <= size` bytes aligned to a power of two
/// `align2 <= align` can be allocated.
pub proof fn lemma_round_trip(m: HeapModel, size: usize, align: usize, size2: usize, align2: usize)
    requires
        m.wf(),
        is_pow2(align as int),
        is_pow2(align2 as int),
        0 < size2 <= size,
        align2 <= align,
        m.alloc_result(size, align) is Ok,
    ensures
        ({
            let p = m.alloc_result(size, align)->Ok_0;
            let m1 = m.alloc_state(size, align);
            &&& m1.free_result(p, size, align) is Ok
            &&& m1.free_state(p, size, align).alloc_result(size2, align2) is Ok
        }),
{
    reveal(is_pow2);
    let p = m.alloc_result(size, align)->Ok_0;
    let m1 = m.alloc_state(size, align);
    lemma_alloc_wf(m, size, align);
    lemma_alloc_result(m, size, align);
    let w = choose|w: int| 0 <= w < m.free.len() && fits(#[trigger] m.free[w], size as int, align as int);
    crate::heap::lemma_first_fit_exists(m.free, size as int, align as int, w);
    let i0 = m.first_fit(size as int, align as int);
    assert(crate::heap::is_first_fit(m.free, size as int, align as int, i0));
    lemma_align_up(m.free[i0].addr as int, align as int);
    crate::heap::lemma_block_in_region(m, i0);
    assert(m.blocks()[i0] == m.free[i0]);
    assert(p == align_up(m.free[i0].addr as int, align as int));
    let pb = granted(m.free[i0], p as int, size as int);
    assert(m1.live[m.live.len() as int] == pb);
    assert(grants(pb, p, size, align));
    assert(m1.is_live(p, size, align));
    lemma_free_wf(m1, p, size, align);
    let j = m1.live_index(p, size, align);
    assert(m1.live[j] == pb) by {
        crate::heap::lemma_live_unique(m1, j, m.live.len() as int, p, size, align);
    }
    let m2 = m1.free_state(p, size, align);
    let f = m1.free;
    let st = pb.addr;
    let q = end(pb);
    crate::heap::lemma_free_edges_unique(m1, st as int, q);
    let lo = merged_start(f, st as int);
    let hi = merged_end(f, q);
    crate::heap::lemma_detach(f, st as int, q, 0);
    if hi != q {
        let i = choose|i: int| 0 <= i < f.len() && (#[trigger] f[i]).addr == q && end(f[i]) == hi;
        crate::heap::lemma_block_in_region(m1, i);
        assert(m1.blocks()[i] == f[i]);
    }
    if lo != st {
        let i = choose|i: int| 0 <= i < f.len() && end(#[trigger] f[i]) == st && f[i].addr == lo;
    }
    let b = m2.free[0];
    assert(b == Block { addr: lo as usize, size: (hi - lo) as usize });
    assert(b.addr == lo && end(b) == hi);
    lemma_pow2_divides(align as int, align2 as int);
    lemma_mod_trans(p as int, align as int, align2 as int);
    lemma_align_up_least(lo, p as int, align2 as int);
    assert(fits(m2.free[0], size2 as int, align2 as int));
}

} // verus!
