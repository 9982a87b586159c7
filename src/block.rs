//! Byte ranges and the arithmetic over sequences of them.
use vstd::prelude::*;

verus! {

/// A contiguous byte range `[addr, addr + size)`.
#[derive(Clone, Copy, Debug, PartialEq, Eq, Structural)]
pub struct Block {
    pub addr: usize,
    pub size: usize,
}

/// One past the last address of `b`.
pub open spec fn end(b: Block) -> int {
    b.addr + b.size
}

/// Address `x` lies inside `b`.
pub open spec fn covers(b: Block, x: int) -> bool {
    b.addr <= x < end(b)
}

/// How many blocks of `s` contain address `x`.
pub open spec fn count(s: Seq<Block>, x: int) -> nat
    decreases s.len(),
{
    if s.len() == 0 {
        0
    } else {
        count(s.drop_last(), x) + if covers(s.last(), x) { 1nat } else { 0nat }
    }
}

/// The sum of the sizes of the blocks of `s`.
pub open spec fn total(s: Seq<Block>) -> int
    decreases s.len(),
{
    if s.len() == 0 {
        0
    } else {
        total(s.drop_last()) + s.last().size
    }
}

/// The least multiple of `a` that is not below `x` (for `a > 0`).
pub open spec fn align_up(x: int, a: int) -> int {
    if x % a == 0 {
        x
    } else {
        x + (a - x % a)
    }
}

pub proof fn lemma_count_concat(a: Seq<Block>, b: Seq<Block>, x: int)
    ensures
        count(a + b, x) == count(a, x) + count(b, x),
    decreases b.len(),
{
    if b.len() == 0 {
        assert(a + b =~= a);
    } else {
        lemma_count_concat(a, b.drop_last(), x);
        assert((a + b).drop_last() =~= a + b.drop_last());
    }
}

pub proof fn lemma_total_concat(a: Seq<Block>, b: Seq<Block>)
    ensures
        total(a + b) == total(a) + total(b),
    decreases b.len(),
{
    if b.len() == 0 {
        assert(a + b =~= a);
    } else {
        lemma_total_concat(a, b.drop_last());
        assert((a + b).drop_last() =~= a + b.drop_last());
    }
}

pub proof fn lemma_count_single(b: Block, x: int)
    ensures
        count(seq![b], x) == if covers(b, x) { 1nat } else { 0nat },
{
    assert(seq![b].drop_last() =~= Seq::<Block>::empty());
    assert(count(seq![b].drop_last(), x) == 0);
}

pub proof fn lemma_total_single(b: Block)
    ensures
        total(seq![b]) == b.size,
{
    assert(seq![b].drop_last() =~= Seq::<Block>::empty());
    assert(total(seq![b].drop_last()) == 0);
}

/// A block of `s` that contains `x` makes `x` counted at least once.
pub proof fn lemma_count_pos(s: Seq<Block>, i: int, x: int)
    requires
        0 <= i < s.len(),
        covers(s[i], x),
    ensures
        count(s, x) >= 1,
    decreases s.len(),
{
    if i < s.len() - 1 {
        lemma_count_pos(s.drop_last(), i, x);
    }
}

/// Two distinct blocks of `s` that contain `x` make `x` counted at least twice.
pub proof fn lemma_count_two(s: Seq<Block>, i: int, j: int, x: int)
    requires
        0 <= i < s.len(),
        0 <= j < s.len(),
        i != j,
        covers(s[i], x),
        covers(s[j], x),
    ensures
        count(s, x) >= 2,
    decreases s.len(),
{
    let n = s.len() - 1;
    if i == n {
        lemma_count_pos(s.drop_last(), j, x);
    } else if j == n {
        lemma_count_pos(s.drop_last(), i, x);
    } else {
        lemma_count_two(s.drop_last(), i, j, x);
    }
}

/// `align_up` gives a multiple of `a` within `a - 1` above `x`.
pub proof fn lemma_align_up(x: int, a: int)
    requires
        x >= 0,
        a > 0,
    ensures
        x <= align_up(x, a) < x + a,
        align_up(x, a) % a == 0,
{
    if x % a != 0 {
        assert((x + (a - x % a)) % a == 0) by (nonlinear_arith)
            requires
                a > 0,
        {
            vstd::arithmetic::div_mod::lemma_fundamental_div_mod(x, a);
            vstd::arithmetic::div_mod::lemma_mod_multiples_basic(x / a + 1, a);
        }
    }
}

} // verus!
