//! Turning a description of memory into the extent a heap manages: either
//! the first memory region that the boot descriptors report, or a run of
//! pages given by the caller.
use vstd::prelude::*;
use crate::block::align_up;

verus! {

/// The size of a page in bytes.
pub const PAGE_SIZE: usize = 4096;

/// A memory region reported by a boot descriptor.
#[derive(Clone, Copy, Debug, PartialEq, Eq, Structural)]
pub struct MemRegion {
    pub start: u32,
    pub size: u32,
}

/// The first descriptor, in order, that reports a memory region.
pub open spec fn first_region(records: Seq<Option<MemRegion>>) -> Option<MemRegion>
    decreases records.len(),
{
    if records.len() == 0 {
        None
    } else if records[0] is Some {
        records[0]
    } else {
        first_region(records.skip(1))
    }
}

/// The usable extent of `region` for a kernel image ending at `binary_end`:
/// it starts at the later of the two and spans the region's size. There is
/// none where the end does not fit in an address.
pub open spec fn usable_extent(region: Option<MemRegion>, binary_end: u32) -> Option<(usize, usize)> {
    match region {
        None => None,
        Some(mem) => {
            let start: int = if mem.start >= binary_end { mem.start as int } else { binary_end as int };
            if start + mem.size <= usize::MAX {
                Some((start as usize, (start + mem.size) as usize))
            } else {
                None
            }
        },
    }
}

/// The extent `(start, end)` of memory available to the heap, found from the
/// boot descriptors `records` and the end of the kernel image.
pub fn memory_map(records: &Vec<Option<MemRegion>>, binary_end: u32) -> (r: Option<(usize, usize)>)
    ensures
        r == usable_extent(first_region(records@), binary_end),
        r matches Some((start, end)) ==> start <= end,
{
    let n = records.len();
    let mut i: usize = 0;
    assert(records@.skip(0) =~= records@);
    while i < n
        invariant
            n == records@.len(),
            0 <= i <= n,
            first_region(records@) == first_region(records@.skip(i as int)),
        decreases n - i,
    {
        proof {
            assert(records@.skip(i as int)[0] == records@[i as int]);
            assert(records@.skip(i as int).skip(1) =~= records@.skip(i + 1));
        }
        match records[i] {
            Some(mem) => {
                let start: usize = if mem.start >= binary_end {
                    mem.start as usize
                } else {
                    binary_end as usize
                };
                return match start.checked_add(mem.size as usize) {
                    Some(end) => Some((start, end)),
                    None => None,
                };
            },
            None => {
                i = i + 1;
            },
        }
    }
    proof {
        assert(records@.skip(n as int).len() == 0);
    }
    None
}

/// The usable extent of `npage` pages from `base`, of which the bytes before
/// `begin` (rounded up to a page boundary) are reserved. There is none where
/// the pages do not fit in the address space.
pub open spec fn page_extent(base: usize, npage: usize, begin: usize) -> Option<(usize, usize)> {
    let span = npage * PAGE_SIZE;
    let first = if align_up(begin as int, PAGE_SIZE as int) < span {
        align_up(begin as int, PAGE_SIZE as int)
    } else {
        span
    };
    if base + span <= usize::MAX {
        Some(((base + first) as usize, (base + span) as usize))
    } else {
        None
    }
}

/// Computes `page_extent(base, npage, begin)`.
pub fn pages_to_extent(base: usize, npage: usize, begin: usize) -> (r: Option<(usize, usize)>)
    ensures
        r == page_extent(base, npage, begin),
        r matches Some((start, end)) ==> start <= end,
{
    let span = match npage.checked_mul(PAGE_SIZE) {
        Some(span) => span,
        None => {
            assert(npage * PAGE_SIZE > usize::MAX) by (nonlinear_arith)
                requires
                    npage * 4096 > usize::MAX,
            ;
            return None;
        },
    };
    let stop = match base.checked_add(span) {
        Some(stop) => stop,
        None => {
            return None;
        },
    };
    let rem = begin % PAGE_SIZE;
    let first: usize = if begin >= span {
        proof {
            crate::block::lemma_align_up(begin as int, PAGE_SIZE as int);
        }
        span
    } else if rem == 0 {
        begin
    } else if PAGE_SIZE - rem >= span - begin {
        span
    } else {
        begin + (PAGE_SIZE - rem)
    };
    Some((base + first, stop))
}

} // verus!
