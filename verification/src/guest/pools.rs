//! Buffer pools of the guest's queues.

use vstd::arithmetic::div_mod::*;
use vstd::prelude::*;

use crate::virtq::pool::slot;
use crate::virtq::{AllocError, SlotLayout, SlotPool, G2H_LOWER_SLOT_COUNT, G2H_LOWER_SLOT_SIZE};
use crate::vmem::PAGE_SIZE;

verus! {

/// The bytes of a pool of `pages` pages.
pub fn pool_len(pages: usize) -> (len: Result<usize, AllocError>)
    ensures
        len == if pages * PAGE_SIZE <= usize::MAX {
            Ok::<usize, AllocError>((pages * PAGE_SIZE) as usize)
        } else {
            Err::<usize, AllocError>(AllocError::Overflow)
        },
{
    match pages.checked_mul(PAGE_SIZE) {
        Some(len) => Ok(len),
        None => Err(AllocError::Overflow),
    }
}

/// Why a uniform pool cannot be laid out.
pub open spec fn h2g_error(base: int, pages: int, buffer_size: int) -> Option<AllocError> {
    let count = pages * PAGE_SIZE / buffer_size;
    if buffer_size == 0 {
        Some(AllocError::InvalidArg)
    } else if pages * PAGE_SIZE > usize::MAX {
        Some(AllocError::Overflow)
    } else if !slot::placeable(base, buffer_size, count) {
        Some(slot::layout_error(buffer_size, count))
    } else {
        None
    }
}

/// Build the uniform H2G pool.
///
/// Each slot becomes one independent preposted receive buffer.
pub fn h2g_pool(base: u64, pages: usize, buffer_size: usize) -> (pool: Result<
    SlotPool,
    AllocError,
>)
    ensures
        match h2g_error(base as int, pages as int, buffer_size as int) {
            Some(error) => pool == Err::<SlotPool, AllocError>(error),
            None => match pool {
                Ok(p) => {
                    let layout = p@.upper.layout;
                    &&& p.wf()
                    &&& p@.fresh_from(None, layout)
                    &&& layout.base() == base
                    &&& layout.size() == buffer_size
                    &&& layout.slots() == pages * PAGE_SIZE / buffer_size as int
                },
                Err(error) => error == AllocError::Bookkeeping && pages * PAGE_SIZE
                    / buffer_size as int > 64,
            },
        },
{
    if buffer_size == 0 {
        return Err(AllocError::InvalidArg);
    }
    let len: usize = match pool_len(pages) {
        Ok(len) => len,
        Err(error) => return Err(error),
    };
    let count: usize = len / buffer_size;
    let layout = match SlotLayout::new(base, buffer_size, count) {
        Ok(layout) => layout,
        Err(error) => return Err(error),
    };
    SlotPool::new(layout)
}

/// Why a tiered pool cannot be laid out. Tiers of one slot size form a single layout.
pub open spec fn g2h_error(base: int, pages: int, upper_size: int) -> Option<AllocError> {
    let len = pages * PAGE_SIZE;
    let count = (len - 4096) / upper_size;
    if upper_size == 0 {
        Some(AllocError::InvalidArg)
    } else if len > usize::MAX {
        Some(AllocError::Overflow)
    } else if len < 4096 {
        Some(AllocError::EmptyRegion)
    } else if base + 4096 > u64::MAX {
        Some(AllocError::Overflow)
    } else if !slot::placeable(base + 4096, upper_size, count) {
        Some(slot::layout_error(upper_size, count))
    } else if upper_size < G2H_LOWER_SLOT_SIZE {
        Some(AllocError::InvalidArg)
    } else if upper_size == G2H_LOWER_SLOT_SIZE && !slot::placeable(
        base,
        upper_size,
        g2h_slots(pages, upper_size),
    ) {
        Some(AllocError::Overflow)
    } else {
        None
    }
}

/// The slots of a tiered pool, of both tiers.
pub open spec fn g2h_slots(pages: int, upper_size: int) -> int {
    G2H_LOWER_SLOT_COUNT + (pages * PAGE_SIZE - 4096) / upper_size
}

/// Build the tiered G2H pool.
///
/// One page of 256-byte slots serves small control and log messages without
/// consuming configured-size slots. Complete slots in the remaining pages form
/// the upper tier.
pub fn g2h_pool(base: u64, pages: usize, upper_size: usize) -> (pool: Result<SlotPool, AllocError>)
    ensures
        match g2h_error(base as int, pages as int, upper_size as int) {
            Some(error) => pool == Err::<SlotPool, AllocError>(error),
            None => match pool {
                Ok(p) => exists|lower: SlotLayout, upper: SlotLayout| #[trigger]
                    p@.fresh_from(Some(lower), upper) && {
                        &&& p.wf()
                        &&& lower.base() == base
                        &&& lower.size() == G2H_LOWER_SLOT_SIZE
                        &&& lower.slots() == G2H_LOWER_SLOT_COUNT
                        &&& upper.base() == base + 4096
                        &&& upper.size() == upper_size
                        &&& upper.slots() == (pages * PAGE_SIZE - 4096) / upper_size as int
                    },
                Err(error) => error == AllocError::Bookkeeping && g2h_slots(
                    pages as int,
                    upper_size as int,
                ) > 64,
            },
        },
{
    if upper_size == 0 {
        return Err(AllocError::InvalidArg);
    }
    let len: usize = match pool_len(pages) {
        Ok(len) => len,
        Err(error) => return Err(error),
    };
    let lower_len: usize = match G2H_LOWER_SLOT_COUNT.checked_mul(G2H_LOWER_SLOT_SIZE) {
        Some(len) => len,
        None => return Err(AllocError::Overflow),
    };
    let upper_len: usize = match len.checked_sub(lower_len) {
        Some(len) => len,
        None => return Err(AllocError::EmptyRegion),
    };
    let upper_count: usize = upper_len / upper_size;
    let lower = match SlotLayout::new(base, G2H_LOWER_SLOT_SIZE, G2H_LOWER_SLOT_COUNT) {
        Ok(lower) => lower,
        Err(error) => return Err(error),
    };
    let upper = match SlotLayout::new(lower.end_addr(), upper_size, upper_count) {
        Ok(upper) => upper,
        Err(error) => return Err(error),
    };
    SlotPool::new_tiered(lower, upper)
}

/// A receive pool can be laid out exactly when a buffer has a size that fits and the pages
/// hold at least one of them at addresses that exist.
pub proof fn law_receive_pool_needs_one_buffer(base: u64, pages: usize, buffer_size: usize)
    ensures
        ({
            let len = pages * PAGE_SIZE;
            h2g_error(base as int, pages as int, buffer_size as int) is None ==> {
                let count = len / buffer_size as int;
                &&& 0 < buffer_size <= u32::MAX
                &&& buffer_size <= len <= usize::MAX
                &&& count >= 1
                &&& count * buffer_size <= len < (count + 1) * buffer_size
                &&& base + count * buffer_size <= u64::MAX
            }
        }),
        ({
            let len = pages * PAGE_SIZE;
            0 < buffer_size <= u32::MAX && buffer_size <= len && len * 8 <= isize::MAX && base
                + len <= u64::MAX ==> h2g_error(
                base as int,
                pages as int,
                buffer_size as int,
            ) is None
        }),
        buffer_size == 0 ==> h2g_error(base as int, pages as int, buffer_size as int) == Some(
            AllocError::InvalidArg,
        ),
        0 < buffer_size <= u32::MAX && pages * PAGE_SIZE < buffer_size ==> h2g_error(
            base as int,
            pages as int,
            buffer_size as int,
        ) == Some(AllocError::EmptyRegion),
{
    let len = pages * PAGE_SIZE;
    if buffer_size > 0 {
        lemma_whole_slots(len, buffer_size as int);
    }
}

/// Slots that fit a length are those of its quotient.
proof fn lemma_whole_slots(len: int, size: int)
    requires
        len >= 0,
        size > 0,
    ensures
        0 <= len / size <= len,
        size * (len / size) <= len < size * (len / size) + size,
        (len / size) * size == size * (len / size),
        (len / size + 1) * size == size * (len / size) + size,
        len / size == 0 <==> len < size,
{
    lemma_fundamental_div_mod(len, size);
    let count = len / size;
    assert(count * size == size * count && (count + 1) * size == size * count + size)
        by (nonlinear_arith);
    assert(0 <= count <= len) by (nonlinear_arith)
        requires
            size * count <= len < size * count + size,
            size > 0,
            len >= 0,
    ;
    assert(count == 0 <==> len < size) by (nonlinear_arith)
        requires
            size * count <= len < size * count + size,
            size > 0,
            len >= 0,
            0 <= count,
    ;
}

/// A tiered pool gives its first page to small slots, all of it, and the pages behind it to
/// as many slots of the configured size as they hold.
pub proof fn law_tiered_pool_uses_its_pages(base: u64, pages: usize, upper_size: usize)
    requires
        g2h_error(base as int, pages as int, upper_size as int) is None,
    ensures
        ({
            let len = pages * PAGE_SIZE;
            let upper = g2h_slots(pages as int, upper_size as int) - G2H_LOWER_SLOT_COUNT;
            &&& G2H_LOWER_SLOT_COUNT * G2H_LOWER_SLOT_SIZE == PAGE_SIZE
            &&& upper_size >= G2H_LOWER_SLOT_SIZE
            &&& upper >= 1
            &&& PAGE_SIZE + upper * upper_size <= len < PAGE_SIZE + (upper + 1) * upper_size
            &&& base + PAGE_SIZE + upper * upper_size <= u64::MAX
        }),
{
    let len = pages * PAGE_SIZE;
    lemma_whole_slots(len - 4096, upper_size as int);
}

/// A tiered pool can be laid out wherever its slots have a size that small slots do not exceed,
/// its pages hold the small slots and one more, and all of it can be addressed; what is wrong
/// otherwise is told apart.
pub proof fn law_tiered_pool_needs_one_upper_slot(base: u64, pages: usize, upper_size: usize)
    ensures
        ({
            let len = pages * PAGE_SIZE;
            let error = g2h_error(base as int, pages as int, upper_size as int);
            &&& G2H_LOWER_SLOT_SIZE <= upper_size <= u32::MAX && PAGE_SIZE + upper_size <= len
                && len * 8 <= isize::MAX && base + len <= u64::MAX ==> error is None
            &&& upper_size == 0 ==> error == Some(AllocError::InvalidArg)
            &&& upper_size > 0 && len > usize::MAX ==> error == Some(AllocError::Overflow)
            &&& upper_size > 0 && len < PAGE_SIZE ==> error == Some(AllocError::EmptyRegion)
            &&& 0 < upper_size <= u32::MAX && PAGE_SIZE <= len <= usize::MAX && len < PAGE_SIZE
                + upper_size && base + PAGE_SIZE <= u64::MAX ==> error == Some(
                AllocError::EmptyRegion,
            )
            &&& upper_size < G2H_LOWER_SLOT_SIZE ==> error is Some
        }),
{
    let len = pages * PAGE_SIZE;
    if upper_size > 0 && len >= 4096 {
        lemma_whole_slots(len - 4096, upper_size as int);
        let count = (len - 4096) / upper_size as int;
        if upper_size >= 256 {
            assert(upper_size * (16 + count) == upper_size * 16 + upper_size * count)
                by (nonlinear_arith);
        }
    }
}

} // verus!
