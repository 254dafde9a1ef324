//! Physical pages from the scratch allocator.

use vstd::prelude::*;

use crate::layout;
use crate::layout::arch;
use crate::layout::scratch_allocator_limit_gpa;
use crate::vmem;

verus! {

/// The bytes of `n` pages.
pub fn phys_bytes(n: u64) -> (bytes: u64)
    requires
        n * vmem::PAGE_SIZE <= u64::MAX,
    ensures
        bytes == n * vmem::PAGE_SIZE,
{
    n * vmem::PAGE_SIZE as u64
}

/// An allocation lies below the allocator's limit.
pub open spec fn below_limit(base: int, bytes: int) -> bool {
    base + bytes <= arch::SCRATCH_TOP_GPA + 1 - layout::SCRATCH_TOP_RESERVED_PAGES
        * vmem::PAGE_SIZE
}

/// Whether an allocation that the allocator's counter placed at `prev_base` lies below the
/// allocator's limit.
pub fn phys_pages_fit(prev_base: u64, bytes: u64) -> (fit: bool)
    ensures
        fit <==> below_limit(prev_base as int, bytes as int),
        fit <==> prev_base + bytes <= arch::SCRATCH_TOP_GPA + 1
            - layout::SCRATCH_TOP_RESERVED_PAGES * vmem::PAGE_SIZE,
{
    match prev_base.checked_add(bytes) {
        Some(end) => end <= scratch_allocator_limit_gpa(),
        None => false,
    }
}

/// An allocation is below the limit exactly when each of its bytes is outside the pages that
/// are reserved at the top of scratch memory; what comes before one that is below it is too.
pub proof fn law_reserved_pages_are_not_allocated(base: int, bytes: int, part: int)
    requires
        0 <= part <= bytes,
    ensures
        bytes > 0 ==> (below_limit(base, bytes) <==> base + bytes - 1 + 2 * vmem::PAGE_SIZE
            <= arch::SCRATCH_TOP_GPA),
        below_limit(base, bytes) ==> below_limit(base, part),
        below_limit(base, part) && below_limit(base + part, bytes - part) ==> below_limit(
            base,
            bytes,
        ),
{
}

} // verus!
