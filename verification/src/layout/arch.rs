//! Fixed addresses and sizes of the x86-64 memory layout.

use vstd::prelude::*;

use crate::le;
use crate::vmem::PAGE_SIZE;

verus! {

/// Last guest virtual address of scratch memory. The page above it stays unused,
/// so that one past the end is still an address.
pub const SCRATCH_TOP_GVA: u64 = 0xffff_ffff_ffff_efff;

/// First guest virtual address of the snapshot page tables.
pub const SNAPSHOT_PT_GVA_MIN: u64 = 0xffff_8000_0000_0000;

/// Last guest virtual address of the snapshot page tables.
pub const SNAPSHOT_PT_GVA_MAX: u64 = 0xffff_80ff_ffff_ffff;

/// Last guest physical address of scratch memory: every x86-64 processor has at
/// least 36 physical address bits.
pub const SCRATCH_TOP_GPA: u64 = 0x0000_000f_ffff_ffff;

/// Pages that scratch memory always holds: TSS and IDT, the tables that map
/// them, the smallest stack with its tables, and the exception stack with the
/// metadata.
pub const FIXED_SCRATCH_PAGES: usize = 12;

/// Scratch bytes that do not belong to the transport.
pub open spec fn fixed_scratch_size(input_data_size: int, output_data_size: int) -> int {
    le::align_up(input_data_size + output_data_size, PAGE_SIZE as int) + FIXED_SCRATCH_PAGES
        * PAGE_SIZE
}

/// Scratch bytes that do not belong to the transport, or `None` on overflow.
pub fn min_scratch_size(input_data_size: usize, output_data_size: usize) -> (size: Option<usize>)
    ensures
        size is Some <==> fixed_scratch_size(input_data_size as int, output_data_size as int)
            <= usize::MAX,
        size matches Some(n) ==> n == fixed_scratch_size(
            input_data_size as int,
            output_data_size as int,
        ),
{
    proof {
        le::law_align_up_is_the_least_multiple(
            input_data_size + output_data_size,
            PAGE_SIZE as int,
        );
    }
    match input_data_size.checked_add(output_data_size) {
        Some(io) => match le::checked_align_up(io, PAGE_SIZE) {
            Some(io) => io.checked_add(FIXED_SCRATCH_PAGES * PAGE_SIZE),
            None => None,
        },
        None => None,
    }
}

} // verus!
