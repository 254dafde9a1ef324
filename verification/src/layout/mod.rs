//! Placement of the scratch region and of the transport arena inside it.

use vstd::arithmetic::power2::*;
use vstd::prelude::*;

use crate::le;
use crate::virtq::{Descriptor, Layout};
use crate::vmem::PAGE_SIZE;

pub mod arch;

pub use arch::{SCRATCH_TOP_GPA, SCRATCH_TOP_GVA, SNAPSHOT_PT_GVA_MAX, SNAPSHOT_PT_GVA_MIN};

verus! {

/// Pages reserved for the exception stack and scratch-top metadata.
pub const SCRATCH_TOP_RESERVED_PAGES: usize = 2;

// Offsets of the metadata fields, measured down from the top of scratch memory.
/// Size of the scratch region in bytes.
pub const SCRATCH_TOP_SIZE_OFFSET: u64 = 0x08;

/// Next GPA available to the dynamic scratch allocator.
pub const SCRATCH_TOP_ALLOCATOR_OFFSET: u64 = 0x10;

/// GPA of the snapshot page-table copy in scratch memory.
pub const SCRATCH_TOP_SNAPSHOT_PT_GPA_BASE_OFFSET: u64 = 0x18;

/// Generation of the snapshot backing the sandbox.
pub const SCRATCH_TOP_SNAPSHOT_GENERATION_OFFSET: u64 = 0x20;

/// Seed request for libc's pseudorandom number generator.
pub const SCRATCH_TOP_LIBC_RNG_SEED_OFFSET: u64 = 0x28;

/// Pending guest log filter update.
pub const SCRATCH_TOP_GUEST_LOG_LEVEL_OFFSET: u64 = 0x30;

/// Host-published GPA of the fixed transport arena.
pub const SCRATCH_TOP_TRANSPORT_ARENA_GPA_OFFSET: u64 = 0x38;

/// Host-published G2H descriptor count.
pub const SCRATCH_TOP_G2H_QUEUE_SIZE_OFFSET: u64 = 0x40;

/// Number of pages reserved for the G2H pool.
pub const SCRATCH_TOP_G2H_POOL_PAGES_OFFSET: u64 = 0x48;

/// Host-published capacity of each G2H upper-tier buffer.
pub const SCRATCH_TOP_G2H_BUFFER_SIZE_OFFSET: u64 = 0x50;

/// Host-published H2G descriptor count.
pub const SCRATCH_TOP_H2G_QUEUE_SIZE_OFFSET: u64 = 0x58;

/// Number of pages reserved for the H2G pool.
pub const SCRATCH_TOP_H2G_POOL_PAGES_OFFSET: u64 = 0x60;

/// Host-published capacity of each H2G buffer.
pub const SCRATCH_TOP_H2G_BUFFER_SIZE_OFFSET: u64 = 0x68;

/// Top of the exception stack: the metadata and the padding that keeps the stack
/// aligned to 16 bytes lie above it.
pub const SCRATCH_TOP_EXN_STACK_OFFSET: u64 = 0x70;

/// Exclusive upper GPA boundary for dynamic scratch allocations.
pub fn scratch_allocator_limit_gpa() -> (gpa: u64)
    ensures
        gpa == SCRATCH_TOP_GPA + 1 - SCRATCH_TOP_RESERVED_PAGES * PAGE_SIZE,
{
    SCRATCH_TOP_GPA + 1 - SCRATCH_TOP_RESERVED_PAGES as u64 * PAGE_SIZE as u64
}

/// Where a region of `size` bytes starts whose last byte is at `top`.
pub open spec fn start_below(top: u64, size: int) -> int {
    top + 1 - size
}

/// The scratch bytes that a sandbox needs, as far as they can be counted.
pub open spec fn scratch_need(input: int, output: int, transport: int) -> int {
    let need = arch::fixed_scratch_size(input, output) + transport;
    if need <= usize::MAX {
        need
    } else {
        usize::MAX as int
    }
}

/// Guest physical address at which a scratch region of `size` bytes starts.
pub fn scratch_base_gpa(size: usize) -> (gpa: u64)
    requires
        size <= SCRATCH_TOP_GPA,
    ensures
        gpa == start_below(SCRATCH_TOP_GPA, size as int),
        gpa == SCRATCH_TOP_GPA + 1 - size,
{
    SCRATCH_TOP_GPA - size as u64 + 1
}

/// Guest virtual address at which a scratch region of `size` bytes starts.
pub fn scratch_base_gva(size: usize) -> (gva: u64)
    requires
        size <= SCRATCH_TOP_GVA,
    ensures
        gva == start_below(SCRATCH_TOP_GVA, size as int),
        gva == SCRATCH_TOP_GVA + 1 - size,
{
    SCRATCH_TOP_GVA - size as u64 + 1
}

/// Compute the minimum scratch region size needed for a sandbox.
///
/// `transport_len` includes both rings and buffer pools.
/// The result saturates at [`usize::MAX`].
pub fn min_scratch_size(
    input_data_size: usize,
    output_data_size: usize,
    transport_len: usize,
) -> (size: usize)
    ensures
        size == scratch_need(
            input_data_size as int,
            output_data_size as int,
            transport_len as int,
        ),
        ({
            let need = arch::fixed_scratch_size(input_data_size as int, output_data_size as int)
                + transport_len;
            size == if need <= usize::MAX {
                need
            } else {
                usize::MAX as int
            }
        }),
{
    match arch::min_scratch_size(input_data_size, output_data_size) {
        Some(fixed) => match fixed.checked_add(transport_len) {
            Some(size) => size,
            None => usize::MAX,
        },
        None => usize::MAX,
    }
}

/// Validated address independent dimensions for one transport queue.
#[derive(Clone, Copy, Debug, PartialEq, Eq, Structural)]
pub struct QueueDims {
    size: u16,
    pool_pages: usize,
}

/// Whether a queue can have `size` descriptors and a pool of `pool_pages` pages.
pub open spec fn queue_dims_valid(size: int, pool_pages: int) -> bool {
    &&& 0 < size <= u16::MAX
    &&& exists|k: nat| #[trigger] pow2(k) == size
    &&& 0 < pool_pages
    &&& pool_pages * PAGE_SIZE <= usize::MAX
}

impl QueueDims {
    pub closed spec fn descs(self) -> u16 {
        self.size
    }

    pub closed spec fn pages(self) -> usize {
        self.pool_pages
    }

    /// Bytes of the ring: the descriptors and the two event suppressions.
    pub open spec fn ring_bytes(self) -> int {
        16 * self.descs() + 8
    }

    pub open spec fn pool_bytes(self) -> int {
        self.pages() * PAGE_SIZE
    }

    #[verifier::type_invariant]
    closed spec fn inv(self) -> bool {
        queue_dims_valid(self.size as int, self.pool_pages as int)
    }

    /// Validate queue dimensions and their byte lengths.
    pub fn new(size: usize, pool_pages: usize) -> (dims: Option<Self>)
        ensures
            dims is Some <==> queue_dims_valid(size as int, pool_pages as int),
            dims matches Some(d) ==> d.descs() == size && d.pages() == pool_pages,
    {
        if size > u16::MAX as usize || size == 0 {
            return None;
        }
        let size: u16 = size as u16;
        if !le::is_power_of_two(size) {
            return None;
        }
        if pool_pages == 0 || pool_pages.checked_mul(PAGE_SIZE).is_none() {
            return None;
        }
        Some(QueueDims { size, pool_pages })
    }

    /// Number of descriptors in the queue.
    pub fn size(&self) -> (size: u16)
        ensures
            size == self.descs(),
            size > 0,
    {
        proof {
            use_type_invariant(self);
        }
        self.size
    }

    /// Number of pages in the queue's buffer pool.
    pub fn pool_pages(&self) -> (pages: usize)
        ensures
            pages == self.pages(),
            pages > 0,
    {
        proof {
            use_type_invariant(self);
        }
        self.pool_pages
    }

    /// Ring length in bytes, including event suppressions.
    pub fn ring_len(&self) -> (len: usize)
        ensures
            len == self.ring_bytes(),
    {
        Layout::query_size(self.size as usize)
    }

    /// Pool length in bytes.
    pub fn pool_len(&self) -> (len: usize)
        ensures
            len == self.pool_bytes(),
    {
        proof {
            use_type_invariant(self);
        }
        self.pool_pages * PAGE_SIZE
    }
}

/// Addresses of both rings and pools in one fixed transport arena.
///
/// The G2H ring begins at the arena base. The H2G ring is descriptor aligned.
/// Both pools are page aligned.
///
/// ```text
/// +----------+------------+----------+-----+----------+----------+
/// | G2H ring | align pad  | H2G ring | pad | G2H pool | H2G pool |
/// +----------+------------+----------+-----+----------+----------+
/// ```
#[derive(Clone, Copy, Debug, PartialEq, Eq, Structural)]
pub struct TransportArena {
    /// Address of the G2H ring and base of the arena.
    g2h_ring_addr: u64,
    /// Address of the H2G ring.
    h2g_ring_addr: u64,
    /// Address of the G2H pool.
    g2h_pool_addr: u64,
    /// Address of the H2G pool.
    h2g_pool_addr: u64,
    /// Page-aligned length occupied by both rings.
    ring_span_len: usize,
    /// Total page-aligned arena length.
    len: usize,
}

/// Offsets of the regions of an arena for two queues.
pub struct ArenaOffsets {
    pub h2g_ring: int,
    pub g2h_pool: int,
    pub h2g_pool: int,
    pub end: int,
}

/// Where the regions of an arena lie: each directly after the one before it, at
/// the next place its alignment allows.
pub open spec fn arena_offsets(g2h: QueueDims, h2g: QueueDims) -> ArenaOffsets {
    let h2g_ring = le::align_up(g2h.ring_bytes(), Descriptor::ALIGN as int);
    let g2h_pool = le::align_up(h2g_ring + h2g.ring_bytes(), PAGE_SIZE as int);
    let h2g_pool = g2h_pool + g2h.pool_bytes();
    ArenaOffsets { h2g_ring, g2h_pool, h2g_pool, end: h2g_pool + h2g.pool_bytes() }
}

/// Whether an arena for two queues can be placed at `base`.
pub open spec fn arena_fits(base: int, g2h: QueueDims, h2g: QueueDims) -> bool {
    &&& base % PAGE_SIZE as int == 0
    &&& arena_offsets(g2h, h2g).end <= usize::MAX
    &&& base + arena_offsets(g2h, h2g).end <= u64::MAX
}

impl TransportArena {
    pub closed spec fn base(self) -> u64 {
        self.g2h_ring_addr
    }

    /// Offsets of the regions from the base.
    pub closed spec fn offsets(self) -> ArenaOffsets {
        ArenaOffsets {
            h2g_ring: self.h2g_ring_addr - self.g2h_ring_addr,
            g2h_pool: self.g2h_pool_addr - self.g2h_ring_addr,
            h2g_pool: self.h2g_pool_addr - self.g2h_ring_addr,
            end: self.len as int,
        }
    }

    #[verifier::type_invariant]
    closed spec fn inv(self) -> bool {
        &&& self.offsets().g2h_pool == self.ring_span_len
        &&& 0 <= self.offsets().h2g_ring <= self.offsets().g2h_pool <= self.offsets().h2g_pool
            <= self.len
        &&& self.base() + self.len <= u64::MAX
    }

    /// Derive one transport arena from its base address and queue dimensions.
    pub fn new(base_addr: u64, g2h: QueueDims, h2g: QueueDims) -> (arena: Option<Self>)
        ensures
            arena is Some <==> arena_fits(base_addr as int, g2h, h2g),
            arena matches Some(a) ==> a.base() == base_addr && a.offsets() == arena_offsets(
                g2h,
                h2g,
            ),
    {
        proof {
            use_type_invariant(&g2h);
            use_type_invariant(&h2g);
            le::law_align_up_is_the_least_multiple(g2h.ring_bytes(), Descriptor::ALIGN as int);
            le::law_align_up_is_the_least_multiple(
                arena_offsets(g2h, h2g).h2g_ring + h2g.ring_bytes(),
                PAGE_SIZE as int,
            );
        }
        if base_addr % PAGE_SIZE as u64 != 0 {
            return None;
        }
        let h2g_ring_offset: usize = match le::checked_align_up(
            g2h.ring_len(),
            Descriptor::ALIGN,
        ) {
            Some(offset) => offset,
            None => return None,
        };
        let h2g_ring_end: usize = match h2g_ring_offset.checked_add(h2g.ring_len()) {
            Some(end) => end,
            None => return None,
        };
        let g2h_pool_offset: usize = match le::checked_align_up(h2g_ring_end, PAGE_SIZE) {
            Some(offset) => offset,
            None => return None,
        };
        let h2g_pool_offset: usize = match g2h_pool_offset.checked_add(g2h.pool_len()) {
            Some(offset) => offset,
            None => return None,
        };
        let len: usize = match h2g_pool_offset.checked_add(h2g.pool_len()) {
            Some(len) => len,
            None => return None,
        };
        if base_addr.checked_add(len as u64).is_none() {
            return None;
        }
        Some(
            TransportArena {
                g2h_ring_addr: base_addr,
                h2g_ring_addr: base_addr + h2g_ring_offset as u64,
                g2h_pool_addr: base_addr + g2h_pool_offset as u64,
                h2g_pool_addr: base_addr + h2g_pool_offset as u64,
                ring_span_len: g2h_pool_offset,
                len,
            },
        )
    }

    /// Base address of the arena.
    pub fn base_addr(&self) -> (addr: u64)
        ensures
            addr == self.base(),
    {
        self.g2h_ring_addr
    }

    /// Address of the G2H ring.
    pub fn g2h_ring_addr(&self) -> (addr: u64)
        ensures
            addr == self.base(),
    {
        self.g2h_ring_addr
    }

    /// Address of the H2G ring.
    pub fn h2g_ring_addr(&self) -> (addr: u64)
        ensures
            addr == self.base() + self.offsets().h2g_ring,
    {
        self.h2g_ring_addr
    }

    /// Address of the G2H pool.
    pub fn g2h_pool_addr(&self) -> (addr: u64)
        ensures
            addr == self.base() + self.offsets().g2h_pool,
    {
        self.g2h_pool_addr
    }

    /// Address of the H2G pool.
    pub fn h2g_pool_addr(&self) -> (addr: u64)
        ensures
            addr == self.base() + self.offsets().h2g_pool,
    {
        self.h2g_pool_addr
    }

    /// Page-aligned length occupied by both rings.
    pub fn ring_span_len(&self) -> (len: usize)
        ensures
            len == self.offsets().g2h_pool,
    {
        proof {
            use_type_invariant(self);
        }
        self.ring_span_len
    }

    /// Total page-aligned arena length.
    pub fn size(&self) -> (len: usize)
        ensures
            len == self.offsets().end,
    {
        self.len
    }

    /// Exclusive end address of the arena.
    pub fn end_addr(&self) -> (addr: u64)
        ensures
            addr == self.base() + self.offsets().end,
    {
        proof {
            use_type_invariant(self);
        }
        self.g2h_ring_addr + self.len as u64
    }

    /// Convert the arena's absolute addresses into offsets from the arena base.
    pub fn to_offsets(&self) -> (offsets: (usize, usize, usize, usize))
        ensures
            offsets.0 == self.offsets().h2g_ring,
            offsets.1 == self.offsets().g2h_pool,
            offsets.2 == self.offsets().h2g_pool,
            offsets.3 == self.offsets().end,
    {
        proof {
            use_type_invariant(self);
        }
        (
            (self.h2g_ring_addr - self.g2h_ring_addr) as usize,
            (self.g2h_pool_addr - self.g2h_ring_addr) as usize,
            (self.h2g_pool_addr - self.g2h_ring_addr) as usize,
            self.len,
        )
    }
}

/// The regions of an arena do not overlap, and each is aligned: the H2G ring to
/// descriptors, both pools and the arena's end to pages.
pub proof fn law_arena_regions_are_aligned_and_disjoint(base: int, g2h: QueueDims, h2g: QueueDims)
    requires
        arena_fits(base, g2h, h2g),
    ensures
        ({
            let at = arena_offsets(g2h, h2g);
            &&& g2h.ring_bytes() <= at.h2g_ring
            &&& at.h2g_ring + h2g.ring_bytes() <= at.g2h_pool
            &&& at.g2h_pool + g2h.pool_bytes() == at.h2g_pool
            &&& at.h2g_pool + h2g.pool_bytes() == at.end
            &&& (base + at.h2g_ring) % Descriptor::ALIGN as int == 0
            &&& (base + at.g2h_pool) % PAGE_SIZE as int == 0
            &&& (base + at.h2g_pool) % PAGE_SIZE as int == 0
            &&& (base + at.end) % PAGE_SIZE as int == 0
        }),
{
    le::law_align_up_is_the_least_multiple(g2h.ring_bytes(), Descriptor::ALIGN as int);
    le::law_align_up_is_the_least_multiple(
        arena_offsets(g2h, h2g).h2g_ring + h2g.ring_bytes(),
        PAGE_SIZE as int,
    );
}

/// An arena leaves out no more than alignment asks for: each ring begins less than one
/// descriptor behind the end of what comes before, and the pools less than a page behind the
/// rings.
pub proof fn law_arena_wastes_no_more_than_alignment(g2h: QueueDims, h2g: QueueDims)
    ensures
        ({
            let at = arena_offsets(g2h, h2g);
            &&& at.h2g_ring < g2h.ring_bytes() + Descriptor::ALIGN
            &&& at.g2h_pool < at.h2g_ring + h2g.ring_bytes() + PAGE_SIZE
            &&& at.end - at.g2h_pool == g2h.pool_bytes() + h2g.pool_bytes()
        }),
{
    le::law_align_up_is_the_least_multiple(g2h.ring_bytes(), Descriptor::ALIGN as int);
    le::law_align_up_is_the_least_multiple(
        arena_offsets(g2h, h2g).h2g_ring + h2g.ring_bytes(),
        PAGE_SIZE as int,
    );
}

/// Scratch memory has whole pages for the input and the output together, as few as hold them,
/// and the same number of pages besides, whatever their size.
pub proof fn law_scratch_has_pages_for_input_and_output(input: int, output: int)
    ensures
        ({
            let fixed = arch::fixed_scratch_size(0, 0);
            let size = arch::fixed_scratch_size(input, output);
            &&& size % PAGE_SIZE as int == 0
            &&& input + output <= size - fixed < input + output + PAGE_SIZE
            &&& fixed == 12 * PAGE_SIZE
            &&& size == arch::fixed_scratch_size(output, input)
        }),
{
    le::law_align_up_is_the_least_multiple(input + output, PAGE_SIZE as int);
}

/// Metadata fields follow each other downwards from the top, eight bytes each, and end above
/// the exception stack.
pub proof fn law_metadata_fields_follow_each_other()
    ensures
        SCRATCH_TOP_SIZE_OFFSET == 8,
        SCRATCH_TOP_ALLOCATOR_OFFSET == SCRATCH_TOP_SIZE_OFFSET + 8,
        SCRATCH_TOP_SNAPSHOT_PT_GPA_BASE_OFFSET == SCRATCH_TOP_ALLOCATOR_OFFSET + 8,
        SCRATCH_TOP_SNAPSHOT_GENERATION_OFFSET == SCRATCH_TOP_SNAPSHOT_PT_GPA_BASE_OFFSET + 8,
        SCRATCH_TOP_LIBC_RNG_SEED_OFFSET == SCRATCH_TOP_SNAPSHOT_GENERATION_OFFSET + 8,
        SCRATCH_TOP_GUEST_LOG_LEVEL_OFFSET == SCRATCH_TOP_LIBC_RNG_SEED_OFFSET + 8,
        SCRATCH_TOP_TRANSPORT_ARENA_GPA_OFFSET == SCRATCH_TOP_GUEST_LOG_LEVEL_OFFSET + 8,
        SCRATCH_TOP_G2H_QUEUE_SIZE_OFFSET == SCRATCH_TOP_TRANSPORT_ARENA_GPA_OFFSET + 8,
        SCRATCH_TOP_G2H_POOL_PAGES_OFFSET == SCRATCH_TOP_G2H_QUEUE_SIZE_OFFSET + 8,
        SCRATCH_TOP_G2H_BUFFER_SIZE_OFFSET == SCRATCH_TOP_G2H_POOL_PAGES_OFFSET + 8,
        SCRATCH_TOP_H2G_QUEUE_SIZE_OFFSET == SCRATCH_TOP_G2H_BUFFER_SIZE_OFFSET + 8,
        SCRATCH_TOP_H2G_POOL_PAGES_OFFSET == SCRATCH_TOP_H2G_QUEUE_SIZE_OFFSET + 8,
        SCRATCH_TOP_H2G_BUFFER_SIZE_OFFSET == SCRATCH_TOP_H2G_POOL_PAGES_OFFSET + 8,
        SCRATCH_TOP_EXN_STACK_OFFSET >= SCRATCH_TOP_H2G_BUFFER_SIZE_OFFSET,
        SCRATCH_TOP_EXN_STACK_OFFSET % 16 == 0,
        SCRATCH_TOP_EXN_STACK_OFFSET < SCRATCH_TOP_RESERVED_PAGES * PAGE_SIZE,
{
}

/// A queue has a power of two of descriptors, at least one, that sixteen bits count, and at
/// least one page, and every such queue is valid.
pub proof fn law_queue_has_a_power_of_two_of_descriptors(exponent: nat, size: int, pages: int)
    ensures
        exponent < 16 && 0 < pages && pages * PAGE_SIZE <= usize::MAX ==> queue_dims_valid(
            pow2(exponent) as int,
            pages,
        ),
        queue_dims_valid(size, pages) ==> (exists|k: nat| k < 16 && #[trigger] pow2(k) == size)
            && 0 < pages && pages * PAGE_SIZE <= usize::MAX,
        !queue_dims_valid(0, pages),
        !queue_dims_valid(size, 0),
{
    if exponent < 16 {
        lemma_pow2_pos(exponent);
        lemma_pow2_strictly_increases(exponent, 16);
        lemma2_to64();
    }
    if queue_dims_valid(size, pages) {
        let k = choose|k: nat| #[trigger] pow2(k) == size;
        lemma2_to64();
        if k > 16 {
            lemma_pow2_strictly_increases(16, k);
        }
    }
}

/// A region that starts where it should ends with the last byte below the top, a larger one
/// starts before a smaller one, and the reserved pages are the last of it.
pub proof fn law_scratch_ends_at_the_top(top: u64, size: int, larger: int)
    requires
        0 < size < larger,
    ensures
        start_below(top, size) + size - 1 == top,
        start_below(top, larger) + (larger - size) == start_below(top, size),
{
}

/// Scratch memory has room for the transport beside all else, byte for byte, unless that
/// cannot be counted.
pub proof fn law_scratch_has_room_for_the_transport(
    input: int,
    output: int,
    transport: int,
    more: int,
)
    requires
        input >= 0,
        output >= 0,
        transport >= 0,
        more >= 0,
        scratch_need(input, output, transport + more) < usize::MAX,
    ensures
        scratch_need(input, output, transport + more) == scratch_need(input, output, transport)
            + more,
        scratch_need(input, output, transport) >= input + output + transport + 12 * PAGE_SIZE,
{
    law_scratch_has_pages_for_input_and_output(input, output);
}

/// An arena can be placed exactly where it begins at a page and ends where it can be counted
/// and addressed.
pub proof fn law_arena_is_placed_at_a_page(base: u64, g2h: QueueDims, h2g: QueueDims)
    ensures
        ({
            let end = arena_offsets(g2h, h2g).end;
            arena_fits(base as int, g2h, h2g) <==> base % 4096 == 0 && end <= usize::MAX && base
                + end <= u64::MAX
        }),
{
}

/// The region of a ring holds its descriptors and both event suppressions, to the byte, and the
/// region of a pool holds whole pages.
pub proof fn law_regions_hold_rings_and_pools(dims: QueueDims, ring: crate::virtq::Layout)
    requires
        ring.descs() == dims.descs(),
    ensures
        ring.desc(0) + dims.ring_bytes() == ring.dev_evt() + 4,
        ring.drv_evt() + 4 == ring.dev_evt(),
        ring.desc(dims.descs() as int) == ring.drv_evt(),
        dims.pool_bytes() == 4096 * dims.pages(),
{
}

} // verus!
