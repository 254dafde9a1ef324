//! Queue dimensions, the transport arena and the scratch region.

use hyperlight::layout::arch;
use hyperlight::layout::{
    min_scratch_size, scratch_allocator_limit_gpa, scratch_base_gpa, scratch_base_gva, QueueDims,
    TransportArena,
};
use hyperlight::mem::{GuestMemoryRegion, HyperlightPEB};
use hyperlight::virtq::desc::Descriptor;
use hyperlight::vmem::PAGE_SIZE;

#[test]
fn queue_dims_validate_byte_lengths() {
    let max_pages = usize::MAX / PAGE_SIZE;
    let dims = QueueDims::new(32768, max_pages).unwrap();

    assert_eq!(dims.ring_len(), 0x80008);
    assert_eq!(dims.pool_len(), max_pages * PAGE_SIZE);

    for (size, pages) in [
        (0, 1),
        (3, 1),
        (usize::MAX, 1),
        (64, 0),
        (64, max_pages + 1),
    ] {
        assert_eq!(QueueDims::new(size, pages), None);
    }
}

#[test]
fn transport_arena_derives_aligned_regions() {
    let base = 0x1_0000;
    let g2h = QueueDims::new(64, 8).unwrap();
    let h2g = QueueDims::new(32, 4).unwrap();
    let arena = TransportArena::new(base, g2h, h2g).unwrap();

    assert_eq!(arena.g2h_ring_addr(), base);
    assert_eq!(arena.h2g_ring_addr() % Descriptor::ALIGN as u64, 0);
    assert_eq!(arena.g2h_pool_addr() % PAGE_SIZE as u64, 0);
    assert_eq!(arena.h2g_pool_addr(), base + 9 * PAGE_SIZE as u64);
    assert_eq!(arena.end_addr(), base + 13 * PAGE_SIZE as u64);
    assert_eq!(
        arena.to_offsets(),
        (0x410, PAGE_SIZE, 9 * PAGE_SIZE, 13 * PAGE_SIZE)
    );
    assert_eq!(arena.ring_span_len(), PAGE_SIZE);
    assert_eq!(arena.size(), 13 * PAGE_SIZE);
    assert_eq!(TransportArena::new(base + 1, g2h, h2g), None);

    let oversized = QueueDims::new(64, usize::MAX / PAGE_SIZE).unwrap();
    assert_eq!(TransportArena::new(base, oversized, h2g), None);
    assert_eq!(
        TransportArena::new(u64::MAX - PAGE_SIZE as u64 + 1, g2h, h2g),
        None
    );
}

#[test]
fn minimum_scratch_includes_ring_arena_and_pools() {
    let fixed = arch::min_scratch_size(0, 0).unwrap();
    let transport_len = (1 + 8 + 4) * PAGE_SIZE;

    assert_eq!(fixed + transport_len, min_scratch_size(0, 0, transport_len));
}

#[test]
fn minimum_scratch_saturates_on_overflow() {
    assert_eq!(usize::MAX, min_scratch_size(0, 0, usize::MAX));
    assert_eq!(usize::MAX, min_scratch_size(usize::MAX, 1, 0));
}

#[test]
fn scratch_ends_at_its_top() {
    assert_eq!(
        scratch_base_gpa(0x2000) + 0x2000 - 1,
        arch::SCRATCH_TOP_GPA
    );
    assert_eq!(
        scratch_base_gva(0x2000) + 0x2000 - 1,
        arch::SCRATCH_TOP_GVA
    );
    assert!(scratch_allocator_limit_gpa() < arch::SCRATCH_TOP_GPA);
}

#[test]
fn peb_round_trip() {
    let peb = HyperlightPEB {
        init_data: GuestMemoryRegion {
            size: 0x1111,
            ptr: 0x2222,
        },
        guest_heap: GuestMemoryRegion {
            size: 0x3333,
            ptr: 0x4444,
        },
    };
    let bytes = peb.as_bytes();
    let peb2 = HyperlightPEB::from_bytes(&bytes).unwrap();
    let peb2_bytes = peb2.as_bytes();
    assert_eq!(peb, peb2);
    assert_eq!(bytes, peb2_bytes);
}

#[test]
fn peb_bytes_are_little_endian_words() {
    let peb = HyperlightPEB {
        init_data: GuestMemoryRegion { size: 1, ptr: 2 },
        guest_heap: GuestMemoryRegion { size: 3, ptr: 0x0405 },
    };
    let bytes = peb.as_bytes();
    assert_eq!(bytes.len(), HyperlightPEB::SIZE);
    assert_eq!(bytes[0..9], [1, 0, 0, 0, 0, 0, 0, 0, 2]);
    assert_eq!(bytes[24..27], [5, 4, 0]);
    assert_eq!(HyperlightPEB::from_bytes(&bytes[1..]), None);
}
