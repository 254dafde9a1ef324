//! Memory regions that a host describes to its guest.

use vstd::prelude::*;

use crate::le;

verus! {

/// A memory region in the guest address space
#[derive(Debug, Clone, Copy, PartialEq, Eq, Structural)]
pub struct GuestMemoryRegion {
    /// The size of the memory region
    pub size: u64,
    /// The address of the memory region
    pub ptr: u64,
}

/// The regions a guest starts with.
#[derive(Debug, Clone, Copy, PartialEq, Eq, Structural)]
pub struct HyperlightPEB {
    pub init_data: GuestMemoryRegion,
    pub guest_heap: GuestMemoryRegion,
}

impl GuestMemoryRegion {
    /// The region as it lies in memory.
    pub open spec fn to_wire(self) -> Seq<u8> {
        le::le64_bytes(self.size) + le::le64_bytes(self.ptr)
    }

    /// The region that bytes in memory stand for.
    pub open spec fn of_wire(bytes: Seq<u8>) -> GuestMemoryRegion {
        GuestMemoryRegion {
            size: le::le64(bytes.subrange(0, 8)) as u64,
            ptr: le::le64(bytes.subrange(8, 16)) as u64,
        }
    }
}

impl HyperlightPEB {
    /// Bytes of the block in memory.
    pub const SIZE: usize = 32;

    /// The block as it lies in memory.
    pub open spec fn to_wire(self) -> Seq<u8> {
        self.init_data.to_wire() + self.guest_heap.to_wire()
    }

    /// The block that bytes in memory stand for.
    pub open spec fn of_wire(bytes: Seq<u8>) -> HyperlightPEB {
        HyperlightPEB {
            init_data: GuestMemoryRegion::of_wire(bytes.subrange(0, 16)),
            guest_heap: GuestMemoryRegion::of_wire(bytes.subrange(16, 32)),
        }
    }

    /// The block as it lies in memory.
    pub fn as_bytes(&self) -> (bytes: Vec<u8>)
        ensures
            bytes@ == self.to_wire(),
    {
        let mut bytes: Vec<u8> = Vec::new();
        le::push_le64(&mut bytes, self.init_data.size);
        le::push_le64(&mut bytes, self.init_data.ptr);
        le::push_le64(&mut bytes, self.guest_heap.size);
        le::push_le64(&mut bytes, self.guest_heap.ptr);
        proof {
            assert(bytes@ =~= self.to_wire());
        }
        bytes
    }

    /// The block that bytes in memory stand for, unless there are too few or too many.
    pub fn from_bytes(bytes: &[u8]) -> (peb: Option<HyperlightPEB>)
        ensures
            peb is Some <==> bytes@.len() == 32,
            peb matches Some(p) ==> p == HyperlightPEB::of_wire(bytes@),
    {
        if bytes.len() != HyperlightPEB::SIZE {
            return None;
        }
        proof {
            let head = bytes@.subrange(0, 16);
            let tail = bytes@.subrange(16, 32);
            assert(head.subrange(0, 8) =~= bytes@.subrange(0, 8));
            assert(head.subrange(8, 16) =~= bytes@.subrange(8, 16));
            assert(tail.subrange(0, 8) =~= bytes@.subrange(16, 24));
            assert(tail.subrange(8, 16) =~= bytes@.subrange(24, 32));
        }
        Some(
            HyperlightPEB {
                init_data: GuestMemoryRegion {
                    size: le::read_le64(vstd::slice::slice_subrange(bytes, 0, 8)),
                    ptr: le::read_le64(vstd::slice::slice_subrange(bytes, 8, 16)),
                },
                guest_heap: GuestMemoryRegion {
                    size: le::read_le64(vstd::slice::slice_subrange(bytes, 16, 24)),
                    ptr: le::read_le64(vstd::slice::slice_subrange(bytes, 24, 32)),
                },
            },
        )
    }
}

/// A block read back from its bytes is the same block.
pub proof fn law_peb_round_trip(peb: HyperlightPEB)
    ensures
        peb.to_wire().len() == HyperlightPEB::SIZE,
        HyperlightPEB::of_wire(peb.to_wire()) == peb,
{
    le::law_le64_round_trip(peb.init_data.size);
    le::law_le64_round_trip(peb.init_data.ptr);
    le::law_le64_round_trip(peb.guest_heap.size);
    le::law_le64_round_trip(peb.guest_heap.ptr);
    let bytes = peb.to_wire();
    let head = bytes.subrange(0, 16);
    let tail = bytes.subrange(16, 32);
    assert(head.subrange(0, 8) =~= le::le64_bytes(peb.init_data.size));
    assert(head.subrange(8, 16) =~= le::le64_bytes(peb.init_data.ptr));
    assert(tail.subrange(0, 8) =~= le::le64_bytes(peb.guest_heap.size));
    assert(tail.subrange(8, 16) =~= le::le64_bytes(peb.guest_heap.ptr));
}

/// Each field of a block stands in its own eight bytes: size and place of the data the guest
/// starts with, then size and place of its heap.
pub proof fn law_peb_fields_are_in_place(peb: HyperlightPEB)
    ensures
        ({
            let bytes = peb.to_wire();
            &&& bytes.len() == 32
            &&& le::le64(bytes.subrange(0, 8)) == peb.init_data.size
            &&& le::le64(bytes.subrange(8, 16)) == peb.init_data.ptr
            &&& le::le64(bytes.subrange(16, 24)) == peb.guest_heap.size
            &&& le::le64(bytes.subrange(24, 32)) == peb.guest_heap.ptr
        }),
{
    law_peb_round_trip(peb);
    le::law_le64_round_trip(peb.init_data.size);
    le::law_le64_round_trip(peb.init_data.ptr);
    le::law_le64_round_trip(peb.guest_heap.size);
    le::law_le64_round_trip(peb.guest_heap.ptr);
    let bytes = peb.to_wire();
    assert(bytes.subrange(0, 8) =~= le::le64_bytes(peb.init_data.size));
    assert(bytes.subrange(8, 16) =~= le::le64_bytes(peb.init_data.ptr));
    assert(bytes.subrange(16, 24) =~= le::le64_bytes(peb.guest_heap.size));
    assert(bytes.subrange(24, 32) =~= le::le64_bytes(peb.guest_heap.ptr));
}

} // verus!
