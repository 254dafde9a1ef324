//! Packed-ring descriptors, event suppressions and their place in memory.

use vstd::prelude::*;

use super::access::{read_vec, MemOps};
use super::access;
use crate::le;

verus! {

/// The chain continues with the next descriptor.
pub const DESC_NEXT: u16 = 0x1;

/// The device writes the buffer.
pub const DESC_WRITE: u16 = 0x2;

/// The buffer holds a table of descriptors.
pub const DESC_INDIRECT: u16 = 0x4;

/// Wrap round in which the driver made the descriptor available.
pub const DESC_AVAIL: u16 = 0x80;

/// Wrap round in which the device used the descriptor.
pub const DESC_USED: u16 = 0x8000;

/// Flag bits without a meaning.
pub const DESC_UNKNOWN: u16 = 0x7f78;

/// Whether a descriptor with these flags is available in wrap round `wrap`.
pub open spec fn avail_in(flags: u16, wrap: bool) -> bool {
    (flags & DESC_AVAIL != 0) == wrap && (flags & DESC_USED != 0) != wrap
}

/// Whether a descriptor with these flags was used in wrap round `wrap`.
pub open spec fn used_in(flags: u16, wrap: bool) -> bool {
    (flags & DESC_AVAIL != 0) == wrap && (flags & DESC_USED != 0) == wrap
}

/// Flags of a descriptor that is made available in wrap round `wrap`.
pub open spec fn avail_flags(next: bool, write: bool, wrap: bool) -> u16 {
    ((if next {
        DESC_NEXT
    } else {
        0
    }) + (if write {
        DESC_WRITE
    } else {
        0
    }) + (if wrap {
        DESC_AVAIL
    } else {
        DESC_USED
    })) as u16
}

/// Flags of a descriptor that is used in wrap round `wrap`.
pub open spec fn used_flags(wrap: bool) -> u16 {
    if wrap {
        0x8080
    } else {
        0
    }
}

/// Available descriptors carry exactly the flags they were given.
pub proof fn lemma_avail_flags(next: bool, write: bool, wrap: bool)
    ensures
        ({
            let flags = avail_flags(next, write, wrap);
            &&& (flags & DESC_NEXT != 0) == next
            &&& (flags & DESC_WRITE != 0) == write
            &&& flags & DESC_INDIRECT == 0
            &&& flags & DESC_UNKNOWN == 0
            &&& avail_in(flags, wrap)
            &&& !avail_in(flags, !wrap)
            &&& !used_in(flags, wrap)
        }),
{
    let flags = avail_flags(next, write, wrap);
    assert((flags & 0x1 != 0) == next && (flags & 0x2 != 0) == write && flags & 0x4 == 0 && flags
        & 0x7f78 == 0 && (flags & 0x80 != 0) == wrap && (flags & 0x8000 != 0) != wrap)
        by (bit_vector)
        requires
            flags == (if next {
                1u16
            } else {
                0u16
            }) + (if write {
                2u16
            } else {
                0u16
            }) + (if wrap {
                0x80u16
            } else {
                0x8000u16
            }),
    ;
}

/// Used descriptors are used in their wrap round, and available in none.
pub proof fn lemma_used_flags(wrap: bool)
    ensures
        used_in(used_flags(wrap), wrap),
        !used_in(used_flags(wrap), !wrap),
        !avail_in(used_flags(wrap), wrap),
        !avail_in(used_flags(wrap), !wrap),
{
    assert(0x8080u16 & 0x80 != 0 && 0x8080u16 & 0x8000 != 0 && 0u16 & 0x80 == 0 && 0u16 & 0x8000
        == 0) by (bit_vector);
}

pub fn is_avail(flags: u16, wrap: bool) -> (avail: bool)
    ensures
        avail == avail_in(flags, wrap),
{
    (flags & DESC_AVAIL != 0) == wrap && (flags & DESC_USED != 0) != wrap
}

pub fn is_used(flags: u16, wrap: bool) -> (used: bool)
    ensures
        used == used_in(flags, wrap),
{
    (flags & DESC_AVAIL != 0) == wrap && (flags & DESC_USED != 0) == wrap
}

/// One packed-ring descriptor.
#[derive(Debug, Clone, Copy, PartialEq, Eq, Structural)]
pub struct Descriptor {
    /// Address of the buffer.
    pub addr: u64,
    /// Length of the buffer, or bytes written once the descriptor is used.
    pub len: u32,
    /// Identifies the chain.
    pub id: u16,
    pub flags: u16,
}

impl Descriptor {
    /// Bytes of one descriptor in ring memory.
    pub const SIZE: usize = 16;

    /// Alignment of the descriptor table.
    pub const ALIGN: usize = 16;

    /// The descriptor's bytes in ring memory.
    pub open spec fn to_bytes(self) -> Seq<u8> {
        le::le64_bytes(self.addr) + le::le32_bytes(self.len) + le::le16_bytes(self.id)
            + le::le16_bytes(self.flags)
    }

    /// The descriptor that bytes in ring memory stand for.
    pub open spec fn of_bytes(s: Seq<u8>) -> Descriptor {
        Descriptor {
            addr: le::le64(s.subrange(0, 8)) as u64,
            len: le::le32(s.subrange(8, 12)) as u32,
            id: le::le16(s.subrange(12, 14)) as u16,
            flags: le::le16(s.subrange(14, 16)) as u16,
        }
    }

    pub fn new(addr: u64, len: u32, id: u16, flags: u16) -> (desc: Self)
        ensures
            desc == (Descriptor { addr, len, id, flags }),
    {
        Descriptor { addr, len, id, flags }
    }

    /// The descriptor of an unused slot.
    pub fn zeroed() -> (desc: Self)
        ensures
            desc == (Descriptor { addr: 0, len: 0, id: 0, flags: 0 }),
    {
        Descriptor { addr: 0, len: 0, id: 0, flags: 0 }
    }
}

/// Reading back a descriptor's bytes gives the descriptor.
pub proof fn law_descriptor_round_trip(desc: Descriptor)
    ensures
        desc.to_bytes().len() == Descriptor::SIZE,
        Descriptor::of_bytes(desc.to_bytes()) == desc,
{
    le::law_le64_round_trip(desc.addr);
    le::law_le32_round_trip(desc.len);
    le::law_le16_round_trip(desc.id);
    le::law_le16_round_trip(desc.flags);
    let s = desc.to_bytes();
    assert(s.subrange(0, 8) =~= le::le64_bytes(desc.addr));
    assert(s.subrange(8, 12) =~= le::le32_bytes(desc.len));
    assert(s.subrange(12, 14) =~= le::le16_bytes(desc.id));
    assert(s.subrange(14, 16) =~= le::le16_bytes(desc.flags));
}

/// Event flags: every change is notified.
pub const EVENT_ENABLE: u16 = 0;

/// Event flags: no change is notified.
pub const EVENT_DISABLE: u16 = 1;

/// Event flags: passing one descriptor is notified.
pub const EVENT_DESC: u16 = 2;

/// Tells the peer when to notify.
#[derive(Debug, Clone, Copy, PartialEq, Eq, Structural)]
pub struct EventSuppression {
    /// Descriptor offset, with the wrap round in the top bit.
    pub off_wrap: u16,
    pub flags: u16,
}

impl EventSuppression {
    pub const SIZE: usize = 4;

    pub open spec fn of_bytes(s: Seq<u8>) -> EventSuppression {
        EventSuppression {
            off_wrap: le::le16(s.subrange(0, 2)) as u16,
            flags: le::le16(s.subrange(2, 4)) as u16,
        }
    }

    pub open spec fn to_bytes(self) -> Seq<u8> {
        le::le16_bytes(self.off_wrap) + le::le16_bytes(self.flags)
    }

    pub open spec fn off(self) -> int {
        self.off_wrap as int % 0x8000
    }

    pub open spec fn wrap(self) -> bool {
        self.off_wrap >= 0x8000
    }

    pub fn new(off_wrap: u16, flags: u16) -> (event: Self)
        ensures
            event == (EventSuppression { off_wrap, flags }),
    {
        EventSuppression { off_wrap, flags }
    }
}

/// Reading back an event suppression's bytes gives the event suppression.
pub proof fn law_event_round_trip(event: EventSuppression)
    ensures
        event.to_bytes().len() == EventSuppression::SIZE,
        EventSuppression::of_bytes(event.to_bytes()) == event,
{
    le::law_le16_round_trip(event.off_wrap);
    le::law_le16_round_trip(event.flags);
    assert(event.to_bytes().subrange(0, 2) =~= le::le16_bytes(event.off_wrap));
    assert(event.to_bytes().subrange(2, 4) =~= le::le16_bytes(event.flags));
}

/// Why a ring cannot be placed at an address.
#[derive(Debug, Clone, Copy, PartialEq, Eq, Structural)]
pub enum LayoutError {
    /// The ring has no descriptor, or more than the wrap bit leaves room for.
    Size,
    /// The descriptor table is not aligned.
    Alignment,
    /// The ring does not end inside the address space.
    Overflow,
}

/// Placement of one ring: the descriptor table, then the driver's and the
/// device's event suppression.
#[derive(Debug, Clone, Copy, PartialEq, Eq, Structural)]
pub struct Layout {
    base: u64,
    num_descs: u16,
}

/// Whether a ring of `num_descs` descriptors can be placed at `base`.
pub open spec fn ring_fits(base: int, num_descs: int) -> bool {
    &&& 0 < num_descs <= 0x8000
    &&& base % Descriptor::ALIGN as int == 0
    &&& base + 16 * num_descs + 8 <= u64::MAX
}

/// Why a ring of `num_descs` descriptors cannot be placed at `base`.
pub open spec fn ring_error(base: int, num_descs: int) -> Option<LayoutError> {
    if ring_fits(base, num_descs) {
        None
    } else if num_descs == 0 || num_descs > 0x8000 {
        Some(LayoutError::Size)
    } else if base % 16 != 0 {
        Some(LayoutError::Alignment)
    } else {
        Some(LayoutError::Overflow)
    }
}

impl Layout {
    /// Address of the descriptor table.
    pub closed spec fn table(self) -> u64 {
        self.base
    }

    /// Number of descriptors.
    pub closed spec fn descs(self) -> u16 {
        self.num_descs
    }

    /// Address of descriptor `index`.
    pub open spec fn desc(self, index: int) -> int {
        self.table() + 16 * index
    }

    /// Address of the driver's event suppression.
    pub open spec fn drv_evt(self) -> int {
        self.desc(self.descs() as int)
    }

    /// Address of the device's event suppression.
    pub open spec fn dev_evt(self) -> int {
        self.drv_evt() + 4
    }

    /// Every layout that [`Layout::from_base`] hands out fits its place.
    pub open spec fn wf(self) -> bool {
        ring_fits(self.table() as int, self.descs() as int)
    }

    /// Whether the memory serves every access to the ring.
    pub open spec fn mapped_in(self, mem: access::MemView) -> bool {
        mem.maps_all(self.table() as int, 16 * self.descs() + 8)
    }

    /// Place a ring of `num_descs` descriptors at `base`.
    pub fn from_base(base: u64, num_descs: u16) -> (layout: Result<Self, LayoutError>)
        ensures
            layout is Ok <==> ring_fits(base as int, num_descs as int),
            layout matches Err(e) ==> ring_error(base as int, num_descs as int) == Some(e),
            layout matches Ok(l) ==> l.wf() && l.table() == base && l.descs() == num_descs,
            layout matches Err(e) ==> e == if num_descs == 0 || num_descs > 0x8000 {
                LayoutError::Size
            } else if base % 16 != 0 {
                LayoutError::Alignment
            } else {
                LayoutError::Overflow
            },
    {
        if num_descs == 0 || num_descs > 0x8000 {
            return Err(LayoutError::Size);
        }
        if base % Descriptor::ALIGN as u64 != 0 {
            return Err(LayoutError::Alignment);
        }
        if base.checked_add(16 * num_descs as u64 + 8).is_none() {
            return Err(LayoutError::Overflow);
        }
        Ok(Layout { base, num_descs })
    }

    /// Bytes of a ring of `num_descs` descriptors.
    pub fn query_size(num_descs: usize) -> (len: usize)
        requires
            num_descs <= u16::MAX,
        ensures
            len == 16 * num_descs + 8,
    {
        Descriptor::SIZE * num_descs + 2 * EventSuppression::SIZE
    }

    /// Address of the descriptor table.
    pub fn desc_table_addr(&self) -> (addr: u64)
        ensures
            addr == self.table(),
    {
        self.base
    }

    /// Number of descriptors.
    pub fn desc_table_len(&self) -> (len: u16)
        ensures
            len == self.descs(),
    {
        self.num_descs
    }

    /// Address of descriptor `index`, or `None` past the table.
    pub fn desc_addr(&self, index: u16) -> (addr: Option<u64>)
        requires
            self.wf(),
        ensures
            addr is Some <==> index < self.descs(),
            addr matches Some(a) ==> a == self.desc(index as int),
    {
        if index < self.num_descs {
            Some(self.base + 16 * index as u64)
        } else {
            None
        }
    }

    /// Address of the driver's event suppression.
    pub fn drv_evt_addr(&self) -> (addr: u64)
        requires
            self.wf(),
        ensures
            addr == self.drv_evt(),
    {
        self.base + 16 * self.num_descs as u64
    }

    /// Address of the device's event suppression.
    pub fn dev_evt_addr(&self) -> (addr: u64)
        requires
            self.wf(),
        ensures
            addr == self.dev_evt(),
    {
        self.base + 16 * self.num_descs as u64 + 4
    }
}

/// The descriptor at an address.
pub open spec fn desc_in(mem: access::MemView, addr: int) -> Descriptor {
    Descriptor::of_bytes(mem.span(addr, 16))
}

/// The event suppression at an address.
pub open spec fn event_in(mem: access::MemView, addr: int) -> EventSuppression {
    EventSuppression::of_bytes(mem.span(addr, 4))
}

/// What was stored last is what is read.
pub proof fn lemma_span_of_stored(
    before: access::MemView,
    after: access::MemView,
    addr: int,
    src: Seq<u8>,
)
    requires
        before.stored(after, addr, src),
    ensures
        after.span(addr, src.len()) == src,
{
    assert(after.span(addr, src.len()) =~= src);
}

/// Memory that agrees on a range has the same bytes there.
pub proof fn lemma_span_same(before: access::MemView, after: access::MemView, addr: int, len: nat)
    requires
        forall|a: int| addr <= a < addr + len ==> #[trigger] after.byte(a) == before.byte(a),
    ensures
        after.span(addr, len) == before.span(addr, len),
{
    assert(after.span(addr, len) =~= before.span(addr, len));
}

/// Read the descriptor at an address.
pub(crate) fn read_desc<M: MemOps>(mem: &M, addr: u64) -> (desc: Result<Descriptor, M::Error>)
    ensures
        desc matches Ok(d) ==> d == desc_in(mem.mem(), addr as int),
        mem.mem().maps_all(addr as int, 16) ==> desc is Ok,
{
    let bytes = match read_vec(mem, addr, Descriptor::SIZE) {
        Ok(bytes) => bytes,
        Err(err) => return Err(err),
    };
    let s = bytes.as_slice();
    Ok(
        Descriptor {
            addr: le::read_le64(vstd::slice::slice_subrange(s, 0, 8)),
            len: le::read_le32(vstd::slice::slice_subrange(s, 8, 12)),
            id: le::read_le16(vstd::slice::slice_subrange(s, 12, 14)),
            flags: le::read_le16(vstd::slice::slice_subrange(s, 14, 16)),
        },
    )
}

/// Load the flags of the descriptor at an address with acquire semantics.
pub(crate) fn load_desc_flags<M: MemOps>(mem: &M, addr: u64) -> (flags: Result<u16, M::Error>)
    requires
        addr + 16 <= u64::MAX,
        addr % 2 == 0,
    ensures
        flags matches Ok(f) ==> f == desc_in(mem.mem(), addr as int).flags,
        mem.mem().maps_all(addr as int, 16) ==> flags is Ok,
{
    proof {
        assert(mem.mem().span(addr as int, 16).subrange(14, 16) =~= mem.mem().span(
            addr + 14,
            2,
        ));
    }
    mem.load_acquire(addr + 14)
}

/// Store a descriptor, its flags last and with release semantics.
pub(crate) fn store_desc<M: MemOps>(mem: &mut M, addr: u64, desc: Descriptor) -> (done: Result<
    (),
    M::Error,
>)
    requires
        addr + 16 <= u64::MAX,
        addr % 2 == 0,
    ensures
        old(mem).mem().same_mapping(final(mem).mem()),
        done is Ok ==> old(mem).mem().stored(final(mem).mem(), addr as int, desc.to_bytes()),
        done is Err ==> old(mem).mem().same_outside(final(mem).mem(), addr as int, 16),
        old(mem).mem().maps_all(addr as int, 16) ==> done is Ok,
{
    let ghost start = mem.mem();
    let mut field: Vec<u8> = Vec::new();
    le::push_le64(&mut field, desc.addr);
    proof {
        assert(field@ =~= le::le64_bytes(desc.addr));
    }
    match mem.write(addr, field.as_slice()) {
        Ok(()) => {},
        Err(err) => return Err(err),
    }
    let mut field: Vec<u8> = Vec::new();
    le::push_le32(&mut field, desc.len);
    proof {
        assert(field@ =~= le::le32_bytes(desc.len));
    }
    match mem.write(addr + 8, field.as_slice()) {
        Ok(()) => {},
        Err(err) => return Err(err),
    }
    let mut field: Vec<u8> = Vec::new();
    le::push_le16(&mut field, desc.id);
    proof {
        assert(field@ =~= le::le16_bytes(desc.id));
    }
    match mem.write(addr + 12, field.as_slice()) {
        Ok(()) => {},
        Err(err) => return Err(err),
    }
    mem.store_release(addr + 14, desc.flags)
}

/// Store the part of a descriptor that the device owns: the written length, the
/// chain's identifier and, last and with release semantics, the flags.
pub(crate) fn store_used<M: MemOps>(
    mem: &mut M,
    addr: u64,
    id: u16,
    len: u32,
    flags: u16,
) -> (done: Result<(), M::Error>)
    requires
        addr + 16 <= u64::MAX,
        addr % 2 == 0,
    ensures
        old(mem).mem().same_mapping(final(mem).mem()),
        done is Ok ==> old(mem).mem().stored(
            final(mem).mem(),
            addr + 8,
            le::le32_bytes(len) + le::le16_bytes(id) + le::le16_bytes(flags),
        ),
        done is Err ==> old(mem).mem().same_outside(final(mem).mem(), addr + 8, 8),
        old(mem).mem().maps_all(addr as int, 16) ==> done is Ok,
{
    let mut field: Vec<u8> = Vec::new();
    le::push_le32(&mut field, len);
    proof {
        assert(field@ =~= le::le32_bytes(len));
    }
    match mem.write(addr + 8, field.as_slice()) {
        Ok(()) => {},
        Err(err) => return Err(err),
    }
    let mut field: Vec<u8> = Vec::new();
    le::push_le16(&mut field, id);
    proof {
        assert(field@ =~= le::le16_bytes(id));
    }
    match mem.write(addr + 12, field.as_slice()) {
        Ok(()) => {},
        Err(err) => return Err(err),
    }
    mem.store_release(addr + 14, flags)
}

/// Read the event suppression at an address.
pub(crate) fn read_event<M: MemOps>(mem: &M, addr: u64) -> (event: Result<
    EventSuppression,
    M::Error,
>)
    ensures
        event matches Ok(e) ==> e == event_in(mem.mem(), addr as int),
        mem.mem().maps_all(addr as int, 4) ==> event is Ok,
{
    let bytes = match read_vec(mem, addr, EventSuppression::SIZE) {
        Ok(bytes) => bytes,
        Err(err) => return Err(err),
    };
    let s = bytes.as_slice();
    Ok(
        EventSuppression {
            off_wrap: le::read_le16(vstd::slice::slice_subrange(s, 0, 2)),
            flags: le::read_le16(vstd::slice::slice_subrange(s, 2, 4)),
        },
    )
}

/// Store an event suppression, its flags last and with release semantics.
pub(crate) fn store_event<M: MemOps>(mem: &mut M, addr: u64, event: EventSuppression) -> (done:
    Result<(), M::Error>)
    requires
        addr + 4 <= u64::MAX,
        addr % 2 == 0,
    ensures
        old(mem).mem().same_mapping(final(mem).mem()),
        done is Ok ==> old(mem).mem().stored(final(mem).mem(), addr as int, event.to_bytes()),
        old(mem).mem().maps_all(addr as int, 4) ==> done is Ok,
{
    let mut field: Vec<u8> = Vec::new();
    le::push_le16(&mut field, event.off_wrap);
    proof {
        assert(field@ =~= le::le16_bytes(event.off_wrap));
    }
    match mem.write(addr, field.as_slice()) {
        Ok(()) => {},
        Err(err) => return Err(err),
    }
    mem.store_release(addr + 2, event.flags)
}

/// A ring can be placed exactly where it has a descriptor and no more than the wrap bit leaves
/// room for, starts at a descriptor's alignment and ends inside the address space. What is
/// wrong with its size is told before what is wrong with its place.
pub proof fn law_ring_is_placed_where_it_fits(base: u64, num_descs: u16)
    ensures
        ({
            let sized = 1 <= num_descs <= 0x8000;
            let aligned = base % 16 == 0;
            let inside = base + 16 * num_descs + 4 + 4 <= u64::MAX;
            let error = ring_error(base as int, num_descs as int);
            &&& error is None <==> sized && aligned && inside
            &&& error == Some(LayoutError::Size) <==> !sized
            &&& error == Some(LayoutError::Alignment) <==> sized && !aligned
            &&& error == Some(LayoutError::Overflow) <==> sized && aligned && !inside
        }),
{
}

/// The parts of a ring follow each other: descriptors of sixteen bytes each, then the events
/// of the driver and of the device, of four bytes each.
pub proof fn law_ring_parts_follow_each_other(layout: Layout, index: int)
    ensures
        layout.desc(0) == layout.table(),
        layout.desc(index + 1) == layout.desc(index) + Descriptor::SIZE,
        layout.drv_evt() == layout.table() + Descriptor::SIZE * layout.descs(),
        layout.dev_evt() == layout.drv_evt() + EventSuppression::SIZE,
{
}

/// Each field of a descriptor stands in its own bytes: the address, the length, the identifier
/// and the flags.
pub proof fn law_descriptor_fields_are_in_place(desc: Descriptor)
    ensures
        ({
            let bytes = desc.to_bytes();
            &&& bytes.len() == 16
            &&& le::le64(bytes.subrange(0, 8)) == desc.addr
            &&& le::le32(bytes.subrange(8, 12)) == desc.len
            &&& le::le16(bytes.subrange(12, 14)) == desc.id
            &&& le::le16(bytes.subrange(14, 16)) == desc.flags
        }),
{
    le::law_le64_round_trip(desc.addr);
    le::law_le32_round_trip(desc.len);
    le::law_le16_round_trip(desc.id);
    le::law_le16_round_trip(desc.flags);
    let bytes = desc.to_bytes();
    assert(bytes.subrange(0, 8) =~= le::le64_bytes(desc.addr));
    assert(bytes.subrange(8, 12) =~= le::le32_bytes(desc.len));
    assert(bytes.subrange(12, 14) =~= le::le16_bytes(desc.id));
    assert(bytes.subrange(14, 16) =~= le::le16_bytes(desc.flags));
}

/// An event suppression tells the position first, with the round in its top bit, and then the
/// wish.
pub proof fn law_event_fields_are_in_place(event: EventSuppression)
    ensures
        ({
            let bytes = event.to_bytes();
            &&& bytes.len() == 4
            &&& le::le16(bytes.subrange(0, 2)) == event.off() + if event.wrap() {
                0x8000int
            } else {
                0
            }
            &&& le::le16(bytes.subrange(2, 4)) == event.flags
            &&& 0 <= event.off() < 0x8000
        }),
{
    le::law_le16_round_trip(event.off_wrap);
    le::law_le16_round_trip(event.flags);
    let bytes = event.to_bytes();
    assert(bytes.subrange(0, 2) =~= le::le16_bytes(event.off_wrap));
    assert(bytes.subrange(2, 4) =~= le::le16_bytes(event.flags));
}

/// The flags of a descriptor are bits of one number: that the chain goes on is worth one, that
/// the device writes is worth two, and the rounds in which it was made available and used stand
/// in two bits above. Bits without a meaning are those that are left.
pub proof fn law_flags_are_bits(flags: u16, next: bool, write: bool, wrap: bool)
    ensures
        avail_flags(next, write, wrap) == (if next {
            1int
        } else {
            0
        }) + (if write {
            2int
        } else {
            0
        }) + (if wrap {
            0x80int
        } else {
            0x8000
        }),
        used_flags(wrap) == (if wrap {
            0x8080int
        } else {
            0
        }),
        avail_in(flags, wrap) <==> (flags / 0x80 % 2 == 1) == wrap && (flags / 0x8000 == 1) != wrap,
        used_in(flags, wrap) <==> (flags / 0x80 % 2 == 1) == wrap && (flags / 0x8000 == 1) == wrap,
        avail_in(avail_flags(next, write, wrap), wrap),
        used_in(used_flags(wrap), wrap),
        flags & DESC_UNKNOWN == 0 <==> flags % 0x8000 / 0x100 == 0 && flags % 0x80 < 8,
{
    assert((flags & 0x80u16 != 0) == (flags / 0x80u16 % 2u16 == 1u16)) by (bit_vector);
    assert((flags & 0x8000u16 != 0) == (flags / 0x8000u16 == 1u16)) by (bit_vector);
    assert((flags & 0x7f78u16 == 0) == (flags % 0x8000u16 / 0x100u16 == 0u16 && flags % 0x80u16
        < 8u16)) by (bit_vector);
    lemma_avail_flags(next, write, wrap);
    assert(0x8080u16 & 0x80u16 != 0 && 0x8080u16 & 0x8000u16 != 0) by (bit_vector);
    assert(0u16 & 0x80u16 == 0 && 0u16 & 0x8000u16 == 0) by (bit_vector);
}

} // verus!
