//! Rings that a hostile driver wrote.

use vstd::prelude::*;

use super::memory;
use super::memory::FuzzMem;
use crate::le;
use crate::virtq::access::MemView;
use crate::virtq::desc;
use crate::virtq::desc::store_desc;
use crate::virtq::ring::canonical;
use crate::virtq::ring::laws;
use crate::virtq::{
    validate_canon_image, BufferElement, Descriptor, EventSuppression, Layout, MemOps,
    NoopNotifier, ReplyChain, RingConsumer, RingError, VirtqConsumer,
};

verus! {

/// Descriptors of a ring whose input names no power of two.
pub const DEFAULT_QUEUE_SIZE: usize = 16;

/// Most descriptors of a ring.
pub const MAX_QUEUE_SIZE: usize = 64;

/// Bytes of the payload memory.
pub const PAYLOAD_SIZE: usize = 4096;

/// Where the ring starts.
pub const BASE_ADDR: u64 = 0x1000;

/// Bytes before the descriptors of an input.
pub const HEADER_SIZE: usize = 16;

/// Bytes of one descriptor of an input.
pub const DESC_SIZE: usize = 12;

/// Most chains that are taken from a ring.
pub const MAX_POLLS: usize = 8;

/// A descriptor to write, its address relative to the payload.
#[derive(Debug, Clone, Copy, PartialEq, Eq, Structural)]
pub struct FuzzDesc {
    pub addr_offset: i32,
    pub len: u32,
    pub id: u16,
    pub flags: u16,
}

/// A ring to write and what to do with it.
#[derive(Debug)]
pub struct FuzzCase<'a> {
    pub queue_size: usize,
    /// How many descriptors the input claims to be available.
    pub avail_descs: usize,
    pub driver_event_off_wrap: u16,
    pub driver_event_flags: u16,
    /// The length with which chains are marked used.
    pub written_len: u32,
    /// How many chains are taken.
    pub poll_count: usize,
    /// Bytes of one read or write.
    pub io_len: usize,
    pub descs: Vec<FuzzDesc>,
    /// Stores between the steps, an offset and a value each.
    pub mutations: &'a [u8],
}

/// Whether to keep an input.
#[derive(Debug, Clone, Copy, PartialEq, Eq, Structural)]
pub enum Corpus {
    Keep,
    Reject,
}

/// Descriptors of the ring that an input asks for.
pub open spec fn queue_size_of(raw: u16) -> usize {
    if exists|k: nat| #[trigger] vstd::arithmetic::power2::pow2(k) == raw {
        if raw <= MAX_QUEUE_SIZE {
            raw as usize
        } else {
            MAX_QUEUE_SIZE
        }
    } else {
        DEFAULT_QUEUE_SIZE
    }
}

/// Descriptors of the ring that an input asks for: a power of two up to a limit.
pub fn normalize_queue_size(raw: u16) -> (size: usize)
    ensures
        size == queue_size_of(raw),
        0 < size <= MAX_QUEUE_SIZE,
{
    if !le::is_power_of_two(raw) {
        return DEFAULT_QUEUE_SIZE;
    }
    proof {
        let k = choose|k: nat| #[trigger] vstd::arithmetic::power2::pow2(k) == raw;
        vstd::arithmetic::power2::lemma_pow2_pos(k);
    }
    if raw as usize <= MAX_QUEUE_SIZE {
        raw as usize
    } else {
        MAX_QUEUE_SIZE
    }
}

/// A 16-bit word of an input.
pub open spec fn word(data: Seq<u8>, at: int) -> u16 {
    le::le16(data.subrange(at, at + 2)) as u16
}

/// A 32-bit word of an input.
pub open spec fn long(data: Seq<u8>, at: int) -> u32 {
    le::le32(data.subrange(at, at + 4)) as u32
}

fn read_word(data: &[u8], at: usize) -> (value: u16)
    requires
        at + 2 <= data@.len(),
    ensures
        value == word(data@, at as int),
{
    let size: usize = data.len();
    assert(at + 2 <= size);
    le::read_le16(vstd::slice::slice_subrange(data, at, at + 2))
}

fn read_long(data: &[u8], at: usize) -> (value: u32)
    requires
        at + 4 <= data@.len(),
    ensures
        value == long(data@, at as int),
{
    let size: usize = data.len();
    assert(at + 4 <= size);
    le::read_le32(vstd::slice::slice_subrange(data, at, at + 4))
}

/// How many descriptors an input holds.
pub open spec fn desc_count(data: Seq<u8>) -> int {
    let claimed = word(data, 2) as int;
    let room = queue_size_of(word(data, 0)) as int;
    if claimed < room {
        claimed
    } else {
        room
    }
}

/// A descriptor of an input.
pub open spec fn desc_of(data: Seq<u8>, index: int) -> FuzzDesc {
    let at = HEADER_SIZE + DESC_SIZE * index;
    FuzzDesc {
        addr_offset: long(data, at) as i32,
        len: long(data, at + 4),
        id: word(data, at + 8),
        flags: word(data, at + 10),
    }
}

/// An input is long enough for its header and its descriptors.
pub open spec fn parses(data: Seq<u8>) -> bool {
    &&& data.len() >= HEADER_SIZE
    &&& data.len() >= HEADER_SIZE + DESC_SIZE * desc_count(data)
}

impl<'a> FuzzCase<'a> {
    /// The ring has room for the descriptors, and an access for its bytes.
    pub open spec fn wf(self) -> bool {
        &&& 0 < self.queue_size <= MAX_QUEUE_SIZE
        &&& self.descs@.len() <= self.queue_size
        &&& self.poll_count <= MAX_POLLS
        &&& 0 < self.io_len <= 256
    }

    /// The ring can be placed and has room for the descriptors.
    pub open spec fn makeable(self) -> bool {
        0 < self.queue_size <= 0x8000 && self.descs@.len() <= self.queue_size
    }

    /// What an input asks for.
    pub open spec fn reads(self, data: Seq<u8>) -> bool {
        &&& self.queue_size == queue_size_of(word(data, 0))
        &&& self.avail_descs == word(data, 2)
        &&& self.driver_event_off_wrap == word(data, 4)
        &&& self.driver_event_flags == word(data, 6)
        &&& self.written_len == long(data, 8)
        &&& self.poll_count == if data[12] <= MAX_POLLS {
            data[12] as int
        } else {
            MAX_POLLS as int
        }
        &&& self.io_len == data[13] + 1
        &&& self.descs@ == Seq::new(desc_count(data) as nat, |i: int| desc_of(data, i))
        &&& self.mutations@ == data.skip(HEADER_SIZE + DESC_SIZE * desc_count(data))
    }

    /// Bytes of the ring.
    pub open spec fn ring_size(self) -> int {
        16 * self.queue_size + 8
    }

    /// Where the payload starts.
    pub open spec fn payload_base(self) -> int {
        BASE_ADDR + self.ring_size()
    }

    /// The descriptor that the ring holds at an index. Its address wraps around.
    pub open spec fn ring_desc(self, index: int) -> Descriptor {
        if index < self.descs@.len() {
            let desc = self.descs@[index];
            Descriptor {
                addr: ((self.payload_base() + desc.addr_offset) % 0x1_0000_0000_0000_0000) as u64,
                len: desc.len,
                id: desc.id,
                flags: desc.flags,
            }
        } else {
            Descriptor { addr: 0, len: 0, id: 0, flags: 0 }
        }
    }

    /// The event suppression that the driver asks for.
    pub open spec fn event(self) -> EventSuppression {
        EventSuppression {
            off_wrap: self.driver_event_off_wrap,
            flags: self.driver_event_flags,
        }
    }
}

/// Parse a compact little-endian packed-ring blob:
///
/// ```text
/// u16 queue_size
/// u16 desc_count
/// u16 driver_event_off_wrap
/// u16 driver_event_flags
/// u32 written_len
/// u8  poll_count
/// u8  io_len_minus_one
/// u8  reserved[2]
/// desc[desc_count]:
///   i32 addr_offset
///   u32 len
///   u16 id
///   u16 flags
/// mutation[]:
///   u16 offset
///   u8  value
/// ```
pub fn parse_case(data: &[u8]) -> (case: Option<FuzzCase<'_>>)
    ensures
        case is Some <==> parses(data@),
        case matches Some(c) ==> c.wf() && c.reads(data@),
{
    if data.len() < HEADER_SIZE {
        return None;
    }
    let queue_size: usize = normalize_queue_size(read_word(data, 0));
    let avail_descs: usize = read_word(data, 2) as usize;
    let count: usize = if avail_descs < queue_size {
        avail_descs
    } else {
        queue_size
    };
    let polls: usize = data[12] as usize;
    if data.len() < HEADER_SIZE + DESC_SIZE * count {
        return None;
    }
    let mut descs: Vec<FuzzDesc> = Vec::new();
    let mut i: usize = 0;
    while i < count
        invariant
            i <= count,
            count == desc_count(data@),
            count <= MAX_QUEUE_SIZE,
            data@.len() >= HEADER_SIZE + DESC_SIZE * count,
            descs@ == Seq::new(i as nat, |k: int| desc_of(data@, k)),
        decreases count - i,
    {
        let at: usize = HEADER_SIZE + DESC_SIZE * i;
        descs.push(
            FuzzDesc {
                addr_offset: read_long(data, at) as i32,
                len: read_long(data, at + 4),
                id: read_word(data, at + 8),
                flags: read_word(data, at + 10),
            },
        );
        i += 1;
        proof {
            assert(descs@ =~= Seq::new(i as nat, |k: int| desc_of(data@, k)));
        }
    }
    let rest: usize = HEADER_SIZE + DESC_SIZE * count;
    let mutations = vstd::slice::slice_subrange(data, rest, data.len());
    proof {
        assert(mutations@ =~= data@.skip(rest as int));
    }
    Some(
        FuzzCase {
            queue_size,
            avail_descs,
            driver_event_off_wrap: read_word(data, 4),
            driver_event_flags: read_word(data, 6),
            written_len: read_long(data, 8),
            poll_count: if polls <= MAX_POLLS {
                polls
            } else {
                MAX_POLLS
            },
            io_len: data[13] as usize + 1,
            descs,
            mutations,
        },
    )
}

/// Store an event suppression.
pub fn write_event(mem: &mut FuzzMem, addr: u64, off_wrap: u16, flags: u16) -> (done: Result<
    (),
    (),
>)
    ensures
        done is Ok <==> old(mem).holds(addr, 4),
        done is Err ==> *final(mem) == *old(mem),
        done is Ok ==> old(mem).mem().stored(
            final(mem).mem(),
            addr as int,
            EventSuppression { off_wrap, flags }.to_bytes(),
        ),
        final(mem).base() == old(mem).base(),
        final(mem).data().len() == old(mem).data().len(),
        old(mem).mem().same_mapping(final(mem).mem()),
{
    let mut bytes: Vec<u8> = Vec::new();
    le::push_le16(&mut bytes, off_wrap);
    le::push_le16(&mut bytes, flags);
    proof {
        assert(bytes@ =~= EventSuppression { off_wrap, flags }.to_bytes());
        desc::law_event_round_trip(EventSuppression { off_wrap, flags });
    }
    mem.write(addr, bytes.as_slice())
}

/// An address relative to another, wrapping around.
fn wrapping_offset(base: u64, offset: i32) -> (addr: u64)
    requires
        base <= 0x10_0000,
    ensures
        addr == (base + offset) % 0x1_0000_0000_0000_0000,
{
    if offset >= 0 {
        base + offset as u64
    } else {
        let back: u64 = (-(offset as i64)) as u64;
        if back <= base {
            base - back
        } else {
            proof {
                assert((base + offset) + 0x1_0000_0000_0000_0000 < 0x1_0000_0000_0000_0000);
            }
            u64::MAX - (back - base - 1)
        }
    }
}

/// A ring holds what a case asks for.
pub open spec fn ring_written(mem: MemView, layout: Layout, case: FuzzCase) -> bool {
    &&& forall|i: int|
        0 <= i < layout.descs() ==> #[trigger] desc::desc_in(mem, layout.desc(i)) == case.ring_desc(
            i,
        )
    &&& desc::event_in(mem, layout.drv_evt()) == case.event()
    &&& desc::event_in(mem, layout.dev_evt()) == (EventSuppression { off_wrap: 0, flags: 0 })
}

/// A ring in memory of zeros holds zeroed descriptors and a zeroed event suppression.
pub proof fn lemma_zeroed_ring(mem: MemView, layout: Layout)
    requires
        forall|a: int| #[trigger] mem.byte(a) == 0,
    ensures
        forall|i: int| #[trigger]
            desc::desc_in(mem, layout.desc(i)) == (Descriptor { addr: 0, len: 0, id: 0, flags: 0 }),
        desc::event_in(mem, layout.dev_evt()) == (EventSuppression { off_wrap: 0, flags: 0 }),
{
    let zero = Descriptor { addr: 0, len: 0, id: 0, flags: 0 };
    desc::law_descriptor_round_trip(zero);
    assert forall|i: int| #[trigger] desc::desc_in(mem, layout.desc(i)) == zero by {
        assert(mem.span(layout.desc(i), 16) =~= zero.to_bytes());
    }
    let event = EventSuppression { off_wrap: 0, flags: 0 };
    desc::law_event_round_trip(event);
    assert(mem.span(layout.dev_evt(), 4) =~= event.to_bytes());
}

proof fn lemma_desc_stored(
    before: MemView,
    after: MemView,
    layout: Layout,
    index: int,
    desc: Descriptor,
)
    requires
        before.stored(after, layout.desc(index), desc.to_bytes()),
        0 <= index < layout.descs(),
    ensures
        desc::desc_in(after, layout.desc(index)) == desc,
        forall|i: int|
            0 <= i < layout.descs() && i != index ==> #[trigger] desc::desc_in(
                after,
                layout.desc(i),
            ) == desc::desc_in(before, layout.desc(i)),
        desc::event_in(after, layout.drv_evt()) == desc::event_in(before, layout.drv_evt()),
        desc::event_in(after, layout.dev_evt()) == desc::event_in(before, layout.dev_evt()),
{
    desc::law_descriptor_round_trip(desc);
    desc::lemma_span_of_stored(before, after, layout.desc(index), desc.to_bytes());
    assert forall|i: int| 0 <= i < layout.descs() && i != index implies #[trigger] desc::desc_in(
        after,
        layout.desc(i),
    ) == desc::desc_in(before, layout.desc(i)) by {
        desc::lemma_span_same(before, after, layout.desc(i), 16);
    }
    desc::lemma_span_same(before, after, layout.drv_evt(), 4);
    desc::lemma_span_same(before, after, layout.dev_evt(), 4);
}

proof fn lemma_event_stored(before: MemView, after: MemView, layout: Layout, event: EventSuppression)
    requires
        before.stored(after, layout.drv_evt(), event.to_bytes()),
    ensures
        desc::event_in(after, layout.drv_evt()) == event,
        desc::event_in(after, layout.dev_evt()) == desc::event_in(before, layout.dev_evt()),
        forall|i: int|
            0 <= i < layout.descs() ==> #[trigger] desc::desc_in(after, layout.desc(i))
                == desc::desc_in(before, layout.desc(i)),
{
    desc::law_event_round_trip(event);
    desc::lemma_span_of_stored(before, after, layout.drv_evt(), event.to_bytes());
    desc::lemma_span_same(before, after, layout.dev_evt(), 4);
    assert forall|i: int| 0 <= i < layout.descs() implies #[trigger] desc::desc_in(
        after,
        layout.desc(i),
    ) == desc::desc_in(before, layout.desc(i)) by {
        desc::lemma_span_same(before, after, layout.desc(i), 16);
    }
}

/// Place the ring that a case asks for in memory of its own.
pub fn make_ring(case: &FuzzCase<'_>) -> (made: Result<(Layout, FuzzMem), ()>)
    requires
        case.queue_size <= u16::MAX,
    ensures
        made is Ok <==> case.makeable(),
        made matches Ok((layout, mem)) ==> {
            &&& layout.wf()
            &&& layout.table() == BASE_ADDR
            &&& layout.descs() == case.queue_size
            &&& mem.base() == BASE_ADDR
            &&& mem.data().len() == case.ring_size()
            &&& layout.mapped_in(mem.mem())
            &&& ring_written(mem.mem(), layout, *case)
        },
{
    let ring_size: usize = Layout::query_size(case.queue_size);
    let mut mem = FuzzMem::new(BASE_ADDR, ring_size);
    let layout = match Layout::from_base(BASE_ADDR, case.queue_size as u16) {
        Ok(layout) => layout,
        Err(_) => return Err(()),
    };
    let payload_base: u64 = BASE_ADDR + ring_size as u64;
    proof {
        lemma_zeroed_ring(mem.mem(), layout);
    }
    let mut i: usize = 0;
    while i < case.descs.len()
        invariant
            i <= case.descs@.len(),
            i <= case.queue_size,
            0 < case.queue_size <= 0x8000,
            layout.wf(),
            layout.table() == BASE_ADDR,
            layout.descs() == case.queue_size,
            payload_base == case.payload_base(),
            mem.base() == BASE_ADDR,
            mem.data().len() == case.ring_size(),
            layout.mapped_in(mem.mem()),
            forall|k: int|
                0 <= k < layout.descs() ==> #[trigger] desc::desc_in(mem.mem(), layout.desc(k))
                    == if k < i {
                    case.ring_desc(k)
                } else {
                    Descriptor { addr: 0, len: 0, id: 0, flags: 0 }
                },
            desc::event_in(mem.mem(), layout.dev_evt()) == (EventSuppression {
                off_wrap: 0,
                flags: 0,
            }),
        decreases case.descs@.len() - i,
    {
        if i >= case.queue_size {
            // Behind the table there is no room for another descriptor.
            return Err(());
        }
        let fuzz_desc = case.descs[i];
        let desc = Descriptor::new(
            wrapping_offset(payload_base, fuzz_desc.addr_offset),
            fuzz_desc.len,
            fuzz_desc.id,
            fuzz_desc.flags,
        );
        let addr: u64 = layout.desc_table_addr() + 16 * i as u64;
        let ghost place = mem;
        let ghost before = mem.mem();
        match store_desc(&mut mem, addr, desc) {
            Ok(()) => {},
            Err(_) => return Err(()),
        }
        proof {
            memory::lemma_same_place(place, mem);
            lemma_desc_stored(before, mem.mem(), layout, i as int, desc);
            assert(desc == case.ring_desc(i as int));
        }
        i += 1;
    }
    let ghost before = mem.mem();
    let addr: u64 = layout.drv_evt_addr();
    proof {
        assert(mem.mem().maps(addr as int) && mem.mem().maps(addr + 3));
    }
    match write_event(
        &mut mem,
        addr,
        case.driver_event_off_wrap,
        case.driver_event_flags,
    ) {
        Ok(()) => {},
        Err(()) => return Err(()),
    }
    proof {
        lemma_event_stored(before, mem.mem(), layout, case.event());
    }
    Ok((layout, mem))
}

/// Whether two buffer lists are equal.
fn same_elems(a: &[BufferElement], b: &[BufferElement]) -> (equal: bool)
    ensures
        equal <==> a@ == b@,
{
    if a.len() != b.len() {
        return false;
    }
    let mut i: usize = 0;
    while i < a.len()
        invariant
            i <= a@.len(),
            a@.len() == b@.len(),
            forall|k: int| 0 <= k < i ==> a@[k] == b@[k],
        decreases a@.len() - i,
    {
        if a[i] != b[i] {
            return false;
        }
        i += 1;
    }
    proof {
        assert(a@ =~= b@);
    }
    true
}

/// Whether a device takes exactly these chains from a ring, and finds nothing more.
fn takes_chains(mem: &FuzzMem, device: RingConsumer, chains: Vec<canonical::CanonChain>) -> (agrees:
    bool)
    requires
        device.wf(),
        device.layout.mapped_in(mem.mem()),
        forall|i: int| 0 <= i < chains@.len() ==> (#[trigger] chains@[i]).wf(),
    ensures
        agrees == laws::takes(device, mem.mem(), canonical::chain_views(chains@)),
{
    let ghost view = mem.mem();
    let ghost all = canonical::chain_views(chains@);
    let ghost start = device;
    let mut consumer = device;
    proof {
        assert(all.skip(0) =~= all);
    }
    let mut i: usize = 0;
    while i < chains.len()
        invariant
            i <= chains@.len(),
            view == mem.mem(),
            all == canonical::chain_views(chains@),
            start == device,
            consumer.wf(),
            consumer.layout == start.layout,
            start.layout.mapped_in(view),
            laws::takes(start, view, all) == laws::takes(consumer, view, all.skip(i as int)),
            forall|k: int| 0 <= k < chains@.len() ==> (#[trigger] chains@[k]).wf(),
        decreases chains@.len() - i,
    {
        let ghost before = consumer;
        let ghost left = all.skip(i as int);
        proof {
            assert(left[0] == chains@[i as int]@);
        }
        match consumer.poll_available(mem) {
            Ok((id, actual)) => {
                if id != chains[i].id() {
                    return false;
                }
                if !same_elems(actual.elems(), chains[i].buffers().elems()) {
                    return false;
                }
            },
            Err(_) => return false,
        }
        proof {
            laws::lemma_takes_next(before, consumer, view, left);
            assert(left.skip(1) =~= all.skip(i + 1));
        }
        i += 1;
    }
    match consumer.poll_available(mem) {
        Err(RingError::WouldBlock) => true,
        _ => false,
    }
}

/// Validate the ring of a case as a canonical image, under the driver's event suppression and
/// under the canonical one. Tells whether a device takes what validation reports.
pub fn fuzz_canon_image(
    mem: &mut FuzzMem,
    layout: Layout,
    case: &FuzzCase<'_>,
    payload_base: u64,
) -> (agrees: Result<bool, ()>)
    requires
        layout.wf(),
        layout.mapped_in(old(mem).mem()),
        payload_base + PAYLOAD_SIZE <= u64::MAX,
    ensures
        agrees == Ok::<bool, ()>(true),
        old(mem).mem().same_mapping(final(mem).mem()),
        old(mem).mem().stored(final(mem).mem(), layout.drv_evt(), case.event().to_bytes()),
{
    let addr: u64 = layout.drv_evt_addr();
    let ghost first = mem.mem();
    proof {
        assert(mem.mem().maps(addr as int) && mem.mem().maps(addr + 3));
        desc::law_event_round_trip(case.event());
        desc::law_event_round_trip(EventSuppression { off_wrap: 0, flags: 0 });
    }
    let any = |index: u16, elem: BufferElement| -> (ok: bool)
        ensures
            ok,
        { true };
    match write_event(mem, addr, case.driver_event_off_wrap, case.driver_event_flags) {
        Ok(()) => {},
        Err(()) => return Err(()),
    }
    let _ = validate_canon_image(mem, layout, case.avail_descs, any);
    proof {
        assert(mem.mem().maps(addr as int) && mem.mem().maps(addr + 3));
    }
    match write_event(mem, addr, 0, 0) {
        Ok(()) => {},
        Err(()) => return Err(()),
    }
    let canon = validate_canon_image(mem, layout, case.avail_descs, any);
    let payload_end: u64 = payload_base + PAYLOAD_SIZE as u64;
    let inside = |index: u16, elem: BufferElement| -> (ok: bool)
        ensures
            ok == (payload_base <= elem.addr && elem.addr + elem.len <= payload_end),
        {
            elem.addr >= payload_base && match elem.addr.checked_add(elem.len as u64) {
                Some(end) => end <= payload_end,
                None => false,
            }
        };
    let _ = validate_canon_image(mem, layout, case.avail_descs, inside);
    let agrees = match canon {
        Ok(chains) => {
            let device = RingConsumer::new(layout);
            proof {
                let image = Ok::<Seq<(u16, Seq<BufferElement>)>, canonical::ImageError>(
                    canonical::chain_views(chains@),
                );
                let accept = choose|accept: spec_fn(u16, BufferElement) -> bool| #[trigger]
                    canonical::canon_image(mem.mem(), layout, case.avail_descs as int, accept)
                        == image;
                laws::law_canonical_image_is_taken_whole(
                    mem.mem(),
                    device,
                    case.avail_descs as int,
                    accept,
                );
            }
            takes_chains(mem, device, chains)
        },
        Err(_) => true,
    };
    proof {
        assert(mem.mem().maps(addr as int) && mem.mem().maps(addr + 3));
    }
    match write_event(mem, addr, case.driver_event_off_wrap, case.driver_event_flags) {
        Ok(()) => {},
        Err(()) => return Err(()),
    }
    Ok(agrees)
}

/// Where a mutation stores its value.
pub open spec fn mutation_offset(mutation: Seq<u8>, ring_size: int) -> int {
    le::le16(mutation.subrange(0, 2)) % (ring_size + PAYLOAD_SIZE)
}

/// Store the value of a mutation in the ring or in the payload.
pub fn mutate_memory(
    ring: &mut FuzzMem,
    payload: &mut FuzzMem,
    ring_size: usize,
    mutation: &[u8],
) -> (done: Result<(), ()>)
    requires
        mutation@.len() == 3,
        0 < ring_size <= 0x10_0000,
    ensures
        ({
            let offset = mutation_offset(mutation@, ring_size as int);
            let addr = (BASE_ADDR + offset) as u64;
            if offset < ring_size {
                &&& *final(payload) == *old(payload)
                &&& done is Ok <==> old(ring).holds(addr, 1)
                &&& done is Err ==> *final(ring) == *old(ring)
                &&& done is Ok ==> old(ring).mem().stored(
                    final(ring).mem(),
                    addr as int,
                    seq![mutation@[2]],
                )
            } else {
                &&& *final(ring) == *old(ring)
                &&& done is Ok <==> old(payload).holds(addr, 1)
                &&& done is Err ==> *final(payload) == *old(payload)
                &&& done is Ok ==> old(payload).mem().stored(
                    final(payload).mem(),
                    addr as int,
                    seq![mutation@[2]],
                )
            }
        }),
        old(ring).mem().same_mapping(final(ring).mem()),
        old(payload).mem().same_mapping(final(payload).mem()),
{
    let offset: usize = read_word(mutation, 0) as usize % (ring_size + PAYLOAD_SIZE);
    let addr: u64 = BASE_ADDR + offset as u64;
    let value = vstd::slice::slice_subrange(mutation, 2, 3);
    proof {
        assert(value@ =~= seq![mutation@[2]]);
    }
    if offset < ring_size {
        ring.write(addr, value)
    } else {
        payload.write(addr, value)
    }
}

/// Both memories serve what belongs to them.
pub open spec fn split_mapped(ring: MemView, payload: MemView, ring_size: int) -> bool {
    &&& ring.maps_all(BASE_ADDR as int, ring_size)
    &&& payload.maps_all(BASE_ADDR + ring_size, PAYLOAD_SIZE as int)
}

/// Apply the next mutation, if there is one.
fn mutate(
    ring: &mut FuzzMem,
    payload: &mut FuzzMem,
    ring_size: usize,
    mutations: &[u8],
    next: usize,
) -> (after: Result<usize, ()>)
    requires
        next <= mutations@.len(),
        0 < ring_size <= 0x10_0000,
        split_mapped(old(ring).mem(), old(payload).mem(), ring_size as int),
    ensures
        if mutations@.len() - next < 3 {
            &&& after == Ok::<usize, ()>(next)
            &&& *final(ring) == *old(ring)
            &&& *final(payload) == *old(payload)
        } else {
            let mutation = mutations@.subrange(next as int, next + 3);
            let offset = mutation_offset(mutation, ring_size as int);
            &&& after == Ok::<usize, ()>((next + 3) as usize)
            &&& if offset < ring_size {
                &&& *final(payload) == *old(payload)
                &&& old(ring).mem().stored(
                    final(ring).mem(),
                    BASE_ADDR + offset,
                    seq![mutation[2]],
                )
            } else {
                &&& *final(ring) == *old(ring)
                &&& old(payload).mem().stored(
                    final(payload).mem(),
                    BASE_ADDR + offset,
                    seq![mutation[2]],
                )
            }
        },
        old(ring).mem().same_mapping(final(ring).mem()),
        split_mapped(final(ring).mem(), final(payload).mem(), ring_size as int),
{
    if mutations.len() - next < 3 {
        return Ok(next);
    }
    let mutation = vstd::slice::slice_subrange(mutations, next, next + 3);
    proof {
        let offset = mutation_offset(mutation@, ring_size as int);
        if offset < ring_size {
            assert(ring.mem().maps(BASE_ADDR + offset));
        } else {
            assert(payload.mem().maps(BASE_ADDR + offset));
        }
    }
    match mutate_memory(ring, payload, ring_size, mutation) {
        Ok(()) => Ok(next + 3),
        Err(()) => Err(()),
    }
}

/// Serve the ring of a case while its memory changes between the steps. Fails where the ring
/// cannot be made; whatever the ring and the changes are, serving it does not.
pub fn fuzz_consumer(case: &FuzzCase<'_>) -> (served: Result<(), ()>)
    requires
        case.queue_size <= u16::MAX,
        case.io_len <= 256,
    ensures
        served is Ok <==> case.makeable(),
{
    let (layout, mut ring_mem) = match make_ring(case) {
        Ok(made) => made,
        Err(()) => return Err(()),
    };
    let ring_size: usize = Layout::query_size(case.queue_size);
    let mut payload_mem = FuzzMem::new(BASE_ADDR + ring_size as u64, PAYLOAD_SIZE);
    let mut consumer = VirtqConsumer::new(layout, NoopNotifier::new());
    let mut next: usize = 0;
    let mut bytes: Vec<u8> = vec![0u8; case.io_len];
    let mut polls: usize = 0;
    while polls < case.poll_count
        invariant
            case.makeable(),
            case.io_len <= 256,
            consumer.wf(),
            polls <= case.poll_count,
            next <= case.mutations@.len(),
            0 < ring_size <= 0x10_0000,
            split_mapped(ring_mem.mem(), payload_mem.mem(), ring_size as int),
        decreases case.poll_count - polls,
    {
        polls += 1;
        next = match mutate(&mut ring_mem, &mut payload_mem, ring_size, case.mutations, next) {
            Ok(next) => next,
            Err(()) => return Err(()),
        };
        let (mut recv, mut reply) = match consumer.poll(&mut ring_mem, PAYLOAD_SIZE) {
            Ok(Some(taken)) => taken,
            _ => continue,
        };
        let mut rounds: usize = 0;
        while rounds < 2
            invariant
                case.makeable(),
                consumer.wf(),
                recv.wf(),
                reply.wf(),
                rounds <= 2,
                next <= case.mutations@.len(),
                0 < ring_size <= 0x10_0000,
                split_mapped(ring_mem.mem(), payload_mem.mem(), ring_size as int),
            decreases 2 - rounds,
        {
            rounds += 1;
            next = match mutate(&mut ring_mem, &mut payload_mem, ring_size, case.mutations, next) {
                Ok(next) => next,
                Err(()) => return Err(()),
            };
            let _ = recv.read(&payload_mem, bytes.as_mut_slice());
            next = match mutate(&mut ring_mem, &mut payload_mem, ring_size, case.mutations, next) {
                Ok(next) => next,
                Err(()) => return Err(()),
            };
            reply = match reply {
                ReplyChain::Writable(writable) => {
                    let mut writable = writable;
                    let _ = writable.write(&mut payload_mem, bytes.as_slice());
                    ReplyChain::Writable(writable)
                },
                ReplyChain::Ack(ack) => ReplyChain::Ack(ack),
            };
        }
        next = match mutate(&mut ring_mem, &mut payload_mem, ring_size, case.mutations, next) {
            Ok(next) => next,
            Err(()) => return Err(()),
        };
        let _ = consumer.complete(&mut ring_mem, recv, reply);
    }
    Ok(())
}

/// Run a case: validate its ring, take and mark chains used, and serve it as a queue. A case is
/// kept if its ring can be made, as that of every case that parses can.
pub fn run_case(case: FuzzCase<'_>) -> (corpus: Corpus)
    requires
        case.queue_size <= u16::MAX,
        case.io_len <= 256,
    ensures
        corpus == if case.makeable() {
            Corpus::Keep
        } else {
            Corpus::Reject
        },
{
    let (layout, mut mem) = match make_ring(&case) {
        Ok(made) => made,
        Err(()) => return Corpus::Reject,
    };
    let payload_base: u64 = BASE_ADDR + Layout::query_size(case.queue_size) as u64;
    match fuzz_canon_image(&mut mem, layout, &case, payload_base) {
        Ok(true) => {},
        _ => return Corpus::Reject,
    }
    let mut consumer = RingConsumer::new(layout);
    let mut polls: usize = 0;
    while polls < case.poll_count
        invariant
            consumer.wf(),
            polls <= case.poll_count,
        decreases case.poll_count - polls,
    {
        polls += 1;
        let id: u16 = match consumer.poll_available(&mem) {
            Ok((id, _)) => id,
            Err(_) => break,
        };
        if consumer.submit_used_with_notify(&mut mem, id, case.written_len).is_err() {
            break;
        }
    }
    match fuzz_consumer(&case) {
        Ok(()) => Corpus::Keep,
        Err(()) => Corpus::Reject,
    }
}

/// A ring always has a power of two of descriptors within the limit: the one asked for, where
/// that is such a number, the limit where it is a greater power of two.
pub proof fn law_ring_has_a_power_of_two_of_descriptors(exponent: nat, raw: u16)
    ensures
        exists|k: nat| #[trigger] vstd::arithmetic::power2::pow2(k) == queue_size_of(raw),
        0 < queue_size_of(raw) <= MAX_QUEUE_SIZE,
        raw == vstd::arithmetic::power2::pow2(exponent) && raw <= MAX_QUEUE_SIZE ==> queue_size_of(
            raw,
        ) == raw,
        raw == vstd::arithmetic::power2::pow2(exponent) && raw > MAX_QUEUE_SIZE ==> queue_size_of(
            raw,
        ) == MAX_QUEUE_SIZE,
        (forall|k: nat| #[trigger] vstd::arithmetic::power2::pow2(k) != raw) ==> queue_size_of(raw)
            == DEFAULT_QUEUE_SIZE,
{
    vstd::arithmetic::power2::lemma2_to64();
    vstd::arithmetic::power2::lemma2_to64_rest();
    if exists|k: nat| #[trigger] vstd::arithmetic::power2::pow2(k) == raw {
        let k = choose|k: nat| #[trigger] vstd::arithmetic::power2::pow2(k) == raw;
        vstd::arithmetic::power2::lemma_pow2_pos(k);
    }
}

/// A mutation stores within the ring and the payload behind it.
pub proof fn law_mutation_stays_inside(mutation: Seq<u8>, ring_size: int)
    requires
        ring_size > 0,
    ensures
        0 <= mutation_offset(mutation, ring_size) < ring_size + PAYLOAD_SIZE,
        le::le16(mutation.subrange(0, 2)) < ring_size + PAYLOAD_SIZE ==> mutation_offset(
            mutation,
            ring_size,
        ) == le::le16(mutation.subrange(0, 2)),
{
    let at = le::le16(mutation.subrange(0, 2));
    vstd::arithmetic::div_mod::lemma_mod_bound(at, ring_size + PAYLOAD_SIZE);
    if at < ring_size + PAYLOAD_SIZE {
        vstd::arithmetic::div_mod::lemma_small_mod(at as nat, (ring_size + PAYLOAD_SIZE) as nat);
    }
}

/// The parts of an input follow each other and make it up: its header, its descriptors, and
/// its mutations.
pub proof fn law_input_parts_make_it_up(case: FuzzCase<'_>, data: Seq<u8>)
    requires
        parses(data),
        case.reads(data),
    ensures
        data.len() == HEADER_SIZE + DESC_SIZE * case.descs@.len() + case.mutations@.len(),
        case.descs@.len() <= case.queue_size,
        case.descs@.len() <= case.avail_descs,
        0 < case.io_len <= 256,
        case.poll_count <= MAX_POLLS,
        case.makeable(),
{
    law_ring_has_a_power_of_two_of_descriptors(0, word(data, 0));
}

/// The ring of a case holds its descriptors in their order, with addresses counted from where
/// the payload starts, and nothing behind them.
pub proof fn law_ring_holds_the_descriptors_of_the_case(case: FuzzCase<'_>, index: int)
    requires
        0 <= index,
        case.queue_size <= MAX_QUEUE_SIZE,
    ensures
        index < case.descs@.len() ==> {
            let shown = case.ring_desc(index);
            let asked = case.descs@[index];
            &&& shown.len == asked.len
            &&& shown.id == asked.id
            &&& shown.flags == asked.flags
            &&& case.payload_base() + asked.addr_offset >= 0 ==> shown.addr == case.payload_base()
                + asked.addr_offset
        },
        index >= case.descs@.len() ==> case.ring_desc(index) == (Descriptor {
            addr: 0,
            len: 0,
            id: 0,
            flags: 0,
        }),
        case.payload_base() == BASE_ADDR + 16 * case.queue_size + 8,
{
    if index < case.descs@.len() {
        let at = case.payload_base() + case.descs@[index].addr_offset;
        if at >= 0 {
            vstd::arithmetic::div_mod::lemma_small_mod(
                at as nat,
                0x1_0000_0000_0000_0000int as nat,
            );
        }
    }
}

/// An input that holds a header and as many descriptors as the ring could have parses; one
/// that is too short for its header does not.
pub proof fn law_long_enough_inputs_parse(data: Seq<u8>)
    ensures
        data.len() >= HEADER_SIZE + DESC_SIZE * MAX_QUEUE_SIZE ==> parses(data),
        data.len() < HEADER_SIZE ==> !parses(data),
        HEADER_SIZE <= data.len() < HEADER_SIZE + DESC_SIZE * desc_count(data) ==> !parses(data),
{
    law_ring_has_a_power_of_two_of_descriptors(0, word(data, 0));
}

} // verus!
