//! What holds between the two sides of a ring.

use vstd::prelude::*;

use super::super::access::MemView;
use super::super::desc;
use super::super::desc::Layout;
use super::canonical;
use super::consumer;
use super::producer;
use super::{BufferElement, RingConsumer, RingCursor, RingError, RingProducer, UsedBuffer};
use crate::le;

verus! {

/// What the driver makes available is what the device takes: after a chain was
/// published where the device looks next, the device sees that chain, whole and
/// unchanged, under the identifier it was published with.
pub proof fn law_published_chain_is_taken(
    before: MemView,
    after: MemView,
    device: RingConsumer,
    id: u16,
    elems: Seq<BufferElement>,
    split: int,
)
    requires
        device.wf(),
        0 < elems.len() <= device.layout.descs() - device.num_inflight,
        super::readable_first(elems, split),
        id < device.layout.descs(),
        device.id_num@[id as int] == 0,
        producer::published(before, after, device.layout, device.avail_cursor, id, elems),
    ensures
        device.avail_result(after) == Ok::<(u16, Seq<BufferElement>), RingError>((id, elems)),
{
    let layout = device.layout;
    let cursor = device.avail_cursor;
    let room = (layout.descs() - device.num_inflight) as nat;
    assert(cursor.step(0) == cursor);
    assert(desc::desc_in(after, layout.desc(cursor.step(0).head as int)) == producer::avail_desc(
        elems[0],
        id,
        1 < elems.len(),
        cursor.wrap,
    ));
    desc::lemma_avail_flags(1 < elems.len(), elems[0].writable, cursor.wrap);
    lemma_published_suffix(after, layout, cursor, id, elems, split, 0, room);
    assert(elems.skip(0) =~= elems);
}

/// The part of a published chain from buffer `k` on is the chain that starts there.
pub proof fn lemma_published_suffix(
    after: MemView,
    layout: Layout,
    cursor: RingCursor,
    id: u16,
    elems: Seq<BufferElement>,
    split: int,
    k: int,
    room: nat,
)
    requires
        cursor.wf(),
        0 <= k < elems.len() <= cursor.size,
        elems.len() - k <= room,
        super::readable_first(elems, split),
        forall|j: int|
            0 <= j < elems.len() ==> desc::desc_in(
                after,
                #[trigger] layout.desc(cursor.step(j).head as int),
            ) == producer::avail_desc(elems[j], id, j + 1 < elems.len(), cursor.step(j).wrap),
    ensures
        consumer::chain_at(after, layout, cursor.step(k), room, k > split) == Ok::<
            (u16, Seq<BufferElement>),
            RingError,
        >((id, elems.skip(k))),
    decreases elems.len() - k,
{
    let place = cursor.step(k);
    let item = desc::desc_in(after, layout.desc(place.head as int));
    let elem = elems[k];
    assert(item == producer::avail_desc(elem, id, k + 1 < elems.len(), place.wrap));
    desc::lemma_avail_flags(k + 1 < elems.len(), elem.writable, place.wrap);
    assert(super::element_of(item) == elem);
    assert(elem.writable == (k >= split));
    if k + 1 < elems.len() {
        super::lemma_steps_add(cursor, k, 1);
        lemma_published_suffix(after, layout, cursor, id, elems, split, k + 1, (room - 1) as nat);
        assert((k + 1 > split) == elem.writable);
        assert(seq![elem] + elems.skip(k + 1) =~= elems.skip(k));
    } else {
        assert(seq![elem] =~= elems.skip(k));
    }
}

/// What the device marks used is what the driver takes back: the same identifier
/// and the same written length.
pub proof fn law_used_chain_is_taken_back(
    before: MemView,
    after: MemView,
    device: RingConsumer,
    driver: RingProducer,
    id: u16,
    len: u32,
)
    requires
        device.wf(),
        driver.wf(),
        driver.layout == device.layout,
        driver.used_cursor == device.used_cursor,
        id < driver.layout.descs(),
        driver.id_num@[id as int] != 0,
        device.marked_used(before, after, id, len),
    ensures
        driver.used_result(after) == Ok::<UsedBuffer, RingError>(UsedBuffer { id, len }),
{
    let flags = desc::used_flags(device.used_cursor.wrap);
    desc::lemma_used_flags(device.used_cursor.wrap);
    lemma_used_desc(
        before,
        after,
        device.layout.desc(device.used_cursor.head as int),
        id,
        len,
        flags,
    );
}

/// A descriptor whose device part was stored holds that part.
pub proof fn lemma_used_desc(
    before: MemView,
    after: MemView,
    addr: int,
    id: u16,
    len: u32,
    flags: u16,
)
    requires
        before.stored(
            after,
            addr + 8,
            le::le32_bytes(len) + le::le16_bytes(id) + le::le16_bytes(flags),
        ),
    ensures
        desc::desc_in(after, addr).id == id,
        desc::desc_in(after, addr).len == len,
        desc::desc_in(after, addr).flags == flags,
{
    let src = le::le32_bytes(len) + le::le16_bytes(id) + le::le16_bytes(flags);
    desc::lemma_span_of_stored(before, after, addr + 8, src);
    le::law_le32_round_trip(len);
    le::law_le16_round_trip(id);
    le::law_le16_round_trip(flags);
    let s = after.span(addr, 16);
    assert(s.subrange(8, 12) =~= src.subrange(0, 4));
    assert(s.subrange(12, 14) =~= src.subrange(4, 6));
    assert(s.subrange(14, 16) =~= src.subrange(6, 8));
    assert(src.subrange(0, 4) =~= le::le32_bytes(len));
    assert(src.subrange(4, 6) =~= le::le16_bytes(id));
    assert(src.subrange(6, 8) =~= le::le16_bytes(flags));
}

/// A cleared ring is empty for both sides when they start over.
pub proof fn law_cleared_ring_is_empty(
    before: MemView,
    after: MemView,
    driver: RingProducer,
    device: RingConsumer,
    layout: Layout,
)
    requires
        producer::cleared(before, after, layout),
        driver.fresh(layout),
        device.fresh(layout),
    ensures
        driver.used_result(after) == Err::<UsedBuffer, RingError>(RingError::WouldBlock),
        device.avail_result(after) == Err::<(u16, Seq<BufferElement>), RingError>(
            RingError::WouldBlock,
        ),
{
    assert(layout.desc(0) == layout.desc(driver.used_cursor.head as int));
    lemma_zero_flags();
}

/// A descriptor of zeros is neither available nor used in the first round.
pub proof fn lemma_zero_flags()
    ensures
        !desc::avail_in(0, true),
        !desc::used_in(0, true),
{
    assert(0u16 & 0x80 == 0 && 0u16 & 0x8000 == 0) by (bit_vector);
}


/// A device that has taken the chains in the first `index` descriptors of an
/// image, under the identifiers in `seen`.
pub open spec fn took_prefix(device: RingConsumer, index: int, seen: Set<u16>) -> bool {
    &&& device.wf()
    &&& device.avail_cursor == RingCursor::start(device.layout.descs()).step(index)
    &&& device.num_inflight == index
    &&& forall|id: u16|
        id < device.layout.descs() ==> (device.id_num@[id as int] != 0) == #[trigger] seen.contains(
            id,
        )
}

/// A device that starts on a canonical image takes exactly the chains that
/// validation reports, in their order: having taken those before `index`, it takes
/// the first of the rest next, and finds nothing more after the last.
pub proof fn law_canonical_chains_are_taken_in_order(
    mem: MemView,
    device: RingConsumer,
    avail: int,
    index: int,
    seen: Set<u16>,
    accept: spec_fn(u16, BufferElement) -> bool,
)
    requires
        took_prefix(device, index, seen),
        0 <= index <= avail <= device.layout.descs(),
        canonical::canon_image(mem, device.layout, avail, accept) is Ok,
        canonical::canon_chains(mem, device.layout, index, avail, seen, accept) is Ok,
    ensures
        ({
            let rest = canonical::canon_chains(
                mem,
                device.layout,
                index,
                avail,
                seen,
                accept,
            )->Ok_0;
            &&& rest.len() > 0 ==> device.avail_result(mem) == Ok::<
                (u16, Seq<BufferElement>),
                RingError,
            >(rest[0])
            &&& rest.len() == 0 ==> device.avail_result(mem) == Err::<
                (u16, Seq<BufferElement>),
                RingError,
            >(RingError::WouldBlock)
            &&& rest.len() > 0 ==> forall|after: RingConsumer|
                after.wf() && device.after_poll(after, rest[0].0, rest[0].1.len() as int)
                    ==> took_prefix(
                    after,
                    index + rest[0].1.len(),
                    seen.insert(rest[0].0),
                ) && canonical::canon_chains(
                    mem,
                    device.layout,
                    index + rest[0].1.len(),
                    avail,
                    seen.insert(rest[0].0),
                    accept,
                ) == Ok::<Seq<(u16, Seq<BufferElement>)>, canonical::ImageError>(rest.skip(1))
        }),
{
    let layout = device.layout;
    let start = RingCursor::start(layout.descs());
    let rest = canonical::canon_chains(mem, layout, index, avail, seen, accept)->Ok_0;
    if index < avail {
        let head = canonical::canon_desc(mem, layout, index)->Ok_0;
        canonical::lemma_canon_chain_len(mem, layout, index, avail, head.id, false, accept);
        let elems = canonical::canon_chain(
            mem,
            layout,
            index,
            avail,
            head.id,
            false,
            accept,
        )->Ok_0;
        assert(rest[0] == (head.id, elems));
        assert(start.step(index).head == index && start.step(index).wrap);
        lemma_canonical_chain_is_chain(
            mem,
            layout,
            index,
            avail,
            head.id,
            false,
            accept,
            (layout.descs() - index) as nat,
        );
        let tail = canonical::canon_chains(
            mem,
            layout,
            index + elems.len(),
            avail,
            seen.insert(head.id),
            accept,
        )->Ok_0;
        assert(rest.skip(1) =~= tail);
        assert forall|after: RingConsumer|
            after.wf() && device.after_poll(after, rest[0].0, rest[0].1.len() as int) implies
            took_prefix(after, index + rest[0].1.len(), seen.insert(rest[0].0)) by {
            super::lemma_steps_add(start, index, elems.len() as int);
            assert forall|id: u16| id < after.layout.descs() implies (after.id_num@[id as int]
                != 0) == #[trigger] seen.insert(rest[0].0).contains(id) by {
                assert(seen.contains(id) == (device.id_num@[id as int] != 0));
            }
        }
    } else if index < layout.descs() {
        assert(start.step(index).head == index && start.step(index).wrap);
        lemma_zero_flags();
    } else {
        // The device wrapped round: the first descriptor was made available in the
        // round before.
        assert(start.step(index).head == 0 && !start.step(index).wrap);
        lemma_first_desc_is_canonical(mem, layout, avail, accept);
    }
}

/// A device takes exactly these chains, in their order, and finds nothing more after the last.
pub open spec fn takes(
    device: RingConsumer,
    mem: MemView,
    chains: Seq<(u16, Seq<BufferElement>)>,
) -> bool
    decreases chains.len(),
{
    if chains.len() == 0 {
        device.avail_result(mem) == Err::<(u16, Seq<BufferElement>), RingError>(
            RingError::WouldBlock,
        )
    } else {
        &&& device.avail_result(mem) == Ok::<(u16, Seq<BufferElement>), RingError>(chains[0])
        &&& forall|after: RingConsumer|
            after.wf() && #[trigger] device.after_poll(
                after,
                chains[0].0,
                chains[0].1.len() as int,
            ) ==> takes(after, mem, chains.skip(1))
    }
}

/// What a device takes depends on where it stands and on what it holds.
pub proof fn lemma_takes_same(
    a: RingConsumer,
    b: RingConsumer,
    mem: MemView,
    chains: Seq<(u16, Seq<BufferElement>)>,
)
    requires
        a.layout == b.layout,
        a.avail_cursor == b.avail_cursor,
        a.used_cursor == b.used_cursor,
        a.num_inflight == b.num_inflight,
        a.id_num@ == b.id_num@,
    ensures
        takes(a, mem, chains) == takes(b, mem, chains),
{
    if chains.len() > 0 {
        let (id, count) = (chains[0].0, chains[0].1.len() as int);
        assert forall|after: RingConsumer| #[trigger]
            a.after_poll(after, id, count) == b.after_poll(after, id, count) by {}
        assert forall|after: RingConsumer| #[trigger]
            b.after_poll(after, id, count) == a.after_poll(after, id, count) by {}
    }
}

/// A device that takes the first of some chains takes them all if it takes the rest from where
/// it then stands.
pub proof fn lemma_takes_next(
    device: RingConsumer,
    after: RingConsumer,
    mem: MemView,
    chains: Seq<(u16, Seq<BufferElement>)>,
)
    requires
        chains.len() > 0,
        device.avail_result(mem) == Ok::<(u16, Seq<BufferElement>), RingError>(chains[0]),
        after.wf(),
        device.after_poll(after, chains[0].0, chains[0].1.len() as int),
    ensures
        takes(device, mem, chains) == takes(after, mem, chains.skip(1)),
{
    if takes(after, mem, chains.skip(1)) {
        assert forall|other: RingConsumer|
            other.wf() && #[trigger] device.after_poll(
                other,
                chains[0].0,
                chains[0].1.len() as int,
            ) implies takes(other, mem, chains.skip(1)) by {
            lemma_takes_same(after, other, mem, chains.skip(1));
        }
    }
}

/// A device that starts on a canonical image takes exactly the chains that validation reports,
/// all of them and in their order.
pub proof fn law_canonical_image_is_taken_whole(
    mem: MemView,
    device: RingConsumer,
    avail: int,
    accept: spec_fn(u16, BufferElement) -> bool,
)
    requires
        device.fresh(device.layout),
        0 <= avail,
        canonical::canon_image(mem, device.layout, avail, accept) is Ok,
    ensures
        takes(device, mem, canonical::canon_image(mem, device.layout, avail, accept)->Ok_0),
{
    let start = RingCursor::start(device.layout.descs());
    assert(start.step(0) == start);
    assert(took_prefix(device, 0, Set::empty()));
    lemma_rest_is_taken(mem, device, avail, 0, Set::empty(), accept);
}

proof fn lemma_rest_is_taken(
    mem: MemView,
    device: RingConsumer,
    avail: int,
    index: int,
    seen: Set<u16>,
    accept: spec_fn(u16, BufferElement) -> bool,
)
    requires
        took_prefix(device, index, seen),
        0 <= index <= avail <= device.layout.descs(),
        canonical::canon_image(mem, device.layout, avail, accept) is Ok,
        canonical::canon_chains(mem, device.layout, index, avail, seen, accept) is Ok,
    ensures
        takes(
            device,
            mem,
            canonical::canon_chains(mem, device.layout, index, avail, seen, accept)->Ok_0,
        ),
    decreases avail - index,
{
    let layout = device.layout;
    let rest = canonical::canon_chains(mem, layout, index, avail, seen, accept)->Ok_0;
    law_canonical_chains_are_taken_in_order(mem, device, avail, index, seen, accept);
    if rest.len() > 0 {
        let head = canonical::canon_desc(mem, layout, index)->Ok_0;
        canonical::lemma_canon_chain_len(mem, layout, index, avail, head.id, false, accept);
        let count = rest[0].1.len() as int;
        assert forall|after: RingConsumer|
            after.wf() && #[trigger] device.after_poll(after, rest[0].0, count) implies takes(
            after,
            mem,
            rest.skip(1),
        ) by {
            lemma_rest_is_taken(
                mem,
                after,
                avail,
                index + count,
                seen.insert(rest[0].0),
                accept,
            );
        }
    }
}

proof fn lemma_first_desc_is_canonical(
    mem: MemView,
    layout: Layout,
    avail: int,
    accept: spec_fn(u16, BufferElement) -> bool,
)
    requires
        0 < avail,
        canonical::canon_chains(mem, layout, 0, avail, Set::empty(), accept) is Ok,
    ensures
        desc::avail_in(desc::desc_in(mem, layout.desc(0)).flags, true),
        !desc::avail_in(desc::desc_in(mem, layout.desc(0)).flags, false),
{
}

proof fn lemma_canonical_chain_is_chain(
    mem: MemView,
    layout: Layout,
    index: int,
    avail: int,
    id: u16,
    writing: bool,
    accept: spec_fn(u16, BufferElement) -> bool,
    room: nat,
)
    requires
        layout.wf(),
        0 <= index < avail <= layout.descs(),
        avail - index <= room,
        canonical::canon_chain(mem, layout, index, avail, id, writing, accept) is Ok,
    ensures
        consumer::chain_at(
            mem,
            layout,
            RingCursor::start(layout.descs()).step(index),
            room,
            writing,
        ) == Ok::<(u16, Seq<BufferElement>), RingError>(
            (id, canonical::canon_chain(mem, layout, index, avail, id, writing, accept)->Ok_0),
        ),
    decreases avail - index,
{
    let start = RingCursor::start(layout.descs());
    let item = desc::desc_in(mem, layout.desc(index));
    let elem = super::element_of(item);
    if item.flags & desc::DESC_NEXT != 0 {
        super::lemma_steps_add(start, index, 1);
        lemma_canonical_chain_is_chain(
            mem,
            layout,
            index + 1,
            avail,
            id,
            elem.writable,
            accept,
            (room - 1) as nat,
        );
    }
}

/// Descriptors from `index` on that are all zero hide nothing.
proof fn lemma_all_zero(mem: MemView, layout: Layout, index: int)
    requires
        0 <= index,
        forall|i: int|
            index <= i < layout.descs() ==> desc::desc_in(mem, #[trigger] layout.desc(i))
                == producer::zero_desc(),
    ensures
        canonical::first_nonzero(mem, layout, index) is None,
    decreases layout.descs() - index,
{
    if index < layout.descs() {
        assert(desc::desc_in(mem, layout.desc(index)) == producer::zero_desc());
        lemma_all_zero(mem, layout, index + 1);
    }
}

/// Where no descriptor from `index` on hides anything, all of them are zero.
proof fn lemma_zero_after(mem: MemView, layout: Layout, index: int, i: int)
    requires
        0 <= index <= i < layout.descs(),
        canonical::first_nonzero(mem, layout, index) is None,
    ensures
        desc::desc_in(mem, layout.desc(i)) == producer::zero_desc(),
    decreases i - index,
{
    if index < i {
        lemma_zero_after(mem, layout, index + 1, i);
    }
}

/// A ring that the driver cleared, and whose device asks for notifications, is a canonical
/// image without chains.
pub proof fn law_cleared_ring_is_canonical(
    before: MemView,
    after: MemView,
    layout: Layout,
    accept: spec_fn(u16, BufferElement) -> bool,
)
    requires
        producer::cleared(before, after, layout),
        canonical::canon_event(after, layout.dev_evt()),
    ensures
        canonical::canon_image(after, layout, 0, accept) == Ok::<
            Seq<(u16, Seq<BufferElement>)>,
            canonical::ImageError,
        >(Seq::empty()),
{
    lemma_all_zero(after, layout, 0);
}

/// Publishing behind a prefix leaves the descriptors of the prefix, those behind the chain
/// and both event suppressions as they were.
proof fn lemma_published_elsewhere(
    before: MemView,
    after: MemView,
    layout: Layout,
    avail: int,
    id: u16,
    elems: Seq<BufferElement>,
)
    requires
        layout.wf(),
        0 <= avail,
        avail + elems.len() <= layout.descs(),
        producer::published(
            before,
            after,
            layout,
            RingCursor::start(layout.descs()).step(avail),
            id,
            elems,
        ),
    ensures
        forall|i: int|
            0 <= i < avail || avail + elems.len() <= i < layout.descs() ==> desc::desc_in(
                after,
                #[trigger] layout.desc(i),
            ) == desc::desc_in(before, layout.desc(i)),
        desc::event_in(after, layout.drv_evt()) == desc::event_in(before, layout.drv_evt()),
        desc::event_in(after, layout.dev_evt()) == desc::event_in(before, layout.dev_evt()),
{
    let cursor = RingCursor::start(layout.descs()).step(avail);
    let n = elems.len() as int;
    assert forall|a: int|
        !(layout.desc(avail) <= a < layout.desc(avail + n)) implies #[trigger] after.byte(a)
        == before.byte(a) by {
        if producer::in_slots(layout, cursor, n, a) {
            let k = choose|k: int|
                0 <= k < n && #[trigger] layout.desc(cursor.step(k).head as int) <= a
                    < layout.desc(cursor.step(k).head as int) + 16;
            assert(cursor.step(k).head == avail + k);
        }
    }
    assert forall|i: int|
        0 <= i < avail || avail + elems.len() <= i < layout.descs() implies desc::desc_in(
        after,
        #[trigger] layout.desc(i),
    ) == desc::desc_in(before, layout.desc(i)) by {
        desc::lemma_span_same(before, after, layout.desc(i), 16);
    }
    desc::lemma_span_same(before, after, layout.drv_evt(), 4);
    desc::lemma_span_same(before, after, layout.dev_evt(), 4);
}

/// A chain inside a prefix is the same in an image with a longer prefix.
proof fn lemma_longer_prefix(
    before: MemView,
    after: MemView,
    layout: Layout,
    index: int,
    avail: int,
    more: int,
    id: u16,
    writing: bool,
    accept: spec_fn(u16, BufferElement) -> bool,
)
    requires
        0 <= index < avail <= more,
        forall|i: int|
            0 <= i < avail ==> desc::desc_in(after, #[trigger] layout.desc(i)) == desc::desc_in(
                before,
                layout.desc(i),
            ),
        canonical::canon_chain(before, layout, index, avail, id, writing, accept) is Ok,
    ensures
        canonical::canon_chain(after, layout, index, more, id, writing, accept)
            == canonical::canon_chain(before, layout, index, avail, id, writing, accept),
    decreases avail - index,
{
    assert(desc::desc_in(after, layout.desc(index)) == desc::desc_in(before, layout.desc(index)));
    let item = desc::desc_in(before, layout.desc(index));
    if item.flags & desc::DESC_NEXT != 0 {
        lemma_longer_prefix(
            before,
            after,
            layout,
            index + 1,
            avail,
            more,
            id,
            super::element_of(item).writable,
            accept,
        );
    }
}

/// The part of a published chain from buffer `k` on is a canonical chain.
proof fn lemma_published_is_canonical(
    after: MemView,
    layout: Layout,
    avail: int,
    id: u16,
    elems: Seq<BufferElement>,
    split: int,
    k: int,
    accept: spec_fn(u16, BufferElement) -> bool,
)
    requires
        0 <= avail,
        0 <= k < elems.len(),
        super::readable_first(elems, split),
        forall|j: int|
            0 <= j < elems.len() ==> desc::desc_in(after, #[trigger] layout.desc(avail + j))
                == producer::avail_desc(elems[j], id, j + 1 < elems.len(), true),
        forall|j: int| 0 <= j < elems.len() ==> accept((avail + j) as u16, #[trigger] elems[j]),
    ensures
        canonical::canon_chain(
            after,
            layout,
            avail + k,
            avail + elems.len(),
            id,
            k > split,
            accept,
        ) == Ok::<Seq<BufferElement>, canonical::ImageError>(elems.skip(k)),
    decreases elems.len() - k,
{
    let elem = elems[k];
    let item = desc::desc_in(after, layout.desc(avail + k));
    desc::lemma_avail_flags(k + 1 < elems.len(), elem.writable, true);
    assert(super::element_of(item) == elem);
    assert(elem.writable == (k >= split));
    assert(accept((avail + k) as u16, elem));
    if k + 1 < elems.len() {
        lemma_published_is_canonical(after, layout, avail, id, elems, split, k + 1, accept);
        assert((k + 1 > split) == elem.writable);
        assert(seq![elem] + elems.skip(k + 1) =~= elems.skip(k));
    } else {
        assert(seq![elem] =~= elems.skip(k));
    }
}

/// The chains from `index` on of an image to which a chain was added.
proof fn lemma_chains_extend(
    before: MemView,
    after: MemView,
    layout: Layout,
    index: int,
    avail: int,
    seen: Set<u16>,
    id: u16,
    elems: Seq<BufferElement>,
    split: int,
    accept: spec_fn(u16, BufferElement) -> bool,
)
    requires
        0 <= index <= avail,
        0 < elems.len(),
        super::readable_first(elems, split),
        id < layout.descs(),
        !seen.contains(id),
        forall|i: int|
            0 <= i < avail ==> desc::desc_in(after, #[trigger] layout.desc(i)) == desc::desc_in(
                before,
                layout.desc(i),
            ),
        forall|j: int|
            0 <= j < elems.len() ==> desc::desc_in(after, #[trigger] layout.desc(avail + j))
                == producer::avail_desc(elems[j], id, j + 1 < elems.len(), true),
        forall|j: int| 0 <= j < elems.len() ==> accept((avail + j) as u16, #[trigger] elems[j]),
        canonical::canon_chains(before, layout, index, avail, seen, accept) matches Ok(rest)
            && forall|i: int| 0 <= i < rest.len() ==> (#[trigger] rest[i]).0 != id,
    ensures
        canonical::canon_chains(after, layout, index, avail + elems.len(), seen, accept) == Ok::<
            Seq<(u16, Seq<BufferElement>)>,
            canonical::ImageError,
        >(canonical::canon_chains(before, layout, index, avail, seen, accept)->Ok_0.push((id, elems))),
    decreases avail - index,
{
    let more = avail + elems.len();
    let rest = canonical::canon_chains(before, layout, index, avail, seen, accept)->Ok_0;
    if index < avail {
        assert(desc::desc_in(after, layout.desc(index)) == desc::desc_in(
            before,
            layout.desc(index),
        ));
        let head = desc::desc_in(before, layout.desc(index));
        canonical::lemma_canon_chain_len(before, layout, index, avail, head.id, false, accept);
        let first = canonical::canon_chain(
            before,
            layout,
            index,
            avail,
            head.id,
            false,
            accept,
        )->Ok_0;
        lemma_longer_prefix(before, after, layout, index, avail, more, head.id, false, accept);
        let tail = canonical::canon_chains(
            before,
            layout,
            index + first.len(),
            avail,
            seen.insert(head.id),
            accept,
        )->Ok_0;
        assert(rest == seq![(head.id, first)] + tail);
        assert(rest[0].0 == head.id);
        assert forall|i: int| 0 <= i < tail.len() implies (#[trigger] tail[i]).0 != id by {
            assert(rest[i + 1] == tail[i]);
        }
        lemma_chains_extend(
            before,
            after,
            layout,
            index + first.len(),
            avail,
            seen.insert(head.id),
            id,
            elems,
            split,
            accept,
        );
        assert(seq![(head.id, first)] + tail.push((id, elems)) =~= rest.push((id, elems)));
    } else {
        assert(desc::desc_in(after, layout.desc(avail + 0)) == producer::avail_desc(
            elems[0],
            id,
            1 < elems.len(),
            true,
        ));
        desc::lemma_avail_flags(1 < elems.len(), elems[0].writable, true);
        lemma_published_is_canonical(after, layout, avail, id, elems, split, 0, accept);
        assert(elems.skip(0) =~= elems);
        let none = Seq::<(u16, Seq<BufferElement>)>::empty();
        assert(canonical::canon_chains(after, layout, more, more, seen.insert(id), accept)
            == Ok::<Seq<(u16, Seq<BufferElement>)>, canonical::ImageError>(none));
        assert(rest =~= none);
        assert(seq![(id, elems)] + none =~= none.push((id, elems)));
    }
}

/// Publishing a chain right behind the available prefix of a canonical image leaves a
/// canonical image, with that chain behind the others.
pub proof fn law_publishing_keeps_an_image_canonical(
    before: MemView,
    after: MemView,
    layout: Layout,
    avail: int,
    id: u16,
    elems: Seq<BufferElement>,
    split: int,
    accept: spec_fn(u16, BufferElement) -> bool,
)
    requires
        layout.wf(),
        0 <= avail,
        0 < elems.len(),
        avail + elems.len() <= layout.descs(),
        super::readable_first(elems, split),
        id < layout.descs(),
        canonical::canon_image(before, layout, avail, accept) matches Ok(chains) && forall|i: int|
            0 <= i < chains.len() ==> (#[trigger] chains[i]).0 != id,
        forall|k: int| 0 <= k < elems.len() ==> accept((avail + k) as u16, #[trigger] elems[k]),
        producer::published(
            before,
            after,
            layout,
            RingCursor::start(layout.descs()).step(avail),
            id,
            elems,
        ),
    ensures
        canonical::canon_image(after, layout, avail + elems.len(), accept) == Ok::<
            Seq<(u16, Seq<BufferElement>)>,
            canonical::ImageError,
        >(canonical::canon_image(before, layout, avail, accept)->Ok_0.push((id, elems))),
{
    let cursor = RingCursor::start(layout.descs()).step(avail);
    lemma_published_elsewhere(before, after, layout, avail, id, elems);
    assert forall|j: int| 0 <= j < elems.len() implies desc::desc_in(
        after,
        #[trigger] layout.desc(avail + j),
    ) == producer::avail_desc(elems[j], id, j + 1 < elems.len(), true) by {
        assert(cursor.step(j).head == avail + j && cursor.step(j).wrap);
        assert(desc::desc_in(after, layout.desc(cursor.step(j).head as int))
            == producer::avail_desc(elems[j], id, j + 1 < elems.len(), cursor.step(j).wrap));
    }
    lemma_chains_extend(
        before,
        after,
        layout,
        0,
        avail,
        Set::empty(),
        id,
        elems,
        split,
        accept,
    );
    let more = avail + elems.len();
    assert forall|i: int| more <= i < layout.descs() implies desc::desc_in(
        after,
        #[trigger] layout.desc(i),
    ) == producer::zero_desc() by {
        lemma_zero_after(before, layout, avail, i);
    }
    lemma_all_zero(after, layout, more);
}

} // verus!
