//! What holds of a ring while its driver and its device take turns.
//!
//! The positions of a ring count descriptors from the start of the first round on. Behind
//! what the driver took back stand the chains that the device marked used, then those that
//! it still holds, then those that it has not taken yet, then free descriptors.

use vstd::arithmetic::div_mod::*;
use vstd::prelude::*;
use vstd::seq_lib::*;

use super::super::access::MemView;
use super::super::desc;
use super::super::desc::{Descriptor, Layout};
use super::laws;
use super::producer;
use super::{BufferElement, RingConsumer, RingCursor, RingError, RingProducer, UsedBuffer};
use crate::le;

verus! {

/// A chain that the device marked used and the driver has not taken back.
pub struct UsedMark {
    pub id: u16,
    /// Bytes that the device wrote.
    pub len: u32,
    /// Descriptors of the chain.
    pub count: int,
}

/// A descriptor that the device has not taken yet.
pub struct AvailSlot {
    pub elem: BufferElement,
    pub id: u16,
    pub next: bool,
}

/// What is on its way between the two sides of a ring.
pub struct Traffic {
    /// Descriptors that the driver took back so far.
    pub base: int,
    /// Chains that the device marked used, the first one first.
    pub used: Seq<UsedMark>,
    /// Descriptors of chains that the device holds.
    pub taken: int,
    /// Chains that the device has not taken yet, the first one first.
    pub chains: Seq<(u16, Seq<BufferElement>)>,
}

/// What the descriptors of a used chain say: the first identifies it.
pub open spec fn mark_slots(mark: UsedMark) -> Seq<Option<(u16, u32)>> {
    Seq::new(
        mark.count as nat,
        |i: int|
            if i == 0 {
                Some((mark.id, mark.len))
            } else {
                None
            },
    )
}

/// What the descriptors of an available chain say.
pub open spec fn chain_slots(chain: (u16, Seq<BufferElement>)) -> Seq<AvailSlot> {
    Seq::new(
        chain.1.len(),
        |k: int| AvailSlot { elem: chain.1[k], id: chain.0, next: k + 1 < chain.1.len() },
    )
}

impl Traffic {
    /// What the descriptors of the used chains say.
    pub open spec fn marks(self) -> Seq<Option<(u16, u32)>> {
        self.used.map_values(|u: UsedMark| mark_slots(u)).flatten()
    }

    /// What the descriptors of the available chains say.
    pub open spec fn slots(self) -> Seq<AvailSlot> {
        self.chains.map_values(|c: (u16, Seq<BufferElement>)| chain_slots(c)).flatten()
    }

    /// The position behind the used chains.
    pub open spec fn used_end(self) -> int {
        self.base + self.marks().len()
    }

    /// The position behind the chains that the device holds.
    pub open spec fn taken_end(self) -> int {
        self.used_end() + self.taken
    }

    /// The position behind the available chains.
    pub open spec fn end(self) -> int {
        self.taken_end() + self.slots().len()
    }

    /// Nothing is on its way.
    pub open spec fn nothing() -> Traffic {
        Traffic { base: 0, used: Seq::empty(), taken: 0, chains: Seq::empty() }
    }

    /// The driver made a chain available.
    pub open spec fn submitted(self, id: u16, elems: Seq<BufferElement>) -> Traffic {
        Traffic { chains: self.chains.push((id, elems)), ..self }
    }

    /// The device took the first available chain.
    pub open spec fn received(self) -> Traffic {
        Traffic {
            taken: self.taken + self.chains[0].1.len(),
            chains: self.chains.drop_first(),
            ..self
        }
    }

    /// The device marked a chain of `count` descriptors used.
    pub open spec fn completed(self, id: u16, len: u32, count: int) -> Traffic {
        Traffic {
            used: self.used.push(UsedMark { id, len, count }),
            taken: self.taken - count,
            ..self
        }
    }

    /// The driver took the first used chain back.
    pub open spec fn reclaimed(self) -> Traffic {
        Traffic {
            base: self.base + self.used[0].count,
            used: self.used.drop_first(),
            ..self
        }
    }
}

/// Whether a position lies in a round that begins with wrap.
pub open spec fn wrap_at(size: int, pos: int) -> bool {
    (pos / size) % 2 == 0
}

/// The cursor at a position.
pub open spec fn cursor_at(size: u16, pos: int) -> RingCursor {
    RingCursor { head: (pos % size as int) as u16, size, wrap: wrap_at(size as int, pos) }
}

/// The descriptor at a position.
pub open spec fn desc_at(mem: MemView, layout: Layout, pos: int) -> Descriptor {
    desc::desc_in(mem, layout.desc(pos % layout.descs() as int))
}

/// Flags of a descriptor that was made available and not used since.
pub open spec fn mixed(flags: u16) -> bool {
    (flags & desc::DESC_AVAIL != 0) != (flags & desc::DESC_USED != 0)
}

/// The descriptor at the place of a mark says what the mark says.
pub open spec fn shows(item: Descriptor, mark: Option<(u16, u32)>, wrap: bool) -> bool {
    match mark {
        Some((id, len)) => item.id == id && item.len == len && item.flags == desc::used_flags(wrap),
        None => mixed(item.flags),
    }
}

/// Both sides stand where the traffic says.
pub open spec fn positioned(driver: RingProducer, device: RingConsumer, t: Traffic) -> bool {
    let n = driver.layout.descs();
    &&& driver.wf()
    &&& device.wf()
    &&& device.layout == driver.layout
    &&& 0 <= t.base
    &&& 0 <= t.taken
    &&& driver.used_cursor == cursor_at(n, t.base)
    &&& device.used_cursor == cursor_at(n, t.used_end())
    &&& device.avail_cursor == cursor_at(n, t.taken_end())
    &&& driver.avail_cursor == cursor_at(n, t.end())
    &&& device.num_inflight == t.taken
    &&& driver.num_free == n - (t.end() - t.base)
}

/// A used chain and what both sides count for it.
pub open spec fn mark_known(driver: RingProducer, device: RingConsumer, mark: UsedMark) -> bool {
    &&& mark.id < driver.layout.descs()
    &&& mark.count > 0
    &&& driver.id_num@[mark.id as int] == mark.count
    &&& device.id_num@[mark.id as int] == 0
}

/// An available chain and what both sides count for it.
pub open spec fn chain_known(
    driver: RingProducer,
    device: RingConsumer,
    chain: (u16, Seq<BufferElement>),
) -> bool {
    &&& chain.0 < driver.layout.descs()
    &&& chain.1.len() > 0
    &&& driver.id_num@[chain.0 as int] == chain.1.len()
    &&& device.id_num@[chain.0 as int] == 0
    &&& exists|split: int| #[trigger] super::readable_first(chain.1, split)
}

/// Every chain on its way has an identifier of its own, under which both sides count its
/// descriptors.
pub open spec fn identified(driver: RingProducer, device: RingConsumer, t: Traffic) -> bool {
    &&& forall|i: int| 0 <= i < t.used.len() ==> mark_known(driver, device, #[trigger] t.used[i])
    &&& forall|i: int|
        0 <= i < t.chains.len() ==> chain_known(driver, device, #[trigger] t.chains[i])
    &&& forall|id: int|
        0 <= id < device.id_num@.len() && (#[trigger] device.id_num@[id]) != 0
            ==> driver.id_num@[id] == device.id_num@[id]
    &&& forall|i: int, j: int|
        0 <= i < t.used.len() && 0 <= j < t.used.len() && i != j ==> (#[trigger] t.used[i]).id != (
        #[trigger] t.used[j]).id
    &&& forall|i: int, j: int|
        0 <= i < t.chains.len() && 0 <= j < t.chains.len() && i != j ==> (
        #[trigger] t.chains[i]).0 != (#[trigger] t.chains[j]).0
    &&& forall|i: int, j: int|
        0 <= i < t.used.len() && 0 <= j < t.chains.len() ==> (#[trigger] t.used[i]).id != (
        #[trigger] t.chains[j]).0
}

/// Memory shows the traffic: used and available chains stand at their positions, and no
/// other descriptor looks used to the driver or available to the device.
pub open spec fn written(mem: MemView, layout: Layout, t: Traffic) -> bool {
    let n = layout.descs() as int;
    &&& forall|p: int|
        t.base <= p < t.used_end() ==> shows(
            #[trigger] desc_at(mem, layout, p),
            t.marks()[p - t.base],
            wrap_at(n, p),
        )
    &&& forall|p: int|
        t.used_end() <= p < t.end() ==> mixed((#[trigger] desc_at(mem, layout, p)).flags)
    &&& forall|p: int|
        t.end() <= p < t.base + n ==> !desc::used_in(
            (#[trigger] desc_at(mem, layout, p)).flags,
            wrap_at(n, p),
        )
    &&& forall|p: int|
        t.taken_end() <= p < t.end() ==> (#[trigger] desc_at(mem, layout, p))
            == producer::avail_desc(
            t.slots()[p - t.taken_end()].elem,
            t.slots()[p - t.taken_end()].id,
            t.slots()[p - t.taken_end()].next,
            wrap_at(n, p),
        )
    &&& forall|p: int|
        t.end() <= p < t.taken_end() + n ==> !desc::avail_in(
            (#[trigger] desc_at(mem, layout, p)).flags,
            wrap_at(n, p),
        )
}

/// Driver, device and memory agree on what is on its way.
pub open spec fn coherent(
    driver: RingProducer,
    device: RingConsumer,
    mem: MemView,
    t: Traffic,
) -> bool {
    &&& positioned(driver, device, t)
    &&& identified(driver, device, t)
    &&& written(mem, driver.layout, t)
}

/// A position some descriptors on.
proof fn lemma_cursor_step(size: u16, pos: int, count: int)
    requires
        0 < size,
        0 <= pos,
        0 <= count <= size,
    ensures
        cursor_at(size, pos).step(count) == cursor_at(size, pos + count),
        cursor_at(size, pos).head == pos % size as int,
        cursor_at(size, pos).head < size,
{
    let n = size as int;
    let q = pos / n;
    let r = pos % n;
    lemma_fundamental_div_mod(pos, n);
    lemma_mod_bound(pos, n);
    assert(n * (q + 1) == n * q + n) by (nonlinear_arith);
    if r + count < n {
        lemma_fundamental_div_mod_converse(pos + count, n, q, r + count);
    } else if r + count < 2 * n {
        lemma_fundamental_div_mod_converse(pos + count, n, q + 1, r + count - n);
    }
}

/// A round later the wrap is the other one.
proof fn lemma_next_round(size: int, pos: int)
    requires
        0 < size,
        0 <= pos,
    ensures
        (pos + size) % size == pos % size,
        wrap_at(size, pos + size) == !wrap_at(size, pos),
{
    let q = pos / size;
    let r = pos % size;
    lemma_fundamental_div_mod(pos, size);
    lemma_mod_bound(pos, size);
    assert(size * (q + 1) == size * q + size) by (nonlinear_arith);
    lemma_fundamental_div_mod_converse(pos + size, size, q + 1, r);
}

/// Positions less than a round apart are different descriptors.
proof fn lemma_places_differ(size: int, p: int, q: int)
    requires
        0 < size,
        0 <= p < q < p + size,
    ensures
        p % size != q % size,
{
    lemma_fundamental_div_mod(p, size);
    lemma_fundamental_div_mod(q, size);
    if p % size == q % size {
        let a = p / size;
        let b = q / size;
        assert(size * b - size * a == q - p);
        assert(0 < size * (b - a) < size) by (nonlinear_arith)
            requires
                size * b - size * a == q - p,
                0 < q - p < size,
        ;
        assert(false) by (nonlinear_arith)
            requires
                0 < size * (b - a) < size,
                size > 0,
        ;
    }
}

/// One chain more behind the others.
proof fn lemma_slots_push(t: Traffic, id: u16, elems: Seq<BufferElement>)
    ensures
        t.submitted(id, elems).slots() == t.slots() + chain_slots((id, elems)),
        t.submitted(id, elems).marks() == t.marks(),
{
    let f = |c: (u16, Seq<BufferElement>)| chain_slots(c);
    let all = t.chains.map_values(f);
    assert(t.submitted(id, elems).chains.map_values(f) =~= all.push(chain_slots((id, elems))));
    all.lemma_flatten_push(chain_slots((id, elems)));
}

/// The first chain's descriptors come first.
proof fn lemma_slots_first(t: Traffic)
    requires
        t.chains.len() > 0,
    ensures
        t.slots() == chain_slots(t.chains[0]) + t.received().slots(),
        t.received().marks() == t.marks(),
{
    let f = |c: (u16, Seq<BufferElement>)| chain_slots(c);
    let all = t.chains.map_values(f);
    assert(all.drop_first() =~= t.chains.drop_first().map_values(f));
    assert(all.first() == chain_slots(t.chains[0]));
}

/// One used chain more behind the others.
proof fn lemma_marks_push(t: Traffic, id: u16, len: u32, count: int)
    ensures
        t.completed(id, len, count).marks() == t.marks() + mark_slots(
            UsedMark { id, len, count },
        ),
        t.completed(id, len, count).slots() == t.slots(),
{
    let f = |u: UsedMark| mark_slots(u);
    let all = t.used.map_values(f);
    let mark = UsedMark { id, len, count };
    assert(t.completed(id, len, count).used.map_values(f) =~= all.push(mark_slots(mark)));
    all.lemma_flatten_push(mark_slots(mark));
}

/// The first used chain's descriptors come first.
proof fn lemma_marks_first(t: Traffic)
    requires
        t.used.len() > 0,
    ensures
        t.marks() == mark_slots(t.used[0]) + t.reclaimed().marks(),
        t.reclaimed().slots() == t.slots(),
{
    let f = |u: UsedMark| mark_slots(u);
    let all = t.used.map_values(f);
    assert(all.drop_first() =~= t.used.drop_first().map_values(f));
    assert(all.first() == mark_slots(t.used[0]));
}

/// An address in a descriptor less than a round away from a chain is in none of the chain's
/// descriptors.
proof fn lemma_outside_slots(layout: Layout, end: int, count: int, p: int, a: int)
    requires
        layout.wf(),
        0 <= end,
        0 <= count <= layout.descs(),
        0 <= p,
        end + count - layout.descs() <= p < end || end + count <= p < end + layout.descs(),
        layout.desc(p % layout.descs() as int) <= a < layout.desc(p % layout.descs() as int) + 16,
    ensures
        !producer::in_slots(layout, cursor_at(layout.descs(), end), count, a),
{
    let n = layout.descs() as int;
    let cursor = cursor_at(layout.descs(), end);
    assert forall|k: int| 0 <= k < count implies !(#[trigger] layout.desc(
        cursor.step(k).head as int,
    ) <= a < layout.desc(cursor.step(k).head as int) + 16) by {
        lemma_cursor_step(layout.descs(), end, k);
        lemma_cursor_step(layout.descs(), end + k, 0);
        if p < end {
            lemma_places_differ(n, p, end + k);
        } else {
            lemma_places_differ(n, end + k, p);
        }
    }
}

/// A chain was made available from a position on.
#[verifier::opaque]
spec fn published_at(
    before: MemView,
    after: MemView,
    layout: Layout,
    end: int,
    id: u16,
    elems: Seq<BufferElement>,
) -> bool {
    producer::published(before, after, layout, cursor_at(layout.descs(), end), id, elems)
}

/// Making a chain available leaves the descriptors less than a round away as they were.
proof fn lemma_published_elsewhere(
    before: MemView,
    after: MemView,
    layout: Layout,
    end: int,
    id: u16,
    elems: Seq<BufferElement>,
    p: int,
)
    requires
        layout.wf(),
        0 <= end,
        elems.len() <= layout.descs(),
        published_at(before, after, layout, end, id, elems),
        0 <= p,
        end + elems.len() - layout.descs() <= p < end || end + elems.len() <= p < end
            + layout.descs(),
    ensures
        desc_at(after, layout, p) == desc_at(before, layout, p),
{
    reveal(published_at);
    let addr = layout.desc(p % layout.descs() as int);
    assert forall|a: int| addr <= a < addr + 16 implies (#[trigger] after.byte(a)) == before.byte(
        a,
    ) by {
        lemma_outside_slots(layout, end, elems.len() as int, p, a);
    }
    desc::lemma_span_same(before, after, addr, 16);
}

/// Making a chain available shows each buffer at its place.
proof fn lemma_published_place(
    before: MemView,
    after: MemView,
    layout: Layout,
    end: int,
    id: u16,
    elems: Seq<BufferElement>,
    k: int,
)
    requires
        layout.wf(),
        0 <= end,
        elems.len() <= layout.descs(),
        published_at(before, after, layout, end, id, elems),
        0 <= k < elems.len(),
    ensures
        desc_at(after, layout, end + k) == producer::avail_desc(
            elems[k],
            id,
            k + 1 < elems.len(),
            wrap_at(layout.descs() as int, end + k),
        ),
{
    reveal(published_at);
    let cursor = cursor_at(layout.descs(), end);
    lemma_cursor_step(layout.descs(), end, k);
    lemma_cursor_step(layout.descs(), end + k, 0);
    assert(layout.desc(cursor.step(k).head as int) == layout.desc(
        (end + k) % layout.descs() as int,
    ));
}

/// Making a chain available shows that chain from the end of the traffic on, and changes no
/// other descriptor.
proof fn lemma_published_at(
    before: MemView,
    after: MemView,
    layout: Layout,
    end: int,
    id: u16,
    elems: Seq<BufferElement>,
)
    requires
        layout.wf(),
        0 <= end,
        elems.len() <= layout.descs(),
        published_at(before, after, layout, end, id, elems),
    ensures
        forall|p: int|
            end <= p < end + elems.len() ==> (#[trigger] desc_at(after, layout, p))
                == producer::avail_desc(
                elems[p - end],
                id,
                p - end + 1 < elems.len(),
                wrap_at(layout.descs() as int, p),
            ),
        forall|p: int|
            0 <= p && (end + elems.len() - layout.descs() <= p < end || end + elems.len() <= p < end
                + layout.descs()) ==> (#[trigger] desc_at(after, layout, p)) == desc_at(
                before,
                layout,
                p,
            ),
{
    let n = layout.descs() as int;
    assert forall|p: int| end <= p < end + elems.len() implies (#[trigger] desc_at(
        after,
        layout,
        p,
    )) == producer::avail_desc(
        elems[p - end],
        id,
        p - end + 1 < elems.len(),
        wrap_at(n, p),
    ) by {
        lemma_published_place(before, after, layout, end, id, elems, p - end);
    }
    assert forall|p: int|
        0 <= p && (end + elems.len() - n <= p < end || end + elems.len() <= p < end + n) implies (
    #[trigger] desc_at(after, layout, p)) == desc_at(before, layout, p) by {
        lemma_published_elsewhere(before, after, layout, end, id, elems, p);
    }
}

/// Marking a chain used shows the mark at the place of the mark, and changes no other
/// descriptor.
proof fn lemma_marked_at(
    before: MemView,
    after: MemView,
    device: RingConsumer,
    place: int,
    id: u16,
    len: u32,
)
    requires
        device.wf(),
        0 <= place,
        device.used_cursor == cursor_at(device.layout.descs(), place),
        device.marked_used(before, after, id, len),
    ensures
        shows(
            desc_at(after, device.layout, place),
            Some((id, len)),
            wrap_at(device.layout.descs() as int, place),
        ),
        forall|p: int|
            0 <= p && (place - device.layout.descs() < p < place || place < p < place
                + device.layout.descs()) ==> (#[trigger] desc_at(after, device.layout, p))
                == desc_at(before, device.layout, p),
{
    let layout = device.layout;
    let n = layout.descs() as int;
    lemma_cursor_step(layout.descs(), place, 0);
    let addr = layout.desc(place % n);
    let flags = desc::used_flags(device.used_cursor.wrap);
    let src = le::le32_bytes(len) + le::le16_bytes(id) + le::le16_bytes(flags);
    laws::lemma_used_desc(before, after, addr, id, len, flags);
    assert(src.len() == 8);
    assert forall|p: int| 0 <= p && (place - n < p < place || place < p < place + n) implies (
    #[trigger] desc_at(after, layout, p)) == desc_at(before, layout, p) by {
        lemma_cursor_step(layout.descs(), p, 0);
        if p < place {
            lemma_places_differ(n, p, place);
        } else {
            lemma_places_differ(n, place, p);
        }
        desc::lemma_span_same(before, after, layout.desc(p % n), 16);
    }
}

/// A ring of zeros between a driver and a device that both start is coherent: nothing is on
/// its way.
pub proof fn law_fresh_ring_is_coherent(driver: RingProducer, device: RingConsumer, mem: MemView)
    requires
        driver.fresh(driver.layout),
        device.fresh(driver.layout),
        forall|i: int|
            0 <= i < driver.layout.descs() ==> desc::desc_in(mem, #[trigger] driver.layout.desc(i))
                == producer::zero_desc(),
    ensures
        coherent(driver, device, mem, Traffic::nothing()),
{
    let t = Traffic::nothing();
    let layout = driver.layout;
    let n = layout.descs() as int;
    let marks = t.used.map_values(|u: UsedMark| mark_slots(u));
    let slots = t.chains.map_values(|c: (u16, Seq<BufferElement>)| chain_slots(c));
    assert(marks.len() == 0 && slots.len() == 0);
    assert(t.marks().len() == 0 && t.slots().len() == 0);
    assert(0int % n == 0 && 0int / n == 0) by {
        lemma_fundamental_div_mod_converse(0, n, 0, 0);
    }
    assert forall|p: int| 0 <= p < n implies (#[trigger] desc_at(mem, layout, p))
        == producer::zero_desc() && wrap_at(n, p) by {
        assert(n * 0 == 0) by (nonlinear_arith);
        lemma_fundamental_div_mod_converse(p, n, 0, p);
        assert(desc::desc_in(mem, layout.desc(p)) == producer::zero_desc());
    }
    laws::lemma_zero_flags();
}

/// Making a chain available appends it to the chains that the device has not taken yet.
pub proof fn law_submitting_appends_a_chain(
    driver: RingProducer,
    after_driver: RingProducer,
    device: RingConsumer,
    before: MemView,
    after: MemView,
    t: Traffic,
    id: u16,
    elems: Seq<BufferElement>,
    split: int,
)
    requires
        coherent(driver, device, before, t),
        after_driver.wf(),
        0 < elems.len() <= driver.num_free,
        super::readable_first(elems, split),
        id == driver.id_free@.last(),
        driver.after_submit(after_driver, elems.len() as int),
        producer::published(before, after, driver.layout, driver.avail_cursor, id, elems),
    ensures
        coherent(after_driver, device, after, t.submitted(id, elems)),
{
    let layout = driver.layout;
    let n = layout.descs() as int;
    let count = elems.len() as int;
    let next = t.submitted(id, elems);
    super::lemma_counts_nonneg(driver.id_num@);
    assert(driver.id_free@.len() > 0);
    assert(driver.id_free@[driver.id_free@.len() - 1] == id);
    lemma_slots_push(t, id, elems);
    lemma_cursor_step(layout.descs(), t.end(), count);
    assert(published_at(before, after, layout, t.end(), id, elems)) by {
        reveal(published_at);
    }
    lemma_published_at(before, after, layout, t.end(), id, elems);
    assert(chain_known(after_driver, device, (id, elems)));
    assert forall|i: int| 0 <= i < next.used.len() implies mark_known(
        after_driver,
        device,
        #[trigger] next.used[i],
    ) by {
        assert(mark_known(driver, device, t.used[i]));
    }
    assert forall|i: int| 0 <= i < next.chains.len() implies chain_known(
        after_driver,
        device,
        #[trigger] next.chains[i],
    ) by {
        if i < t.chains.len() {
            assert(chain_known(driver, device, t.chains[i]));
        }
    }
    assert(identified(after_driver, device, next)) by {
        assert forall|i: int, j: int|
            0 <= i < next.chains.len() && 0 <= j < next.chains.len() && i != j implies (
        #[trigger] next.chains[i]).0 != (#[trigger] next.chains[j]).0 by {
            if i < t.chains.len() {
                assert(chain_known(driver, device, t.chains[i]));
            }
            if j < t.chains.len() {
                assert(chain_known(driver, device, t.chains[j]));
            }
        }
        assert forall|i: int, j: int|
            0 <= i < next.used.len() && 0 <= j < next.chains.len() implies (
        #[trigger] next.used[i]).id != (#[trigger] next.chains[j]).0 by {
            assert(mark_known(driver, device, t.used[i]));
        }
    }
    assert forall|p: int| next.used_end() <= p < next.end() implies mixed(
        (#[trigger] desc_at(after, layout, p)).flags,
    ) by {
        if p >= t.end() {
            let k = p - t.end();
            desc::lemma_avail_flags(k + 1 < count, elems[k].writable, wrap_at(n, p));
        }
    }
    assert forall|p: int| next.taken_end() <= p < next.end() implies (#[trigger] desc_at(
        after,
        layout,
        p,
    )) == producer::avail_desc(
        next.slots()[p - next.taken_end()].elem,
        next.slots()[p - next.taken_end()].id,
        next.slots()[p - next.taken_end()].next,
        wrap_at(n, p),
    ) by {
        if p >= t.end() {
            let k = p - t.end();
            assert(next.slots()[p - t.taken_end()] == chain_slots((id, elems))[k]);
        } else {
            assert(desc_at(before, layout, p) == desc_at(after, layout, p));
        }
    }
    assert(written(after, layout, next));
}

/// The device takes the available chains in the order in which they were made available,
/// whole and unchanged, and finds nothing where there is none.
pub proof fn law_device_takes_the_first_chain(
    driver: RingProducer,
    device: RingConsumer,
    mem: MemView,
    t: Traffic,
)
    requires
        coherent(driver, device, mem, t),
    ensures
        device.avail_result(mem) == if t.chains.len() == 0 {
            Err::<(u16, Seq<BufferElement>), RingError>(RingError::WouldBlock)
        } else {
            Ok(t.chains[0])
        },
{
    let layout = driver.layout;
    let n = layout.descs() as int;
    lemma_cursor_step(layout.descs(), t.taken_end(), 0);
    assert(desc_at(mem, layout, t.taken_end()) == desc::desc_in(
        mem,
        layout.desc(device.avail_cursor.head as int),
    ));
    if t.chains.len() == 0 {
        assert(t.chains.map_values(|c: (u16, Seq<BufferElement>)| chain_slots(c)).len() == 0);
        assert(t.slots().len() == 0);
    } else {
        let (id, elems) = t.chains[0];
        assert(chain_known(driver, device, t.chains[0]));
        let split = choose|split: int| #[trigger] super::readable_first(elems, split);
        lemma_slots_first(t);
        let cursor = device.avail_cursor;
        let room = (n - device.num_inflight) as nat;
        assert forall|j: int| 0 <= j < elems.len() implies desc::desc_in(
            mem,
            #[trigger] layout.desc(cursor.step(j).head as int),
        ) == producer::avail_desc(elems[j], id, j + 1 < elems.len(), cursor.step(j).wrap) by {
            let p = t.taken_end() + j;
            lemma_cursor_step(layout.descs(), t.taken_end(), j);
            lemma_cursor_step(layout.descs(), p, 0);
            assert(t.slots()[j] == chain_slots(t.chains[0])[j]);
            assert(desc_at(mem, layout, p) == producer::avail_desc(
                t.slots()[p - t.taken_end()].elem,
                t.slots()[p - t.taken_end()].id,
                t.slots()[p - t.taken_end()].next,
                wrap_at(n, p),
            ));
        }
        assert(cursor.step(0) == cursor);
        assert(layout.desc(cursor.step(0).head as int) == layout.desc(cursor.head as int));
        desc::lemma_avail_flags(1 < elems.len(), elems[0].writable, cursor.wrap);
        laws::lemma_published_suffix(mem, layout, cursor, id, elems, split, 0, room);
        assert(elems.skip(0) =~= elems);
    }
}

/// Taking a chain moves it from the available ones to those that the device holds.
pub proof fn law_taking_removes_the_first_chain(
    driver: RingProducer,
    device: RingConsumer,
    after_device: RingConsumer,
    mem: MemView,
    t: Traffic,
)
    requires
        coherent(driver, device, mem, t),
        t.chains.len() > 0,
        after_device.wf(),
        device.after_poll(after_device, t.chains[0].0, t.chains[0].1.len() as int),
    ensures
        coherent(driver, after_device, mem, t.received()),
{
    let layout = driver.layout;
    let n = layout.descs() as int;
    let next = t.received();
    let (id, elems) = t.chains[0];
    let count = elems.len() as int;
    assert(chain_known(driver, device, t.chains[0]));
    lemma_slots_first(t);
    lemma_cursor_step(layout.descs(), t.taken_end(), count);
    assert(next.taken_end() == t.taken_end() + count);
    assert(next.end() == t.end());
    assert forall|i: int| 0 <= i < next.used.len() implies mark_known(
        driver,
        after_device,
        #[trigger] next.used[i],
    ) by {
        assert(mark_known(driver, device, t.used[i]));
        assert(t.used[i].id != t.chains[0].0);
    }
    assert forall|i: int| 0 <= i < next.chains.len() implies chain_known(
        driver,
        after_device,
        #[trigger] next.chains[i],
    ) by {
        assert(next.chains[i] == t.chains[i + 1]);
        assert(chain_known(driver, device, t.chains[i + 1]));
        assert(t.chains[i + 1].0 != t.chains[0].0);
    }
    assert(identified(driver, after_device, next)) by {
        assert forall|i: int, j: int|
            0 <= i < next.chains.len() && 0 <= j < next.chains.len() && i != j implies (
        #[trigger] next.chains[i]).0 != (#[trigger] next.chains[j]).0 by {
            assert(next.chains[i] == t.chains[i + 1] && next.chains[j] == t.chains[j + 1]);
        }
        assert forall|i: int, j: int|
            0 <= i < next.used.len() && 0 <= j < next.chains.len() implies (
        #[trigger] next.used[i]).id != (#[trigger] next.chains[j]).0 by {
            assert(next.chains[j] == t.chains[j + 1]);
        }
    }
    assert forall|p: int| next.taken_end() <= p < next.end() implies (#[trigger] desc_at(
        mem,
        layout,
        p,
    )) == producer::avail_desc(
        next.slots()[p - next.taken_end()].elem,
        next.slots()[p - next.taken_end()].id,
        next.slots()[p - next.taken_end()].next,
        wrap_at(n, p),
    ) by {
        assert(next.slots()[p - next.taken_end()] == t.slots()[p - t.taken_end()]);
    }
    assert forall|p: int| next.end() <= p < next.taken_end() + n implies !desc::avail_in(
        (#[trigger] desc_at(mem, layout, p)).flags,
        wrap_at(n, p),
    ) by {
        if p >= t.taken_end() + n {
            let k = p - n - t.taken_end();
            lemma_next_round(n, p - n);
            assert(desc_at(mem, layout, p) == desc_at(mem, layout, p - n));
            assert(t.slots()[k] == chain_slots(t.chains[0])[k]);
            desc::lemma_avail_flags(k + 1 < count, elems[k].writable, wrap_at(n, p - n));
        }
    }
    assert(written(mem, layout, next));
}

/// Marking a chain used appends it to the chains that the driver has not taken back.
pub proof fn law_completing_appends_a_mark(
    driver: RingProducer,
    device: RingConsumer,
    after_device: RingConsumer,
    before: MemView,
    after: MemView,
    t: Traffic,
    id: u16,
    len: u32,
)
    requires
        coherent(driver, device, before, t),
        device.holds(id),
        after_device.wf(),
        device.after_used(after_device, id),
        device.marked_used(before, after, id, len),
    ensures
        coherent(
            driver,
            after_device,
            after,
            t.completed(id, len, device.id_num@[id as int] as int),
        ),
{
    let layout = driver.layout;
    let n = layout.descs() as int;
    let count = device.id_num@[id as int] as int;
    let next = t.completed(id, len, count);
    let mark = UsedMark { id, len, count };
    super::lemma_counts_bound(device.id_num@, id as int);
    lemma_marks_push(t, id, len, count);
    lemma_cursor_step(layout.descs(), t.used_end(), count);
    lemma_marked_at(before, after, device, t.used_end(), id, len);
    assert(driver.id_num@[id as int] == count);
    assert(next.taken_end() == t.taken_end() && next.end() == t.end());
    assert(mark_known(driver, after_device, mark));
    assert forall|i: int| 0 <= i < next.used.len() implies mark_known(
        driver,
        after_device,
        #[trigger] next.used[i],
    ) by {
        if i < t.used.len() {
            assert(mark_known(driver, device, t.used[i]));
        }
    }
    assert forall|i: int| 0 <= i < next.chains.len() implies chain_known(
        driver,
        after_device,
        #[trigger] next.chains[i],
    ) by {
        assert(chain_known(driver, device, t.chains[i]));
    }
    assert(identified(driver, after_device, next)) by {
        assert forall|i: int, j: int|
            0 <= i < next.used.len() && 0 <= j < next.used.len() && i != j implies (
        #[trigger] next.used[i]).id != (#[trigger] next.used[j]).id by {
            if i < t.used.len() {
                assert(mark_known(driver, device, t.used[i]));
            }
            if j < t.used.len() {
                assert(mark_known(driver, device, t.used[j]));
            }
        }
        assert forall|i: int, j: int|
            0 <= i < next.used.len() && 0 <= j < next.chains.len() implies (
        #[trigger] next.used[i]).id != (#[trigger] next.chains[j]).0 by {
            assert(chain_known(driver, device, t.chains[j]));
        }
    }
    assert forall|p: int| next.base <= p < next.used_end() implies shows(
        #[trigger] desc_at(after, layout, p),
        next.marks()[p - next.base],
        wrap_at(n, p),
    ) by {
        if p < t.used_end() {
            assert(desc_at(after, layout, p) == desc_at(before, layout, p));
            assert(next.marks()[p - t.base] == t.marks()[p - t.base]);
        } else {
            assert(next.marks()[p - t.base] == mark_slots(mark)[p - t.used_end()]);
            if p > t.used_end() {
                assert(desc_at(after, layout, p) == desc_at(before, layout, p));
            }
        }
    }
    assert forall|p: int| next.end() <= p < next.taken_end() + n implies !desc::avail_in(
        (#[trigger] desc_at(after, layout, p)).flags,
        wrap_at(n, p),
    ) by {
        if p == t.used_end() + n {
            lemma_next_round(n, t.used_end());
            assert(desc_at(after, layout, p) == desc_at(after, layout, t.used_end()));
            desc::lemma_used_flags(wrap_at(n, t.used_end()));
        } else if p < t.used_end() + n {
            assert(desc_at(after, layout, p) == desc_at(before, layout, p));
        } else {
            lemma_next_round(n, p - n);
            assert(desc_at(after, layout, p) == desc_at(after, layout, p - n));
            assert(desc_at(before, layout, p) == desc_at(before, layout, p - n));
            assert(desc_at(after, layout, p - n) == desc_at(before, layout, p - n));
        }
    }
    assert(written(after, layout, next));
}

/// The driver takes the used chains back in the order in which they were marked, with the
/// identifier and the length they were marked with, and finds nothing where there is none.
pub proof fn law_driver_takes_the_first_mark(
    driver: RingProducer,
    device: RingConsumer,
    mem: MemView,
    t: Traffic,
)
    requires
        coherent(driver, device, mem, t),
    ensures
        driver.used_result(mem) == if t.used.len() == 0 {
            Err::<UsedBuffer, RingError>(RingError::WouldBlock)
        } else {
            Ok(UsedBuffer { id: t.used[0].id, len: t.used[0].len })
        },
{
    let layout = driver.layout;
    let n = layout.descs() as int;
    lemma_cursor_step(layout.descs(), t.base, 0);
    assert(desc_at(mem, layout, t.base) == desc::desc_in(
        mem,
        layout.desc(driver.used_cursor.head as int),
    ));
    if t.used.len() == 0 {
        assert(t.used.map_values(|u: UsedMark| mark_slots(u)).len() == 0);
        assert(t.marks().len() == 0);
    } else {
        assert(mark_known(driver, device, t.used[0]));
        lemma_marks_first(t);
        assert(t.marks()[0] == mark_slots(t.used[0])[0]);
        desc::lemma_used_flags(wrap_at(n, t.base));
    }
}

/// Taking a used chain back removes it and frees its descriptors and its identifier.
pub proof fn law_reclaiming_removes_the_first_mark(
    driver: RingProducer,
    after_driver: RingProducer,
    device: RingConsumer,
    mem: MemView,
    t: Traffic,
)
    requires
        coherent(driver, device, mem, t),
        t.used.len() > 0,
        after_driver.wf(),
        driver.after_used(after_driver, t.used[0].id),
    ensures
        coherent(after_driver, device, mem, t.reclaimed()),
{
    let layout = driver.layout;
    let n = layout.descs() as int;
    let next = t.reclaimed();
    let mark = t.used[0];
    assert(mark_known(driver, device, t.used[0]));
    lemma_marks_first(t);
    lemma_cursor_step(layout.descs(), t.base, mark.count);
    assert(next.base == t.base + mark.count);
    assert(next.used_end() == t.used_end() && next.end() == t.end());
    assert forall|i: int| 0 <= i < next.used.len() implies mark_known(
        after_driver,
        device,
        #[trigger] next.used[i],
    ) by {
        assert(next.used[i] == t.used[i + 1]);
        assert(mark_known(driver, device, t.used[i + 1]));
        assert(t.used[i + 1].id != t.used[0].id);
    }
    assert forall|i: int| 0 <= i < next.chains.len() implies chain_known(
        after_driver,
        device,
        #[trigger] next.chains[i],
    ) by {
        assert(chain_known(driver, device, t.chains[i]));
        assert(t.used[0].id != t.chains[i].0);
    }
    assert(identified(after_driver, device, next)) by {
        assert forall|i: int, j: int|
            0 <= i < next.used.len() && 0 <= j < next.used.len() && i != j implies (
        #[trigger] next.used[i]).id != (#[trigger] next.used[j]).id by {
            assert(next.used[i] == t.used[i + 1] && next.used[j] == t.used[j + 1]);
        }
        assert forall|i: int, j: int|
            0 <= i < next.used.len() && 0 <= j < next.chains.len() implies (
        #[trigger] next.used[i]).id != (#[trigger] next.chains[j]).0 by {
            assert(next.used[i] == t.used[i + 1]);
        }
    }
    assert forall|p: int| next.base <= p < next.used_end() implies shows(
        #[trigger] desc_at(mem, layout, p),
        next.marks()[p - next.base],
        wrap_at(n, p),
    ) by {
        assert(next.marks()[p - next.base] == t.marks()[p - t.base]);
    }
    assert forall|p: int| next.end() <= p < next.base + n implies !desc::used_in(
        (#[trigger] desc_at(mem, layout, p)).flags,
        wrap_at(n, p),
    ) by {
        if p >= t.base + n {
            let q = p - n;
            lemma_next_round(n, q);
            assert(desc_at(mem, layout, p) == desc_at(mem, layout, q));
            assert(t.marks()[q - t.base] == mark_slots(mark)[q - t.base]);
            desc::lemma_used_flags(wrap_at(n, q));
        }
    }
    assert(written(mem, layout, next));
}

/// Stores outside the descriptors disturb neither side: the ring stays coherent, with the same
/// chains on their way.
pub proof fn law_other_stores_keep_a_ring_coherent(
    driver: RingProducer,
    device: RingConsumer,
    before: MemView,
    after: MemView,
    t: Traffic,
)
    requires
        coherent(driver, device, before, t),
        forall|a: int|
            driver.layout.table() <= a < driver.layout.drv_evt() ==> #[trigger] after.byte(a)
                == before.byte(a),
    ensures
        coherent(driver, device, after, t),
{
    let layout = driver.layout;
    let n = layout.descs() as int;
    assert forall|p: int| 0 <= p implies (#[trigger] desc_at(after, layout, p)) == desc_at(
        before,
        layout,
        p,
    ) by {
        lemma_cursor_step(layout.descs(), p, 0);
        desc::lemma_span_same(before, after, layout.desc(p % n), 16);
    }
}

} // verus!
