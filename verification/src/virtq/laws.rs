//! What holds between the two sides of a queue.

use vstd::prelude::*;
use vstd::seq_lib::*;

use super::access::MemView;
use super::buffer::BufferLease;
use super::builder;
use super::builder::ChainBuilder;
use super::consumer;
use super::entries;
use super::entries::BufferEntry;
use super::pool::slot::PoolView;
use super::pool::SlotPool;
use super::producer::{UsedChain, VirtqProducer};
use super::ring;
use super::ring::{BufferElement, RingConsumer, RingError, RingProducer, UsedBuffer};
use super::send;
use super::send::SendChain;
use super::{Notifier, VirtqError};

verus! {

/// Whether the buffers lie outside the memory of a ring.
pub open spec fn outside_ring(entries: Seq<BufferEntry>, ring: RingConsumer) -> bool {
    forall|i: int|
        0 <= i < entries.len() ==> (#[trigger] entries[i]).addr + entries[i].capacity
            <= ring.layout.table() || ring.layout.dev_evt() + 4 <= entries[i].addr
}

/// What was written to a chain is what the device receives: once the chain is
/// published where the device looks next, the device takes it, and the readable
/// buffers it finds hold the payload that was written.
pub proof fn law_submitted_payload_is_received(
    before: MemView,
    after: MemView,
    chain: SendChain,
    device: RingConsumer,
    id: u16,
)
    requires
        chain.wf(),
        device.wf(),
        chain.owned.buffers@.len() <= device.layout.descs() - device.num_inflight,
        id < device.layout.descs(),
        device.id_num@[id as int] == 0,
        outside_ring(chain.owned.buffers@, device),
        ring::producer::published(
            before,
            after,
            device.layout,
            device.avail_cursor,
            id,
            entries::published_elems(chain.owned.buffers@, chain.owned.readable as int),
        ),
    ensures
        ({
            let elems = entries::published_elems(
                chain.owned.buffers@,
                chain.owned.readable as int,
            );
            &&& device.avail_result(after) == Ok::<(u16, Seq<BufferElement>), RingError>(
                (id, elems),
            )
            &&& consumer::elems_payload(after, consumer::readable_part(elems)) == chain.payload(
                before,
            )
        }),
{
    let buffers = chain.owned.buffers@;
    let readable = chain.owned.readable as int;
    let elems = entries::published_elems(buffers, readable);
    let layout = device.layout;
    let cursor = device.avail_cursor;
    assert(ring::readable_first(elems, readable));
    ring::laws::law_published_chain_is_taken(before, after, device, id, elems, readable);
    consumer::lemma_parts(elems, readable);
    let rd = chain.readable();
    // Publishing changes descriptors only.
    assert forall|i: int, x: int|
        #![trigger rd[i], after.byte(x)]
        0 <= i < rd.len() && rd[i].addr <= x < rd[i].addr + rd[i].written implies after.byte(x)
        == before.byte(x) by {
        assert(rd[i] == buffers[i]);
        assert(rd[i].written <= rd[i].capacity);
        assert(!ring::producer::in_slots(layout, cursor, elems.len() as int, x)) by {
            if ring::producer::in_slots(layout, cursor, elems.len() as int, x) {
                let k = choose|k: int|
                    0 <= k < elems.len() && #[trigger] layout.desc(cursor.step(k).head as int) <= x
                        < layout.desc(cursor.step(k).head as int) + 16;
                assert(cursor.step(k).head < layout.descs());
            }
        }
    }
    send::lemma_payload_same(before, after, rd);
    let part = elems.take(readable);
    assert(consumer::elem_spans(after, part) =~= send::entry_spans(after, rd));
}

/// The buffers do not overlap.
pub open spec fn elems_apart(elems: Seq<BufferElement>) -> bool {
    forall|i: int, j: int|
        0 <= i < elems.len() && 0 <= j < elems.len() && i != j ==> (#[trigger] elems[i]).addr
            + elems[i].len <= (#[trigger] elems[j]).addr || elems[j].addr + elems[j].len
            <= elems[i].addr
}

/// Stores into buffers leave every other byte as it was.
pub proof fn lemma_scatter_frame(
    mem: MemView,
    elems: Seq<BufferElement>,
    pos: int,
    data: Seq<u8>,
    x: int,
)
    requires
        pos >= 0,
        forall|i: int|
            0 <= i < elems.len() ==> !((#[trigger] elems[i]).addr <= x < elems[i].addr
                + elems[i].len),
    ensures
        consumer::scatter(mem, elems, pos, data).byte(x) == mem.byte(x),
    decreases elems.len(),
{
    if data.len() > 0 && elems.len() > 0 {
        let rest = elems.drop_first();
        assert forall|i: int| 0 <= i < rest.len() implies !((#[trigger] rest[i]).addr <= x
            < rest[i].addr + rest[i].len) by {
            assert(rest[i] == elems[i + 1]);
        }
        if pos >= elems[0].len {
            lemma_scatter_frame(mem, rest, pos - elems[0].len, data, x);
        } else {
            let room = elems[0].len - pos;
            let n = if room < data.len() {
                room
            } else {
                data.len() as int
            };
            lemma_scatter_frame(
                mem.put(elems[0].addr + pos, data.take(n)),
                rest,
                0,
                data.skip(n),
                x,
            );
        }
    }
}

/// Each byte of the data lands where its position in the buffers is.
proof fn lemma_scatter_byte(
    mem: MemView,
    elems: Seq<BufferElement>,
    data: Seq<u8>,
    i: int,
    j: int,
)
    requires
        elems_apart(elems),
        0 <= i < elems.len(),
        0 <= j < elems[i].len,
        consumer::elems_len(elems.take(i)) + j < data.len(),
    ensures
        consumer::scatter(mem, elems, 0, data).byte(elems[i].addr + j) == data[
            consumer::elems_len(elems.take(i)) + j],
    decreases elems.len(),
{
    let rest = elems.drop_first();
    assert(elems_apart(rest)) by {
        assert forall|a: int, b: int|
            0 <= a < rest.len() && 0 <= b < rest.len() && a != b implies (#[trigger] rest[a]).addr
            + rest[a].len <= (#[trigger] rest[b]).addr || rest[b].addr + rest[b].len
            <= rest[a].addr by {
            assert(rest[a] == elems[a + 1]);
            assert(rest[b] == elems[b + 1]);
        }
    }
    consumer::lemma_elems_prefix(mem, elems, i);
    let first = elems[0];
    let n = if first.len < data.len() {
        first.len as int
    } else {
        data.len() as int
    };
    if i == 0 {
        assert(elems.take(0) =~= Seq::<BufferElement>::empty());
        if first.len > 0 {
            let put = mem.put(first.addr as int, data.take(n));
            let x = first.addr + j;
            assert forall|k: int| 0 <= k < rest.len() implies !((#[trigger] rest[k]).addr <= x
                < rest[k].addr + rest[k].len) by {
                assert(rest[k] == elems[k + 1]);
                assert(elems[0].addr + elems[0].len <= elems[k + 1].addr || elems[k + 1].addr
                    + elems[k + 1].len <= elems[0].addr);
            }
            lemma_scatter_frame(put, rest, 0, data.skip(n), x);
            assert(put.byte(x) == data[j]);
        }
    } else {
        consumer::lemma_elems_first(elems.take(i));
        assert(elems.take(i).drop_first() =~= rest.take(i - 1));
        assert(elems.take(i)[0] == first);
        assert(rest[i - 1] == elems[i]);
        consumer::lemma_elems_prefix(mem, rest, i - 1);
        let at = consumer::elems_len(rest.take(i - 1));
        if first.len > 0 {
            let put = mem.put(first.addr as int, data.take(n));
            assert(n == first.len);
            lemma_scatter_byte(put, rest, data.skip(n), i - 1, j);
            assert(data.skip(n)[at + j] == data[n + at + j]);
        } else {
            lemma_scatter_byte(mem, rest, data, i - 1, j);
        }
    }
}

/// What the device writes is what the driver reads back: a reply of `data` bytes,
/// stored in the writable buffers of a chain, is found whole and in order when the
/// chain completes with its length.
pub proof fn law_reply_is_read_back(
    mem: MemView,
    buffers: Seq<BufferEntry>,
    readable: int,
    data: Seq<u8>,
)
    requires
        0 <= readable <= buffers.len(),
        send::apart(buffers),
        data.len() <= entries::room(buffers, readable, buffers.len() as int),
    ensures
        ({
            let elems = consumer::writable_part(entries::published_elems(buffers, readable));
            let after = consumer::scatter(mem, elems, 0, data);
            entries::reply_spans(
                after,
                buffers,
                readable,
                data.len() as int,
                0,
                buffers.len() as int,
            ).flatten() == data
        }),
{
    let all = entries::published_elems(buffers, readable);
    assert(ring::readable_first(all, readable));
    consumer::lemma_parts(all, readable);
    let elems = all.skip(readable);
    let after = consumer::scatter(mem, elems, 0, data);
    assert(elems_apart(elems)) by {
        assert forall|i: int, j: int|
            0 <= i < elems.len() && 0 <= j < elems.len() && i != j implies (
        #[trigger] elems[i]).addr + elems[i].len <= (#[trigger] elems[j]).addr || elems[j].addr
            + elems[j].len <= elems[i].addr by {
            let a = buffers[readable + i];
            let b = buffers[readable + j];
            assert(a.addr + a.capacity <= b.addr || b.addr + b.capacity <= a.addr);
        }
    }
    lemma_reply_prefix(mem, buffers, readable, data, buffers.len() as int);
    assert(data.take(data.len() as int) =~= data);
}

/// The reply's bytes depend on the buffers only.
proof fn lemma_reply_in_buffers(
    before: MemView,
    after: MemView,
    buffers: Seq<BufferEntry>,
    readable: int,
    written: int,
    to: int,
)
    requires
        0 <= to <= buffers.len(),
        forall|i: int, x: int|
            #![trigger buffers[i], after.byte(x)]
            0 <= i < buffers.len() && buffers[i].addr <= x < buffers[i].addr
                + buffers[i].capacity ==> after.byte(x) == before.byte(x),
    ensures
        entries::reply_spans(after, buffers, readable, written, 0, to) == entries::reply_spans(
            before,
            buffers,
            readable,
            written,
            0,
            to,
        ),
    decreases to,
{
    if to > 0 {
        lemma_reply_in_buffers(before, after, buffers, readable, written, to - 1);
        let len = entries::share(buffers, readable, written, to - 1);
        if len > 0 {
            let entry = buffers[to - 1];
            assert(after.span(entry.addr as int, len as nat) =~= before.span(
                entry.addr as int,
                len as nat,
            ));
        }
    }
}

/// What the device completes is what the driver polls: once the device has written a reply
/// and marked the chain used, the driver finds the chain, its length and the reply.
pub proof fn law_completed_reply_is_polled(
    mem: MemView,
    replied: MemView,
    after: MemView,
    device: RingConsumer,
    driver: RingProducer,
    id: u16,
    buffers: Seq<BufferEntry>,
    readable: int,
    data: Seq<u8>,
)
    requires
        device.wf(),
        driver.wf(),
        driver.layout == device.layout,
        driver.used_cursor == device.used_cursor,
        id < driver.layout.descs(),
        driver.id_num@[id as int] != 0,
        0 <= readable <= buffers.len(),
        send::apart(buffers),
        outside_ring(buffers, device),
        data.len() <= entries::room(buffers, readable, buffers.len() as int),
        data.len() <= u32::MAX,
        replied.same_bytes(
            consumer::scatter(
                mem,
                consumer::writable_part(entries::published_elems(buffers, readable)),
                0,
                data,
            ),
        ),
        device.marked_used(replied, after, id, data.len() as u32),
    ensures
        driver.used_result(after) == Ok::<UsedBuffer, RingError>(
            UsedBuffer { id, len: data.len() as u32 },
        ),
        entries::reply_spans(
            after,
            buffers,
            readable,
            data.len() as int,
            0,
            buffers.len() as int,
        ).flatten() == data,
{
    let len = data.len() as u32;
    ring::laws::law_used_chain_is_taken_back(replied, after, device, driver, id, len);
    law_reply_is_read_back(mem, buffers, readable, data);
    let stored = consumer::scatter(
        mem,
        consumer::writable_part(entries::published_elems(buffers, readable)),
        0,
        data,
    );
    // Marking the chain used changes a descriptor only.
    let at = device.layout.desc(device.used_cursor.head as int);
    assert(device.used_cursor.head < device.layout.descs());
    assert forall|i: int, x: int|
        #![trigger buffers[i], after.byte(x)]
        0 <= i < buffers.len() && buffers[i].addr <= x < buffers[i].addr
            + buffers[i].capacity implies after.byte(x) == stored.byte(x) by {
        assert(!(at + 8 <= x < at + 16));
        assert(after.byte(x) == replied.byte(x));
        assert(replied.byte(x) == stored.byte(x));
    }
    lemma_reply_in_buffers(
        stored,
        after,
        buffers,
        readable,
        data.len() as int,
        buffers.len() as int,
    );
}

proof fn lemma_reply_prefix(
    mem: MemView,
    buffers: Seq<BufferEntry>,
    readable: int,
    data: Seq<u8>,
    to: int,
)
    requires
        0 <= readable <= buffers.len(),
        0 <= to <= buffers.len(),
        elems_apart(entries::published_elems(buffers, readable).skip(readable)),
    ensures
        ({
            let elems = entries::published_elems(buffers, readable).skip(readable);
            let after = consumer::scatter(mem, elems, 0, data);
            let reach = entries::room(buffers, readable, to);
            &&& 0 <= reach
            &&& entries::reply_spans(
                after,
                buffers,
                readable,
                data.len() as int,
                0,
                to,
            ).flatten() == data.take(if reach < data.len() {
                reach
            } else {
                data.len() as int
            })
        }),
    decreases to,
{
    let elems = entries::published_elems(buffers, readable).skip(readable);
    let after = consumer::scatter(mem, elems, 0, data);
    let len = data.len() as int;
    if to == 0 {
        assert(data.take(0) =~= Seq::<u8>::empty());
    } else {
        lemma_reply_prefix(mem, buffers, readable, data, to - 1);
        let before = entries::reply_spans(after, buffers, readable, len, 0, to - 1);
        let n = entries::share(buffers, readable, len, to - 1);
        let reach = entries::room(buffers, readable, to - 1);
        if to - 1 < readable {
            assert(entries::room(buffers, readable, to) == 0);
        } else {
            lemma_room_is_len(buffers, readable, to - 1);
        }
        if n > 0 {
            let i = to - 1 - readable;
            let here = after.span(buffers[to - 1].addr as int, n as nat);
            before.lemma_flatten_push(here);
            assert(here =~= data.subrange(reach, reach + n)) by {
                assert forall|j: int| 0 <= j < n implies here[j] == data[reach + j] by {
                    lemma_scatter_byte(mem, elems, data, i, j);
                }
            }
            assert(data.take(reach) + data.subrange(reach, reach + n) =~= data.take(reach + n));
        }
    }
}

/// Room in the buffers is the length of what is published of them.
pub proof fn lemma_room_is_len(buffers: Seq<BufferEntry>, readable: int, to: int)
    requires
        0 <= readable <= to <= buffers.len(),
    ensures
        entries::room(buffers, readable, to) == consumer::elems_len(
            entries::published_elems(buffers, readable).skip(readable).take(to - readable),
        ),
    decreases to - readable,
{
    let elems = entries::published_elems(buffers, readable).skip(readable);
    if to > readable {
        lemma_room_is_len(buffers, readable, to - 1);
        assert(elems.take(to - readable).drop_last() =~= elems.take(to - 1 - readable));
    } else {
        assert(elems.take(0) =~= Seq::<BufferElement>::empty());
    }
}

/// A chain that was reserved and not sent restores the pool when it is released: every slot
/// is free again, and they are handed out in the same order as before.
pub proof fn law_released_chain_restores_the_pool(
    request: ChainBuilder,
    before: PoolView,
    chain: SendChain,
)
    requires
        before.wf(),
        entries::answers(before, request.all_lens(before)) is Some,
        chain.owned.buffers@ == builder::entries_for(
            request.all_lens(before),
            entries::answers(before, request.all_lens(before))->0,
            request.plan(before).readable,
        ),
    ensures
        ({
            let after = entries::pool_after(before, request.all_lens(before));
            let addrs = entries::addrs_of(chain.owned.buffers@);
            &&& entries::released(after, addrs) == before
            &&& entries::release_error(after, addrs) is None
        }),
{
    let lens = request.all_lens(before);
    let slots = entries::answers(before, lens)->0;
    entries::lemma_answers_release(before, lens);
    entries::lemma_answers_live(before, lens);
    assert(entries::addrs_of(chain.owned.buffers@) =~= entries::allocation_addrs(slots));
}

/// Live slots that are given back are free afterwards, and all others are as before.
pub proof fn lemma_released_live(pool: PoolView, addrs: Seq<u64>)
    requires
        entries::all_live(pool, addrs),
        pool.lower matches Some(lower) ==> lower.layout.end() <= pool.upper.layout.base(),
    ensures
        forall|a: u64| #[trigger]
            entries::released(pool, addrs).live(a) <==> pool.live(a) && !addrs.contains(a),
        entries::released(pool, addrs).lower matches Some(lower) ==> lower.layout.end()
            <= entries::released(pool, addrs).upper.layout.base(),
        entries::released(pool, addrs).num_free() == pool.num_free() + addrs.len(),
    decreases addrs.len(),
{
    if addrs.len() > 0 {
        let last = addrs.last();
        let rest = addrs.drop_last();
        let next = pool.after_dealloc(last);
        assert(pool.live(addrs[addrs.len() - 1]));
        assert forall|i: int| 0 <= i < rest.len() implies next.live(#[trigger] rest[i]) by {
            assert(pool.live(addrs[i]));
            entries::lemma_dealloc_other(pool, last, addrs[i]);
        }
        lemma_released_live(next, rest);
        assert(!next.live(last)) by {
            if let Some(lower) = pool.lower {
                assert(lower.free.push(last).last() == last);
                assert(lower.free.push(last).contains(last));
            }
            assert(pool.upper.free.push(last).last() == last);
            assert(pool.upper.free.push(last).contains(last));
        }
        assert forall|a: u64| #[trigger]
            entries::released(pool, addrs).live(a) <==> pool.live(a) && !addrs.contains(a) by {
            assert(entries::released(pool, addrs) == entries::released(next, rest));
            if a != last {
                entries::lemma_dealloc_other(pool, last, a);
                if rest.contains(a) {
                    let i = choose|i: int| 0 <= i < rest.len() && rest[i] == a;
                    assert(addrs[i] == a);
                }
                if addrs.contains(a) {
                    let i = choose|i: int| 0 <= i < addrs.len() && addrs[i] == a;
                    assert(rest[i] == a);
                }
            } else {
                assert(addrs[addrs.len() - 1] == a);
            }
        }
    }
}

/// Every buffer either holds reply bytes or is spare.
proof fn lemma_kept_or_spare(buffers: Seq<BufferEntry>, readable: int, written: int, to: int)
    requires
        0 <= to <= buffers.len(),
        entries::addrs_of(buffers).no_duplicates(),
    ensures
        ({
            let kept = entries::allocation_addrs(
                entries::kept_slots(buffers, readable, written, 0, to),
            );
            let spare = entries::spare_slots(buffers, readable, written, 0, to);
            let addrs = entries::addrs_of(buffers.take(to));
            &&& kept.len() + spare.len() == to
            &&& kept.no_duplicates()
            &&& spare.no_duplicates()
            &&& forall|a: u64| #[trigger] addrs.contains(a) <==> kept.contains(a) || spare.contains(a)
            &&& forall|a: u64| !(#[trigger] kept.contains(a) && spare.contains(a))
        }),
    decreases to,
{
    let kept = entries::allocation_addrs(entries::kept_slots(buffers, readable, written, 0, to));
    let spare = entries::spare_slots(buffers, readable, written, 0, to);
    let addrs = entries::addrs_of(buffers.take(to));
    if to > 0 {
        lemma_kept_or_spare(buffers, readable, written, to - 1);
        let kept_before = entries::allocation_addrs(
            entries::kept_slots(buffers, readable, written, 0, to - 1),
        );
        let spare_before = entries::spare_slots(buffers, readable, written, 0, to - 1);
        let addrs_before = entries::addrs_of(buffers.take(to - 1));
        let last = buffers[to - 1].addr;
        assert(addrs =~= addrs_before.push(last));
        assert(!addrs_before.contains(last)) by {
            if addrs_before.contains(last) {
                let i = choose|i: int| 0 <= i < addrs_before.len() && addrs_before[i] == last;
                assert(entries::addrs_of(buffers)[i] == entries::addrs_of(buffers)[to - 1]);
            }
        }
        lemma_push_contains(addrs_before, last);
        if entries::share(buffers, readable, written, to - 1) > 0 {
            assert(kept =~= kept_before.push(last));
            lemma_push_contains(kept_before, last);
        } else {
            assert(spare =~= spare_before.push(last));
            lemma_push_contains(spare_before, last);
        }
    } else {
        assert(kept =~= Seq::<u64>::empty());
        assert(addrs =~= Seq::<u64>::empty());
    }
}

proof fn lemma_push_contains(s: Seq<u64>, last: u64)
    ensures
        forall|a: u64| #[trigger] s.push(last).contains(a) <==> s.contains(a) || a == last,
        s.no_duplicates() && !s.contains(last) ==> s.push(last).no_duplicates(),
{
    assert forall|a: u64| #[trigger] s.push(last).contains(a) <==> s.contains(a) || a == last by {
        if s.contains(a) {
            let i = choose|i: int| 0 <= i < s.len() && s[i] == a;
            assert(s.push(last)[i] == a);
        }
        assert(s.push(last)[s.len() as int] == last);
    }
}

/// A completed chain returns every slot: once the leases that came with its reply are
/// released, exactly its slots have become free.
pub proof fn law_completed_chain_returns_every_slot(
    pool: PoolView,
    buffers: Seq<BufferEntry>,
    readable: int,
    written: int,
    leases: Seq<BufferLease>,
)
    requires
        pool.wf(),
        entries::all_live(pool, entries::addrs_of(buffers)),
        entries::lease_slots(leases) == entries::kept_slots(
            buffers,
            readable,
            written,
            0,
            buffers.len() as int,
        ),
    ensures
        ({
            let spare = entries::spare_slots(
                buffers,
                readable,
                written,
                0,
                buffers.len() as int,
            );
            let after = entries::leases_released(entries::released(pool, spare), leases);
            &&& forall|a: u64| #[trigger]
                after.live(a) <==> pool.live(a) && !entries::addrs_of(buffers).contains(a)
            &&& after.num_free() == pool.num_free() + buffers.len()
        }),
{
    let n = buffers.len() as int;
    let addrs = entries::addrs_of(buffers);
    let spare = entries::spare_slots(buffers, readable, written, 0, n);
    let kept = entries::allocation_addrs(entries::kept_slots(buffers, readable, written, 0, n));
    let given = entries::allocation_addrs(entries::lease_slots(leases.reverse()));
    let completed = entries::released(pool, spare);
    assert(buffers.take(n) =~= buffers);
    lemma_kept_or_spare(buffers, readable, written, n);
    assert forall|i: int| 0 <= i < spare.len() implies pool.live(#[trigger] spare[i]) by {
        assert(spare.contains(spare[i]));
        assert(addrs.contains(spare[i]));
        let j = choose|j: int| 0 <= j < addrs.len() && addrs[j] == spare[i];
        assert(pool.live(addrs[j]));
    }
    lemma_released_live(pool, spare);
    assert(given.len() == kept.len());
    assert forall|i: int| 0 <= i < given.len() implies #[trigger] given[i] == kept[kept.len() - 1
        - i] by {
        assert(entries::lease_slots(leases)[kept.len() - 1 - i] == leases[kept.len() - 1
            - i].slot());
    }
    assert forall|a: u64| #[trigger] given.contains(a) <==> kept.contains(a) by {
        if given.contains(a) {
            let i = choose|i: int| 0 <= i < given.len() && given[i] == a;
            assert(kept[kept.len() - 1 - i] == a);
        }
        if kept.contains(a) {
            let i = choose|i: int| 0 <= i < kept.len() && kept[i] == a;
            assert(given[kept.len() - 1 - i] == a);
        }
    }
    assert(given.no_duplicates());
    assert forall|i: int| 0 <= i < given.len() implies completed.live(#[trigger] given[i]) by {
        assert(given.contains(given[i]));
        assert(kept.contains(given[i]));
        assert(addrs.contains(given[i]));
        let j = choose|j: int| 0 <= j < addrs.len() && addrs[j] == given[i];
        assert(pool.live(addrs[j]));
    }
    lemma_released_live(completed, given);
    assert forall|a: u64| #[trigger]
        entries::leases_released(completed, leases).live(a) <==> pool.live(a) && !addrs.contains(
            a,
        ) by {
        assert(completed.live(a) <==> pool.live(a) && !spare.contains(a));
        assert(addrs.contains(a) <==> kept.contains(a) || spare.contains(a));
        assert(given.contains(a) <==> kept.contains(a));
    }
}

/// A completion frees a chain's slots in the pool that they were allocated from, whichever
/// producer takes the chain back: a chain without writable buffers is acknowledged, and once
/// the leases that come with a reply are released, exactly the chain's slots have become
/// free there.
pub proof fn law_completion_frees_slots_in_their_pool<N: Notifier>(
    producer: VirtqProducer<N>,
    after: VirtqProducer<N>,
    pool: SlotPool,
    after_pool: SlotPool,
    mem: MemView,
    used: UsedBuffer,
    outcome: Result<Option<UsedChain>, VirtqError>,
)
    requires
        pool@.wf(),
        producer.with_pool(pool).polled(after.with_pool(after_pool), mem, outcome),
        producer.inner.used_result(mem) == Ok::<UsedBuffer, RingError>(used),
        producer.inflight.has(used.id),
        entries::all_live(
            pool@,
            entries::addrs_of(producer.inflight.get(used.id).chain.buffers@),
        ),
    ensures
        ({
            let done = producer.inflight.get(used.id);
            let addrs = entries::addrs_of(done.chain.buffers@);
            &&& done.chain.readable == done.chain.buffers@.len() ==> outcome == Ok::<
                Option<UsedChain>,
                VirtqError,
            >(Some(UsedChain::Ack(done.token)))
            &&& match outcome {
                Ok(Some(UsedChain::Ack(_))) => forall|a: u64| #[trigger]
                    after_pool@.live(a) <==> pool@.live(a) && !addrs.contains(a),
                Ok(Some(UsedChain::Data(_, _, leases))) => forall|a: u64| #[trigger]
                    entries::leases_released(after_pool@, leases@).live(a) <==> pool@.live(a)
                        && !addrs.contains(a),
                Ok(None) => false,
                Err(e) => !(e is Alloc),
            }
        }),
{
    let done = producer.inflight.get(used.id);
    let buffers = done.chain.buffers@;
    let addrs = entries::addrs_of(buffers);
    if done.chain.readable == buffers.len() {
        lemma_released_live(pool@, addrs);
        entries::lemma_all_live_release(pool@, addrs);
    } else {
        if let Ok(Some(UsedChain::Data(_, _, leases))) = outcome {
            law_completed_chain_returns_every_slot(
                pool@,
                buffers,
                done.chain.readable as int,
                used.len as int,
                leases@,
            );
        }
    }
}

} // verus!
