//! What holds of a queue's pools, positions, notifications and chains.

use vstd::arithmetic::div_mod::*;
use vstd::prelude::*;
use vstd::seq_lib::*;

use super::access::MemView;
use super::consumer;
use super::desc;
use super::desc::EventSuppression;
use super::entries;
use super::entries::BufferEntry;
use super::inflight;
use super::inflight::Inflight;
use super::pool::slot;
use super::pool::slot::{PoolView, SlotLayout};
use super::pool::{AllocError, Allocation};
use super::producer;
use super::producer::{UsedChain, VirtqProducer};
use super::ring;
use super::ring::{BufferElement, RingConsumer, RingCursor, RingProducer};
use super::{Notifier, SuppressionKind, VirtqConsumer, VirtqError};

verus! {

/// A pool without a free slot is full for now; every other failure to allocate stays what it
/// is, and nothing but a full queue or pool passes with time.
pub proof fn law_only_a_full_queue_is_worth_waiting_for(failed: AllocError, error: VirtqError)
    ensures
        super::alloc_failure(failed).transient() <==> failed == AllocError::NoSpace,
        failed != AllocError::NoSpace ==> super::alloc_failure(failed) == VirtqError::Alloc(
            failed,
        ),
        error.transient() <==> error == VirtqError::Backpressure,
{
}

/// A request is answered exactly when it asks for some bytes, no more than an upper slot has,
/// and a slot that holds them is free. Nothing at all, too much, and a full pool are told
/// apart.
pub proof fn law_request_is_answered_while_a_slot_is_free(pool: PoolView, len: int)
    requires
        pool.wf(),
        len >= 0,
    ensures
        ({
            let small = pool.lower matches Some(lower) && len <= lower.layout.size()
                && lower.free.len() > 0;
            let large = len <= pool.upper.layout.size() && pool.upper.free.len() > 0;
            &&& pool.alloc_result(len) is Ok <==> len > 0 && (small || large)
            &&& len == 0 ==> pool.alloc_result(len) == Err::<Allocation, AllocError>(
                AllocError::InvalidArg,
            )
            &&& len > pool.upper.layout.size() ==> pool.alloc_result(len) == Err::<
                Allocation,
                AllocError,
            >(AllocError::OutOfMemory)
            &&& 0 < len <= pool.upper.layout.size() && !small && !large ==> pool.alloc_result(len)
                == Err::<Allocation, AllocError>(AllocError::NoSpace)
        }),
{
}

/// A request that a small slot holds is answered with one while any is free, and only then;
/// the other tier is left alone.
pub proof fn law_small_slots_are_taken_first(pool: PoolView, len: int)
    requires
        pool.wf(),
        pool.lower is Some,
        pool.alloc_result(len) is Ok,
    ensures
        ({
            let lower = pool.lower->0;
            let slot = pool.alloc_result(len)->Ok_0;
            if len <= lower.layout.size() && lower.free.len() > 0 {
                &&& lower.free.contains(slot.addr)
                &&& slot.len == lower.layout.size()
                &&& pool.after_alloc(len).upper == pool.upper
                &&& pool.after_alloc(len).num_free_lower() == pool.num_free_lower() - 1
            } else {
                &&& pool.upper.free.contains(slot.addr)
                &&& slot.len == pool.upper.layout.size()
                &&& pool.after_alloc(len).lower == pool.lower
                &&& pool.after_alloc(len).upper.free.len() == pool.upper.free.len() - 1
            }
        }),
{
    let lower = pool.lower->0;
    if pool.lower_answers(len) {
        assert(lower.free[lower.free.len() - 1] == lower.free.last());
    } else {
        assert(pool.upper.free[pool.upper.free.len() - 1] == pool.upper.free.last());
    }
}

/// A request that fails, and an address that is not handed out, change nothing.
pub proof fn law_failures_leave_the_pool_alone(pool: PoolView, len: int, addr: u64)
    ensures
        pool.alloc_result(len) is Err ==> pool.after_alloc(len) == pool,
        !pool.live(addr) ==> pool.after_dealloc(addr) == pool,
{
    if let Some(lower) = pool.lower {
        assert(pool.after_dealloc(addr).lower is Some);
    }
}

/// A slot that is given back becomes free, one more than before.
pub proof fn law_returned_slot_is_free(pool: PoolView, addr: u64)
    requires
        pool.wf(),
        pool.live(addr),
    ensures
        pool.after_dealloc(addr).is_free(addr),
        pool.after_dealloc(addr).num_free() == pool.num_free() + 1,
        pool.after_dealloc(addr).count() == pool.count(),
{
    if let Some(lower) = pool.lower {
        if lower.live(addr) {
            assert(lower.free.push(addr).last() == addr);
            assert(lower.covers(addr));
            assert(!pool.upper.covers(addr));
        }
    }
    if pool.upper.live(addr) {
        assert(pool.upper.free.push(addr).last() == addr);
    }
}

/// A pool that is laid out anew has every slot free.
pub proof fn law_new_pool_is_all_free(
    pool: PoolView,
    lower: Option<SlotLayout>,
    upper: SlotLayout,
)
    requires
        pool.fresh_from(lower, upper),
    ensures
        pool.num_free() == pool.count(),
        pool.num_live() == 0,
        pool.count() == upper.slots() + match lower {
            Some(lower) => lower.slots() as int,
            None => 0,
        },
{
}

/// Tiers make a pool only where the small slots come first, apart from the large ones, and
/// tiers of one size are one behind the other; other pairs are invalid.
pub proof fn law_tiers_follow_each_other(lower: SlotLayout, upper: SlotLayout)
    requires
        lower.wf(),
        upper.wf(),
    ensures
        slot::tiers_error(lower, upper) is None ==> lower.size() <= upper.size() && lower.end()
            <= upper.base(),
        lower.size() < upper.size() && lower.end() <= upper.base() ==> slot::tiers_error(
            lower,
            upper,
        ) is None,
        lower.size() > upper.size() || lower.end() > upper.base() ==> slot::tiers_error(
            lower,
            upper,
        ) == Some(AllocError::InvalidArg),
        lower.size() == upper.size() && lower.end() < upper.base() ==> slot::tiers_error(
            lower,
            upper,
        ) == Some(AllocError::InvalidArg),
{
}

/// Slots are placed where all of them, and the list of them, can be addressed.
pub proof fn law_placed_slots_can_be_addressed(base: u64, slot_size: usize, slot_count: usize)
    ensures
        slot::placeable(base as int, slot_size as int, slot_count as int) ==> {
            &&& slot_size > 0
            &&& slot_count > 0
            &&& base + slot_size * slot_count <= u64::MAX
        },
        slot::placeable(base as int, slot_size as int, slot_count as int) <==> 1 <= slot_size
            <= 0xffff_ffff && 1 <= slot_count && slot_size * slot_count <= usize::MAX && base
            + slot_size * slot_count <= u64::MAX && 8 * slot_count <= isize::MAX,
        slot_size == 0 || slot_size > u32::MAX ==> slot::layout_error(
            slot_size as int,
            slot_count as int,
        ) == AllocError::InvalidArg,
        0 < slot_size <= u32::MAX && slot_count == 0 ==> slot::layout_error(
            slot_size as int,
            slot_count as int,
        ) == AllocError::EmptyRegion,
        0 < slot_size <= u32::MAX && slot_count > 0 ==> slot::layout_error(
            slot_size as int,
            slot_count as int,
        ) == AllocError::Overflow,
{
}

/// Slots that are given back are handed out no longer, those of others stay as they are.
pub proof fn law_released_slots_are_given_back(pool: PoolView, addrs: Seq<u64>, addr: u64)
    requires
        pool.wf(),
    ensures
        addrs.contains(addr) ==> !entries::released(pool, addrs).live(addr),
        !addrs.contains(addr) ==> entries::released(pool, addrs).live(addr) == pool.live(addr),
        entries::released(pool, addrs).wf(),
    decreases addrs.len(),
{
    if addrs.len() > 0 {
        let last = addrs.last();
        let next = pool.after_dealloc(last);
        slot::lemma_dealloc_step(pool, last);
        law_released_slots_are_given_back(next, addrs.drop_last(), addr);
        slot::law_double_free_is_rejected(pool, last);
        if addr != last {
            entries::lemma_dealloc_other(pool, last, addr);
        }
        assert(addrs[addrs.len() - 1] == last);
        assert(addrs.contains(addr) <==> addrs.drop_last().contains(addr) || addr == last) by {
            if addrs.contains(addr) && addr != last {
                let k = choose|k: int| 0 <= k < addrs.len() && addrs[k] == addr;
                assert(addrs.drop_last()[k] == addr);
            }
            if addrs.drop_last().contains(addr) {
                let k = choose|k: int| 0 <= k < addrs.drop_last().len() && addrs.drop_last()[k]
                    == addr;
                assert(addrs[k] == addr);
            }
        }
    }
}

/// Slots are given back without failure exactly where each is handed out, and named once.
pub proof fn law_release_fails_at_a_slot_not_handed_out(pool: PoolView, addrs: Seq<u64>)
    requires
        pool.wf(),
    ensures
        entries::release_error(pool, addrs) is None <==> entries::all_live(pool, addrs),
        entries::release_error(pool, addrs) matches Some(error) ==> exists|i: int|
            0 <= i < addrs.len() && error == AllocError::InvalidFree(#[trigger] addrs[i], 0),
    decreases addrs.len(),
{
    if entries::all_live(pool, addrs) {
        entries::lemma_all_live_release(pool, addrs);
    }
    if addrs.len() > 0 {
        let last = addrs.last();
        let rest = addrs.drop_last();
        let next = pool.after_dealloc(last);
        slot::lemma_dealloc_step(pool, last);
        law_release_fails_at_a_slot_not_handed_out(next, rest);
        assert(addrs[addrs.len() - 1] == last);
        if entries::release_error(pool, addrs) is None {
            slot::law_double_free_is_rejected(pool, last);
            assert forall|i: int| 0 <= i < addrs.len() implies pool.live(#[trigger] addrs[i]) by {
                if i < rest.len() {
                    assert(next.live(rest[i]));
                    assert(rest[i] != last);
                    entries::lemma_dealloc_other(pool, last, rest[i]);
                }
            }
            assert forall|i: int, j: int| 0 <= i < addrs.len() && 0 <= j < addrs.len() && i
                != j implies addrs[i] != addrs[j] by {
                if i < rest.len() && j < rest.len() {
                    assert(rest[i] != rest[j]);
                } else if i < rest.len() {
                    assert(next.live(rest[i]));
                } else if j < rest.len() {
                    assert(next.live(rest[j]));
                }
            }
        } else if pool.live(last) {
            let i = choose|i: int|
                0 <= i < rest.len() && entries::release_error(next, rest)->0
                    == AllocError::InvalidFree(#[trigger] rest[i], 0);
            assert(addrs[i] == rest[i]);
        }
    }
}

/// When every chain in flight is given back, none of its slots is handed out any longer.
pub proof fn law_chains_given_back_hold_no_slot(
    pool: PoolView,
    chains: Seq<Inflight>,
    c: int,
    i: int,
)
    requires
        pool.wf(),
        0 <= c < chains.len(),
        0 <= i < chains[c].chain.buffers@.len(),
    ensures
        !inflight::chains_released(pool, chains).live(chains[c].chain.buffers@[i].addr),
    decreases chains.len(),
{
    let addr = chains[c].chain.buffers@[i].addr;
    let addrs = entries::addrs_of(chains.last().chain.buffers@);
    let next = entries::released(pool, addrs);
    law_released_slots_are_given_back(pool, addrs, addr);
    if c == chains.len() - 1 {
        assert(addrs[i] == addr);
        lemma_stays_given_back(next, chains.drop_last(), addr);
    } else {
        assert(chains.drop_last()[c] == chains[c]);
        law_chains_given_back_hold_no_slot(next, chains.drop_last(), c, i);
    }
}

proof fn lemma_stays_given_back(pool: PoolView, chains: Seq<Inflight>, addr: u64)
    requires
        pool.wf(),
        !pool.live(addr),
    ensures
        !inflight::chains_released(pool, chains).live(addr),
    decreases chains.len(),
{
    if chains.len() > 0 {
        let addrs = entries::addrs_of(chains.last().chain.buffers@);
        law_released_slots_are_given_back(pool, addrs, addr);
        lemma_stays_given_back(entries::released(pool, addrs), chains.drop_last(), addr);
    }
}

/// Moving on by some descriptors puts as many of them behind; a whole round leads back to the
/// same descriptor in the other wrap round, and two rounds to where they began.
pub proof fn law_positions_count_descriptors(cursor: RingCursor, count: int)
    requires
        cursor.wf(),
        0 <= count <= cursor.size,
    ensures
        cursor.step(count).wf(),
        cursor.step(count).size == cursor.size,
        cursor.distance(cursor.step(count)) == count,
        cursor.step(count).head == (cursor.head + count) % cursor.size as int,
        cursor.step(cursor.size as int).head == cursor.head,
        cursor.step(cursor.size as int).wrap != cursor.wrap,
        cursor.step(cursor.size as int).step(cursor.size as int) == cursor,
{
    let size = cursor.size as int;
    let next = cursor.step(count);
    let moved = next.round() - cursor.round();
    assert(moved == count || moved == count - 2 * size);
    if moved == count {
        lemma_small_mod(count as nat, (2 * size) as nat);
    } else {
        lemma_mod_add_multiples_vanish(moved, 2 * size);
        lemma_small_mod(count as nat, (2 * size) as nat);
    }
    if cursor.head + count < size {
        lemma_small_mod((cursor.head + count) as nat, size as nat);
    } else {
        lemma_mod_add_multiples_vanish(cursor.head + count - size, size);
        lemma_small_mod((cursor.head + count - size) as nat, size as nat);
    }
}

/// A position that is told to the peer reads back.
pub proof fn law_told_position_reads_back(cursor: RingCursor)
    requires
        cursor.wf(),
    ensures
        ({
            let event = super::suppression_event(SuppressionKind::Descriptor(cursor));
            &&& event.off() == cursor.head
            &&& event.wrap() == cursor.wrap
        }),
{
}

/// A peer that is asked to notify always or never does so; one that is asked to notify when
/// it passes a descriptor does so exactly when it moves past it.
pub proof fn law_peer_notifies_as_asked(before: RingCursor, at: int, moved: int)
    requires
        before.wf(),
        0 <= at < before.size,
        0 <= moved <= before.size,
    ensures
        ring::notification_due(
            super::suppression_event(SuppressionKind::Enable),
            before,
            before.step(moved),
        ),
        !ring::notification_due(
            super::suppression_event(SuppressionKind::Disable),
            before,
            before.step(moved),
        ),
        ring::notification_due(
            super::suppression_event(SuppressionKind::Descriptor(before.step(at))),
            before,
            before.step(moved),
        ) <==> at < moved,
{
    law_positions_count_descriptors(before, at);
    law_positions_count_descriptors(before, moved);
    law_told_position_reads_back(before.step(at));
}

/// A descriptor is not both available and used in one wrap round, nor available in both, nor
/// used in both.
pub proof fn law_flags_tell_one_state(flags: u16, wrap: bool)
    ensures
        !(desc::avail_in(flags, wrap) && desc::used_in(flags, wrap)),
        !(desc::avail_in(flags, wrap) && desc::avail_in(flags, !wrap)),
        !(desc::used_in(flags, wrap) && desc::used_in(flags, !wrap)),
        desc::avail_in(flags, true) || desc::avail_in(flags, false) || desc::used_in(flags, true)
            || desc::used_in(flags, false),
{
}

/// What a notification reports adds up to the ring.
pub proof fn law_reported_descriptors_add_up(driver: RingProducer, device: RingConsumer)
    requires
        driver.wf(),
        device.wf(),
    ensures
        producer::driver_stats(driver).num_free == driver.num_free,
        producer::driver_stats(driver).num_free + producer::driver_stats(driver).num_inflight
            == driver.layout.descs(),
        consumer::device_stats(device).num_inflight == device.num_inflight,
        consumer::device_stats(device).num_free + consumer::device_stats(device).num_inflight
            == device.layout.descs(),
{
    ring::lemma_counts_nonneg(driver.id_num@);
}

/// The peer is notified at most once, and only where it asked for it.
pub proof fn law_notifications_are_those_asked_for<N: Notifier>(
    sent: Seq<super::QueueStats>,
    mem: MemView,
    before: RingCursor,
    after: RingProducer,
)
    ensures
        ({
            let now = VirtqProducer::<N>::kicked(sent, mem, before, after);
            let due = ring::notification_due(
                desc::event_in(mem, after.layout.dev_evt()),
                before,
                after.avail_cursor,
            );
            &&& due ==> now.len() == sent.len() + 1 && now.take(sent.len() as int) == sent
                && now.last() == producer::driver_stats(after)
            &&& !due ==> now == sent
        }),
{
    let now = VirtqProducer::<N>::kicked(sent, mem, before, after);
    if now.len() > sent.len() {
        assert(now.take(sent.len() as int) =~= sent);
    }
}

/// A chain can be published exactly when its descriptors are free, a place for its record is
/// left and its identifier is not in flight. A queue that is full for now says so.
pub proof fn law_chain_is_published_where_there_is_room<N: Notifier>(
    queue: VirtqProducer<N>,
    count: int,
)
    requires
        queue.wf(),
    ensures
        ({
            let full = queue.inflight.chains().len() >= queue.inflight.ids() || count
                > queue.inner.num_free;
            &&& full <==> queue.publish_error(count) == Some(VirtqError::Backpressure)
            &&& queue.publish_error(count) is None <==> !full && !queue.inflight.has(
                queue.next().id,
            )
        }),
{
    queue.inflight.lemma_wf();
}

/// Chains that go out one after the other have different tokens.
pub proof fn law_successive_tokens_differ<N: Notifier>(
    queue: VirtqProducer<N>,
    next: VirtqProducer<N>,
    chain: super::SendChain,
)
    requires
        queue.tracks(next, chain),
    ensures
        queue.next() != next.next(),
        next.inflight.chains().len() == queue.inflight.chains().len() + 1,
        next.inflight.chains().last().token == queue.next(),
        next.inflight.chains().last().chain == chain.owned,
        next.next_token == if queue.next_token == u32::MAX {
            0
        } else {
            queue.next_token + 1
        },
{
}

/// A used chain comes back under the token that it went out with, and is in flight no longer.
/// It is an acknowledgement where the chain had no buffer to be written, and data otherwise.
pub proof fn law_used_chain_comes_back_under_its_token<N: Notifier>(
    queue: VirtqProducer<N>,
    after: VirtqProducer<N>,
    mem: MemView,
    chain: UsedChain,
)
    requires
        queue.polled(after, mem, Ok(Some(chain))),
    ensures
        exists|i: int|
            0 <= i < queue.inflight.chains().len() && (#[trigger] queue.inflight.chains()[i]).token
                == chain.token_view() && (chain is Ack <==> queue.inflight.chains()[i].chain.readable
                == queue.inflight.chains()[i].chain.buffers@.len()),
        after.inflight.chains().len() == queue.inflight.chains().len() - 1,
        queue.inner.used_result(mem) matches Ok(used) && used.id == chain.token_view().id,
        after.next_token == queue.next_token,
        after.notifier == queue.notifier,
{
    let used = queue.inner.used_result(mem)->Ok_0;
    let at = queue.inflight.place(used.id);
    assert(queue.inflight.chains()[at].token == chain.token_view());
}

/// Chains that are buffered are those that carry data, in their order.
pub proof fn law_buffered_chains_carry_data(chains: Seq<UsedChain>, chain: UsedChain)
    ensures
        producer::data_chains(chains.push(chain)) == if chain is Data {
            producer::data_chains(chains).push(chain)
        } else {
            producer::data_chains(chains)
        },
        producer::data_chains(Seq::empty()).len() == 0,
{
    reveal(Seq::filter);
    assert(chains.push(chain).drop_last() =~= chains);
}

/// Buffered chains come out first, the oldest before the others, and leave the ring alone.
pub proof fn law_buffered_chains_come_first<N: Notifier>(
    queue: VirtqProducer<N>,
    after: VirtqProducer<N>,
    mem: MemView,
    outcome: Result<Option<UsedChain>, VirtqError>,
)
    requires
        queue.poll_result(after, mem, outcome),
    ensures
        queue.pending@.len() > 0 ==> {
            &&& outcome == Ok::<Option<UsedChain>, VirtqError>(Some(queue.pending@[0]))
            &&& queue.pending@ == seq![queue.pending@[0]] + after.pending@
            &&& queue.same_ring(after)
        },
        queue.pending@.len() == 0 ==> after.pending@.len() == 0,
{
    if queue.pending@.len() > 0 {
        assert(queue.pending@ =~= seq![queue.pending@[0]] + queue.pending@.drop_first());
    }
}

/// A queue that buffers data is not reset. One that is reset has a ring as if new, no chain
/// in flight, and holds no slot of those it had.
pub proof fn law_reset_queue_is_as_if_new<N: Notifier>(
    queue: VirtqProducer<N>,
    after: VirtqProducer<N>,
    before_mem: MemView,
    after_mem: MemView,
    done: Result<(), VirtqError>,
)
    requires
        queue.wf(),
        queue.pool@.wf(),
        queue.resets(after, before_mem, after_mem, done),
    ensures
        queue.pending@.len() > 0 ==> done is Err && after == queue && after_mem == before_mem,
        done is Ok ==> {
            &&& after.inner.fresh(queue.inner.layout)
            &&& after.inflight.chains().len() == 0
            &&& after.inner.num_free == queue.inner.layout.descs()
            &&& after.next_token == 0
            &&& forall|c: int, i: int|
                0 <= c < queue.inflight.chains().len() && 0 <= i
                    < queue.inflight.chains()[c].chain.buffers@.len() ==> !after.pool@.live(
                    (#[trigger] queue.inflight.chains()[c].chain.buffers@[i]).addr,
                )
        },
{
    if done is Ok {
        let chains = queue.inflight.chains();
        assert forall|c: int, i: int|
            0 <= c < chains.len() && 0 <= i < chains[c].chain.buffers@.len() implies !after.pool@.live(
            (#[trigger] chains[c].chain.buffers@[i]).addr,
        ) by {
            law_chains_given_back_hold_no_slot(queue.pool@, chains, c, i);
        }
    }
}

/// A device takes a chain exactly when its readable bytes keep to the reader's limit and its
/// writable ones can be counted; too many readable bytes are told with the limit.
pub proof fn law_device_takes_what_its_reader_can_hold(elems: Seq<BufferElement>, limit: usize)
    ensures
        ({
            let recv = consumer::elems_len(consumer::readable_part(elems));
            let room = consumer::elems_len(consumer::writable_part(elems));
            &&& consumer::refusal(elems, limit) is None <==> recv <= limit && room <= usize::MAX
            &&& recv > limit ==> (consumer::refusal(elems, limit) matches Some(
                VirtqError::PayloadTooLarge { recv: told, limit: kept },
            ) && kept == limit && (recv <= usize::MAX ==> told == recv))
            &&& recv <= limit && room > usize::MAX ==> consumer::refusal(elems, limit) == Some(
                VirtqError::BadChain,
            )
        }),
{
}

/// Every buffer of a chain is readable or writable, and their bytes add up.
pub proof fn law_parts_of_a_chain_add_up(elems: Seq<BufferElement>)
    ensures
        consumer::elems_len(consumer::readable_part(elems)) + consumer::elems_len(
            consumer::writable_part(elems),
        ) == consumer::elems_len(elems),
        consumer::readable_part(elems).len() + consumer::writable_part(elems).len()
            == elems.len(),
    decreases elems.len(),
{
    reveal(Seq::filter);
    if elems.len() > 0 {
        let rest = elems.drop_last();
        law_parts_of_a_chain_add_up(rest);
        let last = elems.last();
        assert(consumer::readable_part(rest).push(last).drop_last() =~= consumer::readable_part(
            rest,
        ));
        assert(consumer::writable_part(rest).push(last).drop_last() =~= consumer::writable_part(
            rest,
        ));
    }
}

/// The device is shown every buffer of a chain, in order: of a readable one what was written
/// to it, of a writable one all of it.
pub proof fn law_device_is_shown_every_buffer(
    records: Seq<BufferEntry>,
    readable: int,
    i: int,
)
    requires
        0 <= i < records.len(),
        0 <= readable <= records.len(),
    ensures
        ({
            let shown = entries::published_elems(records, readable);
            &&& shown.len() == records.len()
            &&& shown[i].addr == records[i].addr
            &&& i < readable ==> !shown[i].writable && shown[i].len == records[i].written
            &&& i >= readable ==> shown[i].writable && shown[i].len == records[i].capacity
        }),
{
}

/// A reply fills the writable buffers in order: a buffer that holds less than it could is the
/// last that holds any, no buffer holds more than it can, and readable ones hold nothing.
pub proof fn law_reply_fills_buffers_in_order(
    records: Seq<BufferEntry>,
    readable: int,
    written: int,
    i: int,
    j: int,
)
    requires
        0 <= readable,
        0 <= i < j < records.len(),
        0 <= written,
    ensures
        0 <= entries::share(records, readable, written, i) <= records[i].capacity,
        i < readable ==> entries::share(records, readable, written, i) == 0,
        readable <= i && entries::share(records, readable, written, j) > 0 ==> entries::share(
            records,
            readable,
            written,
            i,
        ) == records[i].capacity,
{
    lemma_room_grows(records, readable, i, j);
    if readable <= i {
        lemma_room_grows(records, readable, i + 1, j);
    }
}

/// The more buffers, the more room.
proof fn lemma_room_grows(records: Seq<BufferEntry>, from: int, a: int, b: int)
    requires
        a <= b,
    ensures
        entries::room(records, from, a) <= entries::room(records, from, b),
        0 <= entries::room(records, from, a),
        from <= a ==> entries::room(records, from, a + 1) == entries::room(records, from, a)
            + records[a].capacity,
    decreases b - a, a,
{
    if a < b {
        lemma_room_grows(records, from, a, b - 1);
    } else {
        lemma_room_nonneg(records, from, a);
    }
}

proof fn lemma_room_nonneg(records: Seq<BufferEntry>, from: int, to: int)
    ensures
        0 <= entries::room(records, from, to),
    decreases to - from,
{
    if to > from {
        lemma_room_nonneg(records, from, to - 1);
    }
}

/// The bytes of a reply that buffers hold together are all of it, as far as there is room.
pub proof fn law_reply_is_held_as_far_as_there_is_room(
    records: Seq<BufferEntry>,
    readable: int,
    written: int,
    n: int,
)
    requires
        0 <= readable,
        0 <= n <= records.len(),
        0 <= written,
    ensures
        held_bytes(records, readable, written, n) == if written < entries::room(
            records,
            readable,
            n,
        ) {
            written
        } else {
            entries::room(records, readable, n)
        },
    decreases n,
{
    if n > 0 {
        law_reply_is_held_as_far_as_there_is_room(records, readable, written, n - 1);
        lemma_room_nonneg(records, readable, n - 1);
        lemma_room_grows(records, readable, n - 1, n);
    }
}

/// The bytes of a reply that the first buffers hold together.
pub open spec fn held_bytes(
    records: Seq<BufferEntry>,
    readable: int,
    written: int,
    n: int,
) -> int
    decreases n,
{
    if n <= 0 {
        0
    } else {
        held_bytes(records, readable, written, n - 1) + entries::share(
            records,
            readable,
            written,
            n - 1,
        )
    }
}

/// Every buffer of a used chain is kept, because it holds reply bytes, or given back.
pub proof fn law_buffers_are_kept_or_given_back(
    records: Seq<BufferEntry>,
    readable: int,
    written: int,
    n: int,
)
    requires
        0 <= n <= records.len(),
    ensures
        entries::kept_slots(records, readable, written, 0, n).len() + entries::spare_slots(
            records,
            readable,
            written,
            0,
            n,
        ).len() == n,
        n > 0 ==> {
            let last = records[n - 1];
            if entries::share(records, readable, written, n - 1) > 0 {
                entries::kept_slots(records, readable, written, 0, n).last() == (Allocation {
                    addr: last.addr,
                    len: last.capacity,
                })
            } else {
                entries::spare_slots(records, readable, written, 0, n).last() == last.addr
            }
        },
    decreases n,
{
    if n > 0 {
        law_buffers_are_kept_or_given_back(records, readable, written, n - 1);
    }
}

/// An event suppression that is stored reads back as the peer's wish.
pub proof fn law_stored_wish_reads_back(kind: SuppressionKind)
    ensures
        EventSuppression::of_bytes(super::suppression_event(kind).to_bytes())
            == super::suppression_event(kind),
        super::suppression_event(kind).flags == match kind {
            SuppressionKind::Enable => 0u16,
            SuppressionKind::Disable => 1u16,
            SuppressionKind::Descriptor(_) => 2u16,
        },
{
    desc::law_event_round_trip(super::suppression_event(kind));
}

/// One chain is in flight less for each that was taken back, and the number of submissions
/// stays.
pub proof fn law_each_chain_taken_back_leaves_the_flight<N: Notifier>(
    queue: VirtqProducer<N>,
    after: VirtqProducer<N>,
    mem: MemView,
    chains: Seq<UsedChain>,
    trace: Seq<VirtqProducer<N>>,
)
    requires
        queue.ring_polls(after, mem, chains, trace),
    ensures
        after.inflight.chains().len() == queue.inflight.chains().len() - chains.len(),
        after.next_token == queue.next_token,
        after.notifier == queue.notifier,
{
    lemma_flight_shrinks(queue, mem, chains, trace, chains.len() as int);
}

proof fn lemma_flight_shrinks<N: Notifier>(
    queue: VirtqProducer<N>,
    mem: MemView,
    chains: Seq<UsedChain>,
    trace: Seq<VirtqProducer<N>>,
    n: int,
)
    requires
        trace.len() == chains.len() + 1,
        queue.same_ring(trace[0]),
        forall|i: int|
            0 <= i < chains.len() ==> (#[trigger] trace[i]).polled(
                trace[i + 1],
                mem,
                Ok(Some(chains[i])),
            ),
        0 <= n <= chains.len(),
    ensures
        trace[n].inflight.chains().len() == queue.inflight.chains().len() - n,
        trace[n].next_token == queue.next_token,
        trace[n].notifier == queue.notifier,
    decreases n,
{
    if n > 0 {
        lemma_flight_shrinks(queue, mem, chains, trace, n - 1);
        assert(trace[n - 1].polled(trace[n - 1 + 1], mem, Ok(Some(chains[n - 1]))));
        law_used_chain_comes_back_under_its_token(trace[n - 1], trace[n], mem, chains[n - 1]);
    }
}

/// Taking back all used chains takes as many as it counts, leaves none in the ring, and
/// buffers those with data behind what was buffered.
pub proof fn law_reclaiming_takes_every_used_chain<N: Notifier>(
    queue: VirtqProducer<N>,
    after: VirtqProducer<N>,
    mem: MemView,
    count: usize,
)
    requires
        queue.reclaims(after, mem, Ok(count)),
    ensures
        after.inflight.chains().len() == queue.inflight.chains().len() - count,
        after.inner.used_result(mem) == Err::<ring::UsedBuffer, ring::RingError>(
            ring::RingError::WouldBlock,
        ),
        after.pending@.len() >= queue.pending@.len(),
        after.pending@.take(queue.pending@.len() as int) == queue.pending@,
        after.pending@.len() <= queue.pending@.len() + count,
        forall|i: int|
            queue.pending@.len() <= i < after.pending@.len() ==> (#[trigger] after.pending@[i]) is Data,
{
    let (mid, chains, trace) = choose|
        mid: VirtqProducer<N>,
        chains: Seq<UsedChain>,
        trace: Seq<VirtqProducer<N>>,
    |
        {
            &&& #[trigger] queue.ring_polls(mid, mem, chains, trace)
            &&& mid.pending@ == queue.pending@ + producer::data_chains(chains)
            &&& after.pending@ == mid.pending@
            &&& chains.len() == count
            &&& mid.same_ring(after)
        };
    law_each_chain_taken_back_leaves_the_flight(queue, mid, mem, chains, trace);
    let data = producer::data_chains(chains);
    let carries = |c: UsedChain| c is Data;
    chains.lemma_filter_len(carries);
    assert(after.pending@.take(queue.pending@.len() as int) =~= queue.pending@);
    assert forall|i: int| queue.pending@.len() <= i < after.pending@.len() implies (
    #[trigger] after.pending@[i]) is Data by {
        let k = i - queue.pending@.len();
        chains.lemma_filter_pred(carries, k);
        assert(after.pending@[i] == data[k]);
    }
}

/// Draining hands out what was buffered, then every used chain, and leaves nothing buffered
/// and nothing used in the ring.
pub proof fn law_draining_hands_out_everything<N: Notifier>(
    queue: VirtqProducer<N>,
    after: VirtqProducer<N>,
    mem: MemView,
    taken: Seq<UsedChain>,
)
    requires
        queue.drains(after, mem, taken, Ok(())),
    ensures
        after.pending@.len() == 0,
        after.inner.used_result(mem) == Err::<ring::UsedBuffer, ring::RingError>(
            ring::RingError::WouldBlock,
        ),
        taken.len() >= queue.pending@.len(),
        taken.take(queue.pending@.len() as int) == queue.pending@,
        after.inflight.chains().len() == queue.inflight.chains().len() - (taken.len()
            - queue.pending@.len()),
{
    let (mid, chains, trace) = choose|
        mid: VirtqProducer<N>,
        chains: Seq<UsedChain>,
        trace: Seq<VirtqProducer<N>>,
    |
        {
            &&& #[trigger] queue.ring_polls(mid, mem, chains, trace)
            &&& taken == queue.pending@ + chains
            &&& mid.same_ring(after)
        };
    law_each_chain_taken_back_leaves_the_flight(queue, mid, mem, chains, trace);
    assert(taken.take(queue.pending@.len() as int) =~= queue.pending@);
}

/// A device gives a chain back that it does not take: it holds as many descriptors as before,
/// and the next chain is the one behind it.
pub proof fn law_refused_chain_goes_back_unwritten<N: Notifier>(
    device: VirtqConsumer<N>,
    after: VirtqConsumer<N>,
    before_mem: MemView,
    after_mem: MemView,
    id: u16,
    count: int,
)
    requires
        device.wf(),
        id < device.inner.layout.descs(),
        device.inner.id_num@[id as int] == 0,
        0 < count <= device.inner.layout.descs(),
        device.gave_back(after, before_mem, after_mem, id, count),
    ensures
        after.inner.num_inflight == device.inner.num_inflight,
        after.inner.id_num@ == device.inner.id_num@,
        after.inner.avail_cursor == device.inner.avail_cursor.step(count),
        after.inner.used_cursor == device.inner.used_cursor.step(count),
        exists|mid: RingConsumer| #[trigger] mid.marked_used(before_mem, after_mem, id, 0),
{
    let mid = choose|mid: RingConsumer|
        {
            &&& #[trigger] device.inner.after_poll(mid, id, count)
            &&& mid.after_used(after.inner, id)
            &&& mid.marked_used(before_mem, after_mem, id, 0)
        };
    assert(after.inner.id_num@ =~= device.inner.id_num@);
}

/// Chains that a device takes one after the other have different tokens, and each names the
/// chain's identifier.
pub proof fn law_device_tokens_differ<N: Notifier>(
    device: VirtqConsumer<N>,
    next: VirtqConsumer<N>,
    id: u16,
    other: u16,
    count: int,
)
    requires
        device.took(next, id, count),
    ensures
        device.token_for(id).id == id,
        device.token_for(id) != next.token_for(other),
        next.notifier == device.notifier,
{
}

/// The driver is notified of a completion at most once, and exactly where it asked for it.
pub proof fn law_driver_is_notified_as_it_asked(
    sent: Seq<super::QueueStats>,
    mem: MemView,
    before: RingConsumer,
    after: RingConsumer,
)
    ensures
        ({
            let now = consumer::sent_after(sent, mem, before, after);
            let due = ring::notification_due(
                desc::event_in(mem, before.layout.drv_evt()),
                before.used_cursor,
                after.used_cursor,
            );
            &&& due ==> now.drop_last() == sent && now.last() == consumer::device_stats(after)
            &&& !due ==> now == sent
        }),
{
    let now = consumer::sent_after(sent, mem, before, after);
    if now.len() > sent.len() {
        assert(now.drop_last() =~= sent);
    }
}

/// A chain's reader and writer go through it from its start: what stopped short was within it,
/// and what was passed over before is not passed over again.
pub proof fn law_reading_goes_on_where_it_stopped(
    chain: consumer::RecvChain,
    after: consumer::RecvChain,
    mem: MemView,
    before_buf: Seq<u8>,
    after_buf: Seq<u8>,
)
    requires
        chain.wf(),
        0 <= chain.pos(),
        after.pos() <= chain.payload(mem).len(),
        chain.read_until(after, mem, before_buf, after_buf),
    ensures
        ({
            let n = after.pos() - chain.pos();
            &&& after_buf.len() == before_buf.len()
            &&& after_buf.take(n) == chain.payload(mem).subrange(chain.pos(), after.pos())
            &&& after_buf.skip(n) == before_buf.skip(n)
        }),
{
    let n = after.pos() - chain.pos();
    let part = chain.payload(mem).subrange(chain.pos(), after.pos());
    assert(part.len() == n);
    assert((part + before_buf.skip(n)).take(n) =~= part);
    assert((part + before_buf.skip(n)).skip(n) =~= before_buf.skip(n));
}

/// A batch is notified of as a whole: it begins where its first chain went out, however many
/// follow.
pub proof fn law_batch_begins_with_its_first_chain(cursors: Seq<RingCursor>)
    ensures
        cursors.len() == 0 ==> producer::batch_of(cursors) is None,
        cursors.len() > 0 ==> producer::batch_of(cursors) == Some(cursors[0]),
    decreases cursors.len(),
{
    if cursors.len() > 0 {
        law_batch_begins_with_its_first_chain(cursors.drop_last());
    }
}

/// Every chain in flight can be given back exactly where each of its slots is handed out when
/// its turn comes; what fails names a slot of one of the chains.
pub proof fn law_giving_chains_back_fails_at_a_slot_of_theirs(
    pool: PoolView,
    chains: Seq<Inflight>,
)
    requires
        pool.wf(),
    ensures
        inflight::chains_error(pool, chains) is None ==> forall|c: int, i: int|
            0 <= c < chains.len() && 0 <= i < chains[c].chain.buffers@.len() ==> pool.live(
                (#[trigger] chains[c].chain.buffers@[i]).addr,
            ),
        inflight::chains_error(pool, chains) matches Some(error) ==> exists|c: int, i: int|
            0 <= c < chains.len() && 0 <= i < chains[c].chain.buffers@.len() && error
                == AllocError::InvalidFree((#[trigger] chains[c].chain.buffers@[i]).addr, 0),
    decreases chains.len(),
{
    if chains.len() > 0 {
        let rest = chains.drop_last();
        let last = chains.last().chain.buffers@;
        let addrs = entries::addrs_of(last);
        let next = entries::released(pool, addrs);
        law_release_fails_at_a_slot_not_handed_out(pool, addrs);
        law_released_slots_are_given_back(pool, addrs, 0);
        law_giving_chains_back_fails_at_a_slot_of_theirs(next, rest);
        if inflight::chains_error(pool, chains) is None {
            assert forall|c: int, i: int|
                0 <= c < chains.len() && 0 <= i < chains[c].chain.buffers@.len() implies pool.live(
                (#[trigger] chains[c].chain.buffers@[i]).addr,
            ) by {
                let addr = chains[c].chain.buffers@[i].addr;
                if c < rest.len() {
                    assert(rest[c] == chains[c]);
                    assert(next.live(rest[c].chain.buffers@[i].addr));
                    law_released_slots_are_given_back(pool, addrs, addr);
                } else {
                    assert(addrs[i] == addr);
                }
            }
        } else if entries::release_error(pool, addrs) is Some {
            let i = choose|i: int|
                0 <= i < addrs.len() && entries::release_error(pool, addrs)->0
                    == AllocError::InvalidFree(#[trigger] addrs[i], 0);
            let c = chains.len() - 1;
            assert(chains[c].chain.buffers@[i].addr == addrs[i]);
        } else {
            let (c, i) = choose|c: int, i: int|
                0 <= c < rest.len() && 0 <= i < rest[c].chain.buffers@.len()
                    && inflight::chains_error(next, rest)->0 == AllocError::InvalidFree(
                    (#[trigger] rest[c].chain.buffers@[i]).addr,
                    0,
                );
            assert(chains[c].chain.buffers@[i].addr == rest[c].chain.buffers@[i].addr);
        }
    }
}

/// A peer that is told nothing it knows is notified of every move.
pub proof fn law_unknown_wish_is_notified(
    event: EventSuppression,
    before: RingCursor,
    after: RingCursor,
)
    requires
        event.flags != 1,
        event.flags != 2,
    ensures
        ring::notification_due(event, before, after),
{
}

/// Tiers of one slot size that follow each other make a pool exactly where they could be laid
/// out as one, and are too large otherwise.
pub proof fn law_adjacent_tiers_of_one_size_merge(lower: SlotLayout, upper: SlotLayout)
    requires
        lower.wf(),
        upper.wf(),
        lower.size() == upper.size(),
        lower.end() == upper.base(),
    ensures
        ({
            let merged = slot::placeable(
                lower.base() as int,
                lower.size() as int,
                lower.slots() + upper.slots(),
            );
            &&& merged ==> slot::tiers_error(lower, upper) is None
            &&& !merged ==> slot::tiers_error(lower, upper) == Some(AllocError::Overflow)
        }),
{
}

/// Failures convert as they are: a pool without a free slot is a full queue, and every other
/// failure is passed on.
pub proof fn law_failures_convert_as_they_are(failed: AllocError)
    ensures
        <VirtqError as vstd::std_specs::convert::FromSpec<AllocError>>::from_spec(failed) == if failed
            == AllocError::NoSpace {
            VirtqError::Backpressure
        } else {
            VirtqError::Alloc(failed)
        },
{
}

/// A reply is what it was made from: a chain to write to, or an acknowledgement.
pub proof fn law_reply_is_what_it_was_made_from(
    writable: super::WritableChain,
    ack: super::AckChain,
)
    ensures
        <super::ReplyChain as vstd::std_specs::convert::FromSpec<super::WritableChain>>::from_spec(
            writable,
        ) == super::ReplyChain::Writable(writable),
        <super::ReplyChain as vstd::std_specs::convert::FromSpec<super::AckChain>>::from_spec(ack)
            == super::ReplyChain::Ack(ack),
        super::ReplyChain::Writable(writable).token_view() == writable.token_view(),
        super::ReplyChain::Ack(ack).token_view() == ack.token_view(),
        super::ReplyChain::Ack(ack).elems().len() == 0,
        super::ReplyChain::Writable(writable).elems() == writable.elems(),
{
}

/// A slot is free exactly where a request could be answered with it, and is then not handed
/// out.
pub proof fn law_free_slots_are_not_handed_out(pool: PoolView, slot: Allocation)
    requires
        pool.wf(),
        pool.free_slot(slot),
    ensures
        pool.is_free(slot.addr),
        !pool.live(slot.addr),
        slot.len == pool.upper.layout.size() || (pool.lower matches Some(lower) && slot.len
            == lower.layout.size()),
{
    if pool.upper.free.contains(slot.addr) {
        let k = choose|k: int| 0 <= k < pool.upper.free.len() && pool.upper.free[k] == slot.addr;
        assert(pool.upper.is_slot(pool.upper.free[k]));
    }
    if let Some(lower) = pool.lower {
        if lower.free.contains(slot.addr) {
            let k = choose|k: int| 0 <= k < lower.free.len() && lower.free[k] == slot.addr;
            assert(lower.is_slot(lower.free[k]));
        }
    }
}

/// What is written to a chain goes behind what was written before, and nothing outside its
/// readable buffers changes.
pub proof fn law_written_bytes_follow_each_other(
    chain: super::SendChain,
    after: super::SendChain,
    before_mem: MemView,
    after_mem: MemView,
    data: Seq<u8>,
)
    requires
        chain.appended(after, before_mem, after_mem, data),
    ensures
        ({
            let n = after.rd_written - chain.rd_written;
            let old_len = chain.payload(before_mem).len() as int;
            let payload = after.payload(after_mem);
            &&& payload.len() == old_len + n
            &&& payload.take(old_len) == chain.payload(before_mem)
            &&& payload.skip(old_len) == data.take(n)
        }),
{
    let n = after.rd_written - chain.rd_written;
    let old_len = chain.payload(before_mem).len() as int;
    let payload = after.payload(after_mem);
    assert(payload.take(old_len) =~= chain.payload(before_mem));
    assert(payload.skip(old_len) =~= data.take(n));
}

/// A tier after so many requests for `len` bytes.
pub open spec fn tier_after(tier: slot::TierView, len: int, count: nat) -> slot::TierView
    decreases count,
{
    if count == 0 {
        tier
    } else {
        tier_after(tier, len, (count - 1) as nat).after_alloc(len)
    }
}

/// A tier that is laid out anew is handed out from its end to its start, one whole slot after
/// the other, until none is left.
pub proof fn law_new_tier_is_handed_out_from_its_end(layout: SlotLayout, len: int, count: nat)
    requires
        layout.wf(),
        0 < len <= layout.size(),
        count <= layout.slots(),
    ensures
        ({
            let answer = tier_after(slot::TierView::fresh(layout), len, count).alloc_result(len);
            if count == layout.slots() {
                answer == Err::<Allocation, AllocError>(AllocError::NoSpace)
            } else {
                answer matches Ok(found) && found.len == layout.size() && found.addr
                    == layout.end() - (count + 1) * layout.size()
            }
        }),
{
    let fresh = slot::TierView::fresh(layout);
    let left = (layout.slots() - count) as nat;
    lemma_tier_after(layout, len, count);
    if left > 0 {
        let size = layout.size() as int;
        let slots = layout.slots() as int;
        assert((left - 1) * size == slots * size - (count + 1) * size) by (nonlinear_arith)
            requires
                left == slots - count,
        ;
        assert(size * slots == slots * size) by (nonlinear_arith);
        assert(0 <= (left - 1) * size <= slots * size) by (nonlinear_arith)
            requires
                0 < left <= slots,
                0 < size,
        ;
        assert(fresh.free.take(left as int).last() == fresh.free[left - 1]);
    }
}

proof fn lemma_tier_after(layout: SlotLayout, len: int, count: nat)
    requires
        0 < len <= layout.size(),
        count <= layout.slots(),
    ensures
        tier_after(slot::TierView::fresh(layout), len, count).layout == layout,
        tier_after(slot::TierView::fresh(layout), len, count).free == slot::TierView::fresh(
            layout,
        ).free.take(layout.slots() - count),
    decreases count,
{
    let fresh = slot::TierView::fresh(layout);
    if count == 0 {
        assert(fresh.free.take(layout.slots() as int) =~= fresh.free);
    } else {
        lemma_tier_after(layout, len, (count - 1) as nat);
        let left = layout.slots() - count;
        assert(fresh.free.take(left + 1).drop_last() =~= fresh.free.take(left));
    }
}

} // verus!
