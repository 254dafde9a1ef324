//! Buffers that a chain holds from its pool.

use smallvec::SmallVec;
use vstd::prelude::*;

use super::access::{BufferMap, MemView};
use super::buffer::chunk_list::ChunkList;
use super::buffer::{BufferLease, Segments};
use super::pool::slot;
use super::pool::slot::PoolView;
use super::pool::{AllocError, Allocation, SlotPool};
use super::ring::BufferElement;
use super::VirtqError;
use crate::octets;

verus! {

/// Tracks a pool slot's capacity and initialized length for writes and reply mappings.
///
/// [`BufferElement::len`] carries only the length published to the peer.
#[derive(Debug, Clone, Copy, PartialEq, Eq, Structural)]
pub struct BufferEntry {
    /// Buffer base address used for memory access and release through the pool.
    pub addr: u64,
    /// Usable bytes.
    pub capacity: u32,
    /// Initialized prefix length.
    pub written: u32,
}

/// Allocation records, kept inline up to four of them.
#[verifier::external_body]
pub struct EntryList {
    items: SmallVec<[BufferEntry; 4]>,
}

/// The records an entry list holds.
pub uninterp spec fn entry_items(list: EntryList) -> Seq<BufferEntry>;

impl View for EntryList {
    type V = Seq<BufferEntry>;

    open spec fn view(&self) -> Seq<BufferEntry> {
        entry_items(*self)
    }
}

impl EntryList {
    /// `SmallVec::new`: an empty vector.
    #[verifier::external_body]
    pub(crate) fn new() -> (list: EntryList)
        ensures
            entry_items(list) == Seq::<BufferEntry>::empty(),
    {
        EntryList { items: SmallVec::new() }
    }

    /// `SmallVec::try_reserve_exact`: asks the allocator for room and keeps the
    /// items. The inline room of four items needs no allocator; past it, whether
    /// room is found depends on the allocator.
    #[verifier::external_body]
    pub(crate) fn try_reserve_exact(&mut self, additional: usize) -> (reserved: bool)
        ensures
            entry_items(*final(self)) == entry_items(*old(self)),
            entry_items(*old(self)).len() + additional <= 4 ==> reserved,
    {
        self.items.try_reserve_exact(additional).is_ok()
    }

    /// `SmallVec::push`: appends one record.
    #[verifier::external_body]
    pub(crate) fn push(&mut self, entry: BufferEntry)
        ensures
            entry_items(*final(self)) == entry_items(*old(self)).push(entry),
    {
        self.items.push(entry)
    }

    /// `SmallVec::pop`: removes and returns the last record, or `None` when empty.
    #[verifier::external_body]
    pub(crate) fn pop(&mut self) -> (entry: Option<BufferEntry>)
        ensures
            entry_items(*old(self)).len() == 0 ==> entry is None && entry_items(*final(self))
                == entry_items(*old(self)),
            entry_items(*old(self)).len() > 0 ==> entry == Some(entry_items(*old(self)).last())
                && entry_items(*final(self)) == entry_items(*old(self)).drop_last(),
    {
        self.items.pop()
    }

    /// `SmallVec::as_slice`: the records.
    #[verifier::external_body]
    pub(crate) fn as_slice(&self) -> (entries: &[BufferEntry])
        ensures
            entries@ == entry_items(*self),
    {
        self.items.as_slice()
    }

    /// `SmallVec::index_mut`: replaces one record.
    #[verifier::external_body]
    pub(crate) fn set(&mut self, index: usize, entry: BufferEntry)
        requires
            index < entry_items(*old(self)).len(),
        ensures
            entry_items(*final(self)) == entry_items(*old(self)).update(index as int, entry),
    {
        self.items[index] = entry
    }
}

/// The addresses of the records.
pub open spec fn addrs_of(entries: Seq<BufferEntry>) -> Seq<u64> {
    entries.map_values(|e: BufferEntry| e.addr)
}

/// The pool after the slots were given back, the last first.
pub open spec fn released(pool: PoolView, addrs: Seq<u64>) -> PoolView
    decreases addrs.len(),
{
    if addrs.len() == 0 {
        pool
    } else {
        released(pool.after_dealloc(addrs.last()), addrs.drop_last())
    }
}

/// The first failure when the slots are given back, the last first.
pub open spec fn release_error(pool: PoolView, addrs: Seq<u64>) -> Option<AllocError>
    decreases addrs.len(),
{
    if addrs.len() == 0 {
        None
    } else if !pool.live(addrs.last()) {
        Some(AllocError::InvalidFree(addrs.last(), 0))
    } else {
        release_error(pool.after_dealloc(addrs.last()), addrs.drop_last())
    }
}

/// Slots that are handed out, each named once.
pub open spec fn all_live(pool: PoolView, addrs: Seq<u64>) -> bool {
    &&& addrs.no_duplicates()
    &&& forall|i: int| 0 <= i < addrs.len() ==> pool.live(#[trigger] addrs[i])
}

/// Giving back one slot leaves every other one as it was.
pub proof fn lemma_dealloc_other(pool: PoolView, addr: u64, other: u64)
    requires
        addr != other,
    ensures
        pool.after_dealloc(addr).live(other) == pool.live(other),
{
    if let Some(lower) = pool.lower {
        lemma_push_other(lower.free, addr, other);
    }
    lemma_push_other(pool.upper.free, addr, other);
}

proof fn lemma_push_other(free: Seq<u64>, addr: u64, other: u64)
    requires
        addr != other,
    ensures
        free.push(addr).contains(other) == free.contains(other),
{
    if free.contains(other) {
        let i = choose|i: int| 0 <= i < free.len() && free[i] == other;
        assert(free.push(addr)[i] == other);
    }
    if free.push(addr).contains(other) {
        let i = choose|i: int| 0 <= i < free.push(addr).len() && free.push(addr)[i] == other;
        assert(free[i] == other);
    }
}

/// Slots that are handed out can all be given back.
pub proof fn lemma_all_live_release(pool: PoolView, addrs: Seq<u64>)
    requires
        all_live(pool, addrs),
    ensures
        release_error(pool, addrs) is None,
    decreases addrs.len(),
{
    if addrs.len() > 0 {
        let last = addrs.last();
        assert(pool.live(addrs[addrs.len() - 1]));
        let rest = addrs.drop_last();
        assert forall|i: int| 0 <= i < rest.len() implies pool.after_dealloc(last).live(
            #[trigger] rest[i],
        ) by {
            assert(pool.live(addrs[i]));
            lemma_dealloc_other(pool, last, addrs[i]);
        }
        lemma_all_live_release(pool.after_dealloc(last), rest);
    }
}

/// The pool after requests for these lengths, one after another.
pub open spec fn pool_after(start: PoolView, lens: Seq<int>) -> PoolView
    decreases lens.len(),
{
    if lens.len() == 0 {
        start
    } else {
        pool_after(start, lens.drop_last()).after_alloc(lens.last())
    }
}

/// The answers to requests for these lengths, one after another, or `None` if one
/// of them fails.
pub open spec fn answers(start: PoolView, lens: Seq<int>) -> Option<Seq<Allocation>>
    decreases lens.len(),
{
    if lens.len() == 0 {
        Some(Seq::empty())
    } else {
        match answers(start, lens.drop_last()) {
            None => None,
            Some(before) => match pool_after(start, lens.drop_last()).alloc_result(lens.last()) {
                Ok(last) => Some(before.push(last)),
                Err(_) => None,
            },
        }
    }
}

pub open spec fn allocation_addrs(allocations: Seq<Allocation>) -> Seq<u64> {
    allocations.map_values(|a: Allocation| a.addr)
}

/// One request more.
pub proof fn lemma_answers_push(start: PoolView, lens: Seq<int>, len: int)
    ensures
        pool_after(start, lens.push(len)) == pool_after(start, lens).after_alloc(len),
        answers(start, lens.push(len)) == match answers(start, lens) {
            None => None,
            Some(before) => match pool_after(start, lens).alloc_result(len) {
                Ok(last) => Some(before.push(last)),
                Err(_) => None,
            },
        },
{
    assert(lens.push(len).drop_last() =~= lens);
}

/// A failed request is not made up for by later ones.
pub proof fn lemma_answers_prefix(start: PoolView, lens: Seq<int>, k: int)
    requires
        0 <= k <= lens.len(),
        answers(start, lens.take(k)) is None,
    ensures
        answers(start, lens) is None,
    decreases lens.len() - k,
{
    if k < lens.len() {
        assert(lens.take(k + 1).drop_last() =~= lens.take(k));
        lemma_answers_prefix(start, lens, k + 1);
    } else {
        assert(lens.take(k) =~= lens);
    }
}

/// A request that a pool answers leaves it well-formed, with the slot live and
/// every live slot still live.
pub proof fn lemma_alloc_keeps(pool: PoolView, len: int)
    requires
        pool.wf(),
        pool.alloc_result(len) is Ok,
    ensures
        pool.after_alloc(len).wf(),
        pool.after_alloc(len).live(pool.alloc_result(len)->Ok_0.addr),
        pool.after_alloc(len).live_len(pool.alloc_result(len)->Ok_0.addr) == pool.alloc_result(
            len,
        )->Ok_0.len,
        forall|a: u64| #[trigger] pool.live(a) ==> pool.after_alloc(len).live(a),
        forall|a: u64|
            pool.live(a) ==> pool.after_alloc(len).live_len(a) == #[trigger] pool.live_len(a),
{
    slot::law_dealloc_undoes_alloc(pool, len);
    let addr = pool.alloc_result(len)->Ok_0.addr;
    let after = pool.after_alloc(len);
    let tier = if pool.lower_answers(len) {
        pool.lower->0
    } else {
        pool.upper
    };
    let rest = tier.free.drop_last();
    assert forall|i: int| 0 <= i < rest.len() implies tier.is_slot(#[trigger] rest[i]) by {
        assert(rest[i] == tier.free[i]);
    }
    assert(tier.is_slot(tier.free[tier.free.len() - 1]));
    assert forall|a: u64| #![auto] rest.contains(a) implies tier.free.contains(a) by {
        let i = choose|i: int| 0 <= i < rest.len() && rest[i] == a;
        assert(tier.free[i] == a);
    }
    assert forall|a: u64| #[trigger] pool.live(a) implies after.live(a) && after.live_len(a)
        == pool.live_len(a) by {
        if pool.upper.live(a) {
            assert(after.upper.live(a));
        }
    }
}

/// The answers are slots that are live afterwards, each one another.
pub proof fn lemma_answers_live(start: PoolView, lens: Seq<int>)
    requires
        start.wf(),
        answers(start, lens) is Some,
    ensures
        pool_after(start, lens).wf(),
        answers(start, lens)->0.len() == lens.len(),
        all_live(pool_after(start, lens), allocation_addrs(answers(start, lens)->0)),
        forall|i: int|
            #![trigger answers(start, lens)->0[i]]
            0 <= i < lens.len() ==> pool_after(start, lens).live_len(
                answers(start, lens)->0[i].addr,
            ) == answers(start, lens)->0[i].len && lens[i] <= answers(start, lens)->0[i].len,
        forall|a: u64| #[trigger] start.live(a) ==> pool_after(start, lens).live(a),
        forall|a: u64| start.live(a) ==> !#[trigger] allocation_addrs(
            answers(start, lens)->0,
        ).contains(a),
    decreases lens.len(),
{
    let all = answers(start, lens)->0;
    if lens.len() > 0 {
        let head = lens.drop_last();
        lemma_answers_live(start, head);
        let mid = pool_after(start, head);
        let before = answers(start, head)->0;
        let last = mid.alloc_result(lens.last())->Ok_0;
        lemma_alloc_keeps(mid, lens.last());
        slot::law_alloc_hands_out_a_free_slot(mid, lens.last());
        assert(all == before.push(last));
        let addrs = allocation_addrs(all);
        let old_addrs = allocation_addrs(before);
        assert(addrs =~= old_addrs.push(last.addr));
        assert forall|i: int, j: int| 0 <= i < j < addrs.len() implies addrs[i] != addrs[j] by {
            assert(mid.live(old_addrs[i]));
        }
        assert forall|i: int| 0 <= i < addrs.len() implies pool_after(start, lens).live(
            #[trigger] addrs[i],
        ) by {
            if i < old_addrs.len() {
                assert(mid.live(old_addrs[i]));
            }
        }
        assert forall|i: int|
            #![trigger all[i]]
            0 <= i < lens.len() implies pool_after(start, lens).live_len(all[i].addr)
            == all[i].len && lens[i] <= all[i].len by {
            if i < head.len() {
                assert(all[i] == before[i]);
                assert(mid.live(old_addrs[i]));
                assert(mid.live_len(before[i].addr) == before[i].len);
            }
        }
        assert forall|a: u64| start.live(a) implies !#[trigger] addrs.contains(a) by {
            if addrs.contains(a) {
                let i = choose|i: int| 0 <= i < addrs.len() && addrs[i] == a;
                if i < old_addrs.len() {
                    assert(old_addrs[i] == a);
                    assert(old_addrs.contains(a));
                } else {
                    assert(mid.live(a));
                }
            }
        }
    } else {
        assert(allocation_addrs(all) =~= Seq::<u64>::empty());
    }
}

/// Giving back the answers, in reverse order, restores the pool.
pub proof fn lemma_answers_release(start: PoolView, lens: Seq<int>)
    requires
        start.wf(),
        answers(start, lens) is Some,
    ensures
        released(pool_after(start, lens), allocation_addrs(answers(start, lens)->0)) == start,
        release_error(pool_after(start, lens), allocation_addrs(answers(start, lens)->0)) is None,
    decreases lens.len(),
{
    lemma_answers_live(start, lens);
    lemma_all_live_release(
        pool_after(start, lens),
        allocation_addrs(answers(start, lens)->0),
    );
    if lens.len() > 0 {
        let head = lens.drop_last();
        lemma_answers_live(start, head);
        lemma_answers_release(start, head);
        slot::law_dealloc_undoes_alloc(pool_after(start, head), lens.last());
        let before = answers(start, head)->0;
        let all = answers(start, lens)->0;
        assert(allocation_addrs(all).drop_last() =~= allocation_addrs(before));
    }
}

/// Buffer ownership passed from a send chain to the in-flight table at publication.
pub struct OwnedChain {
    /// Allocation records in descriptor order.
    pub buffers: EntryList,
    /// Number of leading device readable buffers.
    pub readable: usize,
}

/// What the records publish to the device: the initialized prefix of readable
/// buffers, the whole of writable ones.
pub open spec fn published_elems(entries: Seq<BufferEntry>, readable: int) -> Seq<BufferElement> {
    Seq::new(
        entries.len(),
        |i: int|
            BufferElement {
                addr: entries[i].addr,
                len: if i >= readable {
                    entries[i].capacity
                } else {
                    entries[i].written
                },
                writable: i >= readable,
            },
    )
}

impl OwnedChain {
    pub open spec fn wf(self) -> bool {
        self.readable <= self.buffers@.len()
    }

    /// One [`BufferElement`] per direct descriptor, in chain order.
    ///
    /// The ring adds the descriptor IDs and flags that link the buffers.
    pub fn descriptors(&self) -> (elems: Vec<BufferElement>)
        ensures
            elems@ == published_elems(self.buffers@, self.readable as int),
    {
        let entries = self.buffers.as_slice();
        let mut elems: Vec<BufferElement> = Vec::new();
        let mut i: usize = 0;
        while i < entries.len()
            invariant
                i <= entries@.len(),
                entries@ == self.buffers@,
                elems@ =~= published_elems(self.buffers@, self.readable as int).take(i as int),
            decreases entries@.len() - i,
        {
            let writable: bool = i >= self.readable;
            let len: u32 = if writable {
                entries[i].capacity
            } else {
                entries[i].written
            };
            elems.push(BufferElement { addr: entries[i].addr, len, writable });
            i += 1;
        }
        elems
    }

    /// Give every buffer back to the pool, the last first, and report the first
    /// failure.
    pub fn release(self, pool: &mut SlotPool) -> (done: Result<(), AllocError>)
        requires
            old(pool).wf(),
        ensures
            final(pool).wf(),
            final(pool)@ == released(old(pool)@, addrs_of(self.buffers@)),
            done == match release_error(old(pool)@, addrs_of(self.buffers@)) {
                Some(e) => Err::<(), AllocError>(e),
                None => Ok(()),
            },
    {
        let mut this = self;
        let mut failure: Option<AllocError> = None;
        let ghost addrs = addrs_of(this.buffers@);
        let ghost start = pool@;
        loop
            invariant
                pool.wf(),
                released(pool@, addrs_of(this.buffers@)) == released(start, addrs),
                release_error(start, addrs) == match failure {
                    Some(e) => Some(e),
                    None => release_error(pool@, addrs_of(this.buffers@)),
                },
            ensures
                pool.wf(),
                this.buffers@.len() == 0,
                released(pool@, addrs_of(this.buffers@)) == released(start, addrs),
                release_error(start, addrs) == match failure {
                    Some(e) => Some(e),
                    None => release_error(pool@, addrs_of(this.buffers@)),
                },
            decreases this.buffers@.len(),
        {
            let ghost before = addrs_of(this.buffers@);
            let entry = match this.buffers.pop() {
                Some(entry) => entry,
                None => break,
            };
            proof {
                assert(addrs_of(this.buffers@) =~= before.drop_last());
            }
            match pool.dealloc(entry.addr) {
                Ok(()) => {},
                Err(err) => {
                    if failure.is_none() {
                        failure = Some(err);
                    }
                },
            }
        }
        match failure {
            Some(err) => Err(err),
            None => Ok(()),
        }
    }
}

/// Giving back two lists of slots is giving back the second, then the first.
proof fn lemma_released_concat(pool: PoolView, a: Seq<u64>, b: Seq<u64>)
    ensures
        released(pool, a + b) == released(released(pool, b), a),
    decreases b.len(),
{
    if b.len() == 0 {
        assert(a + b =~= a);
    } else {
        assert((a + b).drop_last() =~= a + b.drop_last());
        lemma_released_concat(pool.after_dealloc(b.last()), a, b.drop_last());
    }
}

/// Bytes that the writable buffers from `from` to `to` can hold.
pub open spec fn room(entries: Seq<BufferEntry>, from: int, to: int) -> int
    decreases to - from,
{
    if to <= from {
        0
    } else {
        room(entries, from, to - 1) + entries[to - 1].capacity
    }
}

/// Bytes of a reply of `written` bytes that lie in buffer `i`: the buffers are
/// filled in order, the readable ones not at all.
pub open spec fn share(entries: Seq<BufferEntry>, readable: int, written: int, i: int) -> int {
    let left = written - room(entries, readable, i);
    if i < readable || left <= 0 {
        0
    } else if left < entries[i].capacity {
        left
    } else {
        entries[i].capacity as int
    }
}

/// The reply's bytes, buffer by buffer, as far as buffers `from` to `to` go.
pub open spec fn reply_spans(
    mem: MemView,
    entries: Seq<BufferEntry>,
    readable: int,
    written: int,
    from: int,
    to: int,
) -> Seq<Seq<u8>>
    decreases to - from,
{
    if to <= from {
        Seq::empty()
    } else {
        let before = reply_spans(mem, entries, readable, written, from, to - 1);
        let len = share(entries, readable, written, to - 1);
        if len > 0 {
            before.push(mem.span(entries[to - 1].addr as int, len as nat))
        } else {
            before
        }
    }
}

/// The slots among buffers `from` to `to` that hold reply bytes.
pub open spec fn kept_slots(
    entries: Seq<BufferEntry>,
    readable: int,
    written: int,
    from: int,
    to: int,
) -> Seq<Allocation>
    decreases to - from,
{
    if to <= from {
        Seq::empty()
    } else {
        let before = kept_slots(entries, readable, written, from, to - 1);
        let entry = entries[to - 1];
        if share(entries, readable, written, to - 1) > 0 {
            before.push(Allocation { addr: entry.addr, len: entry.capacity })
        } else {
            before
        }
    }
}

/// The slots among buffers `from` to `to` that hold no reply bytes.
pub open spec fn spare_slots(
    entries: Seq<BufferEntry>,
    readable: int,
    written: int,
    from: int,
    to: int,
) -> Seq<u64>
    decreases to - from,
{
    if to <= from {
        Seq::empty()
    } else {
        let before = spare_slots(entries, readable, written, from, to - 1);
        if share(entries, readable, written, to - 1) > 0 {
            before
        } else {
            before.push(entries[to - 1].addr)
        }
    }
}

/// A reply is as long as was written, as far as the buffers go.
pub proof fn lemma_reply_len(
    mem: MemView,
    entries: Seq<BufferEntry>,
    readable: int,
    written: int,
    n: int,
)
    requires
        0 <= readable,
        0 <= n,
        0 <= written,
    ensures
        reply_spans(mem, entries, readable, written, 0, n).flatten().len() <= written,
        written <= room(entries, readable, n) ==> reply_spans(
            mem,
            entries,
            readable,
            written,
            0,
            n,
        ).flatten().len() == written,
        written > room(entries, readable, n) ==> reply_spans(
            mem,
            entries,
            readable,
            written,
            0,
            n,
        ).flatten().len() == room(entries, readable, n),
    decreases n,
{
    if n > 0 {
        lemma_reply_len(mem, entries, readable, written, n - 1);
        let before = reply_spans(mem, entries, readable, written, 0, n - 1);
        let len = share(entries, readable, written, n - 1);
        before.lemma_flatten_push(mem.span(entries[n - 1].addr as int, len as nat));
        assert(room(entries, readable, n) == if n <= readable {
            0
        } else {
            room(entries, readable, n - 1) + entries[n - 1].capacity
        });
    }
}

/// Adding the buffer in front.
proof fn lemma_slots_front(
    mem: MemView,
    entries: Seq<BufferEntry>,
    readable: int,
    written: int,
    from: int,
    to: int,
)
    requires
        0 < from <= to,
    ensures
        ({
            let len = share(entries, readable, written, from - 1);
            let entry = entries[from - 1];
            &&& spare_slots(entries, readable, written, from - 1, to) == (if len > 0 {
                Seq::empty()
            } else {
                seq![entry.addr]
            }) + spare_slots(entries, readable, written, from, to)
            &&& kept_slots(entries, readable, written, from - 1, to) == (if len > 0 {
                seq![Allocation { addr: entry.addr, len: entry.capacity }]
            } else {
                Seq::empty()
            }) + kept_slots(entries, readable, written, from, to)
            &&& reply_spans(mem, entries, readable, written, from - 1, to) == (if len > 0 {
                seq![mem.span(entry.addr as int, len as nat)]
            } else {
                Seq::empty()
            }) + reply_spans(mem, entries, readable, written, from, to)
        }),
    decreases to - from,
{
    let len = share(entries, readable, written, from - 1);
    let entry = entries[from - 1];
    if to > from {
        lemma_slots_front(mem, entries, readable, written, from, to - 1);
        let last = share(entries, readable, written, to - 1);
        let e = entries[to - 1];
        let spare: Seq<u64> = if len > 0 {
            Seq::empty()
        } else {
            seq![entry.addr]
        };
        let kept: Seq<Allocation> = if len > 0 {
            seq![Allocation { addr: entry.addr, len: entry.capacity }]
        } else {
            Seq::empty()
        };
        let span: Seq<Seq<u8>> = if len > 0 {
            seq![mem.span(entry.addr as int, len as nat)]
        } else {
            Seq::empty()
        };
        assert(spare_slots(entries, readable, written, from - 1, to) =~= spare + spare_slots(
            entries,
            readable,
            written,
            from,
            to,
        ));
        assert(kept_slots(entries, readable, written, from - 1, to) =~= kept + kept_slots(
            entries,
            readable,
            written,
            from,
            to,
        ));
        assert(reply_spans(mem, entries, readable, written, from - 1, to) =~= span + reply_spans(
            mem,
            entries,
            readable,
            written,
            from,
            to,
        ));
    } else {
        reveal_with_fuel(spare_slots, 2);
        reveal_with_fuel(kept_slots, 2);
        reveal_with_fuel(reply_spans, 2);
        assert(spare_slots(entries, readable, written, from - 1, to) =~= (if len > 0 {
            Seq::empty()
        } else {
            seq![entry.addr]
        }) + Seq::<u64>::empty());
        assert(kept_slots(entries, readable, written, from - 1, to) =~= (if len > 0 {
            seq![Allocation { addr: entry.addr, len: entry.capacity }]
        } else {
            Seq::empty()
        }) + Seq::<Allocation>::empty());
        assert(reply_spans(mem, entries, readable, written, from - 1, to) =~= (if len > 0 {
            seq![mem.span(entry.addr as int, len as nat)]
        } else {
            Seq::empty()
        }) + Seq::<Seq<u8>>::empty());
    }
}

/// The reply's bytes are the same in memories with the same bytes.
pub proof fn lemma_reply_same(
    a: MemView,
    b: MemView,
    entries: Seq<BufferEntry>,
    readable: int,
    written: int,
    from: int,
    to: int,
)
    requires
        a.same_bytes(b),
    ensures
        reply_spans(a, entries, readable, written, from, to) == reply_spans(
            b,
            entries,
            readable,
            written,
            from,
            to,
        ),
    decreases to - from,
{
    if to > from {
        lemma_reply_same(a, b, entries, readable, written, from, to - 1);
        let len = share(entries, readable, written, to - 1);
        if len > 0 {
            assert(a.span(entries[to - 1].addr as int, len as nat) =~= b.span(
                entries[to - 1].addr as int,
                len as nat,
            ));
        }
    }
}

/// The pool when buffer `at` cannot be mapped or given back: it and all buffers behind it went
/// back, then those that were mapped, the last first, then all before it.
pub open spec fn after_map_failure(
    pool: PoolView,
    entries: Seq<BufferEntry>,
    readable: int,
    written: int,
    at: int,
) -> PoolView {
    let n = entries.len() as int;
    let behind = released(pool, spare_slots(entries, readable, written, at + 1, n));
    let mapped = allocation_addrs(kept_slots(entries, readable, written, at + 1, n));
    released(behind, addrs_of(entries.take(at)) + mapped + seq![entries[at].addr])
}

/// Buffer `at` holds no reply bytes and is no longer allocated when its turn to go back
/// comes.
pub open spec fn refuses(
    pool: PoolView,
    entries: Seq<BufferEntry>,
    readable: int,
    written: int,
    at: int,
    error: AllocError,
) -> bool {
    let n = entries.len() as int;
    &&& 0 <= at < n
    &&& share(entries, readable, written, at) == 0
    &&& !released(pool, spare_slots(entries, readable, written, at + 1, n)).live(entries[at].addr)
    &&& error == AllocError::InvalidFree(entries[at].addr, 0)
}

/// The slots of a list of leases.
pub open spec fn lease_slots(leases: Seq<BufferLease>) -> Seq<Allocation> {
    leases.map_values(|l: BufferLease| l.slot())
}

/// What becomes of a chain's buffers when the device completes it with `written`
/// bytes: those with reply bytes are mapped and stay allocated, the others go back
/// to the pool.
pub open spec fn completed(
    entries: Seq<BufferEntry>,
    readable: int,
    written: int,
    mem: MemView,
    before: PoolView,
    after: PoolView,
    outcome: Result<(Segments, Vec<BufferLease>), VirtqError>,
) -> bool {
    let n = entries.len() as int;
    let fits = written <= room(entries, readable, n);
    match outcome {
        Ok((segments, leases)) => {
            &&& fits
            &&& segments.wf()
            &&& segments@ == reply_spans(mem, entries, readable, written, 0, n)
            &&& lease_slots(leases@) == kept_slots(entries, readable, written, 0, n)
            &&& after == released(before, spare_slots(entries, readable, written, 0, n))
        },
        Err(VirtqError::InvalidState) => !fits && after == released(before, addrs_of(entries)),
        Err(VirtqError::Bookkeeping) => fits && kept_slots(
            entries,
            readable,
            written,
            0,
            n,
        ).len() > 4 && after == released(before, addrs_of(entries)),
        Err(VirtqError::MemoryReadError) => fits && exists|at: int|
            0 <= at < n && share(entries, readable, written, at) > 0 && !mem.serves(
                entries[at].addr as int,
                entries[at].capacity as int,
            ) && after == #[trigger] after_map_failure(before, entries, readable, written, at),
        Err(VirtqError::Alloc(error)) => {
            &&& !all_live(before, addrs_of(entries))
            &&& if fits {
                exists|at: int| #[trigger]
                    refuses(before, entries, readable, written, at, error) && after
                        == after_map_failure(before, entries, readable, written, at)
            } else {
                release_error(before, addrs_of(entries)) == Some(error) && after == released(
                    before,
                    addrs_of(entries),
                )
            }
        },
        Err(_) => false,
    }
}

/// What becomes of a chain's buffers when the list of reply chunks has room, or has none.
pub open spec fn completed_in(
    entries: Seq<BufferEntry>,
    readable: int,
    written: int,
    mem: MemView,
    before: PoolView,
    after: PoolView,
    room_found: bool,
    outcome: Result<(Segments, Vec<BufferLease>), VirtqError>,
) -> bool {
    if written <= room(entries, readable, entries.len() as int) && !room_found {
        &&& outcome matches Err(e)
        &&& e == VirtqError::Bookkeeping
        &&& after == released(before, addrs_of(entries))
    } else {
        &&& !(outcome matches Err(VirtqError::Bookkeeping))
        &&& completed(entries, readable, written, mem, before, after, outcome)
    }
}

/// No more buffers hold reply bytes than there are buffers.
pub proof fn lemma_kept_len(
    entries: Seq<BufferEntry>,
    readable: int,
    written: int,
    from: int,
    to: int,
)
    requires
        from <= to,
    ensures
        kept_slots(entries, readable, written, from, to).len() <= to - from,
    decreases to - from,
{
    if from < to {
        lemma_kept_len(entries, readable, written, from, to - 1);
    }
}

/// How a reply is spread over the buffers of a chain.
pub struct Shares {
    /// Bytes of the reply.
    pub written: usize,
    /// Bytes in each buffer.
    pub lens: Vec<usize>,
    /// Buffers that hold any.
    pub filled: usize,
    /// Bytes that no buffer holds.
    pub left: usize,
}

impl Shares {
    pub open spec fn of(self, entries: Seq<BufferEntry>, readable: int) -> bool {
        let n = entries.len() as int;
        let all = room(entries, readable, n);
        &&& self.lens@.len() == n
        &&& forall|i: int|
            0 <= i < n ==> #[trigger] self.lens@[i] == share(
                entries,
                readable,
                self.written as int,
                i,
            )
        &&& self.filled == kept_slots(entries, readable, self.written as int, 0, n).len()
        &&& self.left == if self.written >= all {
            self.written - all
        } else {
            0
        }
    }
}

impl OwnedChain {
    /// Spread a reply of `written` bytes over the writable buffers.
    pub fn shares(&self, written: usize) -> (shares: Shares)
        requires
            self.wf(),
        ensures
            shares.written == written,
            shares.of(self.buffers@, self.readable as int),
    {
        let ghost entries = self.buffers@;
        let ghost readable = self.readable as int;
        let ghost n = entries.len() as int;
        let count: usize = self.buffers.as_slice().len();
        let mut lens: Vec<usize> = Vec::new();
        let mut left: usize = written;
        let mut filled: usize = 0;
        let mut i: usize = 0;
        while i < count
            invariant
                self.buffers@ == entries,
                self.readable == readable,
                count == n == entries.len(),
                readable <= n,
                i <= count,
                lens@.len() == i,
                forall|k: int|
                    0 <= k < i ==> #[trigger] lens@[k] == share(
                        entries,
                        readable,
                        written as int,
                        k,
                    ),
                filled <= i,
                i <= readable ==> left == written,
                i >= readable ==> left == if written >= room(entries, readable, i as int) {
                    written - room(entries, readable, i as int)
                } else {
                    0
                },
                kept_slots(entries, readable, written as int, 0, i as int).len() == filled,
            decreases count - i,
        {
            let cap: usize = self.buffers.as_slice()[i].capacity as usize;
            let len: usize = if i < self.readable {
                0
            } else if left < cap {
                left
            } else {
                cap
            };
            lens.push(len);
            if len != 0 {
                filled += 1;
            }
            left = left - len;
            i += 1;
        }
        Shares { written, lens, filled, left }
    }

    /// Map the buffers that hold the reply and give back the others.
    ///
    /// The mapped buffers stay allocated; their leases are returned beside the
    /// segments, in the same order, for the caller to release once the segments are
    /// dropped. On failure every buffer goes back to the pool.
    pub fn into_segments<M: BufferMap>(self, mem: &mut M, pool: &mut SlotPool, written: usize) -> (
        outcome: Result<(Segments, Vec<BufferLease>), VirtqError>)
        requires
            self.wf(),
            old(pool).wf(),
        ensures
            final(pool).wf(),
            old(mem).mem().same_mapping(final(mem).mem()),
            old(mem).mem().same_bytes(final(mem).mem()),
            completed(
                self.buffers@,
                self.readable as int,
                written as int,
                old(mem).mem(),
                old(pool)@,
                final(pool)@,
                outcome,
            ),
            self.served(old(mem).mem()) ==> !(outcome matches Err(VirtqError::MemoryReadError)),
            written > room(self.buffers@, self.readable as int, self.buffers@.len() as int)
                ==> *final(mem) == *old(mem),
    {
        let shares = self.shares(written);
        let mut chunks = ChunkList::with_capacity(0);
        let reserved: bool = shares.left == 0 && chunks.try_reserve_exact(shares.filled);
        let list = if reserved {
            Some(chunks)
        } else {
            None
        };
        self.into_segments_in(mem, pool, shares, list)
    }

    /// Every buffer can be read.
    pub open spec fn served(self, mem: MemView) -> bool {
        forall|i: int|
            0 <= i < self.buffers@.len() ==> mem.serves(
                (#[trigger] self.buffers@[i]).addr as int,
                self.buffers@[i].capacity as int,
            )
    }

    /// Map the buffers that hold the reply into `list`, or give all back where no room was
    /// found for a list.
    pub fn into_segments_in<M: BufferMap>(
        self,
        mem: &mut M,
        pool: &mut SlotPool,
        shares: Shares,
        list: Option<ChunkList>,
    ) -> (outcome: Result<(Segments, Vec<BufferLease>), VirtqError>)
        requires
            self.wf(),
            old(pool).wf(),
            shares.of(self.buffers@, self.readable as int),
            list matches Some(chunks) ==> chunks@.len() == 0,
        ensures
            final(pool).wf(),
            old(mem).mem().same_mapping(final(mem).mem()),
            old(mem).mem().same_bytes(final(mem).mem()),
            completed_in(
                self.buffers@,
                self.readable as int,
                shares.written as int,
                old(mem).mem(),
                old(pool)@,
                final(pool)@,
                list is Some,
                outcome,
            ),
            self.served(old(mem).mem()) ==> !(outcome matches Err(VirtqError::MemoryReadError)),
            list is Some && shares.left == 0 && self.served(old(mem).mem()) && all_live(
                old(pool)@,
                addrs_of(self.buffers@),
            ) ==> outcome is Ok,
            shares.left > 0 || list is None ==> *final(mem) == *old(mem),
    {
        let written: usize = shares.written;
        let ghost entries = self.buffers@;
        let ghost readable = self.readable as int;
        let ghost view = mem.mem();
        let ghost start = pool@;
        let ghost n = entries.len() as int;
        let mut this = self;
        let count: usize = this.buffers.as_slice().len();
        proof {
            lemma_room_readable(entries, readable, n);
        }
        if shares.left != 0 {
            return match this.release(pool) {
                Ok(()) => Err(VirtqError::InvalidState),
                Err(err) => {
                    proof {
                        if all_live(start, addrs_of(entries)) {
                            lemma_all_live_release(start, addrs_of(entries));
                        }
                        lemma_release_error_kind(start, addrs_of(entries));
                    }
                    Err(VirtqError::from(err))
                },
            };
        }
        let mut chunks = match list {
            Some(chunks) => chunks,
            None => {
                let _ = this.release(pool);
                return Err(VirtqError::Bookkeeping);
            },
        };
        let lens = shares.lens;
        let mut leases: Vec<BufferLease> = Vec::new();
        let mut k: usize = count;
        proof {
            assert(entries.take(n) =~= entries);
            if all_live(start, addrs_of(entries)) {
                assert forall|j: int| 0 <= j < n implies pool@.live(
                    (#[trigger] entries[j]).addr,
                ) by {
                    assert(start.live(addrs_of(entries)[j]));
                }
            }
            assert(chunks@ =~= Seq::empty());
            assert(octets::all_octets(chunks@.reverse()) =~= Seq::<Seq<u8>>::empty());
            assert(lease_slots(leases@.reverse()) =~= Seq::<Allocation>::empty());
        }
        while k > 0
            invariant
                pool.wf(),
                this.buffers@ == entries.take(k as int),
                k <= count,
                count == n == entries.len(),
                0 <= readable <= n,
                view == old(mem).mem(),
                start == old(pool)@,
                view.same_mapping(mem.mem()),
                view.same_bytes(mem.mem()),
                entries == self.buffers@,
                readable == self.readable,
                written <= room(entries, readable, n),
                list is Some,
                shares.left == 0,
                shares.written == written,
                lens@.len() == n,
                forall|j: int|
                    0 <= j < n ==> #[trigger] lens@[j] == share(entries, readable, written as int, j),
                pool@ == released(
                    start,
                    spare_slots(entries, readable, written as int, k as int, n),
                ),
                octets::all_octets(chunks@.reverse()) == reply_spans(
                    view,
                    entries,
                    readable,
                    written as int,
                    k as int,
                    n,
                ),
                lease_slots(leases@.reverse()) == kept_slots(
                    entries,
                    readable,
                    written as int,
                    k as int,
                    n,
                ),
                all_live(start, addrs_of(entries)) ==> forall|j: int|
                    0 <= j < k ==> pool@.live((#[trigger] entries[j]).addr),
            decreases k,
        {
            let ghost at = k - 1;
            let ghost before = pool@;
            proof {
                lemma_slots_front(view, entries, readable, written as int, k as int, n);
                assert(entries.take(k as int).last() == entries[at]);
                assert(entries.take(k as int).drop_last() =~= entries.take(at));
            }
            let entry = match this.buffers.pop() {
                Some(entry) => entry,
                None => return Err(VirtqError::InvalidState),
            };
            let len: usize = lens[k - 1];
            if len == 0 {
                proof {
                    lemma_released_concat(
                        start,
                        seq![entry.addr],
                        spare_slots(entries, readable, written as int, k as int, n),
                    );
                    lemma_released_one(before, entry.addr);
                }
                match pool.dealloc(entry.addr) {
                    Ok(()) => {},
                    Err(err) => {
                        proof {
                            if all_live(start, addrs_of(entries)) {
                                assert(before.live(entries[at].addr));
                            }
                            let mapped = allocation_addrs(
                                kept_slots(entries, readable, written as int, k as int, n),
                            );
                            lemma_released_concat(
                                before,
                                addrs_of(entries.take(at)) + mapped,
                                seq![entry.addr],
                            );
                            lemma_released_concat(before, addrs_of(entries.take(at)), mapped);
                            assert(refuses(start, entries, readable, written as int, at, err));
                        }
                        release_leases(pool, leases);
                        let _ = this.release(pool);
                        return Err(VirtqError::from(err));
                    },
                }
                proof {
                    if all_live(start, addrs_of(entries)) {
                        lemma_others_stay_live(before, entries, at);
                    }
                }
            } else {
                let allocation = Allocation { addr: entry.addr, len: entry.capacity };
                let ghost now = mem.mem();
                match mem.map_buffer(allocation, len) {
                    Ok(chunk) => {
                        let ghost old_chunks = chunks@;
                        let ghost old_leases = leases@;
                        chunks.push(chunk);
                        leases.push(BufferLease::new(allocation));
                        proof {
                            let here = view.span(entry.addr as int, len as nat);
                            assert(now.span(entry.addr as int, len as nat) =~= here);
                            assert(octets::all_octets(chunks@.reverse()) =~= seq![here]
                                + octets::all_octets(old_chunks.reverse()));
                            assert(lease_slots(leases@.reverse()) =~= seq![allocation]
                                + lease_slots(old_leases.reverse()));
                        }
                    },
                    Err(_) => {
                        proof {
                            let spare = spare_slots(
                                entries,
                                readable,
                                written as int,
                                k as int,
                                n,
                            );
                            let mapped = allocation_addrs(
                                kept_slots(entries, readable, written as int, k as int, n),
                            );
                            lemma_released_concat(
                                before,
                                addrs_of(entries.take(at)) + mapped,
                                seq![entry.addr],
                            );
                            lemma_released_one(before, entry.addr);
                            lemma_released_concat(
                                before.after_dealloc(entry.addr),
                                addrs_of(entries.take(at)),
                                mapped,
                            );
                            assert(after_map_failure(
                                start,
                                entries,
                                readable,
                                written as int,
                                at,
                            ) == released(
                                released(before.after_dealloc(entry.addr), mapped),
                                addrs_of(entries.take(at)),
                            ));
                        }
                        let _ = pool.dealloc(entry.addr);
                        release_leases(pool, leases);
                        let _ = this.release(pool);
                        return Err(VirtqError::MemoryReadError);
                    },
                }
            }
            k -= 1;
        }
        let segments = Segments::from_reversed(chunks);
        let mut ordered: Vec<BufferLease> = Vec::new();
        let ghost all = leases@;
        loop
            invariant
                all =~= leases@ + ordered@.reverse(),
            ensures
                leases@.len() == 0,
                all =~= leases@ + ordered@.reverse(),
            decreases leases@.len(),
        {
            match leases.pop() {
                Some(lease) => ordered.push(lease),
                None => break,
            }
        }
        proof {
            assert(ordered@ =~= all.reverse());
        }
        Ok((segments, ordered))
    }
}

proof fn lemma_released_one(pool: PoolView, addr: u64)
    ensures
        released(pool, seq![addr]) == pool.after_dealloc(addr),
{
    reveal_with_fuel(released, 2);
    assert(seq![addr].drop_last() =~= Seq::<u64>::empty());
}

proof fn lemma_room_readable(entries: Seq<BufferEntry>, readable: int, n: int)
    ensures
        room(entries, readable, n) >= 0,
    decreases n - readable,
{
    if n > readable {
        lemma_room_readable(entries, readable, n - 1);
    }
}

/// Giving back one of several live slots leaves the others live.
proof fn lemma_others_stay_live(pool: PoolView, entries: Seq<BufferEntry>, at: int)
    requires
        0 <= at < entries.len(),
        addrs_of(entries).no_duplicates(),
        forall|j: int| 0 <= j <= at ==> pool.live((#[trigger] entries[j]).addr),
    ensures
        forall|j: int|
            0 <= j < at ==> pool.after_dealloc(entries[at].addr).live(
                (#[trigger] entries[j]).addr,
            ),
{
    assert forall|j: int| 0 <= j < at implies pool.after_dealloc(entries[at].addr).live(
        (#[trigger] entries[j]).addr,
    ) by {
        assert(addrs_of(entries)[j] != addrs_of(entries)[at]);
        lemma_dealloc_other(pool, entries[at].addr, entries[j].addr);
    }
}

pub proof fn lemma_release_error_kind(pool: PoolView, addrs: Seq<u64>)
    ensures
        release_error(pool, addrs) matches Some(e) ==> e is InvalidFree,
    decreases addrs.len(),
{
    if addrs.len() > 0 {
        lemma_release_error_kind(pool.after_dealloc(addrs.last()), addrs.drop_last());
    }
}

/// The pool after leases were given back, the first one first.
pub open spec fn leases_released(pool: PoolView, leases: Seq<BufferLease>) -> PoolView {
    released(pool, allocation_addrs(lease_slots(leases.reverse())))
}

/// Give leases back, the first one first.
pub fn release_leases(pool: &mut SlotPool, leases: Vec<BufferLease>)
    requires
        old(pool).wf(),
    ensures
        final(pool).wf(),
        final(pool)@ == leases_released(old(pool)@, leases@),
{
    let ghost all = leases@;
    let ghost start = pool@;
    let ghost addrs = allocation_addrs(lease_slots(all.reverse()));
    proof {
        assert(addrs.take(all.len() as int) =~= addrs);
    }
    for lease in it: leases
        invariant
            pool.wf(),
            it.seq() == all,
            addrs == allocation_addrs(lease_slots(all.reverse())),
            released(start, addrs) == released(
                pool@,
                addrs.take(all.len() - it.index()),
            ),
    {
        let ghost left = addrs.take(all.len() - it.index());
        proof {
            assert(left.last() == lease.slot().addr);
            assert(left.drop_last() =~= addrs.take(all.len() - it.index() - 1));
        }
        let _ = lease.release(pool);
    }
    proof {
        assert(addrs.take(0) =~= Seq::<u64>::empty());
    }
}

} // verus!
