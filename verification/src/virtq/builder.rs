//! Reserving the buffers of a chain.

use smallvec::SmallVec;
use vstd::arithmetic::div_mod::*;
use vstd::prelude::*;

use super::entries;
use super::entries::{BufferEntry, EntryList, OwnedChain};
use super::pool::slot;
use super::pool::slot::PoolView;
use super::pool::{AllocError, Allocation, SlotPool};
use super::send;
use super::send::{SendChain, WriteMode};
use super::VirtqError;

verus! {

/// Requested buffer lengths, kept inline up to four of them.
#[verifier::external_body]
pub struct CapList {
    items: SmallVec<[usize; 4]>,
}

/// The lengths a request list holds.
pub uninterp spec fn cap_items(list: CapList) -> Seq<usize>;

impl View for CapList {
    type V = Seq<usize>;

    open spec fn view(&self) -> Seq<usize> {
        cap_items(*self)
    }
}

impl CapList {
    /// `SmallVec::new`: an empty vector.
    #[verifier::external_body]
    pub(crate) fn new() -> (list: CapList)
        ensures
            cap_items(list) == Seq::<usize>::empty(),
    {
        CapList { items: SmallVec::new() }
    }

    /// `SmallVec::push`: appends one length.
    #[verifier::external_body]
    pub(crate) fn push(&mut self, cap: usize)
        ensures
            cap_items(*final(self)) == cap_items(*old(self)).push(cap),
    {
        self.items.push(cap)
    }

    /// `SmallVec::as_slice`: the lengths.
    #[verifier::external_body]
    pub(crate) fn as_slice(&self) -> (caps: &[usize])
        ensures
            caps@ == cap_items(*self),
    {
        self.items.as_slice()
    }
}

/// A region of `cap` bytes in pieces of at most `slot` bytes.
pub open spec fn split_region(cap: int, slot: int) -> Seq<int>
    decreases cap,
{
    if cap <= 0 || slot <= 0 {
        Seq::empty()
    } else if cap <= slot {
        seq![cap]
    } else {
        seq![slot] + split_region(cap - slot, slot)
    }
}

/// All regions in pieces, one region after another.
pub open spec fn split_all(caps: Seq<usize>, slot: int) -> Seq<int>
    decreases caps.len(),
{
    if caps.len() == 0 {
        Seq::empty()
    } else {
        split_all(caps.drop_last(), slot) + split_region(caps.last() as int, slot)
    }
}

pub open spec fn caps_sum(caps: Seq<usize>) -> int
    decreases caps.len(),
{
    if caps.len() == 0 {
        0
    } else {
        caps_sum(caps.drop_last()) + caps.last()
    }
}

/// What is wrong with a list of requests, the first thing first: an empty
/// request, or more pieces than can be counted.
pub open spec fn count_error(caps: Seq<usize>, slot: int) -> Option<AllocError>
    decreases caps.len(),
{
    if caps.len() == 0 {
        None
    } else {
        match count_error(caps.drop_last(), slot) {
            Some(e) => Some(e),
            None => if caps.last() == 0 {
                Some(AllocError::InvalidArg)
            } else if split_all(caps, slot).len() > usize::MAX {
                Some(AllocError::Overflow)
            } else {
                None
            },
        }
    }
}

/// The number of pieces is the quotient, rounded up.
pub proof fn lemma_split_len(cap: int, slot: int)
    requires
        cap >= 0,
        slot > 0,
    ensures
        split_region(cap, slot).len() == cap / slot + (if cap % slot == 0 {
            0int
        } else {
            1
        }),
    decreases cap,
{
    if cap == 0 {
        lemma_small_mod(0, slot as nat);
        lemma_basic_div(0, slot);
    } else if cap < slot {
        lemma_small_mod(cap as nat, slot as nat);
        lemma_basic_div(cap, slot);
    } else if cap == slot {
        lemma_div_by_self(slot);
        lemma_mod_self_0(slot);
    } else {
        lemma_split_len(cap - slot, slot);
        lemma_div_minus_one(cap, slot);
        lemma_mod_sub_multiples_vanish(cap, slot);
    }
}

/// Pieces of later regions follow those of earlier ones.
proof fn lemma_split_push(caps: Seq<usize>, i: int, slot: int)
    requires
        0 <= i < caps.len(),
    ensures
        split_all(caps.take(i + 1), slot) == split_all(caps.take(i), slot) + split_region(
            caps[i] as int,
            slot,
        ),
        caps_sum(caps.take(i + 1)) == caps_sum(caps.take(i)) + caps[i],
{
    assert(caps.take(i + 1).drop_last() =~= caps.take(i));
}

/// The pieces of a prefix begin those of the whole.
proof fn lemma_split_prefix(caps: Seq<usize>, i: int, slot: int)
    requires
        0 <= i <= caps.len(),
    ensures
        split_all(caps.take(i), slot).len() <= split_all(caps, slot).len(),
        split_all(caps, slot).take(split_all(caps.take(i), slot).len() as int) == split_all(
            caps.take(i),
            slot,
        ),
        caps_sum(caps.take(i)) <= caps_sum(caps),
    decreases caps.len() - i,
{
    if i == caps.len() {
        assert(caps.take(i) =~= caps);
        assert(split_all(caps, slot).take(split_all(caps, slot).len() as int) =~= split_all(
            caps,
            slot,
        ));
    } else {
        lemma_split_prefix(caps, i + 1, slot);
        lemma_split_push(caps, i, slot);
        let here = split_all(caps.take(i), slot);
        let next = split_all(caps.take(i + 1), slot);
        assert(next.take(here.len() as int) =~= here);
        assert(split_all(caps, slot).take(next.len() as int).take(here.len() as int)
            =~= split_all(caps, slot).take(here.len() as int));
    }
}

proof fn lemma_split_concat(a: Seq<usize>, b: Seq<usize>, slot: int)
    ensures
        split_all(a + b, slot) == split_all(a, slot) + split_all(b, slot),
    decreases b.len(),
{
    if b.len() == 0 {
        assert(a + b =~= a);
        assert(split_all(a, slot) + Seq::<int>::empty() =~= split_all(a, slot));
    } else {
        assert((a + b).drop_last() =~= a + b.drop_last());
        lemma_split_concat(a, b.drop_last(), slot);
        assert(split_all(a, slot) + (split_all(b.drop_last(), slot) + split_region(
            b.last() as int,
            slot,
        )) =~= (split_all(a, slot) + split_all(b.drop_last(), slot)) + split_region(
            b.last() as int,
            slot,
        ));
    }
}

/// The record for a piece of `len` bytes that was answered with `allocation`.
/// Readable pieces hold what was asked for, writable ones the whole slot.
pub open spec fn entry_for(len: int, allocation: Allocation, writable: bool) -> BufferEntry {
    BufferEntry {
        addr: allocation.addr,
        capacity: if writable {
            allocation.len
        } else {
            len as u32
        },
        written: 0,
    }
}

/// The records for pieces of these lengths, the first `readable` of them readable.
pub open spec fn entries_for(lens: Seq<int>, allocations: Seq<Allocation>, readable: int) -> Seq<
    BufferEntry,
> {
    Seq::new(lens.len(), |i: int| entry_for(lens[i], allocations[i], i >= readable))
}

/// Builder for configuring a descriptor chain's buffer layout.
///
/// Allocations are deferred to [`build`](Self::build).
#[must_use]
pub struct ChainBuilder {
    pub rd_caps: CapList,
    pub wr_caps: CapList,
    pub writable_avail: bool,
    pub max_descs: usize,
}

/// What a builder asks of a pool.
pub struct BuildPlan {
    /// Pieces of the requested regions.
    pub lens: Seq<int>,
    /// Number of leading readable pieces.
    pub readable: int,
    /// Further upper-tier slots.
    pub extra: int,
}

impl ChainBuilder {
    /// The requests, readable regions first.
    pub open spec fn plan(self, pool: PoolView) -> BuildPlan {
        let slot = pool.upper.layout.size() as int;
        let lens = split_all(self.rd_caps@, slot) + split_all(self.wr_caps@, slot);
        let left = self.max_descs - lens.len();
        let free = entries::pool_after(pool, lens).upper.free.len() as int;
        BuildPlan {
            lens,
            readable: split_all(self.rd_caps@, slot).len() as int,
            extra: if !self.writable_avail {
                0
            } else if free < left {
                free
            } else {
                left
            },
        }
    }

    /// The request that fails before any slot is taken.
    pub open spec fn request_error(self, pool: PoolView) -> Option<VirtqError> {
        let slot = pool.upper.layout.size() as int;
        if self.rd_caps@.len() == 0 && self.wr_caps@.len() == 0 && !self.writable_avail {
            Some(VirtqError::InvalidState)
        } else if caps_sum(self.rd_caps@) > usize::MAX {
            Some(VirtqError::Alloc(AllocError::Overflow))
        } else {
            match count_error(self.rd_caps@ + self.wr_caps@, slot) {
                Some(e) => Some(VirtqError::Alloc(e)),
                None => if self.plan(pool).lens.len() > self.max_descs {
                    Some(VirtqError::Backpressure)
                } else {
                    None
                },
            }
        }
    }

    /// All pieces, those of the spare slots last.
    pub open spec fn all_lens(self, pool: PoolView) -> Seq<int> {
        let plan = self.plan(pool);
        plan.lens + Seq::new(plan.extra as nat, |i: int| pool.upper.layout.size() as int)
    }

    /// Build a chain of at most `max_descs` descriptors.
    pub fn new(max_descs: usize) -> (builder: Self)
        ensures
            builder.rd_caps@.len() == 0,
            builder.wr_caps@.len() == 0,
            !builder.writable_avail,
            builder.max_descs == max_descs,
    {
        ChainBuilder {
            rd_caps: CapList::new(),
            wr_caps: CapList::new(),
            writable_avail: false,
            max_descs,
        }
    }

    /// Request a device-readable buffer of `cap` bytes.
    ///
    /// The producer writes data into readable buffers before submission; the
    /// consumer reads that data after polling the chain.
    /// The actual allocation is deferred to [`build`](Self::build).
    pub fn readable(self, cap: usize) -> (builder: Self)
        ensures
            builder.rd_caps@ == self.rd_caps@.push(cap),
            builder.wr_caps == self.wr_caps,
            builder.writable_avail == self.writable_avail,
            builder.max_descs == self.max_descs,
    {
        let mut this = self;
        this.rd_caps.push(cap);
        this
    }

    /// Request a device-writable buffer of `cap` bytes.
    ///
    /// Multiple writable buffers are completed as ordered segments. The consumer
    /// writes them sequentially, because the virtio used ring reports one
    /// aggregate written length rather than per-descriptor lengths.
    pub fn writable(self, cap: usize) -> (builder: Self)
        ensures
            builder.rd_caps == self.rd_caps,
            builder.wr_caps@ == self.wr_caps@.push(cap),
            builder.writable_avail == self.writable_avail,
            builder.max_descs == self.max_descs,
    {
        let mut this = self;
        this.wr_caps.push(cap);
        this
    }

    /// Request available upper-tier buffers within the ring budget.
    ///
    /// [`build`](Self::build) allocates these after all explicit requests.
    /// This may add zero buffers. The complete chain must be nonempty.
    pub fn writable_avail(self) -> (builder: Self)
        ensures
            builder.rd_caps == self.rd_caps,
            builder.wr_caps == self.wr_caps,
            builder.writable_avail,
            builder.max_descs == self.max_descs,
    {
        let mut this = self;
        this.writable_avail = true;
        this
    }

    /// Count the readable bytes and all pieces.
    fn count_requests(&self, slot_size: usize) -> (counts: Result<(usize, usize), VirtqError>)
        requires
            slot_size > 0,
        ensures
            ({
                let all = self.rd_caps@ + self.wr_caps@;
                match counts {
                    Ok((bytes, pieces)) => {
                        &&& bytes == caps_sum(self.rd_caps@)
                        &&& count_error(all, slot_size as int) is None
                        &&& pieces == split_all(all, slot_size as int).len()
                    },
                    Err(e) => if caps_sum(self.rd_caps@) > usize::MAX {
                        e == VirtqError::Alloc(AllocError::Overflow)
                    } else {
                        count_error(all, slot_size as int) is Some && e == VirtqError::Alloc(
                            count_error(all, slot_size as int)->0,
                        )
                    },
                }
            }),
    {
        let rd_caps = self.rd_caps.as_slice();
        let wr_caps = self.wr_caps.as_slice();
        let ghost slot = slot_size as int;
        let ghost all = self.rd_caps@ + self.wr_caps@;
        let mut bytes: usize = 0;
        let mut i: usize = 0;
        while i < rd_caps.len()
            invariant
                i <= rd_caps@.len(),
                rd_caps@ == self.rd_caps@,
                bytes == caps_sum(rd_caps@.take(i as int)),
                all == self.rd_caps@ + self.wr_caps@,
                slot == slot_size,
            decreases rd_caps@.len() - i,
        {
            proof {
                lemma_split_push(rd_caps@, i as int, slot);
                lemma_split_prefix(rd_caps@, i + 1, slot);
            }
            bytes = match bytes.checked_add(rd_caps[i]) {
                Some(sum) => sum,
                None => return Err(VirtqError::Alloc(AllocError::Overflow)),
            };
            i += 1;
        }
        proof {
            assert(rd_caps@.take(i as int) =~= rd_caps@);
        }
        let mut pieces: usize = 0;
        let mut k: usize = 0;
        while k < rd_caps.len() || k - rd_caps.len() < wr_caps.len()
            invariant
                rd_caps@ == self.rd_caps@,
                wr_caps@ == self.wr_caps@,
                all == rd_caps@ + wr_caps@,
                slot == slot_size,
                slot_size > 0,
                k <= all.len(),
                k <= pieces,
                caps_sum(self.rd_caps@) <= usize::MAX,
                count_error(all.take(k as int), slot) is None,
                pieces == split_all(all.take(k as int), slot).len(),
            decreases all.len() - k,
        {
            let cap: usize = if k < rd_caps.len() {
                rd_caps[k]
            } else {
                wr_caps[k - rd_caps.len()]
            };
            proof {
                assert(all.take(k + 1).drop_last() =~= all.take(k as int));
                assert(all.take(k + 1).last() == cap);
                lemma_split_push(all, k as int, slot);
                lemma_split_len(cap as int, slot);
                assert(cap > 0 ==> split_region(cap as int, slot).len() > 0);
                if count_error(all.take(k + 1), slot) is Some {
                    lemma_count_error_prefix(all, k + 1, slot);
                }
            }
            if cap == 0 {
                return Err(VirtqError::Alloc(AllocError::InvalidArg));
            }
            let whole: usize = cap / slot_size;
            let rest: usize = if cap % slot_size == 0 {
                0
            } else {
                1
            };
            let more: usize = match whole.checked_add(rest) {
                Some(more) => more,
                None => return Err(VirtqError::Alloc(AllocError::Overflow)),
            };
            pieces = match pieces.checked_add(more) {
                Some(sum) => sum,
                None => return Err(VirtqError::Alloc(AllocError::Overflow)),
            };
            k = k + 1;
        }
        proof {
            assert(all.take(k as int) =~= all);
        }
        Ok((bytes, pieces))
    }
}

proof fn lemma_count_error_prefix(caps: Seq<usize>, k: int, slot: int)
    requires
        0 <= k <= caps.len(),
        count_error(caps.take(k), slot) is Some,
    ensures
        count_error(caps, slot) == count_error(caps.take(k), slot),
    decreases caps.len() - k,
{
    if k < caps.len() {
        assert(caps.take(k + 1).drop_last() =~= caps.take(k));
        lemma_count_error_prefix(caps, k + 1, slot);
    } else {
        assert(caps.take(k) =~= caps);
    }
}

impl ChainBuilder {
    /// What building leads to where the records of the requested regions have `room`, or have
    /// none, and those of spare slots too.
    pub open spec fn builds(
        self,
        before: PoolView,
        after: PoolView,
        room: bool,
        spare_room: bool,
        built: Result<SendChain, VirtqError>,
    ) -> bool {
        let lens = self.all_lens(before);
        match self.request_error(before) {
            Some(failed) => built == Err::<SendChain, VirtqError>(failed) && after == before,
            None => if !room || (self.writable_avail && !spare_room && entries::answers(
                before,
                self.plan(before).lens,
            ) is Some) {
                built == Err::<SendChain, VirtqError>(VirtqError::Bookkeeping) && after == before
            } else if entries::answers(before, self.plan(before).lens) is None || lens.len() == 0 {
                built == Err::<SendChain, VirtqError>(VirtqError::Backpressure) && after == before
            } else {
                &&& built matches Ok(chain)
                &&& self.yields(before, after, chain)
            },
        }
    }

    /// A chain has the buffers that the pool answers with, and nothing is written yet.
    pub open spec fn yields(self, before: PoolView, after: PoolView, chain: SendChain) -> bool {
        let lens = self.all_lens(before);
        &&& entries::answers(before, lens) is Some
        &&& after == entries::pool_after(before, lens)
        &&& chain.owned.buffers@ == entries_for(
            lens,
            entries::answers(before, lens)->0,
            self.plan(before).readable,
        )
        &&& chain.owned.readable == self.plan(before).readable
        &&& chain.rd_capacity == caps_sum(self.rd_caps@)
        &&& chain.rd_written == 0
        &&& chain.write_mode == WriteMode::Unset
        &&& chain.wf()
        &&& entries::all_live(after, entries::addrs_of(chain.owned.buffers@))
    }

    /// Allocate buffers and return a [`SendChain`] for writing.
    ///
    /// # Errors
    ///
    /// * [`VirtqError::InvalidState`] - no buffers requested
    /// * [`VirtqError::Backpressure`] - insufficient pool slots or ring descriptors
    /// * [`VirtqError::Bookkeeping`] - buffer record storage allocation failed
    /// * [`VirtqError::Alloc`] - zero-length request or lengths that overflow
    pub fn build(self, pool: &mut SlotPool) -> (built: Result<SendChain, VirtqError>)
        requires
            old(pool).wf(),
        ensures
            final(pool).wf(),
            built == Err::<SendChain, VirtqError>(VirtqError::Bookkeeping) ==> {
                &&& self.request_error(old(pool)@) is None
                &&& self.all_lens(old(pool)@).len() > 4
                &&& final(pool)@ == old(pool)@
            },
            built != Err::<SendChain, VirtqError>(VirtqError::Bookkeeping) ==> self.builds(
                old(pool)@,
                final(pool)@,
                true,
                true,
                built,
            ),
    {
        let ghost start = pool@;
        proof {
            pool.lemma_wf_view();
        }
        let (rd_capacity, desc_count) = match self.check(pool) {
            Ok(counts) => counts,
            Err(err) => return Err(err),
        };
        proof {
            assert(self.all_lens(start).len() >= self.plan(start).lens.len());
        }
        // Reserve explicit records before taking slots.
        let mut list = EntryList::new();
        let list = if list.try_reserve_exact(desc_count) {
            Some(list)
        } else {
            None
        };
        let (mut buffers, readable) = match self.take_regions(pool, list) {
            Ok(taken) => taken,
            Err(err) => return Err(err),
        };
        let extra: usize = self.spare(pool, desc_count, Ghost(start));
        let spare_room: bool = !self.writable_avail || buffers.try_reserve_exact(extra);
        self.take_spare(pool, buffers, readable, rd_capacity, extra, spare_room, Ghost(start))
    }

    /// Allocate buffers whose records have `room`, or have none: those of the requested regions,
    /// and those of spare slots.
    pub fn build_in(self, pool: &mut SlotPool, room: bool, spare_room: bool) -> (built: Result<
        SendChain,
        VirtqError,
    >)
        requires
            old(pool).wf(),
        ensures
            final(pool).wf(),
            self.builds(old(pool)@, final(pool)@, room, spare_room, built),
    {
        let ghost start = pool@;
        proof {
            pool.lemma_wf_view();
        }
        let (rd_capacity, desc_count) = match self.check(pool) {
            Ok(counts) => counts,
            Err(err) => return Err(err),
        };
        let list = if room {
            Some(EntryList::new())
        } else {
            None
        };
        let (buffers, readable) = match self.take_regions(pool, list) {
            Ok(taken) => taken,
            Err(err) => return Err(err),
        };
        let extra: usize = self.spare(pool, desc_count, Ghost(start));
        let spare_room: bool = !self.writable_avail || spare_room;
        self.take_spare(pool, buffers, readable, rd_capacity, extra, spare_room, Ghost(start))
    }

    /// Check the request, and count its readable bytes and its pieces.
    fn check(&self, pool: &SlotPool) -> (counts: Result<(usize, usize), VirtqError>)
        requires
            pool.wf(),
        ensures
            match self.request_error(pool@) {
                Some(failed) => counts matches Err(e) && e == failed,
                None => counts matches Ok((bytes, pieces)) && bytes == caps_sum(self.rd_caps@)
                    && pieces == self.plan(pool@).lens.len() && pieces <= self.max_descs,
            },
    {
        proof {
            pool.lemma_wf_view();
        }
        let rd_caps = self.rd_caps.as_slice();
        let wr_caps = self.wr_caps.as_slice();
        if rd_caps.len() == 0 && wr_caps.len() == 0 && !self.writable_avail {
            return Err(VirtqError::InvalidState);
        }
        // Count explicit descriptors against the captured ring budget.
        let slot_size: usize = pool.slot_size();
        let (rd_capacity, desc_count) = match self.count_requests(slot_size) {
            Ok(counts) => counts,
            Err(err) => return Err(err),
        };
        proof {
            lemma_split_concat(self.rd_caps@, self.wr_caps@, slot_size as int);
        }
        if desc_count > self.max_descs {
            return Err(VirtqError::Backpressure);
        }
        Ok((rd_capacity, desc_count))
    }

    /// Allocate the requested regions, with their records in `list`, if room was found for one.
    fn take_regions(&self, pool: &mut SlotPool, list: Option<EntryList>) -> (taken: Result<
        (EntryList, usize),
        VirtqError,
    >)
        requires
            old(pool).wf(),
            self.request_error(old(pool)@) is None,
            list matches Some(buffers) ==> buffers@.len() == 0,
        ensures
            final(pool).wf(),
            match entries::answers(old(pool)@, self.plan(old(pool)@).lens) {
                Some(allocations) if list is Some => {
                    &&& taken matches Ok((buffers, readable))
                    &&& readable == self.plan(old(pool)@).readable
                    &&& buffers@ == entries_for(
                        self.plan(old(pool)@).lens,
                        allocations,
                        self.plan(old(pool)@).readable,
                    )
                    &&& final(pool)@ == entries::pool_after(
                        old(pool)@,
                        self.plan(old(pool)@).lens,
                    )
                },
                _ => {
                    &&& taken matches Err(e)
                    &&& e == if list is Some {
                        VirtqError::Backpressure
                    } else {
                        VirtqError::Bookkeeping
                    }
                    &&& final(pool)@ == old(pool)@
                },
            },
    {
        let ghost start = pool@;
        proof {
            pool.lemma_wf_view();
        }
        let rd_caps = self.rd_caps.as_slice();
        let wr_caps = self.wr_caps.as_slice();
        let slot_size: usize = pool.slot_size();
        let ghost slot = slot_size as int;
        let ghost plan = self.plan(start);
        let mut buffers = match list {
            Some(buffers) => buffers,
            None => return Err(VirtqError::Bookkeeping),
        };
        let ghost mut done: Seq<int> = Seq::empty();
        proof {
            assert(buffers@ =~= entries_for(
                done,
                entries::answers(start, done)->0,
                plan.readable,
            ));
            assert(split_all(self.rd_caps@.take(0), slot) =~= Seq::<int>::empty());
        }
        // Allocate readable regions before writable ones, splitting each at the
        // upper slot size.
        let mut i: usize = 0;
        while i < rd_caps.len()
            invariant
                i <= rd_caps@.len(),
                rd_caps@ == self.rd_caps@,
                start.wf(),
                start == old(pool)@,
                list is Some,
                pool.wf(),
                slot_size > 0,
                slot == slot_size,
                slot_size == start.upper.layout.size(),
                plan == self.plan(start),
                self.request_error(start) is None,
                done == split_all(rd_caps@.take(i as int), slot),
                entries::answers(start, done) is Some,
                pool@ == entries::pool_after(start, done),
                buffers@ == entries_for(done, entries::answers(start, done)->0, plan.readable),
            decreases rd_caps@.len() - i,
        {
            let ghost region = split_region(rd_caps@[i as int] as int, slot);
            proof {
                lemma_split_push(rd_caps@, i as int, slot);
                lemma_split_prefix(rd_caps@, i + 1, slot);
            }
            match take_region(
                pool,
                &mut buffers,
                rd_caps[i],
                false,
                slot_size,
                Ghost(start),
                Ghost(done),
                Ghost(plan.readable),
            ) {
                Ok(()) => {},
                Err(err) => {
                    proof {
                        let prefix = done + region;
                        assert(plan.lens.take(prefix.len() as int) =~= split_all(
                            rd_caps@,
                            slot,
                        ).take(prefix.len() as int));
                        entries::lemma_answers_prefix(start, plan.lens, prefix.len() as int);
                    }
                    let owned = OwnedChain { buffers, readable: 0 };
                    let _ = owned.release(pool);
                    return Err(err);
                },
            }
            proof {
                done = done + region;
            }
            i += 1;
        }
        proof {
            assert(rd_caps@.take(i as int) =~= rd_caps@);
            assert(split_all(self.wr_caps@.take(0), slot) =~= Seq::<int>::empty());
            assert(done =~= split_all(rd_caps@, slot) + split_all(self.wr_caps@.take(0), slot));
        }
        let readable: usize = buffers.as_slice().len();
        let mut j: usize = 0;
        while j < wr_caps.len()
            invariant
                j <= wr_caps@.len(),
                wr_caps@ == self.wr_caps@,
                start.wf(),
                start == old(pool)@,
                list is Some,
                pool.wf(),
                slot_size > 0,
                slot == slot_size,
                slot_size == start.upper.layout.size(),
                plan == self.plan(start),
                self.request_error(start) is None,
                readable == plan.readable,
                done == split_all(self.rd_caps@, slot) + split_all(wr_caps@.take(j as int), slot),
                entries::answers(start, done) is Some,
                pool@ == entries::pool_after(start, done),
                buffers@ == entries_for(done, entries::answers(start, done)->0, plan.readable),
            decreases wr_caps@.len() - j,
        {
            let ghost region = split_region(wr_caps@[j as int] as int, slot);
            let ghost first = split_all(self.rd_caps@, slot);
            proof {
                lemma_split_push(wr_caps@, j as int, slot);
                lemma_split_prefix(wr_caps@, j + 1, slot);
                assert(first + (split_all(wr_caps@.take(j as int), slot) + region) =~= done
                    + region);
            }
            match take_region(
                pool,
                &mut buffers,
                wr_caps[j],
                true,
                slot_size,
                Ghost(start),
                Ghost(done),
                Ghost(plan.readable),
            ) {
                Ok(()) => {},
                Err(err) => {
                    proof {
                        let prefix = done + region;
                        let second = split_all(wr_caps@.take(j + 1), slot);
                        assert(plan.lens.take(prefix.len() as int) =~= first + split_all(
                            wr_caps@,
                            slot,
                        ).take(second.len() as int));
                        entries::lemma_answers_prefix(start, plan.lens, prefix.len() as int);
                    }
                    let owned = OwnedChain { buffers, readable: 0 };
                    let _ = owned.release(pool);
                    return Err(err);
                },
            }
            proof {
                done = done + region;
            }
            j += 1;
        }
        proof {
            assert(wr_caps@.take(j as int) =~= wr_caps@);
            lemma_pool_layout(start, done);
        }
        proof {
            assert(done =~= plan.lens);
        }
        Ok((buffers, readable))
    }

    /// Spare descriptors for upper-tier slots left after the explicit allocations.
    fn spare(&self, pool: &SlotPool, desc_count: usize, Ghost(start): Ghost<PoolView>) -> (extra:
        usize)
        requires
            pool.wf(),
            desc_count == self.plan(start).lens.len(),
            desc_count <= self.max_descs,
            pool@ == entries::pool_after(start, self.plan(start).lens),
        ensures
            extra == self.plan(start).extra,
    {
        if !self.writable_avail {
            return 0;
        }
        let free: usize = pool.num_free_upper();
        let remaining_descs: usize = self.max_descs - desc_count;
        if free < remaining_descs {
            free
        } else {
            remaining_descs
        }
    }

    /// Allocate the spare slots and make the chain, if the spare records have room.
    fn take_spare(
        &self,
        pool: &mut SlotPool,
        buffers: EntryList,
        readable: usize,
        rd_capacity: usize,
        extra: usize,
        spare_room: bool,
        Ghost(start): Ghost<PoolView>,
    ) -> (built: Result<SendChain, VirtqError>)
        requires
            old(pool).wf(),
            start.wf(),
            self.request_error(start) is None,
            entries::answers(start, self.plan(start).lens) is Some,
            old(pool)@ == entries::pool_after(start, self.plan(start).lens),
            buffers@ == entries_for(
                self.plan(start).lens,
                entries::answers(start, self.plan(start).lens)->0,
                self.plan(start).readable,
            ),
            readable == self.plan(start).readable,
            rd_capacity == caps_sum(self.rd_caps@),
            extra == self.plan(start).extra,
        ensures
            final(pool).wf(),
            if !spare_room {
                &&& built == Err::<SendChain, VirtqError>(VirtqError::Bookkeeping)
                &&& final(pool)@ == start
            } else if self.all_lens(start).len() == 0 {
                &&& built == Err::<SendChain, VirtqError>(VirtqError::Backpressure)
                &&& final(pool)@ == start
            } else {
                built matches Ok(chain) && self.yields(start, final(pool)@, chain)
            },
    {
        let mut buffers = buffers;
        let slot_size: usize = pool.slot_size();
        let ghost slot = slot_size as int;
        let ghost plan = self.plan(start);
        let ghost mut done: Seq<int> = plan.lens;
        proof {
            lemma_pool_layout(start, done);
            pool.lemma_wf_view();
        }
        if !spare_room {
            proof {
                entries::lemma_answers_live(start, done);
                entries::lemma_answers_release(start, done);
                assert(entries::addrs_of(buffers@) =~= entries::allocation_addrs(
                    entries::answers(start, done)->0,
                ));
            }
            let owned = OwnedChain { buffers, readable: 0 };
            let _ = owned.release(pool);
            return Err(VirtqError::Bookkeeping);
        }
        let ghost spare = Seq::new(extra as nat, |k: int| slot);
        let mut k: usize = 0;
        proof {
            assert(spare.take(0) =~= Seq::<int>::empty());
            assert(plan.lens + spare.take(0) =~= plan.lens);
            assert(plan.extra == extra);
            assert(pool@.upper.free.len() >= extra);
        }
        while k < extra
            invariant
                k <= extra,
                spare == Seq::new(extra as nat, |k: int| slot),
                start.wf(),
                old(pool)@ == entries::pool_after(start, plan.lens),
                pool.wf(),
                slot_size > 0,
                slot == slot_size,
                slot_size == start.upper.layout.size(),
                plan == self.plan(start),
                plan.readable <= plan.lens.len(),
                done == plan.lens + spare.take(k as int),
                entries::answers(start, done) is Some,
                pool@ == entries::pool_after(start, done),
                pool@.upper.free.len() >= extra - k,
                buffers@ == entries_for(
                    done,
                    entries::answers(start, done)->0,
                    plan.readable,
                ),
            decreases extra - k,
        {
            let ghost before = done;
            proof {
                pool.lemma_wf_view();
                lemma_pool_layout(start, done);
                entries::lemma_answers_push(start, done, slot);
                entries::lemma_answers_live(start, done);
                assert(spare.take(k + 1) =~= spare.take(k as int).push(slot));
                assert(plan.lens + spare.take(k + 1) =~= done.push(slot));
            }
            let allocation = match pool.allocate(slot_size) {
                Ok(allocation) => allocation,
                Err(err) => return Err(VirtqError::from(err)),
            };
            buffers.push(
                BufferEntry { addr: allocation.addr, capacity: allocation.len, written: 0 },
            );
            proof {
                done = done.push(slot);
                entries::lemma_answers_live(start, done);
                assert(entries::answers(start, done)->0.drop_last() =~= entries::answers(
                    start,
                    before,
                )->0);
                assert(buffers@ =~= entries_for(
                    done,
                    entries::answers(start, done)->0,
                    plan.readable,
                ));
            }
            k += 1;
        }
        proof {
            assert(spare.take(k as int) =~= spare);
            assert(done =~= self.all_lens(start));
        }
        // An availability-only request can leave no buffers to publish.
        if buffers.as_slice().len() == 0 {
            proof {
                assert(done =~= Seq::<int>::empty());
            }
            return Err(VirtqError::Backpressure);
        }
        let chain = SendChain {
            owned: OwnedChain { buffers, readable },
            rd_capacity,
            rd_written: 0,
            write_mode: WriteMode::Unset,
        };
        proof {
            assert(done.take(plan.readable) =~= split_all(self.rd_caps@, slot));
            lemma_built_chain(start, done, plan.readable, buffers@, self.rd_caps@, slot);
            assert(chain.owned.buffers@ == buffers@);
        }
        Ok(chain)
    }
}

/// Pieces of a region add up to it, and fit a slot.
proof fn lemma_region_sum(cap: int, slot: int)
    requires
        cap >= 0,
        slot > 0,
    ensures
        lens_sum(split_region(cap, slot)) == cap,
        forall|i: int|
            0 <= i < split_region(cap, slot).len() ==> 0 < #[trigger] split_region(cap, slot)[i]
                <= slot,
    decreases cap,
{
    let pieces = split_region(cap, slot);
    reveal_with_fuel(lens_sum, 2);
    if cap > slot {
        lemma_region_sum(cap - slot, slot);
        lemma_lens_concat(seq![slot], split_region(cap - slot, slot));
        assert(lens_sum(seq![slot]) == slot) by {
            assert(seq![slot].drop_last() =~= Seq::<int>::empty());
        }
        assert forall|i: int| 0 <= i < pieces.len() implies 0 < #[trigger] pieces[i] <= slot by {
            if i > 0 {
                assert(pieces[i] == split_region(cap - slot, slot)[i - 1]);
            }
        }
    } else if cap > 0 {
        assert(pieces.drop_last() =~= Seq::<int>::empty());
    }
}

spec fn lens_sum(lens: Seq<int>) -> int
    decreases lens.len(),
{
    if lens.len() == 0 {
        0
    } else {
        lens_sum(lens.drop_last()) + lens.last()
    }
}

proof fn lemma_lens_concat(a: Seq<int>, b: Seq<int>)
    ensures
        lens_sum(a + b) == lens_sum(a) + lens_sum(b),
    decreases b.len(),
{
    if b.len() == 0 {
        assert(a + b =~= a);
    } else {
        assert((a + b).drop_last() =~= a + b.drop_last());
        lemma_lens_concat(a, b.drop_last());
    }
}

/// Pieces of all regions add up to them, and fit a slot.
proof fn lemma_split_sum(caps: Seq<usize>, slot: int)
    requires
        slot > 0,
    ensures
        lens_sum(split_all(caps, slot)) == caps_sum(caps),
        forall|i: int|
            0 <= i < split_all(caps, slot).len() ==> 0 < #[trigger] split_all(caps, slot)[i]
                <= slot,
    decreases caps.len(),
{
    if caps.len() > 0 {
        let head = split_all(caps.drop_last(), slot);
        let last = split_region(caps.last() as int, slot);
        lemma_split_sum(caps.drop_last(), slot);
        lemma_region_sum(caps.last() as int, slot);
        lemma_lens_concat(head, last);
        assert forall|i: int| 0 <= i < (head + last).len() implies 0 < #[trigger] (head + last)[i]
            <= slot by {
            if i < head.len() {
                assert((head + last)[i] == head[i]);
            } else {
                assert((head + last)[i] == last[i - head.len()]);
            }
        }
    }
}

/// The capacity of readable records is what was asked for.
proof fn lemma_readable_capacity(entries: Seq<BufferEntry>, lens: Seq<int>)
    requires
        entries.len() == lens.len(),
        forall|i: int| 0 <= i < lens.len() ==> (#[trigger] entries[i]).capacity == lens[i],
        forall|i: int| 0 <= i < lens.len() ==> (#[trigger] entries[i]).written == 0,
    ensures
        send::capacity_sum(entries) == lens_sum(lens),
        send::written_sum(entries) == 0,
    decreases lens.len(),
{
    if lens.len() > 0 {
        let n = lens.len() - 1;
        assert forall|i: int| 0 <= i < n implies (#[trigger] entries.drop_last()[i]).capacity
            == lens.drop_last()[i] by {
            assert(entries[i].capacity == lens[i]);
        }
        assert forall|i: int| 0 <= i < n implies (#[trigger] entries.drop_last()[i]).written
            == 0 by {
            assert(entries[i].written == 0);
        }
        lemma_readable_capacity(entries.drop_last(), lens.drop_last());
        assert(entries[n as int].capacity == lens[n as int]);
    }
}

/// A chain's records are live slots that do not overlap.
proof fn lemma_built_chain(
    start: PoolView,
    lens: Seq<int>,
    readable: int,
    built: Seq<BufferEntry>,
    rd_caps: Seq<usize>,
    slot: int,
)
    requires
        start.wf(),
        slot == start.upper.layout.size(),
        entries::answers(start, lens) is Some,
        built == entries_for(lens, entries::answers(start, lens)->0, readable),
        0 <= readable <= lens.len(),
        readable == split_all(rd_caps, slot).len(),
        lens.take(readable) == split_all(rd_caps, slot),
    ensures
        send::apart(built),
        send::capacity_sum(built.take(readable)) == caps_sum(rd_caps),
        send::written_sum(built.take(readable)) == 0,
        forall|i: int| 0 <= i < readable ==> (#[trigger] built.take(readable)[i]).written == 0,
        entries::all_live(entries::pool_after(start, lens), entries::addrs_of(built)),
{
    let allocations = entries::answers(start, lens)->0;
    let pool = entries::pool_after(start, lens);
    let addrs = entries::allocation_addrs(allocations);
    entries::lemma_answers_live(start, lens);
    lemma_split_sum(rd_caps, slot);
    assert(entries::addrs_of(built) =~= addrs);
    let rd = built.take(readable);
    let rd_lens = lens.take(readable);
    assert forall|i: int| 0 <= i < readable implies (#[trigger] rd[i]).capacity == rd_lens[i]
        && rd[i].written == 0 by {
        assert(0 < rd_lens[i] <= slot);
    }
    lemma_readable_capacity(rd, rd_lens);
    assert forall|i: int| 0 <= i < built.len() implies (#[trigger] built[i]).capacity
        <= pool.live_len(built[i].addr) && pool.live(built[i].addr) by {
        assert(allocations[i].len == pool.live_len(allocations[i].addr));
        assert(pool.live(addrs[i]));
        if i < readable {
            assert(0 < rd_lens[i] <= slot);
        }
    }
    assert forall|i: int| 0 <= i < built.len() implies (#[trigger] built[i]).addr
        + built[i].capacity <= u64::MAX by {
        slot::law_live_slots_are_in_range(pool, built[i].addr);
    }
    assert forall|i: int, j: int|
        0 <= i < built.len() && 0 <= j < built.len() && i != j implies (#[trigger] built[i]).addr
        + built[i].capacity <= (#[trigger] built[j]).addr || built[j].addr + built[j].capacity
        <= built[i].addr by {
        assert(addrs[i] != addrs[j]);
        if addrs[i] < addrs[j] {
            slot::law_live_slots_are_disjoint(pool, addrs[i], addrs[j]);
        } else {
            slot::law_live_slots_are_disjoint(pool, addrs[j], addrs[i]);
        }
    }
}

/// Taking pieces of one region, one after another.
///
/// Either every piece is answered and recorded, or the pool is as it was after the
/// pieces that were.
fn take_region(
    pool: &mut SlotPool,
    buffers: &mut EntryList,
    total: usize,
    writable: bool,
    slot_size: usize,
    Ghost(start): Ghost<PoolView>,
    Ghost(lens): Ghost<Seq<int>>,
    Ghost(readable): Ghost<int>,
) -> (taken: Result<(), VirtqError>)
    requires
        start.wf(),
        old(pool).wf(),
        slot_size > 0,
        slot_size == start.upper.layout.size(),
        entries::answers(start, lens) is Some,
        old(pool)@ == entries::pool_after(start, lens),
        writable ==> readable <= lens.len(),
        !writable ==> lens.len() + split_region(total as int, slot_size as int).len() <= readable,
        old(buffers)@ == entries_for(lens, entries::answers(start, lens)->0, readable),
    ensures
        final(pool).wf(),
        taken is Ok ==> {
            let all = lens + split_region(total as int, slot_size as int);
            &&& entries::answers(start, all) is Some
            &&& final(pool)@ == entries::pool_after(start, all)
            &&& final(buffers)@ == entries_for(all, entries::answers(start, all)->0, readable)
        },
        taken matches Err(e) ==> {
            let all = lens + split_region(total as int, slot_size as int);
            &&& e == VirtqError::Backpressure
            &&& entries::answers(start, all) is None
            &&& entries::released(final(pool)@, entries::addrs_of(final(buffers)@)) == start
        },
{
    let ghost all = lens + split_region(total as int, slot_size as int);
    let ghost mut done: Seq<int> = lens;
    let mut remaining: usize = total;
    proof {
        assert(all.take(lens.len() as int) =~= lens);
        assert(all =~= lens + split_region(remaining as int, slot_size as int));
        entries::lemma_answers_live(start, lens);
    }
    while remaining > 0
        invariant
            start.wf(),
            pool.wf(),
            slot_size > 0,
            slot_size == start.upper.layout.size(),
            all == lens + split_region(total as int, slot_size as int),
            all == done + split_region(remaining as int, slot_size as int),
            entries::answers(start, done) is Some,
            pool@ == entries::pool_after(start, done),
            writable ==> readable <= done.len(),
            !writable ==> all.len() <= readable,
            buffers@ == entries_for(done, entries::answers(start, done)->0, readable),
        decreases remaining,
    {
        let len: usize = if remaining < slot_size {
            remaining
        } else {
            slot_size
        };
        let ghost before = done;
        proof {
            lemma_pool_layout(start, done);
            pool.lemma_wf_view();
            entries::lemma_answers_push(start, done, len as int);
            entries::lemma_answers_live(start, done);
            assert(done.push(len as int) + split_region(remaining - len, slot_size as int) =~= all)
                by {
                if remaining <= slot_size {
                    assert(split_region(remaining - len, slot_size as int)
                        =~= Seq::<int>::empty());
                }
                assert(seq![len as int] + split_region(remaining - len, slot_size as int)
                    =~= split_region(remaining as int, slot_size as int));
            }
        }
        let allocation = match pool.allocate(len) {
            Ok(allocation) => allocation,
            Err(err) => {
                proof {
                    assert(all.take(done.len() as int + 1) =~= done.push(len as int));
                    entries::lemma_answers_prefix(start, all, done.len() as int + 1);
                    entries::lemma_answers_release(start, done);
                    assert(entries::addrs_of(buffers@) =~= entries::allocation_addrs(
                        entries::answers(start, done)->0,
                    ));
                }
                return Err(VirtqError::from(err));
            },
        };
        let capacity: u32 = if writable {
            allocation.len
        } else {
            len as u32
        };
        buffers.push(BufferEntry { addr: allocation.addr, capacity, written: 0 });
        proof {
            done = done.push(len as int);
            entries::lemma_answers_live(start, done);
            assert(entries::answers(start, done)->0.drop_last() =~= entries::answers(
                start,
                before,
            )->0);
            assert(buffers@ =~= entries_for(done, entries::answers(start, done)->0, readable));
        }
        remaining = remaining - len;
    }
    proof {
        assert(done + Seq::<int>::empty() =~= done);
    }
    Ok(())
}

/// Requests do not change where a pool's slots lie.
pub proof fn lemma_pool_layout(start: PoolView, lens: Seq<int>)
    ensures
        entries::pool_after(start, lens).upper.layout == start.upper.layout,
        entries::pool_after(start, lens).lower is Some <==> start.lower is Some,
        start.lower matches Some(lower) ==> entries::pool_after(start, lens).lower->0.layout
            == lower.layout,
    decreases lens.len(),
{
    if lens.len() > 0 {
        lemma_pool_layout(start, lens.drop_last());
    }
}

/// Slots that regions take, each region in as few slots as hold it.
pub open spec fn slots_needed(caps: Seq<usize>, slot: int) -> int
    decreases caps.len(),
{
    if caps.len() == 0 {
        0
    } else {
        slots_needed(caps.drop_last(), slot) + (caps.last() + slot - 1) / slot
    }
}

/// A quotient is rounded up by adding one less than the divisor first.
proof fn lemma_rounded_up(cap: int, slot: int)
    requires
        cap >= 0,
        slot > 0,
    ensures
        (cap + slot - 1) / slot == cap / slot + (if cap % slot == 0 {
            0int
        } else {
            1
        }),
{
    lemma_fundamental_div_mod(cap, slot);
    let q = cap / slot;
    let r = cap % slot;
    if r == 0 {
        assert(cap + slot - 1 == q * slot + (slot - 1)) by (nonlinear_arith)
            requires
                cap == slot * q + r,
                r == 0,
        ;
        lemma_fundamental_div_mod_converse(cap + slot - 1, slot, q, slot - 1);
    } else {
        assert(cap + slot - 1 == (q + 1) * slot + (r - 1)) by (nonlinear_arith)
            requires
                cap == slot * q + r,
        ;
        lemma_fundamental_div_mod_converse(cap + slot - 1, slot, q + 1, r - 1);
    }
}

/// Regions are split into as few pieces as hold them.
proof fn lemma_slots_needed(caps: Seq<usize>, slot: int)
    requires
        slot > 0,
    ensures
        split_all(caps, slot).len() == slots_needed(caps, slot),
    decreases caps.len(),
{
    if caps.len() > 0 {
        lemma_slots_needed(caps.drop_last(), slot);
        lemma_split_len(caps.last() as int, slot);
        lemma_rounded_up(caps.last() as int, slot);
    }
}

/// A list of requests is counted unless one of them is empty or they are too many.
proof fn lemma_count_error(caps: Seq<usize>, slot: int)
    requires
        slot > 0,
    ensures
        count_error(caps, slot) is None <==> !caps.contains(0) && slots_needed(caps, slot)
            <= usize::MAX,
        !caps.contains(0) && slots_needed(caps, slot) > usize::MAX ==> count_error(caps, slot)
            == Some(AllocError::Overflow),
        caps.contains(0) && slots_needed(caps, slot) <= usize::MAX ==> count_error(caps, slot)
            == Some(AllocError::InvalidArg),
    decreases caps.len(),
{
    lemma_slots_needed(caps, slot);
    if caps.len() > 0 {
        let rest = caps.drop_last();
        lemma_count_error(rest, slot);
        lemma_slots_needed(rest, slot);
        assert forall|x: usize| #[trigger] caps.contains(x) <==> rest.contains(x) || x
            == caps.last() by {
            if rest.contains(x) {
                let i = choose|i: int| 0 <= i < rest.len() && rest[i] == x;
                assert(caps[i] == x);
            }
            if caps.contains(x) && x != caps.last() {
                let i = choose|i: int| 0 <= i < caps.len() && caps[i] == x;
                assert(rest[i] == x);
            }
            assert(caps[caps.len() - 1] == caps.last());
        }
    }
}

/// Slots of joined lists of regions add up.
proof fn lemma_slots_concat(a: Seq<usize>, b: Seq<usize>, slot: int)
    ensures
        slots_needed(a + b, slot) == slots_needed(a, slot) + slots_needed(b, slot),
    decreases b.len(),
{
    if b.len() == 0 {
        assert(a + b =~= a);
    } else {
        assert((a + b).drop_last() =~= a + b.drop_last());
        lemma_slots_concat(a, b.drop_last(), slot);
    }
}

/// Each request for a whole upper slot takes one of the upper tier's free slots.
proof fn lemma_whole_slots(start: PoolView, lens: Seq<int>, extra: nat)
    requires
        start.wf(),
        entries::answers(start, lens + Seq::new(
            extra,
            |i: int| start.upper.layout.size() as int,
        )) is Some,
    ensures
        entries::pool_after(
            start,
            lens + Seq::new(extra, |i: int| start.upper.layout.size() as int),
        ).upper.free.len() == entries::pool_after(start, lens).upper.free.len() - extra,
    decreases extra,
{
    let slot = start.upper.layout.size() as int;
    let spare = Seq::new(extra, |i: int| slot);
    if extra == 0 {
        assert(lens + spare =~= lens);
    } else {
        let rest = Seq::new((extra - 1) as nat, |i: int| slot);
        assert((lens + spare).drop_last() =~= lens + rest);
        assert((lens + spare).last() == slot);
        lemma_whole_slots(start, lens, (extra - 1) as nat);
        lemma_pool_layout(start, lens + rest);
    }
}

/// Requests that fit an upper slot are all answered by a pool with as many upper slots free.
proof fn lemma_enough_slots(start: PoolView, lens: Seq<int>)
    requires
        start.wf(),
        forall|i: int|
            0 <= i < lens.len() ==> 0 < #[trigger] lens[i] <= start.upper.layout.size(),
        lens.len() <= start.upper.free.len(),
    ensures
        entries::answers(start, lens) is Some,
        entries::pool_after(start, lens).upper.free.len() >= start.upper.free.len() - lens.len(),
    decreases lens.len(),
{
    if lens.len() > 0 {
        let rest = lens.drop_last();
        assert forall|i: int| 0 <= i < rest.len() implies 0 < #[trigger] rest[i]
            <= start.upper.layout.size() by {
            assert(rest[i] == lens[i]);
        }
        lemma_enough_slots(start, rest);
        lemma_pool_layout(start, rest);
        assert(lens[lens.len() - 1] == lens.last());
    }
}

/// A chain that asks for available buffers takes all there is: it has as many descriptors as
/// it may have, or the upper tier has no slot left.
pub proof fn law_available_buffers_use_up_the_ring_or_the_pool(
    request: ChainBuilder,
    before: PoolView,
    after: PoolView,
    chain: SendChain,
)
    requires
        before.wf(),
        request.request_error(before) is None,
        request.writable_avail,
        request.yields(before, after, chain),
    ensures
        chain.owned.buffers@.len() == request.max_descs || after.upper.free.len() == 0,
{
    lemma_whole_slots(before, request.plan(before).lens, request.plan(before).extra as nat);
}

/// A built chain keeps to its ring budget, holds the readable bytes exactly and the writable
/// bytes at least, and takes no slot more than these need unless available buffers were asked
/// for.
pub proof fn law_built_chain_has_room_for_what_was_asked(
    request: ChainBuilder,
    before: PoolView,
    after: PoolView,
    chain: SendChain,
)
    requires
        before.wf(),
        request.request_error(before) is None,
        request.yields(before, after, chain),
    ensures
        ({
            let slot = before.upper.layout.size() as int;
            let count = chain.owned.buffers@.len();
            &&& count <= request.max_descs
            &&& chain.owned.readable == slots_needed(request.rd_caps@, slot)
            &&& send::capacity_sum(chain.readable()) == caps_sum(request.rd_caps@)
            &&& chain.rd_capacity == caps_sum(request.rd_caps@)
            &&& send::capacity_sum(chain.owned.buffers@.skip(chain.owned.readable as int))
                >= caps_sum(request.wr_caps@)
            &&& count >= slots_needed(request.rd_caps@, slot) + slots_needed(request.wr_caps@, slot)
            &&& !request.writable_avail ==> count == slots_needed(request.rd_caps@, slot)
                + slots_needed(request.wr_caps@, slot)
        }),
{
    lemma_records_have_room(request, before, chain.owned.buffers@);
}

/// Records with the capacities that a builder asks for have room for what was asked.
pub proof fn lemma_records_have_room(
    request: ChainBuilder,
    before: PoolView,
    records: Seq<BufferEntry>,
)
    requires
        before.wf(),
        request.request_error(before) is None,
        entries::answers(before, request.all_lens(before)) is Some,
        records.len() == request.all_lens(before).len(),
        forall|i: int|
            0 <= i < records.len() ==> (#[trigger] records[i]).capacity == entries_for(
                request.all_lens(before),
                entries::answers(before, request.all_lens(before))->0,
                request.plan(before).readable,
            )[i].capacity,
    ensures
        ({
            let slot = before.upper.layout.size() as int;
            let readable = request.plan(before).readable;
            let needed = slots_needed(request.rd_caps@, slot) + slots_needed(
                request.wr_caps@,
                slot,
            );
            &&& 0 <= readable <= records.len() <= request.max_descs
            &&& readable == slots_needed(request.rd_caps@, slot)
            &&& send::capacity_sum(records.take(readable)) == caps_sum(request.rd_caps@)
            &&& send::capacity_sum(records.skip(readable)) >= caps_sum(request.wr_caps@)
            &&& records.len() >= needed
            &&& !request.writable_avail ==> records.len() == needed
            &&& request.writable_avail ==> records.len() == request.max_descs
                || entries::pool_after(before, request.all_lens(before)).upper.free.len() == 0
        }),
{
    let slot = before.upper.layout.size() as int;
    let plan = request.plan(before);
    let lens = request.all_lens(before);
    let given = entries::answers(before, lens)->0;
    lemma_slots_needed(request.rd_caps@, slot);
    lemma_slots_needed(request.wr_caps@, slot);
    lemma_split_sum(request.rd_caps@, slot);
    lemma_split_sum(request.wr_caps@, slot);
    lemma_whole_slots(before, plan.lens, plan.extra as nat);
    let rd = split_all(request.rd_caps@, slot);
    let wr = split_all(request.wr_caps@, slot);
    let readable = records.take(plan.readable);
    assert forall|i: int| 0 <= i < rd.len() implies (#[trigger] readable[i]).capacity
        == rd[i] by {
        assert(readable[i] == records[i]);
        assert(lens[i] == rd[i]);
    }
    lemma_capacity_exact(readable, rd);
    let writable = records.skip(plan.readable);
    lemma_answered_lens(before, lens);
    assert forall|i: int| 0 <= i < wr.len() implies (#[trigger] writable[i]).capacity >= wr[i] by {
        assert(writable[i] == records[rd.len() + i]);
        assert(lens[rd.len() + i] == wr[i]);
        assert(given[rd.len() + i].len >= lens[rd.len() + i]);
    }
    lemma_capacity_at_least(writable, wr);
}

/// Records that each hold a length exactly hold the sum exactly.
proof fn lemma_capacity_exact(entries: Seq<BufferEntry>, lens: Seq<int>)
    requires
        entries.len() == lens.len(),
        forall|i: int| 0 <= i < lens.len() ==> (#[trigger] entries[i]).capacity == lens[i],
    ensures
        send::capacity_sum(entries) == lens_sum(lens),
    decreases lens.len(),
{
    if lens.len() > 0 {
        let n = lens.len() - 1;
        assert forall|i: int| 0 <= i < n implies (#[trigger] entries.drop_last()[i]).capacity
            == lens.drop_last()[i] by {
            assert(entries[i].capacity == lens[i]);
        }
        lemma_capacity_exact(entries.drop_last(), lens.drop_last());
        assert(entries[n as int].capacity == lens[n as int]);
    }
}

/// Each answer holds at least what was asked for.
proof fn lemma_answered_lens(start: PoolView, lens: Seq<int>)
    requires
        entries::answers(start, lens) is Some,
    ensures
        entries::answers(start, lens)->0.len() == lens.len(),
        forall|i: int|
            0 <= i < lens.len() ==> (#[trigger] entries::answers(start, lens)->0[i]).len
                >= lens[i],
    decreases lens.len(),
{
    if lens.len() > 0 {
        lemma_answered_lens(start, lens.drop_last());
        let given = entries::answers(start, lens)->0;
        assert forall|i: int| 0 <= i < lens.len() implies (#[trigger] given[i]).len
            >= lens[i] by {
            if i < lens.len() - 1 {
                assert(given[i] == entries::answers(start, lens.drop_last())->0[i]);
                assert(lens[i] == lens.drop_last()[i]);
            }
        }
    }
}

/// Records that each hold a length, with any that follow, hold the sum.
proof fn lemma_capacity_at_least(entries: Seq<BufferEntry>, lens: Seq<int>)
    requires
        entries.len() >= lens.len(),
        forall|i: int| 0 <= i < lens.len() ==> (#[trigger] entries[i]).capacity >= lens[i],
    ensures
        send::capacity_sum(entries) >= lens_sum(lens),
    decreases entries.len(),
{
    if entries.len() > 0 {
        let rest = entries.drop_last();
        if entries.len() > lens.len() {
            assert forall|i: int| 0 <= i < lens.len() implies (#[trigger] rest[i]).capacity
                >= lens[i] by {
                assert(rest[i] == entries[i]);
            }
            lemma_capacity_at_least(rest, lens);
        } else {
            let shorter = lens.drop_last();
            assert forall|i: int| 0 <= i < shorter.len() implies (#[trigger] rest[i]).capacity
                >= shorter[i] by {
                assert(rest[i] == entries[i]);
            }
            lemma_capacity_at_least(rest, shorter);
            assert(entries[entries.len() - 1].capacity >= lens[lens.len() - 1]);
        }
    }
}

/// A request is in order exactly when it asks for something, no region of it is empty, its
/// readable bytes can be counted and its slots keep to the ring budget. Nothing at all, an
/// empty region and too many slots are told apart.
pub proof fn law_requests_are_refused_for_these_reasons(request: ChainBuilder, pool: PoolView)
    requires
        pool.wf(),
    ensures
        ({
            let slot = pool.upper.layout.size() as int;
            let regions = request.rd_caps@ + request.wr_caps@;
            let asked = regions.len() > 0 || request.writable_avail;
            let counted = caps_sum(request.rd_caps@) <= usize::MAX && slots_needed(regions, slot)
                <= usize::MAX;
            &&& request.request_error(pool) is None <==> asked && counted && !regions.contains(0)
                && slots_needed(regions, slot) <= request.max_descs
            &&& !asked ==> request.request_error(pool) == Some(VirtqError::InvalidState)
            &&& asked && counted && regions.contains(0) ==> request.request_error(pool) == Some(
                VirtqError::Alloc(AllocError::InvalidArg),
            )
            &&& asked && !counted && !regions.contains(0) ==> request.request_error(pool) == Some(
                VirtqError::Alloc(AllocError::Overflow),
            )
            &&& asked && counted && !regions.contains(0) && slots_needed(regions, slot)
                > request.max_descs ==> request.request_error(pool) == Some(
                VirtqError::Backpressure,
            )
        }),
{
    let slot = pool.upper.layout.size() as int;
    let regions = request.rd_caps@ + request.wr_caps@;
    lemma_count_error(regions, slot);
    lemma_slots_needed(request.rd_caps@, slot);
    lemma_slots_needed(request.wr_caps@, slot);
    lemma_slots_concat(request.rd_caps@, request.wr_caps@, slot);
    if regions.len() == 0 {
        assert(!regions.contains(0));
    }
}

/// A request in order is served by a pool with as many upper slots free as it needs, as long
/// as there is anything to take. What is not served takes nothing.
pub proof fn law_request_is_served_while_slots_last(
    request: ChainBuilder,
    before: PoolView,
    after: PoolView,
    built: Result<SendChain, VirtqError>,
)
    requires
        before.wf(),
        request.builds(before, after, true, true, built),
    ensures
        ({
            let slot = before.upper.layout.size() as int;
            let needed = slots_needed(request.rd_caps@ + request.wr_caps@, slot);
            request.request_error(before) is None && needed <= before.upper.free.len() && (needed
                > 0 || (request.max_descs > 0 && before.upper.free.len() > 0)) ==> built is Ok
        }),
        built matches Err(error) ==> after == before && (request.request_error(before) == Some(
            error,
        ) || error == VirtqError::Backpressure),
        built is Ok ==> request.request_error(before) is None,
{
    let slot = before.upper.layout.size() as int;
    let plan = request.plan(before);
    let needed = slots_needed(request.rd_caps@ + request.wr_caps@, slot);
    lemma_slots_needed(request.rd_caps@, slot);
    lemma_slots_needed(request.wr_caps@, slot);
    lemma_slots_concat(request.rd_caps@, request.wr_caps@, slot);
    if request.request_error(before) is None && needed <= before.upper.free.len() {
        lemma_split_sum(request.rd_caps@, slot);
        lemma_split_sum(request.wr_caps@, slot);
        let rd = split_all(request.rd_caps@, slot);
        let wr = split_all(request.wr_caps@, slot);
        assert forall|i: int| 0 <= i < plan.lens.len() implies 0 < #[trigger] plan.lens[i]
            <= before.upper.layout.size() by {
            if i < rd.len() {
                assert(plan.lens[i] == rd[i]);
            } else {
                assert(plan.lens[i] == wr[i - rd.len()]);
            }
        }
        lemma_enough_slots(before, plan.lens);
        if needed == 0 {
            assert(plan.lens =~= Seq::<int>::empty());
            if request.rd_caps@.len() > 0 {
                law_requests_are_refused_for_these_reasons(request, before);
                lemma_some_slots(request.rd_caps@ + request.wr_caps@, slot);
            } else if request.wr_caps@.len() > 0 {
                law_requests_are_refused_for_these_reasons(request, before);
                lemma_some_slots(request.rd_caps@ + request.wr_caps@, slot);
            }
        }
    }
}

/// A request that names all of its regions takes as many slots as these need, and is served
/// where the upper tier has them.
pub proof fn law_explicit_request_takes_what_it_needs(request: ChainBuilder, pool: PoolView)
    requires
        pool.wf(),
        !request.writable_avail,
        request.request_error(pool) is None,
    ensures
        ({
            let needed = slots_needed(
                request.rd_caps@ + request.wr_caps@,
                pool.upper.layout.size() as int,
            );
            &&& needed > 0
            &&& request.all_lens(pool) == request.plan(pool).lens
            &&& request.all_lens(pool).len() == needed
            &&& needed <= pool.upper.free.len() ==> entries::answers(
                pool,
                request.all_lens(pool),
            ) is Some
        }),
{
    let slot = pool.upper.layout.size() as int;
    let plan = request.plan(pool);
    let regions = request.rd_caps@ + request.wr_caps@;
    let rd = split_all(request.rd_caps@, slot);
    let wr = split_all(request.wr_caps@, slot);
    lemma_slots_needed(request.rd_caps@, slot);
    lemma_slots_needed(request.wr_caps@, slot);
    lemma_slots_concat(request.rd_caps@, request.wr_caps@, slot);
    law_requests_are_refused_for_these_reasons(request, pool);
    lemma_some_slots(regions, slot);
    lemma_split_sum(request.rd_caps@, slot);
    lemma_split_sum(request.wr_caps@, slot);
    assert(request.all_lens(pool) =~= plan.lens);
    if plan.lens.len() <= pool.upper.free.len() {
        assert forall|i: int| 0 <= i < plan.lens.len() implies 0 < #[trigger] plan.lens[i]
            <= pool.upper.layout.size() by {
            if i < rd.len() {
                assert(plan.lens[i] == rd[i]);
            } else {
                assert(plan.lens[i] == wr[i - rd.len()]);
            }
        }
        lemma_enough_slots(pool, plan.lens);
    }
}

/// Regions that are not empty take slots.
proof fn lemma_some_slots(caps: Seq<usize>, slot: int)
    requires
        slot > 0,
        caps.len() > 0,
        !caps.contains(0),
    ensures
        slots_needed(caps, slot) > 0,
{
    lemma_slots_needed(caps, slot);
    lemma_slots_needed(caps.drop_last(), slot);
    assert(caps[caps.len() - 1] != 0);
    lemma_split_len(caps.last() as int, slot);
    lemma_region_sum(caps.last() as int, slot);
}

} // verus!
