//! Guest virtqueue context.

use vstd::arithmetic::div_mod::*;
use vstd::prelude::*;

use super::codec::CodecError;
use crate::flatbuffer_wrappers::function_types::{ReturnType, WireError};
use crate::transport::EncodedMessage;
use crate::virtq::access::MemView;
use crate::virtq::builder;
use crate::virtq::builder::ChainBuilder;
use crate::virtq::entries;
use crate::virtq::pool::slot::PoolView;
use crate::virtq::send;
use crate::virtq::{
    AllocError, BufferLease, Layout, MemOps, NoopNotifier, Notifier, SendChain, VirtqError,
    VirtqProducer, G2H_LOWER_SLOT_SIZE,
};

verus! {

/// Configuration for one queue passed to [`GuestContext::new`].
#[derive(Debug, Clone, Copy)]
pub struct QueueConfig {
    /// Ring descriptor layout in shared memory.
    pub layout: Layout,
    /// Base GVA of the buffer pool region.
    pub pool_gva: u64,
    /// Number of pages in the buffer pool.
    pub pool_pages: usize,
    /// Size of each upper-tier buffer.
    pub buffer_size: usize,
}

/// Writable capacity reserved on a G2H request chain.
#[derive(Debug, Clone, Copy, PartialEq, Eq, Structural)]
pub enum ReplyCapacity {
    /// The chain carries no reply.
    Nothing,
    /// Reserve at least this many reply bytes.
    Bounded(usize),
    /// Reserve at least one preferred allocation, then all remaining capacity.
    Available,
}

impl ReplyCapacity {
    /// The reply capacity for a return type: values of a type that has no greatest value are
    /// given whatever there is.
    pub open spec fn suits(return_type: ReturnType) -> ReplyCapacity {
        match return_type {
            ReturnType::String | ReturnType::VecBytes | ReturnType::ByteChunks =>
                ReplyCapacity::Available,
            _ => ReplyCapacity::Bounded(G2H_LOWER_SLOT_SIZE),
        }
    }

    /// Select reply capacity for one host function return type.
    pub fn for_return_type(return_type: ReturnType) -> (capacity: Self)
        ensures
            capacity == ReplyCapacity::suits(return_type),
            capacity == match return_type {
                ReturnType::String | ReturnType::VecBytes | ReturnType::ByteChunks =>
                    ReplyCapacity::Available,
                _ => ReplyCapacity::Bounded(G2H_LOWER_SLOT_SIZE),
            },
    {
        match return_type {
            ReturnType::String | ReturnType::VecBytes | ReturnType::ByteChunks =>
                ReplyCapacity::Available,
            _ => ReplyCapacity::Bounded(G2H_LOWER_SLOT_SIZE),
        }
    }

    /// The writable regions that are asked for.
    pub open spec fn regions(self, segment_len: usize) -> Seq<usize> {
        match self {
            ReplyCapacity::Nothing => Seq::empty(),
            ReplyCapacity::Bounded(cap) => seq![cap],
            ReplyCapacity::Available => seq![segment_len],
        }
    }
}

/// The readable regions of a message: external values whose length is a multiple of the
/// segment length stand apart from the header and the control data.
pub open spec fn message_regions(prefix: nat, external: nat, segment_len: usize) -> Seq<usize> {
    if external != 0 && segment_len != 0 && external % segment_len as nat == 0 {
        seq![prefix as usize, external as usize]
    } else {
        seq![(prefix + external) as usize]
    }
}

/// Group message bytes into logical readable region lengths.
pub fn message_region_lengths(message: &EncodedMessage<'_>, segment_len: usize) -> (lengths: Vec<
    usize,
>)
    requires
        message.wf(),
    ensures
        lengths@ == message_regions(
            12 + message.control_view().len(),
            message.external_values().flatten().len(),
            segment_len,
        ),
        message.wire().len() == 12 + message.control_view().len()
            + message.external_values().flatten().len(),
        message.wire().len() <= usize::MAX,
{
    proof {
        message.lemma_wire_len();
    }
    let external_len: usize = message.external_len();
    let total_len: usize = message.total_len();
    let mut lengths: Vec<usize> = Vec::new();
    if external_len != 0 && segment_len != 0 && external_len % segment_len == 0 {
        lengths.push(message.prefix_len());
        lengths.push(external_len);
    } else {
        lengths.push(total_len);
    }
    proof {
        assert(lengths@ =~= message_regions(
            12 + message.control_view().len(),
            message.external_values().flatten().len(),
            segment_len,
        ));
    }
    lengths
}

/// What a chain builder was asked for.
pub open spec fn asked(
    request: ChainBuilder,
    readable: Seq<usize>,
    reply: ReplyCapacity,
    segment_len: usize,
    free: usize,
) -> bool {
    &&& request.rd_caps@ == readable
    &&& request.wr_caps@ == reply.regions(segment_len)
    &&& request.writable_avail == (reply is Available)
    &&& request.max_descs == free
}

/// A chain has the buffers that a builder takes from a pool.
pub open spec fn taken(
    request: ChainBuilder,
    before: PoolView,
    after: PoolView,
    chain: SendChain,
) -> bool {
    let lens = request.all_lens(before);
    &&& request.request_error(before) is None
    &&& entries::answers(before, lens) is Some
    &&& after == entries::pool_after(before, lens)
    &&& chain.owned.readable == request.plan(before).readable
    &&& chain.owned.buffers@.len() == lens.len()
    &&& forall|i: int|
        0 <= i < lens.len() ==> {
            let entry = builder::entries_for(
                lens,
                entries::answers(before, lens)->0,
                request.plan(before).readable,
            )[i];
            (#[trigger] chain.owned.buffers@[i]).addr == entry.addr
                && chain.owned.buffers@[i].capacity == entry.capacity
        }
}

/// A builder refuses a request with this error.
pub open spec fn refused(request: ChainBuilder, pool: PoolView, error: VirtqError) -> bool {
    match request.request_error(pool) {
        Some(failed) => error == failed,
        None => {
            ||| error == VirtqError::Bookkeeping && request.all_lens(pool).len() > 4
            ||| error == VirtqError::Backpressure && (entries::answers(
                pool,
                request.plan(pool).lens,
            ) is None || request.all_lens(pool).len() == 0)
        },
    }
}

/// Memory differs only in the readable buffers of a chain.
pub open spec fn same_elsewhere(before: MemView, after: MemView, chain: SendChain) -> bool {
    forall|a: int|
        !send::in_entries(chain.readable(), a) ==> #[trigger] after.byte(a) == before.byte(a)
}

/// Only the pool of a queue differs.
pub open spec fn same_but_pool<N: Notifier>(a: VirtqProducer<N>, b: VirtqProducer<N>) -> bool {
    &&& a.inner == b.inner
    &&& a.notifier == b.notifier
    &&& a.next_token == b.next_token
    &&& a.inflight.chains() == b.inflight.chains()
    &&& a.inflight.ids() == b.inflight.ids()
    &&& a.pending == b.pending
}

/// The ring does not take the chain of a request. Its buffers go back to the pool, unless
/// memory failed while the chain went out.
pub open spec fn publish_refused<N: Notifier>(
    queue: VirtqProducer<N>,
    after: VirtqProducer<N>,
    request: ChainBuilder,
    mem: MemView,
    error: VirtqError,
) -> bool {
    exists|chain: SendChain, ready: VirtqProducer<N>|
        {
            &&& #[trigger] taken(request, queue.pool@, ready.pool@, chain)
            &&& same_but_pool(queue, ready)
            &&& {
                let count = chain.owned.buffers@.len() as int;
                ||| ready.may_refuse(count, error) && ready.refuses(after, chain)
                ||| ready.publish_error(count) is None && error is RingError && !ready.inner.layout.mapped_in(mem)
                    && ready.tracks(after, chain)
            }
        }
}

/// The chain of a request cannot be built, or the ring does not take it.
pub open spec fn turned_away<N: Notifier>(
    queue: VirtqProducer<N>,
    after: VirtqProducer<N>,
    request: ChainBuilder,
    mem: MemView,
    error: VirtqError,
) -> bool {
    ||| refused(request, queue.pool@, error) && same_but_pool(queue, after) && after.pool@
        == queue.pool@
    ||| publish_refused(queue, after, request, mem, error)
}

/// The ring does not take the chain of a request, given the room for its record.
pub open spec fn publish_refused_in<N: Notifier>(
    queue: VirtqProducer<N>,
    after: VirtqProducer<N>,
    request: ChainBuilder,
    mem: MemView,
    room: Result<(), VirtqError>,
    error: VirtqError,
) -> bool {
    exists|chain: SendChain, ready: VirtqProducer<N>|
        {
            &&& #[trigger] taken(request, queue.pool@, ready.pool@, chain)
            &&& same_but_pool(queue, ready)
            &&& {
                let failed = ready.refusal(chain.owned.buffers@.len() as int, room);
                ||| failed == Some(error) && ready.refuses(after, chain)
                ||| failed is None && error is RingError && !ready.inner.layout.mapped_in(mem)
                    && ready.tracks(after, chain)
            }
        }
}

/// The chain of a request cannot be built, or the ring does not take it, given the room for
/// its record.
pub open spec fn turned_away_in<N: Notifier>(
    queue: VirtqProducer<N>,
    after: VirtqProducer<N>,
    request: ChainBuilder,
    mem: MemView,
    room: Result<(), VirtqError>,
    error: VirtqError,
) -> bool {
    ||| refused(request, queue.pool@, error) && same_but_pool(queue, after) && after.pool@
        == queue.pool@
    ||| publish_refused_in(queue, after, request, mem, room, error)
}

/// What the table of chains in flight answers when it is asked for room.
pub open spec fn may_answer<N: Notifier>(
    queue: VirtqProducer<N>,
    room: Result<(), VirtqError>,
) -> bool {
    room matches Err(e) ==> {
        ||| e == VirtqError::Backpressure && queue.inflight.chains().len() == queue.inflight.ids()
        ||| e == VirtqError::Bookkeeping && queue.inflight.chains().len() < queue.inflight.ids()
    }
}

/// A queue that was asked for room is the queue that it was.
pub(crate) proof fn lemma_turned_away<N: Notifier>(
    queue: VirtqProducer<N>,
    asked: VirtqProducer<N>,
    after: VirtqProducer<N>,
    request: ChainBuilder,
    mem: MemView,
    room: Result<(), VirtqError>,
    error: VirtqError,
)
    requires
        same_but_pool(queue, asked),
        queue.pool@ == asked.pool@,
        may_answer(queue, room),
        turned_away_in(asked, after, request, mem, room, error),
    ensures
        turned_away(queue, after, request, mem, error),
{
    if publish_refused_in(asked, after, request, mem, room, error) {
        let (chain, ready) = choose|chain: SendChain, ready: VirtqProducer<N>|
            {
                &&& #[trigger] taken(request, asked.pool@, ready.pool@, chain)
                &&& same_but_pool(asked, ready)
                &&& {
                    let failed = ready.refusal(chain.owned.buffers@.len() as int, room);
                    ||| failed == Some(error) && ready.refuses(after, chain)
                    ||| failed is None && error is RingError && !ready.inner.layout.mapped_in(mem)
                        && ready.tracks(after, chain)
                }
            };
        assert(taken(request, queue.pool@, ready.pool@, chain));
        assert(publish_refused(queue, after, request, mem, error));
    }
}

/// Leases went back to the pool of a queue.
pub open spec fn leases_returned<N: Notifier>(
    queue: VirtqProducer<N>,
    after: VirtqProducer<N>,
    leases: Seq<BufferLease>,
) -> bool {
    &&& same_but_pool(queue, after)
    &&& after.pool@ == entries::leases_released(queue.pool@, leases)
}

/// A ring that memory maps stays mapped.
pub(crate) proof fn lemma_ring_mapping(before: MemView, after: MemView, layout: Layout)
    requires
        before.same_mapping(after),
    ensures
        layout.mapped_in(before) ==> layout.mapped_in(after),
{
    if layout.mapped_in(before) {
        let start = layout.table() as int;
        let len = 16 * layout.descs() + 8;
        assert forall|a: int| start <= a < start + len implies #[trigger] after.maps(a) by {
            assert(before.maps(a));
        }
    }
}

/// The guest's transport failed.
#[derive(Debug, Clone, PartialEq, Eq)]
pub enum ContextError {
    /// The G2H pool cannot be made.
    G2hPool(AllocError),
    /// The H2G pool cannot be made.
    H2gPool(AllocError),
    /// H2G receive buffers cannot be posted.
    Prefill(VirtqError),
    /// The function call or its result cannot be encoded.
    Encode(WireError),
    /// The message is too long to be framed.
    MessageOverflow,
    /// The message cannot be submitted.
    Send(VirtqError),
    /// The message still cannot be submitted after the host drained the queue.
    Retry(VirtqError),
    /// Completions cannot be reclaimed.
    Reclaim(VirtqError),
    /// The queue cannot be polled.
    Poll(VirtqError),
    /// The host returned no chain, or none that goes on with a message that has begun.
    NoChain { begun: bool },
    /// The host answered another request.
    UnexpectedReply,
    /// The chain carries no data, though a message may have begun.
    AckOnly { begun: bool },
    /// A host message has no valid header.
    Header(CodecError),
    /// A host message is neither a request nor a checkpoint.
    Framing,
    /// A host message is longer than declared, in its first buffer or once it has begun.
    TooLong { begun: bool },
    /// A continuation buffer is empty.
    EmptyContinuation,
    /// The message cannot be decoded.
    Codec(CodecError),
    /// The host function failed.
    Guest(crate::flatbuffer_wrappers::guest_error::GuestError),
    /// The G2H queue cannot be reset.
    G2hReset(VirtqError),
    /// The H2G queue cannot be reset.
    H2gReset(VirtqError),
    /// The number of retained buffers cannot be published.
    Publish(VirtqError),
}

/// Virtqueue runtime state for guest-host communication.
pub struct GuestContext<N> {
    /// Guest-to-host driver.
    pub g2h_producer: VirtqProducer<N>,
    /// Host-to-guest driver.
    pub h2g_producer: VirtqProducer<NoopNotifier>,
    /// Size of each prefilled H2G buffer.
    pub h2g_slot_size: usize,
    /// Snapshot checkpoint mailbox GVA.
    pub mbx_gva: u64,
    /// Correlation ID assigned to the next host-function request.
    pub next_cid: u32,
}

impl<N: Notifier> GuestContext<N> {
    pub open spec fn wf(self) -> bool {
        &&& self.g2h_producer.wf()
        &&& self.h2g_producer.wf()
        &&& self.next_cid != 0
    }

    /// Everything but the G2H queue is the same.
    pub open spec fn same_but_g2h(self, after: GuestContext<N>) -> bool {
        &&& after.h2g_producer == self.h2g_producer
        &&& after.h2g_slot_size == self.h2g_slot_size
        &&& after.mbx_gva == self.mbx_gva
        &&& after.next_cid == self.next_cid
    }

    /// The correlation identifier that follows another. Zero is left out.
    pub open spec fn cid_after(cid: u32) -> u32 {
        if cid == u32::MAX {
            1
        } else {
            (cid + 1) as u32
        }
    }

    /// Allocate a new correlation ID for a host function request.
    pub fn allocate_cid(&mut self) -> (cid: u32)
        requires
            old(self).wf(),
        ensures
            final(self).wf(),
            cid == old(self).next_cid,
            cid != 0,
            final(self).next_cid != cid,
            final(self).next_cid != 0,
            *final(self) == (GuestContext { next_cid: Self::cid_after(cid), ..*old(self) }),
    {
        let cid: u32 = self.next_cid;
        self.next_cid = self.next_cid.wrapping_add(1);
        if self.next_cid == 0 {
            self.next_cid = 1;
        }
        cid
    }

    /// The readable regions of a message on this context's G2H queue.
    pub open spec fn regions(self, message: EncodedMessage<'_>) -> Seq<usize> {
        message_regions(
            12 + message.control_view().len(),
            message.external_values().flatten().len(),
            self.segment_len(),
        )
    }

    /// Preferred size of one G2H segment.
    pub open spec fn segment_len(self) -> usize {
        self.g2h_producer.pool@.upper.layout.size() as usize
    }

    /// A request for a message's chain.
    pub open spec fn requests(
        self,
        request: ChainBuilder,
        message: EncodedMessage<'_>,
        reply: ReplyCapacity,
    ) -> bool {
        asked(
            request,
            self.regions(message),
            reply,
            self.segment_len(),
            self.g2h_producer.inner.num_free,
        )
    }

    /// Build and initialize one G2H message chain.
    pub fn build_g2h_chain<M: MemOps>(
        &mut self,
        mem: &mut M,
        message: &EncodedMessage<'_>,
        reply_cap: ReplyCapacity,
    ) -> (built: Result<SendChain, VirtqError>)
        requires
            old(self).wf(),
            message.wf(),
        ensures
            final(self).wf(),
            old(self).same_but_g2h(*final(self)),
            same_but_pool(old(self).g2h_producer, final(self).g2h_producer),
            old(mem).mem().same_mapping(final(mem).mem()),
            built matches Ok(chain) ==> {
                &&& chain.wf()
                &&& chain.payload(final(mem).mem()) == message.wire()
                &&& exists|request: ChainBuilder| #[trigger]
                    old(self).requests(request, *message, reply_cap) && taken(
                        request,
                        old(self).g2h_producer.pool@,
                        final(self).g2h_producer.pool@,
                        chain,
                    )
                &&& same_elsewhere(old(mem).mem(), final(mem).mem(), chain)
            },
            built matches Err(e) ==> exists|request: ChainBuilder| #[trigger]
                old(self).requests(request, *message, reply_cap) && (refused(
                    request,
                    old(self).g2h_producer.pool@,
                    e,
                ) && final(self).g2h_producer.pool@ == old(self).g2h_producer.pool@ && *final(mem)
                    == *old(mem) || e == VirtqError::MemoryWriteError && exists|
                    chain: SendChain,
                    pool: PoolView,
                | #[trigger]
                    taken(request, old(self).g2h_producer.pool@, pool, chain)
                        && !send::entries_mapped(old(mem).mem(), chain.readable())
                        && final(self).g2h_producer.pool@ == entries::released(
                        pool,
                        entries::addrs_of(chain.owned.buffers@),
                    )),
    {
        let segment_len: usize = self.g2h_producer.preferred_segment_len();
        let lengths = message_region_lengths(message, segment_len);
        let mut request = self.g2h_producer.chain();
        let ghost free = request.max_descs;
        let mut i: usize = 0;
        while i < lengths.len()
            invariant
                i <= lengths@.len(),
                request.rd_caps@ =~= lengths@.take(i as int),
                request.wr_caps@.len() == 0,
                !request.writable_avail,
                request.max_descs == free,
            decreases lengths@.len() - i,
        {
            request = request.readable(lengths[i]);
            i += 1;
        }
        let request = match reply_cap {
            ReplyCapacity::Nothing => request,
            ReplyCapacity::Bounded(cap) => request.writable(cap),
            ReplyCapacity::Available => request.writable(segment_len).writable_avail(),
        };
        proof {
            assert(lengths@.take(i as int) =~= lengths@);
            assert(request.wr_caps@ =~= reply_cap.regions(segment_len));
            assert(self.requests(request, *message, reply_cap));
            lemma_region_sums(lengths@, *message, segment_len);
        }
        let ghost asked_for = request;
        let ghost before = self.g2h_producer.pool@;
        let ghost start = mem.mem();
        let mut chain = match request.build(&mut self.g2h_producer.pool) {
            Ok(chain) => chain,
            Err(error) => {
                proof {
                    assert(old(self).requests(asked_for, *message, reply_cap));
                }
                return Err(error);
            },
        };
        let ghost pool = self.g2h_producer.pool@;
        let ghost first = chain;
        let ghost pieces = message.wire_chunks();
        let chunks = message.chunks();
        proof {
            message.lemma_wire_len();
            lemma_nothing_written(start, chain.readable());
            assert(pieces.take(0) =~= Seq::<Seq<u8>>::empty());
            assert(chain.readable().len() == chain.owned.readable);
        }
        let mut k: usize = 0;
        while k < chunks.len()
            invariant
                k <= chunks@.len(),
                self.wf(),
                old(self).same_but_g2h(*self),
                same_but_pool(old(self).g2h_producer, self.g2h_producer),
                self.g2h_producer.pool@ == pool,
                old(self).requests(asked_for, *message, reply_cap),
                before == old(self).g2h_producer.pool@,
                start == old(mem).mem(),
                start.same_mapping(mem.mem()),
                taken(asked_for, before, pool, chain),
                pieces == message.wire_chunks(),
                message.wire() == pieces.flatten(),
                crate::transport::slice_views(chunks@) == pieces,
                chain.wf(),
                chain.owned.readable > 0,
                first.wf(),
                first.same_buffers(chain),
                chain.write_mode != send::WriteMode::Direct,
                chain.rd_capacity == pieces.flatten().len(),
                chain.payload(mem.mem()) == pieces.take(k as int).flatten(),
                chain.rd_written == pieces.take(k as int).flatten().len(),
                forall|a: int|
                    !send::in_entries(first.readable(), a) ==> #[trigger] mem.mem().byte(a)
                        == start.byte(a),
            decreases chunks@.len() - k,
        {
            let ghost earlier = chain;
            let ghost now = mem.mem();
            proof {
                assert(pieces[k as int] == chunks@[k as int]@);
                assert(pieces.take(k + 1) =~= pieces.take(k as int).push(pieces[k as int]));
                pieces.take(k as int).lemma_flatten_push(pieces[k as int]);
                vstd::seq_lib::lemma_flatten_concat(pieces.take(k + 1), pieces.skip(k + 1));
                assert(pieces.take(k + 1) + pieces.skip(k + 1) =~= pieces);
            }
            match chain.write_all(mem, chunks[k]) {
                Ok(()) => {},
                Err(error) => {
                    let ghost failed = chain;
                    proof {
                        lemma_taken_same(asked_for, before, pool, earlier, chain);
                        lemma_mapped_same(start, earlier, chain);
                        if send::entries_mapped(start, earlier.readable()) {
                            lemma_mapping_kept(start, now, earlier.readable());
                        }
                        assert(taken(asked_for, before, pool, failed));
                        assert(!send::entries_mapped(start, failed.readable()));
                    }
                    let _ = chain.release(&mut self.g2h_producer.pool);
                    return Err(error);
                },
            }
            proof {
                lemma_same_buffers_trans(first, earlier, chain);
                lemma_same_places(first, earlier);
                lemma_taken_same(asked_for, before, pool, earlier, chain);
            }
            k += 1;
        }
        proof {
            assert(pieces.take(k as int) =~= pieces);
            lemma_same_places(first, chain);
        }
        Ok(chain)
    }
}

/// The regions of a message hold the message.
proof fn lemma_region_sums(lengths: Seq<usize>, message: EncodedMessage<'_>, segment_len: usize)
    requires
        lengths == message_regions(
            12 + message.control_view().len(),
            message.external_values().flatten().len(),
            segment_len,
        ),
        message.wire().len() == 12 + message.control_view().len()
            + message.external_values().flatten().len(),
        message.wire().len() <= usize::MAX,
    ensures
        builder::caps_sum(lengths) == message.wire().len(),
        lengths.len() > 0,
        lengths[0] > 0,
{
    reveal_with_fuel(builder::caps_sum, 3);
    if lengths.len() == 2 {
        assert(lengths.drop_last() =~= seq![lengths[0]]);
        assert(lengths.drop_last().drop_last() =~= Seq::<usize>::empty());
    } else {
        assert(lengths.drop_last() =~= Seq::<usize>::empty());
    }
}

/// Buffers without written bytes hold nothing.
proof fn lemma_nothing_written(mem: MemView, buffers: Seq<entries::BufferEntry>)
    requires
        forall|i: int| 0 <= i < buffers.len() ==> (#[trigger] buffers[i]).written == 0,
    ensures
        send::entries_payload(mem, buffers) == Seq::<u8>::empty(),
    decreases buffers.len(),
{
    send::lemma_payload_len(mem, buffers);
    lemma_written_zero(buffers);
    assert(send::entries_payload(mem, buffers) =~= Seq::<u8>::empty());
}

proof fn lemma_written_zero(buffers: Seq<entries::BufferEntry>)
    requires
        forall|i: int| 0 <= i < buffers.len() ==> (#[trigger] buffers[i]).written == 0,
    ensures
        send::written_sum(buffers) == 0,
    decreases buffers.len(),
{
    if buffers.len() > 0 {
        assert forall|i: int| 0 <= i < buffers.drop_last().len() implies (
        #[trigger] buffers.drop_last()[i]).written == 0 by {
            assert(buffers.drop_last()[i] == buffers[i]);
        }
        lemma_written_zero(buffers.drop_last());
        assert(buffers[buffers.len() - 1].written == 0);
    }
}

proof fn lemma_same_buffers_trans(a: SendChain, b: SendChain, c: SendChain)
    requires
        a.same_buffers(b),
        b.same_buffers(c),
    ensures
        a.same_buffers(c),
{
    assert forall|i: int| 0 <= i < a.owned.buffers@.len() implies (
    #[trigger] c.owned.buffers@[i]).addr == a.owned.buffers@[i].addr
        && c.owned.buffers@[i].capacity == a.owned.buffers@[i].capacity by {
        assert(b.owned.buffers@[i].addr == a.owned.buffers@[i].addr);
    }
    assert forall|i: int| a.owned.readable <= i < a.owned.buffers@.len() implies (
    #[trigger] c.owned.buffers@[i]) == a.owned.buffers@[i] by {
        assert(b.owned.buffers@[i] == a.owned.buffers@[i]);
    }
}

/// Chains with the same buffers cover the same addresses.
proof fn lemma_same_places(a: SendChain, b: SendChain)
    requires
        a.wf(),
        a.same_buffers(b),
    ensures
        forall|x: int| #[trigger]
            send::in_entries(b.readable(), x) <==> send::in_entries(a.readable(), x),
{
    let ar = a.readable();
    let br = b.readable();
    assert(ar.len() == br.len());
    assert forall|i: int| 0 <= i < ar.len() implies ar[i].addr == (#[trigger] br[i]).addr
        && ar[i].capacity == br[i].capacity by {
        assert(ar[i] == a.owned.buffers@[i]);
        assert(br[i] == b.owned.buffers@[i]);
    }
    assert forall|x: int| #[trigger] send::in_entries(br, x) <==> send::in_entries(ar, x) by {
        if send::in_entries(br, x) {
            let i = choose|i: int|
                0 <= i < br.len() && (#[trigger] br[i]).addr <= x < br[i].addr + br[i].capacity;
            assert(ar[i].addr == br[i].addr);
        }
        if send::in_entries(ar, x) {
            let i = choose|i: int|
                0 <= i < ar.len() && (#[trigger] ar[i]).addr <= x < ar[i].addr + ar[i].capacity;
            assert(ar[i].addr == br[i].addr);
        }
    }
}

/// Filling a chain does not change what was taken for it.
proof fn lemma_taken_same(
    request: ChainBuilder,
    before: PoolView,
    after: PoolView,
    a: SendChain,
    b: SendChain,
)
    requires
        taken(request, before, after, a),
        a.same_buffers(b),
    ensures
        taken(request, before, after, b),
{
    let lens = request.all_lens(before);
    assert forall|i: int| 0 <= i < lens.len() implies ({
        let entry = builder::entries_for(
            lens,
            entries::answers(before, lens)->0,
            request.plan(before).readable,
        )[i];
        (#[trigger] b.owned.buffers@[i]).addr == entry.addr && b.owned.buffers@[i].capacity
            == entry.capacity
    }) by {
        assert(a.owned.buffers@[i].addr == b.owned.buffers@[i].addr);
    }
}

/// The correlation identifier that a context hands out when it has handed out `calls` of
/// them, beginning with `first`.
pub open spec fn nth_cid<N: Notifier>(first: u32, calls: nat) -> u32
    decreases calls,
{
    if calls == 0 {
        first
    } else {
        GuestContext::<N>::cid_after(nth_cid::<N>(first, (calls - 1) as nat))
    }
}

/// Identifiers count up and start over at one.
proof fn lemma_nth_cid<N: Notifier>(first: u32, calls: nat)
    requires
        first != 0,
    ensures
        nth_cid::<N>(first, calls) == (first - 1 + calls) % (u32::MAX as int) + 1,
    decreases calls,
{
    let modulus = u32::MAX as int;
    if calls == 0 {
        lemma_small_mod((first - 1) as nat, modulus as nat);
    } else {
        lemma_nth_cid::<N>(first, (calls - 1) as nat);
        let before = first - 1 + calls - 1;
        lemma_fundamental_div_mod(before, modulus);
        if before % modulus == modulus - 1 {
            lemma_fundamental_div_mod_converse(before + 1, modulus, before / modulus + 1, 0);
        } else {
            lemma_fundamental_div_mod_converse(
                before + 1,
                modulus,
                before / modulus,
                before % modulus + 1,
            );
        }
    }
}

/// Calls that are fewer than 2^32 - 1 apart are told apart by their identifiers, and none of
/// them is zero.
pub proof fn law_calls_are_told_apart_by_their_identifiers<N: Notifier>(
    first: u32,
    earlier: nat,
    later: nat,
)
    requires
        first != 0,
        earlier < later,
        later - earlier < u32::MAX,
    ensures
        nth_cid::<N>(first, earlier) != nth_cid::<N>(first, later),
        nth_cid::<N>(first, earlier) != 0,
        nth_cid::<N>(first, later) != 0,
{
    let modulus = u32::MAX as int;
    lemma_nth_cid::<N>(first, earlier);
    lemma_nth_cid::<N>(first, later);
    let a = first - 1 + earlier;
    let b = first - 1 + later;
    lemma_fundamental_div_mod(a, modulus);
    lemma_fundamental_div_mod(b, modulus);
    if a % modulus == b % modulus {
        assert(b - a == modulus * (b / modulus - a / modulus)) by (nonlinear_arith)
            requires
                a == modulus * (a / modulus) + a % modulus,
                b == modulus * (b / modulus) + b % modulus,
                a % modulus == b % modulus,
        ;
        assert(false) by (nonlinear_arith)
            requires
                0 < b - a < modulus,
                b - a == modulus * (b / modulus - a / modulus),
        ;
    }
}

/// The identifier after the last of a round is the first again, so no identifier is left out.
pub proof fn law_identifiers_start_over<N: Notifier>(first: u32, calls: nat)
    requires
        first != 0,
    ensures
        nth_cid::<N>(first, calls + u32::MAX as nat) == nth_cid::<N>(first, calls),
{
    let modulus = u32::MAX as int;
    lemma_nth_cid::<N>(first, calls);
    lemma_nth_cid::<N>(first, calls + u32::MAX as nat);
    lemma_mod_add_multiples_vanish(first - 1 + calls, modulus);
}

/// What memory maps, it maps after stores.
proof fn lemma_mapping_kept(before: MemView, after: MemView, buffers: Seq<entries::BufferEntry>)
    requires
        before.same_mapping(after),
        send::entries_mapped(before, buffers),
    ensures
        send::entries_mapped(after, buffers),
{
    assert forall|i: int| 0 <= i < buffers.len() implies after.serves(
        (#[trigger] buffers[i]).addr as int,
        buffers[i].capacity as int,
    ) by {
        assert(before.serves(buffers[i].addr as int, buffers[i].capacity as int));
    }
}

/// Chains with the same buffers are mapped alike.
proof fn lemma_mapped_same(mem: MemView, a: SendChain, b: SendChain)
    requires
        a.wf(),
        a.same_buffers(b),
    ensures
        send::entries_mapped(mem, a.readable()) <==> send::entries_mapped(mem, b.readable()),
{
    let ar = a.readable();
    let br = b.readable();
    assert forall|i: int| 0 <= i < ar.len() implies ar[i].addr == (#[trigger] br[i]).addr
        && ar[i].capacity == br[i].capacity by {
        assert(ar[i] == a.owned.buffers@[i]);
        assert(br[i] == b.owned.buffers@[i]);
    }
    if send::entries_mapped(mem, ar) {
        assert forall|i: int| 0 <= i < br.len() implies mem.serves(
            (#[trigger] br[i]).addr as int,
            br[i].capacity as int,
        ) by {
            assert(mem.serves(ar[i].addr as int, ar[i].capacity as int));
        }
    }
    if send::entries_mapped(mem, br) {
        assert forall|i: int| 0 <= i < ar.len() implies mem.serves(
            (#[trigger] ar[i]).addr as int,
            ar[i].capacity as int,
        ) by {
            assert(mem.serves(br[i].addr as int, br[i].capacity as int));
        }
    }
}

/// The regions of a message hold exactly its bytes, in at most two regions. External values
/// that fill whole segments begin a region of their own.
pub proof fn law_message_regions_hold_the_message(prefix: nat, external: nat, segment_len: usize)
    requires
        prefix > 0,
        prefix + external <= usize::MAX,
    ensures
        ({
            let regions = message_regions(prefix, external, segment_len);
            &&& 1 <= regions.len() <= 2
            &&& builder::caps_sum(regions) == prefix + external
            &&& !regions.contains(0)
            &&& regions.len() == 2 <==> external > 0 && segment_len > 0 && external
                % segment_len as nat == 0
            &&& regions.len() == 2 ==> regions[0] == prefix && regions[1] == external
        }),
{
    reveal_with_fuel(builder::caps_sum, 3);
    let regions = message_regions(prefix, external, segment_len);
    if regions.len() == 2 {
        assert(regions.drop_last() =~= seq![prefix as usize]);
        assert(seq![prefix as usize].drop_last() =~= Seq::<usize>::empty());
    } else {
        assert(regions.drop_last() =~= Seq::<usize>::empty());
    }
}

/// A reply that is bounded is given the bytes it asks for, one that is not is given a segment
/// and all the buffers there are, and a message without reply is given nothing.
pub proof fn law_reply_is_given_the_room_it_asks_for(
    request: ChainBuilder,
    readable: Seq<usize>,
    reply: ReplyCapacity,
    segment_len: usize,
    free: usize,
)
    requires
        asked(request, readable, reply, segment_len, free),
    ensures
        match reply {
            ReplyCapacity::Nothing => request.wr_caps@.len() == 0 && !request.writable_avail,
            ReplyCapacity::Bounded(cap) => builder::caps_sum(request.wr_caps@) == cap
                && !request.writable_avail,
            ReplyCapacity::Available => builder::caps_sum(request.wr_caps@) == segment_len
                && request.writable_avail,
        },
        builder::caps_sum(request.rd_caps@) == builder::caps_sum(readable),
        request.max_descs == free,
{
    reveal_with_fuel(builder::caps_sum, 2);
    let wr = request.wr_caps@;
    if wr.len() == 1 {
        assert(wr.drop_last() =~= Seq::<usize>::empty());
    }
}

} // verus!
