//! Driver side of a virtqueue.

use std::collections::VecDeque;

use bytes::Bytes;
use vstd::prelude::*;

use super::access::{BufferMap, MemOps, MemView};
use super::buffer::{BufferLease, Segments};
use super::builder::ChainBuilder;
use super::desc;
use super::desc::Layout;
use super::entries;
use super::inflight;
use super::inflight::{Inflight, InflightTable};
use super::pool::slot::PoolView;
use super::pool::SlotPool;
use super::ring;
use super::ring::{BufferChain, RingCursor, RingError, RingProducer, UsedBuffer};
use super::send::SendChain;
use super::{Notifier, QueueStats, SuppressionKind, Token, VirtqError};
use crate::octets;

verus! {

/// `VecDeque::try_reserve`: asks the allocator for room and keeps the items.
/// Whether room is found depends on the allocator.
#[verifier::external_body]
fn try_reserve_back(queue: &mut VecDeque<UsedChain>) -> (reserved: bool)
    ensures
        final(queue)@ == old(queue)@,
{
    queue.try_reserve(1).is_ok()
}

/// A used chain observed by the driver (producer) side.
///
/// Read-only chains are returned as [`Ack`](Self::Ack). Chains with a writable
/// buffer complete as [`Data`](Self::Data), even when the device wrote zero
/// bytes. Non-empty segments use backend-owned mappings; their pool slots stay
/// allocated until the leases that come with them are released.
pub enum UsedChain {
    /// Acknowledgement for a read-only/fire-and-forget chain.
    Ack(Token),
    /// Data written by the consumer into the chain's writable buffers.
    ///
    /// The payload may contain zero bytes when the consumer writes zero bytes;
    /// that is still a data used chain because the submitted chain had
    /// writable capacity.
    Data(Token, Segments, Vec<BufferLease>),
}

impl UsedChain {
    pub open spec fn wf(&self) -> bool {
        self matches UsedChain::Data(_, segments, _) ==> segments.wf() && segments.payload().len()
            <= u32::MAX
    }

    /// Token identifying which submitted chain this used chain corresponds to.
    pub open spec fn token_view(&self) -> Token {
        match self {
            UsedChain::Ack(token) => *token,
            UsedChain::Data(token, _, _) => *token,
        }
    }

    /// Token identifying which submitted chain this used chain corresponds to.
    pub fn token(&self) -> (token: Token)
        ensures
            token == self.token_view(),
    {
        match self {
            UsedChain::Ack(token) => *token,
            UsedChain::Data(token, _, _) => *token,
        }
    }

    /// Data written by the consumer as contiguous bytes, if this chain has data.
    pub fn to_bytes(&self) -> (bytes: Option<Bytes>)
        requires
            self.wf(),
        ensures
            bytes is Some <==> self is Data,
            bytes matches Some(b) ==> octets::octets(b) == self->Data_1.payload(),
    {
        match self {
            UsedChain::Ack(_) => None,
            UsedChain::Data(_, segments, _) => Some(segments.to_bytes()),
        }
    }

    /// Segments written by the consumer, if this chain has data.
    pub fn segments(&self) -> (segments: Option<&Segments>)
        ensures
            segments is Some <==> self is Data,
            segments matches Some(s) ==> *s == self->Data_1,
    {
        match self {
            UsedChain::Ack(_) => None,
            UsedChain::Data(_, segments, _) => Some(segments),
        }
    }

    /// Consume the used chain and return written data as contiguous bytes, if
    /// present, with the leases of the slots that may hold them.
    pub fn into_bytes(self) -> (parts: Option<(Bytes, Vec<BufferLease>)>)
        requires
            self.wf(),
        ensures
            parts is Some <==> self is Data,
            parts matches Some((b, leases)) ==> octets::octets(b) == self->Data_1.payload()
                && leases == self->Data_2,
    {
        match self {
            UsedChain::Ack(_) => None,
            UsedChain::Data(_, segments, leases) => Some((segments.into_bytes(), leases)),
        }
    }

    /// Consume the used chain and return written segments, if present, with the
    /// leases of the slots that hold them.
    pub fn into_segments(self) -> (parts: Option<(Segments, Vec<BufferLease>)>)
        ensures
            parts is Some <==> self is Data,
            parts matches Some((segments, leases)) ==> segments == self->Data_1 && leases
                == self->Data_2,
    {
        match self {
            UsedChain::Ack(_) => None,
            UsedChain::Data(_, segments, leases) => Some((segments, leases)),
        }
    }
}

/// A high-level virtqueue producer (driver side).
///
/// The producer sends chains to the consumer (device), and receives used chains.
/// This is used on the driver/guest side. The memory is passed to each call.
///
/// Dropping a producer does not stop its peer, so in-flight chains are not given
/// back then. Drain completions for all submitted chains, or stop the peer and
/// call [`reset`](Self::reset), before dropping the producer.
pub struct VirtqProducer<N> {
    pub inner: RingProducer,
    pub notifier: N,
    pub pool: SlotPool,
    pub next_token: u32,
    pub inflight: InflightTable,
    pub pending: VecDeque<UsedChain>,
}

/// Descriptors in use, as a notification reports them.
pub open spec fn driver_stats(ring: RingProducer) -> QueueStats {
    QueueStats {
        num_free: ring.num_free,
        num_inflight: (ring.layout.descs() - ring.num_free) as usize,
    }
}

impl<N: Notifier> VirtqProducer<N> {
    pub open spec fn wf(self) -> bool {
        &&& self.inner.wf()
        &&& self.pool.wf()
        &&& self.inflight.wf()
        &&& self.inflight.ids() == self.inner.layout.descs()
        &&& forall|i: int| 0 <= i < self.pending@.len() ==> (#[trigger] self.pending@[i]).wf()
    }

    /// Create a new virtqueue producer.
    ///
    /// # Arguments
    ///
    /// * `layout` - Ring memory layout (descriptor table and event suppression addresses)
    /// * `notifier` - Callback for notifying the device (consumer) about new chains
    /// * `pool` - Buffer allocator for chain payload and reply data
    pub fn new(layout: Layout, notifier: N, pool: SlotPool) -> (producer: Self)
        requires
            layout.wf(),
            pool.wf(),
        ensures
            producer.wf(),
            producer.inner.fresh(layout),
            producer.notifier == notifier,
            producer.pool == pool,
            producer.next_token == 0,
            producer.inflight.chains().len() == 0,
            producer.pending@.len() == 0,
    {
        let inner = RingProducer::new(layout);
        let inflight = InflightTable::new(inner.len());
        VirtqProducer {
            inner,
            notifier,
            pool,
            next_token: 0,
            inflight,
            pending: VecDeque::new(),
        }
    }

    /// Borrow the pool used for new chains.
    pub fn pool(&self) -> (pool: &SlotPool)
        ensures
            *pool == self.pool,
    {
        &self.pool
    }

    /// Begin building a descriptor chain for submission.
    ///
    /// The builder captures the current free-descriptor budget.
    /// Submission checks capacity again.
    pub fn chain(&self) -> (builder: ChainBuilder)
        ensures
            builder.rd_caps@.len() == 0,
            builder.wr_caps@.len() == 0,
            !builder.writable_avail,
            builder.max_descs == self.inner.num_free,
    {
        ChainBuilder::new(self.inner.num_free())
    }

    /// Preferred size of one bulk payload segment.
    pub fn preferred_segment_len(&self) -> (len: usize)
        ensures
            len == self.pool@.upper.layout.size(),
    {
        self.pool.slot_size()
    }

    /// Begin a batch of submissions.
    ///
    /// Chains submitted through the returned [`SubmitBatch`] are published to
    /// the ring immediately, but the consumer is notified at most once when
    /// [`SubmitBatch::finish`] is called. This mirrors the virtio pattern of
    /// adding multiple buffers and then kicking the queue once.
    pub fn batch(&self) -> (batch: SubmitBatch)
        ensures
            batch.notify_from is None,
    {
        SubmitBatch { notify_from: None }
    }

    /// Everything but the named parts of the queue is the same.
    pub open spec fn same_rest(self, after: VirtqProducer<N>) -> bool {
        &&& after.pending == self.pending
        &&& after.inner.layout == self.inner.layout
        &&& after.inflight.ids() == self.inflight.ids()
    }

    /// Why a chain of `count` descriptors cannot be published.
    pub open spec fn publish_error(self, count: int) -> Option<VirtqError> {
        if self.inflight.chains().len() == self.inflight.ids() || count > self.inner.num_free {
            Some(VirtqError::Backpressure)
        } else if self.inflight.has(self.inner.id_free@.last()) {
            Some(VirtqError::InvalidState)
        } else {
            None
        }
    }

    /// Whether a chain of `count` descriptors may be refused with `error`. Where the chains in
    /// flight leave a place for its record, the record's storage may still be lacking.
    pub open spec fn may_refuse(self, count: int, error: VirtqError) -> bool {
        ||| self.publish_error(count) == Some(error)
        ||| error == VirtqError::Bookkeeping && self.inflight.chains().len() < self.inflight.ids()
    }

    /// Why a chain of `count` descriptors is refused, given the room for its record.
    pub open spec fn refusal(self, count: int, room: Result<(), VirtqError>) -> Option<VirtqError> {
        match room {
            Err(e) => Some(e),
            Ok(_) => self.publish_error(count),
        }
    }

    /// The token of the next chain that is published.
    pub open spec fn next(self) -> Token {
        Token { seq: self.next_token, id: self.inner.id_free@.last() }
    }

    /// The queue with one chain more in flight.
    pub open spec fn tracks(self, after: VirtqProducer<N>, chain: SendChain) -> bool {
        &&& after.inflight.chains() == self.inflight.chains().push(
            Inflight { token: self.next(), chain: chain.owned },
        )
        &&& after.next_token == (self.next_token + 1) % 0x1_0000_0000
        &&& after.pool == self.pool
        &&& self.same_rest(after)
    }

    /// The chain went out: the ring shows its buffers to the device under the
    /// token's identifier.
    pub open spec fn sends(
        self,
        after: VirtqProducer<N>,
        before_mem: MemView,
        after_mem: MemView,
        chain: SendChain,
    ) -> bool {
        let elems = entries::published_elems(
            chain.owned.buffers@,
            chain.owned.readable as int,
        );
        &&& self.publish_error(elems.len() as int) is None
        &&& self.tracks(after, chain)
        &&& self.inner.after_submit(after.inner, elems.len() as int)
        &&& ring::producer::published(
            before_mem,
            after_mem,
            self.inner.layout,
            self.inner.avail_cursor,
            self.next().id,
            elems,
        )
    }

    /// The chain was refused: its buffers went back to the pool, and nothing else
    /// changed.
    pub open spec fn refuses(self, after: VirtqProducer<N>, chain: SendChain) -> bool {
        &&& after.inner == self.inner
        &&& after.notifier == self.notifier
        &&& after.next_token == self.next_token
        &&& after.inflight.chains() == self.inflight.chains()
        &&& after.pool@ == entries::released(
            self.pool@,
            entries::addrs_of(chain.owned.buffers@),
        )
        &&& self.same_rest(after)
    }

    /// What was sent after the ring moved from `before` to `after`: one
    /// notification if the device asked for it.
    pub open spec fn kicked(
        sent: Seq<QueueStats>,
        mem: MemView,
        before: RingCursor,
        after: RingProducer,
    ) -> Seq<QueueStats> {
        if ring::notification_due(
            desc::event_in(mem, after.layout.dev_evt()),
            before,
            after.avail_cursor,
        ) {
            sent.push(driver_stats(after))
        } else {
            sent
        }
    }

    /// Publishing a chain changes no memory but the descriptors that it takes.
    pub open spec fn keeps_memory(
        self,
        before: MemView,
        after: MemView,
        chain: SendChain,
    ) -> bool {
        ring::producer::same_but_slots(
            before,
            after,
            self.inner.layout,
            self.inner.avail_cursor,
            chain.owned.buffers@.len() as int,
        )
    }

    /// Submit a [`SendChain`] to the ring.
    ///
    /// Publishes the descriptor chain, stores the in-flight tracking state,
    /// and notifies the consumer if event suppression allows. Notifications
    /// are layout-neutral; use [`batch`](Self::batch) when a higher-level
    /// protocol wants to publish multiple chains and kick once.
    ///
    /// # Errors
    ///
    /// * [`VirtqError::Backpressure`] - ring or in-flight tracking is full
    /// * [`VirtqError::RingError`] - publication or notification memory access failed
    /// * [`VirtqError::InvalidState`] - descriptor ID collision
    pub fn submit<M: MemOps>(&mut self, mem: &mut M, chain: SendChain) -> (token: Result<
        Token,
        VirtqError,
    >)
        requires
            old(self).wf(),
            chain.wf(),
        ensures
            final(self).wf(),
            old(mem).mem().same_mapping(final(mem).mem()),
            token matches Ok(t) ==> {
                &&& t == old(self).next()
                &&& old(self).sends(*final(self), old(mem).mem(), final(mem).mem(), chain)
                &&& final(self).notifier.sent() == Self::kicked(
                    old(self).notifier.sent(),
                    final(mem).mem(),
                    old(self).inner.avail_cursor,
                    final(self).inner,
                )
            },
            ({
                let count = chain.owned.buffers@.len() as int;
                let failed = old(self).publish_error(count);
                &&& failed is Some ==> token is Err
                &&& token matches Err(e) ==> old(self).may_refuse(count, e) && old(self).refuses(
                    *final(self),
                    chain,
                ) && *final(mem) == *old(mem) || (failed is None && (e
                    matches VirtqError::RingError(r) && r is MemError) && old(self).tracks(
                    *final(self),
                    chain,
                ))
            }),
            old(self).inflight.chains().len() == old(self).inflight.ids() ==> token == Err::<
                Token,
                VirtqError,
            >(VirtqError::Backpressure),
            old(self).keeps_memory(old(mem).mem(), final(mem).mem(), chain),
            old(self).inner.layout.mapped_in(old(mem).mem()) ==> !(token matches Err(
                VirtqError::RingError(_),
            )),
    {
        let room = self.inflight.try_reserve_one();
        self.submit_in(mem, chain, room)
    }

    /// Submit a chain whose record has `room` among those of the chains in flight, or has
    /// none for the reason given.
    pub fn submit_in<M: MemOps>(
        &mut self,
        mem: &mut M,
        chain: SendChain,
        room: Result<(), VirtqError>,
    ) -> (token: Result<Token, VirtqError>)
        requires
            old(self).wf(),
            chain.wf(),
            room is Ok ==> old(self).inflight.chains().len() < old(self).inflight.ids(),
        ensures
            final(self).wf(),
            old(mem).mem().same_mapping(final(mem).mem()),
            token matches Ok(t) ==> {
                &&& t == old(self).next()
                &&& old(self).sends(*final(self), old(mem).mem(), final(mem).mem(), chain)
                &&& final(self).notifier.sent() == Self::kicked(
                    old(self).notifier.sent(),
                    final(mem).mem(),
                    old(self).inner.avail_cursor,
                    final(self).inner,
                )
            },
            match old(self).refusal(chain.owned.buffers@.len() as int, room) {
                Some(e) => token == Err::<Token, VirtqError>(e) && old(self).refuses(
                    *final(self),
                    chain,
                ) && *final(mem) == *old(mem),
                None => token matches Err(e) ==> (e matches VirtqError::RingError(r)
                    && r is MemError) && old(self).tracks(*final(self), chain),
            },
            old(self).keeps_memory(old(mem).mem(), final(mem).mem(), chain),
            room is Ok && old(self).inner.layout.mapped_in(old(mem).mem()) ==> !(token matches Err(
                VirtqError::RingError(_),
            )),
    {
        let before = self.inner.avail_cursor();
        let token = match self.publish(mem, chain, room) {
            Ok(token) => token,
            Err(err) => return Err(err),
        };
        match self.notify_since(mem, before) {
            Ok(_) => Ok(token),
            Err(err) => Err(err),
        }
    }

    fn publish<M: MemOps>(&mut self, mem: &mut M, send: SendChain, room: Result<(), VirtqError>) -> (
        token: Result<Token, VirtqError>)
        requires
            old(self).wf(),
            send.wf(),
            room is Ok ==> old(self).inflight.chains().len() < old(self).inflight.ids(),
        ensures
            final(self).wf(),
            final(self).notifier == old(self).notifier,
            old(mem).mem().same_mapping(final(mem).mem()),
            token matches Ok(t) ==> t == old(self).next() && old(self).sends(
                *final(self),
                old(mem).mem(),
                final(mem).mem(),
                send,
            ),
            match old(self).refusal(send.owned.buffers@.len() as int, room) {
                Some(e) => token == Err::<Token, VirtqError>(e) && old(self).refuses(
                    *final(self),
                    send,
                ) && *final(mem) == *old(mem),
                None => token matches Err(e) ==> (e matches VirtqError::RingError(r)
                    && r is MemError) && old(self).tracks(*final(self), send) && final(self).inner
                    == old(self).inner,
            },
            old(self).keeps_memory(old(mem).mem(), final(mem).mem(), send),
            room is Ok && old(self).inner.layout.mapped_in(old(mem).mem()) ==> !(token matches Err(
                VirtqError::RingError(_),
            )),
    {
        let ghost count = send.owned.buffers@.len() as int;
        match room {
            Ok(()) => {},
            Err(err) => {
                let _ = send.release(&mut self.pool);
                return Err(err);
            },
        }
        if send.desc_count() > self.inner.num_free() {
            let _ = send.release(&mut self.pool);
            return Err(VirtqError::Backpressure);
        }
        proof {
            ring::lemma_counts_nonneg(self.inner.id_num@);
            self.inflight.lemma_wf();
        }
        let id: u16 = match self.inner.next_id() {
            Ok(id) => id,
            Err(err) => return Err(VirtqError::RingError(err)),
        };
        let token = Token { seq: self.next_token, id };
        // A free descriptor id must never already be tracked as inflight.
        if self.inflight.contains(id) {
            let _ = send.release(&mut self.pool);
            return Err(VirtqError::InvalidState);
        }
        proof {
            let ids = self.inner.id_free@;
            assert(ids[ids.len() - 1] == id);
            assert(self.inflight.chains() == old(self).inflight.chains());
            assert(!old(self).inflight.has(id)) by {
                if old(self).inflight.has(id) {
                    let at = old(self).inflight.place(id);
                    assert(self.inflight.chains()[at].token.id == id);
                }
            }
            assert(old(self).publish_error(count) is None);
        }
        let elems = send.owned.descriptors();
        let chain = BufferChain::from_parts(elems, send.owned.readable);
        let published = self.inner.submit_available(mem, &chain);
        // A failed write can still publish descriptors. Keep their allocations
        // until a stopped reset, including when submission reports an error.
        self.inflight.insert(Inflight { token, chain: send.owned });
        self.next_token = self.next_token.wrapping_add(1);
        match published {
            Ok(_) => Ok(token),
            Err(err) => Err(VirtqError::RingError(err)),
        }
    }

    fn notify_since<M: MemOps>(&mut self, mem: &M, cursor: RingCursor) -> (due: Result<
        bool,
        VirtqError,
    >)
        requires
            old(self).wf(),
            cursor.wf(),
            cursor.size == old(self).inner.layout.descs(),
        ensures
            final(self).wf(),
            final(self).inner == old(self).inner,
            final(self).pool == old(self).pool,
            final(self).next_token == old(self).next_token,
            final(self).inflight == old(self).inflight,
            final(self).pending == old(self).pending,
            due matches Ok(d) ==> d == ring::notification_due(
                desc::event_in(mem.mem(), old(self).inner.layout.dev_evt()),
                cursor,
                old(self).inner.avail_cursor,
            ) && final(self).notifier.sent() == Self::kicked(
                old(self).notifier.sent(),
                mem.mem(),
                cursor,
                old(self).inner,
            ),
            due matches Err(e) ==> (e matches VirtqError::RingError(r) && r is MemError)
                && final(self).notifier == old(self).notifier,
            old(self).inner.layout.mapped_in(mem.mem()) ==> due is Ok,
    {
        let due: bool = match self.inner.should_notify_since(mem, cursor) {
            Ok(due) => due,
            Err(err) => return Err(VirtqError::RingError(err)),
        };
        if due {
            self.notify_backpressure();
        }
        Ok(due)
    }

    /// Signal backpressure to the consumer.
    ///
    /// Bypasses event suppression. Call this when submit fails with a
    /// backpressure error and the consumer needs to drain.
    pub fn notify_backpressure(&mut self)
        requires
            old(self).wf(),
        ensures
            final(self).wf(),
            final(self).inner == old(self).inner,
            final(self).pool == old(self).pool,
            final(self).next_token == old(self).next_token,
            final(self).inflight == old(self).inflight,
            final(self).pending == old(self).pending,
            final(self).notifier.sent() == old(self).notifier.sent().push(
                driver_stats(old(self).inner),
            ),
    {
        let stats = QueueStats {
            num_free: self.inner.num_free(),
            num_inflight: self.inner.num_inflight(),
        };
        self.notifier.notify(stats);
    }

    /// Get the current used cursor position.
    ///
    /// Useful for setting up descriptor-based event suppression.
    pub fn used_cursor(&self) -> (cursor: RingCursor)
        ensures
            cursor == self.inner.used_cursor,
    {
        self.inner.used_cursor()
    }

    /// Number of free (unsubmitted) descriptors in the ring.
    pub fn num_free(&self) -> (count: usize)
        ensures
            count == self.inner.num_free,
    {
        self.inner.num_free()
    }

    /// Number of submitted descriptors not yet polled as used.
    pub fn num_inflight(&self) -> (count: usize)
        requires
            self.wf(),
        ensures
            count == self.inner.layout.descs() - self.inner.num_free,
    {
        self.inner.num_inflight()
    }

    /// What resetting the queue leads to. A queue that buffers data is left alone, and so
    /// is one whose ring cannot be written. Otherwise the ring is cleared, and the buffers
    /// of the chains in flight go back to the pool, even if one of them is refused.
    pub open spec fn resets(
        self,
        after: VirtqProducer<N>,
        before_mem: MemView,
        after_mem: MemView,
        done: Result<(), VirtqError>,
    ) -> bool {
        &&& after.notifier == self.notifier
        &&& after.pending == self.pending
        &&& if self.pending@.len() != 0 {
            &&& done == Err::<(), VirtqError>(VirtqError::InvalidState)
            &&& after == self
            &&& after_mem == before_mem
        } else {
            match done {
                Err(VirtqError::RingError(e)) => e is MemError && after == self
                    && !self.inner.layout.mapped_in(before_mem),
                _ => {
                    let chains = self.inflight.chains();
                    &&& after.inner.fresh(self.inner.layout)
                    &&& ring::producer::cleared(before_mem, after_mem, self.inner.layout)
                    &&& after.next_token == 0
                    &&& after.inflight.chains().len() == 0
                    &&& after.pool@ == inflight::chains_released(self.pool@, chains)
                    &&& done == match inflight::chains_error(self.pool@, chains) {
                        Some(e) => Err::<(), VirtqError>(VirtqError::Alloc(e)),
                        None => Ok(()),
                    }
                },
            }
        }
    }

    /// Reset a stopped producer and release transport-owned allocations.
    ///
    /// Buffered writable completions are guest-owned and make this operation fail.
    /// Owner-backed payloads already returned to callers are not tracked as
    /// in-flight and remain allocated.
    ///
    /// All consumer-side chain handles must be dropped. The peer must stay
    /// stopped until its consumer is reset or replaced.
    ///
    /// # Errors
    ///
    /// - [`VirtqError::InvalidState`] - A completion is buffered
    /// - [`VirtqError::Alloc`] - A slot of a chain is not one of this producer's pool: chains
    ///   from another pool are released with [`reset_with_pool`](Self::reset_with_pool)
    pub fn reset<M: MemOps>(&mut self, mem: &mut M) -> (done: Result<(), VirtqError>)
        requires
            old(self).wf(),
        ensures
            final(self).wf(),
            old(mem).mem().same_mapping(final(mem).mem()),
            old(self).resets(*final(self), old(mem).mem(), final(mem).mem(), done),
    {
        if self.pending.len() != 0 {
            return Err(VirtqError::InvalidState);
        }
        match self.inner.reset(mem) {
            Ok(()) => {},
            Err(err) => return Err(VirtqError::RingError(err)),
        }
        self.next_token = 0;
        proof {
            lemma_chains_error_kind(self.pool@, self.inflight.chains());
        }
        match self.inflight.release_all(&mut self.pool) {
            Ok(()) => Ok(()),
            Err(err) => Err(VirtqError::Alloc(err)),
        }
    }

    /// Configure event suppression for used buffer notifications.
    ///
    /// This controls when the device (consumer) signals us about completed buffers:
    ///
    /// - [`SuppressionKind::Enable`]: Always signal (default) - good for latency
    /// - [`SuppressionKind::Disable`]: Never signal - caller must poll
    /// - [`SuppressionKind::Descriptor`]: Signal only at specific cursor position
    pub fn set_used_suppression<M: MemOps>(&mut self, mem: &mut M, kind: SuppressionKind) -> (done:
        Result<(), VirtqError>)
        requires
            old(self).wf(),
            kind matches SuppressionKind::Descriptor(cursor) ==> cursor.head < 0x8000,
        ensures
            *final(self) == *old(self),
            old(mem).mem().same_mapping(final(mem).mem()),
            done is Ok ==> old(mem).mem().stored(
                final(mem).mem(),
                old(self).inner.layout.drv_evt(),
                super::suppression_event(kind).to_bytes(),
            ),
            done matches Err(e) ==> e matches VirtqError::RingError(r) && r is MemError,
            old(self).inner.layout.mapped_in(old(mem).mem()) ==> done is Ok,
    {
        let done = match kind {
            SuppressionKind::Enable => self.inner.enable_used_notifications(mem),
            SuppressionKind::Disable => self.inner.disable_used_notifications(mem),
            SuppressionKind::Descriptor(cursor) => self.inner.enable_used_notifications_desc(
                mem,
                cursor.head(),
                cursor.wrap(),
            ),
        };
        match done {
            Ok(()) => Ok(()),
            Err(err) => Err(VirtqError::RingError(err)),
        }
    }
}

/// The reply parts of an outcome.
pub open spec fn outcome_parts(token: Token, outcome: Result<Option<UsedChain>, VirtqError>) -> Option<
    Result<(Segments, Vec<BufferLease>), VirtqError>,
> {
    match outcome {
        Ok(Some(UsedChain::Data(t, segments, leases))) => if t == token {
            Some(Ok((segments, leases)))
        } else {
            None
        },
        Ok(_) => None,
        Err(e) => Some(Err(e)),
    }
}

impl<N: Notifier> VirtqProducer<N> {
    /// What taking back the next used chain from the ring leads to, whatever is
    /// buffered.
    pub open spec fn polled(
        self,
        after: VirtqProducer<N>,
        mem: MemView,
        outcome: Result<Option<UsedChain>, VirtqError>,
    ) -> bool {
        &&& after.notifier == self.notifier
        &&& after.next_token == self.next_token
        &&& match self.inner.used_result(mem) {
            Err(e) => {
                &&& after.inner == self.inner
                &&& after.pool == self.pool
                &&& after.inflight == self.inflight
                &&& outcome == if e == RingError::WouldBlock {
                    Ok::<Option<UsedChain>, VirtqError>(None)
                } else {
                    Err(VirtqError::RingError(e))
                }
            },
            Ok(used) => {
                &&& self.inner.after_used(after.inner, used.id)
                &&& if !self.inflight.has(used.id) {
                    &&& after.pool == self.pool
                    &&& after.inflight.chains() == self.inflight.chains()
                    &&& outcome == Err::<Option<UsedChain>, VirtqError>(VirtqError::InvalidState)
                } else {
                    let chains = self.inflight.chains();
                    let done = self.inflight.get(used.id);
                    let entries = done.chain.buffers@;
                    let addrs = entries::addrs_of(entries);
                    &&& after.inflight.chains() == chains.update(
                        self.inflight.place(used.id),
                        chains.last(),
                    ).drop_last()
                    &&& if done.chain.readable == entries.len() {
                        &&& after.pool@ == entries::released(self.pool@, addrs)
                        &&& outcome == match entries::release_error(self.pool@, addrs) {
                            Some(e) => Err::<Option<UsedChain>, VirtqError>(VirtqError::Alloc(e)),
                            None => Ok(Some(UsedChain::Ack(done.token))),
                        }
                    } else {
                        &&& outcome_parts(done.token, outcome) is Some
                        &&& entries::completed(
                            entries,
                            done.chain.readable as int,
                            used.len as int,
                            mem,
                            self.pool@,
                            after.pool@,
                            outcome_parts(done.token, outcome)->0,
                        )
                    }
                }
            },
        }
    }

    /// Ring, pool and tables are the same; what is buffered may differ.
    pub open spec fn same_ring(self, after: VirtqProducer<N>) -> bool {
        &&& after.inner == self.inner
        &&& after.notifier == self.notifier
        &&& after.pool == self.pool
        &&& after.next_token == self.next_token
        &&& after.inflight == self.inflight
    }

    /// Taking back chains from the ring one after another gave `chains`, and led
    /// through the states of `trace`.
    pub open spec fn ring_polls(
        self,
        after: VirtqProducer<N>,
        mem: MemView,
        chains: Seq<UsedChain>,
        trace: Seq<VirtqProducer<N>>,
    ) -> bool {
        &&& trace.len() == chains.len() + 1
        &&& self.same_ring(trace[0])
        &&& trace.last().same_ring(after)
        &&& forall|i: int|
            0 <= i < chains.len() ==> (#[trigger] trace[i]).polled(
                trace[i + 1],
                mem,
                Ok(Some(chains[i])),
            )
    }

    /// Poll one used chain directly from the ring (bypassing pending buffer).
    fn poll_ring<M: BufferMap>(&mut self, mem: &mut M) -> (outcome: Result<
        Option<UsedChain>,
        VirtqError,
    >)
        requires
            old(self).wf(),
        ensures
            final(self).wf(),
            final(self).pending == old(self).pending,
            old(mem).mem().same_mapping(final(mem).mem()),
            old(mem).mem().same_bytes(final(mem).mem()),
            final(self).inner.layout == old(self).inner.layout,
            outcome matches Ok(Some(chain)) ==> chain.wf() && final(self).inner.num_free
                > old(self).inner.num_free,
            old(self).polled(*final(self), old(mem).mem(), outcome) || (outcome matches Err(
                VirtqError::RingError(e),
            ) && e is MemError && *final(self) == *old(self)),
            old(self).inner.layout.mapped_in(old(mem).mem()) ==> !(outcome matches Err(
                VirtqError::RingError(e),
            ) && e is MemError),
            old(self).buffers_served(old(mem).mem()) ==> !(outcome matches Err(
                VirtqError::MemoryReadError,
            )),
    {
        let used = match self.inner.poll_used(mem) {
            Ok(used) => used,
            Err(RingError::WouldBlock) => return Ok(None),
            Err(err) => return Err(VirtqError::RingError(err)),
        };
        let Inflight { token, chain } = match self.inflight.remove(used.id) {
            Some(inflight) => inflight,
            None => return Err(VirtqError::InvalidState),
        };
        if chain.readable == chain.buffers.as_slice().len() {
            proof {
                entries::lemma_release_error_kind(
                    self.pool@,
                    entries::addrs_of(chain.buffers@),
                );
            }
            match chain.release(&mut self.pool) {
                Ok(()) => Ok(Some(UsedChain::Ack(token))),
                Err(err) => Err(VirtqError::from(err)),
            }
        } else {
            proof {
                entries::lemma_reply_len(
                    mem.mem(),
                    chain.buffers@,
                    chain.readable as int,
                    used.len as int,
                    chain.buffers@.len() as int,
                );
            }
            match chain.into_segments(mem, &mut self.pool, used.len as usize) {
                Ok((segments, leases)) => Ok(Some(UsedChain::Data(token, segments, leases))),
                Err(err) => Err(err),
            }
        }
    }

    /// Poll for a single used chain from the device.
    ///
    /// Returns buffered used chains from prior [`reclaim`](Self::reclaim)
    /// calls first, then checks the ring for newly used chains.
    ///
    /// Returns `Ok(Some(used))` if a used chain is available, `Ok(None)` if no
    /// used chains are ready (would block), or an error if the device misbehaved.
    ///
    /// # Errors
    ///
    /// - [`VirtqError::InvalidState`] - Device returned invalid descriptor ID or
    ///   wrote more data than the writable buffer capacity
    /// - [`VirtqError::Alloc`] - A slot of the chain is not one of this producer's pool: a
    ///   chain from another pool is polled with [`poll_with_pool`](Self::poll_with_pool)
    pub fn poll<M: BufferMap>(&mut self, mem: &mut M) -> (outcome: Result<
        Option<UsedChain>,
        VirtqError,
    >)
        requires
            old(self).wf(),
        ensures
            final(self).wf(),
            old(mem).mem().same_mapping(final(mem).mem()),
            old(mem).mem().same_bytes(final(mem).mem()),
            outcome matches Ok(Some(chain)) ==> chain.wf(),
            outcome matches Ok(Some(_)) ==> final(self).backlog() < old(self).backlog(),
            final(self).inner.layout == old(self).inner.layout,
            old(self).poll_result(*final(self), old(mem).mem(), outcome) || (outcome matches Err(
                VirtqError::RingError(e),
            ) && e is MemError && old(self).same_ring(*final(self)) && final(self).pending@ == old(
                self,
            ).pending@),
            old(self).inner.layout.mapped_in(old(mem).mem()) ==> !(outcome matches Err(
                VirtqError::RingError(e),
            ) && e is MemError),
            old(self).buffers_served(old(mem).mem()) ==> !(outcome matches Err(
                VirtqError::MemoryReadError,
            )),
    {
        match self.pending.pop_front() {
            Some(chain) => Ok(Some(chain)),
            None => self.poll_ring(mem),
        }
    }

    /// The producer with another pool in place of its own.
    pub open spec fn with_pool(self, pool: SlotPool) -> VirtqProducer<N> {
        VirtqProducer { pool, ..self }
    }

    /// Reset a stopped producer whose chains in flight were allocated from `pool`, not from the
    /// producer's own pool. Their slots go back to the pool that they came from.
    pub fn reset_with_pool<M: MemOps>(&mut self, mem: &mut M, pool: &mut SlotPool) -> (done: Result<
        (),
        VirtqError,
    >)
        requires
            old(self).wf(),
            old(pool).wf(),
        ensures
            final(self).wf(),
            final(pool).wf(),
            final(self).pool == old(self).pool,
            old(mem).mem().same_mapping(final(mem).mem()),
            old(self).with_pool(*old(pool)).resets(
                final(self).with_pool(*final(pool)),
                old(mem).mem(),
                final(mem).mem(),
                done,
            ),
    {
        std::mem::swap(&mut self.pool, pool);
        let done = self.reset(mem);
        std::mem::swap(&mut self.pool, pool);
        done
    }

    /// Poll for a single used chain whose buffers were allocated from `pool`, not from the
    /// producer's own pool. Its slots go back to the pool that they came from.
    pub fn poll_with_pool<M: BufferMap>(&mut self, mem: &mut M, pool: &mut SlotPool) -> (outcome:
        Result<Option<UsedChain>, VirtqError>)
        requires
            old(self).wf(),
            old(pool).wf(),
        ensures
            final(self).wf(),
            final(pool).wf(),
            final(self).pool == old(self).pool,
            old(mem).mem().same_mapping(final(mem).mem()),
            old(mem).mem().same_bytes(final(mem).mem()),
            outcome matches Ok(Some(chain)) ==> chain.wf(),
            final(self).inner.layout == old(self).inner.layout,
            old(self).with_pool(*old(pool)).poll_result(
                final(self).with_pool(*final(pool)),
                old(mem).mem(),
                outcome,
            ) || (outcome matches Err(VirtqError::RingError(e)) && e is MemError && old(
                self,
            ).same_ring(*final(self)) && final(self).pending@ == old(self).pending@ && *final(pool)
                == *old(pool)),
            old(self).inner.layout.mapped_in(old(mem).mem()) ==> !(outcome matches Err(
                VirtqError::RingError(e),
            ) && e is MemError),
            old(self).buffers_served(old(mem).mem()) ==> !(outcome matches Err(
                VirtqError::MemoryReadError,
            )),
    {
        std::mem::swap(&mut self.pool, pool);
        let outcome = self.poll(mem);
        std::mem::swap(&mut self.pool, pool);
        outcome
    }

    /// Chains that polling can still return: those buffered and those in flight.
    pub open spec fn backlog(self) -> int {
        self.pending@.len() + self.inner.layout.descs() - self.inner.num_free
    }

    /// Polling one chain after another gave `chains`, and led through the states of
    /// `trace`.
    pub open spec fn polls(
        self,
        after: VirtqProducer<N>,
        mem: MemView,
        chains: Seq<UsedChain>,
        trace: Seq<VirtqProducer<N>>,
    ) -> bool {
        &&& trace.len() == chains.len() + 1
        &&& trace[0] == self
        &&& trace.last() == after
        &&& forall|i: int|
            0 <= i < chains.len() ==> (#[trigger] trace[i]).poll_result(
                trace[i + 1],
                mem,
                Ok(Some(chains[i])),
            )
    }

    /// What a poll leads to: buffered chains come first.
    pub open spec fn poll_result(
        self,
        after: VirtqProducer<N>,
        mem: MemView,
        outcome: Result<Option<UsedChain>, VirtqError>,
    ) -> bool {
        if self.pending@.len() > 0 {
            &&& outcome == Ok::<Option<UsedChain>, VirtqError>(Some(self.pending@[0]))
            &&& after.pending@ == self.pending@.drop_first()
            &&& after.inner == self.inner
            &&& after.notifier == self.notifier
            &&& after.pool == self.pool
            &&& after.next_token == self.next_token
            &&& after.inflight == self.inflight
        } else {
            after.pending@ == self.pending@ && self.polled(after, mem, outcome)
        }
    }

    /// Why taking back used chains stops: the next one is refused, the ring is not mapped,
    /// or there is no room to buffer a chain, whose slots are then given back.
    pub open spec fn stops(self, after: VirtqProducer<N>, mem: MemView, error: VirtqError) -> bool {
        ||| self.polled(after, mem, Err(error))
        ||| (error matches VirtqError::RingError(e) && e is MemError) && self.same_ring(after)
            && !self.inner.layout.mapped_in(mem)
        ||| error == VirtqError::Bookkeeping && self.lost_chain(after, mem)
    }

    /// A chain with data was taken back and dropped.
    pub open spec fn lost_chain(self, after: VirtqProducer<N>, mem: MemView) -> bool {
        exists|popped: VirtqProducer<N>, chain: UsedChain|
            {
                &&& #[trigger] self.polled(popped, mem, Ok(Some(chain)))
                &&& chain matches UsedChain::Data(_, _, leases)
                &&& after.inner == popped.inner
                &&& after.notifier == popped.notifier
                &&& after.next_token == popped.next_token
                &&& after.inflight == popped.inflight
                &&& after.pool@ == entries::leases_released(popped.pool@, leases@)
            }
    }

    /// Taking back every used chain from the ring: those with data are buffered behind
    /// what was buffered before.
    pub open spec fn reclaims(
        self,
        after: VirtqProducer<N>,
        mem: MemView,
        count: Result<usize, VirtqError>,
    ) -> bool {
        exists|mid: VirtqProducer<N>, chains: Seq<UsedChain>, trace: Seq<VirtqProducer<N>>|
            {
                &&& #[trigger] self.ring_polls(mid, mem, chains, trace)
                &&& mid.pending@ == self.pending@ + data_chains(chains)
                &&& after.pending@ == mid.pending@
                &&& match count {
                    Ok(n) => chains.len() == n && mid.same_ring(after)
                        && after.inner.used_result(mem) == Err::<UsedBuffer, RingError>(
                        RingError::WouldBlock,
                    ),
                    Err(error) => mid.stops(after, mem, error),
                }
            }
    }

    /// Taking every chain, buffered or used, gave `chains`.
    pub open spec fn drains(
        self,
        after: VirtqProducer<N>,
        mem: MemView,
        taken: Seq<UsedChain>,
        done: Result<(), VirtqError>,
    ) -> bool {
        exists|mid: VirtqProducer<N>, chains: Seq<UsedChain>, trace: Seq<VirtqProducer<N>>|
            {
                &&& #[trigger] self.ring_polls(mid, mem, chains, trace)
                &&& taken == self.pending@ + chains
                &&& after.pending@.len() == 0
                &&& match done {
                    Ok(_) => mid.same_ring(after) && after.inner.used_result(mem) == Err::<
                        UsedBuffer,
                        RingError,
                    >(RingError::WouldBlock),
                    Err(error) => mid.polled(after, mem, Err(error)) || (error
                        matches VirtqError::RingError(e) && e is MemError) && mid.same_ring(after)
                        && !mid.inner.layout.mapped_in(mem),
                }
            }
    }

    /// Every buffer of the chains in flight can be read.
    pub open spec fn buffers_served(self, mem: MemView) -> bool {
        forall|c: int, i: int|
            0 <= c < self.inflight.chains().len() && 0 <= i
                < self.inflight.chains()[c].chain.buffers@.len() ==> mem.serves(
                (#[trigger] self.inflight.chains()[c].chain.buffers@[i]).addr as int,
                self.inflight.chains()[c].chain.buffers@[i].capacity as int,
            )
    }

    /// Everything but the pool and the buffered chains is the same.
    pub open spec fn same_but_kept(self, after: VirtqProducer<N>) -> bool {
        &&& after.inner == self.inner
        &&& after.notifier == self.notifier
        &&& after.next_token == self.next_token
        &&& after.inflight == self.inflight
    }

    /// Buffer a used chain with data, for which a place was `reserved` or none was found.
    /// A chain without a place is dropped, and its slots go back to the pool.
    pub fn keep_chain(&mut self, chain: UsedChain, reserved: bool) -> (kept: Result<
        (),
        VirtqError,
    >)
        requires
            old(self).wf(),
            chain.wf(),
        ensures
            final(self).wf(),
            old(self).same_but_kept(*final(self)),
            reserved ==> {
                &&& kept is Ok
                &&& final(self).pending@ == old(self).pending@.push(chain)
                &&& final(self).pool == old(self).pool
            },
            !reserved ==> {
                &&& kept == Err::<(), VirtqError>(VirtqError::Bookkeeping)
                &&& final(self).pending == old(self).pending
                &&& final(self).pool@ == match chain {
                    UsedChain::Data(_, _, leases) => entries::leases_released(
                        old(self).pool@,
                        leases@,
                    ),
                    UsedChain::Ack(_) => old(self).pool@,
                }
            },
    {
        if !reserved {
            if let UsedChain::Data(_, _, leases) = chain {
                entries::release_leases(&mut self.pool, leases);
            }
            return Err(VirtqError::Bookkeeping);
        }
        self.pending.push_back(chain);
        Ok(())
    }

    /// Reclaim ring slots and pool allocations from used descriptors.
    ///
    /// Processes all available used chains from the ring: frees readable
    /// buffer allocations immediately, and buffers writable data for
    /// later retrieval via [`poll`](Self::poll).
    ///
    /// Read-only ack used chains are discarded immediately.
    ///
    /// Use this to free resources under backpressure without losing
    /// writable data. Returns the number of chains reclaimed.
    pub fn reclaim<M: BufferMap>(&mut self, mem: &mut M) -> (count: Result<usize, VirtqError>)
        requires
            old(self).wf(),
        ensures
            final(self).wf(),
            old(mem).mem().same_mapping(final(mem).mem()),
            old(mem).mem().same_bytes(final(mem).mem()),
            final(self).inner.layout == old(self).inner.layout,
            old(self).reclaims(*final(self), old(mem).mem(), count),
            old(self).inner.layout.mapped_in(old(mem).mem()) ==> !(count matches Err(
                VirtqError::RingError(e),
            ) && e is MemError),
    {
        let ghost view = mem.mem();
        let ghost mut chains: Seq<UsedChain> = Seq::empty();
        let ghost mut trace: Seq<VirtqProducer<N>> = seq![*self];
        let mut count: usize = 0;
        proof {
            assert(data_chains(chains) =~= Seq::<UsedChain>::empty());
            assert(self.pending@ + Seq::<UsedChain>::empty() =~= self.pending@);
        }
        loop
            invariant
                self.wf(),
                view == old(mem).mem(),
                view.same_mapping(mem.mem()),
                view.same_bytes(mem.mem()),
                self.inner.layout == old(self).inner.layout,
                old(self).ring_polls(*self, view, chains, trace),
                chains.len() == count,
                count <= self.inner.num_free,
                self.pending@ == old(self).pending@ + data_chains(chains),
            decreases self.inner.layout.descs() - self.inner.num_free,
        {
            let ghost before = *self;
            let ghost now = mem.mem();
            proof {
                ring::lemma_counts_nonneg(self.inner.id_num@);
            }
            match self.poll_ring(mem) {
                Ok(Some(chain)) => {
                    proof {
                        lemma_polled_same(before, *self, now, view, Ok(Some(chain)));
                        ring::lemma_counts_nonneg(self.inner.id_num@);
                    }
                    let is_data: bool = match &chain {
                        UsedChain::Data(_, _, _) => true,
                        UsedChain::Ack(_) => false,
                    };
                    let ghost item = chain;
                    if is_data {
                        let reserved: bool = try_reserve_back(&mut self.pending);
                        let ghost popped = *self;
                        match self.keep_chain(chain, reserved) {
                            Ok(()) => {},
                            Err(err) => {
                                proof {
                                    assert(before.polled(popped, view, Ok(Some(item))));
                                    assert(before.lost_chain(*self, view));
                                    assert(old(self).ring_polls(before, view, chains, trace));
                                }
                                return Err(err);
                            },
                        }
                    }
                    proof {
                        lemma_data_push(chains, item);
                        lemma_ring_polls_push(*old(self), before, *self, view, chains, trace, item);
                        chains = chains.push(item);
                        trace = trace.push(*self);
                        assert(self.pending@ =~= old(self).pending@ + data_chains(chains));
                    }
                    count += 1;
                },
                Ok(None) => {
                    proof {
                        lemma_polled_same(before, *self, now, view, Ok(None));
                        assert(old(self).ring_polls(before, view, chains, trace));
                    }
                    return Ok(count);
                },
                Err(err) => {
                    proof {
                        if before.polled(*self, now, Err(err)) {
                            lemma_polled_same(before, *self, now, view, Err(err));
                        }
                        assert(old(self).ring_polls(before, view, chains, trace));
                        assert(before.stops(*self, view, err));
                    }
                    return Err(err);
                },
            }
        }
    }

    /// Drain all available used chains into `out`.
    ///
    /// Repeatedly polls until no more used chains are available; those before a
    /// failure are kept.
    pub fn drain<M: BufferMap>(&mut self, mem: &mut M, out: &mut Vec<UsedChain>) -> (done: Result<
        (),
        VirtqError,
    >)
        requires
            old(self).wf(),
        ensures
            final(self).wf(),
            old(mem).mem().same_mapping(final(mem).mem()),
            old(mem).mem().same_bytes(final(mem).mem()),
            final(out)@.len() >= old(out)@.len(),
            final(out)@.take(old(out)@.len() as int) == old(out)@,
            old(self).drains(
                *final(self),
                old(mem).mem(),
                final(out)@.skip(old(out)@.len() as int),
                done,
            ),
            old(self).inner.layout.mapped_in(old(mem).mem()) ==> !(done matches Err(
                VirtqError::RingError(e),
            ) && e is MemError),
    {
        let ghost view = mem.mem();
        let ghost first = self.pending@;
        let ghost start = out@;
        let ghost mut taken: nat = 0;
        // Buffered chains first.
        while self.pending.len() > 0
            invariant
                self.wf(),
                self.inner == old(self).inner,
                self.notifier == old(self).notifier,
                self.pool == old(self).pool,
                self.next_token == old(self).next_token,
                self.inflight == old(self).inflight,
                first == old(self).pending@,
                start == old(out)@,
                taken <= first.len(),
                self.pending@ =~= first.skip(taken as int),
                out@ =~= start + first.take(taken as int),
            decreases self.pending@.len(),
        {
            match self.pending.pop_front() {
                Some(chain) => {
                    out.push(chain);
                    proof {
                        taken = taken + 1;
                    }
                },
                None => {},
            }
        }
        let ghost mut chains: Seq<UsedChain> = Seq::empty();
        let ghost mut trace: Seq<VirtqProducer<N>> = seq![*self];
        proof {
            assert(out@ =~= start + (first + chains));
        }
        loop
            invariant
                self.wf(),
                view == old(mem).mem(),
                view.same_mapping(mem.mem()),
                view.same_bytes(mem.mem()),
                self.inner.layout == old(self).inner.layout,
                self.pending@.len() == 0,
                old(self).ring_polls(*self, view, chains, trace),
                first == old(self).pending@,
                start == old(out)@,
                out@ == start + (first + chains),
            decreases self.inner.layout.descs() - self.inner.num_free,
        {
            let ghost before = *self;
            let ghost now = mem.mem();
            match self.poll_ring(mem) {
                Ok(Some(chain)) => {
                    proof {
                        lemma_polled_same(before, *self, now, view, Ok(Some(chain)));
                        ring::lemma_counts_nonneg(self.inner.id_num@);
                    }
                    let ghost item = chain;
                    out.push(chain);
                    proof {
                        lemma_ring_polls_push(*old(self), before, *self, view, chains, trace, item);
                        chains = chains.push(item);
                        trace = trace.push(*self);
                        assert(start + (first + chains) =~= out@);
                    }
                },
                Ok(None) => {
                    proof {
                        lemma_polled_same(before, *self, now, view, Ok(None));
                        assert(old(self).ring_polls(before, view, chains, trace));
                        assert(out@.skip(start.len() as int) =~= old(self).pending@ + chains);
                        assert(out@.take(start.len() as int) =~= start);
                    }
                    return Ok(());
                },
                Err(err) => {
                    proof {
                        if before.polled(*self, now, Err(err)) {
                            lemma_polled_same(before, *self, now, view, Err(err));
                        }
                        assert(old(self).ring_polls(before, view, chains, trace));
                        assert(out@.skip(start.len() as int) =~= old(self).pending@ + chains);
                        assert(out@.take(start.len() as int) =~= start);
                    }
                    return Err(err);
                },
            }
        }
    }
}

/// The chains that carry data.
pub open spec fn data_chains(chains: Seq<UsedChain>) -> Seq<UsedChain> {
    chains.filter(|c: UsedChain| c is Data)
}

proof fn lemma_data_push(chains: Seq<UsedChain>, chain: UsedChain)
    ensures
        data_chains(chains.push(chain)) == if chain is Data {
            data_chains(chains).push(chain)
        } else {
            data_chains(chains)
        },
{
    reveal(Seq::filter);
    assert(chains.push(chain).drop_last() =~= chains);
}

/// Memories with the same bytes that serve the same addresses lead to the same outcome.
proof fn lemma_polled_same<N: Notifier>(
    before: VirtqProducer<N>,
    after: VirtqProducer<N>,
    a: MemView,
    b: MemView,
    outcome: Result<Option<UsedChain>, VirtqError>,
)
    requires
        b.same_bytes(a),
        b.same_mapping(a),
        before.polled(after, a, outcome),
    ensures
        before.polled(after, b, outcome),
        before.inner.used_result(a) == before.inner.used_result(b),
{
    let addr = before.inner.layout.desc(before.inner.used_cursor.head as int);
    desc::lemma_span_same(b, a, addr, 16);
    if let Ok(used) = before.inner.used_result(a) {
        if before.inflight.has(used.id) {
            let done = before.inflight.get(used.id);
            let n = done.chain.buffers@.len() as int;
            entries::lemma_reply_same(
                b,
                a,
                done.chain.buffers@,
                done.chain.readable as int,
                used.len as int,
                0,
                n,
            );
            assert forall|at: int| 0 <= at < n implies b.serves(
                (#[trigger] done.chain.buffers@[at]).addr as int,
                done.chain.buffers@[at].capacity as int,
            ) == a.serves(
                done.chain.buffers@[at].addr as int,
                done.chain.buffers@[at].capacity as int,
            ) by {
                lemma_serves_same(
                    a,
                    b,
                    done.chain.buffers@[at].addr as int,
                    done.chain.buffers@[at].capacity as int,
                );
            }
        }
    }
}

/// Memories that commit to the same addresses serve the same accesses.
proof fn lemma_serves_same(a: MemView, b: MemView, addr: int, len: int)
    requires
        b.same_mapping(a),
    ensures
        b.serves(addr, len) == a.serves(addr, len),
{
    assert(a.maps(addr) == b.maps(addr));
    if a.serves(addr, len) {
        assert forall|x: int| addr <= x < addr + len implies #[trigger] b.maps(x) by {
            assert(a.maps(x));
        }
    }
    if b.serves(addr, len) {
        assert forall|x: int| addr <= x < addr + len implies #[trigger] a.maps(x) by {
            assert(b.maps(x));
        }
    }
}

/// A poll depends on the bytes in memory and on what it serves.
pub(crate) proof fn lemma_poll_same<N: Notifier>(
    before: VirtqProducer<N>,
    after: VirtqProducer<N>,
    a: MemView,
    b: MemView,
    outcome: Result<Option<UsedChain>, VirtqError>,
)
    requires
        b.same_bytes(a),
        b.same_mapping(a),
        before.poll_result(after, a, outcome),
    ensures
        before.poll_result(after, b, outcome),
{
    if before.pending@.len() == 0 {
        lemma_polled_same(before, after, a, b, outcome);
    }
}

/// One more poll extends a sequence of polls.
pub(crate) proof fn lemma_polls_push<N: Notifier>(
    start: VirtqProducer<N>,
    before: VirtqProducer<N>,
    after: VirtqProducer<N>,
    mem: MemView,
    chains: Seq<UsedChain>,
    trace: Seq<VirtqProducer<N>>,
    chain: UsedChain,
)
    requires
        start.polls(before, mem, chains, trace),
        before.poll_result(after, mem, Ok(Some(chain))),
    ensures
        start.polls(after, mem, chains.push(chain), trace.push(after)),
{
    let more = chains.push(chain);
    let longer = trace.push(after);
    assert forall|i: int| 0 <= i < more.len() implies (#[trigger] longer[i]).poll_result(
        longer[i + 1],
        mem,
        Ok(Some(more[i])),
    ) by {
        if i < chains.len() {
            assert(trace[i].poll_result(trace[i + 1], mem, Ok(Some(chains[i]))));
        }
    }
}

proof fn lemma_ring_polls_push<N: Notifier>(
    first: VirtqProducer<N>,
    before: VirtqProducer<N>,
    after: VirtqProducer<N>,
    mem: MemView,
    chains: Seq<UsedChain>,
    trace: Seq<VirtqProducer<N>>,
    chain: UsedChain,
)
    requires
        first.ring_polls(before, mem, chains, trace),
        before.polled(after, mem, Ok(Some(chain))),
    ensures
        first.ring_polls(after, mem, chains.push(chain), trace.push(after)),
{
    let next = trace.push(after);
    assert forall|i: int| 0 <= i < chains.push(chain).len() implies (#[trigger] next[i]).polled(
        next[i + 1],
        mem,
        Ok(Some(chains.push(chain)[i])),
    ) by {
        if i < chains.len() {
            assert(trace[i].polled(trace[i + 1], mem, Ok(Some(chains[i]))));
        }
    }
}

/// Slots that cannot be given back are reported by their address.
proof fn lemma_chains_error_kind(pool: PoolView, chains: Seq<Inflight>)
    ensures
        inflight::chains_error(pool, chains) matches Some(e) ==> e is InvalidFree,
    decreases chains.len(),
{
    if chains.len() > 0 {
        let addrs = entries::addrs_of(chains.last().chain.buffers@);
        entries::lemma_release_error_kind(pool, addrs);
        lemma_chains_error_kind(entries::released(pool, addrs), chains.drop_last());
    }
}

/// A batch of producer submissions.
///
/// Submissions are published immediately, while notification is delayed until
/// [`finish`](Self::finish). [`finish_without_notify`](Self::finish_without_notify)
/// supports protocols whose peer is already scheduled to inspect the queue.
#[must_use]
pub struct SubmitBatch {
    /// Where the ring stood before the first submission.
    pub notify_from: Option<RingCursor>,
}

/// Where a batch began that had begun at `from`, if at all, once a chain went out at `cursor`.
pub open spec fn batch_from(from: Option<RingCursor>, cursor: RingCursor) -> Option<RingCursor> {
    match from {
        Some(first) => Some(first),
        None => Some(cursor),
    }
}

/// Where a batch began, once chains went out at these positions.
pub open spec fn batch_of(cursors: Seq<RingCursor>) -> Option<RingCursor>
    decreases cursors.len(),
{
    if cursors.len() == 0 {
        None
    } else {
        batch_from(batch_of(cursors.drop_last()), cursors.last())
    }
}

impl SubmitBatch {
    /// The batch belongs to this ring.
    pub open spec fn fits(self, ring: RingProducer) -> bool {
        self.notify_from matches Some(cursor) ==> cursor.wf() && cursor.size == ring.layout.descs()
    }

    /// Publish a chain as part of this batch without notifying yet.
    pub fn submit<M: MemOps, N: Notifier>(
        &mut self,
        producer: &mut VirtqProducer<N>,
        mem: &mut M,
        chain: SendChain,
    ) -> (token: Result<Token, VirtqError>)
        requires
            old(producer).wf(),
            chain.wf(),
            old(self).fits(old(producer).inner),
        ensures
            final(producer).wf(),
            final(producer).notifier == old(producer).notifier,
            final(self).fits(final(producer).inner),
            old(mem).mem().same_mapping(final(mem).mem()),
            token matches Ok(t) ==> {
                &&& t == old(producer).next()
                &&& old(producer).sends(
                    *final(producer),
                    old(mem).mem(),
                    final(mem).mem(),
                    chain,
                )
                &&& final(self).notify_from == batch_from(
                    old(self).notify_from,
                    old(producer).inner.avail_cursor,
                )
                &&& final(self).notify_from == match old(self).notify_from {
                    Some(cursor) => Some(cursor),
                    None => Some(old(producer).inner.avail_cursor),
                }
            },
            ({
                let count = chain.owned.buffers@.len() as int;
                let failed = old(producer).publish_error(count);
                &&& failed is Some ==> token is Err
                &&& token matches Err(e) ==> *final(self) == *old(self) && (old(
                    producer,
                ).may_refuse(count, e) && old(producer).refuses(*final(producer), chain)
                    && *final(mem) == *old(mem) || (failed is None && (e
                    matches VirtqError::RingError(r) && r is MemError) && old(producer).tracks(
                    *final(producer),
                    chain,
                )))
            }),
            old(producer).inflight.chains().len() == old(producer).inflight.ids() ==> token
                == Err::<Token, VirtqError>(VirtqError::Backpressure),
            old(producer).inner.layout.mapped_in(old(mem).mem()) ==> !(token matches Err(
                VirtqError::RingError(_),
            )),
            old(producer).keeps_memory(old(mem).mem(), final(mem).mem(), chain),
    {
        let room = producer.inflight.try_reserve_one();
        self.submit_in(producer, mem, chain, room)
    }

    /// Publish a chain whose record has `room` among those of the chains in flight, or has
    /// none for the reason given, as part of this batch without notifying yet.
    pub fn submit_in<M: MemOps, N: Notifier>(
        &mut self,
        producer: &mut VirtqProducer<N>,
        mem: &mut M,
        chain: SendChain,
        room: Result<(), VirtqError>,
    ) -> (token: Result<Token, VirtqError>)
        requires
            old(producer).wf(),
            chain.wf(),
            old(self).fits(old(producer).inner),
            room is Ok ==> old(producer).inflight.chains().len() < old(producer).inflight.ids(),
        ensures
            final(producer).wf(),
            final(producer).notifier == old(producer).notifier,
            final(self).fits(final(producer).inner),
            old(mem).mem().same_mapping(final(mem).mem()),
            token matches Ok(t) ==> {
                &&& t == old(producer).next()
                &&& old(producer).sends(
                    *final(producer),
                    old(mem).mem(),
                    final(mem).mem(),
                    chain,
                )
                &&& final(self).notify_from == batch_from(
                    old(self).notify_from,
                    old(producer).inner.avail_cursor,
                )
                &&& final(self).notify_from == match old(self).notify_from {
                    Some(cursor) => Some(cursor),
                    None => Some(old(producer).inner.avail_cursor),
                }
            },
            token is Err ==> *final(self) == *old(self),
            match old(producer).refusal(chain.owned.buffers@.len() as int, room) {
                Some(e) => token == Err::<Token, VirtqError>(e) && old(producer).refuses(
                    *final(producer),
                    chain,
                ) && *final(mem) == *old(mem),
                None => token matches Err(e) ==> (e matches VirtqError::RingError(r)
                    && r is MemError) && old(producer).tracks(*final(producer), chain),
            },
            room is Ok && old(producer).inner.layout.mapped_in(old(mem).mem())
                ==> !(token matches Err(VirtqError::RingError(_))),
            old(producer).keeps_memory(old(mem).mem(), final(mem).mem(), chain),
    {
        let before = producer.inner.avail_cursor();
        let token = match producer.publish(mem, chain, room) {
            Ok(token) => token,
            Err(err) => return Err(err),
        };
        if self.notify_from.is_none() {
            self.notify_from = Some(before);
        }
        Ok(token)
    }

    /// Finish the batch and notify the consumer once if event suppression
    /// requires it for the whole published range.
    ///
    /// Returns `true` if a notification was sent.
    pub fn finish<M: MemOps, N: Notifier>(
        self,
        producer: &mut VirtqProducer<N>,
        mem: &M,
    ) -> (sent: Result<bool, VirtqError>)
        requires
            old(producer).wf(),
            self.fits(old(producer).inner),
        ensures
            final(producer).wf(),
            final(producer).inner == old(producer).inner,
            final(producer).pool == old(producer).pool,
            final(producer).next_token == old(producer).next_token,
            final(producer).inflight == old(producer).inflight,
            final(producer).pending == old(producer).pending,
            self.notify_from is None ==> sent == Ok::<bool, VirtqError>(false) && *final(producer)
                == *old(producer),
            self.notify_from is Some && sent is Ok ==> sent->Ok_0 == ring::notification_due(
                desc::event_in(mem.mem(), old(producer).inner.layout.dev_evt()),
                self.notify_from->0,
                old(producer).inner.avail_cursor,
            ) && final(producer).notifier.sent() == VirtqProducer::<N>::kicked(
                old(producer).notifier.sent(),
                mem.mem(),
                self.notify_from->0,
                old(producer).inner,
            ),
            sent matches Err(e) ==> e matches VirtqError::RingError(r) && r is MemError,
            old(producer).inner.layout.mapped_in(mem.mem()) ==> sent is Ok,
    {
        match self.notify_from {
            Some(cursor) => producer.notify_since(mem, cursor),
            None => Ok(false),
        }
    }

    /// Finish the batch without notifying the consumer.
    ///
    /// Use this only when another protocol event guarantees that the consumer
    /// will inspect the published descriptors.
    pub fn finish_without_notify(self) {
    }
}

} // verus!
