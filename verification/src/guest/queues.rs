//! The guest's queues from their creation to a snapshot.

use vstd::prelude::*;
use vstd::seq_lib::*;

use super::codec;
use super::codec::CodecError;
use super::context;
use super::context::{ContextError, GuestContext, QueueConfig, ReplyCapacity};
use super::pools;
use super::pools::{g2h_pool, h2g_pool};
use super::posting;
use super::sending;
use super::sending::{Attempt, SendStep};
use crate::flatbuffer_wrappers::builder;
use crate::flatbuffer_wrappers::builder::FlatBuilder;
use crate::flatbuffer_wrappers::function_call;
use crate::flatbuffer_wrappers::function_call::{CallView, FunctionCall};
use crate::flatbuffer_wrappers::function_result;
use crate::flatbuffer_wrappers::function_result::{FunctionCallResult, ResultView};
use crate::flatbuffer_wrappers::function_types::{ReturnType, WireError};
use crate::le;
use crate::transport;
use crate::transport::{EncodedMessage, ExternalValues, ExternalView, MsgKind};
use crate::virtq::access::MemView;
use crate::virtq::entries::release_leases;
use crate::virtq::{
    AllocError, BufferLease, BufferMap, Layout, MemOps, NoopNotifier, Notifier, SlotLayout, Token,
    VirtqError, VirtqProducer, G2H_LOWER_SLOT_COUNT, G2H_LOWER_SLOT_SIZE,
};
use crate::vmem::PAGE_SIZE;

verus! {

/// A message carries a result and its external value.
pub open spec fn carries_result(
    message: EncodedMessage<'_>,
    cid: u32,
    result: FunctionCallResult,
    externals: ExternalView,
) -> bool {
    &&& message.wf()
    &&& message.header_view().holds(MsgKind::Response, cid, message.header_view().payload_len)
    &&& builder::size_prefixed(message.control_view())
    &&& function_result::result_at(message.control_view()) == Some(result.to_wire())
    &&& message.external_values() == externals.chunks
}

/// Nothing was submitted on a queue yet.
pub open spec fn unused<N: Notifier>(queue: VirtqProducer<N>, layout: Layout) -> bool {
    &&& queue.inner.fresh(layout)
    &&& queue.next_token == 0
    &&& queue.inflight.chains().len() == 0
    &&& queue.pending@.len() == 0
}

/// The H2G queue of a new context, before receive buffers are posted.
pub open spec fn new_h2g(queue: VirtqProducer<NoopNotifier>, config: QueueConfig) -> bool {
    let layout = queue.pool@.upper.layout;
    &&& unused(queue, config.layout)
    &&& queue.pool@.fresh_from(None, layout)
    &&& layout.base() == config.pool_gva
    &&& layout.size() == config.buffer_size
    &&& layout.slots() == config.pool_pages * PAGE_SIZE / config.buffer_size as int
}

/// The G2H queue of a new context.
pub open spec fn new_g2h<N: Notifier>(
    queue: VirtqProducer<N>,
    config: QueueConfig,
    notifier: N,
) -> bool {
    &&& unused(queue, config.layout)
    &&& queue.notifier == notifier
    &&& exists|lower: SlotLayout, upper: SlotLayout| #[trigger]
        queue.pool@.fresh_from(Some(lower), upper) && {
            &&& lower.base() == config.pool_gva
            &&& lower.size() == G2H_LOWER_SLOT_SIZE
            &&& lower.slots() == G2H_LOWER_SLOT_COUNT
            &&& upper.base() == config.pool_gva + 4096
            &&& upper.size() == config.buffer_size
            &&& upper.slots() == (config.pool_pages * PAGE_SIZE - 4096)
                / config.buffer_size as int
        }
}

/// Why the pool of a new G2H queue cannot be laid out.
pub open spec fn g2h_pool_error(config: QueueConfig) -> Option<AllocError> {
    pools::g2h_error(
        config.pool_gva as int,
        config.pool_pages as int,
        config.buffer_size as int,
    )
}

/// Why the pool of a new H2G queue cannot be laid out.
pub open spec fn h2g_pool_error(config: QueueConfig) -> Option<AllocError> {
    pools::h2g_error(
        config.pool_gva as int,
        config.pool_pages as int,
        config.buffer_size as int,
    )
}

/// Receive buffers were posted on a new H2G queue, or could not be.
pub open spec fn new_prefilled(
    config: QueueConfig,
    after: VirtqProducer<NoopNotifier>,
    before_mem: MemView,
    after_mem: MemView,
    done: Result<(), ContextError>,
) -> bool {
    exists|queue: VirtqProducer<NoopNotifier>| #[trigger]
        new_h2g(queue, config) && posting::prefills(
            queue,
            after,
            before_mem,
            after_mem,
            config.buffer_size,
            done,
        )
}

/// What creating a context leads to. A pool that can be laid out may still lack room for
/// its bookkeeping.
pub open spec fn created<N: Notifier>(
    ctx: Result<GuestContext<N>, ContextError>,
    notifier: N,
    g2h: QueueConfig,
    h2g: QueueConfig,
    mbx_gva: u64,
    before_mem: MemView,
    after_mem: MemView,
) -> bool {
    match ctx {
        Ok(c) => {
            &&& g2h_pool_error(g2h) is None
            &&& h2g_pool_error(h2g) is None
            &&& c.wf()
            &&& c.next_cid == 1
            &&& c.mbx_gva == mbx_gva
            &&& c.h2g_slot_size == h2g.buffer_size
            &&& new_g2h(c.g2h_producer, g2h, notifier)
            &&& new_prefilled(h2g, c.h2g_producer, before_mem, after_mem, Ok(()))
        },
        Err(ContextError::G2hPool(e)) => match g2h_pool_error(g2h) {
            Some(error) => e == error,
            None => e == AllocError::Bookkeeping && pools::g2h_slots(
                g2h.pool_pages as int,
                g2h.buffer_size as int,
            ) > 64,
        },
        Err(ContextError::H2gPool(e)) => g2h_pool_error(g2h) is None && match h2g_pool_error(h2g) {
            Some(error) => e == error,
            None => e == AllocError::Bookkeeping && h2g.pool_pages * PAGE_SIZE
                / h2g.buffer_size as int > 64,
        },
        Err(error) => {
            &&& error is Prefill
            &&& g2h_pool_error(g2h) is None
            &&& h2g_pool_error(h2g) is None
            &&& exists|after: VirtqProducer<NoopNotifier>| #[trigger]
                new_prefilled(h2g, after, before_mem, after_mem, Err::<(), ContextError>(error))
        },
    }
}

/// A message carries log data.
pub open spec fn carries_log(message: EncodedMessage<'_>, log_data: Seq<u8>) -> bool {
    &&& message.wf()
    &&& message.header_view().holds(MsgKind::Log, 0, log_data.len() as u32)
    &&& message.control_view() == log_data
    &&& message.external_values().len() == 0
}

impl<N: Notifier> GuestContext<N> {
    /// Create a new context with G2H and H2G queues.
    ///
    /// Both queues, their pools and the writable mailbox at `mbx_gva` belong to the context
    /// alone, and do not overlap.
    pub fn new<M: MemOps>(
        mem: &mut M,
        notifier: N,
        g2h: QueueConfig,
        h2g: QueueConfig,
        mbx_gva: u64,
    ) -> (ctx: Result<Self, ContextError>)
        requires
            g2h.layout.wf(),
            h2g.layout.wf(),
        ensures
            old(mem).mem().same_mapping(final(mem).mem()),
            created(ctx, notifier, g2h, h2g, mbx_gva, old(mem).mem(), final(mem).mem()),
    {
        let pool = match g2h_pool(g2h.pool_gva, g2h.pool_pages, g2h.buffer_size) {
            Ok(pool) => pool,
            Err(error) => return Err(ContextError::G2hPool(error)),
        };
        let g2h_producer = VirtqProducer::new(g2h.layout, notifier, pool);
        let pool = match h2g_pool(h2g.pool_gva, h2g.pool_pages, h2g.buffer_size) {
            Ok(pool) => pool,
            Err(error) => return Err(ContextError::H2gPool(error)),
        };
        // H2G prefill supplies writable buffers for host-initiated messages.
        let h2g_producer = VirtqProducer::new(h2g.layout, NoopNotifier::new(), pool);
        let mut ctx = GuestContext {
            g2h_producer,
            h2g_producer,
            h2g_slot_size: h2g.buffer_size,
            mbx_gva,
            next_cid: 1,
        };
        proof {
            assert(new_g2h(ctx.g2h_producer, g2h, notifier));
            assert(new_h2g(ctx.h2g_producer, h2g));
        }
        let done = ctx.prefill_h2g(mem);
        proof {
            assert(new_prefilled(h2g, ctx.h2g_producer, old(mem).mem(), mem.mem(), done));
        }
        match done {
            Ok(()) => Ok(ctx),
            Err(error) => Err(error),
        }
    }

    /// Submit a framed host function call. The same chain carries bounded writable buffers
    /// for the response.
    ///
    /// When the host has run, [`recv_reply`](Self::recv_reply) gives its answer.
    pub fn call_host_function<M: BufferMap>(
        &mut self,
        mem: &mut M,
        message: &EncodedMessage<'_>,
        return_type: ReturnType,
        attempt: Attempt,
    ) -> (step: SendStep)
        requires
            old(self).wf(),
            message.wf(),
        ensures
            final(self).wf(),
            old(self).same_but_g2h(*final(self)),
            old(mem).mem().same_mapping(final(mem).mem()),
            old(self).stepped(
                *final(self),
                old(mem).mem(),
                final(mem).mem(),
                *message,
                match return_type {
                    ReturnType::String | ReturnType::VecBytes | ReturnType::ByteChunks =>
                        ReplyCapacity::Available,
                    _ => ReplyCapacity::Bounded(G2H_LOWER_SLOT_SIZE),
                },
                attempt,
                step,
            ),
    {
        self.send_step(mem, message, ReplyCapacity::for_return_type(return_type), attempt)
    }

    /// Send a log message via the G2H queue.
    ///
    /// The message fails when it is too long to be framed; otherwise it is submitted
    /// without reply capacity.
    pub fn emit_log<M: BufferMap>(
        &mut self,
        mem: &mut M,
        log_data: &[u8],
        attempt: Attempt,
    ) -> (step: SendStep)
        requires
            old(self).wf(),
        ensures
            final(self).wf(),
            old(self).same_but_g2h(*final(self)),
            old(mem).mem().same_mapping(final(mem).mem()),
            if sending::frames(log_data@.len(), 0) {
                exists|message: EncodedMessage<'_>| #[trigger]
                    carries_log(message, log_data@) && old(self).stepped(
                        *final(self),
                        old(mem).mem(),
                        final(mem).mem(),
                        message,
                        ReplyCapacity::Nothing,
                        attempt,
                        step,
                    )
            } else {
                &&& step == SendStep::Failed(ContextError::MessageOverflow)
                &&& *final(self) == *old(self)
                &&& *final(mem) == *old(mem)
            },
    {
        let externals = ExternalValues::new();
        let message = match EncodedMessage::new(MsgKind::Log, 0, log_data, externals) {
            Some(message) => message,
            None => return SendStep::Failed(ContextError::MessageOverflow),
        };
        proof {
            assert(carries_log(message, log_data@));
        }
        self.send_step(mem, &message, ReplyCapacity::Nothing, attempt)
    }
}

impl<N: Notifier> GuestContext<N> {
    /// What returning a result leads to. Completions are taken back, the result is encoded,
    /// framed and submitted, the leases are given back, and receive buffers are posted.
    pub open spec fn responded(
        self,
        after: GuestContext<N>,
        before: MemView,
        mem: MemView,
        cid: u32,
        result: FunctionCallResult,
        leases: Seq<BufferLease>,
        done: Result<(), ContextError>,
    ) -> bool {
        exists|freed: VirtqProducer<NoopNotifier>|
            {
                &&& #[trigger] context::leases_returned(self.h2g_producer, freed, leases)
                &&& match done {
                    Err(ContextError::Reclaim(e)) => self.g2h_producer.reclaims(
                        after.g2h_producer,
                        before,
                        Err::<usize, VirtqError>(e),
                    ) && after.h2g_producer == freed,
                    _ => exists|ready: GuestContext<N>, start: MemView|
                        {
                            &&& before.same_bytes(start)
                            &&& before.same_mapping(start)
                            &&& self.reclaimed(ready, before)
                            &&& #[trigger] ready.returned(
                                after,
                                start,
                                mem,
                                cid,
                                result,
                                freed,
                                done,
                            )
                        },
                }
            }
    }

    /// What returning a result leads to once completions are taken back.
    pub open spec fn returned(
        self,
        after: GuestContext<N>,
        before: MemView,
        mem: MemView,
        cid: u32,
        result: FunctionCallResult,
        freed: VirtqProducer<NoopNotifier>,
        done: Result<(), ContextError>,
    ) -> bool {
        match sending::result_externals(result) {
            Err(error) => {
                &&& done == Err::<(), ContextError>(ContextError::Encode(error))
                &&& after.g2h_producer == self.g2h_producer
                &&& after.h2g_producer == freed
            },
            Ok(externals) => match done {
                Err(ContextError::MessageOverflow) => {
                    &&& sending::result_overflows(result, externals.total)
                    &&& after.g2h_producer == self.g2h_producer
                    &&& after.h2g_producer == freed
                },
                Err(ContextError::Send(error)) => after.h2g_producer == freed && exists|
                    message: EncodedMessage<'_>,
                | #[trigger]
                    carries_result(message, cid, result, externals) && self.send_error(
                        after,
                        before,
                        message,
                        ReplyCapacity::Nothing,
                        error,
                    ),
                _ => self.answered(after, before, mem, cid, result, externals, freed, done),
            },
        }
    }

    /// A result was submitted, and receive buffers were posted or could not be.
    pub open spec fn answered(
        self,
        after: GuestContext<N>,
        before: MemView,
        mem: MemView,
        cid: u32,
        result: FunctionCallResult,
        externals: ExternalView,
        freed: VirtqProducer<NoopNotifier>,
        done: Result<(), ContextError>,
    ) -> bool {
        exists|message: EncodedMessage<'_>, sent: GuestContext<N>, mid: MemView, token: Token|
            {
                &&& #[trigger] carries_result(message, cid, result, externals)
                &&& #[trigger] self.sent(sent, before, mid, message, ReplyCapacity::Nothing, token)
                &&& after.g2h_producer == sent.g2h_producer
                &&& posting::prefills(
                    freed,
                    after.h2g_producer,
                    mid,
                    mem,
                    self.h2g_slot_size,
                    done,
                )
            }
    }

    /// Return a guest-function result and replenish H2G receive buffers.
    ///
    /// The host is not notified: it looks at the queue when the guest halts. The leases of
    /// the call's receive buffers are given back.
    pub fn send_h2g_result<M: BufferMap>(
        &mut self,
        mem: &mut M,
        cid: u32,
        result: FunctionCallResult,
        leases: Vec<BufferLease>,
    ) -> (done: Result<(), ContextError>)
        requires
            old(self).wf(),
            result.flat_cost() <= builder::FLAT_LIMIT,
        ensures
            final(self).wf(),
            final(self).h2g_slot_size == old(self).h2g_slot_size,
            final(self).mbx_gva == old(self).mbx_gva,
            final(self).next_cid == old(self).next_cid,
            old(mem).mem().same_mapping(final(mem).mem()),
            old(self).responded(
                *final(self),
                old(mem).mem(),
                final(mem).mem(),
                cid,
                result,
                leases@,
                done,
            ),
    {
        let ghost before = mem.mem();
        let reclaimed = self.reclaim_g2h(mem);
        let ghost ready = *self;
        let ghost start = mem.mem();
        match reclaimed {
            Ok(_) => {},
            Err(error) => {
                release_leases(&mut self.h2g_producer.pool, leases);
                proof {
                    assert(context::leases_returned(
                        old(self).h2g_producer,
                        self.h2g_producer,
                        leases@,
                    ));
                }
                return Err(ContextError::Reclaim(error));
            },
        }
        let mut flat = FlatBuilder::new();
        let mut externals = ExternalValues::new();
        let control = match result.encode(&mut flat, &mut externals) {
            Ok(control) => control,
            Err(error) => {
                release_leases(&mut self.h2g_producer.pool, leases);
                let failed = ContextError::Encode(error);
                proof {
                    let freed = self.h2g_producer;
                    assert(context::leases_returned(old(self).h2g_producer, freed, leases@));
                    assert(ready.returned(*self, start, start, cid, result, freed, Err(failed)));
                }
                return Err(failed);
            },
        };
        let ghost values = sending::result_externals(result)->Ok_0;
        proof {
            lemma_result_externals(result);
        }
        let message = match EncodedMessage::new(MsgKind::Response, cid, control, externals) {
            Some(message) => message,
            None => {
                release_leases(&mut self.h2g_producer.pool, leases);
                proof {
                    let freed = self.h2g_producer;
                    assert(builder::size_prefixed(control@));
                    assert(sending::result_overflows(result, values.total));
                    assert(context::leases_returned(old(self).h2g_producer, freed, leases@));
                    assert(ready.returned(
                        *self,
                        start,
                        start,
                        cid,
                        result,
                        freed,
                        Err(ContextError::MessageOverflow),
                    ));
                }
                return Err(ContextError::MessageOverflow);
            },
        };
        proof {
            assert(carries_result(message, cid, result, values));
        }
        let token = match self.try_send_deferred(mem, &message, ReplyCapacity::Nothing) {
            Ok(token) => token,
            Err(error) => {
                let ghost stuck = *self;
                release_leases(&mut self.h2g_producer.pool, leases);
                let failed = ContextError::Send(error);
                proof {
                    let freed = self.h2g_producer;
                    ready.lemma_send_error_g2h(
                        stuck,
                        *self,
                        start,
                        message,
                        ReplyCapacity::Nothing,
                        error,
                    );
                    assert(context::leases_returned(old(self).h2g_producer, freed, leases@));
                    assert(ready.returned(
                        *self,
                        start,
                        mem.mem(),
                        cid,
                        result,
                        freed,
                        Err(failed),
                    ));
                }
                return Err(failed);
            },
        };
        let ghost sent = *self;
        let ghost mid = mem.mem();
        release_leases(&mut self.h2g_producer.pool, leases);
        let ghost freed = self.h2g_producer;
        let done = self.prefill_h2g(mem);
        proof {
            assert(context::leases_returned(old(self).h2g_producer, freed, leases@));
            assert(ready.sent(sent, start, mid, message, ReplyCapacity::Nothing, token));
            assert(ready.answered(*self, start, mem.mem(), cid, result, values, freed, done));
            assert(ready.returned(*self, start, mem.mem(), cid, result, freed, done));
        }
        done
    }

    /// Buffers that the guest retains.
    pub open spec fn retained(self) -> int {
        self.g2h_producer.pool@.num_live() + self.h2g_producer.pool@.num_live()
    }

    /// What canonicalizing both queues leads to: completions are taken back from the G2H
    /// queue, then both queues are reset in turn.
    pub open spec fn resets_both(
        self,
        after: GuestContext<N>,
        before: MemView,
        mem: MemView,
        done: Result<(), ContextError>,
    ) -> bool {
        match done {
            Err(ContextError::Reclaim(e)) => self.g2h_producer.reclaims(
                after.g2h_producer,
                before,
                Err::<usize, VirtqError>(e),
            ) && after.h2g_producer == self.h2g_producer,
            _ => exists|ready: GuestContext<N>, start: MemView, mid: MemView|
                {
                    &&& before.same_bytes(start)
                    &&& before.same_mapping(start)
                    &&& #[trigger] start.same_mapping(mid)
                    &&& #[trigger] self.reclaimed(ready, before)
                    &&& match done {
                        Ok(_) => ready.g2h_producer.resets(
                            after.g2h_producer,
                            start,
                            mid,
                            Ok::<(), VirtqError>(()),
                        ) && self.h2g_producer.resets(
                            after.h2g_producer,
                            mid,
                            mem,
                            Ok::<(), VirtqError>(()),
                        ),
                        Err(ContextError::G2hReset(e)) => ready.g2h_producer.resets(
                            after.g2h_producer,
                            start,
                            mem,
                            Err::<(), VirtqError>(e),
                        ) && after.h2g_producer == self.h2g_producer,
                        Err(ContextError::H2gReset(e)) => ready.g2h_producer.resets(
                            after.g2h_producer,
                            start,
                            mid,
                            Ok::<(), VirtqError>(()),
                        ) && self.h2g_producer.resets(
                            after.h2g_producer,
                            mid,
                            mem,
                            Err::<(), VirtqError>(e),
                        ),
                        Err(_) => false,
                    }
                },
        }
    }

    /// Canonicalize both queues.
    fn reset_queues<M: BufferMap>(&mut self, mem: &mut M) -> (done: Result<(), ContextError>)
        requires
            old(self).wf(),
        ensures
            final(self).wf(),
            final(self).h2g_slot_size == old(self).h2g_slot_size,
            final(self).mbx_gva == old(self).mbx_gva,
            final(self).next_cid == old(self).next_cid,
            old(mem).mem().same_mapping(final(mem).mem()),
            old(self).resets_both(*final(self), old(mem).mem(), final(mem).mem(), done),
    {
        let ghost before = mem.mem();
        match self.reclaim_g2h(mem) {
            Ok(_) => {},
            Err(error) => return Err(ContextError::Reclaim(error)),
        }
        let ghost ready = *self;
        let ghost start = mem.mem();
        let done = self.g2h_producer.reset(mem);
        let ghost mid = mem.mem();
        proof {
            assert(old(self).reclaimed(ready, before));
            assert(start.same_mapping(mid));
        }
        match done {
            Ok(()) => {},
            Err(error) => return Err(ContextError::G2hReset(error)),
        }
        match self.h2g_producer.reset(mem) {
            Ok(()) => Ok(()),
            Err(error) => Err(ContextError::H2gReset(error)),
        }
    }

    /// What publishing the number of retained buffers leads to: it is written to the
    /// mailbox, and receive buffers are posted.
    pub open spec fn publishes(
        self,
        after: GuestContext<N>,
        before: MemView,
        mem: MemView,
        done: Result<(), ContextError>,
    ) -> bool {
        &&& self.same_but_h2g(after)
        &&& match done {
            Err(ContextError::Publish(error)) => {
                &&& after.h2g_producer == self.h2g_producer
                &&& if self.retained() > usize::MAX {
                    error == VirtqError::InvalidState
                } else {
                    error == VirtqError::MemoryWriteError && !before.serves(
                        self.mbx_gva as int,
                        8,
                    )
                }
            },
            _ => {
                &&& self.retained() <= usize::MAX
                &&& exists|written: MemView|
                    {
                        &&& #[trigger] before.stored(
                            written,
                            self.mbx_gva as int,
                            le::le64_bytes(self.retained() as u64),
                        )
                        &&& posting::prefills(
                            self.h2g_producer,
                            after.h2g_producer,
                            written,
                            mem,
                            self.h2g_slot_size,
                            done,
                        )
                    }
            },
        }
    }

    /// Publish the number of retained buffers, then post receive buffers.
    fn publish_retained<M: BufferMap>(&mut self, mem: &mut M) -> (done: Result<(), ContextError>)
        requires
            old(self).wf(),
        ensures
            final(self).wf(),
            old(mem).mem().same_mapping(final(mem).mem()),
            old(self).publishes(*final(self), old(mem).mem(), final(mem).mem(), done),
            done is Ok && old(self).mailbox_apart() ==> final(mem).mem().span(
                old(self).mbx_gva as int,
                8,
            ) == le::le64_bytes(old(self).retained() as u64),
            done matches Err(error) ==> error is Publish || error is Prefill,
    {
        let g2h_live: usize = self.g2h_producer.pool().num_live();
        let h2g_live: usize = self.h2g_producer.pool().num_live();
        let guest_owned: usize = match g2h_live.checked_add(h2g_live) {
            Some(count) => count,
            None => return Err(ContextError::Publish(VirtqError::InvalidState)),
        };
        let mut bytes: Vec<u8> = Vec::new();
        le::push_le64(&mut bytes, guest_owned as u64);
        // Readiness is published after the H2G prefill.
        match mem.write(self.mbx_gva, bytes.as_slice()) {
            Ok(()) => {},
            Err(_) => return Err(ContextError::Publish(VirtqError::MemoryWriteError)),
        }
        let ghost written = mem.mem();
        proof {
            assert(bytes@ =~= le::le64_bytes(self.retained() as u64));
            assert(old(mem).mem().stored(written, self.mbx_gva as int, bytes@));
        }
        let filled = self.prefill_h2g(mem);
        proof {
            if filled is Ok && old(self).mailbox_apart() {
                let mbx = old(self).mbx_gva as int;
                assert(mem.mem().span(mbx, 8) =~= written.span(mbx, 8)) by {
                    assert forall|i: int| 0 <= i < 8 implies #[trigger] mem.mem().span(mbx, 8)[i]
                        == written.span(mbx, 8)[i] by {
                        assert(!posting::in_ring(old(self).h2g_producer.inner.layout, mbx + i));
                    }
                }
                assert(written.span(mbx, 8) =~= bytes@);
            }
        }
        filled
    }

    /// What preparing a snapshot leads to: both queues are made canonical, and the number of
    /// buffers that the guest retains is published.
    pub open spec fn snapshots(
        self,
        after: GuestContext<N>,
        before: MemView,
        mem: MemView,
        done: Result<(), ContextError>,
    ) -> bool {
        match done {
            Err(ContextError::Reclaim(_)) | Err(ContextError::G2hReset(_)) | Err(
                ContextError::H2gReset(_),
            ) => self.resets_both(after, before, mem, done),
            _ => exists|reset: GuestContext<N>, cleared: MemView|
                {
                    &&& #[trigger] self.resets_both(
                        reset,
                        before,
                        cleared,
                        Ok::<(), ContextError>(()),
                    )
                    &&& reset.publishes(after, cleared, mem, done)
                },
        }
    }

    /// Canonicalize both queues and publish the retained allocation count.
    ///
    /// The host's consumers must be stopped until they are reset or replaced, and hold no
    /// chain.
    pub fn prepare_snapshot<M: BufferMap>(&mut self, mem: &mut M) -> (done: Result<
        (),
        ContextError,
    >)
        requires
            old(self).wf(),
        ensures
            final(self).wf(),
            final(self).h2g_slot_size == old(self).h2g_slot_size,
            final(self).mbx_gva == old(self).mbx_gva,
            final(self).next_cid == old(self).next_cid,
            old(mem).mem().same_mapping(final(mem).mem()),
            old(self).snapshots(*final(self), old(mem).mem(), final(mem).mem(), done),
            done is Ok && old(self).mailbox_apart() ==> exists|reset: GuestContext<N>|
                {
                    &&& #[trigger] reset.canonical(*old(self))
                    &&& final(self).g2h_producer == reset.g2h_producer
                    &&& final(mem).mem().span(old(self).mbx_gva as int, 8) == le::le64_bytes(
                        reset.retained() as u64,
                    )
                },
    {
        let ghost before = mem.mem();
        match self.reset_queues(mem) {
            Ok(()) => {},
            Err(error) => return Err(error),
        }
        // Only guest-retained allocations remain between reset and H2G prefill.
        let ghost reset = *self;
        let ghost cleared = mem.mem();
        let done = self.publish_retained(mem);
        proof {
            assert(old(self).resets_both(reset, before, cleared, Ok::<(), ContextError>(())));
            old(self).lemma_canonical(reset, before, cleared);
        }
        done
    }

    /// Both queues of a context that was reset are unused.
    proof fn lemma_canonical(self, after: GuestContext<N>, before: MemView, mem: MemView)
        requires
            self.resets_both(after, before, mem, Ok::<(), ContextError>(())),
            after.h2g_producer.wf(),
        ensures
            after.canonical(self),
            after.h2g_producer.inner.layout == self.h2g_producer.inner.layout,
    {
        let (ready, start, mid) = choose|ready: GuestContext<N>, start: MemView, mid: MemView|
            {
                &&& #[trigger] start.same_mapping(mid)
                &&& #[trigger] self.reclaimed(ready, before)
                &&& ready.g2h_producer.resets(
                    after.g2h_producer,
                    start,
                    mid,
                    Ok::<(), VirtqError>(()),
                )
                &&& self.h2g_producer.resets(
                    after.h2g_producer,
                    mid,
                    mem,
                    Ok::<(), VirtqError>(()),
                )
            };
        assert(after.g2h_producer.inner.fresh(ready.g2h_producer.inner.layout));
        assert(after.h2g_producer.inner.fresh(self.h2g_producer.inner.layout));
    }

    /// The queues of a context that was made canonical: nothing is in flight.
    pub open spec fn canonical(self, before: GuestContext<N>) -> bool {
        &&& unused(self.g2h_producer, before.g2h_producer.inner.layout)
        &&& unused(self.h2g_producer, before.h2g_producer.inner.layout)
    }

    /// The mailbox lies outside the H2G ring.
    pub open spec fn mailbox_apart(self) -> bool {
        forall|a: int|
            self.mbx_gva <= a < self.mbx_gva + 8 ==> !(#[trigger] posting::in_ring(
                self.h2g_producer.inner.layout,
                a,
            ))
    }
}

/// External values collected for a result count its bytes.
proof fn lemma_result_externals(result: FunctionCallResult)
    ensures
        sending::result_externals(result) matches Ok(externals) ==> externals.total
            == externals.chunks.flatten().len(),
{
    if let Ok(value) = result.0 {
        let chunks: Seq<Seq<u8>> = match value {
            crate::flatbuffer_wrappers::function_types::ReturnValue::VecBytes(v) => seq![v@],
            crate::flatbuffer_wrappers::function_types::ReturnValue::ByteChunks(v) =>
                crate::octets::all_octets(v@),
            _ => Seq::empty(),
        };
        transport::lemma_nonempty_flatten(chunks);
        assert(Seq::<Seq<u8>>::empty() + transport::nonempty(chunks) =~= transport::nonempty(
            chunks,
        ));
    }
}

/// A message's bytes fall into its header, its control data and its external values.
proof fn lemma_message_parts(message: EncodedMessage<'_>, kind: MsgKind, cid: u32)
    requires
        message.wf(),
        message.header_view().holds(kind, cid, message.header_view().payload_len),
        builder::size_prefixed(message.control_view()),
        message.wire().len() <= usize::MAX,
    ensures
        ({
            let payload = message.control_view() + message.external_values().flatten();
            &&& codec::message_parts(message.wire()) == Ok::<(MsgKind, u32, Seq<u8>), CodecError>(
                (kind, cid, payload),
            )
            &&& codec::payload_parts(payload) == Ok::<(Seq<u8>, Seq<u8>), CodecError>(
                (message.control_view(), message.external_values().flatten()),
            )
        }),
{
    message.lemma_wire_len();
    let header = message.header_view();
    transport::law_header_round_trip(header, kind, cid, header.payload_len);
    let control = message.control_view();
    let externals = message.external_values().flatten();
    let payload = control + externals;
    let wire = message.wire();
    assert(wire.take(12) =~= header.to_wire());
    assert(wire.skip(12) =~= payload);
    assert(payload.take(4) =~= control.take(4));
    assert(payload.take(control.len() as int) =~= control);
    assert(payload.skip(control.len() as int) =~= externals);
}

/// A framed request is decoded as the call that was made, or refused where it has more parameters
/// than a check visits.
pub proof fn law_framed_call_is_decoded(
    message: EncodedMessage<'_>,
    cid: u32,
    call: FunctionCall,
    externals: ExternalView,
)
    requires
        sending::carries_call(message, MsgKind::Request, cid, call, externals),
        sending::call_externals(call) == Ok::<
            ExternalView,
            WireError,
        >(externals),
        message.wire().len() <= usize::MAX,
    ensures
        codec::message_parts(message.wire()) matches Ok((kind, c, payload)) && kind
            == MsgKind::Request && c == cid && codec::request_of(payload) == if call.checkable() {
            Ok::<CallView, CodecError>(function_call::delivered(call.call_view()))
        } else {
            Err::<CallView, CodecError>(CodecError::Wire(WireError::Buffer))
        },
{
    lemma_message_parts(message, MsgKind::Request, cid);
    function_call::law_call_round_trip(call, externals, message.control_view());
}

/// A framed response is decoded as the result that was returned.
pub proof fn law_framed_result_is_decoded(
    message: EncodedMessage<'_>,
    cid: u32,
    result: FunctionCallResult,
    externals: ExternalView,
)
    requires
        carries_result(message, cid, result, externals),
        sending::result_externals(result) == Ok::<
            ExternalView,
            WireError,
        >(externals),
        message.wire().len() <= usize::MAX,
    ensures
        codec::response_of(message.wire(), cid) == Ok::<ResultView, CodecError>(
            function_result::delivered(result.result_view()),
        ),
{
    lemma_message_parts(message, MsgKind::Response, cid);
    function_result::law_result_round_trip(result, externals, message.control_view());
}

} // verus!
