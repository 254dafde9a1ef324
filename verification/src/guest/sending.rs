//! Messages from the guest to the host.

use vstd::prelude::*;

use super::context;
use super::context::{ContextError, GuestContext, ReplyCapacity};
use crate::flatbuffer_wrappers::builder;
use crate::flatbuffer_wrappers::builder::FlatBuilder;
use crate::flatbuffer_wrappers::function_call;
use crate::flatbuffer_wrappers::function_call::FunctionCall;
use crate::flatbuffer_wrappers::function_result;
use crate::flatbuffer_wrappers::function_result::FunctionCallResult;
use crate::flatbuffer_wrappers::function_types::WireError;
use crate::flatbuffer_wrappers::values;
use crate::flatbuffer_wrappers::wire;
use crate::transport::{EncodedMessage, ExternalValues, ExternalView, MsgKind};
use crate::virtq::access::MemView;
use crate::virtq::builder::ChainBuilder;
use crate::virtq::entries;
use crate::virtq::pool::slot::PoolView;
use crate::virtq::producer;
use crate::virtq::send;
use crate::virtq::{BufferMap, MemOps, Notifier, SendChain, Token, VirtqError, VirtqProducer};

verus! {

/// Whether the host has been made to drain the queue since a message was refused.
#[derive(Debug, Clone, Copy, PartialEq, Eq, Structural)]
pub enum Attempt {
    /// The message was not submitted before.
    First,
    /// The host was notified of backpressure.
    AfterDrain,
}

/// What became of a message.
#[derive(Debug, Clone, PartialEq, Eq)]
pub enum SendStep {
    /// The message was submitted.
    Sent(Token),
    /// The queue is full and the host was notified: try again once it has run.
    Drain,
    /// The message cannot be submitted.
    Failed(ContextError),
}

/// No external values.
pub open spec fn no_externals() -> ExternalView {
    ExternalView { chunks: Seq::empty(), total: 0 }
}

/// The external values of a call.
pub open spec fn call_externals(call: FunctionCall) -> Result<ExternalView, WireError> {
    values::offer_parameters::<ExternalValues<'static>>(no_externals(), call.parameter_list())
}

/// The external values of a result.
pub open spec fn result_externals(result: FunctionCallResult) -> Result<ExternalView, WireError> {
    function_result::offer_result::<ExternalValues<'static>>(no_externals(), result)
}

/// A payload fits a message.
pub open spec fn frames(control: nat, externals: nat) -> bool {
    control + externals <= u32::MAX && control + externals + 12 <= usize::MAX
}

impl<N: Notifier> GuestContext<N> {
    /// A message was submitted on the G2H queue: a chain of the requested buffers holds it,
    /// the ring shows the chain to the host, and other memory is as `before`.
    #[verifier::opaque]
    pub open spec fn sent(
        self,
        after: GuestContext<N>,
        before: MemView,
        mem: MemView,
        message: EncodedMessage<'_>,
        reply: ReplyCapacity,
        token: Token,
    ) -> bool {
        exists|
            request: ChainBuilder,
            chain: SendChain,
            ready: VirtqProducer<N>,
            filled: MemView,
        |
            {
                &&& #[trigger] self.requests(request, message, reply)
                &&& context::taken(request, self.g2h_producer.pool@, ready.pool@, chain)
                &&& context::same_but_pool(self.g2h_producer, ready)
                &&& chain.wf()
                &&& chain.payload(filled) == message.wire()
                &&& context::same_elsewhere(before, filled, chain)
                &&& #[trigger] ready.sends(after.g2h_producer, filled, mem, chain)
                &&& token == ready.next()
            }
    }

    /// A message was submitted, and the host notified if it asked for it.
    pub open spec fn sent_and_kicked(
        self,
        after: GuestContext<N>,
        before: MemView,
        mem: MemView,
        message: EncodedMessage<'_>,
        reply: ReplyCapacity,
        token: Token,
    ) -> bool {
        &&& self.sent(after, before, mem, message, reply, token)
        &&& after.g2h_producer.notifier.sent() == VirtqProducer::<N>::kicked(
            self.g2h_producer.notifier.sent(),
            mem,
            self.g2h_producer.inner.avail_cursor,
            after.g2h_producer.inner,
        )
    }

    /// Completions were taken back from the G2H queue.
    pub open spec fn reclaimed(self, after: GuestContext<N>, mem: MemView) -> bool {
        &&& self.same_but_g2h(after)
        &&& after.g2h_producer.inner.layout == self.g2h_producer.inner.layout
        &&& exists|n: usize| #[trigger]
            self.g2h_producer.reclaims(
                after.g2h_producer,
                mem,
                Ok::<usize, VirtqError>(n),
            )
    }

    /// A message was submitted after completions were taken back.
    pub open spec fn sent_later(
        self,
        after: GuestContext<N>,
        before: MemView,
        mem: MemView,
        message: EncodedMessage<'_>,
        reply: ReplyCapacity,
        token: Token,
    ) -> bool {
        exists|ready: GuestContext<N>, start: MemView|
            {
                &&& #[trigger] ready.sent_and_kicked(after, start, mem, message, reply, token)
                &&& self.reclaimed(ready, before)
                &&& before.same_bytes(start)
            }
    }

    /// A message was refused although completions were taken back.
    pub open spec fn refused_later(
        self,
        after: GuestContext<N>,
        before: MemView,
        message: EncodedMessage<'_>,
        reply: ReplyCapacity,
        error: VirtqError,
    ) -> bool {
        exists|ready: GuestContext<N>, start: MemView|
            {
                &&& #[trigger] ready.send_error(after, start, message, reply, error)
                &&& self.reclaimed(ready, before)
                &&& before.same_bytes(start)
                &&& before.same_mapping(start)
            }
    }

    /// The host was notified that the G2H queue is full.
    pub open spec fn alerted(self, after: GuestContext<N>) -> bool {
        &&& after.g2h_producer.inner == self.g2h_producer.inner
        &&& after.g2h_producer.pool == self.g2h_producer.pool
        &&& after.g2h_producer.next_token == self.g2h_producer.next_token
        &&& after.g2h_producer.inflight == self.g2h_producer.inflight
        &&& after.g2h_producer.pending == self.g2h_producer.pending
        &&& after.g2h_producer.notifier.sent() == self.g2h_producer.notifier.sent().push(
            producer::driver_stats(self.g2h_producer.inner),
        )
    }

    /// A message was refused because the queue is full, and the host was notified.
    pub open spec fn asks_to_drain(
        self,
        after: GuestContext<N>,
        before: MemView,
        message: EncodedMessage<'_>,
        reply: ReplyCapacity,
    ) -> bool {
        exists|stuck: GuestContext<N>|
            {
                &&& #[trigger] self.send_error(
                    stuck,
                    before,
                    message,
                    reply,
                    VirtqError::Backpressure,
                )
                &&& stuck.alerted(after)
            }
    }

    /// What an attempt to submit a message leads to.
    pub open spec fn stepped(
        self,
        after: GuestContext<N>,
        before: MemView,
        mem: MemView,
        message: EncodedMessage<'_>,
        reply: ReplyCapacity,
        attempt: Attempt,
        step: SendStep,
    ) -> bool {
        match (attempt, step) {
            (Attempt::First, SendStep::Sent(t)) => self.sent_and_kicked(
                after,
                before,
                mem,
                message,
                reply,
                t,
            ),
            (Attempt::First, SendStep::Drain) => self.asks_to_drain(
                after,
                before,
                message,
                reply,
            ),
            (Attempt::First, SendStep::Failed(ContextError::Send(e))) => !e.transient()
                && self.send_error(after, before, message, reply, e),
            (Attempt::AfterDrain, SendStep::Sent(t)) => self.sent_later(
                after,
                before,
                mem,
                message,
                reply,
                t,
            ),
            (Attempt::AfterDrain, SendStep::Failed(ContextError::Reclaim(e))) =>
                self.g2h_producer.reclaims(after.g2h_producer, before, Err::<usize, VirtqError>(e)),
            (Attempt::AfterDrain, SendStep::Failed(ContextError::Retry(e))) => self.refused_later(
                after,
                before,
                message,
                reply,
                e,
            ),
            _ => false,
        }
    }

    /// The queue, the pool and memory have what a message takes, in a chain of few buffers.
    pub open spec fn can_send(
        self,
        mem: MemView,
        message: EncodedMessage<'_>,
        reply: ReplyCapacity,
    ) -> bool {
        let pool = self.g2h_producer.pool@;
        &&& self.g2h_producer.inner.layout.mapped_in(mem)
        &&& forall|request: ChainBuilder| #[trigger]
            self.requests(request, message, reply) ==> {
                let count = request.all_lens(pool).len() as int;
                &&& request.request_error(pool) is None
                &&& entries::answers(pool, request.plan(pool).lens) is Some
                &&& 0 < count <= 4
                &&& self.g2h_producer.publish_error(count) is None
            }
        &&& forall|request: ChainBuilder, after: PoolView, chain: SendChain|
            #![trigger self.requests(request, message, reply), context::taken(request, pool, after, chain)]
            self.requests(request, message, reply) && context::taken(request, pool, after, chain)
                ==> send::entries_mapped(mem, chain.readable())
    }

    /// Build and submit one G2H descriptor chain.
    ///
    /// `reply_cap` defines optional host-function reply space.
    pub fn try_send<M: MemOps>(
        &mut self,
        mem: &mut M,
        message: &EncodedMessage<'_>,
        reply_cap: ReplyCapacity,
    ) -> (token: Result<Token, VirtqError>)
        requires
            old(self).wf(),
            message.wf(),
        ensures
            final(self).wf(),
            old(self).same_but_g2h(*final(self)),
            old(mem).mem().same_mapping(final(mem).mem()),
            token matches Ok(t) ==> old(self).sent_and_kicked(
                *final(self),
                old(mem).mem(),
                final(mem).mem(),
                *message,
                reply_cap,
                t,
            ),
            token matches Err(e) ==> old(self).send_error(
                *final(self),
                old(mem).mem(),
                *message,
                reply_cap,
                e,
            ),
    {
        let room = self.g2h_producer.inflight.try_reserve_one();
        let ghost asked = *self;
        let token = self.try_send_in(mem, message, reply_cap, room);
        proof {
            match token {
                Ok(t) => old(self).lemma_sent_after_asking(
                    asked,
                    *self,
                    old(mem).mem(),
                    mem.mem(),
                    *message,
                    reply_cap,
                    t,
                ),
                Err(e) => old(self).lemma_refused_after_asking(
                    asked,
                    *self,
                    old(mem).mem(),
                    *message,
                    reply_cap,
                    room,
                    e,
                ),
            }
        }
        token
    }

    /// Build and submit one G2H descriptor chain whose record has `room` among those of the
    /// chains in flight, or has none for the reason given.
    pub fn try_send_in<M: MemOps>(
        &mut self,
        mem: &mut M,
        message: &EncodedMessage<'_>,
        reply_cap: ReplyCapacity,
        room: Result<(), VirtqError>,
    ) -> (token: Result<Token, VirtqError>)
        requires
            old(self).wf(),
            message.wf(),
            room is Ok ==> old(self).g2h_producer.inflight.chains().len() < old(
                self,
            ).g2h_producer.inflight.ids(),
        ensures
            final(self).wf(),
            old(self).same_but_g2h(*final(self)),
            old(mem).mem().same_mapping(final(mem).mem()),
            token matches Ok(t) ==> room is Ok && old(self).sent_and_kicked(
                *final(self),
                old(mem).mem(),
                final(mem).mem(),
                *message,
                reply_cap,
                t,
            ),
            token matches Err(e) ==> old(self).send_error_in(
                *final(self),
                old(mem).mem(),
                *message,
                reply_cap,
                room,
                e,
            ),
            old(self).can_send(old(mem).mem(), *message, reply_cap) ==> match room {
                Ok(_) => token is Ok,
                Err(e) => token == Err::<Token, VirtqError>(e),
            },
    {
        let chain = match self.build_g2h_chain(mem, message, reply_cap) {
            Ok(chain) => chain,
            Err(error) => {
                proof {
                    reveal(GuestContext::send_error_in);
                }
                return Err(error);
            },
        };
        let ghost ready = self.g2h_producer;
        let ghost filled = mem.mem();
        let ghost sent = chain;
        let token = self.g2h_producer.submit_in(mem, chain, room);
        proof {
            old(self).lemma_submitted(
                ready,
                *self,
                old(mem).mem(),
                filled,
                mem.mem(),
                *message,
                reply_cap,
                sent,
                room,
                token,
            );
        }
        token
    }

    /// What submitting a message's chain leads to.
    proof fn lemma_submitted(
        self,
        ready: VirtqProducer<N>,
        after: GuestContext<N>,
        before: MemView,
        filled: MemView,
        mem: MemView,
        message: EncodedMessage<'_>,
        reply: ReplyCapacity,
        chain: SendChain,
        room: Result<(), VirtqError>,
        token: Result<Token, VirtqError>,
    )
        requires
            context::same_but_pool(self.g2h_producer, ready),
            before.same_mapping(filled),
            chain.wf(),
            chain.payload(filled) == message.wire(),
            exists|request: ChainBuilder| #[trigger]
                self.requests(request, message, reply) && context::taken(
                    request,
                    self.g2h_producer.pool@,
                    ready.pool@,
                    chain,
                ),
            context::same_elsewhere(before, filled, chain),
            token matches Ok(t) ==> t == ready.next() && ready.sends(
                after.g2h_producer,
                filled,
                mem,
                chain,
            ),
            match ready.refusal(chain.owned.buffers@.len() as int, room) {
                Some(e) => token == Err::<Token, VirtqError>(e) && ready.refuses(
                    after.g2h_producer,
                    chain,
                ),
                None => token matches Err(e) ==> (e matches VirtqError::RingError(r)
                    && r is MemError) && ready.tracks(after.g2h_producer, chain),
            },
            room is Ok && ready.inner.layout.mapped_in(filled) ==> !(token matches Err(
                VirtqError::RingError(_),
            )),
        ensures
            token matches Ok(t) ==> room is Ok && self.sent(
                after,
                before,
                mem,
                message,
                reply,
                t,
            ),
            token matches Err(e) ==> self.send_error_in(after, before, message, reply, room, e),
            self.can_send(before, message, reply) ==> match room {
                Ok(_) => token is Ok,
                Err(e) => token == Err::<Token, VirtqError>(e),
            },
    {
        reveal(GuestContext::sent);
        reveal(GuestContext::send_error_in);
        let request = choose|request: ChainBuilder| #[trigger]
            self.requests(request, message, reply) && context::taken(
                request,
                self.g2h_producer.pool@,
                ready.pool@,
                chain,
            );
        context::lemma_ring_mapping(before, filled, ready.inner.layout);
        assert(context::taken(request, self.g2h_producer.pool@, ready.pool@, chain));
        match token {
            Ok(t) => {
                assert(ready.sends(after.g2h_producer, filled, mem, chain));
            },
            Err(e) => {
                assert(context::publish_refused_in(
                    self.g2h_producer,
                    after.g2h_producer,
                    request,
                    before,
                    room,
                    e,
                ));
            },
        }
    }

    /// A message that was sent after the queue was asked for room was sent by the queue before.
    proof fn lemma_sent_after_asking(
        self,
        asked: GuestContext<N>,
        after: GuestContext<N>,
        before: MemView,
        mem: MemView,
        message: EncodedMessage<'_>,
        reply: ReplyCapacity,
        token: Token,
    )
        requires
            context::same_but_pool(self.g2h_producer, asked.g2h_producer),
            self.g2h_producer.pool == asked.g2h_producer.pool,
            asked.sent(after, before, mem, message, reply, token),
        ensures
            self.sent(after, before, mem, message, reply, token),
    {
        reveal(GuestContext::sent);
        let (request, chain, ready, filled) = choose|
            request: ChainBuilder,
            chain: SendChain,
            ready: VirtqProducer<N>,
            filled: MemView,
        |
            {
                &&& #[trigger] asked.requests(request, message, reply)
                &&& context::taken(request, asked.g2h_producer.pool@, ready.pool@, chain)
                &&& context::same_but_pool(asked.g2h_producer, ready)
                &&& chain.wf()
                &&& chain.payload(filled) == message.wire()
                &&& context::same_elsewhere(before, filled, chain)
                &&& #[trigger] ready.sends(after.g2h_producer, filled, mem, chain)
                &&& token == ready.next()
            };
        assert(self.requests(request, message, reply));
        assert(ready.sends(after.g2h_producer, filled, mem, chain));
    }

    /// A message that was refused after the queue was asked for room was refused by the queue
    /// before.
    proof fn lemma_refused_after_asking(
        self,
        asked: GuestContext<N>,
        after: GuestContext<N>,
        mem: MemView,
        message: EncodedMessage<'_>,
        reply: ReplyCapacity,
        room: Result<(), VirtqError>,
        error: VirtqError,
    )
        requires
            context::same_but_pool(self.g2h_producer, asked.g2h_producer),
            self.g2h_producer.pool == asked.g2h_producer.pool,
            context::may_answer(self.g2h_producer, room),
            asked.send_error_in(after, mem, message, reply, room, error),
        ensures
            self.send_error(after, mem, message, reply, error),
    {
        reveal(GuestContext::send_error);
        reveal(GuestContext::send_error_in);
        let request = choose|request: ChainBuilder| #[trigger]
            asked.requests(request, message, reply) && {
                ||| context::turned_away_in(
                    asked.g2h_producer,
                    after.g2h_producer,
                    request,
                    mem,
                    room,
                    error,
                )
                ||| error == VirtqError::MemoryWriteError && asked.write_refused(
                    request,
                    after,
                    mem,
                )
            };
        assert(self.requests(request, message, reply));
        if context::turned_away_in(
            asked.g2h_producer,
            after.g2h_producer,
            request,
            mem,
            room,
            error,
        ) {
            context::lemma_turned_away(
                self.g2h_producer,
                asked.g2h_producer,
                after.g2h_producer,
                request,
                mem,
                room,
                error,
            );
        } else {
            let (chain, pool) = choose|chain: SendChain, pool: PoolView|
                {
                    &&& #[trigger] context::taken(request, asked.g2h_producer.pool@, pool, chain)
                    &&& !send::entries_mapped(mem, chain.readable())
                    &&& context::same_but_pool(asked.g2h_producer, after.g2h_producer)
                    &&& after.g2h_producer.pool@ == entries::released(
                        pool,
                        entries::addrs_of(chain.owned.buffers@),
                    )
                };
            assert(context::taken(request, self.g2h_producer.pool@, pool, chain));
            assert(self.write_refused(request, after, mem));
        }
    }

    /// A message is refused with this error, given the room for the record of its chain.
    #[verifier::opaque]
    pub open spec fn send_error_in(
        self,
        after: GuestContext<N>,
        mem: MemView,
        message: EncodedMessage<'_>,
        reply: ReplyCapacity,
        room: Result<(), VirtqError>,
        error: VirtqError,
    ) -> bool {
        exists|request: ChainBuilder| #[trigger]
            self.requests(request, message, reply) && {
                ||| context::turned_away_in(
                    self.g2h_producer,
                    after.g2h_producer,
                    request,
                    mem,
                    room,
                    error,
                )
                ||| error == VirtqError::MemoryWriteError && self.write_refused(
                    request,
                    after,
                    mem,
                )
            }
    }

    /// A message is refused with this error: its chain cannot be built, its buffers
    /// cannot be written, or the ring does not take the chain. Buffers that were taken for
    /// it go back to the pool, unless memory failed while the chain went out.
    #[verifier::opaque]
    pub open spec fn send_error(
        self,
        after: GuestContext<N>,
        mem: MemView,
        message: EncodedMessage<'_>,
        reply: ReplyCapacity,
        error: VirtqError,
    ) -> bool {
        exists|request: ChainBuilder| #[trigger]
            self.requests(request, message, reply) && {
                ||| context::turned_away(
                    self.g2h_producer,
                    after.g2h_producer,
                    request,
                    mem,
                    error,
                )
                ||| error == VirtqError::MemoryWriteError && self.write_refused(
                    request,
                    after,
                    mem,
                )
            }
    }

    /// Refusing a message concerns the G2H queue only.
    pub(crate) proof fn lemma_send_error_g2h(
        self,
        a: GuestContext<N>,
        b: GuestContext<N>,
        mem: MemView,
        message: EncodedMessage<'_>,
        reply: ReplyCapacity,
        error: VirtqError,
    )
        requires
            self.send_error(a, mem, message, reply, error),
            a.g2h_producer == b.g2h_producer,
        ensures
            self.send_error(b, mem, message, reply, error),
    {
        reveal(GuestContext::send_error);
    }

    /// The buffers of a request cannot be written.
    pub open spec fn write_refused(
        self,
        request: ChainBuilder,
        after: GuestContext<N>,
        mem: MemView,
    ) -> bool {
        exists|chain: SendChain, pool: PoolView|
            {
                &&& #[trigger] context::taken(request, self.g2h_producer.pool@, pool, chain)
                &&& !send::entries_mapped(mem, chain.readable())
                &&& context::same_but_pool(self.g2h_producer, after.g2h_producer)
                &&& after.g2h_producer.pool@ == entries::released(
                    pool,
                    entries::addrs_of(chain.owned.buffers@),
                )
            }
    }

    /// Submit one G2H message for polling after the existing final halt: the host is not
    /// notified.
    pub fn try_send_deferred<M: MemOps>(
        &mut self,
        mem: &mut M,
        message: &EncodedMessage<'_>,
        reply_cap: ReplyCapacity,
    ) -> (token: Result<Token, VirtqError>)
        requires
            old(self).wf(),
            message.wf(),
        ensures
            final(self).wf(),
            old(self).same_but_g2h(*final(self)),
            old(mem).mem().same_mapping(final(mem).mem()),
            final(self).g2h_producer.notifier == old(self).g2h_producer.notifier,
            token matches Ok(t) ==> old(self).sent(
                *final(self),
                old(mem).mem(),
                final(mem).mem(),
                *message,
                reply_cap,
                t,
            ),
            token matches Err(e) ==> old(self).send_error(
                *final(self),
                old(mem).mem(),
                *message,
                reply_cap,
                e,
            ),
    {
        let room = self.g2h_producer.inflight.try_reserve_one();
        let ghost asked = *self;
        let token = self.try_send_deferred_in(mem, message, reply_cap, room);
        proof {
            match token {
                Ok(t) => old(self).lemma_sent_after_asking(
                    asked,
                    *self,
                    old(mem).mem(),
                    mem.mem(),
                    *message,
                    reply_cap,
                    t,
                ),
                Err(e) => old(self).lemma_refused_after_asking(
                    asked,
                    *self,
                    old(mem).mem(),
                    *message,
                    reply_cap,
                    room,
                    e,
                ),
            }
        }
        token
    }

    /// Submit one G2H message for polling after the existing final halt, with `room` for the
    /// record of its chain, or none for the reason given.
    pub fn try_send_deferred_in<M: MemOps>(
        &mut self,
        mem: &mut M,
        message: &EncodedMessage<'_>,
        reply_cap: ReplyCapacity,
        room: Result<(), VirtqError>,
    ) -> (token: Result<Token, VirtqError>)
        requires
            old(self).wf(),
            message.wf(),
            room is Ok ==> old(self).g2h_producer.inflight.chains().len() < old(
                self,
            ).g2h_producer.inflight.ids(),
        ensures
            final(self).wf(),
            old(self).same_but_g2h(*final(self)),
            old(mem).mem().same_mapping(final(mem).mem()),
            final(self).g2h_producer.notifier == old(self).g2h_producer.notifier,
            token matches Ok(t) ==> room is Ok && old(self).sent(
                *final(self),
                old(mem).mem(),
                final(mem).mem(),
                *message,
                reply_cap,
                t,
            ),
            token matches Err(e) ==> old(self).send_error_in(
                *final(self),
                old(mem).mem(),
                *message,
                reply_cap,
                room,
                e,
            ),
            old(self).can_send(old(mem).mem(), *message, reply_cap) ==> match room {
                Ok(_) => token is Ok,
                Err(e) => token == Err::<Token, VirtqError>(e),
            },
    {
        let chain = match self.build_g2h_chain(mem, message, reply_cap) {
            Ok(chain) => chain,
            Err(error) => {
                proof {
                    reveal(GuestContext::send_error_in);
                }
                return Err(error);
            },
        };
        let ghost ready = self.g2h_producer;
        let ghost filled = mem.mem();
        let ghost sent = chain;
        let mut batch = self.g2h_producer.batch();
        let token = batch.submit_in(&mut self.g2h_producer, mem, chain, room);
        batch.finish_without_notify();
        proof {
            old(self).lemma_submitted(
                ready,
                *self,
                old(mem).mem(),
                filled,
                mem.mem(),
                *message,
                reply_cap,
                sent,
                room,
                token,
            );
        }
        token
    }

    /// Take back what the host has completed on the G2H queue.
    pub(crate) fn reclaim_g2h<M: BufferMap>(&mut self, mem: &mut M) -> (count: Result<
        usize,
        VirtqError,
    >)
        requires
            old(self).wf(),
        ensures
            final(self).wf(),
            old(self).same_but_g2h(*final(self)),
            old(mem).mem().same_mapping(final(mem).mem()),
            old(mem).mem().same_bytes(final(mem).mem()),
            final(self).g2h_producer.inner.layout == old(self).g2h_producer.inner.layout,
            old(self).g2h_producer.reclaims(final(self).g2h_producer, old(mem).mem(), count),
            count is Ok ==> old(self).reclaimed(*final(self), old(mem).mem()),
            old(self).g2h_producer.inner.layout.mapped_in(old(mem).mem()) ==> !(count matches Err(
                VirtqError::RingError(e),
            ) && e is MemError),
    {
        self.g2h_producer.reclaim(mem)
    }

    /// Submit a G2H message for the first time. When the queue is full the host is made to
    /// drain it.
    fn send_first<M: BufferMap>(
        &mut self,
        mem: &mut M,
        message: &EncodedMessage<'_>,
        reply_cap: ReplyCapacity,
    ) -> (step: SendStep)
        requires
            old(self).wf(),
            message.wf(),
        ensures
            final(self).wf(),
            old(self).same_but_g2h(*final(self)),
            old(mem).mem().same_mapping(final(mem).mem()),
            old(self).stepped(
                *final(self),
                old(mem).mem(),
                final(mem).mem(),
                *message,
                reply_cap,
                Attempt::First,
                step,
            ),
    {
        match self.try_send(mem, message, reply_cap) {
            Ok(token) => SendStep::Sent(token),
            Err(error) => {
                if error.is_transient() {
                    let ghost stuck = *self;
                    self.g2h_producer.notify_backpressure();
                    proof {
                        assert(old(self).send_error(
                            stuck,
                            old(mem).mem(),
                            *message,
                            reply_cap,
                            VirtqError::Backpressure,
                        ));
                        assert(stuck.alerted(*self));
                    }
                    return SendStep::Drain;
                }
                SendStep::Failed(ContextError::Send(error))
            },
        }
    }

    /// Submit a G2H message once the host has drained the queue.
    fn send_again<M: BufferMap>(
        &mut self,
        mem: &mut M,
        message: &EncodedMessage<'_>,
        reply_cap: ReplyCapacity,
    ) -> (step: SendStep)
        requires
            old(self).wf(),
            message.wf(),
        ensures
            final(self).wf(),
            old(self).same_but_g2h(*final(self)),
            old(mem).mem().same_mapping(final(mem).mem()),
            old(self).stepped(
                *final(self),
                old(mem).mem(),
                final(mem).mem(),
                *message,
                reply_cap,
                Attempt::AfterDrain,
                step,
            ),
    {
        match self.reclaim_g2h(mem) {
            Ok(_) => {},
            Err(error) => return SendStep::Failed(ContextError::Reclaim(error)),
        }
        let ghost ready = *self;
        let ghost start = mem.mem();
        match self.try_send(mem, message, reply_cap) {
            Ok(token) => {
                proof {
                    assert(old(self).reclaimed(ready, old(mem).mem()));
                    assert(ready.sent_and_kicked(
                        *self,
                        start,
                        mem.mem(),
                        *message,
                        reply_cap,
                        token,
                    ));
                }
                SendStep::Sent(token)
            },
            Err(error) => {
                proof {
                    assert(old(self).reclaimed(ready, old(mem).mem()));
                    assert(ready.send_error(*self, start, *message, reply_cap, error));
                }
                SendStep::Failed(ContextError::Retry(error))
            },
        }
    }

    /// Submit a G2H message, once more after the host drained the queue.
    ///
    /// Completed acknowledgements remain available for normal polling or
    /// reclamation when later submissions encounter backpressure.
    pub fn send_step<M: BufferMap>(
        &mut self,
        mem: &mut M,
        message: &EncodedMessage<'_>,
        reply_cap: ReplyCapacity,
        attempt: Attempt,
    ) -> (step: SendStep)
        requires
            old(self).wf(),
            message.wf(),
        ensures
            final(self).wf(),
            old(self).same_but_g2h(*final(self)),
            old(mem).mem().same_mapping(final(mem).mem()),
            old(self).stepped(
                *final(self),
                old(mem).mem(),
                final(mem).mem(),
                *message,
                reply_cap,
                attempt,
                step,
            ),
    {
        match attempt {
            Attempt::First => self.send_first(mem, message, reply_cap),
            Attempt::AfterDrain => self.send_again(mem, message, reply_cap),
        }
    }

    /// Encode a host function call and frame it as a request.
    ///
    /// Slot-aligned external values use a separate readable region.
    pub fn frame_call<'a>(&mut self, call: &'a FunctionCall, flat: &'a mut FlatBuilder) -> (framed:
        Result<(u32, EncodedMessage<'a>), ContextError>)
        requires
            old(self).wf(),
            builder::flat_state(*old(flat)).idle(call.flat_cost()),
            builder::flat_state(*old(flat)).bounded(),
        ensures
            final(self).wf(),
            match call_externals(*call) {
                Err(error) => {
                    &&& framed is Err
                    &&& framed->Err_0 == ContextError::Encode(error)
                    &&& *final(self) == *old(self)
                    &&& wire::extends(
                        builder::flat_state(*old(flat)),
                        builder::flat_state(*final(flat)),
                        call.flat_cost(),
                    )
                },
                Ok(externals) => {
                    &&& final(self).next_cid == Self::cid_after(old(self).next_cid)
                    &&& final(self).g2h_producer == old(self).g2h_producer
                    &&& final(self).h2g_producer == old(self).h2g_producer
                    &&& match framed {
                        Ok((cid, message)) => {
                            &&& cid == old(self).next_cid
                            &&& carries_call(message, MsgKind::Request, cid, *call, externals)
                        },
                        Err(error) => error == ContextError::MessageOverflow && call_overflows(
                            *call,
                            builder::flat_state(*old(flat)).used + call.flat_cost(),
                            externals.total,
                        ),
                    }
                },
            },
    {
        let mut externals = ExternalValues::new();
        let control = match call.encode(flat, &mut externals) {
            Ok(control) => control,
            Err(error) => return Err(ContextError::Encode(error)),
        };
        proof {
            values::law_external_values_keep_order(no_externals(), call.parameter_list());
            assert(no_externals().chunks.flatten() + externals.values().flatten()
                =~= externals.values().flatten());
        }
        let cid: u32 = self.allocate_cid();
        match EncodedMessage::new(MsgKind::Request, cid, control, externals) {
            Some(message) => Ok((cid, message)),
            None => Err(ContextError::MessageOverflow),
        }
    }
}

/// Control data for a call, of at most `len` bytes, is too long to be framed with its external
/// values.
pub open spec fn call_overflows(call: FunctionCall, len: nat, external_len: nat) -> bool {
    exists|control: Seq<u8>|
        {
            &&& #[trigger] call.encodes(control)
            &&& control.len() <= len
            &&& !frames(control.len(), external_len)
        }
}

/// Control data for a result is too long to be framed with its external value.
pub open spec fn result_overflows(result: FunctionCallResult, external_len: nat) -> bool {
    exists|control: Seq<u8>|
        {
            &&& #[trigger] builder::size_prefixed(control)
            &&& function_result::result_at(control) == Some(result.to_wire())
            &&& control.len() <= result.flat_cost()
            &&& !frames(control.len(), external_len)
        }
}

/// A message carries a function call and its external values.
pub open spec fn carries_call(
    message: EncodedMessage<'_>,
    kind: MsgKind,
    cid: u32,
    call: FunctionCall,
    externals: ExternalView,
) -> bool {
    &&& message.wf()
    &&& message.header_view().holds(kind, cid, message.header_view().payload_len)
    &&& call.encodes(message.control_view())
    &&& message.external_values() == externals.chunks
}

} // verus!
