//! Messages from the host to the guest.

use vstd::prelude::*;
use vstd::seq_lib::*;

use super::codec;
use super::codec::{decode_request, decode_response, CodecError};
use super::context;
use super::context::{ContextError, GuestContext};
use crate::flatbuffer_wrappers::function_call::{CallView, FunctionCall};
use crate::flatbuffer_wrappers::function_result::{FunctionCallResult, ResultView};
use crate::flatbuffer_wrappers::function_types::ReturnValue;
use crate::octets::bytes_as_slice;
use crate::transport::{MsgHeader, MsgKind};
use crate::virtq::access::MemView;
use crate::virtq::buffer;
use crate::virtq::entries::release_leases;
use crate::virtq::producer;
use crate::virtq::ring;
use crate::virtq::{
    BufferLease, BufferMap, NoopNotifier, Notifier, Segments, Token, UsedChain, VirtqError,
    VirtqProducer,
};

verus! {

/// Work selected by one H2G dispatch entry.
pub enum DispatchAction {
    /// Invoke one guest function and return its correlation ID. The leases hold the
    /// receive buffers that the call's chunked values may lie in.
    Call(u32, FunctionCall, Vec<BufferLease>),
    /// Prepare canonical transport state for snapshot capture.
    SnapshotCheckpoint,
}

/// What the first buffer of a host message announces.
pub enum Opening {
    Checkpoint,
    Call { cid: u32, len: nat, payload: Seq<u8> },
}

/// The announcement of the first buffer of a host message.
pub open spec fn opening_of(first: Seq<u8>) -> Result<Opening, ContextError> {
    if first.len() < MsgHeader::SIZE {
        Err(ContextError::Header(CodecError::MissingHeader))
    } else {
        match MsgHeader::of_wire(first.take(12)) {
            None => Err(ContextError::Header(CodecError::InvalidHeader)),
            Some((kind, cid, len)) => if kind == MsgKind::SnapshotCheckpoint {
                Ok(Opening::Checkpoint)
            } else if kind != MsgKind::Request || cid == 0 {
                Err(ContextError::Framing)
            } else if first.len() - 12 > len {
                Err(ContextError::TooLong { begun: false })
            } else {
                Ok(Opening::Call { cid, len: len as nat, payload: first.skip(12) })
            },
        }
    }
}

/// The first buffer of a host message.
pub enum Started {
    Checkpoint,
    Call { cid: u32, payload_len: usize, payload: Segments },
}

/// Read the header of a host message.
pub fn start_dispatch(segments: Segments) -> (started: Result<Started, ContextError>)
    requires
        segments.wf(),
        segments.payload().len() <= u32::MAX,
    ensures
        match opening_of(segments.payload()) {
            Err(error) => started is Err && started->Err_0 == error,
            Ok(Opening::Checkpoint) => started is Ok && started->Ok_0 is Checkpoint,
            Ok(Opening::Call { cid, len, payload }) => {
                &&& started is Ok
                &&& started->Ok_0 matches Started::Call { cid: c, payload_len, payload: p }
                &&& c == cid
                &&& payload_len == len
                &&& p.wf()
                &&& p.payload() == payload
            },
        },
{
    let mut payload = segments;
    proof {
        buffer::law_split_partitions_payload(payload@, 12);
    }
    let header = match payload.split_to(MsgHeader::SIZE) {
        Some(header) => header.into_bytes(),
        None => return Err(ContextError::Header(CodecError::MissingHeader)),
    };
    let header = match MsgHeader::from_bytes(bytes_as_slice(&header)) {
        Some(header) => header,
        None => return Err(ContextError::Header(CodecError::InvalidHeader)),
    };
    match header.msg_kind() {
        Ok(MsgKind::SnapshotCheckpoint) => return Ok(Started::Checkpoint),
        Ok(MsgKind::Request) => {
            if header.cid == 0 {
                return Err(ContextError::Framing);
            }
        },
        _ => return Err(ContextError::Framing),
    }
    let payload_len: usize = header.payload_len as usize;
    if payload.len() > payload_len {
        return Err(ContextError::TooLong { begun: false });
    }
    Ok(Started::Call { cid: header.cid, payload_len, payload })
}

/// The payloads of data chains.
pub open spec fn payloads(chains: Seq<UsedChain>) -> Seq<Seq<u8>> {
    chains.map_values(|c: UsedChain| c->Data_1.payload())
}

/// The leases of data chains.
pub open spec fn held(chains: Seq<UsedChain>) -> Seq<BufferLease> {
    chains.map_values(|c: UsedChain| c->Data_2@).flatten()
}

/// What the first of several chains announces.
pub open spec fn announced(chains: Seq<UsedChain>) -> Result<Opening, ContextError> {
    opening_of(payloads(chains)[0])
}

/// The payload that chains hold together, without the header.
pub open spec fn gathered(chains: Seq<UsedChain>) -> Seq<u8> {
    payloads(chains)[0].skip(12) + payloads(chains).drop_first().flatten()
}

/// Chains begin a request: the first announces it, the others continue it, and together
/// they hold no more payload bytes than announced.
pub open spec fn begins_call(chains: Seq<UsedChain>) -> bool {
    &&& chains.len() > 0
    &&& forall|i: int| 0 <= i < chains.len() ==> (#[trigger] chains[i]) is Data
    &&& forall|i: int| 0 < i < chains.len() ==> (#[trigger] payloads(chains)[i]).len() > 0
    &&& announced(chains) matches Ok(Opening::Call { len, .. })
    &&& gathered(chains).len() <= len
}

/// Chains hold a whole request.
pub open spec fn whole_call(chains: Seq<UsedChain>) -> bool {
    &&& begins_call(chains)
    &&& announced(chains) matches Ok(Opening::Call { len, .. })
    &&& gathered(chains).len() == len
}

/// More chains are expected.
pub open spec fn awaits_more(chains: Seq<UsedChain>) -> bool {
    chains.len() == 0 || begins_call(chains) && !whole_call(chains)
}

/// Polling a queue fails.
pub open spec fn poll_fails<N: Notifier>(
    queue: VirtqProducer<N>,
    after: VirtqProducer<N>,
    mem: MemView,
    error: VirtqError,
) -> bool {
    ||| queue.poll_result(after, mem, Err(error))
    ||| (error matches VirtqError::RingError(e) && e is MemError) && !queue.inner.layout.mapped_in(
        mem,
    ) && queue.same_ring(after) && after.pending@ == queue.pending@
}

/// Polling a queue gave an acknowledgement.
pub open spec fn acknowledged<N: Notifier>(
    queue: VirtqProducer<N>,
    after: VirtqProducer<N>,
    mem: MemView,
) -> bool {
    exists|token: Token| #[trigger]
        queue.poll_result(after, mem, Ok(Some(UsedChain::Ack(token))))
}

/// What taking one data chain from a queue leads to.
pub open spec fn received_from<N: Notifier>(
    queue: VirtqProducer<N>,
    after: VirtqProducer<N>,
    mem: MemView,
    received: Result<(Token, Segments, Vec<BufferLease>), ContextError>,
) -> bool {
    match received {
        Ok((token, segments, leases)) => queue.poll_result(
            after,
            mem,
            Ok(Some(UsedChain::Data(token, segments, leases))),
        ),
        Err(ContextError::AckOnly { .. }) => acknowledged(queue, after, mem),
        Err(ContextError::NoChain { .. }) => queue.poll_result(after, mem, Ok(None)),
        Err(ContextError::Poll(error)) => poll_fails(queue, after, mem, error),
        Err(_) => false,
    }
}

/// An error says whether the message had begun.
pub open spec fn told(error: ContextError, begun: bool) -> bool {
    match error {
        ContextError::AckOnly { begun: b } => b == begun,
        ContextError::NoChain { begun: b } => b == begun,
        _ => true,
    }
}

/// Polling gave nothing or failed, and the leases held so far went back.
pub open spec fn stalled<N: Notifier>(
    queue: VirtqProducer<N>,
    after: VirtqProducer<N>,
    mem: MemView,
    leases: Seq<BufferLease>,
    error: ContextError,
) -> bool {
    exists|polled: VirtqProducer<N>|
        {
            &&& #[trigger] context::leases_returned(polled, after, leases)
            &&& match error {
                ContextError::NoChain { .. } => queue.poll_result(
                    polled,
                    mem,
                    Ok::<Option<UsedChain>, VirtqError>(None),
                ),
                ContextError::Poll(e) => poll_fails(queue, polled, mem, e),
                _ => false,
            }
        }
}

/// What the chains polled so far, and the poll after them, make of a host message. The
/// slots of a message that is not a valid call are given back, those of the last chain
/// first.
pub open spec fn dispatch_from(
    queue: VirtqProducer<NoopNotifier>,
    after: VirtqProducer<NoopNotifier>,
    mem: MemView,
    chains: Seq<UsedChain>,
    dispatch: Result<DispatchAction, ContextError>,
) -> bool {
    let earlier = chains.drop_last();
    match dispatch {
        Ok(DispatchAction::Call(cid, call, leases)) => {
            &&& whole_call(chains)
            &&& announced(chains)->Ok_0->cid == cid
            &&& codec::request_of(gathered(chains)) == Ok::<CallView, CodecError>(
                call.call_view(),
            )
            &&& leases@ == held(chains)
            &&& after == queue
        },
        Ok(DispatchAction::SnapshotCheckpoint) => {
            &&& chains.len() == 1
            &&& chains[0] is Data
            &&& announced(chains) == Ok::<Opening, ContextError>(Opening::Checkpoint)
            &&& context::leases_returned(queue, after, held(chains))
        },
        Err(ContextError::NoChain { .. }) | Err(ContextError::Poll(_)) => {
            &&& awaits_more(chains)
            &&& stalled(queue, after, mem, held(chains), dispatch->Err_0)
            &&& dispatch->Err_0 matches ContextError::NoChain { begun } ==> begun == (chains.len()
                > 0)
        },
        Err(ContextError::AckOnly { begun }) => {
            &&& begun == (earlier.len() > 0)
            &&& chains.len() > 0
            &&& chains.last() is Ack
            &&& awaits_more(earlier)
            &&& context::leases_returned(queue, after, held(earlier))
        },
        Err(ContextError::Codec(e)) => {
            &&& whole_call(chains)
            &&& codec::request_of(gathered(chains)) == Err::<CallView, CodecError>(e)
            &&& context::leases_returned(queue, after, held(chains))
        },
        Err(error) => {
            &&& chains.len() > 0
            &&& chains.last() is Data
            &&& awaits_more(earlier)
            &&& context::leases_returned(
                queue,
                after,
                chains.last()->Data_2@ + held(earlier),
            )
            &&& if earlier.len() == 0 {
                announced(chains) == Err::<Opening, ContextError>(error)
            } else if payloads(chains).last().len() == 0 {
                error == ContextError::EmptyContinuation
            } else {
                error == (ContextError::TooLong { begun: true }) && gathered(chains).len()
                    > announced(chains)->Ok_0->len
            }
        },
    }
}

/// Polling a queue made this of a host message.
pub open spec fn h2g_outcome(
    queue: VirtqProducer<NoopNotifier>,
    after: VirtqProducer<NoopNotifier>,
    mem: MemView,
    dispatch: Result<DispatchAction, ContextError>,
) -> bool {
    exists|
        polled: VirtqProducer<NoopNotifier>,
        chains: Seq<UsedChain>,
        trace: Seq<VirtqProducer<NoopNotifier>>,
    | #[trigger]
        queue.polls(polled, mem, chains, trace) && dispatch_from(
            polled,
            after,
            mem,
            chains,
            dispatch,
        )
}

/// Polling a queue gave a whole request.
pub open spec fn h2g_gathered(
    queue: VirtqProducer<NoopNotifier>,
    after: VirtqProducer<NoopNotifier>,
    mem: MemView,
    cid: u32,
    payload: Seq<u8>,
    leases: Seq<BufferLease>,
) -> bool {
    exists|chains: Seq<UsedChain>, trace: Seq<VirtqProducer<NoopNotifier>>| #[trigger]
        queue.polls(after, mem, chains, trace) && whole_call(chains)
            && announced(chains)->Ok_0->cid == cid && gathered(chains) == payload && held(chains)
            == leases
}

/// One chain more.
proof fn lemma_chains_push(chains: Seq<UsedChain>, chain: UsedChain)
    requires
        chain is Data,
    ensures
        payloads(chains.push(chain)) == payloads(chains).push(chain->Data_1.payload()),
        held(chains.push(chain)) == held(chains) + chain->Data_2@,
        chains.len() > 0 ==> gathered(chains.push(chain)) == gathered(chains)
            + chain->Data_1.payload(),
        chains.len() > 0 ==> announced(chains.push(chain)) == announced(chains),
        chains.len() == 0 ==> gathered(chains.push(chain)) == chain->Data_1.payload().skip(12),
{
    let more = chains.push(chain);
    let leases = chains.map_values(|c: UsedChain| c->Data_2@);
    assert(more.map_values(|c: UsedChain| c->Data_2@) =~= leases.push(chain->Data_2@));
    leases.lemma_flatten_push(chain->Data_2@);
    assert(payloads(more) =~= payloads(chains).push(chain->Data_1.payload()));
    if chains.len() > 0 {
        let rest = payloads(chains).drop_first();
        assert(payloads(more).drop_first() =~= rest.push(chain->Data_1.payload()));
        rest.lemma_flatten_push(chain->Data_1.payload());
        assert(gathered(more) =~= gathered(chains) + chain->Data_1.payload());
    } else {
        assert(payloads(more).drop_first() =~= Seq::<Seq<u8>>::empty());
        assert(gathered(more) =~= chain->Data_1.payload().skip(12));
    }
}

/// One continuation more begins a longer part of the same request.
proof fn lemma_continues(chains: Seq<UsedChain>, chain: UsedChain)
    requires
        begins_call(chains),
        chain is Data,
        chain->Data_1.payload().len() > 0,
        gathered(chains.push(chain)).len() <= announced(chains)->Ok_0->len,
    ensures
        begins_call(chains.push(chain)),
{
    lemma_chains_push(chains, chain);
    let more = chains.push(chain);
    assert forall|i: int| 0 <= i < more.len() implies (#[trigger] more[i]) is Data by {
        if i < chains.len() {
            assert(chains[i] is Data);
        }
    }
    assert forall|i: int| 0 < i < more.len() implies (#[trigger] payloads(more)[i]).len() > 0 by {
        if i < chains.len() {
            assert(payloads(chains)[i].len() > 0);
        }
    }
}

/// What a used chain means to the request that waits for a reply.
pub enum Verdict {
    /// An earlier one-way message was acknowledged.
    Skip,
    /// The reply, and the slots that its chunked values may lie in.
    Reply(FunctionCallResult, Vec<BufferLease>),
    /// The request fails. The slots are of no further use.
    Fail(ContextError, Vec<BufferLease>),
}

/// What a used chain means while request `cid`, submitted as `token`, waits for its reply.
pub open spec fn judged(chain: UsedChain, token: Token, cid: u32, verdict: Verdict) -> bool {
    match (chain, verdict) {
        (UsedChain::Ack(t), Verdict::Skip) => t != token,
        (UsedChain::Ack(t), Verdict::Fail(error, leases)) => t == token && error
            == (ContextError::AckOnly { begun: false }) && leases@.len() == 0,
        (UsedChain::Data(t, segments, held), Verdict::Reply(result, leases)) => t == token
            && leases == held && codec::response_of(segments.payload(), cid) == Ok::<
            ResultView,
            CodecError,
        >(result.result_view()),
        (UsedChain::Data(t, segments, held), Verdict::Fail(error, leases)) => leases == held
            && if t != token {
            error == ContextError::UnexpectedReply
        } else {
            codec::response_of(segments.payload(), cid) matches Err(e) && error
                == ContextError::Codec(e)
        },
        _ => false,
    }
}

/// Judge a used chain while request `cid`, submitted as `token`, waits for its reply.
pub fn judge_reply(chain: UsedChain, token: Token, cid: u32) -> (verdict: Verdict)
    requires
        chain.wf(),
    ensures
        judged(chain, token, cid, verdict),
{
    match chain {
        UsedChain::Ack(t) => if t == token {
            Verdict::Fail(ContextError::AckOnly { begun: false }, Vec::new())
        } else {
            Verdict::Skip
        },
        UsedChain::Data(t, segments, leases) => {
            if t != token {
                return Verdict::Fail(ContextError::UnexpectedReply, leases);
            }
            match decode_response(segments, cid) {
                Ok(result) => Verdict::Reply(result, leases),
                Err(error) => Verdict::Fail(ContextError::Codec(error), leases),
            }
        },
    }
}

/// A chain acknowledges another message.
pub open spec fn skipped(chain: UsedChain, token: Token) -> bool {
    chain is Ack && chain.token_view() != token
}

/// What a chain that is no other message's acknowledgement makes of a request. Slots that
/// no chunked value lies in are given back.
pub open spec fn concluded<N: Notifier>(
    queue: VirtqProducer<N>,
    after: VirtqProducer<N>,
    chain: UsedChain,
    token: Token,
    cid: u32,
    reply: Result<(ReturnValue, Vec<BufferLease>), ContextError>,
) -> bool {
    match chain {
        UsedChain::Ack(t) => {
            &&& t == token
            &&& reply == Err::<(ReturnValue, Vec<BufferLease>), ContextError>(
                ContextError::AckOnly { begun: false },
            )
            &&& context::leases_returned(queue, after, Seq::empty())
        },
        UsedChain::Data(t, segments, leases) => if t != token {
            &&& reply == Err::<(ReturnValue, Vec<BufferLease>), ContextError>(
                ContextError::UnexpectedReply,
            )
            &&& context::leases_returned(queue, after, leases@)
        } else {
            match (codec::response_of(segments.payload(), cid), reply) {
                (Err(e), Err(ContextError::Codec(error))) => error == e
                    && context::leases_returned(queue, after, leases@),
                (Ok(ResultView::Error(code, message)), Err(ContextError::Guest(error))) =>
                    error.code == code && error.message@ == message && context::leases_returned(
                    queue,
                    after,
                    leases@,
                ),
                (Ok(ResultView::Value(view)), Ok((value, kept))) => value@ == view && if value
                    is ByteChunks {
                    kept == leases && after == queue
                } else {
                    kept@.len() == 0 && context::leases_returned(queue, after, leases@)
                },
                _ => false,
            }
        },
    }
}

/// What the chains polled so far, and the poll after them, make of the reply to a request.
/// Acknowledgements of other messages come first.
pub open spec fn reply_from<N: Notifier>(
    queue: VirtqProducer<N>,
    after: VirtqProducer<N>,
    mem: MemView,
    chains: Seq<UsedChain>,
    token: Token,
    cid: u32,
    reply: Result<(ReturnValue, Vec<BufferLease>), ContextError>,
) -> bool {
    match reply {
        Err(ContextError::NoChain { .. }) | Err(ContextError::Poll(_)) => {
            &&& forall|i: int| 0 <= i < chains.len() ==> skipped(#[trigger] chains[i], token)
            &&& stalled(queue, after, mem, Seq::empty(), reply->Err_0)
        },
        _ => {
            &&& chains.len() > 0
            &&& forall|i: int| 0 <= i < chains.len() - 1 ==> skipped(#[trigger] chains[i], token)
            &&& concluded(queue, after, chains.last(), token, cid, reply)
        },
    }
}

impl<N: Notifier> GuestContext<N> {
    /// Answer a request by a verdict, and give back the slots that are not needed.
    fn conclude(
        &mut self,
        verdict: Verdict,
        Ghost(chain): Ghost<UsedChain>,
        Ghost(token): Ghost<Token>,
        Ghost(cid): Ghost<u32>,
    ) -> (reply: Result<(ReturnValue, Vec<BufferLease>), ContextError>)
        requires
            old(self).wf(),
            judged(chain, token, cid, verdict),
            !(verdict is Skip),
        ensures
            final(self).wf(),
            old(self).same_but_g2h(*final(self)),
            concluded(
                old(self).g2h_producer,
                final(self).g2h_producer,
                chain,
                token,
                cid,
                reply,
            ),
            !(reply matches Err(ContextError::NoChain { .. })),
            !(reply matches Err(ContextError::Poll(_))),
    {
        match verdict {
            Verdict::Skip => Err(ContextError::NoChain { begun: false }),
            Verdict::Fail(error, leases) => {
                proof {
                    if chain is Ack {
                        assert(leases@ =~= Seq::<BufferLease>::empty());
                    }
                }
                release_leases(&mut self.g2h_producer.pool, leases);
                Err(error)
            },
            Verdict::Reply(result, leases) => match result.into_inner() {
                Ok(ReturnValue::ByteChunks(value)) => {
                    Ok((ReturnValue::ByteChunks(value), leases))
                },
                Ok(value) => {
                    release_leases(&mut self.g2h_producer.pool, leases);
                    Ok((value, Vec::new()))
                },
                Err(error) => {
                    release_leases(&mut self.g2h_producer.pool, leases);
                    Err(ContextError::Guest(error))
                },
            },
        }
    }
}

impl<N: Notifier> GuestContext<N> {
    /// Poll completions for the reply to a request, skipping earlier one-way
    /// acknowledgements.
    ///
    /// Chunked values are not flattened; the leases hold the slots that they lie in. Slots
    /// of any other reply are given back at once.
    pub fn recv_reply<M: BufferMap>(&mut self, mem: &mut M, token: Token, cid: u32) -> (reply:
        Result<(ReturnValue, Vec<BufferLease>), ContextError>)
        requires
            old(self).wf(),
        ensures
            final(self).wf(),
            old(self).same_but_g2h(*final(self)),
            old(mem).mem().same_mapping(final(mem).mem()),
            old(mem).mem().same_bytes(final(mem).mem()),
            old(self).g2h_replied(*final(self), old(mem).mem(), token, cid, reply),
    {
        let ghost start = mem.mem();
        let ghost mut chains: Seq<UsedChain> = Seq::empty();
        let ghost mut trace: Seq<VirtqProducer<N>> = seq![self.g2h_producer];
        loop
            invariant
                self.wf(),
                old(self).same_but_g2h(*self),
                start == old(mem).mem(),
                start.same_mapping(mem.mem()),
                start.same_bytes(mem.mem()),
                old(self).g2h_producer.polls(self.g2h_producer, start, chains, trace),
                forall|i: int| 0 <= i < chains.len() ==> skipped(#[trigger] chains[i], token),
            decreases self.g2h_producer.backlog(),
        {
            let ghost before = self.g2h_producer;
            let ghost now = mem.mem();
            proof {
                crate::virtq::ring::lemma_counts_nonneg(self.g2h_producer.inner.id_num@);
            }
            let polled = self.g2h_producer.poll(mem);
            proof {
                if before.poll_result(self.g2h_producer, now, polled) {
                    producer::lemma_poll_same(before, self.g2h_producer, now, start, polled);
                }
                context::lemma_ring_mapping(start, now, before.inner.layout);
            }
            let chain = match polled {
                Ok(Some(chain)) => chain,
                Ok(None) => {
                    proof {
                        lemma_nothing_returned(self.g2h_producer);
                        assert(old(self).g2h_replied(
                            *self,
                            start,
                            token,
                            cid,
                            Err(ContextError::NoChain { begun: false }),
                        ));
                    }
                    return Err(ContextError::NoChain { begun: false });
                },
                Err(error) => {
                    proof {
                        lemma_nothing_returned(self.g2h_producer);
                        assert(poll_fails(before, self.g2h_producer, start, error));
                        assert(old(self).g2h_replied(
                            *self,
                            start,
                            token,
                            cid,
                            Err(ContextError::Poll(error)),
                        ));
                    }
                    return Err(ContextError::Poll(error));
                },
            };
            let ghost queue = self.g2h_producer;
            proof {
                ring::lemma_counts_nonneg(self.g2h_producer.inner.id_num@);
                producer::lemma_polls_push(
                    old(self).g2h_producer,
                    before,
                    queue,
                    start,
                    chains,
                    trace,
                    chain,
                );
                chains = chains.push(chain);
                trace = trace.push(queue);
                assert(old(self).g2h_producer.polls(queue, start, chains, trace));
            }
            match judge_reply(chain, token, cid) {
                Verdict::Skip => {},
                verdict => {
                    let reply = self.conclude(verdict, Ghost(chain), Ghost(token), Ghost(cid));
                    proof {
                        assert(reply_from(
                            queue,
                            self.g2h_producer,
                            start,
                            chains,
                            token,
                            cid,
                            reply,
                        ));
                    }
                    return reply;
                },
            }
        }
    }

    /// Polling the G2H queue made this of the reply to a request.
    pub open spec fn g2h_replied(
        self,
        after: GuestContext<N>,
        mem: MemView,
        token: Token,
        cid: u32,
        reply: Result<(ReturnValue, Vec<BufferLease>), ContextError>,
    ) -> bool {
        exists|
            queue: VirtqProducer<N>,
            chains: Seq<UsedChain>,
            trace: Seq<VirtqProducer<N>>,
        | #[trigger]
            self.g2h_producer.polls(queue, mem, chains, trace) && reply_from(
                queue,
                after.g2h_producer,
                mem,
                chains,
                token,
                cid,
                reply,
            )
    }
}

/// A queue to which no lease is returned is the same.
proof fn lemma_nothing_returned<N: Notifier>(queue: VirtqProducer<N>)
    ensures
        context::leases_returned(queue, queue, Seq::empty()),
{
    assert(Seq::<BufferLease>::empty().reverse() =~= Seq::<BufferLease>::empty());
}

impl<N: Notifier> GuestContext<N> {
    /// Take one data chain from the H2G queue, for a message that may have `begun`.
    fn poll_h2g<M: BufferMap>(&mut self, mem: &mut M, begun: bool) -> (received: Result<
        (Token, Segments, Vec<BufferLease>),
        ContextError,
    >)
        requires
            old(self).wf(),
        ensures
            final(self).wf(),
            old(self).same_but_h2g(*final(self)),
            old(mem).mem().same_mapping(final(mem).mem()),
            old(mem).mem().same_bytes(final(mem).mem()),
            received matches Ok((_, segments, _)) ==> segments.wf() && segments.payload().len()
                <= u32::MAX,
            received_from(
                old(self).h2g_producer,
                final(self).h2g_producer,
                old(mem).mem(),
                received,
            ),
            received matches Err(error) ==> told(error, begun),
    {
        let ghost before = self.h2g_producer;
        match self.h2g_producer.poll(mem) {
            Ok(Some(UsedChain::Data(token, segments, leases))) => Ok((token, segments, leases)),
            Ok(Some(UsedChain::Ack(token))) => {
                proof {
                    assert(before.poll_result(
                        self.h2g_producer,
                        old(mem).mem(),
                        Ok(Some(UsedChain::Ack(token))),
                    ));
                }
                Err(ContextError::AckOnly { begun })
            },
            Ok(None) => Err(ContextError::NoChain { begun }),
            Err(error) => {
                proof {
                    assert(poll_fails(before, self.h2g_producer, old(mem).mem(), error));
                }
                Err(ContextError::Poll(error))
            },
        }
    }

    /// Give back the slots of a message of which `chains` were received when the next poll
    /// gave no data.
    fn give_up(
        &mut self,
        leases: Vec<BufferLease>,
        error: &ContextError,
        Ghost(origin): Ghost<VirtqProducer<NoopNotifier>>,
        Ghost(before): Ghost<VirtqProducer<NoopNotifier>>,
        Ghost(mem): Ghost<MemView>,
        Ghost(chains): Ghost<Seq<UsedChain>>,
        Ghost(trace): Ghost<Seq<VirtqProducer<NoopNotifier>>>,
    )
        requires
            old(self).wf(),
            origin.polls(before, mem, chains, trace),
            awaits_more(chains),
            leases@ == held(chains),
            received_from(before, old(self).h2g_producer, mem, Err(*error)),
            told(*error, chains.len() > 0),
        ensures
            final(self).wf(),
            old(self).same_but_h2g(*final(self)),
            h2g_outcome(origin, final(self).h2g_producer, mem, Err(*error)),
    {
        let ghost polled = self.h2g_producer;
        release_leases(&mut self.h2g_producer.pool, leases);
        proof {
            assert(context::leases_returned(polled, self.h2g_producer, held(chains)));
            if *error is AckOnly {
                let token = choose|token: Token| #[trigger]
                    before.poll_result(polled, mem, Ok(Some(UsedChain::Ack(token))));
                producer::lemma_polls_push(
                    origin,
                    before,
                    polled,
                    mem,
                    chains,
                    trace,
                    UsedChain::Ack(token),
                );
                let all = chains.push(UsedChain::Ack(token));
                assert(all.drop_last() =~= chains);
                assert(dispatch_from(polled, self.h2g_producer, mem, all, Err(*error)));
            } else {
                assert(stalled(before, self.h2g_producer, mem, held(chains), *error));
                assert(dispatch_from(before, self.h2g_producer, mem, chains, Err(*error)));
            }
        }
    }

    /// Give back the slots of a message that a further chain makes invalid, those of the
    /// chain first.
    fn reject(
        &mut self,
        newest: Vec<BufferLease>,
        leases: Vec<BufferLease>,
        error: &ContextError,
        Ghost(origin): Ghost<VirtqProducer<NoopNotifier>>,
        Ghost(mem): Ghost<MemView>,
        Ghost(chains): Ghost<Seq<UsedChain>>,
        Ghost(trace): Ghost<Seq<VirtqProducer<NoopNotifier>>>,
    )
        requires
            old(self).wf(),
            origin.polls(old(self).h2g_producer, mem, chains, trace),
            chains.len() > 0,
            chains.last() is Data,
            newest@ == chains.last()->Data_2@,
            leases@ == held(chains.drop_last()),
            awaits_more(chains.drop_last()),
            if chains.len() == 1 {
                announced(chains) == Err::<Opening, ContextError>(*error)
            } else if payloads(chains).last().len() == 0 {
                *error == ContextError::EmptyContinuation
            } else {
                *error == (ContextError::TooLong { begun: true }) && gathered(chains).len()
                    > announced(chains)->Ok_0->len
            },
        ensures
            final(self).wf(),
            old(self).same_but_h2g(*final(self)),
            h2g_outcome(origin, final(self).h2g_producer, mem, Err(*error)),
    {
        let ghost polled = self.h2g_producer;
        let mut all = newest;
        let mut rest = leases;
        all.append(&mut rest);
        release_leases(&mut self.h2g_producer.pool, all);
        proof {
            assert(all@ =~= chains.last()->Data_2@ + held(chains.drop_last()));
            assert(context::leases_returned(polled, self.h2g_producer, all@));
            assert(dispatch_from(polled, self.h2g_producer, mem, chains, Err(*error)));
        }
    }

    /// Receive the rest of a request whose first chain announced it.
    fn recv_continuation<M: BufferMap>(
        &mut self,
        mem: &mut M,
        first: Segments,
        payload_len: usize,
        first_leases: Vec<BufferLease>,
        Ghost(origin): Ghost<VirtqProducer<NoopNotifier>>,
        Ghost(view): Ghost<MemView>,
        Ghost(opening): Ghost<UsedChain>,
    ) -> (whole: Result<(Segments, Vec<BufferLease>), ContextError>)
        requires
            old(self).wf(),
            first.wf(),
            view.same_bytes(old(mem).mem()),
            view.same_mapping(old(mem).mem()),
            origin.poll_result(old(self).h2g_producer, view, Ok(Some(opening))),
            opening is Data,
            first_leases@ == opening->Data_2@,
            opening_of(opening->Data_1.payload()) matches Ok(Opening::Call { len, payload, .. })
                && len == payload_len && payload == first.payload(),
        ensures
            final(self).wf(),
            old(self).same_but_h2g(*final(self)),
            old(mem).mem().same_mapping(final(mem).mem()),
            old(mem).mem().same_bytes(final(mem).mem()),
            match whole {
                Ok((segments, leases)) => segments.wf() && h2g_gathered(
                    origin,
                    final(self).h2g_producer,
                    view,
                    opening_of(opening->Data_1.payload())->Ok_0->cid,
                    segments.payload(),
                    leases@,
                ),
                Err(error) => !(error is Reclaim) && h2g_outcome(
                    origin,
                    final(self).h2g_producer,
                    view,
                    Err(error),
                ),
            },
    {
        let mut payload = first;
        let mut leases = first_leases;
        let mut received: usize = payload.len();
        let ghost announcement = opening_of(opening->Data_1.payload());
        let ghost mut chains: Seq<UsedChain> = seq![opening];
        let ghost mut trace: Seq<VirtqProducer<NoopNotifier>> = seq![origin, self.h2g_producer];
        proof {
            assert(Seq::<UsedChain>::empty().push(opening) =~= chains);
            lemma_chains_push(Seq::empty(), opening);
            assert(held(Seq::<UsedChain>::empty()) =~= Seq::<BufferLease>::empty()) by {
                assert(Seq::<UsedChain>::empty().map_values(|c: UsedChain| c->Data_2@)
                    =~= Seq::<Seq<BufferLease>>::empty());
            }
            assert(held(chains) =~= leases@);
            assert(payloads(chains)[0] == opening->Data_1.payload());
            assert(gathered(chains) == first.payload());
            assert(begins_call(chains));
        }
        while received < payload_len
            invariant
                self.wf(),
                old(self).same_but_h2g(*self),
                view.same_bytes(mem.mem()),
                view.same_mapping(mem.mem()),
                old(mem).mem().same_mapping(mem.mem()),
                old(mem).mem().same_bytes(mem.mem()),
                payload.wf(),
                received == payload.payload().len(),
                received <= payload_len,
                origin.polls(self.h2g_producer, view, chains, trace),
                begins_call(chains),
                announced(chains) == announcement,
                announcement == opening_of(opening->Data_1.payload()),
                announcement matches Ok(Opening::Call { len, .. }) && len == payload_len,
                payload.payload() == gathered(chains),
                leases@ == held(chains),
            decreases payload_len - received,
        {
            let ghost before = self.h2g_producer;
            let ghost now = mem.mem();
            let next = self.poll_h2g(mem, true);
            proof {
                lemma_same_poll(before, self.h2g_producer, now, view, next);
            }
            let (token, segments, held_now) = match next {
                Ok(parts) => parts,
                Err(error) => {
                    self.give_up(
                        leases,
                        &error,
                        Ghost(origin),
                        Ghost(before),
                        Ghost(view),
                        Ghost(chains),
                        Ghost(trace),
                    );
                    return Err(error);
                },
            };
            let ghost chain = UsedChain::Data(token, segments, held_now);
            let ghost more = chains.push(chain);
            let ghost longer = trace.push(self.h2g_producer);
            proof {
                producer::lemma_polls_push(
                    origin,
                    before,
                    self.h2g_producer,
                    view,
                    chains,
                    trace,
                    chain,
                );
                lemma_chains_push(chains, chain);
                assert(more.drop_last() =~= chains);
                assert(payloads(more).last() == segments.payload());
            }
            if segments.is_empty() {
                self.reject(
                    held_now,
                    leases,
                    &ContextError::EmptyContinuation,
                    Ghost(origin),
                    Ghost(view),
                    Ghost(more),
                    Ghost(longer),
                );
                return Err(ContextError::EmptyContinuation);
            }
            let len: usize = segments.len();
            let total: usize = match received.checked_add(len) {
                Some(total) => total,
                None => {
                    self.reject(
                        held_now,
                        leases,
                        &ContextError::TooLong { begun: true },
                        Ghost(origin),
                        Ghost(view),
                        Ghost(more),
                        Ghost(longer),
                    );
                    return Err(ContextError::TooLong { begun: true });
                },
            };
            if total > payload_len {
                self.reject(
                    held_now,
                    leases,
                    &ContextError::TooLong { begun: true },
                    Ghost(origin),
                    Ghost(view),
                    Ghost(more),
                    Ghost(longer),
                );
                return Err(ContextError::TooLong { begun: true });
            }
            received = total;
            proof {
                lemma_continues(chains, chain);
                lemma_flatten_concat(payload@, segments@);
                chains = more;
                trace = longer;
            }
            let mut newest = held_now;
            leases.append(&mut newest);
            payload.append(segments);
            proof {
                assert(payload.payload() =~= gathered(chains));
                assert(leases@ =~= held(chains));
            }
        }
        proof {
            assert(whole_call(chains));
            assert(h2g_gathered(
                origin,
                self.h2g_producer,
                view,
                announcement->Ok_0->cid,
                payload.payload(),
                leases@,
            ));
        }
        Ok((payload, leases))
    }

    /// What receiving a host message leads to: completions are taken back from the G2H
    /// queue, and the H2G queue is polled.
    pub open spec fn dispatched(
        self,
        after: GuestContext<N>,
        mem: MemView,
        dispatch: Result<DispatchAction, ContextError>,
    ) -> bool {
        match dispatch {
            Err(ContextError::Reclaim(e)) => self.g2h_producer.reclaims(
                after.g2h_producer,
                mem,
                Err::<usize, VirtqError>(e),
            ) && after.h2g_producer == self.h2g_producer,
            _ => exists|ready: GuestContext<N>|
                {
                    &&& #[trigger] self.reclaimed(ready, mem)
                    &&& after.g2h_producer == ready.g2h_producer
                    &&& h2g_outcome(self.h2g_producer, after.h2g_producer, mem, dispatch)
                },
        }
    }

    /// Receive one host-to-guest dispatch action.
    ///
    /// External `ByteChunks` keep their H2G slots, which the leases hold. Contiguous
    /// `VecBytes` values copy directly into their final `Vec<u8>`. The slots of a message
    /// that is not a valid call are given back at once.
    pub fn recv_h2g_dispatch<M: BufferMap>(&mut self, mem: &mut M) -> (dispatch: Result<
        DispatchAction,
        ContextError,
    >)
        requires
            old(self).wf(),
        ensures
            final(self).wf(),
            final(self).h2g_slot_size == old(self).h2g_slot_size,
            final(self).mbx_gva == old(self).mbx_gva,
            final(self).next_cid == old(self).next_cid,
            old(mem).mem().same_mapping(final(mem).mem()),
            old(mem).mem().same_bytes(final(mem).mem()),
            old(self).dispatched(*final(self), old(mem).mem(), dispatch),
    {
        let ghost view = mem.mem();
        match self.reclaim_g2h(mem) {
            Ok(_) => {},
            Err(error) => return Err(ContextError::Reclaim(error)),
        }
        let ghost ready = *self;
        let ghost now = mem.mem();
        let ghost origin = self.h2g_producer;
        let ghost none = Seq::<UsedChain>::empty();
        let ghost still = seq![origin];
        proof {
            assert(old(self).reclaimed(ready, view));
            assert(origin.polls(origin, view, none, still));
            lemma_nothing_held();
        }
        let next = self.poll_h2g(mem, false);
        proof {
            lemma_same_poll(origin, self.h2g_producer, now, view, next);
        }
        let (token, segments, leases) = match next {
            Ok(parts) => parts,
            Err(error) => {
                self.give_up(
                    Vec::new(),
                    &error,
                    Ghost(origin),
                    Ghost(origin),
                    Ghost(view),
                    Ghost(none),
                    Ghost(still),
                );
                return Err(error);
            },
        };
        let ghost first = UsedChain::Data(token, segments, leases);
        let ghost chains = none.push(first);
        let ghost trace = still.push(self.h2g_producer);
        proof {
            producer::lemma_polls_push(
                origin,
                origin,
                self.h2g_producer,
                view,
                none,
                still,
                first,
            );
            lemma_chains_push(none, first);
            assert(chains.drop_last() =~= none);
            assert(held(chains) =~= leases@);
            assert(payloads(chains)[0] == segments.payload());
        }
        let (cid, payload_len, payload) = match start_dispatch(segments) {
            Ok(Started::Checkpoint) => {
                let ghost polled = self.h2g_producer;
                release_leases(&mut self.h2g_producer.pool, leases);
                proof {
                    assert(context::leases_returned(polled, self.h2g_producer, held(chains)));
                    assert(dispatch_from(
                        polled,
                        self.h2g_producer,
                        view,
                        chains,
                        Ok(DispatchAction::SnapshotCheckpoint),
                    ));
                }
                return Ok(DispatchAction::SnapshotCheckpoint);
            },
            Ok(Started::Call { cid, payload_len, payload }) => (cid, payload_len, payload),
            Err(error) => {
                self.reject(
                    leases,
                    Vec::new(),
                    &error,
                    Ghost(origin),
                    Ghost(view),
                    Ghost(chains),
                    Ghost(trace),
                );
                return Err(error);
            },
        };
        let (whole, leases) = match self.recv_continuation(
            mem,
            payload,
            payload_len,
            leases,
            Ghost(origin),
            Ghost(view),
            Ghost(first),
        ) {
            Ok(parts) => parts,
            Err(error) => return Err(error),
        };
        let ghost message = whole.payload();
        let ghost queue = self.h2g_producer;
        let ghost kept = leases@;
        let decoded = decode_request(whole);
        proof {
            let (all, states) = choose|
                chains: Seq<UsedChain>,
                trace: Seq<VirtqProducer<NoopNotifier>>,
            | #[trigger]
                origin.polls(queue, view, chains, trace) && whole_call(chains)
                    && announced(chains)->Ok_0->cid == cid && gathered(chains) == message
                    && held(chains) == kept;
            assert(origin.polls(queue, view, all, states));
        }
        match decoded {
            Ok(call) => Ok(DispatchAction::Call(cid, call, leases)),
            Err(error) => {
                release_leases(&mut self.h2g_producer.pool, leases);
                proof {
                    assert(context::leases_returned(queue, self.h2g_producer, kept));
                }
                Err(ContextError::Codec(error))
            },
        }
    }
}

/// No chain holds a lease.
proof fn lemma_nothing_held()
    ensures
        held(Seq::empty()) == Seq::<BufferLease>::empty(),
{
    assert(Seq::<UsedChain>::empty().map_values(|c: UsedChain| c->Data_2@)
        =~= Seq::<Seq<BufferLease>>::empty());
}

/// A poll depends on the bytes in memory only.
proof fn lemma_same_poll(
    before: VirtqProducer<NoopNotifier>,
    after: VirtqProducer<NoopNotifier>,
    a: MemView,
    b: MemView,
    received: Result<(Token, Segments, Vec<BufferLease>), ContextError>,
)
    requires
        b.same_bytes(a),
        b.same_mapping(a),
        received_from(before, after, a, received),
    ensures
        received_from(before, after, b, received),
{
    context::lemma_ring_mapping(b, a, before.inner.layout);
    match received {
        Ok((token, segments, leases)) => {
            let chain = UsedChain::Data(token, segments, leases);
            producer::lemma_poll_same(before, after, a, b, Ok(Some(chain)));
        },
        Err(ContextError::AckOnly { .. }) => {
            let token = choose|token: Token| #[trigger]
                before.poll_result(after, a, Ok(Some(UsedChain::Ack(token))));
            producer::lemma_poll_same(before, after, a, b, Ok(Some(UsedChain::Ack(token))));
        },
        Err(ContextError::NoChain { .. }) => {
            producer::lemma_poll_same(before, after, a, b, Ok(None));
        },
        Err(ContextError::Poll(e)) => {
            if before.poll_result(after, a, Err(e)) {
                producer::lemma_poll_same(before, after, a, b, Err(e));
            }
        },
        Err(_) => {},
    }
}

} // verus!
