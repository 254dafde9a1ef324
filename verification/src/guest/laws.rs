//! What holds of messages from one side to the other.

use vstd::prelude::*;
use vstd::seq_lib::*;

use super::codec;
use super::codec::CodecError;
use super::context;
use super::context::{ContextError, GuestContext, QueueConfig, ReplyCapacity};
use super::posting;
use super::posting::Stage;
use super::queues;
use super::receiving;
use super::receiving::{DispatchAction, Opening, Verdict};
use super::sending;
use super::sending::{Attempt, SendStep};
use crate::flatbuffer_wrappers::function_call;
use crate::flatbuffer_wrappers::function_call::{CallView, FunctionCall};
use crate::flatbuffer_wrappers::function_result::{FunctionCallResult, ResultView};
use crate::flatbuffer_wrappers::function_types::{ReturnType, ReturnValue, WireError};
use crate::flatbuffer_wrappers::values;
use crate::le;
use crate::transport;
use crate::transport::{EncodedMessage, ExternalView, MsgHeader, MsgKind};
use crate::virtq::access::MemView;
use crate::virtq::builder;
use crate::virtq::entries;
use crate::virtq::facts;
use crate::virtq::pool::slot::PoolView;
use crate::virtq::send;
use crate::virtq::{
    BufferLease, ChainBuilder, NoopNotifier, Notifier, SendChain, Token, UsedChain, VirtqError,
    VirtqProducer,
};

verus! {

/// The parts of a message are the whole of it: a header of twelve bytes that says how long
/// the payload behind it is.
pub proof fn law_message_parts_make_up_the_message(message: Seq<u8>)
    ensures
        match codec::message_parts(message) {
            Ok((kind, cid, payload)) => {
                &&& message.len() == 12 + payload.len()
                &&& message == message.take(12) + payload
                &&& MsgHeader::of_wire(message.take(12)) == Some((kind, cid, payload.len() as u32))
                &&& payload.len() <= u32::MAX
            },
            Err(CodecError::MissingHeader) => message.len() < 12,
            Err(CodecError::InvalidHeader) => message.len() >= 12 && MsgHeader::of_wire(
                message.take(12),
            ) is None,
            Err(CodecError::LengthMismatch) => message.len() >= 12 && (MsgHeader::of_wire(
                message.take(12),
            ) matches Some((_, _, len)) && len != message.len() - 12),
            Err(_) => false,
        },
{
    if codec::message_parts(message) is Ok {
        assert(message =~= message.take(12) + message.skip(12));
    }
}

/// The parts of a payload are the whole of it: control data behind a prefix that says how
/// long it is, and the byte values.
pub proof fn law_payload_parts_make_up_the_payload(payload: Seq<u8>)
    requires
        payload.len() <= usize::MAX,
    ensures
        match codec::payload_parts(payload) {
            Ok((control, rest)) => {
                &&& payload == control + rest
                &&& control.len() == 4 + le::le32(control.take(4))
            },
            Err(_) => payload.len() < 4 || payload.len() < 4 + le::le32(payload.take(4)),
        },
        payload.len() < 4 <==> codec::payload_parts(payload) == Err::<
            (Seq<u8>, Seq<u8>),
            CodecError,
        >(CodecError::MissingPrefix),
{
    if let Ok((control, rest)) = codec::payload_parts(payload) {
        assert(payload =~= control + rest);
        assert(control.take(4) =~= payload.take(4));
    }
}

/// A response is accepted only where it answers the request that waits for it.
pub proof fn law_response_answers_its_own_request(message: Seq<u8>, cid: u32)
    ensures
        codec::response_of(message, cid) is Ok ==> message.len() >= 12 && MsgHeader::of_wire(
            message.take(12),
        ) == Some((MsgKind::Response, cid, (message.len() - 12) as u32)),
        codec::message_parts(message) matches Ok((kind, answered, _)) ==> {
            &&& kind != MsgKind::Response ==> codec::response_of(message, cid) == Err::<
                ResultView,
                CodecError,
            >(CodecError::NotAResponse)
            &&& kind == MsgKind::Response && answered != cid ==> codec::response_of(message, cid)
                == Err::<ResultView, CodecError>(CodecError::CidMismatch)
        },
{
    law_message_parts_make_up_the_message(message);
}

/// The answer to one request is refused as the answer to another.
pub proof fn law_framed_result_answers_no_other_request(
    message: EncodedMessage<'_>,
    cid: u32,
    other: u32,
    result: FunctionCallResult,
    externals: ExternalView,
)
    requires
        queues::carries_result(message, cid, result, externals),
        sending::result_externals(result) == Ok::<ExternalView, WireError>(externals),
        message.wire().len() <= usize::MAX,
        other != cid,
    ensures
        codec::response_of(message.wire(), other) == Err::<ResultView, CodecError>(
            CodecError::CidMismatch,
        ),
{
    queues::law_framed_result_is_decoded(message, cid, result, externals);
    law_response_answers_its_own_request(message.wire(), cid);
    law_message_parts_make_up_the_message(message.wire());
}

/// While a request waits for its reply: an acknowledgement of another message is passed over,
/// one of its own says that no reply comes, the data of another message is refused, and no
/// slot is forgotten.
pub proof fn law_waiting_request_takes_its_own_reply_only(
    chain: UsedChain,
    token: Token,
    cid: u32,
    verdict: Verdict,
)
    requires
        receiving::judged(chain, token, cid, verdict),
    ensures
        verdict is Skip <==> chain is Ack && chain->Ack_0 != token,
        chain is Ack && chain->Ack_0 == token ==> verdict is Fail && verdict->Fail_0 == (
        ContextError::AckOnly { begun: false }),
        chain matches UsedChain::Data(t, segments, leases) ==> {
            &&& t != token ==> verdict is Fail && verdict->Fail_0 == ContextError::UnexpectedReply
            &&& verdict is Reply ==> t == token && verdict->Reply_1 == leases
            &&& verdict is Fail ==> verdict->Fail_1 == leases
            &&& t == token ==> (verdict is Reply <==> codec::response_of(
                segments.payload(),
                cid,
            ) is Ok)
        },
{
}

/// However much of a framed request the first buffer holds, it announces the request's
/// identifier and how much payload is to come.
pub proof fn law_first_buffer_announces_the_request(
    message: EncodedMessage<'_>,
    cid: u32,
    len: u32,
    cut: int,
)
    requires
        message.wf(),
        message.header_view().holds(MsgKind::Request, cid, len),
        cid != 0,
        12 <= cut <= message.wire().len(),
    ensures
        receiving::opening_of(message.wire().take(cut)) == Ok::<Opening, ContextError>(
            Opening::Call {
                cid,
                len: (message.wire().len() - 12) as nat,
                payload: message.wire().subrange(12, cut),
            },
        ),
{
    message.lemma_wire_len();
    let header = message.header_view();
    transport::law_header_round_trip(header, MsgKind::Request, cid, len);
    let wire = message.wire();
    let first = wire.take(cut);
    assert(first.take(12) =~= header.to_wire());
    assert(first.skip(12) =~= wire.subrange(12, cut));
}

/// A first buffer begins a call only with the header of a request that has an identifier, and
/// holds no more than that header announces.
pub proof fn law_opening_is_what_the_header_says(first: Seq<u8>)
    ensures
        match receiving::opening_of(first) {
            Ok(Opening::Checkpoint) => first.len() >= 12 && (MsgHeader::of_wire(
                first.take(12),
            ) matches Some((kind, _, _)) && kind == MsgKind::SnapshotCheckpoint),
            Ok(Opening::Call { cid, len, payload }) => {
                &&& cid != 0
                &&& first == first.take(12) + payload
                &&& payload.len() <= len <= u32::MAX
                &&& MsgHeader::of_wire(first.take(12)) == Some((MsgKind::Request, cid, len as u32))
            },
            Err(ContextError::TooLong { begun }) => !begun && (MsgHeader::of_wire(
                first.take(12),
            ) matches Some((_, _, len)) && first.len() > 12 + len),
            Err(ContextError::Framing) => MsgHeader::of_wire(first.take(12)) matches Some(
                (kind, cid, _),
            ) && kind != MsgKind::SnapshotCheckpoint && (kind != MsgKind::Request || cid == 0),
            Err(ContextError::Header(error)) => if first.len() < 12 {
                error == CodecError::MissingHeader
            } else {
                error == CodecError::InvalidHeader && MsgHeader::of_wire(first.take(12)) is None
            },
            Err(_) => false,
        },
{
    if receiving::opening_of(first) is Ok {
        assert(first =~= first.take(12) + first.skip(12));
    }
}

/// It does not matter how a message is cut into buffers: what they hold together is the
/// message without its header.
pub proof fn law_cuts_leave_the_payload_whole(chains: Seq<UsedChain>)
    requires
        chains.len() > 0,
        receiving::payloads(chains)[0].len() >= 12,
    ensures
        receiving::gathered(chains) == receiving::payloads(chains).flatten().skip(12),
{
    let parts = receiving::payloads(chains);
    let rest = parts.drop_first().flatten();
    assert(parts.flatten() == parts[0] + rest);
    assert((parts[0] + rest).skip(12) =~= parts[0].skip(12) + rest);
}

/// A framed request that arrives in buffers, none of them empty, is a whole call once all of
/// its bytes are there, and not before.
pub proof fn law_request_is_whole_when_all_of_it_arrived(
    message: EncodedMessage<'_>,
    cid: u32,
    len: u32,
    chains: Seq<UsedChain>,
    cut: int,
)
    requires
        message.wf(),
        message.header_view().holds(MsgKind::Request, cid, len),
        cid != 0,
        chains.len() > 0,
        forall|i: int| 0 <= i < chains.len() ==> (#[trigger] chains[i]) is Data,
        forall|i: int|
            0 < i < chains.len() ==> (#[trigger] receiving::payloads(chains)[i]).len() > 0,
        receiving::payloads(chains)[0].len() >= 12,
        0 <= cut <= message.wire().len(),
        receiving::payloads(chains).flatten() == message.wire().take(cut),
    ensures
        receiving::begins_call(chains),
        receiving::whole_call(chains) <==> cut == message.wire().len(),
        receiving::awaits_more(chains) <==> cut < message.wire().len(),
        receiving::announced(chains)->Ok_0->cid == cid,
        receiving::gathered(chains) == message.wire().subrange(12, cut),
{
    let parts = receiving::payloads(chains);
    let wire = message.wire();
    let first = parts[0];
    let rest = parts.drop_first().flatten();
    law_cuts_leave_the_payload_whole(chains);
    assert(parts.flatten() == first + rest);
    assert(first =~= wire.take(first.len() as int)) by {
        assert forall|i: int| 0 <= i < first.len() implies first[i] == wire[i] by {
            assert((first + rest)[i] == wire.take(cut)[i]);
        }
    }
    law_first_buffer_announces_the_request(message, cid, len, first.len() as int);
    assert(wire.take(cut).skip(12) =~= wire.subrange(12, cut));
}

/// A framed call that arrived whole is dispatched as the call that was made, under its
/// identifier, or refused where it has more parameters than a check visits.
pub proof fn law_call_that_arrived_is_the_call_that_was_made(
    queue: VirtqProducer<NoopNotifier>,
    after: VirtqProducer<NoopNotifier>,
    mem: MemView,
    message: EncodedMessage<'_>,
    cid: u32,
    call: FunctionCall,
    externals: ExternalView,
    chains: Seq<UsedChain>,
    dispatch: Result<DispatchAction, ContextError>,
)
    requires
        sending::carries_call(message, MsgKind::Request, cid, call, externals),
        sending::call_externals(call) == Ok::<ExternalView, WireError>(externals),
        message.wire().len() <= usize::MAX,
        cid != 0,
        chains.len() > 0,
        forall|i: int| 0 <= i < chains.len() ==> (#[trigger] chains[i]) is Data,
        forall|i: int|
            0 < i < chains.len() ==> (#[trigger] receiving::payloads(chains)[i]).len() > 0,
        receiving::payloads(chains)[0].len() >= 12,
        receiving::payloads(chains).flatten() == message.wire(),
        receiving::dispatch_from(queue, after, mem, chains, dispatch),
    ensures
        dispatch matches Ok(DispatchAction::Call(answered, received, leases)) ==> {
            &&& call.checkable()
            &&& answered == cid
            &&& received.call_view() == function_call::delivered(call.call_view())
            &&& leases@ == receiving::held(chains)
        },
        call.checkable() ==> dispatch is Ok && dispatch->Ok_0 is Call,
        !call.checkable() ==> dispatch == Err::<DispatchAction, ContextError>(
            ContextError::Codec(CodecError::Wire(WireError::Buffer)),
        ),
{
    let wire = message.wire();
    let len = message.header_view().payload_len;
    assert(wire.take(wire.len() as int) =~= wire);
    law_request_is_whole_when_all_of_it_arrived(message, cid, len, chains, wire.len() as int);
    queues::law_framed_call_is_decoded(message, cid, call, externals);
    law_message_parts_make_up_the_message(wire);
    assert(wire.subrange(12, wire.len() as int) =~= wire.skip(12));
    let (kind, c, payload) = codec::message_parts(wire)->Ok_0;
    assert(payload == receiving::gathered(chains)) by {
        assert(payload =~= wire.skip(12));
    }
    lemma_earlier_part(message, cid, len, chains);
}

/// Whatever comes before the last buffer of a request is a part of it.
proof fn lemma_earlier_part(
    message: EncodedMessage<'_>,
    cid: u32,
    len: u32,
    chains: Seq<UsedChain>,
)
    requires
        message.wf(),
        message.header_view().holds(MsgKind::Request, cid, len),
        cid != 0,
        chains.len() > 0,
        forall|i: int| 0 <= i < chains.len() ==> (#[trigger] chains[i]) is Data,
        forall|i: int|
            0 < i < chains.len() ==> (#[trigger] receiving::payloads(chains)[i]).len() > 0,
        receiving::payloads(chains)[0].len() >= 12,
        receiving::payloads(chains).flatten() == message.wire(),
    ensures
        chains.len() > 1 ==> receiving::payloads(chains).last().len() > 0,
        receiving::announced(chains) is Ok,
        receiving::gathered(chains).len() <= receiving::announced(chains)->Ok_0->len,
        !(receiving::announced(chains) == Ok::<Opening, ContextError>(Opening::Checkpoint)),
{
    let wire = message.wire();
    assert(wire.take(wire.len() as int) =~= wire);
    law_request_is_whole_when_all_of_it_arrived(message, cid, len, chains, wire.len() as int);
    let parts = receiving::payloads(chains);
    if chains.len() > 1 {
        assert(parts[chains.len() - 1] == parts.last());
    }
}

/// A log message carries the record, and asks for no answer.
pub proof fn law_log_message_carries_the_record(message: EncodedMessage<'_>, log_data: Seq<u8>)
    requires
        queues::carries_log(message, log_data),
    ensures
        codec::message_parts(message.wire()) == Ok::<(MsgKind, u32, Seq<u8>), CodecError>(
            (MsgKind::Log, 0, log_data),
        ),
{
    message.lemma_wire_len();
    let header = message.header_view();
    transport::law_header_round_trip(header, MsgKind::Log, 0, header.payload_len);
    let wire = message.wire();
    let none = message.external_values();
    assert(none =~= Seq::<Seq<u8>>::empty());
    assert(none.flatten() =~= Seq::<u8>::empty());
    assert(wire.take(12) =~= header.to_wire());
    assert(wire.skip(12) =~= log_data);
}

/// Whether a result is a value of a type.
pub open spec fn is_of(value: ReturnValue, kind: ReturnType) -> bool {
    match kind {
        ReturnType::Int => value is Int,
        ReturnType::UInt => value is UInt,
        ReturnType::Long => value is Long,
        ReturnType::ULong => value is ULong,
        ReturnType::Float => value is Float,
        ReturnType::Double => value is Double,
        ReturnType::String => value is String,
        ReturnType::Bool => value is Bool,
        ReturnType::Void => value is Void,
        ReturnType::VecBytes => value is VecBytes,
        ReturnType::ByteChunks => value is ByteChunks,
    }
}

/// A reply whose capacity is bounded has room for every value of its type, and a type that
/// has values of any length is given whatever there is.
pub proof fn law_reply_has_room_for_its_type(kind: ReturnType, value: ReturnValue)
    ensures
        is_of(value, kind) ==> match ReplyCapacity::suits(kind) {
            ReplyCapacity::Nothing => false,
            ReplyCapacity::Bounded(cap) => MsgHeader::SIZE + FunctionCallResult(
                Ok(value),
            ).flat_cost() <= cap,
            ReplyCapacity::Available => value is String || value is VecBytes || value is ByteChunks,
        },
        ReplyCapacity::suits(kind) is Available <==> kind == ReturnType::String || kind
            == ReturnType::VecBytes || kind == ReturnType::ByteChunks,
{
}

/// The reply that arrived for a request is the result that the host returned: the value, or
/// the error with its code and message. Slots are held only where a chunked value lies in
/// them.
pub proof fn law_reply_that_arrived_is_the_result<N: Notifier>(
    queue: VirtqProducer<N>,
    after: VirtqProducer<N>,
    message: EncodedMessage<'_>,
    cid: u32,
    result: FunctionCallResult,
    externals: ExternalView,
    chain: UsedChain,
    token: Token,
    reply: Result<(ReturnValue, Vec<BufferLease>), ContextError>,
)
    requires
        queues::carries_result(message, cid, result, externals),
        sending::result_externals(result) == Ok::<ExternalView, WireError>(externals),
        message.wire().len() <= usize::MAX,
        chain matches UsedChain::Data(t, segments, _) && t == token && segments.payload()
            == message.wire(),
        receiving::concluded(queue, after, chain, token, cid, reply),
    ensures
        match (result.0, reply) {
            (Ok(value), Ok((received, kept))) => {
                &&& received@ == values::kept(value@)
                &&& kept@ == if value is ByteChunks {
                    chain->Data_2@
                } else {
                    Seq::empty()
                }
            },
            (Err(error), Err(ContextError::Guest(received))) => received.code == error.code
                && received.message@ == error.message@,
            _ => false,
        },
{
    queues::law_framed_result_is_decoded(message, cid, result, externals);
    if let Ok((received, kept)) = reply {
        if !(received is ByteChunks) {
            assert(kept@ =~= Seq::<BufferLease>::empty());
        }
    }
}

/// A message that went out is in flight under its token: its readable buffers hold all of it,
/// and its writable ones the room that its reply was to have. A reply of any length has every
/// buffer that the ring or the pool could give.
pub proof fn law_sent_message_has_room_for_its_reply<N: Notifier>(
    ctx: GuestContext<N>,
    after: GuestContext<N>,
    before: MemView,
    mem: MemView,
    message: EncodedMessage<'_>,
    reply: ReplyCapacity,
    token: Token,
)
    requires
        ctx.wf(),
        message.wf(),
        message.wire().len() <= usize::MAX,
        ctx.sent(after, before, mem, message, reply, token),
    ensures
        ({
            let queue = ctx.g2h_producer;
            let sent = after.g2h_producer.inflight.chains().last();
            let records = sent.chain.buffers@;
            let readable = sent.chain.readable as int;
            let room = send::capacity_sum(records.skip(readable));
            &&& after.g2h_producer.inflight.chains().drop_last() == queue.inflight.chains()
            &&& sent.token == token
            &&& send::capacity_sum(records.take(readable)) == message.wire().len()
            &&& match reply {
                ReplyCapacity::Nothing => readable == records.len(),
                ReplyCapacity::Bounded(cap) => room >= cap,
                ReplyCapacity::Available => room >= ctx.segment_len() && (records.len()
                    == queue.inner.num_free || after.g2h_producer.pool@.upper.free.len() == 0),
            }
        }),
{
    reveal(GuestContext::sent);
    let (request, chain, ready, filled) = choose|
        request: ChainBuilder,
        chain: SendChain,
        ready: VirtqProducer<N>,
        filled: MemView,
    |
        {
            &&& #[trigger] ctx.requests(request, message, reply)
            &&& context::taken(request, ctx.g2h_producer.pool@, ready.pool@, chain)
            &&& context::same_but_pool(ctx.g2h_producer, ready)
            &&& chain.wf()
            &&& chain.payload(filled) == message.wire()
            &&& context::same_elsewhere(before, filled, chain)
            &&& #[trigger] ready.sends(after.g2h_producer, filled, mem, chain)
            &&& token == ready.next()
        };
    let pool = ctx.g2h_producer.pool@;
    ctx.g2h_producer.pool.lemma_wf_view();
    message.lemma_wire_len();
    let records = chain.owned.buffers@;
    builder::lemma_records_have_room(request, pool, records);
    context::law_message_regions_hold_the_message(
        (12 + message.control_view().len()) as nat,
        message.external_values().flatten().len(),
        ctx.segment_len(),
    );
    context::law_reply_is_given_the_room_it_asks_for(
        request,
        ctx.regions(message),
        reply,
        ctx.segment_len(),
        ctx.g2h_producer.inner.num_free,
    );
    let chains = ready.inflight.chains();
    let sent = after.g2h_producer.inflight.chains();
    assert(sent.drop_last() =~= chains);
    assert(sent.last().chain == chain.owned);
}

/// Only a first attempt waits for the host to drain the queue; an error that waiting could
/// mend is not reported by it, and a second attempt is not put off again.
pub proof fn law_only_the_first_attempt_waits<N: Notifier>(
    ctx: GuestContext<N>,
    after: GuestContext<N>,
    before: MemView,
    mem: MemView,
    message: EncodedMessage<'_>,
    reply: ReplyCapacity,
    attempt: Attempt,
    step: SendStep,
)
    requires
        ctx.stepped(after, before, mem, message, reply, attempt, step),
    ensures
        step is Drain ==> attempt is First,
        attempt is First ==> match step {
            SendStep::Failed(error) => error matches ContextError::Send(e) && e
                != VirtqError::Backpressure,
            _ => true,
        },
        attempt is AfterDrain ==> match step {
            SendStep::Failed(error) => error is Reclaim || error is Retry,
            SendStep::Sent(_) => true,
            SendStep::Drain => false,
        },
{
}

/// A stage of posting keeps the pool's slots in place.
proof fn lemma_posting_keeps_the_pool(stages: Seq<Stage>, slot: usize, i: int)
    requires
        posting::posts(stages, slot),
        0 <= i < stages.len(),
        stages[0].queue.pool@.wf(),
        stages[0].queue.pool@.lower is None,
    ensures
        stages[i].queue.pool@.wf(),
        stages[i].queue.pool@.lower is None,
        stages[i].queue.pool@.upper.layout == stages[0].queue.pool@.upper.layout,
        stages[i].queue.inner.layout == stages[0].queue.inner.layout,
        stages[i].queue.inflight.ids() == stages[0].queue.inflight.ids(),
    decreases i,
{
    if i > 0 {
        lemma_posting_keeps_the_pool(stages, slot, i - 1);
        let before = stages[i - 1].queue;
        let after = stages[i].queue;
        assert(posting::posted(before, after, stages[i - 1].mem, stages[i].mem, slot));
        let (request, chain, ready) = choose|
            request: ChainBuilder,
            chain: SendChain,
            ready: VirtqProducer<NoopNotifier>,
        |
            {
                &&& before.wf()
                &&& posting::asks_for_buffer(request, slot, before.inner.num_free)
                &&& #[trigger] context::taken(request, before.pool@, ready.pool@, chain)
                &&& context::same_but_pool(before, ready)
                &&& #[trigger] ready.sends(after, stages[i - 1].mem, stages[i].mem, chain)
            };
        builder::lemma_pool_layout(before.pool@, request.all_lens(before.pool@));
        entries::lemma_answers_live(before.pool@, request.all_lens(before.pool@));
    }
}

/// Receive buffers of a slot each are posted until the ring has no descriptor left, the pool
/// has no slot left, or as many chains are in flight as there can be.
pub proof fn law_receive_buffers_are_posted_until_something_runs_out(
    queue: VirtqProducer<NoopNotifier>,
    after: VirtqProducer<NoopNotifier>,
    before_mem: MemView,
    after_mem: MemView,
    slot: usize,
)
    requires
        queue.wf(),
        queue.pool@.lower is None,
        queue.pool@.upper.layout.size() == slot,
        posting::prefills(queue, after, before_mem, after_mem, slot, Ok(())),
    ensures
        ({
            ||| after.inner.num_free == 0
            ||| after.pool@.upper.free.len() == 0
            ||| after.inflight.chains().len() == queue.inflight.ids()
        }),
{
    queue.pool.lemma_wf_view();
    let stages = choose|stages: Seq<Stage>|
        {
            &&& #[trigger] posting::posts(stages, slot)
            &&& stages.len() > 0
            &&& stages[0].queue == queue
            &&& stages[0].mem == before_mem
            &&& stages.last().mem == after_mem
            &&& posting::post_refused(
                stages.last().queue,
                after,
                stages.last().mem,
                slot,
                VirtqError::Backpressure,
            )
        };
    let last = stages.last().queue;
    lemma_posting_keeps_the_pool(stages, slot, stages.len() - 1);
    let request = choose|request: ChainBuilder| #[trigger]
        posting::asks_for_buffer(request, slot, last.inner.num_free) && context::turned_away(
            last,
            after,
            request,
            after_mem,
            VirtqError::Backpressure,
        );
    let pool = last.pool@;
    let none = Seq::<usize>::empty();
    assert(request.rd_caps@ =~= none);
    let regions = request.rd_caps@ + request.wr_caps@;
    assert(regions =~= seq![slot]);
    assert(builder::slots_needed(regions, slot as int) == 1) by {
        reveal_with_fuel(builder::slots_needed, 2);
        assert(regions.drop_last() =~= none);
        vstd::arithmetic::div_mod::lemma_fundamental_div_mod_converse(
            slot + slot - 1,
            slot as int,
            1,
            slot - 1,
        );
    }
    builder::law_requests_are_refused_for_these_reasons(request, pool);
    if request.request_error(pool) is None {
        builder::law_explicit_request_takes_what_it_needs(request, pool);
        if pool.upper.free.len() > 0 {
            assert(entries::answers(pool, request.plan(pool).lens) is Some);
            assert(!context::refused(request, pool, VirtqError::Backpressure));
            let (chain, ready) = choose|chain: SendChain, ready: VirtqProducer<NoopNotifier>|
                {
                    &&& #[trigger] context::taken(request, last.pool@, ready.pool@, chain)
                    &&& context::same_but_pool(last, ready)
                    &&& {
                        let count = chain.owned.buffers@.len() as int;
                        ||| ready.may_refuse(count, VirtqError::Backpressure) && ready.refuses(
                            after,
                            chain,
                        )
                        ||| ready.publish_error(count) is None && VirtqError::Backpressure is RingError
                            && !ready.inner.layout.mapped_in(after_mem) && ready.tracks(
                            after,
                            chain,
                        )
                    }
                };
            assert(ready.inflight.chains().len() == ready.inflight.ids());
        }
    } else {
        assert(regions[0] == slot);
    }
}

/// What was taken for a chain and given back leaves the pool as it was.
proof fn lemma_taken_and_returned(
    request: ChainBuilder,
    before: PoolView,
    after: PoolView,
    chain: SendChain,
)
    requires
        before.wf(),
        context::taken(request, before, after, chain),
    ensures
        entries::released(after, entries::addrs_of(chain.owned.buffers@)) == before,
{
    let lens = request.all_lens(before);
    let given = entries::answers(before, lens)->0;
    entries::lemma_answers_live(before, lens);
    entries::lemma_answers_release(before, lens);
    let addrs = entries::addrs_of(chain.owned.buffers@);
    assert forall|i: int| 0 <= i < lens.len() implies addrs[i] == #[trigger] entries::allocation_addrs(
        given,
    )[i] by {
        assert(chain.owned.buffers@[i].addr == builder::entries_for(
            lens,
            given,
            request.plan(before).readable,
        )[i].addr);
    }
    assert(addrs =~= entries::allocation_addrs(given));
}

/// A message that is refused leaves the queue as it was: its ring, its chains in flight and
/// every slot of its pool, unless memory failed while the message went out.
pub proof fn law_refused_message_leaves_the_queue_alone<N: Notifier>(
    ctx: GuestContext<N>,
    after: GuestContext<N>,
    mem: MemView,
    message: EncodedMessage<'_>,
    reply: ReplyCapacity,
    error: VirtqError,
)
    requires
        ctx.wf(),
        ctx.send_error(after, mem, message, reply, error),
        !(error is RingError),
    ensures
        after.g2h_producer.pool@ == ctx.g2h_producer.pool@,
        after.g2h_producer.inner == ctx.g2h_producer.inner,
        after.g2h_producer.next_token == ctx.g2h_producer.next_token,
        after.g2h_producer.inflight.chains() == ctx.g2h_producer.inflight.chains(),
        after.g2h_producer.pending == ctx.g2h_producer.pending,
        after.g2h_producer.notifier == ctx.g2h_producer.notifier,
{
    reveal(GuestContext::send_error);
    let queue = ctx.g2h_producer;
    queue.pool.lemma_wf_view();
    let request = choose|request: ChainBuilder| #[trigger]
        ctx.requests(request, message, reply) && {
            ||| context::turned_away(queue, after.g2h_producer, request, mem, error)
            ||| error == VirtqError::MemoryWriteError && ctx.write_refused(request, after, mem)
        };
    if context::publish_refused(queue, after.g2h_producer, request, mem, error) {
        let (chain, ready) = choose|chain: SendChain, ready: VirtqProducer<N>|
            {
                &&& #[trigger] context::taken(request, queue.pool@, ready.pool@, chain)
                &&& context::same_but_pool(queue, ready)
                &&& {
                    let count = chain.owned.buffers@.len() as int;
                    ||| ready.may_refuse(count, error) && ready.refuses(after.g2h_producer, chain)
                    ||| ready.publish_error(count) is None && error is RingError
                        && !ready.inner.layout.mapped_in(mem) && ready.tracks(
                        after.g2h_producer,
                        chain,
                    )
                }
            };
        lemma_taken_and_returned(request, queue.pool@, ready.pool@, chain);
    } else if !context::turned_away(queue, after.g2h_producer, request, mem, error) {
        let (chain, pool) = choose|chain: SendChain, pool: PoolView|
            {
                &&& #[trigger] context::taken(request, queue.pool@, pool, chain)
                &&& !send::entries_mapped(mem, chain.readable())
                &&& context::same_but_pool(queue, after.g2h_producer)
                &&& after.g2h_producer.pool@ == entries::released(
                    pool,
                    entries::addrs_of(chain.owned.buffers@),
                )
            };
        lemma_taken_and_returned(request, queue.pool@, pool, chain);
    }
}

/// A payload fits a message exactly when the header can tell its length and the whole can be
/// counted.
pub proof fn law_payload_fits_where_the_header_can_tell_it(control: nat, externals: nat)
    ensures
        sending::frames(control, externals) ==> control + externals <= 0xffff_ffff && MsgHeader::SIZE
            + control + externals <= usize::MAX,
        control + externals <= 0xffff_ffff && MsgHeader::SIZE + control + externals <= usize::MAX
            ==> sending::frames(control, externals),
{
}

/// The host that is told of a full queue is told once, with what the queue holds, and nothing
/// else changes.
pub proof fn law_full_queue_is_told_once<N: Notifier>(
    ctx: GuestContext<N>,
    after: GuestContext<N>,
)
    requires
        ctx.g2h_producer.inner.wf(),
        ctx.alerted(after),
    ensures
        ({
            let before = ctx.g2h_producer.notifier.sent();
            let sent = after.g2h_producer.notifier.sent();
            &&& sent.len() == before.len() + 1
            &&& sent.drop_last() == before
            &&& sent.last().num_free == ctx.g2h_producer.inner.num_free
        }),
        after.g2h_producer.pool == ctx.g2h_producer.pool,
        after.g2h_producer.inflight == ctx.g2h_producer.inflight,
        after.g2h_producer.inner == ctx.g2h_producer.inner,
{
    let before = ctx.g2h_producer.notifier.sent();
    let sent = after.g2h_producer.notifier.sent();
    assert(sent.drop_last() =~= before);
}

/// A new context has two unused queues, no buffer handed out in the one that it sends with,
/// and identifiers that begin with one.
pub proof fn law_new_context_has_sent_nothing<N: Notifier>(
    ctx: GuestContext<N>,
    notifier: N,
    g2h: QueueConfig,
    h2g: QueueConfig,
    mbx_gva: u64,
    before_mem: MemView,
    after_mem: MemView,
)
    requires
        queues::created(Ok(ctx), notifier, g2h, h2g, mbx_gva, before_mem, after_mem),
    ensures
        ctx.next_cid == 1,
        ctx.mbx_gva == mbx_gva,
        ctx.h2g_slot_size == h2g.buffer_size,
        ctx.g2h_producer.notifier == notifier,
        ctx.g2h_producer.inflight.chains().len() == 0,
        ctx.g2h_producer.pending@.len() == 0,
        ctx.g2h_producer.inner.num_free == g2h.layout.descs(),
        ctx.g2h_producer.pool@.num_live() == 0,
{
}

/// Receive buffers of a new context are posted until its ring or its pool runs out, or as
/// many are in flight as there can be.
pub proof fn law_new_context_can_receive<N: Notifier>(
    ctx: GuestContext<N>,
    notifier: N,
    g2h: QueueConfig,
    h2g: QueueConfig,
    mbx_gva: u64,
    before_mem: MemView,
    after_mem: MemView,
)
    requires
        queues::created(Ok(ctx), notifier, g2h, h2g, mbx_gva, before_mem, after_mem),
    ensures
        exists|queue: VirtqProducer<NoopNotifier>| #[trigger]
            queues::new_h2g(queue, h2g) && (queue.wf() ==> {
                ||| ctx.h2g_producer.inner.num_free == 0
                ||| ctx.h2g_producer.pool@.upper.free.len() == 0
                ||| ctx.h2g_producer.inflight.chains().len() == queue.inflight.ids()
            }),
{
    let queue = choose|queue: VirtqProducer<NoopNotifier>| #[trigger]
        queues::new_h2g(queue, h2g) && posting::prefills(
            queue,
            ctx.h2g_producer,
            before_mem,
            after_mem,
            h2g.buffer_size,
            Ok(()),
        );
    if queue.wf() {
        law_receive_buffers_are_posted_until_something_runs_out(
            queue,
            ctx.h2g_producer,
            before_mem,
            after_mem,
            h2g.buffer_size,
        );
    }
}

/// After a snapshot was prepared, the mailbox tells how many slots the guest still holds in
/// both pools, and neither queue has a chain in flight when it does.
pub proof fn law_snapshot_publishes_what_is_held<N: Notifier>(
    ctx: GuestContext<N>,
    after: GuestContext<N>,
    before: MemView,
    mem: MemView,
)
    requires
        ctx.snapshots(after, before, mem, Ok(())),
    ensures
        exists|reset: GuestContext<N>, cleared: MemView, written: MemView|
            {
                &&& #[trigger] ctx.resets_both(reset, before, cleared, Ok(()))
                &&& reset.g2h_producer.inflight.chains().len() == 0
                &&& reset.h2g_producer.inflight.chains().len() == 0
                &&& reset.g2h_producer.next_token == 0
                &&& #[trigger] cleared.stored(
                    written,
                    reset.mbx_gva as int,
                    le::le64_bytes(
                        (reset.g2h_producer.pool@.num_live() + reset.h2g_producer.pool@.num_live())
                            as u64,
                    ),
                )
            },
{
    let (reset, cleared) = choose|reset: GuestContext<N>, cleared: MemView|
        {
            &&& #[trigger] ctx.resets_both(reset, before, cleared, Ok::<(), ContextError>(()))
            &&& reset.publishes(after, cleared, mem, Ok(()))
        };
    let written = choose|written: MemView|
        {
            &&& #[trigger] cleared.stored(
                written,
                reset.mbx_gva as int,
                le::le64_bytes(reset.retained() as u64),
            )
            &&& posting::prefills(
                reset.h2g_producer,
                after.h2g_producer,
                written,
                mem,
                reset.h2g_slot_size,
                Ok(()),
            )
        };
    let (ready, start, mid) = choose|ready: GuestContext<N>, start: MemView, mid: MemView|
        {
            &&& #[trigger] start.same_mapping(mid)
            &&& #[trigger] ctx.reclaimed(ready, before)
            &&& ready.g2h_producer.resets(
                reset.g2h_producer,
                start,
                mid,
                Ok::<(), VirtqError>(()),
            )
            &&& ctx.h2g_producer.resets(
                reset.h2g_producer,
                mid,
                cleared,
                Ok::<(), VirtqError>(()),
            )
        };
    assert(cleared.stored(
        written,
        reset.mbx_gva as int,
        le::le64_bytes(reset.retained() as u64),
    ));
}

/// Nothing of a message that did not arrive in full is kept: whatever is refused gives its
/// receive buffers back, and only a call keeps them.
pub proof fn law_refused_message_keeps_no_buffer(
    queue: VirtqProducer<NoopNotifier>,
    after: VirtqProducer<NoopNotifier>,
    mem: MemView,
    chains: Seq<UsedChain>,
    dispatch: Result<DispatchAction, ContextError>,
)
    requires
        receiving::dispatch_from(queue, after, mem, chains, dispatch),
    ensures
        dispatch matches Ok(DispatchAction::Call(cid, _, leases)) ==> {
            &&& cid != 0
            &&& leases@ == receiving::held(chains)
            &&& after.pool == queue.pool
        },
        dispatch matches Ok(DispatchAction::SnapshotCheckpoint) ==> after.pool@
            == entries::leases_released(queue.pool@, receiving::held(chains)),
        dispatch matches Err(ContextError::Codec(_)) ==> after.pool@ == entries::leases_released(
            queue.pool@,
            receiving::held(chains),
        ),
        dispatch matches Err(ContextError::AckOnly { begun }) ==> after.pool@
            == entries::leases_released(queue.pool@, receiving::held(chains.drop_last())),
{
    if let Ok(DispatchAction::Call(cid, _, leases)) = dispatch {
        law_opening_is_what_the_header_says(receiving::payloads(chains)[0]);
    }
}

/// Leases that are given back free their slots: none of them is handed out any longer.
pub proof fn law_returned_leases_free_their_slots(
    pool: PoolView,
    leases: Seq<BufferLease>,
    i: int,
    other: u64,
)
    requires
        pool.wf(),
        0 <= i < leases.len(),
    ensures
        !entries::leases_released(pool, leases).live(leases[i].slot().addr),
        (forall|k: int| 0 <= k < leases.len() ==> (#[trigger] leases[k]).slot().addr != other)
            ==> entries::leases_released(pool, leases).live(other) == pool.live(other),
{
    let addrs = entries::allocation_addrs(entries::lease_slots(leases.reverse()));
    let at = leases.len() - 1 - i;
    assert(addrs[at] == leases[i].slot().addr);
    facts::law_released_slots_are_given_back(pool, addrs, leases[i].slot().addr);
    facts::law_released_slots_are_given_back(pool, addrs, other);
    if forall|k: int| 0 <= k < leases.len() ==> (#[trigger] leases[k]).slot().addr != other {
        if addrs.contains(other) {
            let k = choose|k: int| 0 <= k < addrs.len() && addrs[k] == other;
            assert(leases[leases.len() - 1 - k].slot().addr == other);
        }
    }
}

/// While a request waits, every chain before its own is the acknowledgement of another
/// message, and no chain of its own is passed over.
pub proof fn law_only_other_acknowledgements_are_passed_over<N: Notifier>(
    queue: VirtqProducer<N>,
    after: VirtqProducer<N>,
    mem: MemView,
    chains: Seq<UsedChain>,
    token: Token,
    cid: u32,
    reply: Result<(ReturnValue, Vec<BufferLease>), ContextError>,
    i: int,
)
    requires
        receiving::reply_from(queue, after, mem, chains, token, cid, reply),
        0 <= i < chains.len() - 1,
    ensures
        chains[i] is Ack,
        chains[i].token_view() != token,
        reply is Ok ==> chains.last() is Data && chains.last().token_view() == token,
{
    assert(receiving::skipped(chains[i], token));
}

/// A receive buffer of one slot can be posted exactly where a descriptor and a slot are free.
pub proof fn law_receive_buffer_needs_a_descriptor_and_a_slot(
    queue: VirtqProducer<NoopNotifier>,
    slot: usize,
)
    requires
        queue.wf(),
        queue.pool@.lower is None,
        queue.pool@.upper.layout.size() == slot,
    ensures
        posting::can_post(queue, slot) <==> queue.inner.num_free >= 1
            && queue.pool@.upper.free.len() >= 1,
{
    queue.pool.lemma_wf_view();
    let lens = posting::buffer_lens(queue, slot);
    assert(lens =~= seq![slot as int]);
    let pool = queue.pool@;
    reveal_with_fuel(entries::answers, 2);
    reveal_with_fuel(entries::pool_after, 2);
    assert(lens.drop_last() =~= Seq::<int>::empty());
}

/// A result that was returned went out under the identifier of its call, the receive buffers
/// of the call are back, and receive buffers were posted again.
pub proof fn law_returned_result_goes_out_under_its_call<N: Notifier>(
    ctx: GuestContext<N>,
    after: GuestContext<N>,
    before: MemView,
    mem: MemView,
    cid: u32,
    result: FunctionCallResult,
    leases: Seq<BufferLease>,
)
    requires
        ctx.responded(after, before, mem, cid, result, leases, Ok(())),
    ensures
        exists|message: EncodedMessage<'_>, externals: ExternalView| #[trigger]
            queues::carries_result(message, cid, result, externals) && sending::result_externals(
                result,
            ) == Ok::<ExternalView, WireError>(externals),
        exists|freed: VirtqProducer<NoopNotifier>, mid: MemView|
            {
                &&& freed.pool@ == entries::leases_released(ctx.h2g_producer.pool@, leases)
                &&& freed.inflight.chains() == ctx.h2g_producer.inflight.chains()
                &&& #[trigger] posting::prefills(
                    freed,
                    after.h2g_producer,
                    mid,
                    mem,
                    ctx.h2g_slot_size,
                    Ok(()),
                )
            },
{
    let freed = choose|freed: VirtqProducer<NoopNotifier>|
        {
            &&& #[trigger] context::leases_returned(ctx.h2g_producer, freed, leases)
            &&& exists|ready: GuestContext<N>, start: MemView|
                {
                    &&& before.same_bytes(start)
                    &&& before.same_mapping(start)
                    &&& ctx.reclaimed(ready, before)
                    &&& #[trigger] ready.returned(after, start, mem, cid, result, freed, Ok(()))
                }
        };
    let (ready, start) = choose|ready: GuestContext<N>, start: MemView|
        {
            &&& before.same_bytes(start)
            &&& before.same_mapping(start)
            &&& ctx.reclaimed(ready, before)
            &&& #[trigger] ready.returned(after, start, mem, cid, result, freed, Ok(()))
        };
    let externals = sending::result_externals(result)->Ok_0;
    assert(ready.answered(after, start, mem, cid, result, externals, freed, Ok(())));
    let (message, sent, mid, token) = choose|
        message: EncodedMessage<'_>,
        sent: GuestContext<N>,
        mid: MemView,
        token: Token,
    |
        {
            &&& #[trigger] queues::carries_result(message, cid, result, externals)
            &&& #[trigger] ready.sent(sent, start, mid, message, ReplyCapacity::Nothing, token)
            &&& after.g2h_producer == sent.g2h_producer
            &&& posting::prefills(
                freed,
                after.h2g_producer,
                mid,
                mem,
                ready.h2g_slot_size,
                Ok(()),
            )
        };
    assert(queues::carries_result(message, cid, result, externals));
    assert(posting::prefills(freed, after.h2g_producer, mid, mem, ctx.h2g_slot_size, Ok(())));
}

} // verus!
