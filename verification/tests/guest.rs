//! The guest side of the transport.

use bytes::Bytes;
use hyperlight::flatbuffer_wrappers::builder::FlatBuilder;
use hyperlight::flatbuffer_wrappers::codec::{ExternalValueSink, ExternalValueSource};
use hyperlight::flatbuffer_wrappers::function_call::{FunctionCall, FunctionCallType};
use hyperlight::flatbuffer_wrappers::function_result::FunctionCallResult;
use hyperlight::flatbuffer_wrappers::function_types::{
    ParameterType, ParameterValue, ReturnType, ReturnValue, WireError,
};
use hyperlight::flatbuffer_wrappers::guest_error::{ErrorCode, GuestError};
use hyperlight::flatbuffer_wrappers::guest_log_data::LogLevel;
use hyperlight::fuzz::memory::FuzzMem;
use hyperlight::guest::codec::{decode_payload, decode_request, decode_response, CodecError};
use hyperlight::guest::context::{
    message_region_lengths, ContextError, GuestContext, QueueConfig, ReplyCapacity,
};
use hyperlight::guest::dispatch::{
    c_call_outcome, call_guest_function, guest_dispatch_function_default, print_message, printed,
    verify_parameters, DispatchError, Route, Slot,
};
use hyperlight::guest::handle::GuestHandle;
use hyperlight::guest::logger::log_record;
use hyperlight::guest::messages::Task;
use hyperlight::guest::mem::{GuestMemError, GuestMemOps};
use hyperlight::guest::pools::{g2h_pool, h2g_pool, pool_len};
use hyperlight::guest::prim_alloc::{phys_bytes, phys_pages_fit};
use hyperlight::guest::receiving::DispatchAction;
use hyperlight::guest::sending::{Attempt, SendStep};
use hyperlight::mem::{GuestMemoryRegion, HyperlightPEB};
use hyperlight::transport::{
    EncodedMessage, ExternalValues, MsgHeader, MsgKind, SIZE_PREFIX_LEN,
};
use hyperlight::virtq::entries::release_leases;
use hyperlight::virtq::{
    validate_canon_image, AllocError, Layout, MemOps, NoopNotifier, ReplyChain, Segments,
    VirtqConsumer, VirtqError,
};
use hyperlight::vmem::PAGE_SIZE;

#[test]
fn payload_contiguous_control_reuses_storage() {
    // Control and external data share one transport allocation.
    let bytes = Bytes::from(vec![
        4, 0, 0, 0, b'c', b't', b'r', b'l', b'd', b'a', b't', b'a',
    ]);
    let ptr = bytes.as_ptr();
    let (control, mut source) = decode_payload(Segments::single(bytes)).ok().unwrap();

    assert_eq!(&control[..], b"\x04\0\0\0ctrl");
    assert_eq!(control.as_ptr(), ptr);

    // External data outlives the control view.
    let chunks = source.take_chunks(4).unwrap();
    source.finish().unwrap();
    drop(control);
    assert_eq!(chunks.len(), 1);
    assert_eq!(chunks[0].as_ptr(), ptr.wrapping_add(8));
    assert_eq!(chunks[0].as_ref(), b"data");
}

#[test]
fn payload_fragmented_control_preserves_external_storage() {
    // Both the size prefix and control body cross segment boundaries.
    let boundary = Bytes::from(vec![b'r', b'l', b'd', b'a', b't', b'a']);
    let ptr = boundary.as_ptr();
    let segments = Segments::new(vec![
        Bytes::new(),
        Bytes::from_static(b"\x04\0"),
        Bytes::new(),
        Bytes::from_static(b"\0\0ct"),
        boundary,
    ]);

    let (control, mut source) = decode_payload(segments).ok().unwrap();
    assert_eq!(&control[..], b"\x04\0\0\0ctrl");

    // Only the control bytes are collected into contiguous storage.
    let chunks = source.take_chunks(4).unwrap();
    source.finish().unwrap();
    assert_eq!(chunks.len(), 1);
    assert_eq!(chunks[0].as_ptr(), ptr.wrapping_add(2));
    assert_eq!(chunks[0].as_ref(), b"data");
}

#[test]
fn payload_rejects_short_size_prefix() {
    let prefix = 4u32.to_le_bytes();
    for len in 0..SIZE_PREFIX_LEN {
        let segments = Segments::new(vec![Bytes::new(), Bytes::copy_from_slice(&prefix[..len])]);
        assert!(
            matches!(decode_payload(segments), Err(CodecError::MissingPrefix)),
            "prefix length {len}"
        );
    }
}

#[test]
fn payload_rejects_truncated_control() {
    // The prefix declares four control bytes, but only three follow.
    let segments = Segments::single(Bytes::from_static(b"\x04\0\0\0ctr"));
    assert!(matches!(
        decode_payload(segments),
        Err(CodecError::Truncated)
    ));
}

#[test]
fn response_byte_chunks_retain_transport_storage() {
    let external = Bytes::from(vec![1, 2, 3, 4]);
    let external_ptr = external.as_ptr();

    let result = FunctionCallResult::new(Ok(ReturnValue::ByteChunks(vec![external.clone()])));
    let mut builder = FlatBuilder::new();
    let mut external_values = ExternalValues::new();

    let control = result.encode(&mut builder, &mut external_values).unwrap();

    let payload_len = u32::try_from(control.len() + external_values.total_len()).unwrap();
    let header = MsgHeader::new(MsgKind::Response, 7, payload_len);

    let segments = Segments::new(vec![
        Bytes::from(header.as_bytes()),
        Bytes::copy_from_slice(control),
        external.clone(),
    ]);

    let decoded = decode_response(segments, 7).unwrap().into_inner().unwrap();
    let ReturnValue::ByteChunks(chunks) = decoded else {
        panic!("expected ByteChunks response");
    };

    assert_eq!(chunks.len(), 1);
    assert_eq!(chunks[0].as_ptr(), external_ptr);
    assert_eq!(chunks[0].as_ref(), &[1, 2, 3, 4]);
}

#[test]
fn response_rejects_payload_length_mismatch() {
    let result = FunctionCallResult::new(Ok(ReturnValue::UInt(17)));
    let mut builder = FlatBuilder::new();
    let mut external_values = ExternalValues::new();

    let control = result.encode(&mut builder, &mut external_values).unwrap();

    let payload_len = u32::try_from(control.len()).unwrap();

    let segments = |length| {
        let header = MsgHeader::new(MsgKind::Response, 7, length);
        Segments::new(vec![
            Bytes::from(header.as_bytes()),
            Bytes::copy_from_slice(control),
        ])
    };

    assert!(decode_response(segments(payload_len), 7).is_ok());
    for length in [payload_len - 1, payload_len + 1] {
        assert!(matches!(
            decode_response(segments(length), 7),
            Err(CodecError::LengthMismatch)
        ));
    }
    assert!(matches!(
        decode_response(segments(payload_len), 8),
        Err(CodecError::CidMismatch)
    ));
}

#[test]
fn responses_need_a_valid_header() {
    assert!(matches!(
        decode_response(Segments::empty(), 1),
        Err(CodecError::MissingHeader)
    ));
    assert!(matches!(
        decode_response(Segments::single(Bytes::from(vec![0xff; 12])), 1),
        Err(CodecError::InvalidHeader)
    ));
    let header = MsgHeader::new(MsgKind::Request, 1, 0);
    assert!(matches!(
        decode_response(Segments::single(Bytes::from(header.as_bytes())), 1),
        Err(CodecError::NotAResponse)
    ));
}

#[test]
fn request_byte_chunks_retain_transport_storage() {
    let external = Bytes::from(vec![1, 2, 3, 4]);
    let external_ptr = external.as_ptr();
    let call = FunctionCall::new(
        "echo".into(),
        Some(vec![ParameterValue::ByteChunks(vec![external.clone()])]),
        FunctionCallType::Guest,
        ReturnType::ByteChunks,
    );
    let mut builder = FlatBuilder::new();
    let mut external_values = ExternalValues::new();
    let control = call.encode(&mut builder, &mut external_values).unwrap();
    let segments = Segments::new(vec![Bytes::copy_from_slice(control), external.clone()]);

    let decoded = decode_request(segments).unwrap();
    assert_eq!(decoded.function_name, "echo");
    let ParameterValue::ByteChunks(chunks) =
        decoded.parameters.unwrap().into_iter().next().unwrap()
    else {
        panic!("expected ByteChunks parameter");
    };

    assert_eq!(chunks.len(), 1);
    assert_eq!(chunks[0].as_ptr(), external_ptr);
    assert_eq!(chunks[0].as_ref(), &[1, 2, 3, 4]);
}

fn encoded_message(external: &[u8]) -> EncodedMessage<'_> {
    let mut values = ExternalValues::new();
    values.push_bytes(external).unwrap();
    EncodedMessage::new(MsgKind::Request, 1, b"control", values).unwrap()
}

#[test]
fn message_regions_split_only_aligned_external_values() {
    let aligned = [0; 4096];
    let message = encoded_message(&aligned);
    let regions = message_region_lengths(&message, 4096);
    assert_eq!(regions, [message.prefix_len(), aligned.len()]);

    let unaligned = [0; 4095];
    let message = encoded_message(&unaligned);
    let regions = message_region_lengths(&message, 4096);
    assert_eq!(regions, [message.total_len()]);
}

#[test]
fn guest_mem_access_is_bounded_by_scratch() {
    const LEN: usize = 0x4000;
    let base = 0x10_0000;
    let mem = GuestMemOps::from_raw_parts(base, LEN as u64);

    assert_eq!(mem.check_range(base, 4), Ok(()));
    assert_eq!(mem.check_word(base), Ok(()));

    assert!(mem.check_range(base + LEN as u64 - 1, 2).is_err());
    assert!(mem.check_word(base + 1).is_err());
    assert!(mem.check_range(base - 1, 1).is_err());
    assert!(mem.check_range(u64::MAX, 2).is_err());
}

#[test]
fn guest_mem_rejects_overlapping_reads() {
    let base = 0x1000;
    let mem = GuestMemOps::from_raw_parts(base, 4);

    assert_eq!(mem.check_copy(base, base, 4), Err(GuestMemError));
    assert_eq!(mem.check_copy(base, base + 1, 3), Err(GuestMemError));
    assert_eq!(mem.check_copy(base + 1, base, 3), Err(GuestMemError));
}

#[test]
fn guest_mem_rejects_overlapping_writes() {
    let base = 0x1000;
    let mem = GuestMemOps::from_raw_parts(base, 4);

    assert_eq!(mem.check_copy(base, base, 4), Err(GuestMemError));
    assert_eq!(mem.check_copy(base, base + 1, 3), Err(GuestMemError));
    assert_eq!(mem.check_copy(base + 1, base, 3), Err(GuestMemError));
    assert_eq!(mem.check_copy(base + 3, 0x9000, 2), Err(GuestMemError));
}

#[test]
fn guest_mem_copies_disjoint_scratch_ranges() {
    let base = 0x1000;
    let mem = GuestMemOps::from_raw_parts(base, 4);

    assert_eq!(mem.check_copy(base, base + 2, 2), Ok(()));
    assert_eq!(mem.check_copy(base + 2, base, 2), Ok(()));
}

#[test]
fn guest_mem_empty_copies_preserve_bounds() {
    let base = 0x1000;
    let mem = GuestMemOps::from_raw_parts(base, 4);

    assert_eq!(mem.check_copy(base, base, 0), Ok(()));
    assert_eq!(mem.check_range(base + 4, 0), Ok(()));
    assert_eq!(mem.check_range(base + 5, 0), Err(GuestMemError));
    assert_eq!(mem.check_copy(base + 5, 0, 0), Err(GuestMemError));
}

fn call(parameters: Vec<ParameterValue>, call_type: FunctionCallType) -> FunctionCall {
    FunctionCall::new(
        "f".to_string(),
        Some(parameters),
        call_type,
        ReturnType::Int,
    )
}

#[test]
fn calls_are_routed_by_their_parameters() {
    let one = call(vec![ParameterValue::Int(1)], FunctionCallType::Guest);
    assert_eq!(call_guest_function(&one, None), Ok(Route::Fallback));
    assert_eq!(
        call_guest_function(&one, Some(&vec![ParameterType::Int])),
        Ok(Route::Registered)
    );
    assert_eq!(
        call_guest_function(&one, Some(&vec![ParameterType::Int, ParameterType::Bool])),
        Err(DispatchError::ParameterCount {
            expected: 2,
            given: 1
        })
    );
    assert_eq!(
        verify_parameters(
            &[ParameterType::Int, ParameterType::Bool],
            &[ParameterType::Int, ParameterType::String]
        ),
        Err(DispatchError::ParameterMismatch {
            index: 1,
            expected: ParameterType::Bool,
            given: ParameterType::String
        })
    );
    let host = call(vec![], FunctionCallType::Host);
    assert_eq!(
        call_guest_function(&host, None),
        Err(DispatchError::NotAGuestCall)
    );
    assert_eq!(DispatchError::NotAGuestCall.code(), ErrorCode::GuestError);
}

#[test]
fn an_error_comes_before_a_result() {
    let error = GuestError::new(ErrorCode::GuestError, "no".to_string());
    assert_eq!(
        c_call_outcome(
            Some(error.clone()),
            Some(ReturnValue::Int(1)),
            Route::Registered
        ),
        Err(DispatchError::Guest(error))
    );
    assert_eq!(
        c_call_outcome(None, Some(ReturnValue::Int(1)), Route::Fallback),
        Ok(ReturnValue::Int(1))
    );
    assert_eq!(
        c_call_outcome(None, None, Route::Registered),
        Err(DispatchError::NullResult)
    );
    assert_eq!(
        c_call_outcome(None, None, Route::Fallback),
        Err(DispatchError::NotFound)
    );
    let mut slot = Slot::new();
    slot.set(1);
    slot.set(2);
    assert_eq!(slot.take(), Some(2));
    assert_eq!(slot.take(), None);
}

#[test]
fn print_takes_a_string() {
    let text = ParameterValue::String("hello".to_string());
    let print = print_message(call(vec![text], FunctionCallType::Guest)).unwrap();
    assert_eq!(print.function_name, "HostPrint");
    assert_eq!(
        print.parameters,
        Some(vec![ParameterValue::String("hello".to_string())])
    );
    assert_eq!(print.function_call_type(), FunctionCallType::Host);
    assert_eq!(print.expected_return_type, ReturnType::Int);
    let number = ParameterValue::Int(1);
    assert_eq!(
        print_message(call(vec![number], FunctionCallType::Guest)).err(),
        Some(DispatchError::WrongParameters)
    );
    assert_eq!(printed(ReturnValue::Int(5)), Ok(ReturnValue::Int(5)));
    assert_eq!(
        printed(ReturnValue::Bool(true)),
        Err(DispatchError::ReturnMismatch)
    );
}

#[test]
fn dispatch_errors_carry_messages() {
    let outcome = guest_dispatch_function_default(call(vec![], FunctionCallType::Guest));
    assert_eq!(outcome, Err(DispatchError::NoHandler));
    assert_eq!(
        DispatchError::NoHandler.message("a\"b").unwrap(),
        "No handler found for function call: \"a\\\"b\""
    );
    assert_eq!(
        DispatchError::NullResult.message("f").unwrap(),
        "C guest function \"f\" returned null"
    );
    assert_eq!(DispatchError::NotFound.message("f").unwrap(), "f");
    assert_eq!(
        DispatchError::NotAGuestCall.message("f").unwrap(),
        "Invalid function call type: Host, should be Guest."
    );
    assert_eq!(DispatchError::NotFound.code(), ErrorCode::GuestFunctionNotFound);
    assert_eq!(DispatchError::NoHandler.code(), ErrorCode::GuestFunctionNotFound);
}

#[test]
fn a_record_without_a_place_is_unknown() {
    let log = log_record(LogLevel::Warning, "careful", None, "t", None, None);
    assert_eq!(log.source, "Unknown");
    assert_eq!(log.source_file, "Unknown");
    assert_eq!(log.line, 0);
    let log = log_record(LogLevel::Error, "no", Some("m"), "t", Some("m.rs"), Some(7));
    assert_eq!(
        (log.message.as_str(), log.source.as_str(), log.caller.as_str()),
        ("no", "m", "t")
    );
    assert_eq!((log.source_file.as_str(), log.line), ("m.rs", 7));
}

#[test]
fn user_memory_is_read_within_the_init_data() {
    let peb = HyperlightPEB {
        init_data: GuestMemoryRegion {
            size: 8,
            ptr: 0x1000,
        },
        guest_heap: GuestMemoryRegion { size: 0, ptr: 0 },
    };
    let handle = GuestHandle::init(peb);
    assert_eq!(handle.peb(), Some(peb));
    assert_eq!(
        handle.read_n_bytes_from_user_memory(8),
        Ok(GuestMemoryRegion {
            size: 8,
            ptr: 0x1000
        })
    );
    assert_eq!(
        handle.read_n_bytes_from_user_memory(9).unwrap_err().message(),
        "Requested 9 bytes from user memory, but only 8 bytes are available"
    );
    assert_eq!(GuestHandle::new().peb(), None);
}

#[test]
fn physical_pages_stay_inside_scratch() {
    assert_eq!(phys_bytes(3), 3 * PAGE_SIZE as u64);
    assert!(phys_pages_fit(0x1000, 0x1000));
    assert!(!phys_pages_fit(u64::MAX - 1, 0x1000));
}

#[test]
fn pools_fill_their_pages() {
    assert_eq!(pool_len(3).unwrap(), 3 * PAGE_SIZE);
    assert!(matches!(pool_len(usize::MAX), Err(AllocError::Overflow)));
    assert_eq!(h2g_pool(0x10_0000, 2, 4096).unwrap().count(), 2);
    let tiered = g2h_pool(0x10_0000, 3, 4096).unwrap();
    assert_eq!(tiered.num_free_lower(), 16);
    assert_eq!(tiered.num_free_upper(), 2);
}

const G2H_RING: u64 = 0x10_0000;
const H2G_RING: u64 = 0x10_1000;
const G2H_POOL: u64 = 0x10_2000;
const H2G_POOL: u64 = 0x10_6000;

fn queue(base: u64, pool_gva: u64, pool_pages: usize) -> QueueConfig {
    QueueConfig {
        layout: Layout::from_base(base, 16).unwrap(),
        pool_gva,
        pool_pages,
        buffer_size: 4096,
    }
}

/// A guest, the host's sides of its queues and their memory.
struct Guest {
    mem: FuzzMem,
    context: GuestContext<NoopNotifier>,
    g2h: VirtqConsumer<NoopNotifier>,
    h2g: VirtqConsumer<NoopNotifier>,
}

fn make_guest() -> Guest {
    let mut mem = FuzzMem::new(G2H_RING, 0x1_0000);
    let g2h = queue(G2H_RING, G2H_POOL, 4);
    let h2g = queue(H2G_RING, H2G_POOL, 2);
    let (g2h_layout, h2g_layout) = (g2h.layout, h2g.layout);
    let context = GuestContext::new(&mut mem, NoopNotifier::new(), g2h, h2g, 0x10_8000);
    let context = match context {
        Ok(context) => context,
        Err(_) => panic!("the context was refused"),
    };
    Guest {
        mem,
        context,
        g2h: VirtqConsumer::new(g2h_layout, NoopNotifier::new()),
        h2g: VirtqConsumer::new(h2g_layout, NoopNotifier::new()),
    }
}

impl Guest {
    /// Write bytes into the next posted receive buffer.
    fn deliver(&mut self, bytes: &[u8]) {
        let (recv, reply) = self.h2g.poll(&mut self.mem, 0).unwrap().unwrap();
        let ReplyChain::Writable(mut writable) = reply else {
            panic!("expected a receive buffer");
        };
        writable.write_all(&mut self.mem, bytes).unwrap();
        self.h2g
            .complete(&mut self.mem, recv, ReplyChain::Writable(writable))
            .unwrap();
    }
}

fn frame(kind: MsgKind, cid: u32, control: &[u8]) -> Vec<u8> {
    let mut bytes = MsgHeader::new(kind, cid, control.len() as u32).as_bytes();
    bytes.extend_from_slice(control);
    bytes
}

#[test]
fn a_host_function_answers_its_caller() {
    let mut guest = make_guest();
    let call = FunctionCall::new(
        "add".to_string(),
        Some(vec![ParameterValue::Int(1), ParameterValue::Int(2)]),
        FunctionCallType::Host,
        ReturnType::Int,
    );
    let mut flat = FlatBuilder::new();
    let (cid, message) = guest.context.frame_call(&call, &mut flat).ok().unwrap();
    assert_eq!(cid, 1);
    let step = guest.context.call_host_function(
        &mut guest.mem,
        &message,
        ReturnType::Int,
        Attempt::First,
    );
    let SendStep::Sent(token) = step else {
        panic!("the call was not sent");
    };

    let (recv, reply) = guest.g2h.poll(&mut guest.mem, 4096).unwrap().unwrap();
    let bytes = recv.to_bytes(&guest.mem).unwrap();
    let header = MsgHeader::from_bytes(&bytes[..MsgHeader::SIZE]).unwrap();
    assert_eq!(header.msg_kind(), Ok(MsgKind::Request));
    assert_eq!(header.cid, cid);
    let request = decode_request(Segments::single(bytes.slice(MsgHeader::SIZE..))).unwrap();
    assert_eq!(request.function_name, "add");

    let result = FunctionCallResult::new(Ok(ReturnValue::Int(3)));
    let mut flat = FlatBuilder::new();
    let mut externals = ExternalValues::new();
    let control = result.encode(&mut flat, &mut externals).unwrap();
    let ReplyChain::Writable(mut writable) = reply else {
        panic!("expected room for a reply");
    };
    let bytes = frame(MsgKind::Response, cid, control);
    writable.write_all(&mut guest.mem, &bytes).unwrap();
    guest
        .g2h
        .complete(&mut guest.mem, recv, ReplyChain::Writable(writable))
        .unwrap();

    let (value, leases) = match guest.context.recv_reply(&mut guest.mem, token, cid) {
        Ok(reply) => reply,
        Err(_) => panic!("the reply was refused"),
    };
    assert_eq!(value, ReturnValue::Int(3));
    release_leases(&mut guest.context.g2h_producer.pool, leases);
    assert_eq!(guest.context.g2h_producer.pool.num_live(), 0);
    assert_eq!(
        ReplyCapacity::for_return_type(ReturnType::String),
        ReplyCapacity::Available
    );
}

#[test]
fn a_host_call_is_dispatched_and_answered() {
    let mut guest = make_guest();
    let call = FunctionCall::new(
        "echo".to_string(),
        Some(vec![ParameterValue::VecBytes(vec![7; 5000])]),
        FunctionCallType::Guest,
        ReturnType::VecBytes,
    );
    let mut flat = FlatBuilder::new();
    let mut externals = ExternalValues::new();
    let control = call.encode(&mut flat, &mut externals).unwrap().to_vec();
    let message = EncodedMessage::new(MsgKind::Request, 9, &control, externals).unwrap();
    let bytes: Vec<u8> = message.chunks().into_iter().flatten().copied().collect();
    // The message spans two receive buffers.
    guest.deliver(&bytes[..4096]);
    guest.deliver(&bytes[4096..]);

    let action = guest.context.recv_h2g_dispatch(&mut guest.mem);
    let (cid, received, leases) = match action {
        Ok(DispatchAction::Call(cid, call, leases)) => (cid, call, leases),
        _ => panic!("expected a call"),
    };
    assert_eq!(cid, 9);
    assert_eq!(received.function_name, "echo");
    assert_eq!(received.parameters, call.parameters);

    let result = FunctionCallResult::new(Ok(ReturnValue::Int(1)));
    let sent = guest
        .context
        .send_h2g_result(&mut guest.mem, cid, result, leases);
    assert!(sent.is_ok());
    let (recv, _) = guest.g2h.poll(&mut guest.mem, 4096).unwrap().unwrap();
    let bytes = recv.to_bytes(&guest.mem).unwrap();
    let answer = decode_response(Segments::single(bytes), cid).unwrap();
    assert_eq!(answer.into_inner(), Ok(ReturnValue::Int(1)));
}

#[test]
fn a_checkpoint_is_announced_by_its_kind() {
    let mut guest = make_guest();
    guest.deliver(&frame(MsgKind::SnapshotCheckpoint, 0, b""));
    assert!(matches!(
        guest.context.recv_h2g_dispatch(&mut guest.mem),
        Ok(DispatchAction::SnapshotCheckpoint)
    ));
}

#[test]
fn a_request_without_a_correlation_id_is_refused() {
    let mut guest = make_guest();
    guest.deliver(&frame(MsgKind::Request, 0, b""));
    assert!(matches!(
        guest.context.recv_h2g_dispatch(&mut guest.mem),
        Err(ContextError::Framing)
    ));
}

#[test]
fn a_full_queue_asks_the_host_to_drain_it() {
    let mut guest = make_guest();
    let mut sent = 0;
    loop {
        match guest
            .context
            .emit_log(&mut guest.mem, &[0; 300], Attempt::First)
        {
            SendStep::Sent(_) => sent += 1,
            SendStep::Drain => break,
            SendStep::Failed(_) => panic!("the log was refused"),
        }
    }
    assert!(sent > 0);
    // The host acknowledges one message, which makes room for another.
    let (recv, reply) = guest.g2h.poll(&mut guest.mem, 4096).unwrap().unwrap();
    guest.g2h.complete(&mut guest.mem, recv, reply).unwrap();
    assert!(matches!(
        guest
            .context
            .emit_log(&mut guest.mem, &[0; 300], Attempt::AfterDrain),
        SendStep::Sent(_)
    ));
    assert!(matches!(
        guest
            .context
            .emit_log(&mut guest.mem, &[0; 300], Attempt::AfterDrain),
        SendStep::Failed(ContextError::Retry(_))
    ));
}

#[test]
fn a_snapshot_leaves_canonical_queues() {
    let mut guest = make_guest();
    guest
        .mem
        .write(0x10_8000, &u64::MAX.to_le_bytes())
        .unwrap();
    guest.deliver(&frame(MsgKind::SnapshotCheckpoint, 0, b""));
    assert!(guest.context.recv_h2g_dispatch(&mut guest.mem).is_ok());
    assert!(guest.context.prepare_snapshot(&mut guest.mem).is_ok());

    // The guest retains no buffer.
    let mut mailbox = [0; 8];
    guest.mem.read(0x10_8000, &mut mailbox).unwrap();
    assert_eq!(u64::from_le_bytes(mailbox), 0);

    // Nothing is in flight on one queue, and every receive buffer is posted on the other.
    let g2h = queue(G2H_RING, G2H_POOL, 4).layout;
    let h2g = queue(H2G_RING, H2G_POOL, 2).layout;
    assert_eq!(guest.context.g2h_producer.num_inflight(), 0);
    assert_eq!(guest.context.h2g_producer.num_inflight(), 2);
    let idle = validate_canon_image(&guest.mem, g2h, 0, |_, _| true).unwrap();
    assert!(idle.is_empty());
    let posted = validate_canon_image(&guest.mem, h2g, 2, |_, elem| elem.writable).unwrap();
    assert_eq!(posted.len(), 2);
    assert!(posted.iter().all(|chain| chain.buffers().len() == 1));
}

#[test]
fn a_request_is_received_whole_or_not_at_all() {
    // The host promises more than it sends.
    let mut guest = make_guest();
    let mut bytes = MsgHeader::new(MsgKind::Request, 1, 10).as_bytes();
    bytes.extend_from_slice(&[0; 4]);
    guest.deliver(&bytes);
    assert!(matches!(
        guest.context.recv_h2g_dispatch(&mut guest.mem),
        Err(ContextError::NoChain { begun: true })
    ));
    assert_eq!(guest.context.h2g_producer.pool.num_live(), 1);

    // A continuation holds nothing.
    let mut guest = make_guest();
    guest.deliver(&bytes);
    guest.deliver(b"");
    assert!(matches!(
        guest.context.recv_h2g_dispatch(&mut guest.mem),
        Err(ContextError::EmptyContinuation)
    ));
    assert_eq!(guest.context.h2g_producer.pool.num_live(), 0);

    // A continuation holds too much.
    let mut guest = make_guest();
    guest.deliver(&bytes);
    guest.deliver(&[0; 7]);
    assert!(matches!(
        guest.context.recv_h2g_dispatch(&mut guest.mem),
        Err(ContextError::TooLong { begun: true })
    ));
    assert_eq!(guest.context.h2g_producer.pool.num_live(), 0);

    // The first buffer is too short for a header, or too long for its message.
    let mut guest = make_guest();
    guest.deliver(&bytes[..5]);
    guest.deliver(&frame(MsgKind::Request, 1, b"")[..12]);
    assert!(matches!(
        guest.context.recv_h2g_dispatch(&mut guest.mem),
        Err(ContextError::Header(CodecError::MissingHeader))
    ));
    assert!(matches!(
        guest.context.recv_h2g_dispatch(&mut guest.mem),
        Err(ContextError::Codec(_))
    ));
}

#[test]
fn tiers_of_one_slot_size_form_one_pool() {
    let pool = g2h_pool(0x1_0000, 2, 256).unwrap();
    assert_eq!(pool.count(), 32);
    assert_eq!(pool.num_free_lower(), 0);
    let pool = g2h_pool(0x1_0000, 3, 4096).unwrap();
    assert_eq!(pool.count(), 18);
    assert_eq!(pool.num_free_lower(), 16);
    assert_eq!(
        g2h_pool(u64::MAX - 4096, 3, 256).err(),
        Some(AllocError::Overflow)
    );
    assert_eq!(g2h_pool(0x1_0000, 2, 128).err(), Some(AllocError::InvalidArg));
    assert_eq!(g2h_pool(0x1_0000, 0, 256).err(), Some(AllocError::EmptyRegion));
}

#[test]
fn receive_buffers_are_posted_one_by_one() {
    let mut guest = make_guest();
    let queue = &mut guest.context.h2g_producer;
    queue.reset(&mut guest.mem).unwrap();
    assert_eq!(queue.pool.num_live(), 0);
    let mut batch = queue.batch();

    let mut step = |room| {
        let step = guest.context.prefill_step(&mut batch, &mut guest.mem, room);
        (step, guest.context.h2g_producer.pool.num_live())
    };
    assert!(matches!(
        step(Err(VirtqError::Bookkeeping)),
        (Err(ContextError::Prefill(VirtqError::Bookkeeping)), 0)
    ));
    assert!(matches!(step(Err(VirtqError::Backpressure)), (Ok(false), 0)));
    assert!(matches!(step(Ok(())), (Ok(true), 1)));
    assert!(matches!(step(Ok(())), (Ok(true), 2)));
    // The pool is used up.
    assert!(matches!(step(Ok(())), (Ok(false), 2)));
}

#[test]
fn a_message_is_sent_where_its_record_has_room() {
    let mut guest = make_guest();
    let control = [4, 0, 0, 0, 1, 2, 3, 4];
    let message =
        EncodedMessage::new(MsgKind::Log, 0, &control, ExternalValues::new()).unwrap();
    let refused = Err(VirtqError::Bookkeeping);

    let token = guest.context.try_send_in(
        &mut guest.mem,
        &message,
        ReplyCapacity::Nothing,
        refused,
    );
    assert!(matches!(token, Err(VirtqError::Bookkeeping)));
    let token = guest.context.try_send_deferred_in(
        &mut guest.mem,
        &message,
        ReplyCapacity::Nothing,
        refused,
    );
    assert!(matches!(token, Err(VirtqError::Bookkeeping)));
    assert_eq!(guest.context.g2h_producer.pool.num_live(), 0);
    assert!(guest.g2h.poll(&mut guest.mem, 64).unwrap().is_none());

    for deferred in [false, true] {
        let mem = &mut guest.mem;
        let token = if deferred {
            let context = &mut guest.context;
            context.try_send_deferred_in(mem, &message, ReplyCapacity::Nothing, Ok(()))
        } else {
            let context = &mut guest.context;
            context.try_send_in(mem, &message, ReplyCapacity::Nothing, Ok(()))
        };
        assert!(token.is_ok());
        let (recv, _) = guest.g2h.poll(&mut guest.mem, 64).unwrap().unwrap();
        let bytes = recv.to_bytes(&guest.mem).unwrap();
        assert_eq!(&bytes[MsgHeader::SIZE..], control);
    }
}

#[test]
fn failures_are_told_by_what_the_guest_was_about() {
    let told = |error: ContextError, task| error.message(task);
    let send = || ContextError::Send(VirtqError::InvalidState);
    assert_eq!(told(send(), Task::Call).as_deref(), Some("G2H call"));
    assert_eq!(
        told(send(), Task::Log).as_deref(),
        Some("G2H one-way message")
    );
    assert_eq!(
        told(send(), Task::Respond).as_deref(),
        Some("G2H response submission failed")
    );
    assert_eq!(
        told(
            ContextError::Reclaim(VirtqError::InvalidState),
            Task::Snapshot
        )
        .as_deref(),
        Some("G2H snapshot reclaim failed")
    );
    assert_eq!(
        told(ContextError::NoChain { begun: true }, Task::Receive).as_deref(),
        Some("H2G: expected a continuation buffer")
    );
    assert_eq!(
        told(ContextError::NoChain { begun: false }, Task::Call).as_deref(),
        Some("G2H: no reply received")
    );
    assert_eq!(
        told(ContextError::AckOnly { begun: false }, Task::Receive).as_deref(),
        Some("H2G: guest function call buffer was ack-only")
    );
    assert_eq!(
        told(ContextError::TooLong { begun: false }, Task::Receive).as_deref(),
        Some("H2G first buffer exceeds the declared payload length")
    );
    let codec = |error| ContextError::Codec(error);
    assert_eq!(
        told(codec(CodecError::Wire(WireError::Buffer)), Task::Receive).as_deref(),
        Some("failed to decode guest function request")
    );
    assert_eq!(
        told(codec(CodecError::Wire(WireError::Buffer)), Task::Call).as_deref(),
        Some("failed to decode host function response")
    );
    assert_eq!(
        told(codec(CodecError::Truncated), Task::Call).as_deref(),
        Some("virtqueue message control data is truncated")
    );
    assert_eq!(
        told(ContextError::Poll(VirtqError::InvalidState), Task::Call),
        None
    );
    let error = GuestError::new(ErrorCode::GuestError, "no such file".to_string());
    assert_eq!(
        told(ContextError::Guest(error), Task::Call).as_deref(),
        Some("no such file")
    );
}
