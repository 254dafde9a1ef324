//! Guest-side virtqueue message decoding.

use bytes::Bytes;
use vstd::prelude::*;

use crate::flatbuffer_wrappers::function_call;
use crate::flatbuffer_wrappers::function_call::CallView;
use crate::flatbuffer_wrappers::function_call::FunctionCall;
use crate::flatbuffer_wrappers::function_result;
use crate::flatbuffer_wrappers::function_result::FunctionCallResult;
use crate::flatbuffer_wrappers::function_result::ResultView;
use crate::flatbuffer_wrappers::function_types::WireError;
use crate::le;
use crate::octets;
use crate::octets::bytes_as_slice;
use crate::transport::{size_prefix_payload_len, size_prefixed_len, MsgHeader, MsgKind};
use crate::virtq::buffer;
use crate::virtq::Segments;

verus! {

/// A message that arrived cannot be used.
#[derive(Debug, Clone, Copy, PartialEq, Eq, Structural)]
pub enum CodecError {
    /// The message is shorter than a header.
    MissingHeader,
    /// The header is not valid.
    InvalidHeader,
    /// The payload is not as long as the header says.
    LengthMismatch,
    /// The payload is shorter than a size prefix.
    MissingPrefix,
    /// The length of the control data overflows.
    ControlOverflow,
    /// The payload is shorter than its control data.
    Truncated,
    /// The message is not a response.
    NotAResponse,
    /// The response answers another request.
    CidMismatch,
    /// The control data or its byte values are not valid.
    Wire(WireError),
}

/// The control data of a payload and the byte values behind it.
pub open spec fn payload_parts(payload: Seq<u8>) -> Result<(Seq<u8>, Seq<u8>), CodecError> {
    if payload.len() < 4 {
        Err(CodecError::MissingPrefix)
    } else {
        let len = 4 + le::le32(payload.take(4));
        if len > usize::MAX {
            Err(CodecError::ControlOverflow)
        } else if len > payload.len() {
            Err(CodecError::Truncated)
        } else {
            Ok((payload.take(len), payload.skip(len)))
        }
    }
}

/// The kind, the correlation identifier and the payload of a message.
pub open spec fn message_parts(message: Seq<u8>) -> Result<(MsgKind, u32, Seq<u8>), CodecError> {
    if message.len() < MsgHeader::SIZE {
        Err(CodecError::MissingHeader)
    } else {
        match MsgHeader::of_wire(message.take(12)) {
            None => Err(CodecError::InvalidHeader),
            Some((kind, cid, payload_len)) => if message.len() - 12 != payload_len {
                Err(CodecError::LengthMismatch)
            } else {
                Ok((kind, cid, message.skip(12)))
            },
        }
    }
}

/// The function call that a request's payload stands for.
pub open spec fn request_of(payload: Seq<u8>) -> Result<CallView, CodecError> {
    match payload_parts(payload) {
        Err(error) => Err(error),
        Ok((control, rest)) => match function_call::decoded_call::<Segments>(control, rest) {
            Err(error) => Err(CodecError::Wire(error)),
            Ok(call) => Ok(call),
        },
    }
}

/// The result that a response to request `cid` stands for.
pub open spec fn response_of(message: Seq<u8>, cid: u32) -> Result<ResultView, CodecError> {
    match message_parts(message) {
        Err(error) => Err(error),
        Ok((kind, answered, payload)) => if kind != MsgKind::Response {
            Err(CodecError::NotAResponse)
        } else if answered != cid {
            Err(CodecError::CidMismatch)
        } else {
            match payload_parts(payload) {
                Err(error) => Err(error),
                Ok((control, rest)) => match function_result::decoded_result::<Segments>(
                    control,
                    rest,
                ) {
                    Err(error) => Err(CodecError::Wire(error)),
                    Ok(result) => Ok(result),
                },
            }
        },
    }
}

/// Decode one H2G guest-function request payload.
///
/// Chunked external values keep the H2G slots that hold them.
pub fn decode_request(segments: Segments) -> (decoded: Result<FunctionCall, CodecError>)
    requires
        segments.wf(),
        segments.payload().len() <= usize::MAX,
    ensures
        match request_of(segments.payload()) {
            Ok(view) => decoded is Ok && decoded->Ok_0.call_view() == view,
            Err(error) => decoded is Err && decoded->Err_0 == error,
        },
{
    let (control, external_values) = match decode_payload(segments) {
        Ok(parts) => parts,
        Err(error) => return Err(error),
    };
    let mut source = external_values;
    match FunctionCall::decode(bytes_as_slice(&control), &mut source) {
        Ok(call) => Ok(call),
        Err(error) => Err(CodecError::Wire(error)),
    }
}

/// Decode one G2H host-function response.
///
/// Contiguous byte values are flattened into `Vec<u8>`. Chunked values keep the
/// transport's [`Bytes`].
pub fn decode_response(segments: Segments, cid: u32) -> (decoded: Result<
    FunctionCallResult,
    CodecError,
>)
    requires
        segments.wf(),
        segments.payload().len() <= usize::MAX,
    ensures
        match response_of(segments.payload(), cid) {
            Ok(view) => decoded is Ok && decoded->Ok_0.result_view() == view,
            Err(error) => decoded is Err && decoded->Err_0 == error,
        },
{
    let (header, payload) = match split_header(segments) {
        Ok(parts) => parts,
        Err(error) => return Err(error),
    };
    match header.msg_kind() {
        Ok(MsgKind::Response) => {},
        _ => return Err(CodecError::NotAResponse),
    }
    if header.cid != cid {
        return Err(CodecError::CidMismatch);
    }
    let (control, external_values) = match decode_payload(payload) {
        Ok(parts) => parts,
        Err(error) => return Err(error),
    };
    let mut source = external_values;
    match FunctionCallResult::decode(bytes_as_slice(&control), &mut source) {
        Ok(result) => Ok(result),
        Err(error) => Err(CodecError::Wire(error)),
    }
}

/// Take the header off a message and check the length of what is left.
pub fn split_header(segments: Segments) -> (parts: Result<(MsgHeader, Segments), CodecError>)
    requires
        segments.wf(),
        segments.payload().len() <= usize::MAX,
    ensures
        match message_parts(segments.payload()) {
            Ok((kind, cid, payload)) => {
                &&& parts is Ok
                &&& parts->Ok_0.0.holds(kind, cid, payload.len() as u32)
                &&& parts->Ok_0.1.wf()
                &&& parts->Ok_0.1.payload() == payload
            },
            Err(error) => parts is Err && parts->Err_0 == error,
        },
{
    let mut rest = segments;
    proof {
        buffer::law_split_partitions_payload(rest@, 12);
    }
    let header = match rest.split_to(MsgHeader::SIZE) {
        Some(header) => header.into_bytes(),
        None => return Err(CodecError::MissingHeader),
    };
    let header = match MsgHeader::from_bytes(bytes_as_slice(&header)) {
        Some(header) => header,
        None => return Err(CodecError::InvalidHeader),
    };
    if header.payload_len as u64 != rest.len() as u64 {
        return Err(CodecError::LengthMismatch);
    }
    Ok((header, rest))
}

/// Split control data into a contiguous view while keeping external segments.
pub fn decode_payload(segments: Segments) -> (parts: Result<(Bytes, Segments), CodecError>)
    requires
        segments.wf(),
        segments.payload().len() <= usize::MAX,
    ensures
        match payload_parts(segments.payload()) {
            Ok((control, rest)) => {
                &&& parts is Ok
                &&& octets::octets(parts->Ok_0.0) == control
                &&& parts->Ok_0.1.wf()
                &&& parts->Ok_0.1.payload() == rest
            },
            Err(error) => parts is Err && parts->Err_0 == error,
        },
{
    let mut rest = segments;
    let mut cursor = rest.as_buf();
    let prefix = match cursor.try_copy_to_vec(4) {
        Some(prefix) => prefix,
        None => return Err(CodecError::MissingPrefix),
    };
    let payload_len: usize = match size_prefix_payload_len(prefix.as_slice()) {
        Some(len) => len,
        None => return Err(CodecError::ControlOverflow),
    };
    let control_len: usize = match size_prefixed_len(payload_len) {
        Some(len) => len,
        None => return Err(CodecError::ControlOverflow),
    };
    proof {
        buffer::law_split_partitions_payload(rest@, control_len as int);
    }
    let control = match rest.split_to(control_len) {
        Some(control) => control.into_bytes(),
        None => return Err(CodecError::Truncated),
    };
    Ok((control, rest))
}

} // verus!
