//! Shared guest and host transport protocol.
//!
//! Every logical message starts with a fixed header. It enables message type
//! discrimination, request/response correlation, and payload length validation.

use bytes::Bytes;
use vstd::prelude::*;
use vstd::seq_lib::*;

use crate::flatbuffer_wrappers::codec::ExternalError;
use crate::flatbuffer_wrappers::codec::ExternalValueSink;
use crate::le;
use crate::octets;
use crate::octets::bytes_as_slice;

verus! {

/// Length of a FlatBuffer size prefix.
pub const SIZE_PREFIX_LEN: usize = 4;

/// Message types for the virtqueue wire protocol.
#[derive(Debug, Clone, Copy, PartialEq, Eq, Structural)]
pub enum MsgKind {
    /// A function call request (FunctionCall payload follows).
    Request,
    /// A function call response (FunctionCallResult payload follows).
    Response,
    /// A stream data chunk.
    StreamChunk,
    /// End-of-stream marker.
    StreamEnd,
    /// Cancel a pending request.
    Cancel,
    /// A guest log message (GuestLogData payload follows).
    Log,
    /// Internal request to prepare canonical transport state for snapshotting.
    SnapshotCheckpoint,
}

impl MsgKind {
    /// The kind's value on the wire.
    pub open spec fn wire(self) -> u8 {
        match self {
            MsgKind::Request => 0x01,
            MsgKind::Response => 0x02,
            MsgKind::StreamChunk => 0x03,
            MsgKind::StreamEnd => 0x04,
            MsgKind::Cancel => 0x05,
            MsgKind::Log => 0x06,
            MsgKind::SnapshotCheckpoint => 0x07,
        }
    }

    /// The kind that a value on the wire stands for.
    pub open spec fn of_wire(value: u8) -> Result<MsgKind, u8> {
        if value == 0x01 {
            Ok(MsgKind::Request)
        } else if value == 0x02 {
            Ok(MsgKind::Response)
        } else if value == 0x03 {
            Ok(MsgKind::StreamChunk)
        } else if value == 0x04 {
            Ok(MsgKind::StreamEnd)
        } else if value == 0x05 {
            Ok(MsgKind::Cancel)
        } else if value == 0x06 {
            Ok(MsgKind::Log)
        } else if value == 0x07 {
            Ok(MsgKind::SnapshotCheckpoint)
        } else {
            Err(value)
        }
    }

    /// The kind's value on the wire.
    pub fn code(self) -> (value: u8)
        ensures
            value == self.wire(),
    {
        match self {
            MsgKind::Request => 0x01,
            MsgKind::Response => 0x02,
            MsgKind::StreamChunk => 0x03,
            MsgKind::StreamEnd => 0x04,
            MsgKind::Cancel => 0x05,
            MsgKind::Log => 0x06,
            MsgKind::SnapshotCheckpoint => 0x07,
        }
    }
}

impl TryFrom<u8> for MsgKind {
    type Error = u8;

    fn try_from(value: u8) -> (kind: Result<Self, u8>) {
        match value {
            0x01 => Ok(MsgKind::Request),
            0x02 => Ok(MsgKind::Response),
            0x03 => Ok(MsgKind::StreamChunk),
            0x04 => Ok(MsgKind::StreamEnd),
            0x05 => Ok(MsgKind::Cancel),
            0x06 => Ok(MsgKind::Log),
            0x07 => Ok(MsgKind::SnapshotCheckpoint),
            other => Err(other),
        }
    }
}

impl vstd::std_specs::convert::TryFromSpecImpl<u8> for MsgKind {
    open spec fn obeys_try_from_spec() -> bool {
        true
    }

    open spec fn try_from_spec(value: u8) -> Result<Self, u8> {
        MsgKind::of_wire(value)
    }
}

/// Kinds and their wire values correspond one to one.
pub proof fn law_kind_round_trip(kind: MsgKind, value: u8)
    ensures
        MsgKind::of_wire(kind.wire()) == Ok::<MsgKind, u8>(kind),
        MsgKind::of_wire(value) matches Ok(k) ==> k.wire() == value,
        MsgKind::of_wire(value) is Ok <==> 1 <= value <= 7,
{
}

/// Wire header for all virtqueue messages.
#[derive(Debug, Clone, Copy, PartialEq, Eq)]
pub struct MsgHeader {
    /// Discriminates the message type.
    pub kind: u8,
    /// Keep the header aligned to four bytes.
    pub reserved: [u8; 3],
    /// Caller-assigned correlation ID. Responses echo the request's ID.
    pub cid: u32,
    /// Total number of payload bytes in this logical message.
    pub payload_len: u32,
}

impl MsgHeader {
    /// Bytes of the header on the wire.
    pub const SIZE: usize = 12;

    /// The wire representation.
    pub open spec fn to_wire(self) -> Seq<u8> {
        seq![self.kind] + self.reserved@ + le::le32_bytes(self.cid) + le::le32_bytes(
            self.payload_len,
        )
    }

    /// The header that bytes on the wire stand for.
    pub open spec fn of_wire(bytes: Seq<u8>) -> Option<(MsgKind, u32, u32)> {
        if bytes.len() != 12 || bytes[1] != 0 || bytes[2] != 0 || bytes[3] != 0 {
            None
        } else {
            match MsgKind::of_wire(bytes[0]) {
                Ok(kind) => Some(
                    (
                        kind,
                        le::le32(bytes.subrange(4, 8)) as u32,
                        le::le32(bytes.subrange(8, 12)) as u32,
                    ),
                ),
                Err(_) => None,
            }
        }
    }

    /// The header of a message of a known kind.
    pub open spec fn holds(self, kind: MsgKind, cid: u32, payload_len: u32) -> bool {
        &&& self.kind == kind.wire()
        &&& self.reserved@ == seq![0u8, 0u8, 0u8]
        &&& self.cid == cid
        &&& self.payload_len == payload_len
    }

    /// Create a message header.
    pub fn new(kind: MsgKind, cid: u32, payload_len: u32) -> (header: Self)
        ensures
            header.holds(kind, cid, payload_len),
    {
        let header = MsgHeader { kind: kind.code(), reserved: [0u8, 0u8, 0u8], cid, payload_len };
        proof {
            assert(header.reserved@ =~= seq![0u8, 0u8, 0u8]);
        }
        header
    }

    /// Parse the kind field into a [`MsgKind`] enum.
    pub fn msg_kind(&self) -> (kind: Result<MsgKind, u8>)
        ensures
            kind == MsgKind::of_wire(self.kind),
    {
        MsgKind::try_from(self.kind)
    }

    /// Return the wire representation.
    pub fn as_bytes(&self) -> (bytes: Vec<u8>)
        ensures
            bytes@ == self.to_wire(),
            bytes@.len() == MsgHeader::SIZE,
    {
        let mut bytes: Vec<u8> = Vec::new();
        bytes.push(self.kind);
        bytes.push(self.reserved[0]);
        bytes.push(self.reserved[1]);
        bytes.push(self.reserved[2]);
        proof {
            assert(bytes@ =~= seq![self.kind] + self.reserved@);
        }
        le::push_le32(&mut bytes, self.cid);
        le::push_le32(&mut bytes, self.payload_len);
        bytes
    }

    /// Parse and validate a wire header.
    pub fn from_bytes(bytes: &[u8]) -> (header: Option<Self>)
        ensures
            header is Some <==> MsgHeader::of_wire(bytes@) is Some,
            header matches Some(h) ==> ({
                let (kind, cid, payload_len) = MsgHeader::of_wire(bytes@)->0;
                h.holds(kind, cid, payload_len)
            }),
    {
        if bytes.len() != MsgHeader::SIZE {
            return None;
        }
        if bytes[1] != 0 || bytes[2] != 0 || bytes[3] != 0 {
            return None;
        }
        match MsgKind::try_from(bytes[0]) {
            Ok(kind) => Some(
                MsgHeader::new(
                    kind,
                    le::read_le32(vstd::slice::slice_subrange(bytes, 4, 8)),
                    le::read_le32(vstd::slice::slice_subrange(bytes, 8, 12)),
                ),
            ),
            Err(_) => None,
        }
    }
}

/// Parsing a header's wire bytes gives the header back.
pub proof fn law_header_round_trip(header: MsgHeader, kind: MsgKind, cid: u32, payload_len: u32)
    requires
        header.holds(kind, cid, payload_len),
    ensures
        header.to_wire().len() == MsgHeader::SIZE,
        MsgHeader::of_wire(header.to_wire()) == Some((kind, cid, payload_len)),
{
    law_kind_round_trip(kind, 0);
    le::law_le32_round_trip(cid);
    le::law_le32_round_trip(payload_len);
    let bytes = header.to_wire();
    assert(bytes.subrange(4, 8) =~= le::le32_bytes(cid));
    assert(bytes.subrange(8, 12) =~= le::le32_bytes(payload_len));
    assert(header.reserved@[0] == 0 && header.reserved@[1] == 0 && header.reserved@[2] == 0);
    assert(bytes[1] == header.reserved@[0]);
    assert(bytes[2] == header.reserved@[1]);
    assert(bytes[3] == header.reserved@[2]);
}

/// The bytes of each slice.
pub open spec fn slice_views(chunks: Seq<&[u8]>) -> Seq<Seq<u8>> {
    chunks.map_values(|c: &[u8]| c@)
}

/// The byte sequences that are not empty.
pub open spec fn nonempty(chunks: Seq<Seq<u8>>) -> Seq<Seq<u8>> {
    chunks.filter(|c: Seq<u8>| c.len() != 0)
}

/// What a collection of external values holds.
#[verifier::ext_equal]
pub struct ExternalView {
    /// The chunks in wire order.
    pub chunks: Seq<Seq<u8>>,
    /// The length that was counted.
    pub total: nat,
}

/// Borrowed external values collected while encoding a FlatBuffer.
#[derive(Debug)]
pub struct ExternalValues<'a> {
    pub chunks: Vec<&'a [u8]>,
    pub total_len: usize,
}

impl<'a> ExternalValues<'a> {
    /// The collected chunks in wire order.
    pub open spec fn values(&self) -> Seq<Seq<u8>> {
        slice_views(self.chunks@)
    }

    /// The length counts the bytes of the chunks.
    pub open spec fn wf(&self) -> bool {
        self.total_len == self.values().flatten().len()
    }

    /// Create an empty collection.
    pub fn new() -> (values: Self)
        ensures
            values.wf(),
            values.values() == Seq::<Seq<u8>>::empty(),
    {
        let values = ExternalValues { chunks: Vec::new(), total_len: 0 };
        proof {
            assert(values.values() =~= Seq::<Seq<u8>>::empty());
        }
        values
    }

    /// Total byte length of all collected values.
    pub fn total_len(&self) -> (len: usize)
        ensures
            len == self.total_len,
    {
        self.total_len
    }

}

/// Empty chunks leave no trace. A value whose length overflows the count is refused and
/// leaves no trace either.
impl<'a> ExternalValueSink<'a> for ExternalValues<'a> {
    type State = ExternalView;

    open spec fn state(&self) -> ExternalView {
        ExternalView { chunks: self.values(), total: self.total_len as nat }
    }

    open spec fn offer(state: ExternalView, value: Seq<Seq<u8>>, chunked: bool) -> Option<
        ExternalView,
    > {
        if state.total + value.flatten().len() <= usize::MAX {
            Some(
                ExternalView {
                    chunks: state.chunks + nonempty(value),
                    total: state.total + value.flatten().len(),
                },
            )
        } else {
            None
        }
    }

    fn push_bytes(&mut self, value: &'a [u8]) -> (pushed: Result<(), ExternalError>)
        ensures
            pushed is Err ==> *final(self) == *old(self),
            old(self).wf() ==> final(self).wf(),
    {
        proof {
            lemma_nonempty_one(value@);
            seq![value@].lemma_flatten_one_element();
        }
        if value.len() == 0 {
            proof {
                assert(self.values() + nonempty(seq![value@]) =~= self.values());
            }
            return Ok(());
        }
        let ghost before = self.values();
        self.total_len = match self.total_len.checked_add(value.len()) {
            Some(total) => total,
            None => return Err(ExternalError),
        };
        self.chunks.push(value);
        proof {
            assert(self.values() =~= before.push(value@));
            before.lemma_flatten_push(value@);
            assert(before.push(value@) =~= before + nonempty(seq![value@]));
        }
        Ok(())
    }

    fn push_chunks(&mut self, value: &'a [Bytes]) -> (pushed: Result<(), ExternalError>)
        ensures
            pushed is Err ==> *final(self) == *old(self),
            old(self).wf() ==> final(self).wf(),
    {
        let ghost all = octets::all_octets(value@);
        let ghost before = self.values();
        let mut total: usize = self.total_len;
        let mut i: usize = 0;
        proof {
            assert(all.take(0) =~= Seq::<Seq<u8>>::empty());
        }
        while i < value.len()
            invariant
                i <= value@.len(),
                all == octets::all_octets(value@),
                *self == *old(self),
                total == self.total_len + all.take(i as int).flatten().len(),
            decreases value@.len() - i,
        {
            proof {
                assert(all.take(i + 1) =~= all.take(i as int).push(all[i as int]));
                all.take(i as int).lemma_flatten_push(all[i as int]);
                lemma_flatten_concat(all.take(i + 1), all.skip(i + 1));
                assert(all.take(i + 1) + all.skip(i + 1) =~= all);
            }
            total = match total.checked_add(bytes_as_slice(&value[i]).len()) {
                Some(total) => total,
                None => return Err(ExternalError),
            };
            i += 1;
        }
        proof {
            assert(all.take(i as int) =~= all);
        }
        let mut k: usize = 0;
        proof {
            assert(nonempty(all.take(0)) =~= Seq::<Seq<u8>>::empty()) by {
                reveal(Seq::filter);
            }
            assert(before + nonempty(all.take(0)) =~= before);
        }
        while k < value.len()
            invariant
                k <= value@.len(),
                all == octets::all_octets(value@),
                self.total_len == old(self).total_len,
                before == old(self).values(),
                self.values() == before + nonempty(all.take(k as int)),
            decreases value@.len() - k,
        {
            let chunk = bytes_as_slice(&value[k]);
            let ghost so_far = self.values();
            proof {
                assert(all.take(k + 1) =~= all.take(k as int).push(chunk@));
                lemma_nonempty_push(all.take(k as int), chunk@);
            }
            if chunk.len() != 0 {
                self.chunks.push(chunk);
                proof {
                    assert(self.values() =~= so_far.push(chunk@));
                    assert(so_far.push(chunk@) =~= before + nonempty(all.take(k as int)).push(
                        chunk@,
                    ));
                }
            }
            k += 1;
        }
        self.total_len = total;
        proof {
            assert(all.take(k as int) =~= all);
            lemma_nonempty_flatten(all);
            lemma_flatten_concat(before, nonempty(all));
        }
        Ok(())
    }
}

proof fn lemma_nonempty_push(chunks: Seq<Seq<u8>>, chunk: Seq<u8>)
    ensures
        nonempty(chunks.push(chunk)) == if chunk.len() != 0 {
            nonempty(chunks).push(chunk)
        } else {
            nonempty(chunks)
        },
{
    reveal(Seq::filter);
    assert(chunks.push(chunk).drop_last() =~= chunks);
}

proof fn lemma_nonempty_one(chunk: Seq<u8>)
    ensures
        nonempty(seq![chunk]) == if chunk.len() != 0 {
            seq![chunk]
        } else {
            Seq::empty()
        },
{
    lemma_nonempty_push(Seq::empty(), chunk);
    reveal(Seq::filter);
    assert(Seq::<Seq<u8>>::empty().push(chunk) =~= seq![chunk]);
    assert(nonempty(Seq::empty()) =~= Seq::<Seq<u8>>::empty());
    if chunk.len() != 0 {
        assert(Seq::<Seq<u8>>::empty().push(chunk) =~= seq![chunk]);
    }
}

/// Dropping empty chunks drops no bytes.
pub proof fn lemma_nonempty_flatten(chunks: Seq<Seq<u8>>)
    ensures
        nonempty(chunks).flatten() == chunks.flatten(),
    decreases chunks.len(),
{
    if chunks.len() > 0 {
        let head = chunks.drop_last();
        let last = chunks.last();
        lemma_nonempty_flatten(head);
        assert(head.push(last) =~= chunks);
        lemma_nonempty_push(head, last);
        head.lemma_flatten_push(last);
        if last.len() != 0 {
            nonempty(head).lemma_flatten_push(last);
        } else {
            assert(head.flatten() + last =~= head.flatten());
        }
    } else {
        reveal(Seq::filter);
        assert(nonempty(chunks) =~= chunks);
    }
}

/// Borrowed wire message split into transport-ready chunks.
#[derive(Debug)]
pub struct EncodedMessage<'a> {
    header: MsgHeader,
    header_wire: Vec<u8>,
    control: &'a [u8],
    externals: ExternalValues<'a>,
    total_len: usize,
}

impl<'a> EncodedMessage<'a> {
    pub closed spec fn header_view(&self) -> MsgHeader {
        self.header
    }

    pub closed spec fn control_view(&self) -> Seq<u8> {
        self.control@
    }

    pub closed spec fn external_values(&self) -> Seq<Seq<u8>> {
        self.externals.values()
    }

    /// The message as it goes on the wire.
    pub open spec fn wire(&self) -> Seq<u8> {
        self.wire_chunks().flatten()
    }

    /// The message's chunks in transmission order.
    pub open spec fn wire_chunks(&self) -> Seq<Seq<u8>> {
        seq![self.header_view().to_wire(), self.control_view()] + self.external_values()
    }

    /// The lengths in the header and beside it count what follows.
    pub closed spec fn wf(&self) -> bool {
        &&& self.header_wire@ == self.header.to_wire()
        &&& self.externals.wf()
        &&& self.control@.len() + self.externals.total_len == self.header.payload_len
        &&& self.total_len == 12 + self.header.payload_len
    }

    /// Build a message, returning `None` if its payload exceeds the wire field.
    pub fn new(kind: MsgKind, cid: u32, control: &'a [u8], externals: ExternalValues<'a>) -> (
        message: Option<Self>)
        ensures
            message is Some <==> control@.len() + externals.total_len <= u32::MAX && control@.len()
                + externals.total_len + 12 <= usize::MAX,
            message matches Some(m) ==> {
                &&& externals.wf() ==> m.wf()
                &&& m.header_view().holds(
                    kind,
                    cid,
                    (control@.len() + externals.total_len) as u32,
                )
                &&& m.control_view() == control@
                &&& m.external_values() == externals.values()
            },
    {
        let payload_len: usize = match control.len().checked_add(externals.total_len) {
            Some(len) => len,
            None => return None,
        };
        if payload_len > u32::MAX as usize {
            return None;
        }
        let total_len: usize = match MsgHeader::SIZE.checked_add(payload_len) {
            Some(len) => len,
            None => return None,
        };
        let header = MsgHeader::new(kind, cid, payload_len as u32);
        let header_wire = header.as_bytes();
        Some(EncodedMessage { header, header_wire, control, externals, total_len })
    }

    /// Build a snapshot checkpoint message with no payload.
    pub fn new_snapshot_cp() -> (message: Self)
        ensures
            message.wf(),
            message.header_view().holds(MsgKind::SnapshotCheckpoint, 0, 0),
            message.control_view() == Seq::<u8>::empty(),
            message.external_values() == Seq::<Seq<u8>>::empty(),
    {
        let header = MsgHeader::new(MsgKind::SnapshotCheckpoint, 0, 0);
        let header_wire = header.as_bytes();
        let control: &[u8] = &[];
        proof {
            assert(control@ =~= Seq::<u8>::empty());
        }
        EncodedMessage {
            header,
            header_wire,
            control,
            externals: ExternalValues::new(),
            total_len: MsgHeader::SIZE,
        }
    }

    /// The message is as long as its header says.
    pub proof fn lemma_wire_len(&self)
        requires
            self.wf(),
        ensures
            self.wire().len() == 12 + self.header_view().payload_len,
            self.header_view().to_wire().len() == 12,
            self.control_view().len() + self.external_values().flatten().len()
                == self.header_view().payload_len,
            self.wire() == self.header_view().to_wire() + self.control_view()
                + self.external_values().flatten(),
    {
        let parts = seq![self.header_view().to_wire(), self.control_view()];
        lemma_flatten_concat(parts, self.external_values());
        reveal_with_fuel(Seq::<_>::flatten, 3);
        assert(parts.drop_first().drop_first() =~= Seq::<Seq<u8>>::empty());
        assert(parts.flatten() =~= self.header_view().to_wire() + self.control_view());
    }

    /// Borrow the complete wire message as a byte cursor.
    pub fn as_buf(&self) -> (cursor: EncodedMessageBuf<'_>)
        requires
            self.wf(),
        ensures
            cursor.wf(),
            cursor.rest() == self.wire(),
    {
        proof {
            self.lemma_wire_len();
        }
        EncodedMessageBuf::new(self.chunks(), self.total_len)
    }

    /// The complete wire message in transmission order.
    pub fn chunks(&self) -> (chunks: Vec<&[u8]>)
        requires
            self.wf(),
        ensures
            slice_views(chunks@) == self.wire_chunks(),
    {
        let mut chunks: Vec<&[u8]> = Vec::new();
        chunks.push(self.header_wire.as_slice());
        chunks.push(self.control);
        let externals = self.externals.chunks.as_slice();
        let mut i: usize = 0;
        proof {
            assert(slice_views(chunks@) =~= self.wire_chunks().take(2));
        }
        while i < externals.len()
            invariant
                self.wf(),
                i <= externals@.len(),
                externals@ == self.externals.chunks@,
                slice_views(chunks@) =~= self.wire_chunks().take(i + 2),
            decreases externals@.len() - i,
        {
            let ghost before = slice_views(chunks@);
            chunks.push(externals[i]);
            proof {
                assert(self.wire_chunks()[i + 2] == externals@[i as int]@);
                assert(slice_views(chunks@) =~= before.push(externals@[i as int]@));
            }
            i += 1;
        }
        chunks
    }

    /// External transport chunks in wire order.
    pub fn external_chunks(&self) -> (chunks: &[&'a [u8]])
        ensures
            slice_views(chunks@) == self.external_values(),
    {
        self.externals.chunks.as_slice()
    }

    /// Message header.
    pub fn header(&self) -> (header: &MsgHeader)
        ensures
            *header == self.header_view(),
    {
        &self.header
    }

    /// Size-prefixed FlatBuffer control data.
    pub fn control(&self) -> (control: &[u8])
        ensures
            control@ == self.control_view(),
    {
        self.control
    }

    /// Total external byte-stream length.
    pub fn external_len(&self) -> (len: usize)
        requires
            self.wf(),
        ensures
            len == self.external_values().flatten().len(),
    {
        self.externals.total_len
    }

    /// Length of the header and control prefix before external bytes.
    pub fn prefix_len(&self) -> (len: usize)
        requires
            self.wf(),
        ensures
            len == 12 + self.control_view().len(),
    {
        MsgHeader::SIZE + self.control.len()
    }

    /// Logical payload length after the header.
    pub fn payload_len(&self) -> (len: usize)
        ensures
            len == self.header_view().payload_len,
    {
        self.header.payload_len as usize
    }

    /// Total wire length of all chunks.
    pub fn total_len(&self) -> (len: usize)
        requires
            self.wf(),
        ensures
            len == self.wire().len(),
    {
        proof {
            self.lemma_wire_len();
        }
        self.total_len
    }
}

/// Borrowed cursor over an [`EncodedMessage`].
///
/// Advancing the cursor does not mutate the message or copy its chunks.
pub struct EncodedMessageBuf<'a> {
    chunks: Vec<&'a [u8]>,
    index: usize,
    offset: usize,
    remaining: usize,
}

impl<'a> EncodedMessageBuf<'a> {
    /// The bytes of the chunk the cursor stands in, from the cursor on.
    pub closed spec fn head(&self) -> Seq<u8> {
        if self.index < self.chunks@.len() {
            self.chunks@[self.index as int]@.skip(self.offset as int)
        } else {
            Seq::empty()
        }
    }

    /// All bytes from the cursor on.
    pub closed spec fn rest(&self) -> Seq<u8> {
        if self.index < self.chunks@.len() {
            self.head() + slice_views(self.chunks@).skip(self.index + 1).flatten()
        } else {
            Seq::empty()
        }
    }

    /// The cursor is inside its chunk, possibly behind its last byte.
    spec fn placed(&self) -> bool {
        &&& self.index <= self.chunks@.len()
        &&& self.index == self.chunks@.len() ==> self.offset == 0
        &&& self.index < self.chunks@.len() ==> self.offset <= self.chunks@[self.index as int]@.len()
        &&& self.remaining == self.rest().len()
    }

    /// The cursor stands on a byte, or at the end.
    pub closed spec fn wf(&self) -> bool {
        &&& self.placed()
        &&& self.index < self.chunks@.len() ==> self.head().len() > 0
    }

    fn new(chunks: Vec<&'a [u8]>, remaining: usize) -> (cursor: Self)
        requires
            remaining == slice_views(chunks@).flatten().len(),
        ensures
            cursor.wf(),
            cursor.rest() == slice_views(chunks@).flatten(),
    {
        let mut this = EncodedMessageBuf { chunks, index: 0, offset: 0, remaining };
        proof {
            let all = slice_views(this.chunks@);
            if all.len() > 0 {
                assert(all.skip(1) =~= all.drop_first());
                assert(this.chunks@[0]@.skip(0) =~= all[0]);
            }
            assert(this.rest() =~= all.flatten());
        }
        this.skip_empty_chunks();
        this
    }

    fn skip_empty_chunks(&mut self)
        requires
            old(self).placed(),
        ensures
            final(self).wf(),
            final(self).rest() == old(self).rest(),
            final(self).chunks@ == old(self).chunks@,
    {
        while self.index < self.chunks.len() && self.offset >= self.chunks[self.index].len()
            invariant
                self.placed(),
                self.rest() == old(self).rest(),
                self.chunks@ == old(self).chunks@,
            decreases self.chunks@.len() - self.index,
        {
            let ghost before = *self;
            self.index = self.index + 1;
            self.offset = 0;
            proof {
                let all = slice_views(self.chunks@);
                let i = self.index as int;
                if i < all.len() {
                    assert(all.skip(i).drop_first() =~= all.skip(i + 1));
                    assert(self.chunks@[i]@.skip(0) =~= all[i]);
                } else {
                    assert(all.skip(i) =~= Seq::<Seq<u8>>::empty());
                }
                assert(self.rest() =~= before.rest());
            }
        }
    }

    /// Bytes from the cursor to the end.
    pub fn remaining(&self) -> (len: usize)
        requires
            self.wf(),
        ensures
            len == self.rest().len(),
    {
        self.remaining
    }

    proof fn lemma_head(&self)
        requires
            self.wf(),
        ensures
            self.head() == self.rest().take(self.head().len() as int),
            self.head().len() == 0 <==> self.rest().len() == 0,
    {
        assert(self.head() =~= self.rest().take(self.head().len() as int));
    }

    /// The bytes of the chunk the cursor stands in; empty only at the end.
    pub fn chunk(&self) -> (chunk: &[u8])
        requires
            self.wf(),
        ensures
            chunk@ == self.head(),
            chunk@.len() == 0 <==> self.rest().len() == 0,
            chunk@ == self.rest().take(chunk@.len() as int),
    {
        proof {
            self.lemma_head();
        }
        if self.index >= self.chunks.len() {
            return &[];
        }
        let chunk = self.chunks[self.index];
        proof {
            assert(chunk@.subrange(self.offset as int, chunk@.len() as int) =~= self.head());
        }
        vstd::slice::slice_subrange(chunk, self.offset, chunk.len())
    }

    /// Move the cursor `step` bytes on inside its chunk.
    fn advance_inside(&mut self, step: usize)
        requires
            old(self).wf(),
            0 < step <= old(self).head().len(),
        ensures
            final(self).wf(),
            final(self).rest() == old(self).rest().skip(step as int),
    {
        let ghost before = *self;
        proof {
            self.lemma_head();
        }
        let size: usize = self.chunks[self.index].len();
        let behind: usize = size - self.offset - step;
        self.offset = size - behind;
        self.remaining = self.remaining - step;
        proof {
            assert(self.head() =~= before.head().skip(step as int));
            assert(self.rest() =~= before.rest().skip(step as int));
        }
        self.skip_empty_chunks();
    }

    /// Move the cursor past `cnt` bytes.
    pub fn advance(&mut self, cnt: usize)
        requires
            old(self).wf(),
            cnt <= old(self).rest().len(),
        ensures
            final(self).wf(),
            final(self).rest() == old(self).rest().skip(cnt as int),
    {
        let ghost start = self.rest();
        let mut left: usize = cnt;
        proof {
            assert(start.skip(0) =~= start);
        }
        while left > 0
            invariant
                self.wf(),
                left <= cnt <= start.len(),
                start == old(self).rest(),
                self.rest() == start.skip(cnt - left),
            decreases left,
        {
            let in_chunk: usize = self.chunk().len();
            let step: usize = if in_chunk < left {
                in_chunk
            } else {
                left
            };
            self.advance_inside(step);
            left = left - step;
            proof {
                assert(self.rest() =~= start.skip(cnt - left));
            }
        }
    }
}

/// Decode a FlatBuffer size prefix.
pub fn size_prefix_payload_len(prefix: &[u8]) -> (len: Option<usize>)
    ensures
        len is Some <==> prefix@.len() == 4 && le::le32(prefix@) <= usize::MAX,
        len matches Some(n) ==> n == le::le32(prefix@),
{
    if prefix.len() != SIZE_PREFIX_LEN {
        return None;
    }
    Some(le::read_le32(prefix) as usize)
}

/// Add the FlatBuffer size prefix to a payload length.
pub fn size_prefixed_len(payload_len: usize) -> (len: Option<usize>)
    ensures
        len is Some <==> payload_len + 4 <= usize::MAX,
        len matches Some(n) ==> n == payload_len + 4,
{
    SIZE_PREFIX_LEN.checked_add(payload_len)
}

/// A kind that was written as its value reads back as that kind, and no other value reads as
/// a kind.
pub proof fn law_written_kinds_read_back(kind: MsgKind, value: u8)
    ensures
        <MsgKind as vstd::std_specs::convert::TryFromSpec<u8>>::try_from_spec(kind.wire()) == Ok::<
            MsgKind,
            u8,
        >(kind),
        value == 0 || value > 7 ==> <MsgKind as vstd::std_specs::convert::TryFromSpec<
            u8,
        >>::try_from_spec(value) == Err::<MsgKind, u8>(value),
        MsgKind::Request.wire() == 1,
        MsgKind::Response.wire() == 2,
        MsgKind::StreamChunk.wire() == 3,
        MsgKind::StreamEnd.wire() == 4,
        MsgKind::Cancel.wire() == 5,
        MsgKind::Log.wire() == 6,
        MsgKind::SnapshotCheckpoint.wire() == 7,
{
}

/// Each field of a header stands in its own bytes: the kind first, then three reserved bytes,
/// the identifier, and the length of the payload.
pub proof fn law_header_fields_are_in_place(header: MsgHeader)
    ensures
        ({
            let bytes = header.to_wire();
            &&& bytes.len() == 12
            &&& bytes[0] == header.kind
            &&& bytes.subrange(1, 4) == header.reserved@
            &&& le::le32(bytes.subrange(4, 8)) == header.cid
            &&& le::le32(bytes.subrange(8, 12)) == header.payload_len
        }),
{
    le::law_le32_round_trip(header.cid);
    le::law_le32_round_trip(header.payload_len);
    let bytes = header.to_wire();
    assert(bytes.subrange(1, 4) =~= header.reserved@);
    assert(bytes.subrange(4, 8) =~= le::le32_bytes(header.cid));
    assert(bytes.subrange(8, 12) =~= le::le32_bytes(header.payload_len));
}

/// A header is read only where the reserved bytes are zero and the kind is known; the kind, the
/// identifier and the length are then those of their bytes.
pub proof fn law_header_is_read_from_its_place(bytes: Seq<u8>)
    requires
        bytes.len() == 12,
    ensures
        MsgHeader::of_wire(bytes) is Some <==> bytes.subrange(1, 4) == seq![0u8, 0u8, 0u8] && 1
            <= bytes[0] <= 7,
        MsgHeader::of_wire(bytes) matches Some((kind, cid, len)) ==> kind.wire() == bytes[0] && cid
            == le::le32(bytes.subrange(4, 8)) && len == le::le32(bytes.subrange(8, 12)),
{
    law_kind_round_trip(MsgKind::Request, bytes[0]);
    let reserved = bytes.subrange(1, 4);
    assert(reserved[0] == bytes[1] && reserved[1] == bytes[2] && reserved[2] == bytes[3]);
    if bytes[1] == 0 && bytes[2] == 0 && bytes[3] == 0 {
        assert(reserved =~= seq![0u8, 0u8, 0u8]);
    }
    le::law_bytes_are_digits(bytes.subrange(0, 2), bytes.subrange(4, 8), bytes.subrange(0, 8));
    le::law_bytes_are_digits(bytes.subrange(0, 2), bytes.subrange(8, 12), bytes.subrange(0, 8));
}

/// A value that is collected goes behind those that were collected before, every byte of it
/// and no empty chunk; it is refused exactly where the length can no longer be counted.
pub proof fn law_collected_values_follow_each_other(
    state: ExternalView,
    value: Seq<Seq<u8>>,
    chunked: bool,
)
    ensures
        match <ExternalValues<'_> as ExternalValueSink<'_>>::offer(state, value, chunked) {
            Some(after) => {
                &&& after.chunks.flatten() == state.chunks.flatten() + value.flatten()
                &&& after.total == state.total + value.flatten().len()
                &&& after.chunks.take(state.chunks.len() as int) == state.chunks
                &&& forall|i: int|
                    state.chunks.len() <= i < after.chunks.len() ==> (#[trigger]
                    after.chunks[i]).len() > 0 && value.contains(after.chunks[i])
            },
            None => state.total + value.flatten().len() > usize::MAX,
        },
{
    if state.total + value.flatten().len() <= usize::MAX {
        let kept = nonempty(value);
        let after = state.chunks + kept;
        lemma_nonempty_flatten(value);
        lemma_flatten_concat(state.chunks, kept);
        assert(after.take(state.chunks.len() as int) =~= state.chunks);
        assert forall|i: int| state.chunks.len() <= i < after.len() implies (#[trigger]
        after[i]).len() > 0 && value.contains(after[i]) by {
            lemma_nonempty_members(value);
            assert(after[i] == kept[i - state.chunks.len()]);
        }
    }
}

proof fn lemma_nonempty_members(chunks: Seq<Seq<u8>>)
    ensures
        forall|i: int|
            0 <= i < nonempty(chunks).len() ==> (#[trigger] nonempty(chunks)[i]).len() > 0
                && chunks.contains(nonempty(chunks)[i]),
    decreases chunks.len(),
{
    if chunks.len() > 0 {
        let head = chunks.drop_last();
        let last = chunks.last();
        lemma_nonempty_members(head);
        assert(head.push(last) =~= chunks);
        lemma_nonempty_push(head, last);
        assert forall|i: int| 0 <= i < nonempty(chunks).len() implies (#[trigger] nonempty(
            chunks,
        )[i]).len() > 0 && chunks.contains(nonempty(chunks)[i]) by {
            if i < nonempty(head).len() {
                let one = nonempty(head)[i];
                assert(head.contains(one));
                let k = choose|k: int| 0 <= k < head.len() && head[k] == one;
                assert(chunks[k] == one);
            } else {
                assert(chunks[chunks.len() - 1] == last);
            }
        }
    } else {
        reveal(Seq::filter);
        assert(nonempty(chunks) =~= chunks);
    }
}

/// On the wire a message is its header, its control bytes and then its external values.
pub proof fn law_message_follows_its_header(message: EncodedMessage<'_>)
    ensures
        message.wire() == message.header_view().to_wire() + message.control_view()
            + message.external_values().flatten(),
        message.wf() ==> message.wire().len() == MsgHeader::SIZE
            + message.header_view().payload_len,
{
    let first = seq![message.header_view().to_wire(), message.control_view()];
    lemma_flatten_concat(first, message.external_values());
    assert(first =~= Seq::<Seq<u8>>::empty().push(message.header_view().to_wire()).push(
        message.control_view(),
    ));
    let none = Seq::<Seq<u8>>::empty();
    let one = none.push(message.header_view().to_wire());
    one.lemma_flatten_push(message.control_view());
    none.lemma_flatten_push(message.header_view().to_wire());
    assert(none.flatten() =~= Seq::<u8>::empty());
    assert(one.flatten() =~= message.header_view().to_wire());
    law_header_fields_are_in_place(message.header_view());
}

} // verus!
