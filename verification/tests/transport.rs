//! Message framing.

use bytes::Bytes;
use hyperlight::flatbuffer_wrappers::codec::ExternalValueSink;
use hyperlight::transport::{
    size_prefix_payload_len, size_prefixed_len, EncodedMessage, ExternalValues, MsgHeader, MsgKind,
    SIZE_PREFIX_LEN,
};

#[test]
fn header_contains_framing_fields() {
    let header = MsgHeader::new(MsgKind::Response, 0x1234_5678, 4096);

    assert_eq!(MsgHeader::SIZE, 12);
    assert_eq!(header.msg_kind(), Ok(MsgKind::Response));
    assert_eq!(header.cid, 0x1234_5678);
    assert_eq!(header.payload_len, 4096);
    assert_eq!(header.reserved, [0; 3]);
}

#[test]
fn rejects_invalid_wire_headers() {
    let header = MsgHeader::new(MsgKind::Request, 1, 4);
    let mut bytes = [0; MsgHeader::SIZE];
    bytes.copy_from_slice(&header.as_bytes());

    bytes[1] = 1;
    assert_eq!(MsgHeader::from_bytes(&bytes), None);

    bytes[1] = 0;
    bytes[0] = u8::MAX;
    assert_eq!(MsgHeader::from_bytes(&bytes), None);

    bytes[0] = MsgKind::Request.code();
    assert_eq!(MsgHeader::from_bytes(&bytes[..MsgHeader::SIZE - 1]), None);
    assert_eq!(MsgHeader::from_bytes(&bytes), Some(header));
}

#[test]
fn header_bytes_read_back() {
    for kind in [MsgKind::Request, MsgKind::Response] {
        let header = MsgHeader::new(kind, 0xdead_beef, 0x0102_0304);
        let bytes = header.as_bytes();
        assert_eq!(bytes[0], kind.code());
        assert_eq!(bytes[1..], [0, 0, 0, 0xef, 0xbe, 0xad, 0xde, 4, 3, 2, 1]);
        assert_eq!(MsgHeader::from_bytes(&bytes), Some(header));
        assert_eq!(MsgKind::try_from(kind.code()), Ok(kind));
    }
    assert_eq!(MsgKind::try_from(200), Err(200));
}

#[test]
fn encoded_message_yields_wire_chunks_in_order() {
    let chunks = [Bytes::from_static(b"ef"), Bytes::from_static(b"gh")];
    let mut external_values = ExternalValues::new();
    external_values.push_bytes(b"cd").unwrap();
    external_values.push_chunks(&chunks).unwrap();

    let message = EncodedMessage::new(MsgKind::Request, 7, b"ab", external_values).unwrap();
    let visited: Vec<_> = message.chunks().into_iter().map(<[u8]>::to_vec).collect();

    assert_eq!(message.total_len(), MsgHeader::SIZE + 8);
    assert_eq!(message.prefix_len(), MsgHeader::SIZE + 2);
    assert_eq!(message.payload_len(), 8);
    assert_eq!(visited[1..], [b"ab", b"cd", b"ef", b"gh"]);
}

#[test]
fn encoded_message_buf_skips_empty_chunks() {
    let mut external_values = ExternalValues::new();
    external_values.chunks.push(&[]);
    external_values.push_bytes(b"ab").unwrap();

    let message = EncodedMessage::new(MsgKind::Request, 7, &[], external_values).unwrap();
    let expected = message
        .chunks()
        .into_iter()
        .flatten()
        .copied()
        .collect::<Vec<_>>();
    let mut cursor = message.as_buf();
    let mut actual = Vec::new();
    while cursor.remaining() > 0 {
        let chunk = cursor.chunk().to_vec();
        assert!(!chunk.is_empty());
        actual.extend_from_slice(&chunk);
        cursor.advance(chunk.len());
    }

    assert_eq!(actual, expected);
    assert_eq!(cursor.remaining(), 0);
}

#[test]
fn encoded_message_buf_advances_by_any_amount() {
    let mut external_values = ExternalValues::new();
    external_values.push_bytes(b"cdef").unwrap();
    let message = EncodedMessage::new(MsgKind::Response, 9, b"ab", external_values).unwrap();
    let mut cursor = message.as_buf();
    cursor.advance(MsgHeader::SIZE + 1);
    assert_eq!(cursor.chunk(), b"b");
    cursor.advance(3);
    assert_eq!(cursor.chunk(), b"ef");
    assert_eq!(cursor.remaining(), 2);
}

#[test]
fn encoded_message_rejects_length_overflow() {
    let external_values = ExternalValues {
        chunks: Vec::new(),
        total_len: usize::MAX,
    };

    assert!(EncodedMessage::new(MsgKind::Request, 7, b"x", external_values).is_none());

    let mut external_values = ExternalValues {
        chunks: Vec::new(),
        total_len: usize::MAX,
    };
    assert!(external_values.push_bytes(b"x").is_err());
    assert!(external_values.chunks.is_empty());

    let chunks = [Bytes::from_static(b"x")];
    assert!(external_values.push_chunks(&chunks).is_err());
    assert!(external_values.chunks.is_empty());
}

#[test]
fn size_prefix_helpers_validate_length() {
    assert_eq!(size_prefix_payload_len(&4u32.to_le_bytes()), Some(4));
    assert_eq!(size_prefix_payload_len(&[0; 3]), None);
    assert_eq!(size_prefixed_len(4), Some(SIZE_PREFIX_LEN + 4));
    assert_eq!(size_prefixed_len(usize::MAX), None);
}

#[test]
fn snapshot_message_is_a_bare_header() {
    let message = EncodedMessage::new_snapshot_cp();
    assert_eq!(message.total_len(), MsgHeader::SIZE);
    assert_eq!(message.payload_len(), 0);
    assert!(message.control().is_empty() && message.external_chunks().is_empty());
    assert_eq!(message.external_len(), 0);
}
