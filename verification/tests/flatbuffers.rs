//! Function calls and results as FlatBuffers.

use std::collections::VecDeque;

use bytes::Bytes;
use flatbuffers::FlatBufferBuilder;
use hyperlight::flatbuffer_wrappers::builder::FlatBuilder;
use hyperlight::flatbuffer_wrappers::codec::{
    ExternalError, ExternalValueSink, ExternalValueSource,
};
use hyperlight::flatbuffer_wrappers::function_call::{FunctionCall, FunctionCallType};
use hyperlight::flatbuffer_wrappers::function_result::FunctionCallResult;
use hyperlight::flatbuffer_wrappers::function_types::{
    ParameterType, ParameterValue, ReturnType, ReturnValue, Subject, UnexpectedType, WireError,
};
use hyperlight::flatbuffer_wrappers::guest_error::{ErrorCode, GuestError};
use hyperlight::flatbuffer_wrappers::guest_log_data::{GuestLogData, LogLevel};
use hyperlight::flatbuffer_wrappers::util::try_byte_chunks_len;
use hyperlight::flatbuffer_wrappers::values::{decode_parameter_value, decode_return_value};
use hyperlight::flatbuffer_wrappers::wire::{
    read_parameter, read_return, ParameterTag, ReturnTag, ValueTable,
};

#[derive(Debug, Clone, PartialEq)]
enum TestExternalValue {
    VecBytes(Vec<u8>),
    ByteChunks(Vec<Bytes>),
}

#[derive(Default)]
struct TestExternalValues {
    values: VecDeque<TestExternalValue>,
}

impl TestExternalValues {
    fn from_values(values: impl IntoIterator<Item = TestExternalValue>) -> Self {
        Self {
            values: values.into_iter().collect(),
        }
    }
}

impl<'a> ExternalValueSink<'a> for TestExternalValues {
    type State = ();

    fn push_bytes(&mut self, value: &'a [u8]) -> Result<(), ExternalError> {
        self.values
            .push_back(TestExternalValue::VecBytes(value.to_vec()));
        Ok(())
    }

    fn push_chunks(&mut self, value: &'a [Bytes]) -> Result<(), ExternalError> {
        self.values
            .push_back(TestExternalValue::ByteChunks(value.to_vec()));
        Ok(())
    }
}

impl ExternalValueSource for TestExternalValues {
    type State = ();

    fn take_bytes(&mut self, _length: usize) -> Result<Vec<u8>, ExternalError> {
        match self.values.pop_front() {
            Some(TestExternalValue::VecBytes(value)) => Ok(value),
            _ => Err(ExternalError),
        }
    }

    fn take_chunks(&mut self, _length: usize) -> Result<Vec<Bytes>, ExternalError> {
        match self.values.pop_front() {
            Some(TestExternalValue::ByteChunks(value)) => Ok(value),
            _ => Err(ExternalError),
        }
    }

    fn finish(&mut self) -> Result<(), ExternalError> {
        if self.values.is_empty() {
            Ok(())
        } else {
            Err(ExternalError)
        }
    }
}

fn u16_at(buf: &[u8], pos: usize) -> usize {
    u16::from_le_bytes([buf[pos], buf[pos + 1]]) as usize
}

fn u32_at(buf: &[u8], pos: usize) -> usize {
    u32::from_le_bytes(buf[pos..pos + 4].try_into().unwrap()) as usize
}

/// The position that the offset at `pos` points at.
fn follow(buf: &[u8], pos: usize) -> usize {
    pos + u32_at(buf, pos)
}

/// Where a table keeps a slot.
fn slot(buf: &[u8], table: usize, slot: usize) -> Option<usize> {
    let vtable = (table as i64 - u32_at(buf, table) as u32 as i32 as i64) as usize;
    if slot >= u16_at(buf, vtable) {
        return None;
    }
    match u16_at(buf, vtable + slot) {
        0 => None,
        offset => Some(table + offset),
    }
}

#[test]
fn parameter_value_wire_tags_are_stable() {
    let tags = [
        ParameterTag::Absent,
        ParameterTag::Int,
        ParameterTag::UInt,
        ParameterTag::Long,
        ParameterTag::ULong,
        ParameterTag::Float,
        ParameterTag::Double,
        ParameterTag::String,
        ParameterTag::Bool,
        ParameterTag::ExternalBytes,
    ];

    // Tag 9 is reserved for embedded byte vectors.
    assert_eq!(tags.map(|tag| tag.code()), [0, 1, 2, 3, 4, 5, 6, 7, 8, 10]);
}

#[test]
fn return_value_wire_tags_are_stable() {
    let tags = [
        ReturnTag::Absent,
        ReturnTag::Int,
        ReturnTag::UInt,
        ReturnTag::Long,
        ReturnTag::ULong,
        ReturnTag::Float,
        ReturnTag::Double,
        ReturnTag::String,
        ReturnTag::Bool,
        ReturnTag::Void,
        ReturnTag::ExternalBytes,
    ];

    // Tag 10 is reserved for embedded size-prefixed buffers.
    assert_eq!(
        tags.map(|tag| tag.code()),
        [0, 1, 2, 3, 4, 5, 6, 7, 8, 9, 11]
    );
}

#[test]
fn logical_byte_type_tags_are_stable() {
    assert_eq!(ParameterType::VecBytes.code(), 8);
    assert_eq!(ParameterType::ByteChunks.code(), 9);
    assert_eq!(ReturnType::VecBytes.code(), 9);
    assert_eq!(ReturnType::ByteChunks.code(), 10);
}

#[test]
fn type_tags_read_back() {
    for tag in 0..=9u8 {
        assert_eq!(ParameterType::try_from(tag).unwrap().code(), tag);
    }
    assert!(ParameterType::try_from(10).is_err());
    for tag in 0..=10u8 {
        assert_eq!(ReturnType::try_from(tag).unwrap().code(), tag);
    }
    assert!(ReturnType::try_from(11).is_err());
    assert_eq!(ReturnType::default(), ReturnType::Int);
}

#[test]
fn embedded_parameter_tag_is_reserved_and_rejected() {
    let mut builder = FlatBufferBuilder::new();
    let bytes = builder.create_vector(&[1u8, 2, 3]);

    // Build the retired byte-vector table without its generated type.
    let start = builder.start_table();
    builder.push_slot_always(4, bytes);
    let value = builder.end_table(start);
    let start = builder.start_table();
    builder.push_slot_always(6, value);
    builder.push_slot::<u8>(4, 9, 0);
    let parameter = builder.end_table(start);
    builder.finish(parameter, None);

    let data = builder.finished_data();
    let table = read_parameter(data, follow(data, 0)).unwrap();
    let mut externals = TestExternalValues::default();
    assert!(matches!(
        decode_parameter_value(table, &mut externals),
        Err(WireError::ParameterTag(9))
    ));
    let table = read_parameter(data, follow(data, 0)).unwrap();
    assert!(ParameterValue::try_from(table).is_err());
}

#[test]
fn embedded_return_tag_is_reserved_and_rejected() {
    let mut builder = FlatBufferBuilder::new();
    let bytes = builder.create_vector(&[1u8, 2, 3]);

    // Build the retired size-prefixed table without its generated type.
    let start = builder.start_table();
    builder.push_slot_always(6, bytes);
    builder.push_slot::<i32>(4, 3, 0);
    let value = builder.end_table(start);
    let start = builder.start_table();
    builder.push_slot_always(6, value);
    builder.push_slot::<u8>(4, 10, 0);
    let return_value = builder.end_table(start);
    builder.finish(return_value, None);

    let data = builder.finished_data();
    let table = read_return(data, follow(data, 0)).unwrap();
    let mut externals = TestExternalValues::default();
    assert!(matches!(
        decode_return_value(table, &mut externals),
        Err(WireError::ReturnTag(10))
    ));
    let table = read_return(data, follow(data, 0)).unwrap();
    assert!(ReturnValue::try_from(table).is_err());
}

#[test]
fn encode_success_result() {
    let mut builder = FlatBuilder::new();
    let mut external_values = TestExternalValues::default();

    let result = FunctionCallResult::new(Ok(ReturnValue::Int(42)));
    let test_data = result.encode(&mut builder, &mut external_values).unwrap();

    let function_call_result =
        FunctionCallResult::decode(test_data, &mut external_values).unwrap();

    let result = function_call_result.into_inner().unwrap();
    assert_eq!(result, ReturnValue::Int(42));
}

#[test]
fn encode_error_result() {
    let mut builder = FlatBuilder::new();
    let test_error = GuestError::new(
        ErrorCode::GuestFunctionNotFound,
        "Function not found".to_string(),
    );

    let mut external_values = TestExternalValues::default();
    let result = FunctionCallResult::new(Err(test_error.clone()));
    let test_data = result.encode(&mut builder, &mut external_values).unwrap();

    let function_call_result =
        FunctionCallResult::decode(test_data, &mut external_values).unwrap();

    let error = function_call_result.into_inner().unwrap_err();
    assert_eq!(error.code, test_error.code);
    assert_eq!(error.message, test_error.message);
}

#[test]
fn external_bytes_marks_chunked_values_only() {
    fn round_trip(chunked: bool) -> bool {
        let value = match chunked {
            false => ReturnValue::VecBytes(vec![0; 42]),
            true => ReturnValue::ByteChunks(vec![Bytes::from(vec![0; 42])]),
        };
        let mut builder = FlatBuilder::new();
        let mut external_values = TestExternalValues::default();
        let result = FunctionCallResult::new(Ok(value));
        let encoded = result.encode(&mut builder, &mut external_values).unwrap();
        match return_table(encoded) {
            ValueTable::External { length, chunked } => {
                assert_eq!(length, 42);
                chunked
            }
            other => panic!("{other:?}"),
        }
    }

    assert!(!round_trip(false));
    assert!(round_trip(true));
}

/// The return value within an encoded result.
fn return_table(encoded: &[u8]) -> ValueTable {
    let root = follow(encoded, 4);
    assert_eq!(encoded[slot(encoded, root, 4).unwrap()], 1);
    let boxed = follow(encoded, slot(encoded, root, 6).unwrap());
    read_return(encoded, boxed).unwrap()
}

#[test]
fn byte_returns_round_trip_as_external_values() {
    for expected in [
        ReturnValue::VecBytes(vec![0xa5; 4096]),
        ReturnValue::ByteChunks(vec![
            Bytes::from_static(b"chunk one"),
            Bytes::from_static(b" and two"),
        ]),
        ReturnValue::VecBytes(Vec::new()),
        ReturnValue::ByteChunks(Vec::new()),
    ] {
        let mut builder = FlatBuilder::new();
        let mut external_values = TestExternalValues::default();

        let result = FunctionCallResult::new(Ok(expected.clone()));
        let encoded = result.encode(&mut builder, &mut external_values).unwrap();

        assert!(encoded.len() < 4096);
        let (length, chunked) = match &expected {
            ReturnValue::VecBytes(value) => (value.len(), false),
            ReturnValue::ByteChunks(value) => (try_byte_chunks_len(value).unwrap(), true),
            _ => unreachable!(),
        };
        assert_eq!(
            return_table(encoded),
            ValueTable::External {
                length: length as u64,
                chunked
            }
        );

        let decoded = FunctionCallResult::decode(encoded, &mut external_values)
            .unwrap()
            .into_inner()
            .unwrap();

        assert_eq!(decoded, expected);
        assert!(external_values.values.is_empty());
    }
}

#[test]
fn external_return_decoder_rejects_invalid_values() {
    let mut builder = FlatBuilder::new();
    let mut encoded_values = TestExternalValues::default();
    let result = FunctionCallResult::new(Ok(ReturnValue::ByteChunks(vec![Bytes::from_static(
        b"123",
    )])));
    let encoded = result.encode(&mut builder, &mut encoded_values).unwrap();

    let mut missing = TestExternalValues::default();
    assert!(FunctionCallResult::decode(encoded, &mut missing).is_err());

    let mut wrong_type =
        TestExternalValues::from_values([TestExternalValue::VecBytes(vec![1, 2, 3])]);

    assert!(FunctionCallResult::decode(encoded, &mut wrong_type).is_err());

    let mut wrong_length = TestExternalValues::from_values([TestExternalValue::ByteChunks(vec![
        Bytes::from_static(b"12"),
    ])]);

    assert!(FunctionCallResult::decode(encoded, &mut wrong_length).is_err());
}

#[test]
fn external_result_decoder_rejects_unused_values() {
    let result = FunctionCallResult::new(Ok(ReturnValue::Int(42)));
    let mut builder = FlatBuilder::new();
    let mut external_values = TestExternalValues::default();
    let encoded = result.encode(&mut builder, &mut external_values).unwrap();
    assert!(external_values.values.is_empty());

    external_values
        .values
        .push_back(TestExternalValue::VecBytes(Vec::new()));
    assert!(FunctionCallResult::decode(encoded, &mut external_values).is_err());
}

#[test]
fn every_return_value_reads_back() {
    for value in [
        ReturnValue::Int(-5),
        ReturnValue::UInt(u32::MAX),
        ReturnValue::Long(i64::MIN),
        ReturnValue::ULong(u64::MAX),
        ReturnValue::Float(1.5f32.to_bits()),
        ReturnValue::Double((-2.25f64).to_bits()),
        ReturnValue::String("na\u{ef}ve".to_string()),
        ReturnValue::String(String::new()),
        ReturnValue::Bool(false),
        ReturnValue::Bool(true),
        ReturnValue::Void,
    ] {
        let mut builder = FlatBuilder::new();
        let mut externals = TestExternalValues::default();
        let result = FunctionCallResult::new(Ok(value.clone()));
        let encoded = result.encode(&mut builder, &mut externals).unwrap().to_vec();
        let decoded = FunctionCallResult::decode(&encoded, &mut externals).unwrap();
        assert_eq!(decoded.into_inner(), Ok(value));
    }
}

#[test]
fn results_are_not_read_from_other_bytes() {
    let mut externals = TestExternalValues::default();
    for bytes in [&[][..], &[1, 2, 3], &[0; 16], &[255; 64]] {
        assert!(FunctionCallResult::decode(bytes, &mut externals).is_err());
        assert!(FunctionCall::decode(bytes, &mut externals).is_err());
    }
}

#[test]
fn read_from_flatbuffer() {
    let mut builder = FlatBuilder::new();
    let mut external_values = TestExternalValues::default();
    let expected_parameters = vec![
        ParameterValue::String("1".to_string()),
        ParameterValue::Int(2),
        ParameterValue::Long(3),
        ParameterValue::String("4".to_string()),
        ParameterValue::String("5".to_string()),
        ParameterValue::Bool(true),
        ParameterValue::Bool(false),
        ParameterValue::UInt(8),
        ParameterValue::ULong(9),
        ParameterValue::Int(10),
        ParameterValue::Float(3.123f32.to_bits()),
        ParameterValue::Double(0.01f64.to_bits()),
    ];
    let call = FunctionCall::new(
        "PrintTwelveArgs".to_string(),
        Some(expected_parameters.clone()),
        FunctionCallType::Guest,
        ReturnType::Int,
    );
    let test_data = call.encode(&mut builder, &mut external_values).unwrap();

    let function_call = FunctionCall::decode(test_data, &mut external_values).unwrap();
    assert_eq!(function_call.function_name, "PrintTwelveArgs");
    assert!(function_call.parameters.is_some());
    let parameters = function_call.parameters.unwrap();
    assert_eq!(parameters.len(), 12);
    assert!(expected_parameters == parameters);
    assert_eq!(function_call.function_call_type, FunctionCallType::Guest);
}

#[test]
fn byte_parameters_round_trip_in_external_value_order() {
    let mut builder = FlatBuilder::new();
    let expected_parameters = vec![
        ParameterValue::Int(7),
        ParameterValue::UInt(8),
        ParameterValue::Long(-9),
        ParameterValue::ULong(10),
        ParameterValue::Float(1.25f32.to_bits()),
        ParameterValue::Double(2.5f64.to_bits()),
        ParameterValue::Bool(true),
        ParameterValue::VecBytes(vec![0xa5; 4096]),
        ParameterValue::String("middle".to_string()),
        ParameterValue::ByteChunks(vec![
            Bytes::from_static(b"chunk one"),
            Bytes::from_static(b" and two"),
        ]),
        ParameterValue::VecBytes(Vec::new()),
        ParameterValue::ByteChunks(Vec::new()),
    ];
    let call = FunctionCall::new(
        "external_bytes".to_string(),
        Some(expected_parameters.clone()),
        FunctionCallType::Host,
        ReturnType::ByteChunks,
    );
    let mut external_values = TestExternalValues::default();
    let encoded = call.encode(&mut builder, &mut external_values).unwrap();

    assert!(encoded.len() < 4096);
    assert_eq!(
        external_values.values,
        VecDeque::from([
            TestExternalValue::VecBytes(vec![0xa5; 4096]),
            TestExternalValue::ByteChunks(vec![
                Bytes::from_static(b"chunk one"),
                Bytes::from_static(b" and two"),
            ]),
            TestExternalValue::VecBytes(Vec::new()),
            TestExternalValue::ByteChunks(Vec::new()),
        ])
    );

    let root = follow(encoded, 4);
    let parameters = follow(encoded, slot(encoded, root, 6).unwrap());
    assert_eq!(u32_at(encoded, parameters), 12);
    for (index, length, chunked) in [
        (7, 4096, false),
        (9, 17, true),
        (10, 0, false),
        (11, 0, true),
    ] {
        let parameter = follow(encoded, parameters + 4 + 4 * index);
        assert_eq!(
            encoded[slot(encoded, parameter, 4).unwrap()],
            ParameterTag::ExternalBytes.code()
        );
        assert_eq!(
            read_parameter(encoded, parameter),
            Some(ValueTable::External { length, chunked })
        );
    }

    let decoded = FunctionCall::decode(encoded, &mut external_values).unwrap();
    assert_eq!(decoded.function_name, "external_bytes");
    assert_eq!(decoded.parameters, Some(expected_parameters));
    assert_eq!(decoded.function_call_type(), FunctionCallType::Host);
    assert_eq!(decoded.expected_return_type, ReturnType::ByteChunks);
    assert!(external_values.values.is_empty());
}

#[test]
fn scalar_call_uses_no_external_values() {
    let call = FunctionCall::new(
        "scalars".to_string(),
        Some(vec![
            ParameterValue::Int(42),
            ParameterValue::String("value".to_string()),
        ]),
        FunctionCallType::Guest,
        ReturnType::Bool,
    );
    let mut builder = FlatBuilder::new();
    let mut external_values = TestExternalValues::default();
    let encoded = call.encode(&mut builder, &mut external_values).unwrap();

    assert!(external_values.values.is_empty());
    let decoded = FunctionCall::decode(encoded, &mut external_values).unwrap();
    assert_eq!(decoded.function_name, "scalars");
}

#[test]
fn a_call_without_parameters_reads_back() {
    let call = FunctionCall::new(
        "bare".to_string(),
        None,
        FunctionCallType::Host,
        ReturnType::Void,
    );
    let mut builder = FlatBuilder::new();
    let mut external_values = TestExternalValues::default();
    let encoded = call.encode(&mut builder, &mut external_values).unwrap();
    let decoded = FunctionCall::decode(encoded, &mut external_values).unwrap();
    assert_eq!(decoded.function_name, "bare");
    assert_eq!(decoded.parameters, None);
    assert_eq!(decoded.expected_return_type, ReturnType::Void);
}

#[test]
fn external_parameter_decoder_rejects_invalid_value_sequences() {
    let mut builder = FlatBuilder::new();
    let call = FunctionCall::new(
        "external_bytes".to_string(),
        Some(vec![ParameterValue::VecBytes(vec![1, 2, 3])]),
        FunctionCallType::Guest,
        ReturnType::Void,
    );
    let mut encoded_values = TestExternalValues::default();
    let encoded = call.encode(&mut builder, &mut encoded_values).unwrap();

    let mut missing = TestExternalValues::default();
    assert!(FunctionCall::decode(encoded, &mut missing).is_err());

    let mut wrong_type = TestExternalValues::from_values([TestExternalValue::ByteChunks(vec![
        Bytes::from_static(b"123"),
    ])]);
    assert!(FunctionCall::decode(encoded, &mut wrong_type).is_err());

    let mut wrong_length =
        TestExternalValues::from_values([TestExternalValue::VecBytes(vec![1, 2])]);
    assert!(FunctionCall::decode(encoded, &mut wrong_length).is_err());

    let mut extra = TestExternalValues::from_values([
        TestExternalValue::VecBytes(vec![1, 2, 3]),
        TestExternalValue::VecBytes(Vec::new()),
    ]);
    assert!(FunctionCall::decode(encoded, &mut extra).is_err());
}

#[test]
fn values_convert_to_their_own_type_only() {
    assert_eq!(i32::try_from(ParameterValue::Int(-3)), Ok(-3));
    assert_eq!(u64::try_from(ParameterValue::ULong(3)), Ok(3));
    assert_eq!(
        String::try_from(ParameterValue::String("s".to_string())),
        Ok("s".to_string())
    );
    assert_eq!(bool::try_from(ParameterValue::Int(1)), Err(UnexpectedType));
    assert_eq!(
        Vec::<u8>::try_from(ReturnValue::VecBytes(vec![1])),
        Ok(vec![1])
    );
    assert_eq!(<()>::try_from(ReturnValue::Void), Ok(()));
    assert_eq!(i64::try_from(ReturnValue::Int(1)), Err(UnexpectedType));
    assert_eq!(
        ParameterType::from(&ParameterValue::ByteChunks(vec![])),
        ParameterType::ByteChunks
    );
}

#[test]
fn chunk_lengths_are_summed() {
    assert_eq!(try_byte_chunks_len(&[]), Some(0));
    assert_eq!(
        try_byte_chunks_len(&[Bytes::from_static(b"ab"), Bytes::from_static(b"cde")]),
        Some(5)
    );
}

#[test]
fn error_codes_read_back() {
    for code in [
        ErrorCode::NoError,
        ErrorCode::GuestFunctionNotFound,
        ErrorCode::GuestError,
    ] {
        assert_eq!(ErrorCode::from(code.code()), code);
    }
}

#[test]
fn log_data_is_a_size_prefixed_buffer() {
    let log = GuestLogData::new(
        "message".to_string(),
        "source".to_string(),
        LogLevel::Warning,
        "caller".to_string(),
        "file".to_string(),
        17,
    );
    let mut builder = FlatBuilder::new();
    let encoded = log.encode(&mut builder);
    assert_eq!(u32_at(encoded, 0), encoded.len() - 4);
    let root = follow(encoded, 4);
    let message = follow(encoded, slot(encoded, root, 4).unwrap());
    assert_eq!(&encoded[message + 4..message + 4 + 7], b"message");
}

#[test]
fn floating_point_values_compare_as_numbers() {
    let float = |x: f32| ParameterValue::Float(x.to_bits());
    assert_eq!(float(1.5), float(1.5));
    assert_ne!(float(1.5), float(-1.5));
    assert_eq!(float(0.0), float(-0.0));
    assert_ne!(float(f32::NAN), float(f32::NAN));
    assert_eq!(float(f32::INFINITY), float(f32::INFINITY));
    assert_ne!(float(f32::INFINITY), float(f32::NEG_INFINITY));

    let double = |x: f64| ReturnValue::Double(x.to_bits());
    assert_eq!(double(1.5), double(1.5));
    assert_eq!(double(-0.0), double(0.0));
    assert_ne!(double(f64::NAN), double(f64::NAN));
    assert_eq!(double(f64::INFINITY), double(f64::INFINITY));
    assert_ne!(double(1.0), double(f64::INFINITY));
}

#[test]
fn other_values_compare_by_what_they_hold() {
    assert_eq!(
        ParameterValue::String("a".to_string()),
        ParameterValue::String("a".to_string())
    );
    assert_ne!(
        ParameterValue::String("a".to_string()),
        ParameterValue::String("b".to_string())
    );
    assert_ne!(ParameterValue::Int(1), ParameterValue::Long(1));
    assert_ne!(
        ParameterValue::VecBytes(vec![1, 2]),
        ParameterValue::VecBytes(vec![1])
    );
    let chunks = |parts: &[&'static [u8]]| {
        ReturnValue::ByteChunks(parts.iter().map(|p| Bytes::from_static(p)).collect())
    };
    assert_eq!(chunks(&[b"ab", b"c"]), chunks(&[b"ab", b"c"]));
    assert_ne!(chunks(&[b"ab", b"c"]), chunks(&[b"a", b"bc"]));
    assert_ne!(ReturnValue::VecBytes(b"ab".to_vec()), chunks(&[b"ab"]));
    assert_eq!(ReturnValue::Void, ReturnValue::Void);
}

/// What a call with two byte values decodes to from these values, and how many it leaves.
fn decode_from(values: Vec<TestExternalValue>) -> (bool, usize) {
    let call = FunctionCall::new(
        "f".to_string(),
        Some(vec![
            ParameterValue::VecBytes(vec![1, 2]),
            ParameterValue::Int(3),
            ParameterValue::ByteChunks(vec![Bytes::from_static(b"abc")]),
        ]),
        FunctionCallType::Guest,
        ReturnType::Void,
    );
    let mut builder = FlatBuilder::new();
    let mut sink = TestExternalValues::default();
    let encoded = call.encode(&mut builder, &mut sink).unwrap();
    let mut source = TestExternalValues::from_values(values);
    let decoded = FunctionCall::decode(encoded, &mut source);
    (decoded.is_ok(), source.values.len())
}

#[test]
fn a_call_decodes_where_the_values_have_its_kinds_and_lengths() {
    let bytes = |v: &[u8]| TestExternalValue::VecBytes(v.to_vec());
    let chunks = |v: &'static [u8]| TestExternalValue::ByteChunks(vec![Bytes::from_static(v)]);
    assert_eq!(decode_from(vec![bytes(&[1, 2]), chunks(b"abc")]), (true, 0));
    assert_eq!(decode_from(vec![bytes(&[8, 9]), chunks(b"xyz")]), (true, 0));
    assert!(!decode_from(vec![bytes(&[1, 2])]).0);
    assert!(!decode_from(vec![chunks(b"abc"), bytes(&[1, 2])]).0);
    assert!(!decode_from(vec![bytes(&[1]), chunks(b"abc")]).0);
    assert!(!decode_from(vec![bytes(&[1, 2]), chunks(b"abcd")]).0);
    assert_eq!(
        decode_from(vec![bytes(&[1, 2]), chunks(b"abc"), bytes(&[])]),
        (false, 1)
    );
}

/// A call whose parameters are many references to one table, which holds a text or nothing.
fn repeated_parameter(text: Option<&str>, count: usize) -> Vec<u8> {
    let mut builder = FlatBufferBuilder::new();
    let name = builder.create_string("f");
    let value = text.map(|text| {
        let text = builder.create_string(text);
        let start = builder.start_table();
        builder.push_slot_always(4, text);
        builder.end_table(start)
    });
    let start = builder.start_table();
    if let Some(value) = value {
        builder.push_slot_always(6, value);
        builder.push_slot::<u8>(4, ParameterTag::String.code(), 0);
    }
    let parameter = builder.end_table(start);
    let parameters = builder.create_vector(&vec![parameter; count]);
    let start = builder.start_table();
    builder.push_slot_always(6, parameters);
    builder.push_slot_always(4, name);
    builder.push_slot::<u8>(10, ReturnType::Void.code(), 0);
    builder.push_slot::<u8>(8, 1, 0);
    let call = builder.end_table(start);
    builder.finish_size_prefixed(call, None);
    builder.finished_data().to_vec()
}

fn decode_call(encoded: &[u8]) -> Result<FunctionCall, WireError> {
    FunctionCall::decode(encoded, &mut TestExternalValues::default())
}

#[test]
fn a_check_visits_a_million_tables() {
    // The call is a table too. A parameter without a value fails only once it is decoded.
    let most = repeated_parameter(None, 999_999);
    assert_eq!(decode_call(&most).err(), Some(WireError::ParameterTag(0)));

    let more = repeated_parameter(None, 1_000_000);
    assert_eq!(decode_call(&more).err(), Some(WireError::Buffer));
}

#[test]
fn a_call_with_too_many_parameters_does_not_decode() {
    for (count, decodes) in [(499_999, true), (500_000, false)] {
        let parameters = vec![ParameterValue::Bool(true); count];
        let call = FunctionCall::new(
            "f".to_string(),
            Some(parameters),
            FunctionCallType::Guest,
            ReturnType::Void,
        );
        let mut builder = FlatBuilder::new();
        let mut externals = TestExternalValues::default();
        let encoded = call.encode(&mut builder, &mut externals).unwrap();
        match decode_call(encoded) {
            Ok(decoded) => {
                assert!(decodes);
                assert_eq!(decoded.parameters.unwrap().len(), count);
            }
            Err(error) => {
                assert!(!decodes);
                assert_eq!(error, WireError::Buffer);
            }
        }
    }
}

#[test]
fn a_check_counts_a_text_each_time_it_is_met() {
    let text = "x".repeat(1 << 20);

    let few = decode_call(&repeated_parameter(Some(&text), 16)).unwrap();
    let parameters = few.parameters.unwrap();
    assert_eq!(parameters.len(), 16);
    assert!(parameters
        .iter()
        .all(|value| *value == ParameterValue::String(text.clone())));

    // A small buffer that stands for more than two gigabytes.
    let encoded = repeated_parameter(Some(&text), 2048);
    assert!(encoded.len() < 2 << 20);
    assert_eq!(decode_call(&encoded).err(), Some(WireError::Buffer));
}

#[test]
fn a_builder_is_used_again_after_a_refused_value() {
    struct Refusing;

    impl<'a> ExternalValueSink<'a> for Refusing {
        type State = ();

        fn push_bytes(&mut self, _value: &'a [u8]) -> Result<(), ExternalError> {
            Err(ExternalError)
        }

        fn push_chunks(&mut self, _value: &'a [Bytes]) -> Result<(), ExternalError> {
            Err(ExternalError)
        }
    }

    let mut builder = FlatBuilder::new();
    let refused = FunctionCall::new(
        "refused".to_string(),
        Some(vec![
            ParameterValue::Int(1),
            ParameterValue::VecBytes(vec![1]),
        ]),
        FunctionCallType::Host,
        ReturnType::Void,
    );
    assert_eq!(
        refused.encode(&mut builder, &mut Refusing).err(),
        Some(WireError::External)
    );

    let call = FunctionCall::new(
        "taken".to_string(),
        Some(vec![ParameterValue::Long(-7)]),
        FunctionCallType::Guest,
        ReturnType::Bool,
    );
    let mut externals = TestExternalValues::default();
    let encoded = call.encode(&mut builder, &mut externals).unwrap();
    let decoded = decode_call(encoded).unwrap();
    assert_eq!(decoded.function_name, "taken");
    assert_eq!(decoded.parameters, Some(vec![ParameterValue::Long(-7)]));
    assert_eq!(decoded.expected_return_type, ReturnType::Bool);
}

#[test]
fn tables_convert_without_a_source_unless_their_bytes_are_elsewhere() {
    assert_eq!(
        ParameterValue::try_from(ValueTable::Int(-1)),
        Ok(ParameterValue::Int(-1))
    );
    assert_eq!(
        ParameterValue::try_from(ValueTable::Text("t".to_string())),
        Ok(ParameterValue::String("t".to_string()))
    );
    assert_eq!(
        ReturnValue::try_from(ValueTable::ULong(9)),
        Ok(ReturnValue::ULong(9))
    );
    assert_eq!(
        ReturnValue::try_from(ValueTable::Void),
        Ok(ReturnValue::Void)
    );
    assert_eq!(
        ParameterValue::try_from(ValueTable::Void),
        Err(WireError::ParameterTag(0))
    );
    for chunked in [false, true] {
        assert_eq!(
            ParameterValue::try_from(ValueTable::External { length: 0, chunked }),
            Err(WireError::NoSource)
        );
        assert_eq!(
            ReturnValue::try_from(ValueTable::External { length: 0, chunked }),
            Err(WireError::NoSource)
        );
    }
    assert_eq!(
        ReturnValue::try_from(ValueTable::Unknown(10)),
        Err(WireError::ReturnTag(10))
    );
}

#[test]
fn wire_errors_tell_what_is_wrong() {
    let text = |error: WireError, subject| error.message(subject);
    assert_eq!(
        text(WireError::Buffer, Subject::Call).as_deref(),
        Some("Error reading function call buffer")
    );
    assert_eq!(
        text(WireError::Buffer, Subject::Result).as_deref(),
        Some("Failed to get FunctionCallResult from bytes")
    );
    assert_eq!(
        text(WireError::NoSource, Subject::Result).as_deref(),
        Some("External byte return requires an external value source")
    );
    assert_eq!(text(WireError::External, Subject::Call), None);

    let mut builder = FlatBuilder::new();
    let mut externals = TestExternalValues::default();
    let call = FunctionCall::new(
        "f".to_string(),
        Some(vec![ParameterValue::VecBytes(vec![1; 10])]),
        FunctionCallType::Guest,
        ReturnType::Void,
    );
    let encoded = call.encode(&mut builder, &mut externals).unwrap();
    let mut short = TestExternalValues::from_values([TestExternalValue::VecBytes(vec![1; 2])]);
    let error = FunctionCall::decode(encoded, &mut short).err().unwrap();
    assert_eq!(
        text(error, Subject::Call).as_deref(),
        Some("External VecBytes length mismatch: declared 10, received 2")
    );
}

#[test]
fn a_sink_keeps_what_it_took_before_a_refusal() {
    /// Takes some values and refuses the rest.
    struct Full(Vec<Vec<u8>>, usize);

    impl<'a> ExternalValueSink<'a> for Full {
        type State = ();

        fn push_bytes(&mut self, value: &'a [u8]) -> Result<(), ExternalError> {
            if self.0.len() == self.1 {
                return Err(ExternalError);
            }
            self.0.push(value.to_vec());
            Ok(())
        }

        fn push_chunks(&mut self, _value: &'a [Bytes]) -> Result<(), ExternalError> {
            Err(ExternalError)
        }
    }

    let call = FunctionCall::new(
        "f".to_string(),
        Some((1..=4).map(|n| ParameterValue::VecBytes(vec![n; 2])).collect()),
        FunctionCallType::Host,
        ReturnType::Void,
    );
    let mut sink = Full(Vec::new(), 2);
    let mut builder = FlatBuilder::new();
    assert_eq!(
        call.encode(&mut builder, &mut sink).err(),
        Some(WireError::External)
    );
    assert_eq!(sink.0, [vec![1, 1], vec![2, 2]]);
}

#[test]
fn messages_say_whether_they_fit() {
    let call = |text: String| {
        FunctionCall::new(
            "f".to_string(),
            Some(vec![ParameterValue::Int(1), ParameterValue::String(text)]),
            FunctionCallType::Host,
            ReturnType::Void,
        )
    };
    assert!(call(String::new()).fits());
    assert!(FunctionCallResult::new(Ok(ReturnValue::String("s".to_string()))).fits());
    let error = GuestError::new(ErrorCode::GuestError, "message".to_string());
    assert!(FunctionCallResult::new(Err(error)).fits());
    let log = GuestLogData::new(
        "message".to_string(),
        "source".to_string(),
        LogLevel::Warning,
        "caller".to_string(),
        "file".to_string(),
        17,
    );
    assert!(log.fits());
}
