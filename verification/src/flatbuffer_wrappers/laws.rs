//! What holds of values and codes on the wire.

use vstd::prelude::*;

use super::codec::ExternalValueSource;
use super::equality;
use super::function_call;
use super::function_call::{CallView, FunctionCallType};
use super::function_result;
use super::function_result::ResultView;
use super::function_types::{
    ParameterType, ParameterValue, ReturnType, ReturnValue, Subject, ValueView, WireError,
};
use super::guest_error::ErrorCode;
use super::guest_log_data;
use super::guest_log_data::{GuestLogData, LogLevel};
use super::reader;
use super::values;
use super::wire;
use super::wire::{ParameterTag, ReturnTag, Shape, ValueTable, ValueWire};
use crate::le;
use crate::octets;
use crate::text;

verus! {

/// Types are numbered in the order of the schema, from zero, and no other number stands for
/// one.
pub proof fn law_types_are_numbered_as_in_the_schema(tag: u8)
    ensures
        ParameterType::Int.tag() == 0,
        ParameterType::UInt.tag() == 1,
        ParameterType::Long.tag() == 2,
        ParameterType::ULong.tag() == 3,
        ParameterType::Float.tag() == 4,
        ParameterType::Double.tag() == 5,
        ParameterType::String.tag() == 6,
        ParameterType::Bool.tag() == 7,
        ParameterType::VecBytes.tag() == 8,
        ParameterType::ByteChunks.tag() == 9,
        ReturnType::Int.tag() == 0,
        ReturnType::UInt.tag() == 1,
        ReturnType::Long.tag() == 2,
        ReturnType::ULong.tag() == 3,
        ReturnType::Float.tag() == 4,
        ReturnType::Double.tag() == 5,
        ReturnType::String.tag() == 6,
        ReturnType::Bool.tag() == 7,
        ReturnType::Void.tag() == 8,
        ReturnType::VecBytes.tag() == 9,
        ReturnType::ByteChunks.tag() == 10,
        FunctionCallType::Guest.tag() == 1,
        FunctionCallType::Host.tag() == 2,
        match ParameterType::of_tag(tag) {
            Ok(kind) => kind.tag() == tag,
            Err(error) => tag > 9 && error == WireError::ParameterType(tag),
        },
        match ReturnType::of_tag(tag) {
            Ok(kind) => kind.tag() == tag,
            Err(error) => tag > 10 && error == WireError::ReturnType(tag),
        },
        match FunctionCallType::of_tag(tag) {
            Ok(kind) => kind.tag() == tag,
            Err(error) => !(1 <= tag <= 2) && error == WireError::CallType(tag),
        },
{
}

/// Tags of values are numbered in the order of the schema, with one number reserved before
/// bytes that travel outside.
pub proof fn law_value_tags_are_numbered_as_in_the_schema()
    ensures
        ParameterTag::Absent.wire() == 0,
        ParameterTag::Int.wire() == 1,
        ParameterTag::UInt.wire() == 2,
        ParameterTag::Long.wire() == 3,
        ParameterTag::ULong.wire() == 4,
        ParameterTag::Float.wire() == 5,
        ParameterTag::Double.wire() == 6,
        ParameterTag::String.wire() == 7,
        ParameterTag::Bool.wire() == 8,
        ParameterTag::ExternalBytes.wire() == 10,
        ReturnTag::Absent.wire() == 0,
        ReturnTag::Int.wire() == 1,
        ReturnTag::UInt.wire() == 2,
        ReturnTag::Long.wire() == 3,
        ReturnTag::ULong.wire() == 4,
        ReturnTag::Float.wire() == 5,
        ReturnTag::Double.wire() == 6,
        ReturnTag::String.wire() == 7,
        ReturnTag::Bool.wire() == 8,
        ReturnTag::Void.wire() == 9,
        ReturnTag::ExternalBytes.wire() == 11,
{
}

/// Error codes are numbered in the order of the schema, which leaves out one. A number that
/// stands for no code reads as an unknown error.
pub proof fn law_error_codes_are_numbered_as_in_the_schema(value: u64)
    ensures
        ErrorCode::NoError.wire() == 0,
        ErrorCode::UnsupportedParameterType.wire() == 2,
        ErrorCode::GuestFunctionNameNotProvided.wire() == 3,
        ErrorCode::GuestFunctionNotFound.wire() == 4,
        ErrorCode::GuestFunctionIncorrecNoOfParameters.wire() == 5,
        ErrorCode::DispatchFunctionPointerNotSet.wire() == 6,
        ErrorCode::OutbError.wire() == 7,
        ErrorCode::UnknownError.wire() == 8,
        ErrorCode::StackOverflow.wire() == 9,
        ErrorCode::GsCheckFailed.wire() == 10,
        ErrorCode::TooManyGuestFunctions.wire() == 11,
        ErrorCode::FailureInDlmalloc.wire() == 12,
        ErrorCode::MallocFailed.wire() == 13,
        ErrorCode::GuestFunctionParameterTypeMismatch.wire() == 14,
        ErrorCode::GuestError.wire() == 15,
        ErrorCode::ArrayLengthParamIsMissing.wire() == 16,
        ErrorCode::HostFunctionError.wire() == 17,
        value == 1 || value > 17 ==> ErrorCode::of_wire(value) == ErrorCode::UnknownError,
        value != 1 && value <= 17 ==> ErrorCode::of_wire(value).wire() == value,
{
}

/// The more severe a record is, the higher its level is numbered, from zero.
pub proof fn law_log_levels_are_numbered_by_severity()
    ensures
        LogLevel::Trace.wire() == 0,
        LogLevel::Debug.wire() == 1,
        LogLevel::Information.wire() == 2,
        LogLevel::Warning.wire() == 3,
        LogLevel::Error.wire() == 4,
        LogLevel::Critical.wire() == 5,
        LogLevel::Off.wire() == 6,
{
}

/// The tag that is written with a value announces the table that is written, and a tag that
/// announces no table is read as an unknown one.
pub proof fn law_tag_announces_the_table(value: ValueWire, tag: u8)
    ensures
        !(value is Void) && !(value is Unknown) ==> wire::parameter_shape_of(value.parameter_tag())
            == value.shape(),
        !(value is Unknown) ==> wire::return_shape_of(value.return_tag()) == value.shape(),
        tag == 0 || tag == 9 || tag > 10 <==> wire::parameter_shape_of(tag) == Shape::Unknown,
        tag == 0 || tag == 10 || tag > 11 <==> wire::return_shape_of(tag) == Shape::Unknown,
{
}

/// Tables of different shapes have different tags.
pub proof fn law_tags_tell_tables_apart(a: ValueWire, b: ValueWire)
    requires
        !(a is Unknown),
        !(b is Unknown),
        a.shape() != b.shape(),
    ensures
        a.parameter_tag() != b.parameter_tag(),
        a.return_tag() != b.return_tag(),
{
}

/// Two values have a shape in common only where they are the same kind of value.
pub proof fn law_shape_is_the_kind_of_value(a: ValueWire, b: ValueWire)
    ensures
        a.shape() == b.shape() ==> {
            &&& a is Int <==> b is Int
            &&& a is UInt <==> b is UInt
            &&& a is Long <==> b is Long
            &&& a is ULong <==> b is ULong
            &&& a is Float <==> b is Float
            &&& a is Double <==> b is Double
            &&& a is Text <==> b is Text
            &&& a is Bool <==> b is Bool
            &&& a is Void <==> b is Void
            &&& a is External <==> b is External
        },
{
}

/// A table keeps a value as it is, but for the sign of a zero, and the length of bytes that
/// travel outside.
pub proof fn law_table_keeps_the_value(value: ValueView)
    ensures
        match value {
            ValueView::Int(x) => wire::wire_of(value) == ValueWire::Int(x),
            ValueView::UInt(x) => wire::wire_of(value) == ValueWire::UInt(x),
            ValueView::Long(x) => wire::wire_of(value) == ValueWire::Long(x),
            ValueView::ULong(x) => wire::wire_of(value) == ValueWire::ULong(x),
            ValueView::Float(x) => wire::wire_of(value) == ValueWire::Float(
                if x == 0x8000_0000 {
                    0
                } else {
                    x
                },
            ),
            ValueView::Double(x) => wire::wire_of(value) == ValueWire::Double(
                if x == 0x8000_0000_0000_0000 {
                    0
                } else {
                    x
                },
            ),
            ValueView::Text(text) => wire::wire_of(value) == ValueWire::Text(text),
            ValueView::Bool(x) => wire::wire_of(value) == ValueWire::Bool(x),
            ValueView::Void => wire::wire_of(value) is Void,
            ValueView::VecBytes(bytes) => wire::wire_of(value) matches ValueWire::External {
                length,
                chunked,
            } && !chunked && (bytes.len() <= u64::MAX ==> length == bytes.len()),
            ValueView::ByteChunks(bytes) => wire::wire_of(value) matches ValueWire::External {
                length,
                chunked,
            } && chunked && (bytes.len() <= u64::MAX ==> length == bytes.len()),
        },
        values::kept(value) == value || value == ValueView::Float(0x8000_0000) || value
            == ValueView::Double(0x8000_0000_0000_0000),
        values::kept(ValueView::Float(0x8000_0000)) == ValueView::Float(0),
        values::kept(ValueView::Double(0x8000_0000_0000_0000)) == ValueView::Double(0),
{
}

/// What is read of a table without bytes is what was written to it, and takes nothing from
/// the source.
pub proof fn law_scalar_is_read_as_it_was_written<S: ExternalValueSource>(
    state: S::State,
    value: ValueView,
    returned: bool,
)
    requires
        !(value is VecBytes),
        !(value is ByteChunks),
        value is Void ==> returned,
    ensures
        values::take_value::<S>(state, wire::wire_of(value), returned) == Ok::<
            (ValueView, S::State),
            WireError,
        >((values::kept(value), state)),
{
}

/// Bytes are read back as the kind of value that was written, all of them, or not at all.
pub proof fn law_bytes_are_read_whole_or_refused<S: ExternalValueSource>(
    state: S::State,
    length: u64,
    chunked: bool,
    returned: bool,
)
    ensures
        match values::take_value::<S>(
            state,
            (ValueWire::External { length, chunked }),
            returned,
        ) {
            Ok((value, next)) => {
                let bytes = match value {
                    ValueView::VecBytes(bytes) => bytes,
                    ValueView::ByteChunks(bytes) => bytes,
                    _ => Seq::empty(),
                };
                &&& S::serve(state, length as nat, chunked) == Some((bytes, next))
                &&& bytes.len() == length
                &&& chunked <==> value is ByteChunks
                &&& !chunked <==> value is VecBytes
            },
            Err(_) => length > usize::MAX || (match S::serve(state, length as nat, chunked) {
                Some((bytes, _)) => bytes.len() != length,
                None => true,
            }),
        },
{
}

/// A table that stands alone is read as the same value that it is read as beside a source,
/// except that it has no bytes to give.
pub proof fn law_table_alone_is_read_alike<S: ExternalValueSource>(
    state: S::State,
    table: ValueTable,
)
    ensures
        table is External <==> values::parameter_alone(table) == Err::<ParameterValue, WireError>(
            WireError::NoSource,
        ),
        table is External <==> values::return_value_alone(table) == Err::<ReturnValue, WireError>(
            WireError::NoSource,
        ),
        !(table is External) ==> match values::parameter_alone(table) {
            Ok(value) => values::take_value::<S>(state, table@, false) == Ok::<
                (ValueView, S::State),
                WireError,
            >((value@, state)),
            Err(error) => values::take_value::<S>(state, table@, false) == Err::<
                (ValueView, S::State),
                WireError,
            >(error),
        },
        !(table is External) ==> match values::return_value_alone(table) {
            Ok(value) => values::take_value::<S>(state, table@, true) == Ok::<
                (ValueView, S::State),
                WireError,
            >((value@, state)),
            Err(error) => values::take_value::<S>(state, table@, true) == Err::<
                (ValueView, S::State),
                WireError,
            >(error),
        },
{
}

/// A call arrives under its name, with its types and with each of its parameters in its
/// place. A list without parameters arrives as none.
pub proof fn law_call_arrives_as_it_was_made(call: CallView)
    ensures
        ({
            let arrived = function_call::delivered(call);
            &&& arrived.name == call.name
            &&& arrived.call_type == call.call_type
            &&& arrived.return_type == call.return_type
            &&& match (call.parameters, arrived.parameters) {
                (Some(sent), Some(got)) => got.len() == sent.len() && sent.len() > 0 && forall|
                    i: int,
                |
                    0 <= i < sent.len() ==> #[trigger] got[i] == sent[i] || sent[i]
                        == ValueView::Float(0x8000_0000) && got[i] == ValueView::Float(0)
                        || sent[i] == ValueView::Double(0x8000_0000_0000_0000) && got[i]
                        == ValueView::Double(0),
                (Some(sent), None) => sent.len() == 0,
                (None, None) => true,
                (None, Some(_)) => false,
            }
        }),
{
}

/// A result arrives as it was returned, but for the sign of a zero; an error keeps its code
/// and its message.
pub proof fn law_result_arrives_as_it_was_returned(result: ResultView)
    ensures
        match (result, function_result::delivered(result)) {
            (ResultView::Value(sent), ResultView::Value(got)) => got == sent || sent
                == ValueView::Float(0x8000_0000) && got == ValueView::Float(0) || sent
                == ValueView::Double(0x8000_0000_0000_0000) && got == ValueView::Double(0),
            (ResultView::Error(code, message), ResultView::Error(c, m)) => c == code && m
                == message,
            _ => false,
        },
{
}

/// A log record is written with all that it says.
pub proof fn law_record_is_written_whole(log: GuestLogData)
    ensures
        ({
            let written = log.to_wire();
            &&& written.message == log.message@
            &&& written.source == log.source@
            &&& written.caller == log.caller@
            &&& written.source_file == log.source_file@
            &&& written.line == log.line
            &&& written.level == log.level.wire()
        }),
{
}

/// Floats are compared as numbers: one that is not a number equals nothing, zeros are equal
/// whatever their sign, and other numbers where their bits are.
pub proof fn law_floats_are_compared_as_numbers(a: u32, b: u32, c: u64, d: u64)
    ensures
        equality::float_eq(a, a) <==> !equality::float_nan(a),
        equality::float_eq(a, b) <==> equality::float_eq(b, a),
        equality::float_eq(a, b) ==> !equality::float_nan(a) && !equality::float_nan(b),
        equality::float_eq(0, 0x8000_0000),
        !equality::float_nan(a) && a != b && a != 0 && a != 0x8000_0000 ==> !equality::float_eq(
            a,
            b,
        ),
        equality::double_eq(c, c) <==> !equality::double_nan(c),
        equality::double_eq(c, d) <==> equality::double_eq(d, c),
        equality::double_eq(c, d) ==> !equality::double_nan(c) && !equality::double_nan(d),
        equality::double_eq(0, 0x8000_0000_0000_0000),
        !equality::double_nan(c) && c != d && c != 0 && c != 0x8000_0000_0000_0000
            ==> !equality::double_eq(c, d),
{
}

/// The floats that are not numbers are those with all exponent bits set and some bit of the
/// fraction, whatever their sign.
pub proof fn law_not_a_number_by_its_bits(sign: bool, exponent: u32, fraction: u32)
    requires
        exponent < 0x100,
        fraction < 0x80_0000,
    ensures
        ({
            let bits = (if sign {
                0x8000_0000int
            } else {
                0
            }) + exponent * 0x80_0000 + fraction;
            equality::float_nan(bits as u32) <==> exponent == 0xff && fraction > 0
        }),
{
}

/// The same of eight-byte floats.
pub proof fn law_not_a_double_by_its_bits(sign: bool, exponent: u64, fraction: u64)
    requires
        exponent < 0x800,
        fraction < 0x10_0000_0000_0000,
    ensures
        ({
            let bits = (if sign {
                0x8000_0000_0000_0000int
            } else {
                0
            }) + exponent * 0x10_0000_0000_0000 + fraction;
            equality::double_nan(bits as u64) <==> exponent == 0x7ff && fraction > 0
        }),
{
}

/// Parameters are equal where they hold equal values of the same type, and chunks where they
/// are cut alike as well.
pub proof fn law_equal_parameters_hold_equal_values(a: ParameterValue, b: ParameterValue)
    ensures
        equality::parameter_eq(a, b) <==> equality::value_eq(a@, b@) && (a matches
            ParameterValue::ByteChunks(x) ==> b matches ParameterValue::ByteChunks(y)
            && octets::all_octets(x@) == octets::all_octets(y@)),
        equality::parameter_eq(a, b) ==> a.kind() == b.kind(),
        equality::parameter_eq(a, b) <==> equality::parameter_eq(b, a),
{
}

/// Return values are equal where they hold equal values of the same type, and chunks where
/// they are cut alike as well.
pub proof fn law_equal_return_values_hold_equal_values(a: ReturnValue, b: ReturnValue)
    ensures
        equality::return_eq(a, b) <==> equality::value_eq(a@, b@) && (a matches
            ReturnValue::ByteChunks(x) ==> b matches ReturnValue::ByteChunks(y)
            && octets::all_octets(x@) == octets::all_octets(y@)),
        equality::return_eq(a, b) <==> equality::return_eq(b, a),
{
}

/// What is told of bytes of another length than declared holds both lengths, the declared one
/// first, and the kind of value.
pub proof fn law_told_lengths_are_the_lengths(
    chunked: bool,
    declared: usize,
    received: usize,
    subject: Subject,
)
    ensures
        (WireError::LengthMismatch { chunked, declared, received }).message_of(subject) == Some(
            (if chunked {
                "External ByteChunks length mismatch: declared "@
            } else {
                "External VecBytes length mismatch: declared "@
            }) + text::number_text_of(declared as nat) + ", received "@ + text::number_text_of(
                received as nat,
            ),
        ),
        text::number_of(text::number_text_of(declared as nat)) == Some(declared as u64),
        text::number_of(text::number_text_of(received as nat)) == Some(received as u64),
{
    text::law_number_round_trip(declared as u64);
    text::law_number_round_trip(received as u64);
}

/// An error of a sink or a source, and values left over, speak for themselves; every other
/// error is told.
pub proof fn law_refusals_of_others_are_not_retold(error: WireError, subject: Subject)
    ensures
        error.message_of(subject) is None <==> error is External || error is Unused,
{
}

/// A type that was written as its tag reads back as that type, and a tag that no type was
/// written as is refused.
pub proof fn law_written_types_read_back(parameter: ParameterType, returned: ReturnType, tag: u8)
    ensures
        <ParameterType as vstd::std_specs::convert::TryFromSpec<u8>>::try_from_spec(
            parameter.tag(),
        ) == Ok::<ParameterType, WireError>(parameter),
        <ReturnType as vstd::std_specs::convert::TryFromSpec<u8>>::try_from_spec(returned.tag())
            == Ok::<ReturnType, WireError>(returned),
        <ParameterType as vstd::std_specs::convert::TryFromSpec<u8>>::try_from_spec(tag) is Ok <==> tag
            <= 9,
        <ReturnType as vstd::std_specs::convert::TryFromSpec<u8>>::try_from_spec(tag) is Ok <==> tag
            <= 10,
{
}

/// An error code that was written as its number reads back as that code.
pub proof fn law_written_codes_read_back(code: ErrorCode)
    ensures
        <ErrorCode as vstd::std_specs::convert::FromSpec<u64>>::from_spec(code.wire()) == code,
{
}

/// A table that holds a value of its own is read as that value; one whose bytes are elsewhere
/// is refused.
pub proof fn law_tables_are_read_as_what_they_hold(table: ValueTable)
    ensures
        <ParameterValue as vstd::std_specs::convert::TryFromSpec<ValueTable>>::try_from_spec(
            table,
        ) == values::parameter_alone(table),
        <ReturnValue as vstd::std_specs::convert::TryFromSpec<ValueTable>>::try_from_spec(table)
            == values::return_value_alone(table),
        values::parameter_alone(table) matches Ok(read) ==> wire::wire_of(values::kept(read@))
            == wire::wire_of(read@) && (!(read is Float) && !(read is Double) ==> wire::wire_of(
            read@,
        ) == table@),
        values::return_value_alone(table) matches Ok(read) ==> (!(read is Float) && !(
        read is Double) ==> wire::wire_of(read@) == table@),
        values::parameter_alone(table) is Ok <==> !(table is Void) && !(table is External) && !(
        table is Unknown),
        values::return_value_alone(table) is Ok <==> !(table is External) && !(table is Unknown),
{
}

/// Where a table lists its fields: in the order of the schema, behind two sizes.
pub open spec fn field_slot(index: int) -> u16 {
    (4 + 2 * index) as u16
}

/// The fields of a call stand in the order of the schema: name, parameters, who is called, and
/// the type that is expected back.
pub proof fn law_call_fields_stand_in_order(buf: Seq<u8>, table: usize)
    requires
        reader::target_at(buf, 4) == Some(table),
    ensures
        function_call::call_tables(buf) matches Some(call) ==> {
            &&& wire::slot_text(buf, table, field_slot(0)) == Some(Some(call.name))
            &&& call.parameters is None <==> reader::table_field(buf, table, field_slot(1)) == Some(
                None::<usize>,
            )
            &&& wire::slot_u8(buf, table, field_slot(2)) == Some(call.call_type)
            &&& wire::slot_u8(buf, table, field_slot(3)) == Some(call.return_type)
        },
{
}

proof fn lemma_parameters_count(buf: Seq<u8>, vector: usize, count: nat)
    ensures
        function_call::parameters_at(buf, vector, count) matches Some(values) ==> values.len()
            == count,
    decreases count,
{
    if count > 0 {
        lemma_parameters_count(buf, vector, (count - 1) as nat);
    }
}

/// Parameters are read one by one from the references of their vector, the first one first.
pub proof fn law_parameters_are_read_in_order(buf: Seq<u8>, vector: usize, count: nat, index: int)
    requires
        0 <= index < count,
    ensures
        function_call::parameters_at(buf, vector, count) matches Some(values) ==> {
            &&& values.len() == count
            &&& reader::target_at(buf, vector + 4 + 4 * index) matches Some(table)
            &&& wire::parameter_at(buf, table) == Some(values[index])
        },
    decreases count,
{
    lemma_parameters_count(buf, vector, count);
    lemma_parameters_count(buf, vector, (count - 1) as nat);
    if index < count - 1 {
        law_parameters_are_read_in_order(buf, vector, (count - 1) as nat, index);
    }
}

/// The fields of a record stand in the order of the schema: message, source, level, caller,
/// source file and line.
pub proof fn law_record_fields_stand_in_order(buf: Seq<u8>, table: usize)
    requires
        reader::target_at(buf, 4) == Some(table),
    ensures
        guest_log_data::log_at(buf) matches Some(log) ==> {
            &&& wire::slot_text_or_empty(buf, table, field_slot(0)) == Some(log.message)
            &&& wire::slot_text_or_empty(buf, table, field_slot(1)) == Some(log.source)
            &&& wire::slot_u8(buf, table, field_slot(2)) == Some(log.level)
            &&& wire::slot_text_or_empty(buf, table, field_slot(3)) == Some(log.caller)
            &&& wire::slot_text_or_empty(buf, table, field_slot(4)) == Some(log.source_file)
            &&& wire::slot_u32(buf, table, field_slot(5)) == Some(log.line)
        },
{
}

/// A result holds a value under its first tag and an error, code before message, under its
/// second; the tag stands before what it announces.
pub proof fn law_result_fields_stand_in_order(buf: Seq<u8>, table: usize)
    requires
        reader::target_at(buf, 4) == Some(table),
    ensures
        match function_result::result_tables(buf) {
            Some(function_result::ResultWire::Value(value)) => {
                &&& wire::slot_u8(buf, table, field_slot(0)) == Some(1u8)
                &&& reader::table_field(buf, table, field_slot(1)) matches Some(Some(pos))
                &&& reader::target_at(buf, pos as int) matches Some(inner)
                &&& wire::return_at(buf, inner) == Some(value)
            },
            Some(function_result::ResultWire::Error(code, message)) => {
                &&& wire::slot_u8(buf, table, field_slot(0)) == Some(2u8)
                &&& reader::table_field(buf, table, field_slot(1)) matches Some(Some(pos))
                &&& reader::target_at(buf, pos as int) matches Some(inner)
                &&& wire::slot_u64(buf, inner, field_slot(0)) == Some(code)
                &&& wire::slot_text_or_empty(buf, inner, field_slot(1)) == Some(message)
            },
            Some(function_result::ResultWire::Unknown(tag)) => wire::slot_u8(
                buf,
                table,
                field_slot(0),
            ) == Some(tag) && tag != 1 && tag != 2,
            None => true,
        },
{
}

/// A value stands alone in its table; the length of bytes that are elsewhere stands before
/// whether they come in chunks.
pub proof fn law_value_stands_in_its_table(buf: Seq<u8>, table: usize, shape: Shape)
    ensures
        match wire::value_table(buf, table, shape) {
            Some(ValueWire::Int(x)) => wire::slot_u32(buf, table, field_slot(0)) == Some(x as u32),
            Some(ValueWire::UInt(x)) => wire::slot_u32(buf, table, field_slot(0)) == Some(x),
            Some(ValueWire::Long(x)) => wire::slot_u64(buf, table, field_slot(0)) == Some(x as u64),
            Some(ValueWire::ULong(x)) => wire::slot_u64(buf, table, field_slot(0)) == Some(x),
            Some(ValueWire::Float(x)) => wire::slot_u32(buf, table, field_slot(0)) == Some(x),
            Some(ValueWire::Double(x)) => wire::slot_u64(buf, table, field_slot(0)) == Some(x),
            Some(ValueWire::Text(s)) => wire::slot_text_or_empty(buf, table, field_slot(0)) == Some(
                s,
            ),
            Some(ValueWire::Bool(b)) => (wire::slot_u8(buf, table, field_slot(0)) matches Some(x)
                && (b <==> x != 0)),
            Some(ValueWire::External { length, chunked }) => {
                &&& wire::slot_u64(buf, table, field_slot(0)) == Some(length)
                &&& wire::slot_u8(buf, table, field_slot(1)) matches Some(x)
                &&& chunked <==> x != 0
            },
            _ => true,
        },
{
    if let Some(x) = wire::slot_u32(buf, table, 4) {
        assert((x as i32) as u32 == x) by (bit_vector);
    }
    if let Some(x) = wire::slot_u64(buf, table, 4) {
        assert((x as i64) as u64 == x) by (bit_vector);
    }
}

/// A field that a table does not hold is read as zero, or as an empty text.
pub proof fn law_absent_fields_are_zero(buf: Seq<u8>, table: usize, slot: u16)
    requires
        reader::table_field(buf, table, slot) == Some(None::<usize>),
    ensures
        wire::slot_u8(buf, table, slot) == Some(0u8),
        wire::slot_u32(buf, table, slot) == Some(0u32),
        wire::slot_u64(buf, table, slot) == Some(0u64),
        wire::slot_text_or_empty(buf, table, slot) == Some(Seq::<char>::empty()),
{
}

/// A text stands behind its length and before a zero byte.
pub proof fn law_text_stands_behind_its_length(buf: Seq<u8>, pos: int)
    ensures
        reader::text_at(buf, pos) matches Some(text) ==> {
            let len = le::le32(buf.subrange(pos, pos + 4));
            &&& 0 <= pos && pos % 4 == 0
            &&& pos + 4 + len < buf.len()
            &&& buf[pos + 4 + len] == 0
            &&& vstd::utf8::encode_utf8(text) == buf.subrange(pos + 4, pos + 4 + len)
        },
{
    if reader::text_at(buf, pos) is Some {
        let head = buf.subrange(pos, pos + 4);
        le::law_bytes_are_digits(head.take(2), head, head + head);
        let bytes = buf.subrange(pos + 4, pos + 4 + le::le32(head));
        vstd::utf8::decode_utf8_encode_utf8(bytes);
    }
}

/// A field of a table is found by the distance that the table's list of fields gives for its
/// slot; the list lies the table's own first distance before it.
pub proof fn law_field_is_found_by_its_distance(buf: Seq<u8>, table: usize, slot: u16)
    requires
        table < 0x8000_0000,
    ensures
        reader::table_field(buf, table, slot) matches Some(Some(pos)) ==> {
            let raw = le::le32(buf.subrange(table as int, table + 4));
            let list = if raw < 0x8000_0000 {
                table - raw
            } else {
                table - raw + 0x1_0000_0000
            };
            &&& 0 <= list
            &&& slot < le::le16(buf.subrange(list, list + 2))
            &&& pos == table + le::le16(buf.subrange(list + slot, list + slot + 2))
            &&& pos != table
        },
{
    reveal(reader::table_field);
    if reader::table_field(buf, table, slot) matches Some(Some(_)) {
        let head = buf.subrange(table as int, table + 4);
        le::law_bytes_are_digits(head.take(2), head, head + head);
        let list = reader::slots_at(buf, table as int)->0;
        le::law_bytes_are_digits(buf.subrange(list, list + 2), head, head + head);
        le::law_bytes_are_digits(buf.subrange(list + slot, list + slot + 2), head, head + head);
    }
}

} // verus!
