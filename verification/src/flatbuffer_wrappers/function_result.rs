//! Results of function calls.

use flatbuffers::Verifier;
use vstd::prelude::*;

use super::builder;
use super::builder::FlatBuilder;
use super::builder::FlatField;
use super::builder::FlatObject;
use super::builder::FlatState;
use super::codec::ExternalValueSink;
use super::codec::ExternalValueSource;
use super::function_types::{ReturnValue, ValueView, WireError};
use super::guest_error::{ErrorCode, GuestError};
use super::limits;
use super::limits::Visit;
use super::reader;
use super::reader::read_target;
use super::values;
use super::values::ByteValue;
use super::values::{decode_return_value, send_return};
use super::wire;
use super::wire::{read_return, read_slot_text_or_empty, read_slot_u64, read_union, write_union, write_value};
use super::wire::{ValueTable, ValueWire};
use crate::octets;
use crate::transport::ExternalValues;
use crate::transport::ExternalView;
use crate::virtq::Segments;

verus! {

/// What a function call returned.
#[derive(Debug)]
pub struct FunctionCallResult(pub Result<ReturnValue, GuestError>);

/// What a result says.
pub enum ResultView {
    Value(ValueView),
    Error(ErrorCode, Seq<char>),
}

/// What the table of a result holds.
pub enum ResultWire {
    Value(ValueWire),
    Error(u64, Seq<char>),
    /// The tag stands for no result.
    Unknown(u8),
}

/// The table of a guest error.
pub open spec fn error_table(buf: Seq<u8>, table: usize) -> Option<ResultWire> {
    match (wire::slot_u64(buf, table, 4), wire::slot_text_or_empty(buf, table, 6)) {
        (Some(code), Some(message)) => Some(ResultWire::Error(code, message)),
        _ => None,
    }
}

/// The value of a result's union. A value that no tag describes is not looked at.
pub open spec fn result_value(buf: Seq<u8>, tag: u8, value: Option<usize>) -> Option<ResultWire> {
    match value {
        Some(pos) if tag == 1 || tag == 2 => match reader::target_at(buf, pos as int) {
            None => None,
            Some(table) => if tag == 1 {
                match wire::return_at(buf, table) {
                    None => None,
                    Some(value) => Some(ResultWire::Value(value)),
                }
            } else {
                error_table(buf, table)
            },
        },
        _ => Some(ResultWire::Unknown(tag)),
    }
}

/// What the table of a guest error comes to.
pub open spec fn error_visit(buf: Seq<u8>, table: usize) -> Visit {
    limits::table_visit(buf, table, seq![4u16, 6u16]).plus(
        Visit::bytes(limits::slot_bytes(buf, table, 4, 8)),
    ).plus(Visit::bytes(limits::text_bytes(buf, table, 6)))
}

/// What the value of a result's union comes to.
pub open spec fn result_value_visit(buf: Seq<u8>, tag: u8, value: Option<usize>) -> Visit {
    match value {
        Some(pos) if tag == 1 || tag == 2 => {
            let table = reader::target_at(buf, pos as int)->0;
            Visit::bytes(4).plus(
                if tag == 1 {
                    limits::return_visit(buf, table)
                } else {
                    error_visit(buf, table)
                },
            )
        },
        _ => Visit::bytes(0),
    }
}

/// What the table of a result comes to, with all that it refers to.
pub open spec fn result_table_visit(buf: Seq<u8>, table: usize) -> Visit {
    match wire::union_at(buf, table) {
        Some((tag, value)) => limits::union_visit(buf, table).plus(
            result_value_visit(buf, tag, value),
        ),
        None => limits::union_visit(buf, table),
    }
}

/// What a check of the result in a size-prefixed buffer visits.
pub open spec fn result_visit(buf: Seq<u8>) -> Visit {
    Visit::bytes(4).plus(result_table_visit(buf, reader::target_at(buf, 4)->0))
}

/// The result of a size-prefixed buffer that a check can visit whole.
pub open spec fn result_at(buf: Seq<u8>) -> Option<ResultWire> {
    if result_visit(buf).within() {
        result_tables(buf)
    } else {
        None
    }
}

/// The result that the tables of a size-prefixed buffer hold.
pub open spec fn result_tables(buf: Seq<u8>) -> Option<ResultWire> {
    match reader::target_at(buf, 4) {
        None => None,
        Some(table) => match wire::union_at(buf, table) {
            None => None,
            Some((tag, value)) => result_value(buf, tag, value),
        },
    }
}

/// The result of a table, with its bytes from a source.
pub open spec fn open_result<S: ExternalValueSource>(table: ResultWire, state: S::State) -> Result<
    ResultView,
    WireError,
> {
    match table {
        ResultWire::Value(value) => match values::take_value::<S>(state, value, true) {
            Err(error) => Err(error),
            Ok((view, rest)) => if S::finished(rest) {
                Ok(ResultView::Value(view))
            } else {
                Err(WireError::Unused)
            },
        },
        ResultWire::Error(code, message) => if S::finished(state) {
            Ok(ResultView::Error(ErrorCode::of_wire(code), message))
        } else {
            Err(WireError::Unused)
        },
        ResultWire::Unknown(tag) => Err(WireError::ResultTag(tag)),
    }
}

/// The result that bytes and a source stand for.
pub open spec fn decoded_result<S: ExternalValueSource>(buf: Seq<u8>, state: S::State) -> Result<
    ResultView,
    WireError,
> {
    match result_at(buf) {
        None => Err(WireError::Buffer),
        Some(table) => open_result::<S>(table, state),
    }
}

/// What a source has left once a result was decoded or refused; `None` where the source
/// refused a value.
pub open spec fn result_leaves<S: ExternalValueSource>(
    buf: Seq<u8>,
    state: S::State,
) -> Option<S::State> {
    match result_at(buf) {
        Some(ResultWire::Value(table)) => values::value_leaves::<S>(state, table),
        _ => Some(state),
    }
}

/// Hand the bytes of a result, if it has any, to a sink.
pub open spec fn offer_result<'a, S: ExternalValueSink<'a>>(
    state: S::State,
    result: FunctionCallResult,
) -> Result<S::State, WireError> {
    match result.0 {
        Ok(value) => values::offer_return::<S>(state, value),
        Err(_) => Ok(state),
    }
}

/// The table of a guest error was written.
spec fn error_written(objects: Map<nat, FlatObject>, off: nat, code: u64, message: Seq<char>) -> bool {
    &&& objects.contains_key(off)
    &&& objects[off] matches FlatObject::Table(fields)
    &&& wire::slot_holds(fields, 4, code != 0, FlatField::Long(code))
    &&& fields.contains_key(6)
    &&& wire::text_written(objects, fields[6], message)
}

proof fn lemma_error_reads(
    bytes: Seq<u8>,
    state: FlatState,
    off: nat,
    code: u64,
    message: Seq<char>,
)
    requires
        builder::reads_back(bytes, state),
        bytes.len() <= usize::MAX,
        error_written(state.objects, off, code, message),
    ensures
        off <= bytes.len(),
        error_table(bytes, (bytes.len() - off) as usize) == Some(ResultWire::Error(code, message)),
{
    assert(state.objects.contains_key(off));
    let pos = bytes.len() - off;
    let fields = state.objects[off]->Table_0;
    assert(builder::object_reads(bytes, pos, FlatObject::Table(fields)));
    assert(fields.contains_key(4) || !fields.contains_key(4));
    assert(fields.contains_key(6));
    assert(builder::table_slot_reads(bytes, pos, 4, fields));
    assert(builder::table_slot_reads(bytes, pos, 6, fields));
    let text = fields[6]->Ref_0;
    assert(state.objects.contains_key(text));
    assert(builder::object_reads(bytes, bytes.len() - text, FlatObject::Text(message)));
}

/// A written result that holds a value reads back from the finished buffer.
proof fn lemma_value_result(
    bytes: Seq<u8>,
    state: FlatState,
    result: nat,
    boxed: nat,
    inner: nat,
    value: ValueWire,
)
    requires
        builder::reads_back(bytes, state),
        bytes.len() <= usize::MAX,
        state.root == Some(result),
        wire::union_written(state.objects, result, 1, boxed),
        wire::union_written(state.objects, boxed, value.return_tag(), inner),
        wire::value_written(state.objects, inner, value),
        value.shape() == wire::return_shape_of(value.return_tag()),
        value.shape() != wire::Shape::Unknown,
        value.cost() + 100 <= builder::FLAT_LIMIT,
    ensures
        result_at(bytes) == Some(ResultWire::Value(value)),
{
    wire::lemma_value_reads(bytes, state, inner, value);
    wire::lemma_union_reads(bytes, state, boxed, value.return_tag(), inner);
    wire::lemma_union_reads(bytes, state, result, 1, boxed);
    limits::lemma_union_visit(bytes, state, result, 1, boxed);
    limits::lemma_union_visit(bytes, state, boxed, value.return_tag(), inner);
    limits::lemma_value_visit(bytes, state, inner, value);
}

/// A written result that holds a guest error reads back from the finished buffer.
proof fn lemma_error_result(
    bytes: Seq<u8>,
    state: FlatState,
    result: nat,
    inner: nat,
    code: u64,
    message: Seq<char>,
)
    requires
        builder::reads_back(bytes, state),
        bytes.len() <= usize::MAX,
        state.root == Some(result),
        wire::union_written(state.objects, result, 2, inner),
        error_written(state.objects, inner, code, message),
        vstd::utf8::encode_utf8(message).len() + 140 <= builder::FLAT_LIMIT,
    ensures
        result_at(bytes) == Some(ResultWire::Error(code, message)),
{
    lemma_error_reads(bytes, state, inner, code, message);
    wire::lemma_union_reads(bytes, state, result, 2, inner);
    limits::lemma_union_visit(bytes, state, result, 2, inner);
    limits::lemma_table_visit(bytes, state, inner, seq![4u16, 6u16]);
    limits::lemma_text_visit(bytes, state, inner, 6, message);
}

impl FunctionCallResult {
    /// What the result says.
    pub open spec fn result_view(&self) -> ResultView {
        match self.0 {
            Ok(value) => ResultView::Value(value@),
            Err(error) => ResultView::Error(error.code, error.message@),
        }
    }

    /// What the result's table holds.
    pub open spec fn to_wire(&self) -> ResultWire {
        match self.0 {
            Ok(value) => ResultWire::Value(wire::wire_of(value@)),
            Err(error) => ResultWire::Error(error.code.wire(), error.message@),
        }
    }

    /// The bytes that the result's buffer takes at most.
    pub open spec fn flat_cost(&self) -> nat {
        match self.0 {
            Ok(value) => wire::wire_of(value@).cost() + 100,
            Err(error) => vstd::utf8::encode_utf8(error.message@).len() + 140,
        }
    }

    pub fn new(value: Result<ReturnValue, GuestError>) -> (result: Self)
        ensures
            result.0 == value,
    {
        FunctionCallResult(value)
    }

    /// Whether an empty builder has room for the result.
    pub fn fits(&self) -> (fits: bool)
        ensures
            fits <==> self.flat_cost() <= builder::FLAT_LIMIT,
    {
        match &self.0 {
            Ok(ReturnValue::String(text)) => wire::without_text(
                builder::FLAT_LIMIT,
                text.as_str(),
                143,
            ).is_some(),
            Ok(_) => true,
            Err(error) => wire::without_text(
                builder::FLAT_LIMIT,
                error.message.as_str(),
                140,
            ).is_some(),
        }
    }

    pub fn into_inner(self) -> (value: Result<ReturnValue, GuestError>)
        ensures
            value == self.0,
    {
        self.0
    }

    /// Encode control data and collect a byte return as an external value.
    pub fn encode<'a, 'b, S: ExternalValueSink<'a>>(
        &'a self,
        builder: &'b mut FlatBuilder,
        external_values: &mut S,
    ) -> (encoded: Result<&'b [u8], WireError>)
        requires
            builder::flat_state(*old(builder)).idle(self.flat_cost()),
            builder::flat_state(*old(builder)).bounded(),
        ensures
            match offer_result::<S>(old(external_values).state(), *self) {
                Ok(next) => {
                    &&& encoded is Ok
                    &&& final(external_values).state() == next
                    &&& result_at(encoded->Ok_0@) == Some(self.to_wire())
                    &&& builder::size_prefixed(encoded->Ok_0@)
                    &&& encoded->Ok_0@.len() <= builder::flat_state(*old(builder)).used
                        + self.flat_cost()
                },
                Err(error) => {
                    &&& encoded is Err
                    &&& encoded->Err_0 == error
                    &&& *final(builder) == *old(builder)
                    &&& final(external_values).state() == old(external_values).state()
                },
            },
    {
        match &self.0 {
            Ok(value) => {
                let table = match send_return(value, external_values) {
                    Ok(table) => table,
                    Err(error) => return Err(error),
                };
                let inner: u32 = write_value(builder, &table);
                let ghost valued = builder::flat_state(*builder);
                let boxed: u32 = write_union(builder, table.return_tag(), inner);
                let ghost wrapped = builder::flat_state(*builder);
                let result: u32 = write_union(builder, 1, boxed);
                let ghost done = builder::flat_state(*builder);
                builder.finish_size_prefixed(result);
                let bytes = builder.finished_data();
                proof {
                    let state = builder::flat_state(*builder);
                    wire::lemma_extends_twice(valued.objects, wrapped.objects, done.objects);
                    wire::lemma_value_stands(valued.objects, done.objects, inner as nat, table@);
                    wire::lemma_union_stands(
                        wrapped.objects,
                        done.objects,
                        boxed as nat,
                        table@.return_tag(),
                        inner as nat,
                    );
                    lemma_value_result(
                        bytes@,
                        state,
                        result as nat,
                        boxed as nat,
                        inner as nat,
                        table@,
                    );
                }
                Ok(bytes)
            },
            Err(error) => {
                let message: u32 = builder.create_string(error.message.as_str());
                let start: u32 = builder.start_table();
                builder.push_slot_u64(4, error.code.code());
                builder.push_slot_ref(6, message);
                let guest_error: u32 = builder.end_table(start);
                let ghost written = builder::flat_state(*builder);
                let result: u32 = write_union(builder, 2, guest_error);
                let ghost done = builder::flat_state(*builder);
                builder.finish_size_prefixed(result);
                let bytes = builder.finished_data();
                proof {
                    let state = builder::flat_state(*builder);
                    assert(written.objects.dom().contains(guest_error as nat));
                    assert(done.objects.dom().contains(guest_error as nat));
                    assert(written.objects.dom().contains(message as nat));
                    assert(done.objects.dom().contains(message as nat));
                    lemma_error_result(
                        bytes@,
                        state,
                        result as nat,
                        guest_error as nat,
                        error.code.wire(),
                        error.message@,
                    );
                }
                Ok(bytes)
            },
        }
    }

    /// Decode control data and consume an external byte return.
    pub fn decode<S: ExternalValueSource>(value: &[u8], external_values: &mut S) -> (decoded:
        Result<Self, WireError>)
        requires
            old(external_values).valid(),
        ensures
            final(external_values).valid(),
            match decoded_result::<S>(value@, old(external_values).state()) {
                Ok(view) => decoded is Ok && decoded->Ok_0.result_view() == view,
                Err(error) => decoded is Err && decoded->Err_0 == error,
            },
            result_leaves::<S>(value@, old(external_values).state()) matches Some(left)
                ==> final(external_values).state() == left,
    {
        let result = match read_result(value) {
            None => return Err(WireError::Buffer),
            Some(ResultTable::Value(table)) => match decode_return_value(table, external_values) {
                Ok(value) => Ok(value),
                Err(error) => return Err(error),
            },
            Some(ResultTable::Error(code, message)) => Err(
                GuestError::new(ErrorCode::from(code), message),
            ),
            Some(ResultTable::Unknown(tag)) => return Err(WireError::ResultTag(tag)),
        };
        match external_values.finish() {
            Ok(()) => Ok(FunctionCallResult(result)),
            Err(_) => Err(WireError::Unused),
        }
    }
}

/// A result as it was read from a buffer.
enum ResultTable {
    Value(ValueTable),
    Error(u64, String),
    Unknown(u8),
}

impl View for ResultTable {
    type V = ResultWire;

    closed spec fn view(&self) -> ResultWire {
        match self {
            ResultTable::Value(table) => ResultWire::Value(table@),
            ResultTable::Error(code, message) => ResultWire::Error(*code, message@),
            ResultTable::Unknown(tag) => ResultWire::Unknown(*tag),
        }
    }
}

/// Check the table of a guest error.
fn check_error(verifier: &mut Verifier<'_, '_>, buf: &[u8], table: usize) -> (ok: bool)
    requires
        limits::progress(*old(verifier)).going(buf@),
    ensures
        limits::went(
            limits::progress(*old(verifier)),
            limits::progress(*final(verifier)),
            error_visit(buf@, table),
            error_table(buf@, table) is Some,
            ok,
        ),
{
    let ghost before = limits::progress(*verifier);
    let ghost first = limits::table_visit(buf@, table, seq![4u16, 6u16]);
    let wanted: Vec<u16> = vec![4u16, 6u16];
    proof {
        assert(wanted@ =~= seq![4u16, 6u16]);
        reader::lemma_slot_listed(buf@, table, 4);
        reader::lemma_slot_listed(buf@, table, 6);
    }
    let places = match limits::visit_slots(verifier, table, wanted.as_slice()) {
        Some(places) => places,
        None => {
            proof {
                if before.seen.plus(first).within() {
                    assert(!limits::table_stands(buf@, table, seq![4u16, 6u16]));
                }
            }
            return false;
        },
    };
    proof {
        assert(wanted@[0] == 4u16 && wanted@[1] == 6u16);
        assert(reader::table_field(buf@, table, 4) == Some(places@[0]));
        assert(reader::table_field(buf@, table, 6) == Some(places@[1]));
    }
    if !limits::check_slot(verifier, places[0], 8) {
        return false;
    }
    let ghost mid = limits::progress(*verifier);
    let ok: bool = limits::check_text_slot(verifier, buf, places[1]);
    proof {
        let text = limits::text_bytes(buf@, table, 6);
        assert(mid.seen.plus(Visit::bytes(text)) =~= before.seen.plus(error_visit(buf@, table)));
    }
    ok
}

/// Check that the result of a size-prefixed buffer can be visited whole.
fn check_result(buf: &[u8]) -> (ok: bool)
    ensures
        result_tables(buf@) is Some ==> ok == result_visit(buf@).within(),
{
    let options = limits::default_options();
    let mut verifier = limits::begin(&options, buf);
    if !limits::visit_range(&mut verifier, 4, 4) {
        return false;
    }
    let table: usize = match read_target(buf, 4) {
        Some(table) => table,
        None => return false,
    };
    let (tag, value) = match limits::check_tag(&mut verifier, buf, table) {
        Some(union) => union,
        None => return false,
    };
    let pos: usize = match value {
        Some(pos) => if tag == 1 || tag == 2 {
            pos
        } else {
            return true;
        },
        None => return true,
    };
    if !limits::visit_range(&mut verifier, pos, 4) {
        return false;
    }
    let target: usize = match read_target(buf, pos) {
        Some(target) => target,
        None => return false,
    };
    if tag == 1 {
        limits::check_union(&mut verifier, buf, target, true)
    } else {
        check_error(&mut verifier, buf, target)
    }
}

/// Read the result of a size-prefixed buffer.
fn read_result(buf: &[u8]) -> (read: Option<ResultTable>)
    ensures
        read is Some <==> result_at(buf@) is Some,
        read matches Some(table) ==> result_at(buf@) == Some(table@),
{
    if !check_result(buf) {
        return None;
    }
    let table: usize = match read_target(buf, 4) {
        Some(table) => table,
        None => return None,
    };
    let (tag, value) = match read_union(buf, table) {
        Some(union) => union,
        None => return None,
    };
    let pos: usize = match value {
        Some(pos) => if tag == 1 || tag == 2 {
            pos
        } else {
            return Some(ResultTable::Unknown(tag));
        },
        None => return Some(ResultTable::Unknown(tag)),
    };
    let target: usize = match read_target(buf, pos) {
        Some(target) => target,
        None => return None,
    };
    if tag == 1 {
        match read_return(buf, target) {
            Some(table) => Some(ResultTable::Value(table)),
            None => None,
        }
    } else {
        match (read_slot_u64(buf, target, 4), read_slot_text_or_empty(buf, target, 6)) {
            (Some(code), Some(message)) => Some(ResultTable::Error(code, message)),
            _ => None,
        }
    }
}

/// What a result says once it has crossed the wire: a zero has no sign.
pub open spec fn delivered(result: ResultView) -> ResultView {
    match result {
        ResultView::Value(value) => ResultView::Value(values::kept(value)),
        ResultView::Error(..) => result,
    }
}

/// A result that was encoded decodes to the same result when its external value follows it.
pub proof fn law_result_round_trip(
    result: FunctionCallResult,
    externals: ExternalView,
    buf: Seq<u8>,
)
    requires
        result_at(buf) == Some(result.to_wire()),
        offer_result::<ExternalValues<'static>>(
            ExternalView { chunks: Seq::empty(), total: 0 },
            result,
        ) == Ok::<ExternalView, WireError>(externals),
    ensures
        decoded_result::<Segments>(buf, externals.chunks.flatten()) == Ok::<ResultView, WireError>(
            delivered(result.result_view()),
        ),
{
    match result.0 {
        Ok(value) => {
            let chunks: Seq<Seq<u8>> = match value {
                ReturnValue::VecBytes(v) => seq![v@],
                ReturnValue::ByteChunks(v) => octets::all_octets(v@),
                _ => Seq::empty(),
            };
            if let ReturnValue::VecBytes(v) = value {
                seq![v@].lemma_flatten_one_element();
            }
            crate::transport::lemma_nonempty_flatten(chunks);
            assert(Seq::<Seq<u8>>::empty() + crate::transport::nonempty(chunks)
                =~= crate::transport::nonempty(chunks));
            let bytes = values::external_bytes(value@);
            assert(bytes.take(bytes.len() as int) =~= bytes);
            assert(bytes.skip(bytes.len() as int) =~= Seq::<u8>::empty());
        },
        Err(error) => {
            super::guest_error::law_error_code_round_trip(error.code);
        },
    }
}

/// The byte values that travel beside a result.
pub open spec fn result_bytes(result: ResultView) -> Seq<ByteValue> {
    match result {
        ResultView::Value(value) => values::byte_value(value),
        ResultView::Error(..) => Seq::empty(),
    }
}

/// Whatever sink took a result's byte value, the result decodes from a source exactly where
/// the source holds a value of the same kind and length, or none where the result has none,
/// and nothing else. A source that holds the value itself gives the result back; either way
/// nothing is left in it.
pub proof fn law_result_decodes_from_its_value<
    'a,
    K: ExternalValueSink<'a>,
    S: ExternalValueSource,
>(
    result: FunctionCallResult,
    sink: K::State,
    buf: Seq<u8>,
    source: S::State,
    items: Seq<ByteValue>,
)
    requires
        result_at(buf) == Some(result.to_wire()),
        offer_result::<K>(sink, result) is Ok,
        values::holds_values::<S>(source, items),
    ensures
        decoded_result::<S>(buf, source) is Ok <==> values::shaped_like(
            items,
            result_bytes(result.result_view()),
        ),
        items == result_bytes(result.result_view()) ==> decoded_result::<S>(buf, source) == Ok::<
            ResultView,
            WireError,
        >(delivered(result.result_view())),
        decoded_result::<S>(buf, source) is Ok ==> {
            &&& result_leaves::<S>(buf, source) is Some
            &&& values::holds_values::<S>(result_leaves::<S>(buf, source)->0, Seq::empty())
        },
{
    let wanted = result_bytes(result.result_view());
    match result.0 {
        Ok(value) => {
            if let ReturnValue::VecBytes(v) = value {
                seq![v@].lemma_flatten_one_element();
            }
            values::lemma_take_one::<S>(source, value@, items, true);
            let behind = items.skip(wanted.len() as int);
            if behind.len() == 0 {
                assert(behind =~= Seq::<ByteValue>::empty());
                if wanted.len() <= items.len() {
                    assert(items.take(wanted.len() as int) =~= items);
                }
            }
        },
        Err(error) => {
            super::guest_error::law_error_code_round_trip(error.code);
            if items.len() == 0 {
                assert(items =~= Seq::<ByteValue>::empty());
            }
        },
    }
}

} // verus!
