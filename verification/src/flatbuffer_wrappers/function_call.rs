//! Calls of functions in the guest or the host.

use flatbuffers::Verifier;
use vstd::prelude::*;

use super::builder;
use super::builder::FlatBuilder;
use super::builder::FlatField;
use super::builder::FlatObject;
use super::builder::FlatState;
use super::codec::ExternalValueSink;
use super::codec::ExternalValueSource;
use super::function_types::{ParameterValue, ReturnType, ValueView, WireError};
use super::limits;
use super::limits::Visit;
use super::reader;
use super::reader::{find_field, read_target, read_u32};
use super::values;
use super::values::ByteValue;
use super::values::{decode_parameter_value, send_parameter};
use super::wire;
use super::wire::{read_parameter, read_slot_text, read_slot_u8, write_union, write_value};
use super::wire::{ValueTable, ValueWire};
use crate::transport::ExternalValues;
use crate::transport::ExternalView;
use crate::virtq::Segments;

verus! {

/// The type of function call.
#[derive(Debug, Clone, Copy, PartialEq, Eq, Structural)]
pub enum FunctionCallType {
    /// The function call is to a guest function.
    Guest,
    /// The function call is to a host function.
    Host,
}

impl FunctionCallType {
    /// The type's tag on the wire.
    pub open spec fn tag(self) -> u8 {
        match self {
            FunctionCallType::Guest => 1,
            FunctionCallType::Host => 2,
        }
    }

    /// The type that a tag stands for.
    pub open spec fn of_tag(tag: u8) -> Result<FunctionCallType, WireError> {
        if tag == 1 {
            Ok(FunctionCallType::Guest)
        } else if tag == 2 {
            Ok(FunctionCallType::Host)
        } else {
            Err(WireError::CallType(tag))
        }
    }
}

/// `FunctionCall` represents a call to a function in the guest or host.
#[derive(Debug, Clone)]
pub struct FunctionCall {
    /// The function name
    pub function_name: String,
    /// The parameters for the function call.
    pub parameters: Option<Vec<ParameterValue>>,
    /// The type of the function call.
    pub function_call_type: FunctionCallType,
    /// The return type of the function call
    pub expected_return_type: ReturnType,
}

/// What a function call says.
#[verifier::ext_equal]
pub struct CallView {
    pub name: Seq<char>,
    pub parameters: Option<Seq<ValueView>>,
    pub call_type: FunctionCallType,
    pub return_type: ReturnType,
}

/// What the table of a function call holds.
#[verifier::ext_equal]
pub struct CallWire {
    pub name: Seq<char>,
    pub parameters: Option<Seq<ValueWire>>,
    pub call_type: u8,
    pub return_type: u8,
}

/// The parameters in a vector of references.
pub open spec fn parameters_at(buf: Seq<u8>, vector: usize, n: nat) -> Option<Seq<ValueWire>>
    decreases n,
{
    if n == 0 {
        Some(Seq::empty())
    } else {
        match (
            parameters_at(buf, vector, (n - 1) as nat),
            reader::target_at(buf, reader::element_pos(vector as int, n - 1)),
        ) {
            (Some(values), Some(table)) => match wire::parameter_at(buf, table) {
                Some(value) => Some(values.push(value)),
                None => None,
            },
            _ => None,
        }
    }
}

/// The parameter slot of a call: `Some(None)` where the call has none.
pub open spec fn parameter_slot(buf: Seq<u8>, table: usize) -> Option<Option<Seq<ValueWire>>> {
    match reader::table_field(buf, table, 6) {
        None => None,
        Some(None) => Some(None),
        Some(Some(pos)) => match reader::target_at(buf, pos as int) {
            None => None,
            Some(vector) => match reader::u32_at(buf, vector as int) {
                None => None,
                Some(len) => match parameters_at(buf, vector, len as nat) {
                    None => None,
                    Some(values) => Some(Some(values)),
                },
            },
        },
    }
}

/// What the parameters in a vector of references come to.
pub open spec fn parameters_visit(buf: Seq<u8>, vector: usize, n: nat) -> Visit
    decreases n,
{
    if n == 0 {
        Visit::bytes(0)
    } else {
        parameters_visit(buf, vector, (n - 1) as nat).plus(Visit::bytes(4)).plus(
            limits::parameter_visit(
                buf,
                reader::target_at(buf, reader::element_pos(vector as int, n - 1))->0,
            ),
        )
    }
}

/// What the parameter slot of a call comes to: the reference, the vector and its elements.
pub open spec fn parameter_slot_visit(buf: Seq<u8>, table: usize) -> Visit {
    match reader::table_field(buf, table, 6) {
        Some(Some(pos)) => {
            let vector = reader::target_at(buf, pos as int)->0;
            let n = limits::length_at(buf, pos as int);
            Visit::bytes(8 + 4 * n).plus(parameters_visit(buf, vector, n))
        },
        _ => Visit::bytes(0),
    }
}

/// What the table of a call comes to, with all that it refers to.
pub open spec fn call_table_visit(buf: Seq<u8>, table: usize) -> Visit {
    limits::table_visit(buf, table, call_slots()).plus(
        Visit::bytes(limits::text_bytes(buf, table, 4)),
    ).plus(parameter_slot_visit(buf, table)).plus(
        Visit::bytes(limits::slot_bytes(buf, table, 8, 1)),
    ).plus(Visit::bytes(limits::slot_bytes(buf, table, 10, 1)))
}

/// The slots of a call's table.
pub open spec fn call_slots() -> Seq<u16> {
    seq![4u16, 6u16, 8u16, 10u16]
}

/// What a check of the call in a size-prefixed buffer visits.
pub open spec fn call_visit(buf: Seq<u8>) -> Visit {
    Visit::bytes(4).plus(call_table_visit(buf, reader::target_at(buf, 4)->0))
}

/// The function call of a size-prefixed buffer that a check can visit whole.
pub open spec fn call_at(buf: Seq<u8>) -> Option<CallWire> {
    if call_visit(buf).within() {
        call_tables(buf)
    } else {
        None
    }
}

/// The function call that the tables of a size-prefixed buffer hold.
pub open spec fn call_tables(buf: Seq<u8>) -> Option<CallWire> {
    match reader::target_at(buf, 4) {
        None => None,
        Some(table) => match (
            wire::slot_text(buf, table, 4),
            parameter_slot(buf, table),
            wire::slot_u8(buf, table, 8),
            wire::slot_u8(buf, table, 10),
        ) {
            (Some(Some(name)), Some(parameters), Some(call_type), Some(return_type)) => Some(
                CallWire { name, parameters, call_type, return_type },
            ),
            _ => None,
        },
    }
}

/// The function call of a table, with its bytes from a source.
pub open spec fn open_call<S: ExternalValueSource>(table: CallWire, state: S::State) -> Result<
    CallView,
    WireError,
> {
    match FunctionCallType::of_tag(table.call_type) {
        Err(error) => Err(error),
        Ok(call_type) => match ReturnType::of_tag(table.return_type) {
            Err(error) => Err(error),
            Ok(return_type) => match table.parameters {
                None => if S::finished(state) {
                    Ok(CallView { name: table.name, parameters: None, call_type, return_type })
                } else {
                    Err(WireError::Unused)
                },
                Some(tables) => match values::take_parameters::<S>(state, tables) {
                    Err(error) => Err(error),
                    Ok((parameters, rest)) => if S::finished(rest) {
                        Ok(
                            CallView {
                                name: table.name,
                                parameters: Some(parameters),
                                call_type,
                                return_type,
                            },
                        )
                    } else {
                        Err(WireError::Unused)
                    },
                },
            },
        },
    }
}

/// The function call that bytes and a source stand for.
pub open spec fn decoded_call<S: ExternalValueSource>(buf: Seq<u8>, state: S::State) -> Result<
    CallView,
    WireError,
> {
    match call_at(buf) {
        None => Err(WireError::Buffer),
        Some(table) => open_call::<S>(table, state),
    }
}

/// What a source has left once a call was decoded or refused; `None` where the source
/// refused a value.
pub open spec fn call_leaves<S: ExternalValueSource>(
    buf: Seq<u8>,
    state: S::State,
) -> Option<S::State> {
    match call_at(buf) {
        Some(table) => if FunctionCallType::of_tag(table.call_type) is Ok && ReturnType::of_tag(
            table.return_type,
        ) is Ok {
            match table.parameters {
                Some(tables) => values::parameters_leave::<S>(state, tables),
                None => Some(state),
            }
        } else {
            Some(state)
        },
        None => Some(state),
    }
}

/// The bytes that tables of parameters take at most.
pub open spec fn parameters_cost(tables: Seq<ValueWire>) -> nat
    decreases tables.len(),
{
    if tables.len() == 0 {
        0
    } else {
        parameters_cost(tables.drop_last()) + tables.last().cost() + 36
    }
}

proof fn lemma_cost_monotone(tables: Seq<ValueWire>, n: int)
    requires
        0 <= n <= tables.len(),
    ensures
        parameters_cost(tables.take(n)) <= parameters_cost(tables),
    decreases tables.len() - n,
{
    if n < tables.len() {
        assert(tables.take(n + 1).drop_last() =~= tables.take(n));
        lemma_cost_monotone(tables, n + 1);
    } else {
        assert(tables.take(n) =~= tables);
    }
}

/// A parameter was written.
spec fn parameter_written(objects: Map<nat, FlatObject>, off: nat, value: ValueWire) -> bool {
    exists|inner: nat| #[trigger]
        wire::union_written(objects, off, value.parameter_tag(), inner) && wire::value_written(
            objects,
            inner,
            value,
        )
}

proof fn lemma_parameter_stands(
    objects: Map<nat, FlatObject>,
    more: Map<nat, FlatObject>,
    off: nat,
    value: ValueWire,
)
    requires
        parameter_written(objects, off, value),
        objects.submap_of(more),
    ensures
        parameter_written(more, off, value),
{
    let inner = choose|inner: nat| #[trigger]
        wire::union_written(objects, off, value.parameter_tag(), inner) && wire::value_written(
            objects,
            inner,
            value,
        );
    wire::lemma_union_stands(objects, more, off, value.parameter_tag(), inner);
    wire::lemma_value_stands(objects, more, inner, value);
}

proof fn lemma_parameter_reads(bytes: Seq<u8>, state: FlatState, off: nat, value: ValueWire)
    requires
        builder::reads_back(bytes, state),
        bytes.len() <= usize::MAX,
        parameter_written(state.objects, off, value),
        value.shape() == wire::parameter_shape_of(value.parameter_tag()),
        value.shape() != wire::Shape::Unknown,
    ensures
        off <= bytes.len(),
        wire::parameter_at(bytes, (bytes.len() - off) as usize) == Some(value),
        limits::parameter_visit(bytes, (bytes.len() - off) as usize).tables == 2,
        limits::parameter_visit(bytes, (bytes.len() - off) as usize).bytes <= value.cost() + 26,
{
    let inner = choose|inner: nat| #[trigger]
        wire::union_written(state.objects, off, value.parameter_tag(), inner)
            && wire::value_written(state.objects, inner, value);
    wire::lemma_union_reads(bytes, state, off, value.parameter_tag(), inner);
    wire::lemma_value_reads(bytes, state, inner, value);
    limits::lemma_union_visit(bytes, state, off, value.parameter_tag(), inner);
    limits::lemma_value_visit(bytes, state, inner, value);
}

/// Parameter tables can be written: each has a tag of its own.
pub open spec fn writable(tables: Seq<ValueWire>) -> bool {
    forall|i: int|
        0 <= i < tables.len() ==> {
            let value = #[trigger] tables[i];
            value.shape() == wire::parameter_shape_of(value.parameter_tag()) && value.shape()
                != wire::Shape::Unknown
        }
}

proof fn lemma_vector_reads(
    bytes: Seq<u8>,
    state: FlatState,
    off: nat,
    offs: Seq<nat>,
    tables: Seq<ValueWire>,
    n: nat,
)
    requires
        builder::reads_back(bytes, state),
        bytes.len() <= usize::MAX,
        state.objects.contains_key(off),
        state.objects[off] == FlatObject::Objects(offs),
        offs.len() == tables.len(),
        n <= tables.len(),
        writable(tables),
        forall|i: int|
            0 <= i < tables.len() ==> parameter_written(
                state.objects,
                offs[i],
                #[trigger] tables[i],
            ),
    ensures
        off <= bytes.len(),
        parameters_at(bytes, (bytes.len() - off) as usize, n) == Some(tables.take(n as int)),
        parameters_visit(bytes, (bytes.len() - off) as usize, n).tables == 2 * n,
        parameters_visit(bytes, (bytes.len() - off) as usize, n).bytes + 4 * n <= parameters_cost(
            tables.take(n as int),
        ),
    decreases n,
{
    assert(builder::object_reads(bytes, bytes.len() - off, state.objects[off]));
    if n == 0 {
        assert(tables.take(0) =~= Seq::<ValueWire>::empty());
    } else {
        let i = n - 1;
        lemma_vector_reads(bytes, state, off, offs, tables, i as nat);
        let pos = (bytes.len() - off) as usize;
        assert(reader::target_at(bytes, reader::element_pos(pos as int, i)) == Some(
            (bytes.len() - offs[i]) as usize,
        ));
        assert(parameter_written(state.objects, offs[i], tables[i]));
        lemma_parameter_reads(bytes, state, offs[i], tables[i]);
        assert(tables.take(n as int) =~= tables.take(i).push(tables[i]));
        assert(tables.take(n as int).drop_last() =~= tables.take(i));
    }
}

/// A vector of parameters was written.
spec fn vector_written(objects: Map<nat, FlatObject>, vector: nat, tables: Seq<ValueWire>) -> bool {
    &&& objects.contains_key(vector)
    &&& objects[vector] matches FlatObject::Objects(offs)
    &&& offs.len() == tables.len()
    &&& forall|i: int|
        0 <= i < tables.len() ==> parameter_written(objects, offs[i], #[trigger] tables[i])
}

proof fn lemma_vector_stands(
    objects: Map<nat, FlatObject>,
    more: Map<nat, FlatObject>,
    vector: nat,
    tables: Seq<ValueWire>,
)
    requires
        vector_written(objects, vector, tables),
        objects.submap_of(more),
    ensures
        vector_written(more, vector, tables),
{
    assert(objects.dom().contains(vector) && more.dom().contains(vector));
    let offs = objects[vector]->Objects_0;
    assert forall|i: int| 0 <= i < tables.len() implies parameter_written(
        more,
        offs[i],
        #[trigger] tables[i],
    ) by {
        lemma_parameter_stands(objects, more, offs[i], tables[i]);
    }
}

/// A call's table was written.
spec fn call_written(objects: Map<nat, FlatObject>, off: nat, call: CallWire) -> bool {
    &&& objects.contains_key(off)
    &&& objects[off] matches FlatObject::Table(fields)
    &&& fields.contains_key(4)
    &&& wire::text_written(objects, fields[4], call.name)
    &&& wire::slot_holds(fields, 8, call.call_type != 0, FlatField::Byte(call.call_type))
    &&& wire::slot_holds(fields, 10, call.return_type != 0, FlatField::Byte(call.return_type))
    &&& match call.parameters {
        None => !fields.contains_key(6),
        Some(tables) => {
            &&& fields.contains_key(6)
            &&& fields[6] matches FlatField::Ref(vector)
            &&& vector_written(objects, vector, tables)
        },
    }
}

proof fn lemma_call_reads(bytes: Seq<u8>, state: FlatState, off: nat, call: CallWire)
    requires
        builder::reads_back(bytes, state),
        bytes.len() <= usize::MAX,
        state.root == Some(off),
        call_written(state.objects, off, call),
        call.parameters matches Some(tables) ==> writable(tables),
    ensures
        call_tables(bytes) == Some(call),
        ({
            let tables = match call.parameters {
                Some(tables) => tables,
                None => Seq::empty(),
            };
            &&& call_visit(bytes).tables == 1 + 2 * tables.len()
            &&& call_visit(bytes).bytes <= 52 + vstd::utf8::encode_utf8(call.name).len()
                + parameters_cost(tables)
        }),
{
    let pos = bytes.len() - off;
    let fields = state.objects[off]->Table_0;
    assert(state.objects.contains_key(off));
    assert(builder::object_reads(bytes, pos, FlatObject::Table(fields)));
    assert(builder::table_slot_reads(bytes, pos, 4, fields));
    assert(fields.contains_key(6) || !fields.contains_key(6));
    assert(builder::table_slot_reads(bytes, pos, 6, fields));
    assert(fields.contains_key(8) || !fields.contains_key(8));
    assert(builder::table_slot_reads(bytes, pos, 8, fields));
    assert(fields.contains_key(10) || !fields.contains_key(10));
    assert(builder::table_slot_reads(bytes, pos, 10, fields));
    let name = fields[4]->Ref_0;
    assert(state.objects.contains_key(name));
    assert(builder::object_reads(bytes, bytes.len() - name, FlatObject::Text(call.name)));
    limits::lemma_table_visit(bytes, state, off, call_slots());
    limits::lemma_text_visit(bytes, state, off, 4, call.name);
    if let Some(tables) = call.parameters {
        let vector = fields[6]->Ref_0;
        let offs = state.objects[vector]->Objects_0;
        assert(state.objects.contains_key(vector));
        assert(builder::object_reads(bytes, bytes.len() - vector, FlatObject::Objects(offs)));
        lemma_vector_reads(bytes, state, vector, offs, tables, tables.len());
        assert(tables.take(tables.len() as int) =~= tables);
    }
}

proof fn lemma_parameters_writable(parameters: Seq<ParameterValue>)
    ensures
        writable(values::parameter_wires(parameters)),
{
    assert forall|i: int| 0 <= i < parameters.len() implies ({
        let value = #[trigger] values::parameter_wires(parameters)[i];
        value.shape() == wire::parameter_shape_of(value.parameter_tag()) && value.shape()
            != wire::Shape::Unknown
    }) by {
        assert(values::parameter_wires(parameters)[i] == wire::wire_of(parameters[i]@));
    }
}

impl FunctionCall {
    /// What the call says.
    pub open spec fn call_view(&self) -> CallView {
        CallView {
            name: self.function_name@,
            parameters: match self.parameters {
                Some(values) => Some(values::parameter_views(values@)),
                None => None,
            },
            call_type: self.function_call_type,
            return_type: self.expected_return_type,
        }
    }

    /// The parameters, none where the call has no list of them.
    pub open spec fn parameter_list(&self) -> Seq<ParameterValue> {
        match self.parameters {
            Some(values) => values@,
            None => Seq::empty(),
        }
    }

    /// What the call's table holds. An empty list of parameters is left out.
    pub open spec fn to_wire(&self) -> CallWire {
        CallWire {
            name: self.function_name@,
            parameters: if self.parameter_list().len() > 0 {
                Some(values::parameter_wires(self.parameter_list()))
            } else {
                None
            },
            call_type: self.function_call_type.tag(),
            return_type: self.expected_return_type.tag(),
        }
    }

    /// A check of the call visits its table and two for each parameter.
    pub open spec fn checkable(&self) -> bool {
        1 + 2 * self.parameter_list().len() <= limits::TABLE_LIMIT
    }

    /// A buffer holds the call. One with more parameters than a check visits does not decode.
    pub open spec fn encodes(&self, buf: Seq<u8>) -> bool {
        &&& builder::size_prefixed(buf)
        &&& call_tables(buf) == Some(self.to_wire())
        &&& call_at(buf) == if self.checkable() {
            Some(self.to_wire())
        } else {
            None
        }
    }

    /// The bytes that the call's buffer takes at most.
    pub open spec fn flat_cost(&self) -> nat {
        vstd::utf8::encode_utf8(self.function_name@).len() + parameters_cost(
            values::parameter_wires(self.parameter_list()),
        ) + 100
    }

    pub fn new(
        function_name: String,
        parameters: Option<Vec<ParameterValue>>,
        function_call_type: FunctionCallType,
        expected_return_type: ReturnType,
    ) -> (call: Self)
        ensures
            call.function_name == function_name,
            call.parameters == parameters,
            call.function_call_type == function_call_type,
            call.expected_return_type == expected_return_type,
    {
        FunctionCall { function_name, parameters, function_call_type, expected_return_type }
    }

    /// The type of the function call.
    pub fn function_call_type(&self) -> (call_type: FunctionCallType)
        ensures
            call_type == self.function_call_type,
    {
        self.function_call_type
    }

    /// Write the parameters and hand their bytes to a sink.
    fn encode_parameters<'a, S: ExternalValueSink<'a>>(
        parameters: &'a Vec<ParameterValue>,
        builder: &mut FlatBuilder,
        external_values: &mut S,
    ) -> (written: Result<Vec<u32>, WireError>)
        requires
            builder::flat_state(*old(builder)).idle(
                parameters_cost(values::parameter_wires(parameters@)),
            ),
            builder::flat_state(*old(builder)).bounded(),
        ensures
            match values::offer_parameters::<S>(old(external_values).state(), parameters@) {
                Ok(next) => {
                    &&& written is Ok
                    &&& final(external_values).state() == next
                    &&& written->Ok_0@.len() == parameters@.len()
                    &&& builder::flat_state(*old(builder)).objects.submap_of(
                        builder::flat_state(*final(builder)).objects,
                    )
                    &&& builder::flat_state(*final(builder)).open is None
                    &&& builder::flat_state(*final(builder)).root is None
                    &&& builder::flat_state(*final(builder)).bounded()
                    &&& builder::flat_state(*final(builder)).used + 4 * parameters@.len()
                        <= builder::flat_state(*old(builder)).used + parameters_cost(
                        values::parameter_wires(parameters@),
                    )
                    &&& forall|i: int|
                        0 <= i < parameters@.len() ==> parameter_written(
                            builder::flat_state(*final(builder)).objects,
                            (#[trigger] written->Ok_0@[i]) as nat,
                            values::parameter_wires(parameters@)[i],
                        )
                },
                Err(error) => written is Err && written->Err_0 == error && wire::extends(
                    builder::flat_state(*old(builder)),
                    builder::flat_state(*final(builder)),
                    parameters_cost(values::parameter_wires(parameters@)),
                ),
            },
            final(external_values).state() == values::held_after::<S>(
                old(external_values).state(),
                parameters@,
            ),
    {
        let ghost tables = values::parameter_wires(parameters@);
        let ghost start = builder::flat_state(*builder);
        let ghost sunk = external_values.state();
        let mut offs: Vec<u32> = Vec::new();
        let mut i: usize = 0;
        proof {
            assert(parameters@.take(0) =~= Seq::<ParameterValue>::empty());
            assert(tables.take(0) =~= Seq::<ValueWire>::empty());
        }
        while i < parameters.len()
            invariant
                i <= parameters@.len(),
                tables == values::parameter_wires(parameters@),
                offs@.len() == i,
                values::offer_parameters::<S>(sunk, parameters@.take(i as int)) == Ok::<
                    S::State,
                    WireError,
                >(external_values.state()),
                sunk == old(external_values).state(),
                start == builder::flat_state(*old(builder)),
                start.idle(parameters_cost(tables)),
                start.objects.submap_of(builder::flat_state(*builder).objects),
                builder::flat_state(*builder).open is None,
                builder::flat_state(*builder).root is None,
                builder::flat_state(*builder).bounded(),
                start.used <= builder::flat_state(*builder).used,
                builder::flat_state(*builder).used + 4 * i <= start.used + parameters_cost(
                    tables.take(i as int),
                ),
                forall|k: int|
                    0 <= k < i ==> parameter_written(
                        builder::flat_state(*builder).objects,
                        (#[trigger] offs@[k]) as nat,
                        tables[k],
                    ),
            decreases parameters@.len() - i,
        {
            proof {
                assert(parameters@.take(i + 1).drop_last() =~= parameters@.take(i as int));
                assert(tables.take(i + 1).drop_last() =~= tables.take(i as int));
                assert(tables[i as int] == wire::wire_of(parameters@[i as int]@));
                lemma_cost_monotone(tables, i + 1);
            }
            let value = match send_parameter(&parameters[i], external_values) {
                Ok(value) => value,
                Err(error) => {
                    proof {
                        values::lemma_offer_prefix::<S>(sunk, parameters@, i + 1, error);
                    }
                    return Err(error);
                },
            };
            let ghost before = builder::flat_state(*builder);
            let inner: u32 = write_value(builder, &value);
            let ghost between = builder::flat_state(*builder);
            let off: u32 = write_union(builder, value.parameter_tag(), inner);
            offs.push(off);
            proof {
                let after = builder::flat_state(*builder);
                wire::lemma_extends_twice(before.objects, between.objects, after.objects);
                wire::lemma_extends_twice(start.objects, before.objects, after.objects);
                wire::lemma_value_stands(between.objects, after.objects, inner as nat, value@);
                assert(wire::union_written(
                    after.objects,
                    off as nat,
                    value@.parameter_tag(),
                    inner as nat,
                ));
                assert(parameter_written(after.objects, off as nat, tables[i as int]));
                assert forall|k: int| 0 <= k < i + 1 implies parameter_written(
                    after.objects,
                    (#[trigger] offs@[k]) as nat,
                    tables[k],
                ) by {
                    if k < i {
                        lemma_parameter_stands(
                            before.objects,
                            after.objects,
                            offs@[k] as nat,
                            tables[k],
                        );
                    }
                }
            }
            i += 1;
        }
        proof {
            assert(parameters@.take(i as int) =~= parameters@);
            assert(tables.take(i as int) =~= tables);
        }
        Ok(offs)
    }

    /// Write the table of a call whose name and parameters are written.
    fn write_call(
        builder: &mut FlatBuilder,
        function_name: u32,
        parameters: Option<u32>,
        call_type: u8,
        return_type: u8,
        Ghost(call): Ghost<CallWire>,
    ) -> (off: u32)
        requires
            builder::flat_state(*old(builder)).idle(40),
            builder::flat_state(*old(builder)).bounded(),
            wire::text_written(
                builder::flat_state(*old(builder)).objects,
                FlatField::Ref(function_name as nat),
                call.name,
            ),
            call.call_type == call_type,
            call.return_type == return_type,
            parameters is Some <==> call.parameters is Some,
            parameters matches Some(vector) ==> {
                &&& builder::flat_state(*old(builder)).objects.contains_key(vector as nat)
                &&& vector_written(
                    builder::flat_state(*old(builder)).objects,
                    vector as nat,
                    call.parameters->0,
                )
            },
        ensures
            wire::extends(
                builder::flat_state(*old(builder)),
                builder::flat_state(*final(builder)),
                40,
            ),
            call_written(builder::flat_state(*final(builder)).objects, off as nat, call),
    {
        let ghost before = builder::flat_state(*builder);
        let start: u32 = builder.start_table();
        if let Some(vector) = parameters {
            builder.push_slot_ref(6, vector);
        }
        builder.push_slot_ref(4, function_name);
        builder.push_slot_u8(10, return_type);
        builder.push_slot_u8(8, call_type);
        let off: u32 = builder.end_table(start);
        proof {
            let after = builder::flat_state(*builder);
            assert(before.objects.submap_of(after.objects));
            if let Some(vector) = parameters {
                lemma_vector_stands(
                    before.objects,
                    after.objects,
                    vector as nat,
                    call.parameters->0,
                );
            }
        }
        off
    }

    /// Whether an empty builder has room for the call.
    pub fn fits(&self) -> (fits: bool)
        ensures
            fits <==> self.flat_cost() <= builder::FLAT_LIMIT,
    {
        let mut left: usize = match wire::without_text(
            builder::FLAT_LIMIT,
            self.function_name.as_str(),
            100,
        ) {
            Some(left) => left,
            None => return false,
        };
        let ghost tables = values::parameter_wires(self.parameter_list());
        let ghost name = vstd::utf8::encode_utf8(self.function_name@).len();
        let parameters = match &self.parameters {
            Some(parameters) => parameters,
            None => return true,
        };
        let mut i: usize = 0;
        proof {
            assert(tables.take(0) =~= Seq::<ValueWire>::empty());
        }
        while i < parameters.len()
            invariant
                i <= parameters@.len(),
                self.parameter_list() == parameters@,
                tables == values::parameter_wires(parameters@),
                name == vstd::utf8::encode_utf8(self.function_name@).len(),
                left + name + 100 + parameters_cost(tables.take(i as int)) == builder::FLAT_LIMIT,
            decreases parameters@.len() - i,
        {
            proof {
                assert(tables.take(i + 1).drop_last() =~= tables.take(i as int));
                assert(tables[i as int] == wire::wire_of(parameters@[i as int]@));
                lemma_cost_monotone(tables, i + 1);
            }
            let rest = match &parameters[i] {
                ParameterValue::String(text) => wire::without_text(left, text.as_str(), 79),
                _ => left.checked_sub(76),
            };
            left = match rest {
                Some(rest) => rest,
                None => return false,
            };
            i += 1;
        }
        proof {
            assert(tables.take(i as int) =~= tables);
        }
        true
    }

    /// Encode control data and collect byte parameters as external values.
    pub fn encode<'a, 'b, S: ExternalValueSink<'a>>(
        &'a self,
        builder: &'b mut FlatBuilder,
        external_values: &mut S,
    ) -> (encoded: Result<&'b [u8], WireError>)
        requires
            builder::flat_state(*old(builder)).idle(self.flat_cost()),
            builder::flat_state(*old(builder)).bounded(),
        ensures
            match values::offer_parameters::<S>(
                old(external_values).state(),
                self.parameter_list(),
            ) {
                Ok(next) => {
                    &&& encoded is Ok
                    &&& final(external_values).state() == next
                    &&& self.encodes(encoded->Ok_0@)
                    &&& encoded->Ok_0@.len() <= builder::flat_state(*old(builder)).used
                        + self.flat_cost()
                },
                Err(error) => encoded is Err && encoded->Err_0 == error && wire::extends(
                    builder::flat_state(*old(builder)),
                    builder::flat_state(*final(builder)),
                    self.flat_cost(),
                ),
            },
            final(external_values).state() == values::held_after::<S>(
                old(external_values).state(),
                self.parameter_list(),
            ),
    {
        let function_name: u32 = builder.create_string(self.function_name.as_str());
        let call_type: u8 = match self.function_call_type {
            FunctionCallType::Guest => 1,
            FunctionCallType::Host => 2,
        };
        let return_type: u8 = self.expected_return_type.code();
        let ghost named = builder::flat_state(*builder);
        let ghost tables = values::parameter_wires(self.parameter_list());
        let ghost mut listed = named;

        let parameters: Option<u32> = match &self.parameters {
            Some(parameters) => if parameters.len() > 0 {
                let offs = match FunctionCall::encode_parameters(
                    parameters,
                    builder,
                    external_values,
                ) {
                    Ok(offs) => offs,
                    Err(error) => {
                        proof {
                            wire::lemma_extends_twice(
                                builder::flat_state(*old(builder)).objects,
                                named.objects,
                                builder::flat_state(*builder).objects,
                            );
                        }
                        return Err(error);
                    },
                };
                proof {
                    listed = builder::flat_state(*builder);
                    assert forall|i: int| 0 <= i < offs@.len() implies listed.objects.contains_key(
                        #[trigger] offs@[i] as nat,
                    ) by {
                        assert(parameter_written(listed.objects, offs@[i] as nat, tables[i]));
                    }
                }
                let vector: u32 = builder.create_vector(offs.as_slice());
                proof {
                    let whole = builder::flat_state(*builder);
                    let refs = offs@.map_values(|o: u32| o as nat);
                    assert(listed.objects.submap_of(whole.objects));
                    wire::lemma_extends_twice(named.objects, listed.objects, whole.objects);
                    assert forall|i: int| 0 <= i < tables.len() implies parameter_written(
                        whole.objects,
                        refs[i],
                        #[trigger] tables[i],
                    ) by {
                        assert(refs[i] == offs@[i] as nat);
                        lemma_parameter_stands(listed.objects, whole.objects, refs[i], tables[i]);
                    }
                    assert(vector_written(whole.objects, vector as nat, tables));
                }
                Some(vector)
            } else {
                None
            },
            None => None,
        };

        proof {
            assert(named.objects.dom().contains(function_name as nat));
            assert(builder::flat_state(*builder).objects.dom().contains(function_name as nat));
        }
        let call: u32 = FunctionCall::write_call(
            builder,
            function_name,
            parameters,
            call_type,
            return_type,
            Ghost(self.to_wire()),
        );
        builder.finish_size_prefixed(call);
        let bytes = builder.finished_data();
        proof {
            lemma_parameters_writable(self.parameter_list());
            lemma_call_reads(bytes@, builder::flat_state(*builder), call as nat, self.to_wire());
        }
        Ok(bytes)
    }

    /// Decode control data and consume external byte parameters.
    pub fn decode<S: ExternalValueSource>(value: &[u8], external_values: &mut S) -> (decoded:
        Result<Self, WireError>)
        requires
            old(external_values).valid(),
        ensures
            final(external_values).valid(),
            match decoded_call::<S>(value@, old(external_values).state()) {
                Ok(view) => decoded is Ok && decoded->Ok_0.call_view() == view,
                Err(error) => decoded is Err && decoded->Err_0 == error,
            },
            call_leaves::<S>(value@, old(external_values).state()) matches Some(left)
                ==> final(external_values).state() == left,
    {
        let table = match read_call(value) {
            Some(table) => table,
            None => return Err(WireError::Buffer),
        };
        let function_call_type = match table.call_type {
            1 => FunctionCallType::Guest,
            2 => FunctionCallType::Host,
            other => return Err(WireError::CallType(other)),
        };
        let expected_return_type = match ReturnType::try_from(table.return_type) {
            Ok(return_type) => return_type,
            Err(error) => return Err(error),
        };
        let parameters = match table.parameters {
            Some(tables) => match decode_parameters(tables, external_values) {
                Ok(parameters) => Some(parameters),
                Err(error) => return Err(error),
            },
            None => None,
        };
        match external_values.finish() {
            Ok(()) => Ok(
                FunctionCall {
                    function_name: table.function_name,
                    parameters,
                    function_call_type,
                    expected_return_type,
                },
            ),
            Err(_) => Err(WireError::Unused),
        }
    }
}

/// A call as it was read from a buffer.
struct CallTable {
    function_name: String,
    parameters: Option<Vec<ValueTable>>,
    call_type: u8,
    return_type: u8,
}

/// The views of tables.
pub open spec fn table_views(tables: Seq<ValueTable>) -> Seq<ValueWire> {
    tables.map_values(|t: ValueTable| t@)
}

impl CallTable {
    spec fn to_wire(&self) -> CallWire {
        CallWire {
            name: self.function_name@,
            parameters: match self.parameters {
                Some(tables) => Some(table_views(tables@)),
                None => None,
            },
            call_type: self.call_type,
            return_type: self.return_type,
        }
    }
}

proof fn lemma_parameters_prefix(buf: Seq<u8>, vector: usize, k: nat, n: nat)
    requires
        k <= n,
        parameters_at(buf, vector, k) is None,
    ensures
        parameters_at(buf, vector, n) is None,
    decreases n - k,
{
    if k < n {
        lemma_parameters_prefix(buf, vector, (k + 1) as nat, n);
    }
}

/// Read the parameters in a vector of references.
fn read_parameters(buf: &[u8], vector: usize, len: u32) -> (read: Option<Vec<ValueTable>>)
    ensures
        read is Some <==> parameters_at(buf@, vector, len as nat) is Some,
        read matches Some(tables) ==> parameters_at(buf@, vector, len as nat) == Some(
            table_views(tables@),
        ),
{
    let size: usize = buf.len();
    let mut tables: Vec<ValueTable> = Vec::new();
    let mut i: u32 = 0;
    proof {
        assert(table_views(tables@) =~= Seq::<ValueWire>::empty());
    }
    while i < len
        invariant
            i <= len,
            size == buf@.len(),
            parameters_at(buf@, vector, i as nat) == Some(table_views(tables@)),
        decreases len - i,
    {
        let offset: u64 = 4 + 4 * (i as u64);
        let ghost element = reader::element_pos(vector as int, i as int);
        if vector >= size || offset >= (size - vector) as u64 {
            proof {
                assert(reader::target_at(buf@, element) is None);
                lemma_parameters_prefix(buf@, vector, (i + 1) as nat, len as nat);
            }
            return None;
        }
        let table: usize = match read_target(buf, vector + offset as usize) {
            Some(table) => table,
            None => {
                proof {
                    lemma_parameters_prefix(buf@, vector, (i + 1) as nat, len as nat);
                }
                return None;
            },
        };
        match read_parameter(buf, table) {
            Some(value) => {
                let ghost before = tables@;
                tables.push(value);
                proof {
                    assert(table_views(tables@) =~= table_views(before).push(value@));
                }
            },
            None => {
                proof {
                    lemma_parameters_prefix(buf@, vector, (i + 1) as nat, len as nat);
                }
                return None;
            },
        }
        i += 1;
    }
    Some(tables)
}

/// Read the parameter slot of a call.
fn read_parameter_slot(buf: &[u8], table: usize) -> (read: Option<Option<Vec<ValueTable>>>)
    ensures
        match read {
            None => parameter_slot(buf@, table) is None,
            Some(None) => parameter_slot(buf@, table) == Some(None::<Seq<ValueWire>>),
            Some(Some(tables)) => parameter_slot(buf@, table) == Some(Some(table_views(tables@))),
        },
{
    match find_field(buf, table, 6) {
        None => None,
        Some(None) => Some(None),
        Some(Some(pos)) => match read_target(buf, pos) {
            None => None,
            Some(vector) => match read_u32(buf, vector) {
                None => None,
                Some(len) => match read_parameters(buf, vector, len) {
                    None => None,
                    Some(tables) => Some(Some(tables)),
                },
            },
        },
    }
}

/// What visiting fewer parameters comes to.
proof fn lemma_visit_grows(buf: Seq<u8>, vector: usize, k: nat, n: nat)
    requires
        k <= n,
    ensures
        parameters_visit(buf, vector, k).tables <= parameters_visit(buf, vector, n).tables,
        parameters_visit(buf, vector, k).bytes <= parameters_visit(buf, vector, n).bytes,
    decreases n - k,
{
    if k < n {
        lemma_visit_grows(buf, vector, k, (n - 1) as nat);
    }
}

/// Check the parameters in a vector of references.
fn check_parameters(verifier: &mut Verifier<'_, '_>, buf: &[u8], vector: usize, len: u32) -> (ok:
    bool)
    requires
        limits::progress(*old(verifier)).going(buf@),
        vector + 4 + 4 * len <= buf@.len(),
    ensures
        limits::went(
            limits::progress(*old(verifier)),
            limits::progress(*final(verifier)),
            parameters_visit(buf@, vector, len as nat),
            parameters_at(buf@, vector, len as nat) is Some,
            ok,
        ),
{
    let ghost before = limits::progress(*verifier);
    let size: usize = buf.len();
    let mut i: u32 = 0;
    proof {
        assert(before.seen.plus(Visit::bytes(0)) =~= before.seen);
    }
    while i < len
        invariant
            i <= len,
            size == buf@.len(),
            vector + 4 + 4 * len <= size,
            before == limits::progress(*old(verifier)),
            before.going(buf@),
            limits::progress(*verifier).going(buf@),
            before.visits(
                limits::progress(*verifier),
                parameters_visit(buf@, vector, i as nat),
            ),
        decreases len - i,
    {
        let ghost so_far = limits::progress(*verifier);
        let place: usize = vector + 4 + 4 * i as usize;
        proof {
            lemma_visit_grows(buf@, vector, (i + 1) as nat, len as nat);
            if parameters_at(buf@, vector, (i + 1) as nat) is None {
                lemma_parameters_prefix(buf@, vector, (i + 1) as nat, len as nat);
            }
        }
        if !limits::visit_range(verifier, place, 4) {
            return false;
        }
        let ghost mid = limits::progress(*verifier);
        let table: usize = match read_target(buf, place) {
            Some(table) => table,
            None => return false,
        };
        proof {
            let own = limits::parameter_visit(buf@, table);
            assert(mid.seen.plus(own) =~= before.seen.plus(
                parameters_visit(buf@, vector, (i + 1) as nat),
            ));
        }
        if !limits::check_union(verifier, buf, table, false) {
            return false;
        }
        i += 1;
    }
    true
}

/// Check the parameter slot of a call, where it is stored.
fn check_parameter_slot(
    verifier: &mut Verifier<'_, '_>,
    buf: &[u8],
    table: usize,
    place: Option<usize>,
) -> (ok: bool)
    requires
        limits::progress(*old(verifier)).going(buf@),
        reader::table_field(buf@, table, 6) == Some(place),
    ensures
        limits::went(
            limits::progress(*old(verifier)),
            limits::progress(*final(verifier)),
            parameter_slot_visit(buf@, table),
            parameter_slot(buf@, table) is Some,
            ok,
        ),
{
    let ghost before = limits::progress(*verifier);
    let pos: usize = match place {
        Some(pos) => pos,
        None => {
            proof {
                assert(before.seen.plus(Visit::bytes(0)) =~= before.seen);
            }
            return true;
        },
    };
    if !limits::visit_range(verifier, pos, 4) {
        return false;
    }
    let vector: usize = match read_target(buf, pos) {
        Some(vector) => vector,
        None => return false,
    };
    if !limits::visit_range(verifier, vector, 4) {
        return false;
    }
    let len: u32 = match read_u32(buf, vector) {
        Some(len) => len,
        None => return false,
    };
    let size: usize = buf.len();
    proof {
        assert(vector + 4 <= size);
    }
    let span: usize = match (len as usize).checked_mul(4) {
        Some(span) => span,
        None => {
            proof {
                if parameters_at(buf@, vector, len as nat) is Some {
                    lemma_vector_inside(buf@, vector, len as nat);
                }
            }
            return false;
        },
    };
    let ok: bool = limits::visit_range(verifier, vector + 4, span);
    proof {
        if parameters_at(buf@, vector, len as nat) is Some {
            lemma_vector_inside(buf@, vector, len as nat);
        }
        assert(before.seen.plus(Visit::bytes(4)).plus(Visit::bytes(4)).plus(
            Visit::bytes(span as nat),
        ) =~= before.seen.plus(Visit::bytes(8 + span as nat)));
    }
    if !ok {
        return false;
    }
    let ghost mid = limits::progress(*verifier);
    let ok: bool = check_parameters(verifier, buf, vector, len);
    proof {
        let own = parameters_visit(buf@, vector, len as nat);
        assert(mid.seen.plus(own) =~= before.seen.plus(parameter_slot_visit(buf@, table)));
    }
    ok
}

/// The references of a vector whose parameters stand lie inside the buffer.
proof fn lemma_vector_inside(buf: Seq<u8>, vector: usize, n: nat)
    requires
        parameters_at(buf, vector, n) is Some,
        reader::u32_at(buf, vector as int) is Some,
    ensures
        vector + 4 + 4 * n <= buf.len(),
    decreases n,
{
    if n > 0 {
        assert(reader::target_at(buf, reader::element_pos(vector as int, n - 1)) is Some);
    }
}

/// Find the slots of a call's table.
fn find_call_slots(verifier: &mut Verifier<'_, '_>, buf: &[u8], table: usize) -> (places: Option<
    Vec<Option<usize>>,
>)
    requires
        limits::progress(*old(verifier)).going(buf@),
    ensures
        places is Some <==> limits::progress(*old(verifier)).can_visit(table, call_slots()),
        places matches Some(p) ==> {
            &&& limits::progress(*old(verifier)).visits(
                limits::progress(*final(verifier)),
                limits::table_visit(buf@, table, call_slots()),
            )
            &&& p@.len() == 4
            &&& reader::table_field(buf@, table, 4) == Some(p@[0])
            &&& reader::table_field(buf@, table, 6) == Some(p@[1])
            &&& reader::table_field(buf@, table, 8) == Some(p@[2])
            &&& reader::table_field(buf@, table, 10) == Some(p@[3])
        },
{
    let wanted: Vec<u16> = vec![4u16, 6u16, 8u16, 10u16];
    proof {
        assert(wanted@ =~= call_slots());
        assert(wanted@[0] == 4u16 && wanted@[1] == 6u16 && wanted@[2] == 8u16 && wanted@[3]
            == 10u16);
    }
    limits::visit_slots(verifier, table, wanted.as_slice())
}

/// What the fields of a call's table come to, with all that they refer to.
spec fn call_fields_visit(buf: Seq<u8>, table: usize) -> Visit {
    Visit::bytes(limits::text_bytes(buf, table, 4)).plus(parameter_slot_visit(buf, table)).plus(
        Visit::bytes(limits::slot_bytes(buf, table, 8, 1)),
    ).plus(Visit::bytes(limits::slot_bytes(buf, table, 10, 1)))
}

/// The fields of a call's table stand where they should.
spec fn call_fields_stand(buf: Seq<u8>, table: usize) -> bool {
    &&& wire::slot_text(buf, table, 4) is Some
    &&& parameter_slot(buf, table) is Some
    &&& wire::slot_u8(buf, table, 8) is Some
    &&& wire::slot_u8(buf, table, 10) is Some
}

/// Check the fields of a call's table.
fn check_call_fields(
    verifier: &mut Verifier<'_, '_>,
    buf: &[u8],
    table: usize,
    places: &Vec<Option<usize>>,
) -> (ok: bool)
    requires
        limits::progress(*old(verifier)).going(buf@),
        places@.len() == 4,
        reader::table_field(buf@, table, 4) == Some(places@[0]),
        reader::table_field(buf@, table, 6) == Some(places@[1]),
        reader::table_field(buf@, table, 8) == Some(places@[2]),
        reader::table_field(buf@, table, 10) == Some(places@[3]),
    ensures
        limits::went(
            limits::progress(*old(verifier)),
            limits::progress(*final(verifier)),
            call_fields_visit(buf@, table),
            call_fields_stand(buf@, table),
            ok,
        ),
{
    if !limits::check_text_slot(verifier, buf, places[0]) {
        return false;
    }
    if !check_parameter_slot(verifier, buf, table, places[1]) {
        return false;
    }
    if !limits::check_slot(verifier, places[2], 1) {
        return false;
    }
    limits::check_slot(verifier, places[3], 1)
}

/// Check that the call of a size-prefixed buffer can be visited whole.
fn check_call(buf: &[u8]) -> (ok: bool)
    ensures
        call_tables(buf@) is Some ==> ok == call_visit(buf@).within(),
{
    let options = limits::default_options();
    let mut verifier = limits::begin(&options, buf);
    if !limits::visit_range(&mut verifier, 4, 4) {
        return false;
    }
    let table: usize = match read_target(buf, 4) {
        Some(table) => table,
        None => return false,
    };
    let ghost head = limits::progress(verifier);
    proof {
        reader::lemma_slot_listed(buf@, table, 4);
        assert(limits::table_visit(buf@, table, call_slots()).plus(call_fields_visit(buf@, table))
            =~= call_table_visit(buf@, table));
        if call_tables(buf@) is Some {
            assert(call_fields_stand(buf@, table));
            assert(limits::table_stands(buf@, table, call_slots()));
        }
    }
    match find_call_slots(&mut verifier, buf, table) {
        Some(places) => {
            let ghost found = limits::progress(verifier);
            proof {
                assert(found.seen.plus(call_fields_visit(buf@, table)) =~= call_visit(buf@));
            }
            check_call_fields(&mut verifier, buf, table, &places)
        },
        None => false,
    }
}

/// Read the call of a size-prefixed buffer.
fn read_call(buf: &[u8]) -> (read: Option<CallTable>)
    ensures
        read is Some <==> call_at(buf@) is Some,
        read matches Some(table) ==> call_at(buf@) == Some(table.to_wire()),
{
    if !check_call(buf) {
        return None;
    }
    let table: usize = match read_target(buf, 4) {
        Some(table) => table,
        None => return None,
    };
    match (
        read_slot_text(buf, table, 4),
        read_parameter_slot(buf, table),
        read_slot_u8(buf, table, 8),
        read_slot_u8(buf, table, 10),
    ) {
        (Some(Some(function_name)), Some(parameters), Some(call_type), Some(return_type)) => Some(
            CallTable { function_name, parameters, call_type, return_type },
        ),
        _ => None,
    }
}

/// Decode parameters in their order, taking their bytes from a source.
fn decode_parameters<S: ExternalValueSource>(tables: Vec<ValueTable>, source: &mut S) -> (decoded:
    Result<Vec<ParameterValue>, WireError>)
    requires
        old(source).valid(),
    ensures
        final(source).valid(),
        match values::take_parameters::<S>(old(source).state(), table_views(tables@)) {
            Ok((views, rest)) => decoded is Ok && values::parameter_views(decoded->Ok_0@) == views
                && final(source).state() == rest,
            Err(error) => decoded is Err && decoded->Err_0 == error,
        },
        values::parameters_leave::<S>(old(source).state(), table_views(tables@)) matches Some(
            left,
        ) ==> final(source).state() == left,
{
    let ghost wires = table_views(tables@);
    let ghost state = source.state();
    let mut decoded: Vec<ParameterValue> = Vec::new();
    proof {
        assert(wires.take(0) =~= Seq::<ValueWire>::empty());
        assert(values::parameter_views(decoded@) =~= Seq::<ValueView>::empty());
    }
    for table in it: tables
        invariant
            source.valid(),
            state == old(source).state(),
            it.seq() == tables@,
            wires == table_views(tables@),
            values::take_parameters::<S>(state, wires.take(it.index() as int)) == Ok::<
                (Seq<ValueView>, S::State),
                WireError,
            >((values::parameter_views(decoded@), source.state())),
    {
        let ghost i = it.index() as int;
        proof {
            assert(wires.take(i + 1).drop_last() =~= wires.take(i));
            assert(wires[i] == table@);
        }
        match decode_parameter_value(table, source) {
            Ok(value) => {
                let ghost before = decoded@;
                decoded.push(value);
                proof {
                    assert(values::parameter_views(decoded@) =~= values::parameter_views(
                        before,
                    ).push(value@));
                }
            },
            Err(error) => {
                proof {
                    values::lemma_take_prefix::<S>(state, wires, i + 1, error);
                }
                return Err(error);
            },
        }
    }
    proof {
        assert(wires.take(tables@.len() as int) =~= wires);
    }
    Ok(decoded)
}

/// What a call says once it has crossed the wire: an empty list of parameters reads as
/// none, and a zero has no sign.
pub open spec fn delivered(call: CallView) -> CallView {
    CallView {
        parameters: match call.parameters {
            Some(parameters) if parameters.len() > 0 => Some(values::kept_all(parameters)),
            _ => None,
        },
        ..call
    }
}

/// A call that was encoded decodes to the same call when the external values follow it in
/// the order in which they were collected. One with more parameters than a check visits is
/// refused.
pub proof fn law_call_round_trip(call: FunctionCall, externals: ExternalView, buf: Seq<u8>)
    requires
        call.encodes(buf),
        values::offer_parameters::<ExternalValues<'static>>(
            ExternalView { chunks: Seq::empty(), total: 0 },
            call.parameter_list(),
        ) == Ok::<ExternalView, WireError>(externals),
    ensures
        decoded_call::<Segments>(buf, externals.chunks.flatten()) == if call.checkable() {
            Ok::<CallView, WireError>(delivered(call.call_view()))
        } else {
            Err::<CallView, WireError>(WireError::Buffer)
        },
{
    let none = ExternalView { chunks: Seq::<Seq<u8>>::empty(), total: 0 };
    let list = call.parameter_list();
    let views = values::parameter_views(list);
    values::law_external_values_keep_order(none, list);
    super::function_types::law_return_type_round_trip(call.expected_return_type);
    let stream = values::external_stream(views);
    assert(none.chunks.flatten() + stream =~= stream);
    assert forall|i: int| 0 <= i < views.len() implies !(#[trigger] views[i] is Void) by {
        assert(views[i] == list[i]@);
    }
    values::law_values_round_trip(views, Seq::empty());
    assert(stream + Seq::<u8>::empty() =~= stream);
    assert(views.map_values(|v: ValueView| wire::wire_of(v)) =~= values::parameter_wires(list));
}

/// Whatever sink took a call's byte values, the call decodes from a source exactly where the
/// source holds values of the same kinds and lengths in the same order. A source that holds
/// the values themselves gives the call back; either way nothing is left in it.
pub proof fn law_call_decodes_from_its_values<'a, K: ExternalValueSink<'a>, S: ExternalValueSource>(
    call: FunctionCall,
    sink: K::State,
    buf: Seq<u8>,
    source: S::State,
    items: Seq<ByteValue>,
)
    requires
        call_at(buf) == Some(call.to_wire()),
        values::offer_parameters::<K>(sink, call.parameter_list()) is Ok,
        values::holds_values::<S>(source, items),
    ensures
        decoded_call::<S>(buf, source) is Ok <==> values::shaped_like(
            items,
            values::byte_values(values::parameter_views(call.parameter_list())),
        ),
        items == values::byte_values(values::parameter_views(call.parameter_list()))
            ==> decoded_call::<S>(buf, source) == Ok::<CallView, WireError>(
            delivered(call.call_view()),
        ),
        decoded_call::<S>(buf, source) is Ok ==> {
            &&& call_leaves::<S>(buf, source) is Some
            &&& values::holds_values::<S>(call_leaves::<S>(buf, source)->0, Seq::empty())
        },
{
    let list = call.parameter_list();
    let views = values::parameter_views(list);
    let wanted = values::byte_values(views);
    super::function_types::law_return_type_round_trip(call.expected_return_type);
    values::lemma_offered_fit::<K>(sink, list);
    assert forall|i: int| 0 <= i < views.len() implies !(#[trigger] views[i] is Void) by {
        assert(views[i] == list[i]@);
    }
    assert(views.map_values(|v: ValueView| wire::wire_of(v)) =~= values::parameter_wires(list));
    values::lemma_take_all::<S>(source, views, items);
    if list.len() == 0 {
        assert(wanted.len() == 0);
        if items.len() == 0 {
            assert(items =~= Seq::<ByteValue>::empty());
        }
    } else if values::starts_like(items, wanted) {
        let behind = items.skip(wanted.len() as int);
        if behind.len() == 0 {
            assert(behind =~= Seq::<ByteValue>::empty());
            assert(items.take(wanted.len() as int) =~= items);
        }
    }
}

} // verus!
