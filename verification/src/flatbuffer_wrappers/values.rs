//! Values between their tables and the byte values beside them.

use vstd::prelude::*;

use super::codec::ExternalValueSink;
use super::codec::ExternalValueSource;
use super::function_types::{ParameterValue, ReturnValue, ValueView, WireError};
use super::util::try_byte_chunks_len;
use super::wire;
use super::wire::ValueTable;
use super::wire::ValueWire;
use super::wire::WireValue;
use crate::octets;
use crate::transport::ExternalValues;
use crate::transport::ExternalView;
use crate::virtq::Segments;

verus! {

/// Hand a byte value to a sink.
pub open spec fn offer_external<'a, S: ExternalValueSink<'a>>(
    state: S::State,
    value: Seq<Seq<u8>>,
    chunked: bool,
) -> Result<S::State, WireError> {
    if value.flatten().len() > usize::MAX {
        Err(WireError::LengthOverflow)
    } else {
        match S::offer(state, value, chunked) {
            Some(next) => Ok(next),
            None => Err(WireError::External),
        }
    }
}

/// Hand the bytes of a parameter, if it has any, to a sink.
pub open spec fn offer_parameter<'a, S: ExternalValueSink<'a>>(
    state: S::State,
    value: ParameterValue,
) -> Result<S::State, WireError> {
    match value {
        ParameterValue::VecBytes(v) => offer_external::<S>(state, seq![v@], false),
        ParameterValue::ByteChunks(v) => offer_external::<S>(
            state,
            octets::all_octets(v@),
            true,
        ),
        _ => Ok(state),
    }
}

/// Hand the bytes of parameters to a sink, in their order.
pub open spec fn offer_parameters<'a, S: ExternalValueSink<'a>>(
    state: S::State,
    values: Seq<ParameterValue>,
) -> Result<S::State, WireError>
    decreases values.len(),
{
    if values.len() == 0 {
        Ok(state)
    } else {
        match offer_parameters::<S>(state, values.drop_last()) {
            Ok(next) => offer_parameter::<S>(next, values.last()),
            Err(error) => Err(error),
        }
    }
}

/// What a sink holds once it was handed the bytes of parameters, in their order, up to the first
/// that is refused.
pub open spec fn held_after<'a, S: ExternalValueSink<'a>>(
    state: S::State,
    values: Seq<ParameterValue>,
) -> S::State
    decreases values.len(),
{
    if values.len() == 0 {
        state
    } else {
        match offer_parameters::<S>(state, values.drop_last()) {
            Ok(next) => match offer_parameter::<S>(next, values.last()) {
                Ok(more) => more,
                Err(_) => next,
            },
            Err(_) => held_after::<S>(state, values.drop_last()),
        }
    }
}

/// Hand the bytes of a return value, if it has any, to a sink.
pub open spec fn offer_return<'a, S: ExternalValueSink<'a>>(
    state: S::State,
    value: ReturnValue,
) -> Result<S::State, WireError> {
    match value {
        ReturnValue::VecBytes(v) => offer_external::<S>(state, seq![v@], false),
        ReturnValue::ByteChunks(v) => offer_external::<S>(state, octets::all_octets(v@), true),
        _ => Ok(state),
    }
}

/// What a sink refused some parameters for, it refuses more of them for.
pub(crate) proof fn lemma_offer_prefix<'a, S: ExternalValueSink<'a>>(
    state: S::State,
    values: Seq<ParameterValue>,
    n: int,
    error: WireError,
)
    requires
        0 <= n <= values.len(),
        offer_parameters::<S>(state, values.take(n)) == Err::<S::State, WireError>(error),
    ensures
        offer_parameters::<S>(state, values) == Err::<S::State, WireError>(error),
        held_after::<S>(state, values) == held_after::<S>(state, values.take(n)),
    decreases values.len() - n,
{
    if n < values.len() {
        assert(values.take(n + 1).drop_last() =~= values.take(n));
        lemma_offer_prefix::<S>(state, values, n + 1, error);
    } else {
        assert(values.take(n) =~= values);
    }
}

/// Take a byte value from a source and check its length.
pub open spec fn take_external<S: ExternalValueSource>(
    state: S::State,
    length: u64,
    chunked: bool,
) -> Result<(ValueView, S::State), WireError> {
    if length > usize::MAX {
        Err(WireError::LengthOverflow)
    } else {
        match S::serve(state, length as nat, chunked) {
            None => Err(WireError::External),
            Some((bytes, next)) => if bytes.len() > usize::MAX {
                Err(WireError::LengthOverflow)
            } else if bytes.len() != length {
                Err(
                    WireError::LengthMismatch {
                        chunked,
                        declared: length as usize,
                        received: bytes.len() as usize,
                    },
                )
            } else {
                Ok(
                    (
                        if chunked {
                            ValueView::ByteChunks(bytes)
                        } else {
                            ValueView::VecBytes(bytes)
                        },
                        next,
                    ),
                )
            },
        }
    }
}

/// The value of a table, with its bytes from a source. A tag that stands for no value, or
/// a void that is not a return value, is refused.
pub open spec fn take_value<S: ExternalValueSource>(
    state: S::State,
    table: ValueWire,
    returned: bool,
) -> Result<(ValueView, S::State), WireError> {
    match table {
        ValueWire::Int(x) => Ok((ValueView::Int(x), state)),
        ValueWire::UInt(x) => Ok((ValueView::UInt(x), state)),
        ValueWire::Long(x) => Ok((ValueView::Long(x), state)),
        ValueWire::ULong(x) => Ok((ValueView::ULong(x), state)),
        ValueWire::Float(x) => Ok((ValueView::Float(x), state)),
        ValueWire::Double(x) => Ok((ValueView::Double(x), state)),
        ValueWire::Text(s) => Ok((ValueView::Text(s), state)),
        ValueWire::Bool(b) => Ok((ValueView::Bool(b), state)),
        ValueWire::Void => if returned {
            Ok((ValueView::Void, state))
        } else {
            Err(WireError::ParameterTag(0))
        },
        ValueWire::External { length, chunked } => take_external::<S>(state, length, chunked),
        ValueWire::Unknown(tag) => Err(
            if returned {
                WireError::ReturnTag(tag)
            } else {
                WireError::ParameterTag(tag)
            },
        ),
    }
}

/// The values of parameter tables, in their order.
pub open spec fn take_parameters<S: ExternalValueSource>(
    state: S::State,
    tables: Seq<ValueWire>,
) -> Result<(Seq<ValueView>, S::State), WireError>
    decreases tables.len(),
{
    if tables.len() == 0 {
        Ok((Seq::empty(), state))
    } else {
        match take_parameters::<S>(state, tables.drop_last()) {
            Ok((values, next)) => match take_value::<S>(next, tables.last(), false) {
                Ok((value, rest)) => Ok((values.push(value), rest)),
                Err(error) => Err(error),
            },
            Err(error) => Err(error),
        }
    }
}

/// What a source has left once the value of a table was asked for; `None` where the source
/// refused it.
pub open spec fn value_leaves<S: ExternalValueSource>(
    state: S::State,
    table: ValueWire,
) -> Option<S::State> {
    match table {
        ValueWire::External { length, chunked } => if length > usize::MAX {
            Some(state)
        } else {
            match S::serve(state, length as nat, chunked) {
                Some((_, next)) => Some(next),
                None => None,
            }
        },
        _ => Some(state),
    }
}

/// What a source has left once the values of parameter tables were asked for, up to the
/// first that is refused.
pub open spec fn parameters_leave<S: ExternalValueSource>(
    state: S::State,
    tables: Seq<ValueWire>,
) -> Option<S::State>
    decreases tables.len(),
{
    if tables.len() == 0 {
        Some(state)
    } else {
        match take_parameters::<S>(state, tables.drop_last()) {
            Ok((_, next)) => value_leaves::<S>(next, tables.last()),
            Err(_) => parameters_leave::<S>(state, tables.drop_last()),
        }
    }
}

/// What some parameters are refused for, more of them are refused for.
pub(crate) proof fn lemma_take_prefix<S: ExternalValueSource>(
    state: S::State,
    tables: Seq<ValueWire>,
    n: int,
    error: WireError,
)
    requires
        0 <= n <= tables.len(),
        take_parameters::<S>(state, tables.take(n)) == Err::<(Seq<ValueView>, S::State), WireError>(
            error,
        ),
    ensures
        take_parameters::<S>(state, tables) == Err::<(Seq<ValueView>, S::State), WireError>(error),
        parameters_leave::<S>(state, tables) == parameters_leave::<S>(state, tables.take(n)),
    decreases tables.len() - n,
{
    if n < tables.len() {
        assert(tables.take(n + 1).drop_last() =~= tables.take(n));
        lemma_take_prefix::<S>(state, tables, n + 1, error);
    } else {
        assert(tables.take(n) =~= tables);
    }
}

/// The views of parameters.
pub open spec fn parameter_views(values: Seq<ParameterValue>) -> Seq<ValueView> {
    values.map_values(|p: ParameterValue| p@)
}

/// The tables of parameters.
pub open spec fn parameter_wires(values: Seq<ParameterValue>) -> Seq<ValueWire> {
    values.map_values(|p: ParameterValue| wire::wire_of(p@))
}

/// What a value's table keeps of it: all but the sign of a zero.
pub open spec fn kept(value: ValueView) -> ValueView {
    match value {
        ValueView::Float(bits) => ValueView::Float(wire::stored_float(bits)),
        ValueView::Double(bits) => ValueView::Double(wire::stored_double(bits)),
        _ => value,
    }
}

/// What the tables of parameters keep of them.
pub open spec fn kept_all(values: Seq<ValueView>) -> Seq<ValueView> {
    values.map_values(|v: ValueView| kept(v))
}

/// The bytes that travel beside a value's table.
pub open spec fn external_bytes(value: ValueView) -> Seq<u8> {
    match value {
        ValueView::VecBytes(bytes) => bytes,
        ValueView::ByteChunks(bytes) => bytes,
        _ => Seq::empty(),
    }
}

/// The bytes that travel beside the tables of values, in their order.
pub open spec fn external_stream(values: Seq<ValueView>) -> Seq<u8>
    decreases values.len(),
{
    if values.len() == 0 {
        Seq::empty()
    } else {
        external_stream(values.drop_last()) + external_bytes(values.last())
    }
}

/// External values collected for a parameter are the parameter's bytes.
proof fn lemma_offered_bytes(state: ExternalView, value: ParameterValue)
    ensures
        match offer_parameter::<ExternalValues<'static>>(state, value) {
            Ok(next) => {
                &&& next.chunks.flatten() == state.chunks.flatten() + external_bytes(value@)
                &&& external_bytes(value@).len() <= usize::MAX
                &&& next.total == state.total + external_bytes(value@).len()
            },
            Err(_) => true,
        },
{
    let chunks: Seq<Seq<u8>> = match value {
        ParameterValue::VecBytes(v) => seq![v@],
        ParameterValue::ByteChunks(v) => octets::all_octets(v@),
        _ => Seq::empty(),
    };
    crate::transport::lemma_nonempty_flatten(chunks);
    vstd::seq_lib::lemma_flatten_concat(state.chunks, crate::transport::nonempty(chunks));
    if let ParameterValue::VecBytes(v) = value {
        seq![v@].lemma_flatten_one_element();
    }
    assert(state.chunks.flatten() + Seq::<u8>::empty() =~= state.chunks.flatten());
}

/// The external values collected while parameters are encoded are their bytes in order.
pub proof fn law_external_values_keep_order(state: ExternalView, values: Seq<ParameterValue>)
    ensures
        match offer_parameters::<ExternalValues<'static>>(state, values) {
            Ok(next) => {
                &&& next.chunks.flatten() == state.chunks.flatten() + external_stream(
                    parameter_views(values),
                )
                &&& next.total == state.total + external_stream(parameter_views(values)).len()
                &&& forall|i: int|
                    0 <= i < values.len() ==> external_bytes(
                        #[trigger] parameter_views(values)[i],
                    ).len() <= usize::MAX
            },
            Err(_) => true,
        },
    decreases values.len(),
{
    if values.len() > 0 {
        let init = values.drop_last();
        law_external_values_keep_order(state, init);
        assert(parameter_views(values).drop_last() =~= parameter_views(init));
        match offer_parameters::<ExternalValues<'static>>(state, init) {
            Ok(next) => {
                lemma_offered_bytes(next, values.last());
                let stream = external_stream(parameter_views(init));
                let last = external_bytes(values.last()@);
                assert(state.chunks.flatten() + (stream + last) =~= state.chunks.flatten() + stream
                    + last);
                if offer_parameter::<ExternalValues<'static>>(next, values.last()) is Ok {
                    assert forall|i: int| 0 <= i < values.len() implies external_bytes(
                        #[trigger] parameter_views(values)[i],
                    ).len() <= usize::MAX by {
                        if i < init.len() {
                            assert(parameter_views(values)[i] == parameter_views(init)[i]);
                        }
                    }
                }
            },
            Err(_) => {},
        }
    } else {
        assert(state.chunks.flatten() + Seq::<u8>::empty() =~= state.chunks.flatten());
    }
}

/// Reading the tables of values back, with their bytes in order, gives what the tables keep
/// of the values.
pub proof fn law_values_round_trip(values: Seq<ValueView>, rest: Seq<u8>)
    requires
        forall|i: int| 0 <= i < values.len() ==> !(#[trigger] values[i] is Void),
        forall|i: int|
            0 <= i < values.len() ==> external_bytes(#[trigger] values[i]).len() <= usize::MAX,
    ensures
        take_parameters::<Segments>(
            external_stream(values) + rest,
            values.map_values(|v: ValueView| wire::wire_of(v)),
        ) == Ok::<(Seq<ValueView>, Seq<u8>), WireError>((kept_all(values), rest)),
    decreases values.len(),
{
    let wires = values.map_values(|v: ValueView| wire::wire_of(v));
    if values.len() == 0 {
        assert(external_stream(values) + rest =~= rest);
        assert(kept_all(values) =~= Seq::<ValueView>::empty());
    } else {
        let init = values.drop_last();
        let last = values.last();
        let bytes = external_bytes(last);
        assert forall|i: int| 0 <= i < init.len() implies !(#[trigger] init[i] is Void)
            && external_bytes(init[i]).len() <= usize::MAX by {
            assert(init[i] == values[i]);
        }
        law_values_round_trip(init, bytes + rest);
        assert(external_stream(values) + rest =~= external_stream(init) + (bytes + rest));
        assert(wires.drop_last() =~= init.map_values(|v: ValueView| wire::wire_of(v)));
        assert((bytes + rest).take(bytes.len() as int) =~= bytes);
        assert((bytes + rest).skip(bytes.len() as int) =~= rest);
        assert(values[values.len() - 1] == last);
        assert(wires.last() == wire::wire_of(last));
        assert(kept_all(values) =~= kept_all(init).push(kept(last)));
        assert(Seq::<u8>::empty() + rest =~= rest);
    }
}

/// A byte value beside a table: its bytes, and whether it is given as chunks.
#[verifier::ext_equal]
pub struct ByteValue {
    pub bytes: Seq<u8>,
    pub chunked: bool,
}

/// The byte values that travel beside a value's table.
pub open spec fn byte_value(value: ValueView) -> Seq<ByteValue> {
    match value {
        ValueView::VecBytes(bytes) => seq![ByteValue { bytes, chunked: false }],
        ValueView::ByteChunks(bytes) => seq![ByteValue { bytes, chunked: true }],
        _ => Seq::empty(),
    }
}

/// The byte values that travel beside the tables of values, in their order.
pub open spec fn byte_values(values: Seq<ValueView>) -> Seq<ByteValue>
    decreases values.len(),
{
    if values.len() == 0 {
        Seq::empty()
    } else {
        byte_values(values.drop_last()) + byte_value(values.last())
    }
}

/// A source holds exactly `items` and hands them out in order: the next one when a value of
/// its kind and length is asked for, nothing when one of the other kind is. Asked for
/// another length, it may hand out the next one or refuse.
pub open spec fn holds_values<S: ExternalValueSource>(
    state: S::State,
    items: Seq<ByteValue>,
) -> bool
    decreases items.len(),
{
    if items.len() == 0 {
        &&& S::finished(state)
        &&& forall|length: nat, chunked: bool| #[trigger] S::serve(state, length, chunked) is None
    } else {
        &&& !S::finished(state)
        &&& forall|length: nat, chunked: bool|
            match #[trigger] S::serve(state, length, chunked) {
                Some((bytes, next)) => {
                    &&& chunked == items[0].chunked
                    &&& bytes == items[0].bytes
                    &&& holds_values::<S>(next, items.drop_first())
                },
                None => chunked != items[0].chunked || length != items[0].bytes.len(),
            }
    }
}

/// `items` starts with values of the kinds and lengths of `wanted`.
pub open spec fn starts_like(items: Seq<ByteValue>, wanted: Seq<ByteValue>) -> bool {
    &&& wanted.len() <= items.len()
    &&& forall|i: int|
        0 <= i < wanted.len() ==> (#[trigger] items[i]).chunked == wanted[i].chunked
            && items[i].bytes.len() == wanted[i].bytes.len()
}

/// `items` are values of the kinds and lengths of `wanted`, no fewer and no more.
pub open spec fn shaped_like(items: Seq<ByteValue>, wanted: Seq<ByteValue>) -> bool {
    items.len() == wanted.len() && starts_like(items, wanted)
}

/// A value is read back from a source exactly where the source's next value is like its
/// own.
pub(crate) proof fn lemma_take_one<S: ExternalValueSource>(
    state: S::State,
    value: ValueView,
    items: Seq<ByteValue>,
    returned: bool,
)
    requires
        holds_values::<S>(state, items),
        value is Void ==> returned,
        external_bytes(value).len() <= usize::MAX,
    ensures
        match take_value::<S>(state, wire::wire_of(value), returned) {
            Ok((view, rest)) => {
                &&& starts_like(items, byte_value(value))
                &&& holds_values::<S>(rest, items.skip(byte_value(value).len() as int))
                &&& items.take(byte_value(value).len() as int) == byte_value(value) ==> view
                    == kept(value)
                &&& value_leaves::<S>(state, wire::wire_of(value)) == Some(rest)
            },
            Err(_) => !starts_like(items, byte_value(value)),
        },
{
    let wanted = byte_value(value);
    if wanted.len() == 0 {
        assert(items.skip(0) =~= items);
    } else {
        let chunked = wanted[0].chunked;
        let length = wanted[0].bytes.len();
        assert(wire::wire_of(value) == (ValueWire::External { length: length as u64, chunked }));
        assert(length as u64 as nat == length);
        let served = S::serve(state, length, chunked);
        if items.len() > 0 {
            assert(items.skip(1) =~= items.drop_first());
            if items.take(1) == wanted {
                assert(items.take(1)[0] == items[0]);
            }
        }
    }
}

/// Values are read back from a source exactly where the source starts with values like
/// theirs.
pub(crate) proof fn lemma_take_all<S: ExternalValueSource>(
    state: S::State,
    values: Seq<ValueView>,
    items: Seq<ByteValue>,
)
    requires
        holds_values::<S>(state, items),
        forall|i: int| 0 <= i < values.len() ==> !(#[trigger] values[i] is Void),
        forall|i: int|
            0 <= i < values.len() ==> external_bytes(#[trigger] values[i]).len() <= usize::MAX,
    ensures
        match take_parameters::<S>(state, values.map_values(|v: ValueView| wire::wire_of(v))) {
            Ok((views, rest)) => {
                &&& starts_like(items, byte_values(values))
                &&& holds_values::<S>(rest, items.skip(byte_values(values).len() as int))
                &&& items.take(byte_values(values).len() as int) == byte_values(values) ==> views
                    == kept_all(values)
                &&& parameters_leave::<S>(
                    state,
                    values.map_values(|v: ValueView| wire::wire_of(v)),
                ) == Some(rest)
            },
            Err(_) => !starts_like(items, byte_values(values)),
        },
    decreases values.len(),
{
    let wires = values.map_values(|v: ValueView| wire::wire_of(v));
    if values.len() == 0 {
        assert(items.skip(0) =~= items);
        assert(kept_all(values) =~= Seq::<ValueView>::empty());
    } else {
        let init = values.drop_last();
        let last = values.last();
        let first = byte_values(init);
        let more = byte_value(last);
        let wanted = first + more;
        let n = first.len() as int;
        assert forall|i: int| 0 <= i < init.len() implies !(#[trigger] init[i] is Void)
            && external_bytes(init[i]).len() <= usize::MAX by {
            assert(init[i] == values[i]);
        }
        assert(values[values.len() - 1] == last);
        lemma_take_all::<S>(state, init, items);
        assert(wires.drop_last() =~= init.map_values(|v: ValueView| wire::wire_of(v)));
        assert(wires.last() == wire::wire_of(last));
        if starts_like(items, first) {
            let behind = items.skip(n);
            let (views, next) = take_parameters::<S>(state, wires.drop_last())->Ok_0;
            lemma_take_one::<S>(next, last, behind, false);
            if starts_like(items, wanted) {
                assert forall|i: int| 0 <= i < more.len() implies (
                #[trigger] behind[i]).chunked == more[i].chunked && behind[i].bytes.len()
                    == more[i].bytes.len() by {
                    assert(behind[i] == items[n + i]);
                    assert(wanted[n + i] == more[i]);
                }
                assert(behind.skip(more.len() as int) =~= items.skip(wanted.len() as int));
                if items.take(wanted.len() as int) == wanted {
                    assert(items.take(n) =~= items.take(wanted.len() as int).take(n));
                    assert(wanted.take(n) =~= first);
                    assert(behind.take(more.len() as int) =~= items.take(wanted.len() as int).skip(
                        n,
                    ));
                    assert(wanted.skip(n) =~= more);
                    assert(kept_all(values) =~= kept_all(init).push(kept(last)));
                }
            } else if starts_like(behind, more) {
                assert forall|i: int| 0 <= i < wanted.len() implies (
                #[trigger] items[i]).chunked == wanted[i].chunked && items[i].bytes.len()
                    == wanted[i].bytes.len() by {
                    if i >= n {
                        assert(behind[i - n] == items[i]);
                    } else {
                        assert(first[i] == wanted[i]);
                    }
                }
            }
        } else if starts_like(items, wanted) {
            assert forall|i: int| 0 <= i < n implies (#[trigger] items[i]).chunked
                == first[i].chunked && items[i].bytes.len() == first[i].bytes.len() by {
                assert(wanted[i] == first[i]);
            }
        }
    }
}

/// The bytes of parameters that a sink took fit in memory.
pub(crate) proof fn lemma_offered_fit<'a, K: ExternalValueSink<'a>>(
    state: K::State,
    values: Seq<ParameterValue>,
)
    requires
        offer_parameters::<K>(state, values) is Ok,
    ensures
        forall|i: int|
            0 <= i < values.len() ==> external_bytes(#[trigger] parameter_views(values)[i]).len()
                <= usize::MAX,
    decreases values.len(),
{
    if values.len() > 0 {
        let init = values.drop_last();
        lemma_offered_fit::<K>(state, init);
        if let ParameterValue::VecBytes(v) = values.last() {
            seq![v@].lemma_flatten_one_element();
        }
        assert forall|i: int| 0 <= i < values.len() implies external_bytes(
            #[trigger] parameter_views(values)[i],
        ).len() <= usize::MAX by {
            if i < init.len() {
                assert(parameter_views(values)[i] == parameter_views(init)[i]);
            }
        }
    }
}

/// Prepare a parameter for its table and hand its bytes to a sink.
pub(crate) fn send_parameter<'a, S: ExternalValueSink<'a>>(
    value: &'a ParameterValue,
    sink: &mut S,
) -> (table: Result<WireValue<'a>, WireError>)
    ensures
        match offer_parameter::<S>(old(sink).state(), *value) {
            Ok(next) => table is Ok && table->Ok_0@ == wire::wire_of(value@) && final(sink).state()
                == next && table->Ok_0 !is Void,
            Err(error) => table is Err && table->Err_0 == error && final(sink).state() == old(
                sink,
            ).state(),
        },
{
    match value {
        ParameterValue::Int(x) => Ok(WireValue::Int(*x)),
        ParameterValue::UInt(x) => Ok(WireValue::UInt(*x)),
        ParameterValue::Long(x) => Ok(WireValue::Long(*x)),
        ParameterValue::ULong(x) => Ok(WireValue::ULong(*x)),
        ParameterValue::Float(x) => Ok(WireValue::Float(*x)),
        ParameterValue::Double(x) => Ok(WireValue::Double(*x)),
        ParameterValue::String(s) => Ok(WireValue::Text(s.as_str())),
        ParameterValue::Bool(b) => Ok(WireValue::Bool(*b)),
        ParameterValue::VecBytes(v) => {
            proof {
                seq![v@].lemma_flatten_one_element();
            }
            let length: u64 = v.len() as u64;
            match sink.push_bytes(v.as_slice()) {
                Ok(()) => Ok(WireValue::External { length, chunked: false }),
                Err(_) => Err(WireError::External),
            }
        },
        ParameterValue::ByteChunks(v) => {
            let length: u64 = match try_byte_chunks_len(v.as_slice()) {
                Some(length) => length as u64,
                None => return Err(WireError::LengthOverflow),
            };
            match sink.push_chunks(v.as_slice()) {
                Ok(()) => Ok(WireValue::External { length, chunked: true }),
                Err(_) => Err(WireError::External),
            }
        },
    }
}

/// Prepare a return value for its table and hand its bytes to a sink.
pub(crate) fn send_return<'a, S: ExternalValueSink<'a>>(
    value: &'a ReturnValue,
    sink: &mut S,
) -> (table: Result<WireValue<'a>, WireError>)
    ensures
        match offer_return::<S>(old(sink).state(), *value) {
            Ok(next) => table is Ok && table->Ok_0@ == wire::wire_of(value@) && final(sink).state()
                == next,
            Err(error) => table is Err && table->Err_0 == error && final(sink).state() == old(
                sink,
            ).state(),
        },
{
    match value {
        ReturnValue::Int(x) => Ok(WireValue::Int(*x)),
        ReturnValue::UInt(x) => Ok(WireValue::UInt(*x)),
        ReturnValue::Long(x) => Ok(WireValue::Long(*x)),
        ReturnValue::ULong(x) => Ok(WireValue::ULong(*x)),
        ReturnValue::Float(x) => Ok(WireValue::Float(*x)),
        ReturnValue::Double(x) => Ok(WireValue::Double(*x)),
        ReturnValue::String(s) => Ok(WireValue::Text(s.as_str())),
        ReturnValue::Bool(b) => Ok(WireValue::Bool(*b)),
        ReturnValue::Void => Ok(WireValue::Void),
        ReturnValue::VecBytes(v) => {
            proof {
                seq![v@].lemma_flatten_one_element();
            }
            let length: u64 = v.len() as u64;
            match sink.push_bytes(v.as_slice()) {
                Ok(()) => Ok(WireValue::External { length, chunked: false }),
                Err(_) => Err(WireError::External),
            }
        },
        ReturnValue::ByteChunks(v) => {
            let length: u64 = match try_byte_chunks_len(v.as_slice()) {
                Some(length) => length as u64,
                None => return Err(WireError::LengthOverflow),
            };
            match sink.push_chunks(v.as_slice()) {
                Ok(()) => Ok(WireValue::External { length, chunked: true }),
                Err(_) => Err(WireError::External),
            }
        },
    }
}

/// The parameter of a table that stands alone. Bytes beside the table need a source.
pub open spec fn parameter_alone(table: ValueTable) -> Result<ParameterValue, WireError> {
    match table {
        ValueTable::Int(x) => Ok(ParameterValue::Int(x)),
        ValueTable::UInt(x) => Ok(ParameterValue::UInt(x)),
        ValueTable::Long(x) => Ok(ParameterValue::Long(x)),
        ValueTable::ULong(x) => Ok(ParameterValue::ULong(x)),
        ValueTable::Float(x) => Ok(ParameterValue::Float(x)),
        ValueTable::Double(x) => Ok(ParameterValue::Double(x)),
        ValueTable::Text(s) => Ok(ParameterValue::String(s)),
        ValueTable::Bool(b) => Ok(ParameterValue::Bool(b)),
        ValueTable::Void => Err(WireError::ParameterTag(0)),
        ValueTable::External { .. } => Err(WireError::NoSource),
        ValueTable::Unknown(tag) => Err(WireError::ParameterTag(tag)),
    }
}

impl TryFrom<ValueTable> for ParameterValue {
    type Error = WireError;

    fn try_from(table: ValueTable) -> (value: Result<ParameterValue, WireError>) {
        match table {
            ValueTable::Int(x) => Ok(ParameterValue::Int(x)),
            ValueTable::UInt(x) => Ok(ParameterValue::UInt(x)),
            ValueTable::Long(x) => Ok(ParameterValue::Long(x)),
            ValueTable::ULong(x) => Ok(ParameterValue::ULong(x)),
            ValueTable::Float(x) => Ok(ParameterValue::Float(x)),
            ValueTable::Double(x) => Ok(ParameterValue::Double(x)),
            ValueTable::Text(s) => Ok(ParameterValue::String(s)),
            ValueTable::Bool(b) => Ok(ParameterValue::Bool(b)),
            ValueTable::Void => Err(WireError::ParameterTag(0)),
            ValueTable::External { .. } => Err(WireError::NoSource),
            ValueTable::Unknown(tag) => Err(WireError::ParameterTag(tag)),
        }
    }
}

impl vstd::std_specs::convert::TryFromSpecImpl<ValueTable> for ParameterValue {
    open spec fn obeys_try_from_spec() -> bool {
        true
    }

    open spec fn try_from_spec(table: ValueTable) -> Result<ParameterValue, WireError> {
        parameter_alone(table)
    }
}

/// The return value of a table that stands alone. Bytes beside the table need a source.
pub open spec fn return_value_alone(table: ValueTable) -> Result<ReturnValue, WireError> {
    match table {
        ValueTable::Int(x) => Ok(ReturnValue::Int(x)),
        ValueTable::UInt(x) => Ok(ReturnValue::UInt(x)),
        ValueTable::Long(x) => Ok(ReturnValue::Long(x)),
        ValueTable::ULong(x) => Ok(ReturnValue::ULong(x)),
        ValueTable::Float(x) => Ok(ReturnValue::Float(x)),
        ValueTable::Double(x) => Ok(ReturnValue::Double(x)),
        ValueTable::Text(s) => Ok(ReturnValue::String(s)),
        ValueTable::Bool(b) => Ok(ReturnValue::Bool(b)),
        ValueTable::Void => Ok(ReturnValue::Void),
        ValueTable::External { .. } => Err(WireError::NoSource),
        ValueTable::Unknown(tag) => Err(WireError::ReturnTag(tag)),
    }
}

impl TryFrom<ValueTable> for ReturnValue {
    type Error = WireError;

    fn try_from(table: ValueTable) -> (value: Result<ReturnValue, WireError>) {
        match table {
            ValueTable::Int(x) => Ok(ReturnValue::Int(x)),
            ValueTable::UInt(x) => Ok(ReturnValue::UInt(x)),
            ValueTable::Long(x) => Ok(ReturnValue::Long(x)),
            ValueTable::ULong(x) => Ok(ReturnValue::ULong(x)),
            ValueTable::Float(x) => Ok(ReturnValue::Float(x)),
            ValueTable::Double(x) => Ok(ReturnValue::Double(x)),
            ValueTable::Text(s) => Ok(ReturnValue::String(s)),
            ValueTable::Bool(b) => Ok(ReturnValue::Bool(b)),
            ValueTable::Void => Ok(ReturnValue::Void),
            ValueTable::External { .. } => Err(WireError::NoSource),
            ValueTable::Unknown(tag) => Err(WireError::ReturnTag(tag)),
        }
    }
}

impl vstd::std_specs::convert::TryFromSpecImpl<ValueTable> for ReturnValue {
    open spec fn obeys_try_from_spec() -> bool {
        true
    }

    open spec fn try_from_spec(table: ValueTable) -> Result<ReturnValue, WireError> {
        return_value_alone(table)
    }
}

/// Decode one parameter, taking its bytes from a source.
pub fn decode_parameter_value<S: ExternalValueSource>(table: ValueTable, source: &mut S) -> (value:
    Result<ParameterValue, WireError>)
    requires
        old(source).valid(),
    ensures
        final(source).valid(),
        match take_value::<S>(old(source).state(), table@, false) {
            Ok((view, next)) => value is Ok && value->Ok_0@ == view && final(source).state()
                == next,
            Err(error) => value is Err && value->Err_0 == error,
        },
        value_leaves::<S>(old(source).state(), table@) matches Some(left) ==> final(source).state()
            == left,
{
    match table {
        ValueTable::External { length, chunked } => match decode_external_bytes(
            length,
            chunked,
            source,
        ) {
            Ok(DecodedExternalBytes::VecBytes(v)) => Ok(ParameterValue::VecBytes(v)),
            Ok(DecodedExternalBytes::ByteChunks(v)) => Ok(ParameterValue::ByteChunks(v)),
            Err(error) => Err(error),
        },
        _ => ParameterValue::try_from(table),
    }
}

/// Decode a return value, taking its bytes from a source.
pub fn decode_return_value<S: ExternalValueSource>(table: ValueTable, source: &mut S) -> (value:
    Result<ReturnValue, WireError>)
    requires
        old(source).valid(),
    ensures
        final(source).valid(),
        match take_value::<S>(old(source).state(), table@, true) {
            Ok((view, next)) => value is Ok && value->Ok_0@ == view && final(source).state()
                == next,
            Err(error) => value is Err && value->Err_0 == error,
        },
        value_leaves::<S>(old(source).state(), table@) matches Some(left) ==> final(source).state()
            == left,
{
    match table {
        ValueTable::External { length, chunked } => match decode_external_bytes(
            length,
            chunked,
            source,
        ) {
            Ok(DecodedExternalBytes::VecBytes(v)) => Ok(ReturnValue::VecBytes(v)),
            Ok(DecodedExternalBytes::ByteChunks(v)) => Ok(ReturnValue::ByteChunks(v)),
            Err(error) => Err(error),
        },
        _ => ReturnValue::try_from(table),
    }
}

/// A byte value taken from a source.
pub enum DecodedExternalBytes {
    VecBytes(Vec<u8>),
    ByteChunks(Vec<bytes::Bytes>),
}

impl View for DecodedExternalBytes {
    type V = ValueView;

    open spec fn view(&self) -> ValueView {
        match self {
            DecodedExternalBytes::VecBytes(v) => ValueView::VecBytes(v@),
            DecodedExternalBytes::ByteChunks(v) => ValueView::ByteChunks(
                octets::all_octets(v@).flatten(),
            ),
        }
    }
}

/// Take a byte value from a source and check its length.
///
/// The length delimits the value in the ordered external payload stream. `chunked` selects
/// the logical type; sources define chunk boundaries.
fn decode_external_bytes<S: ExternalValueSource>(length: u64, chunked: bool, source: &mut S) -> (
    value: Result<DecodedExternalBytes, WireError>)
    requires
        old(source).valid(),
    ensures
        final(source).valid(),
        match take_external::<S>(old(source).state(), length, chunked) {
            Ok((view, next)) => value is Ok && value->Ok_0@ == view && final(source).state()
                == next,
            Err(error) => value is Err && value->Err_0 == error,
        },
        value_leaves::<S>(
            old(source).state(),
            ValueWire::External { length, chunked },
        ) matches Some(left) ==> final(source).state() == left,
{
    if length > usize::MAX as u64 {
        return Err(WireError::LengthOverflow);
    }
    let declared: usize = length as usize;
    if chunked {
        let value = match source.take_chunks(declared) {
            Ok(value) => value,
            Err(_) => return Err(WireError::External),
        };
        let received: usize = match try_byte_chunks_len(value.as_slice()) {
            Some(received) => received,
            None => return Err(WireError::LengthOverflow),
        };
        if received != declared {
            return Err(WireError::LengthMismatch { chunked, declared, received });
        }
        Ok(DecodedExternalBytes::ByteChunks(value))
    } else {
        let value = match source.take_bytes(declared) {
            Ok(value) => value,
            Err(_) => return Err(WireError::External),
        };
        let received: usize = value.len();
        if received != declared {
            return Err(WireError::LengthMismatch { chunked, declared, received });
        }
        Ok(DecodedExternalBytes::VecBytes(value))
    }
}

} // verus!
