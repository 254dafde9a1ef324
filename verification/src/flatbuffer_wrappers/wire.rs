//! Values as FlatBuffer tables.

use vstd::prelude::*;

use super::builder;
use super::builder::FlatBuilder;
use super::builder::FlatField;
use super::builder::FlatObject;
use super::builder::FlatState;
use super::function_types::ValueView;
use super::reader;
use super::reader::{find_field, read_target, read_text, read_u32, read_u64, read_u8};

verus! {

/// What the table of a value holds. Bytes are elsewhere; the table holds their length.
pub enum ValueWire {
    Int(i32),
    UInt(u32),
    Long(i64),
    ULong(u64),
    Float(u32),
    Double(u64),
    Text(Seq<char>),
    Bool(bool),
    Void,
    External { length: u64, chunked: bool },
    /// The tag stands for no value.
    Unknown(u8),
}

/// The table that a tag announces.
#[derive(Debug, Clone, Copy, PartialEq, Eq, Structural)]
pub enum Shape {
    Int,
    UInt,
    Long,
    ULong,
    Float,
    Double,
    Text,
    Bool,
    Void,
    External,
    Unknown,
}

/// Tags of parameter values.
#[derive(Debug, Clone, Copy, PartialEq, Eq, Structural)]
pub enum ParameterTag {
    Absent,
    Int,
    UInt,
    Long,
    ULong,
    Float,
    Double,
    String,
    Bool,
    /// The tag before this one is reserved for embedded byte vectors.
    ExternalBytes,
}

impl ParameterTag {
    /// The tag on the wire.
    pub open spec fn wire(self) -> u8 {
        match self {
            ParameterTag::Absent => 0,
            ParameterTag::Int => 1,
            ParameterTag::UInt => 2,
            ParameterTag::Long => 3,
            ParameterTag::ULong => 4,
            ParameterTag::Float => 5,
            ParameterTag::Double => 6,
            ParameterTag::String => 7,
            ParameterTag::Bool => 8,
            ParameterTag::ExternalBytes => 10,
        }
    }

    /// The tag on the wire.
    pub fn code(self) -> (tag: u8)
        ensures
            tag == self.wire(),
    {
        match self {
            ParameterTag::Absent => 0,
            ParameterTag::Int => 1,
            ParameterTag::UInt => 2,
            ParameterTag::Long => 3,
            ParameterTag::ULong => 4,
            ParameterTag::Float => 5,
            ParameterTag::Double => 6,
            ParameterTag::String => 7,
            ParameterTag::Bool => 8,
            ParameterTag::ExternalBytes => 10,
        }
    }
}

/// Tags of return values.
#[derive(Debug, Clone, Copy, PartialEq, Eq, Structural)]
pub enum ReturnTag {
    Absent,
    Int,
    UInt,
    Long,
    ULong,
    Float,
    Double,
    String,
    Bool,
    Void,
    /// The tag before this one is reserved for embedded size-prefixed buffers.
    ExternalBytes,
}

impl ReturnTag {
    /// The tag on the wire.
    pub open spec fn wire(self) -> u8 {
        match self {
            ReturnTag::Absent => 0,
            ReturnTag::Int => 1,
            ReturnTag::UInt => 2,
            ReturnTag::Long => 3,
            ReturnTag::ULong => 4,
            ReturnTag::Float => 5,
            ReturnTag::Double => 6,
            ReturnTag::String => 7,
            ReturnTag::Bool => 8,
            ReturnTag::Void => 9,
            ReturnTag::ExternalBytes => 11,
        }
    }

    /// The tag on the wire.
    pub fn code(self) -> (tag: u8)
        ensures
            tag == self.wire(),
    {
        match self {
            ReturnTag::Absent => 0,
            ReturnTag::Int => 1,
            ReturnTag::UInt => 2,
            ReturnTag::Long => 3,
            ReturnTag::ULong => 4,
            ReturnTag::Float => 5,
            ReturnTag::Double => 6,
            ReturnTag::String => 7,
            ReturnTag::Bool => 8,
            ReturnTag::Void => 9,
            ReturnTag::ExternalBytes => 11,
        }
    }
}

/// The table that a parameter's tag announces.
pub open spec fn parameter_shape_of(tag: u8) -> Shape {
    if tag == 1 {
        Shape::Int
    } else if tag == 2 {
        Shape::UInt
    } else if tag == 3 {
        Shape::Long
    } else if tag == 4 {
        Shape::ULong
    } else if tag == 5 {
        Shape::Float
    } else if tag == 6 {
        Shape::Double
    } else if tag == 7 {
        Shape::Text
    } else if tag == 8 {
        Shape::Bool
    } else if tag == 10 {
        Shape::External
    } else {
        Shape::Unknown
    }
}

/// The table that a return value's tag announces.
pub open spec fn return_shape_of(tag: u8) -> Shape {
    if 1 <= tag <= 8 {
        parameter_shape_of(tag)
    } else if tag == 9 {
        Shape::Void
    } else if tag == 11 {
        Shape::External
    } else {
        Shape::Unknown
    }
}

pub(crate) fn parameter_shape(tag: u8) -> (shape: Shape)
    ensures
        shape == parameter_shape_of(tag),
{
    match tag {
        1 => Shape::Int,
        2 => Shape::UInt,
        3 => Shape::Long,
        4 => Shape::ULong,
        5 => Shape::Float,
        6 => Shape::Double,
        7 => Shape::Text,
        8 => Shape::Bool,
        10 => Shape::External,
        _ => Shape::Unknown,
    }
}

pub(crate) fn return_shape(tag: u8) -> (shape: Shape)
    ensures
        shape == return_shape_of(tag),
{
    if 1 <= tag && tag <= 8 {
        parameter_shape(tag)
    } else if tag == 9 {
        Shape::Void
    } else if tag == 11 {
        Shape::External
    } else {
        Shape::Unknown
    }
}

impl ValueWire {
    pub open spec fn shape(self) -> Shape {
        match self {
            ValueWire::Int(_) => Shape::Int,
            ValueWire::UInt(_) => Shape::UInt,
            ValueWire::Long(_) => Shape::Long,
            ValueWire::ULong(_) => Shape::ULong,
            ValueWire::Float(_) => Shape::Float,
            ValueWire::Double(_) => Shape::Double,
            ValueWire::Text(_) => Shape::Text,
            ValueWire::Bool(_) => Shape::Bool,
            ValueWire::Void => Shape::Void,
            ValueWire::External { .. } => Shape::External,
            ValueWire::Unknown(_) => Shape::Unknown,
        }
    }

    /// The tag that announces the value as a parameter.
    pub open spec fn parameter_tag(self) -> u8 {
        match self {
            ValueWire::Int(_) => ParameterTag::Int.wire(),
            ValueWire::UInt(_) => ParameterTag::UInt.wire(),
            ValueWire::Long(_) => ParameterTag::Long.wire(),
            ValueWire::ULong(_) => ParameterTag::ULong.wire(),
            ValueWire::Float(_) => ParameterTag::Float.wire(),
            ValueWire::Double(_) => ParameterTag::Double.wire(),
            ValueWire::Text(_) => ParameterTag::String.wire(),
            ValueWire::Bool(_) => ParameterTag::Bool.wire(),
            ValueWire::Void => ParameterTag::Absent.wire(),
            ValueWire::External { .. } => ParameterTag::ExternalBytes.wire(),
            ValueWire::Unknown(tag) => tag,
        }
    }

    /// The tag that announces the value as a return value.
    pub open spec fn return_tag(self) -> u8 {
        match self {
            ValueWire::Int(_) => ReturnTag::Int.wire(),
            ValueWire::UInt(_) => ReturnTag::UInt.wire(),
            ValueWire::Long(_) => ReturnTag::Long.wire(),
            ValueWire::ULong(_) => ReturnTag::ULong.wire(),
            ValueWire::Float(_) => ReturnTag::Float.wire(),
            ValueWire::Double(_) => ReturnTag::Double.wire(),
            ValueWire::Text(_) => ReturnTag::String.wire(),
            ValueWire::Bool(_) => ReturnTag::Bool.wire(),
            ValueWire::Void => ReturnTag::Void.wire(),
            ValueWire::External { .. } => ReturnTag::ExternalBytes.wire(),
            ValueWire::Unknown(tag) => tag,
        }
    }

    /// The most bytes that the value's table takes.
    pub open spec fn cost(self) -> nat {
        match self {
            ValueWire::Text(s) => 43 + vstd::utf8::encode_utf8(s).len(),
            _ => 40,
        }
    }
}

/// A four-byte float as the buffer stores it: a slot that compares equal to its default of
/// zero is left out, and so is negative zero.
pub open spec fn stored_float(bits: u32) -> u32 {
    if bits == 0x8000_0000 {
        0
    } else {
        bits
    }
}

/// An eight-byte float as the buffer stores it.
pub open spec fn stored_double(bits: u64) -> u64 {
    if bits == 0x8000_0000_0000_0000 {
        0
    } else {
        bits
    }
}

/// The table that a value is written as.
pub open spec fn wire_of(value: ValueView) -> ValueWire {
    match value {
        ValueView::Int(x) => ValueWire::Int(x),
        ValueView::UInt(x) => ValueWire::UInt(x),
        ValueView::Long(x) => ValueWire::Long(x),
        ValueView::ULong(x) => ValueWire::ULong(x),
        ValueView::Float(x) => ValueWire::Float(stored_float(x)),
        ValueView::Double(x) => ValueWire::Double(stored_double(x)),
        ValueView::Text(s) => ValueWire::Text(s),
        ValueView::Bool(b) => ValueWire::Bool(b),
        ValueView::Void => ValueWire::Void,
        ValueView::VecBytes(v) => ValueWire::External { length: v.len() as u64, chunked: false },
        ValueView::ByteChunks(v) => ValueWire::External { length: v.len() as u64, chunked: true },
    }
}

/// What is left of some bytes once a text and `more` bytes are taken, if they suffice.
pub(crate) fn without_text(left: usize, text: &str, more: usize) -> (rest: Option<usize>)
    ensures
        match rest {
            Some(rest) => rest == left - more - vstd::utf8::encode_utf8(text@).len(),
            None => left < more + vstd::utf8::encode_utf8(text@).len(),
        },
{
    match left.checked_sub(more) {
        Some(left) => left.checked_sub(text.as_bytes().len()),
        None => None,
    }
}

// ---- Reading -------------------------------------------------------------------------

/// A byte slot whose default is zero.
pub open spec fn slot_u8(buf: Seq<u8>, table: usize, slot: u16) -> Option<u8> {
    match reader::table_field(buf, table, slot) {
        None => None,
        Some(None) => Some(0),
        Some(Some(pos)) => reader::u8_at(buf, pos as int),
    }
}

/// A four-byte slot whose default is zero.
pub open spec fn slot_u32(buf: Seq<u8>, table: usize, slot: u16) -> Option<u32> {
    match reader::table_field(buf, table, slot) {
        None => None,
        Some(None) => Some(0),
        Some(Some(pos)) => reader::u32_at(buf, pos as int),
    }
}

/// An eight-byte slot whose default is zero.
pub open spec fn slot_u64(buf: Seq<u8>, table: usize, slot: u16) -> Option<u64> {
    match reader::table_field(buf, table, slot) {
        None => None,
        Some(None) => Some(0),
        Some(Some(pos)) => reader::u64_at(buf, pos as int),
    }
}

/// A string slot; `Some(None)` where the table leaves it out.
pub open spec fn slot_text(buf: Seq<u8>, table: usize, slot: u16) -> Option<Option<Seq<char>>> {
    match reader::table_field(buf, table, slot) {
        None => None,
        Some(None) => Some(None),
        Some(Some(pos)) => match reader::target_at(buf, pos as int) {
            None => None,
            Some(target) => match reader::text_at(buf, target as int) {
                None => None,
                Some(text) => Some(Some(text)),
            },
        },
    }
}

/// A string slot that reads as empty where the table leaves it out.
pub open spec fn slot_text_or_empty(buf: Seq<u8>, table: usize, slot: u16) -> Option<Seq<char>> {
    match slot_text(buf, table, slot) {
        None => None,
        Some(None) => Some(Seq::empty()),
        Some(Some(text)) => Some(text),
    }
}

/// A union: its tag and where its value is stored. A tag without a value, or a value
/// without a tag, is invalid.
pub open spec fn union_at(buf: Seq<u8>, table: usize) -> Option<(u8, Option<usize>)> {
    match (reader::table_field(buf, table, 4), reader::table_field(buf, table, 6)) {
        (Some(None), Some(None)) => Some((0, None)),
        (Some(Some(tag)), Some(Some(value))) => match reader::u8_at(buf, tag as int) {
            None => None,
            Some(tag) => Some((tag, Some(value))),
        },
        _ => None,
    }
}

/// The table of a value.
pub open spec fn value_table(buf: Seq<u8>, table: usize, shape: Shape) -> Option<ValueWire> {
    match shape {
        Shape::Int => match slot_u32(buf, table, 4) {
            None => None,
            Some(x) => Some(ValueWire::Int(x as i32)),
        },
        Shape::UInt => match slot_u32(buf, table, 4) {
            None => None,
            Some(x) => Some(ValueWire::UInt(x)),
        },
        Shape::Long => match slot_u64(buf, table, 4) {
            None => None,
            Some(x) => Some(ValueWire::Long(x as i64)),
        },
        Shape::ULong => match slot_u64(buf, table, 4) {
            None => None,
            Some(x) => Some(ValueWire::ULong(x)),
        },
        Shape::Float => match slot_u32(buf, table, 4) {
            None => None,
            Some(x) => Some(ValueWire::Float(x)),
        },
        Shape::Double => match slot_u64(buf, table, 4) {
            None => None,
            Some(x) => Some(ValueWire::Double(x)),
        },
        Shape::Text => match slot_text_or_empty(buf, table, 4) {
            None => None,
            Some(text) => Some(ValueWire::Text(text)),
        },
        Shape::Bool => match slot_u8(buf, table, 4) {
            None => None,
            Some(x) => Some(ValueWire::Bool(x != 0)),
        },
        Shape::Void => match reader::table_field(buf, table, 4) {
            None => None,
            Some(_) => Some(ValueWire::Void),
        },
        Shape::External => match (slot_u64(buf, table, 4), slot_u8(buf, table, 6)) {
            (Some(length), Some(chunked)) => Some(
                ValueWire::External { length, chunked: chunked != 0 },
            ),
            _ => None,
        },
        Shape::Unknown => None,
    }
}

/// The value of a union. A value that no shape describes is not looked at.
pub open spec fn union_value(
    buf: Seq<u8>,
    tag: u8,
    value: Option<usize>,
    shape: Shape,
) -> Option<ValueWire> {
    match (shape, value) {
        (Shape::Unknown, _) => Some(ValueWire::Unknown(tag)),
        (_, None) => Some(ValueWire::Unknown(tag)),
        (_, Some(pos)) => match reader::target_at(buf, pos as int) {
            None => None,
            Some(table) => value_table(buf, table, shape),
        },
    }
}

/// The parameter at a position.
pub open spec fn parameter_at(buf: Seq<u8>, table: usize) -> Option<ValueWire> {
    match union_at(buf, table) {
        None => None,
        Some((tag, value)) => union_value(buf, tag, value, parameter_shape_of(tag)),
    }
}

/// The return value at a position.
pub open spec fn return_at(buf: Seq<u8>, table: usize) -> Option<ValueWire> {
    match union_at(buf, table) {
        None => None,
        Some((tag, value)) => union_value(buf, tag, value, return_shape_of(tag)),
    }
}

/// A value as it was read from a buffer.
#[derive(Debug, Clone, PartialEq, Eq)]
pub enum ValueTable {
    Int(i32),
    UInt(u32),
    Long(i64),
    ULong(u64),
    Float(u32),
    Double(u64),
    Text(String),
    Bool(bool),
    Void,
    External { length: u64, chunked: bool },
    Unknown(u8),
}

impl View for ValueTable {
    type V = ValueWire;

    open spec fn view(&self) -> ValueWire {
        match self {
            ValueTable::Int(x) => ValueWire::Int(*x),
            ValueTable::UInt(x) => ValueWire::UInt(*x),
            ValueTable::Long(x) => ValueWire::Long(*x),
            ValueTable::ULong(x) => ValueWire::ULong(*x),
            ValueTable::Float(x) => ValueWire::Float(*x),
            ValueTable::Double(x) => ValueWire::Double(*x),
            ValueTable::Text(s) => ValueWire::Text(s@),
            ValueTable::Bool(b) => ValueWire::Bool(*b),
            ValueTable::Void => ValueWire::Void,
            ValueTable::External { length, chunked } => ValueWire::External {
                length: *length,
                chunked: *chunked,
            },
            ValueTable::Unknown(tag) => ValueWire::Unknown(*tag),
        }
    }
}

pub(crate) fn read_slot_u8(buf: &[u8], table: usize, slot: u16) -> (x: Option<u8>)
    ensures
        x == slot_u8(buf@, table, slot),
{
    match find_field(buf, table, slot) {
        None => None,
        Some(None) => Some(0),
        Some(Some(pos)) => read_u8(buf, pos),
    }
}

fn read_slot_u32(buf: &[u8], table: usize, slot: u16) -> (x: Option<u32>)
    ensures
        x == slot_u32(buf@, table, slot),
{
    match find_field(buf, table, slot) {
        None => None,
        Some(None) => Some(0),
        Some(Some(pos)) => read_u32(buf, pos),
    }
}

pub(crate) fn read_slot_u64(buf: &[u8], table: usize, slot: u16) -> (x: Option<u64>)
    ensures
        x == slot_u64(buf@, table, slot),
{
    match find_field(buf, table, slot) {
        None => None,
        Some(None) => Some(0),
        Some(Some(pos)) => read_u64(buf, pos),
    }
}

pub(crate) fn read_slot_text(buf: &[u8], table: usize, slot: u16) -> (text: Option<Option<String>>)
    ensures
        match text {
            None => slot_text(buf@, table, slot) is None,
            Some(None) => slot_text(buf@, table, slot) == Some(None::<Seq<char>>),
            Some(Some(s)) => slot_text(buf@, table, slot) == Some(Some(s@)),
        },
{
    match find_field(buf, table, slot) {
        None => None,
        Some(None) => Some(None),
        Some(Some(pos)) => match read_target(buf, pos) {
            None => None,
            Some(target) => match read_text(buf, target) {
                None => None,
                Some(text) => Some(Some(text)),
            },
        },
    }
}

pub(crate) fn read_slot_text_or_empty(buf: &[u8], table: usize, slot: u16) -> (text: Option<String>)
    ensures
        match text {
            None => slot_text_or_empty(buf@, table, slot) is None,
            Some(s) => slot_text_or_empty(buf@, table, slot) == Some(s@),
        },
{
    match read_slot_text(buf, table, slot) {
        None => None,
        Some(None) => Some(String::new()),
        Some(Some(text)) => Some(text),
    }
}

pub(crate) fn read_union(buf: &[u8], table: usize) -> (union: Option<(u8, Option<usize>)>)
    ensures
        union == union_at(buf@, table),
{
    match (find_field(buf, table, 4), find_field(buf, table, 6)) {
        (Some(None), Some(None)) => Some((0, None)),
        (Some(Some(tag)), Some(Some(value))) => match read_u8(buf, tag) {
            None => None,
            Some(tag) => Some((tag, Some(value))),
        },
        _ => None,
    }
}

fn read_value_table(buf: &[u8], table: usize, shape: Shape) -> (value: Option<ValueTable>)
    ensures
        value is Some <==> value_table(buf@, table, shape) is Some,
        value matches Some(v) ==> value_table(buf@, table, shape) == Some(v@),
{
    match shape {
        Shape::Int => match read_slot_u32(buf, table, 4) {
            None => None,
            Some(x) => Some(ValueTable::Int(x as i32)),
        },
        Shape::UInt => match read_slot_u32(buf, table, 4) {
            None => None,
            Some(x) => Some(ValueTable::UInt(x)),
        },
        Shape::Long => match read_slot_u64(buf, table, 4) {
            None => None,
            Some(x) => Some(ValueTable::Long(x as i64)),
        },
        Shape::ULong => match read_slot_u64(buf, table, 4) {
            None => None,
            Some(x) => Some(ValueTable::ULong(x)),
        },
        Shape::Float => match read_slot_u32(buf, table, 4) {
            None => None,
            Some(x) => Some(ValueTable::Float(x)),
        },
        Shape::Double => match read_slot_u64(buf, table, 4) {
            None => None,
            Some(x) => Some(ValueTable::Double(x)),
        },
        Shape::Text => match read_slot_text_or_empty(buf, table, 4) {
            None => None,
            Some(text) => Some(ValueTable::Text(text)),
        },
        Shape::Bool => match read_slot_u8(buf, table, 4) {
            None => None,
            Some(x) => Some(ValueTable::Bool(x != 0)),
        },
        Shape::Void => match find_field(buf, table, 4) {
            None => None,
            Some(_) => Some(ValueTable::Void),
        },
        Shape::External => match (read_slot_u64(buf, table, 4), read_slot_u8(buf, table, 6)) {
            (Some(length), Some(chunked)) => Some(
                ValueTable::External { length, chunked: chunked != 0 },
            ),
            _ => None,
        },
        Shape::Unknown => None,
    }
}

fn read_union_value(buf: &[u8], tag: u8, value: Option<usize>, shape: Shape) -> (read: Option<
    ValueTable,
>)
    ensures
        read is Some <==> union_value(buf@, tag, value, shape) is Some,
        read matches Some(v) ==> union_value(buf@, tag, value, shape) == Some(v@),
{
    match value {
        Some(pos) if shape != Shape::Unknown => match read_target(buf, pos) {
            None => None,
            Some(table) => read_value_table(buf, table, shape),
        },
        _ => Some(ValueTable::Unknown(tag)),
    }
}

/// Read the parameter table at a position.
pub fn read_parameter(buf: &[u8], table: usize) -> (read: Option<ValueTable>)
    ensures
        read is Some <==> parameter_at(buf@, table) is Some,
        read matches Some(v) ==> parameter_at(buf@, table) == Some(v@),
{
    match read_union(buf, table) {
        None => None,
        Some((tag, value)) => read_union_value(buf, tag, value, parameter_shape(tag)),
    }
}

/// Read the table of a return value at a position.
pub fn read_return(buf: &[u8], table: usize) -> (read: Option<ValueTable>)
    ensures
        read is Some <==> return_at(buf@, table) is Some,
        read matches Some(v) ==> return_at(buf@, table) == Some(v@),
{
    match read_union(buf, table) {
        None => None,
        Some((tag, value)) => read_union_value(buf, tag, value, return_shape(tag)),
    }
}

// ---- Writing -------------------------------------------------------------------------

/// A value on its way into a buffer.
pub enum WireValue<'a> {
    Int(i32),
    UInt(u32),
    Long(i64),
    ULong(u64),
    Float(u32),
    Double(u64),
    Text(&'a str),
    Bool(bool),
    Void,
    External { length: u64, chunked: bool },
}

impl<'a> View for WireValue<'a> {
    type V = ValueWire;

    open spec fn view(&self) -> ValueWire {
        match self {
            WireValue::Int(x) => ValueWire::Int(*x),
            WireValue::UInt(x) => ValueWire::UInt(*x),
            WireValue::Long(x) => ValueWire::Long(*x),
            WireValue::ULong(x) => ValueWire::ULong(*x),
            WireValue::Float(x) => ValueWire::Float(stored_float(*x)),
            WireValue::Double(x) => ValueWire::Double(stored_double(*x)),
            WireValue::Text(s) => ValueWire::Text(s@),
            WireValue::Bool(b) => ValueWire::Bool(*b),
            WireValue::Void => ValueWire::Void,
            WireValue::External { length, chunked } => ValueWire::External {
                length: *length,
                chunked: *chunked,
            },
        }
    }
}

impl<'a> WireValue<'a> {
    /// The tag that announces the value as a parameter.
    pub(crate) fn parameter_tag(&self) -> (tag: u8)
        ensures
            tag == self@.parameter_tag(),
    {
        match self {
            WireValue::Int(_) => ParameterTag::Int.code(),
            WireValue::UInt(_) => ParameterTag::UInt.code(),
            WireValue::Long(_) => ParameterTag::Long.code(),
            WireValue::ULong(_) => ParameterTag::ULong.code(),
            WireValue::Float(_) => ParameterTag::Float.code(),
            WireValue::Double(_) => ParameterTag::Double.code(),
            WireValue::Text(_) => ParameterTag::String.code(),
            WireValue::Bool(_) => ParameterTag::Bool.code(),
            WireValue::Void => ParameterTag::Absent.code(),
            WireValue::External { .. } => ParameterTag::ExternalBytes.code(),
        }
    }

    /// The tag that announces the value as a return value.
    pub(crate) fn return_tag(&self) -> (tag: u8)
        ensures
            tag == self@.return_tag(),
    {
        match self {
            WireValue::Int(_) => ReturnTag::Int.code(),
            WireValue::UInt(_) => ReturnTag::UInt.code(),
            WireValue::Long(_) => ReturnTag::Long.code(),
            WireValue::ULong(_) => ReturnTag::ULong.code(),
            WireValue::Float(_) => ReturnTag::Float.code(),
            WireValue::Double(_) => ReturnTag::Double.code(),
            WireValue::Text(_) => ReturnTag::String.code(),
            WireValue::Bool(_) => ReturnTag::Bool.code(),
            WireValue::Void => ReturnTag::Void.code(),
            WireValue::External { .. } => ReturnTag::ExternalBytes.code(),
        }
    }
}

/// The builder wrote on: what it had written stands.
pub open spec fn extends(before: FlatState, after: FlatState, cost: nat) -> bool {
    &&& before.objects.submap_of(after.objects)
    &&& after.open is None
    &&& after.root is None
    &&& after.bounded()
    &&& before.used <= after.used <= before.used + cost
}

/// A slot holds a value, or is left out where the value is the default.
pub open spec fn slot_holds(
    fields: Map<u16, FlatField>,
    slot: u16,
    stored: bool,
    field: FlatField,
) -> bool {
    if stored {
        fields.contains_key(slot) && fields[slot] == field
    } else {
        !fields.contains_key(slot)
    }
}

/// A string was written.
pub open spec fn text_written(objects: Map<nat, FlatObject>, field: FlatField, text: Seq<char>) -> bool {
    &&& field matches FlatField::Ref(off)
    &&& objects.contains_key(off)
    &&& objects[off] == FlatObject::Text(text)
}

/// The table of a value was written.
pub open spec fn value_written(objects: Map<nat, FlatObject>, off: nat, value: ValueWire) -> bool {
    &&& objects.contains_key(off)
    &&& objects[off] matches FlatObject::Table(fields)
    &&& match value {
        ValueWire::Int(x) => slot_holds(fields, 4, x != 0, FlatField::Word(x as u32)),
        ValueWire::UInt(x) => slot_holds(fields, 4, x != 0, FlatField::Word(x)),
        ValueWire::Long(x) => slot_holds(fields, 4, x != 0, FlatField::Long(x as u64)),
        ValueWire::ULong(x) => slot_holds(fields, 4, x != 0, FlatField::Long(x)),
        ValueWire::Float(x) => slot_holds(fields, 4, x != 0, FlatField::Word(x)),
        ValueWire::Double(x) => slot_holds(fields, 4, x != 0, FlatField::Long(x)),
        ValueWire::Text(s) => fields.contains_key(4) && text_written(objects, fields[4], s),
        ValueWire::Bool(b) => slot_holds(fields, 4, b, FlatField::Byte(1)),
        ValueWire::Void => true,
        ValueWire::External { length, chunked } => slot_holds(
            fields,
            4,
            length != 0,
            FlatField::Long(length),
        ) && slot_holds(fields, 6, chunked, FlatField::Byte(1)),
        ValueWire::Unknown(_) => false,
    }
}

/// A union was written: a tag and a reference to its value.
pub open spec fn union_written(objects: Map<nat, FlatObject>, off: nat, tag: u8, value: nat) -> bool {
    &&& objects.contains_key(off)
    &&& objects[off] matches FlatObject::Table(fields)
    &&& tag != 0
    &&& slot_holds(fields, 4, true, FlatField::Byte(tag))
    &&& slot_holds(fields, 6, true, FlatField::Ref(value))
    &&& objects.contains_key(value)
}

/// Writing on twice is writing on.
pub(crate) proof fn lemma_extends_twice(
    first: Map<nat, FlatObject>,
    second: Map<nat, FlatObject>,
    third: Map<nat, FlatObject>,
)
    requires
        first.submap_of(second),
        second.submap_of(third),
    ensures
        first.submap_of(third),
{
    vstd::map_lib::lemma_submap_of_trans(first, second, third);
}

/// What was written stands while the builder writes on.
pub(crate) proof fn lemma_value_stands(
    objects: Map<nat, FlatObject>,
    more: Map<nat, FlatObject>,
    off: nat,
    value: ValueWire,
)
    requires
        value_written(objects, off, value),
        objects.submap_of(more),
    ensures
        value_written(more, off, value),
{
    assert(more.dom().contains(off) && objects.dom().contains(off));
    let fields = objects[off]->Table_0;
    if let ValueWire::Text(_) = value {
        let text = fields[4]->Ref_0;
        assert(more.dom().contains(text) && objects.dom().contains(text));
    }
}

/// What was written stands while the builder writes on.
pub(crate) proof fn lemma_union_stands(
    objects: Map<nat, FlatObject>,
    more: Map<nat, FlatObject>,
    off: nat,
    tag: u8,
    value: nat,
)
    requires
        union_written(objects, off, tag, value),
        objects.submap_of(more),
    ensures
        union_written(more, off, tag, value),
{
    assert(more.dom().contains(off) && objects.dom().contains(off));
    assert(more.dom().contains(value) && objects.dom().contains(value));
}

proof fn lemma_signed_words(x: i32, y: i64)
    ensures
        (x as u32) as i32 == x,
        (y as u64) as i64 == y,
        x == 0 <==> x as u32 == 0,
        y == 0 <==> y as u64 == 0,
        0u32 as i32 == 0,
        0u64 as i64 == 0,
{
    assert((x as u32) as i32 == x) by (bit_vector);
    assert((y as u64) as i64 == y) by (bit_vector);
    assert(x == 0 <==> x as u32 == 0) by (bit_vector);
    assert(y == 0 <==> y as u64 == 0) by (bit_vector);
    assert(0u32 as i32 == 0) by (bit_vector);
    assert(0u64 as i64 == 0) by (bit_vector);
}

/// A written value reads back from the finished buffer.
pub(crate) proof fn lemma_value_reads(bytes: Seq<u8>, state: FlatState, off: nat, value: ValueWire)
    requires
        builder::reads_back(bytes, state),
        bytes.len() <= usize::MAX,
        value_written(state.objects, off, value),
    ensures
        off <= bytes.len(),
        value_table(bytes, (bytes.len() - off) as usize, value.shape()) == Some(value),
{
    assert(state.objects.contains_key(off));
    let pos = bytes.len() - off;
    let fields = state.objects[off]->Table_0;
    assert(builder::object_reads(bytes, pos, FlatObject::Table(fields)));
    assert(fields.contains_key(4) || !fields.contains_key(4));
    assert(fields.contains_key(6) || !fields.contains_key(6));
    assert(builder::table_slot_reads(bytes, pos, 4, fields));
    assert(builder::table_slot_reads(bytes, pos, 6, fields));
    match value {
        ValueWire::Int(x) => {
            lemma_signed_words(x, 0);
        },
        ValueWire::Long(x) => {
            lemma_signed_words(0, x);
        },
        ValueWire::Text(s) => {
            let text = fields[4]->Ref_0;
            assert(state.objects.contains_key(text));
            assert(builder::object_reads(bytes, bytes.len() - text, FlatObject::Text(s)));
        },
        _ => {},
    }
}

/// A written union reads back from the finished buffer.
pub(crate) proof fn lemma_union_reads(
    bytes: Seq<u8>,
    state: FlatState,
    off: nat,
    tag: u8,
    value: nat,
)
    requires
        builder::reads_back(bytes, state),
        bytes.len() <= usize::MAX,
        union_written(state.objects, off, tag, value),
    ensures
        off <= bytes.len(),
        value <= bytes.len(),
        union_at(bytes, (bytes.len() - off) as usize) matches Some((t, Some(p))) && t == tag
            && reader::target_at(bytes, p as int) == Some((bytes.len() - value) as usize),
{
    assert(state.objects.contains_key(off));
    assert(state.objects.contains_key(value));
    let pos = bytes.len() - off;
    let fields = state.objects[off]->Table_0;
    assert(builder::object_reads(bytes, pos, FlatObject::Table(fields)));
    assert(fields.contains_key(4) && fields.contains_key(6));
    assert(builder::table_slot_reads(bytes, pos, 4, fields));
    assert(builder::table_slot_reads(bytes, pos, 6, fields));
}

/// Write a one-slot table of four bytes.
fn write_word(builder: &mut FlatBuilder, x: u32) -> (off: u32)
    requires
        builder::flat_state(*old(builder)).idle(40),
        builder::flat_state(*old(builder)).bounded(),
    ensures
        extends(builder::flat_state(*old(builder)), builder::flat_state(*final(builder)), 40),
        value_written(
            builder::flat_state(*final(builder)).objects,
            off as nat,
            ValueWire::UInt(x),
        ),
{
    let start: u32 = builder.start_table();
    builder.push_slot_u32(4, x);
    builder.end_table(start)
}

/// Write a one-slot table of eight bytes.
fn write_long(builder: &mut FlatBuilder, x: u64) -> (off: u32)
    requires
        builder::flat_state(*old(builder)).idle(40),
        builder::flat_state(*old(builder)).bounded(),
    ensures
        extends(builder::flat_state(*old(builder)), builder::flat_state(*final(builder)), 40),
        value_written(
            builder::flat_state(*final(builder)).objects,
            off as nat,
            ValueWire::ULong(x),
        ),
{
    let start: u32 = builder.start_table();
    builder.push_slot_u64(4, x);
    builder.end_table(start)
}

/// Write the table of a value.
pub(crate) fn write_value(builder: &mut FlatBuilder, value: &WireValue<'_>) -> (off: u32)
    requires
        builder::flat_state(*old(builder)).idle(value@.cost()),
        builder::flat_state(*old(builder)).bounded(),
    ensures
        extends(
            builder::flat_state(*old(builder)),
            builder::flat_state(*final(builder)),
            value@.cost(),
        ),
        value_written(builder::flat_state(*final(builder)).objects, off as nat, value@),
{
    match value {
        WireValue::Int(x) => {
            proof {
                lemma_signed_words(*x, 0);
            }
            write_word(builder, *x as u32)
        },
        WireValue::UInt(x) => write_word(builder, *x),
        WireValue::Long(x) => {
            proof {
                lemma_signed_words(0, *x);
            }
            write_long(builder, *x as u64)
        },
        WireValue::ULong(x) => write_long(builder, *x),
        WireValue::Float(x) => write_word(
            builder,
            if *x == 0x8000_0000 {
                0
            } else {
                *x
            },
        ),
        WireValue::Double(x) => write_long(
            builder,
            if *x == 0x8000_0000_0000_0000 {
                0
            } else {
                *x
            },
        ),
        WireValue::Text(s) => {
            let text: u32 = builder.create_string(s);
            let start: u32 = builder.start_table();
            builder.push_slot_ref(4, text);
            builder.end_table(start)
        },
        WireValue::Bool(b) => {
            let start: u32 = builder.start_table();
            builder.push_slot_u8(
                4,
                if *b {
                    1
                } else {
                    0
                },
            );
            builder.end_table(start)
        },
        WireValue::Void => {
            let start: u32 = builder.start_table();
            builder.end_table(start)
        },
        WireValue::External { length, chunked } => {
            let start: u32 = builder.start_table();
            builder.push_slot_u64(4, *length);
            builder.push_slot_u8(
                6,
                if *chunked {
                    1
                } else {
                    0
                },
            );
            builder.end_table(start)
        },
    }
}

/// Write a union.
pub(crate) fn write_union(builder: &mut FlatBuilder, tag: u8, value: u32) -> (off: u32)
    requires
        builder::flat_state(*old(builder)).idle(32),
        builder::flat_state(*old(builder)).bounded(),
        builder::flat_state(*old(builder)).objects.contains_key(value as nat),
        tag != 0,
    ensures
        extends(builder::flat_state(*old(builder)), builder::flat_state(*final(builder)), 32),
        union_written(
            builder::flat_state(*final(builder)).objects,
            off as nat,
            tag,
            value as nat,
        ),
{
    let start: u32 = builder.start_table();
    builder.push_slot_ref(6, value);
    builder.push_slot_u8(4, tag);
    builder.end_table(start)
}

} // verus!
