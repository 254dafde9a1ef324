//! Values and types that cross the guest boundary.

use bytes::Bytes;
use vstd::prelude::*;
use vstd::string::*;

use crate::octets;
use crate::text;

verus! {

/// A function call or result could not be encoded or decoded.
#[derive(Debug, Clone, Copy, PartialEq, Eq, Structural)]
pub enum WireError {
    /// The bytes hold no such FlatBuffer.
    Buffer,
    /// No function call type has this tag.
    CallType(u8),
    /// No parameter type has this tag.
    ParameterType(u8),
    /// No return type has this tag.
    ReturnType(u8),
    /// No parameter value has this tag.
    ParameterTag(u8),
    /// No return value has this tag.
    ReturnTag(u8),
    /// No function call result has this tag.
    ResultTag(u8),
    /// The length of a byte value does not fit the address space.
    LengthOverflow,
    /// A byte value is not as long as declared.
    LengthMismatch { chunked: bool, declared: usize, received: usize },
    /// A sink or a source refused a byte value.
    External,
    /// A byte value has no source to come from.
    NoSource,
    /// Byte values are left over.
    Unused,
}

/// What is encoded or decoded.
#[derive(Debug, Clone, Copy, PartialEq, Eq, Structural)]
pub enum Subject {
    Call,
    Result,
}

impl WireError {
    /// What to tell of the error. A sink or a source that refuses speaks for itself.
    pub open spec fn message_of(self, subject: Subject) -> Option<Seq<char>> {
        match self {
            WireError::Buffer => Some(
                match subject {
                    Subject::Call => "Error reading function call buffer"@,
                    Subject::Result => "Failed to get FunctionCallResult from bytes"@,
                },
            ),
            WireError::CallType(_) => Some("Invalid function call type"@),
            WireError::ParameterType(_) => Some("Unexpected flatbuffer parameter type"@),
            WireError::ReturnType(_) => Some("Unexpected flatbuffer return type"@),
            WireError::ParameterTag(_) => Some("Unexpected flatbuffer parameter value type"@),
            WireError::ReturnTag(_) => Some("Unexpected flatbuffer return value type"@),
            WireError::ResultTag(_) => Some("Unexpected function call result type"@),
            WireError::LengthOverflow => Some("External ByteChunks length overflow"@),
            WireError::LengthMismatch { chunked, declared, received } => Some(
                (if chunked {
                    "External ByteChunks length mismatch: declared "@
                } else {
                    "External VecBytes length mismatch: declared "@
                }) + text::number_text_of(declared as nat) + ", received "@ + text::number_text_of(
                    received as nat,
                ),
            ),
            WireError::External => None,
            WireError::NoSource => Some(
                match subject {
                    Subject::Call => "External byte parameter requires an external value source"@,
                    Subject::Result => "External byte return requires an external value source"@,
                },
            ),
            WireError::Unused => None,
        }
    }

    /// What to tell of the error. A sink or a source that refuses speaks for itself.
    pub fn message(&self, subject: Subject) -> (message: Option<String>)
        ensures
            match message {
                Some(m) => self.message_of(subject) == Some(m@),
                None => self.message_of(subject) is None,
            },
    {
        let message = match self {
            WireError::Buffer => match subject {
                Subject::Call => "Error reading function call buffer",
                Subject::Result => "Failed to get FunctionCallResult from bytes",
            },
            WireError::CallType(_) => "Invalid function call type",
            WireError::ParameterType(_) => "Unexpected flatbuffer parameter type",
            WireError::ReturnType(_) => "Unexpected flatbuffer return type",
            WireError::ParameterTag(_) => "Unexpected flatbuffer parameter value type",
            WireError::ReturnTag(_) => "Unexpected flatbuffer return value type",
            WireError::ResultTag(_) => "Unexpected function call result type",
            WireError::LengthOverflow => "External ByteChunks length overflow",
            WireError::LengthMismatch { chunked, declared, received } => {
                let mut message = if *chunked {
                    "External ByteChunks length mismatch: declared ".to_owned()
                } else {
                    "External VecBytes length mismatch: declared ".to_owned()
                };
                let declared = text::number_text(*declared as u64);
                let received = text::number_text(*received as u64);
                message.append(declared.as_str());
                message.append(", received ");
                message.append(received.as_str());
                return Some(message);
            },
            WireError::External => return None,
            WireError::NoSource => match subject {
                Subject::Call => "External byte parameter requires an external value source",
                Subject::Result => "External byte return requires an external value source",
            },
            WireError::Unused => return None,
        };
        Some(message.to_owned())
    }
}

/// A value of another type was expected.
#[derive(Debug, Clone, Copy, PartialEq, Eq, Structural)]
pub struct UnexpectedType;

/// What a value is, whoever passes it. Floating-point numbers are given by their bits.
pub enum ValueView {
    Int(i32),
    UInt(u32),
    Long(i64),
    ULong(u64),
    Float(u32),
    Double(u64),
    Text(Seq<char>),
    Bool(bool),
    Void,
    VecBytes(Seq<u8>),
    ByteChunks(Seq<u8>),
}

/// Supported parameter types with values for function calling.
#[derive(Debug, Clone)]
pub enum ParameterValue {
    /// i32
    Int(i32),
    /// u32
    UInt(u32),
    /// i64
    Long(i64),
    /// u64
    ULong(u64),
    /// The bits of an f32.
    Float(u32),
    /// The bits of an f64.
    Double(u64),
    /// String
    String(String),
    /// bool
    Bool(bool),
    /// `Vec<u8>`
    VecBytes(Vec<u8>),
    /// One logical byte sequence represented as chunks.
    ///
    /// Chunk boundaries are a storage detail and may change during transport.
    /// They do not delimit messages or values.
    ByteChunks(Vec<Bytes>),
}

/// Supported return types with values from function calling.
#[derive(Debug, Clone)]
pub enum ReturnValue {
    /// i32
    Int(i32),
    /// u32
    UInt(u32),
    /// i64
    Long(i64),
    /// u64
    ULong(u64),
    /// The bits of an f32.
    Float(u32),
    /// The bits of an f64.
    Double(u64),
    /// String
    String(String),
    /// bool
    Bool(bool),
    /// ()
    Void,
    /// `Vec<u8>`
    VecBytes(Vec<u8>),
    /// One logical byte sequence represented as chunks.
    ///
    /// Chunk boundaries are a storage detail and may change during transport.
    /// They do not delimit messages or values.
    ByteChunks(Vec<Bytes>),
}

impl View for ParameterValue {
    type V = ValueView;

    open spec fn view(&self) -> ValueView {
        match self {
            ParameterValue::Int(x) => ValueView::Int(*x),
            ParameterValue::UInt(x) => ValueView::UInt(*x),
            ParameterValue::Long(x) => ValueView::Long(*x),
            ParameterValue::ULong(x) => ValueView::ULong(*x),
            ParameterValue::Float(x) => ValueView::Float(*x),
            ParameterValue::Double(x) => ValueView::Double(*x),
            ParameterValue::String(s) => ValueView::Text(s@),
            ParameterValue::Bool(b) => ValueView::Bool(*b),
            ParameterValue::VecBytes(v) => ValueView::VecBytes(v@),
            ParameterValue::ByteChunks(v) => ValueView::ByteChunks(octets::all_octets(v@).flatten()),
        }
    }
}

impl View for ReturnValue {
    type V = ValueView;

    open spec fn view(&self) -> ValueView {
        match self {
            ReturnValue::Int(x) => ValueView::Int(*x),
            ReturnValue::UInt(x) => ValueView::UInt(*x),
            ReturnValue::Long(x) => ValueView::Long(*x),
            ReturnValue::ULong(x) => ValueView::ULong(*x),
            ReturnValue::Float(x) => ValueView::Float(*x),
            ReturnValue::Double(x) => ValueView::Double(*x),
            ReturnValue::String(s) => ValueView::Text(s@),
            ReturnValue::Bool(b) => ValueView::Bool(*b),
            ReturnValue::Void => ValueView::Void,
            ReturnValue::VecBytes(v) => ValueView::VecBytes(v@),
            ReturnValue::ByteChunks(v) => ValueView::ByteChunks(octets::all_octets(v@).flatten()),
        }
    }
}

/// Supported parameter types for function calling.
#[derive(Debug, Clone, Copy, PartialEq, Eq, Structural)]
pub enum ParameterType {
    /// i32
    Int,
    /// u32
    UInt,
    /// i64
    Long,
    /// u64
    ULong,
    /// f32
    Float,
    /// f64
    Double,
    /// String
    String,
    /// bool
    Bool,
    /// `Vec<u8>`
    VecBytes,
    /// One logical byte sequence represented as chunks.
    ByteChunks,
}

/// Supported return types from function calling.
#[derive(Debug, Clone, Copy, PartialEq, Eq, Structural)]
pub enum ReturnType {
    /// i32
    Int,
    /// u32
    UInt,
    /// i64
    Long,
    /// u64
    ULong,
    /// f32
    Float,
    /// f64
    Double,
    /// String
    String,
    /// bool
    Bool,
    /// ()
    Void,
    /// `Vec<u8>`
    VecBytes,
    /// One logical byte sequence represented as chunks.
    ByteChunks,
}

impl Default for ReturnType {
    fn default() -> (default: ReturnType)
        ensures
            default == ReturnType::Int,
    {
        ReturnType::Int
    }
}

impl ParameterType {
    /// The type's tag on the wire.
    pub open spec fn tag(self) -> u8 {
        match self {
            ParameterType::Int => 0,
            ParameterType::UInt => 1,
            ParameterType::Long => 2,
            ParameterType::ULong => 3,
            ParameterType::Float => 4,
            ParameterType::Double => 5,
            ParameterType::String => 6,
            ParameterType::Bool => 7,
            ParameterType::VecBytes => 8,
            ParameterType::ByteChunks => 9,
        }
    }

    /// The type that a tag stands for.
    pub open spec fn of_tag(tag: u8) -> Result<ParameterType, WireError> {
        if tag == 0 {
            Ok(ParameterType::Int)
        } else if tag == 1 {
            Ok(ParameterType::UInt)
        } else if tag == 2 {
            Ok(ParameterType::Long)
        } else if tag == 3 {
            Ok(ParameterType::ULong)
        } else if tag == 4 {
            Ok(ParameterType::Float)
        } else if tag == 5 {
            Ok(ParameterType::Double)
        } else if tag == 6 {
            Ok(ParameterType::String)
        } else if tag == 7 {
            Ok(ParameterType::Bool)
        } else if tag == 8 {
            Ok(ParameterType::VecBytes)
        } else if tag == 9 {
            Ok(ParameterType::ByteChunks)
        } else {
            Err(WireError::ParameterType(tag))
        }
    }

    /// The type's tag on the wire.
    pub fn code(self) -> (tag: u8)
        ensures
            tag == self.tag(),
    {
        match self {
            ParameterType::Int => 0,
            ParameterType::UInt => 1,
            ParameterType::Long => 2,
            ParameterType::ULong => 3,
            ParameterType::Float => 4,
            ParameterType::Double => 5,
            ParameterType::String => 6,
            ParameterType::Bool => 7,
            ParameterType::VecBytes => 8,
            ParameterType::ByteChunks => 9,
        }
    }
}

impl TryFrom<u8> for ParameterType {
    type Error = WireError;

    fn try_from(tag: u8) -> (known: Result<ParameterType, WireError>) {
        match tag {
            0 => Ok(ParameterType::Int),
            1 => Ok(ParameterType::UInt),
            2 => Ok(ParameterType::Long),
            3 => Ok(ParameterType::ULong),
            4 => Ok(ParameterType::Float),
            5 => Ok(ParameterType::Double),
            6 => Ok(ParameterType::String),
            7 => Ok(ParameterType::Bool),
            8 => Ok(ParameterType::VecBytes),
            9 => Ok(ParameterType::ByteChunks),
            other => Err(WireError::ParameterType(other)),
        }
    }
}

impl vstd::std_specs::convert::TryFromSpecImpl<u8> for ParameterType {
    open spec fn obeys_try_from_spec() -> bool {
        true
    }

    open spec fn try_from_spec(tag: u8) -> Result<ParameterType, WireError> {
        ParameterType::of_tag(tag)
    }
}

/// A parameter type survives the wire.
pub proof fn law_parameter_type_round_trip(kind: ParameterType)
    ensures
        ParameterType::of_tag(kind.tag()) == Ok::<ParameterType, WireError>(kind),
{
}

impl ReturnType {
    /// The type's tag on the wire.
    pub open spec fn tag(self) -> u8 {
        match self {
            ReturnType::Int => 0,
            ReturnType::UInt => 1,
            ReturnType::Long => 2,
            ReturnType::ULong => 3,
            ReturnType::Float => 4,
            ReturnType::Double => 5,
            ReturnType::String => 6,
            ReturnType::Bool => 7,
            ReturnType::Void => 8,
            ReturnType::VecBytes => 9,
            ReturnType::ByteChunks => 10,
        }
    }

    /// The type that a tag stands for.
    pub open spec fn of_tag(tag: u8) -> Result<ReturnType, WireError> {
        if tag == 0 {
            Ok(ReturnType::Int)
        } else if tag == 1 {
            Ok(ReturnType::UInt)
        } else if tag == 2 {
            Ok(ReturnType::Long)
        } else if tag == 3 {
            Ok(ReturnType::ULong)
        } else if tag == 4 {
            Ok(ReturnType::Float)
        } else if tag == 5 {
            Ok(ReturnType::Double)
        } else if tag == 6 {
            Ok(ReturnType::String)
        } else if tag == 7 {
            Ok(ReturnType::Bool)
        } else if tag == 8 {
            Ok(ReturnType::Void)
        } else if tag == 9 {
            Ok(ReturnType::VecBytes)
        } else if tag == 10 {
            Ok(ReturnType::ByteChunks)
        } else {
            Err(WireError::ReturnType(tag))
        }
    }

    /// The type's tag on the wire.
    pub fn code(self) -> (tag: u8)
        ensures
            tag == self.tag(),
    {
        match self {
            ReturnType::Int => 0,
            ReturnType::UInt => 1,
            ReturnType::Long => 2,
            ReturnType::ULong => 3,
            ReturnType::Float => 4,
            ReturnType::Double => 5,
            ReturnType::String => 6,
            ReturnType::Bool => 7,
            ReturnType::Void => 8,
            ReturnType::VecBytes => 9,
            ReturnType::ByteChunks => 10,
        }
    }
}

impl TryFrom<u8> for ReturnType {
    type Error = WireError;

    fn try_from(tag: u8) -> (known: Result<ReturnType, WireError>) {
        match tag {
            0 => Ok(ReturnType::Int),
            1 => Ok(ReturnType::UInt),
            2 => Ok(ReturnType::Long),
            3 => Ok(ReturnType::ULong),
            4 => Ok(ReturnType::Float),
            5 => Ok(ReturnType::Double),
            6 => Ok(ReturnType::String),
            7 => Ok(ReturnType::Bool),
            8 => Ok(ReturnType::Void),
            9 => Ok(ReturnType::VecBytes),
            10 => Ok(ReturnType::ByteChunks),
            other => Err(WireError::ReturnType(other)),
        }
    }
}

impl vstd::std_specs::convert::TryFromSpecImpl<u8> for ReturnType {
    open spec fn obeys_try_from_spec() -> bool {
        true
    }

    open spec fn try_from_spec(tag: u8) -> Result<ReturnType, WireError> {
        ReturnType::of_tag(tag)
    }
}

/// A return type survives the wire.
pub proof fn law_return_type_round_trip(kind: ReturnType)
    ensures
        ReturnType::of_tag(kind.tag()) == Ok::<ReturnType, WireError>(kind),
{
}

impl ParameterValue {
    /// The type of the value.
    pub open spec fn kind(self) -> ParameterType {
        match self {
            ParameterValue::Int(_) => ParameterType::Int,
            ParameterValue::UInt(_) => ParameterType::UInt,
            ParameterValue::Long(_) => ParameterType::Long,
            ParameterValue::ULong(_) => ParameterType::ULong,
            ParameterValue::Float(_) => ParameterType::Float,
            ParameterValue::Double(_) => ParameterType::Double,
            ParameterValue::String(_) => ParameterType::String,
            ParameterValue::Bool(_) => ParameterType::Bool,
            ParameterValue::VecBytes(_) => ParameterType::VecBytes,
            ParameterValue::ByteChunks(_) => ParameterType::ByteChunks,
        }
    }
}

impl From<&ParameterValue> for ParameterType {
    fn from(value: &ParameterValue) -> (kind: ParameterType) {
        match value {
            ParameterValue::Int(_) => ParameterType::Int,
            ParameterValue::UInt(_) => ParameterType::UInt,
            ParameterValue::Long(_) => ParameterType::Long,
            ParameterValue::ULong(_) => ParameterType::ULong,
            ParameterValue::Float(_) => ParameterType::Float,
            ParameterValue::Double(_) => ParameterType::Double,
            ParameterValue::String(_) => ParameterType::String,
            ParameterValue::Bool(_) => ParameterType::Bool,
            ParameterValue::VecBytes(_) => ParameterType::VecBytes,
            ParameterValue::ByteChunks(_) => ParameterType::ByteChunks,
        }
    }
}

impl vstd::std_specs::convert::FromSpecImpl<&ParameterValue> for ParameterType {
    open spec fn obeys_from_spec() -> bool {
        true
    }

    open spec fn from_spec(value: &ParameterValue) -> ParameterType {
        value.kind()
    }
}

impl TryFrom<ParameterValue> for i32 {
    type Error = UnexpectedType;

    fn try_from(value: ParameterValue) -> (inner: Result<i32, UnexpectedType>) {
        match value {
            ParameterValue::Int(v) => Ok(v),
            _ => Err(UnexpectedType),
        }
    }
}

impl vstd::std_specs::convert::TryFromSpecImpl<ParameterValue> for i32 {
    open spec fn obeys_try_from_spec() -> bool {
        true
    }

    open spec fn try_from_spec(value: ParameterValue) -> Result<i32, UnexpectedType> {
        match value {
            ParameterValue::Int(v) => Ok(v),
            _ => Err(UnexpectedType),
        }
    }
}

impl TryFrom<ParameterValue> for u32 {
    type Error = UnexpectedType;

    fn try_from(value: ParameterValue) -> (inner: Result<u32, UnexpectedType>) {
        match value {
            ParameterValue::UInt(v) => Ok(v),
            _ => Err(UnexpectedType),
        }
    }
}

impl vstd::std_specs::convert::TryFromSpecImpl<ParameterValue> for u32 {
    open spec fn obeys_try_from_spec() -> bool {
        true
    }

    open spec fn try_from_spec(value: ParameterValue) -> Result<u32, UnexpectedType> {
        match value {
            ParameterValue::UInt(v) => Ok(v),
            _ => Err(UnexpectedType),
        }
    }
}

impl TryFrom<ParameterValue> for i64 {
    type Error = UnexpectedType;

    fn try_from(value: ParameterValue) -> (inner: Result<i64, UnexpectedType>) {
        match value {
            ParameterValue::Long(v) => Ok(v),
            _ => Err(UnexpectedType),
        }
    }
}

impl vstd::std_specs::convert::TryFromSpecImpl<ParameterValue> for i64 {
    open spec fn obeys_try_from_spec() -> bool {
        true
    }

    open spec fn try_from_spec(value: ParameterValue) -> Result<i64, UnexpectedType> {
        match value {
            ParameterValue::Long(v) => Ok(v),
            _ => Err(UnexpectedType),
        }
    }
}

impl TryFrom<ParameterValue> for u64 {
    type Error = UnexpectedType;

    fn try_from(value: ParameterValue) -> (inner: Result<u64, UnexpectedType>) {
        match value {
            ParameterValue::ULong(v) => Ok(v),
            _ => Err(UnexpectedType),
        }
    }
}

impl vstd::std_specs::convert::TryFromSpecImpl<ParameterValue> for u64 {
    open spec fn obeys_try_from_spec() -> bool {
        true
    }

    open spec fn try_from_spec(value: ParameterValue) -> Result<u64, UnexpectedType> {
        match value {
            ParameterValue::ULong(v) => Ok(v),
            _ => Err(UnexpectedType),
        }
    }
}

impl TryFrom<ParameterValue> for String {
    type Error = UnexpectedType;

    fn try_from(value: ParameterValue) -> (inner: Result<String, UnexpectedType>) {
        match value {
            ParameterValue::String(v) => Ok(v),
            _ => Err(UnexpectedType),
        }
    }
}

impl vstd::std_specs::convert::TryFromSpecImpl<ParameterValue> for String {
    open spec fn obeys_try_from_spec() -> bool {
        true
    }

    open spec fn try_from_spec(value: ParameterValue) -> Result<String, UnexpectedType> {
        match value {
            ParameterValue::String(v) => Ok(v),
            _ => Err(UnexpectedType),
        }
    }
}

impl TryFrom<ParameterValue> for bool {
    type Error = UnexpectedType;

    fn try_from(value: ParameterValue) -> (inner: Result<bool, UnexpectedType>) {
        match value {
            ParameterValue::Bool(v) => Ok(v),
            _ => Err(UnexpectedType),
        }
    }
}

impl vstd::std_specs::convert::TryFromSpecImpl<ParameterValue> for bool {
    open spec fn obeys_try_from_spec() -> bool {
        true
    }

    open spec fn try_from_spec(value: ParameterValue) -> Result<bool, UnexpectedType> {
        match value {
            ParameterValue::Bool(v) => Ok(v),
            _ => Err(UnexpectedType),
        }
    }
}

impl TryFrom<ParameterValue> for Vec<u8> {
    type Error = UnexpectedType;

    fn try_from(value: ParameterValue) -> (inner: Result<Vec<u8>, UnexpectedType>) {
        match value {
            ParameterValue::VecBytes(v) => Ok(v),
            _ => Err(UnexpectedType),
        }
    }
}

impl vstd::std_specs::convert::TryFromSpecImpl<ParameterValue> for Vec<u8> {
    open spec fn obeys_try_from_spec() -> bool {
        true
    }

    open spec fn try_from_spec(value: ParameterValue) -> Result<Vec<u8>, UnexpectedType> {
        match value {
            ParameterValue::VecBytes(v) => Ok(v),
            _ => Err(UnexpectedType),
        }
    }
}

impl TryFrom<ParameterValue> for Vec<Bytes> {
    type Error = UnexpectedType;

    fn try_from(value: ParameterValue) -> (inner: Result<Vec<Bytes>, UnexpectedType>) {
        match value {
            ParameterValue::ByteChunks(v) => Ok(v),
            _ => Err(UnexpectedType),
        }
    }
}

impl vstd::std_specs::convert::TryFromSpecImpl<ParameterValue> for Vec<Bytes> {
    open spec fn obeys_try_from_spec() -> bool {
        true
    }

    open spec fn try_from_spec(value: ParameterValue) -> Result<Vec<Bytes>, UnexpectedType> {
        match value {
            ParameterValue::ByteChunks(v) => Ok(v),
            _ => Err(UnexpectedType),
        }
    }
}

impl TryFrom<ReturnValue> for i32 {
    type Error = UnexpectedType;

    fn try_from(value: ReturnValue) -> (inner: Result<i32, UnexpectedType>) {
        match value {
            ReturnValue::Int(v) => Ok(v),
            _ => Err(UnexpectedType),
        }
    }
}

impl vstd::std_specs::convert::TryFromSpecImpl<ReturnValue> for i32 {
    open spec fn obeys_try_from_spec() -> bool {
        true
    }

    open spec fn try_from_spec(value: ReturnValue) -> Result<i32, UnexpectedType> {
        match value {
            ReturnValue::Int(v) => Ok(v),
            _ => Err(UnexpectedType),
        }
    }
}

impl TryFrom<ReturnValue> for u32 {
    type Error = UnexpectedType;

    fn try_from(value: ReturnValue) -> (inner: Result<u32, UnexpectedType>) {
        match value {
            ReturnValue::UInt(v) => Ok(v),
            _ => Err(UnexpectedType),
        }
    }
}

impl vstd::std_specs::convert::TryFromSpecImpl<ReturnValue> for u32 {
    open spec fn obeys_try_from_spec() -> bool {
        true
    }

    open spec fn try_from_spec(value: ReturnValue) -> Result<u32, UnexpectedType> {
        match value {
            ReturnValue::UInt(v) => Ok(v),
            _ => Err(UnexpectedType),
        }
    }
}

impl TryFrom<ReturnValue> for i64 {
    type Error = UnexpectedType;

    fn try_from(value: ReturnValue) -> (inner: Result<i64, UnexpectedType>) {
        match value {
            ReturnValue::Long(v) => Ok(v),
            _ => Err(UnexpectedType),
        }
    }
}

impl vstd::std_specs::convert::TryFromSpecImpl<ReturnValue> for i64 {
    open spec fn obeys_try_from_spec() -> bool {
        true
    }

    open spec fn try_from_spec(value: ReturnValue) -> Result<i64, UnexpectedType> {
        match value {
            ReturnValue::Long(v) => Ok(v),
            _ => Err(UnexpectedType),
        }
    }
}

impl TryFrom<ReturnValue> for u64 {
    type Error = UnexpectedType;

    fn try_from(value: ReturnValue) -> (inner: Result<u64, UnexpectedType>) {
        match value {
            ReturnValue::ULong(v) => Ok(v),
            _ => Err(UnexpectedType),
        }
    }
}

impl vstd::std_specs::convert::TryFromSpecImpl<ReturnValue> for u64 {
    open spec fn obeys_try_from_spec() -> bool {
        true
    }

    open spec fn try_from_spec(value: ReturnValue) -> Result<u64, UnexpectedType> {
        match value {
            ReturnValue::ULong(v) => Ok(v),
            _ => Err(UnexpectedType),
        }
    }
}

impl TryFrom<ReturnValue> for String {
    type Error = UnexpectedType;

    fn try_from(value: ReturnValue) -> (inner: Result<String, UnexpectedType>) {
        match value {
            ReturnValue::String(v) => Ok(v),
            _ => Err(UnexpectedType),
        }
    }
}

impl vstd::std_specs::convert::TryFromSpecImpl<ReturnValue> for String {
    open spec fn obeys_try_from_spec() -> bool {
        true
    }

    open spec fn try_from_spec(value: ReturnValue) -> Result<String, UnexpectedType> {
        match value {
            ReturnValue::String(v) => Ok(v),
            _ => Err(UnexpectedType),
        }
    }
}

impl TryFrom<ReturnValue> for bool {
    type Error = UnexpectedType;

    fn try_from(value: ReturnValue) -> (inner: Result<bool, UnexpectedType>) {
        match value {
            ReturnValue::Bool(v) => Ok(v),
            _ => Err(UnexpectedType),
        }
    }
}

impl vstd::std_specs::convert::TryFromSpecImpl<ReturnValue> for bool {
    open spec fn obeys_try_from_spec() -> bool {
        true
    }

    open spec fn try_from_spec(value: ReturnValue) -> Result<bool, UnexpectedType> {
        match value {
            ReturnValue::Bool(v) => Ok(v),
            _ => Err(UnexpectedType),
        }
    }
}

impl TryFrom<ReturnValue> for Vec<u8> {
    type Error = UnexpectedType;

    fn try_from(value: ReturnValue) -> (inner: Result<Vec<u8>, UnexpectedType>) {
        match value {
            ReturnValue::VecBytes(v) => Ok(v),
            _ => Err(UnexpectedType),
        }
    }
}

impl vstd::std_specs::convert::TryFromSpecImpl<ReturnValue> for Vec<u8> {
    open spec fn obeys_try_from_spec() -> bool {
        true
    }

    open spec fn try_from_spec(value: ReturnValue) -> Result<Vec<u8>, UnexpectedType> {
        match value {
            ReturnValue::VecBytes(v) => Ok(v),
            _ => Err(UnexpectedType),
        }
    }
}

impl TryFrom<ReturnValue> for Vec<Bytes> {
    type Error = UnexpectedType;

    fn try_from(value: ReturnValue) -> (inner: Result<Vec<Bytes>, UnexpectedType>) {
        match value {
            ReturnValue::ByteChunks(v) => Ok(v),
            _ => Err(UnexpectedType),
        }
    }
}

impl vstd::std_specs::convert::TryFromSpecImpl<ReturnValue> for Vec<Bytes> {
    open spec fn obeys_try_from_spec() -> bool {
        true
    }

    open spec fn try_from_spec(value: ReturnValue) -> Result<Vec<Bytes>, UnexpectedType> {
        match value {
            ReturnValue::ByteChunks(v) => Ok(v),
            _ => Err(UnexpectedType),
        }
    }
}

impl TryFrom<ReturnValue> for () {
    type Error = UnexpectedType;

    fn try_from(value: ReturnValue) -> (inner: Result<(), UnexpectedType>) {
        match value {
            ReturnValue::Void => Ok(()),
            _ => Err(UnexpectedType),
        }
    }
}

impl vstd::std_specs::convert::TryFromSpecImpl<ReturnValue> for () {
    open spec fn obeys_try_from_spec() -> bool {
        true
    }

    open spec fn try_from_spec(value: ReturnValue) -> Result<(), UnexpectedType> {
        match value {
            ReturnValue::Void => Ok(()),
            _ => Err(UnexpectedType),
        }
    }
}

/// A Rust value that is wrapped as a parameter of its own type comes back unchanged.
pub proof fn law_parameter_value_gives_back_what_it_wraps(
    integer: i32,
    uint: u32,
    long: i64,
    ulong: u64,
    string: String,
    flag: bool,
    bytes: Vec<u8>,
    chunks: Vec<Bytes>,
)
    ensures
        <i32 as vstd::std_specs::convert::TryFromSpec<ParameterValue>>::try_from_spec(
            ParameterValue::Int(integer),
        ) == Ok::<i32, UnexpectedType>(integer),
        <u32 as vstd::std_specs::convert::TryFromSpec<ParameterValue>>::try_from_spec(
            ParameterValue::UInt(uint),
        ) == Ok::<u32, UnexpectedType>(uint),
        <i64 as vstd::std_specs::convert::TryFromSpec<ParameterValue>>::try_from_spec(
            ParameterValue::Long(long),
        ) == Ok::<i64, UnexpectedType>(long),
        <u64 as vstd::std_specs::convert::TryFromSpec<ParameterValue>>::try_from_spec(
            ParameterValue::ULong(ulong),
        ) == Ok::<u64, UnexpectedType>(ulong),
        <String as vstd::std_specs::convert::TryFromSpec<ParameterValue>>::try_from_spec(
            ParameterValue::String(string),
        ) == Ok::<String, UnexpectedType>(string),
        <bool as vstd::std_specs::convert::TryFromSpec<ParameterValue>>::try_from_spec(
            ParameterValue::Bool(flag),
        ) == Ok::<bool, UnexpectedType>(flag),
        <Vec<u8> as vstd::std_specs::convert::TryFromSpec<ParameterValue>>::try_from_spec(
            ParameterValue::VecBytes(bytes),
        ) == Ok::<Vec<u8>, UnexpectedType>(bytes),
        <Vec<Bytes> as vstd::std_specs::convert::TryFromSpec<ParameterValue>>::try_from_spec(
            ParameterValue::ByteChunks(chunks),
        ) == Ok::<Vec<Bytes>, UnexpectedType>(chunks),
{
}

/// A parameter is read as a Rust type exactly when it is a value of that type, and what is read
/// is what it holds.
pub proof fn law_parameter_value_is_read_as_its_own_type_only(value: ParameterValue)
    ensures
        match <i32 as vstd::std_specs::convert::TryFromSpec<ParameterValue>>::try_from_spec(value) {
            Ok(inner) => value == ParameterValue::Int(inner),
            Err(_) => value !is Int,
        },
        match <u32 as vstd::std_specs::convert::TryFromSpec<ParameterValue>>::try_from_spec(value) {
            Ok(inner) => value == ParameterValue::UInt(inner),
            Err(_) => value !is UInt,
        },
        match <i64 as vstd::std_specs::convert::TryFromSpec<ParameterValue>>::try_from_spec(value) {
            Ok(inner) => value == ParameterValue::Long(inner),
            Err(_) => value !is Long,
        },
        match <u64 as vstd::std_specs::convert::TryFromSpec<ParameterValue>>::try_from_spec(value) {
            Ok(inner) => value == ParameterValue::ULong(inner),
            Err(_) => value !is ULong,
        },
        match <String as vstd::std_specs::convert::TryFromSpec<ParameterValue>>::try_from_spec(value) {
            Ok(inner) => value == ParameterValue::String(inner),
            Err(_) => value !is String,
        },
        match <bool as vstd::std_specs::convert::TryFromSpec<ParameterValue>>::try_from_spec(value) {
            Ok(inner) => value == ParameterValue::Bool(inner),
            Err(_) => value !is Bool,
        },
        match <Vec<u8> as vstd::std_specs::convert::TryFromSpec<ParameterValue>>::try_from_spec(value) {
            Ok(inner) => value == ParameterValue::VecBytes(inner),
            Err(_) => value !is VecBytes,
        },
        match <Vec<Bytes> as vstd::std_specs::convert::TryFromSpec<ParameterValue>>::try_from_spec(value) {
            Ok(inner) => value == ParameterValue::ByteChunks(inner),
            Err(_) => value !is ByteChunks,
        },
{
}

/// A Rust value that is wrapped as a result of its own type comes back unchanged.
pub proof fn law_return_value_gives_back_what_it_wraps(
    integer: i32,
    uint: u32,
    long: i64,
    ulong: u64,
    string: String,
    flag: bool,
    bytes: Vec<u8>,
    chunks: Vec<Bytes>,
)
    ensures
        <i32 as vstd::std_specs::convert::TryFromSpec<ReturnValue>>::try_from_spec(
            ReturnValue::Int(integer),
        ) == Ok::<i32, UnexpectedType>(integer),
        <u32 as vstd::std_specs::convert::TryFromSpec<ReturnValue>>::try_from_spec(
            ReturnValue::UInt(uint),
        ) == Ok::<u32, UnexpectedType>(uint),
        <i64 as vstd::std_specs::convert::TryFromSpec<ReturnValue>>::try_from_spec(
            ReturnValue::Long(long),
        ) == Ok::<i64, UnexpectedType>(long),
        <u64 as vstd::std_specs::convert::TryFromSpec<ReturnValue>>::try_from_spec(
            ReturnValue::ULong(ulong),
        ) == Ok::<u64, UnexpectedType>(ulong),
        <String as vstd::std_specs::convert::TryFromSpec<ReturnValue>>::try_from_spec(
            ReturnValue::String(string),
        ) == Ok::<String, UnexpectedType>(string),
        <bool as vstd::std_specs::convert::TryFromSpec<ReturnValue>>::try_from_spec(
            ReturnValue::Bool(flag),
        ) == Ok::<bool, UnexpectedType>(flag),
        <Vec<u8> as vstd::std_specs::convert::TryFromSpec<ReturnValue>>::try_from_spec(
            ReturnValue::VecBytes(bytes),
        ) == Ok::<Vec<u8>, UnexpectedType>(bytes),
        <Vec<Bytes> as vstd::std_specs::convert::TryFromSpec<ReturnValue>>::try_from_spec(
            ReturnValue::ByteChunks(chunks),
        ) == Ok::<Vec<Bytes>, UnexpectedType>(chunks),
        <() as vstd::std_specs::convert::TryFromSpec<ReturnValue>>::try_from_spec(ReturnValue::Void) == Ok::<(), UnexpectedType>(()),
{
}

/// A result is read as a Rust type exactly when it is a value of that type, and what is read
/// is what it holds.
pub proof fn law_return_value_is_read_as_its_own_type_only(value: ReturnValue)
    ensures
        match <i32 as vstd::std_specs::convert::TryFromSpec<ReturnValue>>::try_from_spec(value) {
            Ok(inner) => value == ReturnValue::Int(inner),
            Err(_) => value !is Int,
        },
        match <u32 as vstd::std_specs::convert::TryFromSpec<ReturnValue>>::try_from_spec(value) {
            Ok(inner) => value == ReturnValue::UInt(inner),
            Err(_) => value !is UInt,
        },
        match <i64 as vstd::std_specs::convert::TryFromSpec<ReturnValue>>::try_from_spec(value) {
            Ok(inner) => value == ReturnValue::Long(inner),
            Err(_) => value !is Long,
        },
        match <u64 as vstd::std_specs::convert::TryFromSpec<ReturnValue>>::try_from_spec(value) {
            Ok(inner) => value == ReturnValue::ULong(inner),
            Err(_) => value !is ULong,
        },
        match <String as vstd::std_specs::convert::TryFromSpec<ReturnValue>>::try_from_spec(value) {
            Ok(inner) => value == ReturnValue::String(inner),
            Err(_) => value !is String,
        },
        match <bool as vstd::std_specs::convert::TryFromSpec<ReturnValue>>::try_from_spec(value) {
            Ok(inner) => value == ReturnValue::Bool(inner),
            Err(_) => value !is Bool,
        },
        match <Vec<u8> as vstd::std_specs::convert::TryFromSpec<ReturnValue>>::try_from_spec(value) {
            Ok(inner) => value == ReturnValue::VecBytes(inner),
            Err(_) => value !is VecBytes,
        },
        match <Vec<Bytes> as vstd::std_specs::convert::TryFromSpec<ReturnValue>>::try_from_spec(value) {
            Ok(inner) => value == ReturnValue::ByteChunks(inner),
            Err(_) => value !is ByteChunks,
        },
        <() as vstd::std_specs::convert::TryFromSpec<ReturnValue>>::try_from_spec(value) is Ok <==> value is Void,
{
}

/// The type of a parameter tells which Rust type it can be read as.
pub proof fn law_parameter_kind_tells_what_it_is_read_as(value: ParameterValue)
    ensures
        <i32 as vstd::std_specs::convert::TryFromSpec<ParameterValue>>::try_from_spec(value) is Ok <==> value.kind() == ParameterType::Int,
        <u32 as vstd::std_specs::convert::TryFromSpec<ParameterValue>>::try_from_spec(value) is Ok <==> value.kind() == ParameterType::UInt,
        <i64 as vstd::std_specs::convert::TryFromSpec<ParameterValue>>::try_from_spec(value) is Ok <==> value.kind() == ParameterType::Long,
        <u64 as vstd::std_specs::convert::TryFromSpec<ParameterValue>>::try_from_spec(value) is Ok <==> value.kind() == ParameterType::ULong,
        <String as vstd::std_specs::convert::TryFromSpec<ParameterValue>>::try_from_spec(value) is Ok <==> value.kind() == ParameterType::String,
        <bool as vstd::std_specs::convert::TryFromSpec<ParameterValue>>::try_from_spec(value) is Ok <==> value.kind() == ParameterType::Bool,
        <Vec<u8> as vstd::std_specs::convert::TryFromSpec<ParameterValue>>::try_from_spec(value) is Ok <==> value.kind() == ParameterType::VecBytes,
        <Vec<Bytes> as vstd::std_specs::convert::TryFromSpec<ParameterValue>>::try_from_spec(value) is Ok <==> value.kind() == ParameterType::ByteChunks,
        value is Float <==> value.kind() == ParameterType::Float,
        value is Double <==> value.kind() == ParameterType::Double,
{
}

/// The type of a parameter is the one named as its variant.
pub proof fn law_parameter_kind_is_named_as_the_value(value: ParameterValue)
    ensures
        value is Int ==> <ParameterType as vstd::std_specs::convert::FromSpec<
            &ParameterValue,
        >>::from_spec(&value) == ParameterType::Int,
        value is UInt ==> <ParameterType as vstd::std_specs::convert::FromSpec<
            &ParameterValue,
        >>::from_spec(&value) == ParameterType::UInt,
        value is Long ==> <ParameterType as vstd::std_specs::convert::FromSpec<
            &ParameterValue,
        >>::from_spec(&value) == ParameterType::Long,
        value is ULong ==> <ParameterType as vstd::std_specs::convert::FromSpec<
            &ParameterValue,
        >>::from_spec(&value) == ParameterType::ULong,
        value is Float ==> <ParameterType as vstd::std_specs::convert::FromSpec<
            &ParameterValue,
        >>::from_spec(&value) == ParameterType::Float,
        value is Double ==> <ParameterType as vstd::std_specs::convert::FromSpec<
            &ParameterValue,
        >>::from_spec(&value) == ParameterType::Double,
        value is String ==> <ParameterType as vstd::std_specs::convert::FromSpec<
            &ParameterValue,
        >>::from_spec(&value) == ParameterType::String,
        value is Bool ==> <ParameterType as vstd::std_specs::convert::FromSpec<
            &ParameterValue,
        >>::from_spec(&value) == ParameterType::Bool,
        value is VecBytes ==> <ParameterType as vstd::std_specs::convert::FromSpec<
            &ParameterValue,
        >>::from_spec(&value) == ParameterType::VecBytes,
        value is ByteChunks ==> <ParameterType as vstd::std_specs::convert::FromSpec<
            &ParameterValue,
        >>::from_spec(&value) == ParameterType::ByteChunks,
{
}

} // verus!
