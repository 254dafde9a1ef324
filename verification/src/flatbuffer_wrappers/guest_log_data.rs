//! Log records that a guest sends to its host.

use vstd::prelude::*;

use super::builder;
use super::builder::FlatBuilder;
use super::builder::FlatField;
use super::builder::FlatObject;
use super::builder::FlatState;
use super::reader;
use super::wire;

verus! {

/// Severity of a log record.
#[derive(Debug, Clone, Copy, PartialEq, Eq, Structural)]
pub enum LogLevel {
    Trace,
    Debug,
    Information,
    Warning,
    Error,
    Critical,
    Off,
}

impl LogLevel {
    /// The level's value on the wire.
    pub open spec fn wire(self) -> u8 {
        match self {
            LogLevel::Trace => 0,
            LogLevel::Debug => 1,
            LogLevel::Information => 2,
            LogLevel::Warning => 3,
            LogLevel::Error => 4,
            LogLevel::Critical => 5,
            LogLevel::Off => 6,
        }
    }

    /// The level's value on the wire.
    pub fn code(self) -> (value: u8)
        ensures
            value == self.wire(),
    {
        match self {
            LogLevel::Trace => 0,
            LogLevel::Debug => 1,
            LogLevel::Information => 2,
            LogLevel::Warning => 3,
            LogLevel::Error => 4,
            LogLevel::Critical => 5,
            LogLevel::Off => 6,
        }
    }
}

/// One log record.
#[derive(Debug, Clone, PartialEq, Eq)]
pub struct GuestLogData {
    pub message: String,
    pub source: String,
    pub level: LogLevel,
    pub caller: String,
    pub source_file: String,
    pub line: u32,
}

/// What the table of a log record holds.
#[verifier::ext_equal]
pub struct LogWire {
    pub message: Seq<char>,
    pub source: Seq<char>,
    pub level: u8,
    pub caller: Seq<char>,
    pub source_file: Seq<char>,
    pub line: u32,
}

/// The log record of a size-prefixed buffer.
pub open spec fn log_at(buf: Seq<u8>) -> Option<LogWire> {
    match reader::target_at(buf, 4) {
        None => None,
        Some(table) => match (
            wire::slot_text_or_empty(buf, table, 4),
            wire::slot_text_or_empty(buf, table, 6),
            wire::slot_u8(buf, table, 8),
            wire::slot_text_or_empty(buf, table, 10),
            wire::slot_text_or_empty(buf, table, 12),
            wire::slot_u32(buf, table, 14),
        ) {
            (
                Some(message),
                Some(source),
                Some(level),
                Some(caller),
                Some(source_file),
                Some(line),
            ) => Some(LogWire { message, source, level, caller, source_file, line }),
            _ => None,
        },
    }
}

/// The table of a log record was written.
spec fn log_written(objects: Map<nat, FlatObject>, off: nat, log: LogWire) -> bool {
    &&& objects.contains_key(off)
    &&& objects[off] matches FlatObject::Table(fields)
    &&& fields.contains_key(4)
    &&& wire::text_written(objects, fields[4], log.message)
    &&& fields.contains_key(6)
    &&& wire::text_written(objects, fields[6], log.source)
    &&& wire::slot_holds(fields, 8, log.level != 0, FlatField::Byte(log.level))
    &&& fields.contains_key(10)
    &&& wire::text_written(objects, fields[10], log.caller)
    &&& fields.contains_key(12)
    &&& wire::text_written(objects, fields[12], log.source_file)
    &&& wire::slot_holds(fields, 14, log.line != 0, FlatField::Word(log.line))
}

/// A string slot reads back from the finished buffer.
proof fn lemma_text_slot_reads(
    bytes: Seq<u8>,
    state: FlatState,
    off: nat,
    slot: u16,
    text: Seq<char>,
)
    requires
        builder::reads_back(bytes, state),
        bytes.len() <= usize::MAX,
        state.objects.contains_key(off),
        state.objects[off] is Table,
        state.objects[off]->Table_0.contains_key(slot),
        wire::text_written(state.objects, state.objects[off]->Table_0[slot], text),
    ensures
        off <= bytes.len(),
        wire::slot_text_or_empty(bytes, (bytes.len() - off) as usize, slot) == Some(text),
{
    let pos = bytes.len() - off;
    let fields = state.objects[off]->Table_0;
    assert(builder::object_reads(bytes, pos, FlatObject::Table(fields)));
    assert(builder::table_slot_reads(bytes, pos, slot, fields));
    let inner = fields[slot]->Ref_0;
    assert(state.objects.contains_key(inner));
    assert(builder::object_reads(bytes, bytes.len() - inner, FlatObject::Text(text)));
}

proof fn lemma_log_reads(bytes: Seq<u8>, state: FlatState, off: nat, log: LogWire)
    requires
        builder::reads_back(bytes, state),
        bytes.len() <= usize::MAX,
        state.root == Some(off),
        log_written(state.objects, off, log),
    ensures
        log_at(bytes) == Some(log),
{
    let pos = bytes.len() - off;
    let fields = state.objects[off]->Table_0;
    assert(state.objects.contains_key(off));
    lemma_text_slot_reads(bytes, state, off, 4, log.message);
    lemma_text_slot_reads(bytes, state, off, 6, log.source);
    lemma_text_slot_reads(bytes, state, off, 10, log.caller);
    lemma_text_slot_reads(bytes, state, off, 12, log.source_file);
    assert(builder::object_reads(bytes, pos, FlatObject::Table(fields)));
    assert(fields.contains_key(8) || !fields.contains_key(8));
    assert(builder::table_slot_reads(bytes, pos, 8, fields));
    assert(fields.contains_key(14) || !fields.contains_key(14));
    assert(builder::table_slot_reads(bytes, pos, 14, fields));
}

impl GuestLogData {
    /// What the record's table holds.
    pub open spec fn to_wire(&self) -> LogWire {
        LogWire {
            message: self.message@,
            source: self.source@,
            level: self.level.wire(),
            caller: self.caller@,
            source_file: self.source_file@,
            line: self.line,
        }
    }

    /// The bytes that the record's buffer takes at most.
    pub open spec fn flat_cost(&self) -> nat {
        vstd::utf8::encode_utf8(self.message@).len() + vstd::utf8::encode_utf8(
            self.source@,
        ).len() + vstd::utf8::encode_utf8(self.caller@).len() + vstd::utf8::encode_utf8(
            self.source_file@,
        ).len() + 160
    }

    /// Whether an empty builder has room for the record.
    pub fn fits(&self) -> (fits: bool)
        ensures
            fits <==> self.flat_cost() <= builder::FLAT_LIMIT,
    {
        let left: usize = match wire::without_text(
            builder::FLAT_LIMIT,
            self.message.as_str(),
            160,
        ) {
            Some(left) => left,
            None => return false,
        };
        let left: usize = match wire::without_text(left, self.source.as_str(), 0) {
            Some(left) => left,
            None => return false,
        };
        let left: usize = match wire::without_text(left, self.caller.as_str(), 0) {
            Some(left) => left,
            None => return false,
        };
        wire::without_text(left, self.source_file.as_str(), 0).is_some()
    }

    pub fn new(
        message: String,
        source: String,
        level: LogLevel,
        caller: String,
        source_file: String,
        line: u32,
    ) -> (log: Self)
        ensures
            log.message == message,
            log.source == source,
            log.level == level,
            log.caller == caller,
            log.source_file == source_file,
            log.line == line,
    {
        GuestLogData { message, source, level, caller, source_file, line }
    }

    /// Encode the record.
    pub fn encode<'b>(&self, builder: &'b mut FlatBuilder) -> (bytes: &'b [u8])
        requires
            builder::flat_state(*old(builder)).idle(self.flat_cost()),
            builder::flat_state(*old(builder)).bounded(),
        ensures
            log_at(bytes@) == Some(self.to_wire()),
            builder::size_prefixed(bytes@),
            bytes@.len() <= builder::flat_state(*old(builder)).used + self.flat_cost(),
    {
        let message: u32 = builder.create_string(self.message.as_str());
        let source: u32 = builder.create_string(self.source.as_str());
        let caller: u32 = builder.create_string(self.caller.as_str());
        let source_file: u32 = builder.create_string(self.source_file.as_str());
        let start: u32 = builder.start_table();
        builder.push_slot_u32(14, self.line);
        builder.push_slot_ref(12, source_file);
        builder.push_slot_ref(10, caller);
        builder.push_slot_ref(6, source);
        builder.push_slot_ref(4, message);
        builder.push_slot_u8(8, self.level.code());
        let log: u32 = builder.end_table(start);
        proof {
            assert(log_written(
                builder::flat_state(*builder).objects,
                log as nat,
                self.to_wire(),
            ));
        }
        builder.finish_size_prefixed(log);
        let bytes = builder.finished_data();
        proof {
            lemma_log_reads(bytes@, builder::flat_state(*builder), log as nat, self.to_wire());
        }
        bytes
    }
}

} // verus!
