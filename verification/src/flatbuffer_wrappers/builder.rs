//! `flatbuffers::FlatBufferBuilder`: writing a FlatBuffer.

use flatbuffers::FlatBufferBuilder;
use flatbuffers::WIPOffset;
use vstd::prelude::*;

use super::reader;
use crate::le;

verus! {

/// What a slot of a table holds.
pub enum FlatField {
    /// One byte.
    Byte(u8),
    /// Four bytes.
    Word(u32),
    /// Eight bytes.
    Long(u64),
    /// The object written at this offset from the end of the buffer.
    Ref(nat),
}

/// An object in the buffer.
pub enum FlatObject {
    /// A string.
    Text(Seq<char>),
    /// A table: the slots that are stored.
    Table(Map<u16, FlatField>),
    /// A vector of objects, by their offsets from the end of the buffer.
    Objects(Seq<nat>),
}

/// A table under construction.
pub struct OpenTable {
    /// What `start_table` returned.
    pub start: u32,
    /// The slots that are stored.
    pub fields: Map<u16, FlatField>,
}

/// What a builder has written.
#[verifier::ext_equal]
pub struct FlatState {
    /// The objects by their offsets from the end of the buffer.
    pub objects: Map<nat, FlatObject>,
    /// The table that was started and not ended.
    pub open: Option<OpenTable>,
    /// The root object, once the buffer is finished.
    pub root: Option<nat>,
    /// The bytes written.
    pub used: nat,
}

/// The largest buffer whose offsets the format can express, one byte short of two
/// gigabytes.
pub const FLAT_LIMIT: usize = 0x7fff_ffff;

impl FlatState {
    pub open spec fn empty() -> FlatState {
        FlatState { objects: Map::empty(), open: None, root: None, used: 0 }
    }

    /// An object of at most `cost` bytes can be created: no table is open, the buffer is
    /// not finished and has room.
    pub open spec fn idle(self, cost: nat) -> bool {
        self.open is None && self.root is None && self.used + cost <= FLAT_LIMIT
    }

    /// Offsets lie within what was written.
    pub open spec fn bounded(self) -> bool {
        forall|off: nat| #[trigger] self.objects.contains_key(off) ==> off <= self.used
    }

    /// An object of at most `cost` bytes was added, and nothing else changed.
    pub open spec fn added(self, next: FlatState, off: nat, object: FlatObject, cost: nat) -> bool {
        &&& self.used < off <= next.used <= self.used + cost
        &&& next.open is None
        &&& next.root == self.root
        &&& next.objects == self.objects.insert(off, object)
    }

    /// A slot of the open table can be pushed.
    pub open spec fn pushable(self, slot: u16) -> bool {
        &&& self.open matches Some(table)
        &&& !table.fields.contains_key(slot)
        &&& 4 <= slot < 16
        &&& slot % 2 == 0
        &&& self.used + 16 <= FLAT_LIMIT
    }

    /// A slot of the open table was pushed, and stored unless it holds its default.
    pub open spec fn pushed(
        self,
        next: FlatState,
        slot: u16,
        stored: bool,
        field: FlatField,
        cost: nat,
    ) -> bool {
        &&& self.used <= next.used <= self.used + cost
        &&& next.root == self.root
        &&& next.objects == self.objects
        &&& next.open == Some(
            OpenTable {
                start: self.open->0.start,
                fields: if stored {
                    self.open->0.fields.insert(slot, field)
                } else {
                    self.open->0.fields
                },
            },
        )
    }
}

/// A field of a finished buffer holds a value.
pub open spec fn field_reads(bytes: Seq<u8>, pos: int, field: FlatField) -> bool {
    match field {
        FlatField::Byte(x) => reader::u8_at(bytes, pos) == Some(x),
        FlatField::Word(x) => reader::u32_at(bytes, pos) == Some(x),
        FlatField::Long(x) => reader::u64_at(bytes, pos) == Some(x),
        FlatField::Ref(off) => reader::target_at(bytes, pos) == Some((bytes.len() - off) as usize),
    }
}

/// An object stands at a position of a finished buffer. The list of a table's slots ends with
/// the last one that is stored.
pub open spec fn object_reads(bytes: Seq<u8>, pos: int, object: FlatObject) -> bool {
    match object {
        FlatObject::Text(s) => reader::text_at(bytes, pos) == Some(s),
        FlatObject::Table(fields) => {
            &&& reader::slots_size(bytes, pos) matches Some(size) && size <= 16
            &&& forall|slot: u16| #[trigger]
                fields.contains_key(slot) || (4 <= slot && slot % 2 == 0) ==> table_slot_reads(
                    bytes,
                    pos,
                    slot,
                    fields,
                )
        },
        FlatObject::Objects(offs) => {
            &&& reader::u32_at(bytes, pos) == Some(offs.len() as u32)
            &&& offs.len() <= u32::MAX
            &&& forall|i: int|
                0 <= i < offs.len() ==> reader::target_at(bytes, #[trigger] reader::element_pos(pos, i))
                    == Some((bytes.len() - offs[i]) as usize)
        },
    }
}

/// A slot of a table holds what was pushed, or is absent.
pub open spec fn table_slot_reads(
    bytes: Seq<u8>,
    pos: int,
    slot: u16,
    fields: Map<u16, FlatField>,
) -> bool {
    if fields.contains_key(slot) {
        &&& reader::table_field(bytes, pos as usize, slot) matches Some(Some(p))
        &&& field_reads(bytes, p as int, fields[slot])
    } else {
        reader::table_field(bytes, pos as usize, slot) == Some(None::<usize>)
    }
}

/// A buffer starts with the length of what follows.
pub open spec fn size_prefixed(bytes: Seq<u8>) -> bool {
    4 <= bytes.len() && bytes.len() == 4 + le::le32(bytes.take(4))
}

/// Every object of a finished buffer can be read back, and the root is found at its start.
pub open spec fn reads_back(bytes: Seq<u8>, state: FlatState) -> bool {
    &&& size_prefixed(bytes)
    &&& reader::target_at(bytes, 4) == Some((bytes.len() - state.root->0) as usize)
    &&& forall|off: nat| #[trigger]
        state.objects.contains_key(off) ==> off <= bytes.len() && object_reads(
            bytes,
            bytes.len() - off,
            state.objects[off],
        )
}

/// A FlatBuffer under construction.
#[verifier::external_body]
pub struct FlatBuilder {
    inner: FlatBufferBuilder<'static>,
}

/// What a builder has written.
pub uninterp spec fn flat_state(builder: FlatBuilder) -> FlatState;

impl FlatBuilder {
    /// An empty builder.
    pub fn new() -> (builder: FlatBuilder)
        ensures
            flat_state(builder) == FlatState::empty(),
    {
        FlatBuilder::create()
    }

    /// `FlatBufferBuilder::new`: nothing is written.
    #[verifier::external_body]
    fn create() -> (builder: FlatBuilder)
        ensures
            flat_state(builder) == FlatState::empty(),
    {
        FlatBuilder { inner: FlatBufferBuilder::new() }
    }

    /// `FlatBufferBuilder::create_string`: writes a string and returns its offset from the
    /// end of the buffer. Panics past two gigabytes and inside a table.
    #[verifier::external_body]
    pub(crate) fn create_string(&mut self, s: &str) -> (off: u32)
        requires
            flat_state(*old(self)).idle(vstd::utf8::encode_utf8(s@).len() + 12),
        ensures
            flat_state(*old(self)).added(
                flat_state(*final(self)),
                off as nat,
                FlatObject::Text(s@),
                vstd::utf8::encode_utf8(s@).len() + 12,
            ),
    {
        self.inner.create_string(s).value()
    }

    /// `FlatBufferBuilder::start_table`: opens a table. Panics while another is open.
    #[verifier::external_body]
    pub(crate) fn start_table(&mut self) -> (start: u32)
        requires
            flat_state(*old(self)).idle(0),
        ensures
            flat_state(*final(self)) == (FlatState {
                open: Some(OpenTable { start, fields: Map::empty() }),
                ..flat_state(*old(self))
            }),
    {
        self.inner.start_table().value()
    }

    /// `FlatBufferBuilder::push_slot` of a byte whose default is zero: stored unless zero.
    #[verifier::external_body]
    pub(crate) fn push_slot_u8(&mut self, slot: u16, x: u8)
        requires
            flat_state(*old(self)).pushable(slot),
        ensures
            flat_state(*old(self)).pushed(
                flat_state(*final(self)),
                slot,
                x != 0,
                FlatField::Byte(x),
                1,
            ),
    {
        self.inner.push_slot::<u8>(slot, x, 0)
    }

    /// `FlatBufferBuilder::push_slot` of four bytes whose default is zero: stored unless
    /// zero.
    #[verifier::external_body]
    pub(crate) fn push_slot_u32(&mut self, slot: u16, x: u32)
        requires
            flat_state(*old(self)).pushable(slot),
        ensures
            flat_state(*old(self)).pushed(
                flat_state(*final(self)),
                slot,
                x != 0,
                FlatField::Word(x),
                7,
            ),
    {
        self.inner.push_slot::<u32>(slot, x, 0)
    }

    /// `FlatBufferBuilder::push_slot` of eight bytes whose default is zero: stored unless
    /// zero.
    #[verifier::external_body]
    pub(crate) fn push_slot_u64(&mut self, slot: u16, x: u64)
        requires
            flat_state(*old(self)).pushable(slot),
        ensures
            flat_state(*old(self)).pushed(
                flat_state(*final(self)),
                slot,
                x != 0,
                FlatField::Long(x),
                15,
            ),
    {
        self.inner.push_slot::<u64>(slot, x, 0)
    }

    /// `FlatBufferBuilder::push_slot_always` of a reference to an object written before.
    #[verifier::external_body]
    pub(crate) fn push_slot_ref(&mut self, slot: u16, off: u32)
        requires
            flat_state(*old(self)).pushable(slot),
            flat_state(*old(self)).objects.contains_key(off as nat),
        ensures
            flat_state(*old(self)).pushed(
                flat_state(*final(self)),
                slot,
                true,
                FlatField::Ref(off as nat),
                7,
            ),
    {
        self.inner.push_slot_always::<WIPOffset<()>>(slot, WIPOffset::new(off))
    }

    /// `FlatBufferBuilder::end_table`: writes the open table and returns its offset from
    /// the end of the buffer.
    #[verifier::external_body]
    pub(crate) fn end_table(&mut self, start: u32) -> (off: u32)
        requires
            flat_state(*old(self)).open is Some,
            flat_state(*old(self)).open->0.start == start,
            flat_state(*old(self)).used + 24 <= FLAT_LIMIT,
        ensures
            flat_state(*old(self)).added(
                flat_state(*final(self)),
                off as nat,
                FlatObject::Table(flat_state(*old(self)).open->0.fields),
                24,
            ),
    {
        self.inner.end_table(WIPOffset::new(start)).value()
    }

    /// `FlatBufferBuilder::create_vector` of references to objects written before. Panics
    /// past two gigabytes and inside a table.
    #[verifier::external_body]
    pub(crate) fn create_vector(&mut self, items: &[u32]) -> (off: u32)
        requires
            flat_state(*old(self)).idle(4 * items@.len() + 12),
            forall|i: int|
                0 <= i < items@.len() ==> flat_state(*old(self)).objects.contains_key(
                    #[trigger] items@[i] as nat,
                ),
        ensures
            flat_state(*old(self)).added(
                flat_state(*final(self)),
                off as nat,
                FlatObject::Objects(items@.map_values(|o: u32| o as nat)),
                4 * items@.len() + 12,
            ),
    {
        let refs: Vec<WIPOffset<()>> = items.iter().map(|o| WIPOffset::new(*o)).collect();
        self.inner.create_vector(&refs).value()
    }

    /// `FlatBufferBuilder::finish_size_prefixed`: writes the root offset and the size.
    /// Panics while a table is open and once finished.
    #[verifier::external_body]
    pub(crate) fn finish_size_prefixed(&mut self, root: u32)
        requires
            flat_state(*old(self)).idle(24),
            flat_state(*old(self)).objects.contains_key(root as nat),
        ensures
            flat_state(*final(self)).root == Some(root as nat),
            flat_state(*final(self)).open is None,
            flat_state(*final(self)).objects == flat_state(*old(self)).objects,
            flat_state(*old(self)).used < flat_state(*final(self)).used <= flat_state(*old(self)).used
                + 24,
    {
        self.inner.finish_size_prefixed(WIPOffset::<()>::new(root), None)
    }

    /// `FlatBufferBuilder::finished_data`: the finished buffer. It reads as it was written:
    /// the root offset follows the size, and every object stands where its offset says.
    #[verifier::external_body]
    pub(crate) fn finished_data(&self) -> (bytes: &[u8])
        requires
            flat_state(*self).root is Some,
            flat_state(*self).used <= FLAT_LIMIT,
        ensures
            bytes@.len() == flat_state(*self).used,
            reads_back(bytes@, flat_state(*self)),
    {
        self.inner.finished_data()
    }
}

} // verus!
