//! `flatbuffers::Verifier` over a whole buffer: how much of it a check visits.
//!
//! A reference may be followed more than once, so a buffer can hold more than its own size. A
//! check counts the tables that it visits, and the bytes, each as often as it meets them.

use flatbuffers::Verifier;
use flatbuffers::VerifierOptions;
use vstd::prelude::*;

use super::builder;
use super::builder::{FlatObject, FlatState};
use super::reader;
use super::reader::{read_target, read_u32, read_u8, VISIT_LIMIT};
use super::wire;
use super::wire::{Shape, ValueWire};

verus! {

#[verifier::external_type_specification]
#[verifier::external_body]
pub struct ExVerifierOptions(VerifierOptions);

#[verifier::external_type_specification]
#[verifier::external_body]
pub struct ExVerifier<'opts, 'buf>(Verifier<'opts, 'buf>);

/// The most tables that a check of a buffer visits.
pub const TABLE_LIMIT: usize = 1_000_000;

/// What is visited.
#[verifier::ext_equal]
pub struct Visit {
    pub tables: nat,
    pub bytes: nat,
}

impl Visit {
    pub open spec fn plus(self, more: Visit) -> Visit {
        Visit { tables: self.tables + more.tables, bytes: self.bytes + more.bytes }
    }

    /// One more table, and bytes of it.
    pub open spec fn table(bytes: nat) -> Visit {
        Visit { tables: 1, bytes }
    }

    pub open spec fn bytes(bytes: nat) -> Visit {
        Visit { tables: 0, bytes }
    }

    pub open spec fn within(self) -> bool {
        self.tables <= TABLE_LIMIT && self.bytes <= VISIT_LIMIT
    }
}

/// How much a verifier visits before it gives up.
#[verifier::ext_equal]
pub struct Limits {
    /// Tables inside one another.
    pub depth: nat,
    pub tables: nat,
    pub bytes: nat,
}

/// The limits that a verifier has unless it is told otherwise.
pub open spec fn usual_limits() -> Limits {
    Limits { depth: 64, tables: TABLE_LIMIT as nat, bytes: VISIT_LIMIT as nat }
}

/// What a verifier checks, and how far it has come. No table is being visited.
#[verifier::ext_equal]
pub struct Progress {
    pub buf: Seq<u8>,
    pub limits: Limits,
    pub seen: Visit,
}

impl Progress {
    /// A check with the usual limits that has not met them.
    pub open spec fn going(self, buf: Seq<u8>) -> bool {
        &&& self.buf == buf
        &&& self.limits == usual_limits()
        &&& self.seen.within()
    }

    /// There is a table, and visiting it meets no limit.
    pub open spec fn can_visit(self, table: usize, slots: Seq<u16>) -> bool {
        &&& table_stands(self.buf, table, slots)
        &&& self.seen.plus(table_visit(self.buf, table, slots)).within()
    }

    /// The check visited more.
    pub open spec fn visits(self, after: Progress, more: Visit) -> bool {
        after == (Progress { seen: self.seen.plus(more), ..self })
    }
}

/// The limits that options set.
pub uninterp spec fn limits_of(options: VerifierOptions) -> Limits;

/// How far a verifier has come.
pub uninterp spec fn progress(verifier: Verifier<'_, '_>) -> Progress;

/// `VerifierOptions::default`: the usual limits.
#[verifier::external_body]
pub(crate) fn default_options() -> (options: VerifierOptions)
    ensures
        limits_of(options) == usual_limits(),
{
    VerifierOptions::default()
}

/// `Verifier::new`: nothing is visited yet.
#[verifier::external_body]
pub(crate) fn begin<'o, 'b>(options: &'o VerifierOptions, buf: &'b [u8]) -> (verifier: Verifier<'o, 'b>)
    ensures
        progress(verifier) == (Progress {
            buf: buf@,
            limits: limits_of(*options),
            seen: Visit { tables: 0, bytes: 0 },
        }),
{
    Verifier::new(options, buf)
}

/// `Verifier::range_in_buffer`: visits a range of the buffer, unless it ends outside or the
/// limit on bytes is met. Nothing is said of a verifier that has refused.
#[verifier::external_body]
pub(crate) fn visit_range(verifier: &mut Verifier<'_, '_>, pos: usize, size: usize) -> (ok: bool)
    requires
        progress(*old(verifier)).going(progress(*old(verifier)).buf),
    ensures
        ok <==> pos + size <= progress(*old(verifier)).buf.len() && progress(
            *old(verifier),
        ).seen.bytes + size <= VISIT_LIMIT,
        ok ==> progress(*old(verifier)).visits(
            progress(*final(verifier)),
            Visit::bytes(size as nat),
        ),
{
    verifier.range_in_buffer(pos, size).is_ok()
}

/// The bytes visited to find slots in a list of slots.
pub open spec fn found_bytes(size: u16, slots: Seq<u16>) -> nat
    decreases slots.len(),
{
    if slots.len() == 0 {
        0
    } else {
        found_bytes(size, slots.drop_last()) + if slots.last() < size {
            2nat
        } else {
            0
        }
    }
}

/// What visiting the table at a position, and finding these slots of it, visits.
pub open spec fn table_visit(buf: Seq<u8>, table: usize, slots: Seq<u16>) -> Visit {
    match reader::slots_size(buf, table as int) {
        Some(size) => Visit::table(6 + size as nat + found_bytes(size, slots)),
        None => Visit::table(6),
    }
}

/// The bytes hold a table at a position, and say of each of these slots where it is stored.
pub open spec fn table_stands(buf: Seq<u8>, table: usize, slots: Seq<u16>) -> bool {
    &&& reader::slots_size(buf, table as int) is Some
    &&& forall|i: int|
        0 <= i < slots.len() ==> reader::table_field(buf, table, #[trigger] slots[i]) is Some
}

/// `Verifier::visit_table`, `TableVerifier::deref` of each slot and `TableVerifier::finish`:
/// where slots of a table are stored, unless there is no such table or a limit is met. Nothing
/// is said of a verifier that has refused.
#[verifier::external_body]
pub(crate) fn visit_slots(verifier: &mut Verifier<'_, '_>, table: usize, slots: &[u16]) -> (places: Option<
    Vec<Option<usize>>,
>)
    requires
        progress(*old(verifier)).going(progress(*old(verifier)).buf),
    ensures
        places is Some <==> progress(*old(verifier)).can_visit(table, slots@),
        places matches Some(p) ==> progress(*old(verifier)).visits(
            progress(*final(verifier)),
            table_visit(progress(*old(verifier)).buf, table, slots@),
        ),
        places matches Some(p) ==> p@.len() == slots@.len() && forall|i: int|
            0 <= i < slots@.len() ==> reader::table_field(
                progress(*old(verifier)).buf,
                table,
                slots@[i],
            ) == Some(#[trigger] p@[i]),
{
    let mut visited = verifier.visit_table(table).ok()?;
    let places = slots.iter().map(|slot| visited.deref(*slot).ok()).collect();
    visited.finish();
    places
}

// ---- What the tables of a message come to ----------------------------------------------

/// The bytes of a slot, where it is stored.
pub open spec fn slot_bytes(buf: Seq<u8>, table: usize, slot: u16, size: nat) -> nat {
    match reader::table_field(buf, table, slot) {
        Some(Some(_)) => size,
        _ => 0,
    }
}

/// The length that stands where the reference at a position leads.
pub open spec fn length_at(buf: Seq<u8>, pos: int) -> nat {
    match reader::target_at(buf, pos) {
        Some(target) => match reader::u32_at(buf, target as int) {
            Some(len) => len as nat,
            None => 0,
        },
        None => 0,
    }
}

/// The bytes of a string slot, where it is stored: the reference, the length and the text.
pub open spec fn text_bytes(buf: Seq<u8>, table: usize, slot: u16) -> nat {
    match reader::table_field(buf, table, slot) {
        Some(Some(pos)) => 8 + length_at(buf, pos as int),
        _ => 0,
    }
}

/// The slots of a value's table.
pub open spec fn value_slots(shape: Shape) -> Seq<u16> {
    match shape {
        Shape::Void => Seq::empty(),
        Shape::Unknown => Seq::empty(),
        Shape::External => seq![4u16, 6u16],
        _ => seq![4u16],
    }
}

/// The bytes of the fields of a value's table.
pub open spec fn value_bytes(buf: Seq<u8>, table: usize, shape: Shape) -> nat {
    match shape {
        Shape::Int => slot_bytes(buf, table, 4, 4),
        Shape::UInt => slot_bytes(buf, table, 4, 4),
        Shape::Float => slot_bytes(buf, table, 4, 4),
        Shape::Long => slot_bytes(buf, table, 4, 8),
        Shape::ULong => slot_bytes(buf, table, 4, 8),
        Shape::Double => slot_bytes(buf, table, 4, 8),
        Shape::Text => text_bytes(buf, table, 4),
        Shape::Bool => slot_bytes(buf, table, 4, 1),
        Shape::External => slot_bytes(buf, table, 4, 8) + slot_bytes(buf, table, 6, 1),
        Shape::Void => 0,
        Shape::Unknown => 0,
    }
}

/// What the table of a value comes to.
pub open spec fn value_visit(buf: Seq<u8>, table: usize, shape: Shape) -> Visit {
    table_visit(buf, table, value_slots(shape)).plus(Visit::bytes(value_bytes(buf, table, shape)))
}

/// What a table with a tag and a value comes to, apart from the value's own table.
pub open spec fn union_visit(buf: Seq<u8>, table: usize) -> Visit {
    table_visit(buf, table, seq![6u16, 4u16]).plus(Visit::bytes(slot_bytes(buf, table, 4, 1)))
}

/// What the value of a union comes to. One that no shape describes is not looked at.
pub open spec fn union_value_visit(buf: Seq<u8>, value: Option<usize>, shape: Shape) -> Visit {
    match value {
        Some(pos) if shape != Shape::Unknown => Visit::bytes(4).plus(
            value_visit(buf, reader::target_at(buf, pos as int)->0, shape),
        ),
        _ => Visit::bytes(0),
    }
}

/// What the parameter table at a position comes to.
pub open spec fn parameter_visit(buf: Seq<u8>, table: usize) -> Visit {
    match wire::union_at(buf, table) {
        Some((tag, value)) => union_visit(buf, table).plus(
            union_value_visit(buf, value, wire::parameter_shape_of(tag)),
        ),
        None => union_visit(buf, table),
    }
}

/// What the table of a return value at a position comes to.
pub open spec fn return_visit(buf: Seq<u8>, table: usize) -> Visit {
    match wire::union_at(buf, table) {
        Some((tag, value)) => union_visit(buf, table).plus(
            union_value_visit(buf, value, wire::return_shape_of(tag)),
        ),
        None => union_visit(buf, table),
    }
}

// ---- Checks ----------------------------------------------------------------------------

/// A check went on and visited `more`, or stopped because something does not stand where it
/// should, or because a limit was met.
pub open spec fn went(
    before: Progress,
    after: Progress,
    more: Visit,
    stands: bool,
    ok: bool,
) -> bool {
    if ok {
        before.visits(after, more) && after.seen.within()
    } else {
        !stands || !before.seen.plus(more).within()
    }
}

/// Check a slot of `size` bytes, where it is stored.
pub(crate) fn check_slot(verifier: &mut Verifier<'_, '_>, place: Option<usize>, size: usize) -> (ok: bool)
    requires
        progress(*old(verifier)).going(progress(*old(verifier)).buf),
    ensures
        went(
            progress(*old(verifier)),
            progress(*final(verifier)),
            Visit::bytes(
                if place is Some {
                    size as nat
                } else {
                    0
                },
            ),
            place matches Some(pos) ==> pos + size <= progress(*old(verifier)).buf.len(),
            ok,
        ),
{
    match place {
        Some(pos) => visit_range(verifier, pos, size),
        None => {
            proof {
                let before = progress(*verifier);
                assert(before.seen.plus(Visit::bytes(0)) =~= before.seen);
            }
            true
        },
    }
}

/// Check a string slot, where it is stored.
pub(crate) fn check_text_slot(verifier: &mut Verifier<'_, '_>, buf: &[u8], place: Option<usize>) -> (ok: bool)
    requires
        progress(*old(verifier)).going(buf@),
    ensures
        went(
            progress(*old(verifier)),
            progress(*final(verifier)),
            Visit::bytes(
                match place {
                    Some(pos) => 8 + length_at(buf@, pos as int),
                    None => 0,
                },
            ),
            place matches Some(pos) ==> reader::target_at(buf@, pos as int) is Some
                && reader::text_at(buf@, reader::target_at(buf@, pos as int)->0 as int) is Some,
            ok,
        ),
{
    let ghost before = progress(*verifier);
    match place {
        Some(pos) => {
            if !visit_range(verifier, pos, 4) {
                return false;
            }
            let target: usize = match read_target(buf, pos) {
                Some(target) => target,
                None => return false,
            };
            if !visit_range(verifier, target, 4) {
                return false;
            }
            let len: u32 = match read_u32(buf, target) {
                Some(len) => len,
                None => return false,
            };
            let size: usize = buf.len();
            proof {
                assert(target + 4 <= size);
            }
            let ok: bool = visit_range(verifier, target + 4, len as usize);
            proof {
                let more = Visit::bytes(8 + len as nat);
                assert(before.seen.plus(Visit::bytes(4)).plus(Visit::bytes(4)).plus(
                    Visit::bytes(len as nat),
                ) =~= before.seen.plus(more));
            }
            ok
        },
        None => {
            proof {
                assert(before.seen.plus(Visit::bytes(0)) =~= before.seen);
            }
            true
        },
    }
}

/// Check the table of a value.
fn check_value(verifier: &mut Verifier<'_, '_>, buf: &[u8], table: usize, shape: Shape) -> (ok: bool)
    requires
        progress(*old(verifier)).going(buf@),
        shape != Shape::Unknown,
    ensures
        went(
            progress(*old(verifier)),
            progress(*final(verifier)),
            value_visit(buf@, table, shape),
            wire::value_table(buf@, table, shape) is Some,
            ok,
        ),
{
    let ghost before = progress(*verifier);
    let ghost slots = value_slots(shape);
    let ghost first = table_visit(buf@, table, slots);
    proof {
        reader::lemma_slot_listed(buf@, table, 4);
        reader::lemma_slot_listed(buf@, table, 6);
    }
    let wanted: Vec<u16> = match shape {
        Shape::Void => Vec::new(),
        Shape::External => vec![4u16, 6u16],
        _ => vec![4u16],
    };
    proof {
        assert(wanted@ =~= slots);
    }
    let places = match visit_slots(verifier, table, wanted.as_slice()) {
        Some(places) => places,
        None => {
            proof {
                if before.seen.plus(first).within() {
                    assert(!table_stands(buf@, table, slots));
                }
            }
            return false;
        },
    };
    let ghost mid = progress(*verifier);
    proof {
        assert forall|more: nat| #[trigger] mid.seen.plus(Visit::bytes(more)) == before.seen.plus(
            first.plus(Visit::bytes(more)),
        ) by {
            assert(mid.seen.plus(Visit::bytes(more)) =~= before.seen.plus(
                first.plus(Visit::bytes(more)),
            ));
        }
    }
    match shape {
        Shape::Int | Shape::UInt | Shape::Float => check_slot(verifier, places[0], 4),
        Shape::Long | Shape::ULong | Shape::Double => check_slot(verifier, places[0], 8),
        Shape::Bool => check_slot(verifier, places[0], 1),
        Shape::Text => check_text_slot(verifier, buf, places[0]),
        Shape::External => {
            if !check_slot(verifier, places[0], 8) {
                return false;
            }
            let ghost then = progress(*verifier);
            let ok: bool = check_slot(verifier, places[1], 1);
            proof {
                let a = slot_bytes(buf@, table, 4, 8);
                let b = slot_bytes(buf@, table, 6, 1);
                assert(then.seen.plus(Visit::bytes(b)) =~= mid.seen.plus(Visit::bytes(a + b)));
            }
            ok
        },
        _ => {
            proof {
                assert(mid.seen.plus(Visit::bytes(0)) =~= mid.seen);
            }
            true
        },
    }
}

/// Check the table with a tag and a value at a position, and give both. The value's own table
/// is not looked at.
pub(crate) fn check_tag(verifier: &mut Verifier<'_, '_>, buf: &[u8], table: usize) -> (union: Option<
    (u8, Option<usize>),
>)
    requires
        progress(*old(verifier)).going(buf@),
    ensures
        went(
            progress(*old(verifier)),
            progress(*final(verifier)),
            union_visit(buf@, table),
            wire::union_at(buf@, table) is Some,
            union is Some,
        ),
        union is Some ==> union == wire::union_at(buf@, table),
{
    let ghost before = progress(*verifier);
    let ghost first = table_visit(buf@, table, seq![6u16, 4u16]);
    proof {
        reader::lemma_slot_listed(buf@, table, 4);
        reader::lemma_slot_listed(buf@, table, 6);
    }
    let wanted: Vec<u16> = vec![6u16, 4u16];
    proof {
        assert(wanted@ =~= seq![6u16, 4u16]);
    }
    let places = match visit_slots(verifier, table, wanted.as_slice()) {
        Some(places) => places,
        None => {
            proof {
                if before.seen.plus(first).within() {
                    assert(!table_stands(buf@, table, seq![6u16, 4u16]));
                }
            }
            return None;
        },
    };
    let (value, tag_place) = (places[0], places[1]);
    proof {
        assert(wanted@[0] == 6u16 && wanted@[1] == 4u16);
        assert(reader::table_field(buf@, table, 6) == Some(value));
        assert(reader::table_field(buf@, table, 4) == Some(tag_place));
    }
    let (pos, tag_pos) = match (value, tag_place) {
        (Some(pos), Some(tag_pos)) => (pos, tag_pos),
        (None, None) => {
            proof {
                assert(first.plus(Visit::bytes(0)) =~= first);
            }
            return Some((0, None));
        },
        _ => return None,
    };
    if !visit_range(verifier, tag_pos, 1) {
        return None;
    }
    proof {
        assert(progress(*verifier).seen =~= before.seen.plus(union_visit(buf@, table)));
    }
    match read_u8(buf, tag_pos) {
        Some(tag) => Some((tag, Some(pos))),
        None => None,
    }
}

/// Check the table with a tag and a value at a position, and the value's own table.
pub(crate) fn check_union(
    verifier: &mut Verifier<'_, '_>,
    buf: &[u8],
    table: usize,
    returned: bool,
) -> (ok: bool)
    requires
        progress(*old(verifier)).going(buf@),
    ensures
        went(
            progress(*old(verifier)),
            progress(*final(verifier)),
            if returned {
                return_visit(buf@, table)
            } else {
                parameter_visit(buf@, table)
            },
            if returned {
                wire::return_at(buf@, table) is Some
            } else {
                wire::parameter_at(buf@, table) is Some
            },
            ok,
        ),
{
    let ghost before = progress(*verifier);
    let (tag, value) = match check_tag(verifier, buf, table) {
        Some(union) => union,
        None => return false,
    };
    let shape: Shape = if returned {
        wire::return_shape(tag)
    } else {
        wire::parameter_shape(tag)
    };
    proof {
        let whole = union_visit(buf@, table);
        assert(whole.plus(Visit::bytes(0)) =~= whole);
    }
    let pos: usize = match value {
        Some(pos) => pos,
        None => return true,
    };
    if shape == Shape::Unknown {
        return true;
    }
    if !visit_range(verifier, pos, 4) {
        return false;
    }
    let target: usize = match read_target(buf, pos) {
        Some(target) => target,
        None => return false,
    };
    let ghost last = progress(*verifier);
    let ok: bool = check_value(verifier, buf, target, shape);
    proof {
        let own = value_visit(buf@, target, shape);
        assert(last.seen.plus(own) =~= before.seen.plus(
            union_visit(buf@, table).plus(Visit::bytes(4).plus(own)),
        ));
    }
    ok
}

// ---- What written tables come to -------------------------------------------------------

proof fn lemma_found_bound(size: u16, slots: Seq<u16>)
    ensures
        found_bytes(size, slots) <= 2 * slots.len(),
    decreases slots.len(),
{
    if slots.len() > 0 {
        lemma_found_bound(size, slots.drop_last());
    }
}

/// What a written table comes to.
pub(crate) proof fn lemma_table_visit(
    bytes: Seq<u8>,
    state: FlatState,
    off: nat,
    slots: Seq<u16>,
)
    requires
        builder::reads_back(bytes, state),
        bytes.len() <= usize::MAX,
        state.objects.contains_key(off),
        state.objects[off] is Table,
    ensures
        off <= bytes.len(),
        table_visit(bytes, (bytes.len() - off) as usize, slots).tables == 1,
        table_visit(bytes, (bytes.len() - off) as usize, slots).bytes <= 22 + 2 * slots.len(),
{
    assert(builder::object_reads(bytes, bytes.len() - off, state.objects[off]));
    let size = reader::slots_size(bytes, bytes.len() - off)->0;
    lemma_found_bound(size, slots);
}

/// What a written string comes to.
pub(crate) proof fn lemma_text_visit(
    bytes: Seq<u8>,
    state: FlatState,
    off: nat,
    slot: u16,
    text: Seq<char>,
)
    requires
        builder::reads_back(bytes, state),
        bytes.len() <= usize::MAX,
        state.objects.contains_key(off),
        state.objects[off] is Table,
        state.objects[off]->Table_0.contains_key(slot),
        wire::text_written(state.objects, state.objects[off]->Table_0[slot], text),
    ensures
        off <= bytes.len(),
        text_bytes(bytes, (bytes.len() - off) as usize, slot) == 8 + vstd::utf8::encode_utf8(
            text,
        ).len(),
{
    let pos = bytes.len() - off;
    let fields = state.objects[off]->Table_0;
    assert(builder::object_reads(bytes, pos, FlatObject::Table(fields)));
    assert(builder::table_slot_reads(bytes, pos, slot, fields));
    let place = fields[slot]->Ref_0;
    assert(state.objects.contains_key(place));
    let target = bytes.len() - place;
    assert(builder::object_reads(bytes, target, FlatObject::Text(text)));
    let len = reader::u32_at(bytes, target)->0;
    let held = bytes.subrange(target + 4, target + 4 + len);
    vstd::utf8::decode_utf8_encode_utf8(held);
    assert(reader::text_at(bytes, target) == Some(vstd::utf8::decode_utf8(held)));
}

/// What the written table of a value comes to.
pub(crate) proof fn lemma_value_visit(bytes: Seq<u8>, state: FlatState, off: nat, value: ValueWire)
    requires
        builder::reads_back(bytes, state),
        bytes.len() <= usize::MAX,
        wire::value_written(state.objects, off, value),
    ensures
        off <= bytes.len(),
        value_visit(bytes, (bytes.len() - off) as usize, value.shape()).tables == 1,
        value_visit(bytes, (bytes.len() - off) as usize, value.shape()).bytes + 5 <= value.cost(),
{
    lemma_table_visit(bytes, state, off, value_slots(value.shape()));
    if let ValueWire::Text(s) = value {
        lemma_text_visit(bytes, state, off, 4, s);
    }
}

/// What a written union comes to, apart from its value.
pub(crate) proof fn lemma_union_visit(
    bytes: Seq<u8>,
    state: FlatState,
    off: nat,
    tag: u8,
    value: nat,
)
    requires
        builder::reads_back(bytes, state),
        bytes.len() <= usize::MAX,
        wire::union_written(state.objects, off, tag, value),
    ensures
        off <= bytes.len(),
        union_visit(bytes, (bytes.len() - off) as usize).tables == 1,
        union_visit(bytes, (bytes.len() - off) as usize).bytes <= 27,
{
    lemma_table_visit(bytes, state, off, seq![6u16, 4u16]);
}

} // verus!
