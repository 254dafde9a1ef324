//! `flatbuffers::Verifier`: checked reads from a FlatBuffer.
//!
//! Every read is checked on its own. How much a check of a whole buffer visits is counted beside
//! the reads.

use flatbuffers::Verifiable;
use flatbuffers::Verifier;
use flatbuffers::VerifierOptions;
use vstd::prelude::*;

use crate::le;

verus! {

/// The byte at a position.
pub open spec fn u8_at(buf: Seq<u8>, pos: int) -> Option<u8> {
    if 0 <= pos < buf.len() {
        Some(buf[pos])
    } else {
        None
    }
}

/// The four-byte integer at an aligned position.
pub open spec fn u32_at(buf: Seq<u8>, pos: int) -> Option<u32> {
    if 0 <= pos && pos + 4 <= buf.len() && pos % 4 == 0 {
        Some(le::le32(buf.subrange(pos, pos + 4)) as u32)
    } else {
        None
    }
}

/// The eight-byte integer at an aligned position.
pub open spec fn u64_at(buf: Seq<u8>, pos: int) -> Option<u64> {
    if 0 <= pos && pos + 8 <= buf.len() && pos % 8 == 0 {
        Some(le::le64(buf.subrange(pos, pos + 8)) as u64)
    } else {
        None
    }
}

/// Where the forward offset at a position leads.
pub open spec fn target_at(buf: Seq<u8>, pos: int) -> Option<usize> {
    match u32_at(buf, pos) {
        Some(distance) => if pos + distance <= usize::MAX {
            Some((pos + distance) as usize)
        } else {
            None
        },
        None => None,
    }
}

/// Where an element of a vector of references stands.
pub open spec fn element_pos(vector: int, i: int) -> int {
    vector + 4 + 4 * i
}

/// The most bytes that a check of one object visits.
pub const VISIT_LIMIT: usize = 0x8000_0000;

/// A zero-terminated UTF-8 string stands at the position, behind its length, and is no longer
/// than a check visits.
pub open spec fn holds_text(buf: Seq<u8>, pos: int) -> bool {
    &&& u32_at(buf, pos) matches Some(len)
    &&& 4 + len <= VISIT_LIMIT
    &&& pos + 4 + len < buf.len()
    &&& vstd::utf8::valid_utf8(buf.subrange(pos + 4, pos + 4 + len))
    &&& buf[pos + 4 + len] == 0
}

/// The string at a position.
pub open spec fn text_at(buf: Seq<u8>, pos: int) -> Option<Seq<char>> {
    if holds_text(buf, pos) {
        Some(
            vstd::utf8::decode_utf8(
                buf.subrange(pos + 4, pos + 4 + le::le32(buf.subrange(pos, pos + 4))),
            ),
        )
    } else {
        None
    }
}

/// The two-byte integer at an aligned position.
pub open spec fn u16_at(buf: Seq<u8>, pos: int) -> Option<u16> {
    if 0 <= pos && pos + 2 <= buf.len() && pos % 2 == 0 {
        Some(le::le16(buf.subrange(pos, pos + 2)) as u16)
    } else {
        None
    }
}

/// Where the list of slots of the table at a position stands. The table begins with the
/// signed distance back to it.
pub open spec fn slots_at(buf: Seq<u8>, table: int) -> Option<int> {
    match u32_at(buf, table) {
        Some(raw) => {
            let distance = if raw < 0x8000_0000 {
                raw as int
            } else {
                raw - 0x1_0000_0000
            };
            if 0 <= table - distance < buf.len() {
                Some(table - distance)
            } else {
                None
            }
        },
        None => None,
    }
}

/// The size of the list of slots of the table at a position.
#[verifier::opaque]
pub open spec fn slots_size(buf: Seq<u8>, table: int) -> Option<u16> {
    match slots_at(buf, table) {
        Some(list) => match u16_at(buf, list) {
            Some(size) => if size % 2 == 0 && list + size <= buf.len() {
                Some(size)
            } else {
                None
            },
            None => None,
        },
        None => None,
    }
}

/// A table says of a slot where it is stored exactly where it has a list of slots.
pub(crate) proof fn lemma_slot_listed(buf: Seq<u8>, table: usize, slot: u16)
    requires
        slot % 2 == 0,
    ensures
        table_field(buf, table, slot) is Some <==> slots_size(buf, table as int) is Some,
{
    reveal(slots_size);
    reveal(table_field);
}

/// Where a slot of the table at a position is stored: `Some(None)` where the table leaves
/// it out, `None` where the bytes hold no such table. The list of slots begins with its
/// size, which is even, and holds each slot's distance from the table, or zero.
#[verifier::opaque]
pub open spec fn table_field(buf: Seq<u8>, table: usize, slot: u16) -> Option<Option<usize>> {
    match slots_at(buf, table as int) {
        Some(list) => match u16_at(buf, list) {
            Some(size) => if size % 2 != 0 || list + size > buf.len() {
                None
            } else if slot >= size {
                Some(None)
            } else {
                match u16_at(buf, list + slot) {
                    Some(0) => Some(None),
                    Some(distance) => Some(Some((table + distance) as usize)),
                    None => None,
                }
            },
            None => None,
        },
        None => None,
    }
}

/// `Verifier::get_u8`: the byte at a position inside the buffer.
#[verifier::external_body]
pub(crate) fn read_u8(buf: &[u8], pos: usize) -> (x: Option<u8>)
    ensures
        x == u8_at(buf@, pos as int),
{
    Verifier::new(&VerifierOptions::default(), buf).get_u8(pos).ok()
}

/// `Verifier::get_uoffset`: the four little-endian bytes at an aligned position inside the
/// buffer.
#[verifier::external_body]
pub(crate) fn read_u32(buf: &[u8], pos: usize) -> (x: Option<u32>)
    ensures
        x == u32_at(buf@, pos as int),
{
    Verifier::new(&VerifierOptions::default(), buf).get_uoffset(pos).ok()
}

/// `Verifier::visit_table` and `TableVerifier::deref`: where a slot of a table is stored. The
/// verifier's own limits are the default ones, which a single table does not meet.
#[verifier::external_body]
pub(crate) fn find_field(buf: &[u8], table: usize, slot: u16) -> (pos: Option<Option<usize>>)
    ensures
        pos == table_field(buf@, table, slot),
{
    let options = VerifierOptions::default();
    let mut verifier = Verifier::new(&options, buf);
    match verifier.visit_table(table) {
        Ok(mut visited) => visited.deref(slot).ok(),
        Err(_) => None,
    }
}

/// `<&str as Verifiable>::run_verifier`: whether a string stands at a position. The verifier's
/// own limits are the default ones, of which a single string can only meet the one on bytes.
#[verifier::external_body]
fn check_text(buf: &[u8], pos: usize) -> (valid: bool)
    ensures
        valid == holds_text(buf@, pos as int),
{
    let options = VerifierOptions::default();
    <&str as Verifiable>::run_verifier(&mut Verifier::new(&options, buf), pos).is_ok()
}

/// `String::from_utf8`: the text of valid UTF-8 bytes.
#[verifier::external_body]
fn string_from_utf8(bytes: Vec<u8>) -> (text: Option<String>)
    ensures
        text is Some <==> vstd::utf8::valid_utf8(bytes@),
        text matches Some(s) ==> s@ == vstd::utf8::decode_utf8(bytes@),
{
    String::from_utf8(bytes).ok()
}

/// Read eight bytes.
pub(crate) fn read_u64(buf: &[u8], pos: usize) -> (x: Option<u64>)
    ensures
        x == u64_at(buf@, pos as int),
{
    if pos % 8 != 0 {
        return None;
    }
    let low: u32 = match read_u32(buf, pos) {
        Some(low) => low,
        None => return None,
    };
    let high: u32 = match read_u32(buf, pos + 4) {
        Some(high) => high,
        None => return None,
    };
    proof {
        let all = buf@.subrange(pos as int, pos + 8);
        assert(all.subrange(0, 4) =~= buf@.subrange(pos as int, pos + 4));
        assert(all.subrange(4, 8) =~= buf@.subrange(pos + 4, pos + 8));
    }
    Some(low as u64 + high as u64 * 0x1_0000_0000)
}

/// Follow a forward offset. One that leads past the address space leads nowhere.
pub(crate) fn read_target(buf: &[u8], pos: usize) -> (target: Option<usize>)
    ensures
        target == target_at(buf@, pos as int),
{
    match read_u32(buf, pos) {
        Some(distance) => pos.checked_add(distance as usize),
        None => None,
    }
}

/// Read a string.
pub(crate) fn read_text(buf: &[u8], pos: usize) -> (text: Option<String>)
    ensures
        text is Some <==> text_at(buf@, pos as int) is Some,
        text matches Some(s) ==> text_at(buf@, pos as int) == Some(s@),
{
    if !check_text(buf, pos) {
        return None;
    }
    let size: usize = buf.len();
    proof {
        assert(pos + 4 <= size);
    }
    match read_u32(buf, pos) {
        Some(len) => {
            let start: usize = pos + 4;
            let end: usize = start + len as usize;
            let bytes = vstd::slice::slice_subrange(buf, start, end);
            string_from_utf8(vstd::slice::slice_to_vec(bytes))
        },
        None => None,
    }
}

} // verus!
