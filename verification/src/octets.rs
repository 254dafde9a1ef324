//! `bytes::Bytes`: shared immutable bytes.

use bytes::Bytes;
use vstd::prelude::*;

verus! {

#[verifier::external_type_specification]
#[verifier::external_body]
pub struct ExBytes(Bytes);

/// The bytes that a handle exposes.
pub uninterp spec fn octets(bytes: Bytes) -> Seq<u8>;

/// What each handle of a sequence exposes.
pub open spec fn all_octets(chunks: Seq<Bytes>) -> Seq<Seq<u8>> {
    chunks.map_values(|b: Bytes| octets(b))
}

/// `Bytes::new`: no bytes.
#[verifier::external_body]
pub(crate) fn bytes_new() -> (bytes: Bytes)
    ensures
        octets(bytes) == Seq::<u8>::empty(),
{
    Bytes::new()
}

/// `Bytes::from` a vector: the vector's bytes.
#[verifier::external_body]
pub(crate) fn bytes_from_vec(vec: Vec<u8>) -> (bytes: Bytes)
    ensures
        octets(bytes) == vec@,
{
    Bytes::from(vec)
}

/// `Bytes::as_ref`: the exposed bytes.
#[verifier::external_body]
pub(crate) fn bytes_as_slice(bytes: &Bytes) -> (slice: &[u8])
    ensures
        slice@ == octets(*bytes),
{
    bytes.as_ref()
}

/// `Bytes::len`: the number of exposed bytes.
#[verifier::external_body]
pub(crate) fn bytes_len(bytes: &Bytes) -> (len: usize)
    ensures
        len == octets(*bytes).len(),
{
    bytes.len()
}

/// `Bytes::clone`: another handle on the same bytes.
#[verifier::external_body]
pub(crate) fn bytes_clone(bytes: &Bytes) -> (copy: Bytes)
    ensures
        octets(copy) == octets(*bytes),
{
    bytes.clone()
}

} // verus!
