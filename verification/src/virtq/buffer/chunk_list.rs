//! The chunk list of a payload: a `SmallVec` of `Bytes` handles.

use bytes::Bytes;
use smallvec::SmallVec;
use vstd::prelude::*;

use crate::octets;

verus! {

/// Byte chunks in order, kept inline up to four of them.
#[verifier::external_body]
pub struct ChunkList {
    items: SmallVec<[Bytes; 4]>,
}

/// The handles a chunk list holds.
pub uninterp spec fn chunk_items(list: ChunkList) -> Seq<Bytes>;

impl View for ChunkList {
    type V = Seq<Bytes>;

    open spec fn view(&self) -> Seq<Bytes> {
        chunk_items(*self)
    }
}

impl ChunkList {
    /// `SmallVec::with_capacity`: an empty vector.
    #[verifier::external_body]
    pub(crate) fn with_capacity(capacity: usize) -> (list: ChunkList)
        requires
            capacity * 64 <= isize::MAX,
        ensures
            chunk_items(list) == Seq::<Bytes>::empty(),
    {
        ChunkList { items: SmallVec::with_capacity(capacity) }
    }

    /// `SmallVec::from_vec`: the vector's items.
    #[verifier::external_body]
    pub(crate) fn from_vec(vec: Vec<Bytes>) -> (list: ChunkList)
        ensures
            chunk_items(list) == vec@,
    {
        ChunkList { items: SmallVec::from_vec(vec) }
    }

    /// `SmallVec::try_reserve_exact`: asks the allocator for room and keeps the
    /// items. The inline room of four items needs no allocator; past it, whether
    /// room is found depends on the allocator.
    #[verifier::external_body]
    pub(crate) fn try_reserve_exact(&mut self, additional: usize) -> (reserved: bool)
        ensures
            chunk_items(*final(self)) == chunk_items(*old(self)),
            chunk_items(*old(self)).len() + additional <= 4 ==> reserved,
    {
        self.items.try_reserve_exact(additional).is_ok()
    }

    /// `SmallVec::push`: appends one handle.
    #[verifier::external_body]
    pub(crate) fn push(&mut self, chunk: Bytes)
        ensures
            chunk_items(*final(self)) == chunk_items(*old(self)).push(chunk),
    {
        self.items.push(chunk)
    }

    /// `SmallVec::pop`: removes and returns the last handle, or `None` when empty.
    #[verifier::external_body]
    pub(crate) fn pop(&mut self) -> (chunk: Option<Bytes>)
        ensures
            chunk_items(*old(self)).len() == 0 ==> chunk is None && chunk_items(*final(self))
                == chunk_items(*old(self)),
            chunk_items(*old(self)).len() > 0 ==> chunk == Some(chunk_items(*old(self)).last())
                && chunk_items(*final(self)) == chunk_items(*old(self)).drop_last(),
    {
        self.items.pop()
    }

    /// `SmallVec::as_slice`: the handles.
    #[verifier::external_body]
    pub(crate) fn as_slice(&self) -> (slice: &[Bytes])
        ensures
            slice@ == chunk_items(*self),
    {
        self.items.as_slice()
    }

    /// `core::mem::take` on item `index`: returns the handle and leaves one that
    /// exposes nothing.
    #[verifier::external_body]
    pub(crate) fn take_at(&mut self, index: usize) -> (chunk: Bytes)
        requires
            index < chunk_items(*old(self)).len(),
        ensures
            chunk == chunk_items(*old(self))[index as int],
            chunk_items(*final(self)).len() == chunk_items(*old(self)).len(),
            octets::octets(chunk_items(*final(self))[index as int]) == Seq::<u8>::empty(),
            forall|i: int|
                0 <= i < chunk_items(*old(self)).len() && i != index ==> (#[trigger] chunk_items(
                    *final(self),
                )[i]) == chunk_items(*old(self))[i],
    {
        core::mem::take(&mut self.items[index])
    }

    /// `Bytes::split_to` on item `index`: returns a handle on the first `at` bytes
    /// and leaves the rest.
    #[verifier::external_body]
    pub(crate) fn split_to_at(&mut self, index: usize, at: usize) -> (prefix: Bytes)
        requires
            index < chunk_items(*old(self)).len(),
            at <= octets::octets(chunk_items(*old(self))[index as int]).len(),
        ensures
            octets::octets(prefix) == octets::octets(chunk_items(*old(self))[index as int]).take(
                at as int,
            ),
            chunk_items(*final(self)).len() == chunk_items(*old(self)).len(),
            octets::octets(chunk_items(*final(self))[index as int]) == octets::octets(
                chunk_items(*old(self))[index as int],
            ).skip(at as int),
            forall|i: int|
                0 <= i < chunk_items(*old(self)).len() && i != index ==> (#[trigger] chunk_items(
                    *final(self),
                )[i]) == chunk_items(*old(self))[i],
    {
        self.items[index].split_to(at)
    }

    /// `SmallVec::drain` of the first `count` handles, which are dropped.
    #[verifier::external_body]
    pub(crate) fn drop_front(&mut self, count: usize)
        requires
            count <= chunk_items(*old(self)).len(),
        ensures
            chunk_items(*final(self)) == chunk_items(*old(self)).skip(count as int),
    {
        drop(self.items.drain(..count))
    }

    /// `SmallVec::into_vec`: the handles, in order.
    #[verifier::external_body]
    pub(crate) fn into_vec(self) -> (vec: Vec<Bytes>)
        ensures
            vec@ == chunk_items(self),
    {
        self.items.into_vec()
    }
}

} // verus!
