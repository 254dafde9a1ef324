//! Memory access traits for virtqueue operations.
//!
//! [`MemOps`] abstracts the memory access patterns that the virtqueue needs, so
//! that the queue works with different memory backends, such as host and guest.

use bytes::Bytes;
use vstd::prelude::*;

use super::pool::Allocation;
use crate::le;
use crate::octets;

verus! {

/// Memory as a queue sees it.
pub struct MemView {
    /// The byte at each address.
    pub bytes: spec_fn(int) -> u8,
    /// The addresses at which the backend serves every access, now and after any
    /// other access. A backend that may fail anywhere commits to no address.
    pub served: spec_fn(int) -> bool,
}

impl MemView {
    pub open spec fn byte(self, addr: int) -> u8 {
        (self.bytes)(addr)
    }

    pub open spec fn maps(self, addr: int) -> bool {
        (self.served)(addr)
    }

    /// The `len` bytes from `addr` on.
    pub open spec fn span(self, addr: int, len: nat) -> Seq<u8> {
        Seq::new(len, |i: int| self.byte(addr + i))
    }

    /// Whether the backend serves every access to the `len` bytes from `addr` on.
    pub open spec fn maps_all(self, addr: int, len: int) -> bool {
        forall|a: int| addr <= a < addr + len ==> #[trigger] self.maps(a)
    }

    /// Whether the backend serves an access to the `len` bytes from `addr` on. An empty access
    /// still names an address.
    pub open spec fn serves(self, addr: int, len: int) -> bool {
        self.maps(addr) && self.maps_all(addr, len)
    }

    /// The memory commits to the same addresses in both states.
    pub open spec fn same_mapping(self, after: MemView) -> bool {
        forall|a: int| #[trigger] after.maps(a) == self.maps(a)
    }

    /// Every byte is the same in both states.
    pub open spec fn same_bytes(self, after: MemView) -> bool {
        forall|a: int| #[trigger] after.byte(a) == self.byte(a)
    }

    /// `after` differs from `self` at most in the `len` bytes from `addr` on.
    pub open spec fn same_outside(self, after: MemView, addr: int, len: int) -> bool {
        forall|a: int|
            !(addr <= a < addr + len) ==> #[trigger] after.byte(a) == self.byte(a)
    }

    /// `after` differs from `self` only in holding `src` at `addr`.
    pub open spec fn stored(self, after: MemView, addr: int, src: Seq<u8>) -> bool {
        forall|a: int| #[trigger]
            after.byte(a) == if addr <= a < addr + src.len() {
                src[a - addr]
            } else {
                self.byte(a)
            }
    }

    /// The memory after `src` was stored at `addr`.
    pub open spec fn put(self, addr: int, src: Seq<u8>) -> MemView {
        MemView {
            bytes: |a: int|
                if addr <= a < addr + src.len() {
                    src[a - addr]
                } else {
                    self.byte(a)
                },
            served: self.served,
        }
    }
}

/// Backend-provided memory access for virtqueues.
///
/// A backend exposes bytes by address. An access that it cannot serve is reported
/// with `Self::Error`. The contracts speak of the memory while the peer is not
/// running: a peer's stores show up between calls, not during one.
pub trait MemOps {
    type Error;

    /// The memory behind this backend.
    closed spec fn mem(&self) -> MemView {
        arbitrary()
    }

    /// Read bytes at a backend address.
    ///
    /// Used for reading buffer contents pointed to by descriptors.
    fn read(&self, addr: u64, dst: &mut [u8]) -> (done: Result<(), Self::Error>)
        ensures
            final(dst)@.len() == old(dst)@.len(),
            done is Ok ==> final(dst)@ == self.mem().span(addr as int, old(dst)@.len()),
            self.mem().serves(addr as int, old(dst)@.len() as int) ==> done is Ok,
    ;

    /// Write bytes at a backend address. A write that fails stores nothing.
    fn write(&mut self, addr: u64, src: &[u8]) -> (done: Result<(), Self::Error>)
        ensures
            old(self).mem().same_mapping(final(self).mem()),
            done is Ok ==> old(self).mem().stored(final(self).mem(), addr as int, src@),
            done is Err ==> old(self).mem().same_bytes(final(self).mem()),
            old(self).mem().serves(addr as int, src@.len() as int) ==> done is Ok,
    ;

    /// Load a u16 with acquire semantics.
    fn load_acquire(&self, addr: u64) -> (value: Result<u16, Self::Error>)
        ensures
            value matches Ok(v) ==> v == le::le16(self.mem().span(addr as int, 2)),
            self.mem().maps_all(addr as int, 2) && addr % 2 == 0 ==> value is Ok,
    ;

    /// Store a u16 with release semantics. A store that fails changes no other byte.
    fn store_release(&mut self, addr: u64, val: u16) -> (done: Result<(), Self::Error>)
        ensures
            old(self).mem().same_mapping(final(self).mem()),
            done is Err ==> old(self).mem().same_outside(final(self).mem(), addr as int, 2),
            done is Ok ==> old(self).mem().stored(
                final(self).mem(),
                addr as int,
                le::le16_bytes(val),
            ),
            old(self).mem().maps_all(addr as int, 2) && addr % 2 == 0 ==> done is Ok,
    ;
}

/// Owned immutable views of completed queue buffers.
pub trait BufferMap: MemOps {
    /// Retain a view of the first `written` bytes of an allocation.
    ///
    /// The caller holds the allocation until the view is dropped, and no peer
    /// writes to it meanwhile.
    fn map_buffer(&mut self, allocation: Allocation, written: usize) -> (view: Result<
        Bytes,
        Self::Error,
    >)
        requires
            written <= allocation.len,
        ensures
            old(self).mem().same_mapping(final(self).mem()),
            old(self).mem().same_bytes(final(self).mem()),
            view matches Ok(v) ==> octets::octets(v) == old(self).mem().span(
                allocation.addr as int,
                written as nat,
            ),
            old(self).mem().serves(allocation.addr as int, allocation.len as int) ==> view is Ok,
    ;
}

/// Read `len` bytes into a new buffer.
pub(crate) fn read_vec<M: MemOps>(mem: &M, addr: u64, len: usize) -> (bytes: Result<
    Vec<u8>,
    M::Error,
>)
    ensures
        bytes matches Ok(b) ==> b@ == mem.mem().span(addr as int, len as nat),
        mem.mem().serves(addr as int, len as int) ==> bytes is Ok,
{
    let mut buf: Vec<u8> = vec![0u8; len];
    match mem.read(addr, buf.as_mut_slice()) {
        Ok(()) => Ok(buf),
        Err(err) => Err(err),
    }
}

} // verus!
