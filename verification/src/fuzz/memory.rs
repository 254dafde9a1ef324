//! Bounded memory for exercising queues.

use bytes::Bytes;
use vstd::prelude::*;

use crate::le;
use crate::octets::bytes_from_vec;
use crate::virtq::access::MemView;
use crate::virtq::{Allocation, BufferMap, MemOps};

verus! {

/// A run of zeroed bytes at an address. Accesses outside it fail. Stores into a buffer that is
/// mapped are noticed.
pub struct FuzzMem {
    storage: Vec<u8>,
    base_addr: u64,
    mappings: Vec<Allocation>,
    disturbed: bool,
}

/// An access of some bytes from an address on meets a buffer.
pub open spec fn meets(addr: u64, len: nat, buffer: Allocation) -> bool {
    len > 0 && buffer.addr < addr + len && addr < buffer.addr + buffer.len
}

/// An access meets some buffer.
pub open spec fn meets_any(addr: u64, len: nat, buffers: Seq<Allocation>) -> bool {
    exists|i: int| 0 <= i < buffers.len() && meets(addr, len, #[trigger] buffers[i])
}

/// The place of the first buffer at an address.
pub open spec fn first_at(buffers: Seq<Allocation>, addr: u64, i: int) -> bool {
    &&& 0 <= i < buffers.len()
    &&& buffers[i].addr == addr
    &&& forall|k: int| 0 <= k < i ==> (#[trigger] buffers[k]).addr != addr
}

impl FuzzMem {
    /// The first address.
    pub closed spec fn base(self) -> u64 {
        self.base_addr
    }

    /// The bytes.
    pub closed spec fn data(self) -> Seq<u8> {
        self.storage@
    }

    /// The buffers that are mapped.
    pub closed spec fn mapped(self) -> Seq<Allocation> {
        self.mappings@
    }

    /// A store or a mapping met a buffer that was mapped.
    pub closed spec fn overlapped(self) -> bool {
        self.disturbed
    }

    /// An access of some bytes from an address on stays inside.
    pub open spec fn holds(self, addr: u64, len: nat) -> bool {
        self.base() <= addr && addr - self.base() + len <= self.data().len()
    }

    /// A word at an address is aligned in the backing, which is aligned itself.
    pub open spec fn aligned(self, addr: u64) -> bool {
        (addr - self.base()) % 2 == 0
    }

    pub fn new(base_addr: u64, len: usize) -> (mem: FuzzMem)
        ensures
            mem.base() == base_addr,
            mem.data() == Seq::new(len as nat, |i: int| 0u8),
            mem.mapped() == Seq::<Allocation>::empty(),
            !mem.overlapped(),
    {
        let storage: Vec<u8> = vec![0u8; len];
        proof {
            assert(storage@ =~= Seq::new(len as nat, |i: int| 0u8));
        }
        FuzzMem { storage, base_addr, mappings: Vec::new(), disturbed: false }
    }

    /// Where an access starts in the storage.
    fn range(&self, addr: u64, len: usize) -> (offset: Result<usize, ()>)
        ensures
            offset is Ok <==> self.holds(addr, len as nat),
            offset matches Ok(o) ==> o == addr - self.base(),
    {
        let size: usize = self.storage.len();
        if addr < self.base_addr {
            return Err(());
        }
        let offset: u64 = addr - self.base_addr;
        if offset > usize::MAX as u64 {
            return Err(());
        }
        let start: usize = offset as usize;
        match start.checked_add(len) {
            Some(end) => {
                if end > size {
                    Err(())
                } else {
                    Ok(start)
                }
            },
            None => Err(()),
        }
    }

    /// Whether a store or a mapping met a buffer that was mapped.
    pub fn is_overlapped(&self) -> (overlapped: bool)
        ensures
            overlapped == self.overlapped(),
    {
        self.disturbed
    }

    /// A buffer's view is gone. Whether there was one at the address.
    pub fn unmap(&mut self, addr: u64) -> (found: bool)
        ensures
            found <==> exists|i: int| first_at(old(self).mapped(), addr, i),
            !found ==> *final(self) == *old(self),
            forall|i: int| #[trigger]
                first_at(old(self).mapped(), addr, i) ==> final(self).mapped() == old(
                    self,
                ).mapped().update(i, old(self).mapped().last()).drop_last(),
            final(self).base() == old(self).base(),
            final(self).data() == old(self).data(),
            final(self).overlapped() == old(self).overlapped(),
    {
        let mut i: usize = 0;
        while i < self.mappings.len()
            invariant
                *self == *old(self),
                i <= self.mappings@.len(),
                forall|k: int| 0 <= k < i ==> (#[trigger] self.mappings@[k]).addr != addr,
            decreases self.mappings@.len() - i,
        {
            if self.mappings[i].addr == addr {
                assert(first_at(self.mapped(), addr, i as int));
                self.mappings.swap_remove(i);
                return true;
            }
            i += 1;
        }
        false
    }

    /// Notice an access that meets a buffer that is mapped.
    fn note(&mut self, addr: u64, len: usize)
        ensures
            final(self).base() == old(self).base(),
            final(self).data() == old(self).data(),
            final(self).mapped() == old(self).mapped(),
            final(self).overlapped() == (old(self).overlapped() || meets_any(
                addr,
                len as nat,
                old(self).mapped(),
            )),
    {
        let end: u128 = addr as u128 + len as u128;
        let mut i: usize = 0;
        while i < self.mappings.len()
            invariant
                *self == *old(self),
                end == addr + len,
                i <= self.mappings@.len(),
                forall|k: int|
                    0 <= k < i ==> !meets(addr, len as nat, #[trigger] self.mappings@[k]),
            decreases self.mappings@.len() - i,
        {
            let buffer = self.mappings[i];
            let buffer_end: u128 = buffer.addr as u128 + buffer.len as u128;
            if len > 0 && (buffer.addr as u128) < end && (addr as u128) < buffer_end {
                assert(meets(addr, len as nat, self.mappings@[i as int]));
                self.disturbed = true;
                return;
            }
            i += 1;
        }
    }

    /// Store bytes at an offset.
    fn put(&mut self, offset: usize, src: &[u8])
        requires
            offset + src@.len() <= old(self).data().len(),
        ensures
            final(self).base() == old(self).base(),
            final(self).mapped() == old(self).mapped(),
            final(self).overlapped() == old(self).overlapped(),
            final(self).data() == old(self).data().take(offset as int) + src@ + old(
                self,
            ).data().skip(offset + src@.len()),
    {
        let ghost before = self.storage@;
        let size: usize = self.storage.len();
        let mut i: usize = 0;
        while i < src.len()
            invariant
                i <= src@.len(),
                size == before.len(),
                offset + src@.len() <= size,
                self.storage@.len() == size,
                self.base_addr == old(self).base_addr,
                self.mappings == old(self).mappings,
                self.disturbed == old(self).disturbed,
                forall|k: int|
                    0 <= k < size ==> self.storage@[k] == if offset <= k < offset + i {
                        src@[k - offset]
                    } else {
                        before[k]
                    },
            decreases src@.len() - i,
        {
            self.storage.set(offset + i, src[i]);
            i += 1;
        }
        proof {
            assert(self.storage@ =~= before.take(offset as int) + src@ + before.skip(
                offset + src@.len(),
            ));
        }
    }
}

impl MemOps for FuzzMem {
    type Error = ();

    open spec fn mem(&self) -> MemView {
        let base = self.base();
        let data = self.data();
        MemView {
            bytes: |a: int|
                if base <= a < base + data.len() {
                    data[a - base]
                } else {
                    0
                },
            served: |a: int| base % 2 == 0 && base <= a < base + data.len(),
        }
    }

    fn read(&self, addr: u64, dst: &mut [u8]) -> (done: Result<(), ()>)
        ensures
            done is Ok <==> self.holds(addr, old(dst)@.len()),
            done is Err ==> final(dst)@ == old(dst)@,
    {
        assert(self.storage.len() <= usize::MAX);
        let offset: usize = match self.range(addr, dst.len()) {
            Ok(offset) => offset,
            Err(()) => {
                proof {
                    if self.mem().serves(addr as int, dst@.len() as int) {
                        assert(self.mem().maps(addr as int));
                        if dst@.len() > 0 {
                            assert(self.mem().maps(addr + dst@.len() - 1));
                        }
                    }
                }
                return Err(());
            },
        };
        let size: usize = dst.len();
        let last: usize = offset + size;
        let mut i: usize = 0;
        while i < size
            invariant
                i <= size,
                last == offset + size,
                size == dst@.len(),
                dst@.len() == old(dst)@.len(),
                offset + size <= self.storage@.len(),
                forall|k: int| 0 <= k < i ==> dst@[k] == self.storage@[offset + k],
            decreases size - i,
        {
            dst[i] = self.storage[offset + i];
            i += 1;
        }
        proof {
            assert(dst@ =~= self.mem().span(addr as int, dst@.len()));
        }
        Ok(())
    }

    fn write(&mut self, addr: u64, src: &[u8]) -> (done: Result<(), ()>)
        ensures
            done is Ok <==> old(self).holds(addr, src@.len()),
            done is Err ==> *final(self) == *old(self),
            final(self).base() == old(self).base(),
            final(self).data().len() == old(self).data().len(),
            final(self).mapped() == old(self).mapped(),
            done is Ok ==> final(self).overlapped() == (old(self).overlapped() || meets_any(
                addr,
                src@.len(),
                old(self).mapped(),
            )),
    {
        let offset: usize = match self.range(addr, src.len()) {
            Ok(offset) => offset,
            Err(()) => {
                proof {
                    if self.mem().serves(addr as int, src@.len() as int) {
                        assert(self.mem().maps(addr as int));
                        if src@.len() > 0 {
                            assert(self.mem().maps(addr + src@.len() - 1));
                        }
                    }
                }
                return Err(());
            },
        };
        self.note(addr, src.len());
        self.put(offset, src);
        Ok(())
    }

    fn load_acquire(&self, addr: u64) -> (value: Result<u16, ()>)
        ensures
            value is Ok <==> self.holds(addr, 2) && self.aligned(addr),
    {
        let offset: usize = match self.range(addr, 2) {
            Ok(offset) => offset,
            Err(()) => {
                proof {
                    if self.mem().maps_all(addr as int, 2) {
                        assert(self.mem().maps(addr as int) && self.mem().maps(addr + 1));
                    }
                }
                return Err(());
            },
        };
        if offset % 2 != 0 {
            proof {
                if self.mem().maps_all(addr as int, 2) {
                    assert(self.mem().maps(addr as int));
                }
            }
            return Err(());
        }
        let word: [u8; 2] = [self.storage[offset], self.storage[offset + 1]];
        proof {
            assert(word@ =~= self.mem().span(addr as int, 2));
        }
        Ok(le::read_le16(word.as_slice()))
    }

    fn store_release(&mut self, addr: u64, val: u16) -> (done: Result<(), ()>)
        ensures
            done is Ok <==> old(self).holds(addr, 2) && old(self).aligned(addr),
            done is Err ==> *final(self) == *old(self),
            final(self).base() == old(self).base(),
            final(self).data().len() == old(self).data().len(),
            final(self).mapped() == old(self).mapped(),
            done is Ok ==> final(self).overlapped() == (old(self).overlapped() || meets_any(
                addr,
                2,
                old(self).mapped(),
            )),
    {
        let offset: usize = match self.range(addr, 2) {
            Ok(offset) => offset,
            Err(()) => {
                proof {
                    if self.mem().maps_all(addr as int, 2) {
                        assert(self.mem().maps(addr as int) && self.mem().maps(addr + 1));
                    }
                }
                return Err(());
            },
        };
        if offset % 2 != 0 {
            proof {
                if self.mem().maps_all(addr as int, 2) {
                    assert(self.mem().maps(addr as int));
                }
            }
            return Err(());
        }
        let mut word: Vec<u8> = Vec::new();
        le::push_le16(&mut word, val);
        proof {
            assert(word@ =~= le::le16_bytes(val));
        }
        self.note(addr, 2);
        self.put(offset, word.as_slice());
        Ok(())
    }
}

impl BufferMap for FuzzMem {
    fn map_buffer(&mut self, allocation: Allocation, written: usize) -> (view: Result<Bytes, ()>)
        ensures
            view is Ok <==> old(self).holds(allocation.addr, allocation.len as nat),
            view is Err ==> *final(self) == *old(self),
            final(self).base() == old(self).base(),
            final(self).data() == old(self).data(),
            view is Ok ==> final(self).mapped() == old(self).mapped().push(allocation),
            view is Ok ==> final(self).overlapped() == (old(self).overlapped() || meets_any(
                allocation.addr,
                allocation.len as nat,
                old(self).mapped(),
            )),
    {
        assert(self.storage.len() <= usize::MAX);
        let offset: usize = match self.range(allocation.addr, allocation.len as usize) {
            Ok(offset) => offset,
            Err(()) => {
                proof {
                    if self.mem().serves(allocation.addr as int, allocation.len as int) {
                        assert(self.mem().maps(allocation.addr as int));
                        if allocation.len > 0 {
                            assert(self.mem().maps(allocation.addr + allocation.len - 1));
                        }
                    }
                }
                return Err(());
            },
        };
        let mut bytes: Vec<u8> = Vec::new();
        let last: usize = offset + written;
        let mut i: usize = 0;
        while i < written
            invariant
                i <= written,
                last == offset + written,
                offset + written <= self.storage@.len(),
                bytes@ == self.storage@.subrange(offset as int, offset + i),
            decreases written - i,
        {
            bytes.push(self.storage[offset + i]);
            i += 1;
            proof {
                assert(bytes@ =~= self.storage@.subrange(offset as int, offset + i));
            }
        }
        proof {
            assert(bytes@ =~= self.mem().span(allocation.addr as int, written as nat));
        }
        self.note(allocation.addr, allocation.len as usize);
        self.mappings.push(allocation);
        Ok(bytes_from_vec(bytes))
    }
}

/// Memory that serves the same addresses lies at the same place.
pub proof fn lemma_same_place(a: FuzzMem, b: FuzzMem)
    requires
        a.base() % 2 == 0,
        a.data().len() > 0,
        a.mem().same_mapping(b.mem()),
    ensures
        b.base() == a.base(),
        b.data().len() == a.data().len(),
{
    let (am, bm) = (a.mem(), b.mem());
    assert(am.maps(a.base() as int) == bm.maps(a.base() as int));
    assert(am.maps(b.base() as int) == bm.maps(b.base() as int));
    let a_last = a.base() + a.data().len() - 1;
    let b_last = b.base() + b.data().len() - 1;
    assert(am.maps(a_last) == bm.maps(a_last));
    assert(am.maps(b_last) == bm.maps(b_last));
}

/// An access meets a buffer exactly where a byte lies in both; an access of nothing meets
/// none.
pub proof fn law_access_meets_where_it_shares_a_byte(addr: u64, len: nat, buffer: Allocation)
    requires
        buffer.len > 0,
    ensures
        meets(addr, len, buffer) <==> exists|x: int|
            within(x, addr as int, len as int) && #[trigger] within(
                x,
                buffer.addr as int,
                buffer.len as int,
            ),
        len == 0 ==> !meets(addr, len, buffer),
{
    if meets(addr, len, buffer) {
        let x = if addr < buffer.addr {
            buffer.addr as int
        } else {
            addr as int
        };
        assert(within(x, addr as int, len as int));
        assert(within(x, buffer.addr as int, buffer.len as int));
    }
}

/// An address lies in a range.
pub open spec fn within(x: int, start: int, len: int) -> bool {
    start <= x < start + len
}

} // verus!
