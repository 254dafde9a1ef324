//! Bounds of the guest's accesses to virtqueue memory.

use vstd::prelude::*;

verus! {

/// Guest-side memory accessor for GVA-valued virtqueue addresses.
///
/// Copies reject buffers that overlap the accessed scratch range.
#[derive(Debug, Clone, Copy, PartialEq, Eq, Structural)]
pub struct GuestMemOps {
    scratch_gva: u64,
    scratch_end: u64,
}

/// Invalid guest virtqueue memory access.
#[derive(Debug, Clone, Copy, PartialEq, Eq, Structural)]
pub struct GuestMemError;

/// Two ranges of `len` bytes share a byte.
pub open spec fn overlap(a: int, b: int, len: int) -> bool {
    exists|x: int| a <= x < a + len && #[trigger] in_range(x, b, len)
}

/// An address lies in a range.
pub open spec fn in_range(x: int, start: int, len: int) -> bool {
    start <= x < start + len
}

impl GuestMemOps {
    pub closed spec fn start(self) -> u64 {
        self.scratch_gva
    }

    pub closed spec fn end(self) -> u64 {
        self.scratch_end
    }

    /// The range lies in scratch.
    pub open spec fn contains(self, addr: u64, len: int) -> bool {
        self.start() <= addr && addr + len <= self.end()
    }

    /// A two-byte word can be accessed.
    pub open spec fn word_at(self, addr: u64) -> bool {
        self.contains(addr, 2) && addr % 2 == 0
    }

    /// Bytes can be copied between scratch and a buffer.
    pub open spec fn copyable(self, addr: u64, buffer: u64, len: int) -> bool {
        self.contains(addr, len) && !overlap(addr as int, buffer as int, len)
    }

    /// Create an accessor for a scratch virtual address range.
    pub fn from_raw_parts(scratch_gva: u64, scratch_len: u64) -> (mem: Self)
        requires
            scratch_gva + scratch_len <= u64::MAX,
        ensures
            mem.start() == scratch_gva,
            mem.end() == scratch_gva + scratch_len,
    {
        GuestMemOps { scratch_gva, scratch_end: scratch_gva + scratch_len }
    }

    /// Check that a range lies in scratch.
    pub fn check_range(&self, addr: u64, len: usize) -> (checked: Result<(), GuestMemError>)
        ensures
            checked is Ok <==> self.contains(addr, len as int),
    {
        let end: u64 = match addr.checked_add(len as u64) {
            Some(end) => end,
            None => return Err(GuestMemError),
        };
        if addr < self.scratch_gva || end > self.scratch_end {
            return Err(GuestMemError);
        }
        Ok(())
    }

    /// Check that an aligned two-byte word lies in scratch.
    pub fn check_word(&self, addr: u64) -> (checked: Result<(), GuestMemError>)
        ensures
            checked is Ok <==> self.word_at(addr),
            checked is Ok <==> self.contains(addr, 2) && addr % 2 == 0,
    {
        match self.check_range(addr, 2) {
            Ok(()) => if addr % 2 == 0 {
                Ok(())
            } else {
                Err(GuestMemError)
            },
            Err(error) => Err(error),
        }
    }

    /// Check that `len` bytes can be copied between scratch and a buffer at `buffer`. An
    /// empty copy needs only an address in bounds.
    pub fn check_copy(&self, addr: u64, buffer: u64, len: usize) -> (checked: Result<
        (),
        GuestMemError,
    >)
        ensures
            checked is Ok <==> self.copyable(addr, buffer, len as int),
            checked is Ok <==> self.contains(addr, len as int) && !overlap(
                addr as int,
                buffer as int,
                len as int,
            ),
    {
        match self.check_range(addr, len) {
            Ok(()) => {},
            Err(error) => return Err(error),
        }
        if len == 0 {
            return Ok(());
        }
        let distance: u64 = if addr < buffer {
            buffer - addr
        } else {
            addr - buffer
        };
        if distance < len as u64 {
            proof {
                let shared: int = if addr < buffer {
                    buffer as int
                } else {
                    addr as int
                };
                assert(in_range(shared, buffer as int, len as int));
            }
            return Err(GuestMemError);
        }
        Ok(())
    }
}

/// Ranges of one length share a byte exactly where they are less than that length apart.
pub proof fn law_ranges_overlap_when_they_are_close(a: int, b: int, len: int)
    ensures
        overlap(a, b, len) <==> a - len < b < a + len,
        overlap(a, b, len) <==> overlap(b, a, len),
{
    if a - len < b < a + len {
        let shared = if a < b {
            b
        } else {
            a
        };
        assert(in_range(shared, b, len));
        assert(in_range(shared, a, len));
    }
}

/// A range lies in scratch exactly where each of its bytes does.
pub proof fn law_range_lies_in_scratch_byte_by_byte(mem: GuestMemOps, addr: u64, len: int)
    requires
        len > 0,
        mem.start() <= mem.end(),
    ensures
        mem.contains(addr, len) <==> forall|x: int| #[trigger]
            in_range(x, addr as int, len) ==> mem.start() <= x < mem.end(),
{
    assert(in_range(addr as int, addr as int, len));
    assert(in_range(addr + len - 1, addr as int, len));
}

/// Bytes are copied only within scratch, and never onto themselves: the buffer begins at least
/// as far away as the copy is long. An empty copy needs only an address in bounds.
pub proof fn law_copies_stay_in_scratch_and_apart(
    mem: GuestMemOps,
    addr: u64,
    buffer: u64,
    len: int,
)
    requires
        len >= 0,
    ensures
        mem.copyable(addr, buffer, len) <==> mem.start() <= addr && addr + len <= mem.end() && (len
            == 0 || buffer >= addr + len || addr >= buffer + len),
        mem.word_at(addr) <==> mem.start() <= addr && addr + 2 <= mem.end() && addr % 2 == 0,
{
    law_ranges_overlap_when_they_are_close(addr as int, buffer as int, len);
}

} // verus!
