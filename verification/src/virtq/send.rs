//! Chains that are filled for submission.

use vstd::prelude::*;
use vstd::seq_lib::*;

use super::access::{MemOps, MemView};
use super::entries::{BufferEntry, OwnedChain};
use super::pool::{AllocError, SlotPool};
use super::{entries, VirtqError};

verus! {

/// Tracks which write API a [`SendChain`] payload uses, so the two paths are
/// not mixed.
///
/// Copy writes ([`SendChain::write`]/[`SendChain::write_all`]) append at an
/// aggregate cursor, while direct writes
/// ([`SendChain::write_seg`]/[`SendChain::with_seg`]) set per-segment lengths
/// absolutely. Mixing them would corrupt the written-length accounting.
#[derive(Debug, Clone, Copy, PartialEq, Eq, Structural)]
pub enum WriteMode {
    Unset,
    Append,
    Direct,
}

/// Bytes that the records can hold.
pub open spec fn capacity_sum(entries: Seq<BufferEntry>) -> int
    decreases entries.len(),
{
    if entries.len() == 0 {
        0
    } else {
        capacity_sum(entries.drop_last()) + entries.last().capacity
    }
}

/// Bytes that the records hold.
pub open spec fn written_sum(entries: Seq<BufferEntry>) -> int
    decreases entries.len(),
{
    if entries.len() == 0 {
        0
    } else {
        written_sum(entries.drop_last()) + entries.last().written
    }
}

/// The initialized bytes of each record.
pub open spec fn entry_spans(mem: MemView, entries: Seq<BufferEntry>) -> Seq<Seq<u8>> {
    entries.map_values(|e: BufferEntry| mem.span(e.addr as int, e.written as nat))
}

/// The initialized bytes of all records in order.
pub open spec fn entries_payload(mem: MemView, entries: Seq<BufferEntry>) -> Seq<u8> {
    entry_spans(mem, entries).flatten()
}

/// The buffers do not overlap and end inside the address space.
pub open spec fn apart(entries: Seq<BufferEntry>) -> bool {
    &&& forall|i: int|
        0 <= i < entries.len() ==> (#[trigger] entries[i]).addr + entries[i].capacity <= u64::MAX
    &&& forall|i: int, j: int|
        0 <= i < entries.len() && 0 <= j < entries.len() && i != j ==> (#[trigger] entries[i]).addr
            + entries[i].capacity <= (#[trigger] entries[j]).addr || entries[j].addr
            + entries[j].capacity <= entries[i].addr
}

/// A buffer is begun only when all before it are full.
pub open spec fn filled_in_order(entries: Seq<BufferEntry>) -> bool {
    forall|i: int, j: int|
        0 <= i < j < entries.len() && (#[trigger] entries[j]).written > 0 ==> (
        #[trigger] entries[i]).written == entries[i].capacity
}

/// Whether an address lies in one of the buffers.
pub open spec fn in_entries(entries: Seq<BufferEntry>, addr: int) -> bool {
    exists|i: int|
        0 <= i < entries.len() && (#[trigger] entries[i]).addr <= addr < entries[i].addr
            + entries[i].capacity
}

/// Whether memory serves every access to the buffers.
pub open spec fn entries_mapped(mem: MemView, entries: Seq<BufferEntry>) -> bool {
    forall|i: int|
        0 <= i < entries.len() ==> mem.serves(
            (#[trigger] entries[i]).addr as int,
            entries[i].capacity as int,
        )
}

/// Sums and payload of one record more.
proof fn lemma_entries_step(mem: MemView, entries: Seq<BufferEntry>, i: int)
    requires
        0 <= i < entries.len(),
    ensures
        capacity_sum(entries.take(i + 1)) == capacity_sum(entries.take(i)) + entries[i].capacity,
        written_sum(entries.take(i + 1)) == written_sum(entries.take(i)) + entries[i].written,
        entries_payload(mem, entries.take(i + 1)) == entries_payload(mem, entries.take(i))
            + mem.span(entries[i].addr as int, entries[i].written as nat),
{
    assert(entries.take(i + 1).drop_last() =~= entries.take(i));
    let spans = entry_spans(mem, entries.take(i));
    let here = mem.span(entries[i].addr as int, entries[i].written as nat);
    assert(entry_spans(mem, entries.take(i + 1)) =~= spans.push(here));
    spans.lemma_flatten_push(here);
}

/// Sums of a prefix do not exceed those of the whole, and nothing is written
/// beyond capacity.
pub proof fn lemma_sums_prefix(entries: Seq<BufferEntry>, i: int)
    requires
        0 <= i <= entries.len(),
        forall|k: int|
            0 <= k < entries.len() ==> (#[trigger] entries[k]).written <= entries[k].capacity,
    ensures
        0 <= capacity_sum(entries.take(i)) <= capacity_sum(entries),
        0 <= written_sum(entries.take(i)) <= written_sum(entries),
        written_sum(entries.take(i)) <= capacity_sum(entries.take(i)),
        capacity_sum(entries) - capacity_sum(entries.take(i)) >= written_sum(entries)
            - written_sum(entries.take(i)),
    decreases entries.len(),
{
    if entries.len() == 0 {
        assert(entries.take(i) =~= entries);
    } else {
        let head = entries.drop_last();
        if i == entries.len() {
            assert(entries.take(i) =~= entries);
            lemma_sums_prefix(head, head.len() as int);
            assert(head.take(head.len() as int) =~= head);
            assert(entries[entries.len() - 1].written <= entries[entries.len() - 1].capacity);
        } else {
            assert(head.take(i) =~= entries.take(i));
            lemma_sums_prefix(head, i);
            assert(entries[entries.len() - 1].written <= entries[entries.len() - 1].capacity);
        }
    }
}

/// Changing one record changes the sums by the difference.
proof fn lemma_sums_update(entries: Seq<BufferEntry>, i: int, entry: BufferEntry)
    requires
        0 <= i < entries.len(),
        entry.capacity == entries[i].capacity,
    ensures
        capacity_sum(entries.update(i, entry)) == capacity_sum(entries),
        written_sum(entries.update(i, entry)) == written_sum(entries) - entries[i].written
            + entry.written,
    decreases entries.len(),
{
    if i == entries.len() - 1 {
        assert(entries.update(i, entry).drop_last() =~= entries.drop_last());
    } else {
        assert(entries.update(i, entry).drop_last() =~= entries.drop_last().update(i, entry));
        lemma_sums_update(entries.drop_last(), i, entry);
    }
}

/// Records without initialized bytes add nothing.
proof fn lemma_payload_unwritten(mem: MemView, entries: Seq<BufferEntry>, i: int)
    requires
        0 <= i <= entries.len(),
        forall|k: int| i <= k < entries.len() ==> (#[trigger] entries[k]).written == 0,
    ensures
        entries_payload(mem, entries) == entries_payload(mem, entries.take(i)),
    decreases entries.len() - i,
{
    if i < entries.len() {
        lemma_payload_unwritten(mem, entries, i + 1);
        lemma_entries_step(mem, entries, i);
        assert(mem.span(entries[i].addr as int, 0) =~= Seq::<u8>::empty());
        assert(entries_payload(mem, entries.take(i)) + Seq::<u8>::empty() =~= entries_payload(
            mem,
            entries.take(i),
        ));
    } else {
        assert(entries.take(i) =~= entries);
    }
}

/// Memory that agrees on the buffers has the same payload.
pub proof fn lemma_payload_same(a: MemView, b: MemView, entries: Seq<BufferEntry>)
    requires
        forall|i: int, x: int|
            #![trigger entries[i], b.byte(x)]
            0 <= i < entries.len() && entries[i].addr <= x < entries[i].addr + entries[i].written
                ==> b.byte(x) == a.byte(x),
    ensures
        entries_payload(a, entries) == entries_payload(b, entries),
{
    assert forall|i: int| 0 <= i < entries.len() implies (#[trigger] entry_spans(a, entries)[i])
        == entry_spans(b, entries)[i] by {
        let e = entries[i];
        assert(a.span(e.addr as int, e.written as nat) =~= b.span(
            e.addr as int,
            e.written as nat,
        ));
    }
    assert(entry_spans(a, entries) =~= entry_spans(b, entries));
}

/// The payload is as long as the records say.
pub proof fn lemma_payload_len(mem: MemView, entries: Seq<BufferEntry>)
    ensures
        entries_payload(mem, entries).len() == written_sum(entries) >= 0,
    decreases entries.len(),
{
    if entries.len() > 0 {
        let n = entries.len() - 1;
        lemma_payload_len(mem, entries.drop_last());
        lemma_entries_step(mem, entries, n);
        assert(entries.take(n) =~= entries.drop_last());
        assert(entries.take(n + 1) =~= entries);
    }
}

/// A configured send chain ready for writing and submission.
///
/// Created by `ChainBuilder::build`. Write readable payload bytes directly on
/// the chain, then submit it. A chain that is not submitted is given back with
/// [`SendChain::release`].
///
/// Copy writes (`write`/`write_all`) and direct writes (`write_seg`/`with_seg`)
/// must not be mixed on the same chain.
pub struct SendChain {
    pub owned: OwnedChain,
    pub rd_capacity: usize,
    pub rd_written: usize,
    pub write_mode: WriteMode,
}

impl SendChain {
    /// The records of the readable buffers.
    pub open spec fn readable(self) -> Seq<BufferEntry> {
        self.owned.buffers@.take(self.owned.readable as int)
    }

    /// The sums agree with the records, whose buffers do not overlap.
    pub open spec fn wf(self) -> bool {
        &&& self.owned.wf()
        &&& self.owned.buffers@.len() > 0
        &&& self.rd_capacity == capacity_sum(self.readable())
        &&& self.rd_written == written_sum(self.readable())
        &&& forall|i: int|
            0 <= i < self.readable().len() ==> (#[trigger] self.readable()[i]).written
                <= self.readable()[i].capacity
        &&& apart(self.owned.buffers@)
        &&& self.write_mode != WriteMode::Direct ==> filled_in_order(self.readable())
    }

    /// The payload written so far.
    pub open spec fn payload(self, mem: MemView) -> Seq<u8> {
        entries_payload(mem, self.readable())
    }

    /// The same buffers, possibly filled differently.
    pub open spec fn same_buffers(self, after: SendChain) -> bool {
        &&& after.owned.readable == self.owned.readable
        &&& after.owned.buffers@.len() == self.owned.buffers@.len()
        &&& after.rd_capacity == self.rd_capacity
        &&& forall|i: int|
            0 <= i < self.owned.buffers@.len() ==> (#[trigger] after.owned.buffers@[i]).addr
                == self.owned.buffers@[i].addr && after.owned.buffers@[i].capacity
                == self.owned.buffers@[i].capacity
        &&& forall|i: int|
            self.owned.readable <= i < self.owned.buffers@.len() ==> (
            #[trigger] after.owned.buffers@[i]) == self.owned.buffers@[i]
    }

    /// A prefix of `data`, as long as the written count has grown, was appended to the
    /// payload; no byte outside the readable buffers changed.
    pub open spec fn appended(
        self,
        after: SendChain,
        before_mem: MemView,
        after_mem: MemView,
        data: Seq<u8>,
    ) -> bool {
        let n = after.rd_written - self.rd_written;
        &&& 0 <= n <= data.len()
        &&& after.payload(after_mem) == self.payload(before_mem) + data.take(n)
        &&& forall|a: int|
            !in_entries(self.readable(), a) ==> #[trigger] after_mem.byte(a) == before_mem.byte(a)
    }

    /// Total number of descriptors in this chain.
    pub fn desc_count(&self) -> (count: usize)
        ensures
            count == self.owned.buffers@.len(),
    {
        self.owned.buffers.as_slice().len()
    }

    /// Number of readable descriptors in this chain.
    pub fn rd_desc_count(&self) -> (count: usize)
        ensures
            count == self.owned.readable,
    {
        self.owned.readable
    }

    /// Number of writable descriptors in this chain.
    pub fn wr_desc_count(&self) -> (count: usize)
        requires
            self.wf(),
        ensures
            count == self.owned.buffers@.len() - self.owned.readable,
    {
        self.desc_count() - self.rd_desc_count()
    }

    /// Total producer-written readable capacity in bytes.
    pub fn capacity(&self) -> (len: usize)
        ensures
            len == self.rd_capacity,
    {
        self.rd_capacity
    }

    /// Number of producer-written readable bytes written so far.
    pub fn written(&self) -> (len: usize)
        ensures
            len == self.rd_written,
    {
        self.rd_written
    }

    /// Remaining producer-written readable capacity.
    pub fn remaining(&self) -> (len: usize)
        requires
            self.wf(),
        ensures
            len == self.rd_capacity - self.rd_written,
    {
        proof {
            lemma_sums_prefix(self.readable(), self.readable().len() as int);
            assert(self.readable().take(self.readable().len() as int) =~= self.readable());
        }
        self.rd_capacity - self.rd_written
    }

    /// Write bytes into payload segments, returning how many bytes were written.
    ///
    /// Appends at the current aggregate write position and scatters across
    /// readable segments in chain order. If `buf` is larger than the remaining
    /// capacity, writes as many bytes as will fit. If a later memory write fails,
    /// the cursor and written length retain any earlier chunks written by the same
    /// call.
    ///
    /// # Errors
    ///
    /// - [`VirtqError::NoPayloadSegment`] - no readable buffer allocated
    /// - [`VirtqError::MemoryWriteError`] - underlying write failed
    pub fn write<M: MemOps>(&mut self, mem: &mut M, buf: &[u8]) -> (written: Result<
        usize,
        VirtqError,
    >)
        requires
            old(self).wf(),
            old(self).write_mode != WriteMode::Direct,
        ensures
            final(self).wf(),
            final(self).write_mode != WriteMode::Direct,
            old(self).same_buffers(*final(self)),
            old(mem).mem().same_mapping(final(mem).mem()),
            written == Err::<usize, VirtqError>(VirtqError::NoPayloadSegment)
                <==> old(self).owned.readable == 0,
            old(self).owned.readable == 0 ==> *final(self) == *old(self) && *final(mem) == *old(
                mem,
            ),
            old(self).appended(*final(self), old(mem).mem(), final(mem).mem(), buf@),
            ({
                let left = old(self).rd_capacity - old(self).rd_written;
                let fits = if buf@.len() < left {
                    buf@.len() as int
                } else {
                    left
                };
                match written {
                    Ok(n) => n == fits && final(self).rd_written == old(self).rd_written + n,
                    Err(e) => e == VirtqError::NoPayloadSegment || e
                        == VirtqError::MemoryWriteError && final(self).rd_written < old(
                        self,
                    ).rd_written + fits,
                }
            }),
            entries_mapped(old(mem).mem(), old(self).readable()) ==> !(written matches Err(
                VirtqError::MemoryWriteError,
            )),
    {
        proof {
            let start = self.payload(mem.mem());
            assert(start + buf@.take(0) =~= start);
        }
        if self.owned.readable == 0 {
            return Err(VirtqError::NoPayloadSegment);
        }
        let left: usize = self.remaining();
        let want: usize = if buf.len() < left {
            buf.len()
        } else {
            left
        };
        self.write_mode = WriteMode::Append;
        let ghost start = self.payload(mem.mem());
        let ghost first = self.readable();
        let mut done: usize = 0;
        let mut i: usize = 0;
        while i < self.owned.readable && done < want
            invariant
                self.wf(),
                self.write_mode == WriteMode::Append,
                old(self).same_buffers(*self),
                old(mem).mem().same_mapping(mem.mem()),
                first == old(self).readable(),
                start == old(self).payload(old(mem).mem()),
                done <= want <= buf@.len(),
                i <= self.owned.readable,
                self.rd_written == old(self).rd_written + done,
                old(self).rd_written + want <= old(self).rd_capacity,
                forall|k: int|
                    0 <= k < i ==> done == want || (#[trigger] self.readable()[k]).written
                        == self.readable()[k].capacity,
                self.payload(mem.mem()) == start + buf@.take(done as int),
                forall|a: int|
                    !in_entries(first, a) ==> #[trigger] mem.mem().byte(a)
                        == old(mem).mem().byte(a),
            decreases self.owned.readable - i,
        {
            let ghost before = self.readable();
            let ghost old_mem = mem.mem();
            let ghost whole = self.owned.buffers@;
            let entry = self.owned.buffers.as_slice()[i];
            proof {
                assert(before[i as int] == entry);
            }
            let room: usize = entry.capacity as usize - entry.written as usize;
            let len: usize = if room < want - done {
                room
            } else {
                want - done
            };
            if len != 0 {
                proof {
                    // The buffer is not full, so none behind it was begun.
                    assert forall|k: int| i < k < before.len() implies (
                    #[trigger] before[k]).written == 0 by {
                        if before[k].written > 0 {
                            assert(before[i as int].written == before[i as int].capacity);
                        }
                    }
                }
                let addr: u64 = entry.addr + entry.written as u64;
                let chunk = vstd::slice::slice_subrange(buf, done, done + len);
                proof {
                    lemma_room(before, i as int);
                    let place = first[i as int];
                    assert(old(self).owned.buffers@[i as int] == place);
                    assert(place.addr == entry.addr && place.capacity == entry.capacity);
                    if entries_mapped(old(mem).mem(), first) {
                        assert(old(mem).mem().maps_all(place.addr as int, place.capacity as int));
                        assert(mem.mem().maps_all(addr as int, len as int));
                    }
                }
                match mem.write(addr, chunk) {
                    Ok(()) => {},
                    Err(_) => {
                        proof {
                            lemma_payload_same(old_mem, mem.mem(), before);
                            assert forall|a: int| !in_entries(first, a) implies (
                            #[trigger] mem.mem().byte(a)) == old(mem).mem().byte(a) by {
                                assert(old_mem.byte(a) == mem.mem().byte(a));
                            }
                        }
                        return Err(VirtqError::MemoryWriteError);
                    },
                }
                let filled = BufferEntry {
                    addr: entry.addr,
                    capacity: entry.capacity,
                    written: entry.written + len as u32,
                };
                self.owned.buffers.set(i, filled);
                self.rd_written = self.rd_written + len;
                proof {
                    let after = self.readable();
                    assert(after =~= before.update(i as int, filled));
                    lemma_sums_update(before, i as int, filled);
                    lemma_append_payload(old_mem, mem.mem(), before, i as int, filled, chunk@);
                    assert((start + buf@.take(done as int)) + chunk@ =~= start + buf@.take(
                        done + len,
                    ));
                    assert forall|a: int| !in_entries(first, a) implies (
                    #[trigger] mem.mem().byte(a)) == old(mem).mem().byte(a) by {
                        assert(first[i as int].addr == entry.addr && first[i as int].capacity
                            == entry.capacity);
                        assert(!(entry.addr <= a < entry.addr + entry.capacity));
                    }
                    lemma_apart_update(whole, i as int, filled);
                }
                done = done + len;
            }
            i = i + 1;
        }
        proof {
            if done < want {
                lemma_full(self.readable());
            }
        }
        Ok(done)
    }

    /// Write the entire buffer into payload segments.
    ///
    /// # Errors
    ///
    /// - [`VirtqError::PayloadTooLarge`] - buf exceeds remaining capacity
    /// - [`VirtqError::NoPayloadSegment`] - no readable buffer allocated
    /// - [`VirtqError::MemoryWriteError`] - underlying write failed
    pub fn write_all<M: MemOps>(&mut self, mem: &mut M, buf: &[u8]) -> (done: Result<
        (),
        VirtqError,
    >)
        requires
            old(self).wf(),
            old(self).write_mode != WriteMode::Direct,
        ensures
            final(self).wf(),
            final(self).write_mode != WriteMode::Direct,
            old(self).same_buffers(*final(self)),
            old(mem).mem().same_mapping(final(mem).mem()),
            done == Err::<(), VirtqError>(VirtqError::NoPayloadSegment) <==> old(
                self,
            ).owned.readable == 0,
            ({
                let left = (old(self).rd_capacity - old(self).rd_written) as usize;
                done == Err::<(), VirtqError>(
                    VirtqError::PayloadTooLarge { recv: buf@.len() as usize, limit: left },
                ) <==> old(self).owned.readable != 0 && buf@.len() > left
            }),
            done is Err && done->Err_0 != VirtqError::MemoryWriteError ==> *final(self) == *old(
                self,
            ) && *final(mem) == *old(mem),
            old(self).appended(*final(self), old(mem).mem(), final(mem).mem(), buf@),
            done is Ok ==> final(self).rd_written == old(self).rd_written + buf@.len()
                && final(self).payload(final(mem).mem()) == old(self).payload(old(mem).mem())
                + buf@,
            done == Err::<(), VirtqError>(VirtqError::MemoryWriteError) ==> final(self).rd_written
                < old(self).rd_written + buf@.len(),
            done matches Err(e) ==> e == VirtqError::NoPayloadSegment || e
                == VirtqError::MemoryWriteError || e == (VirtqError::PayloadTooLarge {
                recv: buf@.len() as usize,
                limit: (old(self).rd_capacity - old(self).rd_written) as usize,
            }),
            entries_mapped(old(mem).mem(), old(self).readable()) ==> !(done matches Err(
                VirtqError::MemoryWriteError,
            )),
    {
        proof {
            let start = self.payload(mem.mem());
            assert(start + buf@.take(0) =~= start);
        }
        if self.owned.readable == 0 {
            return Err(VirtqError::NoPayloadSegment);
        }
        let left: usize = self.remaining();
        if buf.len() > left {
            return Err(VirtqError::PayloadTooLarge { recv: buf.len(), limit: left });
        }
        proof {
            assert(buf@.take(buf@.len() as int) =~= buf@);
        }
        match self.write(mem, buf) {
            Ok(_) => Ok(()),
            Err(err) => Err(err),
        }
    }

    /// Write bytes into one readable segment by index.
    ///
    /// Writes from the start of the selected segment and records `buf.len()` as
    /// that segment's descriptor length.
    ///
    /// # Errors
    ///
    /// - [`VirtqError::NoPayloadSegment`] - `index` does not name a payload segment
    /// - [`VirtqError::PayloadTooLarge`] - `buf` exceeds the segment capacity
    /// - [`VirtqError::MemoryWriteError`] - underlying write failed
    pub fn write_seg<M: MemOps>(&mut self, mem: &mut M, index: usize, buf: &[u8]) -> (done: Result<
        (),
        VirtqError,
    >)
        requires
            old(self).wf(),
            old(self).write_mode != WriteMode::Append,
        ensures
            final(self).wf(),
            final(self).write_mode == WriteMode::Direct,
            old(self).same_buffers(*final(self)),
            old(mem).mem().same_mapping(final(mem).mem()),
            done == Err::<(), VirtqError>(VirtqError::NoPayloadSegment) <==> index >= old(
                self,
            ).owned.readable,
            done matches Err(VirtqError::PayloadTooLarge { recv, limit }) ==> recv == buf@.len()
                && limit == old(self).owned.buffers@[index as int].capacity,
            done matches Err(VirtqError::PayloadTooLarge { recv, limit }) <==> index < old(
                self,
            ).owned.readable && buf@.len() > old(self).owned.buffers@[index as int].capacity,
            done is Err ==> final(self).owned.buffers@ == old(self).owned.buffers@,
            done is Err ==> old(mem).mem().same_bytes(final(mem).mem()),
            done is Err && done->Err_0 != VirtqError::MemoryWriteError ==> *final(mem) == *old(
                mem,
            ),
            done is Ok ==> {
                let entry = old(self).owned.buffers@[index as int];
                &&& final(self).owned.buffers@ == old(self).owned.buffers@.update(
                    index as int,
                    (BufferEntry { written: buf@.len() as u32, ..entry }),
                )
                &&& old(mem).mem().stored(final(mem).mem(), entry.addr as int, buf@)
            },
            done matches Err(e) ==> e == VirtqError::NoPayloadSegment || e is PayloadTooLarge || e
                == VirtqError::MemoryWriteError,
            entries_mapped(old(mem).mem(), old(self).readable()) ==> !(done matches Err(
                VirtqError::MemoryWriteError,
            )),
    {
        self.write_mode = WriteMode::Direct;
        if index >= self.owned.readable {
            return Err(VirtqError::NoPayloadSegment);
        }
        let entry = self.owned.buffers.as_slice()[index];
        proof {
            assert(self.readable()[index as int] == entry);
        }
        if buf.len() > entry.capacity as usize {
            return Err(
                VirtqError::PayloadTooLarge { recv: buf.len(), limit: entry.capacity as usize },
            );
        }
        match mem.write(entry.addr, buf) {
            Ok(()) => {},
            Err(_) => return Err(VirtqError::MemoryWriteError),
        }
        self.set_written(index, buf.len() as u32);
        Ok(())
    }

    /// Record how many bytes were serialized directly into one readable segment.
    ///
    /// The segment belongs to this chain alone until it is submitted, so its memory
    /// may be filled in place; `written` is the number of valid bytes.
    ///
    /// # Errors
    ///
    /// - [`VirtqError::NoPayloadSegment`] - `index` does not name a payload segment
    /// - [`VirtqError::PayloadTooLarge`] - more bytes than the segment's capacity
    pub fn with_seg(&mut self, index: usize, written: usize) -> (done: Result<(), VirtqError>)
        requires
            old(self).wf(),
            old(self).write_mode != WriteMode::Append,
        ensures
            final(self).wf(),
            final(self).write_mode == WriteMode::Direct,
            old(self).same_buffers(*final(self)),
            done == Err::<(), VirtqError>(VirtqError::NoPayloadSegment) <==> index >= old(
                self,
            ).owned.readable,
            done matches Err(VirtqError::PayloadTooLarge { recv, limit }) ==> recv == written
                && limit == old(self).owned.buffers@[index as int].capacity,
            done matches Err(VirtqError::PayloadTooLarge { recv, limit }) <==> index < old(
                self,
            ).owned.readable && written > old(self).owned.buffers@[index as int].capacity,
            done is Err ==> final(self).owned.buffers@ == old(self).owned.buffers@,
            done matches Err(e) ==> e == VirtqError::NoPayloadSegment || e is PayloadTooLarge,
            done is Ok ==> final(self).owned.buffers@ == old(self).owned.buffers@.update(
                index as int,
                (BufferEntry {
                    written: written as u32,
                    ..old(self).owned.buffers@[index as int]
                }),
            ),
    {
        self.write_mode = WriteMode::Direct;
        if index >= self.owned.readable {
            return Err(VirtqError::NoPayloadSegment);
        }
        let entry = self.owned.buffers.as_slice()[index];
        if written > entry.capacity as usize {
            return Err(
                VirtqError::PayloadTooLarge { recv: written, limit: entry.capacity as usize },
            );
        }
        self.set_written(index, written as u32);
        Ok(())
    }

    /// Place and capacity of one readable segment.
    pub fn segment(&self, index: usize) -> (place: Option<(u64, u32)>)
        requires
            self.wf(),
        ensures
            place is Some <==> index < self.owned.readable,
            place matches Some((addr, capacity)) ==> addr == self.owned.buffers@[index as int].addr
                && capacity == self.owned.buffers@[index as int].capacity,
    {
        if index >= self.owned.readable {
            return None;
        }
        let entry = self.owned.buffers.as_slice()[index];
        Some((entry.addr, entry.capacity))
    }

    fn set_written(&mut self, index: usize, written: u32)
        requires
            old(self).wf(),
            old(self).write_mode == WriteMode::Direct,
            index < old(self).owned.readable,
            written <= old(self).owned.buffers@[index as int].capacity,
        ensures
            final(self).wf(),
            final(self).write_mode == WriteMode::Direct,
            old(self).same_buffers(*final(self)),
            final(self).owned.buffers@ == old(self).owned.buffers@.update(
                index as int,
                (BufferEntry { written, ..old(self).owned.buffers@[index as int] }),
            ),
    {
        let entry = self.owned.buffers.as_slice()[index];
        let ghost before = self.readable();
        let ghost whole = self.owned.buffers@;
        let filled = BufferEntry { addr: entry.addr, capacity: entry.capacity, written };
        proof {
            assert(before[index as int] == entry);
            lemma_sums_update(before, index as int, filled);
            lemma_sums_prefix(before, before.len() as int);
            lemma_sums_prefix(before.update(index as int, filled), before.len() as int);
            assert(before.take(before.len() as int) =~= before);
            let after = before.update(index as int, filled);
            assert(after.take(after.len() as int) =~= after);
            lemma_one_written(before, index as int);
        }
        self.owned.buffers.set(index, filled);
        self.rd_written = self.rd_written - entry.written as usize + written as usize;
        proof {
            assert(self.readable() =~= before.update(index as int, filled));
            lemma_apart_update(whole, index as int, filled);
        }
    }

    /// Give the buffers back to the pool without submitting them.
    pub fn release(self, pool: &mut SlotPool) -> (done: Result<(), AllocError>)
        requires
            old(pool).wf(),
        ensures
            final(pool).wf(),
            final(pool)@ == entries::released(
                old(pool)@,
                entries::addrs_of(self.owned.buffers@),
            ),
            done == match entries::release_error(
                old(pool)@,
                entries::addrs_of(self.owned.buffers@),
            ) {
                Some(e) => Err::<(), AllocError>(e),
                None => Ok(()),
            },
    {
        self.owned.release(pool)
    }
}

/// One record's bytes are among all.
proof fn lemma_one_written(entries: Seq<BufferEntry>, i: int)
    requires
        0 <= i < entries.len(),
    ensures
        entries[i].written <= written_sum(entries),
        0 <= written_sum(entries),
    decreases entries.len(),
{
    lemma_payload_len(arbitrary(), entries.drop_last());
    if i < entries.len() - 1 {
        lemma_one_written(entries.drop_last(), i);
    }
}

/// A record's free room is part of the chain's.
proof fn lemma_room(entries: Seq<BufferEntry>, i: int)
    requires
        0 <= i < entries.len(),
        forall|k: int|
            0 <= k < entries.len() ==> (#[trigger] entries[k]).written <= entries[k].capacity,
    ensures
        written_sum(entries) + entries[i].capacity - entries[i].written <= capacity_sum(entries),
    decreases entries.len(),
{
    let last = entries.len() - 1;
    assert(entries[last].written <= entries[last].capacity);
    let head = entries.drop_last();
    if i < last {
        lemma_room(head, i);
    } else {
        lemma_sums_prefix(head, head.len() as int);
        assert(head.take(head.len() as int) =~= head);
    }
}

/// Full records hold as much as they can.
proof fn lemma_full(entries: Seq<BufferEntry>)
    requires
        forall|k: int|
            0 <= k < entries.len() ==> (#[trigger] entries[k]).written == entries[k].capacity,
    ensures
        written_sum(entries) == capacity_sum(entries),
    decreases entries.len(),
{
    if entries.len() > 0 {
        lemma_full(entries.drop_last());
        assert(entries[entries.len() - 1].written == entries[entries.len() - 1].capacity);
    }
}

proof fn lemma_apart_update(entries: Seq<BufferEntry>, i: int, entry: BufferEntry)
    requires
        apart(entries),
        0 <= i < entries.len(),
        entry.addr == entries[i].addr,
        entry.capacity == entries[i].capacity,
    ensures
        apart(entries.update(i, entry)),
{
    let after = entries.update(i, entry);
    assert forall|k: int| 0 <= k < after.len() implies (#[trigger] after[k]).addr
        + after[k].capacity <= u64::MAX by {
        assert(entries[k].addr + entries[k].capacity <= u64::MAX);
    }
    assert forall|k: int, j: int|
        0 <= k < after.len() && 0 <= j < after.len() && k != j implies (#[trigger] after[k]).addr
        + after[k].capacity <= (#[trigger] after[j]).addr || after[j].addr + after[j].capacity
        <= after[k].addr by {
        assert(entries[k].addr + entries[k].capacity <= entries[j].addr || entries[j].addr
            + entries[j].capacity <= entries[k].addr);
    }
}

/// Storing behind the initialized bytes of the last begun buffer appends to the
/// payload.
proof fn lemma_append_payload(
    before: MemView,
    after: MemView,
    entries: Seq<BufferEntry>,
    i: int,
    filled: BufferEntry,
    chunk: Seq<u8>,
)
    requires
        0 <= i < entries.len(),
        apart(entries),
        forall|k: int|
            0 <= k < entries.len() ==> (#[trigger] entries[k]).written <= entries[k].capacity,
        forall|k: int| i < k < entries.len() ==> (#[trigger] entries[k]).written == 0,
        filled.addr == entries[i].addr,
        filled.capacity == entries[i].capacity,
        filled.written == entries[i].written + chunk.len(),
        filled.written <= filled.capacity,
        before.stored(after, entries[i].addr + entries[i].written, chunk),
    ensures
        entries_payload(after, entries.update(i, filled)) == entries_payload(before, entries)
            + chunk,
{
    let updated = entries.update(i, filled);
    assert forall|k: int| i + 1 <= k < updated.len() implies (#[trigger] updated[k]).written
        == 0 by {
        assert(entries[k].written == 0);
    }
    lemma_payload_unwritten(before, entries, i + 1);
    lemma_payload_unwritten(after, updated, i + 1);
    lemma_entries_step(before, entries, i);
    lemma_entries_step(after, updated, i);
    assert(updated.take(i) =~= entries.take(i));
    let head = entries.take(i);
    assert forall|k: int, x: int|
        #![trigger head[k], after.byte(x)]
        0 <= k < head.len() && head[k].addr <= x < head[k].addr + head[k].written implies after.byte(
        x,
    ) == before.byte(x) by {
        assert(head[k] == entries[k]);
        assert(entries[k].addr + entries[k].capacity <= entries[i].addr || entries[i].addr
            + entries[i].capacity <= entries[k].addr);
    }
    lemma_payload_same(before, after, head);
    let e = entries[i];
    assert(after.span(e.addr as int, filled.written as nat) =~= before.span(
        e.addr as int,
        e.written as nat,
    ) + chunk);
}

} // verus!
