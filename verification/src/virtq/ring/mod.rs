//! Packed virtqueue rings.
//!
//! One table of descriptors serves both directions. The driver ([`RingProducer`])
//! makes chains of descriptors available, the device ([`RingConsumer`]) takes them
//! and marks them used. Each side follows its own cursors round the table.

use vstd::prelude::*;

use super::desc;
use super::desc::{Descriptor, EventSuppression, EVENT_DESC, EVENT_DISABLE};

pub mod canonical;
pub mod coherence;
pub mod consumer;
pub mod laws;
pub mod producer;

pub use consumer::RingConsumer;
pub use producer::{RingProducer, UsedBuffer};


verus! {

/// The access to shared memory that failed.
#[derive(Debug, Clone, Copy, PartialEq, Eq, Structural)]
pub enum MemOp {
    ReadDesc,
    WriteDesc,
    ReadEvent,
    WriteEvent,
}

/// Failure of a ring operation.
#[derive(Debug, Clone, Copy, PartialEq, Eq, Structural)]
pub enum RingError {
    /// Nothing to do yet: the peer has not come that far, or the ring is full.
    WouldBlock,
    /// A chain without buffers.
    EmptyChain,
    /// The peer's chain is malformed.
    BadChain,
    /// The peer or the caller named a chain that is not in flight.
    InvalidState,
    /// Shared memory could not be accessed.
    MemError {
        op: MemOp,
        addr: u64,
    },
}

/// A position in the ring, with the wrap round it belongs to.
#[derive(Debug, Clone, Copy, PartialEq, Eq, Structural)]
pub struct RingCursor {
    pub head: u16,
    pub size: u16,
    pub wrap: bool,
}

impl RingCursor {
    pub open spec fn wf(self) -> bool {
        0 < self.size <= 0x8000 && self.head < self.size
    }

    /// The position `count` descriptors on.
    pub open spec fn step(self, count: int) -> RingCursor {
        if self.head + count < self.size {
            RingCursor { head: (self.head + count) as u16, ..self }
        } else {
            RingCursor {
                head: (self.head + count - self.size) as u16,
                size: self.size,
                wrap: !self.wrap,
            }
        }
    }

    /// The position in two rounds, the second one being the one without wrap.
    pub open spec fn round(self) -> int {
        if self.wrap {
            self.head as int
        } else {
            self.head + self.size
        }
    }

    /// Descriptors from this position to `other`, less than two rounds.
    pub open spec fn distance(self, other: RingCursor) -> int {
        (other.round() - self.round()) % (2 * self.size)
    }

    /// The start of the ring in the first wrap round.
    pub open spec fn start(size: u16) -> RingCursor {
        RingCursor { head: 0, size, wrap: true }
    }

    pub fn new(size: u16) -> (cursor: Self)
        ensures
            cursor == RingCursor::start(size),
    {
        RingCursor { head: 0, size, wrap: true }
    }

    /// Index of the descriptor at this position.
    pub fn head(&self) -> (head: u16)
        ensures
            head == self.head,
    {
        self.head
    }

    /// Wrap round of this position.
    pub fn wrap(&self) -> (wrap: bool)
        ensures
            wrap == self.wrap,
    {
        self.wrap
    }

    /// The position `count` descriptors on, at most once round the ring.
    pub fn advanced(self, count: u16) -> (cursor: Self)
        requires
            self.wf(),
            count <= self.size,
        ensures
            cursor == self.step(count as int),
            cursor.wf(),
    {
        let next: u32 = self.head as u32 + count as u32;
        if next < self.size as u32 {
            RingCursor { head: next as u16, size: self.size, wrap: self.wrap }
        } else {
            RingCursor { head: (next - self.size as u32) as u16, size: self.size, wrap: !self.wrap }
        }
    }
}

/// Steps add up, within one round.
pub proof fn lemma_steps_add(cursor: RingCursor, a: int, b: int)
    requires
        cursor.wf(),
        0 <= a,
        0 <= b,
        a + b <= cursor.size,
    ensures
        cursor.step(a).wf(),
        cursor.step(a).size == cursor.size,
        cursor.step(a).step(b) == cursor.step(a + b),
{
}

/// Positions less than a round apart are different descriptors.
pub proof fn lemma_steps_apart(cursor: RingCursor, a: int, b: int)
    requires
        cursor.wf(),
        0 <= a < b < cursor.size,
    ensures
        cursor.step(a).head != cursor.step(b).head,
{
}

/// A descriptor offset with its wrap round in the top bit.
pub open spec fn off_wrap(off: u16, wrap: bool) -> u16 {
    if wrap {
        (off + 0x8000) as u16
    } else {
        off
    }
}

/// Whether moving from `before` to `after` passed the descriptor, or made the
/// change, that an event suppression asks to be told of.
pub open spec fn notification_due(
    event: EventSuppression,
    before: RingCursor,
    after: RingCursor,
) -> bool {
    if event.flags == EVENT_DISABLE {
        false
    } else if event.flags == EVENT_DESC {
        let wanted = RingCursor {
            head: event.off() as u16,
            size: before.size,
            wrap: event.wrap(),
        };
        before.distance(wanted) < before.distance(after)
    } else {
        true
    }
}

/// Decide whether a move from `before` to `after` is to be notified.
pub fn should_notify(event: EventSuppression, before: RingCursor, after: RingCursor) -> (due: bool)
    requires
        before.wf(),
        after.wf(),
        before.size == after.size,
    ensures
        due == notification_due(event, before, after),
{
    if event.flags == EVENT_DISABLE {
        return false;
    }
    if event.flags != EVENT_DESC {
        return true;
    }
    let wanted = RingCursor {
        head: event.off_wrap % 0x8000,
        size: before.size,
        wrap: event.off_wrap >= 0x8000,
    };
    cursor_distance(before, wanted) < cursor_distance(before, after)
}

/// Descriptors from `from` to `to`, less than two rounds. `to` comes from the
/// peer and may lie outside the ring.
fn cursor_distance(from: RingCursor, to: RingCursor) -> (distance: u32)
    requires
        from.wf(),
        to.size == from.size,
    ensures
        distance == from.distance(to),
{
    let size: i64 = from.size as i64;
    let from_round: i64 = if from.wrap {
        from.head as i64
    } else {
        from.head as i64 + size
    };
    let to_round: i64 = if to.wrap {
        to.head as i64
    } else {
        to.head as i64 + size
    };
    let span: i64 = to_round - from_round + 2 * size;
    proof {
        vstd::arithmetic::div_mod::lemma_mod_add_multiples_vanish(
            to_round - from_round,
            2 * size as int,
        );
        vstd::arithmetic::div_mod::lemma_mod_bound(span as int, 2 * size as int);
    }
    (span % (2 * size)) as u32
}

/// One buffer of a chain.
#[derive(Debug, Clone, Copy, PartialEq, Eq, Structural)]
pub struct BufferElement {
    pub addr: u64,
    pub len: u32,
    pub writable: bool,
}

/// The buffer that a descriptor stands for.
pub open spec fn element_of(desc: Descriptor) -> BufferElement {
    BufferElement {
        addr: desc.addr,
        len: desc.len,
        writable: desc.flags & desc::DESC_WRITE != 0,
    }
}

impl BufferElement {
    pub(crate) fn from_desc(desc: &Descriptor) -> (elem: Self)
        ensures
            elem == element_of(*desc),
    {
        BufferElement {
            addr: desc.addr,
            len: desc.len,
            writable: desc.flags & desc::DESC_WRITE != 0,
        }
    }
}

/// The readable buffers come first.
pub open spec fn readable_first(elems: Seq<BufferElement>, split: int) -> bool {
    &&& 0 <= split <= elems.len()
    &&& forall|i: int| 0 <= i < elems.len() ==> (#[trigger] elems[i]).writable == (i >= split)
}

/// An ordered chain of buffers: those the device reads, then those it writes.
#[derive(Debug, Clone)]
pub struct BufferChain {
    elems: Vec<BufferElement>,
    split: usize,
}

impl View for BufferChain {
    type V = Seq<BufferElement>;

    closed spec fn view(&self) -> Seq<BufferElement> {
        self.elems@
    }
}

impl BufferChain {
    /// Number of readable buffers.
    pub closed spec fn num_readable(self) -> int {
        self.split as int
    }

    /// Every chain that a builder or a ring hands out has its readable buffers
    /// first.
    pub open spec fn wf(self) -> bool {
        readable_first(self@, self.num_readable())
    }

    pub(crate) fn from_parts(elems: Vec<BufferElement>, split: usize) -> (chain: Self)
        ensures
            chain@ == elems@,
            chain.num_readable() == split,
    {
        BufferChain { elems, split }
    }

    /// Number of buffers.
    pub fn len(&self) -> (len: usize)
        ensures
            len == self@.len(),
    {
        self.elems.len()
    }

    /// All buffers in descriptor order.
    pub fn elems(&self) -> (elems: &[BufferElement])
        ensures
            elems@ == self@,
    {
        self.elems.as_slice()
    }

    /// The buffers that the device reads.
    pub fn readables(&self) -> (elems: &[BufferElement])
        requires
            self.wf(),
        ensures
            elems@ == self@.take(self.num_readable()),
            forall|i: int| 0 <= i < elems@.len() ==> !(#[trigger] elems@[i]).writable,
    {
        vstd::slice::slice_subrange(self.elems.as_slice(), 0, self.split)
    }

    /// The buffers that the device writes.
    pub fn writables(&self) -> (elems: &[BufferElement])
        requires
            self.wf(),
        ensures
            elems@ == self@.skip(self.num_readable()),
            forall|i: int| 0 <= i < elems@.len() ==> (#[trigger] elems@[i]).writable,
    {
        vstd::slice::slice_subrange(self.elems.as_slice(), self.split, self.elems.len())
    }
}

/// Collects the buffers of a chain.
pub struct BufferChainBuilder {
    readables: Vec<BufferElement>,
    writables: Vec<BufferElement>,
}

impl BufferChainBuilder {
    pub closed spec fn readable_elems(self) -> Seq<BufferElement> {
        self.readables@
    }

    pub closed spec fn writable_elems(self) -> Seq<BufferElement> {
        self.writables@
    }

    pub open spec fn wf(self) -> bool {
        &&& forall|i: int|
            0 <= i < self.readable_elems().len() ==> !(#[trigger] self.readable_elems()[i]).writable
        &&& forall|i: int|
            0 <= i < self.writable_elems().len() ==> (#[trigger] self.writable_elems()[i]).writable
    }

    pub fn new() -> (builder: Self)
        ensures
            builder.wf(),
            builder.readable_elems().len() == 0,
            builder.writable_elems().len() == 0,
    {
        BufferChainBuilder { readables: Vec::new(), writables: Vec::new() }
    }

    /// Append a buffer for the device to read.
    pub fn readable(self, addr: u64, len: u32) -> (builder: Self)
        requires
            self.wf(),
        ensures
            builder.wf(),
            builder.readable_elems() == self.readable_elems().push(
                (BufferElement { addr, len, writable: false }),
            ),
            builder.writable_elems() == self.writable_elems(),
    {
        let mut this = self;
        this.readables.push(BufferElement { addr, len, writable: false });
        proof {
            assert forall|i: int| 0 <= i < this.readable_elems().len() implies !(
            #[trigger] this.readable_elems()[i]).writable by {
                if i < self.readable_elems().len() {
                    assert(this.readable_elems()[i] == self.readable_elems()[i]);
                }
            }
            assert(this.writable_elems() == self.writable_elems());
        }
        this
    }

    /// Append a buffer for the device to write.
    pub fn writable(self, addr: u64, len: u32) -> (builder: Self)
        requires
            self.wf(),
        ensures
            builder.wf(),
            builder.readable_elems() == self.readable_elems(),
            builder.writable_elems() == self.writable_elems().push(
                (BufferElement { addr, len, writable: true }),
            ),
    {
        let mut this = self;
        this.writables.push(BufferElement { addr, len, writable: true });
        proof {
            assert forall|i: int| 0 <= i < this.writable_elems().len() implies (
            #[trigger] this.writable_elems()[i]).writable by {
                if i < self.writable_elems().len() {
                    assert(this.writable_elems()[i] == self.writable_elems()[i]);
                }
            }
            assert(this.readable_elems() == self.readable_elems());
        }
        this
    }

    /// The chain of the collected buffers, the readable ones first.
    pub fn build(self) -> (chain: Result<BufferChain, RingError>)
        requires
            self.wf(),
        ensures
            chain is Err <==> self.readable_elems().len() + self.writable_elems().len() == 0,
            chain matches Err(e) ==> e == RingError::EmptyChain,
            chain matches Ok(c) ==> c.wf() && c@ == self.readable_elems() + self.writable_elems()
                && c.num_readable() == self.readable_elems().len(),
    {
        let mut elems = self.readables;
        let mut writables = self.writables;
        if elems.len() == 0 && writables.len() == 0 {
            return Err(RingError::EmptyChain);
        }
        let split: usize = elems.len();
        elems.append(&mut writables);
        proof {
            let readable = self.readable_elems();
            assert forall|i: int| 0 <= i < elems@.len() implies (#[trigger] elems@[i]).writable
                == (i >= split) by {
                if i < split {
                    assert(elems@[i] == readable[i]);
                } else {
                    assert(elems@[i] == self.writable_elems()[i - split]);
                }
            }
        }
        Ok(BufferChain { elems, split })
    }
}

/// Descriptors that all chains in flight hold together.
pub open spec fn total(counts: Seq<u16>) -> int
    decreases counts.len(),
{
    if counts.len() == 0 {
        0
    } else {
        total(counts.drop_last()) + counts.last()
    }
}

/// Descriptors beyond the first of each chain in flight.
pub open spec fn surplus(counts: Seq<u16>) -> int
    decreases counts.len(),
{
    if counts.len() == 0 {
        0
    } else {
        surplus(counts.drop_last()) + if counts.last() == 0 {
            0
        } else {
            counts.last() - 1
        }
    }
}

/// Changing one count changes the sums by the difference.
pub proof fn lemma_counts_update(counts: Seq<u16>, i: int, count: u16)
    requires
        0 <= i < counts.len(),
    ensures
        total(counts.update(i, count)) == total(counts) - counts[i] + count,
        surplus(counts.update(i, count)) == surplus(counts) - (if counts[i] == 0 {
            0
        } else {
            counts[i] - 1
        }) + (if count == 0 {
            0
        } else {
            count - 1
        }),
    decreases counts.len(),
{
    let last = counts.len() - 1;
    if i < last {
        assert(counts.update(i, count).drop_last() =~= counts.drop_last().update(i, count));
        lemma_counts_update(counts.drop_last(), i, count);
    } else {
        assert(counts.update(i, count).drop_last() =~= counts.drop_last());
    }
}

/// No count exceeds the sum.
pub proof fn lemma_counts_bound(counts: Seq<u16>, i: int)
    requires
        0 <= i < counts.len(),
    ensures
        0 <= counts[i] <= total(counts),
        surplus(counts) >= 0,
    decreases counts.len(),
{
    lemma_counts_nonneg(counts.drop_last());
    if i < counts.len() - 1 {
        lemma_counts_bound(counts.drop_last(), i);
    }
}

pub proof fn lemma_counts_nonneg(counts: Seq<u16>)
    ensures
        total(counts) >= 0,
        surplus(counts) >= 0,
    decreases counts.len(),
{
    if counts.len() > 0 {
        lemma_counts_nonneg(counts.drop_last());
    }
}

/// Without chains in flight the sums are zero.
pub proof fn lemma_counts_zero(counts: Seq<u16>)
    requires
        forall|i: int| 0 <= i < counts.len() ==> counts[i] == 0,
    ensures
        total(counts) == 0,
        surplus(counts) == 0,
    decreases counts.len(),
{
    if counts.len() > 0 {
        lemma_counts_zero(counts.drop_last());
    }
}

} // verus!
