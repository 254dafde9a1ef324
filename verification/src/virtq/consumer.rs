//! Device side of a virtqueue.

use bytes::Bytes;
use smallvec::SmallVec;
use vstd::prelude::*;
use vstd::seq_lib::*;

use super::access::{read_vec, MemOps, MemView};
use super::buffer::Segments;
use super::desc::Layout;
use super::ring::{BufferElement, RingConsumer, RingCursor, RingError};
use super::ring;
use super::desc;
use super::{Notifier, QueueStats, SuppressionKind, Token, VirtqError};
use crate::octets::{bytes_from_vec, bytes_new};
use crate::octets;

verus! {

/// Buffers of one half of a chain, kept inline up to four of them.
#[verifier::external_body]
pub struct ElemList {
    items: SmallVec<[BufferElement; 4]>,
}

/// The buffers an element list holds.
pub uninterp spec fn elem_items(list: ElemList) -> Seq<BufferElement>;

impl View for ElemList {
    type V = Seq<BufferElement>;

    open spec fn view(&self) -> Seq<BufferElement> {
        elem_items(*self)
    }
}

impl ElemList {
    /// `SmallVec::from_slice`: a copy of the slice.
    #[verifier::external_body]
    pub(crate) fn from_slice(elems: &[BufferElement]) -> (list: ElemList)
        ensures
            elem_items(list) == elems@,
    {
        ElemList { items: SmallVec::from_slice(elems) }
    }

    /// `SmallVec::as_slice`: the items.
    #[verifier::external_body]
    pub(crate) fn as_slice(&self) -> (elems: &[BufferElement])
        ensures
            elems@ == elem_items(*self),
    {
        self.items.as_slice()
    }
}

/// Bytes that the buffers hold together.
pub open spec fn elems_len(elems: Seq<BufferElement>) -> int
    decreases elems.len(),
{
    if elems.len() == 0 {
        0
    } else {
        elems_len(elems.drop_last()) + elems.last().len
    }
}

/// The bytes of each buffer.
pub open spec fn elem_spans(mem: MemView, elems: Seq<BufferElement>) -> Seq<Seq<u8>> {
    elems.map_values(|e: BufferElement| mem.span(e.addr as int, e.len as nat))
}

/// The bytes of all buffers in order.
pub open spec fn elems_payload(mem: MemView, elems: Seq<BufferElement>) -> Seq<u8> {
    elem_spans(mem, elems).flatten()
}

/// One more buffer adds its bytes.
pub proof fn lemma_elems_step(mem: MemView, elems: Seq<BufferElement>, i: int)
    requires
        0 <= i < elems.len(),
    ensures
        elems_len(elems.take(i + 1)) == elems_len(elems.take(i)) + elems[i].len,
        elems_payload(mem, elems.take(i + 1)) == elems_payload(mem, elems.take(i)) + mem.span(
            elems[i].addr as int,
            elems[i].len as nat,
        ),
{
    assert(elems.take(i + 1).drop_last() =~= elems.take(i));
    let spans = elem_spans(mem, elems.take(i));
    let here = mem.span(elems[i].addr as int, elems[i].len as nat);
    assert(elem_spans(mem, elems.take(i + 1)) =~= spans.push(here));
    spans.lemma_flatten_push(here);
}

/// The payload of a chain is as long as its buffers, and continues that of every
/// prefix.
pub proof fn lemma_elems_prefix(mem: MemView, elems: Seq<BufferElement>, i: int)
    requires
        0 <= i <= elems.len(),
    ensures
        elems_payload(mem, elems.take(i)).len() == elems_len(elems.take(i)),
        0 <= elems_len(elems.take(i)) <= elems_len(elems),
        elems_payload(mem, elems.take(i)) == elems_payload(mem, elems).take(
            elems_len(elems.take(i)),
        ),
        elems_payload(mem, elems).len() == elems_len(elems),
    decreases elems.len() - i,
{
    lemma_elems_len(mem, elems.take(i));
    lemma_elems_len(mem, elems);
    if i == elems.len() {
        assert(elems.take(i) =~= elems);
        assert(elems_payload(mem, elems).take(elems_len(elems)) =~= elems_payload(mem, elems));
    } else {
        lemma_elems_prefix(mem, elems, i + 1);
        lemma_elems_step(mem, elems, i);
        let here = elems_payload(mem, elems.take(i));
        let next = elems_payload(mem, elems.take(i + 1));
        assert(here =~= next.take(here.len() as int));
        assert(next.take(here.len() as int) =~= elems_payload(mem, elems).take(
            here.len() as int,
        ));
    }
}

proof fn lemma_elems_len(mem: MemView, elems: Seq<BufferElement>)
    ensures
        elems_payload(mem, elems).len() == elems_len(elems) >= 0,
    decreases elems.len(),
{
    if elems.len() > 0 {
        let n = elems.len() - 1;
        lemma_elems_len(mem, elems.drop_last());
        lemma_elems_step(mem, elems, n);
        assert(elems.take(n) =~= elems.drop_last());
        assert(elems.take(n + 1) =~= elems);
    }
}

/// A position in the buffers of a chain.
struct ChainState {
    token: Token,
    elems: ElemList,
    total: usize,
    position: usize,
    desc_idx: usize,
    desc_off: usize,
}

impl ChainState {
    /// The index and the offset say where the position lies: on a byte, or at the
    /// end.
    spec fn wf(self) -> bool {
        let elems = self.elems@;
        &&& self.total == elems_len(elems)
        &&& self.position <= self.total
        &&& self.desc_idx <= elems.len()
        &&& self.position == elems_len(elems.take(self.desc_idx as int)) + self.desc_off
        &&& self.desc_idx < elems.len() ==> self.desc_off < elems[self.desc_idx as int].len
        &&& self.desc_idx == elems.len() ==> self.desc_off == 0
    }

    fn new(token: Token, elems: ElemList, total: usize) -> (state: Self)
        requires
            total == elems_len(elems@),
        ensures
            state.wf(),
            state.token == token,
            state.elems == elems,
            state.total == total,
            state.position == 0,
    {
        let mut state = ChainState { token, elems, total, position: 0, desc_idx: 0, desc_off: 0 };
        state.rewind();
        state
    }

    fn rewind(&mut self)
        requires
            old(self).total == elems_len(old(self).elems@),
        ensures
            final(self).wf(),
            final(self).position == 0,
            final(self).token == old(self).token,
            final(self).elems == old(self).elems,
            final(self).total == old(self).total,
    {
        self.position = 0;
        self.desc_off = 0;
        self.desc_idx = 0;
        proof {
            assert(self.elems@.take(0) =~= Seq::<BufferElement>::empty());
        }
        self.skip_full();
    }

    /// Move from behind a buffer's last byte to the next buffer that has one.
    fn skip_full(&mut self)
        requires
            old(self).total == elems_len(old(self).elems@),
            old(self).position <= old(self).total,
            old(self).desc_idx <= old(self).elems@.len(),
            old(self).position == elems_len(old(self).elems@.take(old(self).desc_idx as int))
                + old(self).desc_off,
            old(self).desc_idx < old(self).elems@.len() ==> old(self).desc_off
                <= old(self).elems@[old(self).desc_idx as int].len,
            old(self).desc_idx == old(self).elems@.len() ==> old(self).desc_off == 0,
        ensures
            final(self).wf(),
            final(self).position == old(self).position,
            final(self).token == old(self).token,
            final(self).elems == old(self).elems,
            final(self).total == old(self).total,
    {
        while self.desc_idx < self.elems.as_slice().len() && self.desc_off
            == self.elems.as_slice()[self.desc_idx].len as usize
            invariant
                self.total == elems_len(self.elems@),
                self.position <= self.total,
                self.desc_idx <= self.elems@.len(),
                self.position == elems_len(self.elems@.take(self.desc_idx as int))
                    + self.desc_off,
                self.desc_idx < self.elems@.len() ==> self.desc_off
                    <= self.elems@[self.desc_idx as int].len,
                self.desc_idx == self.elems@.len() ==> self.desc_off == 0,
                self.position == old(self).position,
                self.token == old(self).token,
                self.elems == old(self).elems,
                self.total == old(self).total,
            decreases self.elems@.len() - self.desc_idx,
        {
            proof {
                let elems = self.elems@;
                let i = self.desc_idx as int;
                assert(elems.take(i + 1).drop_last() =~= elems.take(i));
            }
            self.desc_idx = self.desc_idx + 1;
            self.desc_off = 0;
        }
    }

    /// Move `len` bytes on inside the current buffer.
    fn advance(&mut self, len: usize)
        requires
            old(self).wf(),
            old(self).desc_idx < old(self).elems@.len(),
            old(self).desc_off + len <= old(self).elems@[old(self).desc_idx as int].len,
        ensures
            final(self).wf(),
            final(self).position == old(self).position + len,
            final(self).token == old(self).token,
            final(self).elems == old(self).elems,
            final(self).total == old(self).total,
    {
        proof {
            let elems = self.elems@;
            let i = self.desc_idx as int;
            assert(elems.take(i + 1).drop_last() =~= elems.take(i));
            lemma_elems_prefix(arbitrary(), elems, i + 1);
        }
        self.desc_off = self.desc_off + len;
        self.position = self.position + len;
        self.skip_full();
    }

    /// Bytes of the payload from the position on, as far as its buffer reaches.
    proof fn lemma_here(self, mem: MemView, n: int)
        requires
            self.wf(),
            self.position < self.total,
            self.desc_idx < self.elems@.len() ==> 0 <= n <= self.elems@[self.desc_idx as int].len
                - self.desc_off,
        ensures
            self.desc_idx < self.elems@.len(),
            self.position + n <= self.total,
            elems_payload(mem, self.elems@).len() == self.total,
            elems_payload(mem, self.elems@).subrange(self.position as int, self.position + n)
                == mem.span(
                self.elems@[self.desc_idx as int].addr + self.desc_off,
                n as nat,
            ),
    {
        let elems = self.elems@;
        let i = self.desc_idx as int;
        if i == elems.len() {
            assert(elems.take(i) =~= elems);
        }
        lemma_elems_prefix(mem, elems, i);
        lemma_elems_prefix(mem, elems, i + 1);
        lemma_elems_step(mem, elems, i);
        let elem = elems[i];
        let all = elems_payload(mem, elems);
        let upto = elems_payload(mem, elems.take(i + 1));
        assert(all.subrange(self.position as int, self.position + n) =~= upto.subrange(
            self.position as int,
            self.position + n,
        ));
        assert(upto.subrange(self.position as int, self.position + n) =~= mem.span(
            elem.addr + self.desc_off,
            n as nat,
        ));
    }
}

/// Whether every byte of the buffers has an address, and memory serves every
/// access to it. A buffer without bytes need not be mapped.
pub open spec fn elems_mapped(mem: MemView, elems: Seq<BufferElement>) -> bool {
    forall|i: int|
        0 <= i < elems.len() && (#[trigger] elems[i]).len > 0 ==> elems[i].addr + elems[i].len <= u64::MAX
            && mem.serves(elems[i].addr as int, elems[i].len as int)
}

/// Whether memory serves every access to the buffers, also to those without bytes.
pub open spec fn elems_served(mem: MemView, elems: Seq<BufferElement>) -> bool {
    forall|i: int|
        0 <= i < elems.len() ==> (#[trigger] elems[i]).addr + elems[i].len <= u64::MAX
            && mem.serves(elems[i].addr as int, elems[i].len as int)
}

/// The memory after `data` was stored in the buffers, from their byte `pos` on,
/// as far as they reach.
pub open spec fn scatter(
    mem: MemView,
    elems: Seq<BufferElement>,
    pos: int,
    data: Seq<u8>,
) -> MemView
    decreases elems.len(),
{
    if data.len() == 0 || elems.len() == 0 {
        mem
    } else if pos >= elems[0].len {
        scatter(mem, elems.drop_first(), pos - elems[0].len, data)
    } else {
        let room = elems[0].len - pos;
        let n = if room < data.len() {
            room
        } else {
            data.len() as int
        };
        scatter(
            mem.put(elems[0].addr + pos, data.take(n)),
            elems.drop_first(),
            0,
            data.skip(n),
        )
    }
}

/// Stores from a position inside a buffer do not concern the buffers before it.
proof fn lemma_scatter_from(
    mem: MemView,
    elems: Seq<BufferElement>,
    i: int,
    off: int,
    data: Seq<u8>,
)
    requires
        0 <= i <= elems.len(),
        0 <= off,
        i == elems.len() ==> off == 0,
    ensures
        scatter(mem, elems, elems_len(elems.take(i)) + off, data) == scatter(
            mem,
            elems.skip(i),
            off,
            data,
        ),
    decreases i,
{
    if i == 0 {
        assert(elems.take(0) =~= Seq::<BufferElement>::empty());
        assert(elems.skip(0) =~= elems);
    } else {
        let tail = elems.drop_first();
        lemma_scatter_from(mem, tail, i - 1, off, data);
        assert(tail.skip(i - 1) =~= elems.skip(i));
        lemma_elems_first(elems.take(i));
        assert(elems.take(i).drop_first() =~= tail.take(i - 1));
        lemma_elems_len(arbitrary(), tail.take(i - 1));
    }
}

pub proof fn lemma_elems_first(elems: Seq<BufferElement>)
    requires
        elems.len() > 0,
    ensures
        elems_len(elems) == elems[0].len + elems_len(elems.drop_first()),
    decreases elems.len(),
{
    if elems.len() > 1 {
        lemma_elems_first(elems.drop_last());
        assert(elems.drop_last().drop_first() =~= elems.drop_first().drop_last());
    } else {
        assert(elems.drop_first() =~= Seq::<BufferElement>::empty());
        assert(elems.drop_last() =~= Seq::<BufferElement>::empty());
    }
}

/// Memories with the same bytes stay the same under the same stores.
pub proof fn lemma_scatter_same(
    a: MemView,
    b: MemView,
    elems: Seq<BufferElement>,
    pos: int,
    data: Seq<u8>,
)
    requires
        a.same_bytes(b),
    ensures
        scatter(a, elems, pos, data).same_bytes(scatter(b, elems, pos, data)),
    decreases elems.len(),
{
    if data.len() == 0 || elems.len() == 0 {
    } else if pos >= elems[0].len {
        lemma_scatter_same(a, b, elems.drop_first(), pos - elems[0].len, data);
    } else {
        let room = elems[0].len - pos;
        let n = if room < data.len() {
            room
        } else {
            data.len() as int
        };
        lemma_scatter_same(
            a.put(elems[0].addr + pos, data.take(n)),
            b.put(elems[0].addr + pos, data.take(n)),
            elems.drop_first(),
            0,
            data.skip(n),
        );
    }
}

/// Writing on where a write ended is writing both at once.
pub proof fn law_two_writes_are_one(
    mem: MemView,
    elems: Seq<BufferElement>,
    pos: int,
    a: Seq<u8>,
    b: Seq<u8>,
)
    requires
        0 <= pos,
    ensures
        scatter(scatter(mem, elems, pos, a), elems, pos + a.len(), b).same_bytes(
            scatter(mem, elems, pos, a + b),
        ),
    decreases elems.len(),
{
    if a.len() == 0 {
        assert(a + b =~= b);
    } else if b.len() == 0 {
        assert(a + b =~= a);
    } else if elems.len() > 0 {
        let rest = elems.drop_first();
        let first = elems[0];
        if pos >= first.len {
            law_two_writes_are_one(mem, rest, pos - first.len, a, b);
        } else if a.len() >= first.len - pos {
            let room = first.len - pos;
            let put = mem.put(first.addr + pos, a.take(room));
            law_two_writes_are_one(put, rest, 0, a.skip(room), b);
            assert((a + b).take(room) =~= a.take(room));
            assert((a + b).skip(room) =~= a.skip(room) + b);
        } else {
            let room = first.len - pos - a.len();
            let n = if room < b.len() {
                room
            } else {
                b.len() as int
            };
            let once = mem.put(first.addr + pos, a);
            let twice = once.put(first.addr + pos + a.len(), b.take(n));
            let whole = mem.put(first.addr + pos, (a + b).take(a.len() + n));
            assert(a.take(a.len() as int) =~= a);
            assert(a.skip(a.len() as int) =~= Seq::<u8>::empty());
            assert(scatter(once, rest, 0, a.skip(a.len() as int)) == once);
            assert(scatter(mem, elems, pos, a) == once);
            assert(scatter(once, elems, pos + a.len(), b) == scatter(twice, rest, 0, b.skip(n)));
            assert((a + b).skip(a.len() + n) =~= b.skip(n));
            assert(scatter(mem, elems, pos, a + b) == scatter(whole, rest, 0, b.skip(n)));
            assert(twice.same_bytes(whole));
            lemma_scatter_same(twice, whole, rest, 0, b.skip(n));
        }
    }
}

/// Copy `src` into `dst` from `at` on.
fn copy_at(dst: &mut [u8], at: usize, src: &[u8])
    requires
        at + src@.len() <= old(dst)@.len(),
    ensures
        final(dst)@.len() == old(dst)@.len(),
        final(dst)@ == old(dst)@.take(at as int) + src@ + old(dst)@.skip(at + src@.len()),
{
    let ghost start = dst@;
    let size: usize = dst.len();
    let mut i: usize = 0;
    while i < src.len()
        invariant
            size == start.len(),
            i <= src@.len(),
            at + src@.len() <= start.len(),
            dst@.len() == start.len(),
            dst@ =~= start.take(at as int) + src@.take(i as int) + start.skip(at + i),
        decreases src@.len() - i,
    {
        dst[at + i] = src[i];
        i += 1;
    }
    proof {
        assert(src@.take(i as int) =~= src@);
    }
}

/// Stateful reader over device-readable descriptors received from the producer.
///
/// Reads copy directly from shared memory into caller-provided final storage.
/// The chain must be returned together with its paired [`ReplyChain`] through
/// [`VirtqConsumer::complete`] before the descriptors can be reused.
#[must_use]
pub struct RecvChain {
    state: ChainState,
}

impl RecvChain {
    /// Every chain that a queue hands out is well-formed, and every method keeps
    /// it so.
    pub closed spec fn wf(&self) -> bool {
        self.state.wf()
    }

    pub closed spec fn token_view(&self) -> Token {
        self.state.token
    }

    /// The readable buffers.
    pub closed spec fn elems(&self) -> Seq<BufferElement> {
        self.state.elems@
    }

    /// Bytes read so far.
    pub closed spec fn pos(&self) -> int {
        self.state.position as int
    }

    /// The payload in shared memory.
    pub open spec fn payload(&self, mem: MemView) -> Seq<u8> {
        elems_payload(mem, self.elems())
    }

    /// The buffers hold the payload, and the position lies in it.
    pub proof fn lemma_payload(&self, mem: MemView)
        requires
            self.wf(),
        ensures
            self.payload(mem).len() == elems_len(self.elems()) <= usize::MAX,
            0 <= self.pos() <= self.payload(mem).len(),
    {
        lemma_elems_len(mem, self.elems());
    }

    fn new(token: Token, elems: ElemList, len: usize) -> (chain: Self)
        requires
            len == elems_len(elems@),
        ensures
            chain.wf(),
            chain.token_view() == token,
            chain.elems() == elems@,
            chain.pos() == 0,
    {
        RecvChain { state: ChainState::new(token, elems, len) }
    }

    /// The token identifying this chain.
    pub fn token(&self) -> (token: Token)
        ensures
            token == self.token_view(),
    {
        self.state.token
    }

    /// Total readable payload length.
    pub fn len(&self) -> (len: usize)
        requires
            self.wf(),
        ensures
            len == elems_len(self.elems()),
    {
        self.state.total
    }

    /// Whether this chain has no readable payload.
    pub fn is_empty(&self) -> (empty: bool)
        requires
            self.wf(),
        ensures
            empty == (elems_len(self.elems()) == 0),
    {
        self.state.total == 0
    }

    /// Number of bytes consumed by the stateful reader.
    pub fn consumed(&self) -> (len: usize)
        ensures
            len == self.pos(),
    {
        self.state.position
    }

    /// Number of bytes still available to the stateful reader.
    pub fn remaining(&self) -> (len: usize)
        requires
            self.wf(),
        ensures
            len == elems_len(self.elems()) - self.pos(),
    {
        self.state.total - self.state.position
    }

    /// Reading stopped short: the bytes passed over are in the buffer, and the rest of it
    /// is as before.
    pub open spec fn read_until(
        &self,
        after: RecvChain,
        mem: MemView,
        before_buf: Seq<u8>,
        after_buf: Seq<u8>,
    ) -> bool {
        let n = after.pos() - self.pos();
        &&& 0 <= n < before_buf.len()
        &&& after.pos() < elems_len(self.elems())
        &&& after_buf == self.payload(mem).subrange(self.pos(), after.pos()) + before_buf.skip(n)
    }

    /// Read bytes sequentially across descriptor boundaries.
    ///
    /// Returns the number of bytes copied, which may be smaller than `buf.len()`
    /// at the end of the chain. If a later memory read fails, the cursor remains
    /// advanced past any earlier chunks copied by the same call.
    pub fn read<M: MemOps>(&mut self, mem: &M, buf: &mut [u8]) -> (read: Result<usize, VirtqError>)
        requires
            old(self).wf(),
        ensures
            final(self).wf(),
            final(self).token_view() == old(self).token_view(),
            final(self).elems() == old(self).elems(),
            final(buf)@.len() == old(buf)@.len(),
            read matches Ok(n) ==> {
                let left = elems_len(old(self).elems()) - old(self).pos();
                &&& n == if old(buf)@.len() < left {
                    old(buf)@.len() as int
                } else {
                    left
                }
                &&& final(self).pos() == old(self).pos() + n
                &&& final(buf)@ == old(self).payload(mem.mem()).subrange(
                    old(self).pos(),
                    old(self).pos() + n,
                ) + old(buf)@.skip(n as int)
            },
            read matches Err(e) ==> e == VirtqError::MemoryReadError && old(self).read_until(
                *final(self),
                mem.mem(),
                old(buf)@,
                final(buf)@,
            ),
            elems_mapped(mem.mem(), old(self).elems()) ==> read is Ok,
    {
        let ghost view = mem.mem();
        let ghost all = elems_payload(view, self.state.elems@);
        let ghost start = self.state.position as int;
        let ghost out = buf@;
        let left: usize = self.remaining();
        let want: usize = if buf.len() < left {
            buf.len()
        } else {
            left
        };
        let mut done: usize = 0;
        proof {
            self.lemma_payload(view);
            assert(all.subrange(start, start) =~= Seq::<u8>::empty());
            assert(out.skip(0) =~= out);
        }
        while done < want
            invariant
                self.wf(),
                self.state.token == old(self).state.token,
                self.state.elems == old(self).state.elems,
                view == mem.mem(),
                all == elems_payload(view, self.state.elems@),
                all.len() == self.state.total,
                start == old(self).state.position,
                out == old(buf)@,
                done <= want,
                want <= out.len(),
                start + want <= all.len(),
                self.state.position == start + done,
                buf@ =~= all.subrange(start, start + done) + out.skip(done as int),
                done < want ==> self.state.position < self.state.total,
            decreases want - done,
        {
            proof {
                self.state.lemma_here(view, 0);
            }
            let elem = self.state.elems.as_slice()[self.state.desc_idx];
            let in_desc: usize = elem.len as usize - self.state.desc_off;
            let len: usize = if in_desc < want - done {
                in_desc
            } else {
                want - done
            };
            proof {
                self.state.lemma_here(view, len as int);
            }
            let addr: u64 = match elem.addr.checked_add(self.state.desc_off as u64) {
                Some(addr) => addr,
                None => return Err(VirtqError::MemoryReadError),
            };
            let chunk = match read_vec(mem, addr, len) {
                Ok(chunk) => chunk,
                Err(_) => return Err(VirtqError::MemoryReadError),
            };
            copy_at(buf, done, chunk.as_slice());
            self.state.advance(len);
            proof {
                assert(all.subrange(start, start + done) + all.subrange(
                    start + done,
                    start + done + len,
                ) =~= all.subrange(start, start + done + len));
            }
            done = done + len;
        }
        Ok(done)
    }

    /// Read exactly `buf.len()` bytes or return an error.
    pub fn read_exact<M: MemOps>(&mut self, mem: &M, buf: &mut [u8]) -> (done: Result<
        (),
        VirtqError,
    >)
        requires
            old(self).wf(),
        ensures
            final(self).wf(),
            final(self).token_view() == old(self).token_view(),
            final(self).elems() == old(self).elems(),
            final(buf)@.len() == old(buf)@.len(),
            ({
                let left = (elems_len(old(self).elems()) - old(self).pos()) as usize;
                let short = VirtqError::ReceiveTooShort {
                    requested: old(buf)@.len() as usize,
                    remaining: left,
                };
                &&& old(buf)@.len() > left <==> done == Err::<(), VirtqError>(short)
                &&& old(buf)@.len() > left ==> *final(self) == *old(self) && final(buf)@ == old(
                    buf,
                )@
                &&& done matches Err(e) ==> e == short || e == VirtqError::MemoryReadError && old(
                    self,
                ).read_until(*final(self), mem.mem(), old(buf)@, final(buf)@)
            }),
            done is Ok ==> final(self).pos() == old(self).pos() + old(buf)@.len() && final(buf)@
                == old(self).payload(mem.mem()).subrange(
                old(self).pos(),
                old(self).pos() + old(buf)@.len(),
            ),
            elems_mapped(mem.mem(), old(self).elems()) ==> !(done matches Err(
                VirtqError::MemoryReadError,
            )),
    {
        let left: usize = self.remaining();
        if buf.len() > left {
            return Err(
                VirtqError::ReceiveTooShort { requested: buf.len(), remaining: left },
            );
        }
        match self.read(mem, buf) {
            Ok(n) => {
                proof {
                    assert(old(buf)@.skip(n as int) =~= Seq::<u8>::empty());
                    assert(buf@ =~= old(self).payload(mem.mem()).subrange(
                        old(self).pos(),
                        old(self).pos() + n,
                    ));
                }
                Ok(())
            },
            Err(err) => Err(err),
        }
    }

    /// Copy the complete payload into descriptor-preserving owned segments.
    ///
    /// This does not change the stateful read position. Each call takes a new
    /// snapshot of shared memory; callers should validate and use the returned
    /// owned value rather than reading the same untrusted payload again.
    pub fn to_segments<M: MemOps>(&self, mem: &M) -> (segments: Result<Segments, VirtqError>)
        requires
            self.wf(),
        ensures
            segments matches Ok(s) ==> s.wf() && s@ == elem_spans(mem.mem(), self.elems())
                && s.payload() == self.payload(mem.mem()),
            segments matches Err(e) ==> e == VirtqError::MemoryReadError,
            elems_served(mem.mem(), self.elems()) ==> segments is Ok,
    {
        let elems = self.state.elems.as_slice();
        let mut chunks: Vec<Bytes> = Vec::new();
        let mut i: usize = 0;
        while i < elems.len()
            invariant
                i <= elems@.len(),
                elems@ == self.elems(),
                octets::all_octets(chunks@) =~= elem_spans(mem.mem(), elems@.take(i as int)),
            decreases elems@.len() - i,
        {
            let elem = elems[i];
            let ghost before = octets::all_octets(chunks@);
            match read_vec(mem, elem.addr, elem.len as usize) {
                Ok(chunk) => chunks.push(bytes_from_vec(chunk)),
                Err(_) => return Err(VirtqError::MemoryReadError),
            }
            proof {
                let here = mem.mem().span(elem.addr as int, elem.len as nat);
                assert(octets::all_octets(chunks@) =~= before.push(here));
                assert(elem_spans(mem.mem(), elems@.take(i + 1)) =~= before.push(here));
            }
            i += 1;
        }
        proof {
            assert(elems@.take(i as int) =~= elems@);
        }
        Ok(Segments::new(chunks))
    }

    /// Copy the complete payload directly into one contiguous allocation.
    ///
    /// This does not change the stateful read position. Each call takes a new
    /// snapshot of shared memory; callers should validate and use the returned
    /// owned value rather than reading the same untrusted payload again.
    pub fn to_bytes<M: MemOps>(&self, mem: &M) -> (bytes: Result<Bytes, VirtqError>)
        requires
            self.wf(),
        ensures
            bytes matches Ok(b) ==> octets::octets(b) == self.payload(mem.mem()),
            bytes matches Err(e) ==> e == VirtqError::MemoryReadError,
            elems_served(mem.mem(), self.elems()) ==> bytes is Ok,
    {
        proof {
            self.lemma_payload(mem.mem());
        }
        if self.is_empty() {
            proof {
                assert(self.payload(mem.mem()) =~= Seq::<u8>::empty());
            }
            return Ok(bytes_new());
        }
        let elems = self.state.elems.as_slice();
        let mut out: Vec<u8> = Vec::new();
        let mut i: usize = 0;
        proof {
            assert(elem_spans(mem.mem(), elems@.take(0)) =~= Seq::<Seq<u8>>::empty());
        }
        while i < elems.len()
            invariant
                i <= elems@.len(),
                elems@ == self.elems(),
                out@ == elems_payload(mem.mem(), elems@.take(i as int)),
            decreases elems@.len() - i,
        {
            let elem = elems[i];
            proof {
                lemma_elems_step(mem.mem(), elems@, i as int);
            }
            match read_vec(mem, elem.addr, elem.len as usize) {
                Ok(chunk) => out.extend_from_slice(chunk.as_slice()),
                Err(_) => return Err(VirtqError::MemoryReadError),
            }
            i += 1;
        }
        proof {
            assert(elems@.take(i as int) =~= elems@);
        }
        Ok(bytes_from_vec(out))
    }
}

/// A reply chain with writable buffer capacity.
#[must_use]
pub struct WritableChain {
    state: ChainState,
}

impl WritableChain {
    /// Every chain that a queue hands out is well-formed, and every method keeps
    /// it so.
    pub closed spec fn wf(&self) -> bool {
        self.state.wf()
    }

    pub closed spec fn token_view(&self) -> Token {
        self.state.token
    }

    /// The writable buffers.
    pub closed spec fn elems(&self) -> Seq<BufferElement> {
        self.state.elems@
    }

    /// Bytes written so far.
    pub closed spec fn pos(&self) -> int {
        self.state.position as int
    }

    /// Writing `data` stopped short: the bytes counted as written are in memory, and no
    /// others were stored.
    pub open spec fn written_until(
        &self,
        after: WritableChain,
        before_mem: MemView,
        after_mem: MemView,
        data: Seq<u8>,
    ) -> bool {
        let n = after.pos() - self.pos();
        &&& 0 <= n < data.len()
        &&& after.pos() < elems_len(self.elems())
        &&& after_mem.same_bytes(scatter(before_mem, self.elems(), self.pos(), data.take(n)))
    }

    fn new(token: Token, elems: ElemList, capacity: usize) -> (chain: Self)
        requires
            capacity == elems_len(elems@),
        ensures
            chain.wf(),
            chain.token_view() == token,
            chain.elems() == elems@,
            chain.pos() == 0,
    {
        WritableChain { state: ChainState::new(token, elems, capacity) }
    }

    /// The token identifying this writable reply.
    pub fn token(&self) -> (token: Token)
        ensures
            token == self.token_view(),
    {
        self.state.token
    }

    /// Total reply capacity in bytes.
    pub fn capacity(&self) -> (len: usize)
        requires
            self.wf(),
        ensures
            len == elems_len(self.elems()),
    {
        self.state.total
    }

    /// Number of bytes written so far.
    pub fn written(&self) -> (len: usize)
        ensures
            len == self.pos(),
    {
        self.state.position
    }

    /// Remaining reply capacity.
    pub fn remaining(&self) -> (len: usize)
        requires
            self.wf(),
        ensures
            len == elems_len(self.elems()) - self.pos(),
    {
        self.state.total - self.state.position
    }

    /// Write bytes into writable buffers, returning how many were written.
    ///
    /// Appends at the current write position. If `buf` is larger than the
    /// remaining capacity, writes as many bytes as will fit (partial write).
    /// If a later memory write fails, the cursor and written length retain any
    /// earlier chunks written by the same call.
    pub fn write<M: MemOps>(&mut self, mem: &mut M, buf: &[u8]) -> (written: Result<
        usize,
        VirtqError,
    >)
        requires
            old(self).wf(),
        ensures
            final(self).wf(),
            final(self).token_view() == old(self).token_view(),
            final(self).elems() == old(self).elems(),
            old(mem).mem().same_mapping(final(mem).mem()),
            written matches Ok(n) ==> {
                let left = elems_len(old(self).elems()) - old(self).pos();
                &&& n == if buf@.len() < left {
                    buf@.len() as int
                } else {
                    left
                }
                &&& final(self).pos() == old(self).pos() + n
                &&& final(mem).mem().same_bytes(
                    scatter(
                        old(mem).mem(),
                        old(self).elems(),
                        old(self).pos(),
                        buf@.take(n as int),
                    ),
                )
            },
            written matches Err(e) ==> e == VirtqError::MemoryWriteError && old(self).written_until(
                *final(self),
                old(mem).mem(),
                final(mem).mem(),
                buf@,
            ),
            elems_mapped(old(mem).mem(), old(self).elems()) ==> written is Ok,
    {
        let left: usize = self.remaining();
        let want: usize = if buf.len() < left {
            buf.len()
        } else {
            left
        };
        let ghost elems = self.state.elems@;
        let ghost first = self.state.position as int;
        let ghost start = mem.mem();
        let mut done: usize = 0;
        while done < want
            invariant
                self.wf(),
                self.state.token == old(self).state.token,
                self.state.elems == old(self).state.elems,
                elems == self.state.elems@,
                first == old(self).state.position,
                start == old(mem).mem(),
                start.same_mapping(mem.mem()),
                done <= want <= buf@.len(),
                first + want <= self.state.total == elems_len(elems),
                self.state.position == first + done,
                mem.mem().same_bytes(scatter(start, elems, first, buf@.take(done as int))),
            decreases want - done,
        {
            let ghost before = mem.mem();
            let ghost idx = self.state.desc_idx as int;
            let ghost off = self.state.desc_off as int;
            let ghost so_far = buf@.take(done as int);
            proof {
                self.state.lemma_here(before, 0);
            }
            let elem = self.state.elems.as_slice()[self.state.desc_idx];
            let in_desc: usize = elem.len as usize - self.state.desc_off;
            let len: usize = if in_desc < want - done {
                in_desc
            } else {
                want - done
            };
            let addr: u64 = match elem.addr.checked_add(self.state.desc_off as u64) {
                Some(addr) => addr,
                None => return Err(VirtqError::MemoryWriteError),
            };
            let chunk = vstd::slice::slice_subrange(buf, done, done + len);
            match mem.write(addr, chunk) {
                Ok(()) => {},
                Err(_) => return Err(VirtqError::MemoryWriteError),
            }
            self.state.advance(len);
            proof {
                // The chunk goes into this buffer alone.
                lemma_scatter_from(before, elems, idx, off, chunk@);
                assert(elems.skip(idx)[0] == elem);
                assert(chunk@.take(len as int) =~= chunk@);
                assert(chunk@.skip(len as int).len() == 0);
                let put = before.put(addr as int, chunk@);
                let behind = elems.skip(idx).drop_first();
                assert(scatter(put, behind, 0, chunk@.skip(len as int)) == put);
                assert(scatter(before, elems.skip(idx), off, chunk@) == put);
                assert(so_far + chunk@ =~= buf@.take(done + len));
                law_two_writes_are_one(start, elems, first, so_far, chunk@);
                lemma_scatter_same(
                    before,
                    scatter(start, elems, first, so_far),
                    elems,
                    first + done,
                    chunk@,
                );
            }
            done = done + len;
        }
        Ok(done)
    }

    /// Write the entire buffer or return an error.
    pub fn write_all<M: MemOps>(&mut self, mem: &mut M, buf: &[u8]) -> (done: Result<
        (),
        VirtqError,
    >)
        requires
            old(self).wf(),
        ensures
            final(self).wf(),
            final(self).token_view() == old(self).token_view(),
            final(self).elems() == old(self).elems(),
            old(mem).mem().same_mapping(final(mem).mem()),
            buf@.len() > elems_len(old(self).elems()) - old(self).pos() <==> done == Err::<
                (),
                VirtqError,
            >(VirtqError::ReplyTooLarge),
            done == Err::<(), VirtqError>(VirtqError::ReplyTooLarge) ==> *final(self) == *old(self)
                && *final(mem) == *old(mem),
            done is Ok ==> final(self).pos() == old(self).pos() + buf@.len()
                && final(mem).mem().same_bytes(
                scatter(old(mem).mem(), old(self).elems(), old(self).pos(), buf@),
            ),
            done matches Err(e) ==> e == VirtqError::ReplyTooLarge || e
                == VirtqError::MemoryWriteError && old(self).written_until(
                *final(self),
                old(mem).mem(),
                final(mem).mem(),
                buf@,
            ),
            elems_mapped(old(mem).mem(), old(self).elems()) ==> !(done matches Err(
                VirtqError::MemoryWriteError,
            )),
    {
        if buf.len() > self.remaining() {
            return Err(VirtqError::ReplyTooLarge);
        }
        proof {
            assert(buf@.take(buf@.len() as int) =~= buf@);
        }
        match self.write(mem, buf) {
            Ok(_) => Ok(()),
            Err(err) => Err(err),
        }
    }

    /// Rewind the write cursor to the beginning.
    ///
    /// Previously written bytes in shared memory are not zeroed; the
    /// `written` count is simply reset to 0.
    pub fn rewind(&mut self)
        requires
            old(self).wf(),
        ensures
            final(self).wf(),
            final(self).token_view() == old(self).token_view(),
            final(self).elems() == old(self).elems(),
            final(self).pos() == 0,
    {
        self.state.rewind();
    }
}

/// An ack-only reply for chains with no writable buffers.
///
/// This wrapper keeps ack replies as a must-use completion capability instead
/// of exposing a bare token that could be accidentally ignored.
#[must_use]
pub struct AckChain {
    token: Token,
}

impl AckChain {
    pub closed spec fn token_view(&self) -> Token {
        self.token
    }

    fn new(token: Token) -> (chain: Self)
        ensures
            chain.token_view() == token,
    {
        AckChain { token }
    }

    pub fn token(&self) -> (token: Token)
        ensures
            token == self.token_view(),
    {
        self.token
    }
}

/// Consumer-side chain reply, either writable or ack-only.
///
/// Created by [`VirtqConsumer::poll`]. Must be submitted back via
/// [`VirtqConsumer::complete`] to release the descriptor.
#[must_use]
pub enum ReplyChain {
    /// Reply with writable buffer capacity.
    Writable(WritableChain),
    /// Ack-only reply (for chains with only readable buffers). No response
    /// buffer.
    Ack(AckChain),
}

impl ReplyChain {
    pub open spec fn wf(&self) -> bool {
        self matches ReplyChain::Writable(wc) ==> wc.wf()
    }

    pub open spec fn token_view(&self) -> Token {
        match self {
            ReplyChain::Writable(wc) => wc.token_view(),
            ReplyChain::Ack(ack) => ack.token_view(),
        }
    }

    /// Bytes written so far.
    pub open spec fn pos(&self) -> int {
        match self {
            ReplyChain::Writable(wc) => wc.pos(),
            ReplyChain::Ack(_) => 0,
        }
    }

    /// The writable buffers.
    pub open spec fn elems(&self) -> Seq<BufferElement> {
        match self {
            ReplyChain::Writable(wc) => wc.elems(),
            ReplyChain::Ack(_) => Seq::empty(),
        }
    }

    /// The token identifying this reply.
    pub fn token(&self) -> (token: Token)
        ensures
            token == self.token_view(),
    {
        match self {
            ReplyChain::Writable(wc) => wc.token(),
            ReplyChain::Ack(ack) => ack.token(),
        }
    }

    /// Number of bytes written (0 for Ack).
    pub fn written(&self) -> (len: usize)
        ensures
            len == self.pos(),
    {
        match self {
            ReplyChain::Writable(wc) => wc.written(),
            ReplyChain::Ack(_) => 0,
        }
    }

    /// Convert into the writable form.
    ///
    /// Returns the [`AckChain`] unchanged as `Err` for ack-only replies, so the
    /// completion capability is never silently dropped.
    pub fn into_writable(self) -> (writable: Result<WritableChain, AckChain>)
        ensures
            match self {
                ReplyChain::Writable(wc) => writable == Ok::<WritableChain, AckChain>(wc),
                ReplyChain::Ack(ack) => writable == Err::<WritableChain, AckChain>(ack),
            },
    {
        match self {
            ReplyChain::Writable(wc) => Ok(wc),
            ReplyChain::Ack(ack) => Err(ack),
        }
    }
}

impl From<WritableChain> for ReplyChain {
    fn from(wc: WritableChain) -> (reply: Self) {
        ReplyChain::Writable(wc)
    }
}

impl vstd::std_specs::convert::FromSpecImpl<WritableChain> for ReplyChain {
    open spec fn obeys_from_spec() -> bool {
        true
    }

    open spec fn from_spec(wc: WritableChain) -> ReplyChain {
        ReplyChain::Writable(wc)
    }
}

impl From<AckChain> for ReplyChain {
    fn from(ack: AckChain) -> (reply: Self) {
        ReplyChain::Ack(ack)
    }
}

impl vstd::std_specs::convert::FromSpecImpl<AckChain> for ReplyChain {
    open spec fn obeys_from_spec() -> bool {
        true
    }

    open spec fn from_spec(ack: AckChain) -> ReplyChain {
        ReplyChain::Ack(ack)
    }
}

/// A high-level virtqueue consumer (device side).
///
/// The consumer receives chains from the producer (driver), processes them,
/// and sends back replies. This is typically used on the device/host side.
/// The memory is passed to each call; ring and payload may lie in different
/// backends.
pub struct VirtqConsumer<N> {
    pub inner: RingConsumer,
    pub notifier: N,
    pub next_token: u32,
}

/// Descriptors in use, as a notification reports them.
pub open spec fn device_stats(ring: RingConsumer) -> QueueStats {
    QueueStats {
        num_free: (ring.layout.descs() - ring.num_inflight) as usize,
        num_inflight: ring.num_inflight,
    }
}

/// What was sent after a chain went back from `before` to `after`: one
/// notification if the driver asked for it.
pub open spec fn sent_after(
    sent: Seq<QueueStats>,
    mem: MemView,
    before: RingConsumer,
    after: RingConsumer,
) -> Seq<QueueStats> {
    if ring::notification_due(
        desc::event_in(mem, before.layout.drv_evt()),
        before.used_cursor,
        after.used_cursor,
    ) {
        sent.push(device_stats(after))
    } else {
        sent
    }
}

/// The readable buffers of a chain.
pub open spec fn readable_part(elems: Seq<BufferElement>) -> Seq<BufferElement> {
    elems.filter(|e: BufferElement| !e.writable)
}

/// The writable buffers of a chain.
pub open spec fn writable_part(elems: Seq<BufferElement>) -> Seq<BufferElement> {
    elems.filter(|e: BufferElement| e.writable)
}

/// Why a chain with these buffers is refused by a reader that takes at most
/// `limit` bytes.
pub open spec fn refusal(elems: Seq<BufferElement>, limit: usize) -> Option<VirtqError> {
    let recv = elems_len(readable_part(elems));
    if recv > limit {
        Some(
            VirtqError::PayloadTooLarge {
                recv: if recv > usize::MAX {
                    usize::MAX
                } else {
                    recv as usize
                },
                limit,
            },
        )
    } else if elems_len(writable_part(elems)) > usize::MAX {
        Some(VirtqError::BadChain)
    } else {
        None
    }
}

/// Taking the readable buffers first, filtering is splitting.
pub proof fn lemma_parts(elems: Seq<BufferElement>, split: int)
    requires
        ring::readable_first(elems, split),
    ensures
        readable_part(elems) == elems.take(split),
        writable_part(elems) == elems.skip(split),
    decreases elems.len(),
{
    reveal(Seq::filter);
    if elems.len() > 0 {
        let head = elems.drop_last();
        let last = elems.last();
        if split == elems.len() {
            lemma_parts(head, split - 1);
            assert(elems.take(split) =~= head.take(split - 1).push(last));
            assert(elems.skip(split) =~= head.skip(split - 1));
        } else {
            lemma_parts(head, split);
            assert(elems.take(split) =~= head.take(split));
            assert(elems.skip(split) =~= head.skip(split).push(last));
        }
    } else {
        assert(elems.take(split) =~= elems);
        assert(elems.skip(split) =~= elems);
    }
}

/// Bytes that the buffers hold together, or `None` past what a length can count.
fn checked_elems_len(elems: &[BufferElement]) -> (len: Option<usize>)
    ensures
        len is Some <==> elems_len(elems@) <= usize::MAX,
        len matches Some(n) ==> n == elems_len(elems@),
{
    let mut total: usize = 0;
    let mut i: usize = 0;
    while i < elems.len()
        invariant
            i <= elems@.len(),
            total == elems_len(elems@.take(i as int)),
        decreases elems@.len() - i,
    {
        proof {
            lemma_elems_step(arbitrary(), elems@, i as int);
            lemma_elems_prefix(arbitrary(), elems@, i + 1);
        }
        match total.checked_add(elems[i].len as usize) {
            Some(sum) => {
                total = sum;
            },
            None => return None,
        }
        i += 1;
    }
    proof {
        assert(elems@.take(i as int) =~= elems@);
    }
    Some(total)
}

/// What a call does to the chains that a device holds.
pub enum DeviceStep {
    /// A chain was handed out.
    Took(u16),
    /// A chain was taken and given straight back.
    GaveBack(u16),
    /// A chain that had been handed out was completed.
    Completed(u16),
    /// No chain changed hands.
    Idle,
}

/// A ring took a chain that it did not hold.
pub open spec fn takes_new(before: RingConsumer, after: RingConsumer, id: u16) -> bool {
    &&& id < before.layout.descs()
    &&& !before.holds(id)
    &&& exists|count: int|
        0 < count <= u16::MAX && #[trigger] before.after_poll(after, id, count)
}

/// A ring took a chain that it did not hold and gave it straight back.
pub open spec fn gives_new_back(before: RingConsumer, after: RingConsumer, id: u16) -> bool {
    exists|mid: RingConsumer| #[trigger]
        takes_new(before, mid, id) && mid.after_used(after, id)
}

/// What a step does to a ring.
pub open spec fn device_step(before: RingConsumer, after: RingConsumer, step: DeviceStep) -> bool {
    match step {
        DeviceStep::Took(id) => takes_new(before, after, id),
        DeviceStep::GaveBack(id) => gives_new_back(before, after, id),
        DeviceStep::Completed(id) => before.holds(id) && before.after_used(after, id),
        DeviceStep::Idle => after == before,
    }
}

/// The step that a poll makes when the ring offers `next`.
pub open spec fn poll_step(
    next: Result<(u16, Seq<BufferElement>), RingError>,
    polled: Result<Option<(RecvChain, ReplyChain)>, VirtqError>,
) -> DeviceStep {
    match polled {
        Ok(Some(_)) => DeviceStep::Took(next->Ok_0.0),
        Ok(None) => DeviceStep::Idle,
        Err(VirtqError::RingError(_)) => DeviceStep::Idle,
        Err(_) => DeviceStep::GaveBack(next->Ok_0.0),
    }
}

/// The step that completing the chain `id` makes.
pub open spec fn complete_step(id: u16, done: Result<(), VirtqError>) -> DeviceStep {
    match done {
        Ok(_) => DeviceStep::Completed(id),
        Err(_) => DeviceStep::Idle,
    }
}

/// A ring went through `steps`, one after another.
pub open spec fn device_run(rings: Seq<RingConsumer>, steps: Seq<DeviceStep>) -> bool {
    &&& rings.len() == steps.len() + 1
    &&& forall|i: int|
        0 <= i < steps.len() ==> device_step(rings[i], rings[i + 1], #[trigger] steps[i])
}

/// The chains that `steps` handed out and did not complete.
pub open spec fn uncompleted(steps: Seq<DeviceStep>) -> Set<u16>
    decreases steps.len(),
{
    if steps.len() == 0 {
        Set::empty()
    } else {
        match steps.last() {
            DeviceStep::Took(id) => uncompleted(steps.drop_last()).insert(id),
            DeviceStep::Completed(id) => uncompleted(steps.drop_last()).remove(id),
            _ => uncompleted(steps.drop_last()),
        }
    }
}

/// How many more chains `steps` handed out than they completed.
pub open spec fn handed_out(steps: Seq<DeviceStep>) -> int
    decreases steps.len(),
{
    if steps.len() == 0 {
        0
    } else {
        handed_out(steps.drop_last()) + match steps.last() {
            DeviceStep::Took(_) => 1int,
            DeviceStep::Completed(_) => -1,
            _ => 0,
        }
    }
}

/// A device that starts over holds exactly the chains that it handed out and that were not
/// completed since; it has descriptors in flight, and refuses to be reset, exactly while
/// there is one.
pub proof fn law_reset_waits_for_every_chain(
    layout: Layout,
    rings: Seq<RingConsumer>,
    steps: Seq<DeviceStep>,
)
    requires
        device_run(rings, steps),
        rings[0].fresh(layout),
        forall|i: int| 0 <= i < rings.len() ==> (#[trigger] rings[i]).wf(),
    ensures
        rings.last().layout == layout,
        forall|id: u16| #[trigger] rings.last().holds(id) <==> uncompleted(steps).contains(id),
        uncompleted(steps).finite(),
        uncompleted(steps).len() == handed_out(steps),
        rings.last().num_inflight != 0 <==> handed_out(steps) > 0,
    decreases steps.len(),
{
    let last = rings.last();
    if steps.len() > 0 {
        let n = steps.len() - 1;
        let before = rings[n];
        assert forall|i: int| 0 <= i < n implies device_step(
            rings.drop_last()[i],
            rings.drop_last()[i + 1],
            #[trigger] steps.drop_last()[i],
        ) by {
            assert(steps[i] == steps.drop_last()[i]);
        }
        assert forall|i: int| 0 <= i < rings.drop_last().len() implies (
        #[trigger] rings.drop_last()[i]).wf() by {
            assert(rings[i].wf());
        }
        law_reset_waits_for_every_chain(layout, rings.drop_last(), steps.drop_last());
        assert(rings.drop_last().last() == before);
        assert(steps[n] == steps.last());
        assert(device_step(before, last, steps[n]));
        assert(before.wf());
        match steps.last() {
            DeviceStep::Took(id) => {
                assert forall|x: u16| #[trigger] last.holds(x) <==> x == id || before.holds(x) by {}
            },
            DeviceStep::GaveBack(id) => {
                let mid = choose|mid: RingConsumer| #[trigger]
                    takes_new(before, mid, id) && mid.after_used(last, id);
                assert(last.id_num@ =~= before.id_num@);
                assert forall|x: u16| #[trigger] last.holds(x) <==> before.holds(x) by {}
            },
            DeviceStep::Completed(id) => {
                assert(uncompleted(steps.drop_last()).contains(id));
                assert forall|x: u16| #[trigger] last.holds(x) <==> x != id && before.holds(x) by {}
            },
            DeviceStep::Idle => {},
        }
    } else {
        assert forall|id: u16| !#[trigger] last.holds(id) by {
            assert(rings[0].wf());
        }
    }
    assert(rings[rings.len() - 1].wf());
    if last.num_inflight != 0 && uncompleted(steps).len() == 0 {
        assert(uncompleted(steps) =~= Set::empty());
        assert forall|i: int| 0 <= i < last.id_num@.len() implies last.id_num@[i] == 0 by {
            assert(!last.holds(i as u16));
        }
        ring::lemma_counts_zero(last.id_num@);
    }
    if uncompleted(steps).len() > 0 {
        assert(exists|id: u16| uncompleted(steps).contains(id)) by {
            if !exists|id: u16| uncompleted(steps).contains(id) {
                assert(uncompleted(steps) =~= Set::empty());
            }
        }
        let id = choose|id: u16| uncompleted(steps).contains(id);
        assert(last.holds(id));
        ring::lemma_counts_bound(last.id_num@, id as int);
    }
}

impl<N: Notifier> VirtqConsumer<N> {
    pub open spec fn wf(self) -> bool {
        self.inner.wf()
    }

    /// Create a new virtqueue consumer.
    ///
    /// # Arguments
    ///
    /// * `layout` - Ring memory layout
    /// * `notifier` - Callback for notifying the driver about replies
    pub fn new(layout: Layout, notifier: N) -> (consumer: Self)
        requires
            layout.wf(),
        ensures
            consumer.wf(),
            consumer.inner.fresh(layout),
            consumer.notifier == notifier,
            consumer.next_token == 0,
    {
        VirtqConsumer { inner: RingConsumer::new(layout), notifier, next_token: 0 }
    }

    /// The token of the next chain that is taken.
    pub open spec fn token_for(self, id: u16) -> Token {
        Token { seq: self.next_token, id }
    }

    /// The queue took a chain of `count` descriptors and holds it.
    pub open spec fn took(self, after: VirtqConsumer<N>, id: u16, count: int) -> bool {
        &&& self.inner.after_poll(after.inner, id, count)
        &&& after.notifier == self.notifier
        &&& after.next_token == (self.next_token + 1) % 0x1_0000_0000
    }

    /// The queue took a chain and gave it straight back with nothing written.
    pub open spec fn gave_back(
        self,
        after: VirtqConsumer<N>,
        before_mem: MemView,
        after_mem: MemView,
        id: u16,
        count: int,
    ) -> bool {
        exists|mid: RingConsumer|
            {
                &&& #[trigger] self.inner.after_poll(mid, id, count)
                &&& mid.after_used(after.inner, id)
                &&& mid.marked_used(before_mem, after_mem, id, 0)
                &&& after.notifier.sent() == sent_after(
                    self.notifier.sent(),
                    after_mem,
                    mid,
                    after.inner,
                )
            }
    }

    /// Poll for a single incoming chain from the driver.
    ///
    /// Returns a stateful [`RecvChain`] reader and a [`ReplyChain`] writable
    /// reply or ack capability. Both are independent owned values with no
    /// borrow on the consumer, but they must be returned together through
    /// [`complete`](Self::complete).
    ///
    /// On [`VirtqError::BadChain`] and [`VirtqError::PayloadTooLarge`] the
    /// descriptor is returned to the driver (completed with zero length) before
    /// the error is propagated, so a rejected chain does not leak.
    ///
    /// # Arguments
    ///
    /// * `max_recv_len` - Maximum readable payload size. Payloads larger
    ///   than this return [`VirtqError::PayloadTooLarge`].
    pub fn poll<M: MemOps>(&mut self, mem: &mut M, max_recv_len: usize) -> (polled: Result<
        Option<(RecvChain, ReplyChain)>,
        VirtqError,
    >)
        requires
            old(self).wf(),
        ensures
            final(self).wf(),
            final(self).inner.layout == old(self).inner.layout,
            old(mem).mem().same_mapping(final(mem).mem()),
            polled matches Ok(None) ==> *final(self) == *old(self) && *final(mem) == *old(mem)
                && old(self).inner.avail_result(old(mem).mem()) == Err::<
                (u16, Seq<BufferElement>),
                RingError,
            >(RingError::WouldBlock),
            polled matches Ok(Some((recv, reply))) ==> {
                let next = old(self).inner.avail_result(old(mem).mem());
                &&& next is Ok
                &&& refusal(next->Ok_0.1, max_recv_len) is None
                &&& old(self).took(*final(self), next->Ok_0.0, next->Ok_0.1.len() as int)
                &&& *final(mem) == *old(mem)
                &&& recv.wf() && reply.wf()
                &&& recv.token_view() == old(self).token_for(next->Ok_0.0)
                &&& reply.token_view() == recv.token_view()
                &&& recv.elems() == readable_part(next->Ok_0.1)
                &&& reply.elems() == writable_part(next->Ok_0.1)
                &&& reply is Ack <==> writable_part(next->Ok_0.1).len() == 0
                &&& recv.pos() == 0 && reply.pos() == 0
            },
            polled matches Err(VirtqError::RingError(e)) ==> *final(self) == *old(self)
                && *final(mem) == *old(mem) && e != RingError::WouldBlock && (e is MemError
                || old(self).inner.avail_result(old(mem).mem()) == Err::<
                (u16, Seq<BufferElement>),
                RingError,
            >(e)),
            polled matches Err(e) ==> e is RingError || {
                let next = old(self).inner.avail_result(old(mem).mem());
                &&& next is Ok
                &&& refusal(next->Ok_0.1, max_recv_len) == Some(e)
                &&& final(self).next_token == (old(self).next_token + 1) % 0x1_0000_0000
                &&& old(self).inner.layout.mapped_in(old(mem).mem()) ==> old(self).gave_back(
                    *final(self),
                    old(mem).mem(),
                    final(mem).mem(),
                    next->Ok_0.0,
                    next->Ok_0.1.len() as int,
                )
            },
            old(self).inner.layout.mapped_in(old(mem).mem()) ==> !(polled matches Err(
                VirtqError::RingError(e),
            ) && e is MemError),
            old(self).inner.layout.mapped_in(old(mem).mem()) ==> device_step(
                old(self).inner,
                final(self).inner,
                poll_step(old(self).inner.avail_result(old(mem).mem()), polled),
            ),
    {
        let (id, chain) = match self.inner.poll_available(mem) {
            Ok(polled) => polled,
            Err(RingError::WouldBlock) => return Ok(None),
            Err(err) => return Err(VirtqError::RingError(err)),
        };
        let ghost mid = self.inner;
        proof {
            lemma_parts(chain@, chain.num_readable());
            assert(takes_new(old(self).inner, mid, id)) by {
                assert(old(self).inner.after_poll(mid, id, chain@.len() as int));
            }
        }
        let readables = chain.readables();
        let writables = chain.writables();
        let token = Token { seq: self.next_token, id };
        self.next_token = self.next_token.wrapping_add(1);
        let recv_len: Option<usize> = checked_elems_len(readables);
        let recv: usize = match recv_len {
            Some(len) => len,
            None => usize::MAX,
        };
        if recv_len.is_none() || recv > max_recv_len {
            let err = VirtqError::PayloadTooLarge { recv, limit: max_recv_len };
            let err = self.abort_chain(mem, id, err);
            proof {
                if old(self).inner.layout.mapped_in(old(mem).mem()) {
                    assert(mid.after_used(self.inner, id));
                    assert(gives_new_back(old(self).inner, self.inner, id));
                }
            }
            return Err(err);
        }
        let capacity: usize = match checked_elems_len(writables) {
            Some(capacity) => capacity,
            None => {
                let err = self.abort_chain(mem, id, VirtqError::BadChain);
                proof {
                    if old(self).inner.layout.mapped_in(old(mem).mem()) {
                        assert(mid.after_used(self.inner, id));
                        assert(gives_new_back(old(self).inner, self.inner, id));
                    }
                }
                return Err(err);
            },
        };
        let recv = RecvChain::new(token, ElemList::from_slice(readables), recv);
        let reply = if writables.len() != 0 {
            ReplyChain::Writable(
                WritableChain::new(token, ElemList::from_slice(writables), capacity),
            )
        } else {
            proof {
                assert(writable_part(chain@) =~= Seq::<BufferElement>::empty());
            }
            ReplyChain::Ack(AckChain::new(token))
        };
        Ok(Some((recv, reply)))
    }

    /// Submit both halves of a received chain back to the ring.
    ///
    /// Consuming the [`RecvChain`] prevents further reads once its descriptors
    /// can be reused by the producer. The two halves must have matching tokens.
    ///
    /// A mismatched pair returns [`VirtqError::InvalidState`] without returning
    /// either descriptor. This fails closed: the descriptors remain in flight
    /// because completing either could invalidate another still-live
    /// [`RecvChain`].
    pub fn complete<M: MemOps>(
        &mut self,
        mem: &mut M,
        recv: RecvChain,
        reply: ReplyChain,
    ) -> (done: Result<(), VirtqError>)
        requires
            old(self).wf(),
        ensures
            final(self).wf(),
            final(self).inner.layout == old(self).inner.layout,
            final(self).next_token == old(self).next_token,
            old(mem).mem().same_mapping(final(mem).mem()),
            done matches Err(VirtqError::InvalidState) <==> recv.token_view()
                != reply.token_view(),
            done matches Err(VirtqError::ReplyTooLarge) <==> recv.token_view()
                == reply.token_view() && reply.pos() > u32::MAX,
            done is Err && !(done->Err_0 is RingError) ==> *final(self) == *old(self)
                && *final(mem) == *old(mem),
            done matches Err(e) ==> e == VirtqError::InvalidState || e == VirtqError::ReplyTooLarge
                || e is RingError,
            done matches Err(VirtqError::RingError(e)) ==> {
                ||| e == RingError::InvalidState && !old(self).inner.holds(reply.token_view().id)
                    && *final(self) == *old(self) && *final(mem) == *old(mem)
                ||| e is MemError && old(self).inner.holds(reply.token_view().id)
                    && final(self).notifier == old(self).notifier && (final(self).inner
                    == old(self).inner || old(self).inner.after_used(
                    final(self).inner,
                    reply.token_view().id,
                ))
            },
            done is Ok ==> {
                let id = reply.token_view().id;
                &&& old(self).inner.holds(id)
                &&& old(self).inner.after_used(final(self).inner, id)
                &&& old(self).inner.marked_used(
                    old(mem).mem(),
                    final(mem).mem(),
                    id,
                    reply.pos() as u32,
                )
                &&& final(self).notifier.sent() == sent_after(
                    old(self).notifier.sent(),
                    final(mem).mem(),
                    old(self).inner,
                    final(self).inner,
                )
            },
            old(self).inner.layout.mapped_in(old(mem).mem()) ==> !(done matches Err(
                VirtqError::RingError(e),
            ) && e is MemError),
            old(self).inner.marks_only(old(mem).mem(), final(mem).mem()),
            old(self).inner.layout.mapped_in(old(mem).mem()) ==> device_step(
                old(self).inner,
                final(self).inner,
                complete_step(reply.token_view().id, done),
            ),
    {
        if recv.token() != reply.token() {
            return Err(VirtqError::InvalidState);
        }
        let id: u16 = reply.token().id;
        let written: usize = reply.written();
        if written > u32::MAX as usize {
            return Err(VirtqError::ReplyTooLarge);
        }
        match self.inner.submit_used_with_notify(mem, id, written as u32) {
            Ok(true) => {
                self.notify_now();
                Ok(())
            },
            Ok(false) => Ok(()),
            Err(err) => Err(VirtqError::RingError(err)),
        }
    }

    fn notify_now(&mut self)
        requires
            old(self).wf(),
        ensures
            final(self).inner == old(self).inner,
            final(self).next_token == old(self).next_token,
            final(self).notifier.sent() == old(self).notifier.sent().push(
                device_stats(old(self).inner),
            ),
    {
        let stats = QueueStats {
            num_free: self.inner.num_free(),
            num_inflight: self.inner.num_inflight(),
        };
        self.notifier.notify(stats);
    }

    /// Return a consumed descriptor to the driver with zero written length.
    ///
    /// The ring's `poll_available` removes the descriptor from the available
    /// ring before [`poll`](Self::poll) validates the chain. Failing to return the
    /// descriptor means the ring is already in an unrecoverable state, so the
    /// original error is surfaced either way.
    fn abort_chain<M: MemOps>(&mut self, mem: &mut M, id: u16, err: VirtqError) -> (error:
        VirtqError)
        requires
            old(self).wf(),
            old(self).inner.holds(id),
        ensures
            final(self).wf(),
            error == err,
            final(self).inner.layout == old(self).inner.layout,
            final(self).next_token == old(self).next_token,
            old(mem).mem().same_mapping(final(mem).mem()),
            old(self).inner.layout.mapped_in(old(mem).mem()) ==> {
                &&& old(self).inner.after_used(final(self).inner, id)
                &&& old(self).inner.marked_used(old(mem).mem(), final(mem).mem(), id, 0)
                &&& final(self).notifier.sent() == sent_after(
                    old(self).notifier.sent(),
                    final(mem).mem(),
                    old(self).inner,
                    final(self).inner,
                )
            },
    {
        match self.inner.submit_used_with_notify(mem, id, 0) {
            Ok(true) => {
                self.notify_now();
            },
            _ => {},
        }
        err
    }

    /// Get the current available cursor position.
    ///
    /// Returns the position where the next available descriptor will be
    /// consumed. Useful for setting up descriptor-based event suppression.
    pub fn avail_cursor(&self) -> (cursor: RingCursor)
        ensures
            cursor == self.inner.avail_cursor,
    {
        self.inner.avail_cursor()
    }

    /// Get the current used cursor position.
    ///
    /// Returns the position where the next used descriptor will be written.
    /// Useful for setting up descriptor-based event suppression.
    pub fn used_cursor(&self) -> (cursor: RingCursor)
        ensures
            cursor == self.inner.used_cursor,
    {
        self.inner.used_cursor()
    }

    /// Configure event suppression for available buffer notifications.
    ///
    /// This controls when the driver (producer) signals us about new buffers.
    pub fn set_avail_suppression<M: MemOps>(&mut self, mem: &mut M, kind: SuppressionKind) -> (done:
        Result<(), VirtqError>)
        requires
            old(self).wf(),
            kind matches SuppressionKind::Descriptor(cursor) ==> cursor.head < 0x8000,
        ensures
            *final(self) == *old(self),
            old(mem).mem().same_mapping(final(mem).mem()),
            done is Ok ==> old(mem).mem().stored(
                final(mem).mem(),
                old(self).inner.layout.dev_evt(),
                super::suppression_event(kind).to_bytes(),
            ),
            done matches Err(e) ==> e matches VirtqError::RingError(r) && r is MemError,
            old(self).inner.layout.mapped_in(old(mem).mem()) ==> done is Ok,
    {
        let done = match kind {
            SuppressionKind::Enable => self.inner.enable_avail_notifications(mem),
            SuppressionKind::Disable => self.inner.disable_avail_notifications(mem),
            SuppressionKind::Descriptor(cursor) => self.inner.enable_avail_notifications_desc(
                mem,
                cursor.head(),
                cursor.wrap(),
            ),
        };
        match done {
            Ok(()) => Ok(()),
            Err(err) => Err(VirtqError::RingError(err)),
        }
    }

    /// Reset ring and inflight state to initial values.
    ///
    /// Fails while a chain polled by this consumer remains uncompleted.
    pub fn reset<M: MemOps>(&mut self, mem: &mut M) -> (done: Result<(), VirtqError>)
        requires
            old(self).wf(),
        ensures
            final(self).wf(),
            final(self).notifier == old(self).notifier,
            final(self).next_token == old(self).next_token,
            old(mem).mem().same_mapping(final(mem).mem()),
            done matches Err(VirtqError::InvalidState) <==> old(self).inner.num_inflight != 0,
            old(self).inner.num_inflight != 0 ==> *final(self) == *old(self) && *final(mem)
                == *old(mem),
            done is Ok ==> final(self).inner.fresh(old(self).inner.layout)
                && old(mem).mem().stored(
                final(mem).mem(),
                old(self).inner.layout.dev_evt(),
                super::suppression_event(SuppressionKind::Enable).to_bytes(),
            ),
            done matches Err(e) ==> *final(self) == *old(self) && (e == VirtqError::InvalidState
                || (e matches VirtqError::RingError(r) && r is MemError)),
            old(self).inner.num_inflight == 0 && old(self).inner.layout.mapped_in(old(mem).mem())
                ==> done is Ok,
    {
        if self.inner.num_inflight() != 0 {
            return Err(VirtqError::InvalidState);
        }
        match self.inner.reset(mem) {
            Ok(()) => Ok(()),
            Err(err) => Err(VirtqError::RingError(err)),
        }
    }
}

} // verus!
