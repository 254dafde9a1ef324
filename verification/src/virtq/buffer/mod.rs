//! Owned and segmented virtqueue buffer representations.

use bytes::Bytes;
use vstd::prelude::*;
use vstd::seq_lib::*;

use super::pool::{AllocError, Allocation, SlotPool};
use crate::octets;
use crate::octets::{bytes_as_slice, bytes_clone, bytes_from_vec, bytes_len, bytes_new};

pub mod chunk_list;

use chunk_list::ChunkList;

verus! {

/// Ordered byte segments that make up one virtqueue payload.
///
/// This is the high-level counterpart to the descriptor-oriented
/// [`BufferChain`](super::BufferChain).
pub struct Segments {
    chunks: ChunkList,
    /// Earlier chunks were consumed, expose nothing and retain no owners.
    head: usize,
}

impl View for Segments {
    type V = Seq<Seq<u8>>;

    /// The bytes of each segment that is left.
    closed spec fn view(&self) -> Seq<Seq<u8>> {
        octets::all_octets(self.chunks@.skip(self.head as int))
    }
}

/// Split a payload after its first `len` bytes: the segments up to there, and
/// those that are left. `None` when the payload is shorter.
pub open spec fn split_segments(segments: Seq<Seq<u8>>, len: int) -> Option<
    (Seq<Seq<u8>>, Seq<Seq<u8>>),
>
    decreases segments.len(),
{
    if len == 0 {
        Some((Seq::empty(), segments))
    } else if segments.len() == 0 {
        None
    } else if segments[0].len() > len {
        Some((seq![segments[0].take(len)], segments.update(0, segments[0].skip(len))))
    } else {
        match split_segments(segments.drop_first(), len - segments[0].len()) {
            Some((prefix, rest)) => Some((seq![segments[0]] + prefix, rest)),
            None => None,
        }
    }
}

/// Splitting a payload loses no byte, reorders none, and cuts exactly at `len`;
/// it fails exactly when the payload is shorter than `len`.
pub proof fn law_split_partitions_payload(segments: Seq<Seq<u8>>, len: int)
    requires
        len >= 0,
    ensures
        split_segments(segments, len) is Some <==> len <= segments.flatten().len(),
        split_segments(segments, len) matches Some((prefix, rest)) ==> prefix.flatten()
            == segments.flatten().take(len) && rest.flatten() == segments.flatten().skip(len),
    decreases segments.len(),
{
    let flat = segments.flatten();
    if len == 0 {
        assert(flat.take(0) =~= Seq::<u8>::empty());
        assert(flat.skip(0) =~= flat);
    } else if segments.len() == 0 {
    } else if segments[0].len() > len {
        let cut = seq![segments[0].take(len)];
        cut.lemma_flatten_one_element();
        let rest = segments.update(0, segments[0].skip(len));
        assert(rest.drop_first() =~= segments.drop_first());
        assert(rest.flatten() =~= flat.skip(len));
        assert(flat.take(len) =~= segments[0].take(len));
    } else {
        let tail = segments.drop_first();
        law_split_partitions_payload(tail, len - segments[0].len());
        if let Some((prefix, rest)) = split_segments(tail, len - segments[0].len()) {
            let whole = seq![segments[0]] + prefix;
            assert(whole.drop_first() =~= prefix);
            assert(whole.flatten() =~= flat.take(len));
            assert(rest.flatten() =~= flat.skip(len));
        }
    }
}

/// Following the chunks of a payload one by one leads to its split.
proof fn lemma_split_step(segments: Seq<Seq<u8>>, index: int, len: int)
    requires
        0 <= index <= segments.len(),
        segments.take(index).flatten().len() <= len,
        forall|i: int| 0 <= i < index ==> segments.take(i).flatten().len() < len,
    ensures
        ({
            let left = len - segments.take(index).flatten().len();
            split_segments(segments, len) == match split_segments(segments.skip(index), left) {
                Some((prefix, rest)) => Some((segments.take(index) + prefix, rest)),
                None => None,
            }
        }),
    decreases index,
{
    if index == 0 {
        assert(segments.take(0) =~= Seq::<Seq<u8>>::empty());
        assert(segments.skip(0) =~= segments);
        if let Some((prefix, rest)) = split_segments(segments, len) {
            assert(Seq::<Seq<u8>>::empty() + prefix =~= prefix);
        }
    } else {
        lemma_split_step(segments, index - 1, len);
        let before = segments.take(index - 1);
        let here = segments[index - 1];
        assert(segments.take(index) =~= before.push(here));
        before.lemma_flatten_push(here);
        let left = len - before.flatten().len();
        let tail = segments.skip(index - 1);
        assert(tail.drop_first() =~= segments.skip(index));
        assert(tail[0] == here);
        if let Some((prefix, rest)) = split_segments(segments.skip(index), left - here.len()) {
            assert(before + (seq![here] + prefix) =~= segments.take(index) + prefix);
        }
    }
}

impl Segments {
    /// Every payload that a constructor hands out is well-formed, and every method
    /// keeps it so.
    pub closed spec fn wf(&self) -> bool {
        self.head <= self.chunks@.len()
    }

    /// All bytes of the payload, in order.
    pub open spec fn payload(&self) -> Seq<u8> {
        self@.flatten()
    }

    /// A payload without segments.
    pub fn empty() -> (segments: Self)
        ensures
            segments.wf(),
            segments@ == Seq::<Seq<u8>>::empty(),
    {
        let segments = Segments { chunks: ChunkList::with_capacity(0), head: 0 };
        proof {
            assert(segments@ =~= Seq::<Seq<u8>>::empty());
        }
        segments
    }

    /// Build a segmented payload from ordered byte segments.
    pub fn new(segments: Vec<Bytes>) -> (payload: Self)
        ensures
            payload.wf(),
            payload@ == octets::all_octets(segments@),
    {
        let payload = Segments { chunks: ChunkList::from_vec(segments), head: 0 };
        proof {
            assert(payload.chunks@.skip(0) =~= segments@);
        }
        payload
    }

    /// Build a payload from chunks that were collected last first.
    pub(crate) fn from_reversed(chunks: ChunkList) -> (payload: Self)
        ensures
            payload.wf(),
            payload@ == octets::all_octets(chunks@.reverse()),
    {
        let mut chunks = chunks;
        let ghost all = chunks@;
        let mut ordered = ChunkList::with_capacity(0);
        loop
            invariant
                all =~= chunks@ + ordered@.reverse(),
            ensures
                chunks@.len() == 0,
                all =~= chunks@ + ordered@.reverse(),
            decreases chunks@.len(),
        {
            match chunks.pop() {
                Some(chunk) => ordered.push(chunk),
                None => break,
            }
        }
        let payload = Segments { chunks: ordered, head: 0 };
        proof {
            assert(ordered@.skip(0) =~= all.reverse());
        }
        payload
    }

    /// Build a single-segment payload.
    pub fn single(segment: Bytes) -> (payload: Self)
        ensures
            payload.wf(),
            payload@ == seq![octets::octets(segment)],
    {
        let mut chunks = ChunkList::with_capacity(1);
        chunks.push(segment);
        let payload = Segments { chunks, head: 0 };
        proof {
            assert(payload@ =~= seq![octets::octets(segment)]);
        }
        payload
    }

    /// Total payload length across all segments.
    pub fn len(&self) -> (len: usize)
        requires
            self.wf(),
            self.payload().len() <= usize::MAX,
        ensures
            len == self.payload().len(),
    {
        let segments = self.as_slice();
        let mut total: usize = 0;
        let mut i: usize = 0;
        while i < segments.len()
            invariant
                segments@.len() == self@.len(),
                self@ == octets::all_octets(segments@),
                i <= segments.len(),
                total == self@.take(i as int).flatten().len(),
                self.payload().len() <= usize::MAX,
            decreases segments.len() - i,
        {
            proof {
                lemma_take_flatten(self@, i as int);
            }
            total = total + bytes_len(&segments[i]);
            i += 1;
        }
        proof {
            assert(self@.take(i as int) =~= self@);
        }
        total
    }

    /// Whether the payload contains zero bytes.
    pub fn is_empty(&self) -> (empty: bool)
        requires
            self.wf(),
        ensures
            empty <==> self.payload().len() == 0,
    {
        let segments = self.as_slice();
        let mut i: usize = 0;
        while i < segments.len()
            invariant
                self@ == octets::all_octets(segments@),
                i <= segments.len(),
                self@.take(i as int).flatten().len() == 0,
            decreases segments.len() - i,
        {
            proof {
                lemma_take_flatten(self@, i as int);
            }
            if bytes_len(&segments[i]) != 0 {
                return false;
            }
            i += 1;
        }
        proof {
            assert(self@.take(i as int) =~= self@);
        }
        true
    }

    /// Number of byte segments.
    pub fn segment_count(&self) -> (count: usize)
        requires
            self.wf(),
        ensures
            count == self@.len(),
    {
        self.chunks.as_slice().len() - self.head
    }

    /// Borrow all segments.
    pub fn as_slice(&self) -> (segments: &[Bytes])
        requires
            self.wf(),
        ensures
            self@ == octets::all_octets(segments@),
    {
        let chunks = self.chunks.as_slice();
        proof {
            assert(chunks@.subrange(self.head as int, chunks@.len() as int) =~= chunks@.skip(
                self.head as int,
            ));
        }
        vstd::slice::slice_subrange(chunks, self.head, chunks.len())
    }

    /// Drop the consumed chunks.
    fn compact(&mut self)
        requires
            old(self).wf(),
        ensures
            final(self).wf(),
            final(self)@ == old(self)@,
            final(self).head == 0,
    {
        if self.head != 0 {
            self.chunks.drop_front(self.head);
            self.head = 0;
        }
        proof {
            assert(final(self).chunks@.skip(0) =~= old(self).chunks@.skip(old(self).head as int));
        }
    }

    /// Append another payload without copying its bytes.
    ///
    /// Compacts consumed slots before extending the segment list.
    pub fn append(&mut self, other: Self)
        requires
            old(self).wf(),
            other.wf(),
        ensures
            final(self).wf(),
            final(self)@ == old(self)@ + other@,
    {
        self.compact();
        let mut other = other;
        other.compact();
        let ghost first = self.chunks@;
        let ghost second = other.chunks@;
        let moved = other.chunks.into_vec();
        for chunk in it: moved
            invariant
                self.head == 0,
                it.seq() == second,
                self.chunks@ =~= first + second.take(it.index()),
        {
            self.chunks.push(chunk);
        }
        proof {
            assert(self.chunks@ =~= first + second);
            assert(self@ =~= old(self)@ + other@);
        }
    }

    /// Split off an owned byte prefix without copying payload data.
    ///
    /// Scans only the prefix, then transfers its segments without shifting the
    /// remainder. A boundary segment shares its [`Bytes`] owner.
    ///
    /// Returns `None` and leaves `self` unchanged when `len` exceeds the
    /// remaining payload length.
    pub fn split_to(&mut self, len: usize) -> (prefix: Option<Self>)
        requires
            old(self).wf(),
        ensures
            final(self).wf(),
            prefix is Some <==> len <= old(self).payload().len(),
            prefix is None ==> final(self)@ == old(self)@,
            prefix matches Some(p) ==> p.wf() && split_segments(old(self)@, len as int) == Some(
                (p@, final(self)@),
            ) && p.payload() == old(self).payload().take(len as int) && final(self).payload()
                == old(self).payload().skip(len as int),
    {
        let ghost whole = self@;
        let ghost items = self.chunks@;
        proof {
            law_split_partitions_payload(whole, len as int);
        }
        if len == 0 {
            return Some(Segments::empty());
        }
        let count: usize = self.chunks.as_slice().len();
        let mut end: usize = self.head;
        let mut remaining: usize = len;
        while remaining != 0
            invariant_except_break
                self.wf(),
                self.chunks@ == items,
                self@ == whole,
                count == items.len(),
                self.head <= end <= count,
                remaining + whole.take(end - self.head).flatten().len() == len,
                forall|i: int|
                    0 <= i < end - self.head ==> (#[trigger] whole.take(i)).flatten().len() < len,
                *self == *old(self),
                whole == old(self)@,
                prefix_owed(whole, len as int),
            ensures
                self.wf(),
                self.chunks@ == items,
                *self == *old(self),
                self@ == whole,
                self.head <= end <= count,
                remaining + whole.take(end - self.head).flatten().len() == len,
                forall|i: int|
                    0 <= i < end - self.head ==> (#[trigger] whole.take(i)).flatten().len() < len,
                remaining != 0 ==> end < count && octets::octets(items[end as int]).len()
                    > remaining,
            decreases count - end,
        {
            let ghost at = end - self.head;
            if end >= count {
                proof {
                    assert(whole.take(at) =~= whole);
                }
                return None;
            }
            let size: usize = bytes_len(&self.chunks.as_slice()[end]);
            proof {
                assert(items.skip(self.head as int)[at] == items[end as int]);
                assert(whole[at] == octets::octets(items[end as int]));
            }
            if size > remaining {
                break;
            }
            proof {
                lemma_take_flatten(whole, at);
            }
            remaining = remaining - size;
            end = end + 1;
        }
        let ghost at = end - self.head;
        let ghost head = self.head as int;
        proof {
            lemma_split_step(whole, at, len as int);
        }
        // Small suffixes must not inherit storage for consumed segments.
        if self.head == 0 && end == count {
            let mut taken = Segments::empty();
            core::mem::swap(&mut taken, self);
            proof {
                assert(whole.take(at) =~= whole);
                assert(whole + Seq::<Seq<u8>>::empty() =~= whole);
                assert(whole.skip(at) =~= Seq::<Seq<u8>>::empty());
            }
            return Some(taken);
        }
        let mut prefix = ChunkList::with_capacity(0);
        let mut next: usize = self.head;
        while next < end
            invariant
                self.chunks@.len() == items.len(),
                head == self.head,
                self.head <= next <= end <= count == items.len(),
                prefix@ =~= items.subrange(head, next as int),
                forall|i: int| next <= i < items.len() ==> self.chunks@[i] == items[i],
            decreases end - next,
        {
            prefix.push(self.chunks.take_at(next));
            next = next + 1;
        }
        self.head = end;
        if remaining != 0 {
            prefix.push(self.chunks.split_to_at(end, remaining));
        }
        let prefix = Segments { chunks: prefix, head: 0 };
        proof {
            assert(items.skip(head)[at] == items[end as int] || end == count);
            if remaining != 0 {
                assert(whole.skip(at)[0] == octets::octets(items[end as int]));
                assert(prefix@ =~= whole.take(at) + seq![whole[at].take(remaining as int)]);
                assert(self@ =~= whole.skip(at).update(0, whole[at].skip(remaining as int)));
            } else {
                assert(whole.take(at) + Seq::<Seq<u8>>::empty() =~= whole.take(at));
                assert(prefix@ =~= whole.take(at));
                assert(self@ =~= whole.skip(at));
            }
        }
        Some(prefix)
    }

    /// Borrow this payload as a cursor.
    pub fn as_buf(&self) -> (cursor: SegmentsBuf<'_>)
        requires
            self.wf(),
            self.payload().len() <= usize::MAX,
        ensures
            cursor.wf(),
            cursor.rest() == self.payload(),
    {
        SegmentsBuf::new(self.as_slice(), self.len())
    }

    /// Return this payload as contiguous bytes.
    ///
    /// This is O(1) for zero or one segment, and allocates/copies for multiple
    /// segments.
    pub fn to_bytes(&self) -> (bytes: Bytes)
        requires
            self.wf(),
            self.payload().len() <= usize::MAX,
        ensures
            octets::octets(bytes) == self.payload(),
    {
        let segments = self.as_slice();
        if segments.len() == 0 {
            return bytes_new();
        }
        if segments.len() == 1 {
            proof {
                self@.lemma_flatten_one_element();
            }
            return bytes_clone(&segments[0]);
        }
        self.collect()
    }

    /// Consume this payload and return contiguous bytes.
    ///
    /// Reuses a single segment's storage, and allocates/copies for multiple segments.
    pub fn into_bytes(self) -> (bytes: Bytes)
        requires
            self.wf(),
            self.payload().len() <= usize::MAX,
        ensures
            octets::octets(bytes) == self.payload(),
    {
        let mut this = self;
        let count: usize = this.segment_count();
        if count == 0 {
            return bytes_new();
        }
        if count == 1 {
            proof {
                self@.lemma_flatten_one_element();
                assert(self@[0] == octets::octets(self.chunks@.last()));
            }
            return match this.chunks.pop() {
                Some(segment) => segment,
                None => bytes_new(),
            };
        }
        this.collect()
    }

    /// Consume this payload without flattening its segments.
    pub fn into_chunks(self) -> (chunks: Vec<Bytes>)
        requires
            self.wf(),
        ensures
            octets::all_octets(chunks@) == self@,
    {
        let mut this = self;
        this.compact();
        proof {
            assert(this.chunks@.skip(0) =~= this.chunks@);
        }
        this.chunks.into_vec()
    }

    /// Copy every segment into one contiguous buffer.
    fn collect(&self) -> (bytes: Bytes)
        requires
            self.wf(),
            self.payload().len() <= usize::MAX,
        ensures
            octets::octets(bytes) == self.payload(),
    {
        bytes_from_vec(self.to_vec())
    }

    /// Copy every segment into one vector.
    pub fn to_vec(&self) -> (out: Vec<u8>)
        requires
            self.wf(),
            self.payload().len() <= usize::MAX,
        ensures
            out@ == self.payload(),
    {
        let segments = self.as_slice();
        let mut out: Vec<u8> = Vec::with_capacity(self.len());
        let mut i: usize = 0;
        while i < segments.len()
            invariant
                self@ == octets::all_octets(segments@),
                i <= segments.len(),
                out@ == self@.take(i as int).flatten(),
            decreases segments.len() - i,
        {
            proof {
                lemma_take_flatten(self@, i as int);
            }
            out.extend_from_slice(bytes_as_slice(&segments[i]));
            i += 1;
        }
        proof {
            assert(self@.take(i as int) =~= self@);
        }
        out
    }

    /// Clone only unconsumed segment handles.
    pub fn clone_segments(&self) -> (copy: Self)
        requires
            self.wf(),
        ensures
            copy.wf(),
            copy@ == self@,
    {
        let segments = self.as_slice();
        let mut copies: Vec<Bytes> = Vec::new();
        let mut i: usize = 0;
        while i < segments.len()
            invariant
                i <= segments.len(),
                copies.len() == i,
                forall|k: int|
                    0 <= k < i ==> octets::octets(#[trigger] copies@[k]) == octets::octets(
                        segments@[k],
                    ),
            decreases segments.len() - i,
        {
            copies.push(bytes_clone(&segments[i]));
            i += 1;
        }
        proof {
            assert(octets::all_octets(copies@) =~= octets::all_octets(segments@));
        }
        Segments::new(copies)
    }
}

/// What a split owes on a payload that is long enough or not.
spec fn prefix_owed(segments: Seq<Seq<u8>>, len: int) -> bool {
    split_segments(segments, len) is Some <==> len <= segments.flatten().len()
}

/// Borrowed cursor over [`Segments`].
///
/// Advancing the cursor does not mutate the underlying [`Segments`].
pub struct SegmentsBuf<'a> {
    segments: &'a [Bytes],
    index: usize,
    offset: usize,
    remaining: usize,
}

impl<'a> SegmentsBuf<'a> {
    /// The bytes of the segment the cursor stands in, from the cursor on.
    pub closed spec fn head(&self) -> Seq<u8> {
        if self.index < self.segments@.len() {
            octets::octets(self.segments@[self.index as int]).skip(self.offset as int)
        } else {
            Seq::empty()
        }
    }

    /// All bytes from the cursor on.
    pub closed spec fn rest(&self) -> Seq<u8> {
        if self.index < self.segments@.len() {
            self.head() + octets::all_octets(self.segments@).skip(self.index + 1).flatten()
        } else {
            Seq::empty()
        }
    }

    /// The cursor stands on a byte, or at the end.
    pub closed spec fn wf(&self) -> bool {
        &&& self.placed()
        &&& self.index < self.segments@.len() ==> self.head().len() > 0
    }

    /// The cursor is inside its segment, possibly behind its last byte.
    spec fn placed(&self) -> bool {
        &&& self.index <= self.segments@.len()
        &&& self.index == self.segments@.len() ==> self.offset == 0
        &&& self.index < self.segments@.len() ==> self.offset <= octets::octets(
            self.segments@[self.index as int],
        ).len()
        &&& self.remaining == self.rest().len()
    }

    fn new(segments: &'a [Bytes], len: usize) -> (cursor: Self)
        requires
            len == octets::all_octets(segments@).flatten().len(),
        ensures
            cursor.wf(),
            cursor.rest() == octets::all_octets(segments@).flatten(),
    {
        let mut this = SegmentsBuf { segments, index: 0, offset: 0, remaining: len };
        proof {
            let all = octets::all_octets(segments@);
            if all.len() > 0 {
                assert(all.skip(1) =~= all.drop_first());
                assert(octets::octets(segments@[0]).skip(0) =~= all[0]);
            }
            assert(this.rest() =~= all.flatten());
        }
        this.skip_empty_segments();
        this
    }

    fn skip_empty_segments(&mut self)
        requires
            old(self).placed(),
        ensures
            final(self).wf(),
            final(self).rest() == old(self).rest(),
            final(self).segments == old(self).segments,
    {
        while self.index < self.segments.len() && self.offset >= bytes_len(
            &self.segments[self.index],
        )
            invariant
                self.placed(),
                self.rest() == old(self).rest(),
                self.segments == old(self).segments,
            decreases self.segments@.len() - self.index,
        {
            let ghost before = *self;
            self.index = self.index + 1;
            self.offset = 0;
            proof {
                let all = octets::all_octets(self.segments@);
                let i = self.index as int;
                if i < all.len() {
                    assert(all.skip(i).drop_first() =~= all.skip(i + 1));
                    assert(octets::octets(self.segments@[i]).skip(0) =~= all[i]);
                } else {
                    assert(all.skip(i) =~= Seq::<Seq<u8>>::empty());
                }
                assert(self.rest() =~= before.rest());
            }
        }
    }

    /// Bytes from the cursor to the end.
    pub fn remaining(&self) -> (len: usize)
        requires
            self.wf(),
        ensures
            len == self.rest().len(),
    {
        self.remaining
    }

    /// The bytes of the segment the cursor stands in; empty only at the end.
    pub fn chunk(&self) -> (chunk: &[u8])
        requires
            self.wf(),
        ensures
            chunk@ == self.head(),
            chunk@.len() == 0 <==> self.rest().len() == 0,
            chunk@ == self.rest().take(chunk@.len() as int),
    {
        proof {
            self.lemma_head();
        }
        if self.index >= self.segments.len() {
            return &[];
        }
        let segment = bytes_as_slice(&self.segments[self.index]);
        proof {
            assert(segment@.subrange(self.offset as int, segment@.len() as int) =~= self.head());
        }
        vstd::slice::slice_subrange(segment, self.offset, segment.len())
    }

    /// The current segment's bytes begin the rest, and are empty only at its end.
    pub proof fn lemma_head(&self)
        requires
            self.wf(),
        ensures
            self.head() == self.rest().take(self.head().len() as int),
            self.head().len() == 0 <==> self.rest().len() == 0,
    {
        assert(self.head() =~= self.rest().take(self.head().len() as int));
    }

    /// Move the cursor `step` bytes on inside its segment.
    fn advance_inside(&mut self, step: usize)
        requires
            old(self).wf(),
            0 < step <= old(self).head().len(),
        ensures
            final(self).wf(),
            final(self).rest() == old(self).rest().skip(step as int),
    {
        let ghost before = *self;
        proof {
            self.lemma_head();
        }
        let size: usize = bytes_len(&self.segments[self.index]);
        let behind: usize = size - self.offset - step;
        self.offset = size - behind;
        self.remaining = self.remaining - step;
        proof {
            assert(self.head() =~= before.head().skip(step as int));
            assert(self.rest() =~= before.rest().skip(step as int));
        }
        self.skip_empty_segments();
    }

    /// Move the cursor past `cnt` bytes.
    pub fn advance(&mut self, cnt: usize)
        requires
            old(self).wf(),
            cnt <= old(self).rest().len(),
        ensures
            final(self).wf(),
            final(self).rest() == old(self).rest().skip(cnt as int),
    {
        let ghost start = self.rest();
        let mut left: usize = cnt;
        proof {
            assert(start.skip(0) =~= start);
        }
        while left > 0
            invariant
                self.wf(),
                left <= cnt <= start.len(),
                start == old(self).rest(),
                self.rest() == start.skip(cnt - left),
            decreases left,
        {
            let in_segment: usize = self.chunk().len();
            let step: usize = if in_segment < left {
                in_segment
            } else {
                left
            };
            self.advance_inside(step);
            left = left - step;
            proof {
                assert(self.rest() =~= start.skip(cnt - left));
            }
        }
    }

    /// Copy the next `len` bytes and move past them.
    pub fn copy_to_bytes(&mut self, len: usize) -> (bytes: Bytes)
        requires
            old(self).wf(),
            len <= old(self).rest().len(),
        ensures
            final(self).wf(),
            octets::octets(bytes) == old(self).rest().take(len as int),
            final(self).rest() == old(self).rest().skip(len as int),
    {
        bytes_from_vec(self.copy_to_vec(len))
    }

    /// Copy the next `len` bytes and move past them, or `None` without moving when
    /// fewer are left.
    pub fn try_copy_to_vec(&mut self, len: usize) -> (bytes: Option<Vec<u8>>)
        requires
            old(self).wf(),
        ensures
            final(self).wf(),
            bytes is Some <==> len <= old(self).rest().len(),
            bytes matches Some(b) ==> b@ == old(self).rest().take(len as int)
                && final(self).rest() == old(self).rest().skip(len as int),
            bytes is None ==> final(self).rest() == old(self).rest(),
    {
        if len > self.remaining {
            None
        } else {
            Some(self.copy_to_vec(len))
        }
    }

    fn copy_to_vec(&mut self, len: usize) -> (out: Vec<u8>)
        requires
            old(self).wf(),
            len <= old(self).rest().len(),
        ensures
            final(self).wf(),
            out@ == old(self).rest().take(len as int),
            final(self).rest() == old(self).rest().skip(len as int),
    {
        let ghost start = self.rest();
        let mut out: Vec<u8> = Vec::new();
        proof {
            assert(start.skip(0) =~= start);
        }
        while out.len() < len
            invariant
                self.wf(),
                out@.len() <= len <= start.len(),
                start == old(self).rest(),
                out@ == start.take(out@.len() as int),
                self.rest() == start.skip(out@.len() as int),
            decreases len - out@.len(),
        {
            let ghost done = out@.len() as int;
            let chunk = self.chunk();
            let step: usize = if chunk.len() < len - out.len() {
                chunk.len()
            } else {
                len - out.len()
            };
            let part = vstd::slice::slice_subrange(chunk, 0, step);
            proof {
                assert(part@ =~= start.subrange(done, done + step));
            }
            out.extend_from_slice(part);
            self.advance(step);
            proof {
                assert(out@ =~= start.take(done + step));
                assert(self.rest() =~= start.skip(done + step));
            }
        }
        out
    }
}

/// An exclusively owned buffer allocation of a pool.
pub struct BufferLease {
    /// The buffer's start address and full allocation capacity.
    allocation: Allocation,
}

impl BufferLease {
    pub closed spec fn slot(self) -> Allocation {
        self.allocation
    }

    /// Create a new buffer lease from an allocation.
    pub fn new(allocation: Allocation) -> (lease: Self)
        ensures
            lease.slot() == allocation,
    {
        BufferLease { allocation }
    }

    /// The buffer's start address and full allocation capacity.
    pub fn allocation(&self) -> (allocation: Allocation)
        ensures
            allocation == self.slot(),
    {
        self.allocation
    }

    /// Give the buffer back to the pool it was allocated from.
    pub fn release(self, pool: &mut SlotPool) -> (released: Result<(), AllocError>)
        requires
            old(pool).wf(),
        ensures
            final(pool).wf(),
            released is Ok <==> old(pool)@.live(self.slot().addr),
            released matches Err(e) ==> e == AllocError::InvalidFree(self.slot().addr, 0),
            final(pool)@ == old(pool)@.after_dealloc(self.slot().addr),
    {
        pool.dealloc(self.allocation.addr)
    }
}

/// One more segment adds its bytes.
proof fn lemma_take_flatten(segments: Seq<Seq<u8>>, index: int)
    requires
        0 <= index < segments.len(),
    ensures
        segments.take(index + 1).flatten() == segments.take(index).flatten() + segments[index],
        segments.take(index + 1).flatten().len() <= segments.flatten().len(),
        segments.flatten() == segments.take(index).flatten() + segments.skip(index).flatten(),
{
    assert(segments.take(index + 1) =~= segments.take(index).push(segments[index]));
    segments.take(index).lemma_flatten_push(segments[index]);
    lemma_flatten_concat(segments.take(index + 1), segments.skip(index + 1));
    assert(segments.take(index + 1) + segments.skip(index + 1) =~= segments);
    lemma_flatten_concat(segments.take(index), segments.skip(index));
    assert(segments.take(index) + segments.skip(index) =~= segments);
}

} // verus!
