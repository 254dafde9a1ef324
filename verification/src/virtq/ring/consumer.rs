//! Device side of a packed ring.

use vstd::prelude::*;

use super::super::access::{MemOps, MemView};
use super::super::desc;
use super::super::desc::{
    load_desc_flags, read_desc, read_event, store_event, store_used, EventSuppression, Layout,
    DESC_INDIRECT, DESC_NEXT, EVENT_DESC, EVENT_DISABLE, EVENT_ENABLE,
};
use super::{BufferChain, BufferElement, MemOp, RingCursor, RingError};
use crate::le;

verus! {

/// The chain that starts at `cursor`: the identifier in its last descriptor, and
/// its buffers. `room` bounds its length; `writing` says that a buffer before
/// `cursor` was writable.
pub open spec fn chain_at(
    mem: MemView,
    layout: Layout,
    cursor: RingCursor,
    room: nat,
    writing: bool,
) -> Result<(u16, Seq<BufferElement>), RingError>
    decreases room,
{
    let item = desc::desc_in(mem, layout.desc(cursor.head as int));
    let elem = super::element_of(item);
    if room == 0 {
        Err(RingError::BadChain)
    } else if item.flags & DESC_INDIRECT != 0 || (!elem.writable && writing) {
        Err(RingError::BadChain)
    } else if item.flags & DESC_NEXT == 0 {
        Ok((item.id, seq![elem]))
    } else {
        match chain_at(mem, layout, cursor.step(1), (room - 1) as nat, elem.writable) {
            Ok((id, rest)) => Ok((id, seq![elem] + rest)),
            Err(e) => Err(e),
        }
    }
}

/// A chain is not empty, is no longer than its room, and has its readable buffers
/// first.
pub proof fn lemma_chain_shape(
    mem: MemView,
    layout: Layout,
    cursor: RingCursor,
    room: nat,
    writing: bool,
)
    requires
        chain_at(mem, layout, cursor, room, writing) is Ok,
    ensures
        ({
            let elems = chain_at(mem, layout, cursor, room, writing)->Ok_0.1;
            &&& 0 < elems.len() <= room
            &&& exists|split: int| #[trigger] super::readable_first(elems, split)
            &&& writing ==> super::readable_first(elems, 0)
        }),
    decreases room,
{
    let item = desc::desc_in(mem, layout.desc(cursor.head as int));
    let elem = super::element_of(item);
    let elems = chain_at(mem, layout, cursor, room, writing)->Ok_0.1;
    if item.flags & DESC_NEXT == 0 {
        assert(super::readable_first(elems, if elem.writable {
            0
        } else {
            1
        }));
    } else {
        lemma_chain_shape(mem, layout, cursor.step(1), (room - 1) as nat, elem.writable);
        let rest = chain_at(mem, layout, cursor.step(1), (room - 1) as nat, elem.writable)->Ok_0.1;
        if elem.writable {
            assert(super::readable_first(elems, 0));
        } else {
            let split = choose|split: int| #[trigger] super::readable_first(rest, split);
            assert(super::readable_first(elems, split + 1));
        }
    }
}

/// A chain depends on the bytes in memory only.
proof fn lemma_chain_same(
    a: MemView,
    b: MemView,
    layout: Layout,
    cursor: RingCursor,
    room: nat,
    writing: bool,
)
    requires
        a.same_bytes(b),
    ensures
        chain_at(a, layout, cursor, room, writing) == chain_at(b, layout, cursor, room, writing),
    decreases room,
{
    desc::lemma_span_same(a, b, layout.desc(cursor.head as int), 16);
    if room > 0 {
        let elem = super::element_of(desc::desc_in(a, layout.desc(cursor.head as int)));
        lemma_chain_same(a, b, layout, cursor.step(1), (room - 1) as nat, elem.writable);
    }
}

/// What a device finds available depends on the bytes in memory only.
pub proof fn lemma_avail_same(device: RingConsumer, a: MemView, b: MemView)
    requires
        a.same_bytes(b),
    ensures
        device.avail_result(a) == device.avail_result(b),
{
    let room = (device.layout.descs() - device.num_inflight) as nat;
    desc::lemma_span_same(a, b, device.layout.desc(device.avail_cursor.head as int), 16);
    lemma_chain_same(a, b, device.layout, device.avail_cursor, room, false);
}

/// Device side of a packed ring.
pub struct RingConsumer {
    pub layout: Layout,
    /// Where the next available chain is expected.
    pub avail_cursor: RingCursor,
    /// Where the next used chain is marked.
    pub used_cursor: RingCursor,
    /// Descriptors of the chains that were taken and not yet marked used.
    pub num_inflight: usize,
    /// Descriptors of the chain in flight with each identifier.
    pub id_num: Vec<u16>,
}

impl RingConsumer {
    pub open spec fn wf(self) -> bool {
        &&& self.layout.wf()
        &&& self.avail_cursor.wf() && self.avail_cursor.size == self.layout.descs()
        &&& self.used_cursor.wf() && self.used_cursor.size == self.layout.descs()
        &&& self.id_num@.len() == self.layout.descs()
        &&& self.num_inflight == super::total(self.id_num@)
        &&& self.num_inflight <= self.layout.descs()
    }

    /// A ring from which nothing was taken yet.
    pub open spec fn fresh(self, layout: Layout) -> bool {
        &&& self.wf()
        &&& self.layout == layout
        &&& self.avail_cursor == RingCursor::start(layout.descs())
        &&& self.used_cursor == RingCursor::start(layout.descs())
        &&& self.num_inflight == 0
        &&& forall|i: int| 0 <= i < self.id_num@.len() ==> self.id_num@[i] == 0
    }

    pub fn new(layout: Layout) -> (ring: Self)
        requires
            layout.wf(),
        ensures
            ring.fresh(layout),
    {
        let size: u16 = layout.desc_table_len();
        let id_num: Vec<u16> = vec![0u16; size as usize];
        proof {
            super::lemma_counts_zero(id_num@);
        }
        RingConsumer {
            layout,
            avail_cursor: RingCursor::new(size),
            used_cursor: RingCursor::new(size),
            num_inflight: 0,
            id_num,
        }
    }

    /// Number of descriptors that no chain in flight holds.
    pub fn num_free(&self) -> (count: usize)
        requires
            self.wf(),
        ensures
            count == self.layout.descs() - self.num_inflight,
    {
        self.layout.desc_table_len() as usize - self.num_inflight
    }

    pub fn num_inflight(&self) -> (count: usize)
        ensures
            count == self.num_inflight,
    {
        self.num_inflight
    }

    pub fn avail_cursor(&self) -> (cursor: RingCursor)
        ensures
            cursor == self.avail_cursor,
    {
        self.avail_cursor
    }

    pub fn used_cursor(&self) -> (cursor: RingCursor)
        ensures
            cursor == self.used_cursor,
    {
        self.used_cursor
    }

    /// What the ring says of the next available chain.
    pub open spec fn avail_result(self, mem: MemView) -> Result<
        (u16, Seq<BufferElement>),
        RingError,
    > {
        let head = desc::desc_in(mem, self.layout.desc(self.avail_cursor.head as int));
        if !desc::avail_in(head.flags, self.avail_cursor.wrap) {
            Err(RingError::WouldBlock)
        } else {
            match chain_at(
                mem,
                self.layout,
                self.avail_cursor,
                (self.layout.descs() - self.num_inflight) as nat,
                false,
            ) {
                Ok((id, elems)) => if id >= self.layout.descs() || self.id_num@[id as int] != 0 {
                    Err(RingError::InvalidState)
                } else {
                    Ok((id, elems))
                },
                Err(e) => Err(e),
            }
        }
    }

    /// The ring after a chain was taken.
    pub open spec fn after_poll(self, after: RingConsumer, id: u16, count: int) -> bool {
        &&& after.layout == self.layout
        &&& after.avail_cursor == self.avail_cursor.step(count)
        &&& after.used_cursor == self.used_cursor
        &&& after.num_inflight == self.num_inflight + count
        &&& after.id_num@ == self.id_num@.update(id as int, count as u16)
    }

    /// Take the next chain that the driver made available.
    pub fn poll_available<M: MemOps>(&mut self, mem: &M) -> (polled: Result<
        (u16, BufferChain),
        RingError,
    >)
        requires
            old(self).wf(),
        ensures
            final(self).wf(),
            polled matches Ok((id, chain)) ==> {
                &&& chain.wf()
                &&& chain@.len() > 0
                &&& old(self).avail_result(mem.mem()) == Ok::<
                    (u16, Seq<BufferElement>),
                    RingError,
                >((id, chain@))
                &&& old(self).after_poll(*final(self), id, chain@.len() as int)
            },
            polled matches Err(e) ==> *final(self) == *old(self) && (e is MemError
                || old(self).avail_result(mem.mem()) == Err::<
                (u16, Seq<BufferElement>),
                RingError,
            >(e)),
            old(self).layout.mapped_in(mem.mem()) ==> !(polled matches Err(e) && e is MemError),
    {
        let addr: u64 = match self.layout.desc_addr(self.avail_cursor.head) {
            Some(addr) => addr,
            None => return Err(RingError::InvalidState),
        };
        let flags: u16 = match load_desc_flags(mem, addr) {
            Ok(flags) => flags,
            Err(_) => return Err(RingError::MemError { op: MemOp::ReadDesc, addr }),
        };
        if !desc::is_avail(flags, self.avail_cursor.wrap) {
            return Err(RingError::WouldBlock);
        }
        let room: usize = self.num_free();
        let ghost view = mem.mem();
        let ghost layout = self.layout;
        let ghost start = self.avail_cursor;
        let ghost whole = chain_at(view, layout, start, room as nat, false);
        let mut elems: Vec<BufferElement> = Vec::new();
        let mut split: usize = 0;
        let mut cursor = self.avail_cursor;
        let mut last_id: u16 = 0;
        let mut more: bool = true;
        while more
            invariant
                *self == *old(self),
                self.wf(),
                view == mem.mem(),
                layout == self.layout,
                start == self.avail_cursor,
                room == layout.descs() - self.num_inflight,
                whole == chain_at(view, layout, start, room as nat, false),
                desc::avail_in(
                    desc::desc_in(view, layout.desc(start.head as int)).flags,
                    start.wrap,
                ),
                elems@.len() <= room,
                super::readable_first(elems@, split as int),
                cursor == start.step(elems@.len() as int),
                more ==> whole == match chain_at(
                    view,
                    layout,
                    cursor,
                    (room - elems@.len()) as nat,
                    split < elems@.len(),
                ) {
                    Ok((id, rest)) => Ok((id, elems@ + rest)),
                    Err(e) => Err(e),
                },
                !more ==> elems@.len() > 0 && whole == Ok::<
                    (u16, Seq<BufferElement>),
                    RingError,
                >((last_id, elems@)),
            decreases room - elems@.len(),
        {
            if elems.len() == room {
                return Err(RingError::BadChain);
            }
            proof {
                super::lemma_steps_add(start, elems@.len() as int, 1);
                if elems@.len() == 0 {
                    super::lemma_steps_add(start, 0, 0);
                }
            }
            let addr: u64 = match self.layout.desc_addr(cursor.head) {
                Some(addr) => addr,
                None => return Err(RingError::InvalidState),
            };
            let item = match read_desc(mem, addr) {
                Ok(item) => item,
                Err(_) => return Err(RingError::MemError { op: MemOp::ReadDesc, addr }),
            };
            let elem = BufferElement::from_desc(&item);
            if item.flags & DESC_INDIRECT != 0 {
                return Err(RingError::BadChain);
            }
            if !elem.writable && split != elems.len() {
                return Err(RingError::BadChain);
            }
            let ghost before = elems@;
            if !elem.writable {
                split = split + 1;
            }
            elems.push(elem);
            cursor = cursor.advanced(1);
            last_id = item.id;
            more = item.flags & DESC_NEXT != 0;
            proof {
                assert(before + seq![elem] =~= elems@);
                if more {
                    if let Ok((id, rest)) = chain_at(
                        view,
                        layout,
                        cursor,
                        (room - elems@.len()) as nat,
                        elem.writable,
                    ) {
                        assert(before + (seq![elem] + rest) =~= elems@ + rest);
                    }
                }
            }
        }
        if last_id >= self.layout.desc_table_len() || self.id_num[last_id as usize] != 0 {
            return Err(RingError::InvalidState);
        }
        proof {
            super::lemma_counts_update(self.id_num@, last_id as int, elems@.len() as u16);
        }
        let count: usize = elems.len();
        self.id_num.set(last_id as usize, count as u16);
        self.num_inflight = self.num_inflight + count;
        self.avail_cursor = cursor;
        Ok((last_id, BufferChain::from_parts(elems, split)))
    }

    /// The memory after the chain with identifier `id` was marked used.
    pub open spec fn marked_used(self, before: MemView, after: MemView, id: u16, len: u32) -> bool {
        before.stored(
            after,
            self.layout.desc(self.used_cursor.head as int) + 8,
            le::le32_bytes(len) + le::le16_bytes(id) + le::le16_bytes(
                desc::used_flags(self.used_cursor.wrap),
            ),
        )
    }

    /// The ring after the chain with identifier `id` was marked used.
    pub open spec fn after_used(self, after: RingConsumer, id: u16) -> bool {
        let count = self.id_num@[id as int];
        &&& after.layout == self.layout
        &&& after.avail_cursor == self.avail_cursor
        &&& after.used_cursor == self.used_cursor.step(count as int)
        &&& after.num_inflight == self.num_inflight - count
        &&& after.id_num@ == self.id_num@.update(id as int, 0)
    }

    /// Whether a chain with this identifier was taken and not yet marked used.
    pub open spec fn holds(self, id: u16) -> bool {
        id < self.layout.descs() && self.id_num@[id as int] != 0
    }

    /// Marking a chain used changes no memory but the device's part of one descriptor.
    pub open spec fn marks_only(self, before: MemView, after: MemView) -> bool {
        before.same_outside(after, self.layout.desc(self.used_cursor.head as int) + 8, 8)
    }

    /// Mark the chain with identifier `id` used, with `len` bytes written to it.
    pub fn submit_used<M: MemOps>(&mut self, mem: &mut M, id: u16, len: u32) -> (done: Result<
        (),
        RingError,
    >)
        requires
            old(self).wf(),
        ensures
            final(self).wf(),
            old(mem).mem().same_mapping(final(mem).mem()),
            !old(self).holds(id) ==> done == Err::<(), RingError>(RingError::InvalidState)
                && *final(mem) == *old(mem),
            done is Ok ==> old(self).holds(id) && old(self).after_used(*final(self), id)
                && old(self).marked_used(old(mem).mem(), final(mem).mem(), id, len),
            done matches Err(e) ==> *final(self) == *old(self) && (old(self).holds(id)
                ==> e is MemError),
            old(self).holds(id) && old(self).layout.mapped_in(old(mem).mem()) ==> done is Ok,
            old(self).marks_only(old(mem).mem(), final(mem).mem()),
    {
        if id >= self.layout.desc_table_len() || self.id_num[id as usize] == 0 {
            return Err(RingError::InvalidState);
        }
        let addr: u64 = match self.layout.desc_addr(self.used_cursor.head) {
            Some(addr) => addr,
            None => return Err(RingError::InvalidState),
        };
        let flags: u16 = if self.used_cursor.wrap {
            0x8080
        } else {
            0
        };
        match store_used(mem, addr, id, len, flags) {
            Ok(()) => {},
            Err(_) => return Err(RingError::MemError { op: MemOp::WriteDesc, addr }),
        }
        let count: u16 = self.id_num[id as usize];
        proof {
            super::lemma_counts_bound(self.id_num@, id as int);
            super::lemma_counts_update(self.id_num@, id as int, 0);
        }
        self.id_num.set(id as usize, 0);
        self.num_inflight = self.num_inflight - count as usize;
        self.used_cursor = self.used_cursor.advanced(count);
        Ok(())
    }

    /// Mark a chain used and decide whether the driver asked to be told of it.
    pub fn submit_used_with_notify<M: MemOps>(
        &mut self,
        mem: &mut M,
        id: u16,
        len: u32,
    ) -> (due: Result<bool, RingError>)
        requires
            old(self).wf(),
        ensures
            final(self).wf(),
            old(mem).mem().same_mapping(final(mem).mem()),
            !old(self).holds(id) ==> due == Err::<bool, RingError>(RingError::InvalidState)
                && *final(self) == *old(self) && *final(mem) == *old(mem),
            due matches Ok(d) ==> {
                &&& old(self).holds(id)
                &&& old(self).after_used(*final(self), id)
                &&& old(self).marked_used(old(mem).mem(), final(mem).mem(), id, len)
                &&& d == super::notification_due(
                    desc::event_in(final(mem).mem(), old(self).layout.drv_evt()),
                    old(self).used_cursor,
                    final(self).used_cursor,
                )
            },
            old(self).holds(id) && due is Err ==> due->Err_0 is MemError && (*final(self) == *old(
                self,
            ) || old(self).after_used(*final(self), id)),
            old(self).holds(id) && old(self).layout.mapped_in(old(mem).mem()) ==> due is Ok,
            old(self).marks_only(old(mem).mem(), final(mem).mem()),
    {
        let before = self.used_cursor;
        match self.submit_used(mem, id, len) {
            Ok(()) => {},
            Err(err) => return Err(err),
        }
        let addr: u64 = self.layout.drv_evt_addr();
        match read_event(mem, addr) {
            Ok(event) => Ok(super::should_notify(event, before, self.used_cursor)),
            Err(_) => Err(RingError::MemError { op: MemOp::ReadEvent, addr }),
        }
    }

    /// Store the device's event suppression.
    fn set_event<M: MemOps>(&self, mem: &mut M, event: EventSuppression) -> (done: Result<
        (),
        RingError,
    >)
        requires
            self.wf(),
        ensures
            old(mem).mem().same_mapping(final(mem).mem()),
            done is Ok ==> old(mem).mem().stored(
                final(mem).mem(),
                self.layout.dev_evt(),
                event.to_bytes(),
            ),
            done matches Err(e) ==> e is MemError,
            self.layout.mapped_in(old(mem).mem()) ==> done is Ok,
    {
        let addr: u64 = self.layout.dev_evt_addr();
        match store_event(mem, addr, event) {
            Ok(()) => Ok(()),
            Err(_) => Err(RingError::MemError { op: MemOp::WriteEvent, addr }),
        }
    }

    /// Ask to be told of every available chain.
    pub fn enable_avail_notifications<M: MemOps>(&mut self, mem: &mut M) -> (done: Result<
        (),
        RingError,
    >)
        requires
            old(self).wf(),
        ensures
            *final(self) == *old(self),
            old(mem).mem().same_mapping(final(mem).mem()),
            done is Ok ==> old(mem).mem().stored(
                final(mem).mem(),
                old(self).layout.dev_evt(),
                (EventSuppression { off_wrap: 0, flags: EVENT_ENABLE }).to_bytes(),
            ),
            done matches Err(e) ==> e is MemError,
            old(self).layout.mapped_in(old(mem).mem()) ==> done is Ok,
    {
        self.set_event(mem, EventSuppression::new(0, EVENT_ENABLE))
    }

    /// Ask to be told of no available chain.
    pub fn disable_avail_notifications<M: MemOps>(&mut self, mem: &mut M) -> (done: Result<
        (),
        RingError,
    >)
        requires
            old(self).wf(),
        ensures
            *final(self) == *old(self),
            old(mem).mem().same_mapping(final(mem).mem()),
            done is Ok ==> old(mem).mem().stored(
                final(mem).mem(),
                old(self).layout.dev_evt(),
                (EventSuppression { off_wrap: 0, flags: EVENT_DISABLE }).to_bytes(),
            ),
            done matches Err(e) ==> e is MemError,
            old(self).layout.mapped_in(old(mem).mem()) ==> done is Ok,
    {
        self.set_event(mem, EventSuppression::new(0, EVENT_DISABLE))
    }

    /// Ask to be told when the driver passes one descriptor.
    pub fn enable_avail_notifications_desc<M: MemOps>(
        &mut self,
        mem: &mut M,
        off: u16,
        wrap: bool,
    ) -> (done: Result<(), RingError>)
        requires
            old(self).wf(),
            off < 0x8000,
        ensures
            *final(self) == *old(self),
            old(mem).mem().same_mapping(final(mem).mem()),
            done is Ok ==> old(mem).mem().stored(
                final(mem).mem(),
                old(self).layout.dev_evt(),
                (EventSuppression {
                    off_wrap: super::off_wrap(off, wrap),
                    flags: EVENT_DESC,
                }).to_bytes(),
            ),
            done matches Err(e) ==> e is MemError,
            old(self).layout.mapped_in(old(mem).mem()) ==> done is Ok,
    {
        let off_wrap: u16 = if wrap {
            off + 0x8000
        } else {
            off
        };
        self.set_event(mem, EventSuppression::new(off_wrap, EVENT_DESC))
    }

    /// Normalize the device's event suppression and start over.
    pub fn reset<M: MemOps>(&mut self, mem: &mut M) -> (done: Result<(), RingError>)
        requires
            old(self).wf(),
        ensures
            final(self).wf(),
            final(self).layout == old(self).layout,
            old(mem).mem().same_mapping(final(mem).mem()),
            done is Ok ==> final(self).fresh(old(self).layout) && old(mem).mem().stored(
                final(mem).mem(),
                old(self).layout.dev_evt(),
                (EventSuppression { off_wrap: 0, flags: EVENT_ENABLE }).to_bytes(),
            ),
            done matches Err(e) ==> e is MemError && *final(self) == *old(self),
            old(self).layout.mapped_in(old(mem).mem()) ==> done is Ok,
    {
        match self.set_event(mem, EventSuppression::new(0, EVENT_ENABLE)) {
            Ok(()) => {},
            Err(err) => return Err(err),
        }
        *self = RingConsumer::new(self.layout);
        Ok(())
    }
}

} // verus!
