//! Driver side of a packed ring.

use vstd::prelude::*;

use super::super::access::{MemOps, MemView};
use super::super::desc;
use super::super::desc::{
    load_desc_flags, read_desc, read_event, store_desc, store_event, Descriptor, EventSuppression,
    Layout, DESC_AVAIL, DESC_NEXT, DESC_USED, DESC_WRITE, EVENT_DESC, EVENT_DISABLE, EVENT_ENABLE,
};
use super::{BufferChain, BufferElement, MemOp, RingCursor, RingError};

verus! {

/// The descriptor that makes one buffer of a chain available.
pub open spec fn avail_desc(elem: BufferElement, id: u16, next: bool, wrap: bool) -> Descriptor {
    Descriptor {
        addr: elem.addr,
        len: elem.len,
        id,
        flags: desc::avail_flags(next, elem.writable, wrap),
    }
}

/// Whether an address lies in one of the `count` descriptors from `cursor` on.
pub open spec fn in_slots(layout: Layout, cursor: RingCursor, count: int, addr: int) -> bool {
    exists|k: int|
        0 <= k < count && #[trigger] layout.desc(cursor.step(k).head as int) <= addr < layout.desc(
            cursor.step(k).head as int,
        ) + 16
}

/// `after` differs from `before` only in the descriptors from `cursor` on, which
/// make the buffers of one chain available.
pub open spec fn published(
    before: MemView,
    after: MemView,
    layout: Layout,
    cursor: RingCursor,
    id: u16,
    elems: Seq<BufferElement>,
) -> bool {
    &&& forall|k: int|
        0 <= k < elems.len() ==> desc::desc_in(
            after,
            #[trigger] layout.desc(cursor.step(k).head as int),
        ) == avail_desc(elems[k], id, k + 1 < elems.len(), cursor.step(k).wrap)
    &&& forall|a: int|
        !in_slots(layout, cursor, elems.len() as int, a) ==> #[trigger] after.byte(a)
            == before.byte(a)
}

/// `after` differs from `before` at most in the `count` descriptors from `cursor` on.
pub open spec fn same_but_slots(
    before: MemView,
    after: MemView,
    layout: Layout,
    cursor: RingCursor,
    count: int,
) -> bool {
    forall|a: int|
        !in_slots(layout, cursor, count, a) ==> #[trigger] after.byte(a) == before.byte(a)
}

/// A chain that the device is done with.
#[derive(Debug, Clone, Copy, PartialEq, Eq, Structural)]
pub struct UsedBuffer {
    pub id: u16,
    /// Bytes that the device wrote.
    pub len: u32,
}

/// Driver side of a packed ring.
pub struct RingProducer {
    pub layout: Layout,
    /// Where the next chain is made available.
    pub avail_cursor: RingCursor,
    /// Where the next used chain is expected.
    pub used_cursor: RingCursor,
    /// Descriptors that no chain in flight holds.
    pub num_free: usize,
    /// Identifiers that no chain in flight has.
    pub id_free: Vec<u16>,
    /// Descriptors of the chain in flight with each identifier.
    pub id_num: Vec<u16>,
}

impl RingProducer {
    /// Descriptors and identifiers are either free or held by one chain.
    pub open spec fn wf(self) -> bool {
        &&& self.layout.wf()
        &&& self.avail_cursor.wf() && self.avail_cursor.size == self.layout.descs()
        &&& self.used_cursor.wf() && self.used_cursor.size == self.layout.descs()
        &&& self.id_num@.len() == self.layout.descs()
        &&& self.num_free + super::total(self.id_num@) == self.layout.descs()
        &&& self.id_free@.len() == self.num_free + super::surplus(self.id_num@)
        &&& self.id_free@.no_duplicates()
        &&& forall|i: int|
            0 <= i < self.id_free@.len() ==> (#[trigger] self.id_free@[i]) < self.layout.descs()
                && self.id_num@[self.id_free@[i] as int] == 0
    }

    /// A ring in which nothing was made available yet.
    pub open spec fn fresh(self, layout: Layout) -> bool {
        &&& self.wf()
        &&& self.layout == layout
        &&& self.avail_cursor == RingCursor::start(layout.descs())
        &&& self.used_cursor == RingCursor::start(layout.descs())
        &&& self.num_free == layout.descs()
        &&& self.id_free@ == Seq::new(layout.descs() as nat, |i: int| i as u16)
        &&& forall|i: int| 0 <= i < self.id_num@.len() ==> self.id_num@[i] == 0
    }

    pub fn new(layout: Layout) -> (ring: Self)
        requires
            layout.wf(),
        ensures
            ring.fresh(layout),
    {
        let size: u16 = layout.desc_table_len();
        let mut id_free: Vec<u16> = Vec::new();
        let mut id_num: Vec<u16> = Vec::new();
        let mut id: u16 = 0;
        while id < size
            invariant
                id <= size,
                id_free@ =~= Seq::new(id as nat, |i: int| i as u16),
                id_num@ =~= Seq::new(id as nat, |i: int| 0u16),
            decreases size - id,
        {
            id_free.push(id);
            id_num.push(0);
            id += 1;
        }
        proof {
            super::lemma_counts_zero(id_num@);
        }
        RingProducer {
            layout,
            avail_cursor: RingCursor::new(size),
            used_cursor: RingCursor::new(size),
            num_free: size as usize,
            id_free,
            id_num,
        }
    }

    /// Number of descriptors.
    pub fn len(&self) -> (len: usize)
        ensures
            len == self.layout.descs(),
    {
        self.layout.desc_table_len() as usize
    }

    pub fn num_free(&self) -> (count: usize)
        ensures
            count == self.num_free,
    {
        self.num_free
    }

    /// Number of descriptors that chains in flight hold.
    pub fn num_inflight(&self) -> (count: usize)
        requires
            self.wf(),
        ensures
            count == self.layout.descs() - self.num_free,
    {
        proof {
            super::lemma_counts_nonneg(self.id_num@);
        }
        self.layout.desc_table_len() as usize - self.num_free
    }

    pub fn avail_cursor(&self) -> (cursor: RingCursor)
        ensures
            cursor == self.avail_cursor,
    {
        self.avail_cursor
    }

    pub fn used_cursor(&self) -> (cursor: RingCursor)
        ensures
            cursor == self.used_cursor,
    {
        self.used_cursor
    }

    /// The identifier of the chain that is made available next.
    pub fn next_id(&self) -> (id: Result<u16, RingError>)
        ensures
            id is Ok <==> self.id_free@.len() > 0,
            id matches Ok(i) ==> i == self.id_free@.last(),
            id matches Err(e) ==> e == RingError::WouldBlock,
    {
        match self.id_free.as_slice().last() {
            Some(id) => Ok(*id),
            None => Err(RingError::WouldBlock),
        }
    }

    /// The ring after a chain of `count` descriptors was made available.
    pub open spec fn after_submit(self, after: RingProducer, count: int) -> bool {
        &&& after.layout == self.layout
        &&& after.avail_cursor == self.avail_cursor.step(count)
        &&& after.used_cursor == self.used_cursor
        &&& after.num_free == self.num_free - count
        &&& after.id_free@ == self.id_free@.drop_last()
        &&& after.id_num@ == self.id_num@.update(self.id_free@.last() as int, count as u16)
    }

    /// Make a chain of buffers available to the device.
    ///
    /// The head descriptor's flags are stored last, so the device sees either the
    /// whole chain or nothing of it. When memory fails the ring's own state is
    /// unchanged, but descriptors may have been stored.
    pub fn submit_available<M: MemOps>(&mut self, mem: &mut M, chain: &BufferChain) -> (id: Result<
        u16,
        RingError,
    >)
        requires
            old(self).wf(),
        ensures
            final(self).wf(),
            old(mem).mem().same_mapping(final(mem).mem()),
            chain@.len() == 0 ==> id == Err::<u16, RingError>(RingError::EmptyChain),
            chain@.len() > old(self).num_free ==> id == Err::<u16, RingError>(
                RingError::WouldBlock,
            ),
            0 < chain@.len() <= old(self).num_free && old(self).layout.mapped_in(old(mem).mem())
                ==> id is Ok,
            id matches Ok(i) ==> {
                &&& 0 < chain@.len() <= old(self).num_free
                &&& i == old(self).id_free@.last()
                &&& old(self).after_submit(*final(self), chain@.len() as int)
                &&& published(
                    old(mem).mem(),
                    final(mem).mem(),
                    old(self).layout,
                    old(self).avail_cursor,
                    i,
                    chain@,
                )
            },
            id is Err ==> *final(self) == *old(self),
            id matches Err(e) ==> {
                ||| e == RingError::EmptyChain && chain@.len() == 0
                ||| e == RingError::WouldBlock && chain@.len() > old(self).num_free
                ||| e is MemError && 0 < chain@.len() <= old(self).num_free
            },
            id is Err && !(id->Err_0 is MemError) ==> *final(mem) == *old(mem),
            same_but_slots(
                old(mem).mem(),
                final(mem).mem(),
                old(self).layout,
                old(self).avail_cursor,
                chain@.len() as int,
            ),
    {
        let elems = chain.elems();
        let count: usize = elems.len();
        if count == 0 {
            return Err(RingError::EmptyChain);
        }
        if count > self.num_free {
            return Err(RingError::WouldBlock);
        }
        proof {
            super::lemma_counts_nonneg(self.id_num@);
        }
        let id: u16 = match self.next_id() {
            Ok(id) => id,
            Err(err) => return Err(err),
        };
        let ghost start = mem.mem();
        let ghost cursor = self.avail_cursor;
        let ghost layout = self.layout;
        let mut k: usize = count;
        while k > 0
            invariant
                *self == *old(self),
                self.wf(),
                elems@ == chain@,
                count == elems@.len(),
                0 < count <= self.num_free <= self.layout.descs(),
                k <= count,
                cursor == self.avail_cursor,
                layout == self.layout,
                start == old(mem).mem(),
                start.same_mapping(mem.mem()),
                partly_published(start, mem.mem(), layout, cursor, id, elems@, k as int),
            decreases k,
        {
            k = k - 1;
            let elem = elems[k];
            let place = self.avail_cursor.advanced(k as u16);
            let flags: u16 = (if k + 1 < count {
                DESC_NEXT
            } else {
                0
            }) + (if elem.writable {
                DESC_WRITE
            } else {
                0
            }) + (if place.wrap {
                DESC_AVAIL
            } else {
                DESC_USED
            });
            let addr: u64 = match self.layout.desc_addr(place.head) {
                Some(addr) => addr,
                None => return Err(RingError::InvalidState),
            };
            let ghost before = mem.mem();
            let item = Descriptor { addr: elem.addr, len: elem.len, id, flags };
            match store_desc(mem, addr, item) {
                Ok(()) => {},
                Err(_) => {
                    proof {
                        assert forall|a: int| !in_slots(
                            layout,
                            cursor,
                            elems@.len() as int,
                            a,
                        ) implies #[trigger] mem.mem().byte(a) == start.byte(a) by {
                            assert(!(addr <= a < addr + 16)) by {
                                assert(layout.desc(cursor.step(k as int).head as int) == addr);
                            }
                            assert(before.byte(a) == start.byte(a));
                        }
                    }
                    return Err(RingError::MemError { op: MemOp::WriteDesc, addr });
                },
            }
            proof {
                lemma_publish_one(
                    start,
                    before,
                    mem.mem(),
                    layout,
                    cursor,
                    id,
                    elems@,
                    k as int,
                );
            }
        }
        let ghost counts = self.id_num@;
        self.id_free.pop();
        self.id_num.set(id as usize, count as u16);
        self.num_free = self.num_free - count;
        self.avail_cursor = self.avail_cursor.advanced(count as u16);
        proof {
            super::lemma_counts_update(counts, id as int, count as u16);
            let ids = old(self).id_free@;
            assert(ids[ids.len() - 1] == id);
            assert forall|i: int| 0 <= i < self.id_free@.len() implies (
            #[trigger] self.id_free@[i]) < self.layout.descs() && self.id_num@[
            self.id_free@[i] as int] == 0 by {
                assert(self.id_free@[i] == ids[i]);
            }
        }
        Ok(id)
    }

    /// Make one buffer available to the device.
    pub fn submit_one<M: MemOps>(
        &mut self,
        mem: &mut M,
        addr: u64,
        len: u32,
        writable: bool,
    ) -> (id: Result<u16, RingError>)
        requires
            old(self).wf(),
        ensures
            final(self).wf(),
            old(mem).mem().same_mapping(final(mem).mem()),
            old(self).num_free == 0 ==> id == Err::<u16, RingError>(RingError::WouldBlock),
            0 < old(self).num_free && old(self).layout.mapped_in(old(mem).mem()) ==> id is Ok,
            id matches Ok(i) ==> {
                &&& i == old(self).id_free@.last()
                &&& old(self).after_submit(*final(self), 1)
                &&& published(
                    old(mem).mem(),
                    final(mem).mem(),
                    old(self).layout,
                    old(self).avail_cursor,
                    i,
                    seq![BufferElement { addr, len, writable }],
                )
            },
            id is Err ==> *final(self) == *old(self),
            id matches Err(e) ==> e == RingError::WouldBlock && old(self).num_free == 0 || e
                is MemError && old(self).num_free > 0,
            id is Err && !(id->Err_0 is MemError) ==> *final(mem) == *old(mem),
    {
        let elem = BufferElement { addr, len, writable };
        let mut elems: Vec<BufferElement> = Vec::new();
        elems.push(elem);
        let split: usize = if writable {
            0
        } else {
            1
        };
        let chain = BufferChain::from_parts(elems, split);
        proof {
            assert(chain@ =~= seq![elem]);
        }
        self.submit_available(mem, &chain)
    }

    /// What the ring says of the next used chain.
    pub open spec fn used_result(self, mem: MemView) -> Result<UsedBuffer, RingError> {
        let item = desc::desc_in(mem, self.layout.desc(self.used_cursor.head as int));
        if !desc::used_in(item.flags, self.used_cursor.wrap) {
            Err(RingError::WouldBlock)
        } else if item.id >= self.layout.descs() || self.id_num@[item.id as int] == 0 {
            Err(RingError::InvalidState)
        } else {
            Ok(UsedBuffer { id: item.id, len: item.len })
        }
    }

    /// The ring after the chain with identifier `id` was taken back.
    pub open spec fn after_used(self, after: RingProducer, id: u16) -> bool {
        let count = self.id_num@[id as int];
        &&& after.layout == self.layout
        &&& after.avail_cursor == self.avail_cursor
        &&& after.used_cursor == self.used_cursor.step(count as int)
        &&& after.num_free == self.num_free + count
        &&& after.id_free@ == self.id_free@.push(id)
        &&& after.id_num@ == self.id_num@.update(id as int, 0)
    }

    /// Take back the next chain that the device marked used.
    pub fn poll_used<M: MemOps>(&mut self, mem: &M) -> (used: Result<UsedBuffer, RingError>)
        requires
            old(self).wf(),
        ensures
            final(self).wf(),
            used matches Ok(u) ==> old(self).used_result(mem.mem()) == Ok::<UsedBuffer, RingError>(
                u,
            ) && old(self).after_used(*final(self), u.id),
            used matches Err(e) ==> *final(self) == *old(self) && (e is MemError
                || old(self).used_result(mem.mem()) == Err::<UsedBuffer, RingError>(e)),
            old(self).layout.mapped_in(mem.mem()) ==> !(used matches Err(e) && e is MemError),
    {
        let addr: u64 = match self.layout.desc_addr(self.used_cursor.head) {
            Some(addr) => addr,
            None => return Err(RingError::InvalidState),
        };
        let flags: u16 = match load_desc_flags(mem, addr) {
            Ok(flags) => flags,
            Err(_) => return Err(RingError::MemError { op: MemOp::ReadDesc, addr }),
        };
        if !desc::is_used(flags, self.used_cursor.wrap) {
            return Err(RingError::WouldBlock);
        }
        let item = match read_desc(mem, addr) {
            Ok(item) => item,
            Err(_) => return Err(RingError::MemError { op: MemOp::ReadDesc, addr }),
        };
        if item.id >= self.layout.desc_table_len() || self.id_num[item.id as usize] == 0 {
            return Err(RingError::InvalidState);
        }
        let id: u16 = item.id;
        let count: u16 = self.id_num[id as usize];
        let ghost counts = self.id_num@;
        let ghost ids = self.id_free@;
        proof {
            super::lemma_counts_bound(counts, id as int);
            super::lemma_counts_update(counts, id as int, 0);
        }
        self.id_num.set(id as usize, 0);
        self.id_free.push(id);
        self.num_free = self.num_free + count as usize;
        self.used_cursor = self.used_cursor.advanced(count);
        proof {
            assert forall|i: int| 0 <= i < self.id_free@.len() implies (
            #[trigger] self.id_free@[i]) < self.layout.descs() && self.id_num@[
            self.id_free@[i] as int] == 0 by {
                if i < ids.len() {
                    assert(self.id_free@[i] == ids[i]);
                }
            }
        }
        Ok(UsedBuffer { id, len: item.len })
    }

    /// Whether the device asked to be told of what was made available since
    /// `cursor`.
    pub fn should_notify_since<M: MemOps>(&self, mem: &M, cursor: RingCursor) -> (due: Result<
        bool,
        RingError,
    >)
        requires
            self.wf(),
            cursor.wf(),
            cursor.size == self.layout.descs(),
        ensures
            due matches Ok(d) ==> d == super::notification_due(
                desc::event_in(mem.mem(), self.layout.dev_evt()),
                cursor,
                self.avail_cursor,
            ),
            due matches Err(e) ==> e is MemError,
            self.layout.mapped_in(mem.mem()) ==> due is Ok,
    {
        let addr: u64 = self.layout.dev_evt_addr();
        match read_event(mem, addr) {
            Ok(event) => Ok(super::should_notify(event, cursor, self.avail_cursor)),
            Err(_) => Err(RingError::MemError { op: MemOp::ReadEvent, addr }),
        }
    }

    /// Store the driver's event suppression.
    fn set_event<M: MemOps>(&self, mem: &mut M, event: EventSuppression) -> (done: Result<
        (),
        RingError,
    >)
        requires
            self.wf(),
        ensures
            old(mem).mem().same_mapping(final(mem).mem()),
            done is Ok ==> old(mem).mem().stored(
                final(mem).mem(),
                self.layout.drv_evt(),
                event.to_bytes(),
            ),
            done matches Err(e) ==> e is MemError,
            self.layout.mapped_in(old(mem).mem()) ==> done is Ok,
    {
        let addr: u64 = self.layout.drv_evt_addr();
        match store_event(mem, addr, event) {
            Ok(()) => Ok(()),
            Err(_) => Err(RingError::MemError { op: MemOp::WriteEvent, addr }),
        }
    }

    /// Ask to be told of every used chain.
    pub fn enable_used_notifications<M: MemOps>(&mut self, mem: &mut M) -> (done: Result<
        (),
        RingError,
    >)
        requires
            old(self).wf(),
        ensures
            *final(self) == *old(self),
            old(mem).mem().same_mapping(final(mem).mem()),
            done is Ok ==> old(mem).mem().stored(
                final(mem).mem(),
                old(self).layout.drv_evt(),
                (EventSuppression { off_wrap: 0, flags: EVENT_ENABLE }).to_bytes(),
            ),
            done matches Err(e) ==> e is MemError,
            old(self).layout.mapped_in(old(mem).mem()) ==> done is Ok,
    {
        self.set_event(mem, EventSuppression::new(0, EVENT_ENABLE))
    }

    /// Ask to be told of no used chain.
    pub fn disable_used_notifications<M: MemOps>(&mut self, mem: &mut M) -> (done: Result<
        (),
        RingError,
    >)
        requires
            old(self).wf(),
        ensures
            *final(self) == *old(self),
            old(mem).mem().same_mapping(final(mem).mem()),
            done is Ok ==> old(mem).mem().stored(
                final(mem).mem(),
                old(self).layout.drv_evt(),
                (EventSuppression { off_wrap: 0, flags: EVENT_DISABLE }).to_bytes(),
            ),
            done matches Err(e) ==> e is MemError,
            old(self).layout.mapped_in(old(mem).mem()) ==> done is Ok,
    {
        self.set_event(mem, EventSuppression::new(0, EVENT_DISABLE))
    }

    /// Ask to be told when the device passes one descriptor.
    pub fn enable_used_notifications_desc<M: MemOps>(
        &mut self,
        mem: &mut M,
        off: u16,
        wrap: bool,
    ) -> (done: Result<(), RingError>)
        requires
            old(self).wf(),
            off < 0x8000,
        ensures
            *final(self) == *old(self),
            old(mem).mem().same_mapping(final(mem).mem()),
            done is Ok ==> old(mem).mem().stored(
                final(mem).mem(),
                old(self).layout.drv_evt(),
                (EventSuppression {
                    off_wrap: super::off_wrap(off, wrap),
                    flags: EVENT_DESC,
                }).to_bytes(),
            ),
            done matches Err(e) ==> e is MemError,
            old(self).layout.mapped_in(old(mem).mem()) ==> done is Ok,
    {
        let off_wrap: u16 = if wrap {
            off + 0x8000
        } else {
            off
        };
        self.set_event(mem, EventSuppression::new(off_wrap, EVENT_DESC))
    }

    /// Zero the descriptors, normalize the driver's event suppression and start
    /// over. Only while the device is stopped.
    pub fn reset<M: MemOps>(&mut self, mem: &mut M) -> (done: Result<(), RingError>)
        requires
            old(self).wf(),
        ensures
            final(self).wf(),
            final(self).layout == old(self).layout,
            old(mem).mem().same_mapping(final(mem).mem()),
            done is Ok ==> final(self).fresh(old(self).layout) && cleared(
                old(mem).mem(),
                final(mem).mem(),
                old(self).layout,
            ),
            done matches Err(e) ==> e is MemError && *final(self) == *old(self),
            old(self).layout.mapped_in(old(mem).mem()) ==> done is Ok,
    {
        let ghost layout = self.layout;
        match zero_descs(mem, self.layout) {
            Ok(()) => {},
            Err(err) => return Err(err),
        }
        let ghost before = mem.mem();
        match self.set_event(mem, EventSuppression::new(0, EVENT_ENABLE)) {
            Ok(()) => {},
            Err(err) => return Err(err),
        }
        proof {
            let event = EventSuppression { off_wrap: 0, flags: EVENT_ENABLE };
            desc::law_event_round_trip(event);
            desc::lemma_span_of_stored(before, mem.mem(), layout.drv_evt(), event.to_bytes());
            assert forall|i: int| 0 <= i < layout.descs() implies desc::desc_in(
                mem.mem(),
                #[trigger] layout.desc(i),
            ) == zero_desc() by {
                desc::lemma_span_same(before, mem.mem(), layout.desc(i), 16);
            }
        }
        *self = RingProducer::new(self.layout);
        Ok(())
    }
}

/// A descriptor of zeros.
pub open spec fn zero_desc() -> Descriptor {
    Descriptor { addr: 0, len: 0, id: 0, flags: 0 }
}

/// Zero the descriptors of a ring.
fn zero_descs<M: MemOps>(mem: &mut M, layout: Layout) -> (done: Result<(), RingError>)
    requires
        layout.wf(),
    ensures
        old(mem).mem().same_mapping(final(mem).mem()),
        done is Ok ==> {
            &&& forall|i: int|
                0 <= i < layout.descs() ==> desc::desc_in(
                    final(mem).mem(),
                    #[trigger] layout.desc(i),
                ) == zero_desc()
            &&& forall|a: int|
                !(layout.table() <= a < layout.drv_evt()) ==> #[trigger] final(mem).mem().byte(a)
                    == old(mem).mem().byte(a)
        },
        done matches Err(e) ==> e is MemError,
        layout.mapped_in(old(mem).mem()) ==> done is Ok,
{
    let size: u16 = layout.desc_table_len();
    let zero = Descriptor::zeroed();
    let ghost start = mem.mem();
    let mut index: u16 = 0;
    while index < size
        invariant
            layout.wf(),
            size == layout.descs(),
            index <= size,
            zero == zero_desc(),
            start == old(mem).mem(),
            start.same_mapping(mem.mem()),
            forall|i: int|
                0 <= i < index ==> desc::desc_in(mem.mem(), #[trigger] layout.desc(i))
                    == zero_desc(),
            forall|a: int|
                !(layout.table() <= a < layout.drv_evt()) ==> #[trigger] mem.mem().byte(a)
                    == start.byte(a),
        decreases size - index,
    {
        let addr: u64 = match layout.desc_addr(index) {
            Some(addr) => addr,
            None => return Err(RingError::MemError { op: MemOp::WriteDesc, addr: 0 }),
        };
        let ghost before = mem.mem();
        match store_desc(mem, addr, zero) {
            Ok(()) => {},
            Err(_) => return Err(RingError::MemError { op: MemOp::WriteDesc, addr }),
        }
        proof {
            assert(desc::desc_in(mem.mem(), layout.desc(index as int)) == zero_desc()) by {
                desc::law_descriptor_round_trip(zero);
                desc::lemma_span_of_stored(before, mem.mem(), addr as int, zero.to_bytes());
            }
            assert forall|i: int| 0 <= i < index implies desc::desc_in(
                mem.mem(),
                #[trigger] layout.desc(i),
            ) == zero_desc() by {
                desc::lemma_span_same(before, mem.mem(), layout.desc(i), 16);
            }
        }
        index += 1;
    }
    Ok(())
}

/// `after` differs from `before` only in the descriptors, which are zero, and the
/// driver's event suppression, which is enabled.
pub open spec fn cleared(before: MemView, after: MemView, layout: Layout) -> bool {
    &&& forall|i: int|
        0 <= i < layout.descs() ==> desc::desc_in(after, #[trigger] layout.desc(i)) == zero_desc()
    &&& desc::event_in(after, layout.drv_evt()) == (EventSuppression {
        off_wrap: 0,
        flags: EVENT_ENABLE,
    })
    &&& forall|a: int|
        !(layout.table() <= a < layout.drv_evt() + 4) ==> #[trigger] after.byte(a)
            == before.byte(a)
}

/// `published`, with only the buffers from `from` on stored yet.
spec fn partly_published(
    before: MemView,
    after: MemView,
    layout: Layout,
    cursor: RingCursor,
    id: u16,
    elems: Seq<BufferElement>,
    from: int,
) -> bool {
    &&& forall|k: int|
        from <= k < elems.len() ==> desc::desc_in(
            after,
            #[trigger] layout.desc(cursor.step(k).head as int),
        ) == avail_desc(elems[k], id, k + 1 < elems.len(), cursor.step(k).wrap)
    &&& forall|a: int|
        !in_slots(layout, cursor, elems.len() as int, a) ==> #[trigger] after.byte(a)
            == before.byte(a)
}

proof fn lemma_publish_one(
    start: MemView,
    before: MemView,
    after: MemView,
    layout: Layout,
    cursor: RingCursor,
    id: u16,
    elems: Seq<BufferElement>,
    k: int,
)
    requires
        layout.wf(),
        cursor.wf(),
        cursor.size == layout.descs(),
        0 <= k < elems.len() <= layout.descs(),
        partly_published(start, before, layout, cursor, id, elems, k + 1),
        before.stored(
            after,
            layout.desc(cursor.step(k).head as int),
            avail_desc(elems[k], id, k + 1 < elems.len(), cursor.step(k).wrap).to_bytes(),
        ),
    ensures
        partly_published(start, after, layout, cursor, id, elems, k),
{
    let place = layout.desc(cursor.step(k).head as int);
    let item = avail_desc(elems[k], id, k + 1 < elems.len(), cursor.step(k).wrap);
    desc::law_descriptor_round_trip(item);
    desc::lemma_span_of_stored(before, after, place, item.to_bytes());
    assert forall|j: int| k <= j < elems.len() implies desc::desc_in(
        after,
        #[trigger] layout.desc(cursor.step(j).head as int),
    ) == avail_desc(elems[j], id, j + 1 < elems.len(), cursor.step(j).wrap) by {
        if j > k {
            super::lemma_steps_apart(cursor, k, j);
            desc::lemma_span_same(before, after, layout.desc(cursor.step(j).head as int), 16);
        }
    }
    assert forall|a: int| !in_slots(layout, cursor, elems.len() as int, a) implies (
    #[trigger] after.byte(a)) == start.byte(a) by {
        assert(!(place <= a < place + 16));
    }
}

} // verus!
