//! One request through a queue and its reply back.

use vstd::prelude::*;
use vstd::seq_lib::*;

use super::malformed;
use super::memory;
use super::memory::FuzzMem;
use crate::le;
use crate::octets::bytes_as_slice;
use crate::virtq::access::MemView;
use crate::virtq::builder;
use crate::virtq::consumer;
use crate::virtq::entries;
use crate::virtq::entries::BufferEntry;
use crate::virtq::laws;
use crate::virtq::pool::slot;
use crate::virtq::pool::slot::PoolView;
use crate::virtq::ring;
use crate::virtq::ring::coherence;
use crate::virtq::ring::coherence::{Traffic, UsedMark};
use crate::virtq::send;
use crate::virtq::send::WriteMode;
use crate::virtq::{
    BufferElement, Layout, MemOps, NoopNotifier, RecvChain, ReplyChain, RingError, SendChain,
    SlotLayout, SlotPool, Token, UsedBuffer, UsedChain, VirtqConsumer, VirtqError, VirtqProducer,
};

verus! {

/// Where the ring starts.
pub const BASE_ADDR: u64 = 0x1000;

/// Descriptors of the ring, and slots of the pool.
pub const QUEUE_SIZE: usize = 16;

/// Bytes of a pool slot.
pub const SLOT_SIZE: usize = 64;

/// Bytes of the pool.
pub const POOL_SIZE: usize = 1024;

/// A request, its reply and how they are handed over.
#[derive(Debug)]
pub struct RoundTrip<'a> {
    pub request: &'a [u8],
    pub response: &'a [u8],
    /// Bytes of one read or write.
    pub chunk_size: usize,
    /// Bytes that the request leaves for the reply.
    pub reply_capacity: usize,
}

/// Bytes of an input that belong to the request.
pub open spec fn request_len(data: Seq<u8>) -> int {
    le::le16(data.subrange(0, 2)) as int % (data.len() - 4 + 1)
}

/// Bytes that an input leaves for the reply.
pub open spec fn capacity_of(data: Seq<u8>) -> int {
    data.len() - 4 - request_len(data) + data[3]
}

/// An input holds a header and bytes that fit the pool, and asks for at least one buffer.
pub open spec fn parses(data: Seq<u8>) -> bool {
    &&& 4 <= data.len() <= 4 + POOL_SIZE
    &&& request_len(data) > 0 || capacity_of(data) > 0
}

/// Split an input into a request and its reply.
pub fn parse_round_trip(data: &[u8]) -> (case: Option<RoundTrip<'_>>)
    ensures
        case is Some <==> parses(data@),
        case matches Some(c) ==> {
            &&& c.request@ == data@.subrange(4, 4 + request_len(data@))
            &&& c.response@ == data@.skip(4 + request_len(data@))
            &&& c.chunk_size == data@[2] + 1
            &&& c.reply_capacity == capacity_of(data@)
            &&& c.wf()
        },
{
    if data.len() < 4 || data.len() - 4 > POOL_SIZE {
        return None;
    }
    let word: u16 = le::read_le16(vstd::slice::slice_subrange(data, 0, 2));
    let split: usize = word as usize % (data.len() - 4 + 1);
    let request = vstd::slice::slice_subrange(data, 4, 4 + split);
    let response = vstd::slice::slice_subrange(data, 4 + split, data.len());
    proof {
        assert(response@ =~= data@.skip(4 + split));
    }
    let reply_capacity: usize = response.len() + data[3] as usize;
    if request.len() == 0 && reply_capacity == 0 {
        return None;
    }
    Some(RoundTrip { request, response, chunk_size: data[2] as usize + 1, reply_capacity })
}

/// Slots that a number of bytes takes.
pub open spec fn slots_of(len: int) -> int {
    (len + SLOT_SIZE - 1) / SLOT_SIZE as int
}

impl<'a> RoundTrip<'a> {
    /// The request fits the pool, the reply fits the capacity, and there is at least one
    /// buffer.
    pub open spec fn wf(self) -> bool {
        &&& self.request@.len() <= POOL_SIZE
        &&& self.response@.len() <= self.reply_capacity <= 2 * POOL_SIZE
        &&& self.chunk_size > 0
        &&& self.request@.len() > 0 || self.reply_capacity > 0
    }

    /// Descriptors that the request and its reply take.
    pub open spec fn descs(self) -> int {
        slots_of(self.request@.len() as int) + slots_of(self.reply_capacity as int)
    }

    /// Descriptors that the request and its reply take.
    pub fn descriptors(&self) -> (count: usize)
        requires
            self.wf(),
        ensures
            count == self.descs(),
    {
        (self.request.len() + SLOT_SIZE - 1) / SLOT_SIZE + (self.reply_capacity + SLOT_SIZE - 1)
            / SLOT_SIZE
    }
}

/// Bytes from the start of the ring to the pool.
pub const RING_BYTES: usize = 320;

/// Where the pool starts.
pub const POOL_BASE: u64 = 0x1140;

/// A request of pieces that fit a slot, no more of them than are free, is answered.
proof fn lemma_pieces_answered(pool: PoolView, lens: Seq<int>)
    requires
        pool.lower is None,
        lens.len() <= pool.upper.free.len(),
        forall|i: int| 0 <= i < lens.len() ==> 0 < #[trigger] lens[i] <= pool.upper.layout.size(),
    ensures
        entries::answers(pool, lens) is Some,
        entries::pool_after(pool, lens).lower is None,
        entries::pool_after(pool, lens).upper.layout == pool.upper.layout,
        entries::pool_after(pool, lens).upper.free.len() == pool.upper.free.len() - lens.len(),
    decreases lens.len(),
{
    if lens.len() > 0 {
        assert(0 < lens[lens.len() - 1] <= pool.upper.layout.size());
        lemma_pieces_answered(pool, lens.drop_last());
    }
}

/// The pieces of a region are not empty and fit a slot.
proof fn lemma_pieces_fit(cap: int, size: int)
    requires
        0 <= cap,
        0 < size,
    ensures
        forall|i: int|
            0 <= i < builder::split_region(cap, size).len() ==> 0
                < #[trigger] builder::split_region(cap, size)[i] <= size,
    decreases cap,
{
    if cap > size {
        lemma_pieces_fit(cap - size, size);
        let rest = builder::split_region(cap - size, size);
        assert forall|i: int| 0 <= i < builder::split_region(cap, size).len() implies 0
            < #[trigger] builder::split_region(cap, size)[i] <= size by {
            if i > 0 {
                assert(builder::split_region(cap, size)[i] == rest[i - 1]);
            }
        }
    }
}

/// The pieces of at most one region.
proof fn lemma_one_region(caps: Seq<usize>, cap: usize)
    requires
        caps == if cap == 0 {
            Seq::empty()
        } else {
            seq![cap]
        },
    ensures
        builder::split_all(caps, SLOT_SIZE as int) == builder::split_region(
            cap as int,
            SLOT_SIZE as int,
        ),
        builder::split_all(caps, SLOT_SIZE as int).len() == slots_of(cap as int),
        builder::caps_sum(caps) == cap,
        forall|i: int|
            0 <= i < builder::split_all(caps, SLOT_SIZE as int).len() ==> 0
                < #[trigger] builder::split_all(caps, SLOT_SIZE as int)[i] <= SLOT_SIZE,
{
    let size = SLOT_SIZE as int;
    builder::lemma_split_len(cap as int, size);
    lemma_pieces_fit(cap as int, size);
    if cap > 0 {
        assert(caps.drop_last() =~= Seq::<usize>::empty());
        assert(builder::split_all(caps.drop_last(), size) =~= Seq::<int>::empty());
        assert(Seq::<int>::empty() + builder::split_region(cap as int, size)
            =~= builder::split_region(cap as int, size));
        assert(builder::caps_sum(caps.drop_last()) == 0);
    }
}

/// The buffers have room and lie in the pool.
spec fn in_pool(buffers: Seq<BufferEntry>) -> bool {
    forall|i: int|
        0 <= i < buffers.len() ==> POOL_BASE <= (#[trigger] buffers[i]).addr < buffers[i].addr
            + buffers[i].capacity <= POOL_BASE + POOL_SIZE
}

/// Both sides of a queue, and its memory.
struct Ends {
    mem: FuzzMem,
    producer: VirtqProducer<NoopNotifier>,
    consumer: VirtqConsumer<NoopNotifier>,
}

impl Ends {
    /// Ring and pool lie in the memory, one behind the other.
    spec fn placed(self) -> bool {
        &&& self.producer.wf()
        &&& self.consumer.wf()
        &&& self.producer.inner.layout.table() == BASE_ADDR
        &&& self.producer.inner.layout.descs() == QUEUE_SIZE
        &&& self.consumer.inner.layout == self.producer.inner.layout
        &&& self.mem.base() == BASE_ADDR
        &&& self.mem.data().len() == RING_BYTES + POOL_SIZE
        &&& self.producer.pool@.lower is None
        &&& self.producer.pool@.upper.layout.base() == POOL_BASE
        &&& self.producer.pool@.upper.layout.size() == SLOT_SIZE
        &&& self.producer.pool@.upper.layout.slots() == QUEUE_SIZE
        &&& self.producer.pending@.len() == 0
    }

    /// Nothing was sent yet.
    spec fn idle(self) -> bool {
        &&& self.placed()
        &&& self.producer.inner.fresh(self.producer.inner.layout)
        &&& self.consumer.inner.fresh(self.producer.inner.layout)
        &&& self.producer.inflight.chains().len() == 0
        &&& self.producer.next_token == 0
        &&& self.consumer.next_token == 0
        &&& coherence::coherent(
            self.producer.inner,
            self.consumer.inner,
            self.mem.mem(),
            Traffic::nothing(),
        )
    }

    /// The memory serves the ring and every buffer of the pool.
    proof fn lemma_served(self)
        requires
            self.placed(),
        ensures
            self.producer.inner.layout.mapped_in(self.mem.mem()),
            forall|buffers: Seq<BufferEntry>, i: int|
                #![trigger in_pool(buffers), buffers[i]]
                in_pool(buffers) && 0 <= i < buffers.len() ==> self.mem.mem().serves(
                    buffers[i].addr as int,
                    buffers[i].capacity as int,
                ),
    {
    }

    fn new() -> (ends: Option<Self>)
        ensures
            ends matches Some(e) && e.idle() && e.producer.pool@.num_free() == QUEUE_SIZE,
    {
        let layout = match Layout::from_base(BASE_ADDR, QUEUE_SIZE as u16) {
            Ok(layout) => layout,
            Err(_) => return None,
        };
        let mem = FuzzMem::new(BASE_ADDR, RING_BYTES + POOL_SIZE);
        let slots = match SlotLayout::new(POOL_BASE, SLOT_SIZE, QUEUE_SIZE) {
            Ok(slots) => slots,
            Err(_) => return None,
        };
        let pool = match SlotPool::new(slots) {
            Ok(pool) => pool,
            Err(_) => return None,
        };
        let producer = VirtqProducer::new(layout, NoopNotifier::new(), pool);
        let consumer = VirtqConsumer::new(layout, NoopNotifier::new());
        proof {
            malformed::lemma_zeroed_ring(mem.mem(), layout);
            coherence::law_fresh_ring_is_coherent(producer.inner, consumer.inner, mem.mem());
        }
        Some(Ends { mem, producer, consumer })
    }

    /// Reserve the buffers of a request and its reply.
    fn reserve(&mut self, request: usize, reply: usize) -> (built: Result<SendChain, VirtqError>)
        requires
            old(self).idle(),
            old(self).producer.pool@.num_free() == QUEUE_SIZE,
            request <= POOL_SIZE,
            reply <= 2 * POOL_SIZE,
            request > 0 || reply > 0,
        ensures
            final(self).idle(),
            final(self).mem == old(self).mem,
            ({
                let descs = slots_of(request as int) + slots_of(reply as int);
                &&& built == Err::<SendChain, VirtqError>(VirtqError::Backpressure) <==> descs
                    > QUEUE_SIZE
                &&& built matches Err(e) ==> final(self).producer.pool@ == old(self).producer.pool@
                    && (e == VirtqError::Backpressure || e == VirtqError::Bookkeeping && descs > 4)
                &&& built matches Ok(chain) ==> {
                    &&& chain.wf()
                    &&& chain.owned.buffers@.len() == descs
                    &&& chain.owned.readable == slots_of(request as int)
                    &&& chain.rd_capacity == request
                    &&& chain.rd_written == 0
                    &&& chain.write_mode == WriteMode::Unset
                    &&& in_pool(chain.owned.buffers@)
                    &&& forall|i: int|
                        chain.owned.readable <= i < descs ==> (
                        #[trigger] chain.owned.buffers@[i]).capacity == SLOT_SIZE
                    &&& entries::all_live(
                        final(self).producer.pool@,
                        entries::addrs_of(chain.owned.buffers@),
                    )
                    &&& final(self).producer.pool@.num_free() == QUEUE_SIZE - descs
                }
            }),
    {
        let mut request_chain = self.producer.chain();
        proof {
            assert(request_chain.rd_caps@ =~= Seq::<usize>::empty());
            assert(request_chain.wr_caps@ =~= Seq::<usize>::empty());
        }
        if request > 0 {
            request_chain = request_chain.readable(request);
            assert(request_chain.rd_caps@ =~= seq![request]);
        }
        if reply > 0 {
            request_chain = request_chain.writable(reply);
            assert(request_chain.wr_caps@ =~= seq![reply]);
        }
        let ghost asked = request_chain;
        let ghost pool = self.producer.pool@;
        let ghost size = SLOT_SIZE as int;
        proof {
            self.producer.pool.lemma_wf_view();
            lemma_one_region(asked.rd_caps@, request);
            lemma_one_region(asked.wr_caps@, reply);
            let lens = asked.plan(pool).lens;
            let rd = builder::split_all(asked.rd_caps@, size);
            let wr = builder::split_all(asked.wr_caps@, size);
            assert(lens == rd + wr);
            assert forall|i: int| 0 <= i < lens.len() implies 0 < #[trigger] lens[i] <= size by {
                if i < rd.len() {
                    assert(lens[i] == rd[i]);
                } else {
                    assert(lens[i] == wr[i - rd.len()]);
                }
            }
            assert(asked.all_lens(pool) =~= lens);
            lemma_counted(asked.rd_caps@ + asked.wr_caps@, request, reply);
            assert(asked.request_error(pool) == if lens.len() > QUEUE_SIZE {
                Some(VirtqError::Backpressure)
            } else {
                None
            });
            if lens.len() <= QUEUE_SIZE {
                lemma_pieces_answered(pool, lens);
                entries::lemma_answers_live(pool, lens);
            }
        }
        match request_chain.build(&mut self.producer.pool) {
            Ok(chain) => {
                proof {
                    let lens = asked.plan(pool).lens;
                    let slots = entries::answers(pool, lens)->0;
                    let after = self.producer.pool@;
                    let buffers = chain.owned.buffers@;
                    assert forall|i: int| 0 <= i < buffers.len() implies POOL_BASE <= (
                    #[trigger] buffers[i]).addr < buffers[i].addr + buffers[i].capacity
                        <= POOL_BASE + POOL_SIZE by {
                        assert(0 < lens[i] <= size);
                        assert(buffers[i].addr == slots[i].addr);
                        assert(after.live_len(slots[i].addr) == slots[i].len);
                        assert(entries::allocation_addrs(slots)[i] == slots[i].addr);
                        assert(after.live(entries::allocation_addrs(slots)[i]));
                        slot::law_live_slots_are_in_range(after, slots[i].addr);
                    }
                }
                Ok(chain)
            },
            Err(err) => Err(err),
        }
    }

    /// Write the request, a chunk at a time.
    fn fill(&mut self, chain: SendChain, request: &[u8], chunk_size: usize) -> (filled: Result<
        SendChain,
        VirtqError,
    >)
        requires
            old(self).idle(),
            chain.wf(),
            in_pool(chain.owned.buffers@),
            chain.rd_capacity == request@.len(),
            chain.rd_written == 0,
            chain.write_mode != WriteMode::Direct,
            request@.len() > 0 ==> chain.owned.readable > 0,
            chunk_size > 0,
        ensures
            final(self).idle(),
            final(self).producer == old(self).producer,
            filled matches Ok(c) && {
                &&& chain.same_buffers(c)
                &&& c.wf()
                &&& c.rd_written == request@.len()
                &&& c.payload(final(self).mem.mem()) == request@
            },
    {
        let mut this = chain;
        let size: usize = request.len();
        let mut at: usize = 0;
        proof {
            send::lemma_payload_len(self.mem.mem(), chain.readable());
            assert(request@.take(0) =~= Seq::<u8>::empty());
            assert(chain.payload(self.mem.mem()) =~= Seq::<u8>::empty());
        }
        while at < size
            invariant
                size == request@.len(),
                at <= size,
                chunk_size > 0,
                self.idle(),
                self.producer == old(self).producer,
                in_pool(chain.owned.buffers@),
                request@.len() > 0 ==> chain.owned.readable > 0,
                chain.same_buffers(this),
                this.wf(),
                this.write_mode != WriteMode::Direct,
                this.rd_capacity == size,
                this.rd_written == at,
                this.payload(self.mem.mem()) == request@.take(at as int),
            decreases size - at,
        {
            let step: usize = if chunk_size < size - at {
                chunk_size
            } else {
                size - at
            };
            let chunk = vstd::slice::slice_subrange(request, at, at + step);
            let ghost before = *self;
            let ghost sent = this;
            proof {
                self.lemma_served();
                lemma_same_place(chain, this);
                assert(in_pool(this.owned.buffers@));
                assert(send::entries_mapped(self.mem.mem(), this.readable())) by {
                    assert forall|i: int| 0 <= i < this.readable().len() implies
                        self.mem.mem().serves(
                        (#[trigger] this.readable()[i]).addr as int,
                        this.readable()[i].capacity as int,
                    ) by {
                        assert(this.readable()[i] == this.owned.buffers@[i]);
                    }
                }
            }
            match this.write_all(&mut self.mem, chunk) {
                Ok(()) => {},
                Err(err) => return Err(err),
            }
            proof {
                memory::lemma_same_place(before.mem, self.mem);
                let layout = self.producer.inner.layout;
                assert forall|a: int| layout.table() <= a < layout.drv_evt() implies (
                #[trigger] self.mem.mem().byte(a)) == before.mem.mem().byte(a) by {
                    assert(!send::in_entries(sent.readable(), a)) by {
                        assert forall|i: int| 0 <= i < sent.readable().len() implies !((
                        #[trigger] sent.readable()[i]).addr <= a < sent.readable()[i].addr
                            + sent.readable()[i].capacity) by {
                            assert(sent.readable()[i] == sent.owned.buffers@[i]);
                        }
                    }
                }
                coherence::law_other_stores_keep_a_ring_coherent(
                    self.producer.inner,
                    self.consumer.inner,
                    before.mem.mem(),
                    self.mem.mem(),
                    Traffic::nothing(),
                );
                assert(request@.take(at as int) + chunk@ =~= request@.take(at + step));
            }
            at = at + step;
        }
        proof {
            assert(request@.take(at as int) =~= request@);
        }
        Ok(this)
    }

    /// One chain is on its way: the driver tracks its buffers, which are live.
    spec fn carries(self, token: Token, buffers: Seq<BufferEntry>, readable: int) -> bool {
        &&& self.placed()
        &&& self.producer.inflight.chains().len() == 1
        &&& self.producer.inflight.chains()[0].token == token
        &&& self.producer.inflight.chains()[0].chain.buffers@ == buffers
        &&& self.producer.inflight.chains()[0].chain.readable == readable
        &&& 0 <= readable <= buffers.len()
        &&& 0 < buffers.len() <= QUEUE_SIZE
        &&& in_pool(buffers)
        &&& send::apart(buffers)
        &&& forall|i: int|
            0 <= i < readable ==> (#[trigger] buffers[i]).written <= buffers[i].capacity
        &&& entries::all_live(self.producer.pool@, entries::addrs_of(buffers))
        &&& self.producer.pool@.num_free() == QUEUE_SIZE - buffers.len()
    }

    /// The device holds the chain with an identifier.
    spec fn holds(self, id: u16, count: int) -> bool {
        id < QUEUE_SIZE && self.consumer.inner.id_num@[id as int] == count
    }

    /// Ring and memory agree on what is on its way.
    spec fn coherent(self, t: Traffic) -> bool {
        coherence::coherent(self.producer.inner, self.consumer.inner, self.mem.mem(), t)
    }

    /// Make the request available, with `room` for its record or none for the reason given.
    fn submit(&mut self, chain: SendChain, room: Result<(), VirtqError>) -> (token: Result<
        Token,
        VirtqError,
    >)
        requires
            old(self).idle(),
            chain.wf(),
            chain.owned.buffers@.len() <= QUEUE_SIZE,
            in_pool(chain.owned.buffers@),
            entries::all_live(
                old(self).producer.pool@,
                entries::addrs_of(chain.owned.buffers@),
            ),
            old(self).producer.pool@.num_free() == QUEUE_SIZE - chain.owned.buffers@.len(),
        ensures
            room is Ok ==> token is Ok,
            room matches Err(e) ==> token == Err::<Token, VirtqError>(e),
            token matches Ok(t) ==> {
                let buffers = chain.owned.buffers@;
                let readable = chain.owned.readable as int;
                let elems = entries::published_elems(buffers, readable);
                &&& t.seq == 0
                &&& final(self).carries(t, buffers, readable)
                &&& final(self).coherent(Traffic::nothing().submitted(t.id, elems))
                &&& final(self).producer.inner.num_free == QUEUE_SIZE - buffers.len()
                &&& final(self).consumer == old(self).consumer
                &&& consumer::elems_payload(
                    final(self).mem.mem(),
                    consumer::readable_part(elems),
                ) == chain.payload(old(self).mem.mem())
            },
    {
        let ghost before = *self;
        let ghost buffers = chain.owned.buffers@;
        let ghost readable = chain.owned.readable as int;
        let ghost elems = entries::published_elems(buffers, readable);
        proof {
            self.lemma_served();
            self.producer.inflight.lemma_wf();
            assert(!self.producer.inflight.has(self.producer.inner.id_free@.last()));
        }
        match self.producer.submit_in(&mut self.mem, chain, room) {
            Ok(token) => {
                proof {
                    memory::lemma_same_place(before.mem, self.mem);
                    assert(ring::readable_first(elems, readable));
                    assert forall|i: int| 0 <= i < readable implies (
                    #[trigger] buffers[i]).written <= buffers[i].capacity by {
                        assert(chain.readable()[i] == buffers[i]);
                    }
                    let ids = before.producer.inner.id_free@;
                    assert(ids.len() > 0);
                    assert(ids[ids.len() - 1] == token.id);
                    coherence::law_submitting_appends_a_chain(
                        before.producer.inner,
                        self.producer.inner,
                        before.consumer.inner,
                        before.mem.mem(),
                        self.mem.mem(),
                        Traffic::nothing(),
                        token.id,
                        elems,
                        readable,
                    );
                    laws::law_submitted_payload_is_received(
                        before.mem.mem(),
                        self.mem.mem(),
                        chain,
                        self.consumer.inner,
                        token.id,
                    );
                }
                Ok(token)
            },
            Err(err) => Err(err),
        }
    }

    /// Take the request.
    fn receive(&mut self, limit: usize, Ghost(token): Ghost<Token>, Ghost(buffers): Ghost<
        Seq<BufferEntry>,
    >, Ghost(readable): Ghost<int>) -> (received: Result<(RecvChain, ReplyChain), VirtqError>)
        requires
            old(self).carries(token, buffers, readable),
            old(self).coherent(
                Traffic::nothing().submitted(
                    token.id,
                    entries::published_elems(buffers, readable),
                ),
            ),
            old(self).consumer.next_token == token.seq,
            consumer::elems_len(
                consumer::readable_part(entries::published_elems(buffers, readable)),
            ) <= limit,
        ensures
            final(self).carries(token, buffers, readable),
            final(self).mem == old(self).mem,
            received matches Ok((recv, reply)) && {
                let elems = entries::published_elems(buffers, readable);
                &&& recv.wf()
                &&& reply.wf()
                &&& recv.token_view() == token
                &&& reply.token_view() == token
                &&& recv.elems() == consumer::readable_part(elems)
                &&& reply.elems() == consumer::writable_part(elems)
                &&& reply is Ack <==> consumer::writable_part(elems).len() == 0
                &&& recv.pos() == 0
                &&& reply.pos() == 0
                &&& final(self).coherent(Traffic::nothing().submitted(token.id, elems).received())
                &&& final(self).holds(token.id, buffers.len() as int)
            },
    {
        let ghost before = *self;
        let ghost elems = entries::published_elems(buffers, readable);
        let ghost t = Traffic::nothing().submitted(token.id, elems);
        proof {
            self.lemma_served();
            coherence::law_device_takes_the_first_chain(
                self.producer.inner,
                self.consumer.inner,
                self.mem.mem(),
                t,
            );
            assert(t.chains[0] == (token.id, elems));
            assert(ring::readable_first(elems, readable));
            consumer::lemma_parts(elems, readable);
            lemma_reply_room(buffers, readable);
        }
        match self.consumer.poll(&mut self.mem, limit) {
            Ok(Some((recv, reply))) => {
                proof {
                    assert(coherence::chain_known(
                        before.producer.inner,
                        before.consumer.inner,
                        t.chains[0],
                    ));
                    coherence::law_taking_removes_the_first_chain(
                        before.producer.inner,
                        before.consumer.inner,
                        self.consumer.inner,
                        self.mem.mem(),
                        t,
                    );
                }
                Ok((recv, reply))
            },
            Ok(None) => Err(VirtqError::InvalidState),
            Err(err) => Err(err),
        }
    }

    /// The memory serves what the chain publishes.
    proof fn lemma_published_served(self, token: Token, buffers: Seq<BufferEntry>, readable: int)
        requires
            self.carries(token, buffers, readable),
        ensures
            consumer::elems_mapped(
                self.mem.mem(),
                consumer::readable_part(entries::published_elems(buffers, readable)),
            ),
            consumer::elems_mapped(
                self.mem.mem(),
                consumer::writable_part(entries::published_elems(buffers, readable)),
            ),
    {
        let elems = entries::published_elems(buffers, readable);
        assert(ring::readable_first(elems, readable));
        consumer::lemma_parts(elems, readable);
        let (rd, wr) = (elems.take(readable), elems.skip(readable));
        assert forall|i: int| 0 <= i < rd.len() implies (#[trigger] rd[i]).addr + rd[i].len
            <= u64::MAX && self.mem.mem().serves(rd[i].addr as int, rd[i].len as int) by {
            assert(buffers[i].written <= buffers[i].capacity);
        }
        assert forall|i: int| 0 <= i < wr.len() implies (#[trigger] wr[i]).addr + wr[i].len
            <= u64::MAX && self.mem.mem().serves(wr[i].addr as int, wr[i].len as int) by {
            assert(wr[i].addr == buffers[readable + i].addr);
        }
    }

    /// Read the request, a chunk at a time.
    fn read(&self, recv: RecvChain, chunk_size: usize) -> (read: Result<
        (Vec<u8>, RecvChain),
        VirtqError,
    >)
        requires
            recv.wf(),
            recv.pos() == 0,
            chunk_size > 0,
            consumer::elems_mapped(self.mem.mem(), recv.elems()),
        ensures
            read matches Ok((bytes, r)) && {
                &&& bytes@ == recv.payload(self.mem.mem())
                &&& r.wf()
                &&& r.token_view() == recv.token_view()
                &&& r.elems() == recv.elems()
                &&& r.pos() == bytes@.len()
            },
    {
        let mut this = recv;
        let size: usize = this.len();
        let ghost all = recv.payload(self.mem.mem());
        let mut bytes: Vec<u8> = Vec::new();
        let mut at: usize = 0;
        proof {
            recv.lemma_payload(self.mem.mem());
            assert(all.take(0) =~= Seq::<u8>::empty());
        }
        while at < size
            invariant
                at <= size,
                size == consumer::elems_len(recv.elems()),
                size == all.len(),
                chunk_size > 0,
                all == recv.payload(self.mem.mem()),
                consumer::elems_mapped(self.mem.mem(), recv.elems()),
                this.wf(),
                this.token_view() == recv.token_view(),
                this.elems() == recv.elems(),
                this.pos() == at,
                bytes@ == all.take(at as int),
            decreases size - at,
        {
            let step: usize = if chunk_size < size - at {
                chunk_size
            } else {
                size - at
            };
            let mut chunk: Vec<u8> = vec![0xa5u8; step];
            match this.read_exact(&self.mem, chunk.as_mut_slice()) {
                Ok(()) => {},
                Err(err) => return Err(err),
            }
            bytes.extend_from_slice(chunk.as_slice());
            proof {
                assert(all.take(at as int) + all.subrange(at as int, at + step) =~= all.take(
                    at + step,
                ));
            }
            at = at + step;
        }
        proof {
            assert(all.take(at as int) =~= all);
        }
        Ok((bytes, this))
    }

    /// Write the reply, a chunk at a time.
    fn answer(
        &mut self,
        reply: ReplyChain,
        response: &[u8],
        chunk_size: usize,
        Ghost(token): Ghost<Token>,
        Ghost(buffers): Ghost<Seq<BufferEntry>>,
        Ghost(readable): Ghost<int>,
        Ghost(t): Ghost<Traffic>,
    ) -> (answered: Result<ReplyChain, VirtqError>)
        requires
            old(self).carries(token, buffers, readable),
            old(self).coherent(t),
            reply.wf(),
            reply.pos() == 0,
            reply.elems() == consumer::writable_part(entries::published_elems(buffers, readable)),
            response@.len() <= consumer::elems_len(reply.elems()),
            chunk_size > 0,
        ensures
            final(self).carries(token, buffers, readable),
            final(self).coherent(t),
            final(self).producer == old(self).producer,
            final(self).consumer == old(self).consumer,
            answered matches Ok(r) && {
                &&& r.wf()
                &&& r.token_view() == reply.token_view()
                &&& r.pos() == response@.len()
                &&& final(self).mem.mem().same_bytes(
                    consumer::scatter(old(self).mem.mem(), reply.elems(), 0, response@),
                )
            },
    {
        let ghost elems = reply.elems();
        let ghost start = self.mem.mem();
        match reply {
            ReplyChain::Ack(ack) => {
                proof {
                    assert(consumer::elems_len(elems) == 0);
                    assert(response@.len() == 0);
                }
                Ok(ReplyChain::Ack(ack))
            },
            ReplyChain::Writable(wc) => {
                let mut this = wc;
                let size: usize = response.len();
                let mut at: usize = 0;
                proof {
                    assert(response@.take(0) =~= Seq::<u8>::empty());
                }
                while at < size
                    invariant
                        size == response@.len(),
                        at <= size,
                        chunk_size > 0,
                        elems == consumer::writable_part(
                            entries::published_elems(buffers, readable),
                        ),
                        size <= consumer::elems_len(elems),
                        self.carries(token, buffers, readable),
                        self.coherent(t),
                        self.producer == old(self).producer,
                        self.consumer == old(self).consumer,
                        this.wf(),
                        this.token_view() == wc.token_view(),
                        this.elems() == elems,
                        this.pos() == at,
                        self.mem.mem().same_bytes(
                            consumer::scatter(start, elems, 0, response@.take(at as int)),
                        ),
                    decreases size - at,
                {
                    let step: usize = if chunk_size < size - at {
                        chunk_size
                    } else {
                        size - at
                    };
                    let chunk = vstd::slice::slice_subrange(response, at, at + step);
                    let ghost before = *self;
                    proof {
                        self.lemma_published_served(token, buffers, readable);
                    }
                    match this.write_all(&mut self.mem, chunk) {
                        Ok(()) => {},
                        Err(err) => return Err(err),
                    }
                    proof {
                        memory::lemma_same_place(before.mem, self.mem);
                        lemma_reply_frame(
                            before,
                            self.mem.mem(),
                            token,
                            buffers,
                            readable,
                            at as int,
                            chunk@,
                            t,
                        );
                        lemma_wrote_on(
                            start,
                            before.mem.mem(),
                            self.mem.mem(),
                            elems,
                            response@.take(at as int),
                            chunk@,
                        );
                        assert(response@.take(at as int) + chunk@ =~= response@.take(at + step));
                    }
                    at = at + step;
                }
                proof {
                    assert(response@.take(at as int) =~= response@);
                }
                Ok(ReplyChain::Writable(this))
            },
        }
    }

    /// Mark the chain used.
    fn complete(
        &mut self,
        recv: RecvChain,
        reply: ReplyChain,
        Ghost(token): Ghost<Token>,
        Ghost(buffers): Ghost<Seq<BufferEntry>>,
        Ghost(readable): Ghost<int>,
        Ghost(t): Ghost<Traffic>,
    ) -> (done: Result<(), VirtqError>)
        requires
            old(self).carries(token, buffers, readable),
            t == Traffic::nothing().submitted(
                token.id,
                entries::published_elems(buffers, readable),
            ).received(),
            old(self).coherent(t),
            old(self).holds(token.id, buffers.len() as int),
            recv.token_view() == token,
            reply.token_view() == token,
            0 <= reply.pos() <= QUEUE_SIZE * POOL_SIZE,
        ensures
            done is Ok,
            final(self).carries(token, buffers, readable),
            final(self).producer == old(self).producer,
            final(self).coherent(
                t.completed(token.id, reply.pos() as u32, buffers.len() as int),
            ),
            old(self).consumer.inner.marked_used(
                old(self).mem.mem(),
                final(self).mem.mem(),
                token.id,
                reply.pos() as u32,
            ),
    {
        let ghost before = *self;
        let ghost elems = entries::published_elems(buffers, readable);
        proof {
            self.lemma_served();
        }
        match self.consumer.complete(&mut self.mem, recv, reply) {
            Ok(()) => {
                proof {
                    memory::lemma_same_place(before.mem, self.mem);
                    coherence::law_completing_appends_a_mark(
                        before.producer.inner,
                        before.consumer.inner,
                        self.consumer.inner,
                        before.mem.mem(),
                        self.mem.mem(),
                        t,
                        token.id,
                        reply.pos() as u32,
                    );
                }
                Ok(())
            },
            Err(err) => Err(err),
        }
    }

    /// Take the chain back, with its reply.
    fn collect(
        &mut self,
        Ghost(token): Ghost<Token>,
        Ghost(buffers): Ghost<Seq<BufferEntry>>,
        Ghost(readable): Ghost<int>,
        Ghost(data): Ghost<Seq<u8>>,
        Ghost(t): Ghost<Traffic>,
    ) -> (used: Result<UsedChain, VirtqError>)
        requires
            old(self).carries(token, buffers, readable),
            old(self).coherent(t),
            data.len() <= entries::room(buffers, readable, buffers.len() as int),
            data.len() <= u32::MAX,
            t.used.len() == 1,
            t.used[0] == (UsedMark {
                id: token.id,
                len: data.len() as u32,
                count: buffers.len() as int,
            }),
            entries::reply_spans(
                old(self).mem.mem(),
                buffers,
                readable,
                data.len() as int,
                0,
                buffers.len() as int,
            ).flatten() == data,
        ensures
            used matches Err(e) ==> e == VirtqError::Bookkeeping && buffers.len() > 4,
            used matches Ok(u) ==> {
                &&& final(self).placed()
                &&& final(self).coherent(t.reclaimed())
                &&& final(self).producer.inflight.chains().len() == 0
                &&& u.wf()
                &&& u.token_view() == token
                &&& u is Ack <==> readable == buffers.len()
                &&& u is Ack ==> final(self).producer.pool@.num_free() == QUEUE_SIZE
                &&& u matches UsedChain::Data(_, segments, leases) ==> {
                    &&& segments.payload() == data
                    &&& entries::leases_released(
                        final(self).producer.pool@,
                        leases@,
                    ).num_free() == QUEUE_SIZE
                }
            },
    {
        let ghost before = *self;
        let ghost n = buffers.len() as int;
        proof {
            self.lemma_served();
            self.producer.pool.lemma_wf_view();
            coherence::law_driver_takes_the_first_mark(
                self.producer.inner,
                self.consumer.inner,
                self.mem.mem(),
                t,
            );
            assert(self.producer.inflight.chains()[0].token.id == token.id);
            assert(self.producer.inflight.has(token.id));
            assert(self.producer.inflight.place(token.id) == 0);
            entries::lemma_all_live_release(self.producer.pool@, entries::addrs_of(buffers));
            assert(self.producer.buffers_served(self.mem.mem()));
            entries::lemma_kept_len(buffers, readable, data.len() as int, 0, n);
        }
        let used = match self.producer.poll(&mut self.mem) {
            Ok(Some(used)) => used,
            Ok(None) => return Err(VirtqError::InvalidState),
            Err(err) => return Err(err),
        };
        proof {
            memory::lemma_same_place(before.mem, self.mem);
            coherence::law_reclaiming_removes_the_first_mark(
                before.producer.inner,
                self.producer.inner,
                before.consumer.inner,
                before.mem.mem(),
                t,
            );
            coherence::law_other_stores_keep_a_ring_coherent(
                self.producer.inner,
                self.consumer.inner,
                before.mem.mem(),
                self.mem.mem(),
                t.reclaimed(),
            );
            let pool = before.producer.pool@;
            if used is Data {
                let leases = used->Data_2;
                let spare = entries::spare_slots(buffers, readable, data.len() as int, 0, n);
                lemma_same_tiers(pool, spare);
                laws::law_completed_chain_returns_every_slot(
                    pool,
                    buffers,
                    readable,
                    data.len() as int,
                    leases@,
                );
            } else {
                lemma_same_tiers(pool, entries::addrs_of(buffers));
                laws::lemma_released_live(pool, entries::addrs_of(buffers));
            }
        }
        Ok(used)
    }

    /// Neither side finds anything.
    spec fn nothing_found(self) -> bool {
        &&& self.producer.inner.used_result(self.mem.mem()) == Err::<UsedBuffer, RingError>(
            RingError::WouldBlock,
        )
        &&& self.consumer.inner.avail_result(self.mem.mem()) == Err::<
            (u16, Seq<BufferElement>),
            RingError,
        >(RingError::WouldBlock)
    }

    /// Look for a chain on both sides. Tells whether neither finds one; finding nothing changes
    /// nothing.
    fn quiet(&mut self) -> (quiet: bool)
        requires
            old(self).placed(),
        ensures
            quiet == old(self).nothing_found(),
            quiet ==> {
                &&& final(self).consumer == old(self).consumer
                &&& final(self).producer.inner == old(self).producer.inner
                &&& final(self).producer.pool == old(self).producer.pool
                &&& final(self).producer.inflight == old(self).producer.inflight
                &&& old(self).mem.mem().same_bytes(final(self).mem.mem())
            },
    {
        let ghost before = *self;
        proof {
            self.lemma_served();
        }
        match self.producer.poll(&mut self.mem) {
            Ok(None) => {},
            _ => return false,
        }
        proof {
            memory::lemma_same_place(before.mem, self.mem);
            self.lemma_served();
            ring::consumer::lemma_avail_same(
                self.consumer.inner,
                before.mem.mem(),
                self.mem.mem(),
            );
        }
        match self.consumer.poll(&mut self.mem, POOL_SIZE) {
            Ok(None) => true,
            _ => false,
        }
    }
}

/// Whole slots hold as much as they are.
proof fn lemma_room_of_slots(buffers: Seq<BufferEntry>, readable: int, to: int)
    requires
        0 <= readable <= to <= buffers.len(),
        forall|i: int|
            readable <= i < buffers.len() ==> (#[trigger] buffers[i]).capacity == SLOT_SIZE,
    ensures
        entries::room(buffers, readable, to) == SLOT_SIZE * (to - readable),
    decreases to - readable,
{
    if to > readable {
        lemma_room_of_slots(buffers, readable, to - 1);
        assert(buffers[to - 1].capacity == SLOT_SIZE);
    }
}

/// What came out at both ends.
#[derive(Debug)]
pub struct Exchange {
    /// What the device read.
    pub received: Vec<u8>,
    /// What the driver read back, where the request left room for a reply.
    pub replied: Option<Vec<u8>>,
}

/// What came out is what went in.
pub open spec fn exchanged(case: &RoundTrip<'_>, exchange: Exchange) -> bool {
    &&& exchange.received@ == case.request@
    &&& exchange.replied is Some <==> case.reply_capacity > 0
    &&& exchange.replied matches Some(reply) ==> reply@ == case.response@
}

/// What a run leads to where the record of the request's chain has `room`, or has none.
pub open spec fn runs(
    case: &RoundTrip<'_>,
    room: Result<(), VirtqError>,
    run: Result<Exchange, VirtqError>,
) -> bool {
    match run {
        Ok(exchange) => room is Ok && case.descs() <= QUEUE_SIZE && exchanged(case, exchange),
        Err(e) => if case.descs() > QUEUE_SIZE {
            e == VirtqError::Backpressure
        } else {
            room == Err::<(), VirtqError>(e) || e == VirtqError::Bookkeeping && case.descs() > 4
        },
    }
}

/// Send a request through a queue and its reply back.
///
/// Fails with [`VirtqError::Backpressure`] where the request and its reply take more slots
/// than there are, and with [`VirtqError::Bookkeeping`] where the machine has no room for the
/// queue's books. Every other error would say that the queue went wrong.
pub fn run_round_trip(case: &RoundTrip<'_>) -> (run: Result<Exchange, VirtqError>)
    requires
        case.wf(),
    ensures
        run == Err::<Exchange, VirtqError>(VirtqError::Backpressure) <==> case.descs()
            > QUEUE_SIZE,
        run matches Err(e) ==> e == VirtqError::Backpressure || e == VirtqError::Bookkeeping,
        run matches Ok(exchange) ==> exchanged(case, exchange),
{
    let mut ends = match Ends::new() {
        Some(ends) => ends,
        None => return Err(VirtqError::InvalidState),
    };
    let room = ends.producer.inflight.try_reserve_one();
    run_on(ends, case, room)
}

/// Send a request through a queue that has `room` for the record of its chain, or has none for
/// the reason given, and its reply back.
pub fn run_round_trip_in(case: &RoundTrip<'_>, room: Result<(), VirtqError>) -> (run: Result<
    Exchange,
    VirtqError,
>)
    requires
        case.wf(),
    ensures
        runs(case, room, run),
        case.descs() > QUEUE_SIZE ==> run == Err::<Exchange, VirtqError>(VirtqError::Backpressure),
        case.descs() <= 4 && room is Ok ==> run is Ok,
        case.descs() <= 4 && room is Err ==> run == Err::<Exchange, VirtqError>(room->Err_0),
{
    match Ends::new() {
        Some(ends) => run_on(ends, case, room),
        None => Err(VirtqError::InvalidState),
    }
}

/// Send a request through a fresh queue and its reply back, given the room for the record of
/// the request's chain.
fn run_on(ends: Ends, case: &RoundTrip<'_>, room: Result<(), VirtqError>) -> (run: Result<
    Exchange,
    VirtqError,
>)
    requires
        case.wf(),
        ends.idle(),
        ends.producer.pool@.num_free() == QUEUE_SIZE,
    ensures
        runs(case, room, run),
{
    let wrong = VirtqError::InvalidState;
    let mut ends = ends;
    let descriptors: usize = case.descriptors();
    let chain = match ends.reserve(case.request.len(), case.reply_capacity) {
        Ok(chain) => chain,
        Err(err) => {
            if ends.producer.pool.num_free() != QUEUE_SIZE || ends.producer.num_free()
                != QUEUE_SIZE {
                return Err(wrong);
            }
            return Err(err);
        },
    };
    if chain.desc_count() != descriptors || ends.producer.pool.num_live() != descriptors {
        return Err(wrong);
    }
    let ghost reserved = chain;
    let chain = match ends.fill(chain, case.request, case.chunk_size) {
        Ok(chain) => chain,
        Err(err) => return Err(err),
    };
    if chain.written() != case.request.len() {
        return Err(wrong);
    }
    let ghost buffers = chain.owned.buffers@;
    let ghost readable = chain.owned.readable as int;
    let ghost elems = entries::published_elems(buffers, readable);
    proof {
        lemma_same_place(reserved, chain);
        assert forall|i: int| readable <= i < buffers.len() implies (
        #[trigger] buffers[i]).capacity == SLOT_SIZE by {
            assert(reserved.owned.buffers@[i].capacity == SLOT_SIZE);
        }
        lemma_room_of_slots(buffers, readable, buffers.len() as int);
    }
    let token = match ends.submit(chain, room) {
        Ok(token) => token,
        Err(err) => return Err(err),
    };
    exchange(ends, case, descriptors, token, Ghost(buffers), Ghost(readable))
}

/// Pass a request that was made available on, and its reply back.
fn exchange(
    ends: Ends,
    case: &RoundTrip<'_>,
    descriptors: usize,
    token: Token,
    Ghost(buffers): Ghost<Seq<BufferEntry>>,
    Ghost(readable): Ghost<int>,
) -> (run: Result<Exchange, VirtqError>)
    requires
        case.wf(),
        descriptors == case.descs() == buffers.len(),
        readable == slots_of(case.request@.len() as int),
        entries::room(buffers, readable, buffers.len() as int) == SLOT_SIZE * (buffers.len()
            - readable),
        token.seq == 0,
        ends.carries(token, buffers, readable),
        ends.coherent(
            Traffic::nothing().submitted(token.id, entries::published_elems(buffers, readable)),
        ),
        ends.producer.inner.num_free == QUEUE_SIZE - buffers.len(),
        ends.consumer.next_token == 0,
        consumer::elems_payload(
            ends.mem.mem(),
            consumer::readable_part(entries::published_elems(buffers, readable)),
        ) == case.request@,
    ensures
        run matches Err(e) ==> e == VirtqError::Bookkeeping && case.descs() > 4,
        run matches Ok(exchange) ==> exchanged(case, exchange),
{
    let wrong = VirtqError::InvalidState;
    let mut ends = ends;
    let ghost n = buffers.len() as int;
    let ghost elems = entries::published_elems(buffers, readable);
    let ghost rd = consumer::readable_part(elems);
    let ghost wr = consumer::writable_part(elems);
    let ghost t = Traffic::nothing().submitted(token.id, elems);
    if ends.producer.num_inflight() != descriptors {
        return Err(wrong);
    }
    proof {
        consumer::lemma_elems_prefix(ends.mem.mem(), rd, rd.len() as int);
        assert(ring::readable_first(elems, readable));
        consumer::lemma_parts(elems, readable);
        lemma_reply_room(buffers, readable);
    }
    let (recv, reply) = match ends.receive(
        case.request.len(),
        Ghost(token),
        Ghost(buffers),
        Ghost(readable),
    ) {
        Ok(received) => received,
        Err(err) => return Err(err),
    };
    if recv.token() != token || reply.token() != token || recv.len() != case.request.len() {
        return Err(wrong);
    }
    proof {
        ends.lemma_published_served(token, buffers, readable);
    }
    let (received, recv) = match ends.read(recv, case.chunk_size) {
        Ok(read) => read,
        Err(err) => return Err(err),
    };
    if recv.remaining() != 0 {
        return Err(wrong);
    }
    let ghost start = ends.mem.mem();
    let ghost taken = t.received();
    let reply = match ends.answer(
        reply,
        case.response,
        case.chunk_size,
        Ghost(token),
        Ghost(buffers),
        Ghost(readable),
        Ghost(taken),
    ) {
        Ok(reply) => reply,
        Err(err) => return Err(err),
    };
    if reply.written() != case.response.len() {
        return Err(wrong);
    }
    let ghost replied = ends;
    match ends.complete(
        recv,
        reply,
        Ghost(token),
        Ghost(buffers),
        Ghost(readable),
        Ghost(taken),
    ) {
        Ok(()) => {},
        Err(err) => return Err(err),
    }
    let ghost done = taken.completed(token.id, case.response@.len() as u32, n);
    proof {
        lemma_nothing_used(token.id, elems);
        laws::law_completed_reply_is_polled(
            start,
            replied.mem.mem(),
            ends.mem.mem(),
            replied.consumer.inner,
            replied.producer.inner,
            token.id,
            buffers,
            readable,
            case.response@,
        );
        assert(done.used =~= seq![
            UsedMark { id: token.id, len: case.response@.len() as u32, count: n },
        ]);
    }
    let used = match ends.collect(
        Ghost(token),
        Ghost(buffers),
        Ghost(readable),
        Ghost(case.response@),
        Ghost(done),
    ) {
        Ok(used) => used,
        Err(err) => return Err(err),
    };
    if used.token() != token || ends.producer.num_free() != QUEUE_SIZE {
        return Err(wrong);
    }
    let replied = match used {
        UsedChain::Ack(_) => None,
        UsedChain::Data(_, segments, leases) => {
            let bytes = segments.to_bytes();
            proof {
                lemma_same_tiers(
                    ends.producer.pool@,
                    entries::allocation_addrs(entries::lease_slots(leases@.reverse())),
                );
            }
            entries::release_leases(&mut ends.producer.pool, leases);
            Some(vstd::slice::slice_to_vec(bytes_as_slice(&bytes)))
        },
    };
    if ends.producer.pool.num_free() != QUEUE_SIZE {
        return Err(wrong);
    }
    proof {
        coherence::law_driver_takes_the_first_mark(
            ends.producer.inner,
            ends.consumer.inner,
            ends.mem.mem(),
            done.reclaimed(),
        );
        coherence::law_device_takes_the_first_chain(
            ends.producer.inner,
            ends.consumer.inner,
            ends.mem.mem(),
            done.reclaimed(),
        );
    }
    if !ends.quiet() {
        return Err(wrong);
    }
    Ok(Exchange { received, replied })
}

/// Before the first completion the driver and the device mark and look at the same place.
proof fn lemma_nothing_used(id: u16, elems: Seq<BufferElement>)
    ensures
        Traffic::nothing().submitted(id, elems).received().marks().len() == 0,
        Traffic::nothing().submitted(id, elems).received().used.len() == 0,
        Traffic::nothing().submitted(id, elems).received().chains.len() == 0,
{
    let t = Traffic::nothing().submitted(id, elems).received();
    assert(t.used.map_values(|u: UsedMark| coherence::mark_slots(u)).len() == 0);
}

/// Giving slots back moves no tier.
proof fn lemma_same_tiers(pool: PoolView, addrs: Seq<u64>)
    ensures
        entries::released(pool, addrs).upper.layout == pool.upper.layout,
        entries::released(pool, addrs).lower is None <==> pool.lower is None,
    decreases addrs.len(),
{
    if addrs.len() > 0 {
        lemma_same_tiers(pool.after_dealloc(addrs.last()), addrs.drop_last());
    }
}

/// A reply leaves the descriptors as they were.
proof fn lemma_reply_frame(
    before: Ends,
    after: MemView,
    token: Token,
    buffers: Seq<BufferEntry>,
    readable: int,
    pos: int,
    data: Seq<u8>,
    t: Traffic,
)
    requires
        before.carries(token, buffers, readable),
        before.coherent(t),
        0 <= pos,
        after.same_bytes(
            consumer::scatter(
                before.mem.mem(),
                consumer::writable_part(entries::published_elems(buffers, readable)),
                pos,
                data,
            ),
        ),
    ensures
        coherence::coherent(before.producer.inner, before.consumer.inner, after, t),
{
    let elems = entries::published_elems(buffers, readable);
    let layout = before.producer.inner.layout;
    assert(ring::readable_first(elems, readable));
    consumer::lemma_parts(elems, readable);
    let wr = elems.skip(readable);
    let stored = consumer::scatter(before.mem.mem(), wr, pos, data);
    assert forall|a: int| layout.table() <= a < layout.drv_evt() implies (#[trigger] after.byte(a))
        == before.mem.mem().byte(a) by {
        assert forall|i: int| 0 <= i < wr.len() implies !((#[trigger] wr[i]).addr <= a < wr[i].addr
            + wr[i].len) by {
            assert(wr[i].addr == buffers[readable + i].addr);
        }
        laws::lemma_scatter_frame(before.mem.mem(), wr, pos, data, a);
        assert(stored.byte(a) == after.byte(a));
    }
    coherence::law_other_stores_keep_a_ring_coherent(
        before.producer.inner,
        before.consumer.inner,
        before.mem.mem(),
        after,
        t,
    );
}

/// What was written before and what is written now are written together.
proof fn lemma_wrote_on(
    start: MemView,
    before: MemView,
    after: MemView,
    elems: Seq<BufferElement>,
    written: Seq<u8>,
    data: Seq<u8>,
)
    requires
        before.same_bytes(consumer::scatter(start, elems, 0, written)),
        after.same_bytes(consumer::scatter(before, elems, written.len() as int, data)),
    ensures
        after.same_bytes(consumer::scatter(start, elems, 0, written + data)),
{
    let first = consumer::scatter(start, elems, 0, written);
    consumer::lemma_scatter_same(before, first, elems, written.len() as int, data);
    consumer::law_two_writes_are_one(start, elems, 0, written, data);
    let a = consumer::scatter(before, elems, written.len() as int, data);
    let b = consumer::scatter(first, elems, written.len() as int, data);
    let c = consumer::scatter(start, elems, 0, written + data);
    assert forall|x: int| #[trigger] c.byte(x) == after.byte(x) by {
        assert(b.byte(x) == a.byte(x));
        assert(a.byte(x) == after.byte(x));
        assert(c.byte(x) == b.byte(x));
    }
}

/// The reply's buffers hold what they publish, which is no more than the pool.
proof fn lemma_reply_room(buffers: Seq<BufferEntry>, readable: int)
    requires
        0 <= readable <= buffers.len() <= QUEUE_SIZE,
        in_pool(buffers),
    ensures
        consumer::elems_len(entries::published_elems(buffers, readable).skip(readable))
            == entries::room(buffers, readable, buffers.len() as int),
        entries::room(buffers, readable, buffers.len() as int) <= QUEUE_SIZE * POOL_SIZE,
{
    let elems = entries::published_elems(buffers, readable).skip(readable);
    let n = buffers.len() as int;
    laws::lemma_room_is_len(buffers, readable, n);
    assert(elems.take(n - readable) =~= elems);
    lemma_room_bound(buffers, readable, n);
}

proof fn lemma_room_bound(buffers: Seq<BufferEntry>, readable: int, to: int)
    requires
        0 <= readable <= to <= buffers.len(),
        in_pool(buffers),
    ensures
        0 <= entries::room(buffers, readable, to) <= (to - readable) * POOL_SIZE,
    decreases to - readable,
{
    if to > readable {
        lemma_room_bound(buffers, readable, to - 1);
        assert(buffers[to - 1].capacity <= POOL_SIZE);
        assert((to - readable) * POOL_SIZE == (to - 1 - readable) * POOL_SIZE + POOL_SIZE)
            by (nonlinear_arith);
    }
}

/// Filling buffers does not move them.
proof fn lemma_same_place(chain: SendChain, after: SendChain)
    requires
        chain.same_buffers(after),
    ensures
        entries::addrs_of(after.owned.buffers@) == entries::addrs_of(chain.owned.buffers@),
        in_pool(chain.owned.buffers@) ==> in_pool(after.owned.buffers@),
{
    assert(entries::addrs_of(after.owned.buffers@) =~= entries::addrs_of(chain.owned.buffers@));
}

/// Requests of at most one region each way can be counted.
proof fn lemma_counted(caps: Seq<usize>, request: usize, reply: usize)
    requires
        caps == (if request == 0 {
            Seq::<usize>::empty()
        } else {
            seq![request]
        }) + (if reply == 0 {
            Seq::<usize>::empty()
        } else {
            seq![reply]
        }),
        request <= POOL_SIZE,
        reply <= 2 * POOL_SIZE,
    ensures
        builder::count_error(caps, SLOT_SIZE as int) is None,
{
    let size = SLOT_SIZE as int;
    reveal_with_fuel(builder::count_error, 3);
    reveal_with_fuel(builder::split_all, 3);
    builder::lemma_split_len(request as int, size);
    builder::lemma_split_len(reply as int, size);
}

/// The request and the reply of an input make up all of it behind its header, and the reply
/// has at least the room that it needs.
pub proof fn law_input_is_request_and_reply(data: Seq<u8>)
    requires
        parses(data),
    ensures
        0 <= request_len(data) <= data.len() - 4,
        data.skip(4) == data.subrange(4, 4 + request_len(data)) + data.skip(4 + request_len(data)),
        data.len() - 4 - request_len(data) <= capacity_of(data) <= data.len() - 4
            - request_len(data) + 255,
{
    let word = le::le16(data.subrange(0, 2)) as int;
    vstd::arithmetic::div_mod::lemma_mod_bound(word, data.len() - 4 + 1);
    assert(data.skip(4) =~= data.subrange(4, 4 + request_len(data)) + data.skip(
        4 + request_len(data),
    ));
}

/// Bytes take as few slots as hold them.
pub proof fn law_bytes_take_as_few_slots_as_hold_them(len: int)
    requires
        len >= 0,
    ensures
        len <= slots_of(len) * SLOT_SIZE < len + SLOT_SIZE,
{
    vstd::arithmetic::div_mod::lemma_fundamental_div_mod(len + SLOT_SIZE - 1, SLOT_SIZE as int);
}

/// A case that fits the queue comes out as it went in or finds no room for its books; one
/// that does not fit is full for now.
pub proof fn law_case_that_fits_comes_out_as_it_went_in(
    case: &RoundTrip<'_>,
    run: Result<Exchange, VirtqError>,
)
    requires
        runs(case, Ok(()), run),
    ensures
        case.descs() > QUEUE_SIZE <==> run == Err::<Exchange, VirtqError>(VirtqError::Backpressure),
        case.descs() <= 4 && case.descs() <= QUEUE_SIZE ==> run is Ok,
        run matches Ok(exchange) ==> exchange.received@ == case.request@ && (case.reply_capacity
            > 0 ==> exchange.replied is Some && exchange.replied->0@ == case.response@),
{
}

/// An input parses where it holds a header and bytes that the pool could take, unless it asks
/// for no buffer at all.
pub proof fn law_inputs_that_ask_for_a_buffer_parse(data: Seq<u8>)
    requires
        data.len() >= 4,
    ensures
        5 <= data.len() <= 4 + POOL_SIZE ==> parses(data),
        data.len() > 4 + POOL_SIZE ==> !parses(data),
        data.len() == 4 ==> (parses(data) <==> data[3] > 0),
{
    let word = le::le16(data.subrange(0, 2)) as int;
    vstd::arithmetic::div_mod::lemma_mod_bound(word, data.len() - 4 + 1);
}

} // verus!
