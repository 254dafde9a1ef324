//! Receive buffers for messages from the host.

use vstd::prelude::*;

use super::context;
use super::context::{ContextError, GuestContext};
use crate::virtq::access::MemView;
use crate::virtq::builder;
use crate::virtq::builder::ChainBuilder;
use crate::virtq::desc::Layout;
use crate::virtq::entries;
use crate::virtq::pool::slot::PoolView;
use crate::virtq::ring;
use crate::virtq::ring::canonical;
use crate::virtq::{
    BufferElement, MemOps, NoopNotifier, Notifier, RingCursor, SendChain, SubmitBatch, VirtqError,
    VirtqProducer,
};

verus! {

/// A request for one writable buffer.
pub open spec fn asks_for_buffer(request: ChainBuilder, slot: usize, free: usize) -> bool {
    &&& request.rd_caps@.len() == 0
    &&& request.wr_caps@ == seq![slot]
    &&& !request.writable_avail
    &&& request.max_descs == free
}

/// One writable chain was posted.
pub open spec fn posted(
    before: VirtqProducer<NoopNotifier>,
    after: VirtqProducer<NoopNotifier>,
    before_mem: MemView,
    after_mem: MemView,
    slot: usize,
) -> bool {
    exists|request: ChainBuilder, chain: SendChain, ready: VirtqProducer<NoopNotifier>|
        {
            &&& before.wf()
            &&& asks_for_buffer(request, slot, before.inner.num_free)
            &&& #[trigger] context::taken(request, before.pool@, ready.pool@, chain)
            &&& context::same_but_pool(before, ready)
            &&& #[trigger] ready.sends(after, before_mem, after_mem, chain)
        }
}

/// A state of a queue and of memory.
pub struct Stage {
    pub queue: VirtqProducer<NoopNotifier>,
    pub mem: MemView,
}

/// Writable chains were posted one after another, through these stages.
pub open spec fn posts(stages: Seq<Stage>, slot: usize) -> bool {
    forall|i: int|
        0 <= i < stages.len() - 1 ==> posted(
            (#[trigger] stages[i]).queue,
            stages[i + 1].queue,
            stages[i].mem,
            stages[i + 1].mem,
            slot,
        )
}

/// The next writable chain is refused.
pub open spec fn post_refused(
    queue: VirtqProducer<NoopNotifier>,
    after: VirtqProducer<NoopNotifier>,
    mem: MemView,
    slot: usize,
    error: VirtqError,
) -> bool {
    exists|request: ChainBuilder| #[trigger]
        asks_for_buffer(request, slot, queue.inner.num_free) && context::turned_away(
            queue,
            after,
            request,
            mem,
            error,
        )
}

/// The next writable chain is refused, given the room for its record.
pub open spec fn post_refused_in(
    queue: VirtqProducer<NoopNotifier>,
    after: VirtqProducer<NoopNotifier>,
    mem: MemView,
    slot: usize,
    room: Result<(), VirtqError>,
    error: VirtqError,
) -> bool {
    exists|request: ChainBuilder| #[trigger]
        asks_for_buffer(request, slot, queue.inner.num_free) && context::turned_away_in(
            queue,
            after,
            request,
            mem,
            room,
            error,
        )
}

/// The pieces of one receive buffer.
pub open spec fn buffer_lens(queue: VirtqProducer<NoopNotifier>, slot: usize) -> Seq<int> {
    builder::split_region(slot as int, queue.pool@.upper.layout.size() as int)
}

/// The ring and the pool have what one more receive buffer takes.
pub open spec fn can_post(queue: VirtqProducer<NoopNotifier>, slot: usize) -> bool {
    let lens = buffer_lens(queue, slot);
    lens.len() <= queue.inner.num_free && entries::answers(queue.pool@, lens) is Some
}

/// Nothing was posted, and what was taken for it is back in the pool.
pub open spec fn unposted(
    queue: VirtqProducer<NoopNotifier>,
    after: VirtqProducer<NoopNotifier>,
) -> bool {
    context::same_but_pool(queue, after) && after.pool@ == queue.pool@
}

/// One receive buffer is posted, or refused for now or for good, given the room for the record
/// of its chain.
pub open spec fn post_steps(
    queue: VirtqProducer<NoopNotifier>,
    after: VirtqProducer<NoopNotifier>,
    before_mem: MemView,
    after_mem: MemView,
    slot: usize,
    room: Result<(), VirtqError>,
    step: Result<bool, ContextError>,
) -> bool {
    match step {
        Ok(true) => room is Ok && posted(queue, after, before_mem, after_mem, slot),
        Ok(false) => unposted(queue, after) && post_refused_in(
            queue,
            after,
            before_mem,
            slot,
            room,
            VirtqError::Backpressure,
        ),
        Err(ContextError::Prefill(error)) => !error.transient() && (error is RingError || unposted(
            queue,
            after,
        )) && post_refused_in(queue, after, before_mem, slot, room, error),
        Err(_) => false,
    }
}

/// Writable chains were posted until one was refused: for now, because the pool or the ring
/// is full, or for good.
pub open spec fn prefills(
    queue: VirtqProducer<NoopNotifier>,
    after: VirtqProducer<NoopNotifier>,
    before_mem: MemView,
    after_mem: MemView,
    slot: usize,
    done: Result<(), ContextError>,
) -> bool {
    exists|stages: Seq<Stage>|
        {
            &&& #[trigger] posts(stages, slot)
            &&& stages.len() > 0
            &&& stages[0].queue == queue
            &&& stages[0].mem == before_mem
            &&& match done {
                Ok(_) => stages.last().mem == after_mem && post_refused(
                    stages.last().queue,
                    after,
                    stages.last().mem,
                    slot,
                    VirtqError::Backpressure,
                ),
                Err(ContextError::Prefill(error)) => !error.transient() && post_refused(
                    stages.last().queue,
                    after,
                    stages.last().mem,
                    slot,
                    error,
                ),
                Err(_) => false,
            }
        }
}

/// An address in the memory of a ring.
pub open spec fn in_ring(layout: Layout, addr: int) -> bool {
    layout.table() <= addr < layout.dev_evt() + 4
}

/// Descriptors lie in the memory of their ring.
proof fn lemma_slots_in_ring(layout: Layout, cursor: RingCursor, n: int, a: int)
    requires
        cursor.wf(),
        cursor.size == layout.descs(),
        n <= layout.descs(),
        ring::producer::in_slots(layout, cursor, n, a),
    ensures
        in_ring(layout, a),
{
    let k = choose|k: int|
        0 <= k < n && #[trigger] layout.desc(cursor.step(k).head as int) <= a < layout.desc(
            cursor.step(k).head as int,
        ) + 16;
    assert(cursor.step(k).head < layout.descs());
}

/// Publishing a chain changes the ring's memory only.
proof fn lemma_published_frame(
    before: MemView,
    after: MemView,
    layout: Layout,
    cursor: RingCursor,
    n: int,
)
    requires
        cursor.wf(),
        cursor.size == layout.descs(),
        n <= layout.descs(),
        forall|a: int|
            !ring::producer::in_slots(layout, cursor, n, a) ==> #[trigger] after.byte(a)
                == before.byte(a),
    ensures
        forall|a: int| !in_ring(layout, a) ==> #[trigger] after.byte(a) == before.byte(a),
{
    assert forall|a: int| !in_ring(layout, a) implies #[trigger] after.byte(a) == before.byte(
        a,
    ) by {
        if ring::producer::in_slots(layout, cursor, n, a) {
            lemma_slots_in_ring(layout, cursor, n, a);
        }
    }
}

impl<N: Notifier> GuestContext<N> {
    /// Everything but the H2G queue is the same.
    pub open spec fn same_but_h2g(self, after: GuestContext<N>) -> bool {
        &&& after.g2h_producer == self.g2h_producer
        &&& after.h2g_slot_size == self.h2g_slot_size
        &&& after.mbx_gva == self.mbx_gva
        &&& after.next_cid == self.next_cid
    }

    /// Publish one writable H2G chain whose record has `room` among those of the chains in
    /// flight, or has none for the reason given. `Ok(false)` says that there is no slot or no
    /// descriptor left.
    pub fn prefill_step<M: MemOps>(
        &mut self,
        batch: &mut SubmitBatch,
        mem: &mut M,
        room: Result<(), VirtqError>,
    ) -> (step: Result<bool, ContextError>)
        requires
            old(self).wf(),
            old(batch).fits(old(self).h2g_producer.inner),
            room is Ok ==> old(self).h2g_producer.inflight.chains().len() < old(
                self,
            ).h2g_producer.inflight.ids(),
        ensures
            final(self).wf(),
            final(batch).fits(final(self).h2g_producer.inner),
            old(self).same_but_h2g(*final(self)),
            final(self).h2g_producer.inner.layout == old(self).h2g_producer.inner.layout,
            final(self).h2g_producer.pending == old(self).h2g_producer.pending,
            old(mem).mem().same_mapping(final(mem).mem()),
            post_steps(
                old(self).h2g_producer,
                final(self).h2g_producer,
                old(mem).mem(),
                final(mem).mem(),
                old(self).h2g_slot_size,
                room,
                step,
            ),
            step == Ok::<bool, ContextError>(false) ==> *final(mem) == *old(mem),
            step is Ok && step->Ok_0 ==> final(self).h2g_producer.inner.num_free < old(
                self,
            ).h2g_producer.inner.num_free,
            forall|a: int|
                !in_ring(old(self).h2g_producer.inner.layout, a) ==> #[trigger] final(mem).mem().byte(a)
                    == old(mem).mem().byte(a),
            ({
                let queue = old(self).h2g_producer;
                let slot = old(self).h2g_slot_size;
                let count = buffer_lens(queue, slot).len() as int;
                0 < slot && count <= 4 ==> if !can_post(queue, slot) {
                    step == Ok::<bool, ContextError>(false)
                } else {
                    match queue.refusal(count, room) {
                        Some(e) => step == if e.transient() {
                            Ok::<bool, ContextError>(false)
                        } else {
                            Err(ContextError::Prefill(e))
                        },
                        None => queue.inner.layout.mapped_in(old(mem).mem()) ==> step == Ok::<
                            bool,
                            ContextError,
                        >(true),
                    }
                }
            }),
    {
        let ghost before = self.h2g_producer;
        let ghost start = mem.mem();
        let ghost slot = self.h2g_slot_size;
        let request = self.h2g_producer.chain().writable(self.h2g_slot_size);
        let ghost asked = request;
        proof {
            assert(asked.wr_caps@ =~= seq![self.h2g_slot_size]);
            assert(asks_for_buffer(asked, slot, before.inner.num_free));
            self.h2g_producer.pool.lemma_wf_view();
            lemma_buffer_request(asked, before, slot);
        }
        let chain = match request.build(&mut self.h2g_producer.pool) {
            Ok(chain) => chain,
            Err(error) => {
                proof {
                    assert(context::turned_away_in(
                        before,
                        self.h2g_producer,
                        asked,
                        start,
                        room,
                        error,
                    ));
                    assert(post_refused_in(before, self.h2g_producer, start, slot, room, error));
                }
                if error.is_transient() {
                    return Ok(false);
                }
                return Err(ContextError::Prefill(error));
            },
        };
        let ghost ready = self.h2g_producer;
        let ghost sent = chain;
        proof {
            assert(context::taken(asked, before.pool@, ready.pool@, sent));
            assert(sent.owned.buffers@.len() == asked.all_lens(before.pool@).len());
            ring::lemma_counts_nonneg(ready.inner.id_num@);
        }
        let token = batch.submit_in(&mut self.h2g_producer, mem, chain, room);
        proof {
            if sent.owned.buffers@.len() <= ready.inner.num_free {
                lemma_published_frame(
                    start,
                    mem.mem(),
                    ready.inner.layout,
                    ready.inner.avail_cursor,
                    sent.owned.buffers@.len() as int,
                );
            }
        }
        match token {
            Ok(_) => {
                proof {
                    assert(posted(before, self.h2g_producer, start, mem.mem(), slot));
                }
                Ok(true)
            },
            Err(error) => {
                proof {
                    assert(context::taken(asked, before.pool@, ready.pool@, sent));
                    assert(context::publish_refused_in(
                        before,
                        self.h2g_producer,
                        asked,
                        start,
                        room,
                        error,
                    ));
                    assert(post_refused_in(before, self.h2g_producer, start, slot, room, error));
                    lemma_given_back(asked, before, sent);
                }
                if error.is_transient() {
                    return Ok(false);
                }
                Err(ContextError::Prefill(error))
            },
        }
    }

    /// Publish one writable H2G chain for each currently free slot.
    ///
    /// Retained external values reduce the number of available receive buffers
    /// until their slots are released.
    pub fn prefill_h2g<M: MemOps>(&mut self, mem: &mut M) -> (done: Result<(), ContextError>)
        requires
            old(self).wf(),
        ensures
            final(self).wf(),
            old(self).same_but_h2g(*final(self)),
            final(self).h2g_producer.inner.layout == old(self).h2g_producer.inner.layout,
            final(self).h2g_producer.pending == old(self).h2g_producer.pending,
            old(mem).mem().same_mapping(final(mem).mem()),
            prefills(
                old(self).h2g_producer,
                final(self).h2g_producer,
                old(mem).mem(),
                final(mem).mem(),
                old(self).h2g_slot_size,
                done,
            ),
            forall|a: int|
                !in_ring(old(self).h2g_producer.inner.layout, a) ==> #[trigger] final(mem).mem().byte(a)
                    == old(mem).mem().byte(a),
    {
        let mut batch = self.h2g_producer.batch();
        let ghost slot = self.h2g_slot_size;
        let ghost mut stages: Seq<Stage> = seq![
            Stage { queue: self.h2g_producer, mem: mem.mem() },
        ];
        loop
            invariant
                self.wf(),
                old(self).same_but_h2g(*self),
                slot == old(self).h2g_slot_size,
                batch.fits(self.h2g_producer.inner),
                self.h2g_producer.inner.layout == old(self).h2g_producer.inner.layout,
                self.h2g_producer.pending == old(self).h2g_producer.pending,
                old(mem).mem().same_mapping(mem.mem()),
                posts(stages, slot),
                stages.len() > 0,
                stages[0].queue == old(self).h2g_producer,
                stages[0].mem == old(mem).mem(),
                stages.last().mem == mem.mem(),
                stages.last().queue == self.h2g_producer,
                forall|a: int|
                    !in_ring(old(self).h2g_producer.inner.layout, a) ==> #[trigger] mem.mem().byte(a)
                        == old(mem).mem().byte(a),
            decreases self.h2g_producer.inner.num_free,
        {
            let ghost before = self.h2g_producer;
            let ghost start = mem.mem();
            let room = self.h2g_producer.inflight.try_reserve_one();
            let ghost asked = self.h2g_producer;
            match self.prefill_step(&mut batch, mem, room) {
                Ok(true) => {
                    proof {
                        let now = Stage { queue: self.h2g_producer, mem: mem.mem() };
                        lemma_posted_after_asking(before, asked, now.queue, start, now.mem, slot);
                        let more = stages.push(now);
                        assert forall|i: int| 0 <= i < more.len() - 1 implies posted(
                            (#[trigger] more[i]).queue,
                            more[i + 1].queue,
                            more[i].mem,
                            more[i + 1].mem,
                            slot,
                        ) by {
                            if i < stages.len() - 1 {
                                assert(more[i] == stages[i]);
                                assert(more[i + 1] == stages[i + 1]);
                            }
                        }
                        stages = more;
                    }
                },
                Ok(false) => {
                    proof {
                        lemma_refused_after_asking(
                            before,
                            asked,
                            self.h2g_producer,
                            start,
                            slot,
                            room,
                            VirtqError::Backpressure,
                        );
                    }
                    batch.finish_without_notify();
                    return Ok(());
                },
                Err(error) => {
                    proof {
                        lemma_refused_after_asking(
                            before,
                            asked,
                            self.h2g_producer,
                            start,
                            slot,
                            room,
                            error->Prefill_0,
                        );
                    }
                    return Err(error);
                },
            }
        }
    }
}

/// A chain that a queue posted after it was asked for room was posted by the queue before.
proof fn lemma_posted_after_asking(
    queue: VirtqProducer<NoopNotifier>,
    asked: VirtqProducer<NoopNotifier>,
    after: VirtqProducer<NoopNotifier>,
    before_mem: MemView,
    after_mem: MemView,
    slot: usize,
)
    requires
        queue.wf(),
        context::same_but_pool(queue, asked),
        queue.pool@ == asked.pool@,
        posted(asked, after, before_mem, after_mem, slot),
    ensures
        posted(queue, after, before_mem, after_mem, slot),
{
    let (request, chain, ready) = choose|
        request: ChainBuilder,
        chain: SendChain,
        ready: VirtqProducer<NoopNotifier>,
    |
        {
            &&& asked.wf()
            &&& asks_for_buffer(request, slot, asked.inner.num_free)
            &&& #[trigger] context::taken(request, asked.pool@, ready.pool@, chain)
            &&& context::same_but_pool(asked, ready)
            &&& #[trigger] ready.sends(after, before_mem, after_mem, chain)
        };
    assert(context::taken(request, queue.pool@, ready.pool@, chain));
    assert(ready.sends(after, before_mem, after_mem, chain));
}

/// A chain that a queue refused after it was asked for room was refused by the queue before.
proof fn lemma_refused_after_asking(
    queue: VirtqProducer<NoopNotifier>,
    asked: VirtqProducer<NoopNotifier>,
    after: VirtqProducer<NoopNotifier>,
    mem: MemView,
    slot: usize,
    room: Result<(), VirtqError>,
    error: VirtqError,
)
    requires
        context::same_but_pool(queue, asked),
        queue.pool@ == asked.pool@,
        context::may_answer(queue, room),
        post_refused_in(asked, after, mem, slot, room, error),
    ensures
        post_refused(queue, after, mem, slot, error),
{
    let request = choose|request: ChainBuilder| #[trigger]
        asks_for_buffer(request, slot, asked.inner.num_free) && context::turned_away_in(
            asked,
            after,
            request,
            mem,
            room,
            error,
        );
    context::lemma_turned_away(queue, asked, after, request, mem, room, error);
    assert(asks_for_buffer(request, slot, queue.inner.num_free));
}

/// What a request for one buffer comes to.
proof fn lemma_buffer_request(
    request: ChainBuilder,
    queue: VirtqProducer<NoopNotifier>,
    slot: usize,
)
    requires
        asks_for_buffer(request, slot, queue.inner.num_free),
        queue.pool@.wf(),
    ensures
        request.plan(queue.pool@).lens == buffer_lens(queue, slot),
        request.all_lens(queue.pool@) == buffer_lens(queue, slot),
        0 < slot ==> buffer_lens(queue, slot).len() > 0,
        0 < slot ==> request.request_error(queue.pool@) == if buffer_lens(queue, slot).len()
            > queue.inner.num_free {
            Some(VirtqError::Backpressure)
        } else {
            None
        },
{
    let size = queue.pool@.upper.layout.size() as int;
    let all = request.rd_caps@ + request.wr_caps@;
    let lens = buffer_lens(queue, slot);
    assert(all =~= seq![slot]);
    assert(all.drop_last() =~= Seq::<usize>::empty());
    assert(request.rd_caps@ =~= Seq::<usize>::empty());
    assert(request.wr_caps@.drop_last() =~= Seq::<usize>::empty());
    reveal_with_fuel(builder::split_all, 2);
    reveal_with_fuel(builder::count_error, 2);
    reveal_with_fuel(builder::caps_sum, 2);
    assert(builder::split_all(request.wr_caps@, size) =~= lens);
    assert(builder::split_all(all, size) =~= lens);
    assert(request.plan(queue.pool@).lens =~= lens);
    assert(request.all_lens(queue.pool@) =~= lens);
    lemma_pieces_counted(slot as int, size);
}

/// A region has no more pieces than bytes.
proof fn lemma_pieces_counted(cap: int, size: int)
    requires
        0 <= cap,
        0 < size,
    ensures
        builder::split_region(cap, size).len() <= cap,
    decreases cap,
{
    if cap > size {
        lemma_pieces_counted(cap - size, size);
    }
}

/// The buffers of a chain that the ring refuses go back where they came from.
proof fn lemma_given_back(
    request: ChainBuilder,
    queue: VirtqProducer<NoopNotifier>,
    chain: SendChain,
)
    requires
        queue.pool@.wf(),
        context::taken(
            request,
            queue.pool@,
            entries::pool_after(queue.pool@, request.all_lens(queue.pool@)),
            chain,
        ),
    ensures
        entries::released(
            entries::pool_after(queue.pool@, request.all_lens(queue.pool@)),
            entries::addrs_of(chain.owned.buffers@),
        ) == queue.pool@,
{
    let lens = request.all_lens(queue.pool@);
    entries::lemma_answers_live(queue.pool@, lens);
    entries::lemma_answers_release(queue.pool@, lens);
    assert(entries::addrs_of(chain.owned.buffers@) =~= entries::allocation_addrs(
        entries::answers(queue.pool@, lens)->0,
    ));
}

/// A request for one buffer asks for at least one slot, and for nothing readable.
proof fn lemma_asks_for_writable(request: ChainBuilder, slot: usize, free: usize, pool: PoolView)
    requires
        asks_for_buffer(request, slot, free),
        request.request_error(pool) is None,
        pool.upper.layout.size() > 0,
    ensures
        request.plan(pool).readable == 0,
        request.all_lens(pool).len() > 0,
{
    let size = pool.upper.layout.size() as int;
    let all = request.rd_caps@ + request.wr_caps@;
    assert(all =~= seq![slot]);
    assert(all.drop_last() =~= Seq::<usize>::empty());
    assert(request.wr_caps@.drop_last() =~= Seq::<usize>::empty());
    reveal_with_fuel(builder::split_all, 2);
    reveal_with_fuel(builder::count_error, 2);
    assert(builder::count_error(all, size) is None);
    assert(slot > 0);
    assert(builder::split_all(request.wr_caps@, size).len() > 0);
}

/// Descriptors that a queue has made available.
pub open spec fn posted_descs(queue: VirtqProducer<NoopNotifier>) -> int {
    queue.inner.layout.descs() - queue.inner.num_free
}

/// A queue on which `count` chains were posted since it was fresh, and its canonical image.
pub open spec fn canonical_after(
    stage: Stage,
    layout: Layout,
    count: int,
    accept: spec_fn(u16, BufferElement) -> bool,
) -> bool {
    let inner = stage.queue.inner;
    &&& inner.layout == layout
    &&& 0 <= posted_descs(stage.queue) <= layout.descs()
    &&& count <= posted_descs(stage.queue)
    &&& inner.avail_cursor == RingCursor::start(layout.descs()).step(posted_descs(stage.queue))
    &&& inner.id_free@ == Seq::new((layout.descs() - count) as nat, |i: int| i as u16)
    &&& canonical::canon_image(stage.mem, layout, posted_descs(stage.queue), accept)
        matches Ok(chains)
    &&& chains.len() == count
    &&& forall|k: int| 0 <= k < count ==> (#[trigger] chains[k]).0 == layout.descs() - 1 - k
}

/// One more posted chain keeps the image canonical.
proof fn lemma_post_keeps_canonical(
    before: Stage,
    after: Stage,
    layout: Layout,
    count: int,
    slot: usize,
    accept: spec_fn(u16, BufferElement) -> bool,
)
    requires
        layout.wf(),
        0 <= count,
        canonical_after(before, layout, count, accept),
        posted(before.queue, after.queue, before.mem, after.mem, slot),
        forall|index: u16, elem: BufferElement| elem.writable ==> #[trigger] accept(index, elem),
    ensures
        canonical_after(after, layout, count + 1, accept),
{
    let (request, chain, ready) = choose|
        request: ChainBuilder,
        chain: SendChain,
        ready: VirtqProducer<NoopNotifier>,
    |
        {
            &&& before.queue.wf()
            &&& asks_for_buffer(request, slot, before.queue.inner.num_free)
            &&& #[trigger] context::taken(request, before.queue.pool@, ready.pool@, chain)
            &&& context::same_but_pool(before.queue, ready)
            &&& #[trigger] ready.sends(after.queue, before.mem, after.mem, chain)
        };
    before.queue.pool.lemma_wf_view();
    lemma_asks_for_writable(request, slot, before.queue.inner.num_free, before.queue.pool@);
    let elems = entries::published_elems(chain.owned.buffers@, chain.owned.readable as int);
    let avail = posted_descs(before.queue);
    let start = RingCursor::start(layout.descs());
    let id = ready.next().id;
    assert(elems.len() == chain.owned.buffers@.len());
    assert(elems.len() <= before.queue.inner.num_free);
    assert(id == layout.descs() - 1 - count);
    assert(ring::readable_first(elems, 0));
    let chains = canonical::canon_image(before.mem, layout, avail, accept)->Ok_0;
    assert forall|k: int| 0 <= k < chains.len() implies (#[trigger] chains[k]).0 != id by {
        assert(chains[k].0 == layout.descs() - 1 - k);
    }
    assert forall|k: int| 0 <= k < elems.len() implies accept(
        (avail + k) as u16,
        #[trigger] elems[k],
    ) by {
        assert(elems[k].writable);
    }
    ring::laws::law_publishing_keeps_an_image_canonical(
        before.mem,
        after.mem,
        layout,
        avail,
        id,
        elems,
        0,
        accept,
    );
    ring::lemma_steps_add(start, avail, elems.len() as int);
    assert(after.queue.inner.id_free@ =~= Seq::new(
        (layout.descs() - (count + 1)) as nat,
        |i: int| i as u16,
    ));
    let more = canonical::canon_image(
        after.mem,
        layout,
        posted_descs(after.queue),
        accept,
    )->Ok_0;
    assert(more == chains.push((id, elems)));
}

proof fn lemma_posts_keep_canonical(
    stages: Seq<Stage>,
    layout: Layout,
    slot: usize,
    accept: spec_fn(u16, BufferElement) -> bool,
    last: int,
)
    requires
        layout.wf(),
        0 <= last < stages.len(),
        posts(stages, slot),
        canonical_after(stages[0], layout, 0, accept),
        forall|index: u16, elem: BufferElement| elem.writable ==> #[trigger] accept(index, elem),
    ensures
        canonical_after(stages[last], layout, last, accept),
    decreases last,
{
    if last > 0 {
        lemma_posts_keep_canonical(stages, layout, slot, accept, last - 1);
        assert(posted(
            stages[last - 1].queue,
            stages[last - 1 + 1].queue,
            stages[last - 1].mem,
            stages[last - 1 + 1].mem,
            slot,
        ));
        lemma_post_keeps_canonical(
            stages[last - 1],
            stages[last],
            layout,
            last - 1,
            slot,
            accept,
        );
    }
}

/// Receive buffers that are posted on a fresh queue leave a canonical image: validation
/// accepts the ring, and finds as many available descriptors as the queue counts.
pub proof fn law_prefilled_ring_is_canonical(
    queue: VirtqProducer<NoopNotifier>,
    after: VirtqProducer<NoopNotifier>,
    before_mem: MemView,
    after_mem: MemView,
    slot: usize,
    accept: spec_fn(u16, BufferElement) -> bool,
)
    requires
        queue.inner.fresh(queue.inner.layout),
        prefills(queue, after, before_mem, after_mem, slot, Ok::<(), ContextError>(())),
        canonical::canon_image(before_mem, queue.inner.layout, 0, accept) == Ok::<
            Seq<(u16, Seq<BufferElement>)>,
            canonical::ImageError,
        >(Seq::empty()),
        forall|index: u16, elem: BufferElement| elem.writable ==> #[trigger] accept(index, elem),
    ensures
        canonical::canon_image(after_mem, queue.inner.layout, posted_descs(after), accept) is Ok,
{
    let layout = queue.inner.layout;
    let stages = choose|stages: Seq<Stage>|
        {
            &&& #[trigger] posts(stages, slot)
            &&& stages.len() > 0
            &&& stages[0].queue == queue
            &&& stages[0].mem == before_mem
            &&& stages.last().mem == after_mem
            &&& post_refused(
                stages.last().queue,
                after,
                stages.last().mem,
                slot,
                VirtqError::Backpressure,
            )
        };
    lemma_posts_keep_canonical(stages, layout, slot, accept, stages.len() - 1);
    assert(after.inner == stages.last().queue.inner);
}

} // verus!
