//! A driver and a device that take turns on one ring.

use vstd::prelude::*;

use super::malformed;
use super::malformed::BASE_ADDR;
use super::memory::FuzzMem;
use crate::virtq::ring;
use crate::virtq::ring::coherence;
use crate::virtq::ring::coherence::{Traffic, UsedMark};
use crate::virtq::{
    BufferChain, BufferElement, Layout, MemOps, RingConsumer, RingError, RingProducer,
};

verus! {

/// One turn.
#[derive(Debug, Clone)]
pub enum Op {
    /// The driver makes a chain available, if there is room for it.
    Submit(BufferChain),
    /// The device takes up to so many chains.
    PollAvail(u8),
    /// The driver takes up to so many used chains back.
    PollUsed(u8),
    /// The device marks the chain that it took last used.
    CompleteOne,
}

/// A ring and the turns that are taken on it.
#[derive(Debug, Clone)]
pub struct Scenario {
    pub table_size: usize,
    pub ops: Vec<Op>,
}

impl Scenario {
    /// The ring can be placed, and every chain has its readable buffers first.
    pub open spec fn wf(self) -> bool {
        &&& 0 < self.table_size <= 0x8000
        &&& forall|i: int|
            0 <= i < self.ops@.len() ==> ((#[trigger] self.ops@[i]) matches Op::Submit(chain)
                ==> chain.wf())
    }
}

/// In which order chains were passed on.
#[derive(Debug)]
pub struct Orders {
    /// The chains that turns marked used.
    pub dev_order: Vec<u16>,
    /// The chains that the driver took back.
    pub drv_order: Vec<u16>,
}

/// What the turns do to a ring, with each chain as its identifier and its length.
pub struct Model {
    /// Identifiers that no chain has; the last one is given out next.
    pub free: Seq<u16>,
    /// Descriptors that no chain holds.
    pub room: int,
    /// Chains that the device has not taken, the first one first.
    pub avail: Seq<(u16, int)>,
    /// Chains that the device holds; the last one is marked used next.
    pub ready: Seq<(u16, int)>,
    /// Chains that the driver has not taken back, the first one first.
    pub used: Seq<(u16, int)>,
    pub dev_order: Seq<u16>,
    pub drv_order: Seq<u16>,
}

impl Model {
    /// A ring of so many descriptors before the first turn.
    pub open spec fn start(size: int) -> Model {
        Model {
            free: Seq::new(size as nat, |i: int| i as u16),
            room: size,
            avail: Seq::empty(),
            ready: Seq::empty(),
            used: Seq::empty(),
            dev_order: Seq::empty(),
            drv_order: Seq::empty(),
        }
    }

    /// A chain of so many buffers was made available, if there was room for it.
    pub open spec fn submit(self, count: int) -> Model {
        if 0 < count <= self.room {
            Model {
                free: self.free.drop_last(),
                room: self.room - count,
                avail: self.avail.push((self.free.last(), count)),
                ..self
            }
        } else {
            self
        }
    }

    /// Up to so many chains were taken.
    pub open spec fn take(self, limit: nat) -> Model
        decreases limit,
    {
        if limit == 0 || self.avail.len() == 0 {
            self
        } else {
            (Model {
                avail: self.avail.drop_first(),
                ready: self.ready.push(self.avail[0]),
                ..self
            }).take((limit - 1) as nat)
        }
    }

    /// Up to so many used chains were taken back.
    pub open spec fn reclaim(self, limit: nat) -> Model
        decreases limit,
    {
        if limit == 0 || self.used.len() == 0 {
            self
        } else {
            (Model {
                free: self.free.push(self.used[0].0),
                room: self.room + self.used[0].1,
                used: self.used.drop_first(),
                drv_order: self.drv_order.push(self.used[0].0),
                ..self
            }).reclaim((limit - 1) as nat)
        }
    }

    /// The chain that was taken last was marked used.
    pub open spec fn settle(self) -> Model {
        if self.ready.len() == 0 {
            self
        } else {
            Model {
                ready: self.ready.drop_last(),
                used: self.used.push(self.ready.last()),
                ..self
            }
        }
    }

    /// The chain that was taken last was marked used in a turn.
    pub open spec fn complete(self) -> Model {
        if self.ready.len() == 0 {
            self
        } else {
            Model { dev_order: self.dev_order.push(self.ready.last().0), ..self.settle() }
        }
    }

    pub open spec fn step(self, op: Op) -> Model {
        match op {
            Op::Submit(chain) => self.submit(chain@.len() as int),
            Op::PollAvail(limit) => self.take(limit as nat),
            Op::PollUsed(limit) => self.reclaim(limit as nat),
            Op::CompleteOne => self.complete(),
        }
    }

    /// All turns were taken, the first one first.
    pub open spec fn replay(self, ops: Seq<Op>) -> Model
        decreases ops.len(),
    {
        if ops.len() == 0 {
            self
        } else {
            self.replay(ops.drop_last()).step(ops.last())
        }
    }

    /// Every chain that the device holds was marked used.
    pub open spec fn settle_all(self) -> Model
        decreases self.ready.len(),
    {
        if self.ready.len() == 0 {
            self
        } else {
            self.settle().settle_all()
        }
    }

    /// Every chain that the device took came back to the driver.
    pub open spec fn drain(self) -> Model {
        self.settle_all().reclaim(self.settle_all().used.len())
    }

    /// The identifiers of the chains that the driver has not taken back.
    pub open spec fn used_ids(self) -> Seq<u16> {
        self.used.map_values(|u: (u16, int)| u.0)
    }
}

proof fn lemma_reclaim_keeps_order(m: Model, limit: nat)
    ensures
        m.reclaim(limit).drv_order + m.reclaim(limit).used_ids() == m.drv_order + m.used_ids(),
        m.reclaim(limit).dev_order == m.dev_order,
        limit >= m.used.len() ==> m.reclaim(limit).used.len() == 0,
    decreases limit,
{
    if limit > 0 && m.used.len() > 0 {
        let next = Model {
            free: m.free.push(m.used[0].0),
            room: m.room + m.used[0].1,
            used: m.used.drop_first(),
            drv_order: m.drv_order.push(m.used[0].0),
            ..m
        };
        lemma_reclaim_keeps_order(next, (limit - 1) as nat);
        assert(next.drv_order + next.used_ids() =~= m.drv_order + m.used_ids());
    }
}

proof fn lemma_take_keeps_order(m: Model, limit: nat)
    ensures
        m.take(limit).drv_order == m.drv_order,
        m.take(limit).dev_order == m.dev_order,
        m.take(limit).used == m.used,
    decreases limit,
{
    if limit > 0 && m.avail.len() > 0 {
        let next = Model {
            avail: m.avail.drop_first(),
            ready: m.ready.push(m.avail[0]),
            ..m
        };
        lemma_take_keeps_order(next, (limit - 1) as nat);
    }
}

/// Chains come back to the driver in the order in which the device marked them used: at any
/// time those that came back, and those that are still to come back, are those that were
/// marked.
pub proof fn law_chains_come_back_in_order(size: int, ops: Seq<Op>)
    ensures
        ({
            let m = Model::start(size).replay(ops);
            m.drv_order + m.used_ids() == m.dev_order
        }),
    decreases ops.len(),
{
    let m = Model::start(size).replay(ops);
    if ops.len() == 0 {
        assert(m.drv_order + m.used_ids() =~= m.dev_order);
    } else {
        let before = Model::start(size).replay(ops.drop_last());
        law_chains_come_back_in_order(size, ops.drop_last());
        match ops.last() {
            Op::Submit(_) => {
                assert(m.used_ids() == before.used_ids());
            },
            Op::PollAvail(limit) => {
                lemma_take_keeps_order(before, limit as nat);
            },
            Op::PollUsed(limit) => {
                lemma_reclaim_keeps_order(before, limit as nat);
            },
            Op::CompleteOne => {
                if before.ready.len() > 0 {
                    assert(m.drv_order + m.used_ids() =~= (before.drv_order
                        + before.used_ids()).push(before.ready.last().0));
                }
            },
        }
    }
}

proof fn lemma_settle_all_keeps_order(m: Model)
    ensures
        m.settle_all().drv_order == m.drv_order,
        m.settle_all().dev_order == m.dev_order,
        m.settle_all().ready.len() == 0,
        m.used_ids().is_prefix_of(m.settle_all().used_ids()),
    decreases m.ready.len(),
{
    if m.ready.len() > 0 {
        lemma_settle_all_keeps_order(m.settle());
        assert(m.used_ids().is_prefix_of(m.settle().used_ids()));
    }
}

/// Once everything is drained the driver took back first, and in the same order, what turns
/// marked used, and nothing that the device took is left.
pub proof fn law_drained_ring_returned_every_chain(size: int, ops: Seq<Op>)
    ensures
        ({
            let m = Model::start(size).replay(ops);
            &&& m.dev_order.is_prefix_of(m.drain().drv_order)
            &&& m.drain().dev_order == m.dev_order
            &&& m.drain().ready.len() == 0
            &&& m.drain().used.len() == 0
        }),
{
    let m = Model::start(size).replay(ops);
    let settled = m.settle_all();
    law_chains_come_back_in_order(size, ops);
    lemma_settle_all_keeps_order(m);
    lemma_reclaim_keeps_order(settled, settled.used.len());
    lemma_reclaim_keeps_ready(settled, settled.used.len());
    let all = m.drain().drv_order;
    assert(m.drain().used_ids().len() == 0);
    assert(all =~= all + m.drain().used_ids());
    assert(all == m.drv_order + settled.used_ids());
    assert(m.dev_order =~= all.subrange(0, m.dev_order.len() as int)) by {
        let ids = m.used_ids();
        assert(ids == settled.used_ids().subrange(0, ids.len() as int));
        assert forall|i: int| 0 <= i < m.dev_order.len() implies m.dev_order[i] == all[i] by {
            let drv = m.drv_order;
            assert(m.dev_order[i] == (drv + ids)[i]);
            if i >= drv.len() {
                assert(ids[i - drv.len()] == settled.used_ids()[i - drv.len()]);
            }
        }
    }
}

proof fn lemma_reclaim_keeps_ready(m: Model, limit: nat)
    ensures
        m.reclaim(limit).ready == m.ready,
    decreases limit,
{
    if limit > 0 && m.used.len() > 0 {
        let next = Model {
            free: m.free.push(m.used[0].0),
            room: m.room + m.used[0].1,
            used: m.used.drop_first(),
            drv_order: m.drv_order.push(m.used[0].0),
            ..m
        };
        lemma_reclaim_keeps_ready(next, (limit - 1) as nat);
    }
}

/// Both sides of a ring and what they passed on.
struct Pair {
    mem: FuzzMem,
    driver: RingProducer,
    device: RingConsumer,
    /// Chains that the device took, with their lengths.
    ready: Vec<(u16, u32)>,
    dev_order: Vec<u16>,
    drv_order: Vec<u16>,
    traffic: Ghost<Traffic>,
}

impl Pair {
    /// Both sides and the memory agree, and the device holds what it took.
    spec fn wf(self) -> bool {
        &&& coherence::coherent(self.driver, self.device, self.mem.mem(), self.traffic@)
        &&& self.driver.layout.mapped_in(self.mem.mem())
        &&& forall|i: int|
            0 <= i < self.ready@.len() ==> self.device.holds((#[trigger] self.ready@[i]).0)
                && self.device.id_num@[self.ready@[i].0 as int] == self.ready@[i].1
        &&& forall|i: int, j: int|
            0 <= i < self.ready@.len() && 0 <= j < self.ready@.len() && i != j ==> (
            #[trigger] self.ready@[i]).0 != (#[trigger] self.ready@[j]).0
    }

    spec fn model(self) -> Model {
        Model {
            free: self.driver.id_free@,
            room: self.driver.num_free as int,
            avail: self.traffic@.chains.map_values(
                |c: (u16, Seq<BufferElement>)| (c.0, c.1.len() as int),
            ),
            ready: self.ready@.map_values(|r: (u16, u32)| (r.0, r.1 as int)),
            used: self.traffic@.used.map_values(|u: UsedMark| (u.id, u.count)),
            dev_order: self.dev_order@,
            drv_order: self.drv_order@,
        }
    }

    fn new(size: u16) -> (pair: Option<Self>)
        requires
            0 < size <= 0x8000,
        ensures
            pair matches Some(p) && p.wf() && p.driver.layout.descs() == size && p.model()
                == Model::start(size as int),
    {
        let layout = match Layout::from_base(BASE_ADDR, size) {
            Ok(layout) => layout,
            Err(_) => return None,
        };
        let mem = FuzzMem::new(BASE_ADDR, Layout::query_size(size as usize));
        let driver = RingProducer::new(layout);
        let device = RingConsumer::new(layout);
        let pair = Pair {
            mem,
            driver,
            device,
            ready: Vec::new(),
            dev_order: Vec::new(),
            drv_order: Vec::new(),
            traffic: Ghost(Traffic::nothing()),
        };
        proof {
            malformed::lemma_zeroed_ring(pair.mem.mem(), layout);
            coherence::law_fresh_ring_is_coherent(pair.driver, pair.device, pair.mem.mem());
            let model = pair.model();
            let start = Model::start(size as int);
            assert(model.avail =~= start.avail);
            assert(model.ready =~= start.ready);
            assert(model.used =~= start.used);
        }
        Some(pair)
    }

    /// The driver makes a chain available, if there is room for it.
    fn submit(&mut self, chain: &BufferChain)
        requires
            old(self).wf(),
            chain.wf(),
        ensures
            final(self).wf(),
            final(self).driver.layout == old(self).driver.layout,
            final(self).model() == old(self).model().submit(chain@.len() as int),
    {
        let ghost before = *self;
        match self.driver.submit_available(&mut self.mem, chain) {
            Ok(id) => {
                proof {
                    let t = before.traffic@;
                    self.traffic = Ghost(t.submitted(id, chain@));
                    coherence::law_submitting_appends_a_chain(
                        before.driver,
                        self.driver,
                        before.device,
                        before.mem.mem(),
                        self.mem.mem(),
                        t,
                        id,
                        chain@,
                        chain.num_readable(),
                    );
                    assert(self.model().avail =~= before.model().submit(
                        chain@.len() as int,
                    ).avail);
                }
            },
            Err(_) => {},
        }
    }

    /// The device takes the next chain; `false` where there is none.
    fn take_one(&mut self) -> (taken: bool)
        requires
            old(self).wf(),
        ensures
            final(self).wf(),
            final(self).driver.layout == old(self).driver.layout,
            taken == (old(self).model().avail.len() > 0),
            final(self).model() == old(self).model().take(1),
    {
        let ghost before = *self;
        proof {
            coherence::law_device_takes_the_first_chain(
                self.driver,
                self.device,
                self.mem.mem(),
                self.traffic@,
            );
        }
        match self.device.poll_available(&self.mem) {
            Ok((id, chain)) => {
                let count: usize = chain.len();
                proof {
                    let t = before.traffic@;
                    assert(t.chains[0] == (id, chain@));
                    assert(coherence::chain_known(before.driver, before.device, t.chains[0]));
                    self.traffic = Ghost(t.received());
                    coherence::law_taking_removes_the_first_chain(
                        before.driver,
                        before.device,
                        self.device,
                        self.mem.mem(),
                        t,
                    );
                }
                self.ready.push((id, count as u32));
                proof {
                    reveal_with_fuel(Model::take, 2);
                    assert forall|i: int| 0 <= i < self.ready@.len() implies self.device.holds(
                        (#[trigger] self.ready@[i]).0,
                    ) && self.device.id_num@[self.ready@[i].0 as int] == self.ready@[i].1 by {
                        if i < before.ready@.len() {
                            assert(self.ready@[i] == before.ready@[i]);
                        }
                    }
                    assert forall|i: int, j: int|
                        0 <= i < self.ready@.len() && 0 <= j < self.ready@.len() && i != j implies (
                    #[trigger] self.ready@[i]).0 != (#[trigger] self.ready@[j]).0 by {
                        if i < before.ready@.len() {
                            assert(before.device.holds(before.ready@[i].0));
                        }
                        if j < before.ready@.len() {
                            assert(before.device.holds(before.ready@[j].0));
                        }
                    }
                    assert(self.model().avail =~= before.model().avail.drop_first());
                    assert(self.model().ready =~= before.model().ready.push(
                        before.model().avail[0],
                    ));
                }
                true
            },
            Err(_) => false,
        }
    }

    /// The device takes up to `limit` chains.
    fn take(&mut self, limit: u8)
        requires
            old(self).wf(),
        ensures
            final(self).wf(),
            final(self).driver.layout == old(self).driver.layout,
            final(self).model() == old(self).model().take(limit as nat),
    {
        let mut left: u8 = limit;
        while left > 0
            invariant_except_break
                old(self).model().take(limit as nat) == self.model().take(left as nat),
            invariant
                self.wf(),
                self.driver.layout == old(self).driver.layout,
            ensures
                old(self).model().take(limit as nat) == self.model(),
            decreases left,
        {
            let more = self.take_one();
            proof {
                reveal_with_fuel(Model::take, 2);
            }
            if !more {
                break;
            }
            left = left - 1;
        }
    }

    /// The driver takes the next used chain back: whether there was one, or `None` where its
    /// books are wrong.
    fn reclaim_one(&mut self) -> (taken: Option<bool>)
        requires
            old(self).wf(),
        ensures
            final(self).wf(),
            final(self).driver.layout == old(self).driver.layout,
            taken == Some(old(self).model().used.len() > 0),
            final(self).model() == old(self).model().reclaim(1),
    {
        let ghost before = *self;
        proof {
            coherence::law_driver_takes_the_first_mark(
                self.driver,
                self.device,
                self.mem.mem(),
                self.traffic@,
            );
        }
        match self.driver.poll_used(&self.mem) {
            Ok(used) => {
                proof {
                    let t = before.traffic@;
                    assert(coherence::mark_known(before.driver, before.device, t.used[0]));
                    self.traffic = Ghost(t.reclaimed());
                    coherence::law_reclaiming_removes_the_first_mark(
                        before.driver,
                        self.driver,
                        before.device,
                        self.mem.mem(),
                        t,
                    );
                }
                self.drv_order.push(used.id);
                proof {
                    reveal_with_fuel(Model::reclaim, 2);
                    assert(self.model().used =~= before.model().used.drop_first());
                    assert(before.model().used[0] == (used.id, before.traffic@.used[0].count));
                    assert(self.driver.id_free@.last() == used.id);
                }
                if self.driver.id_num[used.id as usize] != 0 {
                    return None;
                }
                if !has_id(&self.driver.id_free, used.id) {
                    return None;
                }
                Some(true)
            },
            Err(RingError::WouldBlock) => Some(false),
            Err(_) => None,
        }
    }

    /// The driver takes up to `limit` used chains back; `false` where its books are wrong.
    fn reclaim(&mut self, limit: u8) -> (sound: bool)
        requires
            old(self).wf(),
        ensures
            sound,
            final(self).wf(),
            final(self).driver.layout == old(self).driver.layout,
            final(self).model() == old(self).model().reclaim(limit as nat),
    {
        let mut left: u8 = limit;
        while left > 0
            invariant_except_break
                old(self).model().reclaim(limit as nat) == self.model().reclaim(left as nat),
            invariant
                self.wf(),
                self.driver.layout == old(self).driver.layout,
            ensures
                old(self).model().reclaim(limit as nat) == self.model(),
            decreases left,
        {
            let taken = self.reclaim_one();
            proof {
                reveal_with_fuel(Model::reclaim, 2);
            }
            match taken {
                Some(true) => {},
                Some(false) => break,
                None => return false,
            }
            left = left - 1;
        }
        true
    }

    /// The device marks the chain that it took last used: the chain, or `None` where it holds
    /// none. An error says that the chain was refused.
    fn settle(&mut self) -> (settled: Result<Option<u16>, RingError>)
        requires
            old(self).wf(),
        ensures
            final(self).wf(),
            final(self).driver.layout == old(self).driver.layout,
            final(self).model() == old(self).model().settle(),
            settled == Ok::<Option<u16>, RingError>(
                if old(self).model().ready.len() == 0 {
                    None
                } else {
                    Some(old(self).model().ready.last().0)
                },
            ),
    {
        let ghost before = *self;
        match self.ready.pop() {
            Some((id, len)) => {
                let ghost last = before.ready@.len() - 1;
                assert(before.ready@[last] == (id, len));
                match self.device.submit_used(&mut self.mem, id, len) {
                    Ok(()) => {},
                    Err(err) => return Err(err),
                }
                proof {
                    let t = before.traffic@;
                    self.traffic = Ghost(t.completed(id, len, len as int));
                    coherence::law_completing_appends_a_mark(
                        before.driver,
                        before.device,
                        self.device,
                        before.mem.mem(),
                        self.mem.mem(),
                        t,
                        id,
                        len,
                    );
                    assert forall|i: int| 0 <= i < self.ready@.len() implies self.device.holds(
                        (#[trigger] self.ready@[i]).0,
                    ) && self.device.id_num@[self.ready@[i].0 as int] == self.ready@[i].1 by {
                        assert(self.ready@[i] == before.ready@[i]);
                        assert(before.ready@[i].0 != before.ready@[last].0);
                    }
                    assert(self.model().ready =~= before.model().ready.drop_last());
                    assert(self.model().used =~= before.model().used.push(
                        before.model().ready.last(),
                    ));
                }
                Ok(Some(id))
            },
            None => {
                assert(self.model().ready =~= before.model().ready);
                Ok(None)
            },
        }
    }

    /// Every descriptor is free or held by one chain, and no free identifier counts
    /// descriptors.
    spec fn sound_books(self) -> bool {
        &&& ring::total(self.driver.id_num@) + self.driver.num_free == self.driver.layout.descs()
        &&& forall|i: int|
            0 <= i < self.driver.id_free@.len() ==> self.driver.id_num@[(
            #[trigger] self.driver.id_free@[i]) as int] == 0
    }

    /// Whether the driver's books are sound.
    fn balanced(&self) -> (balanced: bool)
        requires
            self.driver.id_num@.len() <= 0x8000,
            self.driver.num_free <= 0x8000,
            forall|i: int|
                0 <= i < self.driver.id_free@.len() ==> (#[trigger] self.driver.id_free@[i])
                    < self.driver.id_num@.len(),
        ensures
            balanced == self.sound_books(),
    {
        let counts = &self.driver.id_num;
        let mut outstanding: usize = 0;
        let mut i: usize = 0;
        while i < counts.len()
            invariant
                counts == &self.driver.id_num,
                i <= counts@.len() <= 0x8000,
                outstanding == ring::total(counts@.take(i as int)),
                outstanding <= i * 0xffff,
            decreases counts@.len() - i,
        {
            assert(counts@.take(i + 1).drop_last() =~= counts@.take(i as int));
            outstanding = outstanding + counts[i] as usize;
            i += 1;
        }
        assert(counts@.take(i as int) =~= counts@);
        if outstanding + self.driver.num_free != self.driver.len() {
            return false;
        }
        let free = &self.driver.id_free;
        let mut k: usize = 0;
        while k < free.len()
            invariant
                free == &self.driver.id_free,
                k <= free@.len(),
                forall|i: int|
                    0 <= i < free@.len() ==> (#[trigger] free@[i]) < self.driver.id_num@.len(),
                forall|i: int|
                    0 <= i < k ==> self.driver.id_num@[(#[trigger] free@[i]) as int] == 0,
            decreases free@.len() - k,
        {
            let id: u16 = free[k];
            if self.driver.id_num[id as usize] != 0 {
                return false;
            }
            k += 1;
        }
        true
    }

    /// Take one turn; `false` where it leaves the ring unsound.
    fn step(&mut self, op: &Op) -> (sound: bool)
        requires
            old(self).wf(),
            *op matches Op::Submit(chain) ==> chain.wf(),
        ensures
            sound,
            final(self).wf(),
            final(self).driver.layout == old(self).driver.layout,
            final(self).model() == old(self).model().step(*op),
    {
        match op {
            Op::Submit(chain) => self.submit(chain),
            Op::PollAvail(limit) => self.take(*limit),
            Op::PollUsed(limit) => {
                if !self.reclaim(*limit) {
                    return false;
                }
            },
            Op::CompleteOne => {
                match self.settle() {
                    Ok(Some(id)) => self.dev_order.push(id),
                    Ok(None) => {},
                    Err(_) => return false,
                }
            },
        }
        self.balanced()
    }

    /// Bring every chain that the device took back to the driver; `false` where one is
    /// refused.
    fn drain(&mut self) -> (sound: bool)
        requires
            old(self).wf(),
        ensures
            sound,
            final(self).wf(),
            final(self).model() == old(self).model().drain(),
    {
        loop
            invariant
                self.wf(),
                old(self).model().settle_all() == self.model().settle_all(),
            ensures
                self.model() == old(self).model().settle_all(),
            decreases self.ready@.len(),
        {
            let ghost before = *self;
            match self.settle() {
                Ok(Some(_)) => {
                    assert(self.model().ready.len() == self.ready@.len());
                    assert(before.model().ready.len() == before.ready@.len());
                },
                Ok(None) => break,
                Err(_) => return false,
            }
        }
        let ghost settled = self.model();
        let ghost mut left: nat = settled.used.len();
        loop
            invariant
                self.wf(),
                left == self.model().used.len(),
                settled.reclaim(settled.used.len()) == self.model().reclaim(left),
            ensures
                self.model() == settled.reclaim(settled.used.len()),
            decreases left,
        {
            let taken = self.reclaim_one();
            proof {
                reveal_with_fuel(Model::reclaim, 2);
            }
            match taken {
                Some(true) => {
                    proof {
                        left = (left - 1) as nat;
                    }
                },
                Some(false) => break,
                None => return false,
            }
        }
        true
    }
}

fn has_id(ids: &Vec<u16>, id: u16) -> (found: bool)
    ensures
        found == ids@.contains(id),
{
    let mut i: usize = 0;
    while i < ids.len()
        invariant
            i <= ids@.len(),
            forall|k: int| 0 <= k < i ==> ids@[k] != id,
        decreases ids@.len() - i,
    {
        if ids[i] == id {
            return true;
        }
        i += 1;
    }
    false
}

/// Take all turns of a scenario on a fresh ring, then drain it. `None` would say that an
/// operation was refused, or that the driver's books were wrong after one.
pub fn run_scenario(s: &Scenario) -> (run: Option<Orders>)
    requires
        s.wf(),
    ensures
        run matches Some(orders) && {
            let m = Model::start(s.table_size as int).replay(s.ops@).drain();
            &&& orders.dev_order@ == m.dev_order
            &&& orders.drv_order@ == m.drv_order
            &&& m.dev_order.is_prefix_of(m.drv_order)
        },
{
    let ghost start = Model::start(s.table_size as int);
    let mut pair = match Pair::new(s.table_size as u16) {
        Some(pair) => pair,
        None => return None,
    };
    let mut i: usize = 0;
    assert(s.ops@.take(0) =~= Seq::<Op>::empty());
    while i < s.ops.len()
        invariant
            s.wf(),
            i <= s.ops@.len(),
            pair.wf(),
            pair.model() == start.replay(s.ops@.take(i as int)),
        decreases s.ops@.len() - i,
    {
        assert(s.ops@.take(i + 1).drop_last() =~= s.ops@.take(i as int));
        if !pair.step(&s.ops[i]) {
            return None;
        }
        i += 1;
    }
    assert(s.ops@.take(i as int) =~= s.ops@);
    proof {
        law_drained_ring_returned_every_chain(s.table_size as int, s.ops@);
    }
    if !pair.drain() {
        return None;
    }
    Some(Orders { dev_order: pair.dev_order, drv_order: pair.drv_order })
}

/// The descriptors that chains hold.
pub open spec fn held_by(chains: Seq<(u16, int)>) -> int
    decreases chains.len(),
{
    if chains.len() == 0 {
        0
    } else {
        held_by(chains.drop_last()) + chains.last().1
    }
}

proof fn lemma_held_by_push(chains: Seq<(u16, int)>, chain: (u16, int))
    ensures
        held_by(chains.push(chain)) == held_by(chains) + chain.1,
{
    assert(chains.push(chain).drop_last() =~= chains);
}

proof fn lemma_held_by_first(chains: Seq<(u16, int)>)
    requires
        chains.len() > 0,
    ensures
        held_by(chains) == chains[0].1 + held_by(chains.drop_first()),
    decreases chains.len(),
{
    if chains.len() > 1 {
        lemma_held_by_first(chains.drop_last());
        assert(chains.drop_last().drop_first() =~= chains.drop_first().drop_last());
        assert(chains.drop_first().last() == chains.last());
    } else {
        assert(held_by(chains.drop_first()) == 0);
        assert(held_by(chains.drop_last()) == 0);
    }
}

impl Model {
    /// The descriptors of the ring, free or held.
    pub open spec fn descriptors(self) -> int {
        self.room + held_by(self.avail) + held_by(self.ready) + held_by(self.used)
    }
}

/// Up to so many chains are taken as they stand in line, behind those that were taken before.
pub proof fn law_chains_are_taken_in_line(m: Model, limit: nat)
    ensures
        ({
            let n = if limit < m.avail.len() {
                limit as int
            } else {
                m.avail.len() as int
            };
            &&& m.take(limit).ready == m.ready + m.avail.take(n)
            &&& m.take(limit).avail == m.avail.skip(n)
            &&& m.take(limit).room == m.room
            &&& m.take(limit).free == m.free
            &&& m.take(limit).descriptors() == m.descriptors()
        }),
    decreases limit,
{
    if limit > 0 && m.avail.len() > 0 {
        let next = Model {
            avail: m.avail.drop_first(),
            ready: m.ready.push(m.avail[0]),
            ..m
        };
        let n = if limit < m.avail.len() {
            limit as int
        } else {
            m.avail.len() as int
        };
        law_chains_are_taken_in_line(next, (limit - 1) as nat);
        lemma_held_by_first(m.avail);
        lemma_held_by_push(m.ready, m.avail[0]);
        assert(next.ready + next.avail.take(n - 1) =~= m.ready + m.avail.take(n));
        assert(next.avail.skip(n - 1) =~= m.avail.skip(n));
    } else {
        assert(m.ready + m.avail.take(0) =~= m.ready);
        assert(m.avail.skip(0) =~= m.avail);
    }
}

/// Up to so many used chains come back as they stand in line, and each makes room for as many
/// descriptors as it held.
pub proof fn law_chains_come_back_in_line(m: Model, limit: nat)
    ensures
        ({
            let n = if limit < m.used.len() {
                limit as int
            } else {
                m.used.len() as int
            };
            let back = m.used_ids().take(n);
            &&& m.reclaim(limit).drv_order == m.drv_order + back
            &&& m.reclaim(limit).free == m.free + back
            &&& m.reclaim(limit).used == m.used.skip(n)
            &&& m.reclaim(limit).avail == m.avail
            &&& m.reclaim(limit).ready == m.ready
            &&& m.reclaim(limit).room == m.room + held_by(m.used) - held_by(m.used.skip(n))
            &&& m.reclaim(limit).descriptors() == m.descriptors()
        }),
    decreases limit,
{
    if limit > 0 && m.used.len() > 0 {
        let next = Model {
            free: m.free.push(m.used[0].0),
            room: m.room + m.used[0].1,
            used: m.used.drop_first(),
            drv_order: m.drv_order.push(m.used[0].0),
            ..m
        };
        let n = if limit < m.used.len() {
            limit as int
        } else {
            m.used.len() as int
        };
        law_chains_come_back_in_line(next, (limit - 1) as nat);
        lemma_held_by_first(m.used);
        assert(next.drv_order + next.used_ids().take(n - 1) =~= m.drv_order + m.used_ids().take(n));
        assert(next.free + next.used_ids().take(n - 1) =~= m.free + m.used_ids().take(n));
        assert(next.used.skip(n - 1) =~= m.used.skip(n));
    } else {
        assert(m.drv_order + m.used_ids().take(0) =~= m.drv_order);
        assert(m.free + m.used_ids().take(0) =~= m.free);
        assert(m.used.skip(0) =~= m.used);
    }
}

/// The device marks used the chain that it took last: one that was alone in line is marked as
/// soon as it was taken, and comes back behind those that were marked before.
pub proof fn law_chain_taken_last_is_marked_first(m: Model)
    requires
        m.avail.len() > 0,
    ensures
        m.take(1).complete().ready == m.ready,
        m.take(1).complete().used == m.used.push(m.avail[0]),
        m.take(1).complete().dev_order == m.dev_order.push(m.avail[0].0),
        m.take(1).settle().used == m.used.push(m.avail[0]),
        m.take(1).settle().dev_order == m.dev_order,
{
    let taken = Model { avail: m.avail.drop_first(), ready: m.ready.push(m.avail[0]), ..m };
    assert(m.take(1) == taken.take(0));
    assert(taken.ready.drop_last() =~= m.ready);
}

/// A chain is made available exactly where it has a buffer and there is room for it; it then
/// stands last in line.
pub proof fn law_chain_is_made_available_where_there_is_room(m: Model, count: int)
    requires
        m.free.len() > 0,
    ensures
        m.submit(count).avail.len() == m.avail.len() + 1 <==> 0 < count <= m.room,
        m.submit(count).avail.len() == m.avail.len() ==> m.submit(count) == m,
        0 < count <= m.room ==> m.submit(count).avail.drop_last() == m.avail && m.submit(
            count,
        ).avail.last().1 == count && m.submit(count).free.push(m.submit(count).avail.last().0)
            == m.free,
{
    if 0 < count <= m.room {
        assert(m.submit(count).avail.drop_last() =~= m.avail);
        assert(m.free.drop_last().push(m.free.last()) =~= m.free);
    }
}

/// Whatever turns are taken, every descriptor of the ring is free or held by one chain that is
/// under way.
pub proof fn law_descriptors_are_free_or_under_way(size: int, ops: Seq<Op>)
    ensures
        Model::start(size).replay(ops).descriptors() == size,
    decreases ops.len(),
{
    if ops.len() > 0 {
        law_descriptors_are_free_or_under_way(size, ops.drop_last());
        let m = Model::start(size).replay(ops.drop_last());
        match ops.last() {
            Op::Submit(chain) => {
                let count = chain@.len() as int;
                lemma_held_by_push(m.avail, (m.free.last(), count));
            },
            Op::PollAvail(limit) => law_chains_are_taken_in_line(m, limit as nat),
            Op::PollUsed(limit) => law_chains_come_back_in_line(m, limit as nat),
            Op::CompleteOne => {
                if m.ready.len() > 0 {
                    lemma_held_by_push(m.used, m.ready.last());
                }
            },
        }
    }
}

} // verus!
