//! Chains that were published and not yet completed.

use vstd::prelude::*;

use super::entries;
use super::entries::OwnedChain;
use super::pool::slot::PoolView;
use super::pool::{AllocError, SlotPool};
use super::{Token, VirtqError};

verus! {

/// A published chain. Its buffers stay allocated until it completes or a stopped
/// reset, because the peer may still access them.
pub struct Inflight {
    pub token: Token,
    pub chain: OwnedChain,
}

/// Marks an identifier without a chain.
pub const VACANT: u16 = 0xffff;

/// Compact in-flight chains with constant-time descriptor-ID lookup.
///
/// Descriptor IDs span the full ring, but live chains are normally bounded by
/// the much smaller buffer pool. `by_id` maps each descriptor ID to a packed
/// `live` index. Removal uses `swap_remove` and repairs the moved entry's map.
pub struct InflightTable {
    by_id: Vec<u16>,
    live: Vec<Inflight>,
}

impl InflightTable {
    /// Number of identifiers.
    pub closed spec fn ids(self) -> nat {
        self.by_id@.len()
    }

    /// The chains, in the order in which a reset gives them back, last first.
    pub closed spec fn chains(self) -> Seq<Inflight> {
        self.live@
    }

    /// Whether a chain with this identifier is in flight.
    pub open spec fn has(self, id: u16) -> bool {
        exists|i: int| 0 <= i < self.chains().len() && (#[trigger] self.chains()[i]).token.id == id
    }

    /// Where the chain with this identifier is.
    pub open spec fn place(self, id: u16) -> int {
        choose|i: int| 0 <= i < self.chains().len() && (#[trigger] self.chains()[i]).token.id == id
    }

    /// The chain in flight with this identifier.
    pub open spec fn get(self, id: u16) -> Inflight {
        self.chains()[self.place(id)]
    }

    /// The table and the chains name each other, one to one.
    pub closed spec fn wf(self) -> bool {
        &&& self.by_id@.len() <= 0x8000
        &&& self.live@.len() <= self.by_id@.len()
        &&& forall|slot: int|
            0 <= slot < self.live@.len() ==> (#[trigger] self.live@[slot]).token.id
                < self.by_id@.len() && self.by_id@[self.live@[slot].token.id as int] == slot
                && self.live@[slot].chain.wf()
        &&& forall|id: int|
            0 <= id < self.by_id@.len() && (#[trigger] self.by_id@[id]) != VACANT ==> self.by_id@[id]
                < self.live@.len() && self.live@[self.by_id@[id] as int].token.id == id
    }

    /// An identifier has at most one chain, and chains are well-formed.
    pub proof fn lemma_wf(self)
        requires
            self.wf(),
        ensures
            self.ids() <= 0x8000,
            self.chains().len() <= self.ids(),
            forall|i: int|
                0 <= i < self.chains().len() ==> (#[trigger] self.chains()[i]).token.id
                    < self.ids() && self.chains()[i].chain.wf(),
            forall|i: int, j: int|
                0 <= i < j < self.chains().len() ==> (#[trigger] self.chains()[i]).token.id != (
                #[trigger] self.chains()[j]).token.id,
    {
        assert forall|i: int, j: int| 0 <= i < j < self.chains().len() implies (
        #[trigger] self.chains()[i]).token.id != (#[trigger] self.chains()[j]).token.id by {
            assert(self.by_id@[self.live@[i].token.id as int] == i);
            assert(self.by_id@[self.live@[j].token.id as int] == j);
        }
    }

    pub fn new(ring_len: usize) -> (table: Self)
        requires
            ring_len <= 0x8000,
        ensures
            table.wf(),
            table.ids() == ring_len,
            table.chains().len() == 0,
    {
        InflightTable { by_id: vec![VACANT; ring_len], live: Vec::new() }
    }

    /// Make room for one chain more.
    pub fn try_reserve_one(&mut self) -> (reserved: Result<(), VirtqError>)
        requires
            old(self).wf(),
        ensures
            final(self).wf(),
            final(self).ids() == old(self).ids(),
            final(self).chains() == old(self).chains(),
            reserved == Err::<(), VirtqError>(VirtqError::Backpressure)
                <==> old(self).chains().len() == old(self).ids(),
            reserved is Ok ==> old(self).chains().len() < old(self).ids(),
            reserved matches Err(e) ==> e == VirtqError::Backpressure || e
                == VirtqError::Bookkeeping && old(self).chains().len() < old(self).ids(),
    {
        if self.live.len() == self.by_id.len() {
            return Err(VirtqError::Backpressure);
        }
        match self.live.try_reserve(1) {
            Ok(()) => Ok(()),
            Err(_) => Err(VirtqError::Bookkeeping),
        }
    }

    /// Number of chains.
    pub fn len(&self) -> (len: usize)
        ensures
            len == self.chains().len(),
    {
        self.live.len()
    }

    pub fn contains(&self, id: u16) -> (found: bool)
        requires
            self.wf(),
        ensures
            found == self.has(id),
    {
        if (id as usize) < self.by_id.len() {
            proof {
                let slot = self.by_id@[id as int];
                if slot != VACANT {
                    assert(self.chains()[slot as int].token.id == id);
                } else if self.has(id) {
                    let i = self.place(id);
                    assert(self.by_id@[self.live@[i].token.id as int] == i);
                }
            }
            self.by_id[id as usize] != VACANT
        } else {
            proof {
                if self.has(id) {
                    let i = self.place(id);
                    assert(self.live@[i].token.id < self.by_id@.len());
                }
            }
            false
        }
    }

    pub fn insert(&mut self, inflight: Inflight)
        requires
            old(self).wf(),
            inflight.token.id < old(self).ids(),
            !old(self).has(inflight.token.id),
            old(self).chains().len() < old(self).ids(),
            inflight.chain.wf(),
        ensures
            final(self).wf(),
            final(self).ids() == old(self).ids(),
            final(self).chains() == old(self).chains().push(inflight),
    {
        let id: u16 = inflight.token.id;
        let slot: u16 = self.live.len() as u16;
        let ghost before = *self;
        self.live.push(inflight);
        self.by_id.set(id as usize, slot);
        proof {
            assert forall|s: int| 0 <= s < self.live@.len() implies (
            #[trigger] self.live@[s]).token.id < self.by_id@.len() && self.by_id@[
            self.live@[s].token.id as int] == s && self.live@[s].chain.wf() by {
                if s < before.live@.len() {
                    assert(before.live@[s] == self.live@[s]);
                    assert(before.chains()[s].token.id != id);
                }
            }
            assert forall|k: int|
                0 <= k < self.by_id@.len() && (#[trigger] self.by_id@[k]) != VACANT implies
                self.by_id@[k] < self.live@.len() && self.live@[self.by_id@[k] as int].token.id
                == k by {
                if k != id {
                    assert(before.by_id@[k] == self.by_id@[k]);
                }
            }
        }
    }

    /// Take out the chain with an identifier.
    ///
    /// The last chain takes its place.
    pub fn remove(&mut self, id: u16) -> (removed: Option<Inflight>)
        requires
            old(self).wf(),
        ensures
            final(self).wf(),
            final(self).ids() == old(self).ids(),
            removed is Some <==> old(self).has(id),
            removed matches Some(inf) ==> {
                let chains = old(self).chains();
                let at = old(self).place(id);
                &&& inf == old(self).get(id)
                &&& inf.chain.wf()
                &&& inf.token.id == id
                &&& final(self).chains() == chains.update(at, chains.last()).drop_last()
                &&& !final(self).has(id)
            },
            removed is None ==> *final(self) == *old(self),
    {
        if !self.contains(id) {
            return None;
        }
        let ghost before = *self;
        proof {
            let i = self.place(id);
            assert(self.live@[i].token.id == id);
            assert(self.by_id@[self.live@[i].token.id as int] == i);
        }
        let index: usize = self.by_id[id as usize] as usize;
        self.by_id.set(id as usize, VACANT);
        let removed = self.live.swap_remove(index);
        if index < self.live.len() {
            let moved: u16 = self.live[index].token.id;
            self.by_id.set(moved as usize, index as u16);
        }
        proof {
            let n = before.live@.len() - 1;
            let last = before.live@[n];
            assert(before.by_id@[last.token.id as int] == n);
            assert(self.live@ =~= before.live@.update(index as int, last).drop_last());
            assert forall|s: int| 0 <= s < self.live@.len() implies (
            #[trigger] self.live@[s]).token.id < self.by_id@.len() && self.by_id@[
            self.live@[s].token.id as int] == s && self.live@[s].chain.wf() by {
                if s != index {
                    assert(before.live@[s] == self.live@[s]);
                    assert(before.by_id@[before.live@[s].token.id as int] == s);
                }
            }
            assert forall|k: int|
                0 <= k < self.by_id@.len() && (#[trigger] self.by_id@[k]) != VACANT implies
                self.by_id@[k] < self.live@.len() && self.live@[self.by_id@[k] as int].token.id
                == k by {
                if k != last.token.id {
                    assert(before.by_id@[k] == self.by_id@[k]);
                }
            }
            if self.has(id) {
                let i = self.place(id);
                assert(self.live@[i].token.id == id);
                assert(self.by_id@[id as int] == i);
            }
        }
        Some(removed)
    }

    /// Take out the last chain.
    pub fn pop(&mut self) -> (popped: Option<Inflight>)
        requires
            old(self).wf(),
        ensures
            final(self).wf(),
            final(self).ids() == old(self).ids(),
            popped is Some <==> old(self).chains().len() > 0,
            popped matches Some(inf) ==> inf == old(self).chains().last() && final(self).chains()
                == old(self).chains().drop_last(),
            popped is None ==> final(self).chains() == old(self).chains(),
    {
        let ghost before = *self;
        let inflight = match self.live.pop() {
            Some(inflight) => inflight,
            None => return None,
        };
        proof {
            let n = before.live@.len() - 1;
            assert(before.live@[n] == inflight);
            assert(before.by_id@[inflight.token.id as int] == n);
        }
        self.by_id.set(inflight.token.id as usize, VACANT);
        proof {
            assert forall|s: int| 0 <= s < self.live@.len() implies (
            #[trigger] self.live@[s]).token.id < self.by_id@.len() && self.by_id@[
            self.live@[s].token.id as int] == s && self.live@[s].chain.wf() by {
                assert(before.live@[s] == self.live@[s]);
                assert(before.by_id@[before.live@[s].token.id as int] == s);
            }
            assert forall|k: int|
                0 <= k < self.by_id@.len() && (#[trigger] self.by_id@[k]) != VACANT implies
                self.by_id@[k] < self.live@.len() && self.live@[self.by_id@[k] as int].token.id
                == k by {
                assert(before.by_id@[k] == self.by_id@[k]);
            }
        }
        Some(inflight)
    }

    /// Give the buffers of every chain back to the pool, the last chain first, and
    /// report the first failure.
    pub fn release_all(&mut self, pool: &mut SlotPool) -> (done: Result<(), AllocError>)
        requires
            old(self).wf(),
            old(pool).wf(),
        ensures
            final(self).wf(),
            final(self).ids() == old(self).ids(),
            final(self).chains().len() == 0,
            final(pool).wf(),
            final(pool)@ == chains_released(old(pool)@, old(self).chains()),
            done == match chains_error(old(pool)@, old(self).chains()) {
                Some(e) => Err::<(), AllocError>(e),
                None => Ok(()),
            },
    {
        let ghost all = self.chains();
        let ghost start = pool@;
        let mut failure: Option<AllocError> = None;
        loop
            invariant
                self.wf(),
                self.ids() == old(self).ids(),
                pool.wf(),
                chains_released(pool@, self.chains()) == chains_released(start, all),
                chains_error(start, all) == match failure {
                    Some(e) => Some(e),
                    None => chains_error(pool@, self.chains()),
                },
            ensures
                self.wf(),
                self.ids() == old(self).ids(),
                self.chains().len() == 0,
                pool.wf(),
                pool@ == chains_released(start, all),
                chains_error(start, all) == failure,
            decreases self.chains().len(),
        {
            let inflight = match self.pop() {
                Some(inflight) => inflight,
                None => break,
            };
            match inflight.chain.release(pool) {
                Ok(()) => {},
                Err(err) => {
                    if failure.is_none() {
                        failure = Some(err);
                    }
                },
            }
        }
        match failure {
            Some(err) => Err(err),
            None => Ok(()),
        }
    }
}

/// The pool after every chain's buffers went back, the last chain first.
pub open spec fn chains_released(pool: PoolView, chains: Seq<Inflight>) -> PoolView
    decreases chains.len(),
{
    if chains.len() == 0 {
        pool
    } else {
        chains_released(
            entries::released(pool, entries::addrs_of(chains.last().chain.buffers@)),
            chains.drop_last(),
        )
    }
}

/// The first failure when every chain's buffers go back, the last chain first.
pub open spec fn chains_error(pool: PoolView, chains: Seq<Inflight>) -> Option<AllocError>
    decreases chains.len(),
{
    if chains.len() == 0 {
        None
    } else {
        let addrs = entries::addrs_of(chains.last().chain.buffers@);
        match entries::release_error(pool, addrs) {
            Some(e) => Some(e),
            None => chains_error(entries::released(pool, addrs), chains.drop_last()),
        }
    }
}

} // verus!
