//! Fixed-slot pool with optional lower and required upper tiers.
//!
//! [`SlotPool`] manages one or two non-overlapping [`SlotLayout`]s. Each tier
//! contains independent, equal-sized slots tracked by a free list and an
//! allocation bitmap. Eligible requests try the lower tier first and fall back
//! to the upper tier only when the lower tier has no free slot.
//!
//! Each allocation occupies one slot. [`SlotPool::live_addrs`] reports ownership
//! in deterministic index order.

use fixedbitset::FixedBitSet;
use vstd::arithmetic::div_mod::*;
use vstd::arithmetic::mul::*;
use vstd::prelude::*;

use super::bits;
use super::free_list::FreeList;
use super::{AllocError, Allocation};

verus! {

/// Validated memory layout for one [`SlotPool`] tier.
#[derive(Debug, Clone, Copy, PartialEq, Eq, Structural)]
pub struct SlotLayout {
    /// Start of the first slot.
    base_addr: u64,
    /// Capacity of each slot. Fits in [`Allocation::len`].
    slot_size: u32,
    /// Number of slots.
    slot_count: usize,
}

/// Whether `slot_count` slots of `slot_size` bytes can be placed at `base`: the
/// layout is not empty, and neither its bytes nor its free list outgrow what the
/// machine can address.
pub open spec fn placeable(base: int, slot_size: int, slot_count: int) -> bool {
    &&& 0 < slot_size <= u32::MAX
    &&& 0 < slot_count
    &&& slot_size * slot_count <= usize::MAX
    &&& base + slot_size * slot_count <= u64::MAX
    &&& slot_count * 8 <= isize::MAX
}

/// The error that `SlotLayout::new` owes for a layout that is not placeable.
pub open spec fn layout_error(slot_size: int, slot_count: int) -> AllocError {
    if slot_size > u32::MAX || slot_size == 0 {
        AllocError::InvalidArg
    } else if slot_count == 0 {
        AllocError::EmptyRegion
    } else {
        AllocError::Overflow
    }
}

impl SlotLayout {
    pub closed spec fn base(self) -> u64 {
        self.base_addr
    }

    pub closed spec fn size(self) -> u32 {
        self.slot_size
    }

    pub closed spec fn slots(self) -> usize {
        self.slot_count
    }

    /// Bytes from the first slot to the end of the last.
    pub open spec fn bytes(self) -> int {
        self.size() * self.slots()
    }

    pub open spec fn end(self) -> int {
        self.base() + self.bytes()
    }

    /// Every layout that [`SlotLayout::new`] hands out is placeable.
    pub open spec fn wf(self) -> bool {
        placeable(self.base() as int, self.size() as int, self.slots() as int)
    }

    /// Validate exact fixed-slot placement.
    ///
    /// Rejects empty layouts, slots larger than [`u32::MAX`], and unrepresentable
    /// backing or free-list byte ranges.
    pub fn new(base_addr: u64, slot_size: usize, slot_count: usize) -> (layout: Result<
        Self,
        AllocError,
    >)
        ensures
            layout is Ok <==> placeable(base_addr as int, slot_size as int, slot_count as int),
            layout matches Ok(l) ==> l.wf() && l.base() == base_addr && l.size() == slot_size
                && l.slots() == slot_count,
            layout matches Err(e) ==> e == layout_error(slot_size as int, slot_count as int),
    {
        if slot_size > u32::MAX as usize || slot_size == 0 {
            return Err(AllocError::InvalidArg);
        }
        if slot_count == 0 {
            return Err(AllocError::EmptyRegion);
        }
        let byte_len: usize = match slot_size.checked_mul(slot_count) {
            Some(byte_len) => byte_len,
            None => return Err(AllocError::Overflow),
        };
        if base_addr.checked_add(byte_len as u64).is_none() {
            return Err(AllocError::Overflow);
        }
        if slot_count > isize::MAX as usize / 8 {
            return Err(AllocError::Overflow);
        }
        Ok(SlotLayout { base_addr, slot_size: slot_size as u32, slot_count })
    }

    /// Start address of the first slot.
    pub fn base_addr(self) -> (addr: u64)
        ensures
            addr == self.base(),
    {
        self.base_addr
    }

    /// Capacity of each slot in bytes.
    pub fn slot_size(self) -> (size: usize)
        ensures
            size == self.size(),
    {
        self.slot_size as usize
    }

    /// Number of equal-sized slots.
    pub fn slot_count(self) -> (count: usize)
        ensures
            count == self.slots(),
    {
        self.slot_count
    }

    /// Total bytes occupied by the slots.
    pub fn byte_len(self) -> (len: usize)
        requires
            self.wf(),
        ensures
            len == self.bytes(),
    {
        self.slot_size as usize * self.slot_count
    }

    /// Exclusive end address.
    pub fn end_addr(self) -> (addr: u64)
        requires
            self.wf(),
        ensures
            addr == self.end(),
    {
        self.base_addr + self.byte_len() as u64
    }
}

/// What one tier holds: its placement and its free slots, the next to be handed
/// out last.
pub struct TierView {
    pub layout: SlotLayout,
    pub free: Seq<u64>,
}

impl TierView {
    /// Start address of slot `index`.
    pub open spec fn addr(self, index: int) -> int {
        self.layout.base() + index * self.layout.size()
    }

    /// Whether `addr` lies in the tier's memory.
    pub open spec fn covers(self, addr: u64) -> bool {
        self.layout.base() <= addr < self.layout.end()
    }

    /// Whether `addr` is the start of one of the tier's slots.
    pub open spec fn is_slot(self, addr: u64) -> bool {
        self.covers(addr) && (addr - self.layout.base()) % (self.layout.size() as int) == 0
    }

    /// Whether `addr` is the start of a slot that is handed out.
    pub open spec fn live(self, addr: u64) -> bool {
        self.is_slot(addr) && !self.free.contains(addr)
    }

    pub open spec fn num_live(self) -> int {
        self.layout.slots() - self.free.len()
    }

    /// The free list names each free slot once, and nothing else.
    pub open spec fn wf(self) -> bool {
        &&& self.layout.wf()
        &&& self.free.no_duplicates()
        &&& self.free.len() <= self.layout.slots()
        &&& forall|i: int| 0 <= i < self.free.len() ==> self.is_slot(#[trigger] self.free[i])
    }

    /// A tier with every slot free, in ascending order.
    pub open spec fn fresh(layout: SlotLayout) -> TierView {
        TierView {
            layout,
            free: Seq::new(
                layout.slots() as nat,
                |i: int| (layout.base() + i * layout.size()) as u64,
            ),
        }
    }

    /// Whether `slot` is one of the tier's free slots, with its capacity.
    pub open spec fn free_slot(self, slot: Allocation) -> bool {
        self.free.contains(slot.addr) && slot.len == self.layout.size()
    }

    /// The outcome of a request for `len` bytes.
    pub open spec fn alloc_result(self, len: int) -> Result<Allocation, AllocError> {
        if len == 0 {
            Err(AllocError::InvalidArg)
        } else if len > self.layout.size() {
            Err(AllocError::OutOfMemory)
        } else if self.free.len() == 0 {
            Err(AllocError::NoSpace)
        } else {
            Ok(Allocation { addr: self.free.last(), len: self.layout.size() })
        }
    }

    /// The tier after a request for `len` bytes.
    pub open spec fn after_alloc(self, len: int) -> TierView {
        if self.alloc_result(len) is Ok {
            TierView { free: self.free.drop_last(), ..self }
        } else {
            self
        }
    }

    /// The tier after `addr` is given back; an address that is not live changes
    /// nothing.
    pub open spec fn after_dealloc(self, addr: u64) -> TierView {
        if self.live(addr) {
            TierView { free: self.free.push(addr), ..self }
        } else {
            self
        }
    }
}

/// The index of a slot start, and the start of a slot index, determine each other.
proof fn lemma_slot_index(view: TierView, addr: u64)
    requires
        view.layout.wf(),
        view.is_slot(addr),
    ensures
        0 <= (addr - view.layout.base()) / (view.layout.size() as int) < view.layout.slots(),
        view.addr((addr - view.layout.base()) / (view.layout.size() as int)) == addr,
{
    let off = addr - view.layout.base();
    let size = view.layout.size() as int;
    lemma_fundamental_div_mod(off, size);
    let q = off / size;
    assert(off == size * q);
    lemma_mul_is_commutative(size, q);
    assert(0 <= q) by (nonlinear_arith)
        requires
            off == size * q,
            off >= 0,
            size > 0,
    ;
    let count = view.layout.slots() as int;
    assert(q < count) by (nonlinear_arith)
        requires
            off == size * q,
            off < size * count,
            size > 0,
    ;
}

proof fn lemma_slot_addr(view: TierView, index: int)
    requires
        view.layout.wf(),
        0 <= index < view.layout.slots(),
    ensures
        view.layout.base() <= view.addr(index) < view.layout.end() <= u64::MAX,
        index * view.layout.size() <= usize::MAX,
        view.is_slot(view.addr(index) as u64),
        (view.addr(index) - view.layout.base()) / (view.layout.size() as int) == index,
{
    let size = view.layout.size() as int;
    let count = view.layout.slots() as int;
    lemma_mul_strict_inequality(index, count, size);
    lemma_mul_inequality(0, index, size);
    lemma_mul_is_commutative(count, size);
    lemma_mul_is_commutative(index, size);
    lemma_mod_multiples_basic(index, size);
    lemma_div_multiples_vanish(index, size);
}

/// Slots of one tier do not share an address.
proof fn lemma_slot_addr_injective(view: TierView, a: int, b: int)
    requires
        view.layout.wf(),
        0 <= a < view.layout.slots(),
        0 <= b < view.layout.slots(),
        view.addr(a) == view.addr(b),
    ensures
        a == b,
{
    lemma_slot_addr(view, a);
    lemma_slot_addr(view, b);
}

/// Single-tier fixed-slot free list.
///
/// Tracks a fixed set of equal-sized buffer slots. Allocation pops a free slot
/// and deallocation returns it. A [`FixedBitSet`] records which slots are
/// currently allocated, so double frees and frees of unknown addresses are
/// rejected without scanning the free list.
struct Tier {
    /// Placement of this tier's slots.
    layout: SlotLayout,
    /// Free slot addresses, popped and pushed at the end.
    free: FreeList,
    /// One bit per slot index; set means the slot is currently handed out.
    allocated: FixedBitSet,
}

impl Tier {
    spec fn tier_view(self) -> TierView {
        TierView { layout: self.layout, free: self.free@ }
    }

    /// The bitmap and the free list say the same of every slot.
    spec fn wf(self) -> bool {
        let states = bits::bit_states(self.allocated);
        &&& self.tier_view().wf()
        &&& states.len() == self.layout.slots()
        &&& forall|i: int|
            0 <= i < states.len() ==> #[trigger] states[i] == !self.free@.contains(
                self.tier_view().addr(i) as u64,
            )
    }

    /// A tier whose free list has room in `list`, if room was found.
    fn from_layout(layout: SlotLayout, list: Option<FreeList>) -> (tier: Result<Self, AllocError>)
        requires
            layout.wf(),
            list matches Some(free) ==> free@.len() == 0,
        ensures
            list is Some ==> (tier matches Ok(t) && t.wf() && t.tier_view() == TierView::fresh(
                layout,
            )),
            list is None ==> (tier matches Err(e) && e == AllocError::Bookkeeping),
    {
        let ghost fresh = TierView::fresh(layout);
        let mut free = match list {
            Some(free) => free,
            None => return Err(AllocError::Bookkeeping),
        };
        proof {
            assert(free@ =~= fresh.free.take(0));
        }
        let mut i: usize = 0;
        while i < layout.slot_count
            invariant
                layout.wf(),
                fresh == TierView::fresh(layout),
                i <= layout.slot_count,
                free@ == fresh.free.take(i as int),
            decreases layout.slot_count - i,
        {
            proof {
                lemma_slot_addr(fresh, i as int);
            }
            free.push(layout.base_addr + (i * layout.slot_size as usize) as u64);
            proof {
                assert(free@ =~= fresh.free.take(i + 1));
            }
            i += 1;
        }
        let allocated = bits::bits_with_capacity(layout.slot_count);
        let tier = Tier { layout, free, allocated };
        proof {
            assert(tier.free@ =~= fresh.free);
            assert forall|i: int, j: int|
                0 <= i < j < fresh.free.len() implies fresh.free[i] != fresh.free[j] by {
                lemma_slot_addr(fresh, i);
                lemma_slot_addr(fresh, j);
                if fresh.free[i] == fresh.free[j] {
                    lemma_slot_addr_injective(fresh, i, j);
                }
            }
            assert forall|i: int| 0 <= i < fresh.free.len() implies fresh.is_slot(
                #[trigger] fresh.free[i],
            ) by {
                lemma_slot_addr(fresh, i);
            }
            assert forall|i: int| 0 <= i < layout.slots() implies fresh.free.contains(
                #[trigger] fresh.addr(i) as u64,
            ) by {
                assert(fresh.free[i] == fresh.addr(i) as u64);
            }
        }
        Ok(tier)
    }

    fn contains(&self, addr: u64) -> (inside: bool)
        requires
            self.wf(),
        ensures
            inside == self.tier_view().covers(addr),
    {
        self.layout.base_addr <= addr && addr < self.layout.end_addr()
    }

    /// Validate that `addr` names a slot start within the region.
    fn slot_of(&self, addr: u64) -> (slot: Result<usize, AllocError>)
        requires
            self.wf(),
        ensures
            slot is Ok <==> self.tier_view().is_slot(addr),
            slot matches Ok(i) ==> i < self.layout.slots() && self.tier_view().addr(i as int)
                == addr,
            slot matches Err(e) ==> e == AllocError::InvalidFree(addr, 0),
    {
        if !self.contains(addr) {
            return Err(AllocError::InvalidFree(addr, 0));
        }
        let off: u64 = addr - self.layout.base_addr;
        if off % self.layout.slot_size as u64 != 0 {
            return Err(AllocError::InvalidFree(addr, 0));
        }
        proof {
            lemma_slot_index(self.tier_view(), addr);
        }
        Ok((off / self.layout.slot_size as u64) as usize)
    }

    /// Validate that `addr` is a live (currently allocated) slot start.
    fn live_slot_of(&self, addr: u64) -> (slot: Result<usize, AllocError>)
        requires
            self.wf(),
        ensures
            slot is Ok <==> self.tier_view().live(addr),
            slot matches Ok(i) ==> i < self.layout.slots() && self.tier_view().addr(i as int)
                == addr,
            slot matches Err(e) ==> e == AllocError::InvalidFree(addr, 0),
    {
        match self.slot_of(addr) {
            Ok(slot) => {
                if !bits::bits_contain(&self.allocated, slot) {
                    return Err(AllocError::InvalidFree(addr, 0));
                }
                Ok(slot)
            },
            Err(err) => Err(err),
        }
    }

    fn allocate(&mut self, len: usize) -> (allocation: Result<Allocation, AllocError>)
        requires
            old(self).wf(),
        ensures
            final(self).wf(),
            allocation == old(self).tier_view().alloc_result(len as int),
            final(self).tier_view() == old(self).tier_view().after_alloc(len as int),
    {
        if len == 0 {
            return Err(AllocError::InvalidArg);
        }
        if len > self.layout.slot_size as usize {
            return Err(AllocError::OutOfMemory);
        }
        let ghost before = self.tier_view();
        let addr: u64 = match self.free.pop() {
            Some(addr) => addr,
            None => return Err(AllocError::NoSpace),
        };
        proof {
            assert(before.is_slot(before.free[before.free.len() - 1]));
            lemma_slot_index(before, addr);
        }
        let slot: usize = ((addr - self.layout.base_addr) / self.layout.slot_size as u64) as usize;
        bits::bits_insert(&mut self.allocated, slot);
        proof {
            let after = self.tier_view();
            assert(after.free =~= before.free.drop_last());
            assert(forall|a: u64| #![auto]
                before.free.contains(a) && a != addr ==> after.free.contains(a)) by {
                assert forall|a: u64| #![auto] before.free.contains(a) && a != addr implies
                    after.free.contains(a) by {
                    let k = choose|k: int| 0 <= k < before.free.len() && before.free[k] == a;
                    assert(after.free[k] == a);
                }
            }
            assert forall|i: int| 0 <= i < after.layout.slots() implies (#[trigger] bits::bit_states(
                self.allocated,
            )[i]) == !after.free.contains(after.addr(i) as u64) by {
                lemma_slot_addr(before, i);
                if after.addr(i) == addr {
                    lemma_slot_addr_injective(before, i, slot as int);
                }
            }
        }
        Ok(Allocation { addr, len: self.layout.slot_size })
    }

    fn dealloc_addr(&mut self, addr: u64) -> (freed: Result<(), AllocError>)
        requires
            old(self).wf(),
        ensures
            final(self).wf(),
            freed is Ok <==> old(self).tier_view().live(addr),
            freed matches Err(e) ==> e == AllocError::InvalidFree(addr, 0),
            final(self).tier_view() == old(self).tier_view().after_dealloc(addr),
    {
        let ghost before = self.tier_view();
        let slot: usize = match self.live_slot_of(addr) {
            Ok(slot) => slot,
            Err(err) => return Err(err),
        };
        proof {
            lemma_free_len(before.after_dealloc(addr));
        }
        bits::bits_set(&mut self.allocated, slot, false);
        self.free.push(addr);
        proof {
            let after = self.tier_view();
            assert(after.free[before.free.len() as int] == addr);
            assert forall|a: u64| #![auto] before.free.contains(a) implies after.free.contains(
                a,
            ) by {
                let k = choose|k: int| 0 <= k < before.free.len() && before.free[k] == a;
                assert(after.free[k] == a);
            }
            assert forall|i: int| 0 <= i < after.layout.slots() implies (#[trigger] bits::bit_states(
                self.allocated,
            )[i]) == !after.free.contains(after.addr(i) as u64) by {
                lemma_slot_addr(before, i);
                if after.addr(i) == addr {
                    lemma_slot_addr_injective(before, i, slot as int);
                }
            }
        }
        Ok(())
    }

    fn allocation_len(&self, addr: u64) -> (len: Result<usize, AllocError>)
        requires
            self.wf(),
        ensures
            len is Ok <==> self.tier_view().live(addr),
            len matches Ok(n) ==> n == self.layout.size(),
            len matches Err(e) ==> e == AllocError::InvalidFree(addr, 0),
    {
        match self.live_slot_of(addr) {
            Ok(_) => Ok(self.layout.slot_size as usize),
            Err(err) => Err(err),
        }
    }

    /// Appends the live slots' addresses in index order.
    fn append_live_addrs(&self, addrs: &mut Vec<u64>)
        requires
            self.wf(),
            forall|i: int| 0 <= i < old(addrs)@.len() ==> old(addrs)@[i] < self.layout.base(),
            forall|i: int, j: int|
                0 <= i < j < old(addrs)@.len() ==> old(addrs)@[i] < old(addrs)@[j],
        ensures
            forall|i: int, j: int|
                0 <= i < j < final(addrs)@.len() ==> final(addrs)@[i] < final(addrs)@[j],
            forall|a: u64| #[trigger]
                final(addrs)@.contains(a) <==> old(addrs)@.contains(a) || self.tier_view().live(a),
    {
        let ghost view = self.tier_view();
        let ghost before = addrs@;
        let slots = bits::bits_ones(&self.allocated);
        let mut i: usize = 0;
        while i < slots.len()
            invariant
                self.wf(),
                view == self.tier_view(),
                bits::ascending_where(slots@, bits::bit_states(self.allocated), true),
                i <= slots.len(),
                forall|k: int| 0 <= k < before.len() ==> before[k] < self.layout.base(),
                forall|k: int, l: int| 0 <= k < l < before.len() ==> before[k] < before[l],
                addrs@ =~= before + Seq::new(i as nat, |k: int| view.addr(slots@[k] as int) as u64),
            decreases slots.len() - i,
        {
            proof {
                lemma_slot_addr(view, slots@[i as int] as int);
            }
            let slot: usize = slots[i];
            addrs.push(self.layout.base_addr + (slot * self.layout.slot_size as usize) as u64);
            i += 1;
        }
        proof {
            lemma_tier_order(view, slots@);
            assert forall|a: u64| #[trigger] addrs@.contains(a) <==> before.contains(a)
                || view.live(a) by {
                if before.contains(a) {
                    let k = choose|k: int| 0 <= k < before.len() && before[k] == a;
                    assert(addrs@[k] == a);
                }
                if view.live(a) {
                    lemma_slot_index(view, a);
                    let slot = ((a - view.layout.base()) / (view.layout.size() as int)) as usize;
                    assert(bits::bit_states(self.allocated)[slot as int]);
                    assert(slots@.contains(slot));
                    let k = choose|k: int| 0 <= k < slots@.len() && slots@[k] == slot;
                    assert(addrs@[before.len() + k] == a);
                }
                if addrs@.contains(a) && !before.contains(a) {
                    let k = choose|k: int| 0 <= k < addrs@.len() && addrs@[k] == a;
                    if k < before.len() {
                        assert(before[k] == a);
                    }
                    let slot = slots@[k - before.len()] as int;
                    lemma_slot_addr(view, slot);
                    assert(bits::bit_states(self.allocated)[slot]);
                }
            }
        }
    }

    /// Appends the free slots in index order.
    fn append_free(&self, slots: &mut Vec<Allocation>)
        requires
            self.wf(),
            forall|i: int| 0 <= i < old(slots)@.len() ==> old(slots)@[i].addr < self.layout.base(),
            forall|i: int, j: int|
                0 <= i < j < old(slots)@.len() ==> old(slots)@[i].addr < old(slots)@[j].addr,
        ensures
            forall|i: int, j: int|
                0 <= i < j < final(slots)@.len() ==> final(slots)@[i].addr < final(slots)@[j].addr,
            forall|s: Allocation| #[trigger]
                final(slots)@.contains(s) <==> old(slots)@.contains(s)
                    || self.tier_view().free_slot(s),
    {
        let ghost view = self.tier_view();
        let ghost before = slots@;
        let indexes = bits::bits_zeroes(&self.allocated);
        let mut i: usize = 0;
        while i < indexes.len()
            invariant
                self.wf(),
                view == self.tier_view(),
                bits::ascending_where(indexes@, bits::bit_states(self.allocated), false),
                i <= indexes.len(),
                forall|k: int| 0 <= k < before.len() ==> before[k].addr < self.layout.base(),
                forall|k: int, l: int|
                    0 <= k < l < before.len() ==> before[k].addr < before[l].addr,
                slots@ =~= before + Seq::new(
                    i as nat,
                    |k: int|
                        Allocation {
                            addr: view.addr(indexes@[k] as int) as u64,
                            len: view.layout.size(),
                        },
                ),
            decreases indexes.len() - i,
        {
            proof {
                lemma_slot_addr(view, indexes@[i as int] as int);
            }
            let index: usize = indexes[i];
            slots.push(
                Allocation {
                    addr: self.layout.base_addr + (index * self.layout.slot_size as usize) as u64,
                    len: self.layout.slot_size,
                },
            );
            i += 1;
        }
        proof {
            lemma_tier_order(view, indexes@);
            assert forall|s: Allocation| #[trigger] slots@.contains(s) <==> before.contains(s)
                || view.free_slot(s) by {
                if before.contains(s) {
                    let k = choose|k: int| 0 <= k < before.len() && before[k] == s;
                    assert(slots@[k] == s);
                }
                if view.free_slot(s) {
                    let a = s.addr;
                    let f = choose|f: int| 0 <= f < view.free.len() && view.free[f] == a;
                    assert(view.is_slot(view.free[f]));
                    lemma_slot_index(view, a);
                    let slot = ((a - view.layout.base()) / (view.layout.size() as int)) as usize;
                    assert(!bits::bit_states(self.allocated)[slot as int]);
                    assert(indexes@.contains(slot));
                    let k = choose|k: int| 0 <= k < indexes@.len() && indexes@[k] == slot;
                    assert(slots@[before.len() + k] == s);
                }
                if slots@.contains(s) && !before.contains(s) {
                    let k = choose|k: int| 0 <= k < slots@.len() && slots@[k] == s;
                    if k < before.len() {
                        assert(before[k] == s);
                    }
                    let slot = indexes@[k - before.len()] as int;
                    lemma_slot_addr(view, slot);
                    assert(!bits::bit_states(self.allocated)[slot]);
                }
            }
        }
    }

    fn slot_addr(&self, index: usize) -> (addr: Option<u64>)
        requires
            self.wf(),
        ensures
            addr is Some <==> index < self.layout.slots(),
            addr matches Some(a) ==> a == self.tier_view().addr(index as int),
    {
        if index < self.layout.slot_count {
            proof {
                lemma_slot_addr(self.tier_view(), index as int);
            }
            Some(self.layout.base_addr + (index * self.layout.slot_size as usize) as u64)
        } else {
            None
        }
    }
}

/// Ascending slot indexes have ascending addresses, all inside the tier.
proof fn lemma_tier_order(view: TierView, indexes: Seq<usize>)
    requires
        view.layout.wf(),
        forall|i: int, j: int| 0 <= i < j < indexes.len() ==> indexes[i] < indexes[j],
        forall|i: int| 0 <= i < indexes.len() ==> (#[trigger] indexes[i]) < view.layout.slots(),
    ensures
        forall|i: int|
            0 <= i < indexes.len() ==> view.layout.base() <= (view.addr(
                #[trigger] indexes[i] as int,
            ) as u64) && view.addr(indexes[i] as int) <= u64::MAX,
        forall|i: int, j: int|
            0 <= i < j < indexes.len() ==> (view.addr(#[trigger] indexes[i] as int) as u64) < (
            view.addr(#[trigger] indexes[j] as int) as u64),
{
    assert forall|i: int| 0 <= i < indexes.len() implies view.layout.base() <= (view.addr(
        #[trigger] indexes[i] as int,
    ) as u64) && view.addr(indexes[i] as int) <= u64::MAX by {
        lemma_slot_addr(view, indexes[i] as int);
    }
    assert forall|i: int, j: int| 0 <= i < j < indexes.len() implies (view.addr(
        #[trigger] indexes[i] as int,
    ) as u64) < (view.addr(#[trigger] indexes[j] as int) as u64) by {
        lemma_slot_addr(view, indexes[i] as int);
        lemma_slot_addr(view, indexes[j] as int);
        lemma_mul_strict_inequality(
            indexes[i] as int,
            indexes[j] as int,
            view.layout.size() as int,
        );
    }
}

/// A free list that names slots, each once, is no longer than the tier.
proof fn lemma_free_len(view: TierView)
    requires
        view.layout.wf(),
        view.free.no_duplicates(),
        forall|i: int| 0 <= i < view.free.len() ==> view.is_slot(#[trigger] view.free[i]),
    ensures
        view.free.len() <= view.layout.slots(),
{
    let count = view.layout.slots() as int;
    let base = view.layout.base();
    let size = view.layout.size() as int;
    let indexes = Seq::new(view.free.len(), |i: int| (view.free[i] - base) / size);
    assert forall|i: int, j: int| 0 <= i < j < indexes.len() implies indexes[i] != indexes[j] by {
        assert(view.is_slot(view.free[i]));
        assert(view.is_slot(view.free[j]));
        lemma_slot_index(view, view.free[i]);
        lemma_slot_index(view, view.free[j]);
    }
    let range = vstd::set_lib::set_int_range(0, count);
    vstd::set_lib::lemma_int_range(0, count);
    assert forall|x: int| indexes.to_set().contains(x) implies range.contains(x) by {
        let i = choose|i: int| 0 <= i < indexes.len() && indexes[i] == x;
        assert(view.is_slot(view.free[i]));
        lemma_slot_index(view, view.free[i]);
    }
    indexes.unique_seq_to_set();
    vstd::set_lib::lemma_len_subset(indexes.to_set(), range);
}

/// What a pool holds.
pub struct PoolView {
    pub lower: Option<TierView>,
    pub upper: TierView,
}

/// Whether two layouts can serve as the tiers of one pool: the lower one comes
/// first, does not overlap the upper one and has no larger slots; slots of equal
/// size must be adjacent.
pub open spec fn tiers_fit(lower: SlotLayout, upper: SlotLayout) -> bool {
    &&& lower.size() <= upper.size()
    &&& lower.end() <= upper.base()
    &&& lower.size() == upper.size() ==> lower.end() == upper.base()
}

/// Whether two adjacent layouts of equal slot size form one placeable layout.
pub open spec fn tiers_merge(lower: SlotLayout, upper: SlotLayout) -> bool {
    placeable(lower.base() as int, lower.size() as int, lower.slots() + upper.slots())
}

/// Why two layouts do not make a pool.
pub open spec fn tiers_error(lower: SlotLayout, upper: SlotLayout) -> Option<AllocError> {
    if !tiers_fit(lower, upper) {
        Some(AllocError::InvalidArg)
    } else if lower.size() == upper.size() && !tiers_merge(lower, upper) {
        Some(AllocError::Overflow)
    } else {
        None
    }
}

impl PoolView {
    pub open spec fn wf(self) -> bool {
        &&& self.upper.wf()
        &&& self.lower matches Some(lower) ==> lower.wf() && lower.layout.size()
            < self.upper.layout.size() && lower.layout.end() <= self.upper.layout.base()
    }

    /// Every slot of `lower` and `upper` is free; layouts of equal slot size form
    /// one tier.
    pub open spec fn fresh_from(self, lower: Option<SlotLayout>, upper: SlotLayout) -> bool {
        match lower {
            None => self.lower is None && self.upper == TierView::fresh(upper),
            Some(lower) => if lower.size() == upper.size() {
                &&& self.lower is None
                &&& self.upper.layout.base() == lower.base()
                &&& self.upper.layout.size() == lower.size()
                &&& self.upper.layout.slots() == lower.slots() + upper.slots()
                &&& self.upper == TierView::fresh(self.upper.layout)
            } else {
                &&& self.lower == Some(TierView::fresh(lower))
                &&& self.upper == TierView::fresh(upper)
            },
        }
    }

    /// Whether the lower tier answers a request for `len` bytes.
    pub open spec fn lower_answers(self, len: int) -> bool {
        match self.lower {
            Some(lower) => len <= lower.layout.size() && lower.alloc_result(len) != Err::<
                Allocation,
                AllocError,
            >(AllocError::NoSpace),
            None => false,
        }
    }

    pub open spec fn alloc_result(self, len: int) -> Result<Allocation, AllocError> {
        if self.lower_answers(len) {
            self.lower->0.alloc_result(len)
        } else {
            self.upper.alloc_result(len)
        }
    }

    pub open spec fn after_alloc(self, len: int) -> PoolView {
        if self.lower_answers(len) {
            PoolView { lower: Some(self.lower->0.after_alloc(len)), ..self }
        } else {
            PoolView { upper: self.upper.after_alloc(len), ..self }
        }
    }

    pub open spec fn lower_live(self, addr: u64) -> bool {
        self.lower matches Some(lower) && lower.live(addr)
    }

    /// Whether `addr` is the start of a slot that is handed out.
    pub open spec fn live(self, addr: u64) -> bool {
        self.lower_live(addr) || self.upper.live(addr)
    }

    /// Whether `slot` is one of the pool's free slots, with its capacity.
    pub open spec fn free_slot(self, slot: Allocation) -> bool {
        (self.lower matches Some(lower) && lower.free_slot(slot)) || self.upper.free_slot(slot)
    }

    /// Whether `addr` is the start of a free slot.
    pub open spec fn is_free(self, addr: u64) -> bool {
        (self.lower matches Some(lower) && lower.free.contains(addr)) || self.upper.free.contains(
            addr,
        )
    }

    /// The tiers have the same slots, whichever of them are free.
    pub open spec fn same_slots(self, other: PoolView) -> bool {
        &&& self.upper.layout == other.upper.layout
        &&& self.lower is Some <==> other.lower is Some
        &&& self.lower matches Some(lower) ==> lower.layout == other.lower->0.layout
    }

    /// The capacity of the live slot at `addr`.
    pub open spec fn live_len(self, addr: u64) -> int {
        if self.lower_live(addr) {
            self.lower->0.layout.size() as int
        } else {
            self.upper.layout.size() as int
        }
    }

    pub open spec fn after_dealloc(self, addr: u64) -> PoolView {
        PoolView {
            lower: match self.lower {
                Some(lower) => Some(lower.after_dealloc(addr)),
                None => None,
            },
            upper: self.upper.after_dealloc(addr),
        }
    }

    pub open spec fn lower_count(self) -> int {
        match self.lower {
            Some(lower) => lower.layout.slots() as int,
            None => 0,
        }
    }

    pub open spec fn count(self) -> int {
        self.lower_count() + self.upper.layout.slots()
    }

    pub open spec fn num_free_lower(self) -> int {
        match self.lower {
            Some(lower) => lower.free.len() as int,
            None => 0,
        }
    }

    pub open spec fn num_free(self) -> int {
        self.num_free_lower() + self.upper.free.len()
    }

    pub open spec fn num_live(self) -> int {
        self.count() - self.num_free()
    }

    /// Start address of slot `index`, lower-tier slots first.
    pub open spec fn slot_addr(self, index: int) -> int {
        if index < self.lower_count() {
            self.lower->0.addr(index)
        } else {
            self.upper.addr(index - self.lower_count())
        }
    }
}

/// A buffer pool with one or two fixed-slot tiers.
///
/// Allocation and deallocation are O(1) per slot. Eligible allocations first
/// try the optional lower tier and fall back to the required upper tier when
/// the lower tier is full.
pub struct SlotPool {
    lower: Option<Tier>,
    upper: Tier,
}

impl View for SlotPool {
    type V = PoolView;

    closed spec fn view(&self) -> PoolView {
        PoolView {
            lower: match self.lower {
                Some(lower) => Some(lower.tier_view()),
                None => None,
            },
            upper: self.upper.tier_view(),
        }
    }
}

impl SlotPool {
    /// Every pool that a constructor hands out is well-formed, and every method
    /// keeps it so.
    pub closed spec fn wf(self) -> bool {
        &&& self@.wf()
        &&& self.upper.wf()
        &&& self.lower matches Some(lower) ==> lower.wf()
    }

    /// A well-formed pool holds a well-formed view.
    pub proof fn lemma_wf_view(&self)
        requires
            self.wf(),
        ensures
            self@.wf(),
    {
    }

    /// Create a single-tier recycling pool from exact slot placement.
    pub fn new(layout: SlotLayout) -> (pool: Result<Self, AllocError>)
        requires
            layout.wf(),
        ensures
            pool matches Ok(p) ==> p.wf() && p@.fresh_from(None, layout),
            pool matches Err(e) ==> e == AllocError::Bookkeeping && layout.slots() > 64,
    {
        Self::new_in(layout, FreeList::reserved(layout.slot_count))
    }

    /// Create a single-tier pool whose free list has room in `list`, if room was found.
    pub fn new_in(layout: SlotLayout, list: Option<FreeList>) -> (pool: Result<Self, AllocError>)
        requires
            layout.wf(),
            list matches Some(free) ==> free@.len() == 0,
        ensures
            list is Some ==> (pool matches Ok(p) && p.wf() && p@.fresh_from(None, layout)),
            list is None ==> (pool matches Err(e) && e == AllocError::Bookkeeping),
    {
        match Tier::from_layout(layout, list) {
            Ok(upper) => Ok(SlotPool { lower: None, upper }),
            Err(err) => Err(err),
        }
    }

    /// Create a two-tier recycling pool from exact lower and upper layouts.
    ///
    /// The lower layout must precede the upper layout without overlap, and its
    /// slot size must not exceed the upper slot size. Adjacent equal-sized
    /// layouts form one tier.
    pub fn new_tiered(lower: SlotLayout, upper: SlotLayout) -> (pool: Result<Self, AllocError>)
        requires
            lower.wf(),
            upper.wf(),
        ensures
            pool matches Ok(p) ==> p.wf() && p@.fresh_from(Some(lower), upper),
            pool == Err::<SlotPool, AllocError>(AllocError::InvalidArg) <==> !tiers_fit(
                lower,
                upper,
            ),
            pool == Err::<SlotPool, AllocError>(AllocError::Overflow) <==> tiers_fit(lower, upper)
                && lower.size() == upper.size() && !tiers_merge(lower, upper),
            pool matches Err(e) ==> e == AllocError::InvalidArg || e == AllocError::Overflow || (e
                == AllocError::Bookkeeping && lower.slots() + upper.slots() > 64),
    {
        match Self::tiers(lower, upper) {
            Ok((Some(first), second)) => {
                let lower_list = FreeList::reserved(first.slot_count);
                let upper_list = FreeList::reserved(second.slot_count);
                Self::new_tiered_in(lower, upper, lower_list, upper_list)
            },
            Ok((None, merged)) => Self::new_tiered_in(
                lower,
                upper,
                None,
                FreeList::reserved(merged.slot_count),
            ),
            Err(err) => Err(err),
        }
    }

    /// Create a two-tier pool whose free lists have room in these lists, where room was found.
    /// Layouts that form one tier need the upper list only.
    pub fn new_tiered_in(
        lower: SlotLayout,
        upper: SlotLayout,
        lower_list: Option<FreeList>,
        upper_list: Option<FreeList>,
    ) -> (pool: Result<Self, AllocError>)
        requires
            lower.wf(),
            upper.wf(),
            lower_list matches Some(free) ==> free@.len() == 0,
            upper_list matches Some(free) ==> free@.len() == 0,
        ensures
            pool matches Ok(p) ==> p.wf() && p@.fresh_from(Some(lower), upper),
            pool is Ok <==> tiers_error(lower, upper) is None && upper_list is Some && (lower.size()
                == upper.size() || lower_list is Some),
            pool matches Err(e) ==> e == match tiers_error(lower, upper) {
                Some(failed) => failed,
                None => AllocError::Bookkeeping,
            },
    {
        match Self::tiers(lower, upper) {
            Ok((Some(first), second)) => {
                let lower = match Tier::from_layout(first, lower_list) {
                    Ok(lower) => lower,
                    Err(err) => return Err(err),
                };
                let upper = match Tier::from_layout(second, upper_list) {
                    Ok(upper) => upper,
                    Err(err) => return Err(err),
                };
                Ok(SlotPool { lower: Some(lower), upper })
            },
            Ok((None, merged)) => Self::new_in(merged, upper_list),
            Err(err) => Err(err),
        }
    }

    /// The tiers that two layouts come to: one, where they are adjacent and equal-sized.
    fn tiers(lower: SlotLayout, upper: SlotLayout) -> (tiers: Result<
        (Option<SlotLayout>, SlotLayout),
        AllocError,
    >)
        requires
            lower.wf(),
            upper.wf(),
        ensures
            match tiers_error(lower, upper) {
                Some(failed) => tiers matches Err(e) && e == failed,
                None => if lower.size() == upper.size() {
                    tiers matches Ok((first, merged)) && first is None && merged.wf()
                        && merged.base() == lower.base() && merged.size() == lower.size()
                        && merged.slots() == lower.slots() + upper.slots()
                } else {
                    tiers matches Ok((first, second)) && first == Some(lower) && second == upper
                },
            },
    {
        if lower.slot_size > upper.slot_size || lower.end_addr() > upper.base_addr {
            return Err(AllocError::InvalidArg);
        }
        if lower.slot_size == upper.slot_size {
            if lower.end_addr() != upper.base_addr {
                return Err(AllocError::InvalidArg);
            }
            let count: usize = match lower.slot_count.checked_add(upper.slot_count) {
                Some(count) => count,
                None => return Err(AllocError::Overflow),
            };
            return match SlotLayout::new(lower.base_addr, lower.slot_size(), count) {
                Ok(layout) => Ok((None, layout)),
                Err(err) => Err(err),
            };
        }
        Ok((Some(lower), upper))
    }

    /// Return every live slot address in deterministic tier and index order.
    ///
    /// The lower tier precedes the upper one, so the addresses ascend.
    pub fn live_addrs(&self) -> (addrs: Vec<u64>)
        requires
            self.wf(),
        ensures
            forall|i: int, j: int| 0 <= i < j < addrs@.len() ==> addrs@[i] < addrs@[j],
            forall|a: u64| #[trigger] addrs@.contains(a) <==> self@.live(a),
            addrs@.len() == self@.num_live(),
    {
        let mut addrs: Vec<u64> = Vec::new();
        if let Some(lower) = &self.lower {
            lower.append_live_addrs(&mut addrs);
        }
        proof {
            assert forall|i: int| 0 <= i < addrs@.len() implies addrs@[i]
                < self.upper.layout.base() by {
                assert(addrs@.contains(addrs@[i]));
            }
        }
        self.upper.append_live_addrs(&mut addrs);
        proof {
            law_live_addresses_are_counted(self@, addrs@);
        }
        addrs
    }

    /// Every free slot, in lower-then-upper index order.
    pub fn for_each_free(&self) -> (slots: Vec<Allocation>)
        requires
            self.wf(),
        ensures
            forall|i: int, j: int|
                0 <= i < j < slots@.len() ==> slots@[i].addr < slots@[j].addr,
            forall|s: Allocation| #[trigger]
                slots@.contains(s) <==> self@.free_slot(s),
            forall|a: u64| #[trigger]
                self@.is_free(a) <==> exists|i: int|
                    0 <= i < slots@.len() && (#[trigger] slots@[i]).addr == a,
    {
        let mut slots: Vec<Allocation> = Vec::new();
        if let Some(lower) = &self.lower {
            lower.append_free(&mut slots);
        }
        proof {
            assert forall|i: int| 0 <= i < slots@.len() implies slots@[i].addr
                < self.upper.layout.base() by {
                assert(slots@.contains(slots@[i]));
                let lower = self@.lower->0;
                let k = choose|k: int|
                    0 <= k < lower.free.len() && lower.free[k] == slots@[i].addr;
                assert(lower.is_slot(lower.free[k]));
            }
        }
        self.upper.append_free(&mut slots);
        proof {
            assert forall|a: u64| #[trigger] self@.is_free(a) <==> exists|i: int|
                0 <= i < slots@.len() && (#[trigger] slots@[i]).addr == a by {
                if self@.is_free(a) {
                    let size = if self@.upper.free.contains(a) {
                        self@.upper.layout.size()
                    } else {
                        self@.lower->0.layout.size()
                    };
                    assert(slots@.contains(Allocation { addr: a, len: size }));
                }
                if exists|i: int| 0 <= i < slots@.len() && (#[trigger] slots@[i]).addr == a {
                    let i = choose|i: int|
                        0 <= i < slots@.len() && (#[trigger] slots@[i]).addr == a;
                    assert(slots@.contains(slots@[i]));
                }
            }
        }
        slots
    }

    /// Return the lower and upper tier layouts.
    pub fn layouts(&self) -> (layouts: (Option<SlotLayout>, SlotLayout))
        ensures
            layouts.0 == (match self@.lower {
                Some(lower) => Some(lower.layout),
                None => None,
            }),
            layouts.1 == self@.upper.layout,
    {
        let lower = match &self.lower {
            Some(lower) => Some(lower.layout),
            None => None,
        };
        (lower, self.upper.layout)
    }

    /// Compute the address of slot `index`, with lower-tier slots first.
    ///
    /// Returns `None` if `index >= count`.
    pub fn slot_addr(&self, index: usize) -> (addr: Option<u64>)
        requires
            self.wf(),
        ensures
            addr is Some <==> index < self@.count(),
            addr matches Some(a) ==> a == self@.slot_addr(index as int),
    {
        if let Some(lower) = &self.lower {
            if index < lower.layout.slot_count {
                return lower.slot_addr(index);
            }
            return self.upper.slot_addr(index - lower.layout.slot_count);
        }
        self.upper.slot_addr(index)
    }

    /// Total number of free slots across all tiers.
    pub fn num_free(&self) -> (count: usize)
        requires
            self.wf(),
        ensures
            count == self@.num_free(),
    {
        self.num_free_lower() + self.num_free_upper()
    }

    /// Total number of currently allocated slots across all tiers.
    pub fn num_live(&self) -> (count: usize)
        requires
            self.wf(),
        ensures
            count == self@.num_live(),
    {
        self.count() - self.num_free()
    }

    /// Total number of free slots in the lower tier.
    pub fn num_free_lower(&self) -> (count: usize)
        ensures
            count == self@.num_free_lower(),
    {
        match &self.lower {
            Some(lower) => lower.free.len(),
            None => 0,
        }
    }

    /// Total number of free slots in the upper tier.
    pub fn num_free_upper(&self) -> (count: usize)
        ensures
            count == self@.upper.free.len(),
    {
        self.upper.free.len()
    }

    /// Free a previously allocated slot by address.
    pub fn dealloc(&mut self, addr: u64) -> (freed: Result<(), AllocError>)
        requires
            old(self).wf(),
        ensures
            final(self).wf(),
            freed is Ok <==> old(self)@.live(addr),
            freed matches Err(e) ==> e == AllocError::InvalidFree(addr, 0),
            final(self)@ == old(self)@.after_dealloc(addr),
    {
        if let Some(lower) = &mut self.lower {
            if lower.contains(addr) {
                return lower.dealloc_addr(addr);
            }
        }
        self.upper.dealloc_addr(addr)
    }

    /// Capacity of a live allocation by its start address.
    pub fn allocation_len(&self, addr: u64) -> (len: Result<usize, AllocError>)
        requires
            self.wf(),
        ensures
            len is Ok <==> self@.live(addr),
            len matches Ok(n) ==> n == self@.live_len(addr),
            len matches Err(e) ==> e == AllocError::InvalidFree(addr, 0),
    {
        if let Some(lower) = &self.lower {
            if lower.contains(addr) {
                return lower.allocation_len(addr);
            }
        }
        self.upper.allocation_len(addr)
    }

    /// Base address of the first managed tier.
    pub fn base_addr(&self) -> (addr: u64)
        ensures
            addr == (match self@.lower {
                Some(lower) => lower.layout.base(),
                None => self@.upper.layout.base(),
            }),
    {
        match &self.lower {
            Some(lower) => lower.layout.base_addr,
            None => self.upper.layout.base_addr,
        }
    }

    /// Maximum slot size in bytes.
    pub fn slot_size(&self) -> (size: usize)
        ensures
            size == self@.upper.layout.size(),
    {
        self.upper.layout.slot_size as usize
    }

    /// Slot size in bytes for the lower tier, if present.
    pub fn lower_slot_size(&self) -> (size: Option<usize>)
        ensures
            size is Some <==> self@.lower is Some,
            size matches Some(n) ==> n == self@.lower->0.layout.size(),
    {
        match &self.lower {
            Some(lower) => Some(lower.layout.slot_size as usize),
            None => None,
        }
    }

    /// Maximum slot size in bytes for the upper tier.
    pub fn upper_slot_size(&self) -> (size: usize)
        ensures
            size == self@.upper.layout.size(),
    {
        self.upper.layout.slot_size as usize
    }

    /// Total number of slots across all tiers.
    pub fn count(&self) -> (count: usize)
        requires
            self.wf(),
        ensures
            count == self@.count(),
    {
        match &self.lower {
            Some(lower) => lower.layout.slot_count + self.upper.layout.slot_count,
            None => self.upper.layout.slot_count,
        }
    }

    /// Allocate one slot holding at least `len` bytes.
    pub fn allocate(&mut self, len: usize) -> (allocation: Result<Allocation, AllocError>)
        requires
            old(self).wf(),
        ensures
            final(self).wf(),
            allocation == old(self)@.alloc_result(len as int),
            final(self)@ == old(self)@.after_alloc(len as int),
    {
        if let Some(lower) = &mut self.lower {
            if len <= lower.layout.slot_size as usize {
                match lower.allocate(len) {
                    Err(AllocError::NoSpace) => {},
                    result => return result,
                }
            }
        }
        self.upper.allocate(len)
    }
}

/// Giving back the slot that a request was answered with restores the pool.
pub proof fn law_dealloc_undoes_alloc(pool: PoolView, len: int)
    requires
        pool.wf(),
        pool.alloc_result(len) is Ok,
    ensures
        pool.after_alloc(len).live(pool.alloc_result(len)->Ok_0.addr),
        pool.after_alloc(len).after_dealloc(pool.alloc_result(len)->Ok_0.addr) == pool,
{
    let after = pool.after_alloc(len);
    let addr = pool.alloc_result(len)->Ok_0.addr;
    if pool.lower_answers(len) {
        let lower = pool.lower->0;
        assert(lower.is_slot(lower.free[lower.free.len() - 1]));
        assert(lower.free.drop_last().push(addr) =~= lower.free);
    } else {
        let upper = pool.upper;
        assert(upper.is_slot(upper.free[upper.free.len() - 1]));
        assert(upper.free.drop_last().push(addr) =~= upper.free);
        assert(after.upper.live(addr));
    }
}

/// The slot that was given back last is the next one its tier hands out.
pub proof fn law_freed_slot_is_reused_first(tier: TierView, addr: u64, len: int)
    requires
        tier.wf(),
        tier.live(addr),
        0 < len <= tier.layout.size(),
    ensures
        tier.after_dealloc(addr).alloc_result(len) == Ok::<Allocation, AllocError>(
            Allocation { addr, len: tier.layout.size() },
        ),
        tier.after_dealloc(addr).after_alloc(len) == tier,
{
    assert(tier.free.push(addr).drop_last() =~= tier.free);
}

/// A slot cannot be given back twice: after the first time its address is not live.
pub proof fn law_double_free_is_rejected(pool: PoolView, addr: u64)
    requires
        pool.wf(),
    ensures
        !pool.after_dealloc(addr).live(addr),
        pool.after_dealloc(addr).after_dealloc(addr) == pool.after_dealloc(addr),
{
    if let Some(lower) = pool.lower {
        assert(lower.free.push(addr).last() == addr);
        assert(lower.live(addr) ==> lower.after_dealloc(addr).free.contains(addr));
    }
    assert(pool.upper.free.push(addr).last() == addr);
    assert(pool.upper.live(addr) ==> pool.upper.after_dealloc(addr).free.contains(addr));
}

/// A request is answered with a slot that was not live, holds at least `len`
/// bytes and lies inside one tier.
pub proof fn law_alloc_hands_out_a_free_slot(pool: PoolView, len: int)
    requires
        pool.wf(),
        pool.alloc_result(len) is Ok,
    ensures
        !pool.live(pool.alloc_result(len)->Ok_0.addr),
        len <= pool.alloc_result(len)->Ok_0.len,
        pool.after_alloc(len).num_live() == pool.num_live() + 1,
{
    let addr = pool.alloc_result(len)->Ok_0.addr;
    if pool.lower_answers(len) {
        let lower = pool.lower->0;
        assert(lower.free[lower.free.len() - 1] == addr);
        assert(lower.is_slot(addr));
    } else {
        assert(pool.upper.free[pool.upper.free.len() - 1] == addr);
        assert(pool.upper.is_slot(addr));
    }
}

/// Two different live slots do not overlap.
pub proof fn law_live_slots_are_disjoint(pool: PoolView, a: u64, b: u64)
    requires
        pool.wf(),
        pool.live(a),
        pool.live(b),
        a < b,
    ensures
        a + pool.live_len(a) <= b,
        b + pool.live_len(b) <= pool.upper.layout.end(),
{
    if let Some(lower) = pool.lower {
        if lower.live(a) {
            lemma_slot_end(lower, a);
        }
        if lower.live(b) {
            lemma_slot_end(lower, b);
            if lower.live(a) {
                lemma_slots_apart(lower, a, b);
            }
        }
    }
    if pool.upper.live(a) {
        lemma_slot_end(pool.upper, a);
    }
    if pool.upper.live(b) {
        lemma_slot_end(pool.upper, b);
        if pool.upper.live(a) {
            lemma_slots_apart(pool.upper, a, b);
        }
    }
}

/// A live slot ends inside the pool's memory.
pub proof fn law_live_slots_are_in_range(pool: PoolView, addr: u64)
    requires
        pool.wf(),
        pool.live(addr),
    ensures
        addr + pool.live_len(addr) <= pool.upper.layout.end() <= u64::MAX,
{
    if let Some(lower) = pool.lower {
        if lower.live(addr) {
            lemma_slot_end(lower, addr);
        }
    }
    if pool.upper.live(addr) {
        lemma_slot_end(pool.upper, addr);
    }
}

/// A slot ends inside its tier.
proof fn lemma_slot_end(view: TierView, addr: u64)
    requires
        view.layout.wf(),
        view.is_slot(addr),
    ensures
        addr + view.layout.size() <= view.layout.end(),
{
    lemma_slot_index(view, addr);
    let size = view.layout.size() as int;
    let index = (addr - view.layout.base()) / size;
    lemma_mul_inequality(index + 1, view.layout.slots() as int, size);
    lemma_mul_is_distributive_add(size, index, 1);
    lemma_mul_is_commutative(size, index);
    lemma_mul_is_commutative(size, index + 1);
    lemma_mul_is_commutative(size, view.layout.slots() as int);
}

/// Two slots of one tier do not overlap.
proof fn lemma_slots_apart(view: TierView, a: u64, b: u64)
    requires
        view.layout.wf(),
        view.is_slot(a),
        view.is_slot(b),
        a < b,
    ensures
        a + view.layout.size() <= b,
{
    lemma_slot_index(view, a);
    lemma_slot_index(view, b);
    let size = view.layout.size() as int;
    let i = (a - view.layout.base()) / size;
    let j = (b - view.layout.base()) / size;
    assert(a + size <= b) by (nonlinear_arith)
        requires
            a == view.layout.base() + i * size,
            b == view.layout.base() + j * size,
            a < b,
            size > 0,
    ;
}

/// Slots of a pool do not share an address.
proof fn lemma_pool_slot(pool: PoolView, i: int)
    requires
        pool.wf(),
        0 <= i < pool.count(),
    ensures
        0 <= pool.slot_addr(i) <= u64::MAX,
        pool.live(pool.slot_addr(i) as u64) == !pool.is_free(pool.slot_addr(i) as u64),
        forall|j: int|
            0 <= j < pool.count() && j != i ==> #[trigger] pool.slot_addr(j) != pool.slot_addr(i),
{
    let split = pool.lower_count();
    let addr = pool.slot_addr(i) as u64;
    if i < split {
        lemma_slot_addr(pool.lower->0, i);
        assert forall|k: int| 0 <= k < pool.upper.free.len() implies #[trigger] pool.upper.free[k]
            != addr by {
            assert(pool.upper.is_slot(pool.upper.free[k]));
        }
    } else {
        lemma_slot_addr(pool.upper, i - split);
        if let Some(lower) = pool.lower {
            assert forall|k: int| 0 <= k < lower.free.len() implies #[trigger] lower.free[k]
                != addr by {
                assert(lower.is_slot(lower.free[k]));
            }
        }
    }
    assert forall|j: int| 0 <= j < pool.count() && j != i implies #[trigger] pool.slot_addr(j)
        != pool.slot_addr(i) by {
        if j < split {
            lemma_slot_addr(pool.lower->0, j);
        } else {
            lemma_slot_addr(pool.upper, j - split);
        }
    }
}

/// A live or free address is that of a slot.
proof fn lemma_pool_index(pool: PoolView, addr: u64)
    requires
        pool.wf(),
        pool.live(addr) || pool.is_free(addr),
    ensures
        exists|i: int| 0 <= i < pool.count() && #[trigger] pool.slot_addr(i) == addr,
{
    let split = pool.lower_count();
    if pool.lower matches Some(lower) && (lower.live(addr) || lower.free.contains(addr)) {
        let lower = pool.lower->0;
        if lower.free.contains(addr) {
            let k = choose|k: int| 0 <= k < lower.free.len() && lower.free[k] == addr;
            assert(lower.is_slot(lower.free[k]));
        }
        lemma_slot_index(lower, addr);
        assert(pool.slot_addr((addr - lower.layout.base()) / (lower.layout.size() as int)) == addr);
    } else {
        let upper = pool.upper;
        if upper.free.contains(addr) {
            let k = choose|k: int| 0 <= k < upper.free.len() && upper.free[k] == addr;
            assert(upper.is_slot(upper.free[k]));
        }
        lemma_slot_index(upper, addr);
        let index = (addr - upper.layout.base()) / (upper.layout.size() as int);
        assert(pool.slot_addr(split + index) == addr);
    }
}

/// The addresses of the slots in use are as many as the pool counts.
pub proof fn law_live_addresses_are_counted(pool: PoolView, addrs: Seq<u64>)
    requires
        pool.wf(),
        addrs.no_duplicates(),
        forall|a: u64| #[trigger] addrs.contains(a) <==> pool.live(a),
    ensures
        addrs.len() == pool.num_live(),
{
    let slots = Seq::new(pool.count() as nat, |i: int| pool.slot_addr(i) as u64);
    let first = match pool.lower {
        Some(lower) => lower.free,
        None => Seq::<u64>::empty(),
    };
    let free = first + pool.upper.free;
    assert forall|i: int, j: int| 0 <= i < slots.len() && 0 <= j < slots.len() && i != j implies (
    #[trigger] slots[i]) != (#[trigger] slots[j]) by {
        lemma_pool_slot(pool, i);
        lemma_pool_slot(pool, j);
        assert(pool.slot_addr(j) != pool.slot_addr(i));
    }
    assert forall|i: int, j: int| 0 <= i < free.len() && 0 <= j < free.len() && i != j implies (
    #[trigger] free[i]) != (#[trigger] free[j]) by {
        if i < first.len() {
            assert(pool.lower->0.is_slot(pool.lower->0.free[i]));
        } else {
            assert(pool.upper.is_slot(pool.upper.free[i - first.len()]));
        }
        if j < first.len() {
            assert(pool.lower->0.is_slot(pool.lower->0.free[j]));
        } else {
            assert(pool.upper.is_slot(pool.upper.free[j - first.len()]));
        }
    }
    assert forall|a: u64| #[trigger] free.contains(a) <==> pool.is_free(a) by {
        if first.contains(a) {
            let k = choose|k: int| 0 <= k < first.len() && first[k] == a;
            assert(free[k] == a);
        }
        if pool.upper.free.contains(a) {
            let k = choose|k: int| 0 <= k < pool.upper.free.len() && pool.upper.free[k] == a;
            assert(free[first.len() + k] == a);
        }
    }
    addrs.unique_seq_to_set();
    free.unique_seq_to_set();
    slots.unique_seq_to_set();
    assert(addrs.to_set() + free.to_set() =~= slots.to_set()) by {
        assert forall|a: u64| #[trigger] slots.to_set().contains(a) <==> (addrs.to_set()
            + free.to_set()).contains(a) by {
            if slots.contains(a) {
                let i = choose|i: int| 0 <= i < slots.len() && slots[i] == a;
                lemma_pool_slot(pool, i);
                assert(addrs.contains(a) || free.contains(a));
            }
            if addrs.contains(a) || free.contains(a) {
                lemma_pool_index(pool, a);
                let i = choose|i: int| 0 <= i < pool.count() && #[trigger] pool.slot_addr(i) == a;
                assert(slots[i] == a);
            }
        }
    }
    assert(addrs.to_set().disjoint(free.to_set())) by {
        assert forall|a: u64| !(addrs.to_set().contains(a) && free.to_set().contains(a)) by {
            if addrs.contains(a) && free.contains(a) {
                lemma_pool_index(pool, a);
                let i = choose|i: int| 0 <= i < pool.count() && #[trigger] pool.slot_addr(i) == a;
                lemma_pool_slot(pool, i);
            }
        }
    }
    vstd::set_lib::lemma_set_disjoint_lens(addrs.to_set(), free.to_set());
}

/// A request to a pool.
pub enum PoolStep {
    Alloc(int),
    Dealloc(u64),
}

/// The pool after `steps`, whether or not each of them succeeds.
pub open spec fn pool_after(pool: PoolView, steps: Seq<PoolStep>) -> PoolView
    decreases steps.len(),
{
    if steps.len() == 0 {
        pool
    } else {
        let before = pool_after(pool, steps.drop_last());
        match steps.last() {
            PoolStep::Alloc(len) => before.after_alloc(len),
            PoolStep::Dealloc(addr) => before.after_dealloc(addr),
        }
    }
}

/// The addresses that `steps` were answered with and that have not been given back since.
pub open spec fn handed_out(pool: PoolView, steps: Seq<PoolStep>) -> Set<u64>
    decreases steps.len(),
{
    if steps.len() == 0 {
        Set::empty()
    } else {
        let held = handed_out(pool, steps.drop_last());
        match steps.last() {
            PoolStep::Alloc(len) => match pool_after(pool, steps.drop_last()).alloc_result(len) {
                Ok(slot) => held.insert(slot.addr),
                Err(_) => held,
            },
            PoolStep::Dealloc(addr) => held.remove(addr),
        }
    }
}

/// A request keeps a pool well-formed and its slots in place; the slot it is answered with
/// becomes live, and no other changes.
proof fn lemma_alloc_step(pool: PoolView, len: int)
    requires
        pool.wf(),
    ensures
        pool.after_alloc(len).wf(),
        pool.after_alloc(len).same_slots(pool),
        match pool.alloc_result(len) {
            Ok(slot) => forall|a: u64| #[trigger]
                pool.after_alloc(len).live(a) <==> a == slot.addr || pool.live(a),
            Err(_) => pool.after_alloc(len) == pool,
        },
{
    let after = pool.after_alloc(len);
    let tier = if pool.lower_answers(len) {
        pool.lower->0
    } else {
        pool.upper
    };
    if pool.alloc_result(len) is Ok {
        let rest = tier.free.drop_last();
        let addr = tier.free.last();
        assert(tier.free[tier.free.len() - 1] == addr);
        assert(tier.is_slot(addr));
        assert forall|a: u64| #[trigger] rest.contains(a) <==> a != addr && tier.free.contains(
            a,
        ) by {
            if tier.free.contains(a) && a != addr {
                let k = choose|k: int| 0 <= k < tier.free.len() && tier.free[k] == a;
                assert(rest[k] == a);
            }
            if rest.contains(a) {
                let k = choose|k: int| 0 <= k < rest.len() && rest[k] == a;
                assert(tier.free[k] == a);
            }
        }
        assert(tier.after_alloc(len).wf()) by {
            assert forall|i: int| 0 <= i < rest.len() implies tier.is_slot(#[trigger] rest[i]) by {
                assert(tier.is_slot(tier.free[i]));
            }
        }
        assert forall|a: u64| #[trigger] after.live(a) <==> a == addr || pool.live(a) by {
            assert(tier.after_alloc(len).live(a) <==> a == addr || tier.live(a));
        }
    } else {
        assert(tier.after_alloc(len) == tier);
        assert(after == pool);
    }
}

/// Giving an address back keeps a pool well-formed and its slots in place; that address is
/// not live afterwards, and no other changes.
pub proof fn lemma_dealloc_step(pool: PoolView, addr: u64)
    requires
        pool.wf(),
    ensures
        pool.after_dealloc(addr).wf(),
        pool.after_dealloc(addr).same_slots(pool),
        forall|a: u64| #[trigger]
            pool.after_dealloc(addr).live(a) <==> a != addr && pool.live(a),
{
    lemma_tier_dealloc(pool.upper, addr);
    if let Some(lower) = pool.lower {
        lemma_tier_dealloc(lower, addr);
    }
}

proof fn lemma_tier_dealloc(tier: TierView, addr: u64)
    requires
        tier.wf(),
    ensures
        tier.after_dealloc(addr).wf(),
        tier.after_dealloc(addr).layout == tier.layout,
        forall|a: u64| #[trigger]
            tier.after_dealloc(addr).live(a) <==> a != addr && tier.live(a),
{
    let after = tier.after_dealloc(addr);
    if tier.live(addr) {
        lemma_free_len(after);
        assert(after.free[tier.free.len() as int] == addr);
        assert forall|a: u64| #[trigger] after.free.contains(a) <==> a == addr
            || tier.free.contains(a) by {
            if tier.free.contains(a) {
                let k = choose|k: int| 0 <= k < tier.free.len() && tier.free[k] == a;
                assert(after.free[k] == a);
            }
        }
    }
}

/// A pool accounts for every slot, whatever was asked of it since it was new: the live
/// addresses are those handed out and not given back, and each slot is live or free, never
/// both.
pub proof fn law_pool_accounts_for_every_slot(
    pool: PoolView,
    lower: Option<SlotLayout>,
    upper: SlotLayout,
    steps: Seq<PoolStep>,
)
    requires
        pool.wf(),
        pool.fresh_from(lower, upper),
    ensures
        pool_after(pool, steps).wf(),
        pool_after(pool, steps).same_slots(pool),
        forall|a: u64| #[trigger]
            pool_after(pool, steps).live(a) <==> handed_out(pool, steps).contains(a),
        pool_after(pool, steps).num_live() + pool_after(pool, steps).num_free() == pool.count(),
        forall|i: int|
            0 <= i < pool.count() ==> {
                let addr = #[trigger] pool_after(pool, steps).slot_addr(i) as u64;
                pool_after(pool, steps).live(addr) != pool_after(pool, steps).is_free(addr)
            },
    decreases steps.len(),
{
    let after = pool_after(pool, steps);
    if steps.len() == 0 {
        assert forall|a: u64| !#[trigger] pool.live(a) by {
            if pool.live(a) {
                lemma_fresh_all_free(pool, lower, upper, a);
            }
        }
    } else {
        let before = pool_after(pool, steps.drop_last());
        law_pool_accounts_for_every_slot(pool, lower, upper, steps.drop_last());
        match steps.last() {
            PoolStep::Alloc(len) => lemma_alloc_step(before, len),
            PoolStep::Dealloc(addr) => lemma_dealloc_step(before, addr),
        }
    }
    assert forall|i: int| 0 <= i < pool.count() implies {
        let addr = #[trigger] after.slot_addr(i) as u64;
        after.live(addr) != after.is_free(addr)
    } by {
        lemma_pool_slot(after, i);
    }
}

/// Every slot of a new pool is free.
proof fn lemma_fresh_all_free(
    pool: PoolView,
    lower: Option<SlotLayout>,
    upper: SlotLayout,
    addr: u64,
)
    requires
        pool.wf(),
        pool.fresh_from(lower, upper),
    ensures
        !pool.live(addr),
{
    if pool.upper.is_slot(addr) {
        lemma_slot_index(pool.upper, addr);
        let index = (addr - pool.upper.layout.base()) / (pool.upper.layout.size() as int);
        assert(pool.upper.free[index] == addr);
    }
    if let Some(tier) = pool.lower {
        if tier.is_slot(addr) {
            lemma_slot_index(tier, addr);
            let index = (addr - tier.layout.base()) / (tier.layout.size() as int);
            assert(tier.free[index] == addr);
        }
    }
}

} // verus!
