//! The free list of one tier: a `SmallVec` of slot addresses.

use smallvec::SmallVec;
use vstd::prelude::*;

verus! {

/// Free slot addresses, kept inline up to 64 of them.
#[verifier::external_body]
pub struct FreeList {
    items: SmallVec<[u64; 64]>,
}

/// The addresses a free list holds, oldest first.
pub uninterp spec fn free_items(list: FreeList) -> Seq<u64>;

impl View for FreeList {
    type V = Seq<u64>;

    open spec fn view(&self) -> Seq<u64> {
        free_items(*self)
    }
}

impl FreeList {
    /// `SmallVec::new`: an empty vector.
    #[verifier::external_body]
    pub(crate) fn new() -> (list: FreeList)
        ensures
            free_items(list) == Seq::<u64>::empty(),
    {
        FreeList { items: SmallVec::new() }
    }

    /// `SmallVec::try_reserve_exact`: asks the allocator for room and keeps the
    /// items. The inline room of 64 items needs no allocator; past it, whether
    /// room is found depends on the allocator.
    #[verifier::external_body]
    pub(crate) fn try_reserve_exact(&mut self, additional: usize) -> (reserved: bool)
        ensures
            free_items(*final(self)) == free_items(*old(self)),
            free_items(*old(self)).len() + additional <= 64 ==> reserved,
    {
        self.items.try_reserve_exact(additional).is_ok()
    }

    /// An empty list with room for `count` items, if room is found.
    pub(crate) fn reserved(count: usize) -> (list: Option<FreeList>)
        ensures
            list matches Some(free) ==> free@.len() == 0,
            count <= 64 ==> list is Some,
    {
        let mut free = FreeList::new();
        if free.try_reserve_exact(count) {
            Some(free)
        } else {
            None
        }
    }

    /// `SmallVec::push`: appends one item.
    #[verifier::external_body]
    pub(crate) fn push(&mut self, addr: u64)
        requires
            (free_items(*old(self)).len() + 1) * 8 <= isize::MAX,
        ensures
            free_items(*final(self)) == free_items(*old(self)).push(addr),
    {
        self.items.push(addr)
    }

    /// `SmallVec::pop`: removes and returns the last item, or `None` when empty.
    #[verifier::external_body]
    pub(crate) fn pop(&mut self) -> (addr: Option<u64>)
        ensures
            free_items(*old(self)).len() == 0 ==> addr is None && free_items(*final(self))
                == free_items(*old(self)),
            free_items(*old(self)).len() > 0 ==> addr == Some(free_items(*old(self)).last())
                && free_items(*final(self)) == free_items(*old(self)).drop_last(),
    {
        self.items.pop()
    }

    /// `SmallVec::len`: the number of items.
    #[verifier::external_body]
    pub(crate) fn len(&self) -> (len: usize)
        ensures
            len == free_items(*self).len(),
    {
        self.items.len()
    }
}

} // verus!
