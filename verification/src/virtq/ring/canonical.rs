//! Canonical packed virtqueue images.
//!
//! A canonical image starts at the initial wrap round. Available descriptors
//! occupy a complete prefix, unused descriptors are zero, and both event
//! structures are enabled at offset zero. This form can be restored as bytes
//! and validated before either peer resumes.
//!
//! Ring resets normalize the structures owned by each peer. Buffer range
//! policy remains with the integration through the validator callback.

use vstd::prelude::*;

use super::super::access::{MemOps, MemView};
use super::super::desc;
use super::super::desc::{
    read_desc, read_event, Descriptor, EventSuppression, Layout, DESC_INDIRECT, DESC_NEXT,
    DESC_UNKNOWN, EVENT_ENABLE,
};
use super::super::pool::bits;
use super::{BufferChain, BufferElement, MemOp, RingError};

verus! {

/// Why a descriptor does not belong to a canonical packed-ring image.
#[derive(Debug, Clone, Copy, PartialEq, Eq, Structural)]
pub enum DescError {
    /// An unused descriptor was not completely zeroed.
    ExpectedZero,
    /// The raw descriptor contains unsupported or reserved flag bits.
    UnknownFlags,
    /// The descriptor is not available in the initial packed-ring wrap round.
    NotAvailable,
    /// Indirect descriptor tables are unsupported.
    Indirect,
    /// A chain's NEXT flag extends beyond the available descriptor prefix.
    ChainContinues,
    /// A chain ID is outside the descriptor-table bounds.
    IdOutOfRange,
    /// A tail descriptor does not carry its head descriptor's ID.
    IdMismatch,
    /// Two available chains use the same descriptor ID.
    DuplicateId,
    /// A readable descriptor follows a writable descriptor.
    ReadableAfterWritable,
}

/// Validation failure for a canonical packed-ring image.
#[derive(Debug, Clone, Copy, PartialEq, Eq, Structural)]
pub enum ImageError {
    /// Reading the shared ring image failed.
    Ring(RingError),
    /// The caller supplied an impossible available-descriptor prefix length.
    DescCount {
        /// Number of descriptors expected to be available.
        available: usize,
        /// Descriptor-table capacity.
        capacity: usize,
    },
    /// An event-suppression structure is not the canonical enabled value.
    Event {
        /// Address of the invalid event-suppression structure.
        addr: u64,
    },
    /// A descriptor violates the canonical packed-ring structure.
    Desc {
        /// Descriptor-table index.
        index: u16,
        /// Structural validation failure.
        reason: DescError,
    },
    /// The caller rejected a descriptor's payload range or attributes.
    Buffer {
        /// Descriptor-table index.
        index: u16,
        /// Buffer address from the descriptor.
        addr: u64,
        /// Buffer length from the descriptor.
        len: u32,
    },
}

/// One available descriptor chain from a validated canonical ring image.
#[derive(Debug)]
pub struct CanonChain {
    id: u16,
    inner: BufferChain,
}

impl View for CanonChain {
    type V = (u16, Seq<BufferElement>);

    /// The chain's identifier and buffers.
    closed spec fn view(&self) -> (u16, Seq<BufferElement>) {
        (self.id, self.inner@)
    }
}

impl CanonChain {
    /// The chain has its readable buffers first.
    pub closed spec fn wf(&self) -> bool {
        self.inner.wf()
    }

    /// Descriptor ID shared by every buffer in the chain.
    pub fn id(&self) -> (id: u16)
        ensures
            id == self@.0,
    {
        self.id
    }

    /// Validated buffers in descriptor order.
    pub fn buffers(&self) -> (chain: &BufferChain)
        requires
            self.wf(),
        ensures
            chain@ == self@.1,
            chain.wf(),
    {
        &self.inner
    }

    /// Consume the image metadata and return its buffer chain.
    pub fn into_buffers(self) -> (chain: BufferChain)
        requires
            self.wf(),
        ensures
            chain@ == self@.1,
            chain.wf(),
    {
        self.inner
    }
}

pub open spec fn desc_error<T>(index: int, reason: DescError) -> Result<T, ImageError> {
    Err(ImageError::Desc { index: index as u16, reason })
}

/// The descriptor at `index`, if it may stand in a canonical prefix.
pub open spec fn canon_desc(mem: MemView, layout: Layout, index: int) -> Result<
    Descriptor,
    ImageError,
> {
    let item = desc::desc_in(mem, layout.desc(index));
    if item.flags & DESC_UNKNOWN != 0 {
        desc_error(index, DescError::UnknownFlags)
    } else if item.flags & DESC_INDIRECT != 0 {
        desc_error(index, DescError::Indirect)
    } else if !desc::avail_in(item.flags, true) {
        desc_error(index, DescError::NotAvailable)
    } else {
        Ok(item)
    }
}

/// The buffers of the chain with identifier `id` from `index` on, up to the end of
/// the available prefix; `writing` says that a buffer before `index` was writable.
pub open spec fn canon_chain(
    mem: MemView,
    layout: Layout,
    index: int,
    avail: int,
    id: u16,
    writing: bool,
    accept: spec_fn(u16, BufferElement) -> bool,
) -> Result<Seq<BufferElement>, ImageError>
    decreases avail - index,
{
    match canon_desc(mem, layout, index) {
        Err(e) => Err(e),
        Ok(item) => {
            let elem = super::element_of(item);
            if item.id != id {
                desc_error(index, DescError::IdMismatch)
            } else if !elem.writable && writing {
                desc_error(index, DescError::ReadableAfterWritable)
            } else if !accept(index as u16, elem) {
                Err(ImageError::Buffer { index: index as u16, addr: elem.addr, len: elem.len })
            } else if item.flags & DESC_NEXT == 0 {
                Ok(seq![elem])
            } else if index + 1 >= avail {
                desc_error(index, DescError::ChainContinues)
            } else {
                match canon_chain(mem, layout, index + 1, avail, id, elem.writable, accept) {
                    Ok(rest) => Ok(seq![elem] + rest),
                    Err(e) => Err(e),
                }
            }
        },
    }
}

/// A chain is not empty and ends inside the available prefix.
pub proof fn lemma_canon_chain_len(
    mem: MemView,
    layout: Layout,
    index: int,
    avail: int,
    id: u16,
    writing: bool,
    accept: spec_fn(u16, BufferElement) -> bool,
)
    requires
        index < avail,
    ensures
        canon_chain(mem, layout, index, avail, id, writing, accept) matches Ok(elems) ==> 0
            < elems.len() <= avail - index,
    decreases avail - index,
{
    if index + 1 < avail {
        let item = desc::desc_in(mem, layout.desc(index));
        lemma_canon_chain_len(
            mem,
            layout,
            index + 1,
            avail,
            id,
            super::element_of(item).writable,
            accept,
        );
    }
}

/// The chains from `index` to the end of the available prefix, none of which may
/// have an identifier in `seen`.
pub open spec fn canon_chains(
    mem: MemView,
    layout: Layout,
    index: int,
    avail: int,
    seen: Set<u16>,
    accept: spec_fn(u16, BufferElement) -> bool,
) -> Result<Seq<(u16, Seq<BufferElement>)>, ImageError>
    decreases avail - index,
{
    if index >= avail {
        Ok(Seq::empty())
    } else {
        match canon_desc(mem, layout, index) {
            Err(e) => Err(e),
            Ok(head) => if head.id >= layout.descs() {
                desc_error(index, DescError::IdOutOfRange)
            } else if seen.contains(head.id) {
                desc_error(index, DescError::DuplicateId)
            } else {
                proof {
                    lemma_canon_chain_len(mem, layout, index, avail, head.id, false, accept);
                }
                match canon_chain(mem, layout, index, avail, head.id, false, accept) {
                    Err(e) => Err(e),
                    Ok(elems) => match canon_chains(
                        mem,
                        layout,
                        index + elems.len(),
                        avail,
                        seen.insert(head.id),
                        accept,
                    ) {
                        Ok(rest) => Ok(seq![(head.id, elems)] + rest),
                        Err(e) => Err(e),
                    },
                }
            },
        }
    }
}

/// The first descriptor from `index` on that is not zero.
pub open spec fn first_nonzero(mem: MemView, layout: Layout, index: int) -> Option<int>
    decreases layout.descs() - index,
{
    if index >= layout.descs() {
        None
    } else if desc::desc_in(mem, layout.desc(index)) != (Descriptor {
        addr: 0,
        len: 0,
        id: 0,
        flags: 0,
    }) {
        Some(index)
    } else {
        first_nonzero(mem, layout, index + 1)
    }
}

/// Whether the event suppression at an address has the canonical value.
pub open spec fn canon_event(mem: MemView, addr: int) -> bool {
    desc::event_in(mem, addr) == (EventSuppression { off_wrap: 0, flags: EVENT_ENABLE })
}

/// The chains of a canonical image, or the first thing that keeps it from being
/// one.
pub open spec fn canon_image(
    mem: MemView,
    layout: Layout,
    avail: int,
    accept: spec_fn(u16, BufferElement) -> bool,
) -> Result<Seq<(u16, Seq<BufferElement>)>, ImageError> {
    if avail > layout.descs() {
        Err(
            ImageError::DescCount {
                available: avail as usize,
                capacity: layout.descs() as usize,
            },
        )
    } else if !canon_event(mem, layout.drv_evt()) {
        Err(ImageError::Event { addr: layout.drv_evt() as u64 })
    } else if !canon_event(mem, layout.dev_evt()) {
        Err(ImageError::Event { addr: layout.dev_evt() as u64 })
    } else {
        match canon_chains(mem, layout, 0, avail, Set::empty(), accept) {
            Err(e) => Err(e),
            Ok(chains) => match first_nonzero(mem, layout, avail) {
                Some(index) => desc_error(index, DescError::ExpectedZero),
                None => Ok(chains),
            },
        }
    }
}

/// What the chains of a list hold.
pub open spec fn chain_views(chains: Seq<CanonChain>) -> Seq<(u16, Seq<BufferElement>)> {
    chains.map_values(|c: CanonChain| c@)
}

/// The buffer that the descriptor at `index` names.
pub open spec fn elem_at(mem: MemView, layout: Layout, index: int) -> BufferElement {
    super::element_of(desc::desc_in(mem, layout.desc(index)))
}

/// How many of the first descriptors a validation with this outcome asked about.
pub open spec fn asked(
    outcome: Result<Seq<(u16, Seq<BufferElement>)>, ImageError>,
    avail: int,
) -> int {
    match outcome {
        Ok(_) => avail,
        Err(ImageError::Buffer { index, .. }) => index + 1,
        Err(ImageError::Desc { index, reason }) => if reason == DescError::ExpectedZero {
            avail
        } else if reason == DescError::ChainContinues {
            index + 1
        } else {
            index as int
        },
        Err(_) => 0,
    }
}

/// `outcome` is that of an image whose buffers are accepted or rejected as a callback
/// answered when it was asked.
pub open spec fn decided_by<F: FnMut(u16, BufferElement) -> bool>(
    mem: MemView,
    layout: Layout,
    avail: int,
    callback: F,
    outcome: Result<Seq<(u16, Seq<BufferElement>)>, ImageError>,
) -> bool {
    exists|accept: spec_fn(u16, BufferElement) -> bool|
        {
            &&& #[trigger] canon_image(mem, layout, avail, accept) == outcome
            &&& forall|i: int|
                0 <= i < asked(outcome, avail) ==> call_ensures(
                    callback,
                    (i as u16, #[trigger] elem_at(mem, layout, i)),
                    accept(i as u16, elem_at(mem, layout, i)),
                )
        }
}

/// The first `n` buffers are accepted.
spec fn accepts_first(
    mem: MemView,
    layout: Layout,
    n: int,
    accept: spec_fn(u16, BufferElement) -> bool,
) -> bool {
    forall|i: int| 0 <= i < n ==> accept(i as u16, #[trigger] elem_at(mem, layout, i))
}

/// Whoever accepts the buffers before `pos` finds `chains` there, and the others behind.
spec fn chains_found(
    mem: MemView,
    layout: Layout,
    avail: int,
    pos: int,
    seen: Set<u16>,
    chains: Seq<(u16, Seq<BufferElement>)>,
) -> bool {
    forall|accept: spec_fn(u16, BufferElement) -> bool|
        accepts_first(mem, layout, pos, accept) ==> #[trigger] canon_chains(
            mem,
            layout,
            0,
            avail,
            Set::empty(),
            accept,
        ) == match canon_chains(mem, layout, pos, avail, seen, accept) {
            Ok(rest) => Ok(chains + rest),
            Err(e) => Err(e),
        }
}

/// Whoever accepts the buffers before `pos` finds `elems` from `first` on, and the others
/// of the chain behind, if there are `more`.
spec fn chain_found(
    mem: MemView,
    layout: Layout,
    avail: int,
    first: int,
    id: u16,
    elems: Seq<BufferElement>,
    writing: bool,
    more: bool,
) -> bool {
    let pos = first + elems.len();
    forall|accept: spec_fn(u16, BufferElement) -> bool|
        accepts_first(mem, layout, pos, accept) ==> #[trigger] canon_chain(
            mem,
            layout,
            first,
            avail,
            id,
            false,
            accept,
        ) == if more {
            match canon_chain(mem, layout, pos, avail, id, writing, accept) {
                Ok(rest) => Ok(elems + rest),
                Err(e) => Err(e),
            }
        } else {
            Ok(elems)
        }
}

proof fn lemma_chains_begin(mem: MemView, layout: Layout, avail: int)
    ensures
        chains_found(mem, layout, avail, 0, Set::empty(), Seq::empty()),
{
    let none = Seq::<(u16, Seq<BufferElement>)>::empty();
    assert forall|accept: spec_fn(u16, BufferElement) -> bool| #[trigger]
        canon_chains(mem, layout, 0, avail, Set::empty(), accept) == match canon_chains(
            mem,
            layout,
            0,
            avail,
            Set::empty(),
            accept,
        ) {
            Ok(rest) => Ok(none + rest),
            Err(e) => Err(e),
        } by {
        if let Ok(rest) = canon_chains(mem, layout, 0, avail, Set::empty(), accept) {
            assert(none + rest =~= rest);
        }
    }
}

proof fn lemma_chain_begins(mem: MemView, layout: Layout, avail: int, first: int, id: u16)
    ensures
        chain_found(mem, layout, avail, first, id, Seq::empty(), false, true),
{
    let none = Seq::<BufferElement>::empty();
    assert forall|accept: spec_fn(u16, BufferElement) -> bool| #[trigger]
        canon_chain(mem, layout, first, avail, id, false, accept) == match canon_chain(
            mem,
            layout,
            first,
            avail,
            id,
            false,
            accept,
        ) {
            Ok(rest) => Ok(none + rest),
            Err(e) => Err(e),
        } by {
        if let Ok(rest) = canon_chain(mem, layout, first, avail, id, false, accept) {
            assert(none + rest =~= rest);
        }
    }
}

/// One more accepted buffer of a chain.
proof fn lemma_chain_grows(
    mem: MemView,
    layout: Layout,
    avail: int,
    first: int,
    id: u16,
    elems: Seq<BufferElement>,
    writing: bool,
    more: bool,
)
    requires
        0 <= first,
        chain_found(mem, layout, avail, first, id, elems, writing, true),
        ({
            let pos = first + elems.len();
            let item = desc::desc_in(mem, layout.desc(pos));
            let elem = elem_at(mem, layout, pos);
            &&& canon_desc(mem, layout, pos) is Ok
            &&& item.id == id
            &&& !(!elem.writable && writing)
            &&& more <==> item.flags & DESC_NEXT != 0
            &&& more ==> pos + 1 < avail
        }),
    ensures
        chain_found(
            mem,
            layout,
            avail,
            first,
            id,
            elems.push(elem_at(mem, layout, first + elems.len())),
            elem_at(mem, layout, first + elems.len()).writable,
            more,
        ),
{
    let pos = first + elems.len();
    let elem = elem_at(mem, layout, pos);
    let longer = elems.push(elem);
    assert forall|accept: spec_fn(u16, BufferElement) -> bool|
        accepts_first(mem, layout, pos + 1, accept) implies #[trigger] canon_chain(
        mem,
        layout,
        first,
        avail,
        id,
        false,
        accept,
    ) == if more {
        match canon_chain(mem, layout, pos + 1, avail, id, elem.writable, accept) {
            Ok(rest) => Ok(longer + rest),
            Err(e) => Err(e),
        }
    } else {
        Ok(longer)
    } by {
        assert(accepts_first(mem, layout, pos, accept));
        assert(accept(pos as u16, elem_at(mem, layout, pos)));
        assert(elems + seq![elem] =~= longer);
        if more {
            if let Ok(rest) = canon_chain(mem, layout, pos + 1, avail, id, elem.writable, accept) {
                assert(elems + (seq![elem] + rest) =~= longer + rest);
            }
        }
    }
}

/// A chain that ends the list so far.
proof fn lemma_chains_grow(
    mem: MemView,
    layout: Layout,
    avail: int,
    first: int,
    seen: Set<u16>,
    chains: Seq<(u16, Seq<BufferElement>)>,
    id: u16,
    elems: Seq<BufferElement>,
    writing: bool,
)
    requires
        0 <= first < avail,
        chains_found(mem, layout, avail, first, seen, chains),
        canon_desc(mem, layout, first) matches Ok(head) && head.id == id,
        id < layout.descs(),
        !seen.contains(id),
        chain_found(mem, layout, avail, first, id, elems, writing, false),
    ensures
        chains_found(
            mem,
            layout,
            avail,
            first + elems.len(),
            seen.insert(id),
            chains.push((id, elems)),
        ),
{
    let pos = first + elems.len();
    let longer = chains.push((id, elems));
    assert forall|accept: spec_fn(u16, BufferElement) -> bool|
        accepts_first(mem, layout, pos, accept) implies #[trigger] canon_chains(
        mem,
        layout,
        0,
        avail,
        Set::empty(),
        accept,
    ) == match canon_chains(mem, layout, pos, avail, seen.insert(id), accept) {
        Ok(rest) => Ok(longer + rest),
        Err(e) => Err(e),
    } by {
        assert(accepts_first(mem, layout, first, accept));
        assert(canon_chain(mem, layout, first, avail, id, false, accept) == Ok::<
            Seq<BufferElement>,
            ImageError,
        >(elems));
        if let Ok(rest) = canon_chains(mem, layout, pos, avail, seen.insert(id), accept) {
            assert(chains + (seq![(id, elems)] + rest) =~= longer + rest);
        }
    }
}

/// What is found does not depend on whether buffers that are not asked about would be
/// accepted.
pub proof fn law_outcome_depends_on_the_answers_given(
    mem: MemView,
    layout: Layout,
    avail: int,
    a: spec_fn(u16, BufferElement) -> bool,
    b: spec_fn(u16, BufferElement) -> bool,
)
    requires
        layout.wf(),
        0 <= avail,
        forall|i: int|
            0 <= i < asked(canon_image(mem, layout, avail, a), avail) ==> a(
                i as u16,
                #[trigger] elem_at(mem, layout, i),
            ) == b(i as u16, elem_at(mem, layout, i)),
    ensures
        canon_image(mem, layout, avail, a) == canon_image(mem, layout, avail, b),
{
    if avail <= layout.descs() && canon_event(mem, layout.drv_evt()) && canon_event(
        mem,
        layout.dev_evt(),
    ) {
        lemma_chains_depend(mem, layout, 0, avail, Set::empty(), a, b);
    }
}

proof fn lemma_chain_depends(
    mem: MemView,
    layout: Layout,
    index: int,
    avail: int,
    id: u16,
    writing: bool,
    a: spec_fn(u16, BufferElement) -> bool,
    b: spec_fn(u16, BufferElement) -> bool,
)
    requires
        0 <= index < avail <= u16::MAX,
        ({
            let last = match canon_chain(mem, layout, index, avail, id, writing, a) {
                Ok(elems) => index + elems.len(),
                Err(e) => asked(Err(e), avail),
            };
            forall|i: int|
                index <= i < last ==> a(i as u16, #[trigger] elem_at(mem, layout, i)) == b(
                    i as u16,
                    elem_at(mem, layout, i),
                )
        }),
    ensures
        canon_chain(mem, layout, index, avail, id, writing, a) == canon_chain(
            mem,
            layout,
            index,
            avail,
            id,
            writing,
            b,
        ),
        canon_chain(mem, layout, index, avail, id, writing, a) matches Err(e) ==> index <= asked(
            Err(e),
            avail,
        ) <= avail && (e is Desc && e->Desc_reason != DescError::ExpectedZero || e is Buffer),
    decreases avail - index,
{
    let found = canon_chain(mem, layout, index, avail, id, writing, a);
    if let Ok(item) = canon_desc(mem, layout, index) {
        let elem = super::element_of(item);
        assert(elem == elem_at(mem, layout, index));
        if item.id == id && !(!elem.writable && writing) {
            if a(index as u16, elem) && item.flags & DESC_NEXT != 0 && index + 1 < avail {
                let rest = canon_chain(mem, layout, index + 1, avail, id, elem.writable, a);
                if let Ok(elems) = rest {
                    assert((seq![elem] + elems).len() == elems.len() + 1);
                }
                lemma_chain_depends(mem, layout, index + 1, avail, id, elem.writable, a, b);
            }
        }
    }
}

proof fn lemma_chains_depend(
    mem: MemView,
    layout: Layout,
    index: int,
    avail: int,
    seen: Set<u16>,
    a: spec_fn(u16, BufferElement) -> bool,
    b: spec_fn(u16, BufferElement) -> bool,
)
    requires
        0 <= index <= avail <= u16::MAX,
        forall|i: int|
            index <= i < asked(canon_chains(mem, layout, index, avail, seen, a), avail) ==> a(
                i as u16,
                #[trigger] elem_at(mem, layout, i),
            ) == b(i as u16, elem_at(mem, layout, i)),
    ensures
        canon_chains(mem, layout, index, avail, seen, a) == canon_chains(
            mem,
            layout,
            index,
            avail,
            seen,
            b,
        ),
        index <= asked(canon_chains(mem, layout, index, avail, seen, a), avail),
    decreases avail - index,
{
    if index < avail {
        if let Ok(head) = canon_desc(mem, layout, index) {
            if head.id < layout.descs() && !seen.contains(head.id) {
                let found = canon_chain(mem, layout, index, avail, head.id, false, a);
                lemma_canon_chain_len(mem, layout, index, avail, head.id, false, a);
                if let Ok(elems) = found {
                    let next = index + elems.len();
                    let rest = canon_chains(mem, layout, next, avail, seen.insert(head.id), a);
                    lemma_chains_reach(mem, layout, next, avail, seen.insert(head.id), a);
                    lemma_chain_depends(mem, layout, index, avail, head.id, false, a, b);
                    lemma_chains_depend(mem, layout, next, avail, seen.insert(head.id), a, b);
                } else {
                    lemma_chain_depends(mem, layout, index, avail, head.id, false, a, b);
                }
            }
        }
    }
}

/// A walk from `index` asks about no descriptor twice.
proof fn lemma_chains_reach(
    mem: MemView,
    layout: Layout,
    index: int,
    avail: int,
    seen: Set<u16>,
    accept: spec_fn(u16, BufferElement) -> bool,
)
    requires
        0 <= index <= avail <= u16::MAX,
    ensures
        index <= asked(canon_chains(mem, layout, index, avail, seen, accept), avail),
    decreases avail - index,
{
    if index < avail {
        if let Ok(head) = canon_desc(mem, layout, index) {
            if head.id < layout.descs() && !seen.contains(head.id) {
                lemma_canon_chain_len(mem, layout, index, avail, head.id, false, accept);
                lemma_chain_depends(mem, layout, index, avail, head.id, false, accept, accept);
                if let Ok(elems) = canon_chain(
                    mem,
                    layout,
                    index,
                    avail,
                    head.id,
                    false,
                    accept,
                ) {
                    lemma_chains_reach(
                        mem,
                        layout,
                        index + elems.len(),
                        avail,
                        seen.insert(head.id),
                        accept,
                    );
                }
            }
        }
    }
}

/// Validate a packed ring while neither peer can modify it.
///
/// The first `avail_descs` descriptors must form complete available chains
/// beginning at descriptor zero. Every remaining descriptor must be zeroed,
/// and both event-suppression structures must be the canonical enabled value.
/// `validate_buf` supplies integration-specific address, length, and
/// direction bounds without embedding them in the ring implementation. It is
/// asked about each descriptor once, in order, up to the first that it rejects.
///
/// The returned chains preserve descriptor IDs and chain boundaries for
/// cross-checking against producer and pool ownership.
///
/// # Errors
///
/// Returns [`ImageError`] if event state is not normalized, descriptor
/// structure is malformed, an unused descriptor is not zero, a buffer is
/// rejected by `validate_buf`, or shared memory cannot be read.
pub fn validate_canon_image<M, F>(
    mem: &M,
    layout: Layout,
    avail_descs: usize,
    validate_buf: F,
) -> (chains: Result<Vec<CanonChain>, ImageError>) where
    M: MemOps,
    F: FnMut(u16, BufferElement) -> bool,

    requires
        layout.wf(),
        forall|index: u16, elem: BufferElement| call_requires(validate_buf, (index, elem)),
    ensures
        chains matches Ok(c) ==> {
            &&& decided_by(
                mem.mem(),
                layout,
                avail_descs as int,
                validate_buf,
                Ok(chain_views(c@)),
            )
            &&& forall|i: int| 0 <= i < c@.len() ==> (#[trigger] c@[i]).wf()
        },
        chains matches Err(e) ==> (e matches ImageError::Ring(r) && r is MemError) || decided_by(
            mem.mem(),
            layout,
            avail_descs as int,
            validate_buf,
            Err(e),
        ),
        layout.mapped_in(mem.mem()) ==> !(chains matches Err(ImageError::Ring(_))),
{
    let ghost view = mem.mem();
    let ghost avail = avail_descs as int;
    let ghost every = |index: u16, elem: BufferElement| true;
    let ghost image = canon_image(view, layout, avail, every);
    let mut ask = validate_buf;
    let cap: usize = layout.desc_table_len() as usize;
    if avail_descs > cap {
        return Err(ImageError::DescCount { available: avail_descs, capacity: cap });
    }
    let drv: u64 = layout.drv_evt_addr();
    let event = match read_event(mem, drv) {
        Ok(event) => event,
        Err(_) => return Err(
            ImageError::Ring(RingError::MemError { op: MemOp::ReadEvent, addr: drv }),
        ),
    };
    if event != EventSuppression::new(0, EVENT_ENABLE) {
        return Err(ImageError::Event { addr: drv });
    }
    let dev: u64 = layout.dev_evt_addr();
    let event = match read_event(mem, dev) {
        Ok(event) => event,
        Err(_) => return Err(
            ImageError::Ring(RingError::MemError { op: MemOp::ReadEvent, addr: dev }),
        ),
    };
    if event != EventSuppression::new(0, EVENT_ENABLE) {
        return Err(ImageError::Event { addr: dev });
    }
    let mut seen_ids = bits::bits_with_capacity(cap);
    let ghost mut seen: Set<u16> = Set::empty();
    let mut chains: Vec<CanonChain> = Vec::new();
    let mut pos: usize = 0;
    proof {
        assert(chain_views(chains@) =~= Seq::empty());
        lemma_chains_begin(view, layout, avail);
    }
    while pos < avail_descs
        invariant
            layout.wf(),
            cap == layout.descs(),
            view == mem.mem(),
            avail == avail_descs,
            avail_descs <= cap,
            pos <= avail_descs,
            every == (|index: u16, elem: BufferElement| true),
            image == canon_image(view, layout, avail, every),
            canon_event(view, layout.drv_evt()),
            canon_event(view, layout.dev_evt()),
            ask == validate_buf,
            forall|index: u16, elem: BufferElement| call_requires(validate_buf, (index, elem)),
            forall|i: int|
                0 <= i < pos ==> call_ensures(
                    validate_buf,
                    (i as u16, #[trigger] elem_at(view, layout, i)),
                    true,
                ),
            bits::bit_states(seen_ids).len() == cap,
            forall|id: u16|
                id < cap ==> bits::bit_states(seen_ids)[id as int] == seen.contains(id),
            forall|i: int| 0 <= i < chains@.len() ==> (#[trigger] chains@[i]).wf(),
            chains_found(view, layout, avail, pos as int, seen, chain_views(chains@)),
        decreases avail_descs - pos,
    {
        let ghost first = pos as int;
        let ghost found = chain_views(chains@);
        proof {
            assert(accepts_first(view, layout, first, every));
        }
        let head = match read_canon_avail_desc(mem, &layout, pos as u16) {
            Ok(head) => head,
            Err(err) => {
                proof {
                    if canon_desc(view, layout, first) == Err::<Descriptor, ImageError>(err) {
                        lemma_desc_error_place(view, layout, first);
                        assert(image == Err::<Seq<(u16, Seq<BufferElement>)>, ImageError>(err));
                    }
                }
                return Err(err);
            },
        };
        let id: u16 = head.id;
        if id as usize >= cap {
            return Err(
                ImageError::Desc { index: pos as u16, reason: DescError::IdOutOfRange },
            );
        }
        if bits::bits_contain(&seen_ids, id as usize) {
            return Err(ImageError::Desc { index: pos as u16, reason: DescError::DuplicateId });
        }
        bits::bits_insert(&mut seen_ids, id as usize);
        let mut elems: Vec<BufferElement> = Vec::new();
        let mut split: usize = 0;
        let mut more: bool = true;
        proof {
            assert(elems@ =~= Seq::empty());
            lemma_chain_begins(view, layout, avail, first, id);
        }
        while more
            invariant
                layout.wf(),
                cap == layout.descs(),
                view == mem.mem(),
                avail == avail_descs,
                avail_descs <= cap,
                every == (|index: u16, elem: BufferElement| true),
                image == canon_image(view, layout, avail, every),
                canon_event(view, layout.drv_evt()),
                canon_event(view, layout.dev_evt()),
                ask == validate_buf,
                forall|index: u16, elem: BufferElement| call_requires(validate_buf, (index, elem)),
                forall|i: int|
                    0 <= i < pos ==> call_ensures(
                        validate_buf,
                        (i as u16, #[trigger] elem_at(view, layout, i)),
                        true,
                    ),
                canon_desc(view, layout, first) matches Ok(head) && head.id == id,
                id < layout.descs(),
                !seen.contains(id),
                chains_found(view, layout, avail, first, seen, found),
                0 <= first < avail,
                pos == first + elems@.len(),
                pos <= avail_descs,
                more ==> pos < avail_descs,
                super::readable_first(elems@, split as int),
                chain_found(
                    view,
                    layout,
                    avail,
                    first,
                    id,
                    elems@,
                    split < elems@.len(),
                    more,
                ),
                !more ==> elems@.len() > 0,
            decreases avail_descs - pos,
        {
            let index: u16 = pos as u16;
            let ghost before = elems@;
            let ghost writing = split < elems@.len();
            proof {
                assert(accepts_first(view, layout, pos as int, every));
                assert(accepts_first(view, layout, first, every));
            }
            let item = match read_canon_avail_desc(mem, &layout, index) {
                Ok(item) => item,
                Err(err) => {
                    proof {
                        if canon_desc(view, layout, pos as int) == Err::<Descriptor, ImageError>(
                            err,
                        ) {
                            lemma_desc_error_place(view, layout, pos as int);
                            assert(image == Err::<Seq<(u16, Seq<BufferElement>)>, ImageError>(err));
                        }
                    }
                    return Err(err);
                },
            };
            if item.id != id {
                return Err(ImageError::Desc { index, reason: DescError::IdMismatch });
            }
            let elem = BufferElement::from_desc(&item);
            proof {
                assert(elem == elem_at(view, layout, pos as int));
            }
            if !elem.writable && split != elems.len() {
                return Err(ImageError::Desc { index, reason: DescError::ReadableAfterWritable });
            }
            if !ask(index, elem) {
                proof {
                    let others = |i: u16, e: BufferElement| i != index;
                    assert(accepts_first(view, layout, pos as int, others));
                    assert(accepts_first(view, layout, first, others));
                    assert(canon_image(view, layout, avail, others) == Err::<
                        Seq<(u16, Seq<BufferElement>)>,
                        ImageError,
                    >(ImageError::Buffer { index, addr: elem.addr, len: elem.len }));
                }
                return Err(ImageError::Buffer { index, addr: elem.addr, len: elem.len });
            }
            if !elem.writable {
                split = split + 1;
            }
            elems.push(elem);
            pos = pos + 1;
            more = item.flags & DESC_NEXT != 0;
            if more && pos >= avail_descs {
                return Err(ImageError::Desc { index, reason: DescError::ChainContinues });
            }
            proof {
                lemma_chain_grows(view, layout, avail, first, id, before, writing, more);
            }
        }
        let ghost item = (id, elems@);
        proof {
            lemma_chains_grow(
                view,
                layout,
                avail,
                first,
                seen,
                found,
                id,
                elems@,
                split < elems@.len(),
            );
        }
        chains.push(CanonChain { id, inner: BufferChain::from_parts(elems, split) });
        proof {
            seen = seen.insert(id);
            assert(chain_views(chains@) =~= found.push(item));
        }
    }
    proof {
        assert(accepts_first(view, layout, avail, every));
        assert(chain_views(chains@) + Seq::empty() =~= chain_views(chains@));
    }
    let zero = Descriptor::zeroed();
    let ghost tail = first_nonzero(view, layout, avail);
    while pos < cap
        invariant
            layout.wf(),
            cap == layout.descs(),
            view == mem.mem(),
            avail == avail_descs,
            pos <= cap,
            avail_descs <= cap,
            zero == (Descriptor { addr: 0, len: 0, id: 0, flags: 0 }),
            image == canon_image(view, layout, avail, every),
            canon_event(view, layout.drv_evt()),
            canon_event(view, layout.dev_evt()),
            every == (|index: u16, elem: BufferElement| true),
            forall|i: int|
                0 <= i < avail ==> call_ensures(
                    validate_buf,
                    (i as u16, #[trigger] elem_at(view, layout, i)),
                    true,
                ),
            canon_chains(view, layout, 0, avail, Set::empty(), every) == Ok::<
                Seq<(u16, Seq<BufferElement>)>,
                ImageError,
            >(chain_views(chains@)),
            tail == first_nonzero(view, layout, avail),
            tail == first_nonzero(view, layout, pos as int),
        decreases cap - pos,
    {
        let index: u16 = pos as u16;
        let addr: u64 = match layout.desc_addr(index) {
            Some(addr) => addr,
            None => return Err(
                ImageError::Ring(RingError::MemError { op: MemOp::ReadDesc, addr: 0 }),
            ),
        };
        let item = match read_desc(mem, addr) {
            Ok(item) => item,
            Err(_) => return Err(
                ImageError::Ring(RingError::MemError { op: MemOp::ReadDesc, addr }),
            ),
        };
        if item != zero {
            return Err(ImageError::Desc { index, reason: DescError::ExpectedZero });
        }
        pos = pos + 1;
    }
    Ok(chains)
}

/// A descriptor that cannot stand in a canonical prefix is reported at its place.
proof fn lemma_desc_error_place(mem: MemView, layout: Layout, index: int)
    ensures
        canon_desc(mem, layout, index) matches Err(e) ==> {
            &&& e matches ImageError::Desc { index: at, reason }
            &&& at == index as u16
            &&& reason != DescError::ExpectedZero
            &&& reason != DescError::ChainContinues
        },
{
}

fn read_canon_avail_desc<M: MemOps>(mem: &M, layout: &Layout, index: u16) -> (item: Result<
    Descriptor,
    ImageError,
>)
    requires
        layout.wf(),
        index < layout.descs(),
    ensures
        item matches Ok(d) ==> canon_desc(mem.mem(), *layout, index as int) == Ok::<
            Descriptor,
            ImageError,
        >(d),
        item matches Err(e) ==> (e matches ImageError::Ring(r) && r is MemError) || canon_desc(
            mem.mem(),
            *layout,
            index as int,
        ) == Err::<Descriptor, ImageError>(e),
        layout.mapped_in(mem.mem()) ==> !(item matches Err(ImageError::Ring(_))),
{
    let addr: u64 = match layout.desc_addr(index) {
        Some(addr) => addr,
        None => return Err(ImageError::Ring(RingError::MemError { op: MemOp::ReadDesc, addr: 0 })),
    };
    let item = match read_desc(mem, addr) {
        Ok(item) => item,
        Err(_) => return Err(ImageError::Ring(RingError::MemError { op: MemOp::ReadDesc, addr })),
    };
    if item.flags & DESC_UNKNOWN != 0 {
        return Err(ImageError::Desc { index, reason: DescError::UnknownFlags });
    }
    if item.flags & DESC_INDIRECT != 0 {
        return Err(ImageError::Desc { index, reason: DescError::Indirect });
    }
    if !desc::is_avail(item.flags, true) {
        return Err(ImageError::Desc { index, reason: DescError::NotAvailable });
    }
    Ok(item)
}

/// What is wrong with the descriptor at `index` of an image with `avail` available ones.
pub open spec fn at_fault(
    mem: MemView,
    layout: Layout,
    avail: int,
    index: int,
    reason: DescError,
) -> bool {
    let item = desc::desc_in(mem, layout.desc(index));
    let before = desc::desc_in(mem, layout.desc(index - 1));
    if reason == DescError::ExpectedZero {
        avail <= index < layout.descs() && item != (Descriptor { addr: 0, len: 0, id: 0, flags: 0 })
    } else {
        0 <= index < avail && match reason {
            DescError::ExpectedZero => false,
            DescError::UnknownFlags => item.flags & DESC_UNKNOWN != 0,
            DescError::NotAvailable => !desc::avail_in(item.flags, true),
            DescError::Indirect => item.flags & DESC_INDIRECT != 0,
            DescError::ChainContinues => index + 1 == avail && item.flags & DESC_NEXT != 0,
            DescError::IdOutOfRange => item.id >= layout.descs(),
            DescError::IdMismatch => index > 0 && item.id != before.id,
            DescError::DuplicateId => exists|j: int|
                0 <= j < index && (#[trigger] desc::desc_in(mem, layout.desc(j))).id == item.id,
            DescError::ReadableAfterWritable => index > 0 && item.flags & desc::DESC_WRITE == 0
                && before.flags & desc::DESC_WRITE != 0,
        }
    }
}

/// What is wrong with an image.
pub open spec fn blamed(
    mem: MemView,
    layout: Layout,
    avail: int,
    accept: spec_fn(u16, BufferElement) -> bool,
    error: ImageError,
) -> bool {
    match error {
        ImageError::Ring(_) => false,
        ImageError::DescCount { available, capacity } => available == avail && capacity
            == layout.descs() && available > capacity,
        ImageError::Event { addr } => (addr == layout.drv_evt() || addr == layout.dev_evt())
            && desc::event_in(mem, addr as int) != (EventSuppression { off_wrap: 0, flags: 0 }),
        ImageError::Desc { index, reason } => at_fault(mem, layout, avail, index as int, reason),
        ImageError::Buffer { index, addr, len } => {
            let elem = elem_at(mem, layout, index as int);
            index < avail && addr == elem.addr && len == elem.len && !accept(index, elem)
        },
    }
}

proof fn lemma_chain_blamed(
    mem: MemView,
    layout: Layout,
    index: int,
    avail: int,
    id: u16,
    writing: bool,
    accept: spec_fn(u16, BufferElement) -> bool,
    head: int,
)
    requires
        0 <= head <= index < avail <= layout.descs(),
        index == head ==> !writing && desc::desc_in(mem, layout.desc(index)).id == id,
        index > head ==> {
            let before = desc::desc_in(mem, layout.desc(index - 1));
            before.id == id && writing == (before.flags & desc::DESC_WRITE != 0)
        },
    ensures
        canon_chain(mem, layout, index, avail, id, writing, accept) matches Err(error) ==> blamed(
            mem,
            layout,
            avail,
            accept,
            error,
        ),
    decreases avail - index,
{
    let item = desc::desc_in(mem, layout.desc(index));
    if index + 1 < avail && item.id == id {
        assert(desc::desc_in(mem, layout.desc(index + 1 - 1)) == item);
        lemma_chain_blamed(
            mem,
            layout,
            index + 1,
            avail,
            id,
            super::element_of(item).writable,
            accept,
            head,
        );
    }
}

proof fn lemma_chains_blamed(
    mem: MemView,
    layout: Layout,
    index: int,
    avail: int,
    seen: Set<u16>,
    accept: spec_fn(u16, BufferElement) -> bool,
)
    requires
        0 <= index <= avail <= layout.descs(),
        forall|id: u16| #[trigger]
            seen.contains(id) ==> exists|j: int|
                0 <= j < index && (#[trigger] desc::desc_in(mem, layout.desc(j))).id == id,
    ensures
        canon_chains(mem, layout, index, avail, seen, accept) matches Err(error) ==> blamed(
            mem,
            layout,
            avail,
            accept,
            error,
        ),
    decreases avail - index,
{
    if index < avail {
        if let Ok(head) = canon_desc(mem, layout, index) {
            if head.id < layout.descs() && !seen.contains(head.id) {
                lemma_canon_chain_len(mem, layout, index, avail, head.id, false, accept);
                lemma_chain_blamed(mem, layout, index, avail, head.id, false, accept, index);
                if let Ok(elems) = canon_chain(mem, layout, index, avail, head.id, false, accept) {
                    let more = seen.insert(head.id);
                    let next = index + elems.len();
                    assert forall|id: u16| #[trigger] more.contains(id) implies exists|j: int|
                        0 <= j < next && (#[trigger] desc::desc_in(mem, layout.desc(j))).id
                            == id by {
                        if id == head.id {
                            assert(desc::desc_in(mem, layout.desc(index)).id == id);
                        } else {
                            let j = choose|j: int|
                                0 <= j < index && (#[trigger] desc::desc_in(
                                    mem,
                                    layout.desc(j),
                                )).id == id;
                            assert(desc::desc_in(mem, layout.desc(j)).id == id);
                        }
                    }
                    lemma_chains_blamed(mem, layout, next, avail, more, accept);
                }
            }
        }
    }
}

/// The first descriptor that is not zero is one, and those before it are zero.
proof fn lemma_first_nonzero(mem: MemView, layout: Layout, index: int)
    ensures
        ({
            let zero = Descriptor { addr: 0, len: 0, id: 0, flags: 0 };
            match first_nonzero(mem, layout, index) {
                Some(at) => index <= at < layout.descs() && desc::desc_in(mem, layout.desc(at))
                    != zero,
                None => forall|i: int|
                    index <= i < layout.descs() ==> #[trigger] desc::desc_in(mem, layout.desc(i))
                        == zero,
            }
        }),
    decreases layout.descs() - index,
{
    if index < layout.descs() {
        lemma_first_nonzero(mem, layout, index + 1);
    }
}

/// An image that is refused is refused for something that is wrong with it, at the place
/// that is told.
pub proof fn law_refused_image_is_at_fault(
    mem: MemView,
    layout: Layout,
    avail: int,
    accept: spec_fn(u16, BufferElement) -> bool,
)
    requires
        layout.wf(),
        0 <= avail <= usize::MAX,
    ensures
        canon_image(mem, layout, avail, accept) matches Err(error) ==> blamed(
            mem,
            layout,
            avail,
            accept,
            error,
        ),
{
    if avail <= layout.descs() {
        lemma_chains_blamed(mem, layout, 0, avail, Set::empty(), accept);
        lemma_first_nonzero(mem, layout, avail);
    }
}

/// An image that is accepted has both events enabled and nothing behind its available
/// descriptors.
pub proof fn law_accepted_image_ends_with_its_chains(
    mem: MemView,
    layout: Layout,
    avail: int,
    accept: spec_fn(u16, BufferElement) -> bool,
    index: int,
)
    requires
        canon_image(mem, layout, avail, accept) is Ok,
    ensures
        avail <= layout.descs(),
        desc::event_in(mem, layout.drv_evt()).flags == 0,
        desc::event_in(mem, layout.dev_evt()).flags == 0,
        avail <= index < layout.descs() ==> desc::desc_in(mem, layout.desc(index)) == (
        Descriptor { addr: 0, len: 0, id: 0, flags: 0 }),
{
    lemma_first_nonzero(mem, layout, avail);
}

/// The chains of an accepted image take up its available descriptors, one after the other.
pub proof fn law_chains_take_up_the_available_descriptors(
    mem: MemView,
    layout: Layout,
    index: int,
    avail: int,
    seen: Set<u16>,
    accept: spec_fn(u16, BufferElement) -> bool,
)
    requires
        index <= avail,
        canon_chains(mem, layout, index, avail, seen, accept) is Ok,
    ensures
        ({
            let chains = canon_chains(mem, layout, index, avail, seen, accept)->Ok_0;
            &&& counted(chains) == avail - index
            &&& forall|c: int|
                0 <= c < chains.len() ==> (#[trigger] chains[c]).1.len() > 0 && chains[c].0
                    < layout.descs() && !seen.contains(chains[c].0)
            &&& forall|a: int, b: int|
                0 <= a < b < chains.len() ==> (#[trigger] chains[a]).0 != (#[trigger] chains[b]).0
        }),
    decreases avail - index,
{
    if index < avail {
        let head = canon_desc(mem, layout, index)->Ok_0;
        lemma_canon_chain_len(mem, layout, index, avail, head.id, false, accept);
        let elems = canon_chain(mem, layout, index, avail, head.id, false, accept)->Ok_0;
        let next = index + elems.len();
        let more = seen.insert(head.id);
        law_chains_take_up_the_available_descriptors(mem, layout, next, avail, more, accept);
        let rest = canon_chains(mem, layout, next, avail, more, accept)->Ok_0;
        let chains = canon_chains(mem, layout, index, avail, seen, accept)->Ok_0;
        assert(chains == seq![(head.id, elems)] + rest);
        assert(chains.drop_first() =~= rest);
        assert forall|c: int| 0 <= c < chains.len() implies (#[trigger] chains[c]).1.len() > 0
            && chains[c].0 < layout.descs() && !seen.contains(chains[c].0) by {
            if c > 0 {
                assert(chains[c] == rest[c - 1]);
                assert(!more.contains(rest[c - 1].0));
            }
        }
        assert forall|a: int, b: int| 0 <= a < b < chains.len() implies (#[trigger] chains[a]).0
            != (#[trigger] chains[b]).0 by {
            assert(chains[b] == rest[b - 1]);
            if a > 0 {
                assert(chains[a] == rest[a - 1]);
            } else {
                assert(!more.contains(rest[b - 1].0));
            }
        }
    }
}

/// The descriptors that chains hold together.
pub open spec fn counted(chains: Seq<(u16, Seq<BufferElement>)>) -> int
    decreases chains.len(),
{
    if chains.len() == 0 {
        0
    } else {
        chains[0].1.len() + counted(chains.drop_first())
    }
}

/// The descriptors of an accepted chain are available in the first wrap round, with flags that
/// are known and no table behind them; they share one identifier, each but the last continues
/// the chain, readable ones come first, and each buffer was accepted.
pub proof fn law_accepted_chain_is_in_order(
    mem: MemView,
    layout: Layout,
    index: int,
    avail: int,
    id: u16,
    writing: bool,
    accept: spec_fn(u16, BufferElement) -> bool,
    k: int,
)
    requires
        index < avail,
        canon_chain(mem, layout, index, avail, id, writing, accept) matches Ok(elems) && 0 <= k
            < elems.len(),
    ensures
        ({
            let elems = canon_chain(mem, layout, index, avail, id, writing, accept)->Ok_0;
            let item = desc::desc_in(mem, layout.desc(index + k));
            &&& elems[k] == elem_at(mem, layout, index + k)
            &&& item.id == id
            &&& item.flags & DESC_UNKNOWN == 0
            &&& item.flags & DESC_INDIRECT == 0
            &&& desc::avail_in(item.flags, true)
            &&& accept((index + k) as u16, elems[k])
            &&& item.flags & DESC_NEXT != 0 <==> k + 1 < elems.len()
            &&& k == 0 && writing ==> elems[k].writable
            &&& k > 0 && elems[k - 1].writable ==> elems[k].writable
        }),
    decreases k,
{
    let elems = canon_chain(mem, layout, index, avail, id, writing, accept)->Ok_0;
    let item = desc::desc_in(mem, layout.desc(index));
    let elem = super::element_of(item);
    if item.flags & DESC_NEXT != 0 {
        let rest = canon_chain(mem, layout, index + 1, avail, id, elem.writable, accept)->Ok_0;
        assert(elems == seq![elem] + rest);
        lemma_canon_chain_len(mem, layout, index + 1, avail, id, elem.writable, accept);
        if k > 0 {
            law_accepted_chain_is_in_order(
                mem,
                layout,
                index + 1,
                avail,
                id,
                elem.writable,
                accept,
                k - 1,
            );
            assert(elems[k] == rest[k - 1]);
            if k > 1 {
                assert(elems[k - 1] == rest[k - 2]);
            }
        }
    }
}

/// Every available descriptor of an accepted image is in order, and the last of them ends its
/// chain.
pub proof fn law_accepted_descriptors_are_in_order(
    mem: MemView,
    layout: Layout,
    index: int,
    avail: int,
    seen: Set<u16>,
    accept: spec_fn(u16, BufferElement) -> bool,
    at: int,
)
    requires
        index <= at < avail,
        canon_chains(mem, layout, index, avail, seen, accept) is Ok,
    ensures
        ({
            let item = desc::desc_in(mem, layout.desc(at));
            &&& item.id < layout.descs()
            &&& item.flags & DESC_UNKNOWN == 0
            &&& item.flags & DESC_INDIRECT == 0
            &&& desc::avail_in(item.flags, true)
            &&& accept(at as u16, elem_at(mem, layout, at))
            &&& at + 1 == avail ==> item.flags & DESC_NEXT == 0
        }),
    decreases avail - index,
{
    let head = canon_desc(mem, layout, index)->Ok_0;
    lemma_canon_chain_len(mem, layout, index, avail, head.id, false, accept);
    let elems = canon_chain(mem, layout, index, avail, head.id, false, accept)->Ok_0;
    if at < index + elems.len() {
        law_accepted_chain_is_in_order(
            mem,
            layout,
            index,
            avail,
            head.id,
            false,
            accept,
            at - index,
        );
    } else {
        law_accepted_descriptors_are_in_order(
            mem,
            layout,
            index + elems.len(),
            avail,
            seen.insert(head.id),
            accept,
            at,
        );
    }
}

} // verus!
