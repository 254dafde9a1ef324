//! Packed virtqueues over shared memory.
//!
//! [`VirtqProducer`] is the driver side, [`VirtqConsumer`] the device side. Both
//! work on memory that the caller passes in, so that one backend can serve
//! several queues.

use vstd::prelude::*;

pub mod access;
pub mod buffer;
pub mod builder;
pub mod consumer;
pub mod desc;
pub mod entries;
pub mod facts;
pub mod inflight;
pub mod laws;
pub mod pool;
pub mod producer;
pub mod ring;
pub mod send;

pub use access::{BufferMap, MemOps};
pub use builder::ChainBuilder;
pub use buffer::{BufferLease, Segments, SegmentsBuf};
pub use consumer::{AckChain, RecvChain, ReplyChain, VirtqConsumer, WritableChain};
pub use desc::{Descriptor, EventSuppression, Layout};
pub use pool::{AllocError, Allocation, SlotLayout, SlotPool};
pub use producer::{SubmitBatch, UsedChain, VirtqProducer};
pub use ring::canonical::{validate_canon_image, CanonChain, DescError, ImageError};
pub use ring::{
    BufferChain, BufferChainBuilder, BufferElement, MemOp, RingConsumer, RingCursor, RingError,
    RingProducer, UsedBuffer,
};

pub use send::SendChain;

verus! {

/// Identifies one submitted chain.
#[derive(Debug, Clone, Copy, PartialEq, Eq, Structural)]
pub struct Token {
    /// Counts submissions.
    pub seq: u32,
    /// Descriptor identifier, reused once the chain completes.
    pub id: u16,
}

/// Failure of a virtqueue operation.
#[derive(Debug, Clone, Copy, PartialEq, Eq, Structural)]
pub enum VirtqError {
    /// The ring is in an invalid state or its memory could not be accessed.
    RingError(RingError),
    /// A buffer could not be allocated or released.
    Alloc(AllocError),
    /// The descriptor chain's format is not recognized.
    BadChain,
    /// More payload than fits.
    PayloadTooLarge {
        recv: usize,
        limit: usize,
    },
    /// Less payload than requested.
    ReceiveTooShort {
        requested: usize,
        remaining: usize,
    },
    /// Payload memory could not be read.
    MemoryReadError,
    /// Payload memory could not be written.
    MemoryWriteError,
    /// The reply does not fit its buffers.
    ReplyTooLarge,
    /// The peer misbehaved, or the operation does not fit the queue's state.
    InvalidState,
    /// The ring or the pool is full for now.
    Backpressure,
    /// Bookkeeping storage could not be allocated.
    Bookkeeping,
    /// The chain has no such readable buffer.
    NoPayloadSegment,
}

/// Size of each lower-tier guest-to-host slot.
pub const G2H_LOWER_SLOT_SIZE: usize = 256;

/// Number of lower-tier guest-to-host slots: they fill one page.
pub const G2H_LOWER_SLOT_COUNT: usize = 16;

impl VirtqError {
    /// The operation can succeed once the peer has made progress.
    pub open spec fn transient(self) -> bool {
        self is Backpressure
    }

    /// Whether the operation can succeed once the peer has made progress.
    pub fn is_transient(&self) -> (transient: bool)
        ensures
            transient == self.transient(),
    {
        match self {
            VirtqError::Backpressure => true,
            _ => false,
        }
    }
}

/// An exhausted pool is backpressure; any other allocation failure is passed on.
pub open spec fn alloc_failure(err: AllocError) -> VirtqError {
    match err {
        AllocError::NoSpace => VirtqError::Backpressure,
        err => VirtqError::Alloc(err),
    }
}

impl From<AllocError> for VirtqError {
    fn from(err: AllocError) -> (failure: Self) {
        match err {
            AllocError::NoSpace => VirtqError::Backpressure,
            err => VirtqError::Alloc(err),
        }
    }
}

impl vstd::std_specs::convert::FromSpecImpl<AllocError> for VirtqError {
    open spec fn obeys_from_spec() -> bool {
        true
    }

    open spec fn from_spec(err: AllocError) -> VirtqError {
        alloc_failure(err)
    }
}

/// How full a ring is.
#[derive(Debug, Clone, Copy, PartialEq, Eq, Structural)]
pub struct QueueStats {
    pub num_free: usize,
    pub num_inflight: usize,
}

/// Tells the peer to look at the queue.
///
/// A queue notifies in the middle of a call. The peer runs once that call has returned: a
/// notifier that lets it change memory earlier is outside what the queue's contracts cover.
pub trait Notifier {
    /// The notifications sent so far.
    closed spec fn sent(&self) -> Seq<QueueStats> {
        arbitrary()
    }

    fn notify(&mut self, stats: QueueStats)
        ensures
            final(self).sent() == old(self).sent().push(stats),
    ;
}

/// Sends no notification.
pub struct NoopNotifier {
    sent: Ghost<Seq<QueueStats>>,
}

impl NoopNotifier {
    pub fn new() -> (notifier: Self)
        ensures
            notifier.sent() == Seq::<QueueStats>::empty(),
    {
        NoopNotifier { sent: Ghost(Seq::empty()) }
    }
}

impl Notifier for NoopNotifier {
    closed spec fn sent(&self) -> Seq<QueueStats> {
        self.sent@
    }

    fn notify(&mut self, stats: QueueStats) {
        self.sent = Ghost(self.sent@.push(stats));
    }
}

/// When the peer is to notify.
#[derive(Debug, Clone, Copy, PartialEq, Eq, Structural)]
pub enum SuppressionKind {
    /// Always.
    Enable,
    /// Never.
    Disable,
    /// When it passes this position.
    Descriptor(RingCursor),
}

/// The event suppression that asks for it.
pub open spec fn suppression_event(kind: SuppressionKind) -> EventSuppression {
    match kind {
        SuppressionKind::Enable => EventSuppression { off_wrap: 0, flags: desc::EVENT_ENABLE },
        SuppressionKind::Disable => EventSuppression { off_wrap: 0, flags: desc::EVENT_DISABLE },
        SuppressionKind::Descriptor(cursor) => EventSuppression {
            off_wrap: ring::off_wrap(cursor.head, cursor.wrap),
            flags: desc::EVENT_DESC,
        },
    }
}

} // verus!
