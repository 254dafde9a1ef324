//! The guest's side of the transport.

pub mod codec;
pub mod context;
pub mod dispatch;
pub mod handle;
pub mod laws;
pub mod messages;
pub mod logger;
pub mod mem;
pub mod pools;
pub mod posting;
pub mod prim_alloc;
pub mod queues;
pub mod receiving;
pub mod sending;
