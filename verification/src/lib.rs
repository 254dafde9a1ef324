//! Shared-memory virtqueue transport between a host and a guest, and the tools
//! that report on its benchmarks.

pub mod ci;
pub mod flatbuffer_wrappers;
pub mod fuzz;
pub mod guest;
pub mod layout;
pub mod le;
pub mod mem;
pub mod octets;
pub mod text;
pub mod transport;
pub mod virtq;
pub mod vmem;
