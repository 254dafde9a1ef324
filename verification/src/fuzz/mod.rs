//! Queues under arbitrary input.

pub mod malformed;
pub mod memory;
pub mod roundtrip;
pub mod scenario;
