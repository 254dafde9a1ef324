//! Function calls and their results as FlatBuffers.
//!
//! Control data is a FlatBuffer. Byte values travel outside of it: the buffer holds their
//! lengths, and the bytes form one ordered stream behind it.

pub mod builder;
pub mod codec;
pub mod equality;
pub mod function_call;
pub mod function_result;
pub mod function_types;
pub mod guest_error;
pub mod guest_log_data;
pub mod laws;
pub mod limits;
pub mod reader;
pub mod util;
pub mod values;
pub mod wire;
