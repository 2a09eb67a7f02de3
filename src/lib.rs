//! Runtime core for calls from an untrusted guest into host functions:
//! byte regions of guest memory, a dynamic borrow checker over them,
//! bounds- and alignment-checked decoding and encoding of guest values,
//! and the glue that marshals one declared function call.

pub mod region;
pub mod error;
pub mod borrow;
pub mod codec;
pub mod memory;
pub mod ptr;
pub mod text;
pub mod slice;
pub mod record;
pub mod errno;
pub mod marshal;
