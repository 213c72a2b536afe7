//! Validation and resource-safety layer between a backend-agnostic compute API and
//! native command encoders: usage tracking, memory-initialisation tracking, the clear
//! engine, compute-pass recording and replay, and driver version parsing.
use vstd::prelude::*;

pub mod adapter;
pub mod binding;
pub mod clear;
pub mod command;
pub mod compute;
pub mod hub;
pub mod init_tracker;
pub mod resource;
pub mod track;

verus! {

/// Byte offsets and sizes inside a buffer.
pub type BufferAddress = u64;

/// Offsets and sizes of buffer copies and fills must be multiples of this.
pub const COPY_BUFFER_ALIGNMENT: u64 = 4;

/// Capacity in bytes of the device's pre-zeroed scratch buffer used by texture clears.
pub const ZERO_BUFFER_SIZE: u64 = 524288;

} // verus!
