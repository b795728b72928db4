//! Indices into the per-CPU array of capture counters.

use vstd::prelude::*;

verus! {

/// Events submitted to the ring buffer.
pub const EVENTS_SUBMITTED: u32 = 0;

/// Calls dropped because the ring buffer was full.
pub const RINGBUF_FULL: u32 = 1;

/// Calls dropped because the plaintext could not be read from user space.
pub const USER_READ_FAULT: u32 = 2;

/// Calls dropped on entry because the stash was full.
pub const STASH_FULL: u32 = 3;

/// Number of counters.
pub const COUNT: u32 = 4;

} // verus!
