use vstd::prelude::*;

verus! {

/// Size of a page in bytes.
pub const PAGE_SIZE: usize = 4096;

/// Number of bits of the offset within a page.
pub const PAGE_SIZE_BITS: usize = 12;

/// Width of an Sv39 virtual address.
pub const VA_WIDTH_SV39: usize = 39;

/// Number of lock identifiers the deadlock detector can track.
pub const MAX_LOCK: usize = 16;

/// Number of threads the deadlock detector can track.
pub const MAX_THREAD: usize = 16;

/// Returned when granting a request would leave the system unsafe.
pub const DEADLOCK_SIGNAL: i32 = -0xdead;

/// Returned when the request is safe but the resource is not free yet.
pub const WAIT_SIGNAL: i32 = -0xbeef;

} // verus!
