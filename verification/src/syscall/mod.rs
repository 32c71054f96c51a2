//! The decisions of the system calls: each takes the state it acts on and
//! the results of the work done outside the library, and returns what the
//! caller hands back to user space, or what it has to do next.
pub mod fs;
pub mod process;
pub mod sync;
