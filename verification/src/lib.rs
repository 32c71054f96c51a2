//! Verified kernel logic of a small RISC-V teaching operating system:
//! identifier recycling, deadlock avoidance, address spaces, user memory
//! access and the decisions of its system calls.
use vstd::prelude::*;

pub mod config;
pub mod recycle;
pub mod deadlock;
pub mod mm;
pub mod io;
pub mod process;
pub mod syscall;
pub mod vfs;
