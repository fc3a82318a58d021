//! A verified model of the file-I/O syscall boundary of a small kernel:
//! per-task file-descriptor table policy, the seven file syscalls, and the
//! descriptor/inode link-count invariants that tie them together.

pub mod buffer;
pub mod kernel;
pub mod laws;
pub mod model;
pub mod syscall;
