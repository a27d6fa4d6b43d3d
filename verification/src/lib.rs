//! Verified core of a small teaching kernel: deadlock detection by the
//! banker's algorithm, the bookkeeping of its synchronisation system calls,
//! stride scheduling, and the address arithmetic of its memory checks.

pub mod mm;
pub mod sync;
pub mod syscall;
pub mod task;
