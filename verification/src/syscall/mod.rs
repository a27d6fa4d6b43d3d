//! System calls: the decisions and bookkeeping they make, given plain values.
pub mod process;
pub mod sync;
