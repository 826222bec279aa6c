//! Core kernel infrastructure: a manually-managed free-list heap that grows in
//! whole pages, the blocking mutex that serializes access to it, and the small
//! pieces of per-architecture bookkeeping (ISR table, thread-pointer slot) that
//! collaborate with them.

pub mod heap;
pub mod interrupts;
pub mod mutex;
pub mod num;
pub mod threads;
