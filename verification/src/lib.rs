//! A fixed-slot memory pool for values of a single type `T`.
//!
//! The pool hands out slots for repeated same-sized allocations. Slots are
//! grouped into pages of a fixed capacity; a page is filled by bump
//! allocation, and freed slots are threaded onto an intrusive free list that
//! is reused before any new page is opened. The pool offers a manual
//! allocate/free interface on slot addresses and a guard interface whose
//! handles can only be released once.

pub mod pool;

pub use pool::Addr;
pub use pool::Pool;
pub use pool::PoolBox;
pub use pool::Slot;
