//! Verified decision layer of a teaching kernel's system calls: descriptor
//! checks, process bookkeeping, and the synchronization tables with the
//! banker's safety test that guards semaphore requests.
pub mod banker;
pub mod fs;
pub mod laws;
pub mod process;
pub mod slots;
pub mod sync;
pub mod user_copy;
pub mod waits;
