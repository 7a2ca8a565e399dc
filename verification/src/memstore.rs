//! The in-memory storage manager: each container maps stable slot ids
//! straight to byte records, with no paging. It mirrors the heap-file
//! store's interface for callers that need no on-disk layout; the
//! embedding application persists a snapshot and restores from it.

pub mod storage_manager;
