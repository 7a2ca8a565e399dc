//! The heap-file store: pages of variable-length records, heap files that
//! persist them page by page, a bounded buffer pool, and the storage
//! manager that ties them together.

pub mod page;
pub mod codec;
pub mod heapfile;
pub mod buffer_pool;
pub mod storage_manager;
