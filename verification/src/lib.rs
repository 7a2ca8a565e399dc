//! Storage core of a small relational database: a paged, slot-based heap
//! file store with a fixed-capacity buffer pool and a tuple-level access
//! API, together with the common types (schemas, tuples, logical plans)
//! that the layers above it share.

pub mod ids;

pub mod common;

pub mod heapstore;

pub mod memstore;

pub mod logical_plan;

pub mod table;

pub mod catalog;

pub mod database;

pub mod testutil;
