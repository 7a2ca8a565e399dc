//! Identifier types shared by all storage components.

use vstd::prelude::*;

verus! {

/// Names a heap file (one container of records) within a storage manager.
pub type ContainerId = u16;

/// An optional segment or partition within a container.
pub type SegmentId = u8;

/// Position of a page within a heap file, counted from zero.
pub type PageId = u16;

/// Stable logical identifier of a record within a page.
pub type SlotId = u16;

/// Access mode requested for a read or a scan.
pub enum Permissions {
    ReadOnly,
    ReadWrite,
}

/// Opaque transaction identifier threaded through every storage operation.
/// It has no semantic effect in this core; the embedding application is
/// responsible for handing out distinct values where it needs them.
#[derive(Debug, Clone, Copy, PartialEq, Eq, Structural)]
pub struct TransactionId {
    id: u64,
}

impl TransactionId {
    /// The numeric value of this identifier, for specifications.
    pub closed spec fn spec_id(&self) -> u64 {
        self.id
    }

    /// A placeholder identifier for callers that do not track
    /// transactions. A process-wide monotone counter cannot live in
    /// verified code, so distinct, increasing ids come from the embedding
    /// application through `with_id`; this constructor promises nothing
    /// about the value it picks.
    pub fn new() -> (t: Self) {
        TransactionId { id: 0 }
    }

    /// The identifier with the given value: the real constructor, fed by
    /// whatever monotone source the embedding application keeps.
    pub fn with_id(id: u64) -> (t: Self)
        ensures
            t.spec_id() == id,
    {
        TransactionId { id }
    }

    /// The numeric value of this identifier.
    pub fn id(&self) -> (r: u64)
        ensures
            r == self.spec_id(),
    {
        self.id
    }
}

/// Locates a single record: the container it lives in and, when known,
/// the segment, page and slot within that container.
#[derive(Debug, Clone, Copy, PartialEq, Eq, Structural)]
pub struct ValueId {
    /// The container that holds the value.
    pub container_id: ContainerId,
    /// An optional segment or partition id.
    pub segment_id: Option<SegmentId>,
    /// An optional page id.
    pub page_id: Option<PageId>,
    /// An optional slot id within the page.
    pub slot_id: Option<SlotId>,
}

impl ValueId {
    /// A locator that names only the container.
    pub fn new(container_id: ContainerId) -> (v: Self)
        ensures
            v == (ValueId { container_id, segment_id: None, page_id: None, slot_id: None }),
    {
        ValueId { container_id, segment_id: None, page_id: None, slot_id: None }
    }

    /// A locator that names a container and a page within it.
    pub fn new_page(container_id: ContainerId, page_id: PageId) -> (v: Self)
        ensures
            v == (ValueId {
                container_id,
                segment_id: None,
                page_id: Some(page_id),
                slot_id: None,
            }),
    {
        ValueId { container_id, segment_id: None, page_id: Some(page_id), slot_id: None }
    }

    /// A locator that names a record in full: container, page and slot.
    pub fn new_slot(container_id: ContainerId, page_id: PageId, slot_id: SlotId) -> (v: Self)
        ensures
            v == (ValueId {
                container_id,
                segment_id: None,
                page_id: Some(page_id),
                slot_id: Some(slot_id),
            }),
    {
        ValueId { container_id, segment_id: None, page_id: Some(page_id), slot_id: Some(slot_id) }
    }
}

} // verus!
