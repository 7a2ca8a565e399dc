//! A page: a fixed 4 KiB block holding variable-length records behind a
//! slot directory. Records keep stable slot ids across deletes; freed space
//! is compacted so that the live records always sit packed at the end of
//! the block, growing downward from the last byte.

use vstd::prelude::*;
use crate::common::PAGE_SIZE;
use crate::ids::{PageId, SlotId};

verus! {

/// Bytes of the fixed page header that are used on disk: the page id and
/// the number of live slots, two bytes each.
pub const HEADER_PREFIX_SIZE: usize = 4;

/// Bytes one slot directory entry occupies on disk.
pub const SLOT_ENTRY_SIZE: usize = 6;

/// One slot directory entry: a stable record id, and where the record's
/// bytes sit within the serialized page.
#[derive(Debug, Clone, Copy, PartialEq, Eq, Structural)]
pub struct Slot {
    /// Stable logical identifier of the record.
    pub slot_id: SlotId,
    /// Offset of the record's first byte within the page block.
    pub slot_offset: u16,
    /// Length of the record in bytes.
    pub size: u16,
}

impl Slot {
    /// A new directory entry with the given id, offset and length.
    pub fn new(slot_id: SlotId, slot_offset: u16, size: u16) -> (s: Self)
        ensures
            s == (Slot { slot_id, slot_offset, size }),
    {
        Slot { slot_id, slot_offset, size }
    }
}

/// The page metadata: its identifier and the slot directory.
#[derive(Debug, PartialEq, Eq)]
pub struct Header {
    /// The page's identifier within its heap file.
    pub page_id: PageId,
    /// The directory of live records, ordered by decreasing offset.
    pub slots: Vec<Slot>,
}

impl Clone for Header {
    /// A copy with the same page id and directory.
    fn clone(&self) -> (r: Self)
        ensures
            r.page_id == self.page_id,
            r.slots@ == self.slots@,
    {
        let slots = self.slots.clone();
        proof {
            assert(slots@ =~= self.slots@);
        }
        Header { page_id: self.page_id, slots }
    }
}

impl Header {
    /// Bytes the header occupies when serialized: the fixed prefix plus
    /// one directory entry per live slot.
    pub fn get_size(&self) -> (r: usize)
        requires
            self.slots@.len() <= 682,
        ensures
            r == HEADER_PREFIX_SIZE + SLOT_ENTRY_SIZE * self.slots@.len(),
    {
        HEADER_PREFIX_SIZE + SLOT_ENTRY_SIZE * self.slots.len()
    }
}

/// The slot ids of a directory, in directory order.
pub open spec fn slot_ids(slots: Seq<Slot>) -> Seq<SlotId> {
    slots.map_values(|s: Slot| s.slot_id)
}

/// Whether no slot id occurs twice.
pub open spec fn ids_unique(ids: Seq<SlotId>) -> bool {
    forall|i: int, j: int| 0 <= i < j < ids.len() ==> ids[i] != ids[j]
}

/// The record lengths of the first `k` directory entries added together.
pub open spec fn size_prefix(slots: Seq<Slot>, k: int) -> int
    decreases k,
{
    if k <= 0 {
        0
    } else {
        size_prefix(slots, k - 1) + slots[k - 1].size
    }
}

/// The index of the entry carrying the given id, or nothing when no entry
/// does. Under unique ids the choice of scan direction does not matter.
pub open spec fn index_of_id(ids: Seq<SlotId>, sid: SlotId) -> Option<int>
    decreases ids.len(),
{
    if ids.len() == 0 {
        None
    } else if ids.last() == sid {
        Some(ids.len() - 1)
    } else {
        index_of_id(ids.drop_last(), sid)
    }
}

/// Whether some live record carries the given slot id.
pub open spec fn id_used(ids: Seq<SlotId>, sid: SlotId) -> bool {
    index_of_id(ids, sid) is Some
}

/// Whether `sid` is the smallest slot id not carried by any live record.
pub open spec fn is_smallest_unused_id(ids: Seq<SlotId>, sid: SlotId) -> bool {
    &&& !id_used(ids, sid)
    &&& forall|t: SlotId| t < sid ==> id_used(ids, t)
}

/// Whether a directory and its records fill a page block consistently:
/// lengths line up, the records sit packed at the end of the block in
/// directory order, and header, directory and records fit the block.
pub open spec fn layout_wf(slots: Seq<Slot>, recs: Seq<Seq<u8>>) -> bool {
    let n = slots.len() as int;
    &&& recs.len() == n
    &&& forall|i: int| 0 <= i < n ==> #[trigger] slots[i].size == recs[i].len()
    &&& forall|i: int|
        0 <= i < n ==> #[trigger] slots[i].slot_offset == PAGE_SIZE - size_prefix(slots, i + 1)
    &&& HEADER_PREFIX_SIZE + SLOT_ENTRY_SIZE * n + size_prefix(slots, n) <= PAGE_SIZE
}

/// A page: metadata plus the bytes of each live record, in directory order.
#[derive(Debug, PartialEq, Eq)]
pub struct Page {
    /// The page id and slot directory.
    pub header: Header,
    /// The bytes of each live record; `records[i]` belongs to `slots[i]`.
    pub records: Vec<Vec<u8>>,
}

impl Page {
    /// The bytes of each live record, in directory order.
    pub open spec fn rec_views(&self) -> Seq<Seq<u8>> {
        self.records@.map_values(|v: Vec<u8>| v@)
    }

    /// The slot ids of the live records, in directory order.
    pub open spec fn ids(&self) -> Seq<SlotId> {
        slot_ids(self.header.slots@)
    }

    /// How many live records the page holds.
    pub open spec fn spec_len(&self) -> int {
        self.header.slots@.len() as int
    }

    /// Bytes taken by the live records together.
    pub open spec fn spec_used(&self) -> int {
        size_prefix(self.header.slots@, self.spec_len())
    }

    /// Bytes the serialized header occupies.
    pub open spec fn spec_header_size(&self) -> int {
        HEADER_PREFIX_SIZE + SLOT_ENTRY_SIZE * self.spec_len()
    }

    /// Bytes still free: the block minus the header and the records.
    pub open spec fn spec_free_space(&self) -> int {
        PAGE_SIZE - self.spec_header_size() - self.spec_used()
    }

    /// Whether a record of `len` bytes still fits: it needs its bytes plus
    /// one directory entry.
    pub open spec fn spec_fits(&self, len: int) -> bool {
        len + SLOT_ENTRY_SIZE <= self.spec_free_space()
    }

    /// Well-formedness: the directory and records fill the block
    /// consistently and the slot ids are unique.
    pub open spec fn wf(&self) -> bool {
        &&& layout_wf(self.header.slots@, self.rec_views())
        &&& ids_unique(slot_ids(self.header.slots@))
    }

    /// The bytes of the live record with the given slot id, if any.
    pub open spec fn spec_get(&self, sid: SlotId) -> Option<Seq<u8>> {
        match index_of_id(self.ids(), sid) {
            Some(i) => Some(self.rec_views()[i]),
            None => None,
        }
    }

    /// The live records as pairs of slot id and bytes, in directory order.
    pub open spec fn entries(&self) -> Seq<(SlotId, Seq<u8>)> {
        Seq::new(self.spec_len() as nat, |i: int| (self.header.slots@[i].slot_id, self.rec_views()[i]))
    }

    /// Whether two pages hold the same id, directory and record bytes.
    pub open spec fn same_page(&self, other: &Page) -> bool {
        &&& self.header.page_id == other.header.page_id
        &&& self.header.slots@ == other.header.slots@
        &&& self.rec_views() == other.rec_views()
    }
}

impl View for Page {
    type V = Map<SlotId, Seq<u8>>;

    /// The live mapping from slot id to record bytes.
    open spec fn view(&self) -> Map<SlotId, Seq<u8>> {
        Map::new(
            |sid: SlotId| self.spec_get(sid) is Some,
            |sid: SlotId| self.spec_get(sid).unwrap(),
        )
    }
}

impl Clone for Page {
    /// A copy holding the same id, directory and record bytes.
    fn clone(&self) -> (r: Self)
        ensures
            r.same_page(self),
    {
        let mut records: Vec<Vec<u8>> = Vec::new();
        let mut i: usize = 0;
        while i < self.records.len()
            invariant
                i <= self.records@.len(),
                records@.len() == i,
                forall|k: int| 0 <= k < i ==> #[trigger] records@[k]@ == self.records@[k]@,
            decreases self.records@.len() - i,
        {
            let v = self.records[i].clone();
            proof {
                assert(v@ =~= self.records@[i as int]@);
            }
            records.push(v);
            i = i + 1;
        }
        proof {
            assert(records@.map_values(|v: Vec<u8>| v@) =~= self.rec_views());
        }
        Page { header: self.header.clone(), records }
    }
}

/// An entry found by scanning carries the id looked for; under unique ids
/// it is the only one, so `index_of_id` points at it.
pub proof fn lemma_index_of_id_bounds(ids: Seq<SlotId>, sid: SlotId)
    ensures
        match index_of_id(ids, sid) {
            Some(i) => 0 <= i < ids.len() && ids[i] == sid,
            None => forall|k: int| 0 <= k < ids.len() ==> ids[k] != sid,
        },
    decreases ids.len(),
{
    if ids.len() > 0 && ids.last() != sid {
        lemma_index_of_id_bounds(ids.drop_last(), sid);
        if index_of_id(ids, sid) is None {
            assert forall|k: int| 0 <= k < ids.len() implies ids[k] != sid by {
                if k < ids.len() - 1 {
                    assert(ids.drop_last()[k] == ids[k]);
                }
            }
        }
    }
}

/// Under unique ids, an entry that carries the id determines the index.
pub proof fn lemma_index_of_id_match(ids: Seq<SlotId>, sid: SlotId, k: int)
    requires
        ids_unique(ids),
        0 <= k < ids.len(),
        ids[k] == sid,
    ensures
        index_of_id(ids, sid) == Some(k),
    decreases ids.len(),
{
    if ids.last() == sid {
        assert(k == ids.len() - 1);
    } else {
        assert(ids.drop_last() =~= ids.subrange(0, ids.len() - 1));
        assert(ids_unique(ids.drop_last()));
        lemma_index_of_id_match(ids.drop_last(), sid, k);
    }
}

/// Appending an entry leaves every other id where it was and places the
/// new id at the end.
pub proof fn lemma_index_of_id_push(ids: Seq<SlotId>, x: SlotId, sid: SlotId)
    ensures
        index_of_id(ids.push(x), sid) == if x == sid {
            Some(ids.len() as int)
        } else {
            index_of_id(ids, sid)
        },
{
    assert(ids.push(x).drop_last() =~= ids);
}

/// Removing the entry at `k` removes its id and shifts the ids above it
/// down by one.
pub proof fn lemma_index_of_id_remove(ids: Seq<SlotId>, k: int, sid: SlotId)
    requires
        ids_unique(ids),
        0 <= k < ids.len(),
    ensures
        index_of_id(ids.remove(k), sid) == match index_of_id(ids, sid) {
            None => None::<int>,
            Some(j) => if j == k {
                None::<int>
            } else if j < k {
                Some(j)
            } else {
                Some(j - 1)
            },
        },
    decreases ids.len(),
{
    lemma_index_of_id_bounds(ids, sid);
    lemma_index_of_id_bounds(ids.remove(k), sid);
    if k == ids.len() - 1 {
        assert(ids.remove(k) =~= ids.drop_last());
        match index_of_id(ids, sid) {
            Some(j) => {
                if j < k {
                    lemma_index_of_id_match(ids.drop_last(), sid, j);
                }
            },
            None => {},
        }
    } else {
        let ids2 = ids.remove(k);
        assert(ids2.len() == ids.len() - 1);
        assert(ids2.last() == ids.last());
        assert(ids2.drop_last() =~= ids.drop_last().remove(k));
        assert(ids_unique(ids.drop_last()));
        lemma_index_of_id_remove(ids.drop_last(), k, sid);
        if ids.last() == sid {
        } else {
        }
    }
}

/// If every id below `c` is carried by some entry, there are at least `c`
/// entries: distinct ids need distinct entries.
pub proof fn lemma_used_ids_need_slots(ids: Seq<SlotId>, c: int)
    requires
        ids_unique(ids),
        0 <= c <= u16::MAX + 1,
        forall|t: int| 0 <= t < c ==> #[trigger] id_used(ids, (t as SlotId)),
    ensures
        c <= ids.len(),
    decreases c,
{
    if c > 0 {
        let sid = (c - 1) as SlotId;
        assert(id_used(ids, ((c - 1) as SlotId)));
        lemma_index_of_id_bounds(ids, sid);
        let i = index_of_id(ids, sid).unwrap();
        assert(0 <= i < ids.len() && ids[i] == sid);
        let rest = ids.remove(i);
        ids.remove_ensures(i);
        assert(ids_unique(rest)) by {
            assert forall|a: int, b: int| 0 <= a < b < rest.len() implies rest[a] != rest[b] by {
                if b < i {
                } else if a < i {
                    assert(rest[b] == ids[b + 1]);
                } else {
                    assert(rest[a] == ids[a + 1]);
                    assert(rest[b] == ids[b + 1]);
                }
            }
        }
        assert forall|t: int| 0 <= t < c - 1 implies #[trigger] id_used(rest, (t as SlotId)) by {
            assert(id_used(ids, (t as SlotId)));
            lemma_index_of_id_remove(ids, i, (t as SlotId));
            let j = index_of_id(ids, (t as SlotId)).unwrap();
            lemma_index_of_id_bounds(ids, (t as SlotId));
            assert(j != i) by {
                assert(ids[j] == (t as SlotId));
                assert(ids[i] == sid);
            }
        }
        lemma_used_ids_need_slots(rest, c - 1);
    }
}

/// The record lengths summed over a prefix never decrease as the prefix
/// grows, and never exceed the total.
pub proof fn lemma_size_prefix_monotone(slots: Seq<Slot>, a: int, b: int)
    requires
        0 <= a <= b <= slots.len(),
    ensures
        size_prefix(slots, a) <= size_prefix(slots, b),
    decreases b - a,
{
    if a < b {
        lemma_size_prefix_monotone(slots, a, b - 1);
    }
}

/// Prefix sums are never negative.
pub proof fn lemma_size_prefix_nonneg(slots: Seq<Slot>, k: int)
    ensures
        size_prefix(slots, k) >= 0,
    decreases k,
{
    if k > 0 {
        lemma_size_prefix_nonneg(slots, k - 1);
    }
}

/// Two directories that agree on the record lengths of their first `k`
/// entries have the same prefix sums up to `k`.
pub proof fn lemma_size_prefix_congruence(s1: Seq<Slot>, s2: Seq<Slot>, k: int)
    requires
        0 <= k <= s1.len(),
        k <= s2.len(),
        forall|i: int| 0 <= i < k ==> s1[i].size == s2[i].size,
    ensures
        size_prefix(s1, k) == size_prefix(s2, k),
    decreases k,
{
    if k > 0 {
        lemma_size_prefix_congruence(s1, s2, k - 1);
    }
}

/// Appending an entry leaves the earlier prefix sums unchanged.
pub proof fn lemma_size_prefix_push(slots: Seq<Slot>, x: Slot, k: int)
    requires
        0 <= k <= slots.len(),
    ensures
        size_prefix(slots.push(x), k) == size_prefix(slots, k),
{
    lemma_size_prefix_congruence(slots.push(x), slots, k);
}

/// Removing the entry at `k` lowers the prefix sums past `k` by that
/// entry's record length.
pub proof fn lemma_size_prefix_remove(slots: Seq<Slot>, k: int, j: int)
    requires
        0 <= k < slots.len(),
        k < j <= slots.len() - 1,
    ensures
        size_prefix(slots.remove(k), j) == size_prefix(slots, j + 1) - slots[k].size,
    decreases j,
{
    slots.remove_ensures(k);
    let rest = slots.remove(k);
    if j == k + 1 {
        lemma_size_prefix_congruence(rest, slots, k);
        assert(rest[k] == slots[k + 1]);
        assert(size_prefix(rest, k + 1) == size_prefix(rest, k) + rest[k].size);
        assert(size_prefix(slots, k + 1) == size_prefix(slots, k) + slots[k].size);
        assert(size_prefix(slots, k + 2) == size_prefix(slots, k + 1) + slots[k + 1].size);
    } else {
        lemma_size_prefix_remove(slots, k, j - 1);
        assert(rest[j - 1] == slots[j]);
        assert(size_prefix(rest, j) == size_prefix(rest, j - 1) + rest[j - 1].size);
        assert(size_prefix(slots, j + 1) == size_prefix(slots, j) + slots[j].size);
    }
}

impl Page {
    /// An empty page with the given id: no live records, full free space.
    pub fn new(page_id: PageId) -> (p: Self)
        ensures
            p.wf(),
            p.header.page_id == page_id,
            p@ == Map::<SlotId, Seq<u8>>::empty(),
            p.entries() == Seq::<(SlotId, Seq<u8>)>::empty(),
            p.spec_len() == 0,
    {
        let p = Page { header: Header { page_id, slots: Vec::new() }, records: Vec::new() };
        proof {
            assert(p.rec_views() =~= Seq::<Seq<u8>>::empty());
            assert(p.entries() =~= Seq::<(SlotId, Seq<u8>)>::empty());
            assert(p@ =~= Map::<SlotId, Seq<u8>>::empty());
        }
        p
    }

    /// The page's identifier.
    pub fn get_page_id(&self) -> (r: PageId)
        ensures
            r == self.header.page_id,
    {
        self.header.page_id
    }

    /// Bytes the serialized header occupies.
    pub fn get_header_size(&self) -> (r: usize)
        requires
            self.wf(),
        ensures
            r == self.spec_header_size(),
    {
        proof {
            lemma_size_prefix_nonneg(self.header.slots@, self.spec_len());
        }
        self.header.get_size()
    }

    /// The largest block of contiguous free space. Records are kept packed,
    /// so all free space is one block between the directory and the data.
    pub fn get_largest_free_contiguous_space(&self) -> (r: usize)
        requires
            self.wf(),
        ensures
            r == self.spec_free_space(),
    {
        proof {
            lemma_size_prefix_nonneg(self.header.slots@, self.spec_len());
        }
        let header = self.get_header_size();
        let used = self.used_space();
        PAGE_SIZE - header - used
    }

    /// Bytes taken by the live records together.
    fn used_space(&self) -> (r: usize)
        requires
            self.wf(),
        ensures
            r == self.spec_used(),
            r <= PAGE_SIZE,
    {
        proof {
            lemma_size_prefix_nonneg(self.header.slots@, self.spec_len());
        }
        let n = self.header.slots.len();
        if n == 0 {
            0
        } else {
            let off = self.header.slots[n - 1].slot_offset;
            proof {
                lemma_size_prefix_nonneg(self.header.slots@, n as int);
            }
            PAGE_SIZE - (off as usize)
        }
    }

    /// The position of the slot directory entry carrying the given id.
    fn find_slot(&self, slot_id: SlotId) -> (r: Option<usize>)
        requires
            self.wf(),
        ensures
            match r {
                Some(i) => index_of_id(self.ids(), slot_id) == Some(i as int),
                None => index_of_id(self.ids(), slot_id) is None,
            },
    {
        let n = self.header.slots.len();
        let mut i: usize = 0;
        while i < n
            invariant
                i <= n,
                n == self.ids().len(),
                self.wf(),
                forall|k: int| 0 <= k < i ==> self.ids()[k] != slot_id,
            decreases n - i,
        {
            if self.header.slots[i].slot_id == slot_id {
                proof {
                    assert(self.ids()[i as int] == slot_id);
                    lemma_index_of_id_match(self.ids(), slot_id, i as int);
                }
                return Some(i);
            }
            proof {
                assert(self.ids()[i as int] == self.header.slots@[i as int].slot_id);
            }
            i = i + 1;
        }
        proof {
            lemma_index_of_id_bounds(self.ids(), slot_id);
        }
        None
    }

    /// The smallest slot id no live record carries.
    fn find_unused_slot_id(&self) -> (sid: SlotId)
        requires
            self.wf(),
        ensures
            is_smallest_unused_id(self.ids(), sid),
            sid <= self.ids().len(),
    {
        let n = self.header.slots.len();
        proof {
            lemma_size_prefix_nonneg(self.header.slots@, self.spec_len());
            assert(SLOT_ENTRY_SIZE * self.spec_len() <= PAGE_SIZE - HEADER_PREFIX_SIZE);
            assert(n <= 682);
        }
        let mut c: u16 = 0;
        loop
            invariant
                self.wf(),
                n == self.ids().len(),
                n <= 682,
                c <= n,
                forall|t: int| 0 <= t < c ==> #[trigger] id_used(self.ids(), (t as SlotId)),
            decreases n - c,
        {
            let mut found = false;
            let mut i: usize = 0;
            while i < n
                invariant
                    i <= n,
                    n == self.ids().len(),
                    found == exists|k: int| 0 <= k < i && self.ids()[k] == c,
                decreases n - i,
            {
                if self.header.slots[i].slot_id == c {
                    found = true;
                    proof {
                        assert(self.ids()[i as int] == c);
                    }
                }
                proof {
                    assert(self.ids()[i as int] == self.header.slots@[i as int].slot_id);
                }
                i = i + 1;
            }
            if !found {
                proof {
                    lemma_index_of_id_bounds(self.ids(), c);
                    if id_used(self.ids(), c) {
                        let j = index_of_id(self.ids(), c).unwrap();
                        assert(self.ids()[j] == c);
                    }
                    assert forall|t: SlotId| t < c implies id_used(self.ids(), t) by {
                        assert(id_used(self.ids(), ((t as int) as SlotId)));
                    }
                }
                return c;
            }
            proof {
                lemma_index_of_id_bounds(self.ids(), c);
                let k = choose|k: int| 0 <= k < n && self.ids()[k] == c;
                lemma_index_of_id_match(self.ids(), c, k);
                assert(id_used(self.ids(), c));
                assert forall|t: int| 0 <= t < c + 1 implies #[trigger] id_used(
                    self.ids(),
                    (t as SlotId),
                ) by {}
                lemma_used_ids_need_slots(self.ids(), c + 1);
            }
            c = c + 1;
        }
    }

    /// Place the bytes into the page. On success the record is assigned the
    /// smallest unused slot id, which is returned; the page rejects the
    /// bytes when they would not fit together with one directory entry.
    pub fn add_value(&mut self, bytes: &Vec<u8>) -> (r: Option<SlotId>)
        requires
            old(self).wf(),
        ensures
            final(self).wf(),
            final(self).header.page_id == old(self).header.page_id,
            old(self).spec_fits(bytes@.len() as int) ==> {
                &&& r matches Some(sid)
                &&& is_smallest_unused_id(old(self).ids(), sid)
                &&& final(self).entries() == old(self).entries().push((sid, bytes@))
                &&& final(self)@ == old(self)@.insert(sid, bytes@)
            },
            !old(self).spec_fits(bytes@.len() as int) ==> r is None && *final(self) == *old(
                self,
            ),
    {
        let free = self.get_largest_free_contiguous_space();
        if free < SLOT_ENTRY_SIZE || bytes.len() > free - SLOT_ENTRY_SIZE {
            return None;
        }
        let ghost old_self = *self;
        let n = self.header.slots.len();
        let sid = self.find_unused_slot_id();
        proof {
            lemma_size_prefix_nonneg(self.header.slots@, n as int);
        }
        let last_off: u16 = if n == 0 {
            (PAGE_SIZE as u16)
        } else {
            self.header.slots[n - 1].slot_offset
        };
        let len16: u16 = bytes.len() as u16;
        let offset: u16 = last_off - len16;
        let slot = Slot::new(sid, offset, len16);
        self.header.slots.push(slot);
        self.records.push(bytes.clone());
        proof {
            let slots1 = self.header.slots@;
            let n1 = slots1.len() as int;
            assert(self.rec_views() =~= old_self.rec_views().push(bytes@));
            assert(slot_ids(slots1) =~= slot_ids(old_self.header.slots@).push(sid));
            assert forall|i: int| 0 <= i < n1 implies #[trigger] slots1[i].size
                == self.rec_views()[i].len() by {}
            assert forall|i: int| 0 <= i < n1 implies #[trigger] slots1[i].slot_offset == PAGE_SIZE
                - size_prefix(slots1, i + 1) by {
                if i + 1 <= n as int {
                    lemma_size_prefix_congruence(old_self.header.slots@, slots1, i + 1);
                } else {
                    lemma_size_prefix_congruence(old_self.header.slots@, slots1, n as int);
                }
            }
            assert(ids_unique(slot_ids(slots1))) by {
                lemma_index_of_id_bounds(slot_ids(old_self.header.slots@), sid);
                assert forall|a: int, b: int|
                    0 <= a < b < n1 implies slot_ids(slots1)[a] != slot_ids(slots1)[b] by {
                    if b == n1 - 1 {
                        if slot_ids(old_self.header.slots@)[a] == sid {
                            lemma_index_of_id_match(slot_ids(old_self.header.slots@), sid, a);
                        }
                    }
                }
            }
            assert(size_prefix(slots1, n1) == size_prefix(old_self.header.slots@, n as int)
                + len16) by {
                lemma_size_prefix_congruence(old_self.header.slots@, slots1, n as int);
            }
            assert(self.entries() =~= old_self.entries().push((sid, bytes@)));
            assert(self@ =~= old_self@.insert(sid, bytes@)) by {
                assert forall|t: SlotId| true implies #[trigger] self.spec_get(t) == (if t == sid {
                    Some(bytes@)
                } else {
                    old_self.spec_get(t)
                }) by {
                    lemma_index_of_id_push(slot_ids(old_self.header.slots@), sid, t);
                    lemma_index_of_id_bounds(slot_ids(old_self.header.slots@), t);
                }
            }
        }
        Some(sid)
    }

    /// A copy of the bytes at the given slot id, or nothing when no live
    /// record carries it.
    pub fn get_value(&self, slot_id: SlotId) -> (r: Option<Vec<u8>>)
        requires
            self.wf(),
        ensures
            match r {
                Some(v) => self.spec_get(slot_id) == Some(v@),
                None => self.spec_get(slot_id) is None,
            },
            r is Some <==> self@.dom().contains(slot_id),
            r matches Some(v) ==> self@[slot_id] == v@,
    {
        match self.find_slot(slot_id) {
            Some(i) => {
                proof {
                    lemma_index_of_id_bounds(self.ids(), slot_id);
                }
                let v = self.records[i].clone();
                proof {
                    assert(v@ =~= self.records@[i as int]@);
                    assert(self.rec_views()[i as int] == self.records@[i as int]@);
                }
                Some(v)
            },
            None => None,
        }
    }

    /// Remove the record with the given slot id. Returns nothing when no
    /// live record carries the id; the removal frees the record's space for
    /// later inserts and leaves every other record in place.
    pub fn delete_value(&mut self, slot_id: SlotId) -> (r: Option<()>)
        requires
            old(self).wf(),
        ensures
            final(self).wf(),
            final(self).header.page_id == old(self).header.page_id,
            old(self)@.dom().contains(slot_id) ==> {
                &&& r == Some(())
                &&& final(self)@ == old(self)@.remove(slot_id)
                &&& final(self).entries() == old(self).entries().remove(
                    index_of_id(old(self).ids(), slot_id).unwrap(),
                )
            },
            !old(self)@.dom().contains(slot_id) ==> r is None && *final(self) == *old(self),
    {
        let ghost old_self = *self;
        let found = self.find_slot(slot_id);
        match found {
            None => {
                proof {
                    assert(!old(self)@.dom().contains(slot_id));
                }
                None
            },
            Some(k) => {
                proof {
                    lemma_index_of_id_bounds(self.ids(), slot_id);
                    assert(old(self)@.dom().contains(slot_id));
                }
                let removed_size = self.header.slots[k].size;
                self.header.slots.remove(k);
                self.records.remove(k);
                proof {
                    old_self.header.slots@.remove_ensures(k as int);
                    old_self.records@.remove_ensures(k as int);
                }
                let n2 = self.header.slots.len();
                let ghost mid = *self;
                let mut j: usize = k;
                while j < n2
                    invariant
                        k <= j <= n2,
                        n2 == self.header.slots@.len(),
                        n2 == mid.header.slots@.len(),
                        n2 == old_self.header.slots@.len() - 1,
                        self.header.page_id == old_self.header.page_id,
                        self.records@ == mid.records@,
                        removed_size == old_self.header.slots@[k as int].size,
                        forall|t: int| 0 <= t < n2 ==> #[trigger] self.header.slots@[t].slot_id
                            == mid.header.slots@[t].slot_id,
                        forall|t: int| 0 <= t < n2 ==> #[trigger] self.header.slots@[t].size
                            == mid.header.slots@[t].size,
                        forall|t: int| j <= t < n2 ==> #[trigger] self.header.slots@[t].slot_offset
                            == mid.header.slots@[t].slot_offset,
                        forall|t: int| 0 <= t < j ==> #[trigger] self.header.slots@[t].slot_offset
                            == mid.header.slots@[t].slot_offset + if k <= t {
                            removed_size as int
                        } else {
                            0
                        },
                        forall|t: int| k <= t < j ==> #[trigger] self.header.slots@[t].slot_offset
                            <= PAGE_SIZE,
                        mid.header.slots@ == old_self.header.slots@.remove(k as int),
                        old_self.wf(),
                        0 <= k < old_self.header.slots@.len(),
                    decreases n2 - j,
                {
                    let s = self.header.slots[j];
                    proof {
                        old_self.header.slots@.remove_ensures(k as int);
                        assert(mid.header.slots@[j as int] == old_self.header.slots@[j as int + 1]);
                        assert(old_self.header.slots@[j as int + 1].slot_offset == PAGE_SIZE
                            - size_prefix(old_self.header.slots@, j as int + 2));
                        lemma_size_prefix_nonneg(old_self.header.slots@, j as int + 2);
                        lemma_size_prefix_monotone(
                            old_self.header.slots@,
                            k as int + 1,
                            j as int + 2,
                        );
                        lemma_size_prefix_monotone(old_self.header.slots@, 0, k as int);
                        lemma_size_prefix_nonneg(old_self.header.slots@, k as int);
                    }
                    let fixed = Slot::new(s.slot_id, s.slot_offset + removed_size, s.size);
                    self.header.slots.set(j, fixed);
                    j = j + 1;
                }
                proof {
                    let slots2 = self.header.slots@;
                    let oslots = old_self.header.slots@;
                    let ki = k as int;
                    oslots.remove_ensures(ki);
                    old_self.records@.remove_ensures(ki);
                    old_self.rec_views().remove_ensures(ki);
                    assert(self.rec_views() =~= old_self.rec_views().remove(ki)) by {
                        assert forall|t: int| 0 <= t < n2 as int implies self.rec_views()[t]
                            == old_self.rec_views().remove(ki)[t] by {
                            assert(self.records@[t] == old_self.records@.remove(ki)[t]);
                        }
                    }
                    assert(slot_ids(slots2) =~= slot_ids(oslots).remove(ki));
                    // well-formedness of the compacted page
                    assert forall|i: int| 0 <= i < n2 as int implies #[trigger] slots2[i].size
                        == self.rec_views()[i].len() by {
                        let oi = if i < ki { i } else { i + 1 };
                        assert(mid.header.slots@[i] == oslots[oi]);
                        assert(oslots[oi].size == old_self.rec_views()[oi].len());
                        assert(self.rec_views()[i] == old_self.rec_views().remove(ki)[i]);
                        assert(old_self.rec_views().remove(ki)[i] == old_self.rec_views()[oi]);
                    }
                    assert forall|i: int| 0 <= i < n2 as int implies #[trigger] slots2[
                        i
                    ].slot_offset == PAGE_SIZE - size_prefix(slots2, i + 1) by {
                        assert(forall|t: int| 0 <= t < n2 as int ==> #[trigger] slots2[t].size
                            == mid.header.slots@[t].size);
                        if i < ki {
                            assert(mid.header.slots@[i] == oslots[i]);
                            lemma_size_prefix_congruence(slots2, oslots, i + 1);
                        } else {
                            assert(mid.header.slots@[i] == oslots[i + 1]);
                            lemma_size_prefix_congruence(slots2, mid.header.slots@, i + 1);
                            lemma_size_prefix_remove(oslots, ki, i + 1);
                        }
                    }
                    assert(ids_unique(slot_ids(slots2))) by {
                        assert forall|a: int, b: int|
                            0 <= a < b < n2 as int implies slot_ids(slots2)[a] != slot_ids(
                            slots2,
                        )[b] by {
                            let oa = if a < ki { a } else { a + 1 };
                            let ob = if b < ki { b } else { b + 1 };
                            assert(slot_ids(slots2)[a] == slot_ids(oslots)[oa]);
                            assert(slot_ids(slots2)[b] == slot_ids(oslots)[ob]);
                        }
                    }
                    assert(self.spec_header_size() + self.spec_used() <= PAGE_SIZE) by {
                        assert(forall|t: int| 0 <= t < n2 as int ==> #[trigger] slots2[t].size
                            == mid.header.slots@[t].size);
                        lemma_size_prefix_congruence(slots2, mid.header.slots@, n2 as int);
                        if ki < n2 as int {
                            lemma_size_prefix_remove(oslots, ki, n2 as int);
                        } else {
                            lemma_size_prefix_congruence(mid.header.slots@, oslots, n2 as int);
                            assert(size_prefix(oslots, n2 as int + 1) == size_prefix(
                                oslots,
                                n2 as int,
                            ) + oslots[n2 as int].size);
                        }
                    }
                    assert(self.entries() =~= old_self.entries().remove(ki));
                    assert(self@ =~= old_self@.remove(slot_id)) by {
                        assert forall|t: SlotId| true implies #[trigger] self.spec_get(t) == (if t
                            == slot_id {
                            None::<Seq<u8>>
                        } else {
                            old_self.spec_get(t)
                        }) by {
                            lemma_index_of_id_remove(slot_ids(oslots), ki, t);
                            lemma_index_of_id_bounds(slot_ids(oslots), t);
                            if t == slot_id {
                                lemma_index_of_id_match(slot_ids(oslots), slot_id, ki);
                            }
                        }
                    }
                }
                Some(())
            },
        }
    }
}


impl Page {
    /// The smallest unused slot id, and, when a record of `input_size`
    /// bytes still fits, the offset its bytes would get in the serialized
    /// block. The offset is omitted when the record does not fit.
    pub fn find_free(&mut self, input_size: usize) -> (r: Vec<usize>)
        requires
            old(self).wf(),
        ensures
            *final(self) == *old(self),
            1 <= r@.len() <= 2,
            is_smallest_unused_id(old(self).ids(), r@[0] as SlotId),
            r@[0] <= old(self).ids().len(),
            old(self).spec_fits(input_size as int) <==> r@.len() == 2,
            old(self).spec_fits(input_size as int) ==> r@[1] == PAGE_SIZE - old(self).spec_used()
                - input_size,
    {
        let sid = self.find_unused_slot_id();
        let free = self.get_largest_free_contiguous_space();
        let mut r: Vec<usize> = Vec::new();
        r.push(sid as usize);
        if free >= SLOT_ENTRY_SIZE && input_size <= free - SLOT_ENTRY_SIZE {
            let used = self.used_space();
            proof {
                lemma_size_prefix_nonneg(self.header.slots@, self.spec_len());
            }
            r.push(PAGE_SIZE - used - input_size);
        }
        r
    }
}

/// The bytes of the live records whose slot id is at least `c`, in
/// ascending slot-id order. Slot ids are 16-bit, so from 65536 on nothing
/// is left.
pub open spec fn values_from(p: Page, c: int) -> Seq<Seq<u8>>
    decreases 0x10000 - c,
{
    if c < 0 || c >= 0x10000 {
        Seq::empty()
    } else {
        let rest = values_from(p, c + 1);
        match p.spec_get(c as SlotId) {
            Some(v) => seq![v] + rest,
            None => rest,
        }
    }
}

/// Prepending one value adds it to the multiset of a sequence.
pub proof fn lemma_cons_to_multiset(v: Seq<u8>, rest: Seq<Seq<u8>>)
    ensures
        (seq![v] + rest).to_multiset() == rest.to_multiset().insert(v),
    decreases rest.len(),
{
    broadcast use vstd::seq_lib::group_to_multiset_ensures;

    if rest.len() == 0 {
        assert(seq![v] + rest =~= Seq::<Seq<u8>>::empty().push(v));
        assert(Seq::<Seq<u8>>::empty().push(v).to_multiset() =~= Seq::<Seq<
            u8,
        >>::empty().to_multiset().insert(v));
        assert(rest.to_multiset() =~= Seq::<Seq<u8>>::empty().to_multiset());
    } else {
        let x = rest.last();
        let rest2 = rest.drop_last();
        lemma_cons_to_multiset(v, rest2);
        assert(rest =~= rest2.push(x));
        assert(seq![v] + rest =~= (seq![v] + rest2).push(x));
        assert(rest2.push(x).to_multiset() =~= rest2.to_multiset().insert(x));
        assert((seq![v] + rest2).push(x).to_multiset() =~= (seq![v]
            + rest2).to_multiset().insert(x));
        assert(rest2.to_multiset().insert(v).insert(x) =~= rest2.to_multiset().insert(x).insert(
            v,
        ));
    }
}

/// Two pages whose live mappings agree at every slot id from `c` on yield
/// the same values from `c` on.
pub proof fn lemma_values_from_congruence(p1: Page, p2: Page, c: int)
    requires
        forall|t: SlotId| c <= t ==> #[trigger] p2.spec_get(t) == p1.spec_get(t),
    ensures
        values_from(p2, c) == values_from(p1, c),
    decreases 0x10000 - c,
{
    if 0 <= c < 0x10000 {
        lemma_values_from_congruence(p1, p2, c + 1);
        assert(p2.spec_get(c as SlotId) == p1.spec_get(c as SlotId));
    } else if c < 0 {
        assert(values_from(p2, c) =~= values_from(p1, c));
    }
}

/// Giving one fresh slot id a value adds exactly that value to the
/// multiset of values the page yields.
pub proof fn lemma_values_from_insert(p1: Page, p2: Page, sid: SlotId, v: Seq<u8>, c: int)
    requires
        forall|t: SlotId| t != sid ==> #[trigger] p2.spec_get(t) == p1.spec_get(t),
        p1.spec_get(sid) is None,
        p2.spec_get(sid) == Some(v),
        0 <= c <= 0x10000,
    ensures
        c <= sid ==> values_from(p2, c).to_multiset() == values_from(p1, c).to_multiset().insert(
            v,
        ),
        c > sid ==> values_from(p2, c) == values_from(p1, c),
    decreases 0x10000 - c,
{
    broadcast use vstd::seq_lib::group_to_multiset_ensures;

    if c == 0x10000 {
        assert(values_from(p2, c) =~= values_from(p1, c));
    } else {
        lemma_values_from_insert(p1, p2, sid, v, c + 1);
        let rest1 = values_from(p1, c + 1);
        let rest2 = values_from(p2, c + 1);
        if c > sid {
            assert(p2.spec_get(c as SlotId) == p1.spec_get(c as SlotId));
        } else if c == sid {
            assert(values_from(p2, c) == seq![v] + rest2);
            assert(values_from(p1, c) == rest1);
            assert(rest2 == rest1);
            lemma_cons_to_multiset(v, rest2);
        } else {
            assert(p2.spec_get(c as SlotId) == p1.spec_get(c as SlotId));
            match p1.spec_get(c as SlotId) {
                Some(w) => {
                    lemma_cons_to_multiset(w, rest1);
                    lemma_cons_to_multiset(w, rest2);
                    assert(rest1.to_multiset().insert(v).insert(w)
                        =~= rest1.to_multiset().insert(w).insert(v));
                },
                None => {},
            }
        }
    }
}

/// Removing one slot id takes exactly its value out of the multiset of
/// values the page yields.
pub proof fn lemma_values_from_remove(p1: Page, p2: Page, sid: SlotId, v: Seq<u8>, c: int)
    requires
        forall|t: SlotId| t != sid ==> #[trigger] p2.spec_get(t) == p1.spec_get(t),
        p1.spec_get(sid) == Some(v),
        p2.spec_get(sid) is None,
        0 <= c <= sid,
    ensures
        values_from(p1, c).to_multiset() == values_from(p2, c).to_multiset().insert(v),
{
    assert forall|t: SlotId| t != sid implies #[trigger] p1.spec_get(t) == p2.spec_get(t) by {}
    lemma_values_from_insert(p2, p1, sid, v, c);
}

/// A consuming iterator over the live records of one page, yielded in
/// ascending slot-id order.
#[derive(Debug)]
pub struct PageIter {
    /// The page being walked.
    pub page: Page,
    /// The next slot id to look at.
    pub cursor: u32,
}

impl PageIter {
    /// The page is well formed and the cursor within the slot-id range.
    pub open spec fn wf(&self) -> bool {
        &&& self.page.wf()
        &&& self.cursor <= 0x10000
    }

    /// The values the iterator has yet to yield, in order.
    pub open spec fn remaining(&self) -> Seq<Seq<u8>> {
        values_from(self.page, self.cursor as int)
    }

    /// The next record, in ascending slot-id order, until none are left.
    pub fn next(&mut self) -> (r: Option<Vec<u8>>)
        requires
            old(self).wf(),
        ensures
            final(self).wf(),
            final(self).page == old(self).page,
            match r {
                Some(v) => old(self).remaining() == seq![v@] + final(self).remaining(),
                None => old(self).remaining().len() == 0 && final(self).remaining().len() == 0,
            },
    {
        let ghost start = self.cursor as int;
        while self.cursor < 0x10000
            invariant
                self.wf(),
                self.page == old(self).page,
                start == old(self).cursor as int,
                start <= self.cursor as int,
                values_from(self.page, start) == values_from(self.page, self.cursor as int),
            decreases 0x10000 - self.cursor,
        {
            let c16 = (self.cursor as usize) as u16;
            let ghost before = self.cursor as int;
            let found = self.page.get_value(c16);
            self.cursor = self.cursor + 1;
            match found {
                Some(v) => {
                    proof {
                        assert(values_from(self.page, before) == seq![v@] + values_from(
                            self.page,
                            before + 1,
                        ));
                    }
                    return Some(v);
                },
                None => {
                    proof {
                        assert(values_from(self.page, before) == values_from(
                            self.page,
                            before + 1,
                        ));
                    }
                },
            }
        }
        None
    }
}

impl Page {
    /// A consuming iterator over the live records of the page, yielding
    /// record bytes in ascending slot-id order.
    pub fn into_iter(self) -> (it: PageIter)
        requires
            self.wf(),
        ensures
            it.wf(),
            it.page == self,
            it.remaining() == values_from(self, 0),
    {
        PageIter { page: self, cursor: 0 }
    }
}

/// What was put in stays retrievable: a page that maps `sid` to `v` keeps
/// returning `v` for `sid` across inserts and deletes of other slot ids,
/// and stops only when `sid` itself is deleted. The operations' own
/// contracts phrase their effect with `insert` and `remove` on the page's
/// live mapping; this spells out what those maps hand back.
pub proof fn lemma_value_retention(
    m: Map<SlotId, Seq<u8>>,
    sid: SlotId,
    v: Seq<u8>,
    other: SlotId,
    w: Seq<u8>,
)
    requires
        other != sid,
    ensures
        m.insert(sid, v).dom().contains(sid) && m.insert(sid, v)[sid] == v,
        m.insert(sid, v).insert(other, w).dom().contains(sid) && m.insert(sid, v).insert(
            other,
            w,
        )[sid] == v,
        m.insert(sid, v).remove(other).dom().contains(sid) && m.insert(sid, v).remove(
            other,
        )[sid] == v,
        !m.insert(sid, v).remove(sid).dom().contains(sid),
{
}


} // verus!
