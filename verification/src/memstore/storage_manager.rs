//! The in-memory storage manager and its value iterator.

use vstd::prelude::*;
use vstd::string::StringExecFns;
use crate::common::CrustyError;
use crate::heapstore::page::{
    id_used, ids_unique, index_of_id, lemma_index_of_id_bounds, lemma_index_of_id_match,
    lemma_index_of_id_push, lemma_index_of_id_remove,
};
use crate::ids::{ContainerId, Permissions, SlotId, TransactionId, ValueId};

verus! {

/// One container: records by stable slot id, and the last slot id handed
/// out, which the next insert follows.
#[derive(Debug)]
pub struct MemContainer {
    /// The container's id.
    pub cid: ContainerId,
    /// The live records as (slot id, bytes) pairs, slot ids unique.
    pub entries: Vec<(SlotId, Vec<u8>)>,
    /// The slot id of the latest insert, if any insert happened.
    pub last_slot: Option<SlotId>,
}

/// The slot ids of an entry list, in list order.
pub open spec fn entry_ids(entries: Seq<(SlotId, Vec<u8>)>) -> Seq<SlotId> {
    entries.map_values(|e: (SlotId, Vec<u8>)| e.0)
}

impl MemContainer {
    /// The bytes stored under a slot id, if that slot is live.
    pub open spec fn spec_get(&self, sid: SlotId) -> Option<Seq<u8>> {
        match index_of_id(entry_ids(self.entries@), sid) {
            Some(i) => Some(self.entries@[i].1@),
            None => None,
        }
    }

    /// The last insert position as an ordinal: one below zero when no
    /// insert has happened yet; the next insert takes the next ordinal.
    pub open spec fn last_ordinal(&self) -> int {
        match self.last_slot {
            None => -1,
            Some(l) => l as int,
        }
    }

    /// Well-formedness: unique slot ids, none above the last insert.
    pub open spec fn wf(&self) -> bool {
        &&& ids_unique(entry_ids(self.entries@))
        &&& match self.last_slot {
            Some(l) => forall|k: int|
                0 <= k < self.entries@.len() ==> (#[trigger] self.entries@[k]).0 <= l,
            None => self.entries@.len() == 0,
        }
    }
}

/// The container ids of a registry, in registry order.
pub open spec fn mem_container_ids(containers: Seq<MemContainer>) -> Seq<ContainerId> {
    containers.map_values(|c: MemContainer| c.cid)
}

/// The in-memory storage manager: a registry of containers and where the
/// embedding application persists its snapshot.
#[derive(Debug)]
pub struct StorageManager {
    /// The registered containers, ids unique.
    pub containers: Vec<MemContainer>,
    /// Where the embedding application persists this manager's snapshot.
    pub persist_path: String,
}

impl StorageManager {
    /// The registered container ids, in registry order.
    pub open spec fn cont_ids(&self) -> Seq<ContainerId> {
        mem_container_ids(self.containers@)
    }

    /// The registry position of a container, if registered.
    pub open spec fn cont_index_of(&self, cid: ContainerId) -> Option<int> {
        index_of_id(self.cont_ids(), cid)
    }

    /// Whether a container is registered.
    pub open spec fn has_container(&self, cid: ContainerId) -> bool {
        self.cont_index_of(cid) is Some
    }

    /// The container with the given id, meaningful only when registered.
    pub open spec fn container_of(&self, cid: ContainerId) -> MemContainer {
        self.containers@[self.cont_index_of(cid).unwrap()]
    }

    /// The bytes stored under a locator: the locator must name a container
    /// and a slot and nothing else, as this manager's locators do.
    pub open spec fn value_at(&self, vid: ValueId) -> Option<Seq<u8>> {
        if vid.segment_id is None && vid.page_id is None && vid.slot_id is Some
            && self.has_container(vid.container_id) {
            self.container_of(vid.container_id).spec_get(vid.slot_id.unwrap())
        } else {
            None
        }
    }

    /// Whether another insert into the container has a slot id to hand out.
    pub open spec fn can_insert(&self, cid: ContainerId) -> bool {
        match self.container_of(cid).last_slot {
            None => true,
            Some(l) => l < u16::MAX,
        }
    }

    /// Well-formedness: unique container ids, each container well formed.
    pub open spec fn wf(&self) -> bool {
        &&& ids_unique(self.cont_ids())
        &&& forall|i: int| 0 <= i < self.containers@.len() ==> (#[trigger] self.containers@[i]).wf()
    }

    /// A fresh manager persisting under the given path, with no
    /// containers; the embedding application restores any persisted
    /// snapshot through `restore`.
    pub fn new(persist_path: String) -> (sm: Self)
        ensures
            sm.wf(),
            sm.cont_ids().len() == 0,
            sm.persist_path@ == persist_path@,
    {
        let sm = StorageManager { containers: Vec::new(), persist_path };
        proof {
            assert(sm.cont_ids() =~= Seq::<ContainerId>::empty());
        }
        sm
    }

    /// A fresh manager for tests, persisted nowhere.
    pub fn new_test_sm() -> (sm: Self)
        ensures
            sm.wf(),
            sm.cont_ids().len() == 0,
    {
        StorageManager::new(String::new())
    }

    /// The registry position of a container, if registered.
    fn find_container(&self, cid: ContainerId) -> (r: Option<usize>)
        requires
            self.wf(),
        ensures
            match r {
                Some(i) => self.cont_index_of(cid) == Some(i as int) && i
                    < self.containers@.len(),
                None => !self.has_container(cid),
            },
    {
        let mut i: usize = 0;
        while i < self.containers.len()
            invariant
                self.wf(),
                i <= self.containers@.len(),
                forall|j: int| 0 <= j < i ==> #[trigger] self.cont_ids()[j] != cid,
            decreases self.containers@.len() - i,
        {
            if self.containers[i].cid == cid {
                proof {
                    assert(self.cont_ids()[i as int] == cid);
                    lemma_index_of_id_match(self.cont_ids(), cid, i as int);
                }
                return Some(i);
            }
            proof {
                assert(self.cont_ids()[i as int] == self.containers@[i as int].cid);
            }
            i = i + 1;
        }
        proof {
            lemma_index_of_id_bounds(self.cont_ids(), cid);
        }
        None
    }

    /// Register a container, creating it when absent; already registered
    /// containers are left alone.
    pub fn create_container(&mut self, container_id: ContainerId) -> (r: Result<(), CrustyError>)
        requires
            old(self).wf(),
        ensures
            final(self).wf(),
            r is Ok,
            old(self).has_container(container_id) ==> *final(self) == *old(self),
            !old(self).has_container(container_id) ==> {
                &&& final(self).cont_ids() == old(self).cont_ids().push(container_id)
                &&& final(self).container_of(container_id).entries@.len() == 0
                &&& forall|c: ContainerId|
                    c != container_id && old(self).has_container(c) ==> #[trigger] final(self).container_of(c) == old(self).container_of(c)
            },
    {
        match self.find_container(container_id) {
            Some(_) => Ok(()),
            None => {
                let ghost pre = *self;
                self.containers.push(
                    MemContainer { cid: container_id, entries: Vec::new(), last_slot: None },
                );
                proof {
                    assert(self.cont_ids() =~= pre.cont_ids().push(container_id));
                    lemma_mem_registry_push(pre, *self, container_id);
                    assert forall|c: ContainerId|
                        c != container_id && pre.has_container(c) implies #[trigger] self.container_of(
                        c,
                    ) == pre.container_of(c) by {
                        assert(self.has_container(c) && self.container_of(c) == pre.container_of(
                            c,
                        ));
                    }
                }
                Ok(())
            },
        }
    }

    /// Unregister a container and drop its records. Unregistered ids are
    /// left alone.
    pub fn remove_container(&mut self, container_id: ContainerId) -> (r: Result<(), CrustyError>)
        requires
            old(self).wf(),
        ensures
            final(self).wf(),
            r is Ok,
            !final(self).has_container(container_id),
            forall|c: ContainerId|
                c != container_id && old(self).has_container(c) ==> #[trigger] final(self).has_container(c),
            forall|c: ContainerId|
                c != container_id && old(self).has_container(c) ==> #[trigger] final(self).container_of(c) == old(self).container_of(c),
    {
        let ghost pre = *self;
        match self.find_container(container_id) {
            None => {
                proof {
                    lemma_index_of_id_bounds(self.cont_ids(), container_id);
                    assert forall|c: ContainerId|
                        c != container_id && pre.has_container(c) implies #[trigger] self.has_container(
                        c,
                    ) && self.container_of(c) == pre.container_of(c) by {}
                    assert forall|c: ContainerId|
                        c != container_id && pre.has_container(c) implies #[trigger] self.container_of(
                        c,
                    ) == pre.container_of(c) by {
                        assert(self.has_container(c));
                    }
                }
                Ok(())
            },
            Some(idx) => {
                self.containers.remove(idx);
                proof {
                    pre.containers@.remove_ensures(idx as int);
                    pre.cont_ids().remove_ensures(idx as int);
                    assert(self.containers@ =~= pre.containers@.remove(idx as int));
                    assert(self.cont_ids() =~= pre.cont_ids().remove(idx as int));
                    assert(ids_unique(self.cont_ids())) by {
                        assert forall|a: int, b: int|
                            0 <= a < b < self.cont_ids().len() implies self.cont_ids()[a]
                            != self.cont_ids()[b] by {
                            let oa = if a < idx as int { a } else { a + 1 };
                            let ob = if b < idx as int { b } else { b + 1 };
                            assert(self.cont_ids()[a] == pre.cont_ids()[oa]);
                            assert(self.cont_ids()[b] == pre.cont_ids()[ob]);
                        }
                    }
                    lemma_index_of_id_bounds(pre.cont_ids(), container_id);
                    lemma_index_of_id_remove(pre.cont_ids(), idx as int, container_id);
                    lemma_index_of_id_match(pre.cont_ids(), container_id, idx as int);
                    assert forall|c: ContainerId|
                        c != container_id && pre.has_container(c) implies #[trigger] self.has_container(
                        c,
                    ) && self.container_of(c) == pre.container_of(c) by {
                        lemma_index_of_id_remove(pre.cont_ids(), idx as int, c);
                        lemma_index_of_id_bounds(pre.cont_ids(), c);
                        let j = pre.cont_index_of(c).unwrap();
                        if j < idx as int {
                            assert(self.containers@[j] == pre.containers@[j]);
                        } else {
                            assert(j > idx as int);
                            assert(self.containers@[j - 1] == pre.containers@[j]);
                        }
                    }
                    assert forall|c: ContainerId|
                        c != container_id && pre.has_container(c) implies #[trigger] self.container_of(
                        c,
                    ) == pre.container_of(c) by {
                        assert(self.has_container(c) && self.container_of(c) == pre.container_of(
                            c,
                        ));
                    }
                }
                Ok(())
            },
        }
    }

    /// Insert the bytes into the container under the slot id after the
    /// latest insert. The container must be registered and the slot-id
    /// range not exhausted.
    pub fn insert_value(
        &mut self,
        container_id: ContainerId,
        value: Vec<u8>,
        _tid: TransactionId,
    ) -> (r: ValueId)
        requires
            old(self).wf(),
            old(self).has_container(container_id),
            old(self).can_insert(container_id),
        ensures
            final(self).wf(),
            final(self).cont_ids() == old(self).cont_ids(),
            r.container_id == container_id,
            r.segment_id is None,
            r.page_id is None,
            r.slot_id matches Some(sid) && {
                &&& sid == match old(self).container_of(container_id).last_slot {
                    None => 0,
                    Some(l) => l + 1,
                }
                &&& !id_used(entry_ids(old(self).container_of(container_id).entries@), sid)
                &&& final(self).container_of(container_id).entries@ == old(self).container_of(
                    container_id,
                ).entries@.push((sid, value))
                &&& final(self).container_of(container_id).last_slot == Some(sid)
                &&& final(self).value_at(r) == Some(value@)
                &&& forall|t: SlotId|
                    t != sid ==> #[trigger] final(self).container_of(container_id).spec_get(t)
                        == old(self).container_of(container_id).spec_get(t)
            },
            forall|c: ContainerId|
                c != container_id && old(self).has_container(c) ==> #[trigger] final(self).container_of(c) == old(self).container_of(c),
    {
        let ghost pre = *self;
        let idx = match self.find_container(container_id) {
            Some(i) => i,
            None => {
                proof {
                    assert(false);
                }
                0
            },
        };
        let mut cont = self.containers.remove(idx);
        let next: SlotId = match cont.last_slot {
            None => 0,
            Some(l) => l + 1,
        };
        proof {
            lemma_index_of_id_bounds(entry_ids(cont.entries@), next);
            if id_used(entry_ids(cont.entries@), next) {
                let j = index_of_id(entry_ids(cont.entries@), next).unwrap();
                assert(entry_ids(cont.entries@)[j] == next);
                assert(cont.entries@[j].0 == next);
            }
        }
        let ghost entries_before = cont.entries@;
        cont.entries.push((next, value));
        cont.last_slot = Some(next);
        let ghost cont_after = cont;
        self.containers.insert(idx, cont);
        let rid = ValueId {
            container_id,
            segment_id: None,
            page_id: None,
            slot_id: Some(next),
        };
        proof {
            pre.containers@.remove_ensures(idx as int);
            assert(self.containers@ =~= pre.containers@.update(idx as int, cont_after));
            assert(self.cont_ids() =~= pre.cont_ids());
            assert(entry_ids(cont_after.entries@) =~= entry_ids(entries_before).push(next));
            assert(cont_after.wf()) by {
                assert(ids_unique(entry_ids(cont_after.entries@))) by {
                    assert forall|a: int, b: int|
                        0 <= a < b < entry_ids(cont_after.entries@).len() implies entry_ids(
                        cont_after.entries@,
                    )[a] != entry_ids(cont_after.entries@)[b] by {
                        if b == entry_ids(cont_after.entries@).len() - 1 {
                            assert(pre.container_of(container_id).entries@[a].0 < next
                                || pre.container_of(container_id).last_slot is None);
                        }
                    }
                }
                assert forall|k: int|
                    0 <= k < cont_after.entries@.len() implies (
                #[trigger] cont_after.entries@[k]).0 <= next by {
                    if k < cont_after.entries@.len() - 1 {
                        assert(cont_after.entries@[k] == entries_before[k]);
                    }
                }
            }
            assert(self.wf());
            lemma_index_of_id_push(entry_ids(entries_before), next, next);
            assert(self.container_of(container_id) == cont_after);
            assert(self.container_of(container_id).spec_get(next) == Some(value@));
            assert(self.value_at(rid) == Some(value@));
            assert forall|t: SlotId| t != next implies #[trigger] self.container_of(
                container_id,
            ).spec_get(t) == pre.container_of(container_id).spec_get(t) by {
                lemma_index_of_id_push(entry_ids(entries_before), next, t);
                lemma_index_of_id_bounds(entry_ids(entries_before), t);
            }
            assert forall|c: ContainerId|
                c != container_id && pre.has_container(c) implies #[trigger] self.container_of(c)
                == pre.container_of(c) by {
                lemma_index_of_id_bounds(pre.cont_ids(), c);
                lemma_index_of_id_bounds(pre.cont_ids(), container_id);
            }
        }
        rid
    }

    /// Insert several records in order: one locator per record, in order,
    /// each record afterwards readable under its locator. The container
    /// must be registered with slot-id room for the whole batch.
    pub fn insert_values(
        &mut self,
        container_id: ContainerId,
        values: Vec<Vec<u8>>,
        tid: TransactionId,
    ) -> (r: Vec<ValueId>)
        requires
            old(self).wf(),
            old(self).has_container(container_id),
            old(self).container_of(container_id).last_ordinal() + values@.len() <= u16::MAX,
        ensures
            final(self).wf(),
            final(self).cont_ids() == old(self).cont_ids(),
            r@.len() == values@.len(),
            forall|j: int|
                0 <= j < r@.len() ==> final(self).value_at(#[trigger] r@[j]) == Some(
                    values@[j]@,
                ) && r@[j].container_id == container_id && r@[j].segment_id is None
                    && r@[j].page_id is None,
            forall|j: int|
                0 <= j < r@.len() ==> ((#[trigger] r@[j]).slot_id matches Some(s) && s as int
                    == old(self).container_of(container_id).last_ordinal() + 1 + j),
            final(self).container_of(container_id).entries@.len() == old(self).container_of(
                container_id,
            ).entries@.len() + values@.len(),
            forall|j: int|
                0 <= j < values@.len() ==> {
                    let e = #[trigger] final(self).container_of(container_id).entries@[old(
                        self,
                    ).container_of(container_id).entries@.len() + j];
                    e.0 as int == old(self).container_of(container_id).last_ordinal() + 1 + j
                        && e.1@ == values@[j]@
                },
    {
        let ghost pre = *self;
        let mut ret: Vec<ValueId> = Vec::new();
        let mut i: usize = 0;
        while i < values.len()
            invariant
                self.wf(),
                pre == *old(self),
                pre.wf(),
                pre.has_container(container_id),
                self.has_container(container_id),
                self.cont_ids() == pre.cont_ids(),
                i <= values@.len(),
                ret@.len() == i,
                pre.container_of(container_id).last_ordinal() + values@.len() <= u16::MAX,
                self.container_of(container_id).last_ordinal() == pre.container_of(
                    container_id,
                ).last_ordinal() + i,
                forall|j: int|
                    0 <= j < i ==> self.value_at(#[trigger] ret@[j]) == Some(values@[j]@)
                        && ret@[j].container_id == container_id && ret@[j].segment_id is None
                        && ret@[j].page_id is None,
                forall|j: int|
                    0 <= j < i ==> ((#[trigger] ret@[j]).slot_id matches Some(s) && s as int
                        == pre.container_of(container_id).last_ordinal() + 1 + j),
                self.container_of(container_id).entries@.len() == pre.container_of(
                    container_id,
                ).entries@.len() + i,
                forall|j: int|
                    0 <= j < i ==> {
                        let e = #[trigger] self.container_of(container_id).entries@[
                            pre.container_of(container_id).entries@.len() + j
                        ];
                        e.0 as int == pre.container_of(container_id).last_ordinal() + 1 + j
                            && e.1@ == values@[j]@
                    },
            decreases values@.len() - i,
        {
            let v = values[i].clone();
            let ghost pre_step = *self;
            proof {
                assert(pre_step.can_insert(container_id));
            }
            let vid = self.insert_value(container_id, v, tid);
            proof {
                assert forall|j: int|
                    0 <= j < i implies self.value_at(#[trigger] ret@[j]) == Some(
                    values@[j]@,
                ) by {
                    let w = ret@[j];
                    let sid = vid.slot_id.unwrap();
                    if w.container_id == container_id {
                        assert(pre_step.container_of(container_id).spec_get(sid) is None) by {
                            lemma_index_of_id_bounds(
                                entry_ids(pre_step.container_of(container_id).entries@),
                                sid,
                            );
                        }
                        assert(w.slot_id.unwrap() != sid);
                        assert(self.container_of(w.container_id).spec_get(w.slot_id.unwrap())
                            == pre_step.container_of(w.container_id).spec_get(
                            w.slot_id.unwrap(),
                        ));
                    } else {
                        assert(self.container_of(w.container_id) == pre_step.container_of(
                            w.container_id,
                        ));
                    }
                }
            }
            ret.push(vid);
            i = i + 1;
        }
        ret
    }

    /// The bytes stored under the locator. Fails when the locator names no
    /// live record.
    pub fn get_value(
        &self,
        id: ValueId,
        _tid: TransactionId,
        _perm: Permissions,
    ) -> (r: Result<Vec<u8>, CrustyError>)
        requires
            self.wf(),
        ensures
            match self.value_at(id) {
                Some(v) => (r matches Ok(b) && b@ == v),
                None => r is Err,
            },
    {
        let sid = match id.slot_id {
            Some(s) => s,
            None => {
                return Err(CrustyError::ExecutionError(String::from_str("record not found")));
            },
        };
        match (id.segment_id, id.page_id) {
            (None, None) => {},
            _ => {
                return Err(CrustyError::ExecutionError(String::from_str("record not found")));
            },
        }
        let idx = match self.find_container(id.container_id) {
            Some(i) => i,
            None => {
                return Err(CrustyError::ExecutionError(String::from_str(
                    "container not found",
                )));
            },
        };
        let cont = &self.containers[idx];
        let mut k: usize = 0;
        while k < cont.entries.len()
            invariant
                self.wf(),
                idx < self.containers@.len(),
                self.cont_index_of(id.container_id) == Some(idx as int),
                id.segment_id is None,
                id.page_id is None,
                id.slot_id == Some(sid),
                cont == self.containers@[idx as int],
                k <= cont.entries@.len(),
                forall|j: int| 0 <= j < k ==> #[trigger] entry_ids(cont.entries@)[j] != sid,
            decreases cont.entries@.len() - k,
        {
            if cont.entries[k].0 == sid {
                proof {
                    assert(entry_ids(cont.entries@)[k as int] == sid);
                    assert(ids_unique(entry_ids(cont.entries@)));
                    lemma_index_of_id_match(entry_ids(cont.entries@), sid, k as int);
                }
                let v = cont.entries[k].1.clone();
                proof {
                    assert(v@ =~= cont.entries@[k as int].1@);
                }
                return Ok(v);
            }
            proof {
                assert(entry_ids(cont.entries@)[k as int] == cont.entries@[k as int].0);
            }
            k = k + 1;
        }
        proof {
            lemma_index_of_id_bounds(entry_ids(cont.entries@), sid);
        }
        Err(CrustyError::ExecutionError(String::from_str("record not found")))
    }

    /// Delete the record under the locator. Deleting an absent record, or
    /// deleting in an unregistered container, silently succeeds and
    /// changes nothing.
    pub fn delete_value(&mut self, id: ValueId, _tid: TransactionId) -> (r: Result<
        (),
        CrustyError,
    >)
        requires
            old(self).wf(),
        ensures
            final(self).wf(),
            final(self).cont_ids() == old(self).cont_ids(),
            r is Ok,
            !old(self).has_container(id.container_id) ==> *final(self) == *old(self),
            old(self).value_at(id) is None ==> forall|c: ContainerId|
                old(self).has_container(c) ==> #[trigger] final(self).container_of(c) == old(self).container_of(c),
            old(self).value_at(id) matches Some(_) ==> {
                &&& final(self).value_at(id) is None
                &&& forall|t: SlotId|
                    t != id.slot_id.unwrap() ==> #[trigger] final(self).container_of(
                        id.container_id,
                    ).spec_get(t) == old(self).container_of(id.container_id).spec_get(t)
                &&& final(self).container_of(id.container_id).last_slot == old(self).container_of(
                    id.container_id,
                ).last_slot
                &&& forall|c: ContainerId|
                    c != id.container_id && old(self).has_container(c) ==> #[trigger] final(self).container_of(c) == old(self).container_of(c)
            },
    {
        let ghost pre = *self;
        let idx = match self.find_container(id.container_id) {
            Some(i) => i,
            None => {
                return Ok(());
            },
        };
        let sid = match id.slot_id {
            Some(s) => s,
            None => {
                return Ok(());
            },
        };
        match (id.segment_id, id.page_id) {
            (None, None) => {},
            _ => {
                return Ok(());
            },
        }
        let mut cont = self.containers.remove(idx);
        let ghost cont_before = cont;
        let mut k: usize = 0;
        let n = cont.entries.len();
        let mut found: Option<usize> = None;
        while k < n
            invariant
                k <= n,
                n == cont.entries@.len(),
                cont == cont_before,
                match found {
                    Some(f) => f < n && entry_ids(cont.entries@)[f as int] == sid,
                    None => forall|j: int|
                        0 <= j < k ==> #[trigger] entry_ids(cont.entries@)[j] != sid,
                },
            decreases n - k,
        {
            if cont.entries[k].0 == sid {
                proof {
                    assert(entry_ids(cont.entries@)[k as int] == sid);
                }
                found = Some(k);
                k = n;
            } else {
                proof {
                    assert(entry_ids(cont.entries@)[k as int] == cont.entries@[k as int].0);
                }
                k = k + 1;
            }
        }
        match found {
            Some(f) => {
                proof {
                    lemma_index_of_id_match(entry_ids(cont.entries@), sid, f as int);
                }
                cont.entries.remove(f);
                proof {
                    cont_before.entries@.remove_ensures(f as int);
                    assert(entry_ids(cont.entries@) =~= entry_ids(cont_before.entries@).remove(
                        f as int,
                    ));
                    assert(cont.wf()) by {
                        assert(ids_unique(entry_ids(cont.entries@))) by {
                            assert forall|a: int, b: int|
                                0 <= a < b < entry_ids(cont.entries@).len() implies entry_ids(
                                cont.entries@,
                            )[a] != entry_ids(cont.entries@)[b] by {
                                let oa = if a < f as int { a } else { a + 1 };
                                let ob = if b < f as int { b } else { b + 1 };
                                assert(entry_ids(cont.entries@)[a] == entry_ids(
                                    cont_before.entries@,
                                )[oa]);
                                assert(entry_ids(cont.entries@)[b] == entry_ids(
                                    cont_before.entries@,
                                )[ob]);
                            }
                        }
                        match cont.last_slot {
                            Some(l) => {
                                assert forall|t: int|
                                    0 <= t < cont.entries@.len() implies (
                                #[trigger] cont.entries@[t]).0 <= l by {
                                    let ot = if t < f as int { t } else { t + 1 };
                                    assert(cont.entries@[t] == cont_before.entries@[ot]);
                                }
                            },
                            None => {},
                        }
                    }
                }
            },
            None => {
                proof {
                    lemma_index_of_id_bounds(entry_ids(cont.entries@), sid);
                }
            },
        }
        let ghost cont_after = cont;
        self.containers.insert(idx, cont);
        proof {
            pre.containers@.remove_ensures(idx as int);
            assert(self.containers@ =~= pre.containers@.update(idx as int, cont_after));
            assert(self.cont_ids() =~= pre.cont_ids());
            assert(self.wf());
            assert(self.container_of(id.container_id) == cont_after);
            match found {
                Some(f) => {
                    assert forall|t: SlotId| t != sid implies #[trigger] cont_after.spec_get(t)
                        == cont_before.spec_get(t) by {
                        lemma_index_of_id_remove(
                            entry_ids(cont_before.entries@),
                            f as int,
                            t,
                        );
                        lemma_index_of_id_bounds(entry_ids(cont_before.entries@), t);
                        cont_before.entries@.remove_ensures(f as int);
                    }
                    assert(cont_after.spec_get(sid) is None) by {
                        lemma_index_of_id_remove(
                            entry_ids(cont_before.entries@),
                            f as int,
                            sid,
                        );
                        lemma_index_of_id_match(
                            entry_ids(cont_before.entries@),
                            sid,
                            f as int,
                        );
                    }
                },
                None => {
                    assert(cont_after == cont_before);
                    assert(pre.value_at(id) is None);
                },
            }
            assert forall|c: ContainerId|
                c != id.container_id && pre.has_container(c) implies #[trigger] self.container_of(
                c,
            ) == pre.container_of(c) by {
                lemma_index_of_id_bounds(pre.cont_ids(), c);
                lemma_index_of_id_bounds(pre.cont_ids(), id.container_id);
            }
        }
        Ok(())
    }

    /// Replace the record under the locator: delete it, then insert the
    /// bytes afresh; the locator that comes back names the new record and
    /// may differ from the old one, which then no longer reads back.
    /// Succeeds whenever the container is registered and has a slot id
    /// left to hand out.
    pub fn update_value(
        &mut self,
        value: Vec<u8>,
        id: ValueId,
        tid: TransactionId,
    ) -> (r: Result<ValueId, CrustyError>)
        requires
            old(self).wf(),
        ensures
            final(self).wf(),
            final(self).cont_ids() == old(self).cont_ids(),
            !old(self).has_container(id.container_id) ==> r is Err && *final(self) == *old(self),
            old(self).has_container(id.container_id) && old(self).can_insert(id.container_id)
                ==> r is Ok,
            r matches Ok(nvid) ==> {
                &&& final(self).value_at(nvid) == Some(value@)
                &&& !(nvid.container_id == id.container_id && nvid.segment_id == id.segment_id
                    && nvid.page_id == id.page_id && nvid.slot_id == id.slot_id) ==> final(self).value_at(id) is None
            },
    {
        match self.find_container(id.container_id) {
            Some(_) => {},
            None => {
                return Err(CrustyError::CrustyError(String::from_str("container not found")));
            },
        }
        let ghost pre = *self;
        match self.delete_value(id, tid) {
            Ok(()) => {},
            Err(e) => {
                proof {
                    assert(false);
                }
                return Err(e);
            },
        }
        let ghost mid = *self;
        proof {
            assert(mid.has_container(id.container_id));
            assert(mid.container_of(id.container_id).last_slot == pre.container_of(
                id.container_id,
            ).last_slot) by {
                if pre.value_at(id) is None {
                    assert(mid.container_of(id.container_id) == pre.container_of(
                        id.container_id,
                    ));
                }
            }
            assert(mid.value_at(id) is None) by {
                if pre.value_at(id) is None {
                    if id.segment_id is None && id.page_id is None && id.slot_id is Some {
                        assert(mid.container_of(id.container_id) == pre.container_of(
                            id.container_id,
                        ));
                    }
                }
            }
        }
        let can: bool = match self.find_container(id.container_id) {
            Some(ci) => {
                proof {
                    lemma_index_of_id_bounds(self.cont_ids(), id.container_id);
                }
                match self.containers[ci].last_slot {
                    None => true,
                    Some(l) => l < u16::MAX,
                }
            },
            None => false,
        };
        if !can {
            return Err(CrustyError::CrustyError(String::from_str("slot ids exhausted")));
        }
        let rid = self.insert_value(id.container_id, value, tid);
        proof {
            let sid = rid.slot_id.unwrap();
            if !(rid.container_id == id.container_id && rid.segment_id == id.segment_id
                && rid.page_id == id.page_id && rid.slot_id == id.slot_id) {
                if id.segment_id is None && id.page_id is None && id.slot_id is Some
                    && id.container_id == rid.container_id {
                    assert(id.slot_id.unwrap() != sid);
                    assert(self.container_of(id.container_id).spec_get(id.slot_id.unwrap())
                        == mid.container_of(id.container_id).spec_get(id.slot_id.unwrap()));
                }
                assert(self.value_at(id) is None);
            }
        }
        Ok(rid)
    }

    /// A snapshot of every container's records, for the embedding
    /// application to persist: one entry per container, in registry order,
    /// carrying the container's id and a copy of its records. The snapshot
    /// of a well-formed store is always restorable.
    pub fn snapshot(&self) -> (r: Vec<(ContainerId, Vec<(SlotId, Vec<u8>)>)>)
        requires
            self.wf(),
        ensures
            r@.len() == self.containers@.len(),
            forall|i: int|
                0 <= i < r@.len() ==> (#[trigger] r@[i]).0 == self.containers@[i].cid && r@[
                    i
                ].1@.len() == self.containers@[i].entries@.len() && forall|k: int|
                    0 <= k < r@[i].1@.len() ==> (#[trigger] r@[i].1@[k]).0
                        == self.containers@[i].entries@[k].0 && r@[i].1@[k].1@
                        == self.containers@[i].entries@[k].1@,
            snapshot_restorable(r@),
    {
        let mut out: Vec<(ContainerId, Vec<(SlotId, Vec<u8>)>)> = Vec::new();
        let mut i: usize = 0;
        while i < self.containers.len()
            invariant
                self.wf(),
                i <= self.containers@.len(),
                out@.len() == i,
                forall|t: int|
                    0 <= t < i ==> (#[trigger] out@[t]).0 == self.containers@[t].cid && out@[
                        t
                    ].1@.len() == self.containers@[t].entries@.len() && forall|k: int|
                        0 <= k < out@[t].1@.len() ==> (#[trigger] out@[t].1@[k]).0
                            == self.containers@[t].entries@[k].0 && out@[t].1@[k].1@
                            == self.containers@[t].entries@[k].1@,
            decreases self.containers@.len() - i,
        {
            let cid = self.containers[i].cid;
            let mut entries: Vec<(SlotId, Vec<u8>)> = Vec::new();
            let n = self.containers[i].entries.len();
            let mut k: usize = 0;
            while k < n
                invariant
                    k <= n,
                    i < self.containers@.len(),
                    n == self.containers@[i as int].entries@.len(),
                    entries@.len() == k,
                    forall|t: int|
                        0 <= t < k ==> (#[trigger] entries@[t]).0
                            == self.containers@[i as int].entries@[t].0 && entries@[t].1@
                            == self.containers@[i as int].entries@[t].1@,
                decreases n - k,
            {
                let sid = self.containers[i].entries[k].0;
                let bytes = self.containers[i].entries[k].1.clone();
                proof {
                    assert(bytes@ =~= self.containers@[i as int].entries@[k as int].1@);
                }
                entries.push((sid, bytes));
                k = k + 1;
            }
            out.push((cid, entries));
            i = i + 1;
        }
        proof {
            assert(snapshot_restorable(out@)) by {
                assert(ids_unique(snapshot_cids(out@))) by {
                    assert forall|a: int, b: int|
                        0 <= a < b < snapshot_cids(out@).len() implies snapshot_cids(out@)[a]
                        != snapshot_cids(out@)[b] by {
                        assert(snapshot_cids(out@)[a] == self.cont_ids()[a]);
                        assert(snapshot_cids(out@)[b] == self.cont_ids()[b]);
                    }
                }
                assert forall|i: int|
                    0 <= i < out@.len() implies ids_unique(entry_ids((#[trigger] out@[i]).1@)) by {
                    assert forall|a: int, b: int|
                        0 <= a < b < entry_ids(out@[i].1@).len() implies entry_ids(out@[i].1@)[a]
                        != entry_ids(out@[i].1@)[b] by {
                        assert(entry_ids(out@[i].1@)[a] == out@[i].1@[a].0);
                        assert(entry_ids(out@[i].1@)[b] == out@[i].1@[b].0);
                        assert(entry_ids(self.containers@[i].entries@)[a]
                            == self.containers@[i].entries@[a].0);
                        assert(entry_ids(self.containers@[i].entries@)[b]
                            == self.containers@[i].entries@[b].0);
                    }
                }
            }
        }
        out
    }

    /// Nothing to do here: the embedding application takes a `snapshot`
    /// and persists it under `persist_path`.
    pub fn shutdown(&self) {
    }

    /// Nothing is held per transaction, so nothing happens.
    pub fn transaction_finished(&self, _tid: TransactionId) {
    }

    /// Rebuild a manager from a persisted snapshot: one container per
    /// snapshot entry, in order, holding exactly the entry's records, with
    /// the last insert position resumed at the highest live slot id.
    /// Succeeds exactly when no container id and no slot id repeats.
    pub fn restore(
        persist_path: String,
        data: Vec<(ContainerId, Vec<(SlotId, Vec<u8>)>)>,
    ) -> (r: Result<Self, CrustyError>)
        ensures
            r is Ok <==> snapshot_restorable(data@),
            r matches Ok(sm) ==> {
                &&& sm.wf()
                &&& sm.persist_path@ == persist_path@
                &&& sm.containers@.len() == data@.len()
                &&& forall|i: int|
                    0 <= i < data@.len() ==> {
                        let c = #[trigger] sm.containers@[i];
                        &&& c.cid == data@[i].0
                        &&& c.entries == data@[i].1
                        &&& match c.last_slot {
                            None => data@[i].1@.len() == 0,
                            Some(l) => (exists|a: int|
                                0 <= a < data@[i].1@.len() && (#[trigger] data@[i].1@[a]).0 == l)
                                && forall|a: int|
                                0 <= a < data@[i].1@.len() ==> (#[trigger] data@[i].1@[a]).0 <= l,
                        }
                    }
            },
    {
        let mut sm = StorageManager { containers: Vec::new(), persist_path };
        proof {
            assert(sm.cont_ids() =~= Seq::<ContainerId>::empty());
            assert(sm.cont_ids() =~= snapshot_cids(data@).subrange(0, 0));
        }
        let mut d = data;
        let n = d.len();
        let mut i: usize = 0;
        while i < n
            invariant
                sm.wf(),
                i <= n,
                n == data@.len(),
                d@ == data@.subrange(i as int, n as int),
                sm.containers@.len() == i,
                sm.persist_path@ == persist_path@,
                forall|t: int| 0 <= t < i ==> #[trigger] sm.cont_ids()[t] == data@[t].0,
                forall|t: int| 0 <= t < i ==> ids_unique(entry_ids((#[trigger] data@[t]).1@)),
                forall|t: int|
                    0 <= t < i ==> {
                        let c = #[trigger] sm.containers@[t];
                        &&& c.cid == data@[t].0
                        &&& c.entries == data@[t].1
                        &&& match c.last_slot {
                            None => data@[t].1@.len() == 0,
                            Some(l) => (exists|a: int|
                                0 <= a < data@[t].1@.len() && (#[trigger] data@[t].1@[a]).0 == l)
                                && forall|a: int|
                                0 <= a < data@[t].1@.len() ==> (#[trigger] data@[t].1@[a]).0 <= l,
                        }
                    },
            decreases n - i,
        {
            let ghost d_before = d@;
            let (cid, entries) = d.remove(0);
            proof {
                assert(d_before[0] == data@[i as int]);
                assert(cid == data@[i as int].0);
                assert(entries == data@[i as int].1);
                assert(d@ =~= data@.subrange(i as int + 1, n as int));
            }
            match sm.find_container(cid) {
                Some(dup) => {
                    proof {
                        lemma_index_of_id_bounds(sm.cont_ids(), cid);
                        let t0 = sm.cont_index_of(cid).unwrap();
                        assert(snapshot_cids(data@)[t0] == data@[t0].0);
                        assert(snapshot_cids(data@)[i as int] == cid);
                        assert(!ids_unique(snapshot_cids(data@)));
                    }
                    return Err(CrustyError::CrustyError(String::from_str(
                        "repeated container id in snapshot",
                    )));
                },
                None => {},
            }
            // validate slot ids and find the highest
            let m = entries.len();
            let mut last: Option<SlotId> = None;
            let mut k: usize = 0;
            while k < m
                invariant
                    k <= m,
                    m == entries@.len(),
                    entries == data@[i as int].1,
                    i < n,
                    n == data@.len(),
                    forall|a: int, b: int|
                        0 <= a < b < k ==> entry_ids(entries@)[a] != entry_ids(entries@)[b],
                    match last {
                        Some(l) => (exists|a: int|
                            0 <= a < k && (#[trigger] entries@[a]).0 == l) && forall|a: int|
                            0 <= a < k ==> (#[trigger] entries@[a]).0 <= l,
                        None => k == 0,
                    },
                decreases m - k,
            {
                let skb = entries[k].0;
                let mut j: usize = 0;
                while j < k
                    invariant
                        j <= k,
                        k < m,
                        m == entries@.len(),
                        entries == data@[i as int].1,
                        i < n,
                        n == data@.len(),
                        skb == entries@[k as int].0,
                        forall|a: int| 0 <= a < j ==> #[trigger] entry_ids(entries@)[a] != skb,
                    decreases k - j,
                {
                    if entries[j].0 == skb {
                        proof {
                            assert(entry_ids(entries@)[j as int] == entries@[j as int].0);
                            assert(entry_ids(entries@)[k as int] == entries@[k as int].0);
                            assert(!ids_unique(entry_ids(data@[i as int].1@)));
                        }
                        return Err(CrustyError::CrustyError(String::from_str(
                            "repeated slot id in snapshot",
                        )));
                    }
                    proof {
                        assert(entry_ids(entries@)[j as int] == entries@[j as int].0);
                    }
                    j = j + 1;
                }
                proof {
                    assert(entry_ids(entries@)[k as int] == entries@[k as int].0);
                }
                last = match last {
                    None => Some(skb),
                    Some(l) => if skb > l {
                        Some(skb)
                    } else {
                        Some(l)
                    },
                };
                k = k + 1;
            }
            let cont = MemContainer { cid, entries, last_slot: last };
            proof {
                assert(cont.wf()) by {
                    assert(ids_unique(entry_ids(cont.entries@)));
                }
            }
            let ghost pre = sm;
            sm.containers.push(cont);
            proof {
                assert(sm.cont_ids() =~= pre.cont_ids().push(cid));
                lemma_mem_registry_push(pre, sm, cid);
            }
            i = i + 1;
        }
        proof {
            assert(snapshot_restorable(data@)) by {
                assert(ids_unique(snapshot_cids(data@))) by {
                    assert forall|a: int, b: int|
                        0 <= a < b < snapshot_cids(data@).len() implies snapshot_cids(data@)[a]
                        != snapshot_cids(data@)[b] by {
                        assert(snapshot_cids(data@)[a] == data@[a].0);
                        assert(snapshot_cids(data@)[b] == data@[b].0);
                        assert(sm.cont_ids()[a] == data@[a].0);
                        assert(sm.cont_ids()[b] == data@[b].0);
                    }
                }
            }
        }
        Ok(sm)
    }
}

/// The container ids of a snapshot, in snapshot order.
pub open spec fn snapshot_cids(data: Seq<(ContainerId, Vec<(SlotId, Vec<u8>)>)>) -> Seq<
    ContainerId,
> {
    data.map_values(|e: (ContainerId, Vec<(SlotId, Vec<u8>)>)| e.0)
}

/// Whether a snapshot can be restored: no container id repeats, and no
/// slot id repeats within a container.
pub open spec fn snapshot_restorable(data: Seq<(ContainerId, Vec<(SlotId, Vec<u8>)>)>) -> bool {
    &&& ids_unique(snapshot_cids(data))
    &&& forall|i: int| 0 <= i < data.len() ==> ids_unique(entry_ids((#[trigger] data[i]).1@))
}

/// Pushing a fresh container keeps the registry well formed and the other
/// containers where they were.
proof fn lemma_mem_registry_push(pre: StorageManager, post: StorageManager, cid: ContainerId)
    requires
        pre.wf(),
        !pre.has_container(cid),
        post.containers@.len() == pre.containers@.len() + 1,
        forall|t: int|
            0 <= t < pre.containers@.len() ==> #[trigger] post.containers@[t]
                == pre.containers@[t],
        post.containers@[pre.containers@.len() as int].cid == cid,
        post.containers@[pre.containers@.len() as int].wf(),
        post.cont_ids() == pre.cont_ids().push(cid),
    ensures
        post.wf(),
        post.has_container(cid),
        post.container_of(cid) == post.containers@[pre.containers@.len() as int],
        post.container_of(cid).entries@ == post.containers@[pre.containers@.len() as int].entries@,
        forall|c: ContainerId|
            c != cid && pre.has_container(c) ==> #[trigger] post.has_container(c)
                && post.container_of(c) == pre.container_of(c),
{
    lemma_index_of_id_push(pre.cont_ids(), cid, cid);
    lemma_index_of_id_bounds(pre.cont_ids(), cid);
    assert(ids_unique(post.cont_ids())) by {
        assert forall|a: int, b: int|
            0 <= a < b < post.cont_ids().len() implies post.cont_ids()[a] != post.cont_ids()[
            b
        ] by {
            if b == post.cont_ids().len() - 1 {
                if pre.cont_ids()[a] == cid {
                    lemma_index_of_id_match(pre.cont_ids(), cid, a);
                }
            }
        }
    }
    assert forall|c: ContainerId|
        c != cid && pre.has_container(c) implies #[trigger] post.has_container(c)
        && post.container_of(c) == pre.container_of(c) by {
        lemma_index_of_id_push(pre.cont_ids(), cid, c);
        lemma_index_of_id_bounds(pre.cont_ids(), c);
    }
}


/// The records of a container whose slot id is at least `c` and at most
/// `last`, in ascending slot-id order.
pub open spec fn mem_values_from(cont: MemContainer, c: int, last: int) -> Seq<Seq<u8>>
    decreases last + 1 - c,
{
    if c < 0 || c > last || c > u16::MAX {
        Seq::empty()
    } else {
        let rest = mem_values_from(cont, c + 1, last);
        match cont.spec_get(c as SlotId) {
            Some(v) => seq![v] + rest,
            None => rest,
        }
    }
}

/// An iterator over a snapshot of one in-memory container, yielding
/// records in ascending slot-id order up to the last insert position.
#[derive(Debug)]
pub struct ValueIterator {
    /// A copy of the container at iterator creation.
    pub cont: MemContainer,
    /// The next slot id to look at.
    pub current: u32,
    /// The highest slot id to look at.
    pub max: SlotId,
}

impl ValueIterator {
    /// The container copy is well formed and the cursor in range.
    pub open spec fn wf(&self) -> bool {
        &&& self.cont.wf()
        &&& self.current <= 0x10000
    }

    /// The records the iterator has yet to yield, in order.
    pub open spec fn remaining(&self) -> Seq<Seq<u8>> {
        mem_values_from(self.cont, self.current as int, self.max as int)
    }

    /// A new iterator over a container copy, from slot id zero up to
    /// `max`.
    pub fn new(cont: MemContainer, max: SlotId) -> (it: Self)
        requires
            cont.wf(),
        ensures
            it.wf(),
            it.cont == cont,
            it.current == 0,
            it.max == max,
            it.remaining() == mem_values_from(cont, 0, max as int),
    {
        ValueIterator { cont, current: 0, max }
    }

    /// The next record, in ascending slot-id order, until none are left.
    pub fn next(&mut self) -> (r: Option<Vec<u8>>)
        requires
            old(self).wf(),
        ensures
            final(self).wf(),
            final(self).cont == old(self).cont,
            final(self).max == old(self).max,
            match r {
                Some(v) => old(self).remaining() == seq![v@] + final(self).remaining(),
                None => old(self).remaining().len() == 0 && final(self).remaining().len() == 0,
            },
    {
        let ghost orig = *self;
        while self.current <= (self.max as u32)
            invariant
                self.wf(),
                orig == *old(self),
                self.cont == orig.cont,
                self.max == orig.max,
                mem_values_from(self.cont, self.current as int, self.max as int)
                    == orig.remaining(),
            decreases self.max as int + 1 - self.current as int,
        {
            let c16 = (self.current as usize) as u16;
            let ghost before = self.current as int;
            let mut found: Option<Vec<u8>> = None;
            let mut k: usize = 0;
            let n = self.cont.entries.len();
            while k < n
                invariant
                    k <= n,
                    n == self.cont.entries@.len(),
                    self.cont == orig.cont,
                    orig.cont.wf(),
                    c16 as int == before,
                    match found {
                        Some(v) => self.cont.spec_get(c16) == Some(v@),
                        None => forall|j: int|
                            0 <= j < k ==> #[trigger] entry_ids(self.cont.entries@)[j] != c16,
                    },
                decreases n - k,
            {
                if found.is_none() && self.cont.entries[k].0 == c16 {
                    proof {
                        assert(entry_ids(self.cont.entries@)[k as int] == c16);
                        lemma_index_of_id_match(entry_ids(self.cont.entries@), c16, k as int);
                    }
                    let v = self.cont.entries[k].1.clone();
                    proof {
                        assert(v@ =~= self.cont.entries@[k as int].1@);
                    }
                    found = Some(v);
                } else {
                    proof {
                        assert(entry_ids(self.cont.entries@)[k as int]
                            == self.cont.entries@[k as int].0);
                    }
                }
                k = k + 1;
            }
            self.current = self.current + 1;
            match found {
                Some(v) => {
                    proof {
                        assert(mem_values_from(self.cont, before, self.max as int) == seq![v@]
                            + mem_values_from(self.cont, before + 1, self.max as int));
                    }
                    return Some(v);
                },
                None => {
                    proof {
                        lemma_index_of_id_bounds(entry_ids(self.cont.entries@), c16);
                        assert(self.cont.spec_get(c16) is None);
                        assert(mem_values_from(self.cont, before, self.max as int)
                            == mem_values_from(self.cont, before + 1, self.max as int));
                    }
                },
            }
        }
        proof {
            assert(mem_values_from(self.cont, self.current as int, self.max as int)
                =~= Seq::<Seq<u8>>::empty());
        }
        None
    }
}

impl StorageManager {
    /// An iterator over a snapshot of the container's records, in
    /// ascending slot-id order. The container must be registered.
    pub fn get_iterator(
        &self,
        container_id: ContainerId,
        _tid: TransactionId,
        _perm: Permissions,
    ) -> (r: ValueIterator)
        requires
            self.wf(),
            self.has_container(container_id),
        ensures
            r.wf(),
            r.remaining() == mem_values_from(
                self.container_of(container_id),
                0,
                match self.container_of(container_id).last_slot {
                    Some(l) => l as int,
                    None => -1,
                },
            ),
    {
        let idx = match self.find_container(container_id) {
            Some(i) => i,
            None => {
                proof {
                    assert(false);
                }
                0
            },
        };
        let src = &self.containers[idx];
        let mut entries: Vec<(SlotId, Vec<u8>)> = Vec::new();
        let n = src.entries.len();
        let mut k: usize = 0;
        while k < n
            invariant
                k <= n,
                idx < self.containers@.len(),
                src == self.containers@[idx as int],
                n == src.entries@.len(),
                entries@.len() == k,
                forall|j: int|
                    0 <= j < k ==> #[trigger] entries@[j].0 == src.entries@[j].0 && entries@[j].1@
                        == src.entries@[j].1@,
            decreases n - k,
        {
            let sid = src.entries[k].0;
            let bytes = src.entries[k].1.clone();
            proof {
                assert(bytes@ =~= src.entries@[k as int].1@);
            }
            entries.push((sid, bytes));
            k = k + 1;
        }
        let last = src.last_slot;
        let max: SlotId = match last {
            Some(l) => l,
            None => 0,
        };
        let cont = MemContainer { cid: container_id, entries, last_slot: last };
        proof {
            assert(entry_ids(cont.entries@) =~= entry_ids(src.entries@));
            assert(cont.wf()) by {
                match cont.last_slot {
                    Some(l) => {
                        assert forall|t: int|
                            0 <= t < cont.entries@.len() implies (
                        #[trigger] cont.entries@[t]).0 <= l by {
                            assert(src.entries@[t].0 <= l);
                        }
                    },
                    None => {},
                }
            }
            assert forall|t: SlotId| true implies #[trigger] cont.spec_get(t)
                == self.container_of(container_id).spec_get(t) by {
                lemma_index_of_id_bounds(entry_ids(src.entries@), t);
                lemma_index_of_id_bounds(entry_ids(cont.entries@), t);
            }
            lemma_mem_values_congruence(
                cont,
                self.container_of(container_id),
                0,
                max as int,
            );
            if last is None {
                assert(mem_values_from(cont, 0, 0) =~= Seq::<Seq<u8>>::empty()) by {
                    assert(cont.spec_get(0) is None) by {
                        lemma_index_of_id_bounds(entry_ids(cont.entries@), 0);
                    }
                    assert(mem_values_from(cont, 1, 0) =~= Seq::<Seq<u8>>::empty());
                }
                assert(mem_values_from(self.container_of(container_id), 0, -1) =~= Seq::<Seq<
                    u8,
                >>::empty());
            }
        }
        ValueIterator::new(cont, max)
    }
}

/// Containers that agree on every lookup yield the same records.
proof fn lemma_mem_values_congruence(c1: MemContainer, c2: MemContainer, c: int, last: int)
    requires
        forall|t: SlotId| #[trigger] c1.spec_get(t) == c2.spec_get(t),
    ensures
        mem_values_from(c1, c, last) == mem_values_from(c2, c, last),
    decreases last + 1 - c,
{
    if !(c < 0 || c > last || c > u16::MAX) {
        lemma_mem_values_congruence(c1, c2, c + 1, last);
        assert(c1.spec_get(c as SlotId) == c2.spec_get(c as SlotId));
    } else {
        assert(mem_values_from(c1, c, last) =~= mem_values_from(c2, c, last));
    }
}

} // verus!
