//! The storage manager of the heap-file store: a registry of containers,
//! a buffer pool in front of their heap files, and value-granularity
//! insert, read, update, delete and scan.

use vstd::prelude::*;
use vstd::string::StringExecFns;
use vstd::multiset::Multiset;
use crate::common::{CrustyError, PAGE_SIZE, PAGE_SLOTS};
use crate::heapstore::buffer_pool::{
    index_of_key, keys_unique, lemma_index_of_key_bounds, lemma_index_of_key_match,
    lemma_index_of_key_push, lemma_index_of_key_remove, BufferPool, Frame,
};
use crate::heapstore::heapfile::{sat_inc, HeapFile};
use crate::heapstore::page::{
    id_used, index_of_id, is_smallest_unused_id, lemma_index_of_id_bounds,
    lemma_index_of_id_match, lemma_index_of_id_push, lemma_index_of_id_remove, values_from, Page,
    SLOT_ENTRY_SIZE,
};
use crate::ids::{ContainerId, PageId, Permissions, SlotId, TransactionId, ValueId};

verus! {

/// Bytes reserved for the fixed page header when sizing records.
pub const FIXED_HEADER_SIZE: usize = 8;

/// The largest record the store accepts: one page minus the fixed header
/// and one directory entry.
pub const MAX_RECORD_LEN: usize = PAGE_SIZE - FIXED_HEADER_SIZE - SLOT_ENTRY_SIZE;

/// The container ids of a registry, in registry order.
pub open spec fn container_ids(containers: Seq<HeapFile>) -> Seq<ContainerId> {
    containers.map_values(|hf: HeapFile| hf.container_id)
}

/// The storage manager: container registry, buffer pool, and where the
/// embedding application persists the containers.
#[derive(Debug)]
pub struct StorageManager {
    /// The registered heap files, one per container, ids unique.
    pub containers: Vec<HeapFile>,
    /// The bounded page cache in front of the heap files.
    pub pool: BufferPool,
    /// Where the embedding application persists this manager's containers.
    pub storage_path: String,
    /// Whether this manager is temporary and should not be persisted.
    pub is_temp: bool,
}

impl StorageManager {
    /// The registered container ids, in registry order.
    pub open spec fn cont_ids(&self) -> Seq<ContainerId> {
        container_ids(self.containers@)
    }

    /// The registry position of a container, if registered.
    pub open spec fn hf_index_of(&self, cid: ContainerId) -> Option<int> {
        index_of_id(self.cont_ids(), cid)
    }

    /// Whether a container is registered.
    pub open spec fn has_container(&self, cid: ContainerId) -> bool {
        self.hf_index_of(cid) is Some
    }

    /// The heap file of a container, meaningful only when registered.
    pub open spec fn hf_of(&self, cid: ContainerId) -> HeapFile {
        self.containers@[self.hf_index_of(cid).unwrap()]
    }

    /// How many pages a container holds, meaningful only when registered.
    pub open spec fn num_pages_of(&self, cid: ContainerId) -> int {
        self.hf_of(cid).pages@.len() as int
    }

    /// Whether a page number is live in a registered container.
    pub open spec fn valid_page(&self, cid: ContainerId, pid: PageId) -> bool {
        self.has_container(cid) && (pid as int) < self.num_pages_of(cid)
    }

    /// The current contents of a page: the cached frame when present,
    /// otherwise the heap file's copy.
    pub open spec fn eff_page(&self, cid: ContainerId, pid: PageId) -> Page {
        if self.pool.cached(cid, pid) {
            self.pool.frame_page(cid, pid)
        } else {
            self.hf_of(cid).pages@[pid as int]
        }
    }

    /// The bytes stored under a fully-qualified locator, if any.
    pub open spec fn value_at(&self, vid: ValueId) -> Option<Seq<u8>> {
        match (vid.page_id, vid.slot_id) {
            (Some(pid), Some(sid)) => if self.valid_page(vid.container_id, pid) {
                self.eff_page(vid.container_id, pid).spec_get(sid)
            } else {
                None
            },
            _ => None,
        }
    }

    /// How many page reads a container's heap file has served.
    pub open spec fn read_count_of(&self, cid: ContainerId) -> u64 {
        self.hf_of(cid).read_count
    }

    /// How many page writes a container's heap file has served.
    pub open spec fn write_count_of(&self, cid: ContainerId) -> u64 {
        self.hf_of(cid).write_count
    }

    /// Well-formedness: unique container ids, well-formed heap files and
    /// pool, every frame caching a live page, and every clean frame
    /// agreeing with its heap file.
    pub open spec fn wf(&self) -> bool {
        &&& crate::heapstore::page::ids_unique(self.cont_ids())
        &&& forall|i: int| 0 <= i < self.containers@.len() ==> (#[trigger] self.containers@[i]).wf()
        &&& self.pool.wf()
        &&& forall|j: int|
            0 <= j < self.pool.frames@.len() ==> {
                let f = #[trigger] self.pool.frames@[j];
                &&& self.has_container(f.cid)
                &&& (f.pid as int) < self.num_pages_of(f.cid)
                &&& (!f.dirty ==> f.page.same_page(&self.hf_of(f.cid).pages@[f.pid as int]))
            }
    }

    /// Whether the registries and page counts of two states agree.
    pub open spec fn same_layout(pre: Self, post: Self) -> bool {
        &&& post.cont_ids() == pre.cont_ids()
        &&& forall|c: ContainerId|
            pre.has_container(c) ==> post.num_pages_of(c) == #[trigger] pre.num_pages_of(c)
    }

    /// Whether every live page except the named one keeps its contents.
    pub open spec fn preserves_except(pre: Self, post: Self, cid: ContainerId, pid: PageId) -> bool {
        forall|c: ContainerId, p: PageId|
            pre.valid_page(c, p) && !(c == cid && p == pid) ==> (#[trigger] post.eff_page(
                c,
                p,
            )).same_page(&pre.eff_page(c, p))
    }

    /// Whether every live page keeps its contents.
    pub open spec fn preserves_all(pre: Self, post: Self) -> bool {
        forall|c: ContainerId, p: PageId|
            pre.valid_page(c, p) ==> (#[trigger] post.eff_page(c, p)).same_page(
                &pre.eff_page(c, p),
            )
    }

    /// Whether the pool can take one more page: a free slot or at least one
    /// unpinned frame to evict.
    pub open spec fn can_load(&self) -> bool {
        ||| self.pool.frames@.len() < PAGE_SLOTS
        ||| exists|j: int| 0 <= j < self.pool.frames@.len() && !(#[trigger] self.pool.frames@[j]).pinned
    }

    /// A fresh storage manager persisting under the given path, with no
    /// containers yet; the embedding application attaches any containers
    /// it finds persisted there.
    pub fn new(storage_path: String) -> (sm: Self)
        ensures
            sm.wf(),
            sm.cont_ids().len() == 0,
            sm.pool.frames@.len() == 0,
            sm.storage_path@ == storage_path@,
            !sm.is_temp,
    {
        let sm = StorageManager {
            containers: Vec::new(),
            pool: BufferPool::new(),
            storage_path,
            is_temp: false,
        };
        proof {
            assert(sm.cont_ids() =~= Seq::<ContainerId>::empty());
        }
        sm
    }

    /// A fresh temporary storage manager for tests; nothing persists it.
    pub fn new_test_sm() -> (sm: Self)
        ensures
            sm.wf(),
            sm.cont_ids().len() == 0,
            sm.pool.frames@.len() == 0,
            sm.is_temp,
    {
        let sm = StorageManager {
            containers: Vec::new(),
            pool: BufferPool::new(),
            storage_path: String::new(),
            is_temp: true,
        };
        proof {
            assert(sm.cont_ids() =~= Seq::<ContainerId>::empty());
        }
        sm
    }

    /// The registry position of a container, if registered.
    fn find_container(&self, cid: ContainerId) -> (r: Option<usize>)
        requires
            self.wf(),
        ensures
            match r {
                Some(i) => self.hf_index_of(cid) == Some(i as int) && i < self.containers@.len(),
                None => !self.has_container(cid),
            },
    {
        let mut i: usize = 0;
        while i < self.containers.len()
            invariant
                self.wf(),
                i <= self.containers@.len(),
                forall|j: int| 0 <= j < i ==> #[trigger] self.cont_ids()[j] != cid,
            decreases self.containers@.len() - i,
        {
            if self.containers[i].container_id == cid {
                proof {
                    assert(self.cont_ids()[i as int] == cid);
                    lemma_index_of_id_match(self.cont_ids(), cid, i as int);
                }
                return Some(i);
            }
            proof {
                assert(self.cont_ids()[i as int] == self.containers@[i as int].container_id);
            }
            i = i + 1;
        }
        proof {
            lemma_index_of_id_bounds(self.cont_ids(), cid);
        }
        None
    }

    /// Register a container, creating its heap file when absent; already
    /// registered containers are left alone.
    pub fn create_container(&mut self, container_id: ContainerId) -> (r: Result<(), CrustyError>)
        requires
            old(self).wf(),
        ensures
            final(self).wf(),
            r is Ok,
            old(self).has_container(container_id) ==> *final(self) == *old(self),
            old(self).pool_unpinned() ==> final(self).pool_unpinned(),
            !old(self).has_container(container_id) ==> {
                &&& final(self).cont_ids() == old(self).cont_ids().push(container_id)
                &&& final(self).num_pages_of(container_id) == 0
                &&& final(self).pool == old(self).pool
                &&& Self::preserves_all(*old(self), *final(self))
                &&& forall|c: ContainerId|
                    old(self).has_container(c) ==> #[trigger] final(self).num_pages_of(c) == old(self).num_pages_of(c) && final(self).read_count_of(c) == old(self).read_count_of(
                        c,
                    ) && final(self).write_count_of(c) == old(self).write_count_of(c)
            },
    {
        match self.find_container(container_id) {
            Some(_) => Ok(()),
            None => {
                let ghost pre = *self;
                let hf = HeapFile::new(container_id);
                self.containers.push(hf);
                proof {
                    assert(self.cont_ids() =~= pre.cont_ids().push(container_id));
                    lemma_index_of_id_push(pre.cont_ids(), container_id, container_id);
                    assert(self.has_container(container_id));
                    assert forall|c: ContainerId| true implies #[trigger] self.hf_index_of(c) == (
                    if c == container_id {
                        Some(pre.cont_ids().len() as int)
                    } else {
                        pre.hf_index_of(c)
                    }) by {
                        lemma_index_of_id_push(pre.cont_ids(), container_id, c);
                    }
                    assert(crate::heapstore::page::ids_unique(self.cont_ids())) by {
                        lemma_index_of_id_bounds(pre.cont_ids(), container_id);
                        assert forall|a: int, b: int|
                            0 <= a < b < self.cont_ids().len() implies self.cont_ids()[a]
                            != self.cont_ids()[b] by {
                            if b == self.cont_ids().len() - 1 {
                                if pre.cont_ids()[a] == container_id {
                                    lemma_index_of_id_match(pre.cont_ids(), container_id, a);
                                }
                            }
                        }
                    }
                    assert forall|c: ContainerId, p: PageId|
                        pre.valid_page(c, p) implies (#[trigger] self.eff_page(c, p)).same_page(
                        &pre.eff_page(c, p),
                    ) by {
                        lemma_index_of_id_bounds(pre.cont_ids(), c);
                    }
                    assert forall|c: ContainerId| pre.has_container(c) implies #[trigger] self.num_pages_of(
                        c,
                    ) == pre.num_pages_of(c) && self.read_count_of(c) == pre.read_count_of(c)
                        && self.write_count_of(c) == pre.write_count_of(c) by {
                        lemma_index_of_id_bounds(pre.cont_ids(), c);
                    }
                    assert(self.wf()) by {
                        assert forall|j: int|
                            0 <= j < self.pool.frames@.len() implies {
                            let f = #[trigger] self.pool.frames@[j];
                            &&& self.has_container(f.cid)
                            &&& (f.pid as int) < self.num_pages_of(f.cid)
                            &&& (!f.dirty ==> f.page.same_page(
                                &self.hf_of(f.cid).pages@[f.pid as int],
                            ))
                        } by {
                            let f = self.pool.frames@[j];
                            lemma_index_of_id_bounds(pre.cont_ids(), f.cid);
                        }
                    }
                }
                Ok(())
            },
        }
    }

    /// How many pages a container holds, or nothing for an unregistered
    /// container.
    pub fn get_num_pages(&self, container_id: ContainerId) -> (r: Option<PageId>)
        requires
            self.wf(),
        ensures
            self.has_container(container_id) ==> r == Some(
                (self.num_pages_of(container_id) as PageId),
            ),
            !self.has_container(container_id) ==> r is None,
    {
        match self.find_container(container_id) {
            Some(i) => Some(self.containers[i].num_pages()),
            None => None,
        }
    }

    /// The reads and writes a container's heap file has served, or zeros
    /// for an unregistered container.
    pub fn get_hf_read_write_count(&self, container_id: ContainerId) -> (r: (u64, u64))
        requires
            self.wf(),
        ensures
            self.has_container(container_id) ==> r == (
                self.read_count_of(container_id),
                self.write_count_of(container_id),
            ),
            !self.has_container(container_id) ==> r == (0u64, 0u64),
    {
        match self.find_container(container_id) {
            Some(i) => (self.containers[i].read_count, self.containers[i].write_count),
            None => (0, 0),
        }
    }

    /// Release a page pinned by an earlier fetch, so that eviction may
    /// take its frame again; callers whose operation failed for want of an
    /// evictable frame release their pins and retry. Nothing changes for a
    /// page that is not cached, and no page's contents change either way.
    pub fn unpin_page(
        &mut self,
        container_id: ContainerId,
        page_id: PageId,
        _tid: TransactionId,
    )
        requires
            old(self).wf(),
        ensures
            final(self).wf(),
            Self::same_layout(*old(self), *final(self)),
            Self::preserves_all(*old(self), *final(self)),
            forall|c: ContainerId|
                old(self).has_container(c) ==> #[trigger] final(self).read_count_of(c) == old(self).read_count_of(c) && final(self).write_count_of(c) == old(self).write_count_of(c),
            !old(self).pool.cached(container_id, page_id) ==> *final(self) == *old(self),
            old(self).pool.cached(container_id, page_id) ==> {
                &&& final(self).pool.keys() == old(self).pool.keys()
                &&& !final(self).pool.frames@[old(self).pool.frame_index(
                    container_id,
                    page_id,
                ).unwrap()].pinned
                &&& forall|j: int|
                    0 <= j < old(self).pool.frames@.len() && j != old(self).pool.frame_index(
                        container_id,
                        page_id,
                    ).unwrap() ==> (#[trigger] final(self).pool.frames@[j]).pinned == old(self).pool.frames@[j].pinned
            },
            old(self).pool_unpinned() ==> final(self).pool_unpinned(),
    {
        let ghost pre = *self;
        match self.pool.find(container_id, page_id) {
            None => {},
            Some(i) => {
                self.pool.unpin(i);
                proof {
                    lemma_pool_meta_preserves_wf(pre, *self);
                    lemma_same_pool_pages(pre, *self);
                    assert forall|c: ContainerId|
                        pre.has_container(c) implies #[trigger] self.read_count_of(c)
                        == pre.read_count_of(c) && self.write_count_of(c) == pre.write_count_of(
                        c,
                    ) by {
                        lemma_index_of_id_bounds(pre.cont_ids(), c);
                    }
                    if pre.pool_unpinned() {
                        assert forall|j: int|
                            0 <= j < self.pool.frames@.len() implies !(
                        #[trigger] self.pool.frames@[j]).pinned by {
                            if j != i as int {
                                assert(self.pool.frames@[j] == pre.pool.frames@[j]);
                            }
                        }
                    }
                }
            },
        }
    }

    /// Nothing is held per transaction in this core, so nothing happens.
    pub fn transaction_finished(&self, _tid: TransactionId) {
    }
}


impl StorageManager {
    /// Read one page from the heap file at a registry position, counting
    /// the read on that heap file.
    fn hf_read(&mut self, idx: usize, pid: PageId) -> (r: Result<Page, CrustyError>)
        requires
            old(self).wf(),
            idx < old(self).containers@.len(),
        ensures
            final(self).wf(),
            final(self).pool == old(self).pool,
            final(self).storage_path == old(self).storage_path,
            final(self).is_temp == old(self).is_temp,
            final(self).containers@.len() == old(self).containers@.len(),
            forall|t: int|
                0 <= t < old(self).containers@.len() && t != idx
                    ==> #[trigger] final(self).containers@[t] == old(self).containers@[t],
            ({
                let hf0 = old(self).containers@[idx as int];
                let hf1 = final(self).containers@[idx as int];
                &&& hf1.pages@ == hf0.pages@
                &&& hf1.container_id == hf0.container_id
                &&& hf1.write_count == hf0.write_count
                &&& hf1.read_count == sat_inc(hf0.read_count)
                &&& (pid < hf0.pages@.len() ==> (r matches Ok(p) && p.same_page(
                    &hf0.pages@[pid as int],
                ) && p.wf()))
                &&& (pid >= hf0.pages@.len() ==> r is Err)
            }),
            final(self).cont_ids() == old(self).cont_ids(),
    {
        let ghost pre = *self;
        let mut hf = self.containers.remove(idx);
        let r = hf.read_page(pid);
        self.containers.insert(idx, hf);
        proof {
            pre.containers@.remove_ensures(idx as int);
            assert(self.containers@ =~= pre.containers@.update(
                idx as int,
                self.containers@[idx as int],
            ));
            assert(self.cont_ids() =~= pre.cont_ids());
            assert(self.wf()) by {
                assert forall|j: int|
                    0 <= j < self.pool.frames@.len() implies {
                    let f = #[trigger] self.pool.frames@[j];
                    &&& self.has_container(f.cid)
                    &&& (f.pid as int) < self.num_pages_of(f.cid)
                    &&& (!f.dirty ==> f.page.same_page(&self.hf_of(f.cid).pages@[f.pid as int]))
                } by {
                    let f = self.pool.frames@[j];
                    lemma_index_of_id_bounds(pre.cont_ids(), f.cid);
                }
            }
        }
        r
    }

    /// Write one page through the heap file at a registry position,
    /// counting the write on that heap file.
    fn hf_write(&mut self, idx: usize, page: Page) -> (r: Result<(), CrustyError>)
        requires
            old(self).wf(),
            idx < old(self).containers@.len(),
            page.wf(),
        ensures
            final(self).pool == old(self).pool,
            final(self).storage_path == old(self).storage_path,
            final(self).is_temp == old(self).is_temp,
            final(self).containers@.len() == old(self).containers@.len(),
            forall|t: int|
                0 <= t < old(self).containers@.len() && t != idx
                    ==> #[trigger] final(self).containers@[t] == old(self).containers@[t],
            ({
                let hf0 = old(self).containers@[idx as int];
                let hf1 = final(self).containers@[idx as int];
                let pid = page.header.page_id as int;
                &&& hf1.container_id == hf0.container_id
                &&& hf1.read_count == hf0.read_count
                &&& hf1.wf()
                &&& if pid < hf0.pages@.len() {
                    &&& r is Ok
                    &&& hf1.pages@ == hf0.pages@.update(pid, page)
                    &&& hf1.write_count == sat_inc(hf0.write_count)
                } else if pid == hf0.pages@.len() && hf0.pages@.len() < u16::MAX {
                    &&& r is Ok
                    &&& hf1.pages@ == hf0.pages@.push(page)
                    &&& hf1.write_count == sat_inc(hf0.write_count)
                } else {
                    &&& r is Err
                    &&& hf1.pages@ == hf0.pages@
                    &&& hf1.write_count == hf0.write_count
                }
            }),
            final(self).cont_ids() == old(self).cont_ids(),
            forall|i: int|
                0 <= i < final(self).containers@.len()
                    ==> (#[trigger] final(self).containers@[i]).wf(),
    {
        let ghost pre = *self;
        let mut hf = self.containers.remove(idx);
        let r = hf.write_page(page);
        self.containers.insert(idx, hf);
        proof {
            pre.containers@.remove_ensures(idx as int);
            assert(self.containers@ =~= pre.containers@.update(
                idx as int,
                self.containers@[idx as int],
            ));
            assert(self.cont_ids() =~= pre.cont_ids());
        }
        r
    }

    /// Write every dirty frame back to its heap file and drop all frames.
    /// No page changes its contents; afterwards the heap files hold
    /// exactly what the pool and files together held before.
    fn flush_all(&mut self)
        requires
            old(self).wf(),
        ensures
            final(self).wf(),
            final(self).pool.frames@.len() == 0,
            final(self).storage_path == old(self).storage_path,
            final(self).is_temp == old(self).is_temp,
            Self::same_layout(*old(self), *final(self)),
            Self::preserves_all(*old(self), *final(self)),
            forall|c: ContainerId|
                old(self).has_container(c)
                    ==> #[trigger] final(self).read_count_of(c) == old(self).read_count_of(c),
            forall|c: ContainerId, p: PageId|
                old(self).valid_page(c, p)
                    ==> (#[trigger] final(self).hf_of(c).pages@[p as int]).same_page(
                    &old(self).eff_page(c, p)),
    {
        let ghost start = *self;
        loop
            invariant
                self.wf(),
                self.storage_path == start.storage_path,
                self.is_temp == start.is_temp,
                Self::same_layout(start, *self),
                Self::preserves_all(start, *self),
                forall|c: ContainerId|
                    start.has_container(c) ==> #[trigger] self.read_count_of(c)
                        == start.read_count_of(c),
                start.wf(),
            ensures
                self.pool.frames@.len() == 0,
                self.wf(),
                self.storage_path == start.storage_path,
                self.is_temp == start.is_temp,
                Self::same_layout(start, *self),
                Self::preserves_all(start, *self),
                forall|c: ContainerId|
                    start.has_container(c) ==> #[trigger] self.read_count_of(c)
                        == start.read_count_of(c),
            decreases self.pool.frames@.len(),
        {
            if self.pool.frames.len() == 0 {
                break;
            }
            let ghost mid = *self;
            let fr = self.pool.frames.pop();
            match fr {
                None => {
                    proof {
                        assert(false);
                    }
                },
                Some(f) => {
                    let ghost last = mid.pool.frames@.len() - 1;
                    proof {
                        assert(f == mid.pool.frames@[last]);
                        assert(self.pool.frames@ =~= mid.pool.frames@.drop_last());
                        assert(self.pool.keys() =~= mid.pool.keys().drop_last());
                        assert(mid.pool.keys().drop_last() =~= mid.pool.keys().remove(last));
                        lemma_flush_pop_pool(mid.pool.keys(), last);
                    }
                    if f.dirty {
                        match self.find_container(f.cid) {
                            Some(idx) => {
                                let ghost before_write = *self;
                                let res = self.hf_write(idx, f.page);
                                proof {
                                    lemma_index_of_id_bounds(mid.cont_ids(), f.cid);
                                    assert(res is Ok);
                                    lemma_flush_step(mid, before_write, *self, f, idx as int);
                                }
                            },
                            None => {
                                proof {
                                    assert(false);
                                }
                            },
                        }
                    } else {
                        proof {
                            lemma_flush_step_clean(mid, *self, f);
                        }
                    }
                },
            }
        }
        proof {
            assert forall|c: ContainerId, p: PageId|
                start.valid_page(c, p) implies (#[trigger] self.hf_of(c).pages@[
                p as int
            ]).same_page(&start.eff_page(c, p)) by {
                assert(self.eff_page(c, p).same_page(&start.eff_page(c, p)));
                lemma_index_of_key_bounds(self.pool.keys(), (c, p));
            }
        }
    }

    /// Flush all dirty pages and drop the cached frames; the next access
    /// rereads from the heap files.
    pub fn reset(&mut self)
        requires
            old(self).wf(),
        ensures
            final(self).wf(),
            final(self).pool.frames@.len() == 0,
            final(self).pool_unpinned(),
            Self::same_layout(*old(self), *final(self)),
            Self::preserves_all(*old(self), *final(self)),
            forall|c: ContainerId|
                old(self).has_container(c)
                    ==> #[trigger] final(self).read_count_of(c) == old(self).read_count_of(c),
    {
        self.flush_all();
    }

    /// Flush all dirty pages so that the heap files hold every change; the
    /// embedding application persists the heap files afterwards.
    pub fn shutdown(&mut self)
        requires
            old(self).wf(),
        ensures
            final(self).wf(),
            final(self).pool.frames@.len() == 0,
            final(self).pool_unpinned(),
            Self::same_layout(*old(self), *final(self)),
            Self::preserves_all(*old(self), *final(self)),
            forall|c: ContainerId, p: PageId|
                old(self).valid_page(c, p)
                    ==> (#[trigger] final(self).hf_of(c).pages@[p as int]).same_page(
                    &old(self).eff_page(c, p)),
    {
        self.flush_all();
    }

    /// Unregister a container and drop its heap file; the other containers
    /// keep their contents. Unregistered ids are left alone.
    pub fn remove_container(&mut self, container_id: ContainerId) -> (r: Result<(), CrustyError>)
        requires
            old(self).wf(),
        ensures
            final(self).wf(),
            r is Ok,
            final(self).pool_unpinned(),
            !final(self).has_container(container_id),
            forall|c: ContainerId|
                c != container_id && old(self).has_container(c)
                    ==> #[trigger] final(self).has_container(c) && final(self).num_pages_of(c)
                    == old(self).num_pages_of(c),
            forall|c: ContainerId, p: PageId|
                c != container_id && old(self).valid_page(c, p)
                    ==> (#[trigger] final(self).eff_page(c, p)).same_page(
                    &old(self).eff_page(c, p)),
    {
        self.flush_all();
        let ghost mid = *self;
        match self.find_container(container_id) {
            None => {
                proof {
                    lemma_index_of_id_bounds(self.cont_ids(), container_id);
                    assert forall|c: ContainerId|
                        c != container_id && old(self).has_container(c)
                        implies #[trigger] self.has_container(c) && self.num_pages_of(c) == old(self).num_pages_of(c) by {}
                    assert forall|c: ContainerId, p: PageId|
                        c != container_id && old(self).valid_page(c, p) implies (
                    #[trigger] self.eff_page(c, p)).same_page(&old(self).eff_page(c, p)) by {
                        assert(mid.valid_page(c, p));
                    }
                }
                Ok(())
            },
            Some(idx) => {
                self.containers.remove(idx);
                proof {
                    mid.containers@.remove_ensures(idx as int);
                    mid.cont_ids().remove_ensures(idx as int);
                    assert(self.containers@ =~= mid.containers@.remove(idx as int));
                    assert(self.cont_ids() =~= mid.cont_ids().remove(idx as int));
                    assert(crate::heapstore::page::ids_unique(self.cont_ids())) by {
                        assert forall|a: int, b: int|
                            0 <= a < b < self.cont_ids().len() implies self.cont_ids()[a]
                            != self.cont_ids()[b] by {
                            let oa = if a < idx as int { a } else { a + 1 };
                            let ob = if b < idx as int { b } else { b + 1 };
                            assert(self.cont_ids()[a] == mid.cont_ids()[oa]);
                            assert(self.cont_ids()[b] == mid.cont_ids()[ob]);
                        }
                    }
                    lemma_index_of_id_bounds(mid.cont_ids(), container_id);
                    lemma_index_of_id_remove(mid.cont_ids(), idx as int, container_id);
                    lemma_index_of_id_match(mid.cont_ids(), container_id, idx as int);
                    assert(!self.has_container(container_id));
                    assert forall|c: ContainerId|
                        c != container_id && mid.has_container(c) implies #[trigger] self.has_container(
                        c,
                    ) && self.hf_of(c) == mid.hf_of(c) by {
                        lemma_index_of_id_remove(mid.cont_ids(), idx as int, c);
                        lemma_index_of_id_bounds(mid.cont_ids(), c);
                        let j = mid.hf_index_of(c).unwrap();
                        mid.containers@.remove_ensures(idx as int);
                        if j < idx as int {
                            assert(self.containers@[j] == mid.containers@[j]);
                        } else {
                            assert(j > idx as int);
                            assert(self.containers@[j - 1] == mid.containers@[j]);
                        }
                    }
                    assert forall|c: ContainerId|
                        c != container_id && old(self).has_container(c)
                        implies #[trigger] self.has_container(c) && self.num_pages_of(c) == old(self).num_pages_of(c) by {
                        assert(mid.has_container(c) && mid.num_pages_of(c) == old(self).num_pages_of(c));
                    }
                    assert forall|c: ContainerId, p: PageId|
                        c != container_id && old(self).valid_page(c, p) implies (
                    #[trigger] self.eff_page(c, p)).same_page(&old(self).eff_page(c, p)) by {
                        assert(mid.pool.frames@.len() == 0);
                        assert(self.pool.frames@.len() == 0);
                        lemma_index_of_key_bounds(mid.pool.keys(), (c, p));
                        lemma_index_of_key_bounds(self.pool.keys(), (c, p));
                        assert(mid.valid_page(c, p));
                        assert(mid.eff_page(c, p).same_page(&old(self).eff_page(c, p)));
                        assert(self.has_container(c) && self.hf_of(c) == mid.hf_of(c));
                        assert(self.eff_page(c, p) == mid.eff_page(c, p));
                    }
                }
                Ok(())
            },
        }
    }
}

/// Popping the last frame uncaches its key and leaves every other key
/// cached at its old position.
proof fn lemma_flush_pop_pool(keys: Seq<(ContainerId, PageId)>, last: int)
    requires
        keys_unique(keys),
        last == keys.len() - 1,
        keys.len() > 0,
    ensures
        forall|k: (ContainerId, PageId)|
            k != keys[last] ==> #[trigger] index_of_key(keys.drop_last(), k) == index_of_key(
                keys,
                k,
            ),
        index_of_key(keys.drop_last(), keys[last]) is None,
        index_of_key(keys, keys[last]) == Some(last),
{
    lemma_index_of_key_match(keys, keys[last], last);
    assert forall|k: (ContainerId, PageId)| k != keys[last] implies #[trigger] index_of_key(
        keys.drop_last(),
        k,
    ) == index_of_key(keys, k) by {
        assert(keys.drop_last() =~= keys.remove(last));
        lemma_index_of_key_remove(keys, last, k);
        lemma_index_of_key_bounds(keys, k);
    }
    assert(keys.drop_last() =~= keys.remove(last));
    lemma_index_of_key_remove(keys, last, keys[last]);
}

/// One flush step over a dirty frame preserves every page's contents and
/// the manager's well-formedness.
proof fn lemma_flush_step(
    mid: StorageManager,
    before_write: StorageManager,
    post: StorageManager,
    f: Frame,
    idx: int,
)
    requires
        mid.wf(),
        // the frame was the last in mid's pool and has been popped
        mid.pool.frames@.len() > 0,
        f == mid.pool.frames@[mid.pool.frames@.len() - 1],
        before_write.pool.frames@ == mid.pool.frames@.drop_last(),
        before_write.containers@ == mid.containers@,
        before_write.storage_path == mid.storage_path,
        before_write.is_temp == mid.is_temp,
        f.dirty,
        // the write went to the frame's container and page
        mid.hf_index_of(f.cid) == Some(idx),
        0 <= idx < mid.containers@.len(),
        post.pool == before_write.pool,
        post.storage_path == before_write.storage_path,
        post.is_temp == before_write.is_temp,
        post.containers@.len() == mid.containers@.len(),
        forall|t: int|
            0 <= t < mid.containers@.len() && t != idx ==> #[trigger] post.containers@[t]
                == mid.containers@[t],
        post.containers@[idx].container_id == mid.containers@[idx].container_id,
        post.containers@[idx].read_count == mid.containers@[idx].read_count,
        post.containers@[idx].wf(),
        post.containers@[idx].pages@ == mid.containers@[idx].pages@.update(f.pid as int, f.page),
        post.cont_ids() == mid.cont_ids(),
        (f.pid as int) < mid.containers@[idx].pages@.len(),
    ensures
        post.wf(),
        StorageManager::same_layout(mid, post),
        StorageManager::preserves_all(mid, post),
        forall|c: ContainerId|
            mid.has_container(c) ==> #[trigger] post.read_count_of(c) == mid.read_count_of(c),
    decreases 0int,
{
    let last = mid.pool.frames@.len() - 1;
    lemma_flush_pop_pool(mid.pool.keys(), last);
    assert(post.pool.keys() =~= mid.pool.keys().drop_last());
    assert forall|c: ContainerId| mid.has_container(c) implies #[trigger] post.has_container(c)
        && post.hf_index_of(c) == mid.hf_index_of(c) by {}
    lemma_index_of_id_bounds(mid.cont_ids(), f.cid);
    assert forall|c: ContainerId| mid.has_container(c) implies #[trigger] post.num_pages_of(c)
        == mid.num_pages_of(c) by {
        lemma_index_of_id_bounds(mid.cont_ids(), c);
    }
    assert forall|c: ContainerId| mid.has_container(c) implies #[trigger] post.read_count_of(c)
        == mid.read_count_of(c) by {
        lemma_index_of_id_bounds(mid.cont_ids(), c);
    }
    assert forall|c: ContainerId, p: PageId|
        mid.valid_page(c, p) implies (#[trigger] post.eff_page(c, p)).same_page(
        &mid.eff_page(c, p),
    ) by {
        lemma_index_of_id_bounds(mid.cont_ids(), c);
        lemma_index_of_key_bounds(mid.pool.keys(), (c, p));
        lemma_index_of_key_bounds(post.pool.keys(), (c, p));
        if (c, p) == (f.cid, f.pid) {
            assert(mid.pool.cached(c, p));
            assert(mid.pool.frame_index(c, p) == Some(last));
            assert(!post.pool.cached(c, p));
            assert(post.eff_page(c, p) == f.page);
        } else {
            if mid.pool.cached(c, p) {
                let i = mid.pool.frame_index(c, p).unwrap();
                assert(mid.pool.keys()[i] == (c, p));
                assert(i != last);
                assert(post.pool.frame_index(c, p) == Some(i));
                assert(post.pool.frames@[i] == mid.pool.frames@[i]);
            } else {
                assert(!post.pool.cached(c, p));
                if c == f.cid {
                    assert(post.hf_of(c).pages@[p as int] == mid.hf_of(c).pages@[p as int]);
                } else {
                    assert(post.hf_of(c) == mid.hf_of(c)) by {
                        lemma_index_of_id_bounds(mid.cont_ids(), c);
                    }
                }
            }
        }
    }
    assert(post.wf()) by {
        assert forall|j: int|
            0 <= j < post.pool.frames@.len() implies {
            let fr = #[trigger] post.pool.frames@[j];
            &&& post.has_container(fr.cid)
            &&& (fr.pid as int) < post.num_pages_of(fr.cid)
            &&& (!fr.dirty ==> fr.page.same_page(&post.hf_of(fr.cid).pages@[fr.pid as int]))
        } by {
            let fr = post.pool.frames@[j];
            assert(fr == mid.pool.frames@[j]);
            lemma_index_of_id_bounds(mid.cont_ids(), fr.cid);
            lemma_index_of_id_bounds(mid.cont_ids(), f.cid);
            if !fr.dirty {
                if fr.cid == f.cid && fr.pid == f.pid {
                    assert(mid.pool.keys()[j] == (f.cid, f.pid));
                    lemma_index_of_key_match(mid.pool.keys(), (f.cid, f.pid), j);
                    lemma_index_of_key_match(mid.pool.keys(), (f.cid, f.pid), last);
                    assert(j == last);
                    assert(false);
                } else if fr.cid == f.cid {
                    assert(post.hf_of(fr.cid).pages@[fr.pid as int] == mid.hf_of(
                        fr.cid,
                    ).pages@[fr.pid as int]);
                } else {
                }
            }
        }
    }
}

/// One flush step over a clean frame preserves every page's contents and
/// the manager's well-formedness.
proof fn lemma_flush_step_clean(mid: StorageManager, post: StorageManager, f: Frame)
    requires
        mid.wf(),
        mid.pool.frames@.len() > 0,
        f == mid.pool.frames@[mid.pool.frames@.len() - 1],
        !f.dirty,
        post.pool.frames@ == mid.pool.frames@.drop_last(),
        post.containers@ == mid.containers@,
        post.storage_path == mid.storage_path,
        post.is_temp == mid.is_temp,
    ensures
        post.wf(),
        StorageManager::same_layout(mid, post),
        StorageManager::preserves_all(mid, post),
        forall|c: ContainerId|
            mid.has_container(c) ==> #[trigger] post.read_count_of(c) == mid.read_count_of(c),
{
    let last = mid.pool.frames@.len() - 1;
    lemma_flush_pop_pool(mid.pool.keys(), last);
    assert(post.pool.keys() =~= mid.pool.keys().drop_last());
    assert forall|c: ContainerId, p: PageId|
        mid.valid_page(c, p) implies (#[trigger] post.eff_page(c, p)).same_page(
        &mid.eff_page(c, p),
    ) by {
        lemma_index_of_key_bounds(mid.pool.keys(), (c, p));
        lemma_index_of_key_bounds(post.pool.keys(), (c, p));
        if (c, p) == (f.cid, f.pid) {
            lemma_index_of_key_match(mid.pool.keys(), (c, p), last);
            assert(mid.eff_page(c, p) == f.page);
            assert(!post.pool.cached(c, p));
            assert(f.page.same_page(&mid.hf_of(f.cid).pages@[f.pid as int]));
        } else {
            if mid.pool.cached(c, p) {
                let i = mid.pool.frame_index(c, p).unwrap();
                assert(mid.pool.keys()[i] == (c, p));
                lemma_index_of_key_match(mid.pool.keys(), (f.cid, f.pid), last);
                assert(i != last);
                assert(post.pool.frame_index(c, p) == Some(i));
                assert(post.pool.frames@[i] == mid.pool.frames@[i]);
            } else {
                assert(!post.pool.cached(c, p));
            }
        }
    }
    assert(post.wf()) by {
        assert forall|j: int|
            0 <= j < post.pool.frames@.len() implies {
            let fr = #[trigger] post.pool.frames@[j];
            &&& post.has_container(fr.cid)
            &&& (fr.pid as int) < post.num_pages_of(fr.cid)
            &&& (!fr.dirty ==> fr.page.same_page(&post.hf_of(fr.cid).pages@[fr.pid as int]))
        } by {
            let fr = post.pool.frames@[j];
            assert(fr == mid.pool.frames@[j]);
        }
    }
}



impl StorageManager {
    /// Make sure the page is cached, loading it through the heap file on a
    /// miss and evicting first when the pool is full. On a hit nothing
    /// changes; when every frame is pinned the load fails.
    fn ensure_cached(&mut self, cidx: usize, cid: ContainerId, pid: PageId) -> (r: Option<usize>)
        requires
            old(self).wf(),
            old(self).hf_index_of(cid) == Some(cidx as int),
            cidx < old(self).containers@.len(),
            (pid as int) < old(self).num_pages_of(cid),
        ensures
            final(self).wf(),
            Self::same_layout(*old(self), *final(self)),
            Self::preserves_all(*old(self), *final(self)),
            final(self).storage_path == old(self).storage_path,
            final(self).is_temp == old(self).is_temp,
            old(self).pool.cached(cid, pid) ==> *final(self) == *old(self) && r == Some(
                old(self).pool.frame_index(cid, pid).unwrap() as usize,
            ),
            !old(self).pool.cached(cid, pid) && old(self).can_load() ==> {
                &&& r is Some
                &&& final(self).read_count_of(cid) == sat_inc(old(self).read_count_of(cid))
                &&& forall|c: ContainerId|
                    c != cid && old(self).has_container(c) ==> #[trigger] final(self).read_count_of(c) == old(self).read_count_of(c)
                &&& forall|c: ContainerId|
                    old(self).has_container(c) ==> #[trigger] final(self).write_count_of(c) == old(self).write_count_of(c) || final(self).write_count_of(c) == sat_inc(
                        old(self).write_count_of(c),
                    )
            },
            !old(self).pool.cached(cid, pid) && !old(self).can_load() ==> r is None && forall|
                c: ContainerId,
            |
                old(self).has_container(c) ==> #[trigger] final(self).read_count_of(c) == old(self).read_count_of(c) && final(self).write_count_of(c) == old(self).write_count_of(c),
            old(self).pool_unpinned() ==> final(self).pool_unpinned(),
            !old(self).pool.cached(cid, pid) && r is Some && old(self).pool.frames@.len()
                < PAGE_SLOTS ==> forall|k: (ContainerId, PageId)|
                #[trigger] index_of_key(final(self).pool.keys(), k) is Some <==> (k == (cid, pid)
                    || index_of_key(old(self).pool.keys(), k) is Some),
            !old(self).pool.cached(cid, pid) && r is Some && old(self).pool.frames@.len()
                >= PAGE_SLOTS ==> exists|vk: (ContainerId, PageId)|
                index_of_key(old(self).pool.keys(), vk) is Some && vk != (cid, pid) && forall|
                    k: (ContainerId, PageId),
                |
                    #[trigger] index_of_key(final(self).pool.keys(), k) is Some <==> (k == (
                        cid,
                        pid,
                    ) || (k != vk && index_of_key(old(self).pool.keys(), k) is Some)),
            r matches Some(i) ==> {
                &&& final(self).pool.frame_index(cid, pid) == Some(i as int)
                &&& i < final(self).pool.frames@.len()
                &&& final(self).pool.frames@[i as int].page.same_page(
                    &old(self).eff_page(cid, pid),
                )
                &&& final(self).pool.frames@[i as int].cid == cid
                &&& final(self).pool.frames@[i as int].pid == pid
            },
    {
        let ghost pre = *self;
        match self.pool.find(cid, pid) {
            Some(i) => {
                proof {
                    lemma_index_of_key_bounds(pre.pool.keys(), (cid, pid));
                }
                Some(i)
            },
            None => {
                let ghost mut victim: (ContainerId, PageId) = (0, 0);
                // evict first when the pool is full
                if self.pool.frames.len() >= PAGE_SLOTS {
                    let v = self.pool.choose_victim();
                    match v {
                        None => {
                            proof {
                                assert forall|j: int|
                                    0 <= j < pre.pool.frames@.len() implies (
                                #[trigger] pre.pool.frames@[j]).pinned by {
                                    assert(self.pool.frames@[j].pinned);
                                }
                                assert(!pre.can_load());
                                lemma_same_pool_pages(pre, *self);
                                if pre.pool_unpinned() {
                                    assert(pre.pool.frames@.len() >= PAGE_SLOTS);
                                    assert(pre.pool.frames@[0].pinned);
                                    assert(false);
                                }
                            }
                            return None;
                        },
                        Some(vi) => {
                            let ghost after_clock = *self;
                            proof {
                                assert(after_clock.wf()) by {
                                    lemma_pool_meta_preserves_wf(pre, after_clock);
                                }
                                lemma_same_pool_pages(pre, after_clock);
                            }
                            let vf = self.pool.frames.remove(vi);
                            let ghost after_remove = *self;
                            proof {
                                after_clock.pool.frames@.remove_ensures(vi as int);
                                assert(after_remove.pool.frames@ =~= after_clock.pool.frames@.remove(
                                    vi as int,
                                ));
                                assert(after_remove.pool.keys() =~= after_clock.pool.keys().remove(
                                    vi as int,
                                ));
                            }
                            proof {
                                if pre.pool_unpinned() {
                                    assert forall|j: int|
                                        0 <= j < after_remove.pool.frames@.len() implies !(
                                    #[trigger] after_remove.pool.frames@[j]).pinned by {
                                        let oj = if j < vi as int { j } else { j + 1 };
                                        assert(after_remove.pool.frames@[j]
                                            == after_clock.pool.frames@[oj]);
                                        assert(!pre.pool.frames@[oj].pinned);
                                    }
                                }
                            }
                            proof {
                                victim = (
                                    after_clock.pool.frames@[vi as int].cid,
                                    after_clock.pool.frames@[vi as int].pid,
                                );
                                assert(after_clock.pool.keys()[vi as int] == victim);
                                lemma_index_of_key_match(
                                    after_clock.pool.keys(),
                                    victim,
                                    vi as int,
                                );
                                assert(index_of_key(pre.pool.keys(), victim) is Some);
                                assert(victim != (cid, pid));
                            }
                            if vf.dirty {
                                match self.find_container(vf.cid) {
                                    Some(vidx) => {
                                        proof {
                                            lemma_evict_pre(pre, after_clock, after_remove, vi as int);
                                        }
                                        let res = self.hf_write(vidx, vf.page);
                                        proof {
                                            lemma_index_of_id_bounds(after_remove.cont_ids(), vf.cid);
                                            assert(res is Ok);
                                            lemma_evict_dirty(
                                                after_clock,
                                                after_remove,
                                                *self,
                                                after_clock.pool.frames@[vi as int],
                                                vi as int,
                                                vidx as int,
                                            );
                                        }
                                    },
                                    None => {
                                        proof {
                                            assert(after_clock.wf());
                                            assert(false);
                                        }
                                    },
                                }
                            } else {
                                proof {
                                    lemma_evict_clean(
                                        after_clock,
                                        after_remove,
                                        after_clock.pool.frames@[vi as int],
                                        vi as int,
                                    );
                                }
                            }
                            proof {
                                assert forall|k: (ContainerId, PageId)| true implies ((
                                #[trigger] index_of_key(self.pool.keys(), k)) is Some <==> (k
                                    != victim && index_of_key(pre.pool.keys(), k) is Some)) by {
                                    assert(self.pool.keys() == after_remove.pool.keys());
                                    if k == victim {
                                        assert(!after_remove.pool.cached(victim.0, victim.1));
                                    }
                                }
                            }
                        },
                    }
                }
                // read the page through the heap file and cache it
                let ghost loaded_from = *self;
                proof {
                    assert(loaded_from.hf_index_of(cid) == Some(cidx as int));
                    assert(loaded_from.num_pages_of(cid) == pre.num_pages_of(cid));
                }
                proof {
                    assert(self.cont_ids().len() == pre.cont_ids().len());
                    assert(self.containers@.len() == pre.containers@.len());
                    lemma_index_of_id_bounds(self.cont_ids(), cid);
                    assert(!self.pool.cached(cid, pid)) by {
                        lemma_index_of_key_bounds(self.pool.keys(), (cid, pid));
                        lemma_index_of_key_bounds(pre.pool.keys(), (cid, pid));
                    }
                }
                let read = self.hf_read(cidx, pid);
                match read {
                    Ok(p) => {
                        let ghost after_read = *self;
                        let i = self.pool.frames.len();
                        self.pool.frames.push(
                            Frame { cid, pid, page: p, dirty: false, refbit: true, pinned: false },
                        );
                        proof {
                            lemma_load_frame(
                                pre,
                                loaded_from,
                                after_read,
                                *self,
                                cid,
                                pid,
                                cidx as int,
                            );
                            if pre.pool_unpinned() {
                                assert forall|j: int|
                                    0 <= j < self.pool.frames@.len() implies !(
                                #[trigger] self.pool.frames@[j]).pinned by {
                                    if j < self.pool.frames@.len() - 1 {
                                        assert(self.pool.frames@[j]
                                            == loaded_from.pool.frames@[j]);
                                    }
                                }
                            }
                            if pre.pool.frames@.len() < PAGE_SLOTS {
                                assert(loaded_from.pool == pre.pool);
                                assert forall|k: (ContainerId, PageId)| true implies ((
                                #[trigger] index_of_key(self.pool.keys(), k)) is Some <==> (k
                                    == (cid, pid) || index_of_key(pre.pool.keys(), k)
                                    is Some)) by {
                                    assert(loaded_from.pool.keys() == pre.pool.keys());
                                }
                            } else {
                                assert(exists|vk: (ContainerId, PageId)|
                                    index_of_key(pre.pool.keys(), vk) is Some && vk != (cid, pid)
                                        && forall|k: (ContainerId, PageId)|
                                        #[trigger] index_of_key(self.pool.keys(), k)
                                            is Some <==> (k == (cid, pid) || (k != vk
                                            && index_of_key(pre.pool.keys(), k) is Some))) by {
                                    assert(index_of_key(pre.pool.keys(), victim) is Some && victim
                                        != (cid, pid) && forall|k: (ContainerId, PageId)|
                                        #[trigger] index_of_key(self.pool.keys(), k)
                                            is Some <==> (k == (cid, pid) || (k != victim
                                            && index_of_key(pre.pool.keys(), k) is Some))) by {
                                        assert forall|k: (ContainerId, PageId)| true implies ((
                                        #[trigger] index_of_key(self.pool.keys(), k))
                                            is Some <==> (k == (cid, pid) || (k != victim
                                            && index_of_key(pre.pool.keys(), k) is Some))) by {
                                            assert((index_of_key(loaded_from.pool.keys(), k))
                                                is Some <==> (k != victim && index_of_key(
                                                pre.pool.keys(),
                                                k,
                                            ) is Some));
                                        }
                                    }
                                }
                            }
                        }
                        Some(i)
                    },
                    Err(_) => {
                        proof {
                            assert(false);
                        }
                        None
                    },
                }
            },
        }
    }
}

/// A pool change that keeps every frame's key, page contents, dirtiness
/// and pinnedness keeps the manager well formed and every page's contents.
proof fn lemma_pool_meta_preserves_wf(pre: StorageManager, post: StorageManager)
    requires
        pre.wf(),
        post.containers@ == pre.containers@,
        post.pool.frames@.len() == pre.pool.frames@.len(),
        post.pool.keys() == pre.pool.keys(),
        keys_unique(post.pool.keys()),
        post.pool.frames@.len() <= PAGE_SLOTS,
        forall|j: int|
            0 <= j < pre.pool.frames@.len() ==> {
                let f0 = pre.pool.frames@[j];
                let f1 = #[trigger] post.pool.frames@[j];
                f1.cid == f0.cid && f1.pid == f0.pid && f1.page.same_page(&f0.page) && f1.dirty
                    == f0.dirty
            },
        forall|j: int|
            0 <= j < post.pool.frames@.len() ==> (#[trigger] post.pool.frames@[j]).page.wf()
                && post.pool.frames@[j].page.header.page_id == post.pool.frames@[j].pid,
    ensures
        post.wf(),
{
    assert forall|j: int|
        0 <= j < post.pool.frames@.len() implies {
        let f = #[trigger] post.pool.frames@[j];
        &&& post.has_container(f.cid)
        &&& (f.pid as int) < post.num_pages_of(f.cid)
        &&& (!f.dirty ==> f.page.same_page(&post.hf_of(f.cid).pages@[f.pid as int]))
    } by {
        let f = post.pool.frames@[j];
        let f0 = pre.pool.frames@[j];
        assert(f.cid == f0.cid && f.pid == f0.pid);
    }
}

/// A pool change that keeps keys and page contents keeps every effective
/// page's contents.
proof fn lemma_same_pool_pages(pre: StorageManager, post: StorageManager)
    requires
        pre.wf(),
        post.containers@ == pre.containers@,
        post.pool.frames@.len() == pre.pool.frames@.len(),
        post.pool.keys() == pre.pool.keys(),
        forall|j: int|
            0 <= j < pre.pool.frames@.len() ==> (#[trigger] post.pool.frames@[j]).page.same_page(
                &pre.pool.frames@[j].page,
            ),
    ensures
        StorageManager::preserves_all(pre, post),
        StorageManager::same_layout(pre, post),
{
    assert forall|c: ContainerId, p: PageId|
        pre.valid_page(c, p) implies (#[trigger] post.eff_page(c, p)).same_page(
        &pre.eff_page(c, p),
    ) by {
        lemma_index_of_key_bounds(pre.pool.keys(), (c, p));
    }
}

/// Before an eviction write-back: the victim frame named a live page.
proof fn lemma_evict_pre(
    pre: StorageManager,
    after_clock: StorageManager,
    after_remove: StorageManager,
    vi: int,
)
    requires
        after_clock.wf(),
        0 <= vi < after_clock.pool.frames@.len(),
        after_remove.containers@ == after_clock.containers@,
        after_remove.pool.frames@ == after_clock.pool.frames@.remove(vi),
    ensures
        after_remove.has_container(after_clock.pool.frames@[vi].cid),
        (after_clock.pool.frames@[vi].pid as int) < after_remove.num_pages_of(
            after_clock.pool.frames@[vi].cid,
        ),
{
    let f = after_clock.pool.frames@[vi];
    assert(after_clock.has_container(f.cid));
}

/// Removing a dirty frame and writing its page back to its heap file
/// preserves every page's contents and the manager's well-formedness.
proof fn lemma_evict_dirty(
    mid: StorageManager,
    after_remove: StorageManager,
    post: StorageManager,
    f: Frame,
    vi: int,
    idx: int,
)
    requires
        mid.wf(),
        0 <= vi < mid.pool.frames@.len(),
        f == mid.pool.frames@[vi],
        f.dirty,
        after_remove.containers@ == mid.containers@,
        after_remove.pool.frames@ == mid.pool.frames@.remove(vi),
        after_remove.storage_path == mid.storage_path,
        after_remove.is_temp == mid.is_temp,
        mid.hf_index_of(f.cid) == Some(idx),
        0 <= idx < mid.containers@.len(),
        post.pool == after_remove.pool,
        post.storage_path == after_remove.storage_path,
        post.is_temp == after_remove.is_temp,
        post.containers@.len() == mid.containers@.len(),
        forall|t: int|
            0 <= t < mid.containers@.len() && t != idx ==> #[trigger] post.containers@[t]
                == mid.containers@[t],
        post.containers@[idx].container_id == mid.containers@[idx].container_id,
        post.containers@[idx].read_count == mid.containers@[idx].read_count,
        post.containers@[idx].write_count == sat_inc(mid.containers@[idx].write_count),
        post.containers@[idx].wf(),
        post.containers@[idx].pages@ == mid.containers@[idx].pages@.update(f.pid as int, f.page),
        post.cont_ids() == mid.cont_ids(),
        (f.pid as int) < mid.containers@[idx].pages@.len(),
    ensures
        post.wf(),
        StorageManager::same_layout(mid, post),
        StorageManager::preserves_all(mid, post),
        forall|c: ContainerId|
            mid.has_container(c) ==> #[trigger] post.read_count_of(c) == mid.read_count_of(c),
        forall|c: ContainerId|
            mid.has_container(c) ==> #[trigger] post.write_count_of(c) == mid.write_count_of(c)
                || post.write_count_of(c) == sat_inc(mid.write_count_of(c)),
        post.pool.frames@.len() == mid.pool.frames@.len() - 1,
        !post.pool.cached(f.cid, f.pid),
        forall|k: (ContainerId, PageId)|
            k != (f.cid, f.pid) ==> (#[trigger] index_of_key(post.pool.keys(), k)
                is Some <==> index_of_key(mid.pool.keys(), k) is Some),
{
    mid.pool.frames@.remove_ensures(vi);
    assert(post.pool.keys() =~= mid.pool.keys().remove(vi));
    lemma_index_of_key_match(mid.pool.keys(), (f.cid, f.pid), vi);
    lemma_index_of_id_bounds(mid.cont_ids(), f.cid);
    assert forall|k: (ContainerId, PageId)| true implies #[trigger] index_of_key(
        post.pool.keys(),
        k,
    ) == (match index_of_key(mid.pool.keys(), k) {
        None => None::<int>,
        Some(j) => if j == vi {
            None::<int>
        } else if j < vi {
            Some(j)
        } else {
            Some(j - 1)
        },
    }) by {
        lemma_index_of_key_remove(mid.pool.keys(), vi, k);
    }
    assert forall|k: (ContainerId, PageId)|
        k != (f.cid, f.pid) implies (#[trigger] index_of_key(post.pool.keys(), k)
        is Some <==> index_of_key(mid.pool.keys(), k) is Some) by {
        lemma_index_of_key_remove(mid.pool.keys(), vi, k);
        lemma_index_of_key_bounds(mid.pool.keys(), k);
    }
    assert forall|c: ContainerId| mid.has_container(c) implies #[trigger] post.num_pages_of(c)
        == mid.num_pages_of(c) by {
        lemma_index_of_id_bounds(mid.cont_ids(), c);
    }
    assert forall|c: ContainerId| mid.has_container(c) implies #[trigger] post.read_count_of(c)
        == mid.read_count_of(c) by {
        lemma_index_of_id_bounds(mid.cont_ids(), c);
    }
    assert forall|c: ContainerId| mid.has_container(c) implies #[trigger] post.write_count_of(c)
        == mid.write_count_of(c) || post.write_count_of(c) == sat_inc(mid.write_count_of(c)) by {
        lemma_index_of_id_bounds(mid.cont_ids(), c);
    }
    assert forall|c: ContainerId, p: PageId|
        mid.valid_page(c, p) implies (#[trigger] post.eff_page(c, p)).same_page(
        &mid.eff_page(c, p),
    ) by {
        lemma_index_of_id_bounds(mid.cont_ids(), c);
        lemma_index_of_key_bounds(mid.pool.keys(), (c, p));
        lemma_index_of_key_bounds(post.pool.keys(), (c, p));
        if (c, p) == (f.cid, f.pid) {
            assert(!post.pool.cached(c, p));
            assert(post.eff_page(c, p) == f.page);
            assert(mid.eff_page(c, p) == f.page);
        } else {
            if mid.pool.cached(c, p) {
                let i = mid.pool.frame_index(c, p).unwrap();
                assert(mid.pool.keys()[i] == (c, p));
                assert(i != vi);
                if i < vi {
                    assert(post.pool.frames@[i] == mid.pool.frames@[i]);
                } else {
                    assert(post.pool.frames@[i - 1] == mid.pool.frames@[i]);
                }
            } else {
                assert(!post.pool.cached(c, p));
                if c == f.cid {
                    assert(post.hf_of(c).pages@[p as int] == mid.hf_of(c).pages@[p as int]);
                } else {
                    assert(post.hf_of(c) == mid.hf_of(c));
                }
            }
        }
    }
    assert(post.wf()) by {
        assert(keys_unique(post.pool.keys())) by {
            assert forall|a: int, b: int|
                0 <= a < b < post.pool.keys().len() implies post.pool.keys()[a]
                != post.pool.keys()[b] by {
                let oa = if a < vi { a } else { a + 1 };
                let ob = if b < vi { b } else { b + 1 };
                assert(post.pool.keys()[a] == mid.pool.keys()[oa]);
                assert(post.pool.keys()[b] == mid.pool.keys()[ob]);
            }
        }
        assert forall|j: int|
            0 <= j < post.pool.frames@.len() implies {
            let fr = #[trigger] post.pool.frames@[j];
            &&& post.has_container(fr.cid)
            &&& (fr.pid as int) < post.num_pages_of(fr.cid)
            &&& (!fr.dirty ==> fr.page.same_page(&post.hf_of(fr.cid).pages@[fr.pid as int]))
        } by {
            let fr = post.pool.frames@[j];
            let oj = if j < vi { j } else { j + 1 };
            assert(fr == mid.pool.frames@[oj]);
            lemma_index_of_id_bounds(mid.cont_ids(), fr.cid);
            if !fr.dirty {
                if fr.cid == f.cid && fr.pid == f.pid {
                    assert(mid.pool.keys()[oj] == (f.cid, f.pid));
                    lemma_index_of_key_match(mid.pool.keys(), (f.cid, f.pid), oj);
                    assert(false);
                } else if fr.cid == f.cid {
                    assert(post.hf_of(fr.cid).pages@[fr.pid as int] == mid.hf_of(
                        fr.cid,
                    ).pages@[fr.pid as int]);
                }
            }
        }
    }
}

/// Removing a clean frame preserves every page's contents and the
/// manager's well-formedness.
proof fn lemma_evict_clean(mid: StorageManager, post: StorageManager, f: Frame, vi: int)
    requires
        mid.wf(),
        0 <= vi < mid.pool.frames@.len(),
        f == mid.pool.frames@[vi],
        !f.dirty,
        post.containers@ == mid.containers@,
        post.pool.frames@ == mid.pool.frames@.remove(vi),
        post.storage_path == mid.storage_path,
        post.is_temp == mid.is_temp,
    ensures
        post.wf(),
        StorageManager::same_layout(mid, post),
        StorageManager::preserves_all(mid, post),
        forall|c: ContainerId|
            mid.has_container(c) ==> #[trigger] post.read_count_of(c) == mid.read_count_of(c)
                && post.write_count_of(c) == mid.write_count_of(c),
        post.pool.frames@.len() == mid.pool.frames@.len() - 1,
        !post.pool.cached(f.cid, f.pid),
        forall|k: (ContainerId, PageId)|
            k != (f.cid, f.pid) ==> (#[trigger] index_of_key(post.pool.keys(), k)
                is Some <==> index_of_key(mid.pool.keys(), k) is Some),
{
    mid.pool.frames@.remove_ensures(vi);
    assert(post.pool.keys() =~= mid.pool.keys().remove(vi));
    lemma_index_of_key_match(mid.pool.keys(), (f.cid, f.pid), vi);
    assert forall|k: (ContainerId, PageId)| true implies #[trigger] index_of_key(
        post.pool.keys(),
        k,
    ) == (match index_of_key(mid.pool.keys(), k) {
        None => None::<int>,
        Some(j) => if j == vi {
            None::<int>
        } else if j < vi {
            Some(j)
        } else {
            Some(j - 1)
        },
    }) by {
        lemma_index_of_key_remove(mid.pool.keys(), vi, k);
    }
    assert forall|k: (ContainerId, PageId)|
        k != (f.cid, f.pid) implies (#[trigger] index_of_key(post.pool.keys(), k)
        is Some <==> index_of_key(mid.pool.keys(), k) is Some) by {
        lemma_index_of_key_remove(mid.pool.keys(), vi, k);
        lemma_index_of_key_bounds(mid.pool.keys(), k);
    }
    assert forall|c: ContainerId, p: PageId|
        mid.valid_page(c, p) implies (#[trigger] post.eff_page(c, p)).same_page(
        &mid.eff_page(c, p),
    ) by {
        lemma_index_of_key_bounds(mid.pool.keys(), (c, p));
        lemma_index_of_key_bounds(post.pool.keys(), (c, p));
        if (c, p) == (f.cid, f.pid) {
            assert(!post.pool.cached(c, p));
            assert(mid.eff_page(c, p) == f.page);
            assert(f.page.same_page(&mid.hf_of(f.cid).pages@[f.pid as int]));
        } else {
            if mid.pool.cached(c, p) {
                let i = mid.pool.frame_index(c, p).unwrap();
                assert(mid.pool.keys()[i] == (c, p));
                assert(i != vi);
                if i < vi {
                    assert(post.pool.frames@[i] == mid.pool.frames@[i]);
                } else {
                    assert(post.pool.frames@[i - 1] == mid.pool.frames@[i]);
                }
            } else {
                assert(!post.pool.cached(c, p));
            }
        }
    }
    assert(post.wf()) by {
        assert(keys_unique(post.pool.keys())) by {
            assert forall|a: int, b: int|
                0 <= a < b < post.pool.keys().len() implies post.pool.keys()[a]
                != post.pool.keys()[b] by {
                let oa = if a < vi { a } else { a + 1 };
                let ob = if b < vi { b } else { b + 1 };
                assert(post.pool.keys()[a] == mid.pool.keys()[oa]);
                assert(post.pool.keys()[b] == mid.pool.keys()[ob]);
            }
        }
        assert forall|j: int|
            0 <= j < post.pool.frames@.len() implies {
            let fr = #[trigger] post.pool.frames@[j];
            &&& post.has_container(fr.cid)
            &&& (fr.pid as int) < post.num_pages_of(fr.cid)
            &&& (!fr.dirty ==> fr.page.same_page(&post.hf_of(fr.cid).pages@[fr.pid as int]))
        } by {
            let fr = post.pool.frames@[j];
            let oj = if j < vi { j } else { j + 1 };
            assert(fr == mid.pool.frames@[oj]);
        }
    }
}

/// Caching a freshly read page preserves every page's contents and the
/// manager's well-formedness, and counts exactly one read on its
/// container.
proof fn lemma_load_frame(
    pre: StorageManager,
    loaded_from: StorageManager,
    after_read: StorageManager,
    post: StorageManager,
    cid: ContainerId,
    pid: PageId,
    cidx: int,
)
    requires
        pre.wf(),
        loaded_from.wf(),
        after_read.wf(),
        StorageManager::same_layout(pre, loaded_from),
        StorageManager::preserves_all(pre, loaded_from),
        forall|c: ContainerId|
            pre.has_container(c) ==> #[trigger] loaded_from.read_count_of(c)
                == pre.read_count_of(c),
        !loaded_from.pool.cached(cid, pid),
        loaded_from.pool.frames@.len() < PAGE_SLOTS,
        loaded_from.hf_index_of(cid) == Some(cidx),
        0 <= cidx < loaded_from.containers@.len(),
        (pid as int) < loaded_from.num_pages_of(cid),
        // the read changed only the read counter of cidx
        after_read.pool == loaded_from.pool,
        after_read.storage_path == loaded_from.storage_path,
        after_read.is_temp == loaded_from.is_temp,
        after_read.containers@.len() == loaded_from.containers@.len(),
        forall|t: int|
            0 <= t < loaded_from.containers@.len() && t != cidx
                ==> #[trigger] after_read.containers@[t] == loaded_from.containers@[t],
        after_read.containers@[cidx].pages@ == loaded_from.containers@[cidx].pages@,
        after_read.containers@[cidx].container_id == loaded_from.containers@[cidx].container_id,
        after_read.containers@[cidx].write_count == loaded_from.containers@[cidx].write_count,
        after_read.containers@[cidx].read_count == sat_inc(
            loaded_from.containers@[cidx].read_count,
        ),
        after_read.cont_ids() == loaded_from.cont_ids(),
        // the push added one clean frame for (cid, pid)
        post.containers@ == after_read.containers@,
        post.storage_path == after_read.storage_path,
        post.is_temp == after_read.is_temp,
        post.pool.frames@ == after_read.pool.frames@.push(
            post.pool.frames@[post.pool.frames@.len() - 1],
        ),
        ({
            let nf = post.pool.frames@[post.pool.frames@.len() - 1];
            &&& nf.cid == cid
            &&& nf.pid == pid
            &&& !nf.dirty
            &&& nf.page.wf()
            &&& nf.page.header.page_id == pid
            &&& nf.page.same_page(&loaded_from.hf_of(cid).pages@[pid as int])
        }),
    ensures
        post.wf(),
        StorageManager::same_layout(pre, post),
        StorageManager::preserves_all(pre, post),
        post.pool.frame_index(cid, pid) == Some(post.pool.frames@.len() - 1),
        post.pool.frames@[post.pool.frames@.len() - 1].page.same_page(&pre.eff_page(cid, pid)),
        forall|k: (ContainerId, PageId)|
            #[trigger] index_of_key(post.pool.keys(), k) is Some <==> (k == (cid, pid)
                || index_of_key(loaded_from.pool.keys(), k) is Some),
        post.read_count_of(cid) == sat_inc(pre.read_count_of(cid)),
        forall|c: ContainerId|
            c != cid && pre.has_container(c) ==> #[trigger] post.read_count_of(c)
                == pre.read_count_of(c),
        forall|c: ContainerId|
            pre.has_container(c) ==> #[trigger] post.write_count_of(c) == loaded_from.write_count_of(
                c,
            ),
    decreases 0int,
{
    let nf = post.pool.frames@[post.pool.frames@.len() - 1];
    assert(post.pool.keys() =~= after_read.pool.keys().push((cid, pid)));
    assert forall|k: (ContainerId, PageId)| true implies #[trigger] index_of_key(
        post.pool.keys(),
        k,
    ) == (if k == (cid, pid) {
        Some(after_read.pool.keys().len() as int)
    } else {
        index_of_key(after_read.pool.keys(), k)
    }) by {
        lemma_index_of_key_push(after_read.pool.keys(), (cid, pid), k);
    }
    assert forall|k: (ContainerId, PageId)| true implies (#[trigger] index_of_key(
        post.pool.keys(),
        k,
    ) is Some <==> (k == (cid, pid) || index_of_key(loaded_from.pool.keys(), k) is Some)) by {
        lemma_index_of_key_push(after_read.pool.keys(), (cid, pid), k);
    }
    assert forall|c: ContainerId| loaded_from.has_container(c)
        implies #[trigger] post.hf_index_of(c) == loaded_from.hf_index_of(c)
        && post.num_pages_of(c) == loaded_from.num_pages_of(c) by {
        lemma_index_of_id_bounds(loaded_from.cont_ids(), c);
    }
    assert(keys_unique(post.pool.keys())) by {
        lemma_index_of_key_bounds(after_read.pool.keys(), (cid, pid));
        assert forall|a: int, b: int|
            0 <= a < b < post.pool.keys().len() implies post.pool.keys()[a]
            != post.pool.keys()[b] by {
            if b == post.pool.keys().len() - 1 {
                if after_read.pool.keys()[a] == (cid, pid) {
                    lemma_index_of_key_match(after_read.pool.keys(), (cid, pid), a);
                }
            }
        }
    }
    assert(loaded_from.eff_page(cid, pid) == loaded_from.hf_of(cid).pages@[pid as int]);
    assert(loaded_from.eff_page(cid, pid).same_page(&pre.eff_page(cid, pid)));
    assert forall|c: ContainerId, p: PageId|
        loaded_from.valid_page(c, p) implies (#[trigger] post.eff_page(c, p)).same_page(
        &loaded_from.eff_page(c, p),
    ) by {
        lemma_index_of_id_bounds(loaded_from.cont_ids(), c);
        lemma_index_of_key_bounds(loaded_from.pool.keys(), (c, p));
        lemma_index_of_key_bounds(post.pool.keys(), (c, p));
        if (c, p) == (cid, pid) {
            assert(post.pool.cached(c, p));
            assert(post.pool.frame_index(c, p) == Some(post.pool.frames@.len() - 1));
            assert(post.eff_page(c, p) == nf.page);
        } else {
            if loaded_from.pool.cached(c, p) {
                let i = loaded_from.pool.frame_index(c, p).unwrap();
                assert(loaded_from.pool.keys()[i] == (c, p));
                assert(post.pool.frames@[i] == loaded_from.pool.frames@[i]);
            } else {
                assert(!post.pool.cached(c, p));
                lemma_index_of_id_bounds(loaded_from.cont_ids(), cid);
                if c == cid {
                    assert(post.hf_of(c).pages@ == loaded_from.hf_of(c).pages@);
                } else {
                    assert(post.hf_of(c) == loaded_from.hf_of(c));
                }
            }
        }
    }
    assert forall|c: ContainerId, p: PageId|
        pre.valid_page(c, p) implies (#[trigger] post.eff_page(c, p)).same_page(
        &pre.eff_page(c, p),
    ) by {
        assert(loaded_from.valid_page(c, p));
        assert(post.eff_page(c, p).same_page(&loaded_from.eff_page(c, p)));
        assert(loaded_from.eff_page(c, p).same_page(&pre.eff_page(c, p)));
    }
    assert(post.wf()) by {
        assert forall|j: int|
            0 <= j < post.pool.frames@.len() implies {
            let fr = #[trigger] post.pool.frames@[j];
            &&& post.has_container(fr.cid)
            &&& (fr.pid as int) < post.num_pages_of(fr.cid)
            &&& (!fr.dirty ==> fr.page.same_page(&post.hf_of(fr.cid).pages@[fr.pid as int]))
        } by {
            if j < post.pool.frames@.len() - 1 {
                let fr = post.pool.frames@[j];
                assert(fr == loaded_from.pool.frames@[j]);
                lemma_index_of_id_bounds(loaded_from.cont_ids(), fr.cid);
                lemma_index_of_id_bounds(loaded_from.cont_ids(), cid);
                if !fr.dirty {
                    if fr.cid == cid {
                        assert(post.hf_of(fr.cid).pages@ == loaded_from.hf_of(fr.cid).pages@);
                    } else {
                        assert(post.hf_of(fr.cid) == loaded_from.hf_of(fr.cid));
                    }
                }
            } else {
                assert(post.pool.frames@[j] == nf);
                assert(post.hf_of(cid).pages@ == loaded_from.hf_of(cid).pages@);
            }
        }
    }
    assert(post.read_count_of(cid) == sat_inc(pre.read_count_of(cid))) by {
        lemma_index_of_id_bounds(loaded_from.cont_ids(), cid);
        assert(loaded_from.has_container(cid));
        assert(pre.has_container(cid));
        assert(pre.read_count_of(cid) == loaded_from.read_count_of(cid));
    }
    assert forall|c: ContainerId| c != cid && pre.has_container(c)
        implies #[trigger] post.read_count_of(c) == pre.read_count_of(c) by {
        lemma_index_of_id_bounds(loaded_from.cont_ids(), c);
        lemma_index_of_id_bounds(loaded_from.cont_ids(), cid);
        assert(loaded_from.has_container(c));
        assert(loaded_from.read_count_of(c) == pre.read_count_of(c));
        let ic = loaded_from.hf_index_of(c).unwrap();
        assert(loaded_from.cont_ids()[ic] == c);
        assert(loaded_from.cont_ids()[cidx] == cid);
        assert(ic != cidx);
        assert(post.containers@[ic] == loaded_from.containers@[ic]);
    }
    assert forall|c: ContainerId| pre.has_container(c) implies #[trigger] post.write_count_of(c)
        == loaded_from.write_count_of(c) by {
        lemma_index_of_id_bounds(loaded_from.cont_ids(), c);
        lemma_index_of_id_bounds(loaded_from.cont_ids(), cid);
    }
}



impl StorageManager {
    /// A copy of a page, read through the buffer pool: a cached page is
    /// served from its frame, a missed one is loaded from the heap file
    /// (evicting first when the pool is full) and counted as one read.
    /// Nothing is returned for an unknown container or page number, or
    /// when every frame is pinned.
    pub fn get_page(
        &mut self,
        container_id: ContainerId,
        page_id: PageId,
        _tid: TransactionId,
        _perm: Permissions,
        pin: bool,
    ) -> (r: Option<Page>)
        requires
            old(self).wf(),
        ensures
            final(self).wf(),
            Self::same_layout(*old(self), *final(self)),
            Self::preserves_all(*old(self), *final(self)),
            r is Some <==> old(self).valid_page(container_id, page_id) && (old(self).pool.cached(
                container_id,
                page_id,
            ) || old(self).can_load()),
            r matches Some(p) ==> p.wf() && p.same_page(&old(self).eff_page(container_id, page_id))
                && final(self).pool.cached(container_id, page_id),
            old(self).valid_page(container_id, page_id) && old(self).pool.cached(
                container_id,
                page_id,
            ) ==> forall|c: ContainerId|
                old(self).has_container(c) ==> #[trigger] final(self).read_count_of(c) == old(self).read_count_of(c) && final(self).write_count_of(c) == old(self).write_count_of(c),
            old(self).valid_page(container_id, page_id) && !old(self).pool.cached(
                container_id,
                page_id,
            ) && old(self).can_load() ==> final(self).read_count_of(container_id) == sat_inc(
                old(self).read_count_of(container_id),
            ) && forall|c: ContainerId|
                c != container_id && old(self).has_container(c) ==> #[trigger] final(self).read_count_of(c) == old(self).read_count_of(c),
            !old(self).valid_page(container_id, page_id) ==> *final(self) == *old(self),
            old(self).pool_unpinned() && !pin ==> final(self).pool_unpinned(),
            r is Some && old(self).pool.cached(container_id, page_id) ==> final(self).pool.keys()
                == old(self).pool.keys(),
            r is Some && !old(self).pool.cached(container_id, page_id) && old(
                self,
            ).pool.frames@.len() < PAGE_SLOTS ==> forall|k: (ContainerId, PageId)|
                #[trigger] index_of_key(final(self).pool.keys(), k) is Some <==> (k == (
                    container_id,
                    page_id,
                ) || index_of_key(old(self).pool.keys(), k) is Some),
            r is Some && !old(self).pool.cached(container_id, page_id) && old(
                self,
            ).pool.frames@.len() >= PAGE_SLOTS ==> exists|vk: (ContainerId, PageId)|
                index_of_key(old(self).pool.keys(), vk) is Some && vk != (container_id, page_id)
                    && forall|k: (ContainerId, PageId)|
                    #[trigger] index_of_key(final(self).pool.keys(), k) is Some <==> (k == (
                        container_id,
                        page_id,
                    ) || (k != vk && index_of_key(old(self).pool.keys(), k) is Some)),
    {
        let cidx = match self.find_container(container_id) {
            None => {
                return None;
            },
            Some(i) => i,
        };
        if !(page_id < self.containers[cidx].num_pages()) {
            return None;
        }
        let ghost pre = *self;
        match self.ensure_cached(cidx, container_id, page_id) {
            None => {
                proof {
                    assert(!pre.pool.cached(container_id, page_id) && !pre.can_load());
                }
                None
            },
            Some(i) => {
                let ghost mid = *self;
                self.pool.touch(i, pin);
                let copy = self.pool.frames[i].page.clone();
                proof {
                    lemma_pool_meta_preserves_wf(mid, *self);
                    lemma_same_pool_pages(mid, *self);
                    assert(self.pool.keys() == mid.pool.keys());
                    assert(self.pool.frame_index(container_id, page_id) == Some(i as int));
                    assert(copy.same_page(&pre.eff_page(container_id, page_id)));
                    assert forall|c: ContainerId|
                        pre.has_container(c) implies #[trigger] self.read_count_of(c)
                        == mid.read_count_of(c) && self.write_count_of(c) == mid.write_count_of(
                        c,
                    ) by {
                        lemma_index_of_id_bounds(pre.cont_ids(), c);
                    }
                    if pre.pool_unpinned() && !pin {
                        assert forall|j: int|
                            0 <= j < self.pool.frames@.len() implies !(
                        #[trigger] self.pool.frames@[j]).pinned by {
                            if j != i as int {
                                assert(self.pool.frames@[j] == mid.pool.frames@[j]);
                            }
                            assert(!mid.pool.frames@[j].pinned);
                        }
                    }
                    if !pre.pool.cached(container_id, page_id)
                        && pre.pool.frames@.len() >= PAGE_SLOTS {
                        let vk = choose|vk: (ContainerId, PageId)|
                            index_of_key(pre.pool.keys(), vk) is Some && vk != (
                                container_id,
                                page_id,
                            ) && forall|k: (ContainerId, PageId)|
                                #[trigger] index_of_key(mid.pool.keys(), k) is Some <==> (k == (
                                    container_id,
                                    page_id,
                                ) || (k != vk && index_of_key(pre.pool.keys(), k) is Some));
                        assert(index_of_key(pre.pool.keys(), vk) is Some && vk != (
                            container_id,
                            page_id,
                        ) && forall|k: (ContainerId, PageId)|
                            #[trigger] index_of_key(self.pool.keys(), k) is Some <==> (k == (
                                container_id,
                                page_id,
                            ) || (k != vk && index_of_key(pre.pool.keys(), k) is Some)));
                    }
                }
                Some(copy)
            },
        }
    }

    /// Write a page through to its heap file, at the page number the page
    /// itself names; writing at the current page count grows the container
    /// by one page. A cached copy of that page is refreshed and marked
    /// clean. Counts one write on the container. Fails for an unknown
    /// container, a page number past the current count, or growth past the
    /// page-number range; a failure changes nothing.
    pub fn write_page(
        &mut self,
        container_id: ContainerId,
        page: Page,
        _tid: TransactionId,
    ) -> (r: Result<(), CrustyError>)
        requires
            old(self).wf(),
            page.wf(),
        ensures
            final(self).wf(),
            old(self).pool_unpinned() ==> final(self).pool_unpinned(),
            ({
                let pid = page.header.page_id;
                let ok = old(self).has_container(container_id) && ((pid as int) < old(self).num_pages_of(container_id) || ((pid as int) == old(self).num_pages_of(
                    container_id,
                ) && old(self).num_pages_of(container_id) < u16::MAX));
                &&& (r is Ok <==> ok)
                &&& (!ok ==> *final(self) == *old(self))
                &&& (ok ==> {
                    &&& final(self).cont_ids() == old(self).cont_ids()
                    &&& final(self).num_pages_of(container_id) == if (pid as int) < old(self).num_pages_of(container_id) {
                        old(self).num_pages_of(container_id)
                    } else {
                        old(self).num_pages_of(container_id) + 1
                    }
                    &&& forall|c: ContainerId|
                        c != container_id && old(self).has_container(c) ==> #[trigger] final(self).num_pages_of(c) == old(self).num_pages_of(c)
                    &&& Self::preserves_except(*old(self), *final(self), container_id, pid)
                    &&& final(self).eff_page(container_id, pid).same_page(&page)
                    &&& final(self).write_count_of(container_id) == sat_inc(
                        old(self).write_count_of(container_id),
                    )
                    &&& forall|c: ContainerId|
                        old(self).has_container(c) ==> #[trigger] final(self).read_count_of(c)
                            == old(self).read_count_of(c)
                    &&& forall|c: ContainerId|
                        c != container_id && old(self).has_container(c) ==> #[trigger] final(self).write_count_of(c) == old(self).write_count_of(c)
                })
            }),
    {
        let ghost pre = *self;
        let cidx = match self.find_container(container_id) {
            None => {
                return Err(CrustyError::CrustyError(String::from_str("container not found")));
            },
            Some(i) => i,
        };
        let pid = page.get_page_id();
        let num = self.containers[cidx].num_pages();
        if pid > num || (pid == num && num == u16::MAX) {
            return Err(CrustyError::CrustyError(String::from_str("page number past end of file")));
        }
        let frame = self.pool.find(container_id, pid);
        match frame {
            Some(i) => {
                let copy = page.clone();
                let copy2 = page.clone();
                proof {
                    lemma_index_of_key_bounds(pre.pool.keys(), (container_id, pid));
                    assert(pre.pool.frames@[i as int].pid == pid);
                    assert(copy.header.page_id == pid);
                }
                self.pool.set_frame_page(i, copy, true);
                let ghost mid1 = *self;
                proof {
                    lemma_pool_set_frame(pre, mid1, i as int, container_id, pid);
                }
                proof {
                    assert forall|j: int|
                        0 <= j < mid1.pool.frames@.len() && (#[trigger] mid1.pool.frames@[j]).cid
                            == container_id && mid1.pool.frames@[j].pid == pid
                        implies mid1.pool.frames@[j].dirty by {
                        assert(mid1.pool.keys()[j] == (container_id, pid));
                        lemma_index_of_key_match(mid1.pool.keys(), (container_id, pid), j);
                    }
                }
                let res = self.hf_write(cidx, page);
                let ghost mid2 = *self;
                proof {
                    assert(res is Ok);
                    lemma_index_of_id_bounds(mid1.cont_ids(), container_id);
                    lemma_index_of_key_match(mid1.pool.keys(), (container_id, pid), i as int);
                    lemma_write_through(mid1, mid2, container_id, pid, cidx as int);
                }
                self.pool.set_frame_page(i, copy2, false);
                proof {
                    assert(mid2.pool.frames@[i as int].pid == pid);
                    lemma_index_of_id_bounds(mid2.cont_ids(), container_id);
                    assert(self.pool.frames@[i as int].page.same_page(
                        &mid2.hf_of(container_id).pages@[pid as int],
                    ));
                    lemma_pool_set_frame(mid2, *self, i as int, container_id, pid);
                    assert(Self::preserves_except(*old(self), *final(self), container_id, pid))
                        by {
                        assert forall|c: ContainerId, p: PageId|
                            pre.valid_page(c, p) && !(c == container_id && p == pid) implies (
                        #[trigger] self.eff_page(c, p)).same_page(&pre.eff_page(c, p)) by {
                            assert(mid1.valid_page(c, p));
                            assert(mid2.valid_page(c, p));
                            assert(mid1.eff_page(c, p).same_page(&pre.eff_page(c, p)));
                            assert(mid2.eff_page(c, p).same_page(&mid1.eff_page(c, p)));
                            assert(self.eff_page(c, p).same_page(&mid2.eff_page(c, p)));
                        }
                    }
                    assert(self.eff_page(container_id, pid).same_page(&page));
                    assert forall|c: ContainerId| c != container_id && pre.has_container(c)
                        implies #[trigger] self.num_pages_of(c) == pre.num_pages_of(c) by {
                        assert(mid1.num_pages_of(c) == pre.num_pages_of(c));
                        assert(mid2.num_pages_of(c) == mid1.num_pages_of(c));
                        assert(self.num_pages_of(c) == mid2.num_pages_of(c));
                    }
                    assert forall|c: ContainerId| c != container_id && pre.has_container(c)
                        implies #[trigger] self.write_count_of(c) == pre.write_count_of(c) by {
                        assert(mid1.has_container(c));
                        assert(mid1.write_count_of(c) == pre.write_count_of(c));
                        assert(mid2.write_count_of(c) == mid1.write_count_of(c));
                        assert(self.write_count_of(c) == mid2.write_count_of(c));
                    }
                    assert forall|c: ContainerId| pre.has_container(c)
                        implies #[trigger] self.read_count_of(c) == pre.read_count_of(c) by {
                        assert(mid1.has_container(c));
                        assert(mid1.read_count_of(c) == pre.read_count_of(c));
                        assert(mid2.read_count_of(c) == mid1.read_count_of(c));
                        assert(self.read_count_of(c) == mid2.read_count_of(c));
                    }
                    assert(mid1.num_pages_of(container_id) == pre.num_pages_of(container_id));
                    assert(self.num_pages_of(container_id) == mid2.num_pages_of(container_id));
                    assert(mid1.write_count_of(container_id) == pre.write_count_of(container_id));
                    assert(self.write_count_of(container_id) == mid2.write_count_of(container_id));
                    if pre.pool_unpinned() {
                        assert forall|j: int|
                            0 <= j < self.pool.frames@.len() implies !(
                        #[trigger] self.pool.frames@[j]).pinned by {
                            if j != i as int {
                                assert(self.pool.frames@[j] == mid2.pool.frames@[j]);
                                assert(mid2.pool.frames@[j] == mid1.pool.frames@[j]);
                                assert(mid1.pool.frames@[j] == pre.pool.frames@[j]);
                            } else {
                                assert(mid1.pool.frames@[j].pinned == pre.pool.frames@[j].pinned);
                                assert(self.pool.frames@[j].pinned
                                    == mid2.pool.frames@[j].pinned);
                            }
                        }
                    }
                }
            },
            None => {
                proof {
                    lemma_index_of_key_bounds(pre.pool.keys(), (container_id, pid));
                    assert forall|j: int|
                        0 <= j < pre.pool.frames@.len() && (#[trigger] pre.pool.frames@[j]).cid
                            == container_id && pre.pool.frames@[j].pid == pid
                        implies pre.pool.frames@[j].dirty by {
                        assert(pre.pool.keys()[j] == (container_id, pid));
                    }
                }
                let res = self.hf_write(cidx, page);
                proof {
                    assert(res is Ok);
                    lemma_index_of_id_bounds(pre.cont_ids(), container_id);
                    lemma_write_through(pre, *self, container_id, pid, cidx as int);
                    lemma_index_of_key_bounds(pre.pool.keys(), (container_id, pid));
                    assert(!self.pool.cached(container_id, pid));
                    assert(self.eff_page(container_id, pid).same_page(&page));
                }
            },
        }
        Ok(())
    }
}

/// Writing a page block through the heap file leaves every other page, all
/// frames, and the manager's well-formedness shape intact apart from the
/// refreshed or appended block.
proof fn lemma_write_through(
    pre: StorageManager,
    post: StorageManager,
    cid: ContainerId,
    pid: PageId,
    cidx: int,
)
    requires
        pre.wf(),
        pre.hf_index_of(cid) == Some(cidx),
        0 <= cidx < pre.containers@.len(),
        post.pool == pre.pool,
        post.storage_path == pre.storage_path,
        post.is_temp == pre.is_temp,
        post.containers@.len() == pre.containers@.len(),
        forall|t: int|
            0 <= t < pre.containers@.len() && t != cidx ==> #[trigger] post.containers@[t]
                == pre.containers@[t],
        post.containers@[cidx].container_id == pre.containers@[cidx].container_id,
        post.containers@[cidx].read_count == pre.containers@[cidx].read_count,
        post.containers@[cidx].wf(),
        post.cont_ids() == pre.cont_ids(),
        (pid as int) <= pre.containers@[cidx].pages@.len(),
        forall|j: int|
            0 <= j < pre.pool.frames@.len() && (#[trigger] pre.pool.frames@[j]).cid == cid
                && pre.pool.frames@[j].pid == pid ==> pre.pool.frames@[j].dirty,
        post.containers@[cidx].pages@.len() as int == if (pid as int) < pre.containers@[
            cidx
        ].pages@.len() {
            pre.containers@[cidx].pages@.len() as int
        } else {
            pre.containers@[cidx].pages@.len() as int + 1
        },
        forall|t: int|
            0 <= t < pre.containers@[cidx].pages@.len() && t != pid ==> #[trigger] post.containers@[
                cidx
            ].pages@[t] == pre.containers@[cidx].pages@[t],
        post.containers@[cidx].pages@[pid as int].wf(),
    ensures
        post.wf(),
        post.num_pages_of(cid) == post.containers@[cidx].pages@.len(),
        forall|c: ContainerId|
            c != cid && pre.has_container(c) ==> #[trigger] post.num_pages_of(c)
                == pre.num_pages_of(c),
        forall|c: ContainerId, p: PageId|
            pre.valid_page(c, p) && !(c == cid && p == pid) && !pre.pool.cached(c, p) ==> (
            #[trigger] post.eff_page(c, p)).same_page(&pre.eff_page(c, p)),
        forall|c: ContainerId, p: PageId|
            pre.valid_page(c, p) && pre.pool.cached(c, p) && !(c == cid && p == pid) ==> (
            #[trigger] post.eff_page(c, p)).same_page(&pre.eff_page(c, p)),
        forall|c: ContainerId|
            pre.has_container(c) ==> #[trigger] post.read_count_of(c) == pre.read_count_of(c),
        forall|c: ContainerId|
            c != cid && pre.has_container(c) ==> #[trigger] post.write_count_of(c)
                == pre.write_count_of(c),
        post.write_count_of(cid) == post.containers@[cidx].write_count,
        post.hf_index_of(cid) == Some(cidx),
    decreases 0int,
{
    lemma_index_of_id_bounds(pre.cont_ids(), cid);
    assert forall|c: ContainerId| pre.has_container(c)
        implies #[trigger] post.hf_index_of(c) == pre.hf_index_of(c) by {}
    assert forall|c: ContainerId| c != cid && pre.has_container(c)
        implies #[trigger] post.num_pages_of(c) == pre.num_pages_of(c) by {
        lemma_index_of_id_bounds(pre.cont_ids(), c);
        let ic = pre.hf_index_of(c).unwrap();
        assert(pre.cont_ids()[ic] == c);
        assert(pre.cont_ids()[cidx] == cid);
        assert(ic != cidx);
        assert(post.containers@[ic] == pre.containers@[ic]);
    }
    assert forall|c: ContainerId| pre.has_container(c) implies #[trigger] post.read_count_of(c)
        == pre.read_count_of(c) by {
        lemma_index_of_id_bounds(pre.cont_ids(), c);
        let ic = pre.hf_index_of(c).unwrap();
        assert(pre.cont_ids()[ic] == c);
        assert(pre.cont_ids()[cidx] == cid);
        if ic != cidx {
            assert(post.containers@[ic] == pre.containers@[ic]);
        }
    }
    assert forall|c: ContainerId| c != cid && pre.has_container(c)
        implies #[trigger] post.write_count_of(c) == pre.write_count_of(c) by {
        lemma_index_of_id_bounds(pre.cont_ids(), c);
        let ic = pre.hf_index_of(c).unwrap();
        assert(pre.cont_ids()[ic] == c);
        assert(pre.cont_ids()[cidx] == cid);
        assert(ic != cidx);
        assert(post.containers@[ic] == pre.containers@[ic]);
    }
    assert forall|c: ContainerId, p: PageId|
        pre.valid_page(c, p) && !(c == cid && p == pid) implies (#[trigger] post.eff_page(
        c,
        p,
    )).same_page(&pre.eff_page(c, p)) by {
        lemma_index_of_id_bounds(pre.cont_ids(), c);
        lemma_index_of_key_bounds(pre.pool.keys(), (c, p));
        if pre.pool.cached(c, p) {
        } else {
            if c == cid {
                assert(post.hf_of(c).pages@[p as int] == pre.hf_of(c).pages@[p as int]);
            } else {
                let ic = pre.hf_index_of(c).unwrap();
                assert(pre.cont_ids()[ic] == c);
                assert(pre.cont_ids()[cidx] == cid);
                assert(post.hf_of(c) == pre.hf_of(c));
            }
        }
    }
    assert(post.wf()) by {
        assert forall|j: int|
            0 <= j < post.pool.frames@.len() implies {
            let fr = #[trigger] post.pool.frames@[j];
            &&& post.has_container(fr.cid)
            &&& (fr.pid as int) < post.num_pages_of(fr.cid)
            &&& (!fr.dirty ==> fr.page.same_page(&post.hf_of(fr.cid).pages@[fr.pid as int]))
        } by {
            let fr = post.pool.frames@[j];
            assert(fr == pre.pool.frames@[j]);
            lemma_index_of_id_bounds(pre.cont_ids(), fr.cid);
            if fr.cid == cid {
                if !fr.dirty && fr.pid != pid {
                    assert(post.hf_of(fr.cid).pages@[fr.pid as int] == pre.hf_of(
                        fr.cid,
                    ).pages@[fr.pid as int]);
                }
            } else {
                let ic = pre.hf_index_of(fr.cid).unwrap();
                assert(pre.cont_ids()[ic] == fr.cid);
                assert(pre.cont_ids()[cidx] == cid);
                assert(post.hf_of(fr.cid) == pre.hf_of(fr.cid));
            }
        }
    }
}

/// Replacing the contents of one frame changes only its own page: every
/// other page keeps its contents, and the pool stays well formed when the
/// new contents are dirty or agree with the heap file.
proof fn lemma_pool_set_frame(
    pre: StorageManager,
    post: StorageManager,
    i: int,
    cid: ContainerId,
    pid: PageId,
)
    requires
        pre.wf(),
        0 <= i < pre.pool.frames@.len(),
        pre.pool.frames@[i].cid == cid,
        pre.pool.frames@[i].pid == pid,
        post.containers@ == pre.containers@,
        post.storage_path == pre.storage_path,
        post.is_temp == pre.is_temp,
        post.pool.frames@.len() == pre.pool.frames@.len(),
        forall|j: int|
            0 <= j < pre.pool.frames@.len() && j != i ==> #[trigger] post.pool.frames@[j]
                == pre.pool.frames@[j],
        post.pool.frames@[i].cid == cid,
        post.pool.frames@[i].pid == pid,
        post.pool.frames@[i].page.wf(),
        post.pool.frames@[i].page.header.page_id == pid,
        post.pool.frames@[i].dirty || post.pool.frames@[i].page.same_page(
            &pre.hf_of(cid).pages@[pid as int],
        ),
    ensures
        post.wf(),
        StorageManager::same_layout(pre, post),
        StorageManager::preserves_except(pre, post, cid, pid),
        post.pool.keys() == pre.pool.keys(),
        post.pool.frame_index(cid, pid) == Some(i),
        post.eff_page(cid, pid) == post.pool.frames@[i].page,
        forall|c: ContainerId|
            pre.has_container(c) ==> #[trigger] post.read_count_of(c) == pre.read_count_of(c)
                && post.write_count_of(c) == pre.write_count_of(c),
{
    assert(post.pool.keys() =~= pre.pool.keys());
    lemma_index_of_key_match(pre.pool.keys(), (cid, pid), i);
    assert(post.pool.frame_index(cid, pid) == Some(i));
    assert forall|c: ContainerId, p: PageId|
        pre.valid_page(c, p) && !(c == cid && p == pid) implies (#[trigger] post.eff_page(
        c,
        p,
    )).same_page(&pre.eff_page(c, p)) by {
        lemma_index_of_key_bounds(pre.pool.keys(), (c, p));
        if pre.pool.cached(c, p) {
            let k = pre.pool.frame_index(c, p).unwrap();
            assert(pre.pool.keys()[k] == (c, p));
            assert(k != i);
            assert(post.pool.frames@[k] == pre.pool.frames@[k]);
        }
    }
    assert(post.wf()) by {
        assert forall|j: int|
            0 <= j < post.pool.frames@.len() implies {
            let fr = #[trigger] post.pool.frames@[j];
            &&& post.has_container(fr.cid)
            &&& (fr.pid as int) < post.num_pages_of(fr.cid)
            &&& (!fr.dirty ==> fr.page.same_page(&post.hf_of(fr.cid).pages@[fr.pid as int]))
        } by {
            if j != i {
                assert(post.pool.frames@[j] == pre.pool.frames@[j]);
            }
        }
    }
}



/// What one successful insert does, starting state to ending state: the
/// record lands on the first page, in ascending page-number order, that
/// has room for it and one directory entry, under that page's smallest
/// unused slot id; when no page has room, a fresh page holding only the
/// record is appended. Everything else keeps its contents. This is
/// `insert_value`'s contract on success, named so that a batch can be
/// stated as a chain of these steps.
pub open spec fn insert_step(
    pre: StorageManager,
    post: StorageManager,
    container_id: ContainerId,
    value: Seq<u8>,
    vid: ValueId,
) -> bool {
    &&& vid.container_id == container_id
    &&& vid.segment_id is None
    &&& forall|c: ContainerId|
        c != container_id && pre.has_container(c) ==> #[trigger] post.num_pages_of(c)
            == pre.num_pages_of(c)
    &&& vid.page_id matches Some(pid) && vid.slot_id matches Some(sid) && {
        &&& post.cont_ids() == pre.cont_ids()
        &&& StorageManager::preserves_except(pre, post, container_id, pid)
        &&& forall|p2: PageId|
            p2 < pid ==> !(#[trigger] pre.eff_page(container_id, p2)).spec_fits(
                value.len() as int,
            )
        &&& if (pid as int) < pre.num_pages_of(container_id) {
            &&& pre.eff_page(container_id, pid).spec_fits(value.len() as int)
            &&& is_smallest_unused_id(pre.eff_page(container_id, pid).ids(), sid)
            &&& post.eff_page(container_id, pid)@ == pre.eff_page(container_id, pid)@.insert(
                sid,
                value,
            )
            &&& post.num_pages_of(container_id) == pre.num_pages_of(container_id)
        } else {
            &&& (pid as int) == pre.num_pages_of(container_id)
            &&& sid == 0
            &&& post.eff_page(container_id, pid)@ == Map::<SlotId, Seq<u8>>::empty().insert(
                sid,
                value,
            )
            &&& post.num_pages_of(container_id) == pre.num_pages_of(container_id) + 1
        }
        &&& post.value_at(
            ValueId { container_id, segment_id: None, page_id: Some(pid), slot_id: Some(sid) },
        ) == Some(value)
    }
}

impl StorageManager {
    /// Whether no frame is pinned; a manager whose callers never pin keeps
    /// this, and then no operation fails for want of an evictable frame.
    pub open spec fn pool_unpinned(&self) -> bool {
        forall|j: int| 0 <= j < self.pool.frames@.len() ==> !(#[trigger] self.pool.frames@[j]).pinned
    }

    /// Insert the bytes into the container: the first page, in ascending
    /// page-number order, with room for the record and one directory entry
    /// takes it under its smallest unused slot id; when no page has room a
    /// fresh page is appended and written through. Returns the locator of
    /// the new record, whose page, slot and effect `insert_step` pins down
    /// as a function of the starting state. Oversized records and unknown
    /// containers are rejected with no effect.
    pub fn insert_value(
        &mut self,
        container_id: ContainerId,
        value: Vec<u8>,
        _tid: TransactionId,
    ) -> (r: Result<ValueId, CrustyError>)
        requires
            old(self).wf(),
        ensures
            final(self).wf(),
            value@.len() > MAX_RECORD_LEN ==> (r matches Err(e) && e matches
                CrustyError::ValidationError(_) && *final(self) == *old(self)),
            value@.len() <= MAX_RECORD_LEN && !old(self).has_container(container_id) ==> (r
                matches Err(e) && e matches CrustyError::CrustyError(_) && *final(self) == *old(self)),
            value@.len() <= MAX_RECORD_LEN && old(self).has_container(container_id) && old(self).pool_unpinned() && old(self).num_pages_of(container_id) < u16::MAX ==> r is Ok,
            old(self).pool_unpinned() ==> final(self).pool_unpinned(),
            r matches Ok(vid) ==> insert_step(
                *old(self),
                *final(self),
                container_id,
                value@,
                vid,
            ),
    {
        if value.len() > MAX_RECORD_LEN {
            return Err(CrustyError::ValidationError(String::from_str("record too large")));
        }
        let cidx = match self.find_container(container_id) {
            None => {
                return Err(CrustyError::CrustyError(String::from_str("container not found")));
            },
            Some(i) => i,
        };
        let num = self.containers[cidx].num_pages();
        let ghost pre = *self;
        let mut pid: PageId = 0;
        while pid < num
            invariant
                self.wf(),
                pre.wf(),
                pre == *old(self),
                value@.len() <= MAX_RECORD_LEN,
                pre.hf_index_of(container_id) == Some(cidx as int),
                cidx < pre.containers@.len(),
                num == pre.num_pages_of(container_id),
                pid <= num,
                Self::same_layout(pre, *self),
                Self::preserves_all(pre, *self),
                self.hf_index_of(container_id) == Some(cidx as int),
                cidx < self.containers@.len(),
                forall|p2: PageId|
                    p2 < pid ==> !(#[trigger] pre.eff_page(container_id, p2)).spec_fits(
                        value@.len() as int,
                    ),
                pre.pool_unpinned() ==> self.pool_unpinned(),
                self.storage_path == pre.storage_path,
                self.is_temp == pre.is_temp,
            decreases num - pid,
        {
            let ghost loop_pre = *self;
            match self.ensure_cached(cidx, container_id, pid) {
                None => {
                    proof {
                        if pre.pool_unpinned() {
                            assert(loop_pre.pool_unpinned());
                            assert(!loop_pre.pool.cached(container_id, pid));
                            assert(!loop_pre.can_load());
                            assert(loop_pre.pool.frames@.len() >= PAGE_SLOTS);
                            assert(!loop_pre.pool.frames@[0].pinned);
                            assert(false);
                        }
                    }
                    return Err(CrustyError::CrustyError(String::from_str(
                        "buffer pool exhausted",
                    )));
                },
                Some(i) => {
                    let ghost mid = *self;
                    let mut p2 = self.pool.frames[i].page.clone();
                    let added = p2.add_value(&value);
                    proof {
                        assert(self.pool.frames@[i as int].page.same_page(
                            &loop_pre.eff_page(container_id, pid),
                        ));
                        lemma_same_page_same_shape(
                            self.pool.frames@[i as int].page,
                            loop_pre.eff_page(container_id, pid),
                        );
                        lemma_same_page_same_shape(
                            loop_pre.eff_page(container_id, pid),
                            pre.eff_page(container_id, pid),
                        );
                    }
                    match added {
                        Some(sid) => {
                            let ghost before_set = *self;
                            proof {
                                assert(before_set.pool.frames@[i as int].pid == pid);
                                assert(p2.header.page_id == pid);
                            }
                            self.pool.set_frame_page(i, p2, true);
                            proof {
                                lemma_pool_set_frame(before_set, *self, i as int, container_id, pid);
                                assert(self.eff_page(container_id, pid)@ == pre.eff_page(
                                    container_id,
                                    pid,
                                )@.insert(sid, value@)) by {
                                    lemma_same_page_same_view(
                                        before_set.pool.frames@[i as int].page,
                                        pre.eff_page(container_id, pid),
                                    );
                                }
                                assert forall|c: ContainerId, p: PageId|
                                    pre.valid_page(c, p) && !(c == container_id && p == pid)
                                    implies (#[trigger] self.eff_page(c, p)).same_page(
                                    &pre.eff_page(c, p),
                                ) by {
                                    assert(before_set.valid_page(c, p));
                                    assert(before_set.eff_page(c, p).same_page(
                                        &pre.eff_page(c, p),
                                    ));
                                    assert(self.eff_page(c, p).same_page(
                                        &before_set.eff_page(c, p),
                                    ));
                                }
                                assert(self.has_container(container_id));
                                assert(self.valid_page(container_id, pid));
                                assert(self.eff_page(container_id, pid)@.dom().contains(sid));
                                assert(self.eff_page(container_id, pid)@[sid] == value@);
                                assert(self.eff_page(container_id, pid).spec_get(sid) == Some(
                                    value@,
                                ));
                                assert(self.value_at(
                                    ValueId {
                                        container_id,
                                        segment_id: None,
                                        page_id: Some(pid),
                                        slot_id: Some(sid),
                                    },
                                ) == Some(value@));
                                assert forall|c: ContainerId|
                                    c != container_id && pre.has_container(c)
                                    implies #[trigger] self.num_pages_of(c) == pre.num_pages_of(
                                    c,
                                ) by {
                                    assert(before_set.num_pages_of(c) == pre.num_pages_of(c));
                                    assert(self.num_pages_of(c) == before_set.num_pages_of(c));
                                }
                            }
                            return Ok(ValueId::new_slot(container_id, pid, sid));
                        },
                        None => {
                            proof {
                                assert(!pre.eff_page(container_id, pid).spec_fits(
                                    value@.len() as int,
                                ));
                            }
                        },
                    }
                },
            }
            pid = pid + 1;
        }
        // no page had room: append a fresh page and write it through
        if num == u16::MAX {
            return Err(CrustyError::CrustyError(String::from_str("container is full")));
        }
        let ghost before_grow = *self;
        let mut np = Page::new(num);
        proof {
            assert(np.ids() =~= Seq::<SlotId>::empty());
        }
        let ghost empty_ids = np.ids();
        let added = np.add_value(&value);
        let sid = match added {
            Some(s) => s,
            None => {
                proof {
                    assert(false);
                }
                0
            },
        };
        proof {
            assert(sid == 0) by {
                assert(is_smallest_unused_id(empty_ids, sid));
                if sid > 0 {
                    assert(id_used(empty_ids, 0));
                    lemma_index_of_id_bounds(empty_ids, 0);
                }
            }
            assert(np.header.page_id == num);
            assert(np@ =~= Map::<SlotId, Seq<u8>>::empty().insert(sid, value@));
        }
        let ghost np_ghost = np;
        match self.write_page(container_id, np, _tid) {
            Ok(()) => {
                proof {
                    assert(self.eff_page(container_id, num).same_page(&np_ghost));
                    lemma_same_page_same_view(self.eff_page(container_id, num), np_ghost);
                    assert(self.eff_page(container_id, num)@ == Map::<SlotId, Seq<
                        u8,
                    >>::empty().insert(sid, value@));
                    assert forall|c: ContainerId, p: PageId|
                        pre.valid_page(c, p) && !(c == container_id && p == num) implies (
                    #[trigger] self.eff_page(c, p)).same_page(&pre.eff_page(c, p)) by {
                        assert(before_grow.valid_page(c, p));
                        assert(before_grow.eff_page(c, p).same_page(&pre.eff_page(c, p)));
                        assert(self.eff_page(c, p).same_page(&before_grow.eff_page(c, p)));
                    }
                    assert(self.has_container(container_id)) by {
                        assert(self.cont_ids() == pre.cont_ids());
                    }
                    assert(self.valid_page(container_id, num));
                    assert(self.eff_page(container_id, num)@.dom().contains(sid));
                    assert(self.eff_page(container_id, num)@[sid] == value@);
                    assert(self.eff_page(container_id, num).spec_get(sid) == Some(value@));
                    assert(self.value_at(
                        ValueId {
                            container_id,
                            segment_id: None,
                            page_id: Some(num),
                            slot_id: Some(sid),
                        },
                    ) == Some(value@));
                    assert(self.cont_ids() == pre.cont_ids());
                    assert(self.num_pages_of(container_id) == pre.num_pages_of(container_id) + 1);
                    assert forall|c: ContainerId|
                        c != container_id && pre.has_container(c)
                        implies #[trigger] self.num_pages_of(c) == pre.num_pages_of(c) by {
                        assert(before_grow.num_pages_of(c) == pre.num_pages_of(c));
                        assert(before_grow.has_container(c));
                    }
                }
                Ok(ValueId::new_slot(container_id, num, sid))
            },
            Err(_) => {
                proof {
                    assert(false);
                }
                Err(CrustyError::CrustyError(String::from_str("container is full")))
            },
        }
    }
}

/// Two pages that agree on id, directory and record bytes have the same
/// shape: the same slot ids, fit the same records, and map the same slot
/// ids to the same bytes.
pub proof fn lemma_same_page_same_shape(p1: Page, p2: Page)
    requires
        p1.same_page(&p2),
    ensures
        p1.ids() == p2.ids(),
        p1.spec_len() == p2.spec_len(),
        p1.spec_used() == p2.spec_used(),
        p1.spec_free_space() == p2.spec_free_space(),
        forall|len: int| #[trigger] p1.spec_fits(len) == p2.spec_fits(len),
        p1.wf() == p2.wf(),
{
}

/// Two pages that agree on id, directory and record bytes hold the same
/// live slot-to-bytes mapping.
pub proof fn lemma_same_page_same_view(p1: Page, p2: Page)
    requires
        p1.same_page(&p2),
    ensures
        p1@ == p2@,
        forall|sid: SlotId| #[trigger] p1.spec_get(sid) == p2.spec_get(sid),
{
    assert forall|sid: SlotId| true implies #[trigger] p1.spec_get(sid) == p2.spec_get(sid) by {}
    assert(p1@ =~= p2@);
}



impl StorageManager {
    /// Insert several records in order: the batch behaves exactly as the
    /// same `insert_value` calls made one after the other, which is what
    /// the chain of `insert_step`s in the contract says; the locators come
    /// back in call order and each record is afterwards readable under its
    /// locator. Fails on the first record that cannot be inserted.
    pub fn insert_values(
        &mut self,
        container_id: ContainerId,
        values: Vec<Vec<u8>>,
        tid: TransactionId,
    ) -> (r: Result<Vec<ValueId>, CrustyError>)
        requires
            old(self).wf(),
        ensures
            final(self).wf(),
            old(self).pool_unpinned() ==> final(self).pool_unpinned(),
            (forall|j: int| 0 <= j < values@.len() ==> (#[trigger] values@[j])@.len()
                <= MAX_RECORD_LEN) && old(self).has_container(container_id) && old(
                self,
            ).pool_unpinned() && old(self).num_pages_of(container_id) + values@.len()
                <= u16::MAX ==> r is Ok,
            r matches Ok(ids) ==> ids@.len() == values@.len() && forall|j: int|
                0 <= j < ids@.len() ==> final(self).value_at(#[trigger] ids@[j]) == Some(
                    values@[j]@,
                ),
            r matches Ok(ids) ==> exists|steps: Seq<StorageManager>|
                steps.len() == values@.len() + 1 && steps[0] == *old(self) && steps[
                    values@.len() as int
                ] == *final(self) && forall|j: int|
                    0 <= j < values@.len() ==> #[trigger] insert_step(
                        steps[j],
                        steps[j + 1],
                        container_id,
                        values@[j]@,
                        ids@[j],
                    ),
    {
        let ghost pre = *self;
        let ghost all_fit = (forall|j: int|
            0 <= j < values@.len() ==> (#[trigger] values@[j])@.len() <= MAX_RECORD_LEN)
            && pre.has_container(container_id) && pre.pool_unpinned() && pre.num_pages_of(
            container_id,
        ) + values@.len() <= u16::MAX;
        let mut ret: Vec<ValueId> = Vec::new();
        let ghost mut steps: Seq<StorageManager> = seq![pre];
        let mut i: usize = 0;
        while i < values.len()
            invariant
                self.wf(),
                pre == *old(self),
                pre.wf(),
                i <= values@.len(),
                ret@.len() == i,
                steps.len() == i + 1,
                steps[0] == pre,
                steps[i as int] == *self,
                forall|j: int|
                    0 <= j < i ==> #[trigger] insert_step(
                        steps[j],
                        steps[j + 1],
                        container_id,
                        values@[j]@,
                        ret@[j],
                    ),
                all_fit == ((forall|j: int|
                    0 <= j < values@.len() ==> (#[trigger] values@[j])@.len() <= MAX_RECORD_LEN)
                    && pre.has_container(container_id) && pre.pool_unpinned()
                    && pre.num_pages_of(container_id) + values@.len() <= u16::MAX),
                pre.pool_unpinned() ==> self.pool_unpinned(),
                all_fit ==> self.has_container(container_id) && self.num_pages_of(container_id)
                    <= pre.num_pages_of(container_id) + i,
                forall|j: int|
                    0 <= j < i ==> self.value_at(#[trigger] ret@[j]) == Some(values@[j]@),
            decreases values@.len() - i,
        {
            let v = values[i].clone();
            let ghost pre_step = *self;
            proof {
                if all_fit {
                    assert(v@.len() <= MAX_RECORD_LEN);
                    assert(pre_step.num_pages_of(container_id) < u16::MAX);
                }
            }
            match self.insert_value(container_id, v, tid) {
                Ok(vid) => {
                    proof {
                        assert forall|j: int|
                            0 <= j < i implies self.value_at(#[trigger] ret@[j]) == Some(
                            values@[j]@,
                        ) by {
                            lemma_insert_keeps_other_values(
                                pre_step,
                                *self,
                                container_id,
                                vid,
                                v@,
                                ret@[j],
                            );
                        }
                        if all_fit {
                            assert(self.has_container(container_id));
                            assert(self.num_pages_of(container_id) <= pre_step.num_pages_of(
                                container_id,
                            ) + 1);
                        }
                        steps = steps.push(*self);
                        assert(insert_step(
                            steps[i as int],
                            steps[i as int + 1],
                            container_id,
                            values@[i as int]@,
                            vid,
                        ));
                    }
                    ret.push(vid);
                },
                Err(e) => {
                    proof {
                        if all_fit {
                            assert(false);
                        }
                    }
                    return Err(e);
                },
            }
            i = i + 1;
        }
        Ok(ret)
    }

    /// A copy of the bytes stored under the locator. Fails when the
    /// locator names no live record, and when the record's page cannot be
    /// brought in because every frame is pinned.
    pub fn get_value(
        &mut self,
        id: ValueId,
        _tid: TransactionId,
        _perm: Permissions,
    ) -> (r: Result<Vec<u8>, CrustyError>)
        requires
            old(self).wf(),
        ensures
            final(self).wf(),
            Self::same_layout(*old(self), *final(self)),
            Self::preserves_all(*old(self), *final(self)),
            old(self).pool_unpinned() ==> final(self).pool_unpinned(),
            match old(self).value_at(id) {
                Some(v) => old(self).pool_unpinned() ==> (r matches Ok(b) && b@ == v),
                None => r is Err,
            },
            r matches Ok(b) ==> old(self).value_at(id) == Some(b@),
    {
        let pid = match id.page_id {
            Some(p) => p,
            None => {
                return Err(CrustyError::ExecutionError(String::from_str("record not found")));
            },
        };
        let sid = match id.slot_id {
            Some(s) => s,
            None => {
                return Err(CrustyError::ExecutionError(String::from_str("record not found")));
            },
        };
        let cidx = match self.find_container(id.container_id) {
            None => {
                return Err(CrustyError::ExecutionError(String::from_str("container not found")));
            },
            Some(i) => i,
        };
        if !(pid < self.containers[cidx].num_pages()) {
            return Err(CrustyError::ExecutionError(String::from_str("record not found")));
        }
        let ghost pre = *self;
        match self.ensure_cached(cidx, id.container_id, pid) {
            None => {
                proof {
                    if pre.pool_unpinned() {
                        assert(!pre.pool.cached(id.container_id, pid));
                        assert(!pre.can_load());
                        assert(pre.pool.frames@.len() >= PAGE_SLOTS);
                        assert(!pre.pool.frames@[0].pinned);
                        assert(false);
                    }
                }
                Err(CrustyError::ExecutionError(String::from_str("buffer pool exhausted")))
            },
            Some(i) => {
                proof {
                    lemma_same_page_same_view(
                        self.pool.frames@[i as int].page,
                        pre.eff_page(id.container_id, pid),
                    );
                }
                match self.pool.frames[i].page.get_value(sid) {
                    Some(v) => Ok(v),
                    None => Err(
                        CrustyError::ExecutionError(String::from_str("record not found")),
                    ),
                }
            },
        }
    }

    /// Delete the record under the locator; the freed space becomes
    /// available for later inserts. Deleting an absent record succeeds and
    /// changes nothing; only a pool with every frame pinned makes the
    /// deletion fail.
    pub fn delete_value(&mut self, id: ValueId, _tid: TransactionId) -> (r: Result<
        (),
        CrustyError,
    >)
        requires
            old(self).wf(),
        ensures
            final(self).wf(),
            Self::same_layout(*old(self), *final(self)),
            old(self).pool_unpinned() ==> final(self).pool_unpinned() && r is Ok,
            old(self).value_at(id) is None ==> Self::preserves_all(*old(self), *final(self)),
            old(self).value_at(id) matches Some(_) && r is Ok ==> {
                let pid = id.page_id.unwrap();
                let sid = id.slot_id.unwrap();
                &&& Self::preserves_except(*old(self), *final(self), id.container_id, pid)
                &&& final(self).eff_page(id.container_id, pid)@ == old(self).eff_page(
                    id.container_id,
                    pid,
                )@.remove(sid)
                &&& final(self).value_at(id) is None
            },
    {
        let pid = match id.page_id {
            Some(p) => p,
            None => {
                return Ok(());
            },
        };
        let sid = match id.slot_id {
            Some(s) => s,
            None => {
                return Ok(());
            },
        };
        let cidx = match self.find_container(id.container_id) {
            None => {
                return Ok(());
            },
            Some(i) => i,
        };
        if !(pid < self.containers[cidx].num_pages()) {
            return Ok(());
        }
        let ghost pre = *self;
        match self.ensure_cached(cidx, id.container_id, pid) {
            None => {
                proof {
                    if pre.pool_unpinned() {
                        assert(!pre.pool.cached(id.container_id, pid));
                        assert(!pre.can_load());
                        assert(pre.pool.frames@.len() >= PAGE_SLOTS);
                        assert(!pre.pool.frames@[0].pinned);
                        assert(false);
                    }
                }
                Err(CrustyError::ExecutionError(String::from_str("buffer pool exhausted")))
            },
            Some(i) => {
                let ghost mid = *self;
                let mut p2 = self.pool.frames[i].page.clone();
                proof {
                    lemma_same_page_same_shape(
                        self.pool.frames@[i as int].page,
                        pre.eff_page(id.container_id, pid),
                    );
                    lemma_same_page_same_view(
                        self.pool.frames@[i as int].page,
                        pre.eff_page(id.container_id, pid),
                    );
                    lemma_same_page_same_view(p2, self.pool.frames@[i as int].page);
                    lemma_same_page_same_shape(p2, self.pool.frames@[i as int].page);
                }
                let deleted = p2.delete_value(sid);
                match deleted {
                    Some(_) => {
                        let ghost before_set = *self;
                        proof {
                            assert(before_set.pool.frames@[i as int].pid == pid);
                            assert(p2.header.page_id == pid);
                        }
                        self.pool.set_frame_page(i, p2, true);
                        proof {
                            lemma_pool_set_frame(before_set, *self, i as int, id.container_id, pid);
                            assert(self.eff_page(id.container_id, pid)@ == pre.eff_page(
                                id.container_id,
                                pid,
                            )@.remove(sid));
                            assert forall|c: ContainerId, p: PageId|
                                pre.valid_page(c, p) && !(c == id.container_id && p == pid)
                                implies (#[trigger] self.eff_page(c, p)).same_page(
                                &pre.eff_page(c, p),
                            ) by {
                                assert(before_set.valid_page(c, p));
                                assert(before_set.eff_page(c, p).same_page(&pre.eff_page(c, p)));
                                assert(self.eff_page(c, p).same_page(&before_set.eff_page(c, p)));
                            }
                            assert(self.value_at(id) is None) by {
                                assert(!self.eff_page(id.container_id, pid)@.dom().contains(sid));
                                assert(!(self.eff_page(id.container_id, pid).spec_get(sid)
                                    is Some));
                                assert(self.valid_page(id.container_id, pid));
                            }
                            if pre.pool_unpinned() {
                                assert forall|j: int|
                                    0 <= j < self.pool.frames@.len() implies !(
                                #[trigger] self.pool.frames@[j]).pinned by {
                                    if j != i as int {
                                        assert(self.pool.frames@[j] == mid.pool.frames@[j]);
                                    }
                                }
                            }
                        }
                        Ok(())
                    },
                    None => {
                        proof {
                            assert(pre.value_at(id) is None);
                        }
                        Ok(())
                    },
                }
            },
        }
    }

    /// Replace the record under the locator: the old record is deleted and
    /// the bytes inserted afresh, so the locator that comes back may
    /// differ. Oversized records are rejected with no effect.
    pub fn update_value(
        &mut self,
        value: Vec<u8>,
        id: ValueId,
        tid: TransactionId,
    ) -> (r: Result<ValueId, CrustyError>)
        requires
            old(self).wf(),
        ensures
            final(self).wf(),
            value@.len() > MAX_RECORD_LEN ==> (r matches Err(e) && e matches
                CrustyError::ValidationError(_) && *final(self) == *old(self)),
            old(self).pool_unpinned() ==> final(self).pool_unpinned(),
            value@.len() <= MAX_RECORD_LEN && old(self).has_container(id.container_id) && old(
                self,
            ).pool_unpinned() && old(self).num_pages_of(id.container_id) < u16::MAX ==> r is Ok,
            r matches Ok(nvid) ==> {
                &&& final(self).value_at(nvid) == Some(value@)
                &&& !(nvid.container_id == id.container_id && nvid.page_id == id.page_id
                    && nvid.slot_id == id.slot_id) ==> final(self).value_at(id) is None
            },
    {
        if value.len() > MAX_RECORD_LEN {
            return Err(CrustyError::ValidationError(String::from_str("record too large")));
        }
        let ghost pre = *self;
        match self.delete_value(id, tid) {
            Ok(()) => {},
            Err(e) => {
                proof {
                    if pre.pool_unpinned() {
                        assert(false);
                    }
                }
                return Err(e);
            },
        }
        let ghost mid = *self;
        proof {
            assert(mid.value_at(id) is None) by {
                if pre.value_at(id) is Some {
                } else {
                    match (id.page_id, id.slot_id) {
                        (Some(wp), Some(ws)) => {
                            if mid.valid_page(id.container_id, wp) {
                                assert(pre.valid_page(id.container_id, wp));
                                assert(mid.eff_page(id.container_id, wp).same_page(
                                    &pre.eff_page(id.container_id, wp),
                                ));
                                lemma_same_page_same_view(
                                    mid.eff_page(id.container_id, wp),
                                    pre.eff_page(id.container_id, wp),
                                );
                            }
                        },
                        _ => {},
                    }
                }
            }
            if pre.has_container(id.container_id) {
                assert(mid.has_container(id.container_id));
                assert(mid.num_pages_of(id.container_id) == pre.num_pages_of(id.container_id));
            }
        }
        match self.insert_value(id.container_id, value, tid) {
            Ok(vid) => {
                proof {
                    if !(vid.container_id == id.container_id && vid.page_id == id.page_id
                        && vid.slot_id == id.slot_id) {
                        lemma_insert_keeps_absent(
                            mid,
                            *self,
                            id.container_id,
                            vid,
                            value@,
                            id,
                        );
                    }
                }
                Ok(vid)
            },
            Err(e) => {
                proof {
                    if value@.len() <= MAX_RECORD_LEN && pre.has_container(id.container_id)
                        && pre.pool_unpinned() && pre.num_pages_of(id.container_id) < u16::MAX {
                        assert(false);
                    }
                }
                Err(e)
            },
        }
    }
}

/// An insert leaves an absent locator absent: the record it creates sits
/// under a different key, so a locator that read back nothing before the
/// insert still reads back nothing. The hypotheses are what `insert_value`
/// ensures about its result.
pub proof fn lemma_insert_keeps_absent(
    pre: StorageManager,
    post: StorageManager,
    cid: ContainerId,
    vid: ValueId,
    v: Seq<u8>,
    w: ValueId,
)
    requires
        pre.value_at(w) is None,
        !(w.container_id == vid.container_id && w.page_id == vid.page_id && w.slot_id
            == vid.slot_id),
        vid.container_id == cid,
        vid.page_id is Some,
        vid.slot_id is Some,
        post.cont_ids() == pre.cont_ids(),
        forall|c: ContainerId|
            c != cid && pre.has_container(c) ==> #[trigger] post.num_pages_of(c)
                == pre.num_pages_of(c),
        StorageManager::preserves_except(pre, post, cid, vid.page_id.unwrap()),
        if (vid.page_id.unwrap() as int) < pre.num_pages_of(cid) {
            &&& post.eff_page(cid, vid.page_id.unwrap())@ == pre.eff_page(
                cid,
                vid.page_id.unwrap(),
            )@.insert(vid.slot_id.unwrap(), v)
            &&& post.num_pages_of(cid) == pre.num_pages_of(cid)
        } else {
            &&& (vid.page_id.unwrap() as int) == pre.num_pages_of(cid)
            &&& post.eff_page(cid, vid.page_id.unwrap())@ == Map::<SlotId, Seq<u8>>::empty().insert(
                vid.slot_id.unwrap(),
                v,
            )
            &&& post.num_pages_of(cid) == pre.num_pages_of(cid) + 1
        },
        pre.has_container(cid),
    ensures
        post.value_at(w) is None,
{
    let pid = vid.page_id.unwrap();
    let sid = vid.slot_id.unwrap();
    match (w.page_id, w.slot_id) {
        (Some(wp), Some(ws)) => {
            if post.valid_page(w.container_id, wp) {
                if w.container_id == cid && wp == pid {
                    assert(ws != sid);
                    let p2 = post.eff_page(cid, pid);
                    assert(!p2@.dom().contains(ws)) by {
                        if (pid as int) < pre.num_pages_of(cid) {
                            assert(pre.valid_page(cid, pid));
                            let p1 = pre.eff_page(cid, pid);
                            assert(p1.spec_get(ws) is None);
                            assert(!p1@.dom().contains(ws));
                        }
                    }
                    assert(!(p2.spec_get(ws) is Some));
                } else {
                    assert(pre.valid_page(w.container_id, wp)) by {
                        if w.container_id == cid {
                            if (pid as int) < pre.num_pages_of(cid) {
                            } else {
                                assert(wp != pid);
                            }
                        }
                    }
                    assert(post.eff_page(w.container_id, wp).same_page(
                        &pre.eff_page(w.container_id, wp),
                    ));
                    lemma_same_page_same_view(
                        post.eff_page(w.container_id, wp),
                        pre.eff_page(w.container_id, wp),
                    );
                }
            }
        },
        _ => {},
    }
}



/// The records of the pages `ps[k ..]`, page by page, each page's records
/// in ascending slot-id order.
pub open spec fn pages_records_from(ps: Seq<Page>, k: int) -> Seq<Seq<u8>>
    decreases ps.len() - k,
{
    if k < 0 || k >= ps.len() {
        Seq::empty()
    } else {
        values_from(ps[k], 0) + pages_records_from(ps, k + 1)
    }
}

impl StorageManager {
    /// The pages of a container as currently effective, in page order.
    pub open spec fn eff_pages(&self, cid: ContainerId) -> Seq<Page> {
        Seq::new(
            self.num_pages_of(cid) as nat,
            |p: int| self.eff_page(cid, p as PageId),
        )
    }

    /// The container's records in (page ascending, slot id ascending)
    /// order.
    pub open spec fn container_records(&self, cid: ContainerId) -> Seq<Seq<u8>> {
        pages_records_from(self.eff_pages(cid), 0)
    }
}

/// Pointwise agreeing page lists hold the same records.
pub proof fn lemma_pages_records_congruence(ps1: Seq<Page>, ps2: Seq<Page>, k: int)
    requires
        ps1.len() == ps2.len(),
        forall|i: int| 0 <= i < ps1.len() ==> (#[trigger] ps1[i]).same_page(&ps2[i]),
    ensures
        pages_records_from(ps1, k) == pages_records_from(ps2, k),
    decreases ps1.len() - k,
{
    if 0 <= k < ps1.len() {
        lemma_pages_records_congruence(ps1, ps2, k + 1);
        lemma_same_page_same_view(ps1[k], ps2[k]);
        crate::heapstore::page::lemma_values_from_congruence(ps2[k], ps1[k], 0);
    }
}

/// A scan over one container: the pages as they stood when the scan was
/// made, walked page by page and slot by slot.
#[derive(Debug)]
pub struct HeapFileIterator {
    /// Copies of the container's pages at scan time.
    pub pages: Vec<Page>,
    /// The page the scan stands on.
    pub cur: usize,
    /// The next slot id to look at on that page.
    pub cursor: u32,
}

impl HeapFileIterator {
    /// Pages well formed, indexes in range.
    pub open spec fn wf(&self) -> bool {
        &&& forall|i: int| 0 <= i < self.pages@.len() ==> (#[trigger] self.pages@[i]).wf()
        &&& self.cur <= self.pages@.len()
        &&& self.cursor <= 0x10000
    }

    /// The records the scan has yet to yield, in order.
    pub open spec fn remaining(&self) -> Seq<Seq<u8>> {
        if self.cur >= self.pages@.len() {
            Seq::empty()
        } else {
            values_from(self.pages@[self.cur as int], self.cursor as int)
                + pages_records_from(self.pages@, self.cur as int + 1)
        }
    }

    /// The next record: ascending slot ids within a page, pages in
    /// ascending page order, skipping deleted slots.
    pub fn next(&mut self) -> (r: Option<Vec<u8>>)
        requires
            old(self).wf(),
        ensures
            final(self).wf(),
            final(self).pages@ == old(self).pages@,
            match r {
                Some(v) => old(self).remaining() == seq![v@] + final(self).remaining(),
                None => old(self).remaining().len() == 0 && final(self).remaining().len() == 0,
            },
    {
        let ghost orig = *self;
        loop
            invariant
                self.wf(),
                orig == *old(self),
                self.pages@ == orig.pages@,
                orig.wf(),
                self.remaining() == orig.remaining(),
            ensures
                self.wf(),
                self.pages@ == orig.pages@,
                self.remaining() == orig.remaining(),
                self.cur >= self.pages@.len(),
            decreases self.pages@.len() - self.cur, 0x10001 - self.cursor,
        {
            if self.cur >= self.pages.len() {
                break;
            }
            if self.cursor >= 0x10000 {
                proof {
                    assert(values_from(self.pages@[self.cur as int], self.cursor as int)
                        =~= Seq::<Seq<u8>>::empty());
                    assert(self.remaining() =~= pages_records_from(
                        self.pages@,
                        self.cur as int + 1,
                    ));
                }
                self.cur = self.cur + 1;
                self.cursor = 0;
                proof {
                    if self.cur < self.pages@.len() {
                        assert(self.remaining() =~= values_from(
                            self.pages@[self.cur as int],
                            0,
                        ) + pages_records_from(self.pages@, self.cur as int + 1));
                    }
                }
            } else {
                let c16 = (self.cursor as usize) as u16;
                let ghost before = self.cursor as int;
                let found = self.pages[self.cur].get_value(c16);
                self.cursor = self.cursor + 1;
                match found {
                    Some(v) => {
                        proof {
                            assert(values_from(self.pages@[self.cur as int], before) == seq![v@]
                                + values_from(self.pages@[self.cur as int], before + 1));
                        }
                        return Some(v);
                    },
                    None => {
                        proof {
                            assert(values_from(self.pages@[self.cur as int], before)
                                == values_from(self.pages@[self.cur as int], before + 1));
                        }
                    },
                }
            }
        }
        None
    }
}

impl StorageManager {
    /// A scan over all live records of a container, walking its pages in
    /// order through the buffer pool as they stand now. Fails for an
    /// unknown container, or when a page cannot be brought in because
    /// every frame is pinned.
    pub fn get_iterator(
        &mut self,
        container_id: ContainerId,
        _tid: TransactionId,
        _perm: Permissions,
    ) -> (r: Result<HeapFileIterator, CrustyError>)
        requires
            old(self).wf(),
        ensures
            final(self).wf(),
            Self::same_layout(*old(self), *final(self)),
            Self::preserves_all(*old(self), *final(self)),
            !old(self).has_container(container_id) ==> r is Err,
            old(self).has_container(container_id) && old(self).pool_unpinned() ==> r is Ok,
            old(self).pool_unpinned() ==> final(self).pool_unpinned(),
            r matches Ok(it) ==> it.wf() && it.remaining() == old(self).container_records(
                container_id,
            ),
    {
        let cidx = match self.find_container(container_id) {
            None => {
                return Err(CrustyError::CrustyError(String::from_str("container not found")));
            },
            Some(i) => i,
        };
        let num = self.containers[cidx].num_pages();
        let ghost pre = *self;
        let mut pages: Vec<Page> = Vec::new();
        let mut pid: PageId = 0;
        while pid < num
            invariant
                self.wf(),
                pre.wf(),
                pre == *old(self),
                pre.hf_index_of(container_id) == Some(cidx as int),
                cidx < pre.containers@.len(),
                num == pre.num_pages_of(container_id),
                pid <= num,
                Self::same_layout(pre, *self),
                Self::preserves_all(pre, *self),
                self.hf_index_of(container_id) == Some(cidx as int),
                cidx < self.containers@.len(),
                pre.pool_unpinned() ==> self.pool_unpinned(),
                pages@.len() == pid,
                forall|i: int|
                    0 <= i < pid ==> (#[trigger] pages@[i]).same_page(
                        &pre.eff_page(container_id, i as PageId),
                    ) && pages@[i].wf(),
            decreases num - pid,
        {
            let ghost loop_pre = *self;
            match self.ensure_cached(cidx, container_id, pid) {
                None => {
                    proof {
                        if pre.pool_unpinned() {
                            assert(!loop_pre.pool.cached(container_id, pid));
                            assert(!loop_pre.can_load());
                            assert(loop_pre.pool.frames@.len() >= PAGE_SLOTS);
                            assert(!loop_pre.pool.frames@[0].pinned);
                            assert(false);
                        }
                    }
                    return Err(CrustyError::CrustyError(String::from_str(
                        "buffer pool exhausted",
                    )));
                },
                Some(i) => {
                    let copy = self.pool.frames[i].page.clone();
                    pages.push(copy);
                },
            }
            pid = pid + 1;
        }
        let it = HeapFileIterator { pages, cur: 0, cursor: 0 };
        proof {
            if num == 0 {
                assert(it.remaining() =~= Seq::<Seq<u8>>::empty());
                assert(pre.eff_pages(container_id) =~= Seq::<Page>::empty());
                assert(pre.container_records(container_id) =~= Seq::<Seq<u8>>::empty());
            } else {
                assert(it.pages@.len() == pre.eff_pages(container_id).len());
                assert forall|i: int|
                    0 <= i < it.pages@.len() implies (#[trigger] it.pages@[i]).same_page(
                    &pre.eff_pages(container_id)[i],
                ) by {
                    assert(it.pages@[i].same_page(&pre.eff_page(container_id, i as PageId)));
                }
                lemma_pages_records_congruence(
                    it.pages@,
                    pre.eff_pages(container_id),
                    0,
                );
                assert(it.remaining() =~= pages_records_from(it.pages@, 0));
            }
        }
        Ok(it)
    }

    /// The registered container ids, in registry order, for the embedding
    /// application.
    pub fn containers(&self) -> (r: Vec<ContainerId>)
        requires
            self.wf(),
        ensures
            r@ == self.cont_ids(),
    {
        let mut ids: Vec<ContainerId> = Vec::new();
        let mut i: usize = 0;
        while i < self.containers.len()
            invariant
                i <= self.containers@.len(),
                ids@.len() == i,
                forall|j: int| 0 <= j < i ==> #[trigger] ids@[j] == self.cont_ids()[j],
            decreases self.containers@.len() - i,
        {
            let c = self.containers[i].container_id;
            ids.push(c);
            proof {
                assert(ids@[i as int] == self.cont_ids()[i as int]);
            }
            i = i + 1;
        }
        proof {
            assert(ids@ =~= self.cont_ids());
        }
        ids
    }

    /// The serialized page blocks of a container's heap file, for the
    /// embedding application to persist. Flush first (`shutdown`) so that
    /// cached changes are included. Nothing for an unknown container.
    pub fn export_container(&self, container_id: ContainerId) -> (r: Option<Vec<Vec<u8>>>)
        requires
            self.wf(),
        ensures
            self.has_container(container_id) <==> r is Some,
            r matches Some(blocks) ==> {
                &&& blocks@.len() == self.num_pages_of(container_id)
                &&& forall|i: int|
                    0 <= i < blocks@.len() ==> #[trigger] blocks@[i]@
                        == crate::heapstore::codec::spec_serialize(
                        self.hf_of(container_id).pages@[i],
                    )
                &&& crate::heapstore::heapfile::blocks_canonical(blocks@)
            },
    {
        match self.find_container(container_id) {
            None => None,
            Some(i) => {
                proof {
                    lemma_index_of_id_bounds(self.cont_ids(), container_id);
                }
                Some(self.containers[i].to_blocks())
            },
        }
    }

    /// Register a container rebuilt from persisted page blocks: afterwards
    /// the container's pages serialize back to exactly those blocks.
    /// Canonical blocks for a fresh id are always accepted; an id that is
    /// already registered, or a block that is not a canonical page at its
    /// own position, is refused with no effect.
    pub fn attach_container(
        &mut self,
        container_id: ContainerId,
        blocks: &Vec<Vec<u8>>,
    ) -> (r: Result<(), CrustyError>)
        requires
            old(self).wf(),
        ensures
            final(self).wf(),
            old(self).has_container(container_id) ==> r is Err && *final(self) == *old(self),
            !old(self).has_container(container_id) && blocks@.len() <= u16::MAX
                && crate::heapstore::heapfile::blocks_canonical(blocks@) ==> r is Ok,
            r is Err ==> *final(self) == *old(self),
            r matches Ok(_) ==> {
                &&& final(self).cont_ids() == old(self).cont_ids().push(container_id)
                &&& final(self).num_pages_of(container_id) == blocks@.len()
                &&& final(self).pool == old(self).pool
                &&& forall|i: int|
                    0 <= i < blocks@.len() ==> crate::heapstore::codec::spec_serialize(
                        #[trigger] final(self).hf_of(container_id).pages@[i],
                    ) == blocks@[i]@
                &&& Self::preserves_all(*old(self), *final(self))
            },
    {
        match self.find_container(container_id) {
            Some(_) => Err(CrustyError::CrustyError(String::from_str(
                "container already exists",
            ))),
            None => {
                match HeapFile::from_blocks(container_id, blocks) {
                    Err(e) => Err(e),
                    Ok(hf) => {
                        let ghost pre = *self;
                        self.containers.push(hf);
                        proof {
                            assert(self.cont_ids() =~= pre.cont_ids().push(container_id));
                            lemma_index_of_id_push(pre.cont_ids(), container_id, container_id);
                            assert forall|c: ContainerId| true implies #[trigger] self.hf_index_of(
                                c,
                            ) == (if c == container_id {
                                Some(pre.cont_ids().len() as int)
                            } else {
                                pre.hf_index_of(c)
                            }) by {
                                lemma_index_of_id_push(pre.cont_ids(), container_id, c);
                            }
                            assert(crate::heapstore::page::ids_unique(self.cont_ids())) by {
                                lemma_index_of_id_bounds(pre.cont_ids(), container_id);
                                assert forall|a: int, b: int|
                                    0 <= a < b < self.cont_ids().len() implies self.cont_ids()[a]
                                    != self.cont_ids()[b] by {
                                    if b == self.cont_ids().len() - 1 {
                                        if pre.cont_ids()[a] == container_id {
                                            lemma_index_of_id_match(
                                                pre.cont_ids(),
                                                container_id,
                                                a,
                                            );
                                        }
                                    }
                                }
                            }
                            assert forall|c: ContainerId, p: PageId|
                                pre.valid_page(c, p) implies (#[trigger] self.eff_page(
                                c,
                                p,
                            )).same_page(&pre.eff_page(c, p)) by {
                                lemma_index_of_id_bounds(pre.cont_ids(), c);
                            }
                            assert(self.wf()) by {
                                assert forall|j: int|
                                    0 <= j < self.pool.frames@.len() implies {
                                    let f = #[trigger] self.pool.frames@[j];
                                    &&& self.has_container(f.cid)
                                    &&& (f.pid as int) < self.num_pages_of(f.cid)
                                    &&& (!f.dirty ==> f.page.same_page(
                                        &self.hf_of(f.cid).pages@[f.pid as int],
                                    ))
                                } by {
                                    let f = self.pool.frames@[j];
                                    lemma_index_of_id_bounds(pre.cont_ids(), f.cid);
                                }
                            }
                            assert(self.hf_of(container_id) == self.containers@[
                                pre.cont_ids().len() as int
                            ]);
                            assert forall|i: int|
                                0 <= i < blocks@.len() implies crate::heapstore::codec::spec_serialize(
                                #[trigger] self.hf_of(container_id).pages@[i],
                            ) == blocks@[i]@ by {}
                        }
                        Ok(())
                    },
                }
            },
        }
    }
}



/// A page that maps no slot id from `c` on yields nothing from `c` on.
proof fn lemma_values_from_none(p: Page, c: int)
    requires
        forall|t: SlotId| c <= t ==> (#[trigger] p.spec_get(t)) is None,
        0 <= c <= 0x10000,
    ensures
        values_from(p, c) == Seq::<Seq<u8>>::empty(),
    decreases 0x10000 - c,
{
    if c < 0x10000 {
        lemma_values_from_none(p, c + 1);
        assert(p.spec_get(c as SlotId) is None);
    }
}

/// A page that maps exactly one slot id yields exactly its value.
proof fn lemma_values_from_single(p: Page, sid: SlotId, v: Seq<u8>, c: int)
    requires
        p.spec_get(sid) == Some(v),
        forall|t: SlotId| t != sid ==> (#[trigger] p.spec_get(t)) is None,
        0 <= c <= sid,
    ensures
        values_from(p, c) == seq![v],
    decreases 0x10000 - c,
{
    if c == sid {
        lemma_values_from_none(p, c + 1);
        assert(values_from(p, c) =~= seq![v]);
    } else {
        lemma_values_from_single(p, sid, v, c + 1);
        assert(p.spec_get(c as SlotId) is None);
    }
}

/// Replacing the records of the page at `idx` by a version whose value
/// multiset grew by `v` grows the multiset of the whole page list by `v`.
proof fn lemma_pages_records_multiset_update(
    ps1: Seq<Page>,
    ps2: Seq<Page>,
    k: int,
    idx: int,
    v: Seq<u8>,
)
    requires
        ps1.len() == ps2.len(),
        0 <= idx < ps1.len(),
        forall|i: int| 0 <= i < ps1.len() && i != idx ==> (#[trigger] ps2[i]).same_page(&ps1[i]),
        values_from(ps2[idx], 0).to_multiset() == values_from(ps1[idx], 0).to_multiset().insert(
            v,
        ),
        0 <= k <= ps1.len(),
    ensures
        k <= idx ==> pages_records_from(ps2, k).to_multiset() == pages_records_from(
            ps1,
            k,
        ).to_multiset().insert(v),
        k > idx ==> pages_records_from(ps2, k) == pages_records_from(ps1, k),
    decreases ps1.len() - k,
{
    broadcast use vstd::seq_lib::group_to_multiset_ensures;

    if k >= ps1.len() {
        assert(pages_records_from(ps2, k) =~= pages_records_from(ps1, k));
    } else {
        lemma_pages_records_multiset_update(ps1, ps2, k + 1, idx, v);
        let h1 = values_from(ps1[k], 0);
        let h2 = values_from(ps2[k], 0);
        let r1 = pages_records_from(ps1, k + 1);
        let r2 = pages_records_from(ps2, k + 1);
        vstd::seq_lib::lemma_multiset_commutative(h1, r1);
        vstd::seq_lib::lemma_multiset_commutative(h2, r2);
        if k > idx {
            lemma_same_page_same_view(ps2[k], ps1[k]);
            crate::heapstore::page::lemma_values_from_congruence(ps1[k], ps2[k], 0);
            assert(pages_records_from(ps2, k) =~= pages_records_from(ps1, k));
        } else if k == idx {
            assert(r2 == r1);
            assert(h2.to_multiset() == h1.to_multiset().insert(v));
            assert(h2.to_multiset().add(r2.to_multiset()) =~= h1.to_multiset().add(
                r1.to_multiset(),
            ).insert(v));
        } else {
            lemma_same_page_same_view(ps2[k], ps1[k]);
            crate::heapstore::page::lemma_values_from_congruence(ps1[k], ps2[k], 0);
            assert(h2 == h1);
            assert(h2.to_multiset().add(r2.to_multiset()) =~= h1.to_multiset().add(
                r1.to_multiset(),
            ).insert(v));
        }
    }
}

/// What an insert does to a scan: inserting bytes into a container grows
/// the multiset of records a scan of that container yields by exactly
/// those bytes, whether the record went to an existing page or to a fresh
/// one. The hypotheses are exactly what `insert_value` ensures about its
/// result; the conclusion speaks of the record sequence `get_iterator`
/// yields.
pub proof fn lemma_insert_grows_scan(
    pre: StorageManager,
    post: StorageManager,
    cid: ContainerId,
    pid: PageId,
    sid: SlotId,
    bytes: Seq<u8>,
)
    requires
        pre.has_container(cid),
        pre.num_pages_of(cid) <= u16::MAX,
        post.cont_ids() == pre.cont_ids(),
        StorageManager::preserves_except(pre, post, cid, pid),
        if (pid as int) < pre.num_pages_of(cid) {
            &&& is_smallest_unused_id(pre.eff_page(cid, pid).ids(), sid)
            &&& post.eff_page(cid, pid)@ == pre.eff_page(cid, pid)@.insert(sid, bytes)
            &&& post.num_pages_of(cid) == pre.num_pages_of(cid)
        } else {
            &&& (pid as int) == pre.num_pages_of(cid)
            &&& post.eff_page(cid, pid)@ == Map::<SlotId, Seq<u8>>::empty().insert(sid, bytes)
            &&& post.num_pages_of(cid) == pre.num_pages_of(cid) + 1
        },
    ensures
        post.container_records(cid).to_multiset() == pre.container_records(
            cid,
        ).to_multiset().insert(bytes),
{
    broadcast use vstd::seq_lib::group_to_multiset_ensures;

    let ps1 = pre.eff_pages(cid);
    let ps2 = post.eff_pages(cid);
    if (pid as int) < pre.num_pages_of(cid) {
        let p1 = pre.eff_page(cid, pid);
        let p2 = post.eff_page(cid, pid);
        assert forall|t: SlotId| t != sid implies #[trigger] p2.spec_get(t) == p1.spec_get(t) by {
            assert(p2@.dom().contains(t) == p1@.dom().contains(t));
            if p1@.dom().contains(t) {
                assert(p2@[t] == p1@[t]);
            }
        }
        assert(p1.spec_get(sid) is None) by {
            crate::heapstore::page::lemma_index_of_id_bounds(p1.ids(), sid);
        }
        assert(p2.spec_get(sid) == Some(bytes)) by {
            assert(p2@.dom().contains(sid));
            assert(p2@[sid] == bytes);
        }
        crate::heapstore::page::lemma_values_from_insert(p1, p2, sid, bytes, 0);
        assert(ps1.len() == ps2.len());
        assert forall|i: int| 0 <= i < ps1.len() && i != pid as int implies (
        #[trigger] ps2[i]).same_page(&ps1[i]) by {
            assert(ps2[i] == post.eff_page(cid, i as PageId));
            assert(ps1[i] == pre.eff_page(cid, i as PageId));
            lemma_eff_pages_eq(pre, post, cid, i as PageId, pid);
        }
        lemma_pages_records_multiset_update(ps1, ps2, 0, pid as int, bytes);
    } else {
        let p2 = post.eff_page(cid, pid);
        assert(p2.spec_get(sid) == Some(bytes)) by {
            assert(p2@.dom().contains(sid));
            assert(p2@[sid] == bytes);
        }
        assert forall|t: SlotId| t != sid implies (#[trigger] p2.spec_get(t)) is None by {
            assert(!p2@.dom().contains(t));
        }
        lemma_values_from_single(p2, sid, bytes, 0);
        assert(ps2.len() == ps1.len() + 1);
        assert(ps2[ps1.len() as int] == p2);
        assert forall|i: int| 0 <= i < ps1.len() implies (#[trigger] ps2[i]).same_page(
            &ps1[i],
        ) by {
            assert(ps2[i] == post.eff_page(cid, i as PageId));
            assert(ps1[i] == pre.eff_page(cid, i as PageId));
            lemma_eff_pages_eq(pre, post, cid, i as PageId, pid);
        }
        lemma_pages_records_append_cong(ps1, ps2, 0);
        vstd::seq_lib::lemma_multiset_commutative(
            pages_records_from(ps1, 0),
            values_from(p2, 0),
        );
        assert(seq![bytes].to_multiset() =~= Multiset::<Seq<u8>>::empty().insert(bytes)) by {
            assert(seq![bytes] =~= Seq::<Seq<u8>>::empty().push(bytes));
        }
        assert(pages_records_from(ps2, 0).to_multiset() =~= pages_records_from(
            ps1,
            0,
        ).to_multiset().insert(bytes));
    }
}

/// Pages preserved except one yield, pointwise, the same page values.
proof fn lemma_eff_pages_eq(
    pre: StorageManager,
    post: StorageManager,
    cid: ContainerId,
    p: PageId,
    pid: PageId,
)
    requires
        pre.has_container(cid),
        (p as int) < pre.num_pages_of(cid),
        p != pid,
        StorageManager::preserves_except(pre, post, cid, pid),
    ensures
        post.eff_page(cid, p).same_page(&pre.eff_page(cid, p)),
{
}

/// Appending one page to a pointwise agreeing list appends its records.
proof fn lemma_pages_records_append_cong(ps1: Seq<Page>, ps2: Seq<Page>, k: int)
    requires
        ps2.len() == ps1.len() + 1,
        forall|i: int| 0 <= i < ps1.len() ==> (#[trigger] ps2[i]).same_page(&ps1[i]),
        0 <= k <= ps1.len(),
    ensures
        pages_records_from(ps2, k) == pages_records_from(ps1, k) + values_from(
            ps2[ps1.len() as int],
            0,
        ),
    decreases ps1.len() - k,
{
    if k == ps1.len() {
        assert(pages_records_from(ps2, k + 1) =~= Seq::<Seq<u8>>::empty());
        assert(pages_records_from(ps2, k) =~= values_from(ps2[k], 0));
        assert(pages_records_from(ps1, k) =~= Seq::<Seq<u8>>::empty());
        assert(pages_records_from(ps2, k) =~= pages_records_from(ps1, k) + values_from(
            ps2[ps1.len() as int],
            0,
        ));
    } else {
        lemma_pages_records_append_cong(ps1, ps2, k + 1);
        lemma_same_page_same_view(ps2[k], ps1[k]);
        crate::heapstore::page::lemma_values_from_congruence(ps1[k], ps2[k], 0);
        assert(pages_records_from(ps2, k) =~= pages_records_from(ps1, k) + values_from(
            ps2[ps1.len() as int],
            0,
        ));
    }
}

/// What is inserted is what is read: an insert that returned `vid` leaves
/// the store mapping `vid` to the inserted bytes, and a read of `vid` in
/// that state hands back exactly those bytes. The two hypotheses are what
/// `insert_value` and `get_value` each ensure about their results.
pub proof fn lemma_insert_then_get(
    post_insert: StorageManager,
    vid: ValueId,
    inserted: Seq<u8>,
    read_back: Seq<u8>,
)
    requires
        post_insert.value_at(vid) == Some(inserted),
        post_insert.value_at(vid) == Some(read_back),
    ensures
        read_back == inserted,
{
}

/// A fetch leaves its page cached, so an immediately repeated fetch is a
/// hit: it satisfies the cached branch of `get_page`'s contract, which
/// leaves every heap-file read count unchanged.
pub proof fn lemma_refetch_is_hit(after_fetch: StorageManager, cid: ContainerId, pid: PageId)
    requires
        after_fetch.valid_page(cid, pid),
        after_fetch.pool.cached(cid, pid),
    ensures
        after_fetch.valid_page(cid, pid) && (after_fetch.pool.cached(cid, pid)
            || after_fetch.can_load()),
{
}



/// An insert leaves every other stored value readable unchanged: the
/// record it creates sits under a slot id that was free, so no live
/// locator is disturbed. The hypotheses are what `insert_value` ensures.
pub proof fn lemma_insert_keeps_other_values(
    pre: StorageManager,
    post: StorageManager,
    cid: ContainerId,
    vid: ValueId,
    v: Seq<u8>,
    w: ValueId,
)
    requires
        pre.value_at(w) is Some,
        vid.container_id == cid,
        vid.page_id is Some,
        vid.slot_id is Some,
        post.cont_ids() == pre.cont_ids(),
        StorageManager::preserves_except(pre, post, cid, vid.page_id.unwrap()),
        forall|c: ContainerId|
            c != cid && pre.has_container(c) ==> #[trigger] post.num_pages_of(c)
                == pre.num_pages_of(c),
        post.num_pages_of(cid) >= pre.num_pages_of(cid),
        if (vid.page_id.unwrap() as int) < pre.num_pages_of(cid) {
            &&& is_smallest_unused_id(
                pre.eff_page(cid, vid.page_id.unwrap()).ids(),
                vid.slot_id.unwrap(),
            )
            &&& post.eff_page(cid, vid.page_id.unwrap())@ == pre.eff_page(
                cid,
                vid.page_id.unwrap(),
            )@.insert(vid.slot_id.unwrap(), v)
        } else {
            (vid.page_id.unwrap() as int) == pre.num_pages_of(cid)
        },
    ensures
        post.value_at(w) == pre.value_at(w),
{
    let pid = vid.page_id.unwrap();
    let sid = vid.slot_id.unwrap();
    let wpid = w.page_id.unwrap();
    let wsid = w.slot_id.unwrap();
    assert(pre.valid_page(w.container_id, wpid));
    if w.container_id == cid && wpid == pid {
        let p1 = pre.eff_page(cid, pid);
        let p2 = post.eff_page(cid, pid);
        assert(p1.spec_get(sid) is None) by {
            lemma_index_of_id_bounds(p1.ids(), sid);
        }
        assert(p1.spec_get(wsid) is Some);
        assert(wsid != sid);
        assert(p1@.dom().contains(wsid));
        assert(p2@.dom().contains(wsid) && p2@[wsid] == p1@[wsid]);
        assert(p2.spec_get(wsid) == p1.spec_get(wsid)) by {
            assert(p2.spec_get(wsid) is Some);
            assert(p1@[wsid] == p1.spec_get(wsid).unwrap());
            assert(p2@[wsid] == p2.spec_get(wsid).unwrap());
        }
    } else {
        assert(post.eff_page(w.container_id, wpid).same_page(
            &pre.eff_page(w.container_id, wpid),
        ));
        lemma_same_page_same_view(
            post.eff_page(w.container_id, wpid),
            pre.eff_page(w.container_id, wpid),
        );
    }
}



/// Persisted values survive a restart. `shutdown` flushes every page into
/// its heap file, `export_container` hands out each page's canonical
/// bytes, and `attach_container` on a fresh manager rebuilds pages that
/// serialize back to exactly those bytes; this law closes the loop: two
/// well-formed pages behind the same block agree on id, directory and
/// record bytes, hence on every stored value.
pub proof fn lemma_restart_round_trip(exported: Page, attached: Page, block: Seq<u8>)
    requires
        exported.wf(),
        attached.wf(),
        crate::heapstore::codec::spec_serialize(exported) == block,
        crate::heapstore::codec::spec_serialize(attached) == block,
    ensures
        attached.same_page(&exported),
        forall|sid: SlotId| #[trigger] attached.spec_get(sid) == exported.spec_get(sid),
{
    crate::heapstore::codec::lemma_serialize_agreement(exported, attached);
    lemma_same_page_same_view(attached, exported);
}


} // verus!
