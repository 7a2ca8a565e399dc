//! The buffer pool: a bounded cache of page frames keyed by container and
//! page number, with a second-chance (clock) eviction policy. The pool
//! itself only manages frames; reading a missed page and writing a dirty
//! victim back are the storage manager's work, which owns the heap files.

use vstd::prelude::*;
use crate::common::PAGE_SLOTS;
use crate::heapstore::page::Page;
use crate::ids::{ContainerId, PageId};

verus! {

/// One cached page: its key, its contents, and its bookkeeping bits.
#[derive(Debug)]
pub struct Frame {
    /// The container the page belongs to.
    pub cid: ContainerId,
    /// The page number within that container.
    pub pid: PageId,
    /// The cached page contents.
    pub page: Page,
    /// Whether the cached contents are newer than the heap file's.
    pub dirty: bool,
    /// The second-chance bit, set on every touch.
    pub refbit: bool,
    /// Whether the frame is protected from eviction.
    pub pinned: bool,
}

/// The cache keys of a frame list, in frame order.
pub open spec fn frame_keys(frames: Seq<Frame>) -> Seq<(ContainerId, PageId)> {
    frames.map_values(|f: Frame| (f.cid, f.pid))
}

/// The position of a key in a key list, or nothing when absent.
pub open spec fn index_of_key(keys: Seq<(ContainerId, PageId)>, k: (ContainerId, PageId)) -> Option<
    int,
>
    decreases keys.len(),
{
    if keys.len() == 0 {
        None
    } else if keys.last() == k {
        Some(keys.len() - 1)
    } else {
        index_of_key(keys.drop_last(), k)
    }
}

/// Whether no key occurs twice.
pub open spec fn keys_unique(keys: Seq<(ContainerId, PageId)>) -> bool {
    forall|i: int, j: int| 0 <= i < j < keys.len() ==> keys[i] != keys[j]
}

/// A found index is in bounds and carries the key; an absent key is
/// carried by no entry.
pub proof fn lemma_index_of_key_bounds(keys: Seq<(ContainerId, PageId)>, k: (ContainerId, PageId))
    ensures
        match index_of_key(keys, k) {
            Some(i) => 0 <= i < keys.len() && keys[i] == k,
            None => forall|j: int| 0 <= j < keys.len() ==> keys[j] != k,
        },
    decreases keys.len(),
{
    if keys.len() > 0 && keys.last() != k {
        lemma_index_of_key_bounds(keys.drop_last(), k);
        if index_of_key(keys, k) is None {
            assert forall|j: int| 0 <= j < keys.len() implies keys[j] != k by {
                if j < keys.len() - 1 {
                    assert(keys.drop_last()[j] == keys[j]);
                }
            }
        }
    }
}

/// Under unique keys, an entry that carries the key determines the index.
pub proof fn lemma_index_of_key_match(
    keys: Seq<(ContainerId, PageId)>,
    k: (ContainerId, PageId),
    i: int,
)
    requires
        keys_unique(keys),
        0 <= i < keys.len(),
        keys[i] == k,
    ensures
        index_of_key(keys, k) == Some(i),
    decreases keys.len(),
{
    if keys.last() == k {
        assert(i == keys.len() - 1);
    } else {
        assert(keys.drop_last() =~= keys.subrange(0, keys.len() - 1));
        lemma_index_of_key_match(keys.drop_last(), k, i);
    }
}

/// Appending an entry leaves every other key where it was and places the
/// new key at the end.
pub proof fn lemma_index_of_key_push(
    keys: Seq<(ContainerId, PageId)>,
    x: (ContainerId, PageId),
    k: (ContainerId, PageId),
)
    ensures
        index_of_key(keys.push(x), k) == if x == k {
            Some(keys.len() as int)
        } else {
            index_of_key(keys, k)
        },
{
    assert(keys.push(x).drop_last() =~= keys);
}

/// Removing the entry at `i` removes its key and shifts the keys above it
/// down by one.
pub proof fn lemma_index_of_key_remove(
    keys: Seq<(ContainerId, PageId)>,
    i: int,
    k: (ContainerId, PageId),
)
    requires
        keys_unique(keys),
        0 <= i < keys.len(),
    ensures
        index_of_key(keys.remove(i), k) == match index_of_key(keys, k) {
            None => None::<int>,
            Some(j) => if j == i {
                None::<int>
            } else if j < i {
                Some(j)
            } else {
                Some(j - 1)
            },
        },
    decreases keys.len(),
{
    lemma_index_of_key_bounds(keys, k);
    lemma_index_of_key_bounds(keys.remove(i), k);
    keys.remove_ensures(i);
    if i == keys.len() - 1 {
        assert(keys.remove(i) =~= keys.drop_last());
        match index_of_key(keys, k) {
            Some(j) => {
                if j < i {
                    lemma_index_of_key_match(keys.drop_last(), k, j);
                }
            },
            None => {},
        }
    } else {
        let keys2 = keys.remove(i);
        assert(keys2.last() == keys.last());
        assert(keys2.drop_last() =~= keys.drop_last().remove(i));
        assert(keys_unique(keys.drop_last()));
        lemma_index_of_key_remove(keys.drop_last(), i, k);
    }
}

/// The bounded frame cache.
#[derive(Debug)]
pub struct BufferPool {
    /// The frames, at most `PAGE_SLOTS` of them, with unique keys.
    pub frames: Vec<Frame>,
    /// Where the clock sweep continues.
    pub hand: usize,
}

impl BufferPool {
    /// The cache keys, in frame order.
    pub open spec fn keys(&self) -> Seq<(ContainerId, PageId)> {
        frame_keys(self.frames@)
    }

    /// The position of the frame holding the given page, if cached.
    pub open spec fn frame_index(&self, cid: ContainerId, pid: PageId) -> Option<int> {
        index_of_key(self.keys(), (cid, pid))
    }

    /// Whether the given page is cached.
    pub open spec fn cached(&self, cid: ContainerId, pid: PageId) -> bool {
        self.frame_index(cid, pid) is Some
    }

    /// The cached page for a key, meaningful only when cached.
    pub open spec fn frame_page(&self, cid: ContainerId, pid: PageId) -> Page {
        self.frames@[self.frame_index(cid, pid).unwrap()].page
    }

    /// Whether the frame for a key is dirty, meaningful only when cached.
    pub open spec fn frame_dirty(&self, cid: ContainerId, pid: PageId) -> bool {
        self.frames@[self.frame_index(cid, pid).unwrap()].dirty
    }

    /// Well-formedness: bounded, unique keys, and each frame holds a
    /// well-formed page carrying its own page number.
    pub open spec fn wf(&self) -> bool {
        &&& self.frames@.len() <= PAGE_SLOTS
        &&& keys_unique(self.keys())
        &&& forall|i: int|
            0 <= i < self.frames@.len() ==> (#[trigger] self.frames@[i]).page.wf()
                && self.frames@[i].page.header.page_id == self.frames@[i].pid
    }

    /// An empty pool.
    pub fn new() -> (bp: Self)
        ensures
            bp.wf(),
            bp.frames@.len() == 0,
    {
        let bp = BufferPool { frames: Vec::new(), hand: 0 };
        proof {
            assert(bp.keys() =~= Seq::<(ContainerId, PageId)>::empty());
        }
        bp
    }

    /// The position of the frame caching the given page, if any.
    pub fn find(&self, cid: ContainerId, pid: PageId) -> (r: Option<usize>)
        requires
            self.wf(),
        ensures
            match r {
                Some(i) => self.frame_index(cid, pid) == Some(i as int) && i
                    < self.frames@.len(),
                None => !self.cached(cid, pid),
            },
    {
        let mut i: usize = 0;
        while i < self.frames.len()
            invariant
                self.wf(),
                i <= self.frames@.len(),
                forall|j: int| 0 <= j < i ==> #[trigger] self.keys()[j] != (cid, pid),
            decreases self.frames@.len() - i,
        {
            if self.frames[i].cid == cid && self.frames[i].pid == pid {
                proof {
                    assert(self.keys()[i as int] == (cid, pid));
                    lemma_index_of_key_match(self.keys(), (cid, pid), i as int);
                }
                return Some(i);
            }
            proof {
                assert(self.keys()[i as int] == (self.frames@[i as int].cid,
                self.frames@[i as int].pid));
            }
            i = i + 1;
        }
        proof {
            lemma_index_of_key_bounds(self.keys(), (cid, pid));
        }
        None
    }
}

impl BufferPool {
    /// Pick an eviction victim with a second-chance sweep: take the first
    /// unpinned frame without its reference bit from the hand on; when all
    /// carry the bit, clear the bits of unpinned frames and take the first
    /// unpinned frame. Nothing else about the frames changes; only when
    /// every frame is pinned is there no victim.
    pub fn choose_victim(&mut self) -> (r: Option<usize>)
        requires
            old(self).wf(),
        ensures
            final(self).wf(),
            final(self).frames@.len() == old(self).frames@.len(),
            final(self).keys() == old(self).keys(),
            forall|j: int|
                0 <= j < old(self).frames@.len() ==> {
                    let f0 = old(self).frames@[j];
                    let f1 = #[trigger] final(self).frames@[j];
                    f1.cid == f0.cid && f1.pid == f0.pid && f1.page.same_page(&f0.page)
                        && f1.dirty == f0.dirty && f1.pinned == f0.pinned && (f1.refbit
                        ==> f0.refbit)
                },
            match r {
                Some(i) => i < final(self).frames@.len() && !final(self).frames@[
                    i as int
                ].pinned,
                None => forall|j: int|
                    0 <= j < final(self).frames@.len() ==> (#[trigger] final(self).frames@[
                        j
                    ]).pinned,
            },
    {
        let ghost before = *self;
        let n = self.frames.len();
        if n == 0 {
            return None;
        }
        let start = if self.hand < n {
            self.hand
        } else {
            0
        };
        // first pass: an unpinned frame whose reference bit is clear
        let mut i: usize = 0;
        while i < n
            invariant
                i <= n,
                n == self.frames@.len(),
                *self == before,
                before == *old(self),
                self.wf(),
                start < n,
            decreases n - i,
        {
            let j = if start + i < n {
                start + i
            } else {
                start + i - n
            };
            if !self.frames[j].pinned && !self.frames[j].refbit {
                self.hand = if j + 1 < n {
                    j + 1
                } else {
                    0
                };
                return Some(j);
            }
            i = i + 1;
        }
        // second pass: clear the reference bits of unpinned frames
        let mut j: usize = 0;
        while j < n
            invariant
                j <= n,
                n == self.frames@.len(),
                self.hand == before.hand,
                before == *old(self),
                self.wf(),
                start < n,
                forall|t: int|
                    0 <= t < n ==> {
                        let f0 = before.frames@[t];
                        let f1 = #[trigger] self.frames@[t];
                        f1.cid == f0.cid && f1.pid == f0.pid && f1.page.same_page(&f0.page)
                            && f1.dirty == f0.dirty && f1.pinned == f0.pinned && (f1.refbit
                            ==> f0.refbit)
                    },
                self.keys() == before.keys(),
            decreases n - j,
        {
            if !self.frames[j].pinned {
                let f = &self.frames[j];
                let nf = Frame {
                    cid: f.cid,
                    pid: f.pid,
                    page: f.page.clone(),
                    dirty: f.dirty,
                    refbit: false,
                    pinned: f.pinned,
                };
                proof {
                    assert(nf.page.same_page(&self.frames@[j as int].page));
                }
                let ghost old_frames = self.frames@;
                self.frames.set(j, nf);
                proof {
                    assert(self.keys() =~= frame_keys(old_frames));
                }
            }
            j = j + 1;
        }
        // third pass: the first unpinned frame from the hand on
        let mut i2: usize = 0;
        while i2 < n
            invariant
                i2 <= n,
                n == self.frames@.len(),
                before == *old(self),
                self.wf(),
                start < n,
                forall|t: int|
                    0 <= t < n ==> {
                        let f0 = before.frames@[t];
                        let f1 = #[trigger] self.frames@[t];
                        f1.cid == f0.cid && f1.pid == f0.pid && f1.page.same_page(&f0.page)
                            && f1.dirty == f0.dirty && f1.pinned == f0.pinned && (f1.refbit
                            ==> f0.refbit)
                    },
                self.keys() == before.keys(),
                forall|t: int|
                    start <= t < n && t - start < i2 ==> (#[trigger] self.frames@[t]).pinned,
                forall|t: int|
                    0 <= t < start && t + n - start < i2 ==> (#[trigger] self.frames@[t]).pinned,
            decreases n - i2,
        {
            let j2 = if start + i2 < n {
                start + i2
            } else {
                start + i2 - n
            };
            if !self.frames[j2].pinned {
                self.hand = if j2 + 1 < n {
                    j2 + 1
                } else {
                    0
                };
                return Some(j2);
            }
            i2 = i2 + 1;
        }
        proof {
            assert forall|t: int| 0 <= t < n implies (#[trigger] self.frames@[t]).pinned by {}
        }
        None
    }
}


impl BufferPool {
    /// Mark the frame at `i` touched, and pinned when asked; its key,
    /// contents and dirtiness stay.
    pub fn touch(&mut self, i: usize, pin: bool)
        requires
            old(self).wf(),
            i < old(self).pool_len(),
        ensures
            final(self).wf(),
            final(self).frames@.len() == old(self).frames@.len(),
            final(self).keys() == old(self).keys(),
            final(self).hand == old(self).hand,
            forall|j: int|
                0 <= j < old(self).frames@.len() && j != i ==> #[trigger] final(self).frames@[j]
                    == old(self).frames@[j],
            ({
                let f0 = old(self).frames@[i as int];
                let f1 = final(self).frames@[i as int];
                &&& f1.cid == f0.cid
                &&& f1.pid == f0.pid
                &&& f1.page.same_page(&f0.page)
                &&& f1.dirty == f0.dirty
                &&& f1.refbit
                &&& f1.pinned == (f0.pinned || pin)
            }),
    {
        let f = &self.frames[i];
        let nf = Frame {
            cid: f.cid,
            pid: f.pid,
            page: f.page.clone(),
            dirty: f.dirty,
            refbit: true,
            pinned: f.pinned || pin,
        };
        let ghost old_frames = self.frames@;
        self.frames.set(i, nf);
        proof {
            assert(self.keys() =~= frame_keys(old_frames));
        }
    }

    /// Replace the contents of the frame at `i` with a page for the same
    /// key, marking it dirty or clean and touched.
    pub fn set_frame_page(&mut self, i: usize, page: Page, dirty: bool)
        requires
            old(self).wf(),
            i < old(self).pool_len(),
            page.wf(),
            page.header.page_id == old(self).frames@[i as int].pid,
        ensures
            final(self).wf(),
            final(self).frames@.len() == old(self).frames@.len(),
            final(self).keys() == old(self).keys(),
            final(self).hand == old(self).hand,
            forall|j: int|
                0 <= j < old(self).frames@.len() && j != i ==> #[trigger] final(self).frames@[j]
                    == old(self).frames@[j],
            ({
                let f0 = old(self).frames@[i as int];
                let f1 = final(self).frames@[i as int];
                &&& f1.cid == f0.cid
                &&& f1.pid == f0.pid
                &&& f1.page == page
                &&& f1.dirty == dirty
                &&& f1.refbit
                &&& f1.pinned == f0.pinned
            }),
    {
        let f = &self.frames[i];
        let nf = Frame {
            cid: f.cid,
            pid: f.pid,
            page,
            dirty,
            refbit: true,
            pinned: f.pinned,
        };
        let ghost old_frames = self.frames@;
        self.frames.set(i, nf);
        proof {
            assert(self.keys() =~= frame_keys(old_frames));
        }
    }

    /// Release the frame at `i` from pinning; its key, contents, dirtiness
    /// and reference bit stay.
    pub fn unpin(&mut self, i: usize)
        requires
            old(self).wf(),
            i < old(self).pool_len(),
        ensures
            final(self).wf(),
            final(self).frames@.len() == old(self).frames@.len(),
            final(self).keys() == old(self).keys(),
            final(self).hand == old(self).hand,
            forall|j: int|
                0 <= j < old(self).frames@.len() && j != i ==> #[trigger] final(self).frames@[j]
                    == old(self).frames@[j],
            ({
                let f0 = old(self).frames@[i as int];
                let f1 = final(self).frames@[i as int];
                &&& f1.cid == f0.cid
                &&& f1.pid == f0.pid
                &&& f1.page.same_page(&f0.page)
                &&& f1.dirty == f0.dirty
                &&& f1.refbit == f0.refbit
                &&& !f1.pinned
            }),
    {
        let f = &self.frames[i];
        let nf = Frame {
            cid: f.cid,
            pid: f.pid,
            page: f.page.clone(),
            dirty: f.dirty,
            refbit: f.refbit,
            pinned: false,
        };
        let ghost old_frames = self.frames@;
        self.frames.set(i, nf);
        proof {
            assert(self.keys() =~= frame_keys(old_frames));
        }
    }

    /// How many frames the pool holds.
    pub open spec fn pool_len(&self) -> int {
        self.frames@.len() as int
    }
}


} // verus!
