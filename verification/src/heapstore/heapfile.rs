//! A heap file: the pages of one container, addressed by page number.
//! The file is modeled as the sequence of its page blocks; the embedding
//! application moves those blocks to and from disk as whole serialized
//! pages. Reads and writes are counted for observability.

use vstd::prelude::*;
use vstd::string::StringExecFns;
use crate::common::{CrustyError, PAGE_SIZE};
use crate::heapstore::codec::{
    lemma_serialize_agreement, parse_page, spec_serialize,
};
use crate::heapstore::page::Page;
use crate::ids::{ContainerId, PageId};

verus! {

/// One more, stopping at the top of the counter's range.
pub open spec fn sat_inc(x: u64) -> u64 {
    if x == u64::MAX {
        x
    } else {
        (x + 1) as u64
    }
}

/// Whether every block is the canonical serialized form of a well-formed
/// page sitting at its own position: block `i` serializes a page whose
/// page id is `i`. Blocks written by `to_blocks` always are.
/// Whether one block is the canonical serialized form of a well-formed
/// page whose page id is `i`.
pub open spec fn block_canonical_at(block: Seq<u8>, i: int) -> bool {
    exists|q: Page| q.wf() && q.header.page_id == i && block == #[trigger] spec_serialize(q)
}

pub open spec fn blocks_canonical(blocks: Seq<Vec<u8>>) -> bool {
    forall|i: int| 0 <= i < blocks.len() ==> block_canonical_at((#[trigger] blocks[i])@, i)
}

/// The pages of one container, in page-number order, plus I/O counters.
#[derive(Debug)]
pub struct HeapFile {
    /// The pages, where `pages[i]` has page id `i`.
    pub pages: Vec<Page>,
    /// The container this file backs.
    pub container_id: ContainerId,
    /// How many page reads this file has served.
    pub read_count: u64,
    /// How many page writes this file has served.
    pub write_count: u64,
}

impl HeapFile {
    /// Well-formedness: every page is well formed, sits at the page number
    /// its header names, and the page count fits a `PageId`.
    pub open spec fn wf(&self) -> bool {
        &&& self.pages@.len() <= u16::MAX
        &&& forall|i: int|
            0 <= i < self.pages@.len() ==> (#[trigger] self.pages@[i]).wf()
                && self.pages@[i].header.page_id == i
    }

    /// A new, empty heap file for the given container.
    pub fn new(container_id: ContainerId) -> (hf: Self)
        ensures
            hf.wf(),
            hf.pages@.len() == 0,
            hf.container_id == container_id,
            hf.read_count == 0,
            hf.write_count == 0,
    {
        HeapFile { pages: Vec::new(), container_id, read_count: 0, write_count: 0 }
    }

    /// Rebuild a heap file from serialized page blocks, checking each one.
    /// Canonical blocks in page-number range are always accepted; a block
    /// that is not a canonical page at its own position is refused.
    pub fn from_blocks(container_id: ContainerId, blocks: &Vec<Vec<u8>>) -> (r: Result<
        Self,
        CrustyError,
    >)
        ensures
            blocks@.len() <= u16::MAX && blocks_canonical(blocks@) ==> r is Ok,
            r matches Ok(hf) ==> {
                &&& hf.wf()
                &&& hf.container_id == container_id
                &&& hf.read_count == 0 && hf.write_count == 0
                &&& hf.pages@.len() == blocks@.len()
                &&& forall|i: int|
                    0 <= i < blocks@.len() ==> spec_serialize(#[trigger] hf.pages@[i])
                        == blocks@[i]@
            },
    {
        let ghost ex = blocks_canonical(blocks@);
        if blocks.len() > (u16::MAX as usize) {
            return Err(CrustyError::CrustyError(String::from_str("too many pages in file")));
        }
        let mut pages: Vec<Page> = Vec::new();
        let mut i: usize = 0;
        while i < blocks.len()
            invariant
                i <= blocks@.len(),
                blocks@.len() <= u16::MAX,
                pages@.len() == i,
                ex == blocks_canonical(blocks@),
                forall|j: int|
                    0 <= j < i ==> (#[trigger] pages@[j]).wf() && pages@[j].header.page_id == j
                        && spec_serialize(pages@[j]) == blocks@[j]@,
            decreases blocks@.len() - i,
        {
            match parse_page(&blocks[i]) {
                Some(p) => {
                    if (p.get_page_id() as usize) != i {
                        proof {
                            if ex {
                                assert(block_canonical_at(blocks@[i as int]@, i as int));
                                let q = choose|q: Page|
                                    q.wf() && q.header.page_id == i as int && blocks@[i as int]@
                                        == spec_serialize(q);
                                lemma_serialize_agreement(q, p);
                                assert(false);
                            }
                        }
                        return Err(CrustyError::CrustyError(String::from_str(
                            "page stored at the wrong position",
                        )));
                    }
                    pages.push(p);
                },
                None => {
                    proof {
                        if ex {
                            assert(block_canonical_at(blocks@[i as int]@, i as int));
                            let q = choose|q: Page|
                                q.wf() && q.header.page_id == i as int && blocks@[i as int]@
                                    == spec_serialize(q);
                            assert(q.wf() && blocks@[i as int]@ == spec_serialize(q));
                            assert(false);
                        }
                    }
                    return Err(CrustyError::CrustyError(String::from_str(
                        "malformed page block",
                    )));
                },
            }
            i = i + 1;
        }
        Ok(HeapFile { pages, container_id, read_count: 0, write_count: 0 })
    }

    /// How many pages the file holds.
    pub fn num_pages(&self) -> (r: PageId)
        requires
            self.wf(),
        ensures
            r == self.pages@.len(),
    {
        self.pages.len() as PageId
    }

    /// A copy of the page at the given page number, counting the read.
    /// Fails on an out-of-range page number, never yielding a silent
    /// zero page; the failed attempt is still counted.
    pub fn read_page(&mut self, pid: PageId) -> (r: Result<Page, CrustyError>)
        requires
            old(self).wf(),
        ensures
            final(self).wf(),
            final(self).pages@ == old(self).pages@,
            final(self).container_id == old(self).container_id,
            final(self).write_count == old(self).write_count,
            final(self).read_count == sat_inc(old(self).read_count),
            pid < old(self).pages@.len() ==> (r matches Ok(p) && p.same_page(
                &old(self).pages@[pid as int],
            ) && p.wf()),
            pid >= old(self).pages@.len() ==> r is Err,
    {
        self.read_count = if self.read_count == u64::MAX {
            u64::MAX
        } else {
            self.read_count + 1
        };
        if (pid as usize) < self.pages.len() {
            Ok(self.pages[pid as usize].clone())
        } else {
            Err(CrustyError::CrustyError(String::from_str("page number out of range")))
        }
    }

    /// Write a page at its own page number, counting the write. Writing at
    /// the current page count grows the file by exactly one page; writing
    /// past it fails, as does growing past the page-number range.
    pub fn write_page(&mut self, page: Page) -> (r: Result<(), CrustyError>)
        requires
            old(self).wf(),
            page.wf(),
        ensures
            final(self).wf(),
            final(self).container_id == old(self).container_id,
            final(self).read_count == old(self).read_count,
            ({
                let pid = page.header.page_id as int;
                if pid < old(self).pages@.len() {
                    &&& r is Ok
                    &&& final(self).pages@ == old(self).pages@.update(pid, page)
                    &&& final(self).write_count == sat_inc(old(self).write_count)
                } else if pid == old(self).pages@.len() && old(self).pages@.len() < u16::MAX {
                    &&& r is Ok
                    &&& final(self).pages@ == old(self).pages@.push(page)
                    &&& final(self).write_count == sat_inc(old(self).write_count)
                } else {
                    &&& r is Err
                    &&& final(self).pages@ == old(self).pages@
                    &&& final(self).write_count == old(self).write_count
                }
            }),
    {
        let pid = page.get_page_id() as usize;
        if pid < self.pages.len() {
            self.write_count = if self.write_count == u64::MAX {
                u64::MAX
            } else {
                self.write_count + 1
            };
            self.pages.set(pid, page);
            Ok(())
        } else if pid == self.pages.len() && self.pages.len() < (u16::MAX as usize) {
            self.write_count = if self.write_count == u64::MAX {
                u64::MAX
            } else {
                self.write_count + 1
            };
            self.pages.push(page);
            Ok(())
        } else {
            Err(CrustyError::CrustyError(String::from_str("page number past end of file")))
        }
    }

    /// The serialized blocks of all pages, for the embedding application
    /// to persist; block `i` is the canonical form of page `i`, so the
    /// blocks are always accepted back by `from_blocks`.
    pub fn to_blocks(&self) -> (r: Vec<Vec<u8>>)
        requires
            self.wf(),
        ensures
            r@.len() == self.pages@.len(),
            forall|i: int|
                0 <= i < r@.len() ==> #[trigger] r@[i]@ == spec_serialize(self.pages@[i]),
            blocks_canonical(r@),
    {
        let mut blocks: Vec<Vec<u8>> = Vec::new();
        let mut i: usize = 0;
        while i < self.pages.len()
            invariant
                i <= self.pages@.len(),
                self.wf(),
                blocks@.len() == i,
                forall|j: int|
                    0 <= j < i ==> #[trigger] blocks@[j]@ == spec_serialize(self.pages@[j]),
            decreases self.pages@.len() - i,
        {
            blocks.push(self.pages[i].get_bytes());
            i = i + 1;
        }
        proof {
            assert forall|i: int|
                0 <= i < blocks@.len() implies block_canonical_at(
                (#[trigger] blocks@[i])@,
                i,
            ) by {
                let q = self.pages@[i];
                assert(q.wf() && q.header.page_id == i && blocks@[i]@ == spec_serialize(q));
            }
            assert(blocks_canonical(blocks@));
        }
        blocks
    }
}

/// Writing a page and reading the same page number back yields a page with
/// byte-for-byte the written page's serialized form: two pages that agree
/// on id, directory and record bytes serialize identically, and `read_page`
/// returns such an agreeing copy of what `write_page` stored.
pub proof fn lemma_write_read_identity(stored: Page, read_back: Page)
    requires
        stored.wf(),
        read_back.same_page(&stored),
    ensures
        spec_serialize(read_back) == spec_serialize(stored),
{
}

} // verus!
