//! The on-disk form of a page: little-endian, byte-exact. A serialized page
//! is `PAGE_SIZE` bytes: the page id and the live-slot count (two bytes
//! each), the slot directory (six bytes per entry), a zero gap, and the
//! record bytes, each record at its directory offset.

use vstd::prelude::*;
use crate::common::PAGE_SIZE;
use crate::heapstore::page::{
    ids_unique, layout_wf, size_prefix, slot_ids, lemma_size_prefix_congruence,
    lemma_size_prefix_monotone, lemma_size_prefix_nonneg, lemma_size_prefix_push, Header, Page,
    Slot, HEADER_PREFIX_SIZE, SLOT_ENTRY_SIZE,
};

verus! {

/// The two little-endian bytes of a 16-bit value.
pub open spec fn u16_le(x: u16) -> Seq<u8> {
    seq![(x % 256) as u8, (x / 256) as u8]
}

/// The value carried by two little-endian bytes.
pub open spec fn u16_of(lo: u8, hi: u8) -> int {
    lo + 256 * hi
}

/// Reading back the two bytes of a value yields the value.
pub proof fn lemma_u16_le_roundtrip(x: u16)
    ensures
        u16_of(u16_le(x)[0], u16_le(x)[1]) == x,
{
}

/// Writing the value carried by two bytes yields the two bytes.
pub proof fn lemma_u16_le_of_bytes(lo: u8, hi: u8)
    ensures
        u16_le((u16_of(lo, hi)) as u16) =~= seq![lo, hi],
{
}

/// The six bytes of one slot directory entry: id, offset, length.
pub open spec fn entry_bytes(s: Slot) -> Seq<u8> {
    u16_le(s.slot_id) + u16_le(s.slot_offset) + u16_le(s.size)
}

/// The directory bytes of the first `k` entries, concatenated.
pub open spec fn dir_bytes(slots: Seq<Slot>, k: int) -> Seq<u8>
    decreases k,
{
    if k <= 0 {
        Seq::empty()
    } else {
        dir_bytes(slots, k - 1) + entry_bytes(slots[k - 1])
    }
}

/// `n` zero bytes (none when `n` is negative).
pub open spec fn zero_seq(n: int) -> Seq<u8> {
    Seq::new(if n >= 0 { n as nat } else { 0 }, |i: int| 0u8)
}

/// The block with `v` written over it starting at `pos`.
pub open spec fn splice(b: Seq<u8>, pos: int, v: Seq<u8>) -> Seq<u8> {
    Seq::new(b.len(), |j: int| if pos <= j < pos + v.len() {
        v[j - pos]
    } else {
        b[j]
    })
}

/// The block before any record is written: header, directory, zeros.
pub open spec fn ser_base(pid: u16, slots: Seq<Slot>) -> Seq<u8> {
    u16_le(pid) + u16_le(slots.len() as u16) + dir_bytes(slots, slots.len() as int) + zero_seq(
        PAGE_SIZE - HEADER_PREFIX_SIZE - SLOT_ENTRY_SIZE * slots.len(),
    )
}

/// The block with the first `k` records written at their offsets.
pub open spec fn ser_overlay(b: Seq<u8>, slots: Seq<Slot>, recs: Seq<Seq<u8>>, k: int) -> Seq<u8>
    decreases k,
{
    if k <= 0 {
        b
    } else {
        splice(
            ser_overlay(b, slots, recs, k - 1),
            slots[k - 1].slot_offset as int,
            recs[k - 1],
        )
    }
}

/// The serialized form of a page with the given id, directory and records.
pub open spec fn ser_bytes(pid: u16, slots: Seq<Slot>, recs: Seq<Seq<u8>>) -> Seq<u8> {
    ser_overlay(ser_base(pid, slots), slots, recs, slots.len() as int)
}

/// The canonical on-disk form of a page.
pub open spec fn spec_serialize(p: Page) -> Seq<u8> {
    ser_bytes(p.header.page_id, p.header.slots@, p.rec_views())
}

/// The directory bytes of `k` entries are `6 * k` bytes long.
pub proof fn lemma_dir_bytes_len(slots: Seq<Slot>, k: int)
    requires
        k >= 0,
    ensures
        dir_bytes(slots, k).len() == SLOT_ENTRY_SIZE * k,
    decreases k,
{
    if k > 0 {
        lemma_dir_bytes_len(slots, k - 1);
    }
}

/// Byte `6 * a + b` of the directory belongs to entry `a`.
pub proof fn lemma_dir_bytes_index(slots: Seq<Slot>, k: int, a: int, b: int)
    requires
        0 <= a < k,
        0 <= b < 6,
    ensures
        dir_bytes(slots, k).len() == SLOT_ENTRY_SIZE * k,
        dir_bytes(slots, k)[6 * a + b] == entry_bytes(slots[a])[b],
    decreases k,
{
    lemma_dir_bytes_len(slots, k);
    if a == k - 1 {
        lemma_dir_bytes_len(slots, k - 1);
    } else {
        lemma_dir_bytes_index(slots, k - 1, a, b);
    }
}

/// The base block is exactly one page long.
pub proof fn lemma_ser_base_len(pid: u16, slots: Seq<Slot>)
    requires
        HEADER_PREFIX_SIZE + SLOT_ENTRY_SIZE * slots.len() <= PAGE_SIZE,
    ensures
        ser_base(pid, slots).len() == PAGE_SIZE,
{
    lemma_dir_bytes_len(slots, slots.len() as int);
}

/// Overlaying records does not change the block's length.
pub proof fn lemma_ser_overlay_len(b: Seq<u8>, slots: Seq<Slot>, recs: Seq<Seq<u8>>, k: int)
    ensures
        ser_overlay(b, slots, recs, k).len() == b.len(),
    decreases k,
{
    if k > 0 {
        lemma_ser_overlay_len(b, slots, recs, k - 1);
    }
}

/// Bytes below the region of the first `k` records are left alone by the
/// overlay: those records sit at the end of the block.
pub proof fn lemma_ser_overlay_below(
    b: Seq<u8>,
    slots: Seq<Slot>,
    recs: Seq<Seq<u8>>,
    k: int,
    j: int,
)
    requires
        layout_wf(slots, recs),
        0 <= k <= slots.len(),
        0 <= j < PAGE_SIZE - size_prefix(slots, k),
        b.len() == PAGE_SIZE,
    ensures
        ser_overlay(b, slots, recs, k)[j] == b[j],
    decreases k,
{
    lemma_size_prefix_nonneg(slots, k);
    if k > 0 {
        lemma_size_prefix_nonneg(slots, k - 1);
        lemma_ser_overlay_len(b, slots, recs, k - 1);
        lemma_ser_overlay_below(b, slots, recs, k - 1, j);
    }
}

/// Byte `d` of record `i` sits at `slots[i].slot_offset + d` once at least
/// `i + 1` records have been overlaid; later records sit strictly below it.
pub proof fn lemma_ser_overlay_at(
    b: Seq<u8>,
    slots: Seq<Slot>,
    recs: Seq<Seq<u8>>,
    k: int,
    i: int,
    d: int,
)
    requires
        layout_wf(slots, recs),
        0 <= i < k <= slots.len(),
        0 <= d < recs[i].len(),
        b.len() == PAGE_SIZE,
    ensures
        ser_overlay(b, slots, recs, k)[slots[i].slot_offset + d] == recs[i][d],
    decreases k,
{
    lemma_ser_overlay_len(b, slots, recs, k - 1);
    lemma_size_prefix_nonneg(slots, i);
    lemma_size_prefix_nonneg(slots, k - 1);
    if k - 1 == i {
        assert(size_prefix(slots, i + 1) == size_prefix(slots, i) + slots[i].size);
    } else {
        lemma_size_prefix_monotone(slots, i + 1, k - 1);
        assert(size_prefix(slots, k) == size_prefix(slots, k - 1) + slots[k - 1].size);
        lemma_ser_overlay_at(b, slots, recs, k - 1, i, d);
    }
}

/// The first four bytes of a serialized page carry the page id and the
/// live-slot count.
pub proof fn lemma_ser_header(pid: u16, slots: Seq<Slot>, recs: Seq<Seq<u8>>)
    requires
        layout_wf(slots, recs),
    ensures
        ser_bytes(pid, slots, recs).len() == PAGE_SIZE,
        ser_bytes(pid, slots, recs)[0] == u16_le(pid)[0],
        ser_bytes(pid, slots, recs)[1] == u16_le(pid)[1],
        ser_bytes(pid, slots, recs)[2] == u16_le(slots.len() as u16)[0],
        ser_bytes(pid, slots, recs)[3] == u16_le(slots.len() as u16)[1],
{
    let n = slots.len() as int;
    lemma_size_prefix_nonneg(slots, n);
    lemma_ser_base_len(pid, slots);
    lemma_ser_overlay_len(ser_base(pid, slots), slots, recs, n);
    lemma_dir_bytes_len(slots, n);
    assert forall|j: int| 0 <= j < 4 implies ser_bytes(pid, slots, recs)[j] == ser_base(
        pid,
        slots,
    )[j] by {
        lemma_ser_overlay_below(ser_base(pid, slots), slots, recs, n, j);
    }
    let a = u16_le(pid);
    let b = u16_le(slots.len() as u16);
    let c = dir_bytes(slots, n);
    assert(ser_base(pid, slots)[0] == a[0]);
    assert(ser_base(pid, slots)[1] == a[1]);
    assert(ser_base(pid, slots)[2] == b[0]);
    assert(ser_base(pid, slots)[3] == b[1]);
}

/// Byte `4 + 6a + b` of a serialized page is byte `b` of directory entry `a`.
pub proof fn lemma_ser_entry(pid: u16, slots: Seq<Slot>, recs: Seq<Seq<u8>>, a: int, b: int)
    requires
        layout_wf(slots, recs),
        0 <= a < slots.len(),
        0 <= b < 6,
    ensures
        ser_bytes(pid, slots, recs)[4 + 6 * a + b] == entry_bytes(slots[a])[b],
{
    let n = slots.len() as int;
    lemma_size_prefix_nonneg(slots, n);
    lemma_ser_base_len(pid, slots);
    lemma_dir_bytes_len(slots, n);
    lemma_ser_overlay_below(ser_base(pid, slots), slots, recs, n, 4 + 6 * a + b);
    lemma_dir_bytes_index(slots, n, a, b);
    assert(ser_base(pid, slots)[4 + 6 * a + b] == dir_bytes(slots, n)[6 * a + b]);
}

/// Bytes between the directory and the packed records are zero.
pub proof fn lemma_ser_gap(pid: u16, slots: Seq<Slot>, recs: Seq<Seq<u8>>, j: int)
    requires
        layout_wf(slots, recs),
        HEADER_PREFIX_SIZE + SLOT_ENTRY_SIZE * slots.len() <= j,
        j < PAGE_SIZE - size_prefix(slots, slots.len() as int),
    ensures
        ser_bytes(pid, slots, recs)[j] == 0,
{
    let n = slots.len() as int;
    lemma_size_prefix_nonneg(slots, n);
    lemma_ser_base_len(pid, slots);
    lemma_dir_bytes_len(slots, n);
    lemma_ser_overlay_below(ser_base(pid, slots), slots, recs, n, j);
    assert(ser_base(pid, slots)[j] == 0);
}

/// Byte `d` of record `i` is at its directory offset plus `d`.
pub proof fn lemma_ser_record(pid: u16, slots: Seq<Slot>, recs: Seq<Seq<u8>>, i: int, d: int)
    requires
        layout_wf(slots, recs),
        0 <= i < slots.len(),
        0 <= d < recs[i].len(),
    ensures
        ser_bytes(pid, slots, recs)[slots[i].slot_offset + d] == recs[i][d],
{
    lemma_size_prefix_nonneg(slots, slots.len() as int);
    lemma_ser_base_len(pid, slots);
    lemma_ser_overlay_at(ser_base(pid, slots), slots, recs, slots.len() as int, i, d);
}

/// Serialization loses nothing: two well-formed pages with equal bytes hold
/// the same page id, the same directory and the same record bytes. Together
/// with the contracts of `get_bytes` and `from_bytes` this says that a page
/// written and read back is the page that was written.
pub proof fn lemma_serialize_agreement(p1: Page, p2: Page)
    requires
        p1.wf(),
        p2.wf(),
        spec_serialize(p1) == spec_serialize(p2),
    ensures
        p1.same_page(&p2),
{
    let s1 = p1.header.slots@;
    let s2 = p2.header.slots@;
    let r1 = p1.rec_views();
    let r2 = p2.rec_views();
    let bytes = spec_serialize(p1);
    lemma_ser_header(p1.header.page_id, s1, r1);
    lemma_ser_header(p2.header.page_id, s2, r2);
    lemma_u16_le_roundtrip(p1.header.page_id);
    lemma_u16_le_roundtrip(p2.header.page_id);
    lemma_u16_le_roundtrip(s1.len() as u16);
    lemma_u16_le_roundtrip(s2.len() as u16);
    assert(p1.header.page_id == p2.header.page_id);
    assert(s1.len() == s2.len());
    let n = s1.len() as int;
    assert forall|a: int| 0 <= a < n implies s1[a] == s2[a] by {
        assert forall|b: int| 0 <= b < 6 implies entry_bytes(s1[a])[b] == entry_bytes(
            s2[a],
        )[b] by {
            lemma_ser_entry(p1.header.page_id, s1, r1, a, b);
            lemma_ser_entry(p2.header.page_id, s2, r2, a, b);
        }
        lemma_u16_le_roundtrip(s1[a].slot_id);
        lemma_u16_le_roundtrip(s2[a].slot_id);
        lemma_u16_le_roundtrip(s1[a].slot_offset);
        lemma_u16_le_roundtrip(s2[a].slot_offset);
        lemma_u16_le_roundtrip(s1[a].size);
        lemma_u16_le_roundtrip(s2[a].size);
        assert(entry_bytes(s1[a])[0] == u16_le(s1[a].slot_id)[0]);
        assert(entry_bytes(s1[a])[1] == u16_le(s1[a].slot_id)[1]);
        assert(entry_bytes(s1[a])[2] == u16_le(s1[a].slot_offset)[0]);
        assert(entry_bytes(s1[a])[3] == u16_le(s1[a].slot_offset)[1]);
        assert(entry_bytes(s1[a])[4] == u16_le(s1[a].size)[0]);
        assert(entry_bytes(s1[a])[5] == u16_le(s1[a].size)[1]);
        assert(entry_bytes(s2[a])[0] == u16_le(s2[a].slot_id)[0]);
        assert(entry_bytes(s2[a])[1] == u16_le(s2[a].slot_id)[1]);
        assert(entry_bytes(s2[a])[2] == u16_le(s2[a].slot_offset)[0]);
        assert(entry_bytes(s2[a])[3] == u16_le(s2[a].slot_offset)[1]);
        assert(entry_bytes(s2[a])[4] == u16_le(s2[a].size)[0]);
        assert(entry_bytes(s2[a])[5] == u16_le(s2[a].size)[1]);
    }
    assert(s1 =~= s2);
    assert forall|i: int| 0 <= i < n implies r1[i] == r2[i] by {
        assert(r1[i].len() == s1[i].size);
        assert(r2[i].len() == s2[i].size);
        assert forall|d: int| 0 <= d < r1[i].len() implies r1[i][d] == r2[i][d] by {
            lemma_ser_record(p1.header.page_id, s1, r1, i, d);
            lemma_ser_record(p2.header.page_id, s2, r2, i, d);
        }
        assert(r1[i] =~= r2[i]);
    }
    assert(r1 =~= r2);
}

/// Read the two little-endian bytes at `pos` as one value.
fn read_u16_at(data: &Vec<u8>, pos: usize) -> (x: u16)
    requires
        pos + 2 <= data@.len(),
        data@.len() <= PAGE_SIZE,
    ensures
        x == u16_of(data@[pos as int], data@[pos as int + 1]),
{
    let lo: u16 = data[pos] as u16;
    let hi: u16 = data[pos + 1] as u16;
    lo + 256 * hi
}

/// Write the two little-endian bytes of `x` at `pos`.
fn write_u16_at(buf: &mut Vec<u8>, pos: usize, x: u16)
    requires
        pos + 2 <= old(buf)@.len(),
        old(buf)@.len() <= PAGE_SIZE,
    ensures
        final(buf)@.len() == old(buf)@.len(),
        final(buf)@[pos as int] == u16_le(x)[0],
        final(buf)@[pos as int + 1] == u16_le(x)[1],
        forall|j: int|
            0 <= j < old(buf)@.len() && j != pos && j != pos + 1 ==> final(buf)@[j] == old(
                buf,
            )@[j],
{
    let lo: u8 = (x % 256) as u8;
    let hi: u8 = (x / 256) as u8;
    buf.set(pos, lo);
    buf.set(pos + 1, hi);
}

impl Page {
    /// Serialize the page into its canonical on-disk form: exactly
    /// `PAGE_SIZE` bytes laid out as the module description says.
    pub fn get_bytes(&self) -> (r: Vec<u8>)
        requires
            self.wf(),
        ensures
            r@ == spec_serialize(*self),
            r@.len() == PAGE_SIZE,
    {
        let pid = self.header.page_id;
        let n = self.header.slots.len();
        let ghost slots = self.header.slots@;
        let ghost recs = self.rec_views();
        proof {
            lemma_size_prefix_nonneg(slots, n as int);
            lemma_ser_base_len(pid, slots);
            lemma_dir_bytes_len(slots, n as int);
        }
        let mut buf: Vec<u8> = Vec::new();
        let mut z: usize = 0;
        while z < PAGE_SIZE
            invariant
                buf@.len() == z,
                z <= PAGE_SIZE,
                forall|j: int| 0 <= j < z ==> #[trigger] buf@[j] == 0,
            decreases PAGE_SIZE - z,
        {
            buf.push(0u8);
            z = z + 1;
        }
        write_u16_at(&mut buf, 0, pid);
        write_u16_at(&mut buf, 2, n as u16);
        let mut i: usize = 0;
        while i < n
            invariant
                i <= n,
                n == slots.len(),
                self.wf(),
                slots == self.header.slots@,
                recs == self.rec_views(),
                pid == self.header.page_id,
                buf@.len() == PAGE_SIZE,
                HEADER_PREFIX_SIZE + SLOT_ENTRY_SIZE * n <= PAGE_SIZE,
                buf@[0] == u16_le(pid)[0],
                buf@[1] == u16_le(pid)[1],
                buf@[2] == u16_le(n as u16)[0],
                buf@[3] == u16_le(n as u16)[1],
                forall|a: int, b: int|
                    0 <= a < i && 0 <= b < 6 ==> #[trigger] buf@[4 + 6 * a + b] == entry_bytes(
                        slots[a],
                    )[b],
                forall|j: int| 4 + 6 * i <= j < PAGE_SIZE ==> #[trigger] buf@[j] == 0,
            decreases n - i,
        {
            let s = self.header.slots[i];
            let pos = HEADER_PREFIX_SIZE + SLOT_ENTRY_SIZE * i;
            write_u16_at(&mut buf, pos, s.slot_id);
            write_u16_at(&mut buf, pos + 2, s.slot_offset);
            write_u16_at(&mut buf, pos + 4, s.size);
            proof {
                assert forall|b: int| 0 <= b < 6 implies buf@[4 + 6 * (i as int) + b]
                    == entry_bytes(slots[i as int])[b] by {
                    assert(entry_bytes(slots[i as int])[0] == u16_le(s.slot_id)[0]);
                    assert(entry_bytes(slots[i as int])[1] == u16_le(s.slot_id)[1]);
                    assert(entry_bytes(slots[i as int])[2] == u16_le(s.slot_offset)[0]);
                    assert(entry_bytes(slots[i as int])[3] == u16_le(s.slot_offset)[1]);
                    assert(entry_bytes(slots[i as int])[4] == u16_le(s.size)[0]);
                    assert(entry_bytes(slots[i as int])[5] == u16_le(s.size)[1]);
                }
            }
            i = i + 1;
        }
        proof {
            assert(buf@ =~= ser_base(pid, slots)) by {
                assert forall|j: int| 0 <= j < PAGE_SIZE implies buf@[j] == ser_base(
                    pid,
                    slots,
                )[j] by {
                    if j < 2 {
                    } else if j < 4 {
                    } else if j < 4 + 6 * (n as int) {
                        let a = (j - 4) / 6;
                        let b = (j - 4) % 6;
                        assert(j == 4 + 6 * a + b);
                        assert(0 <= a < n as int);
                        assert(buf@[4 + 6 * a + b] == entry_bytes(slots[a])[b]);
                        lemma_dir_bytes_index(slots, n as int, a, b);
                    } else {
                    }
                }
            }
        }
        let ghost base = ser_base(pid, slots);
        let mut k: usize = 0;
        while k < n
            invariant
                k <= n,
                n == slots.len(),
                self.wf(),
                slots == self.header.slots@,
                recs == self.rec_views(),
                pid == self.header.page_id,
                buf@.len() == PAGE_SIZE,
                base.len() == PAGE_SIZE,
                base == ser_base(pid, slots),
                buf@ == ser_overlay(base, slots, recs, k as int),
            decreases n - k,
        {
            let s = self.header.slots[k];
            let ghost prev = buf@;
            let off = s.slot_offset as usize;
            let m = self.records[k].len();
            proof {
                assert(recs[k as int].len() == s.size);
                assert(self.records@[k as int]@ == recs[k as int]);
                lemma_size_prefix_nonneg(slots, k as int);
                assert(s.slot_offset == PAGE_SIZE - size_prefix(slots, k as int + 1));
            }
            let mut d: usize = 0;
            while d < m
                invariant
                    d <= m,
                    k < n,
                    n == slots.len(),
                    n == self.records@.len(),
                    m == recs[k as int].len(),
                    m == self.records@[k as int]@.len(),
                    self.records@[k as int]@ == recs[k as int],
                    off == slots[k as int].slot_offset,
                    off + m <= PAGE_SIZE,
                    buf@.len() == PAGE_SIZE,
                    prev.len() == PAGE_SIZE,
                    forall|j: int|
                        0 <= j < PAGE_SIZE && !(off <= j < off + d) ==> #[trigger] buf@[j]
                            == prev[j],
                    forall|j: int|
                        off <= j < off + d ==> #[trigger] buf@[j] == recs[k as int][j - off],
                decreases m - d,
            {
                let byte = self.records[k][d];
                buf.set(off + d, byte);
                d = d + 1;
            }
            proof {
                assert(buf@ =~= splice(prev, off as int, recs[k as int]));
            }
            k = k + 1;
        }
        buf
    }
}


/// Every byte at or above the packed data region belongs to some record.
proof fn lemma_region_cover(slots: Seq<Slot>, k: int, j: int)
    requires
        forall|i: int|
            0 <= i < slots.len() ==> #[trigger] slots[i].slot_offset == PAGE_SIZE - size_prefix(
                slots,
                i + 1,
            ),
        0 <= k <= slots.len(),
        PAGE_SIZE - size_prefix(slots, slots.len() as int) <= j,
        j < PAGE_SIZE - size_prefix(slots, k),
    ensures
        exists|i: int|
            k <= i < slots.len() && #[trigger] slots[i].slot_offset <= j < slots[i].slot_offset
                + slots[i].size,
    decreases slots.len() - k,
{
    lemma_size_prefix_monotone(slots, k, slots.len() as int);
    assert(k < slots.len());
    assert(size_prefix(slots, k + 1) == size_prefix(slots, k) + slots[k].size);
    if j >= PAGE_SIZE - size_prefix(slots, k + 1) {
        assert(slots[k].slot_offset <= j < slots[k].slot_offset + slots[k].size);
    } else {
        lemma_region_cover(slots, k + 1, j);
    }
}

/// Parse one page block. Returns the page when the block is a canonical
/// serialized page, and nothing when it is malformed; a block written by
/// `get_bytes` always parses.
#[verifier::rlimit(100)]
pub fn parse_page(data: &Vec<u8>) -> (r: Option<Page>)
    ensures
        r matches Some(p) ==> p.wf() && spec_serialize(p) == data@,
        (exists|q: Page| q.wf() && data@ == spec_serialize(q)) ==> r is Some,
{
    let ghost ex = exists|q: Page| q.wf() && data@ == spec_serialize(q);
    let ghost q: Page = if ex {
        choose|q: Page| q.wf() && data@ == spec_serialize(q)
    } else {
        arbitrary()
    };
    proof {
        if ex {
            lemma_size_prefix_nonneg(q.header.slots@, q.spec_len());
            lemma_ser_header(q.header.page_id, q.header.slots@, q.rec_views());
            lemma_u16_le_roundtrip(q.header.page_id);
            lemma_u16_le_roundtrip(q.header.slots@.len() as u16);
        }
    }
    if data.len() != PAGE_SIZE {
        proof {
            if ex {
                assert(data@.len() == PAGE_SIZE);
            }
        }
        return None;
    }
    let page_id = read_u16_at(data, 0);
    let count = read_u16_at(data, 2);
    proof {
        if ex {
            assert(count == q.header.slots@.len());
            assert(page_id == q.header.page_id);
            assert(q.spec_len() <= 682);
        }
    }
    if count > 682 {
        return None;
    }
    let n = count as usize;
    // parse the directory and check that the records are packed
    let mut slots: Vec<Slot> = Vec::new();
    let mut next_off: u16 = PAGE_SIZE as u16;
    let mut i: usize = 0;
    while i < n
        invariant
            i <= n,
            n <= 682,
            data@.len() == PAGE_SIZE,
            slots@.len() == i,
            next_off == PAGE_SIZE - size_prefix(slots@, i as int),
            next_off >= 0,
            forall|a: int|
                0 <= a < i ==> #[trigger] slots@[a].slot_offset == PAGE_SIZE - size_prefix(
                    slots@,
                    a + 1,
                ),
            forall|a: int, b: int|
                0 <= a < i && 0 <= b < 6 ==> #[trigger] data@[4 + 6 * a + b] == entry_bytes(
                    slots@[a],
                )[b],
            ex == (exists|p2: Page| p2.wf() && data@ == spec_serialize(p2)),
            ex ==> q.wf() && data@ == spec_serialize(q) && n == q.spec_len() && slots@
                == q.header.slots@.subrange(0, i as int),
        decreases n - i,
    {
        let pos = HEADER_PREFIX_SIZE + SLOT_ENTRY_SIZE * i;
        let sid = read_u16_at(data, pos);
        let off = read_u16_at(data, pos + 2);
        let size = read_u16_at(data, pos + 4);
        proof {
            if ex {
                let qs = q.header.slots@;
                let qe = qs[i as int];
                assert forall|b: int| 0 <= b < 6 implies data@[4 + 6 * (i as int) + b]
                    == entry_bytes(qe)[b] by {
                    lemma_ser_entry(q.header.page_id, qs, q.rec_views(), i as int, b);
                }
                assert(entry_bytes(qe)[0] == u16_le(qe.slot_id)[0]);
                assert(entry_bytes(qe)[1] == u16_le(qe.slot_id)[1]);
                assert(entry_bytes(qe)[2] == u16_le(qe.slot_offset)[0]);
                assert(entry_bytes(qe)[3] == u16_le(qe.slot_offset)[1]);
                assert(entry_bytes(qe)[4] == u16_le(qe.size)[0]);
                assert(entry_bytes(qe)[5] == u16_le(qe.size)[1]);
                lemma_u16_le_roundtrip(qe.slot_id);
                lemma_u16_le_roundtrip(qe.slot_offset);
                lemma_u16_le_roundtrip(qe.size);
                assert(sid == qe.slot_id && off == qe.slot_offset && size == qe.size);
                lemma_size_prefix_congruence(slots@, qs, i as int);
                lemma_size_prefix_nonneg(qs, i as int);
                lemma_size_prefix_monotone(qs, i as int + 1, q.spec_len());
                assert(size_prefix(qs, i as int + 1) == size_prefix(qs, i as int) + qe.size);
                assert(next_off == PAGE_SIZE - size_prefix(qs, i as int));
                assert(size <= next_off);
                assert(off == next_off - size);
            }
        }
        if size > next_off || off != next_off - size {
            proof {
                if ex {
                    assert(false);
                }
            }
            return None;
        }
        let ghost slots_before = slots@;
        slots.push(Slot::new(sid, off, size));
        proof {
            lemma_size_prefix_push(slots_before, slots@[i as int], i as int);
            assert(size_prefix(slots@, i as int + 1) == size_prefix(slots_before, i as int)
                + size);
            assert forall|a: int| 0 <= a < i + 1 implies #[trigger] slots@[a].slot_offset
                == PAGE_SIZE - size_prefix(slots@, a + 1) by {
                if a < i {
                    lemma_size_prefix_push(slots_before, slots@[i as int], a + 1);
                }
            }
            assert forall|b: int| 0 <= b < 6 implies data@[4 + 6 * (i as int) + b] == entry_bytes(
                slots@[i as int],
            )[b] by {
                lemma_u16_le_of_bytes(data@[4 + 6 * (i as int)], data@[4 + 6 * (i as int) + 1]);
                lemma_u16_le_of_bytes(
                    data@[4 + 6 * (i as int) + 2],
                    data@[4 + 6 * (i as int) + 3],
                );
                lemma_u16_le_of_bytes(
                    data@[4 + 6 * (i as int) + 4],
                    data@[4 + 6 * (i as int) + 5],
                );
            }
            if ex {
                assert(slots@ =~= q.header.slots@.subrange(0, i as int + 1));
            }
        }
        next_off = off;
        i = i + 1;
    }
    proof {
        if ex {
            assert(slots@ =~= q.header.slots@);
        }
    }
    // the directory must not run into the packed records
    if (next_off as usize) < HEADER_PREFIX_SIZE + SLOT_ENTRY_SIZE * n {
        proof {
            if ex {
                lemma_size_prefix_congruence(slots@, q.header.slots@, n as int);
            }
        }
        return None;
    }
    // slot ids must be unique
    let mut a: usize = 0;
    while a < n
        invariant
            a <= n,
            n == slots@.len(),
            forall|x: int, y: int| 0 <= x < y < slots@.len() && x < a ==> slot_ids(slots@)[x]
                != slot_ids(slots@)[y],
            ex == (exists|p2: Page| p2.wf() && data@ == spec_serialize(p2)),
            ex ==> q.wf() && slots@ == q.header.slots@,
        decreases n - a,
    {
        let mut b: usize = a + 1;
        while b < n
            invariant
                a < b <= n,
                n == slots@.len(),
                forall|y: int| a < y < b ==> slot_ids(slots@)[a as int] != slot_ids(slots@)[y],
                ex == (exists|p2: Page| p2.wf() && data@ == spec_serialize(p2)),
                ex ==> q.wf() && slots@ == q.header.slots@,
            decreases n - b,
        {
            if slots[a].slot_id == slots[b].slot_id {
                proof {
                    if ex {
                        assert(ids_unique(slot_ids(q.header.slots@)));
                        assert(slot_ids(q.header.slots@)[a as int] == q.header.slots@[a as int].slot_id);
                        assert(slot_ids(q.header.slots@)[b as int] == q.header.slots@[b as int].slot_id);
                        assert(slot_ids(q.header.slots@)[a as int] != slot_ids(
                            q.header.slots@,
                        )[b as int]);
                        assert(false);
                    }
                }
                return None;
            }
            proof {
                assert(slot_ids(slots@)[a as int] == slots@[a as int].slot_id);
                assert(slot_ids(slots@)[b as int] == slots@[b as int].slot_id);
            }
            b = b + 1;
        }
        a = a + 1;
    }
    // the gap between directory and records must be zero
    proof {
        lemma_size_prefix_nonneg(slots@, n as int);
    }
    let gap_end = next_off as usize;
    let mut g: usize = HEADER_PREFIX_SIZE + SLOT_ENTRY_SIZE * n;
    while g < gap_end
        invariant
            HEADER_PREFIX_SIZE + SLOT_ENTRY_SIZE * n <= g,
            g <= gap_end,
            gap_end <= PAGE_SIZE,
            data@.len() == PAGE_SIZE,
            forall|j: int|
                HEADER_PREFIX_SIZE + SLOT_ENTRY_SIZE * n <= j < g ==> #[trigger] data@[j] == 0,
            ex == (exists|p2: Page| p2.wf() && data@ == spec_serialize(p2)),
            ex ==> q.wf() && data@ == spec_serialize(q) && n == q.spec_len() && slots@
                == q.header.slots@ && gap_end == PAGE_SIZE - size_prefix(
                q.header.slots@,
                q.spec_len(),
            ),
        decreases gap_end - g,
    {
        if data[g] != 0 {
            proof {
                if ex {
                    lemma_size_prefix_congruence(slots@, q.header.slots@, n as int);
                    lemma_ser_gap(q.header.page_id, q.header.slots@, q.rec_views(), g as int);
                    assert(data@[g as int] == 0);
                    assert(false);
                }
            }
            return None;
        }
        g = g + 1;
    }
    // copy the records out
    let ghost final_slots = slots@;
    let mut records: Vec<Vec<u8>> = Vec::new();
    let mut i2: usize = 0;
    while i2 < n
        invariant
            i2 <= n,
            n == final_slots.len(),
            slots@ == final_slots,
            data@.len() == PAGE_SIZE,
            records@.len() == i2,
            forall|x: int|
                0 <= x < n ==> #[trigger] final_slots[x].slot_offset == PAGE_SIZE - size_prefix(
                    final_slots,
                    x + 1,
                ),
            forall|x: int|
                0 <= x < i2 ==> #[trigger] records@[x]@.len() == final_slots[x].size,
            forall|x: int, d: int|
                0 <= x < i2 && 0 <= d < final_slots[x].size ==> #[trigger] records@[x]@[d]
                    == data@[final_slots[x].slot_offset + d],
        decreases n - i2,
    {
        let off = slots[i2].slot_offset as usize;
        let size = slots[i2].size as usize;
        proof {
            lemma_size_prefix_nonneg(final_slots, i2 as int);
            assert(size_prefix(final_slots, i2 as int + 1) == size_prefix(
                final_slots,
                i2 as int,
            ) + final_slots[i2 as int].size);
        }
        let mut rec: Vec<u8> = Vec::new();
        let mut d: usize = 0;
        while d < size
            invariant
                d <= size,
                off + size <= PAGE_SIZE,
                data@.len() == PAGE_SIZE,
                rec@.len() == d,
                forall|e: int| 0 <= e < d ==> #[trigger] rec@[e] == data@[off + e],
            decreases size - d,
        {
            rec.push(data[off + d]);
            d = d + 1;
        }
        records.push(rec);
        i2 = i2 + 1;
    }
    let p = Page { header: Header { page_id, slots }, records };
    proof {
        let ps = p.header.slots@;
        let pr = p.rec_views();
        let nn = n as int;
        lemma_size_prefix_nonneg(ps, nn);
        assert forall|x: int| 0 <= x < nn implies #[trigger] ps[x].size == pr[x].len() by {
            assert(pr[x] == records@[x]@);
        }
        assert(layout_wf(ps, pr));
        assert(ids_unique(slot_ids(ps)));
        assert(p.wf());
        // the serialized form of the parsed page is the input block
        lemma_ser_header(page_id, ps, pr);
        assert(spec_serialize(p) =~= data@) by {
            assert forall|j: int| 0 <= j < PAGE_SIZE implies spec_serialize(p)[j] == data@[j] by {
                let bytes = spec_serialize(p);
                if j < 2 {
                    lemma_u16_le_of_bytes(data@[0], data@[1]);
                } else if j < 4 {
                    lemma_u16_le_of_bytes(data@[2], data@[3]);
                } else if j < 4 + 6 * nn {
                    let aa = (j - 4) / 6;
                    let bb = (j - 4) % 6;
                    assert(j == 4 + 6 * aa + bb);
                    lemma_ser_entry(page_id, ps, pr, aa, bb);
                } else if j < gap_end {
                    lemma_ser_gap(page_id, ps, pr, j);
                } else {
                    lemma_region_cover(ps, 0, j);
                    let ii = choose|ii: int|
                        0 <= ii < nn && #[trigger] ps[ii].slot_offset <= j < ps[ii].slot_offset
                            + ps[ii].size;
                    lemma_ser_record(page_id, ps, pr, ii, j - ps[ii].slot_offset);
                }
            }
        }
    }
    Some(p)
}

impl Page {
    /// Rebuild a page from its canonical on-disk form, the inverse of
    /// `get_bytes`. Callers must only feed bytes that `get_bytes` produced;
    /// `parse_page` accepts arbitrary bytes instead.
    pub fn from_bytes(data: &Vec<u8>) -> (p: Self)
        requires
            exists|q: Page| q.wf() && data@ == spec_serialize(q),
        ensures
            p.wf(),
            spec_serialize(p) == data@,
    {
        let r = parse_page(data);
        match r {
            Some(p) => p,
            None => unreached(),
        }
    }
}

/// Serialization keeps the whole meaning of a page: a well-formed page read
/// back from its own bytes has the page id and the live slot-to-bytes
/// mapping of the page that was written.
pub proof fn lemma_round_trip_semantics(p1: Page, p2: Page)
    requires
        p1.wf(),
        p2.wf(),
        spec_serialize(p2) == spec_serialize(p1),
    ensures
        p2.header.page_id == p1.header.page_id,
        p2@ == p1@,
{
    lemma_serialize_agreement(p1, p2);
    assert(p2@ =~= p1@) by {
        assert forall|sid: crate::ids::SlotId| true implies p2.spec_get(sid) == p1.spec_get(
            sid,
        ) by {}
    }
}


} // verus!
