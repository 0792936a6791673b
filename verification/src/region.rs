use crate::errors::Error;
use crate::wire::{append_u64, read_u64_at, write_u64_at};
use vstd::bytes::*;
use vstd::prelude::*;

verus! {

/// Size in bytes of one page, the unit in which the backing memory is
/// handed out to regions.
pub const PAGE_SIZE: usize = 4096;

/// Number of region ids the allocator serves; ids are `0 .. MAX_REGIONS`.
pub const MAX_REGIONS: u8 = 16;

/// Greatest number of data pages the header page can describe: eight bytes
/// hold the page count and one byte per page holds its owning region.
pub const MAX_DATA_PAGES: usize = 4088;

// The backing memory is one flat byte sequence: a header page followed by
// `spec_num_pages` data pages. Byte `8 + p` of the header records which
// region owns data page `p`; pages are handed out append-only and regions
// never shrink, so the pages of a region are exactly the data pages whose
// owner byte names it, in ascending order.

/// Number of data pages the header declares.
pub open spec fn spec_num_pages(b: Seq<u8>) -> int {
    spec_u64_from_le_bytes(b.subrange(0, 8)) as int
}

/// Owner region of data page `p`, as the header records it.
pub open spec fn spec_owner(b: Seq<u8>, p: int) -> int {
    b[8 + p] as int
}

/// Well-formedness of a backing memory: the length matches the declared
/// page count and every allocated page names a valid owning region.
pub open spec fn backing_wf(b: Seq<u8>) -> bool {
    &&& b.len() == PAGE_SIZE * (1 + spec_num_pages(b))
    &&& 0 <= spec_num_pages(b) <= MAX_DATA_PAGES as int
    &&& forall|p: int| 0 <= p < spec_num_pages(b) ==> spec_owner(b, p) < MAX_REGIONS as int
}

/// The data pages among `0 .. n` owned by region `r`, in ascending order.
pub open spec fn spec_pages_upto(b: Seq<u8>, r: int, n: int) -> Seq<int>
    decreases n,
{
    if n <= 0 {
        Seq::empty()
    } else if spec_owner(b, n - 1) == r {
        spec_pages_upto(b, r, n - 1).push(n - 1)
    } else {
        spec_pages_upto(b, r, n - 1)
    }
}

/// All data pages owned by region `r`, in ascending order.
pub open spec fn spec_pages(b: Seq<u8>, r: int) -> Seq<int> {
    spec_pages_upto(b, r, spec_num_pages(b))
}

/// Number of pages allocated to region `r`.
pub open spec fn spec_page_count(b: Seq<u8>, r: int) -> int {
    spec_pages(b, r).len() as int
}

/// Length in bytes of region `r`.
pub open spec fn spec_region_len(b: Seq<u8>, r: int) -> int {
    spec_page_count(b, r) * PAGE_SIZE
}

/// Physical byte index backing logical offset `l` of region `r`.
pub open spec fn spec_phys(b: Seq<u8>, r: int, l: int) -> int {
    PAGE_SIZE * (1 + spec_pages(b, r)[l / (PAGE_SIZE as int)]) + (l % (PAGE_SIZE as int))
}

/// The bytes of region `r` as one contiguous logical address space.
pub open spec fn spec_region_view(b: Seq<u8>, r: int) -> Seq<u8> {
    Seq::new(spec_region_len(b, r) as nat, |l: int| b[spec_phys(b, r, l)])
}

proof fn lemma_pages_upto_props(b: Seq<u8>, r: int, n: int)
    ensures
        spec_pages_upto(b, r, n).len() <= n || n < 0,
        forall|i: int|
            0 <= i < spec_pages_upto(b, r, n).len() ==> 0 <= #[trigger] spec_pages_upto(b, r, n)[i]
                < n,
        forall|i: int, j: int|
            0 <= i < j < spec_pages_upto(b, r, n).len() ==> #[trigger] spec_pages_upto(b, r, n)[i]
                < #[trigger] spec_pages_upto(b, r, n)[j],
        forall|i: int|
            0 <= i < spec_pages_upto(b, r, n).len() ==> spec_owner(
                b,
                #[trigger] spec_pages_upto(b, r, n)[i],
            ) == r,
    decreases n,
{
    if n <= 0 {
    } else {
        lemma_pages_upto_props(b, r, n - 1);
        let prev = spec_pages_upto(b, r, n - 1);
        let cur = spec_pages_upto(b, r, n);
        if spec_owner(b, n - 1) == r {
            assert(cur == prev.push(n - 1));
            assert forall|i: int| 0 <= i < cur.len() implies 0 <= cur[i] < n && spec_owner(
                b,
                cur[i],
            ) == r by {
                if i < prev.len() {
                    assert(cur[i] == prev[i]);
                } else {
                    assert(cur[i] == n - 1);
                }
            }
            assert forall|i: int, j: int| 0 <= i < j < cur.len() implies cur[i] < cur[j] by {
                if j < prev.len() {
                    assert(cur[i] == prev[i] && cur[j] == prev[j]);
                } else {
                    assert(cur[j] == n - 1);
                    assert(cur[i] == prev[i] && prev[i] < n - 1);
                }
            }
        } else {
            assert(cur == prev);
        }
    }
}

proof fn lemma_pages_upto_frame(b1: Seq<u8>, b2: Seq<u8>, r: int, n: int)
    requires
        forall|p: int| 0 <= p < n ==> spec_owner(b1, p) == spec_owner(b2, p),
    ensures
        spec_pages_upto(b1, r, n) == spec_pages_upto(b2, r, n),
    decreases n,
{
    if n > 0 {
        lemma_pages_upto_frame(b1, b2, r, n - 1);
    }
}

proof fn lemma_pages_upto_prefix(b: Seq<u8>, r: int, m: int, n: int)
    requires
        0 <= m <= n,
    ensures
        spec_pages_upto(b, r, m).len() <= spec_pages_upto(b, r, n).len(),
        forall|i: int|
            0 <= i < spec_pages_upto(b, r, m).len() ==> #[trigger] spec_pages_upto(b, r, n)[i]
                == spec_pages_upto(b, r, m)[i],
    decreases n - m,
{
    if m < n {
        lemma_pages_upto_prefix(b, r, m, n - 1);
        let prev = spec_pages_upto(b, r, n - 1);
        let cur = spec_pages_upto(b, r, n);
        if spec_owner(b, n - 1) == r {
            assert(cur == prev.push(n - 1));
            assert(forall|i: int| 0 <= i < prev.len() ==> cur[i] == prev[i]);
        }
    }
}

proof fn lemma_pages_upto_extend(b: Seq<u8>, r: int, from: int, to: int, rid: int)
    requires
        0 <= from <= to,
        forall|p: int| from <= p < to ==> spec_owner(b, p) == rid,
    ensures
        r == rid ==> spec_pages_upto(b, r, to) == spec_pages_upto(b, r, from) + Seq::new(
            (to - from) as nat,
            |i: int| from + i,
        ),
        r != rid ==> spec_pages_upto(b, r, to) == spec_pages_upto(b, r, from),
    decreases to - from,
{
    if from < to {
        lemma_pages_upto_extend(b, r, from, to - 1, rid);
        if r == rid {
            assert(spec_pages_upto(b, r, to) =~= spec_pages_upto(b, r, from) + Seq::new(
                (to - from) as nat,
                |i: int| from + i,
            ));
        }
    } else {
        if r == rid {
            assert(spec_pages_upto(b, r, to) =~= spec_pages_upto(b, r, from) + Seq::new(
                0nat,
                |i: int| from + i,
            ));
        }
    }
}

proof fn lemma_phys_inj(p1: int, m1: int, p2: int, m2: int)
    requires
        0 <= m1 < PAGE_SIZE,
        0 <= m2 < PAGE_SIZE,
        0 <= p1,
        0 <= p2,
        p1 != p2 || m1 != m2,
    ensures
        PAGE_SIZE * (1 + p1) + m1 != PAGE_SIZE * (1 + p2) + m2,
{
    if p1 == p2 {
    } else {
        assert(PAGE_SIZE * (1 + p1) + m1 != PAGE_SIZE * (1 + p2) + m2) by (nonlinear_arith)
            requires
                0 <= m1 < PAGE_SIZE,
                0 <= m2 < PAGE_SIZE,
                0 <= p1,
                0 <= p2,
                p1 != p2,
        ;
    }
}

proof fn lemma_div_in_count(l: int, c: int)
    requires
        0 <= l < c * PAGE_SIZE,
    ensures
        0 <= l / (PAGE_SIZE as int) < c,
        0 <= l % (PAGE_SIZE as int) < PAGE_SIZE,
        l == (PAGE_SIZE as int) * (l / (PAGE_SIZE as int)) + l % (PAGE_SIZE as int),
{
    assert(0 <= l / (PAGE_SIZE as int) < c && 0 <= l % (PAGE_SIZE as int) < PAGE_SIZE && l == (
    PAGE_SIZE as int) * (l / (PAGE_SIZE as int)) + l % (PAGE_SIZE as int)) by (nonlinear_arith)
        requires
            0 <= l < c * PAGE_SIZE,
    ;
}

/// A validated region id; `get_region` is the only way to make one.
#[derive(Clone, Copy, Debug)]
pub struct RegionHandle {
    id: u8,
}

impl RegionHandle {
    /// The region id this handle names.
    pub closed spec fn id_spec(&self) -> int {
        self.id as int
    }

    pub open spec fn wf(&self) -> bool {
        0 <= self.id_spec() < MAX_REGIONS as int
    }

    pub fn id(&self) -> (r: u8)
        ensures
            r as int == self.id_spec(),
    {
        self.id
    }
}

/// Returns a handle for `id`, or `InvalidRegionId` past the fixed maximum.
pub fn get_region(id: u8) -> (res: Result<RegionHandle, Error>)
    ensures
        id < MAX_REGIONS <==> res is Ok,
        res matches Ok(h) ==> h.id_spec() == id as int && h.wf(),
        res matches Err(e) ==> e == Error::InvalidRegionId,
{
    if id < MAX_REGIONS {
        Ok(RegionHandle { id })
    } else {
        Err(Error::InvalidRegionId)
    }
}

/// Divides one flat backing memory into independently growable regions.
///
/// All state lives in the backing bytes themselves: the header page records,
/// per data page, the owning region, so reopening the same bytes
/// reconstructs identical region boundaries.
pub struct RegionManager {
    mem: Vec<u8>,
}

impl RegionManager {
    /// The raw backing memory.
    pub closed spec fn backing(&self) -> Seq<u8> {
        self.mem@
    }

    pub open spec fn wf(&self) -> bool {
        backing_wf(self.backing())
    }

    pub open spec fn region_view(&self, r: int) -> Seq<u8> {
        spec_region_view(self.backing(), r)
    }

    pub open spec fn page_count(&self, r: int) -> int {
        spec_page_count(self.backing(), r)
    }

    pub open spec fn region_len(&self, r: int) -> int {
        spec_region_len(self.backing(), r)
    }

    pub open spec fn num_pages(&self) -> int {
        spec_num_pages(self.backing())
    }

    /// A fresh backing memory: a zeroed header page, no data pages.
    pub fn new() -> (res: Self)
        ensures
            res.wf(),
            res.num_pages() == 0,
            forall|r: int| res.page_count(r) == 0,
    {
        let mut mem: Vec<u8> = Vec::new();
        append_u64(&mut mem, 0);
        proof {
            lemma_auto_spec_u64_to_from_le_bytes();
            assert(mem@.subrange(0, 8) =~= spec_u64_to_le_bytes(0u64));
        }
        let mut i: usize = 8;
        while i < PAGE_SIZE
            invariant
                8 <= i <= PAGE_SIZE,
                mem@.len() == i,
                mem@.subrange(0, 8) == spec_u64_to_le_bytes(0u64),
            decreases PAGE_SIZE - i,
        {
            mem.push(0);
            proof {
                assert(mem@.subrange(0, 8) =~= mem@.take(i as int).subrange(0, 8));
            }
            i = i + 1;
        }
        proof {
            lemma_auto_spec_u64_to_from_le_bytes();
            assert(spec_num_pages(mem@) == 0);
            assert forall|r: int| spec_page_count(mem@, r) == 0 by {
                assert(spec_pages_upto(mem@, r, 0) == Seq::<int>::empty());
            }
        }
        RegionManager { mem }
    }

    /// Rebinds to an existing backing memory, validating its header.
    pub fn open(mem: Vec<u8>) -> (res: Result<Self, Error>)
        ensures
            res is Ok <==> backing_wf(mem@),
            res matches Ok(m) ==> m.backing() == mem@ && m.wf(),
            res matches Err(e) ==> e == Error::CorruptEncoding,
    {
        if mem.len() < PAGE_SIZE {
            return Err(Error::CorruptEncoding);
        }
        let count64 = read_u64_at(&mem, 0);
        if count64 > MAX_DATA_PAGES as u64 {
            return Err(Error::CorruptEncoding);
        }
        let count = count64 as usize;
        proof {
            assert(PAGE_SIZE * (1 + count as int) <= PAGE_SIZE * (1 + MAX_DATA_PAGES as int));
        }
        if mem.len() != PAGE_SIZE * (1 + count) {
            return Err(Error::CorruptEncoding);
        }
        let mut p: usize = 0;
        while p < count
            invariant
                p <= count,
                count <= MAX_DATA_PAGES,
                count as int == spec_num_pages(mem@),
                mem@.len() == PAGE_SIZE * (1 + count as int),
                forall|q: int| 0 <= q < p ==> spec_owner(mem@, q) < MAX_REGIONS as int,
            decreases count - p,
        {
            if mem[8 + p] >= MAX_REGIONS {
                proof {
                    assert(spec_owner(mem@, p as int) >= MAX_REGIONS as int);
                    assert(!backing_wf(mem@));
                }
                return Err(Error::CorruptEncoding);
            }
            p = p + 1;
        }
        Ok(RegionManager { mem })
    }

    /// Surrenders the backing memory, e.g. to persist it elsewhere.
    pub fn into_backing(self) -> (res: Vec<u8>)
        ensures
            res@ == self.backing(),
    {
        self.mem
    }

    fn num_pages_exec(&self) -> (res: usize)
        requires
            self.wf(),
        ensures
            res as int == self.num_pages(),
            res <= MAX_DATA_PAGES,
    {
        proof {
            lemma_auto_spec_u64_to_from_le_bytes();
        }
        read_u64_at(&self.mem, 0) as usize
    }

    /// Number of pages currently allocated to the region.
    pub fn count_pages(&self, h: &RegionHandle) -> (res: usize)
        requires
            self.wf(),
            h.wf(),
        ensures
            res as int == self.page_count(h.id_spec()),
            res <= MAX_DATA_PAGES,
    {
        let rid = h.id();
        let ndp = self.num_pages_exec();
        let mut c: usize = 0;
        let mut p: usize = 0;
        while p < ndp
            invariant
                self.wf(),
                h.wf(),
                rid as int == h.id_spec(),
                p <= ndp,
                ndp as int == self.num_pages(),
                c as int == spec_pages_upto(self.backing(), h.id_spec(), p as int).len(),
                c <= p,
            decreases ndp - p,
        {
            if self.mem[8 + p] == rid {
                c = c + 1;
            }
            p = p + 1;
        }
        proof {
            lemma_pages_upto_props(self.backing(), h.id_spec(), self.num_pages());
        }
        c
    }

    /// Length in bytes of the region's currently allocated span.
    pub fn len_of(&self, h: &RegionHandle) -> (res: usize)
        requires
            self.wf(),
            h.wf(),
        ensures
            res as int == self.region_len(h.id_spec()),
            res <= PAGE_SIZE * MAX_DATA_PAGES,
    {
        let c = self.count_pages(h);
        proof {
            assert(c as int * PAGE_SIZE <= MAX_DATA_PAGES as int * PAGE_SIZE) by (nonlinear_arith)
                requires
                    0 <= (c as int) <= MAX_DATA_PAGES as int,
            ;
        }
        c * PAGE_SIZE
    }

    fn find_nth_page(&self, h: &RegionHandle, k: usize) -> (res: usize)
        requires
            self.wf(),
            h.wf(),
            k < spec_page_count(self.backing(), h.id_spec()),
        ensures
            res < self.num_pages(),
            spec_pages(self.backing(), h.id_spec())[k as int] == res as int,
    {
        let rid = h.id();
        let ndp = self.num_pages_exec();
        let mut c: usize = 0;
        let mut p: usize = 0;
        proof {
            lemma_pages_upto_props(self.backing(), h.id_spec(), self.num_pages());
        }
        while p < ndp
            invariant
                self.wf(),
                h.wf(),
                rid as int == h.id_spec(),
                p <= ndp,
                ndp as int == self.num_pages(),
                k < spec_page_count(self.backing(), h.id_spec()),
                c as int == spec_pages_upto(self.backing(), h.id_spec(), p as int).len(),
                c <= k,
            decreases ndp - p,
        {
            if self.mem[8 + p] == rid {
                if c == k {
                    proof {
                        let b = self.backing();
                        let r = h.id_spec();
                        assert(spec_pages_upto(b, r, p as int + 1) == spec_pages_upto(
                            b,
                            r,
                            p as int,
                        ).push(p as int));
                        assert(spec_pages_upto(b, r, p as int + 1)[k as int] == p as int);
                        lemma_pages_upto_prefix(b, r, p as int + 1, self.num_pages());
                    }
                    return p;
                }
                c = c + 1;
            }
            p = p + 1;
        }
        proof {
            assert(false);
        }
        0
    }

    fn phys_index(&self, h: &RegionHandle, l: usize) -> (res: usize)
        requires
            self.wf(),
            h.wf(),
            l < self.region_len(h.id_spec()),
        ensures
            res == spec_phys(self.backing(), h.id_spec(), l as int),
            PAGE_SIZE <= res < self.backing().len(),
    {
        proof {
            lemma_div_in_count(l as int, self.page_count(h.id_spec()));
            lemma_pages_upto_props(self.backing(), h.id_spec(), self.num_pages());
        }
        let k = l / PAGE_SIZE;
        let m = l % PAGE_SIZE;
        let p = self.find_nth_page(h, k);
        proof {
            assert(PAGE_SIZE * (1 + p as int) + (m as int) < PAGE_SIZE * (1 + self.num_pages()))
                by (nonlinear_arith)
                requires
                    0 <= (p as int) < self.num_pages(),
                    0 <= m < PAGE_SIZE,
            ;
            assert(PAGE_SIZE * (1 + self.num_pages()) == self.backing().len());
        }
        PAGE_SIZE * (1 + p) + m
    }

    fn read_byte(&self, h: &RegionHandle, l: usize) -> (res: u8)
        requires
            self.wf(),
            h.wf(),
            l < self.region_len(h.id_spec()),
        ensures
            res == self.region_view(h.id_spec())[l as int],
    {
        let idx = self.phys_index(h, l);
        self.mem[idx]
    }

    fn write_byte(&mut self, h: &RegionHandle, l: usize, val: u8)
        requires
            old(self).wf(),
            h.wf(),
            l < old(self).region_len(h.id_spec()),
        ensures
            final(self).wf(),
            final(self).backing().len() == old(self).backing().len(),
            final(self).num_pages() == old(self).num_pages(),
            forall|r2: int| spec_pages(final(self).backing(), r2) == spec_pages(
                old(self).backing(),
                r2,
            ),
            final(self).region_view(h.id_spec()) == old(self).region_view(h.id_spec()).update(
                l as int,
                val,
            ),
            forall|r2: int|
                r2 != h.id_spec() ==> final(self).region_view(r2) == old(self).region_view(r2),
    {
        let idx = self.phys_index(h, l);
        let ghost b1 = self.backing();
        let ghost r = h.id_spec();
        self.mem.set(idx, val);
        proof {
            let b2 = self.backing();
            assert(b2 == b1.update(idx as int, val));
            assert(b2.subrange(0, 8) =~= b1.subrange(0, 8));
            assert(spec_num_pages(b2) == spec_num_pages(b1));
            let ndp = spec_num_pages(b1);
            assert forall|q: int| 0 <= q < ndp implies spec_owner(b2, q) == spec_owner(b1, q) by {
                assert(8 + q < PAGE_SIZE);
                assert(8 + q != idx as int);
                assert(b2[8 + q] == b1[8 + q]);
            }
            assert forall|r2: int| spec_pages(b2, r2) == spec_pages(b1, r2) by {
                lemma_pages_upto_frame(b1, b2, r2, ndp);
            }
            lemma_pages_upto_props(b1, r, ndp);
            lemma_div_in_count(l as int, spec_page_count(b1, r));
            // The written byte is exactly logical offset l of region r.
            assert(spec_phys(b2, r, l as int) == idx as int);
            assert forall|l2: int|
                0 <= l2 < spec_region_len(b1, r) && l2 != l as int implies spec_phys(b1, r, l2)
                != idx as int by {
                lemma_div_in_count(l2, spec_page_count(b1, r));
                let k1 = l as int / (PAGE_SIZE as int);
                let k2 = l2 / (PAGE_SIZE as int);
                let pg1 = spec_pages(b1, r)[k1];
                let pg2 = spec_pages(b1, r)[k2];
                if k1 == k2 {
                    lemma_phys_inj(pg1, l2 % (PAGE_SIZE as int), pg2, l as int % (PAGE_SIZE as int));
                } else {
                    assert(pg1 != pg2);
                    lemma_phys_inj(pg2, l2 % (PAGE_SIZE as int), pg1, l as int % (PAGE_SIZE as int));
                }
            }
            assert(spec_region_view(b2, r) =~= spec_region_view(b1, r).update(l as int, val));
            assert forall|r2: int| r2 != r implies spec_region_view(b2, r2) == spec_region_view(
                b1,
                r2,
            ) by {
                lemma_pages_upto_props(b1, r2, ndp);
                assert forall|l2: int| 0 <= l2 < spec_region_len(b1, r2) implies spec_phys(
                    b1,
                    r2,
                    l2,
                ) != idx as int by {
                    lemma_div_in_count(l2, spec_page_count(b1, r2));
                    let k2 = l2 / (PAGE_SIZE as int);
                    let pg2 = spec_pages(b1, r2)[k2];
                    let k1 = l as int / (PAGE_SIZE as int);
                    let pg1 = spec_pages(b1, r)[k1];
                    assert(spec_owner(b1, pg2) == r2 && spec_owner(b1, pg1) == r);
                    lemma_phys_inj(pg2, l2 % (PAGE_SIZE as int), pg1, l as int % (PAGE_SIZE as int));
                }
                assert(spec_region_view(b2, r2) =~= spec_region_view(b1, r2));
            }
        }
    }

    /// Bounds-checked read of `len` bytes at `offset` within the region.
    pub fn read(&self, h: &RegionHandle, offset: usize, len: usize) -> (res: Result<Vec<u8>, Error>)
        requires
            self.wf(),
            h.wf(),
        ensures
            res is Ok <==> offset + len <= self.region_len(h.id_spec()),
            res matches Ok(v) ==> v@ == self.region_view(h.id_spec()).subrange(
                offset as int,
                offset as int + len as int,
            ),
            res matches Err(e) ==> e == Error::OutOfBounds,
    {
        let rl = self.len_of(h);
        if len > rl || offset > rl - len {
            return Err(Error::OutOfBounds);
        }
        let mut out: Vec<u8> = Vec::new();
        let mut i: usize = 0;
        while i < len
            invariant
                self.wf(),
                h.wf(),
                i <= len,
                offset + len <= rl,
                rl as int == self.region_len(h.id_spec()),
                out@ == self.region_view(h.id_spec()).subrange(
                    offset as int,
                    offset as int + i as int,
                ),
            decreases len - i,
        {
            out.push(self.read_byte(h, offset + i));
            proof {
                assert(out@ =~= self.region_view(h.id_spec()).subrange(
                    offset as int,
                    offset as int + i as int + 1,
                ));
            }
            i = i + 1;
        }
        Ok(out)
    }

    /// Bounds-checked write of `data` at `offset` within the region.
    pub fn write(&mut self, h: &RegionHandle, offset: usize, data: &Vec<u8>) -> (res: Result<
        (),
        Error,
    >)
        requires
            old(self).wf(),
            h.wf(),
        ensures
            final(self).wf(),
            res is Ok <==> offset + data@.len() <= old(self).region_len(h.id_spec()),
            res matches Err(e) ==> e == Error::OutOfBounds && *final(self) == *old(self),
            res is Ok ==> {
                &&& final(self).num_pages() == old(self).num_pages()
                &&& forall|r2: int|
                    final(self).page_count(r2) == old(self).page_count(r2)
                &&& final(self).region_view(h.id_spec()) == old(self).region_view(
                    h.id_spec(),
                ).take(offset as int) + data@ + old(self).region_view(h.id_spec()).skip(
                    offset as int + data@.len() as int,
                )
                &&& forall|r2: int|
                    r2 != h.id_spec() ==> final(self).region_view(r2) == old(self).region_view(r2)
            },
    {
        let rl = self.len_of(h);
        let n = data.len();
        if n > rl || offset > rl - n {
            return Err(Error::OutOfBounds);
        }
        let ghost r = h.id_spec();
        let ghost view0 = old(self).region_view(r);
        let mut i: usize = 0;
        while i < n
            invariant
                self.wf(),
                h.wf(),
                h.id_spec() == r,
                i <= n,
                n == data@.len(),
                offset + n <= rl,
                rl as int == spec_region_len(self.backing(), r),
                self.num_pages() == old(self).num_pages(),
                forall|r2: int| spec_pages(self.backing(), r2) == spec_pages(
                    old(self).backing(),
                    r2,
                ),
                view0 == old(self).region_view(r),
                self.region_view(r) == view0.take(offset as int) + data@.subrange(0, i as int)
                    + view0.skip(offset as int + i as int),
                forall|r2: int| r2 != r ==> self.region_view(r2) == old(self).region_view(r2),
            decreases n - i,
        {
            let ghost pre = self.region_view(r);
            self.write_byte(h, offset + i, data[i]);
            proof {
                assert(self.region_view(r) == pre.update(offset as int + i as int, data@[i as int]));
                assert(self.region_view(r) =~= view0.take(offset as int) + data@.subrange(
                    0,
                    i as int + 1,
                ) + view0.skip(offset as int + i as int + 1));
            }
            i = i + 1;
        }
        proof {
            assert(data@.subrange(0, n as int) =~= data@);
        }
        Ok(())
    }

    /// Extends the region by `additional` fresh zeroed pages, returning the
    /// prior page count; fails with `Exhausted` when the backing memory has
    /// no room left.
    pub fn grow(&mut self, h: &RegionHandle, additional: usize) -> (res: Result<usize, Error>)
        requires
            old(self).wf(),
            h.wf(),
        ensures
            final(self).wf(),
            res is Ok <==> old(self).num_pages() + additional <= MAX_DATA_PAGES as int,
            res matches Err(e) ==> e == Error::Exhausted && *final(self) == *old(self),
            res matches Ok(oldc) ==> {
                &&& oldc as int == old(self).page_count(h.id_spec())
                &&& final(self).num_pages() == old(self).num_pages() + additional
                &&& final(self).page_count(h.id_spec()) == oldc as int + additional as int
                &&& final(self).region_view(h.id_spec()) == old(self).region_view(h.id_spec())
                    + Seq::new((additional as int * PAGE_SIZE as int) as nat, |i: int| 0u8)
                &&& forall|r2: int|
                    r2 != h.id_spec() ==> final(self).page_count(r2) == old(self).page_count(r2)
                        && final(self).region_view(r2) == old(self).region_view(r2)
            },
    {
        let rid = h.id();
        let ndp = self.num_pages_exec();
        if additional > MAX_DATA_PAGES - ndp {
            return Err(Error::Exhausted);
        }
        let oldc = self.count_pages(h);
        let ghost b1 = self.backing();
        let ghost r = h.id_spec();
        let ghost ndp2 = ndp as int + additional as int;
        // Append the fresh data pages as zero bytes.
        let total = additional * PAGE_SIZE;
        proof {
            assert(additional as int * PAGE_SIZE as int <= MAX_DATA_PAGES as int * PAGE_SIZE as int)
                by (nonlinear_arith)
                requires
                    0 <= (additional as int) <= MAX_DATA_PAGES as int,
            ;
        }
        let mut j: usize = 0;
        while j < total
            invariant
                j <= total,
                total == additional * PAGE_SIZE,
                self.mem@ == b1 + Seq::new(j as nat, |i: int| 0u8),
            decreases total - j,
        {
            self.mem.push(0);
            proof {
                assert(self.mem@ =~= b1 + Seq::new(j as nat + 1, |i: int| 0u8));
            }
            j = j + 1;
        }
        // Record the new pages' owner in the header.
        let mut a: usize = 0;
        while a < additional
            invariant
                a <= additional,
                ndp + additional <= MAX_DATA_PAGES,
                self.mem@.len() == b1.len() + additional as int * PAGE_SIZE as int,
                b1.len() == PAGE_SIZE * (1 + ndp as int),
                forall|k: int|
                    0 <= k < self.mem@.len() && !(8 + ndp as int <= k < 8 + ndp as int + a as int)
                        && k < b1.len() ==> self.mem@[k] == b1[k],
                forall|k: int| b1.len() <= k < self.mem@.len() && !(8 + ndp as int <= k < 8
                    + ndp as int + a as int) ==> self.mem@[k] == 0,
                forall|k: int|
                    8 + ndp as int <= k < 8 + ndp as int + a as int ==> self.mem@[k] == rid,
                rid as int == r,
            decreases additional - a,
        {
            self.mem.set(8 + ndp + a, rid);
            a = a + 1;
        }
        // Record the new page count.
        let ghost bmid = self.mem@;
        write_u64_at(&mut self.mem, 0, (ndp + additional) as u64);
        proof {
            let b2 = self.backing();
            lemma_auto_spec_u64_to_from_le_bytes();
            assert(b2.subrange(0, 8) =~= spec_u64_to_le_bytes((ndp2) as u64));
            assert(spec_num_pages(b2) == ndp2);
            assert(b2.len() == PAGE_SIZE * (1 + ndp2));
            assert forall|p: int| 0 <= p < ndp as int implies spec_owner(b2, p) == spec_owner(
                b1,
                p,
            ) by {
                assert(8 + p < PAGE_SIZE);
                assert(b2[8 + p] == bmid[8 + p]);
                assert(bmid[8 + p] == b1[8 + p]);
            }
            assert forall|p: int| ndp as int <= p < ndp2 implies spec_owner(b2, p) == r by {
                assert(8 + p < PAGE_SIZE);
                assert(b2[8 + p] == bmid[8 + p]);
            }
            assert(backing_wf(b2));
            // Region page lists: unchanged below ndp, extended for r.
            assert forall|r2: int|
                spec_pages_upto(b2, r2, ndp as int) == spec_pages_upto(b1, r2, ndp as int) by {
                lemma_pages_upto_frame(b1, b2, r2, ndp as int);
            }
            lemma_pages_upto_extend(b2, r, ndp as int, ndp2, r);
            assert(spec_pages(b2, r) == spec_pages(b1, r) + Seq::new(
                additional as nat,
                |i: int| ndp as int + i,
            ));
            assert forall|r2: int| r2 != r implies spec_pages(b2, r2) == spec_pages(b1, r2) by {
                lemma_pages_upto_extend(b2, r2, ndp as int, ndp2, r);
            }
            // Old bytes of every region are untouched; new bytes of r are zero.
            lemma_pages_upto_props(b1, r, ndp as int);
            lemma_pages_upto_props(b2, r, ndp2);
            assert forall|l: int| 0 <= l < spec_region_len(b2, r) implies spec_region_view(
                b2,
                r,
            )[l] == (spec_region_view(b1, r) + Seq::new(
                (additional as int * PAGE_SIZE as int) as nat,
                |i: int| 0u8,
            ))[l] by {
                lemma_div_in_count(l, spec_page_count(b2, r));
                let k = l / (PAGE_SIZE as int);
                let pg = spec_pages(b2, r)[k];
                let m = l % (PAGE_SIZE as int);
                if k < spec_page_count(b1, r) {
                    assert(pg == spec_pages(b1, r)[k]);
                    assert(0 <= pg < ndp as int);
                    assert(PAGE_SIZE * (1 + pg) + m < PAGE_SIZE * (1 + ndp as int))
                        by (nonlinear_arith)
                        requires
                            0 <= pg < ndp as int,
                            0 <= m < PAGE_SIZE,
                    ;
                    assert(l < spec_page_count(b1, r) * PAGE_SIZE) by (nonlinear_arith)
                        requires
                            l == (PAGE_SIZE as int) * k + m,
                            0 <= m < PAGE_SIZE,
                            k < spec_page_count(b1, r),
                            0 <= k,
                    ;
                    assert(PAGE_SIZE <= PAGE_SIZE * (1 + pg)) by (nonlinear_arith)
                        requires
                            0 <= pg,
                    ;
                    assert(b2[spec_phys(b2, r, l)] == b1[spec_phys(b1, r, l)]);
                } else {
                    assert(pg == ndp as int + (k - spec_page_count(b1, r)));
                    assert(PAGE_SIZE * (1 + pg) + m >= PAGE_SIZE * (1 + ndp as int))
                        by (nonlinear_arith)
                        requires
                            pg >= ndp as int,
                            m >= 0,
                    ;
                    assert(PAGE_SIZE * (1 + pg) + m < PAGE_SIZE * (1 + ndp2)) by (nonlinear_arith)
                        requires
                            pg < ndp2,
                            m < PAGE_SIZE,
                    ;
                    assert(b2[spec_phys(b2, r, l)] == 0);
                    assert(l >= spec_page_count(b1, r) * PAGE_SIZE) by (nonlinear_arith)
                        requires
                            l == (PAGE_SIZE as int) * k + m,
                            0 <= m,
                            k >= spec_page_count(b1, r),
                    ;
                }
            }
            assert(spec_region_view(b2, r) =~= spec_region_view(b1, r) + Seq::new(
                (additional as int * PAGE_SIZE as int) as nat,
                |i: int| 0u8,
            ));
            assert forall|r2: int| r2 != r implies spec_region_view(b2, r2) == spec_region_view(
                b1,
                r2,
            ) by {
                lemma_pages_upto_props(b1, r2, ndp as int);
                assert forall|l: int| 0 <= l < spec_region_len(b1, r2) implies spec_region_view(
                    b2,
                    r2,
                )[l] == spec_region_view(b1, r2)[l] by {
                    lemma_div_in_count(l, spec_page_count(b1, r2));
                    let k = l / (PAGE_SIZE as int);
                    let pg = spec_pages(b1, r2)[k];
                    let m = l % (PAGE_SIZE as int);
                    assert(0 <= pg < ndp as int);
                    assert(PAGE_SIZE <= PAGE_SIZE * (1 + pg) && PAGE_SIZE * (1 + pg) + m
                        < PAGE_SIZE * (1 + ndp as int)) by (nonlinear_arith)
                        requires
                            0 <= pg < ndp as int,
                            0 <= m < PAGE_SIZE,
                    ;
                    assert(b2[spec_phys(b2, r2, l)] == b1[spec_phys(b1, r2, l)]);
                }
                assert(spec_region_view(b2, r2) =~= spec_region_view(b1, r2));
            }
        }
        Ok(oldc)
    }
}

} // verus!
