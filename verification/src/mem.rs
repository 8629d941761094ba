//! The memory region manager: the set of mapped virtual pages of one
//! process, at page granularity, and the data-segment heap boundary.
use vstd::prelude::*;

use crate::PAGE_SIZE;

verus! {

/// One mapped virtual page and its permission bits.
#[derive(Clone, Copy, PartialEq, Eq, Structural, Debug)]
pub struct MappedPage {
    /// Virtual page number: the page covers addresses
    /// `[vpn * PAGE_SIZE, (vpn + 1) * PAGE_SIZE)`.
    pub vpn: usize,
    /// Permission bits: some non-empty subset of read (1), write (2),
    /// execute (4).
    pub perm: usize,
}

/// Whether some entry maps virtual page `vpn`.
pub open spec fn has_page(pages: Seq<MappedPage>, vpn: int) -> bool {
    exists|i: int| 0 <= i < pages.len() && pages[i].vpn == vpn
}

/// The permission bits recorded for virtual page `vpn` (meaningful only
/// when `has_page` holds and no page is recorded twice).
pub open spec fn page_perm(pages: Seq<MappedPage>, vpn: int) -> usize {
    pages[choose|i: int| 0 <= i < pages.len() && pages[i].vpn == vpn].perm
}

/// No virtual page is recorded twice.
pub open spec fn pages_unique(pages: Seq<MappedPage>) -> bool {
    forall|i: int, j: int| 0 <= i < j < pages.len() ==> pages[i].vpn != pages[j].vpn
}

/// First virtual page of the byte range starting at `start`.
pub open spec fn start_vpn(start: int) -> int {
    start / (PAGE_SIZE as int)
}

/// One past the last virtual page of the non-empty byte range
/// `[start, start + len)`.
pub open spec fn end_vpn(start: int, len: int) -> int {
    (start + len - 1) / (PAGE_SIZE as int) + 1
}

/// Whether virtual page `vpn` lies in the page range covering the bytes
/// `[start, start + len)`.
pub open spec fn in_vpn_range(vpn: int, start: int, len: int) -> bool {
    start_vpn(start) <= vpn < end_vpn(start, len)
}

/// An entry of a unique page list determines `has_page` and `page_perm`.
pub proof fn lemma_page_at(pages: Seq<MappedPage>, i: int)
    requires
        pages_unique(pages),
        0 <= i < pages.len(),
    ensures
        has_page(pages, pages[i].vpn as int),
        page_perm(pages, pages[i].vpn as int) == pages[i].perm,
{
    assert(has_page(pages, pages[i].vpn as int));
    let j = choose|j: int| 0 <= j < pages.len() && pages[j].vpn == pages[i].vpn as int;
    if i < j {
        assert(pages[i].vpn != pages[j].vpn);
    } else if j < i {
        assert(pages[j].vpn != pages[i].vpn);
    }
}

/// Removing entry `i` from a unique page list unmaps exactly that entry's
/// page and keeps every other page and its permission.
pub proof fn lemma_remove_page(pages: Seq<MappedPage>, i: int)
    requires
        pages_unique(pages),
        0 <= i < pages.len(),
    ensures
        pages_unique(pages.remove(i)),
        forall|w: int| #[trigger]
            has_page(pages.remove(i), w) <==> (has_page(pages, w) && w != pages[i].vpn as int),
        forall|w: int|
            has_page(pages.remove(i), w) ==> #[trigger] page_perm(pages.remove(i), w)
                == page_perm(pages, w),
{
    let r = pages.remove(i);
    pages.remove_ensures(i);
    assert forall|p: int, q: int| 0 <= p < q < r.len() implies r[p].vpn != r[q].vpn by {
        let p0: int = if p < i {
            p
        } else {
            p + 1
        };
        let q0: int = if q < i {
            q
        } else {
            q + 1
        };
        assert(r[p] == pages[p0] && r[q] == pages[q0]);
        assert(pages[p0].vpn != pages[q0].vpn);
    }
    assert forall|w: int| #[trigger]
        has_page(r, w) implies (has_page(pages, w) && w != pages[i].vpn as int) by {
        let k = choose|k: int| 0 <= k < r.len() && r[k].vpn == w;
        let k0: int = if k < i {
            k
        } else {
            k + 1
        };
        assert(r[k] == pages[k0]);
        assert(pages[k0].vpn == w);
        assert(k0 != i);
        if k0 < i {
            assert(pages[k0].vpn != pages[i].vpn);
        } else {
            assert(pages[i].vpn != pages[k0].vpn);
        }
    }
    assert forall|w: int| has_page(pages, w) && w != pages[i].vpn as int implies #[trigger]
        has_page(r, w) by {
        let k = choose|k: int| 0 <= k < pages.len() && pages[k].vpn == w;
        if k < i {
            assert(r[k] == pages[k]);
            assert(r[k].vpn == w);
        } else {
            assert(k != i);
            assert(r[k - 1] == pages[k]);
            assert(r[k - 1].vpn == w);
        }
    }
    assert forall|w: int| has_page(r, w) implies #[trigger] page_perm(r, w) == page_perm(
        pages,
        w,
    ) by {
        let k = choose|k: int| 0 <= k < r.len() && r[k].vpn == w;
        let k0: int = if k < i {
            k
        } else {
            k + 1
        };
        assert(r[k] == pages[k0]);
        lemma_page_at(r, k);
        lemma_page_at(pages, k0);
    }
}

/// The law of mapping and unmapping one range.  For any valid arguments —
/// `start` page-aligned, `len` positive, the range inside the address space
/// and previously free — a successful `map` leaves every page of the range
/// mapped with the requested permissions (`m1`), so access through the
/// mapping and a first `unmap` of the same range are owed success; after
/// that `unmap` (`m2`) no page of the range is mapped, so a second `unmap`
/// of the same range must fail.
pub proof fn lemma_map_unmap_roundtrip(
    m1: MemorySet,
    m2: MemorySet,
    start: usize,
    len: usize,
    perm: usize,
)
    requires
        len > 0,
        start + len <= usize::MAX,
        // m1 is some state after a successful map of the range
        forall|vpn: int|
            in_vpn_range(vpn, start as int, len as int) ==> #[trigger] m1.mapped(vpn)
                && m1.perm_of(vpn) == perm,
        // m2 is m1 after a successful unmap of the range
        forall|vpn: int| #[trigger]
            m2.mapped(vpn) == (m1.mapped(vpn) && !in_vpn_range(vpn, start as int, len as int)),
    ensures
        // the first unmap's success condition held in m1
        forall|vpn: int|
            in_vpn_range(vpn, start as int, len as int) ==> #[trigger] m1.mapped(vpn)
                && m1.perm_of(vpn) == perm,
        // and a second unmap of the same range cannot succeed in m2
        !(forall|vpn: int|
            in_vpn_range(vpn, start as int, len as int) ==> #[trigger] m2.mapped(vpn)),
{
    let sv = start_vpn(start as int);
    assert(in_vpn_range(sv, start as int, len as int)) by {
        vstd::arithmetic::div_mod::lemma_div_is_ordered(
            start as int,
            start as int + len as int - 1,
            PAGE_SIZE as int,
        );
    }
    assert(!m2.mapped(sv));
}

/// The memory regions of one process.
pub struct MemorySet {
    /// Every currently mapped page, each recorded once.
    pub pages: Vec<MappedPage>,
    /// Lowest address the data-segment heap may shrink to.
    pub heap_bottom: usize,
    /// Current data-segment boundary (the program break).
    pub brk: usize,
}

impl MemorySet {
    /// Internal consistency: no page mapped twice and the heap boundary not
    /// below its floor.
    pub open spec fn wf(self) -> bool {
        &&& pages_unique(self.pages@)
        &&& self.heap_bottom <= self.brk
    }

    /// Whether virtual page `vpn` is currently mapped.
    pub open spec fn mapped(self, vpn: int) -> bool {
        has_page(self.pages@, vpn)
    }

    /// Permission bits of a currently mapped page.
    pub open spec fn perm_of(self, vpn: int) -> usize {
        page_perm(self.pages@, vpn)
    }

    /// A fresh address space with no mappings and an empty heap at
    /// `heap_bottom`.
    pub fn new(heap_bottom: usize) -> (m: MemorySet)
        ensures
            m.wf(),
            m.pages@ == Seq::<MappedPage>::empty(),
            m.heap_bottom == heap_bottom,
            m.brk == heap_bottom,
    {
        MemorySet { pages: Vec::new(), heap_bottom, brk: heap_bottom }
    }

    /// Position of the entry mapping `vpn`, if the page is mapped.
    fn find_page(&self, vpn: usize) -> (r: Option<usize>)
        ensures
            match r {
                Some(i) => i < self.pages@.len() && self.pages@[i as int].vpn == vpn,
                None => !self.mapped(vpn as int),
            },
    {
        let n = self.pages.len();
        let mut i: usize = 0;
        while i < n
            invariant
                i <= n,
                n == self.pages@.len(),
                forall|k: int| 0 <= k < i ==> self.pages@[k].vpn != vpn,
            decreases n - i,
        {
            if self.pages[i].vpn == vpn {
                return Some(i);
            }
            i = i + 1;
        }
        None
    }

    /// Establish a new mapping for the non-empty, page-aligned byte range
    /// `[start, start + len)` with permission bits `perm`.  Succeeds exactly
    /// when the range fits in the address space and none of its pages is
    /// already mapped; on failure nothing changes.
    #[verifier::loop_isolation(false)]
    pub fn map_region(&mut self, start: usize, len: usize, perm: usize) -> (ok: bool)
        requires
            old(self).wf(),
            len > 0,
            start as int % (PAGE_SIZE as int) == 0,
        ensures
            final(self).wf(),
            final(self).heap_bottom == old(self).heap_bottom,
            final(self).brk == old(self).brk,
            ok == (start + len <= usize::MAX && (forall|vpn: int|
                in_vpn_range(vpn, start as int, len as int) ==> !old(self).mapped(vpn))),
            !ok ==> *final(self) == *old(self),
            ok ==> forall|vpn: int|
                in_vpn_range(vpn, start as int, len as int) ==> #[trigger] final(self).mapped(vpn)
                    && final(self).perm_of(vpn) == perm,
            ok ==> forall|vpn: int|
                !in_vpn_range(vpn, start as int, len as int) ==> (#[trigger] final(self).mapped(vpn)
                    == old(self).mapped(vpn) && (final(self).mapped(vpn) ==> final(self).perm_of(vpn)
                    == old(self).perm_of(vpn))),
    {
        if len > usize::MAX - start {
            return false;
        }
        let end = start + len;
        let svpn = start / PAGE_SIZE;
        let evpn = (end - 1) / PAGE_SIZE + 1;
        proof {
            assert(svpn == start_vpn(start as int));
            assert(evpn == end_vpn(start as int, len as int));
            assert(svpn < evpn) by {
                assert(start as int <= start as int + len as int - 1);
                assert(start as int / (PAGE_SIZE as int) <= (start as int + len as int - 1) / (
                PAGE_SIZE as int)) by {
                    vstd::arithmetic::div_mod::lemma_div_is_ordered(
                        start as int,
                        start as int + len as int - 1,
                        PAGE_SIZE as int,
                    );
                }
            }
        }
        let mut v = svpn;
        while v < evpn
            invariant
                svpn <= v <= evpn,
                self == old(self),
                self.wf(),
                forall|w: int| svpn <= w < v ==> !self.mapped(w),
            decreases evpn - v,
        {
            match self.find_page(v) {
                Some(i) => {
                    proof {
                        assert(self.pages@[i as int].vpn == v);
                        assert(old(self).mapped(v as int));
                        assert(in_vpn_range(v as int, start as int, len as int));
                    }
                    return false;
                },
                None => {},
            }
            v = v + 1;
        }
        let ghost base = self.pages@;
        let ghost n0 = base.len() as int;
        let mut v = svpn;
        while v < evpn
            invariant
                svpn <= v <= evpn,
                self.heap_bottom == old(self).heap_bottom,
                self.brk == old(self).brk,
                base == old(self).pages@,
                forall|w: int| svpn <= w < evpn ==> !old(self).mapped(w),
                self.pages@ =~= base + Seq::new(
                    (v - svpn) as nat,
                    |k: int| MappedPage { vpn: (svpn + k) as usize, perm },
                ),
            decreases evpn - v,
        {
            self.pages.push(MappedPage { vpn: v, perm });
            proof {
                assert(self.pages@ =~= base + Seq::new(
                    (v + 1 - svpn) as nat,
                    |k: int| MappedPage { vpn: (svpn + k) as usize, perm },
                ));
            }
            v = v + 1;
        }
        proof {
            let fin = self.pages@;
            assert forall|p: int, q: int| 0 <= p < q < fin.len() implies fin[p].vpn
                != fin[q].vpn by {
                if q >= n0 {
                    assert(fin[q].vpn == svpn + (q - n0));
                    if p >= n0 {
                        assert(fin[p].vpn == svpn + (p - n0));
                    } else {
                        assert(fin[p] == base[p]);
                        lemma_page_at(base, p);
                        assert(!old(self).mapped(fin[q].vpn as int));
                    }
                }
            }
            assert forall|vpn: int| in_vpn_range(vpn, start as int, len as int) implies #[trigger]
                self.mapped(vpn) && self.perm_of(vpn) == perm by {
                let k = n0 + (vpn - svpn);
                assert(fin[k].vpn == vpn && fin[k].perm == perm);
                lemma_page_at(fin, k);
            }
            assert forall|vpn: int| !in_vpn_range(vpn, start as int, len as int) implies (
            #[trigger] self.mapped(vpn) == old(self).mapped(vpn) && (self.mapped(vpn)
                ==> self.perm_of(vpn) == old(self).perm_of(vpn))) by {
                if self.mapped(vpn) {
                    let k = choose|k: int| 0 <= k < fin.len() && fin[k].vpn == vpn;
                    assert(k < n0) by {
                        if k >= n0 {
                            assert(fin[k].vpn == svpn + (k - n0));
                        }
                    }
                    assert(base[k].vpn == vpn);
                    lemma_page_at(base, k);
                    lemma_page_at(fin, k);
                }
                if old(self).mapped(vpn) {
                    let k = choose|k: int| 0 <= k < base.len() && base[k].vpn == vpn;
                    assert(fin[k].vpn == vpn);
                    assert(self.mapped(vpn));
                }
            }
        }
        true
    }

    /// Remove the mapping of every page of the non-empty byte range
    /// `[start, start + len)`.  Succeeds exactly when the range fits in the
    /// address space and every one of its pages is currently mapped; on
    /// failure nothing changes.
    #[verifier::loop_isolation(false)]
    pub fn unmap_region(&mut self, start: usize, len: usize) -> (ok: bool)
        requires
            old(self).wf(),
            len > 0,
        ensures
            final(self).wf(),
            final(self).heap_bottom == old(self).heap_bottom,
            final(self).brk == old(self).brk,
            ok == (start + len <= usize::MAX && (forall|vpn: int|
                in_vpn_range(vpn, start as int, len as int) ==> old(self).mapped(vpn))),
            !ok ==> *final(self) == *old(self),
            ok ==> forall|vpn: int| #[trigger]
                final(self).mapped(vpn) == (old(self).mapped(vpn) && !in_vpn_range(
                    vpn,
                    start as int,
                    len as int,
                )),
            ok ==> forall|vpn: int|
                #[trigger] final(self).mapped(vpn) ==> final(self).perm_of(vpn) == old(self).perm_of(vpn),
    {
        if len > usize::MAX - start {
            return false;
        }
        let end = start + len;
        let svpn = start / PAGE_SIZE;
        let evpn = (end - 1) / PAGE_SIZE + 1;
        proof {
            assert(svpn == start_vpn(start as int));
            assert(evpn == end_vpn(start as int, len as int));
            assert(svpn < evpn) by {
                vstd::arithmetic::div_mod::lemma_div_is_ordered(
                    start as int,
                    start as int + len as int - 1,
                    PAGE_SIZE as int,
                );
            }
        }
        let mut v = svpn;
        while v < evpn
            invariant
                svpn <= v <= evpn,
                self == old(self),
                self.wf(),
                forall|w: int| svpn <= w < v ==> self.mapped(w),
            decreases evpn - v,
        {
            match self.find_page(v) {
                Some(i) => {
                    proof {
                        assert(self.pages@[i as int].vpn == v);
                        assert(self.mapped(v as int));
                    }
                },
                None => {
                    proof {
                        assert(in_vpn_range(v as int, start as int, len as int));
                    }
                    return false;
                },
            }
            v = v + 1;
        }
        proof {
            assert forall|w: int| svpn <= w < evpn implies #[trigger] has_page(self.pages@, w) by {
                assert(self.mapped(w));
            }
        }
        let mut v = svpn;
        while v < evpn
            invariant
                svpn <= v <= evpn,
                self.heap_bottom == old(self).heap_bottom,
                self.brk == old(self).brk,
                pages_unique(self.pages@),
                forall|w: int| svpn <= w < v ==> !has_page(self.pages@, w),
                forall|w: int| v <= w < evpn ==> #[trigger] has_page(self.pages@, w),
                forall|w: int|
                    !(svpn <= w < v) ==> (#[trigger] has_page(self.pages@, w) == has_page(
                        old(self).pages@,
                        w,
                    ) && (has_page(self.pages@, w) ==> page_perm(self.pages@, w) == page_perm(
                        old(self).pages@,
                        w,
                    ))),
            decreases evpn - v,
        {
            let i = match self.find_page(v) {
                Some(i) => i,
                None => {
                    proof {
                        assert(false);
                    }
                    0
                },
            };
            let ghost prev = self.pages@;
            proof {
                lemma_remove_page(prev, i as int);
            }
            self.pages.remove(i);
            proof {
                let cur = self.pages@;
                assert(cur == prev.remove(i as int));
                assert(prev[i as int].vpn == v);
                assert forall|w: int| svpn <= w <= v implies !has_page(cur, w) by {
                    assert(has_page(cur, w) <==> (has_page(prev, w) && w != v as int));
                }
                assert forall|w: int| v + 1 <= w < evpn implies #[trigger] has_page(cur, w) by {
                    assert(has_page(cur, w) <==> (has_page(prev, w) && w != v as int));
                }
                assert forall|w: int| !(svpn <= w <= v) implies (#[trigger] has_page(cur, w)
                    == has_page(old(self).pages@, w) && (has_page(cur, w) ==> page_perm(cur, w)
                    == page_perm(old(self).pages@, w))) by {
                    assert(has_page(cur, w) <==> (has_page(prev, w) && w != v as int));
                    if has_page(cur, w) {
                        assert(page_perm(cur, w) == page_perm(prev, w));
                    }
                }
            }
            v = v + 1;
        }
        true
    }

    /// Grow or shrink the data segment by `delta` bytes.  Returns the old
    /// boundary, or nothing — leaving the boundary unchanged — when the new
    /// boundary would fall below the heap floor or outside the address
    /// space.
    pub fn change_brk(&mut self, delta: i32) -> (r: Option<usize>)
        requires
            old(self).wf(),
        ensures
            final(self).wf(),
            final(self).pages@ == old(self).pages@,
            final(self).heap_bottom == old(self).heap_bottom,
            match r {
                Some(old_brk) => old_brk == old(self).brk && old(self).heap_bottom <= old(self).brk
                    + delta <= usize::MAX && final(self).brk == old(self).brk + delta,
                None => *final(self) == *old(self) && !(old(self).heap_bottom <= old(self).brk
                    + delta <= usize::MAX),
            },
    {
        let new_brk: i128 = self.brk as i128 + delta as i128;
        if new_brk < self.heap_bottom as i128 || new_brk > usize::MAX as i128 {
            None
        } else {
            let old_brk = self.brk;
            self.brk = new_brk as usize;
            Some(old_brk)
        }
    }
}

} // verus!
