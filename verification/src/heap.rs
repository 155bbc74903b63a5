//! The allocator core: a segregated free-list index over a list of
//! regions, and the four public operations.

use vstd::prelude::*;
use crate::layout::ALIGN;
use crate::layout::HEADER_SIZE;
use crate::layout::MIN_BLOCK;
use crate::layout::MIN_REGION;
use crate::layout::NUM_CLASSES;
use crate::layout::PAGE;
use crate::layout::block_size_spec;
use crate::layout::block_size_for;
use crate::layout::class_of;
use crate::layout::class_of_spec;
use crate::layout::lemma_class_monotone;
use crate::layout::region_len_spec;
use crate::layout::region_len_for;
use crate::region::BlockInfo;
use crate::region::Region;

verus! {

/// A handle standing for a payload pointer: the region it lives in and
/// the payload's byte offset within that region.
#[derive(Clone, Copy, Debug, PartialEq, Eq, Structural)]
pub struct Ptr {
    pub region: usize,
    pub off: usize,
}

/// One free-list entry: the region, header offset and total size of a
/// free block.
#[derive(Clone, Copy, PartialEq, Eq, Structural)]
pub struct Entry {
    pub region: usize,
    pub off: usize,
    pub size: usize,
}

/// The allocator: the ordered region list, the segregated free-list
/// buckets, and the number of bytes the region source will still grant
/// before reporting out-of-memory.
pub struct Allocator {
    pub regions: Vec<Region>,
    pub buckets: Vec<Vec<Entry>>,
    pub budget: usize,
}

impl Allocator {
    /// The entry names a block that is present, free, and of the
    /// recorded size.
    pub open spec fn entry_points_to_free(self, e: Entry) -> bool {
        &&& e.region < self.regions.len()
        &&& exists|i: int|
            {
                &&& 0 <= i < self.regions[e.region as int].blocks.len()
                &&& (#[trigger] self.regions[e.region as int].blocks[i]).off == e.off
                &&& self.regions[e.region as int].blocks[i].size == e.size
                &&& !self.regions[e.region as int].blocks[i].used
            }
    }

    /// The entry is present in the bucket of its size class.
    pub open spec fn has_entry(self, e: Entry) -> bool {
        exists|j: int|
            0 <= j < self.buckets[class_of_spec(e.size as int)].len()
                && (#[trigger] self.buckets[class_of_spec(e.size as int)][j]) == e
    }

    /// The free-list index mirrors exactly the free blocks: every entry
    /// names a free block in the bucket of its class, no block is listed
    /// twice, and every free block is listed.
    pub open spec fn index_wf(self) -> bool {
        &&& self.buckets.len() == NUM_CLASSES
        &&& forall|k: int, j: int|
            0 <= k < self.buckets.len() && 0 <= j < self.buckets[k].len()
                ==> self.entry_points_to_free(#[trigger] self.buckets[k][j])
                && class_of_spec(self.buckets[k][j].size as int) == k
        &&& forall|k: int, j1: int, j2: int|
            0 <= k < self.buckets.len() && 0 <= j1 < j2 < self.buckets[k].len() ==> !((
            #[trigger] self.buckets[k][j1]).region == (#[trigger] self.buckets[k][j2]).region
                && self.buckets[k][j1].off == self.buckets[k][j2].off)
        &&& forall|r: int, i: int|
            0 <= r < self.regions.len() && 0 <= i < self.regions[r].blocks.len() && !(
            #[trigger] self.regions[r].blocks[i]).used ==> self.has_entry(
                Entry {
                    region: r as usize,
                    off: self.regions[r].blocks[i].off,
                    size: self.regions[r].blocks[i].size,
                },
            )
    }

    /// Full structural soundness of the allocator.
    pub open spec fn wf(self) -> bool {
        &&& forall|r: int| 0 <= r < self.regions.len() ==> (#[trigger] self.regions[r]).wf()
        &&& self.index_wf()
    }

    /// Block `i` of `p`'s region is the in-use block whose payload starts
    /// at `p.off`.
    pub open spec fn backs(self, p: Ptr, i: int) -> bool {
        &&& p.region < self.regions.len()
        &&& 0 <= i < self.regions[p.region as int].blocks.len()
        &&& self.regions[p.region as int].blocks[i].used
        &&& self.regions[p.region as int].blocks[i].off + HEADER_SIZE == p.off
    }

    /// The handle stands for a live allocation.
    pub open spec fn ptr_valid(self, p: Ptr) -> bool {
        exists|i: int| self.backs(p, i)
    }

    /// Index of the block backing a valid handle.
    pub open spec fn blk(self, p: Ptr) -> int {
        choose|i: int| self.backs(p, i)
    }

    /// Payload capacity of a live allocation, in bytes.
    pub open spec fn cap(self, p: Ptr) -> int {
        self.regions[p.region as int].blocks[self.blk(p)].size - HEADER_SIZE
    }

    /// Payload bytes of a live allocation.
    pub open spec fn data(self, p: Ptr) -> Seq<u8> {
        self.regions[p.region as int].mem@.subrange(p.off as int, p.off + self.cap(p))
    }

    /// Only one block backs a given handle.
    pub proof fn lemma_backs_unique(self, p: Ptr, i: int, j: int)
        requires
            self.regions[p.region as int].wf(),
            self.backs(p, i),
            self.backs(p, j),
        ensures
            i == j,
    {
        self.regions[p.region as int].lemma_off_unique(i, j);
    }

    /// `blk` picks exactly the backing block.
    pub proof fn lemma_blk_is(self, p: Ptr, i: int)
        requires
            self.regions[p.region as int].wf(),
            self.backs(p, i),
        ensures
            self.blk(p) == i,
            self.ptr_valid(p),
            self.cap(p) == self.regions[p.region as int].blocks[i].size - HEADER_SIZE,
    {
        let j = choose|j: int| self.backs(p, j);
        self.lemma_backs_unique(p, i, j);
    }

    /// A fresh allocator with nothing yet acquired from the region
    /// source, which will grant at most `budget` bytes in total.
    pub fn new(budget: usize) -> (a: Allocator)
        ensures
            a.wf(),
            a.regions.len() == 0,
            a.budget == budget,
            forall|p: Ptr| !a.ptr_valid(p),
    {
        let mut buckets: Vec<Vec<Entry>> = Vec::new();
        let mut k: usize = 0;
        while k < NUM_CLASSES
            invariant
                0 <= k <= NUM_CLASSES,
                buckets.len() == k,
                forall|x: int| 0 <= x < k ==> (#[trigger] buckets[x]).len() == 0,
            decreases NUM_CLASSES - k,
        {
            buckets.push(Vec::new());
            k = k + 1;
        }
        let a = Allocator { regions: Vec::new(), buckets, budget };
        proof {
            assert(forall|p: Ptr, i: int| !a.backs(p, i));
        }
        a
    }

    /// The debug-mode ownership guard: reports whether a handle stands
    /// for a live allocation of this allocator.
    pub fn owns(&self, p: Ptr) -> (r: bool)
        requires
            self.wf(),
        ensures
            r == self.ptr_valid(p),
    {
        if p.region >= self.regions.len() {
            proof {
                assert(forall|i: int| !self.backs(p, i));
            }
            return false;
        }
        if p.off < HEADER_SIZE {
            proof {
                assert(forall|i: int| !self.backs(p, i));
            }
            return false;
        }
        let reg = &self.regions[p.region];
        match reg.find_block(p.off - HEADER_SIZE) {
            Some(i) => {
                if reg.blocks[i].used {
                    proof {
                        assert(self.backs(p, i as int));
                    }
                    true
                } else {
                    proof {
                        assert forall|j: int| !self.backs(p, j) by {
                            if self.backs(p, j) {
                                reg.lemma_off_unique(i as int, j);
                            }
                        }
                    }
                    false
                }
            },
            None => {
                proof {
                    assert(forall|j: int| !self.backs(p, j));
                }
                false
            },
        }
    }

    /// Some free block somewhere can hold a block of `need` bytes.
    pub open spec fn fits_free(self, need: int) -> bool {
        exists|r: int, i: int|
            {
                &&& 0 <= r < self.regions.len()
                &&& 0 <= i < self.regions[r].blocks.len()
                &&& !(#[trigger] self.regions[r].blocks[i]).used
                &&& self.regions[r].blocks[i].size >= need
            }
    }

    /// First-fit search within the segregated classes: scan the buckets
    /// from the class of the request upward, newest entries first.
    fn index_find(&self, need: usize) -> (r: Option<(usize, usize)>)
        requires
            self.wf(),
        ensures
            match r {
                Some((k, j)) => {
                    &&& k < self.buckets.len()
                    &&& j < self.buckets[k as int].len()
                    &&& self.buckets[k as int][j as int].size >= need
                },
                None => forall|k: int, j: int|
                    class_of_spec(need as int) <= k < self.buckets.len() && 0 <= j
                        < self.buckets[k].len() ==> (#[trigger] self.buckets[k][j]).size < need,
            },
    {
        let mut k = class_of(need);
        while k < NUM_CLASSES
            invariant
                self.wf(),
                class_of_spec(need as int) <= k <= NUM_CLASSES,
                forall|x: int, j: int|
                    class_of_spec(need as int) <= x < k && 0 <= j < self.buckets[x].len() ==> (
                    #[trigger] self.buckets[x][j]).size < need,
            decreases NUM_CLASSES - k,
        {
            let b = &self.buckets[k];
            let mut j = b.len();
            while j > 0
                invariant
                    self.wf(),
                    k < self.buckets.len(),
                    b == &self.buckets[k as int],
                    j <= b.len(),
                    forall|y: int| j <= y < b.len() ==> (#[trigger] b[y]).size < need,
                decreases j,
            {
                j = j - 1;
                if b[j].size >= need {
                    return Some((k, j));
                }
            }
            k = k + 1;
        }
        None
    }

    /// If the index holds nothing fitting at or above the request's
    /// class, no free block anywhere fits the request.
    proof fn lemma_no_fit(self, need: usize)
        requires
            self.wf(),
            forall|k: int, j: int|
                class_of_spec(need as int) <= k < self.buckets.len() && 0 <= j
                    < self.buckets[k].len() ==> (#[trigger] self.buckets[k][j]).size < need,
        ensures
            !self.fits_free(need as int),
    {
        assert forall|r: int, i: int|
            0 <= r < self.regions.len() && 0 <= i < self.regions[r].blocks.len() && !(
            #[trigger] self.regions[r].blocks[i]).used implies self.regions[r].blocks[i].size
            < need by {
            let b = self.regions[r].blocks[i];
            let e = Entry { region: r as usize, off: b.off, size: b.size };
            assert(self.has_entry(e));
            let kc = class_of_spec(e.size as int);
            if b.size >= need {
                lemma_class_monotone(need as int, b.size as int);
            }
        }
    }

    /// Detaches the entry at position `j` of bucket `k`, keeping the
    /// order of the remaining entries.
    fn index_unlink_at(&mut self, k: usize, j: usize) -> (e: Entry)
        requires
            k < old(self).buckets.len(),
            j < old(self).buckets[k as int].len(),
        ensures
            e == old(self).buckets[k as int][j as int],
            final(self).buckets.len() == old(self).buckets.len(),
            forall|x: int|
                0 <= x < old(self).buckets.len() && x != k ==> final(self).buckets[x] == old(self).buckets[x],
            final(self).buckets[k as int]@ == old(self).buckets[k as int]@.remove(j as int),
            final(self).regions == old(self).regions,
            final(self).budget == old(self).budget,
    {
        self.buckets[k].remove(j)
    }

    /// Finds and detaches the entry naming the free block at header
    /// offset `off` of region `r`, whose size is `size`.
    fn index_unlink(&mut self, r: usize, off: usize, size: usize) -> (res: (usize, usize))
        requires
            old(self).wf(),
            old(self).has_entry(Entry { region: r, off, size }),
        ensures
            ({
                let (k, j) = res;
                &&& k == class_of_spec(size as int)
                &&& k < old(self).buckets.len()
                &&& j < old(self).buckets[k as int].len()
                &&& old(self).buckets[k as int][j as int] == (Entry { region: r, off, size })
                &&& final(self).buckets.len() == old(self).buckets.len()
                &&& forall|x: int|
                    0 <= x < old(self).buckets.len() && x != k ==> final(self).buckets[x] == old(self).buckets[x]
                &&& final(self).buckets[k as int]@ == old(self).buckets[k as int]@.remove(j as int)
                &&& final(self).regions == old(self).regions
                &&& final(self).budget == old(self).budget
            }),
    {
        let e = Entry { region: r, off, size };
        let k = class_of(size);
        let n = self.buckets[k].len();
        let mut j: usize = 0;
        while j < n
            invariant
                *self == *old(self),
                k == class_of_spec(size as int),
                k < self.buckets.len(),
                n == self.buckets[k as int].len(),
                0 <= j <= n,
                e == (Entry { region: r, off, size }),
                self.has_entry(e),
                forall|y: int| 0 <= y < j ==> self.buckets[k as int][y] != e,
            decreases n - j,
        {
            let c = self.buckets[k][j];
            if c.region == r && c.off == off && c.size == size {
                let _ = self.index_unlink_at(k, j);
                return (k, j);
            }
            j = j + 1;
        }
        proof {
            let w = choose|w: int|
                0 <= w < self.buckets[class_of_spec(e.size as int)].len() && (
                #[trigger] self.buckets[class_of_spec(e.size as int)][w]) == e;
            assert(false);
        }
        vstd::pervasive::unreached()
    }

    /// Acquires a fresh region of `rlen` bytes from the region source and
    /// hands its whole span to the free-list index as one free block.
    #[verifier::rlimit(100)]
    fn grow_region(&mut self, rlen: usize)
        requires
            old(self).wf(),
            rlen as int % (PAGE as int) == 0,
            rlen >= MIN_REGION,
            rlen <= old(self).budget,
        ensures
            final(self).wf(),
            final(self).regions.len() == old(self).regions.len() + 1,
            final(self).regions@.subrange(0, old(self).regions.len() as int)
                == old(self).regions@,
            final(self).regions[old(self).regions.len() as int].blocks.len() == 1,
            final(self).regions[old(self).regions.len() as int].blocks[0] == (BlockInfo {
                off: 0,
                size: rlen,
                used: false,
            }),
            final(self).budget == old(self).budget - rlen,
            forall|q: Ptr| final(self).ptr_valid(q) <==> old(self).ptr_valid(q),
            forall|q: Ptr|
                old(self).ptr_valid(q) ==> final(self).cap(q) == old(self).cap(q)
                    && final(self).data(q) == old(self).data(q),
            final(self).fits_free(rlen as int),
    {
        let ghost s0 = *old(self);
        let mut mem: Vec<u8> = Vec::new();
        while mem.len() < rlen
            invariant
                mem.len() <= rlen,
            decreases rlen - mem.len(),
        {
            mem.push(0u8);
        }
        let mut blocks: Vec<BlockInfo> = Vec::new();
        blocks.push(BlockInfo { off: 0, size: rlen, used: false });
        let reg = Region { mem, blocks };
        let ridx = self.regions.len();
        self.regions.push(reg);
        self.budget = self.budget - rlen;
        let e = Entry { region: ridx, off: 0, size: rlen };
        let kc = class_of(rlen);
        self.buckets[kc].push(e);
        proof {
            let s = *self;
            assert(s.regions[ridx as int].wf());
            assert forall|r: int| 0 <= r < s.regions.len() implies (#[trigger] s.regions[r]).wf() by {
                if r < ridx {
                    assert(s.regions[r] == s0.regions[r]);
                }
            }
            // index soundness
            assert forall|k: int, j: int|
                0 <= k < s.buckets.len() && 0 <= j < s.buckets[k].len() implies s
                .entry_points_to_free(#[trigger] s.buckets[k][j]) && class_of_spec(
                s.buckets[k][j].size as int,
            ) == k by {
                if k == kc && j == s.buckets[k].len() - 1 {
                    assert(s.buckets[k][j] == e);
                    assert(s.regions[ridx as int].blocks[0].off == e.off);
                } else {
                    let e2 = s.buckets[k][j];
                    assert(e2 == s0.buckets[k][j]);
                    assert(s0.entry_points_to_free(e2));
                    let i2 = choose|i2: int|
                        {
                            &&& 0 <= i2 < s0.regions[e2.region as int].blocks.len()
                            &&& (#[trigger] s0.regions[e2.region as int].blocks[i2]).off == e2.off
                            &&& s0.regions[e2.region as int].blocks[i2].size == e2.size
                            &&& !s0.regions[e2.region as int].blocks[i2].used
                        };
                    assert(s.regions[e2.region as int] == s0.regions[e2.region as int]);
                    assert(s.regions[e2.region as int].blocks[i2].off == e2.off);
                }
            }
            // no duplicates
            assert forall|k: int, j1: int, j2: int|
                0 <= k < s.buckets.len() && 0 <= j1 < j2 < s.buckets[k].len() implies !((
            #[trigger] s.buckets[k][j1]).region == (#[trigger] s.buckets[k][j2]).region
                && s.buckets[k][j1].off == s.buckets[k][j2].off) by {
                if k == kc && j2 == s.buckets[k].len() - 1 {
                    assert(s.buckets[k][j1] == s0.buckets[k][j1]);
                    assert(s0.entry_points_to_free(s0.buckets[k][j1]));
                    assert(s.buckets[k][j1].region < ridx);
                } else {
                    assert(s.buckets[k][j1] == s0.buckets[k][j1]);
                    assert(s.buckets[k][j2] == s0.buckets[k][j2]);
                }
            }
            // completeness
            assert forall|r: int, i: int|
                0 <= r < s.regions.len() && 0 <= i < s.regions[r].blocks.len() && !(
            #[trigger] s.regions[r].blocks[i]).used implies s.has_entry(
                Entry { region: r as usize, off: s.regions[r].blocks[i].off, size: s.regions[r].blocks[i].size },
            ) by {
                let e3 = Entry {
                    region: r as usize,
                    off: s.regions[r].blocks[i].off,
                    size: s.regions[r].blocks[i].size,
                };
                if r == ridx {
                    assert(e3 == e);
                    assert(s.buckets[kc as int][s.buckets[kc as int].len() - 1] == e);
                } else {
                    assert(s.regions[r] == s0.regions[r]);
                    assert(s0.has_entry(e3));
                    let j3 = choose|j3: int|
                        0 <= j3 < s0.buckets[class_of_spec(e3.size as int)].len() && (
                        #[trigger] s0.buckets[class_of_spec(e3.size as int)][j3]) == e3;
                    assert(s.buckets[class_of_spec(e3.size as int)][j3] == e3);
                }
            }
            // pointer set unchanged
            assert forall|q: Ptr| s.ptr_valid(q) <==> s0.ptr_valid(q) by {
                if s0.ptr_valid(q) {
                    let w = choose|w: int| s0.backs(q, w);
                    assert(s.regions[q.region as int] == s0.regions[q.region as int]);
                    assert(s.backs(q, w));
                }
                if s.ptr_valid(q) {
                    let w = choose|w: int| s.backs(q, w);
                    if q.region == ridx {
                        assert(!s.regions[ridx as int].blocks[w].used);
                    } else {
                        assert(s.regions[q.region as int] == s0.regions[q.region as int]);
                        assert(s0.backs(q, w));
                    }
                }
            }
            assert forall|q: Ptr| s0.ptr_valid(q) implies s.cap(q) == s0.cap(q) && s.data(q)
                == s0.data(q) by {
                let w = choose|w: int| s0.backs(q, w);
                assert(s.regions[q.region as int] == s0.regions[q.region as int]);
                assert(s.backs(q, w));
                s.lemma_blk_is(q, w);
                s0.lemma_blk_is(q, w);
            }
            assert(s.regions[ridx as int].blocks[0].size >= rlen);
        }
    }

    /// Carves a block of `need` bytes out of the free block named by the
    /// bucket entry at `(k, j)`: the entry leaves the index, the block is
    /// split when the remainder is worth keeping, and the carved block is
    /// marked in use.
    fn carve(&mut self, k: usize, j: usize, need: usize) -> (p: Ptr)
        requires
            old(self).wf(),
            k < old(self).buckets.len(),
            j < old(self).buckets[k as int].len(),
            old(self).buckets[k as int][j as int].size >= need,
            need as int % (ALIGN as int) == 0,
            MIN_BLOCK <= need,
        ensures
            final(self).wf(),
            final(self).ptr_valid(p),
            !old(self).ptr_valid(p),
            p.off as int % (ALIGN as int) == 0,
            final(self).cap(p) + HEADER_SIZE >= need,
            forall|q: Ptr|
                old(self).ptr_valid(q) ==> final(self).ptr_valid(q) && final(self).cap(q) == old(self).cap(q) && final(self).data(q) == old(self).data(q),
            forall|q: Ptr| final(self).ptr_valid(q) && q != p ==> old(self).ptr_valid(q),
            final(self).regions.len() == old(self).regions.len(),
            final(self).budget == old(self).budget,
    {
        let e = self.buckets[k][j];
        proof {
            assert(self.entry_points_to_free(e));
        }
        let ghost i0 = choose|i0: int|
            {
                &&& 0 <= i0 < self.regions[e.region as int].blocks.len()
                &&& (#[trigger] self.regions[e.region as int].blocks[i0]).off == e.off
                &&& self.regions[e.region as int].blocks[i0].size == e.size
                &&& !self.regions[e.region as int].blocks[i0].used
            };
        let ridx = e.region;
        let i = match self.regions[ridx].find_block(e.off) {
            Some(i) => i,
            None => {
                proof {
                    assert(self.regions[ridx as int].blocks[i0].off == e.off);
                }
                vstd::pervasive::unreached()
            },
        };
        proof {
            self.regions[ridx as int].lemma_off_unique(i as int, i0);
        }
        let orig = self.regions[ridx].blocks[i];
        if orig.size - need >= MIN_BLOCK {
            self.carve_split(k, j, i, need)
        } else {
            self.carve_whole(k, j, i)
        }
    }

    /// Copies a block list, replacing block `i` by `a` followed by `r`.
    fn splice_blocks(blocks: &Vec<BlockInfo>, i: usize, a: BlockInfo, r: BlockInfo) -> (nb: Vec<
        BlockInfo,
    >)
        requires
            i < blocks.len(),
        ensures
            nb.len() == blocks.len() + 1,
            forall|x: int| 0 <= x < i ==> nb[x] == blocks[x],
            nb[i as int] == a,
            nb[i as int + 1] == r,
            forall|x: int| i + 2 <= x < nb.len() ==> nb[x] == blocks[x - 1],
    {
        let mut out: Vec<BlockInfo> = Vec::new();
        let mut x: usize = 0;
        while x < i
            invariant
                x <= i < blocks.len(),
                out.len() == x,
                forall|y: int| 0 <= y < x ==> out[y] == blocks[y],
            decreases i - x,
        {
            out.push(blocks[x]);
            x = x + 1;
        }
        out.push(a);
        out.push(r);
        let mut z: usize = i + 1;
        while z < blocks.len()
            invariant
                i + 1 <= z <= blocks.len(),
                out.len() == z + 1,
                forall|y: int| 0 <= y < i ==> out[y] == blocks[y],
                out[i as int] == a,
                out[i as int + 1] == r,
                forall|y: int| i + 2 <= y < out.len() ==> out[y] == blocks[y - 1],
            decreases blocks.len() - z,
        {
            out.push(blocks[z]);
            z = z + 1;
        }
        out
    }

    /// Relation between the allocator before (`s0`) and after (`s`) the
    /// splitting path of `carve`: bucket `k` lost entry `j`, block `ii`
    /// of the entry's region was carved to `need` bytes and marked in
    /// use, and the remainder became the free block `rem_e`, pushed on
    /// its class's bucket.
    #[verifier::opaque]
    pub open spec fn carve_split_blocks_rel(
        s0: Self,
        s: Self,
        ii: int,
        k: int,
        j: int,
        need: usize,
        orig: BlockInfo,
        rem_e: Entry,
    ) -> bool {
        let e = s0.buckets[k][j];
        let ridx = e.region as int;
        let ob = s0.regions[ridx].blocks@;
        let nb = s.regions[ridx].blocks@;
        &&& 0 <= k < s0.buckets.len()
        &&& 0 <= j < s0.buckets[k].len()
        &&& e.region < s0.regions.len()
        &&& 0 <= ii < ob.len()
        &&& orig == ob[ii]
        &&& orig.off == e.off
        &&& orig.size == e.size
        &&& !orig.used
        &&& e.size - need >= MIN_BLOCK
        &&& MIN_BLOCK <= need <= e.size
        &&& need as int % (ALIGN as int) == 0
        &&& rem_e == (Entry {
            region: e.region,
            off: (orig.off + need) as usize,
            size: (orig.size - need) as usize,
        })
        &&& s.regions.len() == s0.regions.len()
        &&& forall|r: int| 0 <= r < s0.regions.len() && r != ridx ==> s.regions[r] == s0.regions[r]
        &&& s.regions[ridx].mem == s0.regions[ridx].mem
        &&& nb.len() == ob.len() + 1
        &&& forall|x: int| 0 <= x < ii ==> nb[x] == ob[x]
        &&& nb[ii] == (BlockInfo { off: orig.off, size: need, used: true })
        &&& nb[ii + 1] == (BlockInfo { off: rem_e.off, size: rem_e.size, used: false })
        &&& forall|x: int| ii + 2 <= x < nb.len() ==> nb[x] == ob[x - 1]
        &&& forall|x: int| 0 <= x < ob.len() ==> (#[trigger] ob[x].off) != rem_e.off
    }

    /// How the buckets change on the splitting path of `carve`: bucket
    /// `k` loses entry `j` keeping its order, and `rem_e` arrives at the
    /// tail of its class's bucket.
    #[verifier::opaque]
    pub open spec fn carve_split_buckets_rel(s0: Self, s: Self, k: int, j: int, rem_e: Entry) -> bool {
        let kc = class_of_spec(rem_e.size as int);
        &&& 0 <= k < s0.buckets.len()
        &&& 0 <= j < s0.buckets[k].len()
        &&& 0 <= kc < s0.buckets.len()
        &&& s0.buckets.len() == NUM_CLASSES
        &&& s.buckets.len() == s0.buckets.len()
        &&& forall|x: int|
            0 <= x < s0.buckets.len() && x != k && x != kc ==> s.buckets[x] == s0.buckets[x]
        &&& (if k == kc {
            &&& s.buckets[k].len() == s0.buckets[k].len()
            &&& forall|y: int| 0 <= y < j ==> s.buckets[k][y] == s0.buckets[k][y]
            &&& forall|y: int|
                j <= y < s.buckets[k].len() - 1 ==> s.buckets[k][y] == s0.buckets[k][y + 1]
            &&& s.buckets[k][s.buckets[k].len() - 1] == rem_e
        } else {
            &&& s.buckets[k].len() + 1 == s0.buckets[k].len()
            &&& forall|y: int| 0 <= y < j ==> s.buckets[k][y] == s0.buckets[k][y]
            &&& forall|y: int|
                j <= y < s.buckets[k].len() ==> s.buckets[k][y] == s0.buckets[k][y + 1]
            &&& s.buckets[kc].len() == s0.buckets[kc].len() + 1
            &&& forall|y: int| 0 <= y < s0.buckets[kc].len() ==> s.buckets[kc][y] == s0.buckets[kc][y]
            &&& s.buckets[kc][s.buckets[kc].len() - 1] == rem_e
        })
    }

    /// The splitting path of `carve`: the remainder past `need` bytes
    /// becomes a free block of its own and joins the index.
    #[verifier::rlimit(100)]
    fn carve_split(&mut self, k: usize, j: usize, i: usize, need: usize) -> (p: Ptr)
        requires
            old(self).wf(),
            k < old(self).buckets.len(),
            j < old(self).buckets[k as int].len(),
            ({
                let e = old(self).buckets[k as int][j as int];
                &&& e.region < old(self).regions.len()
                &&& i < old(self).regions[e.region as int].blocks.len()
                &&& old(self).regions[e.region as int].blocks[i as int].off == e.off
                &&& old(self).regions[e.region as int].blocks[i as int].size == e.size
                &&& !old(self).regions[e.region as int].blocks[i as int].used
                &&& e.size - need >= MIN_BLOCK
            }),
            need as int % (ALIGN as int) == 0,
            MIN_BLOCK <= need,
        ensures
            final(self).wf(),
            final(self).ptr_valid(p),
            !old(self).ptr_valid(p),
            p.off as int % (ALIGN as int) == 0,
            final(self).cap(p) + HEADER_SIZE >= need,
            forall|q: Ptr|
                old(self).ptr_valid(q) ==> final(self).ptr_valid(q) && final(self).cap(q) == old(self).cap(q) && final(self).data(q) == old(self).data(q),
            forall|q: Ptr| final(self).ptr_valid(q) && q != p ==> old(self).ptr_valid(q),
            final(self).regions.len() == old(self).regions.len(),
            final(self).budget == old(self).budget,
    {
        let ghost s0 = *old(self);
        let e = self.buckets[k][j];
        let ridx = e.region;
        proof {
            self.regions[ridx as int].lemma_in_span(i as int);
        }
        let orig = self.regions[ridx].blocks[i];
        let _ = self.index_unlink_at(k, j);
        let nb = Self::splice_blocks(
            &self.regions[ridx].blocks,
            i,
            BlockInfo { off: orig.off, size: need, used: true },
            BlockInfo { off: orig.off + need, size: orig.size - need, used: false },
        );
        self.regions[ridx].blocks = nb;
        let kc = class_of(orig.size - need);
        self.buckets[kc].push(
            Entry { region: ridx, off: orig.off + need, size: orig.size - need },
        );
        let p = Ptr { region: ridx, off: orig.off + HEADER_SIZE };
        proof {
            let s = *self;
            let ii = i as int;
            let ob = s0.regions[ridx as int].blocks@;
            let rem_e = Entry {
                region: ridx,
                off: (orig.off + need) as usize,
                size: (orig.size - need) as usize,
            };
            // no old block starts where the remainder starts
            assert forall|x: int| 0 <= x < ob.len() implies (#[trigger] ob[x].off) != rem_e.off by {
                if x < ii {
                    s0.regions[ridx as int].lemma_ordered(x, ii);
                } else if x > ii {
                    s0.regions[ridx as int].lemma_ordered(ii, x);
                }
            }
            assert(Self::carve_split_blocks_rel(s0, s, ii, k as int, j as int, need, orig, rem_e))
                by {
                reveal(Allocator::carve_split_blocks_rel);
            }
            assert(Self::carve_split_buckets_rel(s0, s, k as int, j as int, rem_e)) by {
                reveal(Allocator::carve_split_buckets_rel);
                s0.buckets[k as int]@.remove_ensures(j as int);
            }
            Self::lemma_carve_split_region_wf(s0, s, ii, k as int, j as int, need, orig, rem_e);
            s.lemma_carve_split_sound(s0, ii, k as int, j as int, need, orig, rem_e);
            s.lemma_carve_split_nodup(s0, ii, k as int, j as int, need, orig, rem_e);
            s.lemma_carve_split_complete(s0, ii, k as int, j as int, need, orig, rem_e);
            assert(s.index_wf());
            s.lemma_carve_split_ptrs(s0, ii, k as int, j as int, need, orig, rem_e, p);
            vstd::arithmetic::div_mod::lemma_add_mod_noop(orig.off as int, HEADER_SIZE as int, 16);
        }
        p
    }

    /// After the splitting path of `carve`, every region is still
    /// well-formed.
    #[verifier::rlimit(100)]
    proof fn lemma_carve_split_region_wf(
        s0: Self,
        s: Self,
        ii: int,
        k: int,
        j: int,
        need: usize,
        orig: BlockInfo,
        rem_e: Entry,
    )
        requires
            forall|r: int| 0 <= r < s0.regions.len() ==> (#[trigger] s0.regions[r]).wf(),
            Self::carve_split_blocks_rel(s0, s, ii, k, j, need, orig, rem_e),
        ensures
            forall|r: int| 0 <= r < s.regions.len() ==> (#[trigger] s.regions[r]).wf(),
    {
        reveal(Allocator::carve_split_blocks_rel);
        let e = s0.buckets[k][j];
        let ridx = e.region as int;
        let ob = s0.regions[ridx].blocks@;
        let nb = s.regions[ridx].blocks@;
        assert forall|x: int| 0 <= x < nb.len() - 1 implies nb[x + 1].off == nb[x].off
            + nb[x].size by {
            if x == ii + 1 && ii + 1 < ob.len() {
                assert(nb[x + 1] == ob[ii + 1]);
                assert(ob[ii + 1].off == ob[ii].off + ob[ii].size);
            }
        }
        assert forall|x: int| 0 <= x < nb.len() - 1 implies !((#[trigger] nb[x].used == false) && nb[x
            + 1].used == false) by {
            if x == ii + 1 && ii + 1 < ob.len() {
                assert(!ob[ii].used);
                assert(ob[ii + 1].used);
                assert(nb[x + 1] == ob[ii + 1]);
            }
        }
        assert forall|x: int| 0 <= x < nb.len() implies (#[trigger] nb[x].off) as int % (
        ALIGN as int) == 0 && nb[x].size as int % (ALIGN as int) == 0 by {
            if x == ii + 1 {
                assert(ob[ii].off as int % 16 == 0 && ob[ii].size as int % 16 == 0);
                vstd::arithmetic::div_mod::lemma_add_mod_noop(ob[ii].off as int, need as int, 16);
                vstd::arithmetic::div_mod::lemma_sub_mod_noop(ob[ii].size as int, need as int, 16);
            }
        }
        assert(s.regions[ridx].wf());
        assert forall|r: int| 0 <= r < s.regions.len() implies (#[trigger] s.regions[r]).wf() by {
            if r != ridx {
                assert(s.regions[r] == s0.regions[r]);
            }
        }
    }

    /// After the splitting path of `carve`, every index entry still
    /// names a free block in the bucket of its class.
    #[verifier::rlimit(100)]
    proof fn lemma_carve_split_sound(
        self,
        s0: Self,
        ii: int,
        k: int,
        j: int,
        need: usize,
        orig: BlockInfo,
        rem_e: Entry,
    )
        requires
            s0.wf(),
            Self::carve_split_blocks_rel(s0, self, ii, k, j, need, orig, rem_e),
            Self::carve_split_buckets_rel(s0, self, k, j, rem_e),
        ensures
            forall|x: int, y: int|
                0 <= x < self.buckets.len() && 0 <= y < self.buckets[x].len()
                    ==> self.entry_points_to_free(#[trigger] self.buckets[x][y]) && class_of_spec(
                    self.buckets[x][y].size as int,
                ) == x,
    {
        reveal(Allocator::carve_split_blocks_rel);
        reveal(Allocator::carve_split_buckets_rel);
        let e = s0.buckets[k][j];
        let ridx = e.region as int;
        let ob = s0.regions[ridx].blocks@;
        let nb = self.regions[ridx].blocks@;
        let kc = class_of_spec(rem_e.size as int);
        let obks = s0.buckets@;
        let nbks = self.buckets@;
        assert forall|x: int, y: int|
            0 <= x < nbks.len() && 0 <= y < nbks[x]@.len() implies self.entry_points_to_free(
            #[trigger] nbks[x]@[y],
        ) && class_of_spec(nbks[x]@[y].size as int) == x by {
            let e2 = nbks[x]@[y];
            if x == kc && y == nbks[x]@.len() - 1 {
                assert(e2 == rem_e);
                assert(nb[ii + 1].off == rem_e.off && nb[ii + 1].size == rem_e.size && !nb[ii
                    + 1].used);
            } else {
                let y0: int = if x == k && y >= j {
                    y + 1
                } else {
                    y
                };
                assert(e2 == obks[x]@[y0]);
                assert(s0.entry_points_to_free(e2) && class_of_spec(e2.size as int) == x);
                let i2 = choose|i2: int|
                    {
                        &&& 0 <= i2 < s0.regions[e2.region as int].blocks.len()
                        &&& (#[trigger] s0.regions[e2.region as int].blocks[i2]).off == e2.off
                        &&& s0.regions[e2.region as int].blocks[i2].size == e2.size
                        &&& !s0.regions[e2.region as int].blocks[i2].used
                    };
                if e2.region as int != ridx {
                    assert(self.regions[e2.region as int] == s0.regions[e2.region as int]);
                    assert(self.regions[e2.region as int].blocks[i2].off == e2.off);
                } else {
                    if i2 == ii {
                        assert(e2.off == e.off && e2.size == e.size && e2.region == e.region);
                        if x == k {
                            assert(obks[x]@[y0] == obks[x]@[j]);
                            assert(false);
                        } else {
                            assert(class_of_spec(e.size as int) == k);
                            assert(false);
                        }
                    }
                    if i2 < ii {
                        assert(nb[i2].off == e2.off && nb[i2].size == e2.size && !nb[i2].used);
                    } else {
                        assert(nb[i2 + 1] == ob[i2]);
                        assert(nb[i2 + 1].off == e2.off && nb[i2 + 1].size == e2.size && !nb[i2
                            + 1].used);
                    }
                }
            }
        }
    }

    /// After the splitting path of `carve`, no block is listed twice.
    #[verifier::rlimit(100)]
    proof fn lemma_carve_split_nodup(
        self,
        s0: Self,
        ii: int,
        k: int,
        j: int,
        need: usize,
        orig: BlockInfo,
        rem_e: Entry,
    )
        requires
            s0.wf(),
            Self::carve_split_blocks_rel(s0, self, ii, k, j, need, orig, rem_e),
            Self::carve_split_buckets_rel(s0, self, k, j, rem_e),
        ensures
            forall|x: int, y1: int, y2: int|
                0 <= x < self.buckets.len() && 0 <= y1 < y2 < self.buckets[x].len() ==> !((
                #[trigger] self.buckets[x][y1]).region == (#[trigger] self.buckets[x][y2]).region
                    && self.buckets[x][y1].off == self.buckets[x][y2].off),
    {
        reveal(Allocator::carve_split_blocks_rel);
        reveal(Allocator::carve_split_buckets_rel);
        let e = s0.buckets[k][j];
        let ridx = e.region as int;
        let ob = s0.regions[ridx].blocks@;
        let kc = class_of_spec(rem_e.size as int);
        let obks = s0.buckets@;
        let nbks = self.buckets@;
        assert forall|x: int, y1: int, y2: int|
            0 <= x < nbks.len() && 0 <= y1 < y2 < nbks[x]@.len() implies !((
        #[trigger] nbks[x]@[y1]).region == (#[trigger] nbks[x]@[y2]).region && nbks[x]@[y1].off
            == nbks[x]@[y2].off) by {
            let a = nbks[x]@[y1];
            let b = nbks[x]@[y2];
            if x == kc && y2 == nbks[x]@.len() - 1 {
                assert(b == rem_e);
                let y0: int = if x == k && y1 >= j {
                    y1 + 1
                } else {
                    y1
                };
                assert(a == obks[x]@[y0]);
                assert(s0.entry_points_to_free(a));
                if a.region == rem_e.region && a.off == rem_e.off {
                    let i2 = choose|i2: int|
                        {
                            &&& 0 <= i2 < s0.regions[a.region as int].blocks.len()
                            &&& (#[trigger] s0.regions[a.region as int].blocks[i2]).off == a.off
                            &&& s0.regions[a.region as int].blocks[i2].size == a.size
                            &&& !s0.regions[a.region as int].blocks[i2].used
                        };
                    assert(ob[i2].off == rem_e.off);
                    assert(false);
                }
            } else {
                let y01: int = if x == k && y1 >= j {
                    y1 + 1
                } else {
                    y1
                };
                let y02: int = if x == k && y2 >= j {
                    y2 + 1
                } else {
                    y2
                };
                assert(a == obks[x]@[y01]);
                assert(b == obks[x]@[y02]);
            }
        }
    }

    /// After the splitting path of `carve`, every free block is listed.
    #[verifier::rlimit(100)]
    proof fn lemma_carve_split_complete(
        self,
        s0: Self,
        ii: int,
        k: int,
        j: int,
        need: usize,
        orig: BlockInfo,
        rem_e: Entry,
    )
        requires
            forall|r: int| 0 <= r < s0.regions.len() ==> (#[trigger] s0.regions[r]).wf(),
            forall|r: int, i: int|
                0 <= r < s0.regions.len() && 0 <= i < s0.regions[r].blocks.len() && !(
                #[trigger] s0.regions[r].blocks[i]).used ==> s0.has_entry(
                    Entry {
                        region: r as usize,
                        off: s0.regions[r].blocks[i].off,
                        size: s0.regions[r].blocks[i].size,
                    },
                ),
            Self::carve_split_blocks_rel(s0, self, ii, k, j, need, orig, rem_e),
            Self::carve_split_buckets_rel(s0, self, k, j, rem_e),
        ensures
            forall|r: int, i3: int|
                0 <= r < self.regions.len() && 0 <= i3 < self.regions[r].blocks.len() && !(
                #[trigger] self.regions[r].blocks[i3]).used ==> self.has_entry(
                    Entry {
                        region: r as usize,
                        off: self.regions[r].blocks[i3].off,
                        size: self.regions[r].blocks[i3].size,
                    },
                ),
    {
        reveal(Allocator::carve_split_blocks_rel);
        reveal(Allocator::carve_split_buckets_rel);
        let e = s0.buckets[k][j];
        let ridx = e.region as int;
        let ob = s0.regions[ridx].blocks@;
        let nb = self.regions[ridx].blocks@;
        let kc = class_of_spec(rem_e.size as int);
        assert forall|r: int, i3: int|
            0 <= r < self.regions.len() && 0 <= i3 < self.regions[r].blocks.len() && !(
        #[trigger] self.regions[r].blocks[i3]).used implies self.has_entry(
            Entry {
                region: r as usize,
                off: self.regions[r].blocks[i3].off,
                size: self.regions[r].blocks[i3].size,
            },
        ) by {
            let b3 = self.regions[r].blocks[i3];
            let e3 = Entry { region: r as usize, off: b3.off, size: b3.size };
            if r == ridx && i3 == ii + 1 {
                assert(e3 == rem_e);
                assert(self.buckets[kc][self.buckets[kc].len() - 1] == rem_e);
            } else {
                let i30: int = if r == ridx && i3 >= ii + 2 {
                    i3 - 1
                } else {
                    i3
                };
                assert(s0.regions[r].blocks[i30] == b3);
                assert(i30 != ii || r != ridx);
                assert(!s0.regions[r].blocks[i30].used);
                assert(s0.has_entry(e3));
                let k3 = class_of_spec(e3.size as int);
                let j3 = choose|j3: int|
                    0 <= j3 < s0.buckets[k3].len() && (#[trigger] s0.buckets[k3][j3]) == e3;
                if r == ridx && e3.off == e.off {
                    s0.regions[ridx].lemma_off_unique(i30, ii);
                    assert(false);
                }
                if k3 == k {
                    if j3 == j {
                        assert(e3 == e);
                        assert(false);
                    }
                    let jn: int = if j3 < j {
                        j3
                    } else {
                        j3 - 1
                    };
                    if k == kc {
                        if j3 < j {
                            assert(self.buckets[k3][jn] == e3);
                        } else {
                            assert(self.buckets[k3][jn] == s0.buckets[k3][jn + 1]);
                            assert(self.buckets[k3][jn] == e3);
                        }
                    } else {
                        if j3 < j {
                            assert(self.buckets[k3][jn] == e3);
                        } else {
                            assert(self.buckets[k3][jn] == s0.buckets[k3][jn + 1]);
                            assert(self.buckets[k3][jn] == e3);
                        }
                    }
                    assert(0 <= jn < self.buckets[k3].len());
                } else if k3 == kc {
                    assert(self.buckets[k3][j3] == e3);
                } else {
                    assert(0 <= k3 < s0.buckets.len());
                    assert(self.buckets[k3] == s0.buckets[k3]);
                    assert(self.buckets[k3][j3] == e3);
                }
            }
        }
    }

    /// After the splitting path of `carve`, previously live handles are
    /// untouched and the carved handle is the only new one.
    #[verifier::rlimit(100)]
    proof fn lemma_carve_split_ptrs(
        self,
        s0: Self,
        ii: int,
        k: int,
        j: int,
        need: usize,
        orig: BlockInfo,
        rem_e: Entry,
        p: Ptr,
    )
        requires
            forall|r: int| 0 <= r < s0.regions.len() ==> (#[trigger] s0.regions[r]).wf(),
            forall|r: int| 0 <= r < self.regions.len() ==> (#[trigger] self.regions[r]).wf(),
            Self::carve_split_blocks_rel(s0, self, ii, k, j, need, orig, rem_e),
            p == (Ptr { region: s0.buckets[k][j].region, off: (orig.off + HEADER_SIZE) as usize }),
        ensures
            self.ptr_valid(p),
            !s0.ptr_valid(p),
            self.cap(p) + HEADER_SIZE == need,
            forall|q: Ptr|
                s0.ptr_valid(q) ==> self.ptr_valid(q) && self.cap(q) == s0.cap(q) && self.data(q)
                    == s0.data(q),
            forall|q: Ptr| self.ptr_valid(q) && q != p ==> s0.ptr_valid(q),
    {
        reveal(Allocator::carve_split_blocks_rel);
        let e = s0.buckets[k][j];
        let ridx = e.region as int;
        let ob = s0.regions[ridx].blocks@;
        let nb = self.regions[ridx].blocks@;
        assert(nb[ii].used && nb[ii].off + HEADER_SIZE == p.off);
        assert(self.backs(p, ii));
        self.lemma_blk_is(p, ii);
        assert forall|w: int| !s0.backs(p, w) by {
            if s0.backs(p, w) {
                s0.regions[ridx].lemma_off_unique(w, ii);
            }
        }
        assert forall|q: Ptr| s0.ptr_valid(q) implies self.ptr_valid(q) && self.cap(q) == s0.cap(q)
            && self.data(q) == s0.data(q) by {
            let w = choose|w: int| s0.backs(q, w);
            assert(s0.backs(q, w));
            if q.region as int != ridx {
                assert(self.regions[q.region as int] == s0.regions[q.region as int]);
                assert(self.backs(q, w));
                self.lemma_blk_is(q, w);
                s0.lemma_blk_is(q, w);
            } else {
                assert(w != ii);
                let wn: int = if w > ii {
                    w + 1
                } else {
                    w
                };
                assert(nb[wn] == ob[w]);
                assert(self.backs(q, wn));
                self.lemma_blk_is(q, wn);
                s0.lemma_blk_is(q, w);
                assert(self.data(q) == s0.data(q));
            }
        }
        assert forall|q: Ptr| self.ptr_valid(q) && q != p implies s0.ptr_valid(q) by {
            let w = choose|w: int| self.backs(q, w);
            assert(self.backs(q, w));
            if q.region as int != ridx {
                assert(s0.regions[q.region as int] == self.regions[q.region as int]);
                assert(s0.backs(q, w));
            } else {
                if w < ii {
                    assert(s0.backs(q, w));
                } else if w == ii {
                    assert(q == p);
                } else if w == ii + 1 {
                    assert(!nb[w].used);
                } else {
                    assert(nb[w] == ob[w - 1]);
                    assert(s0.backs(q, w - 1));
                }
            }
        }
    }

    /// The whole-block path of `carve`: the remainder would be an
    /// unusable sliver, so the block stays oversized and is taken whole.
    #[verifier::rlimit(100)]
    fn carve_whole(&mut self, k: usize, j: usize, i: usize) -> (p: Ptr)
        requires
            old(self).wf(),
            k < old(self).buckets.len(),
            j < old(self).buckets[k as int].len(),
            ({
                let e = old(self).buckets[k as int][j as int];
                &&& e.region < old(self).regions.len()
                &&& i < old(self).regions[e.region as int].blocks.len()
                &&& old(self).regions[e.region as int].blocks[i as int].off == e.off
                &&& old(self).regions[e.region as int].blocks[i as int].size == e.size
                &&& !old(self).regions[e.region as int].blocks[i as int].used
            }),
        ensures
            final(self).wf(),
            final(self).ptr_valid(p),
            !old(self).ptr_valid(p),
            p.off as int % (ALIGN as int) == 0,
            final(self).cap(p) + HEADER_SIZE == old(self).buckets[k as int][j as int].size,
            forall|q: Ptr|
                old(self).ptr_valid(q) ==> final(self).ptr_valid(q) && final(self).cap(q) == old(self).cap(q) && final(self).data(q) == old(self).data(q),
            forall|q: Ptr| final(self).ptr_valid(q) && q != p ==> old(self).ptr_valid(q),
            final(self).regions.len() == old(self).regions.len(),
            final(self).budget == old(self).budget,
    {
        let ghost s0 = *old(self);
        let e = self.buckets[k][j];
        let ridx = e.region;
        let orig = self.regions[ridx].blocks[i];
        let _ = self.index_unlink_at(k, j);
        self.regions[ridx].blocks[i] = BlockInfo { off: orig.off, size: orig.size, used: true };
        let p = Ptr { region: ridx, off: orig.off + HEADER_SIZE };
        proof {
            s0.regions[ridx as int].lemma_in_span(i as int);
            let s = *self;
            let ii = i as int;
            let ob = s0.regions[ridx as int].blocks@;
            let nb = s.regions[ridx as int].blocks@;
            assert(nb.len() == ob.len());
            assert(forall|x: int| 0 <= x < nb.len() && x != ii ==> nb[x] == ob[x]);
            assert(nb[ii] == BlockInfo { off: orig.off, size: orig.size, used: true });
            assert(s.regions[ridx as int].mem == s0.regions[ridx as int].mem);
            assert(s.regions.len() == s0.regions.len());
            assert(forall|r: int|
                0 <= r < s.regions.len() && r != ridx ==> s.regions[r] == s0.regions[r]);
            assert(s.regions[ridx as int].wf());
            assert forall|r: int| 0 <= r < s.regions.len() implies (#[trigger] s.regions[r]).wf() by {
                if r != ridx {
                    assert(s.regions[r] == s0.regions[r]);
                }
            }
            let obks = s0.buckets@;
            let nbks = s.buckets@;
            s0.buckets[k as int]@.remove_ensures(j as int);
            // soundness and class match
            assert forall|x: int, y: int|
                0 <= x < nbks.len() && 0 <= y < nbks[x]@.len() implies s.entry_points_to_free(
                #[trigger] nbks[x]@[y],
            ) && class_of_spec(nbks[x]@[y].size as int) == x by {
                let e2 = nbks[x]@[y];
                let y0: int = if x == k as int && y >= j as int {
                    y + 1
                } else {
                    y
                };
                assert(e2 == obks[x]@[y0]);
                assert(s0.entry_points_to_free(e2) && class_of_spec(e2.size as int) == x);
                let i2 = choose|i2: int|
                    {
                        &&& 0 <= i2 < s0.regions[e2.region as int].blocks.len()
                        &&& (#[trigger] s0.regions[e2.region as int].blocks[i2]).off == e2.off
                        &&& s0.regions[e2.region as int].blocks[i2].size == e2.size
                        &&& !s0.regions[e2.region as int].blocks[i2].used
                    };
                if e2.region != ridx {
                    assert(s.regions[e2.region as int] == s0.regions[e2.region as int]);
                    assert(s.regions[e2.region as int].blocks[i2].off == e2.off);
                } else {
                    if i2 == ii {
                        assert(e2.off == e.off && e2.size == e.size && e2.region == e.region);
                        if x == k as int {
                            assert(obks[x]@[y0] == obks[x]@[j as int]);
                            assert(false);
                        } else {
                            assert(class_of_spec(e.size as int) == k as int);
                            assert(false);
                        }
                    }
                    assert(nb[i2].off == e2.off && nb[i2].size == e2.size && !nb[i2].used);
                }
            }
            // no block is listed twice
            assert forall|x: int, y1: int, y2: int|
                0 <= x < nbks.len() && 0 <= y1 < y2 < nbks[x]@.len() implies !((
            #[trigger] nbks[x]@[y1]).region == (#[trigger] nbks[x]@[y2]).region && nbks[x]@[y1].off
                == nbks[x]@[y2].off) by {
                let y01: int = if x == k as int && y1 >= j as int {
                    y1 + 1
                } else {
                    y1
                };
                let y02: int = if x == k as int && y2 >= j as int {
                    y2 + 1
                } else {
                    y2
                };
                assert(nbks[x]@[y1] == obks[x]@[y01]);
                assert(nbks[x]@[y2] == obks[x]@[y02]);
            }
            // every free block is still listed
            assert forall|r: int, i3: int|
                0 <= r < s.regions.len() && 0 <= i3 < s.regions[r].blocks.len() && !(
            #[trigger] s.regions[r].blocks[i3]).used implies s.has_entry(
                Entry {
                    region: r as usize,
                    off: s.regions[r].blocks[i3].off,
                    size: s.regions[r].blocks[i3].size,
                },
            ) by {
                let b3 = s.regions[r].blocks[i3];
                let e3 = Entry { region: r as usize, off: b3.off, size: b3.size };
                assert(s0.regions[r].blocks[i3] == b3);
                assert(s0.has_entry(e3));
                let k3 = class_of_spec(e3.size as int);
                let j3 = choose|j3: int|
                    0 <= j3 < s0.buckets[k3].len() && (#[trigger] s0.buckets[k3][j3]) == e3;
                if r == ridx && i3 == ii {
                    assert(false);
                }
                if k3 == k as int {
                    assert(obks[k3]@[j3] == e3);
                    if j3 == j as int {
                        assert(e3 == e);
                        if r == ridx {
                            s0.regions[ridx as int].lemma_off_unique(i3, ii);
                            assert(false);
                        } else {
                            assert(false);
                        }
                    }
                    let jn: int = if j3 < j as int {
                        j3
                    } else {
                        j3 - 1
                    };
                    assert(s0.buckets[k as int]@.remove(j as int)[jn] == e3);
                    assert(nbks[k3]@[jn] == e3);
                } else {
                    assert(nbks[k3]@[j3] == e3);
                }
            }
            assert(s.index_wf());
            // the returned handle is fresh and valid, other handles persist
            assert(nb[ii].used && nb[ii].off + HEADER_SIZE == p.off);
            assert(s.backs(p, ii));
            s.lemma_blk_is(p, ii);
            assert forall|w: int| !s0.backs(p, w) by {
                if s0.backs(p, w) {
                    s0.regions[ridx as int].lemma_off_unique(w, ii);
                }
            }
            assert forall|q: Ptr| s0.ptr_valid(q) implies s.ptr_valid(q) && s.cap(q) == s0.cap(q)
                && s.data(q) == s0.data(q) by {
                let w = choose|w: int| s0.backs(q, w);
                assert(s0.backs(q, w));
                if q.region != ridx {
                    assert(s.regions[q.region as int] == s0.regions[q.region as int]);
                }
                assert(w != ii || q.region != ridx);
                assert(s.backs(q, w));
                s.lemma_blk_is(q, w);
                s0.lemma_blk_is(q, w);
                assert(s.data(q) == s0.data(q));
            }
            assert forall|q: Ptr| s.ptr_valid(q) && q != p implies s0.ptr_valid(q) by {
                let w = choose|w: int| s.backs(q, w);
                assert(s.backs(q, w));
                if q.region != ridx {
                    assert(s0.regions[q.region as int] == s.regions[q.region as int]);
                    assert(s0.backs(q, w));
                } else {
                    if w == ii {
                        assert(q == p);
                    } else {
                        assert(s0.backs(q, w));
                    }
                }
            }
            vstd::arithmetic::div_mod::lemma_add_mod_noop(orig.off as int, HEADER_SIZE as int, 16);
        }
        p
    }

    /// The inputs on which `allocate` owes nothing: an empty request, a
    /// block size beyond the machine word, or no fitting free block
    /// while the region source cannot grow the heap.
    pub open spec fn alloc_fails(self, size: int) -> bool {
        ||| size == 0
        ||| block_size_spec(size) > usize::MAX
        ||| {
            &&& !self.fits_free(block_size_spec(size))
            &&& (region_len_spec(block_size_spec(size)) > usize::MAX || region_len_spec(
                block_size_spec(size),
            ) > self.budget)
        }
    }

    /// Serves a request of `size` bytes: first-fit search of the
    /// segregated free lists, with at most one region-source growth on a
    /// miss. Returns a fresh aligned handle of capacity at least `size`,
    /// or `None` exactly on the inputs `alloc_fails` names; every live
    /// allocation is left untouched either way.
    pub fn allocate(&mut self, size: usize) -> (r: Option<Ptr>)
        requires
            old(self).wf(),
        ensures
            final(self).wf(),
            match r {
                Some(p) => {
                    &&& !old(self).alloc_fails(size as int)
                    &&& final(self).ptr_valid(p)
                    &&& !old(self).ptr_valid(p)
                    &&& p.off as int % (ALIGN as int) == 0
                    &&& final(self).cap(p) >= size
                    &&& forall|q: Ptr|
                        old(self).ptr_valid(q) ==> final(self).ptr_valid(q) && final(self).cap(q)
                            == old(self).cap(q) && final(self).data(q) == old(self).data(q)
                    &&& forall|q: Ptr| final(self).ptr_valid(q) && q != p ==> old(self).ptr_valid(q)
                },
                None => {
                    &&& old(self).alloc_fails(size as int)
                    &&& *final(self) == *old(self)
                },
            },
    {
        if size == 0 {
            return None;
        }
        let need = match block_size_for(size) {
            Some(n) => n,
            None => {
                return None;
            },
        };
        proof {
            crate::layout::lemma_round_up(size as int, ALIGN as int);
        }
        match self.index_find(need) {
            Some((k, j)) => {
                proof {
                    assert(self.entry_points_to_free(self.buckets[k as int][j as int]));
                    let e = self.buckets[k as int][j as int];
                    let i0 = choose|i0: int|
                        {
                            &&& 0 <= i0 < self.regions[e.region as int].blocks.len()
                            &&& (#[trigger] self.regions[e.region as int].blocks[i0]).off == e.off
                            &&& self.regions[e.region as int].blocks[i0].size == e.size
                            &&& !self.regions[e.region as int].blocks[i0].used
                        };
                    assert(self.fits_free(need as int));
                }
                let p = self.carve(k, j, need);
                Some(p)
            },
            None => {
                proof {
                    self.lemma_no_fit(need);
                }
                let rlen = match region_len_for(need) {
                    Some(n) => n,
                    None => {
                        return None;
                    },
                };
                if rlen > self.budget {
                    return None;
                }
                let ghost s0 = *old(self);
                self.grow_region(rlen);
                match self.index_find(need) {
                    Some((k, j)) => {
                        let p = self.carve(k, j, need);
                        Some(p)
                    },
                    None => {
                        proof {
                            self.lemma_no_fit(need);
                            let (r0, i0): (int, int) = choose|r0: int, i0: int|
                                {
                                    &&& 0 <= r0 < self.regions.len()
                                    &&& 0 <= i0 < self.regions[r0].blocks.len()
                                    &&& !(#[trigger] self.regions[r0].blocks[i0]).used
                                    &&& self.regions[r0].blocks[i0].size >= rlen
                                };
                            assert(self.regions[r0].blocks[i0].size >= need);
                            assert(false);
                        }
                        vstd::pervasive::unreached()
                    },
                }
            },
        }
    }

    /// Writes one payload byte of a live allocation.
    pub fn store(&mut self, p: Ptr, i: usize, b: u8)
        requires
            old(self).wf(),
            old(self).ptr_valid(p),
            i < old(self).cap(p),
        ensures
            final(self).wf(),
            forall|q: Ptr| final(self).ptr_valid(q) <==> old(self).ptr_valid(q),
            forall|q: Ptr| old(self).ptr_valid(q) ==> final(self).cap(q) == old(self).cap(q),
            final(self).data(p) == old(self).data(p).update(i as int, b),
            forall|q: Ptr|
                old(self).ptr_valid(q) && q != p ==> final(self).data(q) == old(self).data(q),
            final(self).regions.len() == old(self).regions.len(),
            final(self).budget == old(self).budget,
    {
        let ghost s0 = *old(self);
        let ghost w = old(self).blk(p);
        proof {
            assert(s0.backs(p, w));
            s0.lemma_blk_is(p, w);
            s0.regions[p.region as int].lemma_in_span(w);
        }
        let pos = p.off + i;
        self.regions[p.region].mem[pos] = b;
        proof {
            Self::lemma_store_frame(s0, *self, p, w, i as int, b);
        }
    }

    /// Writing one payload byte inside a live block leaves the
    /// structure, every other handle, and every other payload untouched.
    #[verifier::rlimit(100)]
    proof fn lemma_store_frame(s0: Self, s: Self, p: Ptr, w: int, i: int, b: u8)
        requires
            s0.wf(),
            s0.backs(p, w),
            s0.blk(p) == w,
            0 <= i < s0.cap(p),
            s.regions.len() == s0.regions.len(),
            forall|r: int|
                0 <= r < s0.regions.len() && r != p.region ==> s.regions[r] == s0.regions[r],
            s.regions[p.region as int].blocks == s0.regions[p.region as int].blocks,
            s.regions[p.region as int].mem@ == s0.regions[p.region as int].mem@.update(
                p.off + i,
                b,
            ),
            s.buckets == s0.buckets,
            s.budget == s0.budget,
        ensures
            s.wf(),
            forall|q: Ptr| s.ptr_valid(q) <==> s0.ptr_valid(q),
            forall|q: Ptr| s0.ptr_valid(q) ==> s.cap(q) == s0.cap(q),
            s.data(p) == s0.data(p).update(i, b),
            forall|q: Ptr| s0.ptr_valid(q) && q != p ==> s.data(q) == s0.data(q),
    {
        let ridx = p.region as int;
        let pos = p.off + i;
        s0.regions[ridx].lemma_in_span(w);
        assert(s.regions[ridx].wf());
        assert forall|r: int| 0 <= r < s.regions.len() implies (#[trigger] s.regions[r]).wf() by {
            if r != ridx {
                assert(s.regions[r] == s0.regions[r]);
            }
        }
        assert forall|x: int, y: int|
            0 <= x < s.buckets.len() && 0 <= y < s.buckets[x].len() implies s.entry_points_to_free(
            #[trigger] s.buckets[x][y],
        ) && class_of_spec(s.buckets[x][y].size as int) == x by {
            let e2 = s.buckets[x][y];
            assert(e2 == s0.buckets[x][y]);
            assert(s0.entry_points_to_free(e2));
            let i2 = choose|i2: int|
                {
                    &&& 0 <= i2 < s0.regions[e2.region as int].blocks.len()
                    &&& (#[trigger] s0.regions[e2.region as int].blocks[i2]).off == e2.off
                    &&& s0.regions[e2.region as int].blocks[i2].size == e2.size
                    &&& !s0.regions[e2.region as int].blocks[i2].used
                };
            assert(s.regions[e2.region as int].blocks[i2].off == e2.off);
        }
        assert forall|r: int, i3: int|
            0 <= r < s.regions.len() && 0 <= i3 < s.regions[r].blocks.len() && !(
        #[trigger] s.regions[r].blocks[i3]).used implies s.has_entry(
            Entry {
                region: r as usize,
                off: s.regions[r].blocks[i3].off,
                size: s.regions[r].blocks[i3].size,
            },
        ) by {
            assert(s0.regions[r].blocks[i3] == s.regions[r].blocks[i3]);
        }
        assert(s.wf());
        assert forall|q: Ptr| s.ptr_valid(q) <==> s0.ptr_valid(q) by {
            assert(forall|v: int| s.backs(q, v) <==> s0.backs(q, v));
        }
        assert forall|q: Ptr| s0.ptr_valid(q) implies s.cap(q) == s0.cap(q) by {
            let v = choose|v: int| s0.backs(q, v);
            assert(s0.backs(q, v));
            assert(s.backs(q, v));
            s.lemma_blk_is(q, v);
            s0.lemma_blk_is(q, v);
        }
        assert(s.backs(p, w));
        s.lemma_blk_is(p, w);
        assert(s.data(p) =~= s0.data(p).update(i, b));
        assert forall|q: Ptr| s0.ptr_valid(q) && q != p implies s.data(q) == s0.data(q) by {
            let v = choose|v: int| s0.backs(q, v);
            assert(s0.backs(q, v));
            assert(s.backs(q, v));
            s.lemma_blk_is(q, v);
            s0.lemma_blk_is(q, v);
            if q.region as int != ridx {
                assert(s.data(q) == s0.data(q));
            } else {
                assert(v != w) by {
                    if v == w {
                        assert(s0.regions[ridx].blocks[v].off + HEADER_SIZE == q.off);
                        assert(q == p);
                    }
                }
                if v < w {
                    s0.regions[ridx].lemma_ordered(v, w);
                } else {
                    s0.regions[ridx].lemma_ordered(w, v);
                    s0.regions[ridx].lemma_in_span(v);
                }
                assert(s.data(q) =~= s0.data(q));
            }
        }
    }

    /// Reads one payload byte of a live allocation.
    #[verifier::rlimit(100)]
    pub fn load(&self, p: Ptr, i: usize) -> (b: u8)
        requires
            self.ptr_valid(p),
            self.regions[p.region as int].wf(),
            i < self.cap(p),
        ensures
            b == self.data(p)[i as int],
    {
        proof {
            let w = self.blk(p);
            assert(self.backs(p, w));
            self.lemma_blk_is(p, w);
            self.regions[p.region as int].lemma_in_span(w);
            assert(p.off + i < self.regions[p.region as int].mem.len());
        }
        let reg = &self.regions[p.region];
        let b = reg.mem[p.off + i];
        proof {
            assert(b == self.data(p)[i as int]);
        }
        b
    }

    /// Serves a zero-filled request for `count` elements of `elem_size`
    /// bytes each. The multiplication is checked first: on overflow the
    /// result is `None` and nothing happens, never a small allocation.
    #[verifier::rlimit(100)]
    pub fn zero_allocate(&mut self, count: usize, elem_size: usize) -> (r: Option<Ptr>)
        requires
            old(self).wf(),
        ensures
            final(self).wf(),
            match r {
                Some(p) => {
                    &&& count * elem_size <= usize::MAX
                    &&& !old(self).alloc_fails((count * elem_size) as int)
                    &&& final(self).ptr_valid(p)
                    &&& !old(self).ptr_valid(p)
                    &&& p.off as int % (ALIGN as int) == 0
                    &&& final(self).cap(p) >= count * elem_size
                    &&& forall|x: int|
                        0 <= x < count * elem_size ==> final(self).data(p)[x] == 0
                    &&& forall|q: Ptr|
                        old(self).ptr_valid(q) ==> final(self).ptr_valid(q) && final(self).cap(q)
                            == old(self).cap(q) && final(self).data(q) == old(self).data(q)
                    &&& forall|q: Ptr| final(self).ptr_valid(q) && q != p ==> old(self).ptr_valid(q)
                },
                None => {
                    &&& (count * elem_size > usize::MAX || old(self).alloc_fails(
                        (count * elem_size) as int,
                    ))
                    &&& *final(self) == *old(self)
                },
            },
    {
        if elem_size != 0 && count > usize::MAX / elem_size {
            proof {
                let m = usize::MAX as int;
                let c = count as int;
                let sz = elem_size as int;
                vstd::arithmetic::div_mod::lemma_fundamental_div_mod(m, sz);
                assert(c * sz > m) by (nonlinear_arith)
                    requires
                        c >= m / sz + 1,
                        m == sz * (m / sz) + m % sz,
                        0 <= m % sz < sz,
                        sz >= 1,
                ;
            }
            return None;
        }
        proof {
            if elem_size != 0 {
                let m = usize::MAX as int;
                let c = count as int;
                let sz = elem_size as int;
                vstd::arithmetic::div_mod::lemma_fundamental_div_mod(m, sz);
                assert(c * sz <= m) by (nonlinear_arith)
                    requires
                        c <= m / sz,
                        m == sz * (m / sz) + m % sz,
                        0 <= m % sz,
                        sz >= 1,
                ;
            }
        }
        let n = count * elem_size;
        let p = match self.allocate(n) {
            Some(p) => p,
            None => {
                return None;
            },
        };
        self.zero_fill(p, n);
        Some(p)
    }

    /// Zeroes the first `n` payload bytes of a live allocation.
    #[verifier::rlimit(100)]
    fn zero_fill(&mut self, p: Ptr, n: usize)
        requires
            old(self).wf(),
            old(self).ptr_valid(p),
            n <= old(self).cap(p),
        ensures
            final(self).wf(),
            forall|q: Ptr| final(self).ptr_valid(q) <==> old(self).ptr_valid(q),
            forall|q: Ptr| old(self).ptr_valid(q) ==> final(self).cap(q) == old(self).cap(q),
            forall|y: int| 0 <= y < n ==> final(self).data(p)[y] == 0,
            forall|q: Ptr|
                old(self).ptr_valid(q) && q != p ==> final(self).data(q) == old(self).data(q),
            final(self).regions.len() == old(self).regions.len(),
            final(self).budget == old(self).budget,
    {
        let ghost s0 = *old(self);
        let ghost w = old(self).blk(p);
        proof {
            assert(s0.backs(p, w));
            s0.lemma_blk_is(p, w);
            s0.regions[p.region as int].lemma_in_span(w);
        }
        let ridx = p.region;
        let mut x: usize = 0;
        while x < n
            invariant
                x <= n,
                p.region < self.regions.len(),
                self.regions.len() == s0.regions.len(),
                forall|r: int|
                    0 <= r < s0.regions.len() && r != p.region ==> self.regions[r]
                        == s0.regions[r],
                self.regions[p.region as int].blocks == s0.regions[p.region as int].blocks,
                self.regions[p.region as int].mem.len() == s0.regions[p.region as int].mem.len(),
                p.off + n <= self.regions[p.region as int].mem.len(),
                ridx == p.region,
                forall|y: int|
                    p.off <= y < p.off + x ==> self.regions[p.region as int].mem@[y] == 0,
                forall|y: int|
                    0 <= y < s0.regions[p.region as int].mem.len() && !(p.off <= y < p.off + x)
                        ==> self.regions[p.region as int].mem@[y]
                        == s0.regions[p.region as int].mem@[y],
                self.buckets == s0.buckets,
                self.budget == s0.budget,
            decreases n - x,
        {
            let pos = p.off + x;
            self.regions[ridx].mem[pos] = 0;
            x = x + 1;
        }
        proof {
            Self::lemma_span_frame(s0, *self, p, w, n as int);
        }
    }

    /// Rewriting bytes strictly inside one live block's payload leaves
    /// the structure, every handle, and every other payload untouched.
    #[verifier::rlimit(100)]
    proof fn lemma_span_frame(s0: Self, s: Self, p: Ptr, w: int, n: int)
        requires
            s0.wf(),
            s0.backs(p, w),
            s0.blk(p) == w,
            0 <= n <= s0.cap(p),
            s.regions.len() == s0.regions.len(),
            forall|r: int|
                0 <= r < s0.regions.len() && r != p.region ==> s.regions[r] == s0.regions[r],
            s.regions[p.region as int].blocks == s0.regions[p.region as int].blocks,
            s.regions[p.region as int].mem.len() == s0.regions[p.region as int].mem.len(),
            forall|y: int|
                0 <= y < s0.regions[p.region as int].mem.len() && !(p.off <= y < p.off + n)
                    ==> s.regions[p.region as int].mem@[y] == s0.regions[p.region as int].mem@[y],
            s.buckets == s0.buckets,
            s.budget == s0.budget,
        ensures
            s.wf(),
            forall|q: Ptr| s.ptr_valid(q) <==> s0.ptr_valid(q),
            forall|q: Ptr| s0.ptr_valid(q) ==> s.cap(q) == s0.cap(q),
            forall|y: int| 0 <= y < n ==> s.data(p)[y] == s.regions[p.region as int].mem@[p.off + y],
            forall|q: Ptr| s0.ptr_valid(q) && q != p ==> s.data(q) == s0.data(q),
    {
        let ridx = p.region as int;
        s0.regions[ridx].lemma_in_span(w);
        assert(s.regions[ridx].wf());
        assert forall|r: int| 0 <= r < s.regions.len() implies (#[trigger] s.regions[r]).wf() by {
            if r != ridx {
                assert(s.regions[r] == s0.regions[r]);
            }
        }
        assert forall|x: int, y: int|
            0 <= x < s.buckets.len() && 0 <= y < s.buckets[x].len() implies s.entry_points_to_free(
            #[trigger] s.buckets[x][y],
        ) && class_of_spec(s.buckets[x][y].size as int) == x by {
            let e2 = s.buckets[x][y];
            assert(e2 == s0.buckets[x][y]);
            assert(s0.entry_points_to_free(e2));
            let i2 = choose|i2: int|
                {
                    &&& 0 <= i2 < s0.regions[e2.region as int].blocks.len()
                    &&& (#[trigger] s0.regions[e2.region as int].blocks[i2]).off == e2.off
                    &&& s0.regions[e2.region as int].blocks[i2].size == e2.size
                    &&& !s0.regions[e2.region as int].blocks[i2].used
                };
            assert(s.regions[e2.region as int].blocks[i2].off == e2.off);
        }
        assert forall|r: int, i3: int|
            0 <= r < s.regions.len() && 0 <= i3 < s.regions[r].blocks.len() && !(
        #[trigger] s.regions[r].blocks[i3]).used implies s.has_entry(
            Entry {
                region: r as usize,
                off: s.regions[r].blocks[i3].off,
                size: s.regions[r].blocks[i3].size,
            },
        ) by {
            assert(s0.regions[r].blocks[i3] == s.regions[r].blocks[i3]);
        }
        assert(s.wf());
        assert forall|q: Ptr| s.ptr_valid(q) <==> s0.ptr_valid(q) by {
            assert(forall|v: int| s.backs(q, v) <==> s0.backs(q, v));
        }
        assert forall|q: Ptr| s0.ptr_valid(q) implies s.cap(q) == s0.cap(q) by {
            let v = choose|v: int| s0.backs(q, v);
            assert(s0.backs(q, v));
            assert(s.backs(q, v));
            s.lemma_blk_is(q, v);
            s0.lemma_blk_is(q, v);
        }
        assert(s.backs(p, w));
        s.lemma_blk_is(p, w);
        assert forall|q: Ptr| s0.ptr_valid(q) && q != p implies s.data(q) == s0.data(q) by {
            let v = choose|v: int| s0.backs(q, v);
            assert(s0.backs(q, v));
            assert(s.backs(q, v));
            s.lemma_blk_is(q, v);
            s0.lemma_blk_is(q, v);
            if q.region as int != ridx {
                assert(s.data(q) == s0.data(q));
            } else {
                assert(v != w) by {
                    if v == w {
                        assert(s0.regions[ridx].blocks[v].off + HEADER_SIZE == q.off);
                        assert(q == p);
                    }
                }
                if v < w {
                    s0.regions[ridx].lemma_ordered(v, w);
                } else {
                    s0.regions[ridx].lemma_ordered(w, v);
                    s0.regions[ridx].lemma_in_span(v);
                }
                assert(s.data(q) =~= s0.data(q));
            }
        }
    }

    /// Copies a block list, replacing the pair at `i`, `i + 1` by the
    /// single block `m`.
    fn fuse_blocks(blocks: &Vec<BlockInfo>, i: usize, m: BlockInfo) -> (nb: Vec<BlockInfo>)
        requires
            i + 1 < blocks.len(),
        ensures
            nb.len() + 1 == blocks.len(),
            forall|x: int| 0 <= x < i ==> nb[x] == blocks[x],
            nb[i as int] == m,
            forall|x: int| i + 1 <= x < nb.len() ==> nb[x] == blocks[x + 1],
    {
        let mut out: Vec<BlockInfo> = Vec::new();
        let mut x: usize = 0;
        while x < i
            invariant
                x <= i,
                i + 1 < blocks.len(),
                out.len() == x,
                forall|y: int| 0 <= y < x ==> out[y] == blocks[y],
            decreases i - x,
        {
            out.push(blocks[x]);
            x = x + 1;
        }
        out.push(m);
        let mut z: usize = i + 2;
        while z < blocks.len()
            invariant
                i + 2 <= z <= blocks.len(),
                out.len() == z - 1,
                forall|y: int| 0 <= y < i ==> out[y] == blocks[y],
                out[i as int] == m,
                forall|y: int| i + 1 <= y < out.len() ==> out[y] == blocks[y + 1],
            decreases blocks.len() - z,
        {
            out.push(blocks[z]);
            z = z + 1;
        }
        out
    }

    /// Marks the block backing `p` free and lists it, when neither
    /// physical neighbor is free.
    #[verifier::rlimit(100)]
    fn free_in_place(&mut self, p: Ptr, i: usize)
        requires
            old(self).wf(),
            old(self).backs(p, i as int),
            i > 0 ==> old(self).regions[p.region as int].blocks[i - 1].used,
            i + 1 < old(self).regions[p.region as int].blocks.len() ==> old(self).regions[p.region as int].blocks[i + 1].used,
        ensures
            final(self).wf(),
            !final(self).ptr_valid(p),
            forall|q: Ptr| q != p ==> (final(self).ptr_valid(q) <==> old(self).ptr_valid(q)),
            forall|q: Ptr|
                old(self).ptr_valid(q) && q != p ==> final(self).cap(q) == old(self).cap(q)
                    && final(self).data(q) == old(self).data(q),
            final(self).regions.len() == old(self).regions.len(),
            final(self).budget == old(self).budget,
    {
        let ghost s0 = *old(self);
        let ridx = p.region;
        let b = self.regions[ridx].blocks[i];
        self.regions[ridx].blocks[i] = BlockInfo { off: b.off, size: b.size, used: false };
        let kc = class_of(b.size);
        self.buckets[kc].push(Entry { region: ridx, off: b.off, size: b.size });
        proof {
            let s = *self;
            let ii = i as int;
            let ob = s0.regions[ridx as int].blocks@;
            let nb = s.regions[ridx as int].blocks@;
            let new_e = Entry { region: ridx, off: b.off, size: b.size };
            assert(nb.len() == ob.len());
            assert(forall|x: int| 0 <= x < nb.len() && x != ii ==> nb[x] == ob[x]);
            assert(nb[ii] == BlockInfo { off: b.off, size: b.size, used: false });
            assert(s.regions[ridx as int].mem == s0.regions[ridx as int].mem);
            assert(forall|r: int|
                0 <= r < s.regions.len() && r != ridx ==> s.regions[r] == s0.regions[r]);
            assert(s.regions[ridx as int].wf());
            assert forall|r: int| 0 <= r < s.regions.len() implies (#[trigger] s.regions[r]).wf() by {
                if r != ridx {
                    assert(s.regions[r] == s0.regions[r]);
                }
            }
            // no old entry names this block's offset
            assert forall|x: int, y: int|
                0 <= x < s0.buckets.len() && 0 <= y < s0.buckets[x].len() implies !((
            #[trigger] s0.buckets[x][y]).region == ridx && s0.buckets[x][y].off == b.off) by {
                let e2 = s0.buckets[x][y];
                if e2.region == ridx && e2.off == b.off {
                    assert(s0.entry_points_to_free(e2));
                    let i2 = choose|i2: int|
                        {
                            &&& 0 <= i2 < s0.regions[e2.region as int].blocks.len()
                            &&& (#[trigger] s0.regions[e2.region as int].blocks[i2]).off == e2.off
                            &&& s0.regions[e2.region as int].blocks[i2].size == e2.size
                            &&& !s0.regions[e2.region as int].blocks[i2].used
                        };
                    s0.regions[ridx as int].lemma_off_unique(i2, ii);
                }
            }
            // index soundness
            assert forall|x: int, y: int|
                0 <= x < s.buckets.len() && 0 <= y < s.buckets[x].len()
                    implies s.entry_points_to_free(#[trigger] s.buckets[x][y]) && class_of_spec(
                s.buckets[x][y].size as int,
            ) == x by {
                let e2 = s.buckets[x][y];
                if x == kc as int && y == s.buckets[x].len() - 1 {
                    assert(e2 == new_e);
                    assert(nb[ii].off == b.off && nb[ii].size == b.size && !nb[ii].used);
                } else {
                    assert(e2 == s0.buckets[x][y]);
                    assert(s0.entry_points_to_free(e2));
                    let i2 = choose|i2: int|
                        {
                            &&& 0 <= i2 < s0.regions[e2.region as int].blocks.len()
                            &&& (#[trigger] s0.regions[e2.region as int].blocks[i2]).off == e2.off
                            &&& s0.regions[e2.region as int].blocks[i2].size == e2.size
                            &&& !s0.regions[e2.region as int].blocks[i2].used
                        };
                    if e2.region == ridx {
                        assert(i2 != ii);
                        assert(nb[i2] == ob[i2]);
                    } else {
                        assert(s.regions[e2.region as int] == s0.regions[e2.region as int]);
                        assert(s.regions[e2.region as int].blocks[i2].off == e2.off);
                    }
                }
            }
            // no block listed twice
            assert forall|x: int, y1: int, y2: int|
                0 <= x < s.buckets.len() && 0 <= y1 < y2 < s.buckets[x].len() implies !((
            #[trigger] s.buckets[x][y1]).region == (#[trigger] s.buckets[x][y2]).region
                && s.buckets[x][y1].off == s.buckets[x][y2].off) by {
                if x == kc as int && y2 == s.buckets[x].len() - 1 {
                    assert(s.buckets[x][y1] == s0.buckets[x][y1]);
                    assert(s.buckets[x][y2] == new_e);
                } else {
                    assert(s.buckets[x][y1] == s0.buckets[x][y1]);
                    assert(s.buckets[x][y2] == s0.buckets[x][y2]);
                }
            }
            // completeness
            assert forall|r: int, i3: int|
                0 <= r < s.regions.len() && 0 <= i3 < s.regions[r].blocks.len() && !(
            #[trigger] s.regions[r].blocks[i3]).used implies s.has_entry(
                Entry {
                    region: r as usize,
                    off: s.regions[r].blocks[i3].off,
                    size: s.regions[r].blocks[i3].size,
                },
            ) by {
                let e3 = Entry {
                    region: r as usize,
                    off: s.regions[r].blocks[i3].off,
                    size: s.regions[r].blocks[i3].size,
                };
                if r == ridx && i3 == ii {
                    assert(e3 == new_e);
                    assert(s.buckets[kc as int][s.buckets[kc as int].len() - 1] == new_e);
                } else {
                    assert(s0.regions[r].blocks[i3] == s.regions[r].blocks[i3]);
                    assert(s0.has_entry(e3));
                    let k3 = class_of_spec(e3.size as int);
                    let j3 = choose|j3: int|
                        0 <= j3 < s0.buckets[k3].len() && (#[trigger] s0.buckets[k3][j3]) == e3;
                    assert(s.buckets[k3][j3] == e3);
                }
            }
            assert(s.index_wf());
            // handle bookkeeping
            assert forall|w: int| !s.backs(p, w) by {
                if s.backs(p, w) {
                    s.regions[ridx as int].lemma_off_unique(w, ii);
                }
            }
            assert forall|q: Ptr| q != p implies (s.ptr_valid(q) <==> s0.ptr_valid(q)) by {
                if s0.ptr_valid(q) {
                    let w = choose|w: int| s0.backs(q, w);
                    assert(s0.backs(q, w));
                    if q.region == ridx {
                        assert(w != ii) by {
                            if w == ii {
                                assert(q == p);
                            }
                        }
                        assert(s.backs(q, w));
                    } else {
                        assert(s.regions[q.region as int] == s0.regions[q.region as int]);
                        assert(s.backs(q, w));
                    }
                }
                if s.ptr_valid(q) {
                    let w = choose|w: int| s.backs(q, w);
                    assert(s.backs(q, w));
                    if q.region == ridx {
                        assert(w != ii);
                        assert(s0.backs(q, w));
                    } else {
                        assert(s0.regions[q.region as int] == s.regions[q.region as int]);
                        assert(s0.backs(q, w));
                    }
                }
            }
            assert forall|q: Ptr|
                s0.ptr_valid(q) && q != p implies s.cap(q) == s0.cap(q) && s.data(q) == s0.data(
                q,
            ) by {
                let w = choose|w: int| s0.backs(q, w);
                assert(s0.backs(q, w));
                assert(w != ii || q.region != ridx) by {
                    if q.region == ridx && w == ii {
                        assert(q == p);
                    }
                }
                assert(s.backs(q, w));
                s.lemma_blk_is(q, w);
                s0.lemma_blk_is(q, w);
                assert(s.data(q) == s0.data(q));
            }
        }
    }

    /// Relation between the allocator before (`s0`) and after (`s`)
    /// absorbing free block `ii + 1` of region `ridx` into in-use block
    /// `ii`: bucket `k` lost the absorbed block's entry at `j`, and the
    /// two blocks were fused.
    #[verifier::opaque]
    pub open spec fn absorb_rel(
        s0: Self,
        s: Self,
        ridx: int,
        ii: int,
        k: int,
        j: int,
        b: BlockInfo,
        nxt: BlockInfo,
    ) -> bool {
        let ob = s0.regions[ridx].blocks@;
        let nbs = s.regions[ridx].blocks@;
        &&& 0 <= ridx < s0.regions.len()
        &&& 0 <= ii
        &&& ii + 1 < ob.len()
        &&& ob[ii] == b
        &&& ob[ii + 1] == nxt
        &&& b.used
        &&& !nxt.used
        &&& nxt.off == b.off + b.size
        &&& s.regions.len() == s0.regions.len()
        &&& forall|r: int| 0 <= r < s0.regions.len() && r != ridx ==> s.regions[r] == s0.regions[r]
        &&& s.regions[ridx].mem == s0.regions[ridx].mem
        &&& nbs.len() + 1 == ob.len()
        &&& forall|x: int| 0 <= x < ii ==> nbs[x] == ob[x]
        &&& nbs[ii] == (BlockInfo { off: b.off, size: (b.size + nxt.size) as usize, used: true })
        &&& forall|x: int| ii + 1 <= x < nbs.len() ==> nbs[x] == ob[x + 1]
        &&& s0.buckets.len() == NUM_CLASSES
        &&& k == class_of_spec(nxt.size as int)
        &&& 0 <= k < s0.buckets.len()
        &&& 0 <= j < s0.buckets[k].len()
        &&& s0.buckets[k][j] == (Entry { region: ridx as usize, off: nxt.off, size: nxt.size })
        &&& s.buckets.len() == s0.buckets.len()
        &&& forall|x: int| 0 <= x < s0.buckets.len() && x != k ==> s.buckets[x] == s0.buckets[x]
        &&& s.buckets[k].len() + 1 == s0.buckets[k].len()
        &&& forall|y: int| 0 <= y < j ==> s.buckets[k][y] == s0.buckets[k][y]
        &&& forall|y: int| j <= y < s.buckets[k].len() ==> s.buckets[k][y] == s0.buckets[k][y + 1]
        &&& s.budget == s0.budget
    }

    /// Absorbs the free block physically following `p`'s block into it,
    /// growing the allocation in place.
    #[verifier::rlimit(100)]
    fn absorb_next(&mut self, p: Ptr, i: usize)
        requires
            old(self).wf(),
            old(self).backs(p, i as int),
            i + 1 < old(self).regions[p.region as int].blocks.len(),
            !old(self).regions[p.region as int].blocks[i + 1].used,
        ensures
            final(self).wf(),
            final(self).ptr_valid(p),
            forall|q: Ptr| final(self).ptr_valid(q) <==> old(self).ptr_valid(q),
            final(self).cap(p) == old(self).cap(p) + old(self).regions[p.region as int].blocks[i
                + 1].size,
            forall|x: int| 0 <= x < old(self).cap(p) ==> final(self).data(p)[x] == old(self).data(p)[x],
            forall|q: Ptr|
                old(self).ptr_valid(q) && q != p ==> final(self).cap(q) == old(self).cap(q)
                    && final(self).data(q) == old(self).data(q),
            final(self).regions.len() == old(self).regions.len(),
            final(self).budget == old(self).budget,
            final(self).regions[p.region as int].blocks.len() + 1 == old(self).regions[p.region as int].blocks.len(),
            forall|x: int|
                0 <= x < i ==> final(self).regions[p.region as int].blocks[x] == old(self).regions[p.region as int].blocks[x],
            final(self).regions[p.region as int].blocks[i as int].used,
            final(self).regions[p.region as int].blocks[i as int].off == old(self).regions[p.region as int].blocks[i as int].off,
            forall|x: int|
                i + 1 <= x < final(self).regions[p.region as int].blocks.len() ==> final(self).regions[p.region as int].blocks[x] == old(self).regions[p.region as int].blocks[x
                    + 1],
    {
        let ghost s0 = *old(self);
        let ridx = p.region;
        let b = self.regions[ridx].blocks[i];
        let nxt = self.regions[ridx].blocks[i + 1];
        proof {
            s0.lemma_blk_is(p, i as int);
            s0.regions[ridx as int].lemma_in_span(i as int + 1);
            assert(s0.regions[ridx as int].blocks[i as int + 1].off == b.off + b.size);
        }
        let got = self.index_unlink(ridx, nxt.off, nxt.size);
        let nb = Self::fuse_blocks(
            &self.regions[ridx].blocks,
            i,
            BlockInfo { off: b.off, size: b.size + nxt.size, used: true },
        );
        self.regions[ridx].blocks = nb;
        proof {
            let s = *self;
            let ii = i as int;
            let k = got.0 as int;
            let j = got.1 as int;
            assert(Self::absorb_rel(s0, s, ridx as int, ii, k, j, b, nxt)) by {
                reveal(Allocator::absorb_rel);
                s0.buckets[k]@.remove_ensures(j);
            }
            Self::lemma_absorb_region_wf(s0, s, ridx as int, ii, k, j, b, nxt);
            Self::lemma_absorb_sound(s0, s, ridx as int, ii, k, j, b, nxt);
            Self::lemma_absorb_nodup(s0, s, ridx as int, ii, k, j, b, nxt);
            Self::lemma_absorb_complete(s0, s, ridx as int, ii, k, j, b, nxt);
            assert(s.wf());
            Self::lemma_absorb_ptrs(s0, s, ridx as int, ii, k, j, b, nxt, p);
        }
    }

    /// Fusing an in-use block with its free right neighbor keeps every
    /// region well-formed.
    #[verifier::rlimit(100)]
    proof fn lemma_absorb_region_wf(
        s0: Self,
        s: Self,
        ridx: int,
        ii: int,
        k: int,
        j: int,
        b: BlockInfo,
        nxt: BlockInfo,
    )
        requires
            forall|r: int| 0 <= r < s0.regions.len() ==> (#[trigger] s0.regions[r]).wf(),
            Self::absorb_rel(s0, s, ridx, ii, k, j, b, nxt),
        ensures
            forall|r: int| 0 <= r < s.regions.len() ==> (#[trigger] s.regions[r]).wf(),
    {
        reveal(Allocator::absorb_rel);
        let ob = s0.regions[ridx].blocks@;
        let nbs = s.regions[ridx].blocks@;
        assert forall|x: int| 0 <= x < nbs.len() implies (#[trigger] nbs[x].off) as int % (
        ALIGN as int) == 0 && nbs[x].size as int % (ALIGN as int) == 0 by {
            if x == ii {
                vstd::arithmetic::div_mod::lemma_add_mod_noop(b.size as int, nxt.size as int, 16);
            }
        }
        assert(s.regions[ridx].wf());
        assert forall|r: int| 0 <= r < s.regions.len() implies (#[trigger] s.regions[r]).wf() by {
            if r != ridx {
                assert(s.regions[r] == s0.regions[r]);
            }
        }
    }

    /// After absorbing a right neighbor, every index entry still names a
    /// free block in the bucket of its class.
    #[verifier::rlimit(100)]
    proof fn lemma_absorb_sound(
        s0: Self,
        s: Self,
        ridx: int,
        ii: int,
        k: int,
        j: int,
        b: BlockInfo,
        nxt: BlockInfo,
    )
        requires
            s0.wf(),
            Self::absorb_rel(s0, s, ridx, ii, k, j, b, nxt),
        ensures
            forall|x: int, y: int|
                0 <= x < s.buckets.len() && 0 <= y < s.buckets[x].len() ==> s.entry_points_to_free(
                    #[trigger] s.buckets[x][y],
                ) && class_of_spec(s.buckets[x][y].size as int) == x,
    {
        reveal(Allocator::absorb_rel);
        let ob = s0.regions[ridx].blocks@;
        let nbs = s.regions[ridx].blocks@;
        let rme = Entry { region: ridx as usize, off: nxt.off, size: nxt.size };
        assert forall|x: int, y: int|
            0 <= x < s.buckets.len() && 0 <= y < s.buckets[x].len() implies s.entry_points_to_free(
            #[trigger] s.buckets[x][y],
        ) && class_of_spec(s.buckets[x][y].size as int) == x by {
            let e2 = s.buckets[x][y];
            let y0: int = if x == k && y >= j {
                y + 1
            } else {
                y
            };
            assert(e2 == s0.buckets[x][y0]);
            assert(s0.entry_points_to_free(e2));
            let i2 = choose|i2: int|
                {
                    &&& 0 <= i2 < s0.regions[e2.region as int].blocks.len()
                    &&& (#[trigger] s0.regions[e2.region as int].blocks[i2]).off == e2.off
                    &&& s0.regions[e2.region as int].blocks[i2].size == e2.size
                    &&& !s0.regions[e2.region as int].blocks[i2].used
                };
            if e2.region as int == ridx {
                assert(i2 != ii);
                if i2 == ii + 1 {
                    assert(e2.off == rme.off && e2.size == rme.size && e2.region == rme.region);
                    if x == k {
                        assert(s0.buckets[x][y0] == s0.buckets[x][j]);
                        assert(false);
                    } else {
                        assert(class_of_spec(rme.size as int) == k);
                        assert(false);
                    }
                }
                if i2 < ii {
                    assert(nbs[i2].off == e2.off && nbs[i2].size == e2.size && !nbs[i2].used);
                } else {
                    assert(nbs[i2 - 1] == ob[i2]);
                }
            } else {
                assert(s.regions[e2.region as int] == s0.regions[e2.region as int]);
                assert(s.regions[e2.region as int].blocks[i2].off == e2.off);
            }
        }
    }

    /// After absorbing a right neighbor, no block is listed twice.
    #[verifier::rlimit(100)]
    proof fn lemma_absorb_nodup(
        s0: Self,
        s: Self,
        ridx: int,
        ii: int,
        k: int,
        j: int,
        b: BlockInfo,
        nxt: BlockInfo,
    )
        requires
            s0.wf(),
            Self::absorb_rel(s0, s, ridx, ii, k, j, b, nxt),
        ensures
            forall|x: int, y1: int, y2: int|
                0 <= x < s.buckets.len() && 0 <= y1 < y2 < s.buckets[x].len() ==> !((
                #[trigger] s.buckets[x][y1]).region == (#[trigger] s.buckets[x][y2]).region
                    && s.buckets[x][y1].off == s.buckets[x][y2].off),
    {
        reveal(Allocator::absorb_rel);
        assert forall|x: int, y1: int, y2: int|
            0 <= x < s.buckets.len() && 0 <= y1 < y2 < s.buckets[x].len() implies !((
        #[trigger] s.buckets[x][y1]).region == (#[trigger] s.buckets[x][y2]).region
            && s.buckets[x][y1].off == s.buckets[x][y2].off) by {
            let y01: int = if x == k && y1 >= j {
                y1 + 1
            } else {
                y1
            };
            let y02: int = if x == k && y2 >= j {
                y2 + 1
            } else {
                y2
            };
            assert(s.buckets[x][y1] == s0.buckets[x][y01]);
            assert(s.buckets[x][y2] == s0.buckets[x][y02]);
        }
    }

    /// After absorbing a right neighbor, every free block is listed.
    #[verifier::rlimit(100)]
    proof fn lemma_absorb_complete(
        s0: Self,
        s: Self,
        ridx: int,
        ii: int,
        k: int,
        j: int,
        b: BlockInfo,
        nxt: BlockInfo,
    )
        requires
            forall|r: int| 0 <= r < s0.regions.len() ==> (#[trigger] s0.regions[r]).wf(),
            forall|r: int, i: int|
                0 <= r < s0.regions.len() && 0 <= i < s0.regions[r].blocks.len() && !(
                #[trigger] s0.regions[r].blocks[i]).used ==> s0.has_entry(
                    Entry {
                        region: r as usize,
                        off: s0.regions[r].blocks[i].off,
                        size: s0.regions[r].blocks[i].size,
                    },
                ),
            Self::absorb_rel(s0, s, ridx, ii, k, j, b, nxt),
        ensures
            forall|r: int, i3: int|
                0 <= r < s.regions.len() && 0 <= i3 < s.regions[r].blocks.len() && !(
                #[trigger] s.regions[r].blocks[i3]).used ==> s.has_entry(
                    Entry {
                        region: r as usize,
                        off: s.regions[r].blocks[i3].off,
                        size: s.regions[r].blocks[i3].size,
                    },
                ),
    {
        reveal(Allocator::absorb_rel);
        let ob = s0.regions[ridx].blocks@;
        let rme = Entry { region: ridx as usize, off: nxt.off, size: nxt.size };
        assert forall|r: int, i3: int|
            0 <= r < s.regions.len() && 0 <= i3 < s.regions[r].blocks.len() && !(
        #[trigger] s.regions[r].blocks[i3]).used implies s.has_entry(
            Entry {
                region: r as usize,
                off: s.regions[r].blocks[i3].off,
                size: s.regions[r].blocks[i3].size,
            },
        ) by {
            let b3 = s.regions[r].blocks[i3];
            let e3 = Entry { region: r as usize, off: b3.off, size: b3.size };
            let i30: int = if r == ridx && i3 >= ii + 1 {
                i3 + 1
            } else {
                i3
            };
            assert(s0.regions[r].blocks[i30] == b3);
            assert(!s0.regions[r].blocks[i30].used);
            assert(s0.has_entry(e3));
            let k3 = class_of_spec(e3.size as int);
            let j3 = choose|j3: int|
                0 <= j3 < s0.buckets[k3].len() && (#[trigger] s0.buckets[k3][j3]) == e3;
            assert(i30 != ii + 1 || r != ridx);
            if k3 == k {
                if j3 == j {
                    assert(e3 == rme);
                    if r == ridx {
                        s0.regions[ridx].lemma_off_unique(i30, ii + 1);
                    }
                    assert(false);
                }
                let jn: int = if j3 < j {
                    j3
                } else {
                    j3 - 1
                };
                assert(s.buckets[k3][jn] == s0.buckets[k3][j3]);
            } else {
                assert(0 <= k3 < s0.buckets.len());
                assert(s.buckets[k3] == s0.buckets[k3]);
                assert(s.buckets[k3][j3] == e3);
            }
        }
    }

    /// After absorbing a right neighbor, the grown handle keeps its
    /// payload prefix and every other handle is untouched.
    #[verifier::rlimit(100)]
    proof fn lemma_absorb_ptrs(
        s0: Self,
        s: Self,
        ridx: int,
        ii: int,
        k: int,
        j: int,
        b: BlockInfo,
        nxt: BlockInfo,
        p: Ptr,
    )
        requires
            forall|r: int| 0 <= r < s0.regions.len() ==> (#[trigger] s0.regions[r]).wf(),
            forall|r: int| 0 <= r < s.regions.len() ==> (#[trigger] s.regions[r]).wf(),
            Self::absorb_rel(s0, s, ridx, ii, k, j, b, nxt),
            p.region == ridx,
            p.off == b.off + HEADER_SIZE,
            s0.backs(p, ii),
        ensures
            s.ptr_valid(p),
            forall|q: Ptr| s.ptr_valid(q) <==> s0.ptr_valid(q),
            s.cap(p) == s0.cap(p) + nxt.size,
            forall|x: int| 0 <= x < s0.cap(p) ==> s.data(p)[x] == s0.data(p)[x],
            forall|q: Ptr|
                s0.ptr_valid(q) && q != p ==> s.cap(q) == s0.cap(q) && s.data(q) == s0.data(q),
    {
        reveal(Allocator::absorb_rel);
        let ob = s0.regions[ridx].blocks@;
        let nbs = s.regions[ridx].blocks@;
        assert(s.backs(p, ii));
        s.lemma_blk_is(p, ii);
        s0.lemma_blk_is(p, ii);
        assert forall|q: Ptr| s.ptr_valid(q) <==> s0.ptr_valid(q) by {
            if s0.ptr_valid(q) {
                let w = choose|w: int| s0.backs(q, w);
                assert(s0.backs(q, w));
                if q.region as int == ridx {
                    assert(w != ii + 1);
                    if w <= ii {
                        assert(s.backs(q, w));
                    } else {
                        assert(nbs[w - 1] == ob[w]);
                        assert(s.backs(q, w - 1));
                    }
                } else {
                    assert(s.regions[q.region as int] == s0.regions[q.region as int]);
                    assert(s.backs(q, w));
                }
            }
            if s.ptr_valid(q) {
                let w = choose|w: int| s.backs(q, w);
                assert(s.backs(q, w));
                if q.region as int == ridx {
                    if w == ii {
                        assert(q == p);
                        assert(s0.backs(q, ii));
                    } else if w < ii {
                        assert(s0.backs(q, w));
                    } else {
                        assert(nbs[w] == ob[w + 1]);
                        assert(s0.backs(q, w + 1));
                    }
                } else {
                    assert(s0.regions[q.region as int] == s.regions[q.region as int]);
                    assert(s0.backs(q, w));
                }
            }
        }
        assert forall|x: int| 0 <= x < s0.cap(p) implies s.data(p)[x] == s0.data(p)[x] by {
            s0.regions[ridx].lemma_in_span(ii + 1);
        }
        assert forall|q: Ptr|
            s0.ptr_valid(q) && q != p implies s.cap(q) == s0.cap(q) && s.data(q) == s0.data(q) by {
            let w = choose|w: int| s0.backs(q, w);
            assert(s0.backs(q, w));
            if q.region as int == ridx {
                assert(w != ii + 1);
                assert(w != ii) by {
                    if w == ii {
                        assert(q == p);
                    }
                }
                let wn: int = if w < ii {
                    w
                } else {
                    w - 1
                };
                assert(nbs[wn] == ob[w]);
                assert(s.backs(q, wn));
                s.lemma_blk_is(q, wn);
                s0.lemma_blk_is(q, w);
                assert(s.data(q) == s0.data(q));
            } else {
                assert(s.regions[q.region as int] == s0.regions[q.region as int]);
                assert(s.backs(q, w));
                s.lemma_blk_is(q, w);
                s0.lemma_blk_is(q, w);
            }
        }
    }

    /// Relation between the allocator before (`s0`) and after (`s`)
    /// merging in-use block `ii` of region `ridx` into its free left
    /// neighbor, leaving one free block in their place.
    #[verifier::opaque]
    pub open spec fn merge_prev_blocks_rel(
        s0: Self,
        s: Self,
        ridx: int,
        ii: int,
        prv: BlockInfo,
        b: BlockInfo,
    ) -> bool {
        let ob = s0.regions[ridx].blocks@;
        let nbs = s.regions[ridx].blocks@;
        &&& 0 <= ridx < s0.regions.len()
        &&& 1 <= ii < ob.len()
        &&& ob[ii - 1] == prv
        &&& ob[ii] == b
        &&& !prv.used
        &&& b.used
        &&& b.off == prv.off + prv.size
        &&& (ii + 1 < ob.len() ==> ob[ii + 1].used)
        &&& s.regions.len() == s0.regions.len()
        &&& forall|r: int| 0 <= r < s0.regions.len() && r != ridx ==> s.regions[r] == s0.regions[r]
        &&& s.regions[ridx].mem == s0.regions[ridx].mem
        &&& nbs.len() + 1 == ob.len()
        &&& forall|x: int| 0 <= x < ii - 1 ==> nbs[x] == ob[x]
        &&& nbs[ii - 1] == (BlockInfo {
            off: prv.off,
            size: (prv.size + b.size) as usize,
            used: false,
        })
        &&& forall|x: int| ii <= x < nbs.len() ==> nbs[x] == ob[x + 1]
        &&& s0.buckets.len() == NUM_CLASSES
    }

    /// Merges the in-use block backing `p` into its free left neighbor:
    /// the neighbor's entry leaves the index, the two blocks fuse into
    /// one free block, and that block is listed.
    #[verifier::rlimit(100)]
    fn merge_into_prev(&mut self, p: Ptr, i: usize)
        requires
            old(self).wf(),
            old(self).backs(p, i as int),
            i >= 1,
            !old(self).regions[p.region as int].blocks[i - 1].used,
            i + 1 < old(self).regions[p.region as int].blocks.len() ==> old(self).regions[p.region as int].blocks[i + 1].used,
        ensures
            final(self).wf(),
            !final(self).ptr_valid(p),
            forall|q: Ptr| q != p ==> (final(self).ptr_valid(q) <==> old(self).ptr_valid(q)),
            forall|q: Ptr|
                old(self).ptr_valid(q) && q != p ==> final(self).cap(q) == old(self).cap(q)
                    && final(self).data(q) == old(self).data(q),
            final(self).regions.len() == old(self).regions.len(),
            final(self).budget == old(self).budget,
    {
        let ghost s0 = *old(self);
        let ridx = p.region;
        let prv = self.regions[ridx].blocks[i - 1];
        let b = self.regions[ridx].blocks[i];
        proof {
            s0.regions[ridx as int].lemma_in_span(i as int);
            assert(s0.regions[ridx as int].blocks[i as int].off == prv.off + prv.size);
        }
        let got = self.index_unlink(ridx, prv.off, prv.size);
        let nb = Self::fuse_blocks(
            &self.regions[ridx].blocks,
            i - 1,
            BlockInfo { off: prv.off, size: prv.size + b.size, used: false },
        );
        self.regions[ridx].blocks = nb;
        let kc = class_of(prv.size + b.size);
        self.buckets[kc].push(
            Entry { region: ridx, off: prv.off, size: prv.size + b.size },
        );
        proof {
            let s = *self;
            let ii = i as int;
            let k = got.0 as int;
            let j = got.1 as int;
            let merged_e = Entry {
                region: ridx,
                off: prv.off,
                size: (prv.size + b.size) as usize,
            };
            assert(Self::merge_prev_blocks_rel(s0, s, ridx as int, ii, prv, b)) by {
                reveal(Allocator::merge_prev_blocks_rel);
            }
            assert(Self::merge_buckets_rel(s0, s, k, j, merged_e)) by {
                reveal(Allocator::merge_buckets_rel);
                s0.buckets[k]@.remove_ensures(j);
            }
            Self::lemma_merge_region_wf(s0, s, ridx as int, ii, prv, b);
            Self::lemma_merge_sound(s0, s, ridx as int, ii, k, j, prv, b, merged_e);
            Self::lemma_merge_nodup(s0, s, ridx as int, ii, k, j, prv, b, merged_e);
            Self::lemma_merge_complete(s0, s, ridx as int, ii, k, j, prv, b, merged_e);
            assert(s.wf());
            Self::lemma_merge_ptrs(s0, s, ridx as int, ii, prv, b, p);
        }
    }

    /// How the buckets change on a merge: bucket `k` loses entry `j`
    /// keeping its order, and `new_e` arrives at the tail of its class's
    /// bucket.
    #[verifier::opaque]
    pub open spec fn merge_buckets_rel(s0: Self, s: Self, k: int, j: int, new_e: Entry) -> bool {
        let kc = class_of_spec(new_e.size as int);
        &&& 0 <= k < s0.buckets.len()
        &&& 0 <= j < s0.buckets[k].len()
        &&& 0 <= kc < s0.buckets.len()
        &&& s0.buckets.len() == NUM_CLASSES
        &&& s.buckets.len() == s0.buckets.len()
        &&& forall|x: int|
            0 <= x < s0.buckets.len() && x != k && x != kc ==> s.buckets[x] == s0.buckets[x]
        &&& (if k == kc {
            &&& s.buckets[k].len() == s0.buckets[k].len()
            &&& forall|y: int| 0 <= y < j ==> s.buckets[k][y] == s0.buckets[k][y]
            &&& forall|y: int|
                j <= y < s.buckets[k].len() - 1 ==> s.buckets[k][y] == s0.buckets[k][y + 1]
            &&& s.buckets[k][s.buckets[k].len() - 1] == new_e
        } else {
            &&& s.buckets[k].len() + 1 == s0.buckets[k].len()
            &&& forall|y: int| 0 <= y < j ==> s.buckets[k][y] == s0.buckets[k][y]
            &&& forall|y: int|
                j <= y < s.buckets[k].len() ==> s.buckets[k][y] == s0.buckets[k][y + 1]
            &&& s.buckets[kc].len() == s0.buckets[kc].len() + 1
            &&& forall|y: int| 0 <= y < s0.buckets[kc].len() ==> s.buckets[kc][y] == s0.buckets[kc][y]
            &&& s.buckets[kc][s.buckets[kc].len() - 1] == new_e
        })
    }

    /// Merging into a free left neighbor keeps every region well-formed.
    #[verifier::rlimit(100)]
    proof fn lemma_merge_region_wf(
        s0: Self,
        s: Self,
        ridx: int,
        ii: int,
        prv: BlockInfo,
        b: BlockInfo,
    )
        requires
            forall|r: int| 0 <= r < s0.regions.len() ==> (#[trigger] s0.regions[r]).wf(),
            Self::merge_prev_blocks_rel(s0, s, ridx, ii, prv, b),
        ensures
            forall|r: int| 0 <= r < s.regions.len() ==> (#[trigger] s.regions[r]).wf(),
    {
        reveal(Allocator::merge_prev_blocks_rel);
        let ob = s0.regions[ridx].blocks@;
        let nbs = s.regions[ridx].blocks@;
        assert forall|x: int| 0 <= x < nbs.len() implies (#[trigger] nbs[x].off) as int % (
        ALIGN as int) == 0 && nbs[x].size as int % (ALIGN as int) == 0 by {
            if x == ii - 1 {
                vstd::arithmetic::div_mod::lemma_add_mod_noop(prv.size as int, b.size as int, 16);
            }
        }
        assert forall|x: int| 0 <= x < nbs.len() - 1 implies !((#[trigger] nbs[x].used == false)
            && nbs[x + 1].used == false) by {
            if x == ii - 1 {
                assert(nbs[x + 1] == ob[ii + 1]);
            } else if x == ii - 2 && ii >= 2 {
                assert(nbs[x] == ob[x]);
                assert(!ob[ii - 1].used);
                assert(ob[ii - 2].used);
            }
        }
        assert(s.regions[ridx].wf());
        assert forall|r: int| 0 <= r < s.regions.len() implies (#[trigger] s.regions[r]).wf() by {
            if r != ridx {
                assert(s.regions[r] == s0.regions[r]);
            }
        }
    }

    /// After a merge, every index entry still names a free block in the
    /// bucket of its class.
    #[verifier::rlimit(100)]
    proof fn lemma_merge_sound(
        s0: Self,
        s: Self,
        ridx: int,
        ii: int,
        k: int,
        j: int,
        prv: BlockInfo,
        b: BlockInfo,
        new_e: Entry,
    )
        requires
            s0.wf(),
            Self::merge_prev_blocks_rel(s0, s, ridx, ii, prv, b),
            Self::merge_buckets_rel(s0, s, k, j, new_e),
            s0.buckets[k][j] == (Entry { region: ridx as usize, off: prv.off, size: prv.size }),
            new_e == (Entry { region: ridx as usize, off: prv.off, size: (prv.size + b.size) as usize }),
        ensures
            forall|x: int, y: int|
                0 <= x < s.buckets.len() && 0 <= y < s.buckets[x].len() ==> s.entry_points_to_free(
                    #[trigger] s.buckets[x][y],
                ) && class_of_spec(s.buckets[x][y].size as int) == x,
    {
        reveal(Allocator::merge_prev_blocks_rel);
        reveal(Allocator::merge_buckets_rel);
        let ob = s0.regions[ridx].blocks@;
        let nbs = s.regions[ridx].blocks@;
        let kc = class_of_spec(new_e.size as int);
        let rme = s0.buckets[k][j];
        assert forall|x: int, y: int|
            0 <= x < s.buckets.len() && 0 <= y < s.buckets[x].len() implies s.entry_points_to_free(
            #[trigger] s.buckets[x][y],
        ) && class_of_spec(s.buckets[x][y].size as int) == x by {
            let e2 = s.buckets[x][y];
            if x == kc && y == s.buckets[x].len() - 1 {
                assert(e2 == new_e);
                assert(nbs[ii - 1].off == new_e.off && nbs[ii - 1].size == new_e.size && !nbs[ii
                    - 1].used);
            } else {
                let y0: int = if x == k && y >= j {
                    y + 1
                } else {
                    y
                };
                assert(e2 == s0.buckets[x][y0]);
                assert(s0.entry_points_to_free(e2));
                let i2 = choose|i2: int|
                    {
                        &&& 0 <= i2 < s0.regions[e2.region as int].blocks.len()
                        &&& (#[trigger] s0.regions[e2.region as int].blocks[i2]).off == e2.off
                        &&& s0.regions[e2.region as int].blocks[i2].size == e2.size
                        &&& !s0.regions[e2.region as int].blocks[i2].used
                    };
                if e2.region as int == ridx {
                    assert(i2 != ii);
                    if i2 == ii - 1 {
                        assert(e2.off == rme.off && e2.size == rme.size && e2.region == rme.region);
                        if x == k {
                            assert(s0.buckets[x][y0] == s0.buckets[x][j]);
                            assert(false);
                        } else {
                            assert(class_of_spec(rme.size as int) == k);
                            assert(false);
                        }
                    }
                    if i2 < ii - 1 {
                        assert(nbs[i2].off == e2.off && nbs[i2].size == e2.size && !nbs[i2].used);
                    } else {
                        assert(nbs[i2 - 1] == ob[i2]);
                    }
                } else {
                    assert(s.regions[e2.region as int] == s0.regions[e2.region as int]);
                    assert(s.regions[e2.region as int].blocks[i2].off == e2.off);
                }
            }
        }
    }

    /// After a merge, no block is listed twice.
    #[verifier::rlimit(100)]
    proof fn lemma_merge_nodup(
        s0: Self,
        s: Self,
        ridx: int,
        ii: int,
        k: int,
        j: int,
        prv: BlockInfo,
        b: BlockInfo,
        new_e: Entry,
    )
        requires
            s0.wf(),
            Self::merge_prev_blocks_rel(s0, s, ridx, ii, prv, b),
            Self::merge_buckets_rel(s0, s, k, j, new_e),
            s0.buckets[k][j] == (Entry { region: ridx as usize, off: prv.off, size: prv.size }),
            new_e == (Entry { region: ridx as usize, off: prv.off, size: (prv.size + b.size) as usize }),
        ensures
            forall|x: int, y1: int, y2: int|
                0 <= x < s.buckets.len() && 0 <= y1 < y2 < s.buckets[x].len() ==> !((
                #[trigger] s.buckets[x][y1]).region == (#[trigger] s.buckets[x][y2]).region
                    && s.buckets[x][y1].off == s.buckets[x][y2].off),
    {
        reveal(Allocator::merge_prev_blocks_rel);
        reveal(Allocator::merge_buckets_rel);
        let ob = s0.regions[ridx].blocks@;
        let kc = class_of_spec(new_e.size as int);
        let rme = s0.buckets[k][j];
        assert forall|x: int, y1: int, y2: int|
            0 <= x < s.buckets.len() && 0 <= y1 < y2 < s.buckets[x].len() implies !((
        #[trigger] s.buckets[x][y1]).region == (#[trigger] s.buckets[x][y2]).region
            && s.buckets[x][y1].off == s.buckets[x][y2].off) by {
            let a = s.buckets[x][y1];
            let c = s.buckets[x][y2];
            if x == kc && y2 == s.buckets[x].len() - 1 {
                assert(c == new_e);
                let y0: int = if x == k && y1 >= j {
                    y1 + 1
                } else {
                    y1
                };
                assert(a == s0.buckets[x][y0]);
                assert(s0.entry_points_to_free(a));
                if a.region == new_e.region && a.off == new_e.off {
                    let i2 = choose|i2: int|
                        {
                            &&& 0 <= i2 < s0.regions[a.region as int].blocks.len()
                            &&& (#[trigger] s0.regions[a.region as int].blocks[i2]).off == a.off
                            &&& s0.regions[a.region as int].blocks[i2].size == a.size
                            &&& !s0.regions[a.region as int].blocks[i2].used
                        };
                    s0.regions[ridx].lemma_off_unique(i2, ii - 1);
                    assert(a == rme);
                    if x == k {
                        assert(false);
                    } else {
                        assert(class_of_spec(rme.size as int) == k);
                        assert(false);
                    }
                }
            } else {
                let y01: int = if x == k && y1 >= j {
                    y1 + 1
                } else {
                    y1
                };
                let y02: int = if x == k && y2 >= j {
                    y2 + 1
                } else {
                    y2
                };
                assert(a == s0.buckets[x][y01]);
                assert(c == s0.buckets[x][y02]);
            }
        }
    }

    /// After a merge, every free block is listed.
    #[verifier::rlimit(100)]
    proof fn lemma_merge_complete(
        s0: Self,
        s: Self,
        ridx: int,
        ii: int,
        k: int,
        j: int,
        prv: BlockInfo,
        b: BlockInfo,
        new_e: Entry,
    )
        requires
            forall|r: int| 0 <= r < s0.regions.len() ==> (#[trigger] s0.regions[r]).wf(),
            forall|r: int, i: int|
                0 <= r < s0.regions.len() && 0 <= i < s0.regions[r].blocks.len() && !(
                #[trigger] s0.regions[r].blocks[i]).used ==> s0.has_entry(
                    Entry {
                        region: r as usize,
                        off: s0.regions[r].blocks[i].off,
                        size: s0.regions[r].blocks[i].size,
                    },
                ),
            Self::merge_prev_blocks_rel(s0, s, ridx, ii, prv, b),
            Self::merge_buckets_rel(s0, s, k, j, new_e),
            s0.buckets[k][j] == (Entry { region: ridx as usize, off: prv.off, size: prv.size }),
            new_e == (Entry { region: ridx as usize, off: prv.off, size: (prv.size + b.size) as usize }),
        ensures
            forall|r: int, i3: int|
                0 <= r < s.regions.len() && 0 <= i3 < s.regions[r].blocks.len() && !(
                #[trigger] s.regions[r].blocks[i3]).used ==> s.has_entry(
                    Entry {
                        region: r as usize,
                        off: s.regions[r].blocks[i3].off,
                        size: s.regions[r].blocks[i3].size,
                    },
                ),
    {
        reveal(Allocator::merge_prev_blocks_rel);
        reveal(Allocator::merge_buckets_rel);
        let ob = s0.regions[ridx].blocks@;
        let nbs = s.regions[ridx].blocks@;
        let kc = class_of_spec(new_e.size as int);
        let rme = s0.buckets[k][j];
        assert forall|r: int, i3: int|
            0 <= r < s.regions.len() && 0 <= i3 < s.regions[r].blocks.len() && !(
        #[trigger] s.regions[r].blocks[i3]).used implies s.has_entry(
            Entry {
                region: r as usize,
                off: s.regions[r].blocks[i3].off,
                size: s.regions[r].blocks[i3].size,
            },
        ) by {
            let b3 = s.regions[r].blocks[i3];
            let e3 = Entry { region: r as usize, off: b3.off, size: b3.size };
            if r == ridx && i3 == ii - 1 {
                assert(e3 == new_e);
                assert(s.buckets[kc][s.buckets[kc].len() - 1] == new_e);
            } else {
                let i30: int = if r == ridx && i3 >= ii {
                    i3 + 1
                } else {
                    i3
                };
                assert(s0.regions[r].blocks[i30] == b3);
                assert(!s0.regions[r].blocks[i30].used);
                assert(s0.has_entry(e3));
                let k3 = class_of_spec(e3.size as int);
                let j3 = choose|j3: int|
                    0 <= j3 < s0.buckets[k3].len() && (#[trigger] s0.buckets[k3][j3]) == e3;
                assert(i30 != ii - 1 || r != ridx);
                if k3 == k {
                    if j3 == j {
                        assert(e3 == rme);
                        if r == ridx {
                            s0.regions[ridx].lemma_off_unique(i30, ii - 1);
                        }
                        assert(false);
                    }
                    let jn: int = if j3 < j {
                        j3
                    } else {
                        j3 - 1
                    };
                    assert(s.buckets[k3][jn] == s0.buckets[k3][j3]);
                } else if k3 == kc {
                    assert(s.buckets[k3][j3] == e3);
                } else {
                    assert(0 <= k3 < s0.buckets.len());
                    assert(s.buckets[k3] == s0.buckets[k3]);
                    assert(s.buckets[k3][j3] == e3);
                }
            }
        }
    }

    /// After a merge, the released handle is dead and every other handle
    /// is untouched.
    #[verifier::rlimit(100)]
    proof fn lemma_merge_ptrs(
        s0: Self,
        s: Self,
        ridx: int,
        ii: int,
        prv: BlockInfo,
        b: BlockInfo,
        p: Ptr,
    )
        requires
            forall|r: int| 0 <= r < s0.regions.len() ==> (#[trigger] s0.regions[r]).wf(),
            forall|r: int| 0 <= r < s.regions.len() ==> (#[trigger] s.regions[r]).wf(),
            Self::merge_prev_blocks_rel(s0, s, ridx, ii, prv, b),
            p.region == ridx,
            p.off == b.off + HEADER_SIZE,
            s0.backs(p, ii),
        ensures
            !s.ptr_valid(p),
            forall|q: Ptr| q != p ==> (s.ptr_valid(q) <==> s0.ptr_valid(q)),
            forall|q: Ptr|
                s0.ptr_valid(q) && q != p ==> s.cap(q) == s0.cap(q) && s.data(q) == s0.data(q),
    {
        reveal(Allocator::merge_prev_blocks_rel);
        let ob = s0.regions[ridx].blocks@;
        let nbs = s.regions[ridx].blocks@;
        assert forall|w: int| !s.backs(p, w) by {
            if s.backs(p, w) {
                if w == ii - 1 {
                } else if w < ii - 1 {
                    s0.regions[ridx].lemma_off_unique(w, ii);
                } else {
                    assert(nbs[w] == ob[w + 1]);
                    s0.regions[ridx].lemma_off_unique(w + 1, ii);
                }
            }
        }
        assert forall|q: Ptr| q != p implies (s.ptr_valid(q) <==> s0.ptr_valid(q)) by {
            if s0.ptr_valid(q) {
                let w = choose|w: int| s0.backs(q, w);
                assert(s0.backs(q, w));
                if q.region as int == ridx {
                    assert(w != ii - 1);
                    assert(w != ii) by {
                        if w == ii {
                            assert(q == p);
                        }
                    }
                    if w < ii - 1 {
                        assert(s.backs(q, w));
                    } else {
                        assert(nbs[w - 1] == ob[w]);
                        assert(s.backs(q, w - 1));
                    }
                } else {
                    assert(s.regions[q.region as int] == s0.regions[q.region as int]);
                    assert(s.backs(q, w));
                }
            }
            if s.ptr_valid(q) {
                let w = choose|w: int| s.backs(q, w);
                assert(s.backs(q, w));
                if q.region as int == ridx {
                    assert(w != ii - 1);
                    if w < ii - 1 {
                        assert(s0.backs(q, w));
                    } else {
                        assert(nbs[w] == ob[w + 1]);
                        assert(s0.backs(q, w + 1));
                    }
                } else {
                    assert(s0.regions[q.region as int] == s.regions[q.region as int]);
                    assert(s0.backs(q, w));
                }
            }
        }
        assert forall|q: Ptr|
            s0.ptr_valid(q) && q != p implies s.cap(q) == s0.cap(q) && s.data(q) == s0.data(q) by {
            let w = choose|w: int| s0.backs(q, w);
            assert(s0.backs(q, w));
            if q.region as int == ridx {
                assert(w != ii - 1);
                assert(w != ii) by {
                    if w == ii {
                        assert(q == p);
                    }
                }
                let wn: int = if w < ii - 1 {
                    w
                } else {
                    w - 1
                };
                assert(nbs[wn] == ob[w]);
                assert(s.backs(q, wn));
                s.lemma_blk_is(q, wn);
                s0.lemma_blk_is(q, w);
                assert(s.data(q) == s0.data(q));
            } else {
                assert(s.regions[q.region as int] == s0.regions[q.region as int]);
                assert(s.backs(q, w));
                s.lemma_blk_is(q, w);
                s0.lemma_blk_is(q, w);
            }
        }
    }

    /// Releases an allocation. A `None` handle is a no-op. A handle this
    /// allocator does not own is caught by the ownership guard and
    /// ignored rather than corrupting the heap. A live handle's block is
    /// marked free, eagerly coalesced with any free physical neighbor,
    /// and listed in the free-list index.
    #[verifier::rlimit(100)]
    pub fn release(&mut self, p: Option<Ptr>)
        requires
            old(self).wf(),
        ensures
            final(self).wf(),
            match p {
                None => *final(self) == *old(self),
                Some(pp) => {
                    &&& (!old(self).ptr_valid(pp) ==> *final(self) == *old(self))
                    &&& (old(self).ptr_valid(pp) ==> {
                        &&& !final(self).ptr_valid(pp)
                        &&& forall|q: Ptr|
                            q != pp ==> (final(self).ptr_valid(q) <==> old(self).ptr_valid(q))
                        &&& forall|q: Ptr|
                            old(self).ptr_valid(q) && q != pp ==> final(self).cap(q) == old(self).cap(q) && final(self).data(q) == old(self).data(q)
                        &&& final(self).regions.len() == old(self).regions.len()
                        &&& final(self).budget == old(self).budget
                    })
                },
            },
    {
        let pp = match p {
            None => {
                return;
            },
            Some(pp) => pp,
        };
        if !self.owns(pp) {
            return;
        }
        let ghost s0 = *old(self);
        let ridx = pp.region;
        let i = match self.regions[ridx].find_block(pp.off - HEADER_SIZE) {
            Some(i) => i,
            None => {
                proof {
                    let w = self.blk(pp);
                    assert(self.backs(pp, w));
                }
                vstd::pervasive::unreached()
            },
        };
        proof {
            let w = self.blk(pp);
            assert(self.backs(pp, w));
            self.regions[ridx as int].lemma_off_unique(i as int, w);
            assert(self.backs(pp, i as int));
        }
        if i + 1 < self.regions[ridx].blocks.len() && !self.regions[ridx].blocks[i + 1].used {
            proof {
                if i as int + 2 < s0.regions[ridx as int].blocks.len() {
                    assert(s0.regions[ridx as int].blocks[i as int + 2].used);
                }
            }
            self.absorb_next(pp, i);
            proof {
                assert(self.backs(pp, i as int));
            }
        }
        let ghost s1 = *self;
        proof {
            assert(i as int + 1 < self.regions[ridx as int].blocks.len()
                ==> self.regions[ridx as int].blocks[i as int + 1].used);
        }
        if i > 0 && !self.regions[ridx].blocks[i - 1].used {
            self.merge_into_prev(pp, i);
        } else {
            self.free_in_place(pp, i);
        }
        proof {
            let s = *self;
            assert forall|q: Ptr| q != pp implies (s.ptr_valid(q) <==> s0.ptr_valid(q)) by {
                assert(s1.ptr_valid(q) <==> s0.ptr_valid(q));
            }
            assert forall|q: Ptr|
                s0.ptr_valid(q) && q != pp implies s.cap(q) == s0.cap(q) && s.data(q) == s0.data(
                q,
            ) by {
                assert(s1.ptr_valid(q));
                assert(s1.cap(q) == s0.cap(q) && s1.data(q) == s0.data(q));
            }
        }
    }

    /// Resizes an allocation. A `None` handle acts as `allocate(n)`; a
    /// zero `n` acts as `release` and returns `None`; a handle the
    /// allocator does not own is caught by the guard, with nothing
    /// changed. Otherwise the block is grown in place where it or its
    /// free right neighbor already gives room; failing that, a fresh
    /// block is allocated, the payload prefix copied, and the old block
    /// released — and if even that allocation fails, the original block
    /// and its contents are left untouched.
    #[verifier::rlimit(100)]
    pub fn resize_allocate(&mut self, p: Option<Ptr>, n: usize) -> (r: Option<Ptr>)
        requires
            old(self).wf(),
        ensures
            final(self).wf(),
            match p {
                None => match r {
                    Some(q) => {
                        &&& final(self).ptr_valid(q)
                        &&& !old(self).ptr_valid(q)
                        &&& q.off as int % (ALIGN as int) == 0
                        &&& final(self).cap(q) >= n
                        &&& forall|q2: Ptr|
                            old(self).ptr_valid(q2) ==> final(self).ptr_valid(q2) && final(self).cap(q2) == old(self).cap(q2) && final(self).data(q2) == old(self).data(q2)
                    },
                    None => old(self).alloc_fails(n as int) && *final(self) == *old(self),
                },
                Some(pp) => {
                    &&& (!old(self).ptr_valid(pp) ==> r == None::<Ptr> && *final(self) == *old(self))
                    &&& (old(self).ptr_valid(pp) && n == 0 ==> r == None::<Ptr> && !final(self).ptr_valid(pp) && (forall|q2: Ptr|
                        q2 != pp ==> (final(self).ptr_valid(q2) <==> old(self).ptr_valid(q2)))
                        && (forall|q2: Ptr|
                        old(self).ptr_valid(q2) && q2 != pp ==> final(self).cap(q2) == old(self).cap(q2) && final(self).data(q2) == old(self).data(q2)))
                    &&& (old(self).ptr_valid(pp) && n > 0 ==> match r {
                        Some(q) => {
                            &&& final(self).ptr_valid(q)
                            &&& final(self).cap(q) >= n
                            &&& (q == pp || !old(self).ptr_valid(q))
                            &&& (q != pp ==> !final(self).ptr_valid(pp))
                            &&& forall|x: int|
                                0 <= x < n && x < old(self).cap(pp) ==> final(self).data(q)[x]
                                    == old(self).data(pp)[x]
                            &&& forall|q2: Ptr|
                                q2 != pp && q2 != q ==> (final(self).ptr_valid(q2) <==> old(self).ptr_valid(q2))
                            &&& forall|q2: Ptr|
                                old(self).ptr_valid(q2) && q2 != pp && q2 != q ==> final(self).cap(q2) == old(self).cap(q2) && final(self).data(q2) == old(self).data(q2)
                        },
                        None => {
                            &&& *final(self) == *old(self)
                            &&& old(self).alloc_fails(n as int)
                            &&& block_size_spec(n as int) > old(self).cap(pp) + HEADER_SIZE
                        },
                    })
                },
            },
    {
        let pp = match p {
            None => {
                return self.allocate(n);
            },
            Some(pp) => pp,
        };
        if !self.owns(pp) {
            return None;
        }
        if n == 0 {
            self.release(Some(pp));
            return None;
        }
        let ghost s0 = *old(self);
        let ridx = pp.region;
        let i = match self.regions[ridx].find_block(pp.off - HEADER_SIZE) {
            Some(i) => i,
            None => {
                proof {
                    let w = self.blk(pp);
                    assert(self.backs(pp, w));
                }
                vstd::pervasive::unreached()
            },
        };
        proof {
            let w = self.blk(pp);
            assert(self.backs(pp, w));
            self.regions[ridx as int].lemma_off_unique(i as int, w);
            assert(self.backs(pp, i as int));
            self.lemma_blk_is(pp, i as int);
        }
        let b = self.regions[ridx].blocks[i];
        let need = match block_size_for(n) {
            Some(nd) => nd,
            None => {
                proof {
                    crate::layout::lemma_round_up(n as int, ALIGN as int);
                }
                return None;
            },
        };
        proof {
            crate::layout::lemma_round_up(n as int, ALIGN as int);
        }
        if need <= b.size {
            // the block already satisfies the request
            return Some(pp);
        }
        let blen = self.regions[ridx].blocks.len();
        if i + 1 < blen && !self.regions[ridx].blocks[i + 1].used {
            let nxt = self.regions[ridx].blocks[i + 1];
            if b.size <= usize::MAX - nxt.size && need <= b.size + nxt.size {
                self.absorb_next(pp, i);
                return Some(pp);
            }
        }
        let q = match self.allocate(n) {
            Some(q) => q,
            None => {
                return None;
            },
        };
        let m = if self.capacity_of(pp) < n {
            self.capacity_of(pp)
        } else {
            n
        };
        self.copy_prefix(pp, q, m);
        self.release(Some(pp));
        Some(q)
    }

    /// Copies `m` bytes between disjoint spans of the heap's regions.
    fn copy_span(&mut self, sreg: usize, soff: usize, dreg: usize, doff: usize, m: usize)
        requires
            dreg < old(self).regions.len(),
            sreg < old(self).regions.len(),
            doff + m <= old(self).regions[dreg as int].mem.len(),
            soff + m <= old(self).regions[sreg as int].mem.len(),
            sreg != dreg || soff + m <= doff || doff + m <= soff,
        ensures
            final(self).regions.len() == old(self).regions.len(),
            forall|r: int|
                0 <= r < old(self).regions.len() && r != dreg ==> final(self).regions[r] == old(
                    self,
                ).regions[r],
            final(self).regions[dreg as int].blocks == old(self).regions[dreg as int].blocks,
            final(self).regions[dreg as int].mem.len() == old(self).regions[dreg as int].mem.len(),
            forall|y: int|
                0 <= y < m ==> (#[trigger] final(self).regions[dreg as int].mem@[doff + y]) == old(
                    self,
                ).regions[sreg as int].mem@[soff + y],
            forall|y: int|
                0 <= y < old(self).regions[dreg as int].mem.len() && !(doff <= y < doff + m)
                    ==> final(self).regions[dreg as int].mem@[y] == old(
                    self,
                ).regions[dreg as int].mem@[y],
            final(self).buckets == old(self).buckets,
            final(self).budget == old(self).budget,
    {
        let ghost s0 = *old(self);
        let mut x: usize = 0;
        while x < m
            invariant
                x <= m,
                dreg < self.regions.len(),
                sreg < self.regions.len(),
                self.regions.len() == s0.regions.len(),
                forall|r: int|
                    0 <= r < s0.regions.len() && r != dreg ==> self.regions[r] == s0.regions[r],
                self.regions[dreg as int].blocks == s0.regions[dreg as int].blocks,
                self.regions[dreg as int].mem.len() == s0.regions[dreg as int].mem.len(),
                doff + m <= self.regions[dreg as int].mem.len(),
                soff + m <= s0.regions[sreg as int].mem.len(),
                sreg != dreg || soff + m <= doff || doff + m <= soff,
                forall|y: int|
                    0 <= y < x ==> (#[trigger] self.regions[dreg as int].mem@[doff + y])
                        == s0.regions[sreg as int].mem@[soff + y],
                forall|y: int|
                    0 <= y < s0.regions[dreg as int].mem.len() && !(doff <= y < doff + m)
                        ==> self.regions[dreg as int].mem@[y] == s0.regions[dreg as int].mem@[y],
                self.buckets == s0.buckets,
                self.budget == s0.budget,
            decreases m - x,
        {
            proof {
                if sreg == dreg {
                    assert(!(doff <= soff + x < doff + m));
                }
            }
            let byte = self.regions[sreg].mem[soff + x];
            proof {
                assert(byte == s0.regions[sreg as int].mem@[soff + x]);
            }
            self.regions[dreg].mem[doff + x] = byte;
            x = x + 1;
        }
    }

    /// Copies the first `m` payload bytes of `src` into `dst`.
    #[verifier::rlimit(100)]
    fn copy_prefix(&mut self, src: Ptr, dst: Ptr, m: usize)
        requires
            old(self).wf(),
            old(self).ptr_valid(src),
            old(self).ptr_valid(dst),
            src != dst,
            m <= old(self).cap(src),
            m <= old(self).cap(dst),
        ensures
            final(self).wf(),
            forall|q: Ptr| final(self).ptr_valid(q) <==> old(self).ptr_valid(q),
            forall|q: Ptr| old(self).ptr_valid(q) ==> final(self).cap(q) == old(self).cap(q),
            forall|y: int| 0 <= y < m ==> final(self).data(dst)[y] == old(self).data(src)[y],
            forall|q: Ptr|
                old(self).ptr_valid(q) && q != dst ==> final(self).data(q) == old(self).data(q),
            final(self).regions.len() == old(self).regions.len(),
            final(self).budget == old(self).budget,
    {
        let ghost s0 = *old(self);
        let ghost wd = old(self).blk(dst);
        let ghost ws = old(self).blk(src);
        proof {
            assert(s0.backs(dst, wd));
            assert(s0.backs(src, ws));
            s0.lemma_payload_disjoint(src, dst, ws, wd, m as int);
        }
        self.copy_span(src.region, src.off, dst.region, dst.off, m);
        proof {
            Self::lemma_span_frame(s0, *self, dst, wd, m as int);
            s0.lemma_data_bytes(src, ws);
            Self::lemma_copy_chain(s0, *self, src, dst, m as int);
        }
    }

    /// The payload spans of two distinct live allocations do not
    /// overlap, and both lie within their regions.
    #[verifier::rlimit(100)]
    proof fn lemma_payload_disjoint(self, src: Ptr, dst: Ptr, ws: int, wd: int, m: int)
        requires
            self.backs(src, ws),
            self.backs(dst, wd),
            self.blk(src) == ws,
            self.blk(dst) == wd,
            src != dst,
            0 <= m <= self.cap(src),
            m <= self.cap(dst),
            self.regions[src.region as int].wf(),
            self.regions[dst.region as int].wf(),
        ensures
            src.region != dst.region || src.off + m <= dst.off || dst.off + m <= src.off,
            dst.off + m <= self.regions[dst.region as int].mem.len(),
            src.off + m <= self.regions[src.region as int].mem.len(),
    {
        self.regions[dst.region as int].lemma_in_span(wd);
        self.regions[src.region as int].lemma_in_span(ws);
        if src.region == dst.region {
            assert(ws != wd) by {
                if ws == wd {
                    assert(src == dst);
                }
            }
            if ws < wd {
                self.regions[dst.region as int].lemma_ordered(ws, wd);
            } else {
                self.regions[dst.region as int].lemma_ordered(wd, ws);
            }
        }
    }

    /// Each payload byte of a live allocation is the region byte at its
    /// offset.
    #[verifier::rlimit(100)]
    proof fn lemma_data_bytes(self, p: Ptr, w: int)
        requires
            self.backs(p, w),
            self.blk(p) == w,
            self.regions[p.region as int].wf(),
        ensures
            forall|y: int|
                0 <= y < self.cap(p) ==> self.data(p)[y] == self.regions[p.region as int].mem@[p.off
                    + y],
    {
        self.regions[p.region as int].lemma_in_span(w);
    }

    /// Chains the byte-level facts of a copy into payload equality.
    #[verifier::rlimit(100)]
    proof fn lemma_copy_chain(s0: Self, s: Self, src: Ptr, dst: Ptr, m: int)
        requires
            forall|y: int|
                0 <= y < m ==> s.data(dst)[y] == s.regions[dst.region as int].mem@[dst.off + y],
            forall|y: int|
                0 <= y < m ==> (#[trigger] s.regions[dst.region as int].mem@[dst.off + y])
                    == s0.regions[src.region as int].mem@[src.off + y],
            forall|y: int|
                0 <= y < m ==> s0.data(src)[y] == s0.regions[src.region as int].mem@[src.off + y],
        ensures
            forall|y: int| 0 <= y < m ==> s.data(dst)[y] == s0.data(src)[y],
    {
        assert forall|y: int| 0 <= y < m implies s.data(dst)[y] == s0.data(src)[y] by {
            assert(s.data(dst)[y] == s.regions[dst.region as int].mem@[dst.off + y]);
            assert(s0.data(src)[y] == s0.regions[src.region as int].mem@[src.off + y]);
        }
    }

    /// Full coalescing: in a well-formed heap, a region whose blocks are
    /// all free has been merged back into a single block.
    pub proof fn lemma_full_coalescing(self, r: int)
        requires
            self.wf(),
            0 <= r < self.regions.len(),
            forall|i: int|
                0 <= i < self.regions[r].blocks.len() ==> !(#[trigger] self.regions[r].blocks[i]).used,
        ensures
            self.regions[r].blocks.len() == 1,
    {
        self.regions[r].lemma_all_free_one_block();
    }

    /// Number of regions acquired from the region source.
    pub fn region_count(&self) -> (n: usize)
        ensures
            n == self.regions.len(),
    {
        self.regions.len()
    }

    /// Number of blocks a region is currently divided into.
    pub fn block_count(&self, r: usize) -> (n: usize)
        requires
            r < self.regions.len(),
        ensures
            n == self.regions[r as int].blocks.len(),
    {
        self.regions[r].blocks.len()
    }

    /// The internal consistency walk of a region: reports whether every
    /// block of region `r` is free.
    pub fn all_free(&self, r: usize) -> (b: bool)
        requires
            r < self.regions.len(),
        ensures
            b == (forall|i: int|
                0 <= i < self.regions[r as int].blocks.len() ==> !(
                #[trigger] self.regions[r as int].blocks[i]).used),
    {
        let reg = &self.regions[r];
        let n = reg.blocks.len();
        let mut i: usize = 0;
        while i < n
            invariant
                n == reg.blocks.len(),
                i <= n,
                reg == &self.regions[r as int],
                forall|y: int| 0 <= y < i ==> !(#[trigger] reg.blocks[y]).used,
            decreases n - i,
        {
            if reg.blocks[i].used {
                return false;
            }
            i = i + 1;
        }
        true
    }

    /// Payload capacity of a live allocation.
    pub fn capacity_of(&self, p: Ptr) -> (n: usize)
        requires
            self.wf(),
            self.ptr_valid(p),
        ensures
            n == self.cap(p),
    {
        proof {
            let w = self.blk(p);
            assert(self.backs(p, w));
        }
        let reg = &self.regions[p.region];
        let i = match reg.find_block(p.off - HEADER_SIZE) {
            Some(i) => i,
            None => {
                proof {
                    let w = self.blk(p);
                    assert(self.backs(p, w));
                }
                vstd::pervasive::unreached()
            },
        };
        proof {
            let w = self.blk(p);
            assert(self.backs(p, w));
            reg.lemma_off_unique(i as int, w);
        }
        reg.blocks[i].size - HEADER_SIZE
    }
}

} // verus!
