//! Regions and blocks: a region is a page-aligned span obtained from the
//! region source, tiled by header-tagged blocks.

use vstd::prelude::*;
use crate::layout::ALIGN;
use crate::layout::HEADER_SIZE;
use crate::layout::MIN_BLOCK;
use crate::layout::PAGE;

verus! {

/// Metadata of one block: its offset from the start of its region, its
/// total size (header included), and its in-use tag.
#[derive(Clone, Copy)]
pub struct BlockInfo {
    pub off: usize,
    pub size: usize,
    pub used: bool,
}

/// A span of memory obtained from the region source, subdivided into
/// blocks. `mem` holds the span's bytes; `blocks` holds the block
/// metadata, ordered by offset.
pub struct Region {
    pub mem: Vec<u8>,
    pub blocks: Vec<BlockInfo>,
}

impl Region {
    /// Structural soundness of a region: the blocks exactly tile the
    /// span, every block is aligned and at least the minimum size, and no
    /// two physically-adjacent blocks are both free (eager coalescing).
    pub open spec fn wf(self) -> bool {
        &&& self.blocks.len() >= 1
        &&& self.mem.len() >= PAGE
        &&& self.mem.len() as int % (PAGE as int) == 0
        &&& self.blocks[0].off == 0
        &&& forall|i: int|
            0 <= i < self.blocks.len() - 1 ==> self.blocks[i + 1].off == self.blocks[i].off
                + self.blocks[i].size
        &&& self.blocks[self.blocks.len() - 1].off + self.blocks[self.blocks.len() - 1].size
            == self.mem.len()
        &&& forall|i: int|
            0 <= i < self.blocks.len() ==> (#[trigger] self.blocks[i].size) >= MIN_BLOCK
        &&& forall|i: int|
            0 <= i < self.blocks.len() ==> (#[trigger] self.blocks[i].off) as int % (ALIGN as int) == 0
                && self.blocks[i].size as int % (ALIGN as int) == 0
        &&& forall|i: int|
            0 <= i < self.blocks.len() - 1 ==> !((#[trigger] self.blocks[i].used == false)
                && self.blocks[i + 1].used == false)
    }

    /// Offsets increase strictly along the block list.
    pub proof fn lemma_ordered(self, i: int, j: int)
        requires
            self.wf(),
            0 <= i < j < self.blocks.len(),
        ensures
            self.blocks[i].off + self.blocks[i].size <= self.blocks[j].off,
        decreases j - i,
    {
        if j == i + 1 {
        } else {
            self.lemma_ordered(i, j - 1);
        }
    }

    /// Two blocks with the same offset are the same block.
    pub proof fn lemma_off_unique(self, i: int, j: int)
        requires
            self.wf(),
            0 <= i < self.blocks.len(),
            0 <= j < self.blocks.len(),
            self.blocks[i].off == self.blocks[j].off,
        ensures
            i == j,
    {
        if i < j {
            self.lemma_ordered(i, j);
        } else if j < i {
            self.lemma_ordered(j, i);
        }
    }

    /// Every block lies within the region's span.
    pub proof fn lemma_in_span(self, i: int)
        requires
            self.wf(),
            0 <= i < self.blocks.len(),
        ensures
            self.blocks[i].off + self.blocks[i].size <= self.mem.len(),
    {
        if i < self.blocks.len() - 1 {
            self.lemma_ordered(i, self.blocks.len() - 1);
        }
    }

    /// In a well-formed region whose blocks are all free, eager
    /// coalescing has left exactly one block.
    pub proof fn lemma_all_free_one_block(self)
        requires
            self.wf(),
            forall|i: int| 0 <= i < self.blocks.len() ==> !(#[trigger] self.blocks[i].used),
        ensures
            self.blocks.len() == 1,
    {
        if self.blocks.len() >= 2 {
            assert(!self.blocks[0].used && !self.blocks[1].used);
        }
    }

    /// Finds the block whose header sits at offset `off`, if any.
    pub fn find_block(&self, off: usize) -> (r: Option<usize>)
        requires
            self.wf(),
        ensures
            match r {
                Some(i) => i < self.blocks.len() && self.blocks[i as int].off == off,
                None => forall|i: int|
                    0 <= i < self.blocks.len() ==> (#[trigger] self.blocks[i].off) != off,
            },
    {
        let n = self.blocks.len();
        let mut i: usize = 0;
        while i < n
            invariant
                n == self.blocks.len(),
                0 <= i <= n,
                self.wf(),
                forall|j: int| 0 <= j < i ==> (#[trigger] self.blocks[j].off) != off,
            decreases n - i,
        {
            if self.blocks[i].off == off {
                return Some(i);
            }
            i = i + 1;
        }
        None
    }
}

} // verus!
