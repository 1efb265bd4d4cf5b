//! Allocation and release of data blocks through the super block's
//! free-block stack, with grouped links: when the stack runs down to its
//! group leader, the next group's block numbers are loaded from the leader
//! block.

use crate::layout::{get_u32, le32};
use crate::state::FileSystem;
use crate::types::{NICFREE, SUPDATE};
use vstd::prelude::*;

verus! {

/// Whether the free-block stack `free` holds the first `NICFREE` words of `pg`.
pub open spec fn stack_loaded_from(free: Seq<u32>, pg: Seq<u8>) -> bool {
    forall|i: int| 0 <= i < NICFREE ==> #[trigger] free[i] as int == le32(pg[4 * i], pg[4 * i + 1], pg[4 * i + 2], pg[4 * i + 3])
}

impl FileSystem {
    /// Allocates a data block: takes the block below the free-stack pointer;
    /// when the pointer is at the group leader, the next group's block
    /// numbers are first loaded from the leader's block and the pointer goes
    /// to the top. Returns `None` when the leader's block cannot be fetched.
    pub fn balloc(&mut self) -> (r: Option<u32>)
        requires
            old(self).wf(),
            1 <= old(self).filsys.s_pfree <= NICFREE,
            old(self).filsys.s_nfree >= 1,
        ensures
            final(self).wf(),
            final(self).buffer_pool_manager.spec_pool_size() == old(self).buffer_pool_manager.spec_pool_size(),
            final(self).spent(old(self), 1),
            old(self).filsys.s_pfree != 1 ==> final(self).buffer_pool_manager == old(self).buffer_pool_manager,
            old(self).filsys.s_pfree != 1 ==> r is Some,
            old(self).room() >= 1 && old(self).can_read(34 + old(self).filsys.s_free@[0]) ==> r is Some,
            final(self).hinode@ == old(self).hinode@,
            final(self).inodes@ == old(self).inodes@,
            final(self).others_same(old(self)),
            r is None ==> old(self).filsys.s_pfree == 1 && final(self).filsys == old(self).filsys,
            r matches Some(b) ==> {
                let o = old(self).filsys;
                let n = final(self).filsys;
                &&& b == o.s_free@[o.s_pfree - 1]
                &&& n.s_nfree == o.s_nfree - 1
                &&& n.s_fmod == SUPDATE
                &&& n.s_isize == o.s_isize && n.s_fsize == o.s_fsize
                &&& n.s_ninode == o.s_ninode && n.s_pinode == o.s_pinode && n.s_inode == o.s_inode
                &&& n.s_rinode == o.s_rinode
                &&& o.s_pfree == 1 ==> n.s_pfree == NICFREE && exists|f: int|
                    0 <= f < final(self).buffer_pool_manager.spec_pool_size() && stack_loaded_from(
                        n.s_free@,
                        #[trigger] final(self).buffer_pool_manager.pages_view()[f],
                    )
                &&& o.s_pfree != 1 ==> n.s_pfree == o.s_pfree - 1 && n.s_free == o.s_free
            },
    {
        let free_block = self.filsys.s_free[self.filsys.s_pfree as usize - 1];
        let ghost mut wit: int = 0;
        if self.filsys.s_pfree == 1 {
            let block_id = 34 + free_block as u64;
            let f = match self.fetch_block(block_id) {
                Some(f) => f,
                None => {
                    return None;
                },
            };
            let page = self.frame_bytes(f);
            let mut i: usize = 0;
            while i < NICFREE
                invariant
                    self.wf(),
                    self.hinode@ == old(self).hinode@,
                    self.inodes@ == old(self).inodes@,
                    self.others_same(old(self)),
                    i <= NICFREE,
                    self.buffer_pool_manager.spec_pool_size() == old(self).buffer_pool_manager.spec_pool_size(),
                    self.spent(old(self), 1),
                    page@ == self.buffer_pool_manager.pages_view()[f as int],
                    f < self.buffer_pool_manager.spec_pool_size(),
                    forall|j: int| 0 <= j < i ==> #[trigger] self.filsys.s_free@[j] as int == le32(page@[4 * j], page@[4 * j + 1], page@[4 * j + 2], page@[4 * j + 3]),
                    self.filsys.s_pfree == old(self).filsys.s_pfree,
                    self.filsys.s_nfree == old(self).filsys.s_nfree,
                    self.filsys.s_isize == old(self).filsys.s_isize,
                    self.filsys.s_fsize == old(self).filsys.s_fsize,
                    self.filsys.s_ninode == old(self).filsys.s_ninode,
                    self.filsys.s_pinode == old(self).filsys.s_pinode,
                    self.filsys.s_inode == old(self).filsys.s_inode,
                    self.filsys.s_rinode == old(self).filsys.s_rinode,
                decreases NICFREE - i,
            {
                self.filsys.s_free[i] = get_u32(page.as_slice(), 4 * i);
                i = i + 1;
            }
            proof {
                assert(stack_loaded_from(self.filsys.s_free@, self.buffer_pool_manager.pages_view()[f as int]));
                wit = f as int;
            }
            self.filsys.s_pfree = NICFREE as u16;
        } else {
            self.filsys.s_pfree = self.filsys.s_pfree - 1;
        }
        self.filsys.s_nfree = self.filsys.s_nfree - 1;
        self.filsys.s_fmod = SUPDATE;
        proof {
            if old(self).filsys.s_pfree == 1 {
                assert(0 <= wit < self.buffer_pool_manager.spec_pool_size());
                assert(stack_loaded_from(self.filsys.s_free@, self.buffer_pool_manager.pages_view()[wit]));
            }
        }
        Some(free_block)
    }

    /// Releases data block `block_num`: pushes it on the free-block stack
    /// and counts it free.
    pub fn bfree(&mut self, block_num: u32)
        requires
            old(self).wf(),
            old(self).filsys.s_pfree <= NICFREE - 2,
            old(self).filsys.s_nfree < u32::MAX,
            old(self).filsys.s_free@[0] < u32::MAX,
        ensures
            final(self).wf(),
            final(self).hinode@ == old(self).hinode@,
            final(self).inodes@ == old(self).inodes@,
            final(self).others_same(old(self)),
            final(self).buffer_pool_manager == old(self).buffer_pool_manager,
            ({
                let o = old(self).filsys;
                let n = final(self).filsys;
                &&& n.s_nfree == o.s_nfree + 1
                &&& n.s_fmod == SUPDATE
                &&& n.s_pfree == o.s_pfree + 1
                &&& n.s_free@ == o.s_free@.update(0, (o.s_free@[0] + 1) as u32).update(o.s_pfree + 1, block_num)
                &&& n.s_isize == o.s_isize && n.s_fsize == o.s_fsize
                &&& n.s_ninode == o.s_ninode && n.s_pinode == o.s_pinode && n.s_inode == o.s_inode
                &&& n.s_rinode == o.s_rinode
            }),
    {
        self.filsys.s_nfree = self.filsys.s_nfree + 1;
        self.filsys.s_fmod = SUPDATE;
        self.filsys.s_free[0] = self.filsys.s_free[0] + 1;
        self.filsys.s_pfree = self.filsys.s_pfree + 1;
        self.filsys.s_free[self.filsys.s_pfree as usize] = block_num;
    }
}

} // verus!
