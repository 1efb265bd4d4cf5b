//! The buffer pool: a fixed set of in-memory frames caching disk blocks.
//!
//! The page table (an extendible hash table) maps page ids to frames; frames
//! come from the free list first, then from the LRU-K replacer, whose victim
//! is written back to the disk before it is reused.

use crate::disk::{after_write, block_of, block_readable, BlockStore, DiskError};
use crate::extend_hashtable::ExtendibleHashTable;
use crate::lruk::LRUKReplacer;
use crate::types::BLOCKSIZ;
use std::collections::VecDeque;
use vstd::prelude::*;

verus! {

/// Page id meaning "no page".
pub const INVALID_PAGE_ID: i32 = -1;

/// Frame id meaning "no frame".
pub const INVALID_FRAME_ID: i32 = -1;

/// Identifies a disk block.
pub type PageId = i32;

/// Identifies an in-memory frame.
pub type FrameId = i32;

/// The contents of one frame.
pub type Page = [u8; BLOCKSIZ];

/// The buffer pool manager.
pub struct BufferPoolManager {
    pool_size: usize,
    bucket_size: usize,
    pages: Vec<Page>,
    page_table: ExtendibleHashTable<PageId, FrameId>,
    frame2pageid: Vec<PageId>,
    replacer: LRUKReplacer,
    free_list: VecDeque<FrameId>,
    disk: BlockStore,
}

impl BufferPoolManager {
    /// Number of frames.
    pub closed spec fn spec_pool_size(&self) -> int {
        self.pool_size as int
    }

    /// The frames' contents.
    pub closed spec fn pages_view(&self) -> Seq<Seq<u8>> {
        Seq::new(self.pages@.len(), |i: int| self.pages@[i]@)
    }

    /// The disk.
    pub closed spec fn disk_view(&self) -> Seq<u8> {
        self.disk@
    }

    /// Blocks written to the disk since the log was last taken.
    pub closed spec fn written_log(&self) -> Seq<i32> {
        self.disk.written_log()
    }

    /// The frame the page table gives for `pid`.
    pub closed spec fn table_lookup(&self, pid: PageId) -> Option<FrameId> {
        self.page_table.lookup(pid)
    }

    /// Whether the page table can take an entry for block `pid` without
    /// splitting: its bucket holds `pid` already or has a free place.
    pub closed spec fn table_has_room(&self, pid: PageId) -> bool {
        self.page_table.fits(pid)
    }

    /// A page table with room for `pid` is not full for it.
    pub proof fn lemma_room_not_full(&self, pid: PageId)
        requires
            self.table_has_room(pid),
        ensures
            !self.table_full_for(pid),
    {
    }

    /// Whether some bucket of the page table stores an entry for block
    /// `pid` (current or left over from a split).
    pub closed spec fn holds_entry(&self, pid: PageId) -> bool {
        exists|v: i32| #[trigger] self.page_table.raw_has(pid, v)
    }

    /// A block that the page table gives a frame for has an entry stored.
    pub proof fn lemma_lookup_held(&self, pid: PageId)
        requires
            self.wf(),
            self.table_lookup(pid) is Some,
        ensures
            self.holds_entry(pid),
    {
        self.page_table.lemma_lookup_some_raw(pid, self.table_lookup(pid).unwrap());
    }

    /// Whether the page table and the frames agree: every entry stored in
    /// the page table names a frame that holds that entry's block, no free
    /// frame holds a block, and no frame is free twice. (An eviction or a
    /// deletion can leave split copies of an entry behind, which ends this.)
    pub closed spec fn consistent(&self) -> bool {
        &&& forall|k: i32, v: i32| #[trigger] self.page_table.raw_has(k, v) ==> k >= 0 && self.frame2pageid@[v as int] == k
        &&& forall|i: int| 0 <= i < self.free_list@.len() ==> self.frame2pageid@[#[trigger] self.free_list@[i] as int] == INVALID_PAGE_ID
        &&& self.free_list@.no_duplicates()
    }

    /// In a consistent pool, the frame the page table gives for a block
    /// holds that block.
    pub proof fn lemma_consistent_lookup(&self, pid: PageId)
        requires
            self.wf(),
            self.consistent(),
            self.table_lookup(pid) is Some,
        ensures
            self.frame_page(self.table_lookup(pid).unwrap() as int) == pid,
    {
        self.page_table.lemma_lookup_some_raw(pid, self.table_lookup(pid).unwrap());
    }

    /// Whether going from `o` to `self` left every frame that held a block
    /// other than `pid` as it was.
    pub open spec fn frames_kept_but(&self, o: &Self, pid: PageId) -> bool {
        forall|g: int|
            0 <= g < o.spec_pool_size() && o.frame_page(g) >= 0 && o.frame_page(g) != pid ==> #[trigger] self.pages_view()[g]
                == o.pages_view()[g] && self.frame_page(g) == o.frame_page(g)
    }

    /// Whether every frame of `o` holding a data block (page 34 on) other
    /// than data block `blk` keeps its page and its bytes in `self`.
    pub open spec fn data_frames_kept(&self, o: &Self, blk: int) -> bool {
        forall|g: int|
            0 <= g < o.spec_pool_size() && o.frame_page(g) >= 34 && o.frame_page(g) != 34 + blk ==> #[trigger] self.pages_view()[g]
                == o.pages_view()[g] && self.frame_page(g) == o.frame_page(g)
    }

    /// Data frames kept up to `b` stay kept through a step that keeps every
    /// frame but those of page `pid`, an inode block or data block `blk`.
    pub proof fn lemma_data_frames_step(&self, b: &Self, a: &Self, pid: i32, blk: int)
        requires
            b.data_frames_kept(a, blk),
            self.frames_kept_but(b, pid),
            b.spec_pool_size() == a.spec_pool_size(),
            pid < 34 || pid == 34 + blk,
        ensures
            self.data_frames_kept(a, blk),
    {
        assert forall|g: int|
            0 <= g < a.spec_pool_size() && a.frame_page(g) >= 34 && a.frame_page(g) != 34 + blk implies #[trigger] self.pages_view()[g]
            == a.pages_view()[g] && self.frame_page(g) == a.frame_page(g) by {
            assert(b.pages_view()[g] == a.pages_view()[g]);
            assert(b.frame_page(g) == a.frame_page(g));
            assert(b.frame_page(g) >= 0 && b.frame_page(g) != pid);
            assert(self.pages_view()[g] == b.pages_view()[g]);
        }
    }

    /// The page held by frame `f`, or `INVALID_PAGE_ID`.
    pub closed spec fn frame_page(&self, f: int) -> PageId {
        self.frame2pageid@[f]
    }

    /// The free frames, next one first.
    pub closed spec fn free_frames(&self) -> Seq<FrameId> {
        self.free_list@
    }

    /// The replacer.
    pub closed spec fn replacer_view(&self) -> LRUKReplacer {
        self.replacer
    }

    /// Well-formedness: the page table, the replacer and all frame ids in
    /// them or in the free list are in range; every evictable frame holds a
    /// page.
    pub closed spec fn wf(&self) -> bool {
        let n = self.pool_size as int;
        &&& n <= i32::MAX
        &&& self.pages@.len() == n
        &&& self.frame2pageid@.len() == n
        &&& self.page_table.wf()
        &&& forall|k: i32, v: i32| #[trigger] self.page_table.raw_has(k, v) ==> 0 <= v < n
        &&& self.replacer.wf()
        &&& forall|f: i32| #[trigger] self.replacer.frame_ids().contains(f) ==> 0 <= f < n
        &&& forall|f: i32| #[trigger] self.replacer.evictable(f) ==> 0 <= f < n && self.frame2pageid@[f as int] >= 0
        &&& forall|i: int| 0 <= i < self.free_list@.len() ==> 0 <= #[trigger] self.free_list@[i] < n
        &&& forall|f: int| 0 <= f < n ==> #[trigger] self.frame2pageid@[f] >= INVALID_PAGE_ID
    }

    /// A pool of `pool_size` zeroed frames over `disk`: every frame free, an
    /// empty page table with buckets of 4 entries, and an LRU-`replacer_k`
    /// replacer.
    pub fn new(pool_size: usize, replacer_k: usize, disk: BlockStore) -> (b: Self)
        requires
            pool_size <= i32::MAX,
            replacer_k >= 1,
        ensures
            b.wf(),
            b.spec_pool_size() == pool_size,
            b.disk_view() == disk@,
            b.written_log() == disk.written_log(),
            b.free_frames() == Seq::new(pool_size as nat, |i: int| i as i32),
            forall|i: int| 0 <= i < pool_size ==> #[trigger] b.pages_view()[i] == Seq::new(512, |j: int| 0u8),
            forall|i: int| 0 <= i < pool_size ==> #[trigger] b.frame_page(i) == INVALID_PAGE_ID,
            forall|pid: PageId| #[trigger] b.table_lookup(pid) is None,
            forall|pid: PageId| !#[trigger] b.holds_entry(pid),
            forall|pid: PageId| #[trigger] b.table_has_room(pid),
            b.consistent(),
            forall|pid: PageId| !#[trigger] b.table_full_for(pid),
            b.replacer_view().frame_ids() == Set::<i32>::empty(),
            b.replacer_view().spec_k() == replacer_k,
            b.replacer_view().spec_timestamp() == 0,
    {
        let mut pages: Vec<Page> = Vec::new();
        let mut frame2pageid: Vec<PageId> = Vec::new();
        let mut free_list: VecDeque<FrameId> = VecDeque::new();
        let mut i: usize = 0;
        while i < pool_size
            invariant
                i <= pool_size,
                pool_size <= i32::MAX,
                pages@.len() == i,
                frame2pageid@.len() == i,
                free_list@ == Seq::new(i as nat, |j: int| j as i32),
                forall|j: int| 0 <= j < i ==> #[trigger] pages@[j]@ == Seq::new(512, |k: int| 0u8),
                forall|j: int| 0 <= j < i ==> #[trigger] frame2pageid@[j] == INVALID_PAGE_ID,
            decreases pool_size - i,
        {
            let page: Page = [0u8; 512];
            proof {
                assert(page@ =~= Seq::new(512, |k: int| 0u8));
            }
            pages.push(page);
            frame2pageid.push(INVALID_PAGE_ID);
            free_list.push_back(i as FrameId);
            proof {
                assert(free_list@ =~= Seq::new((i + 1) as nat, |j: int| j as i32));
            }
            i = i + 1;
        }
        let b = BufferPoolManager {
            pool_size,
            bucket_size: 4,
            pages,
            page_table: ExtendibleHashTable::new(4),
            frame2pageid,
            replacer: LRUKReplacer::new(pool_size, replacer_k),
            free_list,
            disk,
        };
        proof {
            assert forall|f: i32| #[trigger] b.replacer.evictable(f) implies 0 <= f < pool_size && b.frame2pageid@[f as int] >= 0 by {
                b.replacer.lemma_evictable_known(f);
            }
        }
        b
    }

    /// A well-formed pool has at most `i32::MAX` frames, each of `BLOCKSIZ` bytes.
    pub proof fn lemma_frames(&self)
        requires
            self.wf(),
        ensures
            self.spec_pool_size() <= i32::MAX,
            self.pages_view().len() == self.spec_pool_size(),
            forall|i: int| 0 <= i < self.spec_pool_size() ==> (#[trigger] self.pages_view()[i]).len() == BLOCKSIZ,
    {
    }

    /// The number of frames.
    pub fn get_pool_size(&self) -> (n: usize)
        ensures
            n == self.spec_pool_size(),
    {
        self.pool_size
    }

    /// The frames' contents.
    pub fn get_pages(&self) -> (p: &[Page])
        requires
            self.wf(),
        ensures
            p@.len() == self.spec_pool_size(),
            forall|i: int| 0 <= i < p@.len() ==> #[trigger] p@[i]@ == self.pages_view()[i],
    {
        self.pages.as_slice()
    }

    /// The disk bytes.
    pub fn disk_bytes(&self) -> (b: &Vec<u8>)
        ensures
            b@ == self.disk_view(),
    {
        self.disk.bytes()
    }

    /// Hands out and clears the log of blocks written to the disk.
    pub fn take_written(&mut self) -> (log: Vec<i32>)
        requires
            old(self).wf(),
        ensures
            final(self).wf(),
            log@ == old(self).written_log(),
            final(self).written_log() == Seq::<i32>::empty(),
            final(self).unchanged_but_log(old(self)),
    {
        self.disk.take_written()
    }

    /// Whether `self` equals `o` in everything but the log of written blocks.
    pub open spec fn unchanged_but_log(&self, o: &Self) -> bool {
        &&& self.spec_pool_size() == o.spec_pool_size()
        &&& self.pages_view() == o.pages_view()
        &&& self.disk_view() == o.disk_view()
        &&& self.free_frames() == o.free_frames()
        &&& self.replacer_view() == o.replacer_view()
        &&& forall|pid: PageId| #[trigger] self.table_lookup(pid) == o.table_lookup(pid)
        &&& forall|f: int| 0 <= f < o.spec_pool_size() ==> #[trigger] self.frame_page(f) == o.frame_page(f)
    }

    /// Copies `data` into frame `frame_id` at byte `offset`.
    pub fn write_page(&mut self, frame_id: FrameId, offset: usize, data: &[u8])
        requires
            old(self).wf(),
            0 <= frame_id < old(self).spec_pool_size(),
            offset + data@.len() <= BLOCKSIZ,
        ensures
            final(self).wf(),
            final(self).pages_view() == old(self).pages_view().update(
                frame_id as int,
                old(self).pages_view()[frame_id as int].subrange(0, offset as int) + data@
                    + old(self).pages_view()[frame_id as int].subrange(offset + data@.len(), 512),
            ),
            final(self).spec_pool_size() == old(self).spec_pool_size(),
            final(self).disk_view() == old(self).disk_view(),
            forall|pid: PageId| #[trigger] final(self).holds_entry(pid) == old(self).holds_entry(pid),
            final(self).consistent() == old(self).consistent(),
            final(self).written_log() == old(self).written_log(),
            final(self).free_frames() == old(self).free_frames(),
            final(self).replacer_view() == old(self).replacer_view(),
            forall|pid: PageId| #[trigger] final(self).table_lookup(pid) == old(self).table_lookup(pid),
            forall|f: int| 0 <= f < old(self).spec_pool_size() ==> #[trigger] final(self).frame_page(f) == old(self).frame_page(f),
    {
        let f = frame_id as usize;
        let mut page: Page = self.pages[f];
        let ghost old_page = page@;
        let mut i: usize = 0;
        while i < data.len()
            invariant
                offset + data@.len() <= 512,
                i <= data@.len(),
                page@.len() == 512,
                forall|j: int| 0 <= j < 512 ==> #[trigger] page@[j] == if offset <= j < offset + i {
                    data@[j - offset]
                } else {
                    old_page[j]
                },
            decreases data@.len() - i,
        {
            page[offset + i] = data[i];
            i = i + 1;
        }
        self.pages.set(f, page);
        proof {
            let np = old_page.subrange(0, offset as int) + data@ + old_page.subrange(offset + data@.len(), 512);
            assert(page@ =~= np);
            assert(self.pages_view() =~= old(self).pages_view().update(frame_id as int, np));
        }
    }

    /// Reads block `page_id` into frame `frame_id`.
    fn read_page_from_disk(&mut self, page_id: PageId, frame_id: FrameId) -> (r: Result<(), DiskError>)
        requires
            old(self).wf(),
            0 <= frame_id < old(self).spec_pool_size(),
        ensures
            final(self).wf(),
            r is Ok <==> block_readable(old(self).disk@, page_id as int),
            page_id < 0 ==> r == Err::<(), DiskError>(DiskError::InvalidPage),
            page_id >= 0 && !block_readable(old(self).disk@, page_id as int) ==> r == Err::<(), DiskError>(
                DiskError::UnexpectedEof,
            ),
            r is Ok ==> final(self).pages_view() == old(self).pages_view().update(
                frame_id as int,
                block_of(old(self).disk@, page_id as int),
            ),
            r is Err ==> final(self).pages_view() == old(self).pages_view(),
            final(self).disk == old(self).disk,
            final(self).page_table == old(self).page_table,
            final(self).replacer == old(self).replacer,
            final(self).free_list == old(self).free_list,
            final(self).frame2pageid == old(self).frame2pageid,
            final(self).pool_size == old(self).pool_size,
    {
        let mut buf: Page = [0u8; 512];
        match self.disk.read_block(page_id, &mut buf) {
            Ok(()) => {
                self.pages.set(frame_id as usize, buf);
                proof {
                    assert(self.pages_view() =~= old(self).pages_view().update(
                        frame_id as int,
                        block_of(old(self).disk@, page_id as int),
                    ));
                }
                Ok(())
            },
            Err(e) => {
                proof {
                    assert(self.pages_view() =~= old(self).pages_view());
                }
                Err(e)
            },
        }
    }

    /// Writes frame `frame_id` to block `page_id`.
    fn write_page_to_disk(&mut self, page_id: PageId, frame_id: FrameId) -> (r: Result<(), DiskError>)
        requires
            old(self).wf(),
            0 <= frame_id < old(self).spec_pool_size(),
        ensures
            final(self).wf(),
            page_id < 0 ==> r == Err::<(), DiskError>(DiskError::InvalidPage) && final(self).disk == old(self).disk,
            page_id >= 0 && (page_id + 1) * 512 > usize::MAX ==> r == Err::<(), DiskError>(
                DiskError::BeyondAddressSpace,
            ) && final(self).disk == old(self).disk,
            page_id >= 0 && (page_id + 1) * 512 <= usize::MAX ==> r is Ok && final(self).disk@ == after_write(
                old(self).disk@,
                page_id as int,
                old(self).pages_view()[frame_id as int],
            ) && final(self).disk.written_log() == old(self).disk.written_log().push(page_id),
            final(self).pages == old(self).pages,
            final(self).page_table == old(self).page_table,
            final(self).replacer == old(self).replacer,
            final(self).free_list == old(self).free_list,
            final(self).frame2pageid == old(self).frame2pageid,
            final(self).pool_size == old(self).pool_size,
    {
        self.disk.write_block(page_id, &self.pages[frame_id as usize])
    }

    /// How many more fetches the pool can serve without evicting: the fewer
    /// of its free frames and the ticks left on the replacer's clock.
    pub open spec fn fetch_room(&self) -> int {
        let t = usize::MAX - self.replacer_view().spec_timestamp();
        let n = self.free_frames().len() as int;
        if t < n {
            t
        } else {
            n
        }
    }

    /// Whether the page table could not take `pid`: it reached its maximal
    /// depth with `pid`'s home bucket full.
    pub closed spec fn table_full_for(&self, pid: PageId) -> bool {
        self.page_table.spec_global_depth() == crate::extend_hashtable::MAX_GLOBAL_DEPTH && !self.page_table.fits(pid)
    }

    /// The frame state after block `pid` was loaded into frame `f` from
    /// `disk`: `f` holds the block, maps to `pid`, the page table gives `f`
    /// for `pid`, and `f` is evictable.
    pub open spec fn loaded(&self, o: &Self, pid: PageId, f: FrameId, disk: Seq<u8>) -> bool {
        &&& block_readable(disk, pid as int)
        &&& self.disk_view() == disk
        &&& self.pages_view() == o.pages_view().update(f as int, block_of(disk, pid as int))
        &&& self.frame_page(f as int) == pid
        &&& forall|g: int| 0 <= g < o.spec_pool_size() && g != f ==> #[trigger] self.frame_page(g) == o.frame_page(g)
        &&& self.table_lookup(pid) == Some(f) || self.table_full_for(pid)
        &&& self.replacer_view().evictable(f)
    }

    /// Gives the frame holding block `page_id`, loading the block when it is
    /// not in the pool: into the next free frame, or else into the frame the
    /// replacer evicts, after writing that frame's page back to the disk.
    /// Returns `Ok(None)` when no frame can be had.
    pub fn fetch_pg(&mut self, page_id: PageId) -> (r: Result<Option<FrameId>, DiskError>)
        requires
            old(self).wf(),
        ensures
            final(self).wf(),
            final(self).spec_pool_size() == old(self).spec_pool_size(),
            r matches Ok(Some(f)) ==> 0 <= f < old(self).spec_pool_size(),
            final(self).fetch_room() >= old(self).fetch_room() - 1,
            final(self).disk_view().len() >= old(self).disk_view().len(),
            forall|p: PageId| #[trigger] final(self).holds_entry(p) ==> old(self).holds_entry(p) || p == page_id,
            old(self).free_frames().len() > 0 ==> final(self).disk_view() == old(self).disk_view(),
            old(self).free_frames().len() > 0 && old(self).table_has_room(page_id) ==> (r matches Ok(Some(f))
                ==> final(self).table_lookup(page_id) == Some(f)),
            old(self).consistent() && old(self).free_frames().len() > 0 ==> final(self).consistent(),
            old(self).consistent() && old(self).free_frames().len() > 0 ==> (r matches Ok(Some(f)) ==> final(self).frame_page(
                f as int,
            ) == page_id),
            old(self).consistent() && old(self).free_frames().len() > 0 ==> final(self).frames_kept_but(old(self), page_id),
            old(self).fetch_room() >= 1 && block_readable(old(self).disk_view(), page_id as int) ==> r matches Ok(Some(_)),
            old(self).replacer_view().spec_timestamp() == usize::MAX ==> r == Ok::<Option<FrameId>, DiskError>(None)
                && *final(self) == *old(self),
            old(self).replacer_view().spec_timestamp() < usize::MAX ==> match old(self).table_lookup(page_id) {
                Some(f) => {
                    &&& r == Ok::<Option<FrameId>, DiskError>(Some(f))
                    &&& final(self).pages_view() == old(self).pages_view()
                    &&& final(self).disk_view() == old(self).disk_view()
                    &&& final(self).written_log() == old(self).written_log()
                    &&& final(self).free_frames() == old(self).free_frames()
                    &&& forall|pid: PageId| #[trigger] final(self).table_lookup(pid) == old(self).table_lookup(pid)
                    &&& forall|g: int| 0 <= g < old(self).spec_pool_size() ==> #[trigger] final(self).frame_page(g) == old(self).frame_page(g)
                    &&& final(self).replacer_view().frame_ids().contains(f)
                    &&& !final(self).replacer_view().evictable(f)
                },
                None => if old(self).free_frames().len() > 0 {
                    let f = old(self).free_frames()[0];
                    &&& final(self).free_frames() == old(self).free_frames().drop_first()
                    &&& match r {
                        Ok(Some(g)) => g == f && final(self).loaded(old(self), page_id, f, old(self).disk_view())
                            && final(self).written_log() == old(self).written_log(),
                        Ok(None) => false,
                        Err(e) => !block_readable(old(self).disk_view(), page_id as int) && e == if page_id < 0 {
                            DiskError::InvalidPage
                        } else {
                            DiskError::UnexpectedEof
                        },
                    }
                } else if old(self).replacer_view().spec_size() > 0 {
                    exists|f: FrameId| {
                        let ep = old(self).frame_page(f as int);
                        let disk2 = after_write(old(self).disk_view(), ep as int, old(self).pages_view()[f as int]);
                        &&& #[trigger] old(self).replacer_view().victim(f)
                        &&& 0 <= f < old(self).spec_pool_size()
                        &&& ep >= 0
                        &&& final(self).free_frames() == old(self).free_frames()
                        &&& match r {
                            Ok(Some(g)) => g == f && final(self).loaded(old(self), page_id, f, disk2)
                                && final(self).written_log() == old(self).written_log().push(ep),
                            Ok(None) => false,
                            Err(e) => (ep + 1) * 512 > usize::MAX || !block_readable(disk2, page_id as int),
                        }
                    }
                } else {
                    &&& r == Ok::<Option<FrameId>, DiskError>(None)
                    &&& final(self).unchanged_but_log(old(self))
                    &&& final(self).written_log() == old(self).written_log()
                },
            },
    {
        if self.replacer.current_timestamp() == usize::MAX {
            return Ok(None);
        }
        if let Some(fid) = self.page_table.find(page_id) {
            proof {
                self.page_table.lemma_lookup_some_raw(page_id, fid);
            }
            let ghost o = *self;
            self.replacer.record_access(fid);
            let ghost mid = self.replacer;
            self.replacer.set_evictable(fid, false);
            proof {
                assert forall|f: i32| #[trigger] self.replacer.frame_ids().contains(f) implies 0 <= f < self.pool_size by {
                    assert(f == fid || o.replacer.frame_ids().contains(f));
                }
                assert forall|f: i32| #[trigger] self.replacer.evictable(f) implies 0 <= f < self.pool_size
                    && self.frame2pageid@[f as int] >= 0 by {
                    self.replacer.lemma_frame_view(f);
                    mid.lemma_frame_view(f);
                    o.replacer.lemma_frame_view(f);
                    if f != fid {
                        assert(self.replacer.frame_view(f) == mid.frame_view(f));
                        assert(mid.frame_view(f) == o.replacer.frame_view(f));
                    }
                }
                self.replacer.lemma_frame_view(fid);
            }
            return Ok(Some(fid));
        }
        if let Some(fid) = self.free_list.pop_front() {
            proof {
                assert(old(self).free_list@[0] == fid);
            }
            match self.read_page_from_disk(page_id, fid) {
                Ok(()) => {},
                Err(e) => {
                    return Err(e);
                },
            }
            self.load_into(page_id, fid);
            return Ok(Some(fid));
        }
        if self.replacer.size() > 0 {
            let mut evict_frame: FrameId = INVALID_FRAME_ID;
            let ghost o = *self;
            if !self.replacer.evict(&mut evict_frame) {
                return Ok(None);
            }
            proof {
                o.replacer.lemma_evictable_known(evict_frame);
                assert forall|f: i32| #[trigger] self.replacer.evictable(f) implies 0 <= f < self.pool_size
                    && self.frame2pageid@[f as int] >= 0 by {
                    self.replacer.lemma_frame_view(f);
                    o.replacer.lemma_frame_view(f);
                    if f != evict_frame {
                        assert(self.replacer.frame_view(f) == o.replacer.frame_view(f));
                    }
                }
            }
            let evict_page_id = self.frame2pageid[evict_frame as usize];
            match self.write_page_to_disk(evict_page_id, evict_frame) {
                Ok(()) => {},
                Err(e) => {
                    return Err(e);
                },
            }
            proof {
                crate::disk::lemma_after_write_len(o.disk@, evict_page_id as int, o.pages_view()[evict_frame as int]);
            }
            self.page_table.remove(evict_page_id);
            self.frame2pageid.set(evict_frame as usize, INVALID_PAGE_ID);
            proof {
                assert forall|f: i32| #[trigger] self.replacer.evictable(f) implies 0 <= f < self.pool_size
                    && self.frame2pageid@[f as int] >= 0 by {
                    self.replacer.lemma_evictable_known(evict_frame);
                    assert(f != evict_frame);
                }
            }
            match self.read_page_from_disk(page_id, evict_frame) {
                Ok(()) => {},
                Err(e) => {
                    return Err(e);
                },
            }
            self.load_into(page_id, evict_frame);
            return Ok(Some(evict_frame));
        }
        Ok(None)
    }

    /// Maps frame `fid`, just loaded with block `page_id`, to that page in
    /// both directions and records the access, evictable.
    fn load_into(&mut self, page_id: PageId, fid: FrameId)
        requires
            old(self).wf(),
            0 <= fid < old(self).spec_pool_size(),
            page_id >= 0,
            old(self).replacer.spec_timestamp() < usize::MAX,
        ensures
            final(self).wf(),
            final(self).pages == old(self).pages,
            final(self).disk == old(self).disk,
            final(self).free_list == old(self).free_list,
            final(self).pool_size == old(self).pool_size,
            final(self).frame2pageid@ == old(self).frame2pageid@.update(fid as int, page_id),
            final(self).page_table.lookup(page_id) == Some(fid) || final(self).table_full_for(page_id),
            old(self).page_table.fits(page_id) ==> final(self).page_table.lookup(page_id) == Some(fid),
            forall|k: i32, v: i32| #[trigger] final(self).page_table.raw_has(k, v) ==> old(self).page_table.raw_has(k, v) || (k
                == page_id && v == fid),
            final(self).replacer.evictable(fid),
            final(self).replacer.spec_timestamp() == old(self).replacer.spec_timestamp() + 1,
    {
        let ghost o = *self;
        self.frame2pageid.set(fid as usize, page_id);
        self.page_table.insert(page_id, fid);
        self.replacer.record_access(fid);
        let ghost mid = self.replacer;
        self.replacer.set_evictable(fid, true);
        proof {
            self.replacer.lemma_frame_view(fid);
            assert forall|k: i32, v: i32| #[trigger] self.page_table.raw_has(k, v) implies 0 <= v < self.pool_size by {
                if !(k == page_id && v == fid) {
                    assert(o.page_table.raw_has(k, v));
                }
            }
            assert forall|f: i32| #[trigger] self.replacer.frame_ids().contains(f) implies 0 <= f < self.pool_size by {
                assert(f == fid || o.replacer.frame_ids().contains(f));
            }
            assert forall|f: i32| #[trigger] self.replacer.evictable(f) implies 0 <= f < self.pool_size
                && self.frame2pageid@[f as int] >= 0 by {
                self.replacer.lemma_frame_view(f);
                mid.lemma_frame_view(f);
                o.replacer.lemma_frame_view(f);
                if f != fid {
                    assert(self.replacer.frame_view(f) == mid.frame_view(f));
                    assert(mid.frame_view(f) == o.replacer.frame_view(f));
                }
            }
        }
    }

    /// Writes the frame holding `page_id`, if the page table gives one, to
    /// block `page_id`; returns whether it did.
    pub fn flush_pg(&mut self, page_id: PageId) -> (r: Result<bool, DiskError>)
        requires
            old(self).wf(),
        ensures
            final(self).wf(),
            final(self).pages_view() == old(self).pages_view(),
            final(self).spec_pool_size() == old(self).spec_pool_size(),
            final(self).free_frames() == old(self).free_frames(),
            final(self).replacer_view() == old(self).replacer_view(),
            forall|pid: PageId| #[trigger] final(self).table_lookup(pid) == old(self).table_lookup(pid),
            forall|f: int| 0 <= f < old(self).spec_pool_size() ==> #[trigger] final(self).frame_page(f) == old(self).frame_page(f),
            match old(self).table_lookup(page_id) {
                None => r == Ok::<bool, DiskError>(false) && final(self).disk_view() == old(self).disk_view()
                    && final(self).written_log() == old(self).written_log(),
                Some(f) => if page_id < 0 {
                    r == Err::<bool, DiskError>(DiskError::InvalidPage) && final(self).disk_view() == old(self).disk_view()
                } else if (page_id + 1) * 512 > usize::MAX {
                    r == Err::<bool, DiskError>(DiskError::BeyondAddressSpace) && final(self).disk_view()
                        == old(self).disk_view()
                } else {
                    &&& r == Ok::<bool, DiskError>(true)
                    &&& final(self).disk_view() == after_write(old(self).disk_view(), page_id as int, old(self).pages_view()[f as int])
                    &&& final(self).written_log() == old(self).written_log().push(page_id)
                },
            },
    {
        if let Some(fid) = self.page_table.find(page_id) {
            proof {
                self.page_table.lemma_lookup_some_raw(page_id, fid);
            }
            match self.write_page_to_disk(page_id, fid) {
                Ok(()) => {},
                Err(e) => {
                    return Err(e);
                },
            }
            return Ok(true);
        }
        Ok(false)
    }

    /// Writes every frame that holds a page to that page's block, in frame order.
    pub fn flush_all_pgs(&mut self) -> (r: Result<(), DiskError>)
        requires
            old(self).wf(),
        ensures
            final(self).wf(),
            final(self).pages_view() == old(self).pages_view(),
            final(self).spec_pool_size() == old(self).spec_pool_size(),
            final(self).free_frames() == old(self).free_frames(),
            final(self).replacer_view() == old(self).replacer_view(),
            forall|pid: PageId| #[trigger] final(self).table_lookup(pid) == old(self).table_lookup(pid),
            forall|f: int| 0 <= f < old(self).spec_pool_size() ==> #[trigger] final(self).frame_page(f) == old(self).frame_page(f),
            r is Ok ==> final(self).disk_view() == flushed(
                old(self).disk_view(),
                old(self).pages_view(),
                |f: int| old(self).frame_page(f),
                old(self).spec_pool_size(),
            ),
            r is Err ==> exists|f: int|
                0 <= f < old(self).spec_pool_size() && old(self).frame_page(f) >= 0 && (old(self).frame_page(f) + 1)
                    * 512 > usize::MAX,
    {
        let ghost o = *self;
        let ghost fp = |f: int| o.frame_page(f);
        let mut frame_id: usize = 0;
        while frame_id < self.pool_size
            invariant
                o == *old(self),
                self.wf(),
                frame_id <= self.pool_size,
                self.pool_size == o.pool_size,
                self.pages == o.pages,
                self.page_table == o.page_table,
                self.replacer == o.replacer,
                self.free_list == o.free_list,
                self.frame2pageid == o.frame2pageid,
                forall|f: int| #[trigger] fp(f) == o.frame2pageid@[f],
                self.disk@ == flushed(o.disk@, o.pages_view(), fp, frame_id as int),
            decreases self.pool_size - frame_id,
        {
            let page_id = self.frame2pageid[frame_id];
            if page_id != INVALID_PAGE_ID {
                match self.write_page_to_disk(page_id, frame_id as i32) {
                    Ok(()) => {},
                    Err(e) => {
                        proof {
                            assert(o.frame_page(frame_id as int) == page_id);
                        }
                        return Err(e);
                    },
                }
            }
            frame_id = frame_id + 1;
        }
        Ok(())
    }

    /// Removes `page_id` from the pool when the page table gives a frame for
    /// it: writes the frame to block `page_id`, zeroes it, forgets the page
    /// in both directions, removes the frame from the replacer and frees it.
    /// Returns `Ok(true)` whether or not the page was in the pool.
    pub fn delete_pg(&mut self, page_id: PageId) -> (r: Result<bool, DiskError>)
        requires
            old(self).wf(),
        ensures
            final(self).wf(),
            final(self).spec_pool_size() == old(self).spec_pool_size(),
            match old(self).table_lookup(page_id) {
                None => r == Ok::<bool, DiskError>(true) && final(self).unchanged_but_log(old(self))
                    && final(self).written_log() == old(self).written_log(),
                Some(f) => if page_id < 0 || (page_id + 1) * 512 > usize::MAX {
                    r is Err && final(self).unchanged_but_log(old(self))
                } else {
                    &&& r == Ok::<bool, DiskError>(true)
                    &&& final(self).disk_view() == after_write(old(self).disk_view(), page_id as int, old(self).pages_view()[f as int])
                    &&& final(self).written_log() == old(self).written_log().push(page_id)
                    &&& final(self).pages_view() == old(self).pages_view().update(f as int, Seq::new(512, |j: int| 0u8))
                    &&& final(self).table_lookup(page_id) is None
                    &&& forall|pid: PageId| pid != page_id ==> #[trigger] final(self).table_lookup(pid) == old(self).table_lookup(pid)
                    &&& final(self).frame_page(f as int) == INVALID_PAGE_ID
                    &&& forall|g: int| 0 <= g < old(self).spec_pool_size() && g != f ==> #[trigger] final(self).frame_page(g) == old(self).frame_page(g)
                    &&& final(self).free_frames() == old(self).free_frames().push(f)
                    &&& !final(self).replacer_view().evictable(f)
                },
            },
    {
        if let Some(frame_id) = self.page_table.find(page_id) {
            proof {
                self.page_table.lemma_lookup_some_raw(page_id, frame_id);
            }
            match self.write_page_to_disk(page_id, frame_id) {
                Ok(()) => {},
                Err(e) => {
                    return Err(e);
                },
            }
            let frame_idx = frame_id as usize;
            let zero: Page = [0u8; 512];
            self.pages.set(frame_idx, zero);
            let ghost o = *self;
            self.page_table.remove(page_id);
            self.frame2pageid.set(frame_idx, INVALID_PAGE_ID);
            self.replacer.remove(frame_id);
            self.free_list.push_back(frame_id);
            proof {
                assert(zero@ =~= Seq::new(512, |j: int| 0u8));
                assert(self.pages_view() =~= old(self).pages_view().update(frame_id as int, Seq::new(512, |j: int| 0u8)));
                assert forall|k: i32, v: i32| #[trigger] self.page_table.raw_has(k, v) implies 0 <= v < self.pool_size by {
                    assert(o.page_table.raw_has(k, v));
                }
                assert forall|f: i32| #[trigger] self.replacer.frame_ids().contains(f) implies 0 <= f < self.pool_size by {
                    self.replacer.lemma_frame_view(f);
                    o.replacer.lemma_frame_view(f);
                    if f != frame_id {
                        assert(self.replacer.frame_view(f) == o.replacer.frame_view(f));
                    }
                }
                assert forall|f: i32| #[trigger] self.replacer.evictable(f) implies 0 <= f < self.pool_size
                    && self.frame2pageid@[f as int] >= 0 by {
                    self.replacer.lemma_frame_view(f);
                    o.replacer.lemma_frame_view(f);
                    if f != frame_id {
                        assert(self.replacer.frame_view(f) == o.replacer.frame_view(f));
                    }
                }
                self.replacer.lemma_frame_view(frame_id);
                o.replacer.lemma_frame_view(frame_id);
            }
            return Ok(true);
        }
        Ok(true)
    }
}

/// The disk after writing, for each frame `f < n` in order that holds a page
/// (`fp(f) >= 0`), the frame's contents to that page's block.
pub open spec fn flushed(disk: Seq<u8>, pages: Seq<Seq<u8>>, fp: spec_fn(int) -> i32, n: int) -> Seq<u8>
    decreases n,
{
    if n <= 0 {
        disk
    } else {
        let d = flushed(disk, pages, fp, n - 1);
        if fp(n - 1) >= 0 {
            after_write(d, fp(n - 1) as int, pages[n - 1])
        } else {
            d
        }
    }
}

/// `flushed` depends only on the page numbers of the first `n` frames.
pub proof fn lemma_flushed_congruent(
    disk: Seq<u8>,
    pages: Seq<Seq<u8>>,
    fp1: spec_fn(int) -> i32,
    fp2: spec_fn(int) -> i32,
    n: int,
)
    requires
        forall|f: int| 0 <= f < n ==> #[trigger] fp1(f) == fp2(f),
    ensures
        flushed(disk, pages, fp1, n) == flushed(disk, pages, fp2, n),
    decreases n,
{
    if n > 0 {
        lemma_flushed_congruent(disk, pages, fp1, fp2, n - 1);
    }
}

} // verus!
