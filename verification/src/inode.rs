//! In-memory inodes: the cache (`iget`, `iput`), reading and writing on-disk
//! inodes, and allocation and release of on-disk inodes through the super
//! block's free-inode stack.

use crate::disk::block_of;
use crate::layout::{dinode_bytes, dinode_fields_at, read_dinode_at};
use crate::state::FileSystem;
use crate::types::{DIEMPTY, DINODESIZ, Dinode, Inode, InodeRef, NADDR, NHINO, NICFREE, NICINOD, SUPDATE, SuperBlock};
use vstd::prelude::*;

verus! {

/// Number of on-disk inodes.
pub const NDINODES: u32 = 512;

/// Byte offset of on-disk inode `ino` in its block.
pub open spec fn dinode_offset(ino: int) -> int {
    (ino % 16) * 32
}

/// Number of data blocks of a file of `size` bytes.
pub open spec fn blocks_of_size(size: int) -> int {
    (size + 511) / 512
}

/// Why an operation on inodes could not complete.
#[derive(Debug, Clone, Copy, PartialEq, Eq, Structural)]
pub enum FsError {
    /// A disk block could not be had from the buffer pool.
    Disk,
    /// A table or stack of the file system is in a state the operation cannot handle.
    Corrupt,
    /// No free on-disk inode is left.
    NoFreeInode,
}

impl FileSystem {
    /// The handles cached in bucket `b`.
    pub open spec fn bucket(&self, b: int) -> Seq<InodeRef> {
        self.hinode@[b]@
    }

    /// Whether releasing in-memory inode `n` is sure to succeed: other
    /// references remain; or its block can be fetched and, when it has no
    /// links, its data blocks fit on the free-block stack and the free-inode
    /// counters have room.
    pub open spec fn put_owed(&self, n: Inode) -> bool {
        ||| n.i_count > 1
        ||| {
            &&& self.room() >= 1
            &&& self.can_read(2 + n.i_ino / 16)
            &&& n.di_number == 0 ==> {
                &&& blocks_fit(self.filsys, blocks_of_size(n.di_size as int))
                &&& self.filsys.s_ninode < u32::MAX
                &&& self.filsys.s_pinode <= NICINOD
            }
        }
    }

    /// Whether handle `h` is cached in its inode's bucket.
    pub open spec fn cached_at(&self, ino: u32, j: int) -> bool {
        let b = self.hinode@[(ino % 128) as int]@;
        &&& 0 <= j < b.len()
        &&& self.inodes@[b[j] as int].i_ino == ino
        &&& forall|k: int| 0 <= k < j ==> self.inodes@[#[trigger] b[k] as int].i_ino != ino
    }

    /// Whether `n` may be the inode that `iget(ino)` hands out: the first
    /// cached inode with that number, or, when none is cached and the inode
    /// block can be fetched and is not in the buffer pool, the on-disk inode
    /// read from the disk. (When the block is in the pool, the pool's copy is
    /// read.)
    pub open spec fn may_get(&self, ino: u32, n: Inode) -> bool {
        let b = (ino % 128) as int;
        let pid = 2 + ino / 16;
        ||| exists|j: int| #[trigger]
            self.cached_at(ino, j) && dinode_of(n) == dinode_of(self.inodes@[self.hinode@[b]@[j] as int])
        ||| self.not_cached(ino) && (self.room() >= 1 && self.can_read(pid) && self.buffer_pool_manager.table_lookup(
            pid as i32,
        ) is None ==> dinode_fields_at(
            dinode_of(n),
            block_of(self.buffer_pool_manager.disk_view(), pid),
            dinode_offset(ino as int),
        ))
    }

    /// Whether inode `ino` is cached, its first cached copy referenced and
    /// its count below the maximum, so that taking and releasing it again
    /// leaves everything as it was.
    pub open spec fn cached_in_use(&self, ino: u32) -> bool {
        exists|j: int| #[trigger]
            self.cached_at(ino, j) && 1 <= self.inodes@[self.hinode@[(ino % 128) as int]@[j] as int].i_count < u32::MAX
    }

    /// Whether in-memory inode `hh` is the only cached inode with number
    /// `ino` (it may stand in its bucket more than once) and is referenced.
    pub open spec fn sole_in_use(&self, ino: u32, hh: InodeRef) -> bool {
        let s = self.bucket((ino % 128) as int);
        &&& hh < self.inodes@.len()
        &&& s.contains(hh)
        &&& self.inodes@[hh as int].i_ino == ino
        &&& 1 <= self.inodes@[hh as int].i_count < u32::MAX
        &&& forall|k: int| 0 <= k < s.len() && s[k] != hh ==> self.inodes@[#[trigger] s[k] as int].i_ino != ino
    }

    /// A sole cached inode is the first cached one with its number, so it is
    /// what taking the number gives: every inode `may_get` allows has its
    /// on-disk fields.
    pub proof fn lemma_sole_may_get(&self, ino: u32, hh: InodeRef, n: Inode)
        requires
            self.sole_in_use(ino, hh),
            self.may_get(ino, n),
        ensures
            dinode_of(n) == dinode_of(self.inodes@[hh as int]),
    {
        let b = (ino % 128) as int;
        let s = self.bucket(b);
        lemma_first_index_props(s, hh);
        let fi = first_index(s, hh);
        assert(self.cached_at(ino, fi));
        assert(!self.not_cached(ino)) by {
            assert(self.inodes@[s[fi] as int].i_ino == ino);
        }
        let j = choose|j: int| #[trigger] self.cached_at(ino, j) && dinode_of(n) == dinode_of(self.inodes@[self.hinode@[b]@[j] as int]);
        if j < fi {
            assert(s[j] != hh);
        } else if j > fi {
            assert(self.inodes@[s[fi] as int].i_ino != ino);
        }
    }

    /// Whether no cached inode has number `ino`.
    pub open spec fn not_cached(&self, ino: u32) -> bool {
        let b = self.hinode@[(ino % 128) as int]@;
        forall|k: int| 0 <= k < b.len() ==> self.inodes@[#[trigger] b[k] as int].i_ino != ino
    }

    /// The first cached inode with number `ino`.
    fn cache_find(&self, ino: u32) -> (r: Option<usize>)
        requires
            self.wf(),
        ensures
            r matches Some(j) ==> self.cached_at(ino, j as int),
            r is None ==> self.not_cached(ino),
    {
        let bucket = (ino % 128) as usize;
        let mut j: usize = 0;
        while j < self.hinode[bucket].len()
            invariant
                self.wf(),
                bucket == (ino % 128) as int,
                j <= self.hinode@[bucket as int]@.len(),
                forall|k: int| 0 <= k < j ==> self.inodes@[#[trigger] self.hinode@[bucket as int]@[k] as int].i_ino != ino,
            decreases self.hinode@[bucket as int]@.len() - j,
        {
            let h = self.hinode[bucket][j];
            if self.inodes[h].i_ino == ino {
                return Some(j);
            }
            j = j + 1;
        }
        None
    }

    /// Reads on-disk inode `dinodeid`.
    pub(crate) fn read_dinode(&mut self, dinodeid: u32) -> (r: Option<Dinode>)
        requires
            old(self).wf(),
        ensures
            final(self).wf(),
            final(self).same_but_pool(old(self)),
            final(self).buffer_pool_manager.spec_pool_size() == old(self).buffer_pool_manager.spec_pool_size(),
            final(self).spent(old(self), 1),
            old(self).buffer_pool_manager.consistent() && old(self).room() >= 1 ==> final(self).buffer_pool_manager.consistent()
                && final(self).buffer_pool_manager.frames_kept_but(&old(self).buffer_pool_manager, (2 + dinodeid / 16) as i32),
            forall|p: i32| #[trigger] final(self).buffer_pool_manager.holds_entry(p) ==> old(self).buffer_pool_manager.holds_entry(p)
                || p as int == 2 + dinodeid / 16,
            old(self).room() >= 1 ==> final(self).buffer_pool_manager.disk_view() == old(self).buffer_pool_manager.disk_view(),
            old(self).room() >= 1 && old(self).can_read(2 + dinodeid / 16) ==> r is Some,
            old(self).room() >= 1 && old(self).can_read(2 + dinodeid / 16) && old(self).buffer_pool_manager.table_lookup(
                (2 + dinodeid / 16) as i32,
            ) is None ==> (r matches Some(d) && dinode_fields_at(
                d,
                block_of(old(self).buffer_pool_manager.disk_view(), 2 + dinodeid / 16),
                dinode_offset(dinodeid as int),
            )),
            r matches Some(d) ==> exists|f: int|
                0 <= f < final(self).buffer_pool_manager.spec_pool_size() && dinode_fields_at(
                    d,
                    #[trigger] final(self).buffer_pool_manager.pages_view()[f],
                    dinode_offset(dinodeid as int),
                ),
    {
        let block_idx: u64 = 2 + (dinodeid / 16) as u64;
        let f = match self.fetch_block(block_idx) {
            Some(f) => f,
            None => {
                return None;
            },
        };
        let page = self.frame_bytes(f);
        let byte_offset = ((dinodeid % 16) * 32) as usize;
        let d = read_dinode_at(page.as_slice(), byte_offset);
        proof {
            assert(dinode_fields_at(d, self.buffer_pool_manager.pages_view()[f as int], dinode_offset(dinodeid as int)));
        }
        Some(d)
    }

    /// Writes on-disk inode `ino` with the given fields.
    pub(crate) fn write_dinode(
        &mut self,
        ino: u32,
        di_number: u16,
        di_mode: u16,
        di_uid: u16,
        di_gid: u16,
        di_size: u32,
        di_addr: [u16; NADDR],
    ) -> (ok: bool)
        requires
            old(self).wf(),
        ensures
            final(self).wf(),
            final(self).same_but_pool(old(self)),
            final(self).buffer_pool_manager.spec_pool_size() == old(self).buffer_pool_manager.spec_pool_size(),
            final(self).spent(old(self), 1),
            old(self).buffer_pool_manager.consistent() && old(self).room() >= 1 ==> final(self).buffer_pool_manager.consistent()
                && final(self).buffer_pool_manager.frames_kept_but(&old(self).buffer_pool_manager, (2 + ino / 16) as i32),
            forall|p: i32| #[trigger] final(self).buffer_pool_manager.holds_entry(p) ==> old(self).buffer_pool_manager.holds_entry(p)
                || p as int == 2 + ino / 16,
            old(self).room() >= 1 ==> final(self).buffer_pool_manager.disk_view() == old(self).buffer_pool_manager.disk_view(),
            old(self).room() >= 1 && old(self).can_read(2 + ino / 16) ==> ok,
            ok ==> exists|f: int|
                0 <= f < final(self).buffer_pool_manager.spec_pool_size() && dinode_fields_at(
                    Dinode { di_number, di_mode, di_uid, di_gid, di_size, di_addr },
                    #[trigger] final(self).buffer_pool_manager.pages_view()[f],
                    dinode_offset(ino as int),
                ),
    {
        let block_idx: u64 = 2 + (ino / 16) as u64;
        let f = match self.fetch_block(block_idx) {
            Some(f) => f,
            None => {
                return false;
            },
        };
        let byte_offset = ((ino % 16) * 32) as usize;
        let din = Dinode { di_number, di_mode, di_uid, di_gid, di_size, di_addr };
        let bytes = dinode_bytes(&din);
        let ghost mid = self.buffer_pool_manager;
        self.buffer_pool_manager.write_page(f as i32, byte_offset, bytes.as_slice());
        proof {
            if old(self).buffer_pool_manager.consistent() && old(self).room() >= 1 {
                let o = old(self).buffer_pool_manager;
                assert forall|g: int|
                    0 <= g < o.spec_pool_size() && o.frame_page(g) >= 0 && o.frame_page(g) != (2 + ino / 16) as i32 implies #[trigger] self.buffer_pool_manager.pages_view()[g]
                        == o.pages_view()[g] && self.buffer_pool_manager.frame_page(g) == o.frame_page(g) by {
                    assert(mid.pages_view()[g] == o.pages_view()[g]);
                    assert(mid.frame_page(g) == o.frame_page(g));
                    assert(g != f as int);
                    assert(self.buffer_pool_manager.pages_view()[g] == mid.pages_view()[g]);
                }
            }
        }
        proof {
            let pg = self.buffer_pool_manager.pages_view()[f as int];
            assert forall|i: int| 0 <= i < 32 implies #[trigger] pg[byte_offset + i] == bytes@[i] by {}
            assert(dinode_fields_at(din, pg, dinode_offset(ino as int)));
        }
        true
    }

    /// The in-memory inode of on-disk inode `dinodeid`: the cached one, with
    /// its reference count raised, or a new one read from disk and cached.
    /// Returns `None` when the on-disk inode cannot be read.
    pub fn iget(&mut self, dinodeid: u32) -> (r: Option<InodeRef>)
        requires
            old(self).wf(),
        ensures
            final(self).wf(),
            final(self).others_same(old(self)),
            final(self).filsys == old(self).filsys,
            final(self).buffer_pool_manager.spec_pool_size() == old(self).buffer_pool_manager.spec_pool_size(),
            final(self).spent(old(self), 1),
            old(self).buffer_pool_manager.consistent() && old(self).room() >= 1 ==> final(self).buffer_pool_manager.consistent()
                && final(self).buffer_pool_manager.frames_kept_but(&old(self).buffer_pool_manager, (2 + dinodeid / 16) as i32),
            forall|p: i32| #[trigger] final(self).buffer_pool_manager.holds_entry(p) ==> old(self).buffer_pool_manager.holds_entry(p)
                || p as int == 2 + dinodeid / 16,
            old(self).room() >= 1 ==> final(self).buffer_pool_manager.disk_view() == old(self).buffer_pool_manager.disk_view(),
            old(self).room() >= 1 && old(self).can_read(2 + dinodeid / 16) ==> r is Some,
            old(self).not_cached(dinodeid) && old(self).room() >= 1 && old(self).can_read(2 + dinodeid / 16)
                && old(self).buffer_pool_manager.table_lookup((2 + dinodeid / 16) as i32) is None ==> (r matches Some(h)
                && dinode_fields_at(
                dinode_of(final(self).inodes@[h as int]),
                block_of(old(self).buffer_pool_manager.disk_view(), 2 + dinodeid / 16),
                dinode_offset(dinodeid as int),
            )),
            r matches Some(h) ==> h < final(self).inodes@.len() && final(self).inodes@[h as int].i_ino == dinodeid,
            r is None ==> final(self).hinode@ == old(self).hinode@ && final(self).inodes@ == old(self).inodes@,
            r matches Some(h) ==> {
                let b = (dinodeid % 128) as int;
                ||| h < old(self).inodes@.len() && final(self).hinode@ == old(self).hinode@ && final(self).inodes@
                    == old(self).inodes@.update(h as int, Inode { i_count: final(self).inodes@[h as int].i_count, ..old(self).inodes@[h as int] })
                ||| h == old(self).inodes@.len() && final(self).inodes@.subrange(0, h as int) == old(self).inodes@
                    && final(self).bucket(b) == old(self).bucket(b).push(h) && forall|b2: int|
                    0 <= b2 < NHINO && b2 != b ==> #[trigger] final(self).bucket(b2) == old(self).bucket(b2)
            },
            r matches Some(h) ==> old(self).may_get(dinodeid, final(self).inodes@[h as int]),
            final(self).inodes@.len() >= old(self).inodes@.len(),
            forall|k: int|
                0 <= k < old(self).inodes@.len() ==> same_data(#[trigger] final(self).inodes@[k], old(self).inodes@[k]),
            forall|j: int|
                old(self).cached_at(dinodeid, j) ==> {
                    let h = old(self).hinode@[(dinodeid % 128) as int]@[j];
                    let n = old(self).inodes@[h as int];
                    &&& r == Some(h)
                    &&& final(self).buffer_pool_manager == old(self).buffer_pool_manager
                    &&& final(self).hinode@ == old(self).hinode@
                    &&& final(self).inodes@ == old(self).inodes@.update(
                        h as int,
                        Inode { i_count: if n.i_count < u32::MAX { (n.i_count + 1) as u32 } else { n.i_count }, ..n },
                    )
                },
            old(self).not_cached(dinodeid) ==> match r {
                None => final(self).hinode@ == old(self).hinode@ && final(self).inodes@ == old(self).inodes@,
                Some(h) => {
                    let b = (dinodeid % 128) as int;
                    &&& h == old(self).inodes@.len()
                    &&& final(self).bucket(b) == old(self).bucket(b).push(h)
                    &&& forall|b2: int| 0 <= b2 < NHINO && b2 != b ==> #[trigger] final(self).bucket(b2) == old(self).bucket(b2)
                    &&& final(self).inodes@.len() == old(self).inodes@.len() + 1
                    &&& final(self).inodes@.subrange(0, h as int) == old(self).inodes@
                    &&& final(self).inodes@[h as int].i_count == 1
                    &&& final(self).inodes@[h as int].i_flag == 0
                    &&& exists|f: int|
                        0 <= f < final(self).buffer_pool_manager.spec_pool_size() && #[trigger] dinode_fields_at(
                            Dinode {
                                di_number: final(self).inodes@[h as int].di_number,
                                di_mode: final(self).inodes@[h as int].di_mode,
                                di_uid: final(self).inodes@[h as int].di_uid,
                                di_gid: final(self).inodes@[h as int].di_gid,
                                di_size: final(self).inodes@[h as int].di_size,
                                di_addr: final(self).inodes@[h as int].di_addr,
                            },
                            final(self).buffer_pool_manager.pages_view()[f],
                            dinode_offset(dinodeid as int),
                        )
                },
            },
    {
        let bucket = (dinodeid % 128) as usize;
        if let Some(j) = self.cache_find(dinodeid) {
            let h = self.hinode[bucket][j];
            let mut n = self.inodes[h];
            if n.i_count < u32::MAX {
                n.i_count = n.i_count + 1;
            }
            self.inodes.set(h, n);
            proof {
                assert forall|k: int| 0 <= k < old(self).inodes@.len() implies same_data(#[trigger] self.inodes@[k], old(self).inodes@[k]) by {
                    if k == h {
                        assert(self.inodes@[k] == Inode { i_count: n.i_count, ..old(self).inodes@[k] });
                    }
                }
                assert forall|jj: int| old(self).cached_at(dinodeid, jj) implies jj == j by {
                    if jj < j {
                        assert(self.inodes@[old(self).hinode@[bucket as int]@[jj] as int].i_ino != dinodeid);
                    } else if jj > j {
                        assert(old(self).inodes@[old(self).hinode@[bucket as int]@[j as int] as int].i_ino != dinodeid);
                    }
                }
                assert(old(self).cached_at(dinodeid, j as int));
                assert(dinode_of(self.inodes@[h as int]) == dinode_of(old(self).inodes@[old(self).hinode@[bucket as int]@[j as int] as int]));
            }
            return Some(h);
        }
        let din = match self.read_dinode(dinodeid) {
            Some(d) => d,
            None => {
                return None;
            },
        };
        let newinode = Inode {
            i_flag: 0,
            i_ino: dinodeid,
            i_count: 1,
            di_number: din.di_number,
            di_mode: din.di_mode,
            di_uid: din.di_uid,
            di_gid: din.di_gid,
            di_size: din.di_size,
            di_addr: din.di_addr,
        };
        let h = self.inodes.len();
        self.inodes.push(newinode);
        let ghost pre = self.hinode@;
        let mut bucket_vec: Vec<InodeRef> = Vec::new();
        std::mem::swap(&mut bucket_vec, &mut self.hinode[bucket]);
        bucket_vec.push(h);
        self.hinode.set(bucket, bucket_vec);
        proof {
            assert(self.inodes@.subrange(0, h as int) =~= old(self).inodes@);
            assert forall|k: int| 0 <= k < old(self).inodes@.len() implies same_data(#[trigger] self.inodes@[k], old(self).inodes@[k]) by {
                assert(self.inodes@[k] == old(self).inodes@[k]);
            }
            assert forall|b: int, j: int| 0 <= b < NHINO && 0 <= j < self.hinode@[b]@.len() implies #[trigger] self.hinode@[b]@[j] < self.inodes@.len() by {
                if b != bucket {
                    assert(self.hinode@[b] == old(self).hinode@[b]);
                } else if j < old(self).hinode@[b]@.len() {
                    assert(self.hinode@[b]@[j] == old(self).hinode@[b]@[j]);
                }
            }
            assert(self.bucket(bucket as int) =~= old(self).bucket(bucket as int).push(h));
            let d2 = Dinode {
                di_number: self.inodes@[h as int].di_number,
                di_mode: self.inodes@[h as int].di_mode,
                di_uid: self.inodes@[h as int].di_uid,
                di_gid: self.inodes@[h as int].di_gid,
                di_size: self.inodes@[h as int].di_size,
                di_addr: self.inodes@[h as int].di_addr,
            };
            assert(d2 == din);
            assert forall|b2: int| 0 <= b2 < NHINO && b2 != bucket implies #[trigger] self.bucket(b2) == old(self).bucket(b2) by {
                assert(self.hinode@[b2] == pre[b2]);
            }
            let f = choose|f: int|
                0 <= f < self.buffer_pool_manager.spec_pool_size() && dinode_fields_at(
                    din,
                    #[trigger] self.buffer_pool_manager.pages_view()[f],
                    dinode_offset(dinodeid as int),
                );
            assert(dinode_fields_at(d2, self.buffer_pool_manager.pages_view()[f], dinode_offset(dinodeid as int)));
        }
        Some(h)
    }

    /// Releases on-disk inode `dinodeid`: counts it free, pushes it on the
    /// free-inode stack when the stack has room, else lowers the remembered
    /// inode to it when it lies below, and zeroes its 32 bytes on disk.
    pub fn ifree(&mut self, dinodeid: u32) -> (r: Result<(), FsError>)
        requires
            old(self).wf(),
        ensures
            final(self).wf(),
            final(self).hinode@ == old(self).hinode@,
            final(self).inodes@ == old(self).inodes@,
            final(self).others_same(old(self)),
            final(self).buffer_pool_manager.spec_pool_size() == old(self).buffer_pool_manager.spec_pool_size(),
            (old(self).filsys.s_ninode == u32::MAX || old(self).filsys.s_pinode > NICINOD) <==> r == Err::<(), FsError>(FsError::Corrupt),
            final(self).spent(old(self), 1),
            old(self).buffer_pool_manager.consistent() && old(self).room() >= 1 ==> final(self).buffer_pool_manager.consistent()
                && final(self).buffer_pool_manager.frames_kept_but(&old(self).buffer_pool_manager, (2 + dinodeid / 16) as i32),
            forall|p: i32| #[trigger] final(self).buffer_pool_manager.holds_entry(p) ==> old(self).buffer_pool_manager.holds_entry(p)
                || p as int == 2 + dinodeid / 16,
            old(self).room() >= 1 ==> final(self).buffer_pool_manager.disk_view() == old(self).buffer_pool_manager.disk_view(),
            old(self).room() >= 1 && old(self).can_read(2 + dinodeid / 16) && old(self).filsys.s_ninode < u32::MAX
                && old(self).filsys.s_pinode <= NICINOD ==> r is Ok,
            r is Err ==> final(self).filsys == old(self).filsys,
            r is Ok ==> inode_freed(old(self).filsys, final(self).filsys, dinodeid) && exists|f: int|
                0 <= f < final(self).buffer_pool_manager.spec_pool_size() && zeroed_at(
                    #[trigger] final(self).buffer_pool_manager.pages_view()[f],
                    dinode_offset(dinodeid as int),
                    DINODESIZ as int,
                ),
    {
        if self.filsys.s_ninode == u32::MAX || self.filsys.s_pinode > NICINOD as u16 {
            return Err(FsError::Corrupt);
        }
        let block_idx: u64 = 2 + (dinodeid / 16) as u64;
        let f = match self.fetch_block(block_idx) {
            Some(f) => f,
            None => {
                return Err(FsError::Disk);
            },
        };
        let byte_offset = ((dinodeid % 16) * 32) as usize;
        let zeros: Vec<u8> = vec![0u8; 32];
        let ghost mid = self.buffer_pool_manager;
        self.buffer_pool_manager.write_page(f as i32, byte_offset, zeros.as_slice());
        proof {
            if old(self).buffer_pool_manager.consistent() && old(self).room() >= 1 {
                let o = old(self).buffer_pool_manager;
                assert forall|g: int|
                    0 <= g < o.spec_pool_size() && o.frame_page(g) >= 0 && o.frame_page(g) != (2 + dinodeid / 16) as i32 implies #[trigger] self.buffer_pool_manager.pages_view()[g]
                        == o.pages_view()[g] && self.buffer_pool_manager.frame_page(g) == o.frame_page(g) by {
                    assert(mid.pages_view()[g] == o.pages_view()[g]);
                    assert(mid.frame_page(g) == o.frame_page(g));
                    assert(g != f as int);
                    assert(self.buffer_pool_manager.pages_view()[g] == mid.pages_view()[g]);
                }
            }
        }
        proof {
            let pg = self.buffer_pool_manager.pages_view()[f as int];
            assert forall|i: int| 0 <= i < 32 implies #[trigger] pg[byte_offset + i] == 0u8 by {
                assert(pg[byte_offset + i] == zeros@[i]);
            }
            assert(zeroed_at(pg, dinode_offset(dinodeid as int), 32));
        }
        let ghost pages = self.buffer_pool_manager.pages_view();
        self.filsys.s_ninode = self.filsys.s_ninode + 1;
        if self.filsys.s_pinode != 0 {
            self.filsys.s_pinode = self.filsys.s_pinode - 1;
            self.filsys.s_inode[self.filsys.s_pinode as usize] = dinodeid;
        } else if dinodeid < self.filsys.s_rinode {
            self.filsys.s_rinode = dinodeid;
        }
        proof {
            assert(self.buffer_pool_manager.pages_view() == pages);
            assert(zeroed_at(self.buffer_pool_manager.pages_view()[f as int], dinode_offset(dinodeid as int), DINODESIZ as int));
        }
        Ok(())
    }

    /// Releases the first `count` data blocks listed in `addr`, in order,
    /// onto the free-block stack. Refuses, changing nothing, when `addr`
    /// has fewer entries or the stack or a counter has no room for them.
    pub(crate) fn free_blocks(&mut self, addr: [u16; NADDR], count: usize) -> (r: Result<(), FsError>)
        requires
            old(self).wf(),
        ensures
            final(self).wf(),
            final(self).hinode@ == old(self).hinode@,
            final(self).inodes@ == old(self).inodes@,
            final(self).others_same(old(self)),
            final(self).buffer_pool_manager == old(self).buffer_pool_manager,
            r is Ok <==> blocks_fit(old(self).filsys, count as int),
            r is Err ==> r == Err::<(), FsError>(FsError::Corrupt) && final(self).filsys == old(self).filsys,
            r is Ok ==> blocks_freed(old(self).filsys, final(self).filsys, addr@, count as int),
    {
        if count > NADDR || self.filsys.s_pfree as usize + count > NICFREE - 1
            || self.filsys.s_nfree as u64 + count as u64 > u32::MAX as u64
            || self.filsys.s_free[0] as u64 + count as u64 > u32::MAX as u64 {
            return Err(FsError::Corrupt);
        }
        let ghost o = self.filsys;
        let mut i: usize = 0;
        while i < count
            invariant
                self.wf(),
                self.hinode@ == old(self).hinode@,
                self.inodes@ == old(self).inodes@,
                self.others_same(old(self)),
                self.buffer_pool_manager == old(self).buffer_pool_manager,
                o == old(self).filsys,
                blocks_fit(o, count as int),
                i <= count,
                blocks_freed(o, self.filsys, addr@, i as int),
            decreases count - i,
        {
            let ghost pre = self.filsys;
            self.bfree(addr[i] as u32);
            proof {
                let n = self.filsys;
                assert forall|j: int| 1 <= j < NICFREE && !(o.s_pfree + 1 <= j < o.s_pfree + 1 + i + 1) implies #[trigger] n.s_free@[j] == o.s_free@[j] by {
                    assert(n.s_free@[j] == pre.s_free@[j]);
                }
                assert forall|j: int| 0 <= j < i + 1 implies #[trigger] n.s_free@[o.s_pfree + 1 + j] == addr@[j] as u32 by {
                    if j < i {
                        assert(n.s_free@[o.s_pfree + 1 + j] == pre.s_free@[o.s_pfree + 1 + j]);
                    }
                }
            }
            i = i + 1;
        }
        Ok(())
    }

    /// Releases in-memory inode `inode`: lowers its reference count when
    /// other references remain; else, when the file still has links, writes
    /// the inode back to disk, and when it has none, releases its data
    /// blocks and its on-disk inode; in both cases it leaves the cache.
    pub fn iput(&mut self, inode: InodeRef) -> (r: Result<(), FsError>)
        requires
            old(self).wf(),
            inode < old(self).inodes@.len(),
        ensures
            final(self).wf(),
            final(self).others_same(old(self)),
            final(self).buffer_pool_manager.spec_pool_size() == old(self).buffer_pool_manager.spec_pool_size(),
            final(self).spent(old(self), 1),
            old(self).buffer_pool_manager.consistent() && old(self).room() >= 1 ==> final(self).buffer_pool_manager.consistent()
                && final(self).buffer_pool_manager.frames_kept_but(&old(self).buffer_pool_manager, (2 + old(self).inodes@[inode as int].i_ino / 16) as i32),
            forall|p: i32| #[trigger] final(self).buffer_pool_manager.holds_entry(p) ==> old(self).buffer_pool_manager.holds_entry(p)
                || p as int == 2 + old(self).inodes@[inode as int].i_ino / 16,
            old(self).room() >= 1 ==> final(self).buffer_pool_manager.disk_view() == old(self).buffer_pool_manager.disk_view(),
            old(self).put_owed(old(self).inodes@[inode as int]) ==> r is Ok,
            ({
                let n = old(self).inodes@[inode as int];
                let b = (n.i_ino % 128) as int;
                let ob = old(self).bucket(b);
                if n.i_count > 1 {
                    &&& r == Ok::<(), FsError>(())
                    &&& final(self).buffer_pool_manager == old(self).buffer_pool_manager
                    &&& final(self).inodes@ == old(self).inodes@.update(inode as int, Inode { i_count: (n.i_count - 1) as u32, ..n })
                    &&& final(self).hinode@ == old(self).hinode@
                    &&& final(self).filsys == old(self).filsys
                } else {
                    &&& final(self).inodes@ == old(self).inodes@
                    &&& r is Ok ==> final(self).bucket(b) == removed_first(ob, inode)
                    &&& r is Err ==> final(self).hinode@ == old(self).hinode@
                    &&& forall|b2: int| 0 <= b2 < NHINO && b2 != b ==> #[trigger] final(self).bucket(b2) == old(self).bucket(b2)
                    &&& if n.di_number != 0 {
                        &&& final(self).filsys == old(self).filsys
                        &&& r is Err ==> r == Err::<(), FsError>(FsError::Disk)
                        &&& r is Ok ==> exists|f: int|
                            0 <= f < final(self).buffer_pool_manager.spec_pool_size() && dinode_fields_at(
                                dinode_of(n),
                                #[trigger] final(self).buffer_pool_manager.pages_view()[f],
                                dinode_offset(n.i_ino as int),
                            )
                    } else {
                        let nb = blocks_of_size(n.di_size as int);
                        &&& (r == Err::<(), FsError>(FsError::Corrupt) ==> final(self).filsys == old(self).filsys)
                        &&& (!blocks_fit(old(self).filsys, nb) ==> r == Err::<(), FsError>(FsError::Corrupt))
                        &&& (r == Err::<(), FsError>(FsError::Disk) ==> blocks_freed(old(self).filsys, final(self).filsys, n.di_addr@, nb))
                        &&& r is Ok ==> exists|mid: SuperBlock| {
                            &&& blocks_freed(old(self).filsys, mid, n.di_addr@, nb)
                            &&& #[trigger] inode_freed(mid, final(self).filsys, n.i_ino)
                        }
                        &&& r is Ok ==> exists|f: int|
                            0 <= f < final(self).buffer_pool_manager.spec_pool_size() && zeroed_at(
                                #[trigger] final(self).buffer_pool_manager.pages_view()[f],
                                dinode_offset(n.i_ino as int),
                                DINODESIZ as int,
                            )
                    }
                }
            }),
    {
        let n = self.inodes[inode];
        if n.i_count > 1 {
            let mut m = n;
            m.i_count = n.i_count - 1;
            self.inodes.set(inode, m);
            return Ok(());
        }
        if n.di_number != 0 {
            if !self.write_dinode(n.i_ino, n.di_number, n.di_mode, n.di_uid, n.di_gid, n.di_size, n.di_addr) {
                return Err(FsError::Disk);
            }
        } else {
            let blocks: u64 = (n.di_size as u64 + 511) / 512;
            if blocks > NADDR as u64 || self.filsys.s_ninode == u32::MAX || self.filsys.s_pinode > NICINOD as u16 {
                return Err(FsError::Corrupt);
            }
            match self.free_blocks(n.di_addr, blocks as usize) {
                Ok(()) => {},
                Err(e) => {
                    return Err(e);
                },
            }
            let ghost mid = self.filsys;
            match self.ifree(n.i_ino) {
                Ok(()) => {},
                Err(e) => {
                    return Err(e);
                },
            }
            proof {
                assert(inode_freed(mid, self.filsys, n.i_ino));
            }
        }
        let bucket = (n.i_ino % 128) as usize;
        self.remove_handle(bucket, inode);
        Ok(())
    }

    /// Removes the first occurrence of `h` from cache bucket `b`, moving the
    /// bucket's last handle into its place.
    fn remove_handle(&mut self, b: usize, h: InodeRef)
        requires
            old(self).wf(),
            b < NHINO,
        ensures
            final(self).wf(),
            final(self).bucket(b as int) == removed_first(old(self).bucket(b as int), h),
            forall|b2: int| 0 <= b2 < NHINO && b2 != b ==> #[trigger] final(self).bucket(b2) == old(self).bucket(b2),
            final(self).inodes@ == old(self).inodes@,
            final(self).filsys == old(self).filsys,
            final(self).others_same(old(self)),
            final(self).buffer_pool_manager == old(self).buffer_pool_manager,
    {
        let ghost pre = self.hinode@;
        let mut v: Vec<InodeRef> = Vec::new();
        std::mem::swap(&mut v, &mut self.hinode[b]);
        let mut j: usize = 0;
        while j < v.len()
            invariant
                j <= v@.len(),
                v@ == pre[b as int]@,
                forall|k: int| 0 <= k < j ==> v@[k] != h,
            ensures
                j <= v@.len(),
                forall|k: int| 0 <= k < j ==> v@[k] != h,
                j < v@.len() ==> v@[j as int] == h,
            decreases v@.len() - j,
        {
            if v[j] == h {
                break;
            }
            j = j + 1;
        }
        if j < v.len() {
            v.swap_remove(j);
        }
        self.hinode.set(b, v);
        proof {
            assert(first_index(pre[b as int]@, h) == j as int) by {
                lemma_first_index(pre[b as int]@, h, j as int);
            }
            assert forall|b2: int, k: int| 0 <= b2 < NHINO && 0 <= k < self.hinode@[b2]@.len() implies #[trigger] self.hinode@[b2]@[k] < self.inodes@.len() by {
                if b2 != b {
                    assert(self.hinode@[b2] == pre[b2]);
                } else {
                    if j < pre[b as int]@.len() {
                        let s = pre[b as int]@;
                        if k == j && j < s.len() - 1 {
                            assert(self.hinode@[b2]@[k] == s[s.len() - 1]);
                        } else {
                            assert(self.hinode@[b2]@[k] == s[k]);
                        }
                    }
                }
            }
            assert forall|b2: int| 0 <= b2 < NHINO && b2 != b implies #[trigger] self.bucket(b2) == old(self).bucket(b2) by {
                assert(self.hinode@[b2] == pre[b2]);
            }
        }
    }

    /// Allocates an on-disk inode and returns its in-memory inode: takes the
    /// number at the free-inode stack pointer; when the stack is empty it is
    /// first refilled, from the top down, with the free inodes found scanning
    /// upwards from the remembered inode, which is then moved past the scan.
    pub fn ialloc(&mut self) -> (r: Result<InodeRef, FsError>)
        requires
            old(self).wf(),
        ensures
            final(self).wf(),
            final(self).others_same(old(self)),
            final(self).buffer_pool_manager.spec_pool_size() == old(self).buffer_pool_manager.spec_pool_size(),
            old(self).filsys.s_ninode == 0 ==> r == Err::<InodeRef, FsError>(FsError::NoFreeInode),
            old(self).filsys.s_ninode != 0 && old(self).filsys.s_pinode > NICINOD ==> r == Err::<InodeRef, FsError>(
                FsError::Corrupt,
            ),
            r is Err ==> final(self).filsys == old(self).filsys,
            final(self).inodes@.len() >= old(self).inodes@.len(),
            forall|k: int| 0 <= k < old(self).inodes@.len() ==> same_data(#[trigger] final(self).inodes@[k], old(self).inodes@[k]),
            final(self).buffer_pool_manager.disk_view().len() >= old(self).buffer_pool_manager.disk_view().len(),
            old(self).filsys.s_pinode < NICINOD ==> final(self).spent(old(self), 1),
            old(self).filsys.s_pinode < NICINOD && old(self).buffer_pool_manager.consistent() && old(self).room() >= 1
                ==> final(self).buffer_pool_manager.consistent() && final(self).buffer_pool_manager.frames_kept_but(
                &old(self).buffer_pool_manager,
                (2 + old(self).filsys.s_inode@[old(self).filsys.s_pinode as int] / 16) as i32,
            ),
            ({
                let o = old(self).filsys;
                &&& o.s_ninode != 0
                &&& o.s_pinode < NICINOD
                &&& old(self).room() >= 1
                &&& old(self).can_read(2 + o.s_inode@[o.s_pinode as int] / 16)
            }) ==> r is Ok,
            r matches Ok(h) ==> {
                let o = old(self).filsys;
                let n = final(self).filsys;
                let p = n.s_pinode - 1;
                &&& h < final(self).inodes@.len()
                &&& 1 <= n.s_pinode <= NICINOD
                &&& final(self).inodes@[h as int].i_ino == n.s_inode@[p]
                &&& n.s_ninode == o.s_ninode - 1
                &&& n.s_fmod == SUPDATE
                &&& n.s_isize == o.s_isize && n.s_fsize == o.s_fsize
                &&& n.s_nfree == o.s_nfree && n.s_pfree == o.s_pfree && n.s_free == o.s_free
                &&& o.s_pinode < NICINOD ==> n.s_pinode == o.s_pinode + 1 && n.s_inode == o.s_inode && n.s_rinode
                    == o.s_rinode
                &&& o.s_pinode == NICINOD ==> reloaded(o, n, p)
            },
    {
        if self.filsys.s_ninode == 0 {
            return Err(FsError::NoFreeInode);
        }
        if self.filsys.s_pinode > NICINOD as u16 {
            return Err(FsError::Corrupt);
        }
        if self.filsys.s_pinode < NICINOD as u16 {
            let p = self.filsys.s_pinode as usize;
            let ino = self.filsys.s_inode[p];
            let h = match self.iget(ino) {
                Some(h) => h,
                None => {
                    return Err(FsError::Disk);
                },
            };
            self.filsys.s_pinode = self.filsys.s_pinode + 1;
            self.filsys.s_ninode = self.filsys.s_ninode - 1;
            self.filsys.s_fmod = SUPDATE;
            return Ok(h);
        }
        let ghost o = self.filsys;
        let mut stack: [u32; NICINOD] = self.filsys.s_inode;
        let mut count: usize = 0;
        let mut cur: u32 = self.filsys.s_rinode;
        while count < NICINOD && (count as u32) < self.filsys.s_ninode && cur < NDINODES
            invariant
                self.wf(),
                self.others_same(old(self)),
                self.filsys == o,
                o == old(self).filsys,
                o.s_pinode == NICINOD,
                self.buffer_pool_manager.spec_pool_size() == old(self).buffer_pool_manager.spec_pool_size(),
                self.inodes@ == old(self).inodes@,
                self.buffer_pool_manager.disk_view().len() >= old(self).buffer_pool_manager.disk_view().len(),
                count <= NICINOD,
                count <= cur - o.s_rinode,
                o.s_rinode <= cur,
                cur <= NDINODES || cur == o.s_rinode,
                scanned(o, stack@, (NICINOD - count) as int, cur as int),
            decreases NDINODES - cur,
        {
            let d = match self.read_dinode(cur) {
                Some(d) => d,
                None => {
                    return Err(FsError::Disk);
                },
            };
            if d.di_mode == DIEMPTY {
                stack[NICINOD - 1 - count] = cur;
                count = count + 1;
            }
            cur = cur + 1;
        }
        if count == 0 {
            return Err(FsError::NoFreeInode);
        }
        let p = NICINOD - count;
        let ino = stack[p];
        let h = match self.iget(ino) {
            Some(h) => h,
            None => {
                return Err(FsError::Disk);
            },
        };
        self.filsys.s_inode = stack;
        self.filsys.s_rinode = cur;
        self.filsys.s_pinode = (p + 1) as u16;
        self.filsys.s_ninode = self.filsys.s_ninode - 1;
        self.filsys.s_fmod = SUPDATE;
        Ok(h)
    }
}

/// Whether `a` and `b` agree on everything but the reference count.
pub open spec fn same_data(a: Inode, b: Inode) -> bool {
    Inode { i_count: 0, ..a } == Inode { i_count: 0, ..b }
}

/// The on-disk inode held by in-memory inode `n`.
pub open spec fn dinode_of(n: Inode) -> Dinode {
    Dinode {
        di_number: n.di_number,
        di_mode: n.di_mode,
        di_uid: n.di_uid,
        di_gid: n.di_gid,
        di_size: n.di_size,
        di_addr: n.di_addr,
    }
}

/// Whether the `len` bytes of `pg` from `off` are zero.
pub open spec fn zeroed_at(pg: Seq<u8>, off: int, len: int) -> bool {
    forall|i: int| 0 <= i < len ==> #[trigger] pg[off + i] == 0u8
}

/// Index of the first `h` in `s`, or `s.len()` when there is none.
pub open spec fn first_index(s: Seq<InodeRef>, h: InodeRef) -> int
    decreases s.len(),
{
    if s.len() == 0 {
        0
    } else if s[0] == h {
        0
    } else {
        1 + first_index(s.drop_first(), h)
    }
}

/// `s` with its first `h` replaced by its last element and the last
/// element dropped; `s` itself when it holds no `h`.
pub open spec fn removed_first(s: Seq<InodeRef>, h: InodeRef) -> Seq<InodeRef> {
    let j = first_index(s, h);
    if j < s.len() {
        s.update(j, s.last()).drop_last()
    } else {
        s
    }
}

/// `first_index` is the position of the first occurrence.
/// `first_index` is in range, names an `h` when below the length, follows
/// only other values, and is below the length when `s` holds `h`.
pub proof fn lemma_first_index_props(s: Seq<InodeRef>, h: InodeRef)
    ensures
        0 <= first_index(s, h) <= s.len(),
        first_index(s, h) < s.len() ==> s[first_index(s, h)] == h,
        forall|k: int| 0 <= k < first_index(s, h) ==> s[k] != h,
        s.contains(h) ==> first_index(s, h) < s.len(),
    decreases s.len(),
{
    if s.len() > 0 && s[0] != h {
        lemma_first_index_props(s.drop_first(), h);
        assert forall|k: int| 0 <= k < first_index(s, h) implies s[k] != h by {
            if k > 0 {
                assert(s[k] == s.drop_first()[k - 1]);
            }
        }
        if s.contains(h) {
            let p = choose|p: int| 0 <= p < s.len() && s[p] == h;
            assert(s.drop_first()[p - 1] == h);
            assert(s.drop_first().contains(h));
        }
    }
}

/// Removing the first `h` keeps every other value of `s` and adds none.
pub proof fn lemma_removed_first_keeps(s: Seq<InodeRef>, h: InodeRef, x: InodeRef)
    ensures
        forall|k: int| 0 <= k < removed_first(s, h).len() ==> s.contains(#[trigger] removed_first(s, h)[k]),
        x != h && s.contains(x) ==> removed_first(s, h).contains(x),
{
    lemma_first_index_props(s, h);
    let j = first_index(s, h);
    let r = removed_first(s, h);
    if j < s.len() {
        assert forall|k: int| 0 <= k < r.len() implies s.contains(#[trigger] r[k]) by {
            if k == j {
                assert(r[k] == s[s.len() - 1]);
            } else {
                assert(r[k] == s[k]);
            }
        }
        if x != h && s.contains(x) {
            let p = choose|p: int| 0 <= p < s.len() && s[p] == x;
            if p == s.len() - 1 {
                assert(r[j] == x);
            } else {
                assert(p != j);
                assert(r[p] == x);
            }
        }
    }
}

pub proof fn lemma_first_index(s: Seq<InodeRef>, h: InodeRef, j: int)
    requires
        0 <= j <= s.len(),
        forall|k: int| 0 <= k < j ==> s[k] != h,
        j < s.len() ==> s[j] == h,
    ensures
        first_index(s, h) == j,
    decreases s.len(),
{
    if s.len() > 0 && j > 0 {
        lemma_first_index(s.drop_first(), h, j - 1);
    }
}

/// Whether `stack[p..NICINOD]` holds inode numbers from `o`'s remembered
/// inode up to (not including) `cur`, decreasing upwards from `NICINOD - 1`,
/// and `stack[0..p]` is `o`'s stack.
pub open spec fn scanned(o: SuperBlock, stack: Seq<u32>, p: int, cur: int) -> bool {
    &&& stack.len() == NICINOD
    &&& forall|i: int| p <= i < NICINOD ==> o.s_rinode <= #[trigger] stack[i] < cur
    &&& forall|i: int, j: int| p <= i < j < NICINOD ==> #[trigger] stack[i] > #[trigger] stack[j]
    &&& forall|i: int| 0 <= i < p ==> #[trigger] stack[i] == o.s_inode@[i]
}

/// Whether `n`'s free-inode stack was refilled from `o` with the entries
/// `n.s_inode[p..NICINOD]` (found scanning from `o`'s remembered inode to
/// `n`'s, which is at most the number of inodes), `p` of them being handed out.
pub open spec fn reloaded(o: SuperBlock, n: SuperBlock, p: int) -> bool {
    &&& 0 <= p < NICINOD
    &&& n.s_pinode == p + 1
    &&& o.s_rinode < n.s_rinode <= NDINODES
    &&& scanned(o, n.s_inode@, p, n.s_rinode as int)
}

/// Whether the free-block stack and counters have room for `count` more
/// blocks, taken from an address list of `NADDR` entries.
pub open spec fn blocks_fit(o: SuperBlock, count: int) -> bool {
    &&& 0 <= count <= NADDR
    &&& o.s_pfree + count <= NICFREE - 1
    &&& o.s_nfree + count <= u32::MAX
    &&& o.s_free@[0] + count <= u32::MAX
}

/// Whether `n` is `o` after releasing the data blocks `addr[0..count]` in
/// order: each pushed above the stack pointer, the counters raised.
pub open spec fn blocks_freed(o: SuperBlock, n: SuperBlock, addr: Seq<u16>, count: int) -> bool {
    &&& n.s_nfree == o.s_nfree + count
    &&& n.s_pfree == o.s_pfree + count
    &&& n.s_free@[0] == o.s_free@[0] + count
    &&& forall|j: int| 0 <= j < count ==> #[trigger] n.s_free@[o.s_pfree + 1 + j] == addr[j] as u32
    &&& forall|j: int|
        1 <= j < NICFREE && !(o.s_pfree + 1 <= j < o.s_pfree + 1 + count) ==> #[trigger] n.s_free@[j] == o.s_free@[j]
    &&& n.s_fmod == if count > 0 { SUPDATE } else { o.s_fmod }
    &&& n.s_isize == o.s_isize
    &&& n.s_fsize == o.s_fsize
    &&& n.s_ninode == o.s_ninode
    &&& n.s_pinode == o.s_pinode
    &&& n.s_inode == o.s_inode
    &&& n.s_rinode == o.s_rinode
}

/// Whether `n` is `o` after releasing on-disk inode `ino`.
pub open spec fn inode_freed(o: SuperBlock, n: SuperBlock, ino: u32) -> bool {
    &&& n.s_ninode == o.s_ninode + 1
    &&& if o.s_pinode != 0 {
        &&& n.s_pinode == o.s_pinode - 1
        &&& n.s_inode@ == o.s_inode@.update(o.s_pinode - 1, ino)
        &&& n.s_rinode == o.s_rinode
    } else {
        &&& n.s_pinode == 0
        &&& n.s_inode == o.s_inode
        &&& n.s_rinode == if ino < o.s_rinode { ino } else { o.s_rinode }
    }
    &&& n.s_isize == o.s_isize
    &&& n.s_fsize == o.s_fsize
    &&& n.s_nfree == o.s_nfree
    &&& n.s_pfree == o.s_pfree
    &&& n.s_free == o.s_free
    &&& n.s_fmod == o.s_fmod
}


/// An inode released onto a free-inode stack with room is the next one
/// allocated: after `ifree` pushes it, the stack pointer `ialloc` takes
/// from points to it.
pub proof fn lemma_ifree_then_ialloc(o: SuperBlock, n: SuperBlock, ino: u32)
    requires
        inode_freed(o, n, ino),
        0 < o.s_pinode <= NICINOD,
    ensures
        n.s_pinode < NICINOD,
        n.s_inode@[n.s_pinode as int] == ino,
        n.s_ninode == o.s_ninode + 1,
{
}

/// A data block released onto the free-block stack is not lost: it sits
/// right above the new stack pointer, where the next group's leader load
/// or a later release could overwrite it, and the count of free blocks
/// grew by one.
pub proof fn lemma_bfree_pushes(o: SuperBlock, n: SuperBlock, addr: Seq<u16>)
    requires
        addr.len() >= 1,
        blocks_freed(o, n, addr, 1),
    ensures
        n.s_free@[n.s_pfree as int] == addr[0] as u32,
        n.s_nfree == o.s_nfree + 1,
{
    assert(n.s_free@[o.s_pfree + 1 + 0] == addr[0] as u32);
}

} // verus!
