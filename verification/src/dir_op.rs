//! Directories: listing the current directory, creating directories and
//! files, changing the current directory and deleting entries.
//!
//! The current directory's table lives in memory; its on-disk copy (16-byte
//! entries, 32 to a block) is written when the current directory changes.

use crate::disk::block_of;
use crate::file_op::{access_granted, chunk, is_root_user, reads_user};
use crate::inode::{
    blocks_fit, blocks_of_size, first_index, lemma_first_index_props, lemma_removed_first_keeps, removed_first, same_data, FsError,
};
use crate::layout::{direntry_fields_at, le16, read_direntry_at, write_direntry_at, DIRENTSIZ};
use crate::state::FileSystem;
use crate::types::{
    BLOCKSIZ, DIDIR, DIFILE, DIRNUM, DIRSIZ, DirEntry, Directory, EXICUTE, Inode, InodeRef, NADDR, NICFREE, NICINOD, PWDNUM, ROOT,
    USERMODE, USERNUM, User, WRITE,
};
use crate::util::{padded_name, NOT_FOUND, NO_SLOT};
use vstd::prelude::*;
use vstd::string::StringSliceAdditionalSpecFns;

verus! {

/// Directory entries held by one block.
pub const ENTRIES_PER_BLOCK: usize = 32;

/// Why a directory operation did not complete.
#[derive(Debug, Clone, Copy, PartialEq, Eq)]
pub enum DirError {
    /// No entry of the current directory has the name.
    NotFound,
    /// The name is already taken.
    Exists,
    /// The name is already taken by a directory.
    DirExists,
    /// The name is already taken by a file.
    FileExists,
    /// The entry is a file where a directory is needed.
    IsFile,
    /// The directory table has no free entry.
    Full,
    /// The user may not do this.
    Denied,
    /// The directory still has entries besides `.` and `..`.
    NotEmpty,
    /// The root directory cannot be deleted.
    IsRoot,
    /// The current directory is not the root directory.
    NotInRoot,
    /// An inode or block operation failed.
    Fs(FsError),
}

/// One line of a directory listing.
pub struct DirListing {
    /// The entry's name field.
    pub name: [u8; DIRSIZ],
    /// Whether the entry is a directory.
    pub is_dir: bool,
    /// The nine permission characters, `r`, `w`, `x` or `-`, from the
    /// mode's lowest bit up.
    pub perms: [u8; 9],
    /// The file size.
    pub size: u32,
    /// The file's blocks, as many as its size needs (at most `NADDR`).
    pub blocks: Vec<u16>,
}

/// Whether the table entries from `first` (those of the first
/// `ENTRIES_PER_BLOCK` that lie in the table) hold the directory entries in
/// block `pg`.
pub open spec fn block_entries(entries: Seq<DirEntry>, first: int, pg: Seq<u8>) -> bool {
    forall|m: int|
        0 <= m < ENTRIES_PER_BLOCK && first + m < DIRNUM ==> #[trigger] direntry_fields_at(
            entries[first + m],
            pg,
            DIRENTSIZ * m,
        )
}

/// Whether `n` is a newly created empty file of mode `mode` owned by user
/// `u`, with one link and no blocks.
pub open spec fn new_file(n: Inode, mode: u16, u: User) -> bool {
    &&& n.di_mode == mode
    &&& n.di_uid == u.u_uid
    &&& n.di_gid == u.u_gid
    &&& n.di_size == 0
    &&& n.di_number == 1
    &&& forall|k: int| 0 <= k < NADDR ==> #[trigger] n.di_addr@[k] == 0
}

/// Whether `n` is a newly made directory with mode, owner and group
/// `owner`, one link and the 32 bytes of `.` and `..`.
pub open spec fn new_dir(n: Inode, owner: (u16, u16, u16)) -> bool {
    &&& n.di_mode == owner.0
    &&& n.di_uid == owner.1
    &&& n.di_gid == owner.2
    &&& n.di_size == 32
    &&& n.di_number == 1
}

impl FileSystem {
    /// The mode, owner and group `mkdir` gives a directory made for
    /// `user_id_`: from the user table entry with the user's default mode,
    /// or, past the user table, from password entry `user_id_ - USERNUM`
    /// with mode `USERMODE`; either as a directory.
    pub open spec fn dir_owner(&self, user_id_: int) -> (u16, u16, u16) {
        if user_id_ < USERNUM {
            let u = self.user@[user_id_];
            ((u.u_default_mode | DIDIR) as u16, u.u_uid, u.u_gid)
        } else {
            let p = self.pwd@[user_id_ - USERNUM];
            ((USERMODE | DIDIR) as u16, p.p_uid, p.p_gid)
        }
    }
}

/// Whether listing line `l` describes an inode of mode `mode`.
pub open spec fn listing_mode(l: DirListing, mode: u16) -> bool {
    &&& l.is_dir == (mode & DIDIR != 0)
    &&& forall|j: int| 0 <= j < 9 ==> #[trigger] l.perms@[j] == perm_char(mode, j)
}

/// Whether listing line `l` shows inode `n`: its size, its first blocks
/// (as many as the size takes, at most `NADDR`) and its mode.
pub open spec fn listing_shows(l: DirListing, n: Inode) -> bool {
    &&& l.size == n.di_size
    &&& l.blocks@ == n.di_addr@.subrange(0, vstd::math::min(blocks_of_size(n.di_size as int), NADDR as int))
    &&& listing_mode(l, n.di_mode)
}

/// Whether listing line `l` describes one of the first `size` entries in
/// use, by its name and some inode mode.
pub open spec fn listing_of_entry(l: DirListing, entries: Seq<DirEntry>, size: int) -> bool {
    &&& exists|i: int| 0 <= i < size && (#[trigger] entries[i]).d_ino != 0 && l.name == entries[i].d_name
    &&& exists|mode: u16| #[trigger] listing_mode(l, mode)
}

/// The entries in use (inode number not 0) among the first `n` of
/// `entries`, in table order.
pub open spec fn in_use_entries(entries: Seq<DirEntry>, n: int) -> Seq<DirEntry>
    decreases n,
{
    if n <= 0 {
        Seq::empty()
    } else if entries[n - 1].d_ino != 0 {
        in_use_entries(entries, n - 1).push(entries[n - 1])
    } else {
        in_use_entries(entries, n - 1)
    }
}

/// The permission character (as ASCII) for bit `j` (0 to 8) of `mode`:
/// `r` (114), `w` (119) or `x` (120) as `j % 3` is 0, 1 or 2 when the bit
/// is set, else `-` (45).
pub open spec fn perm_char(mode: u16, j: int) -> u8 {
    if (mode as int / pow2_small(j)) % 2 == 1 {
        if j % 3 == 0 {
            114u8
        } else if j % 3 == 1 {
            119u8
        } else {
            120u8
        }
    } else {
        45u8
    }
}

/// `2` to the power `j`, for the small `j` of permission bits.
pub open spec fn pow2_small(j: int) -> int
    decreases j,
{
    if j <= 0 {
        1
    } else {
        2 * pow2_small(j - 1)
    }
}

impl FileSystem {
    /// The bytes of the current directory's entries `first .. first + count`.
    fn dir_bytes(&self, first: usize, count: usize) -> (b: Vec<u8>)
        requires
            first + count <= DIRNUM,
        ensures
            b@.len() == DIRENTSIZ * count,
            forall|k: int| 0 <= k < count ==> #[trigger] direntry_fields_at(self.dir.direct@[first + k], b@, DIRENTSIZ * k),
    {
        let mut b: Vec<u8> = vec![0u8; DIRENTSIZ * count];
        let mut k: usize = 0;
        while k < count
            invariant
                first + count <= DIRNUM,
                k <= count,
                b@.len() == DIRENTSIZ * count,
                forall|m: int| 0 <= m < k ==> #[trigger] direntry_fields_at(self.dir.direct@[first + m], b@, DIRENTSIZ * m),
            decreases count - k,
        {
            let ghost pre = b@;
            write_direntry_at(&mut b, DIRENTSIZ * k, &self.dir.direct[first + k]);
            proof {
                assert forall|m: int| 0 <= m < k + 1 implies #[trigger] direntry_fields_at(
                    self.dir.direct@[first + m],
                    b@,
                    DIRENTSIZ * m,
                ) by {
                    if m < k {
                        assert(direntry_fields_at(self.dir.direct@[first + m], pre, DIRENTSIZ * m));
                        assert(DIRENTSIZ * m + 16 <= DIRENTSIZ * k) by (nonlinear_arith)
                            requires
                                m < k,
                                DIRENTSIZ == 16,
                        ;
                        assert forall|i: int| 0 <= i < 16 implies #[trigger] b@[DIRENTSIZ * m + i] == pre[DIRENTSIZ * m + i] by {}
                        assert(b@[DIRENTSIZ * m + 14] == pre[DIRENTSIZ * m + 14]);
                        assert(b@[DIRENTSIZ * m + 15] == pre[DIRENTSIZ * m + 15]);
                    }
                }
            }
            k = k + 1;
        }
        b
    }

    /// Fills the current directory's entries from `first` (up to the end of
    /// the table) with the entries held by data block `blk`.
    pub(crate) fn load_dir_block(&mut self, blk: u16, first: usize) -> (ok: bool)
        requires
            old(self).wf(),
            first < DIRNUM,
        ensures
            final(self).wf(),
            final(self).dir.size == old(self).dir.size,
            final(self).hinode@ == old(self).hinode@,
            final(self).inodes@ == old(self).inodes@,
            final(self).filsys == old(self).filsys,
            final(self).sys_ofile == old(self).sys_ofile,
            final(self).pwd == old(self).pwd,
            final(self).user == old(self).user,
            final(self).cur_path_inode == old(self).cur_path_inode,
            final(self).user_id == old(self).user_id,
            final(self).buffer_pool_manager.spec_pool_size() == old(self).buffer_pool_manager.spec_pool_size(),
            forall|k: int| 0 <= k < DIRNUM && !(first <= k < first + ENTRIES_PER_BLOCK) ==> #[trigger] final(self).dir.direct@[k]
                == old(self).dir.direct@[k],
            final(self).spent(old(self), 1),
            forall|p: i32| #[trigger] final(self).buffer_pool_manager.holds_entry(p) ==> old(self).buffer_pool_manager.holds_entry(p)
                || p as int == 34 + blk,
            old(self).room() >= 1 ==> final(self).buffer_pool_manager.disk_view() == old(self).buffer_pool_manager.disk_view(),
            old(self).room() >= 1 && old(self).can_read(34 + blk) && old(self).buffer_pool_manager.table_lookup((34 + blk) as i32)
                is None ==> block_entries(
                final(self).dir.direct@,
                first as int,
                block_of(old(self).buffer_pool_manager.disk_view(), 34 + blk),
            ),
            old(self).room() >= 1 && old(self).can_read(34 + blk) ==> ok,
            !ok ==> final(self).dir == old(self).dir,
            ok ==> exists|f: int|
                0 <= f < final(self).buffer_pool_manager.spec_pool_size() && #[trigger] block_entries(
                    final(self).dir.direct@,
                    first as int,
                    final(self).buffer_pool_manager.pages_view()[f],
                ),
            old(self).buffer_pool_manager.consistent() && old(self).room() >= 1 ==> final(self).buffer_pool_manager.consistent()
                && final(self).buffer_pool_manager.frames_kept_but(&old(self).buffer_pool_manager, (34 + blk) as i32),
    {
        let f = match self.fetch_block(34 + blk as u64) {
            Some(f) => f,
            None => {
                return false;
            },
        };
        let page = self.frame_bytes(f);
        let ghost after_fetch = self.buffer_pool_manager;
        let mut k: usize = 0;
        while k < ENTRIES_PER_BLOCK && first + k < DIRNUM
            invariant
                self.buffer_pool_manager == after_fetch,
                forall|p: i32| #[trigger] after_fetch.holds_entry(p) ==> old(self).buffer_pool_manager.holds_entry(p) || p as int
                    == 34 + blk,
                old(self).room() >= 1 ==> after_fetch.disk_view() == old(self).buffer_pool_manager.disk_view(),
                old(self).room() >= 1 && old(self).can_read(34 + blk) && old(self).buffer_pool_manager.table_lookup(
                    (34 + blk) as i32,
                ) is None ==> page@ == block_of(old(self).buffer_pool_manager.disk_view(), 34 + blk),
                self.wf(),
                self.dir.size == old(self).dir.size,
                self.hinode@ == old(self).hinode@,
                self.inodes@ == old(self).inodes@,
                self.filsys == old(self).filsys,
                self.sys_ofile == old(self).sys_ofile,
                self.pwd == old(self).pwd,
                self.user == old(self).user,
                self.cur_path_inode == old(self).cur_path_inode,
                self.user_id == old(self).user_id,
                self.buffer_pool_manager.spec_pool_size() == old(self).buffer_pool_manager.spec_pool_size(),
                k <= ENTRIES_PER_BLOCK,
                first < DIRNUM,
                forall|m: int| 0 <= m < DIRNUM && !(first <= m < first + ENTRIES_PER_BLOCK) ==> #[trigger] self.dir.direct@[m]
                    == old(self).dir.direct@[m],
                self.spent(old(self), 1),
                f < self.buffer_pool_manager.spec_pool_size(),
                page@ == self.buffer_pool_manager.pages_view()[f as int],
                forall|m: int| 0 <= m < k ==> #[trigger] direntry_fields_at(self.dir.direct@[first + m], page@, DIRENTSIZ * m),
            decreases ENTRIES_PER_BLOCK - k,
        {
            let e = read_direntry_at(page.as_slice(), DIRENTSIZ * k);
            self.dir.direct[first + k] = e;
            k = k + 1;
        }
        proof {
            assert(block_entries(self.dir.direct@, first as int, self.buffer_pool_manager.pages_view()[f as int]));
        }
        true
    }

    /// Whether writing the current directory's table back is sure to
    /// succeed: each block it fills can be had, and the blocks it no longer
    /// needs fit on the free-block stack.
    pub open spec fn save_owed(&self) -> bool {
        let n = self.inodes@[self.cur_path_inode as int];
        let pre = blocks_of_size(n.di_size as int);
        let nb = blocks_of_size(16 * self.dir.size);
        &&& self.blocks_owed(n, nb)
        &&& nb < pre ==> pre <= NADDR && blocks_fit(self.filsys, pre - nb)
    }

    /// Whether saving the current table may write block `p`: one of the
    /// current directory inode's first four blocks, or one of the next four
    /// blocks the free-block stack gives.
    pub open spec fn save_touches(&self, p: int) -> bool {
        let n = self.inodes@[self.cur_path_inode as int];
        let fs = self.filsys;
        ||| exists|i: int| 0 <= i < 4 && p == 34 + #[trigger] n.di_addr@[i]
        ||| exists|j: int| 0 <= j < 4 && p == 34 + (#[trigger] fs.s_free@[fs.s_pfree - 1 - j]) as u16
    }

    /// Whether `b` is the on-disk form of the first `count` entries of
    /// table `dir`, 16 bytes each.
    pub open spec fn table_bytes(b: Seq<u8>, dir: Directory, count: int) -> bool {
        &&& b.len() == DIRENTSIZ * count
        &&& forall|k: int| 0 <= k < count ==> #[trigger] direntry_fields_at(dir.direct@[k], b, DIRENTSIZ * k)
    }

    /// Whether each of the first blocks `a` of a directory that the bytes
    /// `b` take is held by a frame beginning with its chunk of `b`, unless a
    /// later one of these blocks has the same number.
    pub open spec fn saved_in(&self, a: Seq<u16>, b: Seq<u8>) -> bool {
        let nb = blocks_of_size(b.len() as int);
        forall|k: int|
            0 <= k < nb && (forall|j: int| k < j < nb ==> a[j] != a[k]) ==> self.block_holds(#[trigger] a[k], chunk(b, b.len() as int, k))
    }

    /// Whether each of the first blocks `a` of a directory that the bytes
    /// `b` take is held by a frame beginning with its chunk of `b`, unless a
    /// later one of these blocks, or one of the first four blocks of
    /// directory inode `n` that its size takes, has the same number.
    pub open spec fn saved_unless(&self, a: Seq<u16>, b: Seq<u8>, n: Inode) -> bool {
        let nb = blocks_of_size(b.len() as int);
        forall|k: int|
            0 <= k < nb && (forall|j: int| k < j < nb ==> a[j] != a[k]) && (forall|i: int|
                0 <= i < 4 && i < blocks_of_size(n.di_size as int) ==> n.di_addr@[i] != a[k]) ==> self.block_holds(
                #[trigger] a[k],
                chunk(b, b.len() as int, k),
            )
    }

    /// Writes the current directory's table to the current directory
    /// inode's blocks (allocating blocks past its old block count and
    /// releasing those no longer needed) and sets its size to the table's.
    #[verifier::rlimit(60)]
    fn save_dir(&mut self) -> (r: Result<(), DirError>)
        requires
            old(self).wf(),
            0 <= old(self).dir.size <= DIRNUM,
        ensures
            final(self).wf(),
            final(self).dir == old(self).dir,
            final(self).hinode@ == old(self).hinode@,
            final(self).sys_ofile == old(self).sys_ofile,
            final(self).pwd == old(self).pwd,
            final(self).user == old(self).user,
            final(self).cur_path_inode == old(self).cur_path_inode,
            final(self).user_id == old(self).user_id,
            final(self).buffer_pool_manager.spec_pool_size() == old(self).buffer_pool_manager.spec_pool_size(),
            final(self).inodes@.len() == old(self).inodes@.len(),
            forall|k: int|
                0 <= k < old(self).inodes@.len() && k != old(self).cur_path_inode ==> #[trigger] final(self).inodes@[k]
                    == old(self).inodes@[k],
            r is Ok ==> final(self).inodes@[old(self).cur_path_inode as int].di_size == old(self).dir.size * 16,
            old(self).save_owed() ==> r is Ok,
            final(self).spent(old(self), 8),
            old(self).save_owed() && old(self).buffer_pool_manager.consistent() ==> final(self).buffer_pool_manager.consistent()
                && exists|b: Seq<u8>|
                Self::table_bytes(b, old(self).dir, old(self).dir.size as int) && #[trigger] final(self).saved_in(
                    final(self).inodes@[old(self).cur_path_inode as int].di_addr@,
                    b,
                ),
            old(self).save_owed() ==> final(self).buffer_pool_manager.disk_view() == old(self).buffer_pool_manager.disk_view(),
            old(self).save_owed() ==> forall|p: i32| #[trigger]
                final(self).buffer_pool_manager.holds_entry(p) ==> old(self).buffer_pool_manager.holds_entry(p)
                    || old(self).save_touches(p as int),
            final(self).inodes@[old(self).cur_path_inode as int] == (Inode {
                di_addr: final(self).inodes@[old(self).cur_path_inode as int].di_addr,
                di_size: final(self).inodes@[old(self).cur_path_inode as int].di_size,
                ..old(self).inodes@[old(self).cur_path_inode as int]
            }),
    {
        let cur = self.cur_path_inode;
        let count = self.dir.size as usize;
        let bytes = self.dir_bytes(0, count);
        let size_bytes: usize = count * DIRENTSIZ;
        let full: usize = size_bytes / BLOCKSIZ;
        let rem: usize = size_bytes % BLOCKSIZ;
        let cur_size = self.inodes[cur].di_size;
        let pre: usize = (cur_size / 512 + if cur_size % 512 != 0 { 1 } else { 0 }) as usize;
        let ghost o = *self;
        let ghost wd = o.save_owed() && o.buffer_pool_manager.consistent();
        let mut i: usize = 0;
        while i < full
            invariant
                wd == (o.save_owed() && o.buffer_pool_manager.consistent()),
                wd ==> self.buffer_pool_manager.consistent(),
                wd ==> forall|k: int|
                    0 <= k < i && (forall|j: int| k < j < i ==> self.inodes@[cur as int].di_addr@[j] != self.inodes@[cur as int].di_addr@[k])
                        ==> self.block_holds(#[trigger] self.inodes@[cur as int].di_addr@[k], chunk(bytes@, size_bytes as int, k)),
                self.wf(),
                o == *old(self),
                cur == o.cur_path_inode,
                self.dir == o.dir,
                self.hinode@ == o.hinode@,
                self.sys_ofile == o.sys_ofile,
                self.pwd == o.pwd,
                self.user == o.user,
                self.cur_path_inode == cur,
                self.user_id == o.user_id,
                self.buffer_pool_manager.spec_pool_size() == o.buffer_pool_manager.spec_pool_size(),
                self.only_addr_changed(&o, cur),
                full * BLOCKSIZ <= bytes@.len(),
                bytes@.len() == size_bytes,
                full <= 4,
                i <= full,
                full == size_bytes / 512,
                rem == size_bytes % 512,
                size_bytes == 16 * o.dir.size,
                pre == blocks_of_size(o.inodes@[cur as int].di_size as int),
                self.room() >= o.room() - 2 * i,
                self.buffer_pool_manager.disk_view().len() >= o.buffer_pool_manager.disk_view().len(),
                forall|k: int| 0 <= k < pre && k < NADDR ==> #[trigger] self.inodes@[cur as int].di_addr@[k] == o.inodes@[cur as int].di_addr@[k],
                o.save_owed() ==> {
                    let k = if i > pre { i - pre } else { 0 };
                    &&& self.filsys.s_free == o.filsys.s_free
                    &&& self.filsys.s_pfree == o.filsys.s_pfree - k
                    &&& self.filsys.s_nfree == o.filsys.s_nfree - k
                    &&& i <= pre ==> self.filsys == o.filsys
                    &&& self.buffer_pool_manager.disk_view() == o.buffer_pool_manager.disk_view()
                    &&& forall|p: i32| #[trigger]
                        self.buffer_pool_manager.holds_entry(p) ==> o.buffer_pool_manager.holds_entry(p) || o.save_touches(p as int)
                },
            decreases full - i,
        {
            let ghost s0 = *self;
            if i >= pre {
                proof {
                    if o.save_owed() {
                        assert(self.stack_gives());
                    }
                }
                if !self.alloc_block(cur, i) {
                    return Err(DirError::Fs(FsError::Disk));
                }
            }
            let blk = self.inodes[cur].di_addr[i];
            proof {
                if o.save_owed() {
                    let n0 = o.inodes@[cur as int];
                    if i < pre {
                        assert(o.can_read(34 + n0.di_addr@[i as int]));
                    } else {
                        let j = i - pre;
                        assert(blk == s0.filsys.s_free@[s0.filsys.s_pfree - 1] as u16);
                        assert(o.can_read(34 + (o.filsys.s_free@[o.filsys.s_pfree - 1 - j]) as u16));
                    }
                    assert(self.can_read(34 + blk));
                }
            }
            let ghost s1 = *self;
            proof {
                if wd {
                    if i >= pre {
                        assert(s0.filsys.s_pfree != 1);
                    }
                    assert(self.buffer_pool_manager == s0.buffer_pool_manager);
                    assert(self.room() >= 1);
                    self.lemma_holds_after_alloc(&s0, cur, i as int, bytes@, size_bytes as int);
                }
            }
            if !self.store(blk, 0, bytes.as_slice(), i * BLOCKSIZ, BLOCKSIZ) {
                return Err(DirError::Fs(FsError::Disk));
            }
            proof {
                if wd {
                    self.lemma_stored_block(&s1, cur, i as int, 512, bytes@, size_bytes as int);
                }
            }
            i = i + 1;
        }
        if rem != 0 {
            let ghost s0 = *self;
            if i >= pre {
                proof {
                    if o.save_owed() {
                        assert(self.stack_gives());
                    }
                }
                if !self.alloc_block(cur, i) {
                    return Err(DirError::Fs(FsError::Disk));
                }
            }
            let blk = self.inodes[cur].di_addr[i];
            proof {
                if o.save_owed() {
                    let n0 = o.inodes@[cur as int];
                    if i < pre {
                        assert(o.can_read(34 + n0.di_addr@[i as int]));
                    } else {
                        let j = i - pre;
                        assert(blk == s0.filsys.s_free@[s0.filsys.s_pfree - 1] as u16);
                        assert(o.can_read(34 + (o.filsys.s_free@[o.filsys.s_pfree - 1 - j]) as u16));
                    }
                    assert(self.can_read(34 + blk));
                }
            }
            let ghost s1 = *self;
            proof {
                if wd {
                    if i >= pre {
                        assert(s0.filsys.s_pfree != 1);
                    }
                    assert(self.buffer_pool_manager == s0.buffer_pool_manager);
                    assert(self.room() >= 1);
                    self.lemma_holds_after_alloc(&s0, cur, i as int, bytes@, size_bytes as int);
                }
            }
            if !self.store(blk, 0, bytes.as_slice(), i * BLOCKSIZ, rem) {
                return Err(DirError::Fs(FsError::Disk));
            }
            proof {
                if wd {
                    self.lemma_stored_block(&s1, cur, i as int, rem as int, bytes@, size_bytes as int);
                }
            }
            i = i + 1;
        }
        let ghost s_w = *self;
        let ghost done = i as int;
        proof {
            if o.save_owed() && i < pre {
                assert(self.filsys == o.filsys);
                assert(blocks_fit(self.filsys, (pre - i) as int));
            }
        }
        if i < pre {
            if pre > NADDR {
                return Err(DirError::Fs(FsError::Corrupt));
            }
            let cnt = pre - i;
            let addr = self.inodes[cur].di_addr;
            let mut tmp: [u16; NADDR] = [0u16; 10];
            let mut k: usize = 0;
            while k < cnt
                invariant
                    k <= cnt,
                    i + cnt <= NADDR,
                decreases cnt - k,
            {
                tmp[k] = addr[i + k];
                k = k + 1;
            }
            match self.free_blocks(tmp, cnt) {
                Ok(()) => {},
                Err(e) => {
                    return Err(DirError::Fs(e));
                },
            }
        }
        let mut n = self.inodes[cur];
        n.di_size = (count * DIRENTSIZ) as u32;
        self.inodes.set(cur, n);
        proof {
            if wd {
                assert(done == blocks_of_size(bytes@.len() as int));
                self.lemma_holds_after_alloc(&s_w, cur, done, bytes@, size_bytes as int);
                assert(Self::table_bytes(bytes@, o.dir, o.dir.size as int)) by {
                    assert forall|k: int| 0 <= k < o.dir.size implies #[trigger] direntry_fields_at(
                        o.dir.direct@[k],
                        bytes@,
                        DIRENTSIZ * k,
                    ) by {
                        assert(direntry_fields_at(o.dir.direct@[0 + k], bytes@, DIRENTSIZ * k));
                    }
                }
                assert(self.saved_in(self.inodes@[cur as int].di_addr@, bytes@));
            }
        }
        Ok(())
    }

    /// Whether changing into the directory named `name` (with `force` as
    /// given) is sure to succeed: the name is in the current directory and
    /// is not the current directory itself, the buffer pool has room for
    /// reading the inode, saving the current table and loading the new one,
    /// saving the current table is sure to succeed, and every inode that
    /// reading the entry's inode may give is a directory the user may enter
    /// (or `force` is set), whose table fits in memory and whose table
    /// blocks can be fetched.
    pub open spec fn chdir_owed(&self, force: i32, name: Seq<u8>) -> bool {
        let ino = self.lookup(name);
        &&& ino != NOT_FOUND
        &&& self.inodes@[self.cur_path_inode as int].i_ino != ino
        &&& self.room() >= 2 * NADDR + 1
        &&& self.can_read(2 + ino / 16)
        &&& self.save_owed()
        &&& forall|n: Inode| #[trigger] self.may_get(ino, n) ==> {
            &&& n.di_mode & DIFILE == 0
            &&& force == 0 ==> access_granted(self.user@, self.user_id as int, n, EXICUTE)
            &&& n.di_size / 16 <= DIRNUM
            &&& forall|i: int| 0 <= i < 4 && i < blocks_of_size(n.di_size as int) ==> self.can_read(34 + #[trigger] n.di_addr@[i])
        }
    }

    /// Whether every directory that changing into `name` may load reads its
    /// table blocks from the disk: its inode lies in the inode area, and
    /// its table blocks are distinct, have no entry in the buffer pool's
    /// page table, and are none of the blocks saving the current table may
    /// write.
    pub open spec fn chdir_fresh(&self, name: Seq<u8>) -> bool {
        let ino = self.lookup(name);
        &&& ino / 16 < 32
        &&& forall|n: Inode| #[trigger] self.may_get(ino, n) ==> {
            let nb = if blocks_of_size(n.di_size as int) < 4 { blocks_of_size(n.di_size as int) } else { 4 };
            &&& forall|i: int|
                0 <= i < nb ==> !self.buffer_pool_manager.holds_entry((34 + #[trigger] n.di_addr@[i]) as i32)
                    && !self.save_touches(34 + n.di_addr@[i])
            &&& forall|i: int, j: int| 0 <= i < j < nb ==> #[trigger] n.di_addr@[i] != #[trigger] n.di_addr@[j]
        }
    }

    /// Saving the current table stays sure to succeed in `self` when it is
    /// in `o` and `self` has the same table, super block and current
    /// directory inode data, room for the save and a disk at least as long.
    pub proof fn lemma_save_owed_kept(&self, o: &Self)
        requires
            o.wf(),
            o.save_owed(),
            self.dir == o.dir,
            self.filsys == o.filsys,
            self.cur_path_inode == o.cur_path_inode,
            same_data(self.inodes@[self.cur_path_inode as int], o.inodes@[o.cur_path_inode as int]),
            self.room() >= 2 * NADDR,
            self.buffer_pool_manager.disk_view().len() >= o.buffer_pool_manager.disk_view().len(),
        ensures
            self.save_owed(),
    {
        let n = o.inodes@[o.cur_path_inode as int];
        assert(self.inodes@[self.cur_path_inode as int].di_addr == n.di_addr);
        assert(self.inodes@[self.cur_path_inode as int].di_size == n.di_size);
    }

    /// Makes the directory named `dirname` in the current directory the
    /// current directory: unless `force` is nonzero the current user needs
    /// execute access to it. The table of the directory left is first
    /// written to its blocks; the new directory's table is then read from
    /// its blocks (block `i` filling entries `32 * i` on) and its size taken
    /// from its inode.
    pub fn chdir(&mut self, force: i32, dirname: &str) -> (r: Result<(), DirError>)
        requires
            old(self).wf(),
            force == 0 && old(self).lookup(dirname.spec_bytes()) != NOT_FOUND ==> 0 <= old(self).user_id < USERNUM,
        ensures
            final(self).wf(),
            final(self).sys_ofile == old(self).sys_ofile,
            final(self).pwd == old(self).pwd,
            final(self).user == old(self).user,
            final(self).user_id == old(self).user_id,
            final(self).cur_path_inode == old(self).cur_path_inode ==> final(self).dir.size == old(self).dir.size,
            final(self).cur_path_inode != old(self).cur_path_inode ==> final(self).inodes@[old(self).cur_path_inode as int].di_size
                == old(self).dir.size * 16 && final(self).dir.size == final(self).inodes@[final(self).cur_path_inode as int].di_size
                / 16,
            forall|k: int|
                0 <= k < old(self).inodes@.len() && k != old(self).cur_path_inode ==> (#[trigger] final(self).inodes@[k]).di_size
                    == old(self).inodes@[k].di_size,
            final(self).inodes@.len() >= old(self).inodes@.len(),
            forall|k: int|
                0 <= k < old(self).inodes@.len() ==> (#[trigger] final(self).inodes@[k]).di_number == old(self).inodes@[k].di_number
                    && final(self).inodes@[k].di_mode == old(self).inodes@[k].di_mode && final(self).inodes@[k].i_ino
                    == old(self).inodes@[k].i_ino,
            old(self).no_match(dirname.spec_bytes()) ==> r == Err::<(), DirError>(DirError::NotFound) && *final(self)
                == *old(self),
            old(self).chdir_owed(force, dirname.spec_bytes()) ==> r is Ok,
            old(self).lookup(dirname.spec_bytes()) != NOT_FOUND && old(self).cached_in_use(old(self).lookup(dirname.spec_bytes()))
                && (forall|n: Inode| #[trigger] old(self).may_get(old(self).lookup(dirname.spec_bytes()), n) ==> n.di_mode & DIFILE != 0)
                ==> r == Err::<(), DirError>(DirError::IsFile) && final(self).same_but_pool(old(self))
                && final(self).buffer_pool_manager == old(self).buffer_pool_manager,
            old(self).lookup(dirname.spec_bytes()) != NOT_FOUND && old(self).cached_in_use(old(self).lookup(dirname.spec_bytes()))
                && force == 0 && (forall|n: Inode| #[trigger]
                old(self).may_get(old(self).lookup(dirname.spec_bytes()), n) ==> n.di_mode & DIFILE == 0 && !access_granted(
                    old(self).user@,
                    old(self).user_id as int,
                    n,
                    EXICUTE,
                )) ==> r == Err::<(), DirError>(DirError::Denied) && final(self).same_but_pool(old(self))
                && final(self).buffer_pool_manager == old(self).buffer_pool_manager,
            old(self).chdir_owed(force, dirname.spec_bytes()) && old(self).chdir_fresh(dirname.spec_bytes()) ==> {
                let n = final(self).inodes@[final(self).cur_path_inode as int];
                forall|i: int|
                    0 <= i < 4 && i < blocks_of_size(n.di_size as int) ==> #[trigger] block_entries(
                        final(self).dir.direct@,
                        32 * i,
                        block_of(old(self).buffer_pool_manager.disk_view(), 34 + n.di_addr@[i]),
                    )
            },
            ({
                &&& old(self).chdir_owed(force, dirname.spec_bytes())
                &&& old(self).buffer_pool_manager.consistent()
                &&& old(self).lookup(dirname.spec_bytes()) / 16 < 32
            }) ==> exists|b: Seq<u8>|
                Self::table_bytes(b, old(self).dir, old(self).dir.size as int) && #[trigger] final(self).saved_unless(
                    final(self).inodes@[old(self).cur_path_inode as int].di_addr@,
                    b,
                    final(self).inodes@[final(self).cur_path_inode as int],
                ),
            r is Ok ==> {
                let h = final(self).cur_path_inode;
                let n = final(self).inodes@[h as int];
                &&& exists|j: int| #[trigger]
                    old(self).first_match_at(dirname.spec_bytes(), j) && n.i_ino == old(self).dir.direct@[j].d_ino
                &&& n.di_mode & DIFILE == 0
                &&& force == 0 ==> access_granted(old(self).user@, old(self).user_id as int, n, EXICUTE)
                &&& final(self).dir.size == n.di_size / 16
                &&& final(self).inodes@[old(self).cur_path_inode as int].di_size == old(self).dir.size * 16
            },
    {
        let dirid = self.namei(dirname);
        if dirid == NOT_FOUND {
            return Err(DirError::NotFound);
        }
        let ghost o = *self;
        let ghost owed = o.chdir_owed(force, dirname.spec_bytes());
        let ghost cs = owed && o.buffer_pool_manager.consistent() && dirid / 16 < 32;
        let h = match self.iget(dirid) {
            Some(h) => h,
            None => {
                return Err(DirError::Fs(FsError::Disk));
            },
        };
        proof {
            if owed {
                assert(o.may_get(dirid, self.inodes@[h as int]));
                assert(same_data(self.inodes@[o.cur_path_inode as int], o.inodes@[o.cur_path_inode as int]));
                assert(h != o.cur_path_inode);
                self.lemma_save_owed_kept(&o);
            }
        }
        let ghost cached = o.cached_in_use(dirid);
        proof {
            if cached {
                assert(o.may_get(dirid, self.inodes@[h as int]));
            }
        }
        if self.inodes[h].di_mode & DIFILE != 0 {
            let ghost mid = *self;
            let _ = self.iput(h);
            proof {
                if cached {
                    let b = (dirid % 128) as int;
                    let j = choose|j: int| #[trigger]
                        o.cached_at(dirid, j) && 1 <= o.inodes@[o.hinode@[b]@[j] as int].i_count < u32::MAX;
                    assert(h == o.hinode@[b]@[j]);
                    assert(mid.inodes@[h as int].i_count > 1);
                    assert(self.inodes@ =~= o.inodes@);
                }
            }
            return Err(DirError::IsFile);
        }
        if force == 0 && self.access(self.user_id, h, EXICUTE) == 0 {
            let ghost mid = *self;
            let _ = self.iput(h);
            proof {
                if cached {
                    let b = (dirid % 128) as int;
                    let j = choose|j: int| #[trigger]
                        o.cached_at(dirid, j) && 1 <= o.inodes@[o.hinode@[b]@[j] as int].i_count < u32::MAX;
                    assert(h == o.hinode@[b]@[j]);
                    assert(mid.inodes@[h as int].i_count > 1);
                    assert(self.inodes@ =~= o.inodes@);
                }
            }
            return Err(DirError::Denied);
        }
        if self.inodes[h].di_size / 16 > DIRNUM as u32 {
            let _ = self.iput(h);
            return Err(DirError::Fs(FsError::Corrupt));
        }
        let ghost fresh = owed && o.chdir_fresh(dirname.spec_bytes());
        let ghost s1 = *self;
        let ghost target = self.inodes@[h as int];
        assert(target.i_ino == dirid);
        let ghost old_cur = self.cur_path_inode;
        proof {
            if cs {
                assert(s1.buffer_pool_manager.consistent());
                assert(s1.save_owed());
            }
        }
        match self.save_dir() {
            Ok(()) => {},
            Err(e) => {
                return Err(e);
            },
        }
        proof {
            if cs {
                assert(old_cur == s1.cur_path_inode);
                assert(exists|b: Seq<u8>|
                    Self::table_bytes(b, s1.dir, s1.dir.size as int) && #[trigger] self.saved_in(self.inodes@[old_cur as int].di_addr@, b));
            }
        }
        let ghost bs: Seq<u8> = choose|b: Seq<u8>|
            Self::table_bytes(b, s1.dir, s1.dir.size as int) && #[trigger] self.saved_in(self.inodes@[old_cur as int].di_addr@, b);
        let ghost sa = self.inodes@[old_cur as int].di_addr@;
        let ghost s_saved = *self;
        self.cur_path_inode = h;
        let n = self.inodes[h];
        self.dir.size = (n.di_size / 16) as i32;
        let total: u32 = n.di_size / 512 + if n.di_size % 512 != 0 { 1 } else { 0 };
        assert(total == blocks_of_size(n.di_size as int));
        let ghost before_load = *self;
        proof {
            if cs {
                assert(s_saved.saved_in(sa, bs));
                assert(self.buffer_pool_manager == s_saved.buffer_pool_manager);
                let nbs = blocks_of_size(bs.len() as int);
                assert forall|k: int|
                    0 <= k < nbs && (forall|j: int| k < j < nbs ==> sa[j] != sa[k]) && (forall|ii: int|
                        0 <= ii < 0 ==> n.di_addr@[ii] != sa[k]) implies self.block_holds(#[trigger] sa[k], chunk(bs, bs.len() as int, k)) by {
                    assert(s_saved.block_holds(sa[k], chunk(bs, bs.len() as int, k)));
                }
            }
            if owed {
                assert(n == target);
                assert(o.may_get(dirid, target));
            }
            if fresh {
                assert(s1.buffer_pool_manager.disk_view() == o.buffer_pool_manager.disk_view());
                assert(s1.save_owed());
                assert forall|p: int| #[trigger] s1.save_touches(p) implies o.save_touches(p) by {
                    assert(same_data(s1.inodes@[o.cur_path_inode as int], o.inodes@[o.cur_path_inode as int]));
                }
            }
        }
        let mut i: usize = 0;
        while i < total as usize && i < 4
            invariant
                self.wf(),
                self.dir.size == before_load.dir.size,
                self.inodes@ == before_load.inodes@,
                self.hinode@ == before_load.hinode@,
                self.sys_ofile == before_load.sys_ofile,
                self.pwd == before_load.pwd,
                self.user == before_load.user,
                self.cur_path_inode == h,
                self.user_id == before_load.user_id,
                !old(self).no_match(dirname.spec_bytes()),
                before_load.sys_ofile == old(self).sys_ofile,
                before_load.pwd == old(self).pwd,
                before_load.user == old(self).user,
                before_load.user_id == old(self).user_id,
                h < self.inodes@.len(),
                i <= 4,
                n == self.inodes@[h as int],
                total == blocks_of_size(n.di_size as int),
                self.room() >= before_load.room() - i,
                self.buffer_pool_manager.disk_view().len() >= o.buffer_pool_manager.disk_view().len(),
                owed ==> before_load.room() >= 4,
                owed ==> forall|k: int| 0 <= k < 4 && k < total ==> o.can_read(34 + #[trigger] n.di_addr@[k]),
                owed == o.chdir_owed(force, dirname.spec_bytes()),
                o == *old(self),
                fresh == (owed && o.chdir_fresh(dirname.spec_bytes())),
                dirid == o.lookup(dirname.spec_bytes()),
                fresh ==> o.may_get(dirid, n),
                cached == o.cached_in_use(dirid),
                cached ==> o.may_get(dirid, target),
                target.di_mode & DIFILE == 0,
                force == 0 ==> access_granted(o.user@, o.user_id as int, target, EXICUTE),
                fresh ==> self.buffer_pool_manager.disk_view() == o.buffer_pool_manager.disk_view(),
                fresh ==> forall|p: i32| #[trigger]
                    self.buffer_pool_manager.holds_entry(p) ==> o.buffer_pool_manager.holds_entry(p) || p as int == 2 + dirid / 16
                        || o.save_touches(p as int) || exists|ii: int| 0 <= ii < i && p as int == 34 + #[trigger] n.di_addr@[ii],
                fresh ==> forall|ii: int|
                    0 <= ii < i ==> #[trigger] block_entries(
                        self.dir.direct@,
                        32 * ii,
                        block_of(o.buffer_pool_manager.disk_view(), 34 + n.di_addr@[ii]),
                    ),
                cs == (owed && o.buffer_pool_manager.consistent() && dirid / 16 < 32),
                old_cur == o.cur_path_inode,
                sa == self.inodes@[old_cur as int].di_addr@,
                cs ==> self.buffer_pool_manager.consistent(),
                i <= total,
                self.dir.size == self.inodes@[h as int].di_size / 16,
                self.inodes@[old_cur as int].di_size == o.dir.size * 16,
                0 <= o.dir.size <= DIRNUM,
                forall|k: int|
                    0 <= k < old(self).inodes@.len() && k != old(self).cur_path_inode ==> (#[trigger] self.inodes@[k]).di_size
                        == old(self).inodes@[k].di_size,
                self.inodes@.len() >= old(self).inodes@.len(),
                forall|k: int|
                    0 <= k < old(self).inodes@.len() ==> (#[trigger] self.inodes@[k]).di_number == old(self).inodes@[k].di_number
                        && self.inodes@[k].di_mode == old(self).inodes@[k].di_mode && self.inodes@[k].i_ino == old(self).inodes@[k].i_ino,
                cs ==> Self::table_bytes(bs, o.dir, o.dir.size as int),
                cs ==> forall|k: int|
                    0 <= k < blocks_of_size(bs.len() as int) && (forall|j: int| k < j < blocks_of_size(bs.len() as int) ==> sa[j] != sa[k])
                        && (forall|ii: int| 0 <= ii < i ==> n.di_addr@[ii] != sa[k]) ==> self.block_holds(
                        #[trigger] sa[k],
                        chunk(bs, bs.len() as int, k),
                    ),
            decreases 4 - i,
        {
            proof {
                if owed {
                    assert(o.can_read(34 + n.di_addr@[i as int]));
                    assert(self.can_read(34 + n.di_addr@[i as int]));
                }
                if fresh {
                    let pid = (34 + n.di_addr@[i as int]) as i32;
                    if self.buffer_pool_manager.table_lookup(pid) is Some {
                        self.buffer_pool_manager.lemma_lookup_held(pid);
                        assert(self.buffer_pool_manager.holds_entry(pid));
                        assert(!o.buffer_pool_manager.holds_entry(pid));
                        assert(!o.save_touches(pid as int));
                        if exists|ii: int| 0 <= ii < i && pid as int == 34 + #[trigger] n.di_addr@[ii] {
                            let ii = choose|ii: int| 0 <= ii < i && pid as int == 34 + #[trigger] n.di_addr@[ii];
                            assert(n.di_addr@[ii] != n.di_addr@[i as int]);
                        }
                    }
                }
            }
            let ghost before = *self;
            if i < NADDR {
                if !self.load_dir_block(n.di_addr[i], ENTRIES_PER_BLOCK * i) {
                    return Err(DirError::Fs(FsError::Disk));
                }
            }
            proof {
                if cs {
                    assert(before.room() >= 1);
                    let nbs = blocks_of_size(bs.len() as int);
                    assert forall|k: int|
                        0 <= k < nbs && (forall|j: int| k < j < nbs ==> sa[j] != sa[k]) && (forall|ii: int|
                            0 <= ii < i + 1 ==> n.di_addr@[ii] != sa[k]) implies self.block_holds(
                        #[trigger] sa[k],
                        chunk(bs, bs.len() as int, k),
                    ) by {
                        let c = chunk(bs, bs.len() as int, k);
                        assert(n.di_addr@[i as int] != sa[k]);
                        assert(before.block_holds(sa[k], c));
                        let g = choose|g: int|
                            0 <= g < before.buffer_pool_manager.spec_pool_size() && before.buffer_pool_manager.frame_page(g) == 34
                                + sa[k] && (#[trigger] before.buffer_pool_manager.pages_view()[g]).subrange(0, c.len() as int) == c;
                        assert(self.buffer_pool_manager.pages_view()[g] == before.buffer_pool_manager.pages_view()[g]);
                        assert(self.buffer_pool_manager.frame_page(g) == 34 + sa[k]);
                    }
                }
            }
            proof {
                if fresh {
                    let d = o.buffer_pool_manager.disk_view();
                    assert forall|ii: int| 0 <= ii < i + 1 implies #[trigger] block_entries(
                        self.dir.direct@,
                        32 * ii,
                        block_of(d, 34 + n.di_addr@[ii]),
                    ) by {
                        if ii < i {
                            let pg = block_of(d, 34 + n.di_addr@[ii]);
                            assert(block_entries(before.dir.direct@, 32 * ii, pg));
                            assert forall|m: int| 0 <= m < 32 && 32 * ii + m < DIRNUM implies #[trigger] direntry_fields_at(
                                self.dir.direct@[32 * ii + m],
                                pg,
                                DIRENTSIZ * m,
                            ) by {
                                assert(self.dir.direct@[32 * ii + m] == before.dir.direct@[32 * ii + m]);
                                assert(direntry_fields_at(before.dir.direct@[32 * ii + m], pg, DIRENTSIZ * m));
                            }
                        }
                    }
                }
            }
            i = i + 1;
        }
        let ghost pre_put = self.inodes@;
        let ghost s_pp = *self;
        proof {
            if cs {
                assert(self.room() >= 1);
            }
        }
        let _ = self.iput(h);
        proof {
            if cs {
                let nbs = blocks_of_size(bs.len() as int);
                let fin_n = self.inodes@[h as int];
                assert(self.inodes@[old_cur as int].di_addr@ == sa);
                assert(fin_n.di_addr == n.di_addr && fin_n.di_size == n.di_size);
                assert forall|k: int|
                    0 <= k < nbs && (forall|j: int| k < j < nbs ==> sa[j] != sa[k]) && (forall|ii: int|
                        0 <= ii < 4 && ii < blocks_of_size(fin_n.di_size as int) ==> fin_n.di_addr@[ii] != sa[k]) implies self.block_holds(
                    #[trigger] sa[k],
                    chunk(bs, bs.len() as int, k),
                ) by {
                    let c = chunk(bs, bs.len() as int, k);
                    assert forall|ii: int| 0 <= ii < i implies n.di_addr@[ii] != sa[k] by {
                        assert(fin_n.di_addr@[ii] == n.di_addr@[ii]);
                        assert(ii < 4 && ii < blocks_of_size(fin_n.di_size as int));
                    }
                    assert(s_pp.block_holds(sa[k], c));
                    let g = choose|g: int|
                        0 <= g < s_pp.buffer_pool_manager.spec_pool_size() && s_pp.buffer_pool_manager.frame_page(g) == 34 + sa[k]
                            && (#[trigger] s_pp.buffer_pool_manager.pages_view()[g]).subrange(0, c.len() as int) == c;
                    assert(self.buffer_pool_manager.pages_view()[g] == s_pp.buffer_pool_manager.pages_view()[g]);
                    assert(self.buffer_pool_manager.frame_page(g) == 34 + sa[k]);
                }
                assert(self.saved_unless(self.inodes@[old_cur as int].di_addr@, bs, self.inodes@[self.cur_path_inode as int]));
            }
            let j = choose|j: int| #[trigger] old(self).first_match_at(dirname.spec_bytes(), j) && dirid == old(self).dir.direct@[j].d_ino;
            assert(old(self).first_match_at(dirname.spec_bytes(), j));
            let fin = self.inodes@[h as int];
            assert(fin.i_ino == pre_put[h as int].i_ino && fin.di_mode == pre_put[h as int].di_mode
                && fin.di_size == pre_put[h as int].di_size && fin.di_uid == pre_put[h as int].di_uid
                && fin.di_gid == pre_put[h as int].di_gid);
            assert(self.inodes@[old_cur as int].di_size == pre_put[old_cur as int].di_size);
            assert(pre_put[h as int].i_ino == dirid);
            assert(self.dir.size == fin.di_size / 16);
            assert(fin.di_mode == target.di_mode && fin.di_uid == target.di_uid && fin.di_gid == target.di_gid && fin.i_ino == target.i_ino);
        }
        Ok(())
    }

    /// Whether `self.dir` is `o.dir` with a free entry claimed for `name`:
    /// the first entry with inode number 0 holds the padded name and some
    /// inode number, and the size grew by one.
    pub open spec fn entry_added(&self, o: &Self, name: Seq<u8>) -> bool {
        &&& self.dir.size == o.dir.size + 1
        &&& exists|p: int| {
            &&& 0 <= p < DIRNUM
            &&& #[trigger] o.dir.direct@[p].d_ino == 0
            &&& forall|k: int| 0 <= k < p ==> (#[trigger] o.dir.direct@[k]).d_ino != 0
            &&& self.dir.direct@[p].d_name@ == padded_name(name)
            &&& self.dir.direct@ == o.dir.direct@.update(p, self.dir.direct@[p])
        }
    }

    /// Claims a directory entry for `name` and points it to inode number
    /// `ino`; returns the entry's index or `NO_SLOT`.
    fn add_entry(&mut self, name: &str, ino: u32) -> (p: u16)
        requires
            old(self).wf(),
            old(self).dir.size < DIRNUM,
        ensures
            final(self).wf(),
            final(self).buffer_pool_manager == old(self).buffer_pool_manager,
            final(self).hinode@ == old(self).hinode@,
            final(self).inodes@ == old(self).inodes@,
            final(self).filsys == old(self).filsys,
            final(self).sys_ofile == old(self).sys_ofile,
            final(self).pwd == old(self).pwd,
            final(self).user == old(self).user,
            final(self).cur_path_inode == old(self).cur_path_inode,
            final(self).user_id == old(self).user_id,
            p == NO_SLOT ==> final(self).dir.size == old(self).dir.size,
            p != NO_SLOT ==> final(self).entry_added(old(self), name.spec_bytes()) && final(self).dir.direct@[p as int].d_ino
                == ino as u16,
            p != NO_SLOT ==> p < DIRNUM && final(self).dir.direct@[p as int].d_name@ == padded_name(name.spec_bytes()),
            (forall|k: int| 0 <= k < DIRNUM ==> (#[trigger] old(self).dir.direct@[k]).d_ino != 0) ==> p == NO_SLOT,
            (exists|k: int| 0 <= k < DIRNUM && (#[trigger] old(self).dir.direct@[k]).d_ino == 0) ==> {
                &&& p < DIRNUM
                &&& old(self).dir.direct@[p as int].d_ino == 0
                &&& forall|k: int| 0 <= k < p ==> (#[trigger] old(self).dir.direct@[k]).d_ino != 0
            },
    {
        let p = self.iname(name);
        if p == NO_SLOT {
            return NO_SLOT;
        }
        self.dir.direct[p as usize].d_ino = ino as u16;
        self.dir.size = self.dir.size + 1;
        proof {
            assert(self.dir.direct@ =~= old(self).dir.direct@.update(p as int, self.dir.direct@[p as int]));
            assert(old(self).dir.direct@[p as int].d_ino == 0);
        }
        p
    }

    /// Whether the 16 bytes at `off` of `pg` hold a directory entry named
    /// `name` (zero-filled) for inode number `ino`.
    pub open spec fn entry_at(pg: Seq<u8>, off: int, name: Seq<u8>, ino: int) -> bool {
        &&& forall|i: int| 0 <= i < DIRSIZ ==> #[trigger] pg[off + i] == if i < name.len() { name[i] } else { 0u8 }
        &&& le16(pg[off + 14], pg[off + 15]) == ino
    }

    /// Whether the current directory's table has a free entry.
    pub open spec fn free_slot_usable(&self) -> bool {
        exists|k: int| 0 <= k < DIRNUM && (#[trigger] self.dir.direct@[k]).d_ino == 0
    }

    /// Whether making a directory named `name` is sure to succeed: the name
    /// is new, the table has room and a usable free entry, the free-inode
    /// stack gives an inode without reloading, the free-block stack gives a
    /// block without reloading, the current directory has links, the buffer
    /// pool has room for six fetches, and the new inode's block, the current
    /// directory inode's block and the new data block can be fetched.
    pub open spec fn mkdir_owed(&self, name: Seq<u8>) -> bool {
        let fs = self.filsys;
        let cur = self.inodes@[self.cur_path_inode as int];
        &&& self.lookup(name) == NOT_FOUND
        &&& self.dir.size < DIRNUM
        &&& self.free_slot_usable()
        &&& fs.s_ninode != 0
        &&& fs.s_pinode < NICINOD
        &&& 2 <= fs.s_pfree <= NICFREE
        &&& fs.s_nfree >= 1
        &&& cur.di_number != 0
        &&& self.room() >= 6
        &&& self.can_read(2 + fs.s_inode@[fs.s_pinode as int] / 16)
        &&& self.can_read(2 + cur.i_ino / 16)
        &&& self.can_read(34 + (fs.s_free@[fs.s_pfree - 1]) as u16)
    }

    /// Creates the directory `dirname` in the current directory for user
    /// `user_id_` (an index of the user table, or `USERNUM` plus an index of
    /// the password table for an account being set up): claims a directory
    /// entry and an inode, records the current directory's new size on its
    /// inode and reloads that inode, and gives the new directory one block
    /// holding `.` and `..`, size 32, one link, and the user's default mode
    /// (or `USERMODE` for an account being set up) as a directory, owned by
    /// the user.
    pub fn mkdir(&mut self, user_id_: i32, dirname: &str) -> (r: Result<(), DirError>)
        requires
            old(self).wf(),
            old(self).lookup(dirname.spec_bytes()) == NOT_FOUND ==> 0 <= user_id_ < USERNUM + PWDNUM,
        ensures
            final(self).wf(),
            final(self).user == old(self).user,
            final(self).pwd == old(self).pwd,
            final(self).user_id == old(self).user_id,
            final(self).sys_ofile == old(self).sys_ofile,
            final(self).buffer_pool_manager.spec_pool_size() == old(self).buffer_pool_manager.spec_pool_size(),
            old(self).lookup(dirname.spec_bytes()) != NOT_FOUND ==> final(self).dir == old(self).dir && (r == Err::<(), DirError>(
                DirError::DirExists,
            ) || r == Err::<(), DirError>(DirError::FileExists) || r == Err::<(), DirError>(DirError::Fs(FsError::Disk))),
            (forall|k: int| 0 <= k < DIRNUM ==> (#[trigger] old(self).dir.direct@[k]).d_ino != 0) ==> r is Err,
            old(self).mkdir_owed(dirname.spec_bytes()) ==> r is Ok,
            ({
                let fs = old(self).filsys;
                &&& old(self).mkdir_owed(dirname.spec_bytes())
                &&& old(self).buffer_pool_manager.consistent()
                &&& fs.s_inode@[fs.s_pinode as int] / 16 < 32
            }) ==> exists|h: int, f: int|
                #![trigger final(self).inodes@[h], final(self).buffer_pool_manager.pages_view()[f]]
                {
                let fs = old(self).filsys;
                let pg = final(self).buffer_pool_manager.pages_view()[f];
                &&& 0 <= h < final(self).inodes@.len()
                &&& final(self).inodes@[h].i_ino == fs.s_inode@[fs.s_pinode as int]
                &&& 0 <= f < final(self).buffer_pool_manager.spec_pool_size()
                &&& final(self).buffer_pool_manager.frame_page(f) == 34 + final(self).inodes@[h].di_addr@[0]
                &&& Self::entry_at(pg, 0, seq![46u8], (fs.s_inode@[fs.s_pinode as int] as u16) as int)
                &&& Self::entry_at(
                    pg,
                    16,
                    seq![46u8, 46u8],
                    (old(self).inodes@[old(self).cur_path_inode as int].i_ino as u16) as int,
                )
            },
            ({
                let fs = old(self).filsys;
                &&& old(self).mkdir_owed(dirname.spec_bytes())
                &&& old(self).buffer_pool_manager.consistent()
                &&& fs.s_inode@[fs.s_pinode as int] / 16 < 32
                &&& old(self).inodes@[old(self).cur_path_inode as int].i_ino / 16 < 32
            }) ==> final(self).buffer_pool_manager.data_frames_kept(
                &old(self).buffer_pool_manager,
                (old(self).filsys.s_free@[old(self).filsys.s_pfree - 1] as u16) as int,
            ),
            r is Ok ==> old(self).lookup(dirname.spec_bytes()) == NOT_FOUND && final(self).entry_added(old(self), dirname.spec_bytes()),
            r is Ok ==> exists|h: int, p: int| {
                &&& 0 <= h < final(self).inodes@.len()
                &&& 0 <= p < DIRNUM
                &&& final(self).dir.direct@[p].d_name@ == padded_name(dirname.spec_bytes())
                &&& #[trigger] final(self).dir.direct@[p].d_ino == (#[trigger] final(self).inodes@[h]).i_ino as u16
                &&& new_dir(final(self).inodes@[h], old(self).dir_owner(user_id_ as int))
            },
    {
        let dirid = self.namei(dirname);
        if dirid != NOT_FOUND {
            let h = match self.iget(dirid) {
                Some(h) => h,
                None => {
                    return Err(DirError::Fs(FsError::Disk));
                },
            };
            let is_dir = self.inodes[h].di_mode & DIDIR != 0;
            let _ = self.iput(h);
            if is_dir {
                return Err(DirError::DirExists);
            }
            return Err(DirError::FileExists);
        }
        if self.dir.size >= DIRNUM as i32 {
            return Err(DirError::Full);
        }
        let mut k: usize = 0;
        while k < DIRNUM
            invariant
                k <= DIRNUM,
                forall|m: int| 0 <= m < k ==> (#[trigger] self.dir.direct@[m]).d_ino != 0,
            ensures
                k <= DIRNUM,
                forall|m: int| 0 <= m < k ==> (#[trigger] self.dir.direct@[m]).d_ino != 0,
                k < DIRNUM ==> self.dir.direct@[k as int].d_ino == 0,
            decreases DIRNUM - k,
        {
            if self.dir.direct[k].d_ino == 0 {
                break;
            }
            k = k + 1;
        }
        if k == DIRNUM {
            return Err(DirError::Full);
        }
        let ghost owed = old(self).mkdir_owed(dirname.spec_bytes());
        let ghost o = *old(self);
        let ghost laid = owed && o.buffer_pool_manager.consistent() && o.filsys.s_inode@[o.filsys.s_pinode as int] / 16 < 32;
        let ghost dk = laid && o.inodes@[o.cur_path_inode as int].i_ino / 16 < 32;
        let ghost blk: int = (o.filsys.s_free@[o.filsys.s_pfree - 1] as u16) as int;
        let ghost ob = o.buffer_pool_manager;
        let newinode = match self.ialloc() {
            Ok(h) => h,
            Err(e) => {
                return Err(DirError::Fs(e));
            },
        };
        proof {
            if dk {
                self.buffer_pool_manager.lemma_data_frames_step(&ob, &ob, (2 + o.filsys.s_inode@[o.filsys.s_pinode as int] / 16) as i32, blk);
            }
        }
        let new_ino = self.inodes[newinode].i_ino;
        proof {
            if owed {
                assert(new_ino == o.filsys.s_inode@[o.filsys.s_pinode as int]);
                assert(self.dir == o.dir);
            }
        }
        let p = self.add_entry(dirname, new_ino);
        proof {
            if owed && p == NO_SLOT {
                assert(false);
            }
        }
        if p == NO_SLOT {
            return Err(DirError::Full);
        }
        let ghost s2 = *self;
        proof {
            if owed {
                assert(same_data(self.inodes@[o.cur_path_inode as int], o.inodes@[o.cur_path_inode as int]));
                assert(same_data(self.inodes@[newinode as int], s2.inodes@[newinode as int]));
            }
        }
        let cur = self.cur_path_inode;
        let mut c = self.inodes[cur];
        c.di_size = (self.dir.size as u32) * 16;
        let cur_ino = c.i_ino;
        self.inodes.set(cur, c);
        let ghost b1 = self.buffer_pool_manager;
        let ghost pid1 = (2 + self.inodes@[cur as int].i_ino / 16) as i32;
        let _ = self.iput(cur);
        proof {
            if owed {
                assert(self.filsys == s2.filsys);
                assert(self.inodes@[newinode as int].i_ino == new_ino);
            }
            if laid {
                assert(self.buffer_pool_manager.consistent());
                assert(self.room() >= 4);
                assert(cur_ino == o.inodes@[o.cur_path_inode as int].i_ino);
            }
            if dk {
                assert(b1.data_frames_kept(&ob, blk));
                self.buffer_pool_manager.lemma_data_frames_step(&b1, &ob, pid1, blk);
            }
        }
        let ghost b2 = self.buffer_pool_manager;
        match self.iget(cur_ino) {
            Some(h) => {
                self.cur_path_inode = h;
            },
            None => {
                return Err(DirError::Fs(FsError::Disk));
            },
        }
        proof {
            if laid {
                assert(self.buffer_pool_manager.consistent());
                assert(self.room() >= 3);
            }
            if dk {
                self.buffer_pool_manager.lemma_data_frames_step(&b2, &ob, (2 + cur_ino / 16) as i32, blk);
            }
        }
        let mut block: Vec<u8> = vec![0u8; BLOCKSIZ];
        let mut dot = DirEntry::default();
        dot.d_name[0] = 46u8;
        dot.d_ino = new_ino as u16;
        write_direntry_at(&mut block, 0, &dot);
        let mut dotdot = DirEntry::default();
        dotdot.d_name[0] = 46u8;
        dotdot.d_name[1] = 46u8;
        dotdot.d_ino = self.inodes[self.cur_path_inode].i_ino as u16;
        let ghost one = block@;
        write_direntry_at(&mut block, DIRENTSIZ, &dotdot);
        proof {
            assert forall|i: int| 0 <= i < DIRSIZ implies #[trigger] block@[0 + i] == if i < seq![46u8].len() {
                seq![46u8][i]
            } else {
                0u8
            } by {
                assert(block@[i] == one[i]);
                assert(one[0 + i] == dot.d_name@[i]);
            }
            assert(block@[14] == one[14] && block@[15] == one[15]);
            assert(Self::entry_at(block@, 0, seq![46u8], (new_ino as u16) as int));
            assert forall|i: int| 0 <= i < DIRSIZ implies #[trigger] block@[16 + i] == if i < seq![46u8, 46u8].len() {
                seq![46u8, 46u8][i]
            } else {
                0u8
            } by {
                assert(block@[16 + i] == dotdot.d_name@[i]);
            }
            assert(Self::entry_at(block@, 16, seq![46u8, 46u8], dotdot.d_ino as int));
        }
        if self.filsys.s_pfree < 1 || self.filsys.s_pfree > 50 || self.filsys.s_nfree < 1 {
            return Err(DirError::Fs(FsError::Corrupt));
        }
        let ghost s3 = *self;
        proof {
            if owed {
                assert(self.filsys.s_free == o.filsys.s_free);
                assert(self.filsys.s_pfree == o.filsys.s_pfree);
                assert(self.inodes@[newinode as int].i_ino == new_ino);
            }
        }
        let b = match self.balloc() {
            Some(b) => b,
            None => {
                return Err(DirError::Fs(FsError::Disk));
            },
        };
        proof {
            if owed {
                assert(b == o.filsys.s_free@[o.filsys.s_pfree - 1]);
                assert(self.can_read(34 + b as u16));
            }
        }
        let ghost s4 = *self;
        proof {
            if dk {
                assert(b == o.filsys.s_free@[o.filsys.s_pfree - 1]);
                assert(self.buffer_pool_manager.data_frames_kept(&ob, blk));
            }
        }
        if !self.store(b as u16, 0, block.as_slice(), 0, BLOCKSIZ) {
            return Err(DirError::Fs(FsError::Disk));
        }
        let ghost frame: int = choose|f: int|
            0 <= f < self.buffer_pool_manager.spec_pool_size() && self.buffer_pool_manager.frame_page(f) == 34 + (b as u16)
                && (#[trigger] self.buffer_pool_manager.pages_view()[f]).subrange(0, 0 + BLOCKSIZ) == block@.subrange(0, 0 + BLOCKSIZ);
        proof {
            if laid {
                assert(s4.buffer_pool_manager.consistent());
                assert(s4.room() >= 3);
                assert(self.buffer_pool_manager.consistent());
                assert(self.room() >= 2);
                assert(block@.len() == 512);
                assert(exists|f: int|
                    0 <= f < self.buffer_pool_manager.spec_pool_size() && self.buffer_pool_manager.frame_page(f) == 34 + (b as u16)
                        && (#[trigger] self.buffer_pool_manager.pages_view()[f]).subrange(0, 0 + BLOCKSIZ) == block@.subrange(0, 0 + BLOCKSIZ));
                self.buffer_pool_manager.lemma_frames();
                let pg = self.buffer_pool_manager.pages_view()[frame];
                assert(pg.subrange(0, 512) == block@.subrange(0, 512));
                assert forall|i: int| 0 <= i < 512 implies #[trigger] pg[i] == block@[i] by {
                    assert(pg.subrange(0, 512)[i] == block@.subrange(0, 512)[i]);
                }
                assert(Self::entry_at(pg, 0, seq![46u8], (new_ino as u16) as int));
                assert(Self::entry_at(pg, 16, seq![46u8, 46u8], dotdot.d_ino as int));
            }
        }
        if newinode >= self.inodes.len() {
            return Err(DirError::Fs(FsError::Corrupt));
        }
        let mut n = self.inodes[newinode];
        n.di_size = 32;
        n.di_number = 1;
        n.di_addr[0] = b as u16;
        if (user_id_ as usize) < USERNUM {
            let u = self.user[user_id_ as usize];
            n.di_mode = u.u_default_mode | DIDIR;
            n.di_uid = u.u_uid;
            n.di_gid = u.u_gid;
        } else {
            let pw = self.pwd[user_id_ as usize - USERNUM];
            n.di_mode = USERMODE | DIDIR;
            n.di_uid = pw.p_uid;
            n.di_gid = pw.p_gid;
        }
        self.inodes.set(newinode, n);
        proof {
            assert(new_dir(self.inodes@[newinode as int], old(self).dir_owner(user_id_ as int)));
        }
        let ghost before_put = self.inodes@;
        let ghost s5 = *self;
        proof {
            if dk {
                self.buffer_pool_manager.lemma_data_frames_step(&s4.buffer_pool_manager, &ob, (34 + b as u16) as i32, blk);
            }
        }
        match self.iput(newinode) {
            Ok(()) => {},
            Err(e) => {
                return Err(DirError::Fs(e));
            },
        }
        proof {
            if dk {
                assert(s5.inodes@[newinode as int].i_ino == new_ino);
                self.buffer_pool_manager.lemma_data_frames_step(&s5.buffer_pool_manager, &ob, (2 + new_ino / 16) as i32, blk);
            }
        }
        proof {
            if laid {
                assert(s5.buffer_pool_manager.consistent());
                assert(s5.room() >= 1);
                assert(s5.inodes@[newinode as int].i_ino == new_ino);
                assert(new_ino / 16 < 32);
                assert(s5.buffer_pool_manager.frame_page(frame) == 34 + (b as u16));
                assert(0 <= frame < s5.buffer_pool_manager.spec_pool_size());
                assert(self.buffer_pool_manager.pages_view()[frame] == s5.buffer_pool_manager.pages_view()[frame]);
                assert(self.buffer_pool_manager.frame_page(frame) == 34 + (b as u16));
            }
            let fin = self.inodes@[newinode as int];
            assert(fin == Inode { i_count: fin.i_count, ..before_put[newinode as int] });
            assert(new_dir(fin, old(self).dir_owner(user_id_ as int)));
            assert(self.dir.direct@[p as int].d_ino == self.inodes@[newinode as int].i_ino as u16);
            assert(self.dir.direct@[p as int].d_name@ == padded_name(dirname.spec_bytes()));
        }
        Ok(())
    }

    /// Whether every inode that reading the current directory's `.` entry
    /// may give satisfies `ok`, the entry being found and its inode block
    /// fetchable with room in the buffer pool.
    pub open spec fn dot_inode_meets(&self, ok: spec_fn(Inode) -> bool) -> bool {
        let dot = self.lookup(".".spec_bytes());
        &&& dot != NOT_FOUND
        &&& self.room() >= 1
        &&& self.can_read(2 + dot / 16)
        &&& forall|n: Inode| #[trigger] self.may_get(dot, n) ==> ok(n)
    }

    /// Whether creating the file `name` for user `user_id` is sure to
    /// succeed: the name is new, the user may write and search the current
    /// directory (whose inode has links), the table has room and a usable
    /// free entry, the current directory's size can grow by an entry, the
    /// free-inode stack gives an inode without reloading, whose number is
    /// not the current directory's and whose block can be fetched, and the
    /// buffer pool has room for three fetches.
    pub open spec fn creat_owed(&self, user_id: int, name: Seq<u8>) -> bool {
        let fs = self.filsys;
        let cur = self.inodes@[self.cur_path_inode as int];
        &&& self.lookup(name) == NOT_FOUND
        &&& self.dot_inode_meets(
            |n: Inode|
                access_granted(self.user@, user_id, n, WRITE) && access_granted(self.user@, user_id, n, EXICUTE)
                    && n.di_number != 0,
        )
        &&& self.dir.size < DIRNUM
        &&& self.free_slot_usable()
        &&& cur.di_size <= u32::MAX - 16
        &&& fs.s_ninode != 0
        &&& fs.s_pinode < NICINOD
        &&& fs.s_inode@[fs.s_pinode as int] != cur.i_ino
        &&& self.room() >= 3
        &&& self.can_read(2 + fs.s_inode@[fs.s_pinode as int] / 16)
    }

    /// Creates the file `filename` in the current directory for user
    /// `user_id` with mode `mode`, when no entry has that name and the user
    /// may write and search the current directory: claims an inode (empty,
    /// one link, owned by the user) and a directory entry for it, and grows
    /// the current directory inode's size by one entry.
    pub fn creat(&mut self, user_id: usize, filename: &str, mode: u16) -> (r: Result<(), DirError>)
        requires
            old(self).wf(),
            old(self).lookup(filename.spec_bytes()) == NOT_FOUND ==> user_id < USERNUM,
        ensures
            final(self).wf(),
            final(self).user == old(self).user,
            final(self).pwd == old(self).pwd,
            final(self).user_id == old(self).user_id,
            final(self).sys_ofile == old(self).sys_ofile,
            old(self).lookup(filename.spec_bytes()) != NOT_FOUND ==> r == Err::<(), DirError>(DirError::Exists) && *final(self)
                == *old(self),
            (forall|k: int| 0 <= k < DIRNUM ==> (#[trigger] old(self).dir.direct@[k]).d_ino != 0) ==> r is Err,
            old(self).creat_owed(user_id as int, filename.spec_bytes()) ==> r is Ok,
            old(self).lookup(filename.spec_bytes()) == NOT_FOUND && old(self).dot_inode_meets(
                |n: Inode|
                    !(access_granted(old(self).user@, user_id as int, n, WRITE) && access_granted(
                        old(self).user@,
                        user_id as int,
                        n,
                        EXICUTE,
                    )),
            ) ==> r == Err::<(), DirError>(DirError::Denied),
            old(self).lookup(filename.spec_bytes()) == NOT_FOUND && old(self).cached_in_use(old(self).lookup(".".spec_bytes()))
                && old(self).dot_inode_meets(
                |n: Inode|
                    !(access_granted(old(self).user@, user_id as int, n, WRITE) && access_granted(
                        old(self).user@,
                        user_id as int,
                        n,
                        EXICUTE,
                    )),
            ) ==> final(self).same_but_pool(old(self)) && final(self).buffer_pool_manager == old(self).buffer_pool_manager,
            r is Ok ==> old(self).lookup(filename.spec_bytes()) == NOT_FOUND && final(self).entry_added(old(self), filename.spec_bytes()),
            r is Ok ==> final(self).cur_path_inode == old(self).cur_path_inode && final(self).inodes@[old(self).cur_path_inode as int].di_size
                == old(self).inodes@[old(self).cur_path_inode as int].di_size + 16,
            r is Ok ==> exists|h: int, p: int| {
                &&& 0 <= h < final(self).inodes@.len()
                &&& 0 <= p < DIRNUM
                &&& final(self).dir.direct@[p].d_name@ == padded_name(filename.spec_bytes())
                &&& #[trigger] final(self).dir.direct@[p].d_ino == (#[trigger] final(self).inodes@[h]).i_ino as u16
                &&& new_file(final(self).inodes@[h], mode, old(self).user@[user_id as int])
            },
    {
        if self.namei(filename) != NOT_FOUND {
            return Err(DirError::Exists);
        }
        let cur_dir_ino = self.namei(".");
        let ghost o = *old(self);
        let h = match self.iget(cur_dir_ino) {
            Some(h) => h,
            None => {
                return Err(DirError::Fs(FsError::Disk));
            },
        };
        proof {
            assert(o.may_get(cur_dir_ino, self.inodes@[h as int]));
        }
        let has_write = self.access(user_id as i32, h, WRITE);
        let has_execute = self.access(user_id as i32, h, EXICUTE);
        if has_write == 0 || has_execute == 0 {
            let ghost mid = *self;
            let _ = self.iput(h);
            proof {
                if o.cached_in_use(cur_dir_ino) {
                    let b = (cur_dir_ino % 128) as int;
                    let j = choose|j: int| #[trigger]
                        o.cached_at(cur_dir_ino, j) && 1 <= o.inodes@[o.hinode@[b]@[j] as int].i_count < u32::MAX;
                    assert(h == o.hinode@[b]@[j]);
                    assert(mid.inodes@[h as int].i_count > 1);
                    assert(self.inodes@ =~= o.inodes@);
                }
            }
            return Err(DirError::Denied);
        }
        let _ = self.iput(h);
        proof {
            if o.creat_owed(user_id as int, filename.spec_bytes()) {
                assert(same_data(self.inodes@[o.cur_path_inode as int], o.inodes@[o.cur_path_inode as int]));
            }
        }
        if self.dir.size >= DIRNUM as i32 || self.inodes[self.cur_path_inode].di_size > u32::MAX - 16 {
            return Err(DirError::Full);
        }
        let new_inode = match self.ialloc() {
            Ok(h) => h,
            Err(e) => {
                return Err(DirError::Fs(e));
            },
        };
        let new_ino = self.inodes[new_inode].i_ino;
        let p = self.add_entry(filename, new_ino);
        proof {
            if o.creat_owed(user_id as int, filename.spec_bytes()) && p == NO_SLOT {
                assert(false);
            }
        }
        if p == NO_SLOT {
            let _ = self.iput(new_inode);
            return Err(DirError::Full);
        }
        let u = self.user[user_id];
        let mut n = self.inodes[new_inode];
        n.di_mode = mode;
        n.di_uid = u.u_uid;
        n.di_gid = u.u_gid;
        n.di_size = 0;
        n.di_number = 1;
        n.di_addr = [0u16; 10];
        self.inodes.set(new_inode, n);
        let cur = self.cur_path_inode;
        let mut c = self.inodes[cur];
        proof {
            if o.creat_owed(user_id as int, filename.spec_bytes()) {
                assert(self.inodes@[new_inode as int].i_ino == new_ino);
                assert(new_ino == o.filsys.s_inode@[o.filsys.s_pinode as int]);
                assert(same_data(self.inodes@[cur as int], o.inodes@[o.cur_path_inode as int]));
            }
        }
        if c.di_size > u32::MAX - 16 || cur == new_inode {
            return Err(DirError::Fs(FsError::Corrupt));
        }
        c.di_size = c.di_size + 16;
        self.inodes.set(cur, c);
        let ghost before_put = self.inodes@;
        let ghost s5 = *self;
        let _ = self.iput(new_inode);
        proof {
            let fin = self.inodes@[new_inode as int];
            assert(fin == Inode { i_count: fin.i_count, ..before_put[new_inode as int] });
            assert(self.dir.direct@[p as int].d_ino == new_ino as u16);
            assert(new_file(fin, mode, old(self).user@[user_id as int]));
            assert(self.dir.direct@[p as int].d_ino == self.inodes@[new_inode as int].i_ino as u16);
            assert(self.dir.direct@[p as int].d_name@ == padded_name(filename.spec_bytes()));
            assert(0 <= p < DIRNUM);
        }
        Ok(())
    }

    /// The first half of deleting `filename` from the current directory:
    /// finds the entry, takes its inode (which stays referenced) and checks
    /// that user `user_id` may write it. Returns the inode and whether it is
    /// a directory, so that the deletion can be confirmed before `deletefd`.
    pub fn deletefd_target(&mut self, user_id: usize, filename: &str) -> (r: Result<(InodeRef, bool), DirError>)
        requires
            old(self).wf(),
            old(self).lookup(filename.spec_bytes()) != NOT_FOUND ==> user_id < USERNUM,
        ensures
            final(self).wf(),
            final(self).dir == old(self).dir,
            final(self).user == old(self).user,
            final(self).user_id == old(self).user_id,
            final(self).sys_ofile == old(self).sys_ofile,
            final(self).filsys == old(self).filsys,
            old(self).lookup(filename.spec_bytes()) == NOT_FOUND ==> r == Err::<(InodeRef, bool), DirError>(
                DirError::NotFound,
            ),
            r matches Ok((h, is_dir)) ==> {
                &&& h < final(self).inodes@.len()
                &&& final(self).inodes@[h as int].i_ino == old(self).lookup(filename.spec_bytes())
                &&& is_dir == (final(self).inodes@[h as int].di_mode & DIDIR != 0)
                &&& access_granted(final(self).user@, user_id as int, final(self).inodes@[h as int], WRITE)
            },
    {
        let dinodeid = self.namei(filename);
        if dinodeid == NOT_FOUND {
            return Err(DirError::NotFound);
        }
        let h = match self.iget(dinodeid) {
            Some(h) => h,
            None => {
                return Err(DirError::Fs(FsError::Disk));
            },
        };
        if self.access(user_id as i32, h, WRITE) == 0 {
            return Err(DirError::Denied);
        }
        let is_dir = self.inodes[h].di_mode & DIDIR != 0;
        Ok((h, is_dir))
    }

    /// The second half of deleting `filename` (whose inode `inode`
    /// `deletefd_target` gave): a directory must not be the root (inode 1)
    /// and must hold only `.` and `..` (checked by entering and leaving
    /// it). The first entry with the inode's number leaves the table, the
    /// entries after it moving down; the current directory inode shrinks
    /// by one entry; the inode loses a link and is released.
    /// (`user_id`, the deleting user, had its access checked there.)
    pub fn deletefd(&mut self, user_id: usize, filename: &str, inode: InodeRef) -> (r: Result<(), DirError>)
        requires
            old(self).wf(),
            inode < old(self).inodes@.len(),
        ensures
            final(self).wf(),
            final(self).user == old(self).user,
            final(self).user_id == old(self).user_id,
            final(self).sys_ofile == old(self).sys_ofile,
            ({
                let n = old(self).inodes@[inode as int];
                &&& n.di_mode & DIDIR == 0
                &&& old(self).dir.size >= 1
                &&& old(self).inodes@[old(self).cur_path_inode as int].di_size >= 16
                &&& inode != old(self).cur_path_inode
                &&& old(self).put_owed(Inode { di_number: if n.di_number > 0 { (n.di_number - 1) as u16 } else { 0 }, ..n })
            }) ==> r is Ok,
            r is Ok && old(self).inodes@[inode as int].di_mode & DIDIR == 0 ==> {
                let ino = old(self).inodes@[inode as int].i_ino as u16;
                let t = first_with_ino(old(self).dir.direct@, old(self).dir.size as int, ino);
                &&& final(self).dir.size == old(self).dir.size - 1
                &&& final(self).dir.direct@ == removed_entry(old(self).dir.direct@, old(self).dir.size as int, t)
            },
            old(self).inodes@[inode as int].di_mode & DIDIR != 0 && old(self).inodes@[inode as int].i_ino == 1
                && old(self).room() >= 1 && old(self).can_read(2) ==> r == Err::<(), DirError>(DirError::IsRoot),
            r is Ok && old(self).inodes@[inode as int].di_mode & DIDIR != 0 ==> old(self).inodes@[inode as int].i_ino != 1,
            r is Ok && old(self).inodes@[inode as int].di_mode & DIDIR != 0 && final(self).cur_path_inode == old(self).cur_path_inode
                ==> final(self).dir.size == old(self).dir.size - 1 && final(self).dir.direct@[final(self).dir.size as int].d_ino == 0,
            r is Ok ==> inode < final(self).inodes@.len() && final(self).inodes@[inode as int].di_number == {
                let d = old(self).inodes@[inode as int].di_number;
                if d > 0 {
                    (d - 1) as u16
                } else {
                    0
                }
            },
            r is Ok && old(self).inodes@[inode as int].di_mode & DIDIR == 0 && inode != old(self).cur_path_inode ==> {
                let n = old(self).inodes@[inode as int];
                let c = old(self).cur_path_inode as int;
                &&& final(self).cur_path_inode == old(self).cur_path_inode
                &&& final(self).inodes@[c].di_size == old(self).inodes@[c].di_size - 16
                &&& final(self).inodes@[inode as int].di_number == if n.di_number > 0 { (n.di_number - 1) as u16 } else { 0 }
            },
    {
        let n = self.inodes[inode];
        let dinodeid = n.i_ino;
        let ghost mut back = false;
        if n.di_mode & DIDIR != 0 {
            let root = match self.iget(1) {
                Some(h) => h,
                None => {
                    return Err(DirError::Fs(FsError::Disk));
                },
            };
            if inode >= self.inodes.len() || self.inodes[inode].i_ino == self.inodes[root].i_ino {
                return Err(DirError::IsRoot);
            }
            let ghost c0 = *self;
            let _ = self.chdir(ROOT as i32, filename);
            if self.dir.size > 2 {
                let _ = self.chdir(ROOT as i32, "..");
                return Err(DirError::NotEmpty);
            }
            let ghost c1 = *self;
            let _ = self.chdir(ROOT as i32, "..");
            proof {
                let cc = old(self).cur_path_inode;
                assert(c0.cur_path_inode == cc && c0.dir == old(self).dir);
                assert(self.cur_path_inode == cc ==> self.dir.size == old(self).dir.size) by {
                    if self.cur_path_inode == cc {
                        if c1.cur_path_inode != cc {
                            assert(c1.inodes@[cc as int].di_size == old(self).dir.size * 16);
                            assert(self.inodes@[cc as int].di_size == c1.inodes@[cc as int].di_size);
                        }
                    }
                }
                back = self.cur_path_inode == cc;
            }
            if inode >= self.inodes.len() {
                return Err(DirError::Fs(FsError::Corrupt));
            }
        }
        let size = self.dir.size;
        let cur = self.cur_path_inode;
        proof {
            assert(back ==> size == old(self).dir.size && cur == old(self).cur_path_inode);
        }
        if size < 1 || self.inodes[cur].di_size < 16 {
            return Err(DirError::Fs(FsError::Corrupt));
        }
        let ghost od = self.dir;
        let ghost pre = *self;
        let mut t: i32 = 0;
        let mut i: i32 = 0;
        while i < size
            invariant
                0 <= i <= size,
                size == self.dir.size,
                size <= DIRNUM,
                self.dir == od,
                *self == pre,
                forall|k: int| 0 <= k < i ==> (#[trigger] self.dir.direct@[k]).d_ino != dinodeid as u16,
            ensures
                first_with_ino(od.direct@, size as int, dinodeid as u16) == if i < size { i as int } else { 0 },
            decreases size - i,
        {
            if self.dir.direct[i as usize].d_ino == dinodeid as u16 {
                proof {
                    lemma_first_with_ino(od.direct@, size as int, dinodeid as u16, i as int);
                }
                break;
            }
            i = i + 1;
        }
        proof {
            if i >= size {
                lemma_first_with_ino(od.direct@, size as int, dinodeid as u16, size as int);
            }
        }
        if i < size {
            t = i;
        }
        let mut k: i32 = t + 1;
        while k < size
            invariant
                0 <= t < size,
                t + 1 <= k <= size,
                size == od.size,
                size <= DIRNUM,
                self.dir.size == size,
                self.same_but_dir(&pre),
                cur == pre.cur_path_inode,
                pre.wf(),
                cur < pre.inodes@.len(),
                pre.inodes@[cur as int].di_size >= 16,
                forall|m: int| 0 <= m < DIRNUM && !(t <= m < k - 1) ==> #[trigger] self.dir.direct@[m] == od.direct@[m],
                forall|m: int| t <= m < k - 1 ==> #[trigger] self.dir.direct@[m] == od.direct@[m + 1],
            decreases size - k,
        {
            let e = self.dir.direct[k as usize];
            self.dir.direct[(k - 1) as usize] = e;
            k = k + 1;
        }
        let last = (size - 1) as usize;
        self.dir.direct[last].d_ino = 0;
        self.dir.size = size - 1;
        proof {
            assert(self.dir.direct@ =~= removed_entry(od.direct@, size as int, t as int));
        }
        let mut c = self.inodes[cur];
        c.di_size = c.di_size - 16;
        self.inodes.set(cur, c);
        if inode >= self.inodes.len() {
            return Err(DirError::Fs(FsError::Corrupt));
        }
        let mut m = self.inodes[inode];
        m.di_number = if m.di_number > 0 { m.di_number - 1 } else { 0 };
        self.inodes.set(inode, m);
        match self.iput(inode) {
            Ok(()) => {},
            Err(e) => {
                return Err(DirError::Fs(e));
            },
        }
        Ok(())
    }

    /// Lists the entries in use of the current directory: name, whether it
    /// is a directory, permission characters, size and blocks of each.
    /// An entry whose inode cannot be read is left out.
    pub fn _dir(&mut self) -> (r: Vec<DirListing>)
        requires
            old(self).wf(),
        ensures
            final(self).wf(),
            final(self).dir == old(self).dir,
            final(self).user == old(self).user,
            final(self).user_id == old(self).user_id,
            final(self).sys_ofile == old(self).sys_ofile,
            r@.len() <= old(self).dir.size,
            forall|k: int| 0 <= k < r@.len() ==> (#[trigger] r@[k]).blocks@.len() <= NADDR,
            forall|k: int| 0 <= k < r@.len() ==> listing_of_entry(#[trigger] r@[k], old(self).dir.direct@, old(self).dir.size as int),
            old(self).dir_owed() ==> r@.len() == in_use_entries(old(self).dir.direct@, old(self).dir.size as int).len(),
            old(self).dir_owed() ==> forall|k: int|
                0 <= k < r@.len() ==> (#[trigger] r@[k]).name == in_use_entries(
                    old(self).dir.direct@,
                    old(self).dir.size as int,
                )[k].d_name,
            old(self).dir_owed() ==> forall|k: int, hh: InodeRef|
                0 <= k < r@.len() && old(self).sole_in_use(
                    in_use_entries(old(self).dir.direct@, old(self).dir.size as int)[k].d_ino as u32,
                    hh,
                ) ==> listing_shows(#[trigger] r@[k], #[trigger] old(self).inodes@[hh as int]),
    {
        let mut out: Vec<DirListing> = Vec::new();
        let size = self.dir.size;
        let mut i: i32 = 0;
        while i < size
            invariant
                self.wf(),
                self.dir == old(self).dir,
                self.user == old(self).user,
                self.user_id == old(self).user_id,
                self.sys_ofile == old(self).sys_ofile,
                size == old(self).dir.size,
                0 <= i <= size || size < 0,
                out@.len() <= i,
                forall|k: int| 0 <= k < out@.len() ==> (#[trigger] out@[k]).blocks@.len() <= NADDR,
                forall|k: int| 0 <= k < out@.len() ==> listing_of_entry(#[trigger] out@[k], old(self).dir.direct@, size as int),
                self.room() >= old(self).room() - 2 * i,
                self.buffer_pool_manager.disk_view().len() >= old(self).buffer_pool_manager.disk_view().len(),
                old(self).dir_owed() ==> out@.len() == in_use_entries(old(self).dir.direct@, i as int).len(),
                old(self).dir_owed() ==> forall|k: int|
                    0 <= k < out@.len() ==> (#[trigger] out@[k]).name == in_use_entries(old(self).dir.direct@, i as int)[k].d_name,
                forall|ino: u32, hh: InodeRef| #[trigger] old(self).sole_in_use(ino, hh) ==> self.sole_in_use(ino, hh) && self.inodes@[hh as int]
                    == old(self).inodes@[hh as int],
                old(self).dir_owed() ==> forall|k: int, hh: InodeRef|
                    0 <= k < out@.len() && old(self).sole_in_use(in_use_entries(old(self).dir.direct@, i as int)[k].d_ino as u32, hh)
                        ==> listing_shows(#[trigger] out@[k], #[trigger] old(self).inodes@[hh as int]),
            decreases size - i,
        {
            let ghost pre = *self;
            let ghost before = out@;
            let e = self.dir.direct[i as usize];
            proof {
                if old(self).dir_owed() && e.d_ino != 0 {
                    assert(old(self).dir.direct@[i as int] == e);
                    assert(self.room() >= 2);
                    assert(self.can_read(2 + e.d_ino as u32 / 16));
                }
            }
            if e.d_ino != 0 {
                let ghost x = e.d_ino as u32;
                proof {
                    assert forall|ino: u32, hh: InodeRef| #[trigger] pre.sole_in_use(ino, hh) && ino == x implies pre.cached_at(
                        ino,
                        first_index(pre.bucket((ino % 128) as int), hh),
                    ) && pre.bucket((ino % 128) as int)[first_index(pre.bucket((ino % 128) as int), hh)] == hh by {
                        lemma_first_index_props(pre.bucket((ino % 128) as int), hh);
                    }
                }
                let r_get = self.iget(e.d_ino as u32);
                let ghost mid = *self;
                if let Some(h) = r_get {
                    let n = self.inodes[h];
                    let nb: u32 = n.di_size / 512 + if n.di_size % 512 != 0 { 1 } else { 0 };
                    let mut blocks: Vec<u16> = Vec::new();
                    let mut j: usize = 0;
                    while j < nb as usize && j < NADDR
                        invariant
                            j <= NADDR,
                            j <= nb || j == 0,
                            blocks@ == n.di_addr@.subrange(0, j as int),
                        decreases NADDR - j,
                    {
                        blocks.push(n.di_addr[j]);
                        j = j + 1;
                        proof {
                            assert(blocks@ =~= n.di_addr@.subrange(0, j as int));
                        }
                    }
                    proof {
                        assert(nb == blocks_of_size(n.di_size as int));
                        assert(j == vstd::math::min(blocks_of_size(n.di_size as int), NADDR as int));
                    }
                    let item = DirListing {
                        name: e.d_name,
                        is_dir: n.di_mode & DIDIR != 0,
                        perms: perm_string(n.di_mode),
                        size: n.di_size,
                        blocks,
                    };
                    proof {
                        assert(old(self).dir.direct@[i as int] == e);
                        assert(listing_mode(item, n.di_mode));
                        assert(listing_of_entry(item, old(self).dir.direct@, size as int));
                    }
                    out.push(item);
                    let _ = self.iput(h);
                    proof {
                        assert forall|ino: u32, hh: InodeRef| #[trigger] old(self).sole_in_use(ino, hh) implies self.sole_in_use(ino, hh)
                            && self.inodes@[hh as int] == old(self).inodes@[hh as int] by {
                            assert(pre.sole_in_use(ino, hh));
                            let b = (ino % 128) as int;
                            let bx = (x % 128) as int;
                            if ino == x {
                                let j = first_index(pre.bucket(b), hh);
                                assert(pre.cached_at(ino, j));
                                assert(h == hh);
                                assert(mid.inodes@[hh as int].i_count == pre.inodes@[hh as int].i_count + 1);
                                assert(self.inodes@ =~= pre.inodes@);
                                assert(self.hinode@ == pre.hinode@);
                            } else {
                                assert(h != hh);
                                let sp = pre.bucket(b);
                                let sm = mid.bucket(b);
                                assert(mid.inodes@[hh as int] == pre.inodes@[hh as int]);
                                assert(mid.sole_in_use(ino, hh)) by {
                                    if b == bx && h == pre.inodes@.len() {
                                        assert(sm == sp.push(h));
                                        assert(sm[sp.len() as int] == h);
                                        assert forall|k: int| 0 <= k < sm.len() && sm[k] != hh implies mid.inodes@[#[trigger] sm[k] as int].i_ino
                                            != ino by {
                                            if k < sp.len() {
                                                assert(sm[k] == sp[k]);
                                                assert(pre.inodes@[sp[k] as int].i_ino != ino);
                                                assert(sp[k] < pre.inodes@.len());
                                                assert(mid.inodes@[sp[k] as int] == pre.inodes@[sp[k] as int]);
                                            }
                                        }
                                        assert(sp.contains(hh));
                                        let p = choose|p: int| 0 <= p < sp.len() && sp[p] == hh;
                                        assert(sm[p] == hh);
                                    } else {
                                        assert(sm == sp);
                                        assert forall|k: int| 0 <= k < sm.len() && sm[k] != hh implies mid.inodes@[#[trigger] sm[k] as int].i_ino
                                            != ino by {
                                            assert(pre.inodes@[sp[k] as int].i_ino != ino);
                                            assert(sp[k] < pre.inodes@.len());
                                        }
                                    }
                                }
                                let sq = self.bucket(b);
                                if mid.inodes@[h as int].i_count > 1 {
                                    assert(self.hinode@ == mid.hinode@);
                                } else {
                                    assert(self.inodes@ == mid.inodes@);
                                    if b == bx && sq != sm {
                                        assert(sq == removed_first(sm, h));
                                        lemma_removed_first_keeps(sm, h, hh);
                                        assert forall|k: int| 0 <= k < sq.len() && sq[k] != hh implies self.inodes@[#[trigger] sq[k] as int].i_ino
                                            != ino by {
                                            assert(sm.contains(sq[k]));
                                            let k2 = choose|k2: int| 0 <= k2 < sm.len() && sm[k2] == sq[k];
                                            assert(mid.inodes@[sm[k2] as int].i_ino != ino);
                                        }
                                    }
                                }
                            }
                        }
                        assert forall|ino: u32, hh: InodeRef| pre.sole_in_use(ino, hh) && ino == x implies listing_shows(
                            item,
                            pre.inodes@[hh as int],
                        ) by {
                            let j = first_index(pre.bucket((ino % 128) as int), hh);
                            assert(pre.cached_at(ino, j));
                            assert(h == hh);
                            assert(n == Inode { i_count: n.i_count, ..pre.inodes@[hh as int] });
                        }
                    }
                } else {
                    proof {
                        assert forall|ino: u32, hh: InodeRef| #[trigger] old(self).sole_in_use(ino, hh) implies self.sole_in_use(ino, hh)
                            && self.inodes@[hh as int] == old(self).inodes@[hh as int] by {
                            assert(pre.sole_in_use(ino, hh));
                        }
                    }
                }
            }
            proof {
                assert(old(self).dir.direct@[i as int] == e);
                if old(self).dir_owed() {
                    let s1 = in_use_entries(old(self).dir.direct@, i as int + 1);
                    if e.d_ino != 0 {
                        assert(out@ == before.push(out@.last()));
                        assert(forall|k: int| 0 <= k < out@.len() ==> (#[trigger] out@[k]).name == s1[k].d_name);
                    } else {
                        assert(out@ == before);
                    }
                }
            }
            i = i + 1;
        }
        out
    }
}

impl FileSystem {
    /// Whether listing the current directory reads every entry's inode: the
    /// pool has room for two fetches per entry and the inode block of each
    /// entry in use is on the disk.
    pub open spec fn dir_owed(&self) -> bool {
        &&& self.room() >= 2 * self.dir.size
        &&& forall|i: int|
            0 <= i < self.dir.size && (#[trigger] self.dir.direct@[i]).d_ino != 0 ==> self.can_read(
                2 + self.dir.direct@[i].d_ino / 16,
            )
    }

    /// Whether `self` and `o` agree on everything but the directory table.
    pub open spec fn same_but_dir(&self, o: &Self) -> bool {
        &&& self.buffer_pool_manager == o.buffer_pool_manager
        &&& self.hinode@ == o.hinode@
        &&& self.inodes@ == o.inodes@
        &&& self.sys_ofile == o.sys_ofile
        &&& self.filsys == o.filsys
        &&& self.pwd == o.pwd
        &&& self.user == o.user
        &&& self.cur_path_inode == o.cur_path_inode
        &&& self.user_id == o.user_id
        &&& self.cpcache@ == o.cpcache@
    }
}

/// The permission characters of `mode`: for bit `j` (0 to 8), `r`, `w` or
/// `x` as `j % 3` is 0, 1 or 2 when the bit is set, else `-`.
pub fn perm_string(mode: u16) -> (r: [u8; 9])
    ensures
        forall|j: int| 0 <= j < 9 ==> #[trigger] r@[j] == perm_char(mode, j),
{
    let mut r: [u8; 9] = [45u8; 9];
    let mut m: u16 = mode;
    let mut j: usize = 0;
    while j < 9
        invariant
            j <= 9,
            m as int == mode as int / pow2_small(j as int),
            forall|k: int| 0 <= k < j ==> #[trigger] r@[k] == perm_char(mode, k),
            forall|k: int| j <= k < 9 ==> #[trigger] r@[k] == 45u8,
        decreases 9 - j,
    {
        proof {
            assert(pow2_small(j as int + 1) == 2 * pow2_small(j as int));
            assert(pow2_small(j as int) > 0) by {
                lemma_pow2_small_pos(j as int);
            }
            vstd::arithmetic::div_mod::lemma_div_denominator(mode as int, pow2_small(j as int), 2);
        }
        let one = m % 2;
        if one != 0 {
            r[j] = if j % 3 == 0 {
                114u8
            } else if j % 3 == 1 {
                119u8
            } else {
                120u8
            };
        }
        m = m / 2;
        j = j + 1;
    }
    r
}

/// `pow2_small` is positive.
pub proof fn lemma_pow2_small_pos(j: int)
    ensures
        pow2_small(j) > 0,
    decreases j,
{
    if j > 0 {
        lemma_pow2_small_pos(j - 1);
    }
}

/// Index of the first of the `size` entries with inode number `ino`, or 0
/// when there is none.
pub open spec fn first_with_ino(entries: Seq<DirEntry>, size: int, ino: u16) -> int {
    if exists|i: int| 0 <= i < size && #[trigger] entries[i].d_ino == ino && forall|k: int| 0 <= k < i ==> (#[trigger] entries[k]).d_ino != ino {
        choose|i: int| 0 <= i < size && #[trigger] entries[i].d_ino == ino && forall|k: int| 0 <= k < i ==> (#[trigger] entries[k]).d_ino != ino
    } else {
        0
    }
}

/// `first_with_ino` is `i` when entry `i` is the first with the number,
/// and 0 when none of the first `i == size` entries has it.
pub proof fn lemma_first_with_ino(entries: Seq<DirEntry>, size: int, ino: u16, i: int)
    requires
        0 <= i <= size,
        forall|k: int| 0 <= k < i ==> (#[trigger] entries[k]).d_ino != ino,
        i < size ==> entries[i].d_ino == ino,
    ensures
        first_with_ino(entries, size, ino) == if i < size { i } else { 0 },
{
    if i < size {
        let c = choose|c: int| 0 <= c < size && #[trigger] entries[c].d_ino == ino && forall|k: int| 0 <= k < c ==> (#[trigger] entries[k]).d_ino != ino;
        assert(0 <= i < size && entries[i].d_ino == ino && forall|k: int| 0 <= k < i ==> (#[trigger] entries[k]).d_ino != ino);
        if c < i {
            assert(entries[c].d_ino != ino);
        } else if c > i {
            assert(entries[i].d_ino != ino);
        }
    } else {
        assert(!exists|c: int| 0 <= c < size && #[trigger] entries[c].d_ino == ino && forall|k: int| 0 <= k < c ==> (#[trigger] entries[k]).d_ino != ino);
    }
}

/// The table after entry `t` of the first `size` entries is removed: the
/// entries after it move down one place and the last of them keeps its
/// name with inode number 0.
pub open spec fn removed_entry(entries: Seq<DirEntry>, size: int, t: int) -> Seq<DirEntry> {
    Seq::new(
        entries.len(),
        |m: int|
            if t <= m < size - 1 {
                entries[m + 1]
            } else if m == size - 1 {
                DirEntry { d_ino: 0, ..entries[m] }
            } else {
                entries[m]
            },
    )
}


} // verus!
