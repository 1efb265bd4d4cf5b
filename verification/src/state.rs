//! The file system state: the buffer pool over the disk, the in-memory inode
//! cache, the current directory, the open-file and user tables, the super
//! block and the password table.

use crate::bufferpool::{BufferPoolManager, Page};
use crate::dir_op::block_entries;
use crate::disk::{block_of, block_readable, BlockStore};
use crate::inode::{blocks_of_size, dinode_of, dinode_offset, FsError};
use crate::layout::{direntry_fields_at, le16, le32, password_fields_at, DIRENTSIZ, read_password_at, read_superblock, superblock_fields, PWDENTSIZ};
use crate::types::{
    BLOCKSIZ, DIRNUM, DirEntry, NADDR, Directory, Inode, InodeRef, NHINO, PWDNUM, Password, SYSOPENFILE, SuperBlock, USERNUM,
    User, file,
};
use vstd::prelude::*;

verus! {

/// Frames in the file system's buffer pool.
pub const POOL_FRAMES: usize = 1000;

/// The `k` of the buffer pool's LRU-K replacer.
pub const POOL_K: usize = 5;

/// The file system.
///
/// In-memory inodes live in the arena `inodes`; an `InodeRef` is an index
/// into it. Slot 0 holds a blank inode that refers to no disk inode. The
/// cache `hinode` holds, per bucket `ino % NHINO`, the handles of the cached
/// inodes.
pub struct FileSystem {
    /// The buffer pool over the disk.
    pub buffer_pool_manager: BufferPoolManager,
    /// Cache buckets of in-memory inode handles.
    pub hinode: Vec<Vec<InodeRef>>,
    /// The in-memory inodes.
    pub inodes: Vec<Inode>,
    /// The current directory.
    pub dir: Directory,
    /// The system open-file table.
    pub sys_ofile: [file; SYSOPENFILE],
    /// The super block.
    pub filsys: SuperBlock,
    /// The password table.
    pub pwd: [Password; PWDNUM],
    /// The user table.
    pub user: [User; USERNUM],
    /// The inode of the current directory.
    pub cur_path_inode: InodeRef,
    /// The logged-in user's table index, or -1.
    pub user_id: i32,
    /// Copy buffer.
    pub cpcache: Vec<u8>,
}

/// The size recorded in the root directory's disk inode (inode 1, the
/// second inode of block 2) on `d`.
pub open spec fn root_dinode_size(d: Seq<u8>) -> int {
    let b = block_of(d, 2);
    le32(b[40], b[41], b[42], b[43])
}

/// Data block `i` of the root directory as recorded in its disk inode on `d`.
pub open spec fn root_dinode_addr(d: Seq<u8>, i: int) -> int {
    let b = block_of(d, 2);
    le16(b[44 + 2 * i], b[45 + 2 * i])
}

/// Whether mounting `d` has everything it reads: the password block, the
/// super block and the inode block are on the disk, the root directory's
/// table fits in memory, and each of its blocks that is read is on the disk.
pub open spec fn install_owed(d: Seq<u8>) -> bool {
    &&& block_readable(d, 36)
    &&& block_readable(d, 1)
    &&& block_readable(d, 2)
    &&& root_dinode_size(d) / 16 <= DIRNUM
    &&& forall|b: int|
        0 <= b < 4 && b < blocks_of_size(root_dinode_size(d)) ==> block_readable(d, 34 + #[trigger] root_dinode_addr(d, b))
}

/// Whether the root directory's blocks read at mount are distinct blocks.
pub open spec fn root_blocks_distinct(d: Seq<u8>) -> bool {
    forall|i: int, j: int|
        0 <= i < j < 4 && j < blocks_of_size(root_dinode_size(d)) ==> #[trigger] root_dinode_addr(d, i)
            != #[trigger] root_dinode_addr(d, j)
}

impl FileSystem {
    /// Well-formedness: the buffer pool is well formed, the cache has its
    /// buckets, every handle in use points into the inode arena, and the
    /// current directory's size is within its table.
    pub open spec fn wf(&self) -> bool {
        &&& self.buffer_pool_manager.wf()
        &&& self.inodes@.len() >= 1
        &&& self.hinode@.len() == NHINO
        &&& forall|b: int, j: int|
            0 <= b < NHINO && 0 <= j < self.hinode@[b]@.len() ==> #[trigger] self.hinode@[b]@[j] < self.inodes@.len()
        &&& self.cur_path_inode < self.inodes@.len()
        &&& forall|i: int| 0 <= i < SYSOPENFILE ==> #[trigger] self.sys_ofile@[i].f_inode < self.inodes@.len()
        &&& 0 <= self.dir.size <= DIRNUM
    }

    /// Whether `o` and `self` agree on the directory, the open-file, user and
    /// password tables, the current directory, the user and the copy buffer.
    pub open spec fn others_same(&self, o: &Self) -> bool {
        &&& self.dir == o.dir
        &&& self.sys_ofile == o.sys_ofile
        &&& self.pwd == o.pwd
        &&& self.user == o.user
        &&& self.cur_path_inode == o.cur_path_inode
        &&& self.user_id == o.user_id
        &&& self.cpcache@ == o.cpcache@
    }

    /// How many more disk blocks the buffer pool can fetch without evicting.
    pub open spec fn room(&self) -> int {
        self.buffer_pool_manager.fetch_room()
    }

    /// Whether block `pid` can be fetched from the disk: its number fits a
    /// page id and the disk holds the whole block.
    pub open spec fn can_read(&self, pid: int) -> bool {
        0 <= pid <= i32::MAX && block_readable(self.buffer_pool_manager.disk_view(), pid)
    }

    /// Whether going from `o` to `self` used at most `k` fetches of the
    /// buffer pool and kept the disk as long.
    pub open spec fn spent(&self, o: &Self, k: int) -> bool {
        &&& self.room() >= o.room() - k
        &&& self.buffer_pool_manager.disk_view().len() >= o.buffer_pool_manager.disk_view().len()
    }

    /// Whether `o` and `self` agree on every field but the buffer pool.
    pub open spec fn same_but_pool(&self, o: &Self) -> bool {
        &&& self.hinode@ == o.hinode@
        &&& self.inodes@ == o.inodes@
        &&& self.dir == o.dir
        &&& self.sys_ofile == o.sys_ofile
        &&& self.filsys == o.filsys
        &&& self.pwd == o.pwd
        &&& self.user == o.user
        &&& self.cur_path_inode == o.cur_path_inode
        &&& self.user_id == o.user_id
        &&& self.cpcache@ == o.cpcache@
    }

    /// A file system over `disk` with every table empty: a pool of
    /// `POOL_FRAMES` frames with an LRU-`POOL_K` replacer, empty cache
    /// buckets, a zeroed super block, password and user tables, and the
    /// blank inode as the current directory.
    pub fn new_empty(disk: BlockStore) -> (fs: Self)
        ensures
            fs.wf(),
            fs.buffer_pool_manager.disk_view() == disk@,
            fs.inodes@ == seq![Inode::spec_zero()],
            fs.cur_path_inode == 0,
            fs.user_id == 0,
            fs.filsys == SuperBlock::spec_zero(),
            fs.dir.size == 0,
            forall|b: int| 0 <= b < NHINO ==> (#[trigger] fs.hinode@[b])@.len() == 0,
            forall|i: int| 0 <= i < SYSOPENFILE ==> (#[trigger] fs.sys_ofile@[i]).f_count == 0,
            forall|i: int| 0 <= i < USERNUM ==> (#[trigger] fs.user@[i]).u_uid == 0,
            fs.room() == POOL_FRAMES,
            forall|pid: i32| #[trigger] fs.buffer_pool_manager.table_lookup(pid) is None,
            forall|pid: i32| !#[trigger] fs.buffer_pool_manager.holds_entry(pid),
    {
        let buffer_pool_manager = BufferPoolManager::new(POOL_FRAMES, POOL_K, disk);
        let mut hinode: Vec<Vec<InodeRef>> = Vec::new();
        let mut b: usize = 0;
        while b < NHINO
            invariant
                b <= NHINO,
                hinode@.len() == b,
                forall|i: int| 0 <= i < b ==> (#[trigger] hinode@[i])@.len() == 0,
            decreases NHINO - b,
        {
            hinode.push(Vec::new());
            b = b + 1;
        }
        let mut inodes: Vec<Inode> = Vec::new();
        inodes.push(Inode::default());
        let f = file::default();
        let sys_ofile: [file; SYSOPENFILE] = [f; 40];
        let p = Password::default();
        let pwd: [Password; PWDNUM] = [p; 18];
        let u = User::default();
        let user: [User; USERNUM] = [u; 10];
        let fs = FileSystem {
            buffer_pool_manager,
            hinode,
            inodes,
            dir: Directory::default(),
            sys_ofile,
            filsys: SuperBlock::default(),
            pwd,
            user,
            cur_path_inode: 0,
            user_id: 0,
            cpcache: Vec::with_capacity(BLOCKSIZ),
        };
        proof {
            assert(fs.inodes@ =~= seq![Inode::spec_zero()]);
            assert(fs.buffer_pool_manager.free_frames().len() == POOL_FRAMES);
        }
        fs
    }

    /// The frame holding disk block `block_id`, or `None` when the buffer pool
    /// cannot provide it.
    pub fn fetch_block(&mut self, block_id: u64) -> (r: Option<usize>)
        requires
            old(self).wf(),
        ensures
            final(self).wf(),
            final(self).same_but_pool(old(self)),
            r matches Some(f) ==> f < final(self).buffer_pool_manager.spec_pool_size(),
            final(self).buffer_pool_manager.spec_pool_size() == old(self).buffer_pool_manager.spec_pool_size(),
            final(self).buffer_pool_manager.spec_pool_size() <= i32::MAX,
            final(self).buffer_pool_manager.pages_view().len() == final(self).buffer_pool_manager.spec_pool_size(),
            forall|i: int| 0 <= i < final(self).buffer_pool_manager.spec_pool_size() ==> (#[trigger] final(self).buffer_pool_manager.pages_view()[i]).len() == 512,
            final(self).spent(old(self), 1),
            old(self).buffer_pool_manager.consistent() && old(self).room() >= 1 ==> final(self).buffer_pool_manager.consistent()
                && final(self).buffer_pool_manager.frames_kept_but(&old(self).buffer_pool_manager, (block_id) as i32),
            old(self).buffer_pool_manager.consistent() && old(self).room() >= 1 ==> (r matches Some(f)
                ==> final(self).buffer_pool_manager.frame_page(f as int) == block_id),
            forall|p: i32| #[trigger] final(self).buffer_pool_manager.holds_entry(p) ==> old(self).buffer_pool_manager.holds_entry(p)
                || p as int == block_id as int,
            old(self).room() >= 1 ==> final(self).buffer_pool_manager.disk_view() == old(self).buffer_pool_manager.disk_view(),
            old(self).room() >= 1 && old(self).can_read(block_id as int) ==> r is Some,
            old(self).room() >= 1 && old(self).can_read(block_id as int) && old(self).buffer_pool_manager.table_lookup(
                block_id as i32,
            ) is None ==> (r matches Some(f) && final(self).buffer_pool_manager.pages_view()[f as int] == block_of(
                old(self).buffer_pool_manager.disk_view(),
                block_id as int,
            )),
    {
        proof {
            self.buffer_pool_manager.lemma_frames();
        }
        if block_id > 0x7fff_ffff {
            return None;
        }
        let r = match self.buffer_pool_manager.fetch_pg(block_id as i32) {
            Ok(Some(f)) => Some(f as usize),
            _ => None,
        };
        proof {
            self.buffer_pool_manager.lemma_frames();
        }
        r
    }

    /// The contents of frame `f`.
    pub fn frame_bytes(&self, f: usize) -> (p: Page)
        requires
            self.wf(),
            f < self.buffer_pool_manager.spec_pool_size(),
        ensures
            p@ == self.buffer_pool_manager.pages_view()[f as int],
    {
        let pages = self.buffer_pool_manager.get_pages();
        pages[f]
    }

    /// Mounts the file system on `disk`: reads the password table from data
    /// block 2 and the super block from block 1, takes the root directory's
    /// inode (inode 1) as the current directory, reads its table from its
    /// blocks (entries beyond its size holding blank names), and releases
    /// the inode again.
    pub fn install(disk: BlockStore) -> (r: Result<FileSystem, FsError>)
        ensures
            !block_readable(disk@, 36) || !block_readable(disk@, 1) ==> r is Err,
            install_owed(disk@) ==> r is Ok,
            install_owed(disk@) && root_blocks_distinct(disk@) ==> (r matches Ok(fs) && forall|b: int|
                0 <= b < 4 && b < blocks_of_size(root_dinode_size(disk@)) ==> #[trigger] block_entries(
                    fs.dir.direct@,
                    32 * b,
                    block_of(disk@, 34 + root_dinode_addr(disk@, b)),
                )),
            r matches Ok(fs) ==> {
                &&& fs.wf()
                &&& forall|i: int| 0 <= i < PWDNUM ==> #[trigger] password_fields_at(fs.pwd@[i], block_of(disk@, 36), PWDENTSIZ * i)
                &&& fs.inodes@[fs.cur_path_inode as int].di_number != 0 ==> superblock_fields(fs.filsys, block_of(disk@, 1))
                &&& fs.inodes@[fs.cur_path_inode as int].i_ino == 1
                &&& fs.dir.size == fs.inodes@[fs.cur_path_inode as int].di_size / 16
                &&& fs.user_id == 0
            },
    {
        let mut pwd_buf: [u8; BLOCKSIZ] = [0u8; 512];
        match disk.read_block(36, &mut pwd_buf) {
            Ok(()) => {},
            Err(_) => {
                return Err(FsError::Disk);
            },
        }
        let mut sb_buf: [u8; BLOCKSIZ] = [0u8; 512];
        match disk.read_block(1, &mut sb_buf) {
            Ok(()) => {},
            Err(_) => {
                return Err(FsError::Disk);
            },
        }
        let ghost d = disk@;
        let mut fs = FileSystem::new_empty(disk);
        let ghost fresh = fs;
        let mut i: usize = 0;
        while i < PWDNUM
            invariant
                fs.wf(),
                fs.buffer_pool_manager == fresh.buffer_pool_manager,
                fs.hinode@ == fresh.hinode@,
                fs.inodes@ == fresh.inodes@,
                fresh.buffer_pool_manager.disk_view() == d,
                fresh.room() == POOL_FRAMES,
                forall|bk: int| 0 <= bk < NHINO ==> (#[trigger] fresh.hinode@[bk])@.len() == 0,
                forall|pid: i32| #[trigger] fresh.buffer_pool_manager.table_lookup(pid) is None,
                forall|pid: i32| !#[trigger] fresh.buffer_pool_manager.holds_entry(pid),
                fs.user_id == 0,
                i <= PWDNUM,
                pwd_buf@ == block_of(d, 36),
                sb_buf@ == block_of(d, 1),
                forall|k: int| 0 <= k < i ==> #[trigger] password_fields_at(fs.pwd@[k], block_of(d, 36), PWDENTSIZ * k),
            decreases PWDNUM - i,
        {
            fs.pwd[i] = read_password_at(&pwd_buf, PWDENTSIZ * i);
            i = i + 1;
        }
        fs.filsys = read_superblock(&sb_buf);
        let ghost pwd = fs.pwd;
        let ghost sb = fs.filsys;
        let ghost fs0 = fs;
        proof {
            assert(fs.not_cached(1));
            assert(fs.can_read(2 + 1u32 / 16) == block_readable(d, 2));
        }
        let h = match fs.iget(1) {
            Some(h) => h,
            None => {
                return Err(FsError::Disk);
            },
        };
        fs.cur_path_inode = h;
        let n = fs.inodes[h];
        proof {
            if install_owed(d) {
                assert(dinode_offset(1) == 32);
                assert(n.di_size == root_dinode_size(d));
                assert forall|bb: int| 0 <= bb < NADDR implies #[trigger] n.di_addr@[bb] == root_dinode_addr(d, bb) by {
                    assert(dinode_of(n).di_addr@[bb] == n.di_addr@[bb]);
                }
            }
        }
        if n.di_size / 16 > DIRNUM as u32 {
            return Err(FsError::Corrupt);
        }
        let blank = DirEntry { d_name: [32u8; 14], d_ino: 0 };
        fs.dir = Directory { direct: [blank; 128], size: (n.di_size / 16) as i32 };
        let total: u32 = n.di_size / 512 + if n.di_size % 512 != 0 { 1 } else { 0 };
        assert(total == blocks_of_size(n.di_size as int));
        let mut b: usize = 0;
        while b < total as usize && b < 4
            invariant
                fs.wf(),
                fs.user_id == 0,
                fs.pwd == pwd,
                fs.filsys == sb,
                fs.cur_path_inode == h,
                fs.inodes@[h as int] == n,
                fs.dir.size == n.di_size / 16,
                n.i_ino == 1,
                b <= 4,
                b <= total,
                total == blocks_of_size(n.di_size as int),
                fs.room() >= POOL_FRAMES - 1 - b,
                d == disk@,
                fs.buffer_pool_manager.disk_view().len() >= d.len(),
                install_owed(d) ==> forall|bb: int|
                    0 <= bb < 4 && bb < total ==> block_readable(d, 34 + #[trigger] n.di_addr@[bb]),
                install_owed(d) ==> forall|bb: int| 0 <= bb < NADDR ==> #[trigger] n.di_addr@[bb] == root_dinode_addr(d, bb),
                install_owed(d) ==> fs.buffer_pool_manager.disk_view() == d,
                install_owed(d) ==> forall|p: i32| #[trigger]
                    fs.buffer_pool_manager.holds_entry(p) ==> p == 2 || exists|bb: int|
                        0 <= bb < b && p as int == 34 + #[trigger] n.di_addr@[bb],
                install_owed(d) ==> n.di_size == root_dinode_size(d),
                install_owed(d) && root_blocks_distinct(d) ==> forall|bb: int|
                    0 <= bb < b ==> #[trigger] block_entries(fs.dir.direct@, 32 * bb, block_of(d, 34 + n.di_addr@[bb])),
            decreases 4 - b,
        {
            proof {
                if install_owed(d) {
                    assert(block_readable(d, 34 + n.di_addr@[b as int]));
                    assert(fs.can_read(34 + n.di_addr[b as int]));
                }
            }
            let ghost before = fs;
            proof {
                if install_owed(d) && root_blocks_distinct(d) {
                    let pid = (34 + n.di_addr@[b as int]) as i32;
                    if fs.buffer_pool_manager.table_lookup(pid) is Some {
                        fs.buffer_pool_manager.lemma_lookup_held(pid);
                        assert(fs.buffer_pool_manager.holds_entry(pid));
                        let bb = choose|bb: int| 0 <= bb < b && pid as int == 34 + #[trigger] n.di_addr@[bb];
                        assert(n.di_addr@[bb] == root_dinode_addr(d, bb));
                        assert(n.di_addr@[b as int] == root_dinode_addr(d, b as int));
                        assert(root_dinode_addr(d, bb) != root_dinode_addr(d, b as int));
                    }
                }
            }
            if !fs.load_dir_block(n.di_addr[b], 32 * b) {
                return Err(FsError::Disk);
            }
            proof {
                if install_owed(d) && root_blocks_distinct(d) {
                    assert forall|bb: int| 0 <= bb < b + 1 implies #[trigger] block_entries(
                        fs.dir.direct@,
                        32 * bb,
                        block_of(d, 34 + n.di_addr@[bb]),
                    ) by {
                        if bb < b {
                            assert(block_entries(before.dir.direct@, 32 * bb, block_of(d, 34 + n.di_addr@[bb])));
                            let pg = block_of(d, 34 + n.di_addr@[bb]);
                            assert forall|m: int| 0 <= m < 32 && 32 * bb + m < DIRNUM implies #[trigger] direntry_fields_at(
                                fs.dir.direct@[32 * bb + m],
                                pg,
                                DIRENTSIZ * m,
                            ) by {
                                assert(fs.dir.direct@[32 * bb + m] == before.dir.direct@[32 * bb + m]);
                                assert(direntry_fields_at(before.dir.direct@[32 * bb + m], pg, DIRENTSIZ * m));
                            }
                        }
                    }
                }
            }
            b = b + 1;
        }
        proof {
            if install_owed(d) && root_blocks_distinct(d) {
                assert forall|bb: int| 0 <= bb < 4 && bb < blocks_of_size(root_dinode_size(d)) implies #[trigger] block_entries(
                    fs.dir.direct@,
                    32 * bb,
                    block_of(d, 34 + root_dinode_addr(d, bb)),
                ) by {
                    assert(n.di_addr@[bb] == root_dinode_addr(d, bb));
                    assert(block_entries(fs.dir.direct@, 32 * bb, block_of(d, 34 + n.di_addr@[bb])));
                }
            }
        }
        let ghost pre = fs.inodes@;
        let _ = fs.iput(h);
        proof {
            assert(fs.inodes@[h as int].i_ino == pre[h as int].i_ino);
            assert(fs.inodes@[h as int].di_size == pre[h as int].di_size);
            assert(fs.inodes@[h as int].di_number == pre[h as int].di_number);
        }
        Ok(fs)
    }
}

} // verus!
