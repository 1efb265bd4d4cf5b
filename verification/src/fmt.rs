//! Formatting a disk: empty inode area, the root directory with `etc`, the
//! password file with the root account, and the super block with the free
//! inode stack and the grouped free-block lists.

use crate::bufferpool::BufferPoolManager;
use crate::cli::copy_str_to_bytes_2;
use crate::inode::FsError;
use crate::layout::{le16, password_fields_at, put_u16, put_u32, superblock_bytes, superblock_fields, write_direntry_at, write_password_at, DIRENTSIZ, PWDENTSIZ};
use crate::log::flushed_from;
use crate::state::FileSystem;
use crate::types::{
    BLOCKSIZ, DIDIR, DIFILE, DINODEBLK, DIRSIZ, PWDSIZ, DirEntry, FILEBLK, Inode, InodeRef, NICFREE, NICINOD, PWDNUM, Password, ROOT,
    ROOTMODE, SuperBlock, SUPDATE,
};
use vstd::prelude::*;
use vstd::string::StringSliceAdditionalSpecFns;

verus! {

/// What data block `pid` (34, 35 or 36) of a freshly formatted disk starts
/// with: the root directory's entries `.`, `..`, `etc` (block 34), those of
/// `etc`, `.`, `..`, `password` (block 35), and the root account with name
/// and password `root` (block 36) followed by free password entries.
pub open spec fn formatted_page(pid: int, pg: Seq<u8>) -> bool {
    if pid == 34 {
        &&& FileSystem::entry_at(pg, 0, seq![46u8], 1)
        &&& FileSystem::entry_at(pg, 16, seq![46u8, 46u8], 1)
        &&& FileSystem::entry_at(pg, 32, seq![101u8, 116u8, 99u8], 2)
    } else if pid == 35 {
        &&& FileSystem::entry_at(pg, 0, seq![46u8], 2)
        &&& FileSystem::entry_at(pg, 16, seq![46u8, 46u8], 1)
        &&& FileSystem::entry_at(pg, 32, seq![112u8, 97u8, 115u8, 115u8, 119u8, 111u8, 114u8, 100u8], 3)
    } else {
        &&& le16(pg[0], pg[1]) == ROOT
        &&& le16(pg[2], pg[3]) == ROOT
        &&& forall|i: int|
            0 <= i < PWDSIZ ==> #[trigger] pg[4 + i] == copied_str(seq![114u8, 111u8, 111u8, 116u8], PWDSIZ as int)[i]
                && pg[16 + i] == copied_str(seq![114u8, 111u8, 111u8, 116u8], PWDSIZ as int)[i]
        &&& forall|m: int| 1 <= m < PWDNUM ==> #[trigger] free_password_at(pg, PWDENTSIZ * m)
    }
}

/// Whether the password entry at `off` of `pg` is a free one: user and
/// group id 0, and user name and password a single space, zero-filled.
pub open spec fn free_password_at(pg: Seq<u8>, off: int) -> bool {
    &&& le16(pg[off], pg[off + 1]) == 0
    &&& le16(pg[off + 2], pg[off + 3]) == 0
    &&& forall|j: int|
        0 <= j < PWDSIZ ==> #[trigger] pg[off + 4 + j] == copied_str(seq![32u8], PWDSIZ as int)[j] && pg[off + 16 + j]
            == copied_str(seq![32u8], PWDSIZ as int)[j]
}

/// A free password entry's user name starts with a space, so it is the
/// kind of entry that setting up an account claims; its user id is 0.
pub proof fn lemma_free_password_claimable(pg: Seq<u8>, off: int)
    requires
        free_password_at(pg, off),
    ensures
        pg[off + 4] == 32u8,
        pg[off + 16] == 32u8,
        forall|j: int| 1 <= j < PWDSIZ ==> #[trigger] pg[off + 4 + j] == 0u8,
        le16(pg[off], pg[off + 1]) == 0,
{
    assert(pg[off + 4 + 0] == copied_str(seq![32u8], PWDSIZ as int)[0]);
    assert(pg[off + 16 + 0] == copied_str(seq![32u8], PWDSIZ as int)[0]);
}

/// Whether some frame of `bpm` holds data block `pid` as a freshly
/// formatted disk has it.
pub open spec fn holds_formatted(bpm: &BufferPoolManager, pid: int) -> bool {
    exists|f: int|
        0 <= f < bpm.spec_pool_size() && bpm.frame_page(f) == pid && formatted_page(pid, #[trigger] bpm.pages_view()[f])
}

/// A frame holding a formatted block stays when other blocks are fetched.
proof fn lemma_formatted_kept(b: &BufferPoolManager, a: &BufferPoolManager, changed: i32, pid: int)
    requires
        b.frames_kept_but(a, changed),
        b.spec_pool_size() == a.spec_pool_size(),
        pid >= 0,
        pid != changed,
        holds_formatted(a, pid),
    ensures
        holds_formatted(b, pid),
{
    let f = choose|f: int| 0 <= f < a.spec_pool_size() && a.frame_page(f) == pid && formatted_page(pid, #[trigger] a.pages_view()[f]);
    assert(b.pages_view()[f] == a.pages_view()[f]);
}

/// A frame that block `pid` was written into whole holds it as written.
proof fn lemma_formatted_put(bpm: &BufferPoolManager, pid: int, data: Seq<u8>)
    requires
        bpm.wf(),
        data.len() == BLOCKSIZ,
        formatted_page(pid, data),
        exists|f: int|
            0 <= f < bpm.spec_pool_size() && bpm.frame_page(f) == pid && (#[trigger] bpm.pages_view()[f]).subrange(0, data.len() as int)
                == data,
    ensures
        holds_formatted(bpm, pid),
{
    let f = choose|f: int|
        0 <= f < bpm.spec_pool_size() && bpm.frame_page(f) == pid && (#[trigger] bpm.pages_view()[f]).subrange(0, data.len() as int) == data;
    bpm.lemma_frames();
    assert(bpm.pages_view()[f] =~= data);
}

/// The bytes of a string of ASCII characters are its characters.
proof fn lemma_ascii_bytes(s: &str)
    requires
        vstd::utf8::is_ascii_chars(s@),
    ensures
        s.spec_bytes().len() == s@.len(),
        forall|i: int| 0 <= i < s@.len() ==> #[trigger] s.spec_bytes()[i] == s@[i] as u8,
{
    vstd::utf8::is_ascii_chars_encode_utf8(s@);
}

/// `dest` after copying the bytes `src` into it: as many as fit, the rest
/// zero.
pub open spec fn copied_str(src: Seq<u8>, n: int) -> Seq<u8> {
    Seq::new(n as nat, |i: int| if i < src.len() { src[i] } else { 0u8 })
}

/// The super block of a freshly formatted disk: 32 inode blocks and 512
/// data blocks; inodes 4 to 53 on the free-inode stack, 508 free inodes
/// and the scan remembered from inode 54; 509 free blocks, of which data
/// blocks 13 down to 3 are on the free-block stack (11 of them), the
/// others being reached through the group leaders.
pub open spec fn formatted_superblock(sb: SuperBlock) -> bool {
    &&& sb.s_isize == DINODEBLK
    &&& sb.s_fsize == FILEBLK
    &&& sb.s_ninode == 508
    &&& sb.s_nfree == 509
    &&& forall|i: int| 0 <= i < NICINOD ==> #[trigger] sb.s_inode@[i] == 4 + i
    &&& sb.s_pinode == 0
    &&& sb.s_rinode == 54
    &&& sb.s_free@[0] == 11
    &&& forall|i: int| 1 <= i <= 11 ==> #[trigger] sb.s_free@[i] == 14 - i
    &&& forall|i: int| 12 <= i < NICFREE ==> #[trigger] sb.s_free@[i] == 0
    &&& sb.s_pfree == 11
    &&& sb.s_fmod == 0
}

impl FileSystem {
    /// Whether formatting is sure to succeed: the buffer pool has room for
    /// 600 fetches, the disk holds all 546 blocks, and addresses are 64 bits
    /// wide (so that every frame's page can be written back).
    pub open spec fn format_owed(&self) -> bool {
        &&& self.room() >= 600
        &&& self.buffer_pool_manager.disk_view().len() >= 546 * BLOCKSIZ
        &&& usize::MAX == 0xffff_ffff_ffff_ffff
    }
}

/// Whether `n` is in-memory inode `ino` with one link, mode `mode`, size
/// `size` and first block `addr0`.
pub open spec fn formatted_inode(n: Inode, ino: u32, mode: u16, size: u32, addr0: u16) -> bool {
    &&& n.i_ino == ino
    &&& n.di_number == 1
    &&& n.di_mode == mode
    &&& n.di_size == size
    &&& n.di_addr@[0] == addr0
}

impl FileSystem {
    /// Copies the bytes of `s` into `dest`, as many as fit, and zeroes the
    /// rest.
    pub fn copy_str_to_bytes<const N: usize>(&self, s: &str, dest: &mut [u8; N])
        ensures
            final(dest)@ == copied_str(s.spec_bytes(), N as int),
    {
        copy_str_to_bytes_2(s, dest);
    }

    /// Writes `data` into block `pid` of the disk through the buffer pool.
    pub(crate) fn put_block(&mut self, pid: u64, off: usize, data: &[u8]) -> (ok: bool)
        requires
            old(self).wf(),
            off + data@.len() <= BLOCKSIZ,
        ensures
            final(self).wf(),
            final(self).same_but_pool(old(self)),
            final(self).buffer_pool_manager.spec_pool_size() == old(self).buffer_pool_manager.spec_pool_size(),
            ok ==> exists|f: int|
                0 <= f < final(self).buffer_pool_manager.spec_pool_size()
                    && (#[trigger] final(self).buffer_pool_manager.pages_view()[f]).subrange(off as int, off + data@.len())
                    == data@,
            final(self).spent(old(self), 1),
            old(self).room() >= 1 && old(self).can_read(pid as int) ==> ok,
            old(self).buffer_pool_manager.consistent() && old(self).room() >= 1 ==> final(self).buffer_pool_manager.consistent()
                && final(self).buffer_pool_manager.frames_kept_but(&old(self).buffer_pool_manager, pid as i32),
            old(self).buffer_pool_manager.consistent() && old(self).room() >= 1 && ok ==> exists|f: int|
                0 <= f < final(self).buffer_pool_manager.spec_pool_size() && final(self).buffer_pool_manager.frame_page(f) == pid
                    && (#[trigger] final(self).buffer_pool_manager.pages_view()[f]).subrange(off as int, off + data@.len())
                    == data@,
    {
        let ghost o = self.buffer_pool_manager;
        let f = match self.fetch_block(pid) {
            Some(f) => f,
            None => {
                return false;
            },
        };
        let ghost mid = self.buffer_pool_manager;
        self.buffer_pool_manager.write_page(f as i32, off, data);
        proof {
            let pg = self.buffer_pool_manager.pages_view()[f as int];
            assert(pg.subrange(off as int, off + data@.len()) =~= data@);
            if o.consistent() && o.fetch_room() >= 1 {
                assert forall|g: int|
                    0 <= g < o.spec_pool_size() && o.frame_page(g) >= 0 && o.frame_page(g) != pid as i32 implies #[trigger] self.buffer_pool_manager.pages_view()[g]
                    == o.pages_view()[g] && self.buffer_pool_manager.frame_page(g) == o.frame_page(g) by {
                    assert(mid.pages_view()[g] == o.pages_view()[g]);
                    assert(g != f);
                }
            }
        }
        true
    }

    /// Sets up the in-memory inode `dinodeid` as a directory or file with
    /// one link, mode `mode`, size `size` and first block `addr0`, and
    /// releases it (which writes it to disk).
    fn format_inode(&mut self, dinodeid: u32, mode: u16, size: u32, addr0: u16) -> (r: Result<(), FsError>)
        requires
            old(self).wf(),
        ensures
            final(self).wf(),
            final(self).buffer_pool_manager.spec_pool_size() == old(self).buffer_pool_manager.spec_pool_size(),
            final(self).spent(old(self), 2),
            old(self).room() >= 2 && old(self).can_read(2 + dinodeid / 16) ==> r is Ok,
            old(self).buffer_pool_manager.consistent() && old(self).room() >= 2 ==> final(self).buffer_pool_manager.consistent()
                && final(self).buffer_pool_manager.frames_kept_but(&old(self).buffer_pool_manager, (2 + dinodeid / 16) as i32),
            r is Ok ==> exists|h: int|
                0 <= h < final(self).inodes@.len() && #[trigger] formatted_inode(
                    final(self).inodes@[h],
                    dinodeid,
                    mode,
                    size,
                    addr0,
                ),
    {
        let h: InodeRef = match self.iget(dinodeid) {
            Some(h) => h,
            None => {
                return Err(FsError::Disk);
            },
        };
        let ghost s1 = *self;
        let mut n = self.inodes[h];
        n.di_number = 1;
        n.di_mode = mode;
        n.di_size = size;
        n.di_addr[0] = addr0;
        self.inodes.set(h, n);
        let ghost before_put = self.inodes@;
        let r = self.iput(h);
        proof {
            if old(self).buffer_pool_manager.consistent() && old(self).room() >= 2 {
                let a = old(self).buffer_pool_manager;
                let pid = (2 + dinodeid / 16) as i32;
                assert(s1.buffer_pool_manager.frames_kept_but(&a, pid));
                assert forall|g: int|
                    0 <= g < a.spec_pool_size() && a.frame_page(g) >= 0 && a.frame_page(g) != pid implies #[trigger] self.buffer_pool_manager.pages_view()[g]
                    == a.pages_view()[g] && self.buffer_pool_manager.frame_page(g) == a.frame_page(g) by {
                    assert(s1.buffer_pool_manager.pages_view()[g] == a.pages_view()[g]);
                }
            }
            let fin = self.inodes@[h as int];
            assert(fin == Inode { i_count: fin.i_count, ..before_put[h as int] });
            assert(formatted_inode(fin, dinodeid, mode, size, addr0));
        }
        r
    }

    /// The 512 bytes of a directory block holding the three entries
    /// `(name0, ino0)`, `(name1, ino1)`, `(name2, ino2)` and zeroes.
    fn dir_block(&self, name0: &str, ino0: u16, name1: &str, ino1: u16, name2: &str, ino2: u16) -> (b: Vec<u8>)
        requires
            name0.spec_bytes().len() <= DIRSIZ,
            name1.spec_bytes().len() <= DIRSIZ,
            name2.spec_bytes().len() <= DIRSIZ,
        ensures
            b@.len() == BLOCKSIZ,
            FileSystem::entry_at(b@, 0, name0.spec_bytes(), ino0 as int),
            FileSystem::entry_at(b@, 16, name1.spec_bytes(), ino1 as int),
            FileSystem::entry_at(b@, 32, name2.spec_bytes(), ino2 as int),
    {
        let mut b: Vec<u8> = vec![0u8; BLOCKSIZ];
        let mut e = DirEntry::default();
        copy_str_to_bytes_2(name0, &mut e.d_name);
        e.d_ino = ino0;
        write_direntry_at(&mut b, 0, &e);
        let ghost b0 = b@;
        let ghost e0 = e;
        copy_str_to_bytes_2(name1, &mut e.d_name);
        e.d_ino = ino1;
        write_direntry_at(&mut b, DIRENTSIZ, &e);
        let ghost b1 = b@;
        let ghost e1 = e;
        copy_str_to_bytes_2(name2, &mut e.d_name);
        e.d_ino = ino2;
        write_direntry_at(&mut b, 2 * DIRENTSIZ, &e);
        proof {
            assert forall|i: int| 0 <= i < DIRSIZ implies #[trigger] b@[32 + i] == if i < name2.spec_bytes().len() {
                name2.spec_bytes()[i]
            } else {
                0u8
            } by {
                assert(b@[32 + i] == e.d_name@[i]);
            }
            assert forall|i: int| 0 <= i < DIRSIZ implies #[trigger] b@[0 + i] == if i < name0.spec_bytes().len() {
                name0.spec_bytes()[i]
            } else {
                0u8
            } by {
                assert(b@[i] == b1[i]);
                assert(b1[i] == b0[0 + i]);
                assert(b0[0 + i] == e0.d_name@[i]);
            }
            assert(b@[14] == b0[14] && b@[15] == b0[15]);
            assert forall|i: int| 0 <= i < DIRSIZ implies #[trigger] b@[16 + i] == if i < name1.spec_bytes().len() {
                name1.spec_bytes()[i]
            } else {
                0u8
            } by {
                assert(b@[16 + i] == b1[16 + i]);
                assert(b1[16 + i] == e1.d_name@[i]);
            }
            assert(b@[30] == b1[30] && b@[31] == b1[31]);
        }
        b
    }

    /// Formats the disk behind the buffer pool, whose blocks the caller has
    /// zeroed: marks every on-disk inode unused; releases inode 0; makes
    /// inode 1 the root directory (`.`, `..`, `etc` in data block 0), inode 2
    /// the `etc` directory (`.`, `..`, `password` in data block 1) and inode 3
    /// the password file (data block 2, the root account first); writes the
    /// free-block group leaders, makes the formatted super block the current
    /// one and writes it to block 1; and flushes the buffer pool.
    pub fn format(&mut self) -> (r: Result<(), FsError>)
        requires
            old(self).wf(),
        ensures
            final(self).wf(),
            r is Ok ==> formatted_superblock(final(self).filsys),
            r is Ok ==> exists|f: int|
                0 <= f < final(self).buffer_pool_manager.spec_pool_size() && superblock_fields(
                    final(self).filsys,
                    #[trigger] final(self).buffer_pool_manager.pages_view()[f],
                ),
            r is Ok ==> exists|d: Seq<u8>|
                final(self).buffer_pool_manager.disk_view() == #[trigger] flushed_from(d, &final(self).buffer_pool_manager),
            old(self).format_owed() ==> r is Ok,
            r is Ok && old(self).format_owed() && old(self).buffer_pool_manager.consistent() ==> {
                let bpm = final(self).buffer_pool_manager;
                &&& exists|f: int|
                    0 <= f < bpm.spec_pool_size() && bpm.frame_page(f) == 1 && superblock_fields(
                        final(self).filsys,
                        #[trigger] bpm.pages_view()[f],
                    )
                &&& holds_formatted(&bpm, 34)
                &&& holds_formatted(&bpm, 35)
                &&& holds_formatted(&bpm, 36)
            },
    {
        let ghost cf = old(self).format_owed() && old(self).buffer_pool_manager.consistent();
        // the inode area: every inode's mode becomes 0 (unused)
        let zero2: Vec<u8> = vec![0u8; 2];
        let mut i: u64 = 0;
        while i < DINODEBLK as u64
            invariant
                self.wf(),
                zero2@.len() == 2,
                i <= DINODEBLK,
                self.spent(old(self), 16 * i),
                cf == (old(self).format_owed() && old(self).buffer_pool_manager.consistent()),
                cf ==> self.buffer_pool_manager.consistent(),
            decreases DINODEBLK - i,
        {
            let mut j: usize = 0;
            while j < 16
                invariant
                    self.wf(),
                    zero2@.len() == 2,
                    i < DINODEBLK,
                    j <= 16,
                    self.spent(old(self), 16 * i + j),
                    cf == (old(self).format_owed() && old(self).buffer_pool_manager.consistent()),
                    cf ==> self.buffer_pool_manager.consistent(),
                decreases 16 - j,
            {
                if !self.put_block(2 + i, 32 * j + 2, zero2.as_slice()) {
                    return Err(FsError::Disk);
                }
                j = j + 1;
            }
            i = i + 1;
        }
        // the root account
        let mut passwd: Vec<Password> = Vec::new();
        let mut root = Password::default();
        root.p_uid = ROOT;
        root.p_gid = ROOT;
        self.copy_str_to_bytes("root", &mut root.username);
        self.copy_str_to_bytes("root", &mut root.password);
        proof {
            reveal_strlit("root");
            lemma_ascii_bytes("root");
            assert("root".spec_bytes() =~= seq![114u8, 111u8, 111u8, 116u8]);
        }
        passwd.push(root);
        // inode 0: unused
        let ghost b0 = self.buffer_pool_manager;
        let h0 = match self.iget(0) {
            Some(h) => h,
            None => {
                return Err(FsError::Disk);
            },
        };
        let mut n0 = self.inodes[h0];
        n0.di_mode = 0;
        self.inodes.set(h0, n0);
        let _ = self.iput(h0);
        proof {
            if cf {
                assert(self.buffer_pool_manager.consistent());
            }
        }
        // inode 1: the root directory in data block 0
        proof {
            reveal_strlit(".");
            reveal_strlit("..");
            reveal_strlit("etc");
            reveal_strlit("password");
            lemma_ascii_bytes(".");
            lemma_ascii_bytes("..");
            lemma_ascii_bytes("etc");
            lemma_ascii_bytes("password");
            assert(".".spec_bytes() =~= seq![46u8]);
            assert("..".spec_bytes() =~= seq![46u8, 46u8]);
            assert("etc".spec_bytes() =~= seq![101u8, 116u8, 99u8]);
            assert("password".spec_bytes() =~= seq![112u8, 97u8, 115u8, 115u8, 119u8, 111u8, 114u8, 100u8]);
        }
        let root_dir = self.dir_block(".", 1, "..", 1, "etc", 2);
        if !self.put_block(34, 0, root_dir.as_slice()) {
            return Err(FsError::Disk);
        }
        proof {
            if cf {
                assert(formatted_page(34, root_dir@));
                lemma_formatted_put(&self.buffer_pool_manager, 34, root_dir@);
            }
        }
        let ghost b1 = self.buffer_pool_manager;
        match self.format_inode(1, ROOTMODE | DIDIR, 48, 0) {
            Ok(()) => {},
            Err(e) => {
                return Err(e);
            },
        }
        proof {
            if cf {
                lemma_formatted_kept(&self.buffer_pool_manager, &b1, 2, 34);
            }
        }
        // inode 2: etc in data block 1
        let etc_dir = self.dir_block(".", 2, "..", 1, "password", 3);
        let ghost b2 = self.buffer_pool_manager;
        if !self.put_block(35, 0, etc_dir.as_slice()) {
            return Err(FsError::Disk);
        }
        proof {
            if cf {
                lemma_formatted_kept(&self.buffer_pool_manager, &b2, 35, 34);
                assert(formatted_page(35, etc_dir@));
                lemma_formatted_put(&self.buffer_pool_manager, 35, etc_dir@);
            }
        }
        let ghost b3 = self.buffer_pool_manager;
        match self.format_inode(2, ROOTMODE | DIDIR, 48, 1) {
            Ok(()) => {},
            Err(e) => {
                return Err(e);
            },
        }
        proof {
            if cf {
                lemma_formatted_kept(&self.buffer_pool_manager, &b3, 2, 34);
                lemma_formatted_kept(&self.buffer_pool_manager, &b3, 2, 35);
            }
        }
        // inode 3: the password file in data block 2
        proof {
            reveal_strlit(" ");
            lemma_ascii_bytes(" ");
            assert(" ".spec_bytes() =~= seq![32u8]);
        }
        let mut k: usize = 1;
        while k < PWDNUM
            invariant
                1 <= k <= PWDNUM,
                passwd@.len() == k,
                passwd@[0] == root,
                " ".spec_bytes() =~= seq![32u8],
                forall|m: int|
                    1 <= m < k ==> (#[trigger] passwd@[m]).p_uid == 0 && passwd@[m].p_gid == 0 && passwd@[m].username@ == copied_str(
                        seq![32u8],
                        PWDSIZ as int,
                    ) && passwd@[m].password@ == copied_str(seq![32u8], PWDSIZ as int),
            decreases PWDNUM - k,
        {
            let mut p = Password::default();
            self.copy_str_to_bytes(" ", &mut p.username);
            self.copy_str_to_bytes(" ", &mut p.password);
            let ghost pre = passwd@;
            passwd.push(p);
            proof {
                assert forall|m: int| 1 <= m < k + 1 implies (#[trigger] passwd@[m]).p_uid == 0 && passwd@[m].p_gid == 0
                    && passwd@[m].username@ == copied_str(seq![32u8], PWDSIZ as int) && passwd@[m].password@ == copied_str(
                    seq![32u8],
                    PWDSIZ as int,
                ) by {
                    if m < k {
                        assert(passwd@[m] == pre[m]);
                    }
                }
            }
            k = k + 1;
        }
        let mut pwd_block: Vec<u8> = vec![0u8; BLOCKSIZ];
        let mut k: usize = 0;
        while k < PWDNUM
            invariant
                k <= PWDNUM,
                passwd@.len() == PWDNUM,
                pwd_block@.len() == BLOCKSIZ,
                passwd@[0] == root,
                k >= 1 ==> password_fields_at(root, pwd_block@, 0),
                forall|m: int|
                    1 <= m < PWDNUM ==> (#[trigger] passwd@[m]).p_uid == 0 && passwd@[m].p_gid == 0 && passwd@[m].username@ == copied_str(
                        seq![32u8],
                        PWDSIZ as int,
                    ) && passwd@[m].password@ == copied_str(seq![32u8], PWDSIZ as int),
                forall|m: int| 1 <= m < k ==> #[trigger] free_password_at(pwd_block@, PWDENTSIZ * m),
            decreases PWDNUM - k,
        {
            let ghost pre = pwd_block@;
            write_password_at(&mut pwd_block, PWDENTSIZ * k, &passwd[k]);
            proof {
                assert forall|m: int| 1 <= m < k + 1 implies #[trigger] free_password_at(pwd_block@, PWDENTSIZ * m) by {
                    if m < k {
                        assert(PWDENTSIZ * m + 28 <= PWDENTSIZ * k);
                        let off = PWDENTSIZ * m;
                        assert(free_password_at(pre, off));
                        assert(pwd_block@[off] == pre[off] && pwd_block@[off + 1] == pre[off + 1] && pwd_block@[off + 2] == pre[off + 2]
                            && pwd_block@[off + 3] == pre[off + 3]);
                        assert forall|j: int| 0 <= j < PWDSIZ implies #[trigger] pwd_block@[off + 4 + j] == copied_str(
                            seq![32u8],
                            PWDSIZ as int,
                        )[j] && pwd_block@[off + 16 + j] == copied_str(seq![32u8], PWDSIZ as int)[j] by {
                            assert(pwd_block@[off + 4 + j] == pre[off + 4 + j]);
                            assert(pwd_block@[off + 16 + j] == pre[off + 16 + j]);
                        }
                    } else {
                        let off = PWDENTSIZ * m;
                        let q = passwd@[m];
                        assert(password_fields_at(q, pwd_block@, off));
                        assert forall|j: int| 0 <= j < PWDSIZ implies #[trigger] pwd_block@[off + 4 + j] == copied_str(
                            seq![32u8],
                            PWDSIZ as int,
                        )[j] && pwd_block@[off + 16 + j] == copied_str(seq![32u8], PWDSIZ as int)[j] by {
                            assert(q.username@[j] == pwd_block@[off + 4 + j]);
                            assert(q.password@[j] == pwd_block@[off + 16 + j]);
                        }
                    }
                }
                if k >= 1 {
                    assert(PWDENTSIZ * k >= 28);
                    assert forall|i: int| 0 <= i < 28 implies #[trigger] pwd_block@[i] == pre[i] by {}
                    assert(pwd_block@[0] == pre[0] && pwd_block@[1] == pre[1] && pwd_block@[2] == pre[2] && pwd_block@[3] == pre[3]);
                    assert forall|i: int| 0 <= i < PWDSIZ implies #[trigger] root.username@[i] == pwd_block@[0 + 4 + i] by {
                        assert(pwd_block@[4 + i] == pre[4 + i]);
                    }
                    assert forall|i: int| 0 <= i < PWDSIZ implies #[trigger] root.password@[i] == pwd_block@[0 + 16 + i] by {
                        assert(pwd_block@[16 + i] == pre[16 + i]);
                    }
                }
            }
            k = k + 1;
        }
        proof {
            if cf {
                assert(formatted_page(36, pwd_block@)) by {
                    assert forall|i: int| 0 <= i < PWDSIZ implies #[trigger] pwd_block@[4 + i] == copied_str(
                        seq![114u8, 111u8, 111u8, 116u8],
                        PWDSIZ as int,
                    )[i] && pwd_block@[16 + i] == copied_str(seq![114u8, 111u8, 111u8, 116u8], PWDSIZ as int)[i] by {
                        assert(root.username@[i] == pwd_block@[0 + 4 + i]);
                        assert(root.password@[i] == pwd_block@[0 + 16 + i]);
                    }
                }
            }
        }
        let ghost b4 = self.buffer_pool_manager;
        if !self.put_block(36, 0, pwd_block.as_slice()) {
            return Err(FsError::Disk);
        }
        proof {
            if cf {
                lemma_formatted_kept(&self.buffer_pool_manager, &b4, 36, 34);
                lemma_formatted_kept(&self.buffer_pool_manager, &b4, 36, 35);
                lemma_formatted_put(&self.buffer_pool_manager, 36, pwd_block@);
            }
        }
        let ghost b5 = self.buffer_pool_manager;
        match self.format_inode(3, ROOTMODE | DIFILE, (PWDNUM * PWDENTSIZ) as u32, 2) {
            Ok(()) => {},
            Err(e) => {
                return Err(e);
            },
        }
        proof {
            if cf {
                lemma_formatted_kept(&self.buffer_pool_manager, &b5, 2, 34);
                lemma_formatted_kept(&self.buffer_pool_manager, &b5, 2, 35);
                lemma_formatted_kept(&self.buffer_pool_manager, &b5, 2, 36);
            }
        }
        // the super block
        let mut sb = SuperBlock::default();
        sb.s_isize = DINODEBLK as u16;
        sb.s_fsize = FILEBLK as u32;
        sb.s_ninode = 508;
        sb.s_nfree = 509;
        let mut i: usize = 0;
        while i < NICINOD
            invariant
                i <= NICINOD,
                forall|m: int| 0 <= m < i ==> #[trigger] sb.s_inode@[m] == 4 + m,
                forall|m: int| 0 <= m < NICFREE ==> #[trigger] sb.s_free@[m] == 0,
                sb.s_isize == DINODEBLK && sb.s_fsize == FILEBLK && sb.s_ninode == 508 && sb.s_nfree == 509,
                sb.s_pinode == 0 && sb.s_rinode == 0 && sb.s_pfree == 0 && sb.s_fmod == 0,
            decreases NICINOD - i,
        {
            sb.s_inode[i] = (4 + i) as u32;
            i = i + 1;
        }
        sb.s_pinode = 0;
        sb.s_rinode = 54;
        // the grouped free-block lists: leaders 462, 412, ..., 12
        let mut block_buf: Vec<u8> = vec![0u8; BLOCKSIZ];
        let mut freeblk_id: u32 = 511;
        put_u32(&mut block_buf, 0, 49);
        put_u32(&mut block_buf, 4, 0);
        let mut j: usize = 2;
        while j <= NICFREE
            invariant
                2 <= j <= NICFREE + 1,
                block_buf@.len() == BLOCKSIZ,
                freeblk_id == 513 - j,
            decreases NICFREE + 1 - j,
        {
            put_u32(&mut block_buf, 4 * j, freeblk_id);
            freeblk_id = freeblk_id - 1;
            j = j + 1;
        }
        let ghost b6 = self.buffer_pool_manager;
        if !self.put_block(34 + freeblk_id as u64, 0, block_buf.as_slice()) {
            return Err(FsError::Disk);
        }
        proof {
            if cf {
                let p = (34 + freeblk_id) as i32;
                lemma_formatted_kept(&self.buffer_pool_manager, &b6, p, 34);
                lemma_formatted_kept(&self.buffer_pool_manager, &b6, p, 35);
                lemma_formatted_kept(&self.buffer_pool_manager, &b6, p, 36);
            }
        }
        let mut current_blk: u32 = freeblk_id + 1;
        while current_blk > 13
            invariant
                self.wf(),
                block_buf@.len() == BLOCKSIZ,
                current_blk == freeblk_id + 1,
                freeblk_id <= 462,
                freeblk_id % 50 == 12,
                self.spent(old(self), 524 + (462 - freeblk_id) / 50),
                cf == (old(self).format_owed() && old(self).buffer_pool_manager.consistent()),
                cf ==> self.buffer_pool_manager.consistent(),
                cf ==> holds_formatted(&self.buffer_pool_manager, 34),
                cf ==> holds_formatted(&self.buffer_pool_manager, 35),
                cf ==> holds_formatted(&self.buffer_pool_manager, 36),
            decreases current_blk,
        {
            put_u32(&mut block_buf, 0, NICFREE as u32);
            put_u32(&mut block_buf, 4, freeblk_id);
            freeblk_id = freeblk_id - 1;
            let ghost start = freeblk_id;
            let mut j: usize = 2;
            while j <= NICFREE
                invariant
                    2 <= j <= NICFREE + 1,
                    block_buf@.len() == BLOCKSIZ,
                    freeblk_id + (j - 2) == start,
                    start >= 61,
                    start <= 461,
                    start % 50 == 11,
                decreases NICFREE + 1 - j,
            {
                put_u32(&mut block_buf, 4 * j, freeblk_id);
                freeblk_id = freeblk_id - 1;
                j = j + 1;
            }
            let ghost b7 = self.buffer_pool_manager;
            if !self.put_block(34 + freeblk_id as u64, 0, block_buf.as_slice()) {
                return Err(FsError::Disk);
            }
            proof {
                if cf {
                    let p = (34 + freeblk_id) as i32;
                    lemma_formatted_kept(&self.buffer_pool_manager, &b7, p, 34);
                    lemma_formatted_kept(&self.buffer_pool_manager, &b7, p, 35);
                    lemma_formatted_kept(&self.buffer_pool_manager, &b7, p, 36);
                }
            }
            current_blk = freeblk_id + 1;
        }
        // the remaining free blocks go on the super block's stack
        let mut s_pfreetemp: usize = 0;
        freeblk_id = freeblk_id + 1;
        while freeblk_id > 2
            invariant
                freeblk_id == 13 - s_pfreetemp,
                s_pfreetemp <= 11,
                sb.s_free@[0] == 0,
                forall|m: int| 1 <= m <= s_pfreetemp ==> #[trigger] sb.s_free@[m] == 14 - m,
                forall|m: int| s_pfreetemp < m < NICFREE ==> #[trigger] sb.s_free@[m] == 0,
                forall|m: int| 0 <= m < NICINOD ==> #[trigger] sb.s_inode@[m] == 4 + m,
                sb.s_isize == DINODEBLK && sb.s_fsize == FILEBLK && sb.s_ninode == 508 && sb.s_nfree == 509,
                sb.s_pinode == 0 && sb.s_rinode == 54 && sb.s_pfree == 0 && sb.s_fmod == 0,
            decreases freeblk_id,
        {
            sb.s_free[s_pfreetemp + 1] = freeblk_id;
            s_pfreetemp = s_pfreetemp + 1;
            freeblk_id = freeblk_id - 1;
        }
        sb.s_free[0] = s_pfreetemp as u32;
        sb.s_pfree = s_pfreetemp as u16;
        let bytes = superblock_bytes(&sb);
        let ghost b8 = self.buffer_pool_manager;
        let f = match self.fetch_block(1) {
            Some(f) => f,
            None => {
                return Err(FsError::Disk);
            },
        };
        proof {
            if cf {
                lemma_formatted_kept(&self.buffer_pool_manager, &b8, 1, 34);
                lemma_formatted_kept(&self.buffer_pool_manager, &b8, 1, 35);
                lemma_formatted_kept(&self.buffer_pool_manager, &b8, 1, 36);
            }
        }
        let ghost b9 = self.buffer_pool_manager;
        self.buffer_pool_manager.write_page(f as i32, 0, bytes.as_slice());
        proof {
            if cf {
                assert(b9.frame_page(f as int) == 1);
                assert(self.buffer_pool_manager.frames_kept_but(&b9, 1)) by {
                    assert forall|g: int|
                        0 <= g < b9.spec_pool_size() && b9.frame_page(g) >= 0 && b9.frame_page(g) != 1 implies #[trigger] self.buffer_pool_manager.pages_view()[g]
                        == b9.pages_view()[g] && self.buffer_pool_manager.frame_page(g) == b9.frame_page(g) by {
                        assert(g != f);
                    }
                }
                lemma_formatted_kept(&self.buffer_pool_manager, &b9, 1, 34);
                lemma_formatted_kept(&self.buffer_pool_manager, &b9, 1, 35);
                lemma_formatted_kept(&self.buffer_pool_manager, &b9, 1, 36);
            }
        }
        self.filsys = sb;
        proof {
            let pg = self.buffer_pool_manager.pages_view()[f as int];
            assert(pg.subrange(0, 432) =~= bytes@);
            assert forall|m: int| 0 <= m < 432 implies #[trigger] pg[m] == bytes@[m] by {
                assert(pg.subrange(0, 432)[m] == bytes@[m]);
            }
            assert(superblock_fields(sb, pg));
        }
        let ghost wit = f as int;
        let ghost pre = self.buffer_pool_manager;
        match self.buffer_pool_manager.flush_all_pgs() {
            Ok(()) => {},
            Err(_) => {
                return Err(FsError::Disk);
            },
        }
        proof {
            let fin = self.buffer_pool_manager;
            crate::bufferpool::lemma_flushed_congruent(
                pre.disk_view(),
                pre.pages_view(),
                |g: int| pre.frame_page(g),
                |g: int| fin.frame_page(g),
                pre.spec_pool_size(),
            );
            assert(fin.disk_view() == flushed_from(pre.disk_view(), &fin));
            assert(superblock_fields(self.filsys, fin.pages_view()[wit]));
            if cf {
                assert(fin.frame_page(wit) == 1);
                assert(fin.frames_kept_but(&pre, 1)) by {
                    assert forall|g: int|
                        0 <= g < pre.spec_pool_size() && pre.frame_page(g) >= 0 && pre.frame_page(g) != 1 implies #[trigger] fin.pages_view()[g]
                        == pre.pages_view()[g] && fin.frame_page(g) == pre.frame_page(g) by {}
                }
                lemma_formatted_kept(&fin, &pre, 1, 34);
                lemma_formatted_kept(&fin, &pre, 1, 35);
                lemma_formatted_kept(&fin, &pre, 1, 36);
            }
        }
        Ok(())
    }
}

} // verus!
