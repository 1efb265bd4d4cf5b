//! Files: access checks, opening and closing through the system and user
//! open-file tables, reading and writing file contents, and copying a file's
//! contents out and back.

use crate::disk::block_of;
use crate::inode::{blocks_fit, blocks_freed, blocks_of_size, same_data, FsError};
use crate::state::FileSystem;
use crate::types::{
    BLOCKSIZ, DIRNUM, NICFREE, EXICUTE, FAPPEND, FREAD, FWRITE, GDIEXICUTE, GDIREAD, GDIWRITE, Inode, InodeRef, NADDR, NOFILE,
    NO_OPEN_FILE, ODIEXICUTE, ODIREAD, ODIWRITE, READ, ROOT, SYSOPENFILE, UDIEXICUTE, UDIREAD, UDIWRITE, USERNUM,
    User, WRITE, file,
};
use crate::util::{entry_matches, NOT_FOUND};
use vstd::math::min;
use vstd::prelude::*;
use vstd::string::StringSliceAdditionalSpecFns;

verus! {

/// What `aopen` returns when it does not open the file.
pub const OPEN_FAILED: u16 = 100;

/// How many bytes an append of `size` bytes to a file of `s0` bytes
/// stores: what fits in the first block, then the whole blocks it
/// allocates, then the last partial block when one is allocated for it.
pub open spec fn append_written(s0: int, size: int) -> int {
    let w = min(size, 512 - s0);
    let remaining = size - w;
    let bc = remaining / 512;
    if remaining <= 0 {
        w
    } else {
        w + min(bc, 9) * 512 + if bc <= 8 && remaining % 512 != 0 { remaining % 512 } else { 0 }
    }
}

/// How many bytes a write of `size` bytes stores: when appending to a file
/// of `s0` bytes, `append_written`; else as many as the file's `NADDR`
/// blocks hold.
pub open spec fn bytes_written(append: bool, s0: int, size: int) -> int {
    if append {
        append_written(s0, size)
    } else {
        min(size, (NADDR * BLOCKSIZ) as int)
    }
}

/// How many blocks past the first an append of `size` bytes to a file of
/// `s0` bytes allocates: one per whole block of what does not fit in the
/// first block, at most nine, and one more for a last partial block when
/// at most eight whole blocks came before it.
pub open spec fn append_blocks(s0: int, size: int) -> int {
    let remaining = size - min(size, 512 - s0);
    let block_cnt = remaining / 512;
    if remaining <= 0 {
        0
    } else if block_cnt <= 8 && remaining % 512 != 0 {
        block_cnt + 1
    } else {
        min(block_cnt, 9)
    }
}

/// Whether the user at `user_id` in `users` is the root user.
pub open spec fn is_root_user(users: Seq<User>, user_id: int) -> bool {
    0 <= user_id < USERNUM && users[user_id].u_uid == ROOT
}

/// Whether checking access `mode` to an inode of mode `di_mode` reads the
/// user's table entry: the request is a read, write or execute that the
/// "others" bit does not already grant.
pub open spec fn reads_user(di_mode: u16, mode: u16) -> bool {
    ||| mode == READ && di_mode & ODIREAD == 0
    ||| mode == WRITE && di_mode & ODIWRITE == 0
    ||| mode == EXICUTE && di_mode & ODIEXICUTE == 0
}

/// The bytes of `buf` that block `k` of a file holds after `size` bytes
/// of `buf` were written from the file's start.
pub open spec fn chunk(buf: Seq<u8>, size: int, k: int) -> Seq<u8> {
    buf.subrange(512 * k, min(512 * k + 512, size))
}

/// The bytes of `buf` that block `k` of a file of `s0` bytes holds after an
/// append of `size` bytes of `buf`: block 0 the first
/// `min(size, 512 - s0)` bytes (`w`); block `k` for `1 <= k <= bc` (`bc`
/// the whole blocks of the rest) the `k`-th 512 bytes after them; a last
/// block past those the remainder's length of bytes from `w` on.
pub open spec fn append_piece(buf: Seq<u8>, s0: int, size: int, k: int) -> Seq<u8> {
    let w = min(size, 512 - s0);
    let rem = size - w;
    let bc = rem / 512;
    if k == 0 {
        buf.subrange(0, w)
    } else if k <= bc {
        buf.subrange(w + 512 * (k - 1), w + 512 * k)
    } else {
        buf.subrange(w, w + rem % 512)
    }
}

/// Where in block `k` an append to a file of `s0` bytes puts its piece:
/// two bytes before the end of a non-empty first block, else at 0.
pub open spec fn append_off(s0: int, k: int) -> int {
    if k == 0 && s0 != 0 {
        s0 - 2
    } else {
        0
    }
}

/// Whether the user at `user_id` may access inode `n` in `mode` (read,
/// write or execute): the root user always may; others by the inode's
/// "others" bit, its group bit with a matching group, or its owner bit
/// with a matching owner. Other modes are never granted.
pub open spec fn access_granted(users: Seq<User>, user_id: int, n: Inode, mode: u16) -> bool {
    if is_root_user(users, user_id) {
        true
    } else if mode == READ {
        ||| n.di_mode & ODIREAD != 0
        ||| n.di_mode & GDIREAD != 0 && users[user_id].u_gid == n.di_gid
        ||| n.di_mode & UDIREAD != 0 && users[user_id].u_uid == n.di_uid
    } else if mode == WRITE {
        ||| n.di_mode & ODIWRITE != 0
        ||| n.di_mode & GDIWRITE != 0 && users[user_id].u_gid == n.di_gid
        ||| n.di_mode & UDIWRITE != 0 && users[user_id].u_uid == n.di_uid
    } else if mode == EXICUTE {
        ||| n.di_mode & ODIEXICUTE != 0
        ||| n.di_mode & GDIEXICUTE != 0 && users[user_id].u_gid == n.di_gid
        ||| n.di_mode & UDIEXICUTE != 0 && users[user_id].u_uid == n.di_uid
    } else {
        false
    }
}

/// The flag byte of a system open-file entry opened in `openmode`:
/// appending also reads and writes.
pub open spec fn open_flag(openmode: u16) -> u8 {
    if (openmode as u8) & FAPPEND != 0 {
        (openmode as u8) | FWRITE | FREAD
    } else {
        openmode as u8
    }
}

/// Whether opening in `openmode` truncates the file (write without append).
pub open spec fn truncates(openmode: u16) -> bool {
    (openmode as u8) & FWRITE != 0 && (openmode as u8) & FAPPEND == 0
}

/// A flag byte has the write or the append bit exactly when it meets both.
pub proof fn lemma_write_bits(fl: u8)
    ensures
        (fl & (FWRITE | FAPPEND) != 0) <==> (fl & FWRITE != 0 || fl & FAPPEND != 0),
{
    assert(FWRITE == 2u8 && FAPPEND == 4u8 && (FWRITE | FAPPEND) == 6u8) by (bit_vector);
    assert((fl & 6u8 != 0) <==> (fl & 2u8 != 0 || fl & 4u8 != 0)) by (bit_vector);
}

impl FileSystem {
    /// Whether user `user_id` may access inode `inode` in `mode`; 1 if so,
    /// else 0.
    pub fn access(&self, user_id: i32, inode: InodeRef, mode: u16) -> (r: u32)
        requires
            inode < self.inodes@.len(),
            reads_user(self.inodes@[inode as int].di_mode, mode) && !is_root_user(self.user@, user_id as int) ==> 0
                <= user_id < USERNUM,
        ensures
            r == 1 <==> access_granted(self.user@, user_id as int, self.inodes@[inode as int], mode),
            r == 0 || r == 1,
    {
        if 0 <= user_id && user_id < USERNUM as i32 && self.user[user_id as usize].u_uid == ROOT {
            return 1;
        }
        let n = self.inodes[inode];
        if mode == READ {
            if n.di_mode & ODIREAD != 0 {
                1
            } else if n.di_mode & GDIREAD != 0 && self.user[user_id as usize].u_gid == n.di_gid {
                1
            } else if n.di_mode & UDIREAD != 0 && self.user[user_id as usize].u_uid == n.di_uid {
                1
            } else {
                0
            }
        } else if mode == WRITE {
            if n.di_mode & ODIWRITE != 0 {
                1
            } else if n.di_mode & GDIWRITE != 0 && self.user[user_id as usize].u_gid == n.di_gid {
                1
            } else if n.di_mode & UDIWRITE != 0 && self.user[user_id as usize].u_uid == n.di_uid {
                1
            } else {
                0
            }
        } else if mode == EXICUTE {
            if n.di_mode & ODIEXICUTE != 0 {
                1
            } else if n.di_mode & GDIEXICUTE != 0 && self.user[user_id as usize].u_gid == n.di_gid {
                1
            } else if n.di_mode & UDIEXICUTE != 0 && self.user[user_id as usize].u_uid == n.di_uid {
                1
            } else {
                0
            }
        } else {
            0
        }
    }

    /// Closes the file at `cfd` in user `user_id`'s open-file table: releases
    /// its inode (unless it is inode 0), lowers the system entry's count and
    /// frees the user's entry. Returns what releasing the inode returned.
    pub fn close(&mut self, user_id: u32, cfd: i16) -> (r: Result<(), FsError>)
        requires
            old(self).wf(),
            user_id < USERNUM,
            0 <= cfd < NOFILE,
            old(self).user@[user_id as int].u_ofile@[cfd as int] < SYSOPENFILE,
            old(self).sys_ofile@[old(self).user@[user_id as int].u_ofile@[cfd as int] as int].f_count >= 1,
        ensures
            final(self).wf(),
            ({
                let t = old(self).user@[user_id as int].u_ofile@[cfd as int] as int;
                let e = old(self).sys_ofile@[t];
                &&& final(self).sys_ofile@ == old(self).sys_ofile@.update(t, (file { f_count: (e.f_count - 1) as u32, ..e }))
                &&& final(self).user@[user_id as int].u_ofile@ == old(self).user@[user_id as int].u_ofile@.update(
                    cfd as int,
                    NO_OPEN_FILE,
                )
                &&& old(self).inodes@[e.f_inode as int].i_ino == 0 ==> {
                    &&& r is Ok
                    &&& final(self).inodes@ == old(self).inodes@
                    &&& final(self).hinode@ == old(self).hinode@
                    &&& final(self).filsys == old(self).filsys
                }
            }),
            forall|i: int| 0 <= i < USERNUM && i != user_id ==> #[trigger] final(self).user@[i] == old(self).user@[i],
            final(self).inodes@.len() == old(self).inodes@.len(),
            forall|k: int| 0 <= k < old(self).inodes@.len() ==> same_data(#[trigger] final(self).inodes@[k], old(self).inodes@[k]),
            final(self).user@[user_id as int].u_uid == old(self).user@[user_id as int].u_uid,
            final(self).user@[user_id as int].u_gid == old(self).user@[user_id as int].u_gid,
            final(self).user@[user_id as int].u_default_mode == old(self).user@[user_id as int].u_default_mode,
            final(self).dir == old(self).dir,
            final(self).pwd == old(self).pwd,
            final(self).cur_path_inode == old(self).cur_path_inode,
            final(self).user_id == old(self).user_id,
            final(self).buffer_pool_manager.spec_pool_size() == old(self).buffer_pool_manager.spec_pool_size(),
            old(self).buffer_pool_manager.consistent() && old(self).room() >= 1 ==> {
                let e = old(self).sys_ofile@[old(self).user@[user_id as int].u_ofile@[cfd as int] as int];
                &&& final(self).buffer_pool_manager.consistent()
                &&& final(self).buffer_pool_manager.frames_kept_but(
                    &old(self).buffer_pool_manager,
                    (2 + old(self).inodes@[e.f_inode as int].i_ino / 16) as i32,
                )
            },
    {
        let t = self.user[user_id as usize].u_ofile[cfd as usize] as usize;
        let node = self.sys_ofile[t].f_inode;
        let mut r: Result<(), FsError> = Ok(());
        if self.inodes[node].i_ino != 0 {
            r = self.iput(node);
        }
        let mut e = self.sys_ofile[t];
        e.f_count = e.f_count - 1;
        self.sys_ofile[t] = e;
        let mut u = self.user[user_id as usize];
        u.u_ofile[cfd as usize] = NO_OPEN_FILE;
        self.user[user_id as usize] = u;
        proof {
            assert(self.sys_ofile@ =~= old(self).sys_ofile@.update(t as int, file { f_count: (e.f_count) as u32, ..old(self).sys_ofile@[t as int] }));
            assert(self.user@[user_id as int].u_ofile@ =~= old(self).user@[user_id as int].u_ofile@.update(cfd as int, NO_OPEN_FILE));
        }
        r
    }

    /// Whether entry `i` of user `uid`'s open-file table refers to a system
    /// entry whose inode has number `ino`.
    pub open spec fn ofile_has(&self, uid: int, i: int, ino: u32) -> bool {
        let t = self.user@[uid].u_ofile@[i];
        &&& t != NO_OPEN_FILE
        &&& t < SYSOPENFILE
        &&& self.inodes@[self.sys_ofile@[t as int].f_inode as int].i_ino == ino
    }

    /// The index in the current user's open-file table of the file named
    /// `filename` in the current directory, or -1 when there is no such file
    /// or the user does not have it open.
    pub fn xfa(&self, filename: &str) -> (r: i32)
        requires
            self.wf(),
            self.lookup(filename.spec_bytes()) != NOT_FOUND ==> 0 <= self.user_id < USERNUM,
        ensures
            -1 <= r < NOFILE,
            self.no_match(filename.spec_bytes()) ==> r == -1,
            self.lookup(filename.spec_bytes()) == NOT_FOUND ==> r == -1,
            forall|j: int|
                self.first_match_at(filename.spec_bytes(), j) && self.dir.direct@[j].d_ino != NOT_FOUND ==> {
                    let ino = self.dir.direct@[j].d_ino as u32;
                    &&& r >= 0 ==> self.ofile_has(self.user_id as int, r as int, ino) && forall|k: int|
                        0 <= k < r ==> !self.ofile_has(self.user_id as int, k, ino)
                    &&& r == -1 ==> forall|k: int| 0 <= k < NOFILE ==> !self.ofile_has(self.user_id as int, k, ino)
                },
    {
        let ino = self.namei(filename);
        if ino == NOT_FOUND {
            return -1;
        }
        let uid = self.user_id as usize;
        let mut i: usize = 0;
        while i < NOFILE
            invariant
                self.wf(),
                uid == self.user_id,
                0 <= self.user_id < USERNUM,
                i <= NOFILE,
                ino != NOT_FOUND,
                ino == self.lookup(filename.spec_bytes()),
                !self.no_match(filename.spec_bytes()),
                forall|j: int| #[trigger] self.first_match_at(filename.spec_bytes(), j) ==> ino == self.dir.direct@[j].d_ino,
                forall|k: int| 0 <= k < i ==> !self.ofile_has(uid as int, k, ino),
            decreases NOFILE - i,
        {
            let t = self.user[uid].u_ofile[i];
            if t != NO_OPEN_FILE && (t as usize) < SYSOPENFILE {
                let h = self.sys_ofile[t as usize].f_inode;
                if self.inodes[h].i_ino == ino {
                    return i as i32;
                }
            }
            i = i + 1;
        }
        -1
    }

    /// Whether opening the file named `name` for user `user_id` in
    /// `openmode` is sure to succeed: the name is in the current directory,
    /// the file's inode can be read, every inode that reading it may give
    /// grants the access (and, when the mode truncates, has blocks that fit
    /// on the free-block stack), no open system entry holds the file, and a
    /// system entry and one of the user's entries are free.
    pub open spec fn open_owed(&self, user_id: int, name: Seq<u8>, openmode: u16) -> bool {
        let ino = self.lookup(name);
        &&& ino != NOT_FOUND
        &&& self.room() >= 1
        &&& self.can_read(2 + ino / 16)
        &&& forall|n: Inode| #[trigger] self.may_get(ino, n) ==> {
            &&& access_granted(self.user@, user_id, n, openmode)
            &&& truncates(openmode) ==> blocks_fit(self.filsys, blocks_of_size(n.di_size as int))
        }
        &&& forall|i: int|
            0 <= i < SYSOPENFILE && (#[trigger] self.sys_ofile@[i]).f_count != 0 ==> self.inodes@[self.sys_ofile@[i].f_inode as int].i_ino
                != ino
        &&& exists|i: int| 0 <= i < SYSOPENFILE && (#[trigger] self.sys_ofile@[i]).f_count == 0
        &&& exists|u: int| 0 <= u < NOFILE && #[trigger] self.user@[user_id].u_ofile@[u] == NO_OPEN_FILE
    }

    /// Opens the file named `filename` in the current directory for user
    /// `user_id` in `openmode` (`FREAD`, `FWRITE` or `FAPPEND`, checked as
    /// read, write and execute access respectively). Refuses (returning
    /// `OPEN_FAILED`) when the file does not exist, the access is not
    /// granted, the file is already open, or the system table or the
    /// user's table is full. On success the first
    /// free system entry takes the inode with count 1, the flag
    /// `open_flag(openmode)` and offset 0, or the file size when appending;
    /// the user's first free entry points to it; and opening for writing
    /// without appending releases the file's blocks and empties it. Returns
    /// the system entry's index.
    pub fn aopen(&mut self, user_id: i32, filename: &str, openmode: u16) -> (r: u16)
        requires
            old(self).wf(),
            old(self).lookup(filename.spec_bytes()) != NOT_FOUND ==> 0 <= user_id < USERNUM,
        ensures
            final(self).wf(),
            r == OPEN_FAILED || r < SYSOPENFILE,
            old(self).no_match(filename.spec_bytes()) ==> r == OPEN_FAILED && *final(self) == *old(self),
            (forall|i: int| 0 <= i < SYSOPENFILE ==> (#[trigger] old(self).sys_ofile@[i]).f_count != 0) ==> r
                == OPEN_FAILED,
            (forall|u: int| 0 <= u < NOFILE ==> #[trigger] old(self).user@[user_id as int].u_ofile@[u] != NO_OPEN_FILE)
                ==> r == OPEN_FAILED,
            old(self).open_owed(user_id as int, filename.spec_bytes(), openmode) ==> r != OPEN_FAILED,
            final(self).dir == old(self).dir,
            final(self).pwd == old(self).pwd,
            final(self).cur_path_inode == old(self).cur_path_inode,
            final(self).user_id == old(self).user_id,
            r != OPEN_FAILED ==> {
                let e = final(self).sys_ofile@[r as int];
                let n = final(self).inodes@[e.f_inode as int];
                &&& exists|j: int| #[trigger]
                    old(self).first_match_at(filename.spec_bytes(), j) && n.i_ino == old(self).dir.direct@[j].d_ino
                &&& access_granted(old(self).user@, user_id as int, n, openmode)
                &&& forall|i: int|
                    0 <= i < SYSOPENFILE && (#[trigger] old(self).sys_ofile@[i]).f_count != 0
                        ==> old(self).inodes@[old(self).sys_ofile@[i].f_inode as int].i_ino != n.i_ino
                &&& old(self).sys_ofile@[r as int].f_count == 0
                &&& forall|i: int| 0 <= i < r ==> (#[trigger] old(self).sys_ofile@[i]).f_count != 0
                &&& forall|i: int| 0 <= i < SYSOPENFILE && i != r ==> #[trigger] final(self).sys_ofile@[i] == old(self).sys_ofile@[i]
                &&& e.f_count == 1
                &&& e.f_flag == open_flag(openmode)
                &&& e.f_off == if (openmode as u8) & FAPPEND != 0 { n.di_size } else { 0 }
                &&& truncates(openmode) ==> n.di_size == 0
                &&& truncates(openmode) ==> exists|s0: u32|
                    #[trigger] old(self).may_get(old(self).lookup(filename.spec_bytes()), Inode { di_size: s0, ..n }) && blocks_freed(
                        old(self).filsys,
                        final(self).filsys,
                        n.di_addr@,
                        blocks_of_size(s0 as int),
                    )
                &&& exists|u: int| {
                    &&& 0 <= u < NOFILE
                    &&& #[trigger] old(self).user@[user_id as int].u_ofile@[u] == NO_OPEN_FILE
                    &&& forall|k: int| 0 <= k < u ==> #[trigger] old(self).user@[user_id as int].u_ofile@[k] != NO_OPEN_FILE
                    &&& final(self).user@[user_id as int].u_ofile@ == old(self).user@[user_id as int].u_ofile@.update(u, r)
                }
            },
    {
        let dinodeid = self.namei(filename);
        if dinodeid == NOT_FOUND {
            return OPEN_FAILED;
        }
        let ghost o = *self;
        let h = match self.iget(dinodeid) {
            Some(h) => h,
            None => {
                return OPEN_FAILED;
            },
        };
        proof {
            if o.open_owed(user_id as int, filename.spec_bytes(), openmode) {
                assert(o.may_get(dinodeid, self.inodes@[h as int]));
            }
        }
        proof {
            assert forall|k: int| 0 <= k < o.inodes@.len() implies #[trigger] self.inodes@[k].i_ino == o.inodes@[k].i_ino by {
                assert(same_data(self.inodes@[k], o.inodes@[k]));
            }
        }
        if self.access(user_id, h, openmode) == 0 {
            let _ = self.iput(h);
            return OPEN_FAILED;
        }
        let ghost granted = self.inodes@[h as int];
        let ghost after_access = *self;
        let ino = self.inodes[h].i_ino;
        let mut i: usize = 0;
        while i < SYSOPENFILE
            invariant
                self.wf(),
                h < self.inodes@.len(),
                ino == self.inodes@[h as int].i_ino,
                ino == o.lookup(filename.spec_bytes()),
                self.sys_ofile == o.sys_ofile,
                *self == after_access,
                granted == after_access.inodes@[h as int],
                self.others_same(old(self)),
                o == *old(self),
                !old(self).no_match(filename.spec_bytes()),
                forall|k: int| 0 <= k < o.inodes@.len() ==> #[trigger] self.inodes@[k].i_ino == o.inodes@[k].i_ino,
                o.wf(),
                i <= SYSOPENFILE,
                forall|k: int|
                    0 <= k < i && (#[trigger] o.sys_ofile@[k]).f_count != 0 ==> o.inodes@[o.sys_ofile@[k].f_inode as int].i_ino
                        != ino,
            decreases SYSOPENFILE - i,
        {
            let e = self.sys_ofile[i];
            if e.f_count != 0 && self.inodes[e.f_inode].i_ino == ino {
                let _ = self.iput(h);
                return OPEN_FAILED;
            }
            i = i + 1;
        }
        let mut s: usize = 0;
        while s < SYSOPENFILE
            invariant
                s <= SYSOPENFILE,
                self.sys_ofile == o.sys_ofile,
                forall|k: int| 0 <= k < s ==> (#[trigger] self.sys_ofile@[k]).f_count != 0,
            ensures
                s <= SYSOPENFILE,
                self.sys_ofile == o.sys_ofile,
                forall|k: int| 0 <= k < s ==> (#[trigger] self.sys_ofile@[k]).f_count != 0,
                s < SYSOPENFILE ==> self.sys_ofile@[s as int].f_count == 0,
            decreases SYSOPENFILE - s,
        {
            if self.sys_ofile[s].f_count == 0 {
                break;
            }
            s = s + 1;
        }
        if s == SYSOPENFILE {
            let _ = self.iput(h);
            return OPEN_FAILED;
        }
        let n = self.inodes[h];
        let nb: u64 = (n.di_size as u64 + 511) / 512;
        let trunc = (openmode as u8) & FWRITE != 0 && (openmode as u8) & FAPPEND == 0;
        if trunc && (nb > NADDR as u64 || self.filsys.s_pfree as u64 + nb > 49
            || self.filsys.s_nfree as u64 + nb > u32::MAX as u64 || self.filsys.s_free[0] as u64 + nb > u32::MAX as u64) {
            let _ = self.iput(h);
            return OPEN_FAILED;
        }
        let append = (openmode as u8) & FAPPEND != 0;
        let flag: u8 = if append { (openmode as u8) | FWRITE | FREAD } else { openmode as u8 };
        let off: u32 = if append { n.di_size } else { 0 };
        self.sys_ofile[s] = file { f_flag: flag, f_count: 1, f_inode: h, f_off: off };
        let uid = user_id as usize;
        let mut u: usize = 0;
        while u < NOFILE
            invariant
                u <= NOFILE,
                uid < USERNUM,
                self.user == o.user,
                forall|k: int| 0 <= k < u ==> #[trigger] self.user@[uid as int].u_ofile@[k] != NO_OPEN_FILE,
            ensures
                u <= NOFILE,
                self.user == o.user,
                forall|k: int| 0 <= k < u ==> #[trigger] self.user@[uid as int].u_ofile@[k] != NO_OPEN_FILE,
                u < NOFILE ==> self.user@[uid as int].u_ofile@[u as int] == NO_OPEN_FILE,
            decreases NOFILE - u,
        {
            if self.user[uid].u_ofile[u] == NO_OPEN_FILE {
                break;
            }
            u = u + 1;
        }
        if u == NOFILE {
            self.sys_ofile[s].f_count = 0;
            let _ = self.iput(h);
            return OPEN_FAILED;
        }
        let mut usr = self.user[uid];
        usr.u_ofile[u] = s as u16;
        self.user[uid] = usr;
        let ghost f0 = self.filsys;
        if trunc {
            match self.free_blocks(n.di_addr, nb as usize) {
                Ok(()) => {},
                Err(_) => {
                    return OPEN_FAILED;
                },
            }
            let mut m = self.inodes[h];
            m.di_size = 0;
            self.inodes.set(h, m);
        }
        proof {
            assert(self.user@[uid as int].u_ofile@ =~= old(self).user@[uid as int].u_ofile@.update(u as int, s as u16));
            assert(old(self).user@[uid as int].u_ofile@[u as int] == NO_OPEN_FILE);
            let j = choose|j: int| #[trigger] old(self).first_match_at(filename.spec_bytes(), j) && dinodeid == old(self).dir.direct@[j].d_ino;
            assert(old(self).first_match_at(filename.spec_bytes(), j));
            assert(self.inodes@[h as int].i_ino == old(self).dir.direct@[j].d_ino);
            let fin = self.inodes@[h as int];
            assert(fin.di_mode == granted.di_mode && fin.di_uid == granted.di_uid && fin.di_gid == granted.di_gid);
            assert(access_granted(old(self).user@, user_id as int, granted, openmode));
            if trunc {
                assert(f0 == old(self).filsys);
                assert(Inode { di_size: n.di_size, ..fin } == n);
                assert(o.may_get(dinodeid, n));
                assert(nb == blocks_of_size(n.di_size as int));
            }
        }
        s as u16
    }

    /// Copies `data[start..start + len]` into data block `blk` at byte `off`.
    /// Returns false when the block cannot be had from the buffer pool.
    pub fn store(&mut self, blk: u16, off: usize, data: &[u8], start: usize, len: usize) -> (ok: bool)
        requires
            old(self).wf(),
            off + len <= BLOCKSIZ,
            start + len <= data.len(),
        ensures
            final(self).wf(),
            final(self).same_but_pool(old(self)),
            final(self).buffer_pool_manager.spec_pool_size() == old(self).buffer_pool_manager.spec_pool_size(),
            ok ==> exists|f: int|
                0 <= f < final(self).buffer_pool_manager.spec_pool_size()
                    && (#[trigger] final(self).buffer_pool_manager.pages_view()[f]).subrange(off as int, off + len)
                    == data@.subrange(start as int, start + len),
            final(self).spent(old(self), 1),
            old(self).buffer_pool_manager.consistent() && old(self).room() >= 1 ==> final(self).buffer_pool_manager.consistent()
                && final(self).buffer_pool_manager.frames_kept_but(&old(self).buffer_pool_manager, (34 + blk) as i32),
            old(self).buffer_pool_manager.consistent() && old(self).room() >= 1 && ok ==> exists|f: int|
                0 <= f < final(self).buffer_pool_manager.spec_pool_size() && final(self).buffer_pool_manager.frame_page(f) == 34 + blk
                    && (#[trigger] final(self).buffer_pool_manager.pages_view()[f]).subrange(off as int, off + len)
                    == data@.subrange(start as int, start + len),
            forall|p: i32| #[trigger] final(self).buffer_pool_manager.holds_entry(p) ==> old(self).buffer_pool_manager.holds_entry(p)
                || p as int == 34 + blk,
            old(self).room() >= 1 ==> final(self).buffer_pool_manager.disk_view() == old(self).buffer_pool_manager.disk_view(),
            old(self).room() >= 1 && old(self).can_read(34 + blk) ==> ok,
    {
        let f = match self.fetch_block(34 + blk as u64) {
            Some(f) => f,
            None => {
                return false;
            },
        };
        let mut piece: Vec<u8> = Vec::new();
        let mut k: usize = 0;
        while k < len
            invariant
                k <= len,
                start + len <= data.len(),
                piece@ == data@.subrange(start as int, start + k),
            decreases len - k,
        {
            piece.push(data[start + k]);
            k = k + 1;
            proof {
                assert(piece@ =~= data@.subrange(start as int, start + k));
            }
        }
        let ghost mid = self.buffer_pool_manager;
        self.buffer_pool_manager.write_page(f as i32, off, piece.as_slice());
        proof {
            let pg = self.buffer_pool_manager.pages_view()[f as int];
            assert(pg.subrange(off as int, off + len) =~= data@.subrange(start as int, start + len));
            let o = old(self).buffer_pool_manager;
            if o.consistent() && o.fetch_room() >= 1 {
                assert(mid.consistent());
                assert(mid.frame_page(f as int) == 34 + blk);
                assert(mid.frames_kept_but(&o, (34 + blk) as i32));
                assert forall|g: int|
                    0 <= g < o.spec_pool_size() && o.frame_page(g) >= 0 && o.frame_page(g) != (34 + blk) as i32 implies #[trigger] self.buffer_pool_manager.pages_view()[g]
                    == o.pages_view()[g] && self.buffer_pool_manager.frame_page(g) == o.frame_page(g) by {
                    assert(mid.pages_view()[g] == o.pages_view()[g]);
                    assert(g != f);
                }
            }
        }
        true
    }

    /// Allocates a data block and records it as block `i` of inode `h`.
    /// Returns false, changing nothing, when the free-block stack cannot
    /// give a block.
    pub fn alloc_block(&mut self, h: InodeRef, i: usize) -> (ok: bool)
        requires
            old(self).wf(),
            h < old(self).inodes@.len(),
            i < NADDR,
        ensures
            final(self).wf(),
            final(self).others_same(old(self)),
            final(self).hinode@ == old(self).hinode@,
            final(self).buffer_pool_manager.spec_pool_size() == old(self).buffer_pool_manager.spec_pool_size(),
            !ok ==> final(self).inodes@ == old(self).inodes@ && final(self).filsys == old(self).filsys,
            final(self).spent(old(self), 1),
            old(self).filsys.s_pfree != 1 ==> final(self).buffer_pool_manager == old(self).buffer_pool_manager,
            old(self).stack_gives() ==> ok,
            ok ==> final(self).filsys.s_nfree == old(self).filsys.s_nfree - 1,
            ok && old(self).filsys.s_pfree != 1 ==> final(self).filsys.s_pfree == old(self).filsys.s_pfree - 1
                && final(self).filsys.s_free == old(self).filsys.s_free,
            ok ==> {
                let o = old(self).filsys;
                let n = old(self).inodes@[h as int];
                &&& final(self).inodes@ == old(self).inodes@.update(
                    h as int,
                    Inode { di_addr: final(self).inodes@[h as int].di_addr, ..n },
                )
                &&& final(self).inodes@[h as int].di_addr@ == n.di_addr@.update(
                    i as int,
                    o.s_free@[o.s_pfree - 1] as u16,
                )
            },
    {
        if self.filsys.s_pfree < 1 || self.filsys.s_pfree > 50 || self.filsys.s_nfree < 1 {
            return false;
        }
        let b = match self.balloc() {
            Some(b) => b,
            None => {
                return false;
            },
        };
        let mut n = self.inodes[h];
        n.di_addr[i] = b as u16;
        self.inodes.set(h, n);
        proof {
            assert(self.inodes@ =~= old(self).inodes@.update(
                h as int,
                Inode { di_addr: self.inodes@[h as int].di_addr, ..old(self).inodes@[h as int] },
            ));
        }
        true
    }

    /// The inode behind the current user's open-file entry `cfd`.
    pub open spec fn read_target(&self, cfd: int) -> Inode {
        self.inodes@[self.sys_ofile@[self.user@[self.user_id as int].u_ofile@[cfd] as int].f_inode as int]
    }

    /// Whether the free-block stack can hand out a block: its pointer is in
    /// range, a free block is counted, and when the pointer is at the group
    /// leader, the leader's block can be fetched.
    pub open spec fn stack_gives(&self) -> bool {
        &&& 1 <= self.filsys.s_pfree <= NICFREE
        &&& self.filsys.s_nfree >= 1
        &&& self.filsys.s_pfree == 1 ==> self.room() >= 1 && self.can_read(34 + self.filsys.s_free@[0])
    }

    /// Whether reading inode `n`'s blocks is sure to succeed: the buffer pool
    /// has room for `NADDR` fetches and each block to read can be fetched.
    pub open spec fn read_owed(&self, n: Inode) -> bool {
        &&& self.room() >= NADDR
        &&& forall|i: int|
            0 <= i < blocks_of_size(n.di_size as int) && i < NADDR ==> self.can_read(34 + #[trigger] n.di_addr@[i])
    }

    /// Whether some frame of the buffer pool holds data block `blk` and
    /// begins with `data`.
    pub open spec fn block_holds(&self, blk: u16, data: Seq<u8>) -> bool {
        exists|f: int|
            0 <= f < self.buffer_pool_manager.spec_pool_size() && self.buffer_pool_manager.frame_page(f) == 34 + blk
                && (#[trigger] self.buffer_pool_manager.pages_view()[f]).subrange(0, data.len() as int) == data
    }

    /// Blocks of file `h` that held their chunks before block `i` was
    /// allocated, with the buffer pool untouched, still hold them.
    pub(crate) proof fn lemma_holds_after_alloc(&self, s0: &Self, h: InodeRef, i: int, buf: Seq<u8>, size: int)
        requires
            h < s0.inodes@.len(),
            self.inodes@.len() == s0.inodes@.len(),
            self.buffer_pool_manager == s0.buffer_pool_manager,
            forall|k: int| 0 <= k < i ==> self.inodes@[h as int].di_addr@[k] == s0.inodes@[h as int].di_addr@[k],
            forall|k: int|
                0 <= k < i && (forall|j: int| k < j < i ==> s0.inodes@[h as int].di_addr@[j] != s0.inodes@[h as int].di_addr@[k])
                    ==> s0.block_holds(#[trigger] s0.inodes@[h as int].di_addr@[k], chunk(buf, size, k)),
        ensures
            forall|k: int|
                0 <= k < i && (forall|j: int| k < j < i ==> self.inodes@[h as int].di_addr@[j] != self.inodes@[h as int].di_addr@[k])
                    ==> self.block_holds(#[trigger] self.inodes@[h as int].di_addr@[k], chunk(buf, size, k)),
    {
        let a = self.inodes@[h as int].di_addr@;
        let a0 = s0.inodes@[h as int].di_addr@;
        assert forall|k: int| 0 <= k < i && (forall|j: int| k < j < i ==> a[j] != a[k]) implies self.block_holds(
            #[trigger] a[k],
            chunk(buf, size, k),
        ) by {
            assert forall|j: int| k < j < i implies a0[j] != a0[k] by {
                assert(a[j] == a0[j]);
            }
            assert(s0.block_holds(a0[k], chunk(buf, size, k)));
        }
    }

    /// After block `i` of file `h` was stored with `len` bytes of `buf`
    /// (its chunk), every block up to `i` holds its chunk unless a later one
    /// of them has the same number.
    pub(crate) proof fn lemma_stored_block(&self, s1: &Self, h: InodeRef, i: int, len: int, buf: Seq<u8>, size: int)
        requires
            h < s1.inodes@.len(),
            self.inodes@ == s1.inodes@,
            0 <= len,
            0 <= 512 * i,
            512 * i + len <= buf.len(),
            chunk(buf, size, i) == buf.subrange(512 * i, 512 * i + len),
            self.buffer_pool_manager.frames_kept_but(
                &s1.buffer_pool_manager,
                (34 + s1.inodes@[h as int].di_addr@[i]) as i32,
            ),
            self.buffer_pool_manager.spec_pool_size() == s1.buffer_pool_manager.spec_pool_size(),
            exists|f: int|
                0 <= f < self.buffer_pool_manager.spec_pool_size() && self.buffer_pool_manager.frame_page(f) == 34
                    + s1.inodes@[h as int].di_addr@[i] && (#[trigger] self.buffer_pool_manager.pages_view()[f]).subrange(0, len)
                    == buf.subrange(512 * i, 512 * i + len),
            forall|k: int|
                0 <= k < i && (forall|j: int| k < j < i ==> s1.inodes@[h as int].di_addr@[j] != s1.inodes@[h as int].di_addr@[k])
                    ==> s1.block_holds(#[trigger] s1.inodes@[h as int].di_addr@[k], chunk(buf, size, k)),
        ensures
            forall|k: int|
                0 <= k < i + 1 && (forall|j: int|
                    k < j < i + 1 ==> self.inodes@[h as int].di_addr@[j] != self.inodes@[h as int].di_addr@[k]) ==> self.block_holds(
                    #[trigger] self.inodes@[h as int].di_addr@[k],
                    chunk(buf, size, k),
                ),
    {
        let a = self.inodes@[h as int].di_addr@;
        assert forall|k: int| 0 <= k < i + 1 && (forall|j: int| k < j < i + 1 ==> a[j] != a[k]) implies self.block_holds(
            #[trigger] a[k],
            chunk(buf, size, k),
        ) by {
            if k == i {
                let f = choose|f: int|
                    0 <= f < self.buffer_pool_manager.spec_pool_size() && self.buffer_pool_manager.frame_page(f) == 34 + a[i]
                        && (#[trigger] self.buffer_pool_manager.pages_view()[f]).subrange(0, len) == buf.subrange(512 * i, 512 * i + len);
                assert(chunk(buf, size, k).len() == len);
                assert(self.buffer_pool_manager.pages_view()[f].subrange(0, chunk(buf, size, k).len() as int) == chunk(buf, size, k));
            } else {
                assert(a[i] != a[k]);
                assert(s1.block_holds(a[k], chunk(buf, size, k)));
                let c = chunk(buf, size, k);
                let f = choose|f: int|
                    0 <= f < s1.buffer_pool_manager.spec_pool_size() && s1.buffer_pool_manager.frame_page(f) == 34 + a[k]
                        && (#[trigger] s1.buffer_pool_manager.pages_view()[f]).subrange(0, c.len() as int) == c;
                assert(self.buffer_pool_manager.pages_view()[f] == s1.buffer_pool_manager.pages_view()[f]);
                assert(self.buffer_pool_manager.frame_page(f) == 34 + a[k]);
            }
        }
    }

    /// Whether some frame of the buffer pool holds data block `blk` with
    /// `data` at offset `off`.
    pub open spec fn block_holds_at(&self, blk: u16, off: int, data: Seq<u8>) -> bool {
        exists|f: int|
            0 <= f < self.buffer_pool_manager.spec_pool_size() && self.buffer_pool_manager.frame_page(f) == 34 + blk
                && (#[trigger] self.buffer_pool_manager.pages_view()[f]).subrange(off, off + data.len()) == data
    }

    /// Whether blocks `0 ..= append_blocks(s0, size)` of `a` hold the pieces
    /// of `buf` that an append of `size` bytes to a file of `s0` bytes puts
    /// in them (`append_piece`, at `append_off`), each unless a later one of
    /// them has the same number.
    pub open spec fn appended(&self, a: Seq<u16>, buf: Seq<u8>, s0: int, size: int) -> bool {
        let hi = append_blocks(s0, size);
        forall|k: int|
            0 <= k <= hi && (forall|j: int| k < j <= hi ==> a[j] != a[k]) ==> self.block_holds_at(
                #[trigger] a[k],
                append_off(s0, k),
                append_piece(buf, s0, size, k),
            )
    }

    /// An append's pieces stay held when the buffer pool and the file's
    /// block addresses are unchanged.
    pub(crate) proof fn lemma_appended_same_pool(&self, s0: &Self, h: InodeRef, buf: Seq<u8>, z: int, size: int)
        requires
            h < s0.inodes@.len(),
            self.inodes@.len() == s0.inodes@.len(),
            self.buffer_pool_manager == s0.buffer_pool_manager,
            self.inodes@[h as int].di_addr == s0.inodes@[h as int].di_addr,
            s0.appended(s0.inodes@[h as int].di_addr@, buf, z, size),
        ensures
            self.appended(self.inodes@[h as int].di_addr@, buf, z, size),
    {
        let hi = append_blocks(z, size);
        let a = self.inodes@[h as int].di_addr@;
        assert forall|k: int| 0 <= k <= hi && (forall|j: int| k < j <= hi ==> a[j] != a[k]) implies self.block_holds_at(
            #[trigger] a[k],
            append_off(z, k),
            append_piece(buf, z, size, k),
        ) by {
            assert(s0.block_holds_at(a[k], append_off(z, k), append_piece(buf, z, size, k)));
        }
    }

    /// Whether blocks `0 ..= hi` of `a` hold their pieces, each unless a
    /// later one of them has the same number.
    pub open spec fn pieces_held(&self, a: Seq<u16>, hi: int, offs: spec_fn(int) -> int, pieces: spec_fn(int) -> Seq<u8>) -> bool {
        forall|k: int|
            0 <= k <= hi && (forall|j: int| k < j <= hi ==> a[j] != a[k]) ==> self.block_holds_at(#[trigger] a[k], offs(k), pieces(k))
    }

    /// Pieces held stay held when the buffer pool and the blocks up to `hi`
    /// are unchanged.
    pub(crate) proof fn lemma_pieces_same_pool(&self, s0: &Self, h: InodeRef, hi: int, offs: spec_fn(int) -> int, pieces: spec_fn(int) -> Seq<u8>)
        requires
            h < s0.inodes@.len(),
            self.inodes@.len() == s0.inodes@.len(),
            self.buffer_pool_manager == s0.buffer_pool_manager,
            forall|k: int| 0 <= k <= hi ==> self.inodes@[h as int].di_addr@[k] == s0.inodes@[h as int].di_addr@[k],
            s0.pieces_held(s0.inodes@[h as int].di_addr@, hi, offs, pieces),
        ensures
            self.pieces_held(self.inodes@[h as int].di_addr@, hi, offs, pieces),
    {
        let a = self.inodes@[h as int].di_addr@;
        let a0 = s0.inodes@[h as int].di_addr@;
        assert forall|k: int| 0 <= k <= hi && (forall|j: int| k < j <= hi ==> a[j] != a[k]) implies self.block_holds_at(
            #[trigger] a[k],
            offs(k),
            pieces(k),
        ) by {
            assert forall|j: int| k < j <= hi implies a0[j] != a0[k] by {
                assert(a[j] == a0[j]);
            }
            assert(s0.block_holds_at(a0[k], offs(k), pieces(k)));
        }
    }

    /// After block `i` of file `h` was stored with its piece, the blocks up
    /// to `i` hold their pieces, each unless a later one has the same number.
    pub(crate) proof fn lemma_piece_stored(&self, s1: &Self, h: InodeRef, i: int, offs: spec_fn(int) -> int, pieces: spec_fn(int) -> Seq<u8>)
        requires
            h < s1.inodes@.len(),
            self.inodes@ == s1.inodes@,
            self.buffer_pool_manager.frames_kept_but(
                &s1.buffer_pool_manager,
                (34 + s1.inodes@[h as int].di_addr@[i]) as i32,
            ),
            self.buffer_pool_manager.spec_pool_size() == s1.buffer_pool_manager.spec_pool_size(),
            self.block_holds_at(s1.inodes@[h as int].di_addr@[i], offs(i), pieces(i)),
            s1.pieces_held(s1.inodes@[h as int].di_addr@, i - 1, offs, pieces),
        ensures
            self.pieces_held(self.inodes@[h as int].di_addr@, i, offs, pieces),
    {
        let a = self.inodes@[h as int].di_addr@;
        assert forall|k: int| 0 <= k <= i && (forall|j: int| k < j <= i ==> a[j] != a[k]) implies self.block_holds_at(
            #[trigger] a[k],
            offs(k),
            pieces(k),
        ) by {
            if k != i {
                assert(a[i] != a[k]);
                let c = pieces(k);
                assert(s1.block_holds_at(a[k], offs(k), c));
                let g = choose|g: int|
                    0 <= g < s1.buffer_pool_manager.spec_pool_size() && s1.buffer_pool_manager.frame_page(g) == 34 + a[k]
                        && (#[trigger] s1.buffer_pool_manager.pages_view()[g]).subrange(offs(k), offs(k) + c.len()) == c;
                assert(self.buffer_pool_manager.pages_view()[g] == s1.buffer_pool_manager.pages_view()[g]);
                assert(self.buffer_pool_manager.frame_page(g) == 34 + a[k]);
            }
        }
    }

    /// Whether writing `size` bytes at the current user's open-file entry
    /// `cfd` is sure to succeed: the entry is open for writing, not for
    /// appending, the user may write the file, the blocks the write no
    /// longer needs fit on the free-block stack, the stack gives the new
    /// blocks without reloading, the buffer pool has room for two fetches
    /// per block, and each block written can be fetched.
    pub open spec fn write_owed(&self, cfd: int, size: int) -> bool {
        let t = self.user@[self.user_id as int].u_ofile@[cfd];
        let e = self.sys_ofile@[t as int];
        let n = self.inodes@[e.f_inode as int];
        let pre = blocks_of_size(n.di_size as int);
        let nb = min(blocks_of_size(size), NADDR as int);
        &&& self.usable(cfd, FWRITE | FAPPEND, WRITE)
        &&& e.f_flag & FAPPEND == 0 ==> {
            &&& nb < min(pre, NADDR as int) ==> blocks_fit(self.filsys, min(pre, NADDR as int) - nb)
            &&& self.blocks_owed(n, nb)
        }
        &&& e.f_flag & FAPPEND != 0 ==> self.append_owed(n, size)
    }

    /// Whether appending `size` bytes to the file of inode `n` is sure to
    /// succeed: the file is empty or holds 2 to 511 bytes, the free-block
    /// stack gives every block the append allocates without reloading, the
    /// buffer pool has room for two fetches per block, and each block
    /// written can be fetched.
    pub open spec fn append_owed(&self, n: Inode, size: int) -> bool {
        let s0 = n.di_size as int;
        let k = (if s0 == 0 { 1int } else { 0int }) + append_blocks(s0, size);
        let fs = self.filsys;
        &&& s0 == 0 || 2 <= s0 < 512
        &&& k > 0 ==> k < fs.s_pfree <= NICFREE && k <= fs.s_nfree
        &&& self.room() >= 2 * NADDR
        &&& s0 != 0 ==> self.can_read(34 + n.di_addr@[0])
        &&& forall|j: int| 0 <= j < k ==> self.can_read(34 + (#[trigger] fs.s_free@[fs.s_pfree - 1 - j]) as u16)
    }

    /// Whether writing the first `nb` blocks of inode `n` is sure to have
    /// each block: the free-block stack gives the blocks past `n`'s block
    /// count without reloading, the buffer pool has room for two fetches
    /// per block, and each block to write can be fetched.
    pub open spec fn blocks_owed(&self, n: Inode, nb: int) -> bool {
        let pre = blocks_of_size(n.di_size as int);
        let fs = self.filsys;
        &&& nb > pre ==> nb - pre < fs.s_pfree <= NICFREE && nb - pre <= fs.s_nfree
        &&& self.room() >= 2 * NADDR
        &&& forall|i: int| 0 <= i < nb && i < pre ==> self.can_read(34 + #[trigger] n.di_addr@[i])
        &&& forall|j: int| 0 <= j < nb - pre ==> self.can_read(34 + (#[trigger] fs.s_free@[fs.s_pfree - 1 - j]) as u16)
    }

    /// Whether copying out or pasting into the file named `name` is sure to
    /// find it open: the name is in the current directory, the user has the
    /// file open, the file's inode can be read with `room` fetches of the
    /// buffer pool, and every inode that reading it may give lets the user
    /// read it.
    pub open spec fn open_and_readable(&self, name: Seq<u8>, room: int) -> bool {
        let ino = self.lookup(name);
        &&& ino != NOT_FOUND
        &&& forall|n: Inode| #[trigger] self.may_get(ino, n) ==> access_granted(self.user@, self.user_id as int, n, READ)
        &&& self.room() >= room
        &&& self.can_read(2 + ino / 16)
        &&& exists|fd: int| 0 <= fd < NOFILE && #[trigger] self.ofile_has(self.user_id as int, fd, ino)
    }

    /// Looking a name up gives the same in two states with the same current
    /// directory.
    pub proof fn lemma_lookup_same_dir(&self, o: &Self, name: Seq<u8>)
        requires
            self.dir == o.dir,
        ensures
            self.lookup(name) == o.lookup(name),
            forall|j: int| #[trigger] self.first_match_at(name, j) == o.first_match_at(name, j),
    {
        assert forall|j: int| #[trigger] self.first_match_at(name, j) == o.first_match_at(name, j) by {}
        if exists|j: int| #[trigger] self.first_match_at(name, j) {
            let j1 = choose|j: int| #[trigger] self.first_match_at(name, j);
            let j2 = choose|j: int| #[trigger] o.first_match_at(name, j);
            assert(o.first_match_at(name, j1));
            assert(o.first_match_at(name, j2));
            if j1 < j2 {
                assert(!entry_matches(o.dir.direct@[j1], name));
            } else if j2 < j1 {
                assert(!entry_matches(o.dir.direct@[j2], name));
            }
            assert(j1 == j2);
            assert(self.lookup(name) == self.dir.direct@[j1].d_ino as u32);
            assert(o.lookup(name) == o.dir.direct@[j2].d_ino as u32);
        } else {
            assert(!exists|j: int| #[trigger] o.first_match_at(name, j)) by {
                if exists|j: int| #[trigger] o.first_match_at(name, j) {
                    let j2 = choose|j: int| #[trigger] o.first_match_at(name, j);
                    assert(self.first_match_at(name, j2));
                }
            }
        }
    }

    /// A file that `o` has open for the current user, by the name `name`, is
    /// found open by `xfa` in `self` when `self` differs from `o` only in the
    /// buffer pool, the super block, the inode cache and the counts of the
    /// inodes.
    pub proof fn lemma_still_open(&self, o: &Self, name: Seq<u8>)
        requires
            o.wf(),
            self.wf(),
            o.open_and_readable(name, 0),
            self.others_same(o),
            self.inodes@.len() >= o.inodes@.len(),
            forall|k: int| 0 <= k < o.inodes@.len() ==> same_data(#[trigger] self.inodes@[k], o.inodes@[k]),
        ensures
            self.lookup(name) == o.lookup(name),
            exists|j: int| #[trigger] self.first_match_at(name, j),
            forall|j: int| #[trigger] self.first_match_at(name, j) ==> self.dir.direct@[j].d_ino as u32 == o.lookup(name),
            exists|fd: int| 0 <= fd < NOFILE && #[trigger] self.ofile_has(self.user_id as int, fd, o.lookup(name)),
    {
        let ino = o.lookup(name);
        assert(exists|j: int| #[trigger] o.first_match_at(name, j));
        let j0 = choose|j: int| #[trigger] o.first_match_at(name, j);
        assert(self.first_match_at(name, j0));
        assert forall|j: int| #[trigger] self.first_match_at(name, j) implies self.dir.direct@[j].d_ino as u32 == ino by {
            if j < j0 {
                assert(!entry_matches(o.dir.direct@[j], name));
            } else if j > j0 {
                assert(!entry_matches(o.dir.direct@[j0], name));
            }
        }
        let fd = choose|fd: int| 0 <= fd < NOFILE && #[trigger] o.ofile_has(o.user_id as int, fd, ino);
        let t = o.user@[o.user_id as int].u_ofile@[fd];
        assert(same_data(self.inodes@[o.sys_ofile@[t as int].f_inode as int], o.inodes@[o.sys_ofile@[t as int].f_inode as int]));
        assert(self.ofile_has(self.user_id as int, fd, ino));
    }

    /// Whether `fin` is `self` after `size` bytes were written through the
    /// current user's open-file entry `fd` and the entry was closed: the
    /// file size and the offset are set as `write` sets them, and when the
    /// system entry was in use, the user's entry is closed and the system
    /// entry's count dropped.
    pub open spec fn pasted(&self, fd: int, size: int, fin: Self) -> bool {
        let uid = self.user_id as int;
        let t = self.user@[uid].u_ofile@[fd];
        let e = self.sys_ofile@[t as int];
        let n = self.inodes@[e.f_inode as int];
        let cap = (NADDR * BLOCKSIZ) as int;
        let append = e.f_flag & FAPPEND != 0;
        &&& fin.inodes@[e.f_inode as int].di_size == if append { min(n.di_size + size, cap) } else { min(size, cap) }
        &&& fin.sys_ofile@[t as int].f_off == (if append { min(e.f_off + size, cap) } else { min(size, cap) }) as u32
        &&& e.f_count >= 1 ==> fin.user@[uid].u_ofile@[fd] == NO_OPEN_FILE && fin.sys_ofile@[t as int].f_count == e.f_count - 1
    }

    /// Whether, in `fin`, each block of the file at the current user's
    /// open-file entry `fd` that `size` bytes take (at most `NADDR`) is held
    /// by a frame beginning with its chunk of `data`, unless a later one of
    /// these blocks has the same number.
    pub open spec fn pasted_data(&self, fd: int, size: int, data: Seq<u8>, fin: Self) -> bool {
        let t = self.user@[self.user_id as int].u_ofile@[fd];
        let e = self.sys_ofile@[t as int];
        let a = fin.inodes@[e.f_inode as int].di_addr@;
        let nb = min(blocks_of_size(size), NADDR as int);
        forall|k: int|
            0 <= k < nb && (forall|j: int| k < j < nb ==> a[j] != a[k]) ==> fin.block_holds(#[trigger] a[k], chunk(data, size, k))
    }

    /// Whether pasting `size` bytes into the file named `name` is sure to
    /// write them all: they fit in a file's blocks, the user has the file
    /// open and may read it, the buffer pool has room for reading its inode
    /// and for the write, and at every entry of the user's open-file table that holds
    /// the file, opened without appending, the write is sure to succeed
    /// keeping the file's block count and the size and offset stay in range.
    pub open spec fn paste_owed(&self, name: Seq<u8>, size: int) -> bool {
        let ino = self.lookup(name);
        &&& self.open_and_readable(name, 2 * NADDR + 2)
        &&& size <= NADDR * BLOCKSIZ
        &&& forall|fd: int|
            0 <= fd < NOFILE && #[trigger] self.ofile_has(self.user_id as int, fd, ino) ==> {
                let t = self.user@[self.user_id as int].u_ofile@[fd];
                let e = self.sys_ofile@[t as int];
                let n = self.inodes@[e.f_inode as int];
                &&& self.write_owed(fd, size)
                &&& e.f_flag & FAPPEND == 0
                &&& min(blocks_of_size(size), NADDR as int) == min(blocks_of_size(n.di_size as int), NADDR as int)
                &&& n.di_size + size <= u32::MAX
                &&& e.f_off + size <= u32::MAX
            }
    }

    /// A write that is sure to succeed in `o` and keeps the file's block
    /// count is sure to succeed in `self` when `self` has the same users and
    /// open files, the same inode data, room for the write and a disk at
    /// least as long.
    pub proof fn lemma_write_owed_kept(&self, o: &Self, cfd: int, size: int)
        requires
            o.wf(),
            0 <= o.user_id < USERNUM,
            0 <= cfd < NOFILE,
            o.write_owed(cfd, size),
            ({
                let t = o.user@[o.user_id as int].u_ofile@[cfd];
                let n = o.inodes@[o.sys_ofile@[t as int].f_inode as int];
                &&& o.sys_ofile@[t as int].f_flag & FAPPEND == 0
                &&& min(blocks_of_size(size), NADDR as int) == min(blocks_of_size(n.di_size as int), NADDR as int)
            }),
            self.user == o.user,
            self.user_id == o.user_id,
            self.sys_ofile == o.sys_ofile,
            self.inodes@.len() >= o.inodes@.len(),
            forall|k: int| 0 <= k < o.inodes@.len() ==> same_data(#[trigger] self.inodes@[k], o.inodes@[k]),
            self.room() >= 2 * NADDR,
            self.buffer_pool_manager.disk_view().len() >= o.buffer_pool_manager.disk_view().len(),
        ensures
            self.write_owed(cfd, size),
    {
        let t = o.user@[o.user_id as int].u_ofile@[cfd];
        let h = o.sys_ofile@[t as int].f_inode as int;
        assert(same_data(self.inodes@[h], o.inodes@[h]));
        let n = o.inodes@[h];
        assert(self.inodes@[h].di_addr == n.di_addr);
        assert(self.inodes@[h].di_size == n.di_size);
        assert(access_granted(self.user@, self.user_id as int, self.inodes@[h], WRITE) == access_granted(
            o.user@,
            o.user_id as int,
            n,
            WRITE,
        ));
    }

    /// Whether inode `n`'s blocks read (at most `NADDR`) are distinct and
    /// none of them has an entry in the buffer pool's page table, so that
    /// each is read from the disk.
    pub open spec fn blocks_fresh(&self, n: Inode) -> bool {
        let nb = min(blocks_of_size(n.di_size as int), NADDR as int);
        &&& forall|i: int| 0 <= i < nb ==> !self.buffer_pool_manager.holds_entry((34 + #[trigger] n.di_addr@[i]) as i32)
        &&& forall|i: int, j: int| 0 <= i < j < nb ==> #[trigger] n.di_addr@[i] != #[trigger] n.di_addr@[j]
    }

    /// Whether the current user's open-file entry `cfd` refers to a system
    /// entry opened with one of the flag bits `bits` whose inode the user may
    /// access in `mode`.
    pub open spec fn usable(&self, cfd: int, bits: u8, mode: u16) -> bool {
        let t = self.user@[self.user_id as int].u_ofile@[cfd];
        &&& t < SYSOPENFILE
        &&& self.sys_ofile@[t as int].f_flag & bits != 0
        &&& access_granted(self.user@, self.user_id as int, self.inodes@[self.sys_ofile@[t as int].f_inode as int], mode)
    }

    /// Reads the file at the current user's open-file entry `cfd` into
    /// `buf`: block `i` of the file (for its first `NADDR` blocks) fills
    /// `buf[i * BLOCKSIZ ..]` with the bytes of the buffer pool's frame for
    /// that block (loaded from the disk when no frame holds it). Returns the
    /// file size, or 0 when the entry is not open for reading, the user may
    /// not read the file, or a block cannot be had.
    pub fn read(&mut self, cfd: i32, buf: &mut Vec<u8>) -> (r: u32)
        requires
            old(self).wf(),
            0 <= old(self).user_id < USERNUM,
            0 <= cfd < NOFILE,
            old(self).usable(cfd as int, FREAD, READ) ==> old(buf)@.len() >= BLOCKSIZ * min(
                blocks_of_size(old(self).read_target(cfd as int).di_size as int),
                NADDR as int,
            ),
        ensures
            final(self).wf(),
            final(self).same_but_pool(old(self)),
            final(buf)@.len() == old(buf)@.len(),
            final(self).spent(old(self), NADDR as int),
            old(self).usable(cfd as int, FREAD, READ) && old(self).read_owed(old(self).read_target(cfd as int))
                && old(self).buffer_pool_manager.consistent() ==> final(self).buffer_pool_manager.consistent(),
            !old(self).usable(cfd as int, FREAD, READ) ==> r == 0 && final(buf)@ == old(buf)@,
            old(self).usable(cfd as int, FREAD, READ) && old(self).read_owed(old(self).read_target(cfd as int)) ==> r
                == old(self).read_target(cfd as int).di_size,
            old(self).usable(cfd as int, FREAD, READ) && old(self).read_owed(old(self).read_target(cfd as int))
                && old(self).blocks_fresh(old(self).read_target(cfd as int)) ==> {
                let n = old(self).read_target(cfd as int);
                forall|k: int|
                    0 <= k < BLOCKSIZ * min(blocks_of_size(n.di_size as int), NADDR as int) ==> #[trigger] final(buf)@[k]
                        == block_of(old(self).buffer_pool_manager.disk_view(), 34 + n.di_addr@[k / 512])[k % 512]
            },
            old(self).usable(cfd as int, FREAD, READ) && old(self).read_owed(old(self).read_target(cfd as int))
                && old(self).buffer_pool_manager.consistent() ==> {
                let n = old(self).read_target(cfd as int);
                let nb = min(blocks_of_size(n.di_size as int), NADDR as int);
                forall|k: int|
                    0 <= k < nb && (forall|j: int| k < j < nb ==> n.di_addr@[j] != n.di_addr@[k]) ==> final(self).block_holds(
                        #[trigger] n.di_addr@[k],
                        final(buf)@.subrange(512 * k, 512 * k + 512),
                    )
            },
            r != 0 ==> old(self).usable(cfd as int, FREAD, READ) && {
                let t = old(self).user@[old(self).user_id as int].u_ofile@[cfd as int];
                let n = old(self).inodes@[old(self).sys_ofile@[t as int].f_inode as int];
                &&& r == n.di_size
                &&& forall|k: int|
                    BLOCKSIZ * min(blocks_of_size(n.di_size as int), NADDR as int) <= k < old(buf)@.len() ==> #[trigger] final(buf)@[k]
                        == old(buf)@[k]
            },
    {
        let uid = self.user_id as usize;
        let t = self.user[uid].u_ofile[cfd as usize] as usize;
        if t >= SYSOPENFILE {
            return 0;
        }
        let e = self.sys_ofile[t];
        if e.f_flag & FREAD == 0 {
            return 0;
        }
        if self.access(self.user_id, e.f_inode, READ) == 0 {
            return 0;
        }
        let n = self.inodes[e.f_inode];
        let ghost cond = old(self).read_owed(n) && old(self).blocks_fresh(n);
        let ghost cr = old(self).read_owed(n) && old(self).buffer_pool_manager.consistent();
        let ghost d = old(self).buffer_pool_manager.disk_view();
        let nb: u32 = n.di_size / 512 + if n.di_size % 512 != 0 { 1 } else { 0 };
        let mut i: usize = 0;
        while i < nb as usize && i < NADDR
            invariant
                self.wf(),
                self.same_but_pool(old(self)),
                i <= NADDR,
                i <= nb,
                buf@.len() == old(buf)@.len(),
                buf@.len() >= BLOCKSIZ * min(nb as int, NADDR as int),
                nb == blocks_of_size(n.di_size as int),
                old(self).usable(cfd as int, FREAD, READ),
                self.spent(old(self), i as int),
                n == old(self).inodes@[old(self).sys_ofile@[old(self).user@[old(self).user_id as int].u_ofile@[cfd as int] as int].f_inode as int],
                forall|k: int| BLOCKSIZ * i <= k < buf@.len() ==> #[trigger] buf@[k] == old(buf)@[k],
                cond == (old(self).read_owed(n) && old(self).blocks_fresh(n)),
                d == old(self).buffer_pool_manager.disk_view(),
                cond ==> self.buffer_pool_manager.disk_view() == d,
                cond ==> forall|p: i32| #[trigger]
                    self.buffer_pool_manager.holds_entry(p) ==> old(self).buffer_pool_manager.holds_entry(p) || exists|ii: int|
                        0 <= ii < i && p as int == 34 + #[trigger] n.di_addr@[ii],
                cond ==> forall|k: int|
                    0 <= k < BLOCKSIZ * i ==> #[trigger] buf@[k] == block_of(d, 34 + n.di_addr@[k / 512])[k % 512],
                cr == (old(self).read_owed(n) && old(self).buffer_pool_manager.consistent()),
                cr ==> self.buffer_pool_manager.consistent(),
                cr ==> forall|k: int|
                    0 <= k < i && (forall|j: int| k < j < i ==> n.di_addr@[j] != n.di_addr@[k]) ==> self.block_holds(
                        #[trigger] n.di_addr@[k],
                        buf@.subrange(512 * k, 512 * k + 512),
                    ),
            decreases NADDR - i,
        {
            let ghost sa = *self;
            let ghost buf_a = buf@;
            proof {
                if cond {
                    let pid = (34 + n.di_addr@[i as int]) as i32;
                    assert(i < min(blocks_of_size(n.di_size as int), NADDR as int));
                    if self.buffer_pool_manager.table_lookup(pid) is Some {
                        self.buffer_pool_manager.lemma_lookup_held(pid);
                        assert(self.buffer_pool_manager.holds_entry(pid));
                        assert(!old(self).buffer_pool_manager.holds_entry((34 + n.di_addr@[i as int]) as i32));
                        let ii = choose|ii: int| 0 <= ii < i && pid as int == 34 + #[trigger] n.di_addr@[ii];
                        assert(n.di_addr@[ii] != n.di_addr@[i as int]);
                    }
                }
            }
            let f = match self.fetch_block(34 + n.di_addr[i] as u64) {
                Some(f) => f,
                None => {
                    return 0;
                },
            };
            let page = self.frame_bytes(f);
            proof {
                let m = min(nb as int, NADDR as int);
                assert(i < m);
                assert(BLOCKSIZ * i + BLOCKSIZ <= BLOCKSIZ * m) by (nonlinear_arith)
                    requires
                        i < m,
                        BLOCKSIZ == 512,
                ;
            }
            let ghost pre_buf = buf@;
            let mut k: usize = 0;
            while k < BLOCKSIZ
                invariant
                    k <= BLOCKSIZ,
                    i < NADDR,
                    buf@.len() == old(buf)@.len(),
                    BLOCKSIZ * i + BLOCKSIZ <= buf@.len(),
                    pre_buf.len() == buf@.len(),
                    page@.len() == BLOCKSIZ,
                    forall|m: int| BLOCKSIZ * i + k <= m < buf@.len() ==> #[trigger] buf@[m] == old(buf)@[m],
                    forall|m: int| 0 <= m < BLOCKSIZ * i ==> #[trigger] buf@[m] == pre_buf[m],
                    forall|m: int| 0 <= m < k ==> #[trigger] buf@[BLOCKSIZ * i + m] == page@[m],
                decreases BLOCKSIZ - k,
            {
                buf.set(i * BLOCKSIZ + k, page[k]);
                k = k + 1;
            }
            proof {
                if cr {
                    self.lemma_read_block(&sa, n, i as int, f as int, buf_a, buf@);
                }
                if cond {
                    assert(page@ == block_of(d, 34 + n.di_addr@[i as int]));
                    assert forall|m: int| 0 <= m < BLOCKSIZ * (i + 1) implies #[trigger] buf@[m] == block_of(
                        d,
                        34 + n.di_addr@[m / 512],
                    )[m % 512] by {
                        if m >= BLOCKSIZ * i {
                            let q = m - BLOCKSIZ * i;
                            assert(m / 512 == i && m % 512 == q) by (nonlinear_arith)
                                requires
                                    m == 512 * i + q,
                                    0 <= q < 512,
                            ;
                            assert(buf@[BLOCKSIZ * i + q] == page@[q]);
                        } else {
                            assert(buf@[m] == pre_buf[m]);
                        }
                    }
                }
            }
            i = i + 1;
        }
        proof {
            assert(BLOCKSIZ * min(blocks_of_size(n.di_size as int), NADDR as int) == BLOCKSIZ * i);
        }
        n.di_size
    }

    /// After block `i` of inode `n` was fetched into frame `f` and copied to
    /// bytes `512 * i ..` of the buffer, every block up to `i` whose chunk
    /// of the buffer was read from a frame holding it is still held so.
    proof fn lemma_read_block(&self, sa: &Self, n: Inode, i: int, f: int, buf_a: Seq<u8>, buf: Seq<u8>)
        requires
            0 <= i,
            512 * i + 512 <= buf.len(),
            buf.len() == buf_a.len(),
            forall|m: int| 0 <= m < 512 * i ==> #[trigger] buf[m] == buf_a[m],
            0 <= f < self.buffer_pool_manager.spec_pool_size(),
            self.buffer_pool_manager.spec_pool_size() == sa.buffer_pool_manager.spec_pool_size(),
            self.buffer_pool_manager.frame_page(f) == 34 + n.di_addr@[i],
            self.buffer_pool_manager.pages_view()[f].len() == 512,
            forall|m: int| 0 <= m < 512 ==> #[trigger] buf[512 * i + m] == self.buffer_pool_manager.pages_view()[f][m],
            self.buffer_pool_manager.frames_kept_but(&sa.buffer_pool_manager, (34 + n.di_addr@[i]) as i32),
            forall|k: int|
                0 <= k < i && (forall|j: int| k < j < i ==> n.di_addr@[j] != n.di_addr@[k]) ==> sa.block_holds(
                    #[trigger] n.di_addr@[k],
                    buf_a.subrange(512 * k, 512 * k + 512),
                ),
        ensures
            forall|k: int|
                0 <= k < i + 1 && (forall|j: int| k < j < i + 1 ==> n.di_addr@[j] != n.di_addr@[k]) ==> self.block_holds(
                    #[trigger] n.di_addr@[k],
                    buf.subrange(512 * k, 512 * k + 512),
                ),
    {
        let a = n.di_addr@;
        assert forall|k: int| 0 <= k < i + 1 && (forall|j: int| k < j < i + 1 ==> a[j] != a[k]) implies self.block_holds(
            #[trigger] a[k],
            buf.subrange(512 * k, 512 * k + 512),
        ) by {
            let c = buf.subrange(512 * k, 512 * k + 512);
            if k == i {
                let pg = self.buffer_pool_manager.pages_view()[f];
                assert(pg.subrange(0, 512) =~= c) by {
                    assert forall|m: int| 0 <= m < 512 implies pg.subrange(0, 512)[m] == c[m] by {
                        assert(c[m] == buf[512 * i + m]);
                    }
                }
                assert(pg.subrange(0, c.len() as int) == c);
            } else {
                assert(a[i] != a[k]);
                let ca = buf_a.subrange(512 * k, 512 * k + 512);
                assert(ca =~= c) by {
                    assert forall|m: int| 0 <= m < 512 implies ca[m] == c[m] by {
                        assert(512 * k + m < 512 * i);
                        assert(buf[512 * k + m] == buf_a[512 * k + m]);
                    }
                }
                assert(sa.block_holds(a[k], ca));
                let g = choose|g: int|
                    0 <= g < sa.buffer_pool_manager.spec_pool_size() && sa.buffer_pool_manager.frame_page(g) == 34 + a[k]
                        && (#[trigger] sa.buffer_pool_manager.pages_view()[g]).subrange(0, ca.len() as int) == ca;
                assert(self.buffer_pool_manager.pages_view()[g] == sa.buffer_pool_manager.pages_view()[g]);
                assert(self.buffer_pool_manager.frame_page(g) == 34 + a[k]);
            }
        }
    }

    /// Whether the inode arena of `self` is that of `o` but for inode `h`,
    /// which keeps everything but its block addresses.
    pub open spec fn only_addr_changed(&self, o: &Self, h: InodeRef) -> bool {
        &&& self.inodes@.len() == o.inodes@.len()
        &&& forall|k: int| 0 <= k < o.inodes@.len() && k != h ==> #[trigger] self.inodes@[k] == o.inodes@[k]
        &&& self.inodes@[h as int] == Inode { di_addr: self.inodes@[h as int].di_addr, ..o.inodes@[h as int] }
    }

    /// Appends `size` bytes of `buf` to file `h`, open at the current
    /// user's entry `cfd` with `FAPPEND`: the first bytes go to the first
    /// block from two bytes before the end of the file (allocating the block
    /// for an empty file), the rest to newly allocated following blocks, the
    /// last part of the rest taken from just after the first part. Returns
    /// the number of bytes stored, or `None` when the file size is not 0 or 2
    /// to 511 or a block cannot be had.
    #[verifier::rlimit(100)]
    fn write_append(&mut self, cfd: i32, h: InodeRef, buf: &[u8], size: u32) -> (w: Option<u32>)
        requires
            old(self).wf(),
            0 <= old(self).user_id < USERNUM,
            0 <= cfd < NOFILE,
            size <= buf.len(),
            ({
                let t = old(self).user@[old(self).user_id as int].u_ofile@[cfd as int];
                let e = old(self).sys_ofile@[t as int];
                &&& t < SYSOPENFILE
                &&& h == e.f_inode
                &&& e.f_flag & FAPPEND != 0
                &&& old(self).inodes@[h as int].di_size + size <= u32::MAX
            }),
            old(self).usable(cfd as int, FWRITE | FAPPEND, WRITE),
        ensures
            final(self).wf(),
            final(self).only_addr_changed(old(self), h),
            final(self).sys_ofile == old(self).sys_ofile,
            final(self).hinode@ == old(self).hinode@,
            final(self).others_same(old(self)),
            w is Some ==> {
                let s0 = old(self).inodes@[h as int].di_size;
                s0 == 0 || 2 <= s0 < BLOCKSIZ
            },
            w is Some && old(self).inodes@[h as int].di_size != 0 ==> final(self).inodes@[h as int].di_addr@[0]
                == old(self).inodes@[h as int].di_addr@[0],
            w matches Some(x) ==> x == append_written(old(self).inodes@[h as int].di_size as int, size as int),
            old(self).write_owed(cfd as int, size as int) ==> w is Some,
            old(self).write_owed(cfd as int, size as int) && old(self).buffer_pool_manager.consistent() ==> final(self).appended(
                final(self).inodes@[h as int].di_addr@,
                buf@,
                old(self).inodes@[h as int].di_size as int,
                size as int,
            ),
    {
        let uid = self.user_id as usize;
        let t = self.user[uid].u_ofile[cfd as usize] as usize;
        let e = self.sys_ofile[t];
        let n0 = self.inodes[h];
        let ghost o = *self;
        let mut written: u32 = 0;
        let ghost mut done: int = 0;
        let ghost ad = o.write_owed(cfd as int, size as int) && o.buffer_pool_manager.consistent();
        let ghost offs = |k: int| append_off(n0.di_size as int, k);
        let ghost pieces = |k: int| append_piece(buf@, n0.di_size as int, size as int, k);
        let ghost owed = o.write_owed(cfd as int, size as int);
        let s0 = n0.di_size;
        if !(s0 == 0 || (2 <= s0 && s0 < 512)) {
            return None;
        }
        let ghost a0: int = if s0 == 0 { 1int } else { 0int };
        let ghost s_start = *self;
        if s0 == 0 {
            proof {
                if owed {
                    assert(self.stack_gives());
                }
            }
            if !self.alloc_block(h, 0) {
                return None;
            }
        }
        let room: u32 = 512 - s0;
        let write_len: usize = if size < room { size as usize } else { room as usize };
        let offset: usize = if s0 != 0 { (s0 % 512 - 2) as usize } else { 0 };
        let blk0 = self.inodes[h].di_addr[0];
        proof {
            if owed {
                if s0 == 0 {
                    assert(blk0 == o.filsys.s_free@[o.filsys.s_pfree - 1] as u16);
                    assert(o.can_read(34 + (o.filsys.s_free@[o.filsys.s_pfree - 1 - 0]) as u16));
                } else {
                    assert(o.can_read(34 + n0.di_addr@[0]));
                }
                assert(self.can_read(34 + blk0));
            }
        }
        let ghost s1 = *self;
        proof {
            assert(ad ==> self.buffer_pool_manager == s_start.buffer_pool_manager && self.room() >= 1) by {
                if ad {
                    if s0 == 0 {
                        assert(s_start.filsys.s_pfree != 1);
                    }
                }
            }
        }
        if !self.store(blk0, offset, buf, 0, write_len) {
            return None;
        }
        proof {
            assert(ad ==> self.buffer_pool_manager.consistent() && self.pieces_held(
                self.inodes@[h as int].di_addr@,
                0,
                offs,
                pieces,
            )) by {
                if ad {
                    assert(offset == append_off(s0 as int, 0));
                    assert(buf@.subrange(0, 0 + write_len) == pieces(0));
                    assert(self.block_holds_at(s1.inodes@[h as int].di_addr@[0], offs(0), pieces(0)));
                    self.lemma_piece_stored(&s1, h, 0, offs, pieces);
                }
            }
            done = 0;
        }
        written = write_len as u32;
        let buf_off: usize = write_len;
        if buf_off < size as usize {
            let remaining: usize = size as usize - buf_off;
            let block_cnt: usize = remaining / 512;
            let mut pb: usize = 0;
            let mut i: usize = 0;
            while i < block_cnt
                invariant_except_break
                    pb == i,
                    i <= 9,
                invariant
                    self.wf(),
                    h < self.inodes@.len(),
                    self.only_addr_changed(&o, h),
                    self.sys_ofile == o.sys_ofile,
                    self.hinode@ == o.hinode@,
                    self.others_same(&o),
                    o == *old(self),
                    old(self).usable(cfd as int, FWRITE | FAPPEND, WRITE),
                    i <= block_cnt,
                    buf_off + block_cnt * 512 <= size,
                    size <= buf.len(),
                    s0 != 0 ==> self.inodes@[h as int].di_addr@[0] == n0.di_addr@[0],
                    n0 == o.inodes@[h as int],
                    owed == o.write_owed(cfd as int, size as int),
                    e == o.sys_ofile@[o.user@[o.user_id as int].u_ofile@[cfd as int] as int],
                    h == e.f_inode,
                    e.f_flag & FAPPEND != 0,
                    s0 == n0.di_size,
                    a0 == if s0 == 0 { 1int } else { 0int },
                    remaining == size - min(size as int, 512 - s0),
                    remaining > 0,
                    block_cnt == remaining / 512,
                    self.room() >= o.room() - 2 - 2 * i,
                    self.buffer_pool_manager.disk_view().len() >= o.buffer_pool_manager.disk_view().len(),
                    owed ==> {
                        &&& self.filsys.s_free == o.filsys.s_free
                        &&& self.filsys.s_pfree == o.filsys.s_pfree - (a0 + i)
                        &&& self.filsys.s_nfree == o.filsys.s_nfree - (a0 + i)
                    },
                    ad == (o.write_owed(cfd as int, size as int) && e.f_flag & FAPPEND != 0 && o.buffer_pool_manager.consistent()),
                    offs == (|k: int| append_off(n0.di_size as int, k)),
                    pieces == (|k: int| append_piece(buf@, n0.di_size as int, size as int, k)),
                    buf_off == min(size as int, 512 - s0),
                    ad ==> self.buffer_pool_manager.consistent(),
                    ad ==> self.pieces_held(self.inodes@[h as int].di_addr@, i as int, offs, pieces),
                ensures
                    ad ==> self.buffer_pool_manager.consistent(),
                    ad ==> self.pieces_held(self.inodes@[h as int].di_addr@, i as int, offs, pieces),
                    pb <= 10,
                    i <= 9,
                    i <= block_cnt,
                    (pb == i && i == block_cnt) || (pb == 10 && i == 9),
                    self.wf(),
                    h < self.inodes@.len(),
                    self.only_addr_changed(&o, h),
                    self.sys_ofile == o.sys_ofile,
                    self.hinode@ == o.hinode@,
                    self.others_same(&o),
                    s0 != 0 ==> self.inodes@[h as int].di_addr@[0] == n0.di_addr@[0],
                    self.room() >= o.room() - 2 - 2 * i,
                    self.buffer_pool_manager.disk_view().len() >= o.buffer_pool_manager.disk_view().len(),
                    owed ==> {
                        &&& self.filsys.s_free == o.filsys.s_free
                        &&& self.filsys.s_pfree == o.filsys.s_pfree - (a0 + i)
                        &&& self.filsys.s_nfree == o.filsys.s_nfree - (a0 + i)
                    },
                decreases block_cnt - i,
            {
                pb = pb + 1;
                if pb > 9 {
                    break;
                }
                let ghost s1 = *self;
                proof {
                    if owed {
                        assert(a0 + i < a0 + append_blocks(s0 as int, size as int));
                        assert(self.stack_gives());
                    }
                }
                if !self.alloc_block(h, pb) {
                    return None;
                }
                let blk = self.inodes[h].di_addr[pb];
                proof {
                    if owed {
                        let j = a0 + i;
                        assert(blk == s1.filsys.s_free@[s1.filsys.s_pfree - 1] as u16);
                        assert(o.can_read(34 + (o.filsys.s_free@[o.filsys.s_pfree - 1 - j]) as u16));
                        assert(self.can_read(34 + blk));
                    }
                }
                let ghost s2 = *self;
                proof {
                    if ad {
                        assert(s1.filsys.s_pfree != 1);
                        assert(self.buffer_pool_manager == s1.buffer_pool_manager);
                        assert(self.room() >= 1);
                        self.lemma_pieces_same_pool(&s1, h, i as int, offs, pieces);
                    }
                }
                if !self.store(blk, 0, buf, buf_off + i * 512, 512) {
                    return None;
                }
                proof {
                    if ad {
                        assert(buf@.subrange((buf_off + i * 512) as int, buf_off + i * 512 + 512) == pieces(i + 1));
                        assert(self.block_holds_at(s2.inodes@[h as int].di_addr@[i + 1], offs(i + 1), pieces(i + 1)));
                        self.lemma_piece_stored(&s2, h, i + 1, offs, pieces);
                    }
                }
                i = i + 1;
            }
            proof {
                done = i as int;
            }
            let ghost pb0 = pb;
            if remaining % 512 != 0 {
                pb = pb + 1;
                if pb <= 9 {
                    let ghost s1 = *self;
                    proof {
                        if owed {
                            assert(a0 + i < a0 + append_blocks(s0 as int, size as int));
                            assert(self.stack_gives());
                        }
                    }
                    if !self.alloc_block(h, pb) {
                        return None;
                    }
                    let blk = self.inodes[h].di_addr[pb];
                    proof {
                        if owed {
                            let j = a0 + i;
                            assert(blk == s1.filsys.s_free@[s1.filsys.s_pfree - 1] as u16);
                            assert(o.can_read(34 + (o.filsys.s_free@[o.filsys.s_pfree - 1 - j]) as u16));
                            assert(self.can_read(34 + blk));
                        }
                    }
                    let ghost s2 = *self;
                    proof {
                        assert(ad ==> self.buffer_pool_manager == s1.buffer_pool_manager && self.room() >= 1
                            && self.pieces_held(self.inodes@[h as int].di_addr@, i as int, offs, pieces)) by {
                            if ad {
                                assert(s1.filsys.s_pfree != 1);
                                self.lemma_pieces_same_pool(&s1, h, i as int, offs, pieces);
                            }
                        }
                    }
                    if !self.store(blk, 0, buf, buf_off, remaining % 512) {
                        return None;
                    }
                    proof {
                        assert(ad ==> self.buffer_pool_manager.consistent() && self.pieces_held(
                            self.inodes@[h as int].di_addr@,
                            i + 1,
                            offs,
                            pieces,
                        )) by {
                            if ad {
                                assert(i == block_cnt);
                                assert(buf@.subrange(buf_off as int, buf_off + remaining % 512) == pieces(i + 1));
                                assert(self.block_holds_at(s2.inodes@[h as int].di_addr@[i + 1], offs(i + 1), pieces(i + 1)));
                                self.lemma_piece_stored(&s2, h, i + 1, offs, pieces);
                            }
                        }
                        done = i + 1;
                    }
                }
            }
            proof {
                assert(done == append_blocks(n0.di_size as int, size as int)) by {
                    assert(buf_off == min(size as int, 512 - s0));
                    let rm = size - min(size as int, 512 - n0.di_size);
                    assert(remaining == rm);
                    assert(block_cnt == rm / 512);
                    assert(rm > 0);
                    if remaining % 512 != 0 && pb0 + 1 <= 9 {
                        assert(pb0 == i && i == block_cnt);
                        assert(done == i + 1);
                    } else {
                        assert(done == i);
                        assert(block_cnt >= 9 || i == block_cnt);
                    }
                }
            }
            let nfull: usize = if block_cnt < 9 { block_cnt } else { 9 };
            let tail: usize = if block_cnt <= 8 && remaining % 512 != 0 { remaining % 512 } else { 0 };
            proof {
                assert(nfull * 512 + tail <= remaining) by (nonlinear_arith)
                    requires
                        block_cnt == remaining / 512,
                        nfull <= block_cnt,
                        nfull == block_cnt || nfull == 9,
                        block_cnt >= 9 ==> nfull == 9 && tail == 0,
                        tail == 0 || tail == remaining % 512,
                        tail != 0 ==> nfull == block_cnt,
                ;
            }
            written = (write_len + nfull * 512 + tail) as u32;
        } else {
            proof {
                assert(done == append_blocks(n0.di_size as int, size as int));
            }
        }
        proof {
            assert(ad ==> self.appended(self.inodes@[h as int].di_addr@, buf@, n0.di_size as int, size as int)) by {
                if ad {
                    assert(done == append_blocks(n0.di_size as int, size as int));
                    assert(self.pieces_held(self.inodes@[h as int].di_addr@, done, offs, pieces));
                }
            }
        }
        Some(written)
    }

    /// Writes `size` bytes of `buf` to the file at the current user's
    /// open-file entry `cfd`.
    ///
    /// Opened without `FAPPEND`, the bytes go to the file's blocks from the
    /// start (at most `NADDR` blocks), new blocks being allocated past the
    /// file's old block count, and the old blocks past the new count are
    /// released. Opened with `FAPPEND`, the first bytes go to the file's
    /// first block from two bytes before the end of the file (allocating the
    /// block for an empty file), the rest to newly allocated following blocks;
    /// the last part of the rest is taken from just after the first part.
    /// Rewriting sets the file size and the offset to `size`; appending
    /// grows them by `size`; both are capped at `NADDR * BLOCKSIZ`. Returns the number of bytes stored
    /// (`bytes_written`), or 0 when the entry is not open
    /// for writing, the user may not write the file, appending starts from a
    /// size other than 0 or 2 to 511, or a block cannot be had.
    #[verifier::rlimit(100)]
    pub fn write(&mut self, cfd: i32, buf: &[u8], size: u32) -> (r: u32)
        requires
            old(self).wf(),
            0 <= old(self).user_id < USERNUM,
            0 <= cfd < NOFILE,
            size <= buf.len(),
            ({
                let t = old(self).user@[old(self).user_id as int].u_ofile@[cfd as int];
                let e = old(self).sys_ofile@[t as int];
                t < SYSOPENFILE ==> old(self).inodes@[e.f_inode as int].di_size + size <= u32::MAX && e.f_off + size
                    <= u32::MAX
            }),
        ensures
            final(self).wf(),
            final(self).hinode@ == old(self).hinode@,
            final(self).dir == old(self).dir,
            final(self).pwd == old(self).pwd,
            final(self).user == old(self).user,
            final(self).cur_path_inode == old(self).cur_path_inode,
            final(self).user_id == old(self).user_id,
            !old(self).usable(cfd as int, FWRITE | FAPPEND, WRITE) ==> r == 0 && *final(self) == *old(self),
            old(self).write_owed(cfd as int, size as int) && old(self).sys_ofile@[old(self).user@[old(self).user_id as int].u_ofile@[cfd as int] as int].f_flag
                & FAPPEND == 0 ==> final(self).spent(old(self), 2 * NADDR),
            old(self).write_owed(cfd as int, size as int) && old(self).sys_ofile@[old(self).user@[old(self).user_id as int].u_ofile@[cfd as int] as int].f_flag
                & FAPPEND == 0 && old(self).buffer_pool_manager.consistent() ==> final(self).buffer_pool_manager.consistent(),
            ({
                let t = old(self).user@[old(self).user_id as int].u_ofile@[cfd as int] as int;
                &&& old(self).write_owed(cfd as int, size as int)
                &&& old(self).sys_ofile@[t].f_flag & FAPPEND == 0
                &&& old(self).buffer_pool_manager.consistent()
            }) ==> {
                let t = old(self).user@[old(self).user_id as int].u_ofile@[cfd as int] as int;
                let a = final(self).inodes@[old(self).sys_ofile@[t].f_inode as int].di_addr@;
                let nb = min(blocks_of_size(size as int), NADDR as int);
                forall|k: int|
                    0 <= k < nb && (forall|j: int| k < j < nb ==> a[j] != a[k]) ==> final(self).block_holds(
                        #[trigger] a[k],
                        chunk(buf@, size as int, k),
                    )
            },
            ({
                let t = old(self).user@[old(self).user_id as int].u_ofile@[cfd as int] as int;
                &&& old(self).write_owed(cfd as int, size as int)
                &&& old(self).sys_ofile@[t].f_flag & FAPPEND != 0
                &&& old(self).buffer_pool_manager.consistent()
            }) ==> {
                let t = old(self).user@[old(self).user_id as int].u_ofile@[cfd as int] as int;
                let h = old(self).sys_ofile@[t].f_inode as int;
                final(self).appended(final(self).inodes@[h].di_addr@, buf@, old(self).inodes@[h].di_size as int, size as int)
            },
            old(self).write_owed(cfd as int, size as int) ==> ({
                let t = old(self).user@[old(self).user_id as int].u_ofile@[cfd as int] as int;
                let e = old(self).sys_ofile@[t];
                r == bytes_written(e.f_flag & FAPPEND != 0, old(self).inodes@[e.f_inode as int].di_size as int, size as int)
            }),
            r != 0 ==> old(self).usable(cfd as int, FWRITE | FAPPEND, WRITE) && {
                let t = old(self).user@[old(self).user_id as int].u_ofile@[cfd as int] as int;
                let e = old(self).sys_ofile@[t];
                let h = e.f_inode;
                let n = old(self).inodes@[h as int];
                let cap = (NADDR * BLOCKSIZ) as int;
                let pre = blocks_of_size(n.di_size as int);
                &&& r == bytes_written(e.f_flag & FAPPEND != 0, n.di_size as int, size as int)
                &&& final(self).inodes@.len() == old(self).inodes@.len()
                &&& forall|k: int| 0 <= k < old(self).inodes@.len() && k != h ==> #[trigger] final(self).inodes@[k] == old(self).inodes@[k]
                &&& final(self).inodes@[h as int] == Inode {
                    di_addr: final(self).inodes@[h as int].di_addr,
                    di_size: final(self).inodes@[h as int].di_size,
                    ..n
                }
                &&& final(self).inodes@[h as int].di_size == if e.f_flag & FAPPEND != 0 {
                    min(n.di_size + size, cap)
                } else {
                    min(size as int, cap)
                }
                &&& final(self).sys_ofile@ == old(self).sys_ofile@.update(
                    t,
                    (file {
                        f_off: (if e.f_flag & FAPPEND != 0 {
                            min(e.f_off + size, cap)
                        } else {
                            min(size as int, cap)
                        }) as u32,
                        ..e
                    }),
                )
                &&& e.f_flag & FAPPEND == 0 ==> forall|k: int|
                    0 <= k < pre && k < NADDR ==> #[trigger] final(self).inodes@[h as int].di_addr@[k] == n.di_addr@[k]
                &&& e.f_flag & FAPPEND != 0 ==> (n.di_size == 0 || 2 <= n.di_size < BLOCKSIZ)
                &&& e.f_flag & FAPPEND != 0 && n.di_size != 0 ==> final(self).inodes@[h as int].di_addr@[0] == n.di_addr@[0]
            },
    {
        let uid = self.user_id as usize;
        let t = self.user[uid].u_ofile[cfd as usize] as usize;
        if t >= SYSOPENFILE {
            return 0;
        }
        let e = self.sys_ofile[t];
        proof {
            lemma_write_bits(e.f_flag);
        }
        if e.f_flag & FWRITE == 0 && e.f_flag & FAPPEND == 0 {
            return 0;
        }
        if self.access(self.user_id, e.f_inode, WRITE) == 0 {
            return 0;
        }
        let h = e.f_inode;
        let n0 = self.inodes[h];
        let ghost o = *self;
        let ghost wd = o.write_owed(cfd as int, size as int) && e.f_flag & FAPPEND == 0 && o.buffer_pool_manager.consistent();
        let mut written: u32 = 0;
        let ghost mut done: int = 0;
        let ghost mut s_w = *self;
        let ghost ad = o.write_owed(cfd as int, size as int) && e.f_flag & FAPPEND != 0 && o.buffer_pool_manager.consistent();
        if e.f_flag & FAPPEND == 0 {
            written = if size > 5120 { 5120 } else { size };
            let pre: usize = (n0.di_size / 512 + if n0.di_size % 512 != 0 { 1 } else { 0 }) as usize;
            let full: usize = (size / 512) as usize;
            let rem: usize = (size % 512) as usize;
            let mut i: usize = 0;
            while i < full && i <= 9
                invariant
                    self.wf(),
                    h < self.inodes@.len(),
                    self.only_addr_changed(&o, h),
                    self.sys_ofile == o.sys_ofile,
                    self.hinode@ == o.hinode@,
                    self.others_same(&o),
                    o == *old(self),
                    old(self).usable(cfd as int, FWRITE | FAPPEND, WRITE),
                    full * 512 <= size,
                    size <= buf.len(),
                    i <= 10,
                    forall|k: int| 0 <= k < pre && k < NADDR ==> #[trigger] self.inodes@[h as int].di_addr@[k] == n0.di_addr@[k],
                    n0 == o.inodes@[h as int],
                    pre == blocks_of_size(n0.di_size as int),
                    full == size / 512,
                    rem == size % 512,
                    e == o.sys_ofile@[o.user@[o.user_id as int].u_ofile@[cfd as int] as int],
                    h == e.f_inode,
                    e.f_flag & FAPPEND == 0,
                    i <= full,
                    self.room() >= o.room() - 2 * i,
                    self.buffer_pool_manager.disk_view().len() >= o.buffer_pool_manager.disk_view().len(),
                    o.write_owed(cfd as int, size as int) ==> {
                        let k = if i > pre { i - pre } else { 0 };
                        &&& self.filsys.s_free == o.filsys.s_free
                        &&& self.filsys.s_pfree == o.filsys.s_pfree - k
                        &&& self.filsys.s_nfree == o.filsys.s_nfree - k
                    },
                    i <= pre ==> self.filsys == o.filsys,
                    wd == (o.write_owed(cfd as int, size as int) && e.f_flag & FAPPEND == 0 && o.buffer_pool_manager.consistent()),
                    wd ==> self.buffer_pool_manager.consistent(),
                    wd ==> forall|k: int|
                        0 <= k < i && (forall|j: int| k < j < i ==> self.inodes@[h as int].di_addr@[j] != self.inodes@[h as int].di_addr@[k])
                            ==> self.block_holds(#[trigger] self.inodes@[h as int].di_addr@[k], chunk(buf@, size as int, k)),
                decreases full - i,
            {
                let ghost s0 = *self;
                if i >= pre {
                    proof {
                        if o.write_owed(cfd as int, size as int) {
                            assert(self.stack_gives());
                        }
                    }
                    if !self.alloc_block(h, i) {
                        return 0;
                    }
                }
                let blk = self.inodes[h].di_addr[i];
                proof {
                    if o.write_owed(cfd as int, size as int) {
                        if i < pre {
                            assert(o.can_read(34 + n0.di_addr@[i as int]));
                        } else {
                            let j = i - pre;
                            assert(blk == s0.filsys.s_free@[s0.filsys.s_pfree - 1] as u16);
                            assert(o.can_read(34 + (o.filsys.s_free@[o.filsys.s_pfree - 1 - j]) as u16));
                        }
                        assert(self.can_read(34 + blk));
                    }
                }
                let ghost s1 = *self;
                proof {
                    if wd {
                        if i >= pre {
                            assert(s0.filsys.s_pfree != 1);
                        }
                        assert(self.buffer_pool_manager == s0.buffer_pool_manager);
                        assert(self.room() >= 1);
                        self.lemma_holds_after_alloc(&s0, h, i as int, buf@, size as int);
                    }
                }
                if !self.store(blk, 0, buf, i * 512, 512) {
                    return 0;
                }
                proof {
                    if wd {
                        self.lemma_stored_block(&s1, h, i as int, 512, buf@, size as int);
                    }
                }
                i = i + 1;
            }
            proof {
                done = i as int;
            }
            if rem != 0 && full <= 9 {
                let ghost s0 = *self;
                if full >= pre {
                    proof {
                        if o.write_owed(cfd as int, size as int) {
                            assert(self.stack_gives());
                        }
                    }
                    if !self.alloc_block(h, full) {
                        return 0;
                    }
                }
                let blk = self.inodes[h].di_addr[full];
                proof {
                    if o.write_owed(cfd as int, size as int) {
                        if full < pre {
                            assert(o.can_read(34 + n0.di_addr@[full as int]));
                        } else {
                            let j = full - pre;
                            assert(blk == s0.filsys.s_free@[s0.filsys.s_pfree - 1] as u16);
                            assert(o.can_read(34 + (o.filsys.s_free@[o.filsys.s_pfree - 1 - j]) as u16));
                        }
                        assert(self.can_read(34 + blk));
                    }
                }
                let ghost s1 = *self;
                proof {
                    if wd {
                        if full >= pre {
                            assert(s0.filsys.s_pfree != 1);
                        }
                        assert(self.buffer_pool_manager == s0.buffer_pool_manager);
                        assert(self.room() >= 1);
                        self.lemma_holds_after_alloc(&s0, h, full as int, buf@, size as int);
                    }
                }
                if !self.store(blk, 0, buf, full * 512, rem) {
                    return 0;
                }
                proof {
                    if wd {
                        self.lemma_stored_block(&s1, h, full as int, rem as int, buf@, size as int);
                    }
                    done = full + 1;
                }
            }
            proof {
                s_w = *self;
                if wd {
                    assert(done == min(blocks_of_size(size as int), NADDR as int));
                }
            }
            let i_start: usize = full + if rem != 0 { 1 } else { 0 };
            let end: usize = if pre < NADDR { pre } else { NADDR };
            if i_start < end {
                let cnt = end - i_start;
                let addr = self.inodes[h].di_addr;
                let mut tmp: [u16; NADDR] = [0u16; 10];
                let mut k: usize = 0;
                while k < cnt
                    invariant
                        k <= cnt,
                        i_start + cnt <= NADDR,
                    decreases cnt - k,
                {
                    tmp[k] = addr[i_start + k];
                    k = k + 1;
                }
                proof {
                    if o.write_owed(cfd as int, size as int) {
                        assert(self.filsys == o.filsys);
                        assert(blocks_fit(self.filsys, cnt as int));
                    }
                }
                match self.free_blocks(tmp, cnt) {
                    Ok(()) => {},
                    Err(_) => {
                        return 0;
                    },
                }
            }
        } else {
            match self.write_append(cfd, h, buf, size) {
                Some(w) => {
                    written = w;
                },
                None => {
                    return 0;
                },
            }
            proof {
                s_w = *self;
            }
        }
        let cap: u32 = (NADDR * BLOCKSIZ) as u32;
        let append = e.f_flag & FAPPEND != 0;
        let mut fe = self.sys_ofile[t];
        fe.f_off = if append { fe.f_off + size } else { size };
        if fe.f_off > cap {
            fe.f_off = cap;
        }
        self.sys_ofile[t] = fe;
        let mut m = self.inodes[h];
        m.di_size = if append { m.di_size + size } else { size };
        if m.di_size > cap {
            m.di_size = cap;
        }
        self.inodes.set(h, m);
        proof {
            let cap_i = (NADDR * BLOCKSIZ) as int;
            assert(self.sys_ofile@ =~= old(self).sys_ofile@.update(
                t as int,
                (file {
                    f_off: (if append { min(e.f_off + size, cap_i) } else { min(size as int, cap_i) }) as u32,
                    ..e
                }),
            ));
            if wd {
                self.lemma_holds_after_alloc(&s_w, h, done, buf@, size as int);
            }
            assert(ad ==> self.appended(self.inodes@[h as int].di_addr@, buf@, n0.di_size as int, size as int)) by {
                if ad {
                    self.lemma_appended_same_pool(&s_w, h, buf@, n0.di_size as int, size as int);
                }
            }
        }
        written
    }

    /// Copies the contents of the file named `filename`, which the current
    /// user must have open and be allowed to read, into `cache`, sets
    /// `temp_file_size` to the file's size and closes the file. Returns
    /// whether the open file was found and read.
    pub fn cpy(&mut self, filename: &str, cache: &mut Vec<u8>, temp_file_size: &mut i32) -> (r: bool)
        requires
            old(self).wf(),
            0 <= old(self).user_id < USERNUM,
            old(cache)@.len() >= NADDR * BLOCKSIZ,
        ensures
            final(self).wf(),
            final(self).dir == old(self).dir,
            final(self).user_id == old(self).user_id,
            final(cache)@.len() == old(cache)@.len(),
            !r ==> final(cache)@ == old(cache)@,
            old(self).no_match(filename.spec_bytes()) ==> !r,
            old(self).open_and_readable(filename.spec_bytes(), 1) ==> r,
            !r ==> *final(temp_file_size) == *old(temp_file_size),
            r ==> exists|fd: int|
                0 <= fd < NOFILE && #[trigger] old(self).ofile_has(
                    old(self).user_id as int,
                    fd,
                    old(self).lookup(filename.spec_bytes()),
                ) && *final(temp_file_size) == old(self).read_target(fd).di_size as i32 && ({
                    let n = old(self).read_target(fd);
                    old(self).room() >= NADDR + 2 && old(self).lookup(filename.spec_bytes()) / 16 < 32 && old(self).usable(
                        fd,
                        FREAD,
                        READ,
                    ) && old(self).read_owed(n) && old(self).blocks_fresh(n) ==> forall|k: int|
                        0 <= k < BLOCKSIZ * min(blocks_of_size(n.di_size as int), NADDR as int) ==> #[trigger] final(cache)@[k]
                            == block_of(old(self).buffer_pool_manager.disk_view(), 34 + n.di_addr@[k / 512])[k % 512]
                }) && ({
                    let n = old(self).read_target(fd);
                    let nb = min(blocks_of_size(n.di_size as int), NADDR as int);
                    old(self).room() >= NADDR + 3 && old(self).lookup(filename.spec_bytes()) / 16 < 32 && old(self).usable(
                        fd,
                        FREAD,
                        READ,
                    ) && old(self).read_owed(n) && old(self).buffer_pool_manager.consistent() ==> forall|k: int|
                        0 <= k < nb && (forall|j: int| k < j < nb ==> n.di_addr@[j] != n.di_addr@[k]) ==> final(self).block_holds(
                            #[trigger] n.di_addr@[k],
                            final(cache)@.subrange(512 * k, 512 * k + 512),
                        )
                }),
    {
        let cpdino = self.namei(filename);
        let ghost o = *self;
        let h = match self.iget(cpdino) {
            Some(h) => h,
            None => {
                return false;
            },
        };
        proof {
            if o.open_and_readable(filename.spec_bytes(), 1) {
                assert(o.may_get(cpdino, self.inodes@[h as int]));
            }
        }
        if self.access(self.user_id, h, READ) == 0 {
            let _ = self.iput(h);
            return false;
        }
        let _ = self.iput(h);
        proof {
            if o.open_and_readable(filename.spec_bytes(), 1) {
                self.lemma_still_open(&o, filename.spec_bytes());
            }
        }
        let tfd = self.xfa(filename);
        if tfd == -1 {
            return false;
        }
        let uid = self.user_id as usize;
        let t = self.user[uid].u_ofile[tfd as usize] as usize;
        if t >= SYSOPENFILE {
            return false;
        }
        let size = self.inodes[self.sys_ofile[t].f_inode].di_size;
        proof {
            let name = filename.spec_bytes();
            let ino = o.lookup(name);
            self.lemma_lookup_same_dir(&o, name);
            assert(ino != NOT_FOUND);
            let j = choose|j: int| #[trigger] o.first_match_at(name, j);
            assert(self.first_match_at(name, j));
            assert(self.ofile_has(self.user_id as int, tfd as int, ino));
            let h2 = self.sys_ofile@[t as int].f_inode as int;
            assert(same_data(self.inodes@[h2], o.inodes@[h2]));
            assert(o.ofile_has(o.user_id as int, tfd as int, ino));
            assert(o.read_target(tfd as int).di_size == size);
            let n = o.read_target(tfd as int);
            let n2 = self.read_target(tfd as int);
            assert(same_data(n2, n));
            if o.room() >= NADDR + 2 && ino / 16 < 32 && o.usable(tfd as int, FREAD, READ) && o.read_owed(n) && o.blocks_fresh(n) {
                assert(n2.di_addr == n.di_addr && n2.di_size == n.di_size);
                assert(access_granted(self.user@, self.user_id as int, n2, READ) == access_granted(o.user@, o.user_id as int, n, READ));
                assert(self.usable(tfd as int, FREAD, READ));
                assert(self.read_owed(n2));
                assert forall|i: int| 0 <= i < min(blocks_of_size(n2.di_size as int), NADDR as int) implies !self.buffer_pool_manager.holds_entry(
                    (34 + #[trigger] n2.di_addr@[i]) as i32,
                ) by {
                    assert(!o.buffer_pool_manager.holds_entry((34 + n.di_addr@[i]) as i32));
                }
                assert(self.blocks_fresh(n2));
                assert(self.buffer_pool_manager.disk_view() == o.buffer_pool_manager.disk_view());
            }
        }
        *temp_file_size = size as i32;
        let ghost s2 = *self;
        let ghost rc = {
            let n = o.read_target(tfd as int);
            o.room() >= NADDR + 3 && o.lookup(filename.spec_bytes()) / 16 < 32 && o.usable(tfd as int, FREAD, READ) && o.read_owed(n)
                && o.buffer_pool_manager.consistent()
        };
        proof {
            if rc {
                let n = o.read_target(tfd as int);
                let n2 = self.read_target(tfd as int);
                assert(same_data(n2, n));
                assert(n2.di_addr == n.di_addr && n2.di_size == n.di_size);
                assert(access_granted(self.user@, self.user_id as int, n2, READ) == access_granted(o.user@, o.user_id as int, n, READ));
                assert(self.usable(tfd as int, FREAD, READ));
                assert(self.read_owed(n2));
                assert(self.buffer_pool_manager.consistent());
            }
        }
        let _ = self.read(tfd, cache);
        let ghost s3 = *self;
        if self.sys_ofile[t].f_count >= 1 {
            let _ = self.close(uid as u32, tfd as i16);
        }
        proof {
            if rc {
                let n = o.read_target(tfd as int);
                let a = n.di_addr@;
                let nb = min(blocks_of_size(n.di_size as int), NADDR as int);
                let h2 = s2.sys_ofile@[t as int].f_inode as int;
                assert(s3.inodes@[h2].i_ino == o.lookup(filename.spec_bytes()));
                assert(s3.buffer_pool_manager.consistent());
                assert(s3.room() >= 1);
                assert(s3.user@[s3.user_id as int].u_ofile@[tfd as int] == t);
                assert forall|k: int| 0 <= k < nb && (forall|j: int| k < j < nb ==> a[j] != a[k]) implies self.block_holds(
                    #[trigger] a[k],
                    cache@.subrange(512 * k, 512 * k + 512),
                ) by {
                    assert(s3.block_holds(a[k], cache@.subrange(512 * k, 512 * k + 512)));
                    if s3.sys_ofile@[t as int].f_count >= 1 {
                        let c = cache@.subrange(512 * k, 512 * k + 512);
                        let g = choose|g: int|
                            0 <= g < s3.buffer_pool_manager.spec_pool_size() && s3.buffer_pool_manager.frame_page(g) == 34 + a[k]
                                && (#[trigger] s3.buffer_pool_manager.pages_view()[g]).subrange(0, c.len() as int) == c;
                        assert(self.buffer_pool_manager.pages_view()[g] == s3.buffer_pool_manager.pages_view()[g]);
                        assert(self.buffer_pool_manager.frame_page(g) == 34 + a[k]);
                    }
                }
            }
        }
        true
    }

    /// Writes the first `temp_file_size` bytes of `cache` to the file named
    /// `filename`, which the current user must have open and be allowed to
    /// read, and closes the file. Returns whether the bytes were written.
    pub fn pst(&mut self, filename: &str, cache: &[u8], temp_file_size: i32) -> (r: bool)
        requires
            old(self).wf(),
            0 <= old(self).user_id < USERNUM,
        ensures
            final(self).wf(),
            final(self).dir == old(self).dir,
            final(self).user_id == old(self).user_id,
            old(self).no_match(filename.spec_bytes()) ==> !r,
            0 <= temp_file_size <= cache@.len() && old(self).paste_owed(filename.spec_bytes(), temp_file_size as int) ==> r,
            r && temp_file_size > 0 ==> exists|fd: int|
                0 <= fd < NOFILE && #[trigger] old(self).ofile_has(
                    old(self).user_id as int,
                    fd,
                    old(self).lookup(filename.spec_bytes()),
                ) && old(self).pasted(fd, temp_file_size as int, *final(self)),
            0 <= temp_file_size <= cache@.len() && old(self).paste_owed(filename.spec_bytes(), temp_file_size as int)
                && old(self).buffer_pool_manager.consistent() && old(self).room() >= 2 * NADDR + 3 && old(self).lookup(
                filename.spec_bytes(),
            ) / 16 < 32 ==> exists|fd: int|
                0 <= fd < NOFILE && #[trigger] old(self).ofile_has(
                    old(self).user_id as int,
                    fd,
                    old(self).lookup(filename.spec_bytes()),
                ) && old(self).pasted_data(fd, temp_file_size as int, cache@, *final(self)),
    {
        let cpdino = self.namei(filename);
        let ghost o = *self;
        let ghost pd = 0 <= temp_file_size <= cache@.len() && o.paste_owed(filename.spec_bytes(), temp_file_size as int)
            && o.buffer_pool_manager.consistent() && o.room() >= 2 * NADDR + 3 && o.lookup(filename.spec_bytes()) / 16 < 32;
        let h = match self.iget(cpdino) {
            Some(h) => h,
            None => {
                return false;
            },
        };
        proof {
            if o.paste_owed(filename.spec_bytes(), temp_file_size as int) {
                assert(o.may_get(cpdino, self.inodes@[h as int]));
            }
        }
        if self.access(self.user_id, h, READ) == 0 {
            let _ = self.iput(h);
            return false;
        }
        let _ = self.iput(h);
        proof {
            if o.paste_owed(filename.spec_bytes(), temp_file_size as int) {
                self.lemma_still_open(&o, filename.spec_bytes());
            }
        }
        let tfd = self.xfa(filename);
        if tfd == -1 {
            return false;
        }
        let uid = self.user_id as usize;
        let t = self.user[uid].u_ofile[tfd as usize] as usize;
        proof {
            if o.paste_owed(filename.spec_bytes(), temp_file_size as int) {
                let ino = o.lookup(filename.spec_bytes());
                let j = choose|j: int| #[trigger] self.first_match_at(filename.spec_bytes(), j);
                assert(self.ofile_has(self.user_id as int, tfd as int, ino));
                let h2 = self.sys_ofile@[t as int].f_inode as int;
                assert(same_data(self.inodes@[h2], o.inodes@[h2]));
                assert(o.ofile_has(o.user_id as int, tfd as int, ino));
                self.lemma_write_owed_kept(&o, tfd as int, temp_file_size as int);
            }
        }
        if t >= SYSOPENFILE || temp_file_size < 0 || temp_file_size as usize > cache.len() {
            return false;
        }
        let size = temp_file_size as u32;
        let e = self.sys_ofile[t];
        if self.inodes[e.f_inode].di_size as u64 + size as u64 > u32::MAX as u64 || e.f_off as u64 + size as u64 > u32::MAX as u64 {
            return false;
        }
        proof {
            let name = filename.spec_bytes();
            self.lemma_lookup_same_dir(&o, name);
            let ino = o.lookup(name);
            assert(ino != NOT_FOUND);
            let j = choose|j: int| #[trigger] o.first_match_at(name, j);
            assert(self.first_match_at(name, j));
            assert(self.ofile_has(self.user_id as int, tfd as int, ino));
            let h2 = self.sys_ofile@[t as int].f_inode as int;
            assert(same_data(self.inodes@[h2], o.inodes@[h2]));
            assert(o.ofile_has(o.user_id as int, tfd as int, ino));
        }
        let ghost s2 = *self;
        proof {
            if pd {
                assert(self.buffer_pool_manager.consistent());
                assert(self.room() >= 2 * NADDR + 1);
                assert(o.ofile_has(o.user_id as int, tfd as int, o.lookup(filename.spec_bytes())));
                assert(self.sys_ofile == o.sys_ofile);
                assert(self.sys_ofile@[t as int].f_flag & FAPPEND == 0);
            }
        }
        let n = self.write(tfd, cache, size);
        let ghost s3 = *self;
        proof {
            if pd {
                assert(self.room() >= 1);
            }
        }
        if self.sys_ofile[t].f_count >= 1 {
            let _ = self.close(uid as u32, tfd as i16);
        }
        proof {
            if pd && size == 0 {
                assert(min(blocks_of_size(size as int), NADDR as int) == 0);
                assert(o.pasted_data(tfd as int, temp_file_size as int, cache@, *self));
            }
            if pd && size > 0 {
                let h2 = e.f_inode as int;
                let a = self.inodes@[h2].di_addr@;
                let a3 = s3.inodes@[h2].di_addr@;
                let nb = min(blocks_of_size(size as int), NADDR as int);
                assert(n != 0);
                assert(s3.sys_ofile@[t as int].f_inode == e.f_inode);
                assert(h2 < s3.inodes@.len());
                assert(n != 0);
                assert(s3.inodes@[h2].i_ino == s2.inodes@[h2].i_ino);
                assert(s3.inodes@[h2].i_ino == o.lookup(filename.spec_bytes()));
                assert(s3.sys_ofile@[t as int].f_inode == e.f_inode);
                if s3.sys_ofile@[t as int].f_count >= 1 {
                    assert(same_data(self.inodes@[h2], s3.inodes@[h2]));
                } else {
                    assert(*self == s3);
                }
                assert(a == a3);
                assert forall|k: int| 0 <= k < nb && (forall|j: int| k < j < nb ==> a[j] != a[k]) implies self.block_holds(
                    #[trigger] a[k],
                    chunk(cache@, size as int, k),
                ) by {
                    assert(a3[k] == a[k]);
                    assert(s3.block_holds(a3[k], chunk(cache@, size as int, k)));
                    if s3.sys_ofile@[t as int].f_count >= 1 {
                        let c = chunk(cache@, size as int, k);
                        let g = choose|g: int|
                            0 <= g < s3.buffer_pool_manager.spec_pool_size() && s3.buffer_pool_manager.frame_page(g) == 34 + a[k]
                                && (#[trigger] s3.buffer_pool_manager.pages_view()[g]).subrange(0, c.len() as int) == c;
                        assert(self.buffer_pool_manager.pages_view()[g] == s3.buffer_pool_manager.pages_view()[g]);
                        assert(self.buffer_pool_manager.frame_page(g) == 34 + a[k]);
                    }
                }
                assert(o.pasted_data(tfd as int, temp_file_size as int, cache@, *self));
            }
            if n == size && size > 0 {
                let h2 = e.f_inode as int;
                assert(e == o.sys_ofile@[t as int]);
                assert(same_data(s2.inodes@[h2], o.inodes@[h2]));
                assert(same_data(self.inodes@[h2], s3.inodes@[h2]));
                assert(o.pasted(tfd as int, size as int, *self));
            }
        }
        n == size
    }
}

} // verus!
