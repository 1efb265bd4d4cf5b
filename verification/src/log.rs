//! Sessions: logging users in against the password table, logging them
//! out, and shutting the file system down.

use crate::bufferpool::{flushed, lemma_flushed_congruent, BufferPoolManager};
use crate::inode::FsError;
use crate::layout::{superblock_bytes, superblock_fields};
use crate::state::FileSystem;
use crate::types::{
    DEFAULTMODE, InodeRef, NHINO, NOFILE, NO_OPEN_FILE, PWDNUM, PWDSIZ, ROOT, ROOTMODE, SYSOPENFILE, USERMODE,
    USERNUM, User,
};
use crate::util::{lemma_name_len, name_len};
use vstd::prelude::*;

verus! {

/// The disk `d` after every frame of `b` that holds a page has been
/// written to that page's block, in frame order.
pub open spec fn flushed_from(d: Seq<u8>, b: &BufferPoolManager) -> Seq<u8> {
    flushed(d, b.pages_view(), |f: int| b.frame_page(f), b.spec_pool_size())
}

/// Why a login was refused.
#[derive(Debug, Clone, Copy, PartialEq, Eq)]
pub enum LoginError {
    /// No password entry has the user name.
    BadUser,
    /// The password does not match.
    BadPassword,
    /// The user table is full.
    TooManyUsers,
}

/// The C string held by `s`: its bytes before the first zero byte (all of
/// them when there is none).
pub open spec fn c_str(s: Seq<u8>) -> Seq<u8> {
    s.take(name_len(s))
}

/// The string held by a fixed-size field: its bytes before the first zero
/// byte, or the empty string when the field has no zero byte.
pub open spec fn field_str(s: Seq<u8>) -> Seq<u8> {
    if name_len(s) < s.len() {
        s.take(name_len(s))
    } else {
        Seq::empty()
    }
}

/// The index of the first zero byte of `s`, or its length.
pub fn c_len(s: &[u8]) -> (r: usize)
    ensures
        r == name_len(s@),
        r <= s@.len(),
{
    let mut j: usize = 0;
    while j < s.len()
        invariant
            j <= s@.len(),
            forall|k: int| 0 <= k < j ==> s@[k] != 0,
        ensures
            j <= s@.len(),
            forall|k: int| 0 <= k < j ==> s@[k] != 0,
            j < s@.len() ==> s@[j as int] == 0,
        decreases s@.len() - j,
    {
        if s[j] == 0 {
            break;
        }
        j = j + 1;
    }
    proof {
        lemma_name_len(s@, j as int);
    }
    j
}

/// Whether the first `alen` bytes of `a` equal the first `blen` of `b`.
pub fn prefix_eq(a: &[u8], alen: usize, b: &[u8], blen: usize) -> (r: bool)
    requires
        alen <= a@.len(),
        blen <= b@.len(),
    ensures
        r == (a@.take(alen as int) == b@.take(blen as int)),
{
    if alen != blen {
        proof {
            assert(a@.take(alen as int).len() != b@.take(blen as int).len());
        }
        return false;
    }
    let mut k: usize = 0;
    while k < alen
        invariant
            alen == blen,
            alen <= a@.len(),
            blen <= b@.len(),
            k <= alen,
            forall|m: int| 0 <= m < k ==> a@[m] == b@[m],
        decreases alen - k,
    {
        if a[k] != b[k] {
            proof {
                assert(a@.take(alen as int)[k as int] != b@.take(blen as int)[k as int]);
            }
            return false;
        }
        k = k + 1;
    }
    proof {
        assert(a@.take(alen as int) =~= b@.take(blen as int));
    }
    true
}

/// The string held by the fixed-size field `s`, as a length of its prefix.
fn field_len(s: &[u8; PWDSIZ]) -> (r: usize)
    ensures
        r <= PWDSIZ,
        s@.take(r as int) == field_str(s@),
{
    let n = c_len(s);
    if n < PWDSIZ {
        n
    } else {
        proof {
            assert(s@.take(0) =~= Seq::<u8>::empty());
        }
        0
    }
}

/// How many of the first `n` entries of `s` are `t`.
pub open spec fn refs(s: Seq<u16>, t: u16, n: int) -> int
    decreases n,
{
    if n <= 0 {
        0
    } else {
        refs(s, t, n - 1) + if s[n - 1] == t { 1int } else { 0int }
    }
}

impl FileSystem {
    /// Whether password entry `i` is the first whose user name is `name`.
    pub open spec fn first_pwd_with(&self, name: Seq<u8>, i: int) -> bool {
        &&& 0 <= i < PWDNUM
        &&& field_str(self.pwd@[i].username@) == name
        &&& forall|k: int| 0 <= k < i ==> field_str((#[trigger] self.pwd@[k]).username@) != name
    }

    /// Logs a user in: finds the first password entry with the user name
    /// held by `username` (up to its first zero byte), checks the password
    /// held by `passwd`, and fills the first free user table entry (user id
    /// 0) with the entry's user and group ids and the default mode
    /// `ROOTMODE` for the first password entry, `USERMODE` otherwise.
    /// Returns that user table index.
    pub fn login(&mut self, username: &[u8], passwd: &[u8]) -> (r: Result<usize, LoginError>)
        ensures
            r is Err ==> *final(self) == *old(self),
            final(self).pwd == old(self).pwd,
            final(self).dir == old(self).dir,
            final(self).sys_ofile == old(self).sys_ofile,
            final(self).user_id == old(self).user_id,
            (forall|i: int| 0 <= i < PWDNUM ==> field_str((#[trigger] old(self).pwd@[i]).username@) != c_str(username@)) ==> r
                == Err::<usize, LoginError>(LoginError::BadUser),
            forall|i: int| #[trigger]
                old(self).first_pwd_with(c_str(username@), i) ==> {
                    let p = old(self).pwd@[i];
                    &&& field_str(p.password@) != c_str(passwd@) ==> r == Err::<usize, LoginError>(LoginError::BadPassword)
                    &&& field_str(p.password@) == c_str(passwd@) && (forall|j: int|
                        0 <= j < USERNUM ==> (#[trigger] old(self).user@[j]).u_uid != 0) ==> r == Err::<usize, LoginError>(
                        LoginError::TooManyUsers,
                    )
                    &&& field_str(p.password@) == c_str(passwd@) && (exists|j: int|
                        0 <= j < USERNUM && (#[trigger] old(self).user@[j]).u_uid == 0) ==> r is Ok
                    &&& r matches Ok(j) ==> {
                        &&& field_str(p.password@) == c_str(passwd@)
                        &&& j < USERNUM
                        &&& old(self).user@[j as int].u_uid == 0
                        &&& forall|k: int| 0 <= k < j ==> (#[trigger] old(self).user@[k]).u_uid != 0
                        &&& final(self).user@ == old(self).user@.update(
                            j as int,
                            User {
                                u_uid: p.p_uid,
                                u_gid: p.p_gid,
                                u_default_mode: if i == 0 { ROOTMODE } else { USERMODE },
                                ..old(self).user@[j as int]
                            },
                        )
                    }
                },
    {
        let ulen = c_len(username);
        let plen = c_len(passwd);
        let mut i: usize = 0;
        while i < PWDNUM
            invariant
                i <= PWDNUM,
                ulen == name_len(username@),
                ulen <= username@.len(),
                forall|k: int| 0 <= k < i ==> field_str((#[trigger] self.pwd@[k]).username@) != c_str(username@),
            ensures
                i <= PWDNUM,
                forall|k: int| 0 <= k < i ==> field_str((#[trigger] self.pwd@[k]).username@) != c_str(username@),
                i < PWDNUM ==> field_str(self.pwd@[i as int].username@) == c_str(username@),
            decreases PWDNUM - i,
        {
            let n = field_len(&self.pwd[i].username);
            if prefix_eq(&self.pwd[i].username, n, username, ulen) {
                break;
            }
            i = i + 1;
        }
        if i == PWDNUM {
            return Err(LoginError::BadUser);
        }
        proof {
            assert forall|i2: int| #[trigger] old(self).first_pwd_with(c_str(username@), i2) implies i2 == i by {
                if i2 < i {
                } else if i2 > i {
                    assert(field_str(self.pwd@[i as int].username@) != c_str(username@));
                }
            }
        }
        let p = self.pwd[i];
        let n = field_len(&p.password);
        if !prefix_eq(&p.password, n, passwd, plen) {
            return Err(LoginError::BadPassword);
        }
        let mut j: usize = 0;
        while j < USERNUM
            invariant
                j <= USERNUM,
                forall|k: int| 0 <= k < j ==> (#[trigger] self.user@[k]).u_uid != 0,
            ensures
                j <= USERNUM,
                forall|k: int| 0 <= k < j ==> (#[trigger] self.user@[k]).u_uid != 0,
                j < USERNUM ==> self.user@[j as int].u_uid == 0,
            decreases USERNUM - j,
        {
            if self.user[j].u_uid == 0 {
                break;
            }
            j = j + 1;
        }
        if j == USERNUM {
            return Err(LoginError::TooManyUsers);
        }
        let mut u = self.user[j];
        u.u_uid = p.p_uid;
        u.u_gid = p.p_gid;
        u.u_default_mode = if i == 0 { ROOTMODE } else { USERMODE };
        self.user[j] = u;
        proof {
            assert(self.user@ =~= old(self).user@.update(j as int, u));
        }
        Ok(j)
    }

    /// Logs out the first user table entry with user id `uid`: closes its
    /// open files, frees the entry (user and group id 0, mode
    /// `DEFAULTMODE`), clears the current user and climbs to the root
    /// directory. Returns 1, or 0 when no entry has the id.
    pub fn logout(&mut self, uid: u16) -> (r: i32)
        requires
            old(self).wf(),
        ensures
            final(self).wf(),
            final(self).pwd == old(self).pwd,
            (forall|i: int| 0 <= i < USERNUM ==> (#[trigger] old(self).user@[i]).u_uid != uid) ==> r == 0 && *final(self)
                == *old(self),
            r == 1 ==> {
                &&& final(self).user_id == -1
                &&& exists|i: int| {
                    &&& 0 <= i < USERNUM
                    &&& #[trigger] old(self).user@[i].u_uid == uid
                    &&& forall|k: int| 0 <= k < i ==> (#[trigger] old(self).user@[k]).u_uid != uid
                    &&& final(self).user@[i].u_uid == 0
                    &&& final(self).user@[i].u_gid == 0
                    &&& final(self).user@[i].u_default_mode == DEFAULTMODE
                    &&& forall|f: int| 0 <= f < NOFILE ==> #[trigger] final(self).user@[i].u_ofile@[f] == NO_OPEN_FILE
                    &&& forall|k: int| 0 <= k < USERNUM && k != i ==> #[trigger] final(self).user@[k] == old(self).user@[k]
                }
            },
            r == 0 || r == 1,
            (exists|i: int| 0 <= i < USERNUM && (#[trigger] old(self).user@[i]).u_uid == uid) ==> r == 1,
            r == 1 ==> exists|i: int| {
                &&& 0 <= i < USERNUM
                &&& #[trigger] old(self).user@[i].u_uid == uid
                &&& forall|k: int| 0 <= k < i ==> (#[trigger] old(self).user@[k]).u_uid != uid
                &&& forall|t: int| 0 <= t < SYSOPENFILE ==> {
                    let e = old(self).sys_ofile@[t];
                    let c = refs(old(self).user@[i].u_ofile@, t as u16, NOFILE as int);
                    &&& (#[trigger] final(self).sys_ofile@[t]).f_count == e.f_count - (if c < e.f_count { c } else { e.f_count as int })
                    &&& final(self).sys_ofile@[t].f_inode == e.f_inode
                    &&& final(self).sys_ofile@[t].f_flag == e.f_flag
                    &&& final(self).sys_ofile@[t].f_off == e.f_off
                }
            },
    {
        let mut i: usize = 0;
        while i < USERNUM
            invariant
                i <= USERNUM,
                forall|k: int| 0 <= k < i ==> (#[trigger] self.user@[k]).u_uid != uid,
            ensures
                i <= USERNUM,
                forall|k: int| 0 <= k < i ==> (#[trigger] self.user@[k]).u_uid != uid,
                i < USERNUM ==> self.user@[i as int].u_uid == uid,
            decreases USERNUM - i,
        {
            if self.user[i].u_uid == uid {
                break;
            }
            i = i + 1;
        }
        if i == USERNUM {
            return 0;
        }
        let mut j: usize = 0;
        while j < NOFILE
            invariant
                self.wf(),
                i < USERNUM,
                j <= NOFILE,
                self.pwd == old(self).pwd,
                self.user@[i as int].u_uid == uid,
                self.user@[i as int].u_gid == old(self).user@[i as int].u_gid,
                forall|k: int| 0 <= k < USERNUM && k != i ==> #[trigger] self.user@[k] == old(self).user@[k],
                forall|f: int| 0 <= f < j ==> #[trigger] self.user@[i as int].u_ofile@[f] == NO_OPEN_FILE,
                forall|f: int| j <= f < NOFILE ==> #[trigger] self.user@[i as int].u_ofile@[f] == old(self).user@[i as int].u_ofile@[f],
                forall|t: int| 0 <= t < SYSOPENFILE ==> {
                    let e = old(self).sys_ofile@[t];
                    let c = refs(old(self).user@[i as int].u_ofile@, t as u16, j as int);
                    &&& (#[trigger] self.sys_ofile@[t]).f_count == e.f_count - (if c < e.f_count { c } else { e.f_count as int })
                    &&& self.sys_ofile@[t].f_inode == e.f_inode
                    &&& self.sys_ofile@[t].f_flag == e.f_flag
                    &&& self.sys_ofile@[t].f_off == e.f_off
                },
            decreases NOFILE - j,
        {
            let ghost pre = *self;
            let t = self.user[i].u_ofile[j];
            if t != NO_OPEN_FILE {
                let tt = t as usize;
                if tt < SYSOPENFILE && self.sys_ofile[tt].f_count >= 1 {
                    let h = self.sys_ofile[tt].f_inode;
                    let _ = self.iput(h);
                    let mut e = self.sys_ofile[tt];
                    e.f_count = e.f_count - 1;
                    self.sys_ofile[tt] = e;
                }
                let mut u = self.user[i];
                u.u_ofile[j] = NO_OPEN_FILE;
                self.user[i] = u;
            }
            proof {
                let ou = old(self).user@[i as int].u_ofile@;
                assert(ou[j as int] == t);
                assert forall|t2: int| 0 <= t2 < SYSOPENFILE implies {
                    let e = old(self).sys_ofile@[t2];
                    let c = refs(ou, t2 as u16, j + 1);
                    &&& (#[trigger] self.sys_ofile@[t2]).f_count == e.f_count - (if c < e.f_count { c } else { e.f_count as int })
                    &&& self.sys_ofile@[t2].f_inode == e.f_inode
                    &&& self.sys_ofile@[t2].f_flag == e.f_flag
                    &&& self.sys_ofile@[t2].f_off == e.f_off
                } by {
                    assert(refs(ou, t2 as u16, j + 1) == refs(ou, t2 as u16, j as int) + if ou[j as int] == t2 as u16 { 1int } else { 0int });
                    assert(pre.sys_ofile@[t2] == self.sys_ofile@[t2] || t2 == t as int);
                }
            }
            j = j + 1;
        }
        let mut u = self.user[i];
        u.u_default_mode = DEFAULTMODE;
        u.u_gid = 0;
        u.u_uid = 0;
        self.user[i] = u;
        self.user_id = -1;
        let ghost after = self.user;
        let ghost after_sys = self.sys_ofile;
        let mut steps: usize = 0;
        while steps < 512 && self.inodes[self.cur_path_inode].i_ino != 1
            invariant
                self.wf(),
                self.user == after,
                self.sys_ofile == after_sys,
                self.user_id == -1,
                self.pwd == old(self).pwd,
            decreases 512 - steps,
        {
            match self.chdir(ROOT as i32, "..") {
                Ok(()) => {},
                Err(_) => {
                    break;
                },
            }
            steps = steps + 1;
        }
        proof {
            assert(old(self).user@[i as int].u_uid == uid);
        }
        1
    }

    /// Shuts the file system down: closes every open file of every
    /// logged-in user, writes every cached inode that still has links back
    /// to disk and releases the blocks and on-disk inode of every one that
    /// has none, writes the super block to block 1 and flushes every frame
    /// of the buffer pool to the disk.
    pub fn halt(&mut self) -> (r: Result<(), FsError>)
        requires
            old(self).wf(),
        ensures
            final(self).wf(),
            final(self).pwd == old(self).pwd,
            final(self).dir == old(self).dir,
            forall|i: int, f: int|
                0 <= i < USERNUM && 0 <= f < NOFILE && old(self).user@[i].u_uid != 0 ==> #[trigger] final(self).user@[i].u_ofile@[f]
                    == NO_OPEN_FILE,
            r is Ok ==> exists|d: Seq<u8>|
                final(self).buffer_pool_manager.disk_view() == #[trigger] flushed_from(d, &final(self).buffer_pool_manager),
            r is Ok ==> exists|f: int|
                0 <= f < final(self).buffer_pool_manager.spec_pool_size() && superblock_fields(
                    final(self).filsys,
                    #[trigger] final(self).buffer_pool_manager.pages_view()[f],
                ),
    {
        let mut i: usize = 0;
        while i < USERNUM
            invariant
                self.wf(),
                i <= USERNUM,
                self.pwd == old(self).pwd,
                self.dir == old(self).dir,
                forall|k: int| 0 <= k < USERNUM ==> (#[trigger] self.user@[k]).u_uid == old(self).user@[k].u_uid,
                forall|k: int, f: int|
                    0 <= k < i && 0 <= f < NOFILE && old(self).user@[k].u_uid != 0 ==> #[trigger] self.user@[k].u_ofile@[f]
                        == NO_OPEN_FILE,
            decreases USERNUM - i,
        {
            if self.user[i].u_uid != 0 {
                let mut j: usize = 0;
                while j < NOFILE
                    invariant
                        self.wf(),
                        i < USERNUM,
                        j <= NOFILE,
                        self.pwd == old(self).pwd,
                        self.dir == old(self).dir,
                        forall|k: int| 0 <= k < USERNUM ==> (#[trigger] self.user@[k]).u_uid == old(self).user@[k].u_uid,
                        forall|k: int, f: int|
                            0 <= k < i && 0 <= f < NOFILE && old(self).user@[k].u_uid != 0 ==> #[trigger] self.user@[k].u_ofile@[f]
                                == NO_OPEN_FILE,
                        forall|f: int| 0 <= f < j ==> #[trigger] self.user@[i as int].u_ofile@[f] == NO_OPEN_FILE,
                    decreases NOFILE - j,
                {
                    let ghost start = self.user;
                    let t = self.user[i].u_ofile[j];
                    if t != NO_OPEN_FILE {
                        if (t as usize) < SYSOPENFILE && self.sys_ofile[t as usize].f_count >= 1 {
                            let _ = self.close(i as u32, j as i16);
                        } else {
                            let mut u = self.user[i];
                            u.u_ofile[j] = NO_OPEN_FILE;
                            self.user[i] = u;
                        }
                    }
                    proof {
                        assert forall|k: int, f: int|
                            0 <= k < i && 0 <= f < NOFILE && old(self).user@[k].u_uid != 0 implies #[trigger] self.user@[k].u_ofile@[f]
                                == NO_OPEN_FILE by {
                            assert(self.user@[k] == start@[k]);
                        }
                    }
                    j = j + 1;
                }
            }
            i = i + 1;
        }
        let mut handles: Vec<InodeRef> = Vec::new();
        let mut b: usize = 0;
        while b < NHINO
            invariant
                self.wf(),
                b <= NHINO,
                forall|k: int| 0 <= k < handles@.len() ==> #[trigger] handles@[k] < self.inodes@.len(),
            decreases NHINO - b,
        {
            let mut j: usize = 0;
            while j < self.hinode[b].len()
                invariant
                    self.wf(),
                    b < NHINO,
                    j <= self.hinode@[b as int]@.len(),
                    forall|k: int| 0 <= k < handles@.len() ==> #[trigger] handles@[k] < self.inodes@.len(),
                decreases self.hinode@[b as int]@.len() - j,
            {
                handles.push(self.hinode[b][j]);
                j = j + 1;
            }
            b = b + 1;
        }
        let ghost closed_users = self.user;
        let mut k: usize = 0;
        while k < handles.len()
            invariant
                self.wf(),
                k <= handles@.len(),
                self.pwd == old(self).pwd,
                self.dir == old(self).dir,
                self.user == closed_users,
                forall|m: int| 0 <= m < handles@.len() ==> #[trigger] handles@[m] < self.inodes@.len(),
            decreases handles@.len() - k,
        {
            let n = self.inodes[handles[k]];
            if n.di_number != 0 {
                let _ = self.write_dinode(n.i_ino, n.di_number, n.di_mode, n.di_uid, n.di_gid, n.di_size, n.di_addr);
            } else {
                let nb: u32 = n.di_size / 512 + if n.di_size % 512 != 0 { 1 } else { 0 };
                let cnt: usize = if nb as usize > 10 { 10 } else { nb as usize };
                let _ = self.free_blocks(n.di_addr, cnt);
                let _ = self.ifree(n.i_ino);
            }
            k = k + 1;
        }
        let f = match self.fetch_block(1) {
            Some(f) => f,
            None => {
                return Err(FsError::Disk);
            },
        };
        let bytes = superblock_bytes(&self.filsys);
        self.buffer_pool_manager.write_page(f as i32, 0, bytes.as_slice());
        proof {
            let pg = self.buffer_pool_manager.pages_view()[f as int];
            assert(pg.subrange(0, 432) =~= bytes@);
            assert forall|m: int| 0 <= m < 432 implies #[trigger] pg[m] == bytes@[m] by {
                assert(pg.subrange(0, 432)[m] == bytes@[m]);
            }
            assert(superblock_fields(self.filsys, pg));
        }
        let ghost wit = f as int;
        let ghost pre = self.buffer_pool_manager;
        match self.buffer_pool_manager.flush_all_pgs() {
            Ok(()) => {},
            Err(_) => {
                return Err(FsError::Disk);
            },
        }
        proof {
            assert(superblock_fields(self.filsys, self.buffer_pool_manager.pages_view()[wit]));
            let fin = self.buffer_pool_manager;
            lemma_flushed_congruent(
                pre.disk_view(),
                pre.pages_view(),
                |g: int| pre.frame_page(g),
                |g: int| fin.frame_page(g),
                pre.spec_pool_size(),
            );
            assert(fin.disk_view() == flushed_from(pre.disk_view(), &fin));
        }
        Ok(())
    }
}

} // verus!
