//! The logic behind the command line: the prompt's path, and setting up a
//! new account.

use crate::dir_op::DirError;
use crate::inode::FsError;
use crate::fmt::copied_str;
use crate::layout::{password_fields_at, write_password_at, PWDENTSIZ};
use crate::state::FileSystem;
use crate::types::{BLOCKSIZ, PWDNUM, PWDSIZ, USERNUM};
use vstd::prelude::*;
use vstd::string::StringSliceAdditionalSpecFns;

verus! {

/// Copies the bytes of `s` into `dest`, as many as fit, and zeroes the rest.
pub fn copy_str_to_bytes_2<const N: usize>(s: &str, dest: &mut [u8; N])
    ensures
        final(dest)@ == copied_str(s.spec_bytes(), N as int),
{
    let bytes = s.as_bytes();
    let mut i: usize = 0;
    while i < N
        invariant
            i <= N,
            bytes@ == s.spec_bytes(),
            forall|k: int| 0 <= k < i ==> #[trigger] dest@[k] == copied_str(s.spec_bytes(), N as int)[k],
            dest@.len() == N,
        decreases N - i,
    {
        if i < bytes.len() {
            dest[i] = bytes[i];
        } else {
            dest[i] = 0;
        }
        i = i + 1;
    }
    proof {
        assert(dest@ =~= copied_str(s.spec_bytes(), N as int));
    }
}

/// The bytes of `.` and `..`.
pub open spec fn dot() -> Seq<u8> {
    seq![46u8]
}

/// The bytes of `..`.
pub open spec fn dotdot() -> Seq<u8> {
    seq![46u8, 46u8]
}

/// The bytes of `root`.
pub open spec fn root_name() -> Seq<u8> {
    seq![114u8, 111u8, 111u8, 116u8]
}

/// Index of the last `/` in `p`, or -1.
pub open spec fn last_slash(p: Seq<u8>) -> int
    decreases p.len(),
{
    if p.len() == 0 {
        -1
    } else if p.last() == 47u8 {
        p.len() - 1
    } else {
        last_slash(p.drop_last())
    }
}

/// The prompt path after changing to directory `cname`, coming from the
/// directory with inode number `last`: unchanged for `.`; for `..`
/// unchanged at the root (the path ends in `root` and `last` is 1), else
/// cut at its last `/` (unchanged when it has none); for any other name,
/// extended by `/` and the name.
pub open spec fn changed_path(p: Seq<u8>, cname: Seq<u8>, last: i32) -> Seq<u8> {
    if cname == dot() {
        p
    } else if cname == dotdot() {
        if p.len() >= 4 && p.subrange(p.len() - 4, p.len() as int) == root_name() && last == 1 {
            p
        } else if last_slash(p) >= 0 {
            p.take(last_slash(p))
        } else {
            p
        }
    } else {
        p.push(47u8) + cname
    }
}

/// Whether `a` equals the bytes `b`.
fn bytes_are(a: &[u8], b: &[u8]) -> (r: bool)
    ensures
        r == (a@ == b@),
{
    if a.len() != b.len() {
        return false;
    }
    let mut k: usize = 0;
    while k < a.len()
        invariant
            a@.len() == b@.len(),
            k <= a@.len(),
            forall|m: int| 0 <= m < k ==> a@[m] == b@[m],
        decreases a@.len() - k,
    {
        if a[k] != b[k] {
            return false;
        }
        k = k + 1;
    }
    proof {
        assert(a@ =~= b@);
    }
    true
}

impl FileSystem {
    /// Updates the prompt path `precord` for a change to directory `cname`
    /// from the directory with inode number `last_inode_id`.
    pub fn chpath(&self, precord: &mut Vec<u8>, cname: &str, last_inode_id: i32)
        ensures
            final(precord)@ == changed_path(old(precord)@, cname.spec_bytes(), last_inode_id),
    {
        let name = cname.as_bytes();
        let dot_b: [u8; 1] = [46u8];
        let dotdot_b: [u8; 2] = [46u8, 46u8];
        proof {
            assert(dot_b@ =~= dot());
            assert(dotdot_b@ =~= dotdot());
        }
        if bytes_are(name, &dot_b) {
            return;
        }
        if bytes_are(name, &dotdot_b) {
            let n = precord.len();
            if n >= 4 && precord[n - 4] == 114u8 && precord[n - 3] == 111u8 && precord[n - 2] == 111u8 && precord[n - 1]
                == 116u8 && last_inode_id == 1 {
                proof {
                    assert(precord@.subrange(n - 4, n as int) =~= root_name());
                }
                return;
            }
            proof {
                if n >= 4 {
                    if precord@.subrange(n - 4, n as int) == root_name() {
                        assert(precord@.subrange(n - 4, n as int)[0] == 114u8);
                        assert(precord@.subrange(n - 4, n as int)[1] == 111u8);
                        assert(precord@.subrange(n - 4, n as int)[2] == 111u8);
                        assert(precord@.subrange(n - 4, n as int)[3] == 116u8);
                    }
                }
            }
            let mut j: usize = n;
            proof {
                assert(precord@.take(n as int) =~= precord@);
            }
            while j > 0
                invariant
                    j <= n,
                    n == precord@.len(),
                    precord@ == old(precord)@,
                    last_slash(precord@) == last_slash(precord@.take(j as int)),
                    cname.spec_bytes() == dotdot(),
                    !(n >= 4 && precord@.subrange(n - 4, n as int) == root_name() && last_inode_id == 1),
                decreases j,
            {
                proof {
                    assert(precord@.take(j as int).drop_last() =~= precord@.take(j - 1));
                }
                if precord[j - 1] == 47u8 {
                    proof {
                        assert(precord@.take(j as int).last() == 47u8);
                        assert(last_slash(precord@.take(j as int)) == j - 1);
                        assert(dotdot().len() == 2 && dot().len() == 1);
                        assert(cname.spec_bytes() != dot());
                    }
                    precord.truncate(j - 1);
                    proof {
                        assert(precord@ =~= old(precord)@.take(j - 1));
                    }
                    return;
                }
                j = j - 1;
            }
            proof {
                assert(precord@.take(0).len() == 0);
                assert(last_slash(precord@.take(0)) == -1);
                assert(dotdot().len() == 2 && dot().len() == 1);
                assert(cname.spec_bytes() != dot());
            }
            return;
        }
        precord.push(47u8);
        let mut k: usize = 0;
        let ghost base = precord@;
        while k < name.len()
            invariant
                k <= name@.len(),
                name@ == cname.spec_bytes(),
                precord@ == base + name@.take(k as int),
            decreases name@.len() - k,
        {
            precord.push(name[k]);
            k = k + 1;
            proof {
                assert(precord@ =~= base + name@.take(k as int));
            }
        }
        proof {
            assert(name@.take(name@.len() as int) =~= name@);
        }
    }

    /// Sets up an account from the root directory: the first of the first
    /// `PWDNUM - 1` password entries whose user name starts with a space
    /// takes the name `uname` and password `upwd` (cut to `PWDSIZ` bytes,
    /// zero-filled) and the user and group id one above its index; the
    /// password table is written to its block; and a directory named
    /// `uname` is made for password entry 1.
    pub fn cruser(&mut self, uname: &str, upwd: &str) -> (r: Result<(), DirError>)
        requires
            old(self).wf(),
        ensures
            final(self).wf(),
            old(self).inodes@[old(self).cur_path_inode as int].i_ino != 1 ==> r == Err::<(), DirError>(DirError::NotInRoot)
                && *final(self) == *old(self),
            old(self).inodes@[old(self).cur_path_inode as int].i_ino == 1 ==> {
                &&& (forall|i: int| 0 <= i < PWDNUM - 1 ==> (#[trigger] old(self).pwd@[i]).username@[0] != 32u8)
                    ==> final(self).pwd == old(self).pwd
                &&& forall|i: int|
                    0 <= i < PWDNUM - 1 && (#[trigger] old(self).pwd@[i]).username@[0] == 32u8 && (forall|k: int|
                        0 <= k < i ==> (#[trigger] old(self).pwd@[k]).username@[0] != 32u8) ==> {
                        &&& final(self).pwd@ == old(self).pwd@.update(i, final(self).pwd@[i])
                        &&& final(self).pwd@[i].username@ == copied_str(uname.spec_bytes(), PWDSIZ as int)
                        &&& final(self).pwd@[i].password@ == copied_str(upwd.spec_bytes(), PWDSIZ as int)
                        &&& final(self).pwd@[i].p_uid == i + 1
                        &&& final(self).pwd@[i].p_gid == i + 1
                    }
            },
            ({
                let fs = old(self).filsys;
                &&& old(self).inodes@[old(self).cur_path_inode as int].i_ino == 1
                &&& old(self).buffer_pool_manager.consistent()
                &&& old(self).room() >= 7
                &&& old(self).can_read(36)
                &&& old(self).mkdir_owed(uname.spec_bytes())
                &&& fs.s_inode@[fs.s_pinode as int] / 16 < 32
                &&& fs.s_free@[fs.s_pfree - 1] as u16 != 2
            }) ==> exists|f: int|
                0 <= f < final(self).buffer_pool_manager.spec_pool_size() && final(self).buffer_pool_manager.frame_page(f) == 36
                    && forall|k: int|
                    0 <= k < PWDNUM ==> #[trigger] password_fields_at(
                        final(self).pwd@[k],
                        final(self).buffer_pool_manager.pages_view()[f],
                        PWDENTSIZ * k,
                    ),
    {
        if self.inodes[self.cur_path_inode].i_ino != 1 {
            return Err(DirError::NotInRoot);
        }
        let mut i: usize = 0;
        while i < PWDNUM - 1
            invariant
                i <= PWDNUM - 1,
                self.pwd == old(self).pwd,
                forall|k: int| 0 <= k < i ==> (#[trigger] self.pwd@[k]).username@[0] != 32u8,
            ensures
                i <= PWDNUM - 1,
                self.pwd == old(self).pwd,
                forall|k: int| 0 <= k < i ==> (#[trigger] self.pwd@[k]).username@[0] != 32u8,
                i < PWDNUM - 1 ==> self.pwd@[i as int].username@[0] == 32u8,
            decreases PWDNUM - 1 - i,
        {
            if self.pwd[i].username[0] == 32u8 {
                break;
            }
            i = i + 1;
        }
        if i < PWDNUM - 1 {
            let mut p = self.pwd[i];
            copy_str_to_bytes_2(uname, &mut p.username);
            copy_str_to_bytes_2(upwd, &mut p.password);
            p.p_uid = (i + 1) as u16;
            p.p_gid = (i + 1) as u16;
            self.pwd[i] = p;
            proof {
                assert(self.pwd@ =~= old(self).pwd@.update(i as int, p));
            }
        }
        let mut block: Vec<u8> = vec![0u8; BLOCKSIZ];
        let mut k: usize = 0;
        while k < PWDNUM
            invariant
                k <= PWDNUM,
                block@.len() == BLOCKSIZ,
                forall|m: int| 0 <= m < k ==> #[trigger] password_fields_at(self.pwd@[m], block@, PWDENTSIZ * m),
            decreases PWDNUM - k,
        {
            let ghost pre = block@;
            write_password_at(&mut block, PWDENTSIZ * k, &self.pwd[k]);
            proof {
                assert forall|m: int| 0 <= m < k + 1 implies #[trigger] password_fields_at(self.pwd@[m], block@, PWDENTSIZ * m) by {
                    if m < k {
                        let off = PWDENTSIZ * m;
                        assert(off + 28 <= PWDENTSIZ * k);
                        assert(password_fields_at(self.pwd@[m], pre, off));
                        assert(block@[off] == pre[off] && block@[off + 1] == pre[off + 1] && block@[off + 2] == pre[off + 2]
                            && block@[off + 3] == pre[off + 3]);
                        assert forall|j: int| 0 <= j < PWDSIZ implies #[trigger] self.pwd@[m].username@[j] == block@[off + 4 + j] by {
                            assert(block@[off + 4 + j] == pre[off + 4 + j]);
                        }
                        assert forall|j: int| 0 <= j < PWDSIZ implies #[trigger] self.pwd@[m].password@[j] == block@[off + 16 + j] by {
                            assert(block@[off + 16 + j] == pre[off + 16 + j]);
                        }
                    }
                }
            }
            k = k + 1;
        }
        let ghost s0 = *self;
        let ghost cw = s0.inodes@[s0.cur_path_inode as int].i_ino == 1 && old(self).buffer_pool_manager.consistent()
            && old(self).room() >= 7 && old(self).can_read(36) && old(self).mkdir_owed(uname.spec_bytes())
            && old(self).filsys.s_inode@[old(self).filsys.s_pinode as int] / 16 < 32
            && old(self).filsys.s_free@[old(self).filsys.s_pfree - 1] as u16 != 2;
        if !self.put_block(36, 0, block.as_slice()) {
            return Err(DirError::Fs(FsError::Disk));
        }
        let ghost s1 = *self;
        let ghost fr: int = choose|f: int|
            0 <= f < s1.buffer_pool_manager.spec_pool_size() && s1.buffer_pool_manager.frame_page(f) == 36
                && (#[trigger] s1.buffer_pool_manager.pages_view()[f]).subrange(0, block@.len() as int) == block@;
        proof {
            if cw {
                assert(s0.filsys == old(self).filsys && s0.dir == old(self).dir && s0.inodes@ == old(self).inodes@);
                assert(s0.buffer_pool_manager == old(self).buffer_pool_manager);
                assert(exists|f: int|
                    0 <= f < s1.buffer_pool_manager.spec_pool_size() && s1.buffer_pool_manager.frame_page(f) == 36
                        && (#[trigger] s1.buffer_pool_manager.pages_view()[f]).subrange(0, block@.len() as int) == block@);
                let name = uname.spec_bytes();
                let fs = s1.filsys;
                let cur = s1.inodes@[s1.cur_path_inode as int];
                assert(s1.dir == old(self).dir && s1.filsys == old(self).filsys && s1.inodes@ == old(self).inodes@);
                assert(s1.cur_path_inode == old(self).cur_path_inode);
                s1.lemma_lookup_same_dir(old(self), name);
                assert(s1.lookup(name) == old(self).lookup(name));
                assert(s1.free_slot_usable());
                assert(s1.room() >= 6);
                assert(s1.buffer_pool_manager.disk_view().len() >= old(self).buffer_pool_manager.disk_view().len());
                assert(s1.can_read(2 + fs.s_inode@[fs.s_pinode as int] / 16));
                assert(s1.can_read(2 + cur.i_ino / 16));
                assert(s1.can_read(34 + (fs.s_free@[fs.s_pfree - 1]) as u16));
                assert(s1.mkdir_owed(uname.spec_bytes()));
            }
        }
        let r = self.mkdir((USERNUM + 1) as i32, uname);
        proof {
            if cw {
                assert(s1.buffer_pool_manager.consistent());
                assert(s1.inodes@[s1.cur_path_inode as int].i_ino == 1);
                assert(self.buffer_pool_manager.data_frames_kept(
                    &s1.buffer_pool_manager,
                    (s1.filsys.s_free@[s1.filsys.s_pfree - 1] as u16) as int,
                ));
                assert(0 <= fr < s1.buffer_pool_manager.spec_pool_size());
                assert(s1.buffer_pool_manager.frame_page(fr) == 36);
                s1.buffer_pool_manager.lemma_frames();
                let pg = s1.buffer_pool_manager.pages_view()[fr];
                assert(pg =~= block@);
                assert(self.buffer_pool_manager.pages_view()[fr] == pg);
                assert(self.buffer_pool_manager.frame_page(fr) == 36);
                assert(self.pwd == s1.pwd);
                assert forall|k: int| 0 <= k < PWDNUM implies #[trigger] password_fields_at(
                    self.pwd@[k],
                    self.buffer_pool_manager.pages_view()[fr],
                    PWDENTSIZ * k,
                ) by {
                    assert(password_fields_at(s0.pwd@[k], block@, PWDENTSIZ * k));
                }
                assert(exists|f: int|
                    0 <= f < self.buffer_pool_manager.spec_pool_size() && self.buffer_pool_manager.frame_page(f) == 36
                        && forall|k: int|
                        0 <= k < PWDNUM ==> #[trigger] password_fields_at(
                            self.pwd@[k],
                            self.buffer_pool_manager.pages_view()[f],
                            PWDENTSIZ * k,
                        ));
            }
        }
        r
    }
}

} // verus!
