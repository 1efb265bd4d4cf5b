//! Name lookup in the current directory: finding an entry by name and
//! claiming a free entry for a new name.

use crate::state::FileSystem;
use crate::types::{DIRNUM, DIRSIZ, DirEntry};
use vstd::prelude::*;
use vstd::string::StringSliceAdditionalSpecFns;

verus! {

/// What `namei` returns when no entry has the name.
pub const NOT_FOUND: u32 = 0;

/// What `iname` returns when the directory has no free entry.
pub const NO_SLOT: u16 = 128;

/// Index of the first zero byte of `s`, or `s.len()` when there is none.
pub open spec fn name_len(s: Seq<u8>) -> int
    decreases s.len(),
{
    if s.len() == 0 {
        0
    } else if s[0] == 0 {
        0
    } else {
        1 + name_len(s.drop_first())
    }
}

/// The name held by `d_name`: its bytes before the first zero byte.
pub open spec fn entry_name(d_name: Seq<u8>) -> Seq<u8> {
    d_name.take(name_len(d_name))
}

/// Whether entry `e` is in use and holds the name `name`.
pub open spec fn entry_matches(e: DirEntry, name: Seq<u8>) -> bool {
    entry_name(e.d_name@) == name && e.d_ino != 0
}

/// The name field that `iname` writes for `name`: its first (at most
/// `DIRSIZ - 1`) bytes, zero-filled.
pub open spec fn padded_name(name: Seq<u8>) -> Seq<u8> {
    Seq::new(
        DIRSIZ as nat,
        |k: int|
            if k < name.len() && k < DIRSIZ - 1 {
                name[k]
            } else {
                0u8
            },
    )
}

/// `name_len` is the position of the first zero byte.
pub proof fn lemma_name_len(s: Seq<u8>, j: int)
    requires
        0 <= j <= s.len(),
        forall|k: int| 0 <= k < j ==> s[k] != 0,
        j < s.len() ==> s[j] == 0,
    ensures
        name_len(s) == j,
    decreases s.len(),
{
    if s.len() > 0 && j > 0 {
        lemma_name_len(s.drop_first(), j - 1);
    }
}

/// Whether the name held by `d_name` equals `name`.
pub fn name_equals(d_name: &[u8; DIRSIZ], name: &[u8]) -> (r: bool)
    ensures
        r == (entry_name(d_name@) == name@),
{
    let mut j: usize = 0;
    while j < DIRSIZ
        invariant
            j <= DIRSIZ,
            forall|k: int| 0 <= k < j ==> d_name@[k] != 0,
        ensures
            j <= DIRSIZ,
            forall|k: int| 0 <= k < j ==> d_name@[k] != 0,
            j < DIRSIZ ==> d_name@[j as int] == 0,
        decreases DIRSIZ - j,
    {
        if d_name[j] == 0 {
            break;
        }
        j = j + 1;
    }
    proof {
        lemma_name_len(d_name@, j as int);
    }
    if j != name.len() {
        return false;
    }
    let mut k: usize = 0;
    while k < j
        invariant
            j == name@.len(),
            j <= DIRSIZ,
            name_len(d_name@) == j,
            k <= j,
            forall|m: int| 0 <= m < k ==> d_name@[m] == name@[m],
        decreases j - k,
    {
        if d_name[k] != name[k] {
            proof {
                assert(entry_name(d_name@)[k as int] != name@[k as int]);
            }
            return false;
        }
        k = k + 1;
    }
    proof {
        assert(entry_name(d_name@) =~= name@);
    }
    true
}

impl FileSystem {
    /// Whether entry `i` of the current directory is the first in use with
    /// the name `name`.
    pub open spec fn first_match_at(&self, name: Seq<u8>, i: int) -> bool {
        &&& 0 <= i < self.dir.size
        &&& entry_matches(self.dir.direct@[i], name)
        &&& forall|k: int| 0 <= k < i ==> !entry_matches(#[trigger] self.dir.direct@[k], name)
    }

    /// Whether no entry of the current directory in use has the name `name`.
    pub open spec fn no_match(&self, name: Seq<u8>) -> bool {
        forall|k: int| 0 <= k < self.dir.size ==> !entry_matches(#[trigger] self.dir.direct@[k], name)
    }

    /// What looking up `name` in the current directory gives: the inode
    /// number of the first entry in use with that name, or `NOT_FOUND`.
    pub open spec fn lookup(&self, name: Seq<u8>) -> u32 {
        if exists|j: int| #[trigger] self.first_match_at(name, j) {
            self.dir.direct@[choose|j: int| #[trigger] self.first_match_at(name, j)].d_ino as u32
        } else {
            NOT_FOUND
        }
    }

    /// The inode number of the first entry of the current directory in use
    /// with the name `filename`, or `NOT_FOUND`.
    pub fn namei(&self, filename: &str) -> (r: u32)
        requires
            self.dir.size <= DIRNUM,
        ensures
            forall|i: int| self.first_match_at(filename.spec_bytes(), i) ==> r == self.dir.direct@[i].d_ino,
            self.no_match(filename.spec_bytes()) <==> r == NOT_FOUND,
            r != NOT_FOUND ==> exists|i: int| #[trigger] self.first_match_at(filename.spec_bytes(), i) && r == self.dir.direct@[i].d_ino,
            r == self.lookup(filename.spec_bytes()),
    {
        let name = filename.as_bytes();
        let mut i: i32 = 0;
        while i < self.dir.size
            invariant
                0 <= i,
                self.dir.size <= DIRNUM,
                i <= self.dir.size || self.dir.size < 0,
                name@ == filename.spec_bytes(),
                forall|k: int| 0 <= k < i ==> !entry_matches(#[trigger] self.dir.direct@[k], name@),
            decreases self.dir.size - i,
        {
            let e = self.dir.direct[i as usize];
            if e.d_ino != 0 && name_equals(&e.d_name, name) {
                proof {
                    assert forall|j: int| self.first_match_at(filename.spec_bytes(), j) implies j == i by {
                        if j < i {
                            assert(!entry_matches(self.dir.direct@[j], name@));
                        } else if j > i {
                            assert(!entry_matches(self.dir.direct@[i as int], name@));
                        }
                    }
                    assert(self.first_match_at(filename.spec_bytes(), i as int));
                    let c = choose|j: int| #[trigger] self.first_match_at(filename.spec_bytes(), j);
                    assert(c == i);
                }
                return e.d_ino as u32;
            }
            i = i + 1;
        }
        proof {
            assert(!exists|j: int| #[trigger] self.first_match_at(filename.spec_bytes(), j));
        }
        NOT_FOUND
    }

    /// Claims the first free entry (inode number 0) of the current
    /// directory's table for `name`: writes the name, cut to `DIRSIZ - 1`
    /// bytes and zero-filled, and returns the entry's index; returns
    /// `NO_SLOT` when every entry is in use.
    pub fn iname(&mut self, name: &str) -> (r: u16)
        ensures
            final(self).buffer_pool_manager == old(self).buffer_pool_manager,
            final(self).hinode@ == old(self).hinode@,
            final(self).inodes@ == old(self).inodes@,
            final(self).filsys == old(self).filsys,
            final(self).sys_ofile == old(self).sys_ofile,
            final(self).pwd == old(self).pwd,
            final(self).user == old(self).user,
            final(self).cur_path_inode == old(self).cur_path_inode,
            final(self).user_id == old(self).user_id,
            final(self).cpcache@ == old(self).cpcache@,
            final(self).dir.size == old(self).dir.size,
            (forall|k: int| 0 <= k < DIRNUM ==> (#[trigger] old(self).dir.direct@[k]).d_ino != 0) ==> r == NO_SLOT
                && final(self).dir == old(self).dir,
            (exists|k: int| 0 <= k < DIRNUM && (#[trigger] old(self).dir.direct@[k]).d_ino == 0) ==> {
                &&& r < DIRNUM
                &&& old(self).dir.direct@[r as int].d_ino == 0
                &&& forall|k: int| 0 <= k < r ==> (#[trigger] old(self).dir.direct@[k]).d_ino != 0
                &&& final(self).dir.direct@[r as int].d_name@ == padded_name(name.spec_bytes())
            },
            r != NO_SLOT ==> {
                &&& r < DIRNUM
                &&& old(self).dir.direct@[r as int].d_ino == 0
                &&& forall|k: int| 0 <= k < r ==> (#[trigger] old(self).dir.direct@[k]).d_ino != 0
                &&& final(self).dir.direct@ == old(self).dir.direct@.update(
                    r as int,
                    DirEntry { d_name: final(self).dir.direct@[r as int].d_name, d_ino: 0 },
                )
                &&& final(self).dir.direct@[r as int].d_name@ == padded_name(name.spec_bytes())
            },
    {
        let bytes = name.as_bytes();
        let mut i: usize = 0;
        while i < DIRNUM
            invariant
                i <= DIRNUM,
                forall|k: int| 0 <= k < i ==> (#[trigger] self.dir.direct@[k]).d_ino != 0,
            ensures
                i <= DIRNUM,
                forall|k: int| 0 <= k < i ==> (#[trigger] self.dir.direct@[k]).d_ino != 0,
                i < DIRNUM ==> self.dir.direct@[i as int].d_ino == 0,
            decreases DIRNUM - i,
        {
            if self.dir.direct[i].d_ino == 0 {
                break;
            }
            i = i + 1;
        }
        if i == DIRNUM {
            return NO_SLOT;
        }
        let mut d_name: [u8; DIRSIZ] = [0u8; 14];
        let mut k: usize = 0;
        while k < DIRSIZ - 1 && k < bytes.len()
            invariant
                k <= DIRSIZ - 1,
                k <= bytes@.len(),
                forall|m: int| 0 <= m < k ==> #[trigger] d_name@[m] == bytes@[m],
                forall|m: int| k <= m < DIRSIZ ==> #[trigger] d_name@[m] == 0u8,
            decreases DIRSIZ - k,
        {
            d_name[k] = bytes[k];
            k = k + 1;
        }
        let e = DirEntry { d_name, d_ino: 0 };
        self.dir.direct[i] = e;
        proof {
            assert(d_name@ =~= padded_name(name.spec_bytes()));
            assert(self.dir.direct@ =~= old(self).dir.direct@.update(
                i as int,
                DirEntry { d_name: self.dir.direct@[i as int].d_name, d_ino: 0 },
            ));
        }
        i as u16
    }
}


/// A name of at most `DIRSIZ - 1` non-zero bytes reads back from the field
/// `iname` writes for it.
pub proof fn lemma_padded_name(name: Seq<u8>)
    requires
        name.len() < DIRSIZ,
        forall|k: int| 0 <= k < name.len() ==> name[k] != 0,
    ensures
        entry_name(padded_name(name)) == name,
{
    let p = padded_name(name);
    lemma_name_len(p, name.len() as int);
    assert(entry_name(p) =~= name);
}

} // verus!
