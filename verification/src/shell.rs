//! The decisions of the interactive shell: which command a typed word names,
//! which open mode an `aopen` flag asks for, when the disk may be formatted,
//! and where accounts may be created. The shell itself (reading keys and
//! lines, printing, the disk file) runs these and carries out the result.

use crate::state::FileSystem;
use crate::types::{FAPPEND, FREAD, FWRITE, ROOT, USERNUM};
use vstd::prelude::*;
use vstd::string::StringSliceAdditionalSpecFns;

verus! {

/// A command of the shell.
#[derive(Debug, Clone, Copy, PartialEq, Eq, Structural)]
pub enum Command {
    Ls,
    Mkdir,
    Cd,
    Creat,
    Close,
    Delete,
    Halt,
    Logout,
    Aopen,
    Help,
    Fmt,
    Rd,
    Wr,
    Cls,
    Copy,
    Pst,
    Cruser,
    Unknown,
}

/// The command that the word `w` names.
pub open spec fn command_of(w: Seq<u8>) -> Command {
    if w == "ls".spec_bytes() {
        Command::Ls
    } else if w == "mkdir".spec_bytes() {
        Command::Mkdir
    } else if w == "cd".spec_bytes() {
        Command::Cd
    } else if w == "creat".spec_bytes() {
        Command::Creat
    } else if w == "close".spec_bytes() {
        Command::Close
    } else if w == "delete".spec_bytes() {
        Command::Delete
    } else if w == "halt".spec_bytes() {
        Command::Halt
    } else if w == "logout".spec_bytes() {
        Command::Logout
    } else if w == "aopen".spec_bytes() {
        Command::Aopen
    } else if w == "help".spec_bytes() {
        Command::Help
    } else if w == "fmt".spec_bytes() {
        Command::Fmt
    } else if w == "rd".spec_bytes() {
        Command::Rd
    } else if w == "wr".spec_bytes() {
        Command::Wr
    } else if w == "cls".spec_bytes() {
        Command::Cls
    } else if w == "copy".spec_bytes() {
        Command::Copy
    } else if w == "pst".spec_bytes() {
        Command::Pst
    } else if w == "cruser".spec_bytes() {
        Command::Cruser
    } else {
        Command::Unknown
    }
}

/// Whether the first `n` bytes of `a` are the bytes of `b`.
fn prefix_equal(a: &[u8], n: usize, b: &[u8]) -> (r: bool)
    requires
        n <= a@.len(),
    ensures
        r == (a@.subrange(0, n as int) == b@),
{
    if n != b.len() {
        proof {
            assert(a@.subrange(0, n as int).len() != b@.len());
        }
        return false;
    }
    let mut i: usize = 0;
    while i < n
        invariant
            n == b@.len(),
            n <= a@.len(),
            i <= n,
            forall|k: int| 0 <= k < i ==> a@[k] == b@[k],
        decreases n - i,
    {
        if a[i] != b[i] {
            proof {
                assert(a@.subrange(0, n as int)[i as int] != b@[i as int]);
            }
            return false;
        }
        i = i + 1;
    }
    proof {
        assert(a@.subrange(0, n as int) =~= b@);
    }
    true
}

/// Whether the string `s` is the literal `lit`.
fn is_word(s: &str, lit: &str) -> (r: bool)
    ensures
        r == (s.spec_bytes() == lit.spec_bytes()),
{
    let a = s.as_bytes();
    proof {
        assert(a@.subrange(0, a@.len() as int) =~= a@);
    }
    prefix_equal(a, a.len(), lit.as_bytes())
}

/// The command that the word `w` names.
pub fn parse_command(w: &str) -> (c: Command)
    ensures
        c == command_of(w.spec_bytes()),
{
    if is_word(w, "ls") {
        Command::Ls
    } else if is_word(w, "mkdir") {
        Command::Mkdir
    } else if is_word(w, "cd") {
        Command::Cd
    } else if is_word(w, "creat") {
        Command::Creat
    } else if is_word(w, "close") {
        Command::Close
    } else if is_word(w, "delete") {
        Command::Delete
    } else if is_word(w, "halt") {
        Command::Halt
    } else if is_word(w, "logout") {
        Command::Logout
    } else if is_word(w, "aopen") {
        Command::Aopen
    } else if is_word(w, "help") {
        Command::Help
    } else if is_word(w, "fmt") {
        Command::Fmt
    } else if is_word(w, "rd") {
        Command::Rd
    } else if is_word(w, "wr") {
        Command::Wr
    } else if is_word(w, "cls") {
        Command::Cls
    } else if is_word(w, "copy") {
        Command::Copy
    } else if is_word(w, "pst") {
        Command::Pst
    } else if is_word(w, "cruser") {
        Command::Cruser
    } else {
        Command::Unknown
    }
}

/// The open mode that the `aopen` flag `f` asks for: `-r` reads, `-w`
/// writes, `-a` appends; any other flag asks for none.
pub fn open_mode(f: &str) -> (m: Option<u16>)
    ensures
        m == if f.spec_bytes() == "-r".spec_bytes() {
            Some(FREAD as u16)
        } else if f.spec_bytes() == "-w".spec_bytes() {
            Some(FWRITE as u16)
        } else if f.spec_bytes() == "-a".spec_bytes() {
            Some(FAPPEND as u16)
        } else {
            None
        },
{
    if is_word(f, "-r") {
        Some(FREAD as u16)
    } else if is_word(f, "-w") {
        Some(FWRITE as u16)
    } else if is_word(f, "-a") {
        Some(FAPPEND as u16)
    } else {
        None
    }
}

/// `s` without the line-end bytes (`\n`, `\r`) at its end.
pub open spec fn without_line_end(s: Seq<u8>) -> Seq<u8>
    decreases s.len(),
{
    if s.len() > 0 && (s.last() == 10u8 || s.last() == 13u8) {
        without_line_end(s.drop_last())
    } else {
        s
    }
}

/// A string that does not end in a line-end byte is its own
/// `without_line_end`.
proof fn lemma_without_line_end_stops(s: Seq<u8>)
    requires
        !(s.len() > 0 && (s.last() == 10u8 || s.last() == 13u8)),
    ensures
        without_line_end(s) == s,
{
}

/// Whether formatting was confirmed at start-up: the first answer and the
/// confirmation are both `y`, and the password line, without its line end,
/// is `root`.
pub fn format_confirmed(answer: u8, confirm: u8, password_line: &str) -> (ok: bool)
    ensures
        ok == (answer == 121u8 && confirm == 121u8 && without_line_end(password_line.spec_bytes()) == "root".spec_bytes()),
{
    if answer != 121u8 || confirm != 121u8 {
        return false;
    }
    let b = password_line.as_bytes();
    let mut n: usize = b.len();
    proof {
        assert(b@.subrange(0, n as int) =~= b@);
    }
    while n > 0 && (b[n - 1] == 10u8 || b[n - 1] == 13u8)
        invariant
            n <= b@.len(),
            without_line_end(b@.subrange(0, n as int)) == without_line_end(b@),
        decreases n,
    {
        proof {
            let s = b@.subrange(0, n as int);
            assert(s.drop_last() =~= b@.subrange(0, n - 1));
        }
        n = n - 1;
    }
    proof {
        assert(b@.subrange(0, b@.len() as int) =~= b@);
        lemma_without_line_end_stops(b@.subrange(0, n as int));
    }
    prefix_equal(b, n, "root".as_bytes())
}

impl FileSystem {
    /// Whether the logged-in user `uid` may format the disk: the user is the
    /// root user.
    pub fn may_format(&self, uid: i32) -> (ok: bool)
        ensures
            ok == (0 <= uid < USERNUM && self.user@[uid as int].u_uid == ROOT),
    {
        0 <= uid && (uid as usize) < USERNUM && self.user[uid as usize].u_uid == ROOT
    }

    /// Whether accounts may be created here: the current directory is the
    /// root directory (inode 1).
    pub fn in_root_dir(&self) -> (ok: bool)
        requires
            self.wf(),
        ensures
            ok == (self.inodes@[self.cur_path_inode as int].i_ino == 1),
    {
        self.inodes[self.cur_path_inode].i_ino == 1
    }
}

} // verus!
