//! Core types and constants of the file system: block geometry, mode bits,
//! in-memory and on-disk inodes, the super block, passwords, directories,
//! the system open-file table entry and the user table entry.

use vstd::prelude::*;

verus! {

// ======================= geometry =======================

/// Size of one disk block in bytes.
pub const BLOCKSIZ: usize = 512;

/// Maximum number of entries in the system open-file table.
pub const SYSOPENFILE: usize = 40;

/// Maximum number of entries in one directory.
pub const DIRNUM: usize = 128;

/// Bytes of the name part of a directory entry.
pub const DIRSIZ: usize = 14;

/// Bytes of a user name or a password.
pub const PWDSIZ: usize = 12;

/// Number of password entries.
pub const PWDNUM: usize = 18;

/// Files a user may have open at once.
pub const NOFILE: usize = 20;

/// Block addresses held by one inode.
pub const NADDR: usize = 10;

/// Number of buckets of the in-memory inode cache (a power of two).
pub const NHINO: usize = 128;

/// Number of user table entries.
pub const USERNUM: usize = 10;

/// Bytes of one on-disk inode.
pub const DINODESIZ: usize = 32;

/// Number of blocks holding on-disk inodes.
pub const DINODEBLK: usize = 32;

/// Number of data blocks.
pub const FILEBLK: usize = 512;

/// Capacity of the free-block stack of the super block.
pub const NICFREE: usize = 50;

/// Capacity of the free-inode stack of the super block.
pub const NICINOD: usize = 50;

/// Byte offset of the inode area (after the boot and super blocks).
pub const DINODESTART: usize = 1024;

/// Byte offset of the data area.
pub const DATASTART: usize = 17408;

// ======================= file types =======================

/// Inode type: unused.
pub const DIEMPTY: u16 = 0o00000;

/// Inode type: regular file.
pub const DIFILE: u16 = 0o01000;

/// Inode type: directory.
pub const DIDIR: u16 = 0o02000;

// ======================= permission bits =======================

/// Owner may read.
pub const UDIREAD: u16 = 0o00001;

/// Owner may write.
pub const UDIWRITE: u16 = 0o00002;

/// Owner may execute.
pub const UDIEXICUTE: u16 = 0o00004;

/// Group may read.
pub const GDIREAD: u16 = 0o00010;

/// Group may write.
pub const GDIWRITE: u16 = 0o00020;

/// Group may execute.
pub const GDIEXICUTE: u16 = 0o00040;

/// Others may read.
pub const ODIREAD: u16 = 0o00100;

/// Others may write.
pub const ODIWRITE: u16 = 0o00200;

/// Others may execute.
pub const ODIEXICUTE: u16 = 0o00400;

/// Requested access: read.
pub const READ: u16 = 0o01;

/// Requested access: write.
pub const WRITE: u16 = 0o02;

/// Requested access: execute.
pub const EXICUTE: u16 = 0o04;

/// Mode of a user table entry that is not in use.
pub const DEFAULTMODE: u16 = 0o00777;

/// Default creation mode of an ordinary user.
pub const USERMODE: u16 = 0o00157;

/// Default creation mode of the root user.
pub const ROOTMODE: u16 = 0o00057;

// ======================= flags =======================

/// `i_flag`: the inode was modified.
pub const IUPDATE: u8 = 0o00002;

/// `s_fmod`: the super block was modified.
pub const SUPDATE: u8 = 0o00001;

/// Open mode: read.
pub const FREAD: u8 = 0o00001;

/// Open mode: write.
pub const FWRITE: u8 = 0o00002;

/// Open mode: append.
pub const FAPPEND: u8 = 0o00004;

// ======================= miscellaneous =======================

/// Block number meaning "disk full".
pub const DISKFULL: u32 = 65535;

/// Seek origin: start of file.
pub const SEEK_SET: u32 = 0;

/// User id of the root user.
pub const ROOT: u16 = 1;

// ======================= in-memory inode =======================

/// An inode held in memory: the on-disk fields plus cache bookkeeping.
#[derive(Clone, Copy)]
pub struct Inode {
    /// State flags.
    pub i_flag: u8,
    /// Number of the on-disk inode.
    pub i_ino: u32,
    /// Reference count of the cached copy.
    pub i_count: u32,
    /// Number of directory links.
    pub di_number: u16,
    /// Access bits and type.
    pub di_mode: u16,
    /// Owner user id.
    pub di_uid: u16,
    /// Owner group id.
    pub di_gid: u16,
    /// File size in bytes.
    pub di_size: u32,
    /// Physical block numbers of the file.
    pub di_addr: [u16; NADDR],
}

impl Inode {
    /// The all-zero inode.
    pub open spec fn spec_zero() -> Inode {
        Inode {
            i_flag: 0,
            i_ino: 0,
            i_count: 0,
            di_number: 0,
            di_mode: 0,
            di_uid: 0,
            di_gid: 0,
            di_size: 0,
            di_addr: [0u16; NADDR],
        }
    }
}

impl Default for Inode {
    fn default() -> (r: Self)
        ensures
            r == Inode::spec_zero(),
    {
        Inode {
            i_flag: 0,
            i_ino: 0,
            i_count: 0,
            di_number: 0,
            di_mode: 0,
            di_uid: 0,
            di_gid: 0,
            di_size: 0,
            di_addr: [0u16; 10],
        }
    }
}

// ======================= on-disk inode =======================

/// An inode as stored on disk (32 bytes).
#[derive(Clone, Copy)]
pub struct Dinode {
    /// Number of directory links.
    pub di_number: u16,
    /// Access bits and type.
    pub di_mode: u16,
    /// Owner user id.
    pub di_uid: u16,
    /// Owner group id.
    pub di_gid: u16,
    /// File size in bytes.
    pub di_size: u32,
    /// Physical block numbers of the file.
    pub di_addr: [u16; NADDR],
}

impl Dinode {
    /// The all-zero on-disk inode.
    pub open spec fn spec_zero() -> Dinode {
        Dinode { di_number: 0, di_mode: 0, di_uid: 0, di_gid: 0, di_size: 0, di_addr: [0u16; NADDR] }
    }
}

impl Default for Dinode {
    fn default() -> (r: Self)
        ensures
            r == Dinode::spec_zero(),
    {
        Dinode { di_number: 0, di_mode: 0, di_uid: 0, di_gid: 0, di_size: 0, di_addr: [0u16; 10] }
    }
}

// ======================= super block =======================

/// The super block: sizes and the free-block and free-inode stacks.
#[derive(Clone, Copy)]
pub struct SuperBlock {
    /// Number of inode blocks.
    pub s_isize: u16,
    /// Number of data blocks.
    pub s_fsize: u32,
    /// Number of free blocks.
    pub s_nfree: u32,
    /// Free-block stack pointer.
    pub s_pfree: u16,
    /// Free-block stack.
    pub s_free: [u32; NICFREE],
    /// Number of free inodes.
    pub s_ninode: u32,
    /// Free-inode stack pointer.
    pub s_pinode: u16,
    /// Free-inode stack.
    pub s_inode: [u32; NICINOD],
    /// Remembered inode: where the next scan for free inodes starts.
    pub s_rinode: u32,
    /// Modified flag.
    pub s_fmod: u8,
}

impl SuperBlock {
    /// The all-zero super block.
    pub open spec fn spec_zero() -> SuperBlock {
        SuperBlock {
            s_isize: 0,
            s_fsize: 0,
            s_nfree: 0,
            s_pfree: 0,
            s_free: [0u32; NICFREE],
            s_ninode: 0,
            s_pinode: 0,
            s_inode: [0u32; NICINOD],
            s_rinode: 0,
            s_fmod: 0,
        }
    }
}

impl Default for SuperBlock {
    fn default() -> (r: Self)
        ensures
            r == SuperBlock::spec_zero(),
    {
        SuperBlock {
            s_isize: 0,
            s_fsize: 0,
            s_nfree: 0,
            s_pfree: 0,
            s_free: [0u32; 50],
            s_ninode: 0,
            s_pinode: 0,
            s_inode: [0u32; 50],
            s_rinode: 0,
            s_fmod: 0,
        }
    }
}

// ======================= password =======================

/// One entry of the password table (28 bytes on disk).
#[derive(Clone, Copy)]
pub struct Password {
    /// User id.
    pub p_uid: u16,
    /// Group id.
    pub p_gid: u16,
    /// User name, zero padded.
    pub username: [u8; PWDSIZ],
    /// Password, zero padded.
    pub password: [u8; PWDSIZ],
}

impl Password {
    /// The all-zero password entry.
    pub open spec fn spec_zero() -> Password {
        Password { p_uid: 0, p_gid: 0, username: [0u8; PWDSIZ], password: [0u8; PWDSIZ] }
    }
}

impl Default for Password {
    fn default() -> (r: Self)
        ensures
            r == Password::spec_zero(),
    {
        Password { p_uid: 0, p_gid: 0, username: [0u8; 12], password: [0u8; 12] }
    }
}

// ======================= directory =======================

/// One directory entry (16 bytes on disk).
#[derive(Clone, Copy)]
pub struct DirEntry {
    /// Name, zero padded.
    pub d_name: [u8; DIRSIZ],
    /// Inode number; 0 marks an unused entry.
    pub d_ino: u16,
}

impl DirEntry {
    /// The all-zero directory entry.
    pub open spec fn spec_zero() -> DirEntry {
        DirEntry { d_name: [0u8; DIRSIZ], d_ino: 0 }
    }
}

impl Default for DirEntry {
    fn default() -> (r: Self)
        ensures
            r == DirEntry::spec_zero(),
    {
        DirEntry { d_ino: 0, d_name: [0u8; 14] }
    }
}

/// The in-memory copy of the current directory.
#[derive(Clone, Copy)]
pub struct Directory {
    /// The entries.
    pub direct: [DirEntry; DIRNUM],
    /// Number of entries in use.
    pub size: i32,
}

impl Directory {
    /// The empty directory: all entries zero.
    pub open spec fn spec_zero() -> Directory {
        Directory { direct: [DirEntry::spec_zero(); DIRNUM], size: 0 }
    }
}

impl Default for Directory {
    fn default() -> (r: Self)
        ensures
            r.size == 0,
            forall|i: int| 0 <= i < DIRNUM ==> #[trigger] r.direct@[i] == DirEntry::spec_zero(),
    {
        let e = DirEntry::default();
        let direct: [DirEntry; DIRNUM] = [e; 128];
        Directory { direct, size: 0 }
    }
}

// ======================= open files and users =======================

/// Handle of an in-memory inode: its index in the file system's inode arena.
pub type InodeRef = usize;

/// Entry of the system open-file table.
#[allow(non_camel_case_types)]
#[derive(Clone, Copy)]
pub struct file {
    /// Open mode flags.
    pub f_flag: u8,
    /// Reference count; 0 marks an unused entry.
    pub f_count: u32,
    /// The in-memory inode of the open file.
    pub f_inode: InodeRef,
    /// Read/write offset.
    pub f_off: u32,
}

impl Default for file {
    fn default() -> (r: Self)
        ensures
            r.f_flag == 0,
            r.f_count == 0,
            r.f_inode == 0,
            r.f_off == 0,
    {
        file { f_flag: 0, f_count: 0, f_inode: 0, f_off: 0 }
    }
}

/// Marker stored in a user's open-file table for a free slot.
pub const NO_OPEN_FILE: u16 = 41;

/// Entry of the user table.
#[derive(Clone, Copy)]
pub struct User {
    /// Default creation mode.
    pub u_default_mode: u16,
    /// User id; 0 marks an unused entry.
    pub u_uid: u16,
    /// Group id.
    pub u_gid: u16,
    /// Indexes into the system open-file table.
    pub u_ofile: [u16; NOFILE],
}

impl Default for User {
    fn default() -> (r: Self)
        ensures
            r.u_default_mode == 0,
            r.u_uid == 0,
            r.u_gid == 0,
            forall|i: int| 0 <= i < NOFILE ==> #[trigger] r.u_ofile@[i] == NO_OPEN_FILE,
    {
        User { u_default_mode: 0, u_uid: 0, u_gid: 0, u_ofile: [41u16; 20] }
    }
}

} // verus!
