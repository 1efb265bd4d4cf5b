//! Byte layout of the on-disk structures (little endian, C field order with
//! its alignment padding): inodes (32 bytes), directory entries (16 bytes),
//! password entries (28 bytes) and the super block (432 bytes).

use crate::types::{DINODESIZ, DIRSIZ, Dinode, DirEntry, NADDR, NICFREE, NICINOD, PWDSIZ, Password, SuperBlock};
use vstd::prelude::*;

verus! {

/// The little-endian value of two bytes.
pub open spec fn le16(b0: u8, b1: u8) -> int {
    b0 as int + 256 * (b1 as int)
}

/// The little-endian value of four bytes.
pub open spec fn le32(b0: u8, b1: u8, b2: u8, b3: u8) -> int {
    b0 as int + 256 * (b1 as int) + 65536 * (b2 as int) + 16777216 * (b3 as int)
}

/// Reads a little-endian `u16` at `off`.
pub fn get_u16(b: &[u8], off: usize) -> (v: u16)
    requires
        off + 2 <= b.len(),
    ensures
        v as int == le16(b@[off as int], b@[off + 1]),
{
    b[off] as u16 + (b[off + 1] as u16) * 256
}

/// Reads a little-endian `u32` at `off`.
pub fn get_u32(b: &[u8], off: usize) -> (v: u32)
    requires
        off + 4 <= b.len(),
    ensures
        v as int == le32(b@[off as int], b@[off + 1], b@[off + 2], b@[off + 3]),
{
    b[off] as u32 + (b[off + 1] as u32) * 256 + (b[off + 2] as u32) * 65536 + (b[off + 3] as u32) * 16777216
}

/// Writes `v` little-endian at `off`.
pub fn put_u16(b: &mut Vec<u8>, off: usize, v: u16)
    requires
        off + 2 <= old(b).len(),
    ensures
        final(b)@.len() == old(b)@.len(),
        le16(final(b)@[off as int], final(b)@[off + 1]) == v as int,
        forall|i: int| 0 <= i < old(b)@.len() && (i < off || i >= off + 2) ==> #[trigger] final(b)@[i] == old(b)@[i],
{
    b.set(off, (v % 256) as u8);
    b.set(off + 1, (v / 256) as u8);
}

/// Writes `v` little-endian at `off`.
pub fn put_u32(b: &mut Vec<u8>, off: usize, v: u32)
    requires
        off + 4 <= old(b).len(),
    ensures
        final(b)@.len() == old(b)@.len(),
        le32(final(b)@[off as int], final(b)@[off + 1], final(b)@[off + 2], final(b)@[off + 3]) == v as int,
        forall|i: int| 0 <= i < old(b)@.len() && (i < off || i >= off + 4) ==> #[trigger] final(b)@[i] == old(b)@[i],
{
    b.set(off, (v % 256) as u8);
    b.set(off + 1, ((v / 256) % 256) as u8);
    b.set(off + 2, ((v / 65536) % 256) as u8);
    b.set(off + 3, (v / 16777216) as u8);
}

// ======================= inodes =======================

/// The fields of an on-disk inode read from `b` at `off`.
pub open spec fn dinode_fields_at(d: Dinode, b: Seq<u8>, off: int) -> bool {
    &&& d.di_number as int == le16(b[off], b[off + 1])
    &&& d.di_mode as int == le16(b[off + 2], b[off + 3])
    &&& d.di_uid as int == le16(b[off + 4], b[off + 5])
    &&& d.di_gid as int == le16(b[off + 6], b[off + 7])
    &&& d.di_size as int == le32(b[off + 8], b[off + 9], b[off + 10], b[off + 11])
    &&& forall|i: int| 0 <= i < NADDR ==> #[trigger] d.di_addr@[i] as int == le16(b[off + 12 + 2 * i], b[off + 13 + 2 * i])
}

/// Reads the on-disk inode at `off`.
pub fn read_dinode_at(b: &[u8], off: usize) -> (d: Dinode)
    requires
        off + DINODESIZ <= b.len(),
    ensures
        dinode_fields_at(d, b@, off as int),
{
    let mut di_addr: [u16; NADDR] = [0u16; 10];
    let mut i: usize = 0;
    while i < NADDR
        invariant
            off + 32 <= b.len(),
            i <= NADDR,
            forall|j: int| 0 <= j < i ==> #[trigger] di_addr@[j] as int == le16(b@[off + 12 + 2 * j], b@[off + 13 + 2 * j]),
        decreases NADDR - i,
    {
        di_addr[i] = get_u16(b, off + 12 + 2 * i);
        i = i + 1;
    }
    Dinode {
        di_number: get_u16(b, off),
        di_mode: get_u16(b, off + 2),
        di_uid: get_u16(b, off + 4),
        di_gid: get_u16(b, off + 6),
        di_size: get_u32(b, off + 8),
        di_addr,
    }
}

/// The 32 bytes of an on-disk inode.
pub fn dinode_bytes(d: &Dinode) -> (b: Vec<u8>)
    ensures
        b@.len() == DINODESIZ,
        dinode_fields_at(*d, b@, 0),
{
    let mut b: Vec<u8> = vec![0u8; 32];
    put_u16(&mut b, 0, d.di_number);
    put_u16(&mut b, 2, d.di_mode);
    put_u16(&mut b, 4, d.di_uid);
    put_u16(&mut b, 6, d.di_gid);
    put_u32(&mut b, 8, d.di_size);
    let mut i: usize = 0;
    while i < NADDR
        invariant
            b@.len() == 32,
            i <= NADDR,
            le16(b@[0], b@[1]) == d.di_number as int,
            le16(b@[2], b@[3]) == d.di_mode as int,
            le16(b@[4], b@[5]) == d.di_uid as int,
            le16(b@[6], b@[7]) == d.di_gid as int,
            le32(b@[8], b@[9], b@[10], b@[11]) == d.di_size as int,
            forall|j: int| 0 <= j < i ==> #[trigger] d.di_addr@[j] as int == le16(b@[12 + 2 * j], b@[13 + 2 * j]),
        decreases NADDR - i,
    {
        let a = d.di_addr[i];
        let ghost pre = b@;
        put_u16(&mut b, 12 + 2 * i, a);
        proof {
            assert forall|j: int| 0 <= j < i implies #[trigger] d.di_addr@[j] as int == le16(b@[12 + 2 * j], b@[13 + 2 * j]) by {
                assert(b@[12 + 2 * j] == pre[12 + 2 * j]);
                assert(b@[13 + 2 * j] == pre[13 + 2 * j]);
            }
        }
        i = i + 1;
    }
    b
}

// ======================= directory entries =======================

/// Bytes of one directory entry on disk.
pub const DIRENTSIZ: usize = 16;

/// The directory entry fields read from `b` at `off`.
pub open spec fn direntry_fields_at(e: DirEntry, b: Seq<u8>, off: int) -> bool {
    &&& forall|i: int| 0 <= i < DIRSIZ ==> #[trigger] e.d_name@[i] == b[off + i]
    &&& e.d_ino as int == le16(b[off + 14], b[off + 15])
}

/// Reads the directory entry at `off`.
pub fn read_direntry_at(b: &[u8], off: usize) -> (e: DirEntry)
    requires
        off + DIRENTSIZ <= b.len(),
    ensures
        direntry_fields_at(e, b@, off as int),
{
    let mut d_name: [u8; DIRSIZ] = [0u8; 14];
    let mut i: usize = 0;
    while i < DIRSIZ
        invariant
            off + 16 <= b.len(),
            i <= DIRSIZ,
            forall|j: int| 0 <= j < i ==> #[trigger] d_name@[j] == b@[off + j],
        decreases DIRSIZ - i,
    {
        d_name[i] = b[off + i];
        i = i + 1;
    }
    DirEntry { d_name, d_ino: get_u16(b, off + 14) }
}

/// Writes the directory entry at `off`.
pub fn write_direntry_at(b: &mut Vec<u8>, off: usize, e: &DirEntry)
    requires
        off + DIRENTSIZ <= old(b).len(),
    ensures
        final(b)@.len() == old(b)@.len(),
        direntry_fields_at(*e, final(b)@, off as int),
        forall|i: int| 0 <= i < old(b)@.len() && (i < off || i >= off + 16) ==> #[trigger] final(b)@[i] == old(b)@[i],
{
    let mut i: usize = 0;
    while i < DIRSIZ
        invariant
            off + 16 <= b.len(),
            b@.len() == old(b)@.len(),
            i <= DIRSIZ,
            forall|j: int| 0 <= j < i ==> #[trigger] e.d_name@[j] == b@[off + j],
            forall|j: int| 0 <= j < b@.len() && (j < off || j >= off + 16) ==> #[trigger] b@[j] == old(b)@[j],
        decreases DIRSIZ - i,
    {
        b.set(off + i, e.d_name[i]);
        i = i + 1;
    }
    put_u16(b, off + 14, e.d_ino);
}

// ======================= passwords =======================

/// Bytes of one password entry on disk.
pub const PWDENTSIZ: usize = 28;

/// The password entry fields read from `b` at `off`.
pub open spec fn password_fields_at(p: Password, b: Seq<u8>, off: int) -> bool {
    &&& p.p_uid as int == le16(b[off], b[off + 1])
    &&& p.p_gid as int == le16(b[off + 2], b[off + 3])
    &&& forall|i: int| 0 <= i < PWDSIZ ==> #[trigger] p.username@[i] == b[off + 4 + i]
    &&& forall|i: int| 0 <= i < PWDSIZ ==> #[trigger] p.password@[i] == b[off + 16 + i]
}

/// Reads the password entry at `off`.
pub fn read_password_at(b: &[u8], off: usize) -> (p: Password)
    requires
        off + PWDENTSIZ <= b.len(),
    ensures
        password_fields_at(p, b@, off as int),
{
    let mut username: [u8; PWDSIZ] = [0u8; 12];
    let mut password: [u8; PWDSIZ] = [0u8; 12];
    let mut i: usize = 0;
    while i < PWDSIZ
        invariant
            off + 28 <= b.len(),
            i <= PWDSIZ,
            forall|j: int| 0 <= j < i ==> #[trigger] username@[j] == b@[off + 4 + j],
            forall|j: int| 0 <= j < i ==> #[trigger] password@[j] == b@[off + 16 + j],
        decreases PWDSIZ - i,
    {
        username[i] = b[off + 4 + i];
        password[i] = b[off + 16 + i];
        i = i + 1;
    }
    Password { p_uid: get_u16(b, off), p_gid: get_u16(b, off + 2), username, password }
}

/// Writes the password entry at `off`.
pub fn write_password_at(b: &mut Vec<u8>, off: usize, p: &Password)
    requires
        off + PWDENTSIZ <= old(b).len(),
    ensures
        final(b)@.len() == old(b)@.len(),
        password_fields_at(*p, final(b)@, off as int),
        forall|i: int| 0 <= i < old(b)@.len() && (i < off || i >= off + 28) ==> #[trigger] final(b)@[i] == old(b)@[i],
{
    put_u16(b, off, p.p_uid);
    put_u16(b, off + 2, p.p_gid);
    let mut i: usize = 0;
    while i < PWDSIZ
        invariant
            off + 28 <= b.len(),
            b@.len() == old(b)@.len(),
            i <= PWDSIZ,
            le16(b@[off as int], b@[off + 1]) == p.p_uid as int,
            le16(b@[off + 2], b@[off + 3]) == p.p_gid as int,
            forall|j: int| 0 <= j < i ==> #[trigger] p.username@[j] == b@[off + 4 + j],
            forall|j: int| 0 <= j < i ==> #[trigger] p.password@[j] == b@[off + 16 + j],
            forall|j: int| 0 <= j < b@.len() && (j < off || j >= off + 28) ==> #[trigger] b@[j] == old(b)@[j],
        decreases PWDSIZ - i,
    {
        b.set(off + 4 + i, p.username[i]);
        b.set(off + 16 + i, p.password[i]);
        i = i + 1;
    }
}

// ======================= super block =======================

/// Bytes of the super block on disk.
pub const SUPERBLOCKSIZ: usize = 432;

/// The super block fields read from `b` at offset 0.
pub open spec fn superblock_fields(sb: SuperBlock, b: Seq<u8>) -> bool {
    &&& sb.s_isize as int == le16(b[0], b[1])
    &&& sb.s_fsize as int == le32(b[4], b[5], b[6], b[7])
    &&& sb.s_nfree as int == le32(b[8], b[9], b[10], b[11])
    &&& sb.s_pfree as int == le16(b[12], b[13])
    &&& forall|i: int| 0 <= i < NICFREE ==> #[trigger] sb.s_free@[i] as int == le32(b[16 + 4 * i], b[17 + 4 * i], b[18 + 4 * i], b[19 + 4 * i])
    &&& sb.s_ninode as int == le32(b[216], b[217], b[218], b[219])
    &&& sb.s_pinode as int == le16(b[220], b[221])
    &&& forall|i: int| 0 <= i < NICINOD ==> #[trigger] sb.s_inode@[i] as int == le32(b[224 + 4 * i], b[225 + 4 * i], b[226 + 4 * i], b[227 + 4 * i])
    &&& sb.s_rinode as int == le32(b[424], b[425], b[426], b[427])
    &&& sb.s_fmod == b[428]
}

/// Reads the super block from the start of `b`.
pub fn read_superblock(b: &[u8]) -> (sb: SuperBlock)
    requires
        SUPERBLOCKSIZ <= b.len(),
    ensures
        superblock_fields(sb, b@),
{
    let mut s_free: [u32; NICFREE] = [0u32; 50];
    let mut s_inode: [u32; NICINOD] = [0u32; 50];
    let mut i: usize = 0;
    while i < NICFREE
        invariant
            SUPERBLOCKSIZ <= b.len(),
            i <= NICFREE,
            forall|j: int| 0 <= j < i ==> #[trigger] s_free@[j] as int == le32(b@[16 + 4 * j], b@[17 + 4 * j], b@[18 + 4 * j], b@[19 + 4 * j]),
            forall|j: int| 0 <= j < i ==> #[trigger] s_inode@[j] as int == le32(b@[224 + 4 * j], b@[225 + 4 * j], b@[226 + 4 * j], b@[227 + 4 * j]),
        decreases NICFREE - i,
    {
        s_free[i] = get_u32(b, 16 + 4 * i);
        s_inode[i] = get_u32(b, 224 + 4 * i);
        i = i + 1;
    }
    SuperBlock {
        s_isize: get_u16(b, 0),
        s_fsize: get_u32(b, 4),
        s_nfree: get_u32(b, 8),
        s_pfree: get_u16(b, 12),
        s_free,
        s_ninode: get_u32(b, 216),
        s_pinode: get_u16(b, 220),
        s_inode,
        s_rinode: get_u32(b, 424),
        s_fmod: b[428],
    }
}

/// The bytes of the super block (padding bytes zero).
pub fn superblock_bytes(sb: &SuperBlock) -> (b: Vec<u8>)
    ensures
        b@.len() == SUPERBLOCKSIZ,
        superblock_fields(*sb, b@),
{
    let mut b: Vec<u8> = vec![0u8; 432];
    put_u16(&mut b, 0, sb.s_isize);
    put_u32(&mut b, 4, sb.s_fsize);
    put_u32(&mut b, 8, sb.s_nfree);
    put_u16(&mut b, 12, sb.s_pfree);
    put_u32(&mut b, 216, sb.s_ninode);
    put_u16(&mut b, 220, sb.s_pinode);
    put_u32(&mut b, 424, sb.s_rinode);
    b.set(428, sb.s_fmod);
    let ghost fixed = b@;
    let mut i: usize = 0;
    while i < NICFREE
        invariant
            b@.len() == 432,
            i <= NICFREE,
            forall|k: int| (0 <= k < 16 || 216 <= k < 224 || 424 <= k < 432) ==> #[trigger] b@[k] == fixed[k],
            forall|j: int| 0 <= j < i ==> #[trigger] sb.s_free@[j] as int == le32(b@[16 + 4 * j], b@[17 + 4 * j], b@[18 + 4 * j], b@[19 + 4 * j]),
            forall|j: int| 0 <= j < i ==> #[trigger] sb.s_inode@[j] as int == le32(b@[224 + 4 * j], b@[225 + 4 * j], b@[226 + 4 * j], b@[227 + 4 * j]),
        decreases NICFREE - i,
    {
        let ghost pre = b@;
        put_u32(&mut b, 16 + 4 * i, sb.s_free[i]);
        put_u32(&mut b, 224 + 4 * i, sb.s_inode[i]);
        proof {
            assert forall|j: int| 0 <= j < i implies #[trigger] sb.s_free@[j] as int == le32(b@[16 + 4 * j], b@[17 + 4 * j], b@[18 + 4 * j], b@[19 + 4 * j]) by {
                assert(b@[16 + 4 * j] == pre[16 + 4 * j]);
                assert(b@[17 + 4 * j] == pre[17 + 4 * j]);
                assert(b@[18 + 4 * j] == pre[18 + 4 * j]);
                assert(b@[19 + 4 * j] == pre[19 + 4 * j]);
            }
            assert forall|j: int| 0 <= j < i implies #[trigger] sb.s_inode@[j] as int == le32(b@[224 + 4 * j], b@[225 + 4 * j], b@[226 + 4 * j], b@[227 + 4 * j]) by {
                assert(b@[224 + 4 * j] == pre[224 + 4 * j]);
                assert(b@[225 + 4 * j] == pre[225 + 4 * j]);
                assert(b@[226 + 4 * j] == pre[226 + 4 * j]);
                assert(b@[227 + 4 * j] == pre[227 + 4 * j]);
            }
        }
        i = i + 1;
    }
    b
}

/// Reading back the bytes written for a super block gives it again.
pub proof fn lemma_superblock_roundtrip(sb: SuperBlock, b: Seq<u8>, sb2: SuperBlock)
    requires
        superblock_fields(sb, b),
        superblock_fields(sb2, b),
    ensures
        sb2 == sb,
{
    assert(sb2.s_free@ =~= sb.s_free@);
    assert(sb2.s_inode@ =~= sb.s_inode@);
    assert(sb2.s_free =~= sb.s_free);
    assert(sb2.s_inode =~= sb.s_inode);
}


/// An on-disk inode reads back as the inode whose bytes were written.
pub proof fn lemma_dinode_roundtrip(d: Dinode, b: Seq<u8>, off: int, d2: Dinode)
    requires
        dinode_fields_at(d, b, off),
        dinode_fields_at(d2, b, off),
    ensures
        d2 == d,
{
    assert(d2.di_addr@ =~= d.di_addr@);
    assert(d2.di_addr =~= d.di_addr);
}

/// A directory entry reads back as the entry whose bytes were written.
pub proof fn lemma_direntry_roundtrip(e: DirEntry, b: Seq<u8>, off: int, e2: DirEntry)
    requires
        direntry_fields_at(e, b, off),
        direntry_fields_at(e2, b, off),
    ensures
        e2 == e,
{
    assert(e2.d_name@ =~= e.d_name@);
    assert(e2.d_name =~= e.d_name);
}

/// A password entry reads back as the entry whose bytes were written.
pub proof fn lemma_password_roundtrip(p: Password, b: Seq<u8>, off: int, p2: Password)
    requires
        password_fields_at(p, b, off),
        password_fields_at(p2, b, off),
    ensures
        p2 == p,
{
    assert(p2.username@ =~= p.username@);
    assert(p2.password@ =~= p.password@);
    assert(p2.username =~= p.username);
    assert(p2.password =~= p.password);
}

} // verus!
