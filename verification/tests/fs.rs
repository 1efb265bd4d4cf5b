use fs_core::cli::copy_str_to_bytes_2;
use fs_core::dir_op::{perm_string, DirError};
use fs_core::disk::BlockStore;
use fs_core::file_op::OPEN_FAILED;
use fs_core::inode::FsError;
use fs_core::layout::{
    dinode_bytes, read_dinode_at, read_superblock, superblock_bytes, read_direntry_at, write_direntry_at,
};
use fs_core::log::LoginError;
use fs_core::state::FileSystem;
use fs_core::types::{
    DirEntry, Dinode, BLOCKSIZ, DIDIR, DIFILE, DINODEBLK, FILEBLK, FREAD, FWRITE, FAPPEND, GDIREAD, ROOTMODE,
    SuperBlock,
};
use fs_core::util::{NOT_FOUND, NO_SLOT};

fn disk_blocks() -> usize {
    DINODEBLK + FILEBLK + 2
}

fn formatted() -> Vec<u8> {
    let disk = BlockStore::new(vec![0u8; disk_blocks() * BLOCKSIZ]);
    let mut fs = FileSystem::new_empty(disk);
    fs.format().unwrap();
    fs.buffer_pool_manager.disk_bytes().clone()
}

fn name(s: &str) -> [u8; 12] {
    let mut b = [0u8; 12];
    copy_str_to_bytes_2(s, &mut b);
    b
}

#[test]
fn state_test() {
    let disk = BlockStore::new(vec![0u8; 500 * BLOCKSIZ]);
    let fs = FileSystem::install(disk);
    assert!(fs.is_ok());
    let fs = fs.unwrap();
    assert_eq!(fs.dir.size, 0);
}

#[test]
fn fmt_test() {
    let disk = BlockStore::new(vec![0u8; 500 * BLOCKSIZ]);
    let mut s = FileSystem::install(disk).unwrap();
    let image = vec![0u8; disk_blocks() * BLOCKSIZ];
    s = FileSystem::new_empty(BlockStore::new(image));
    assert_eq!(s.format(), Ok(()));
    let bytes = s.buffer_pool_manager.disk_bytes().clone();
    let s2 = FileSystem::install(BlockStore::new(bytes));
    assert!(s2.is_ok());
}

#[test]
fn format_sets_super_block() {
    let disk = BlockStore::new(vec![0u8; disk_blocks() * BLOCKSIZ]);
    let mut fs = FileSystem::new_empty(disk);
    fs.format().unwrap();
    assert_eq!(fs.filsys.s_ninode, 508);
    assert_eq!(fs.filsys.s_nfree, 509);
    assert_eq!(fs.filsys.s_pfree, 11);
    assert_eq!(fs.filsys.s_free[0], 11);
    assert_eq!(fs.filsys.s_free[1], 13);
    assert_eq!(fs.filsys.s_free[11], 3);
    assert_eq!(fs.filsys.s_inode[0], 4);
    assert_eq!(fs.filsys.s_rinode, 54);
    let bytes = fs.buffer_pool_manager.disk_bytes();
    let sb = read_superblock(&bytes[BLOCKSIZ..2 * BLOCKSIZ]);
    assert_eq!(sb.s_nfree, 509);
    assert_eq!(sb.s_inode[49], 53);
    // first group leader: data block 462 lists 49 blocks from 511 down
    let leader = 34 + 462;
    let at = |k: usize| {
        let o = leader * BLOCKSIZ + 4 * k;
        u32::from_le_bytes([bytes[o], bytes[o + 1], bytes[o + 2], bytes[o + 3]])
    };
    assert_eq!(at(0), 49);
    assert_eq!(at(1), 0);
    assert_eq!(at(2), 511);
    assert_eq!(at(50), 463);
}

#[test]
fn install_reads_root_directory() {
    let fs = FileSystem::install(BlockStore::new(formatted())).unwrap();
    assert_eq!(fs.dir.size, 3);
    assert_eq!(fs.namei("."), 1);
    assert_eq!(fs.namei(".."), 1);
    assert_eq!(fs.namei("etc"), 2);
    assert_eq!(fs.namei("nothing"), NOT_FOUND);
    assert_eq!(fs.pwd[0].p_uid, 1);
    assert_eq!(&fs.pwd[0].username[..5], b"root\0");
    assert_eq!(fs.filsys.s_nfree, 509);
    assert_eq!(fs.inodes[fs.cur_path_inode].i_ino, 1);
}

#[test]
fn login_checks_name_and_password() {
    let mut fs = FileSystem::install(BlockStore::new(formatted())).unwrap();
    assert_eq!(fs.login(&name("nobody"), &name("root")), Err(LoginError::BadUser));
    assert_eq!(fs.login(&name("root"), &name("wrong")), Err(LoginError::BadPassword));
    assert_eq!(fs.login(&name("root"), &name("root")), Ok(0));
    assert_eq!(fs.user[0].u_uid, 1);
    assert_eq!(fs.user[0].u_default_mode, ROOTMODE);
    assert_eq!(fs.login(&name("root"), &name("root")), Ok(1));
}

#[test]
fn logout_frees_user_entry() {
    let mut fs = FileSystem::install(BlockStore::new(formatted())).unwrap();
    assert_eq!(fs.login(&name("root"), &name("root")), Ok(0));
    fs.user_id = 0;
    assert_eq!(fs.logout(7), 0);
    assert_eq!(fs.logout(1), 1);
    assert_eq!(fs.user_id, -1);
    assert_eq!(fs.user[0].u_uid, 0);
}

#[test]
fn create_write_read_file() {
    let mut fs = FileSystem::install(BlockStore::new(formatted())).unwrap();
    fs.user_id = fs.login(&name("root"), &name("root")).unwrap() as i32;
    assert_eq!(fs.creat(0, "f1", ROOTMODE | GDIREAD | DIFILE), Ok(()));
    assert_eq!(fs.dir.size, 4);
    assert_eq!(fs.creat(0, "f1", ROOTMODE | GDIREAD | DIFILE), Err(DirError::Exists));
    let ino = fs.namei("f1");
    assert_eq!(ino, 4);

    let t = fs.aopen(0, "f1", FWRITE as u16);
    assert_eq!(t, 0);
    assert_eq!(fs.sys_ofile[0].f_count, 1);
    assert_eq!(fs.aopen(0, "f1", FREAD as u16), OPEN_FAILED);
    let cfd = fs.xfa("f1");
    assert_eq!(cfd, 0);
    assert_eq!(fs.write(cfd, b"hello\n", 6), 6);
    let h = fs.sys_ofile[0].f_inode;
    assert_eq!(fs.inodes[h].di_size, 6);
    assert_eq!(fs.sys_ofile[0].f_off, 6);
    assert_eq!(fs.close(0, cfd as i16), Ok(()));
    assert_eq!(fs.xfa("f1"), -1);

    assert_eq!(fs.aopen(0, "f1", FREAD as u16), 0);
    let cfd = fs.xfa("f1");
    let mut buf = vec![0u8; 10 * BLOCKSIZ];
    assert_eq!(fs.read(cfd, &mut buf), 6);
    assert_eq!(&buf[..6], b"hello\n");
    // not opened for writing
    assert_eq!(fs.write(cfd, b"x", 1), 0);
}

#[test]
fn append_writes_after_the_file() {
    let mut fs = FileSystem::install(BlockStore::new(formatted())).unwrap();
    fs.user_id = fs.login(&name("root"), &name("root")).unwrap() as i32;
    fs.creat(0, "log", ROOTMODE | DIFILE).unwrap();
    fs.aopen(0, "log", FWRITE as u16);
    let cfd = fs.xfa("log");
    assert_eq!(fs.write(cfd, b"ab\n", 3), 3);
    fs.close(0, cfd as i16).unwrap();
    let t = fs.aopen(0, "log", FAPPEND as u16);
    assert_eq!(t, 0);
    assert_eq!(fs.sys_ofile[0].f_flag, FAPPEND | FWRITE | FREAD);
    assert_eq!(fs.sys_ofile[0].f_off, 3);
    let cfd = fs.xfa("log");
    assert_eq!(fs.write(cfd, b"cd", 2), 2);
    let mut buf = vec![0u8; 10 * BLOCKSIZ];
    assert_eq!(fs.read(cfd, &mut buf), 5);
    // appending starts two bytes before the end of the file
    assert_eq!(&buf[..3], b"acd");
}

#[test]
fn persisted_after_halt() {
    let mut fs = FileSystem::install(BlockStore::new(formatted())).unwrap();
    fs.user_id = fs.login(&name("root"), &name("root")).unwrap() as i32;
    fs.creat(0, "keep", ROOTMODE | DIFILE).unwrap();
    fs.aopen(0, "keep", FWRITE as u16);
    let cfd = fs.xfa("keep");
    assert_eq!(fs.write(cfd, b"data", 4), 4);
    assert_eq!(fs.halt(), Ok(()));
    assert_eq!(fs.user[0].u_ofile[0], 41);
    let bytes = fs.buffer_pool_manager.disk_bytes().clone();
    let d = read_dinode_at(&bytes[2 * BLOCKSIZ..3 * BLOCKSIZ], 4 * 32);
    assert_eq!(d.di_size, 4);
    assert_eq!(d.di_number, 1);
    let blk = (34 + d.di_addr[0] as usize) * BLOCKSIZ;
    assert_eq!(&bytes[blk..blk + 4], b"data");
    let sb = read_superblock(&bytes[BLOCKSIZ..2 * BLOCKSIZ]);
    assert_eq!(sb.s_nfree, 508);
    assert_eq!(sb.s_ninode, 507);
}

#[test]
fn mkdir_and_chdir() {
    let mut fs = FileSystem::install(BlockStore::new(formatted())).unwrap();
    fs.user_id = fs.login(&name("root"), &name("root")).unwrap() as i32;
    assert_eq!(fs.mkdir(0, "d"), Ok(()));
    assert_eq!(fs.dir.size, 4);
    assert_eq!(fs.mkdir(0, "d"), Err(DirError::DirExists));
    assert_eq!(fs.mkdir(0, "etc"), Err(DirError::DirExists));
    assert_eq!(fs.chdir(0, "d"), Ok(()));
    assert_eq!(fs.dir.size, 2);
    assert_eq!(fs.namei("."), fs.inodes[fs.cur_path_inode].i_ino);
    assert_eq!(fs.namei(".."), 1);
    assert_eq!(fs.chdir(0, ".."), Ok(()));
    assert_eq!(fs.dir.size, 4);
    assert_eq!(fs.chdir(0, "missing"), Err(DirError::NotFound));
    let listing = fs._dir();
    assert_eq!(listing.len(), 4);
    assert!(listing[2].is_dir);
    assert_eq!(&listing[2].name[..4], b"etc\0");
}

#[test]
fn chdir_into_file_fails() {
    let mut fs = FileSystem::install(BlockStore::new(formatted())).unwrap();
    fs.user_id = fs.login(&name("root"), &name("root")).unwrap() as i32;
    fs.chdir(0, "etc").unwrap();
    assert_eq!(fs.chdir(0, "password"), Err(DirError::IsFile));
}

#[test]
fn delete_file_removes_entry() {
    let mut fs = FileSystem::install(BlockStore::new(formatted())).unwrap();
    fs.user_id = fs.login(&name("root"), &name("root")).unwrap() as i32;
    fs.creat(0, "a", ROOTMODE | DIFILE).unwrap();
    fs.creat(0, "b", ROOTMODE | DIFILE).unwrap();
    assert_eq!(fs.dir.size, 5);
    let (h, is_dir) = fs.deletefd_target(0, "a").unwrap();
    assert!(!is_dir);
    assert_eq!(fs.deletefd(0, "a", h), Ok(()));
    assert_eq!(fs.dir.size, 4);
    assert_eq!(fs.namei("a"), NOT_FOUND);
    assert_eq!(fs.namei("b"), 5);
    assert_eq!(fs.deletefd_target(0, "a").err(), Some(DirError::NotFound));
}

#[test]
fn delete_nonempty_dir_refused() {
    let mut fs = FileSystem::install(BlockStore::new(formatted())).unwrap();
    fs.user_id = fs.login(&name("root"), &name("root")).unwrap() as i32;
    let (h, is_dir) = fs.deletefd_target(0, "etc").unwrap();
    assert!(is_dir);
    assert_eq!(fs.deletefd(0, "etc", h), Err(DirError::NotEmpty));
}

#[test]
fn iname_claims_first_free_entry() {
    let mut fs = FileSystem::install(BlockStore::new(formatted())).unwrap();
    let p = fs.iname("a_very_long_file_name");
    assert_eq!(p, 3);
    assert_eq!(&fs.dir.direct[3].d_name, b"a_very_long_f\0");
    assert_eq!(fs.dir.direct[3].d_ino, 0);
    assert_ne!(p, NO_SLOT);
}

#[test]
fn access_follows_mode_bits() {
    let mut fs = FileSystem::install(BlockStore::new(formatted())).unwrap();
    let h = fs.iget(3).unwrap();
    // user table entry 0 is empty: uid 0, gid 0
    fs.inodes[h].di_mode = 0o001;
    fs.inodes[h].di_uid = 0;
    assert_eq!(fs.access(0, h, 1), 1);
    assert_eq!(fs.access(0, h, 2), 0);
    fs.inodes[h].di_mode = 0o100;
    fs.inodes[h].di_uid = 9;
    assert_eq!(fs.access(0, h, 1), 1);
    assert_eq!(fs.access(0, h, 4), 0);
    assert_eq!(fs.access(0, h, 3), 0);
    fs.user[0].u_uid = 1;
    assert_eq!(fs.access(0, h, 4), 1);
}

#[test]
fn ialloc_and_ifree_use_the_stack() {
    let mut fs = FileSystem::install(BlockStore::new(formatted())).unwrap();
    let h = fs.ialloc().unwrap();
    assert_eq!(fs.inodes[h].i_ino, 4);
    assert_eq!(fs.filsys.s_pinode, 1);
    assert_eq!(fs.filsys.s_ninode, 507);
    assert_eq!(fs.ifree(4), Ok(()));
    assert_eq!(fs.filsys.s_pinode, 0);
    assert_eq!(fs.filsys.s_inode[0], 4);
    assert_eq!(fs.filsys.s_ninode, 508);
    // the inode just released is the next one handed out
    let h2 = fs.ialloc().unwrap();
    assert_eq!(fs.inodes[h2].i_ino, 4);
}

#[test]
fn ialloc_refills_from_disk() {
    let mut fs = FileSystem::install(BlockStore::new(formatted())).unwrap();
    fs.filsys.s_pinode = 50;
    fs.filsys.s_rinode = 4;
    let h = fs.ialloc().unwrap();
    assert_eq!(fs.inodes[h].i_ino, 53);
    assert_eq!(fs.filsys.s_inode[49], 4);
    assert_eq!(fs.filsys.s_inode[0], 53);
    assert_eq!(fs.filsys.s_rinode, 54);
    assert_eq!(fs.filsys.s_pinode, 1);
}

#[test]
fn balloc_and_bfree_use_the_stack() {
    let mut fs = FileSystem::install(BlockStore::new(formatted())).unwrap();
    assert_eq!(fs.balloc(), Some(4));
    assert_eq!(fs.filsys.s_pfree, 10);
    assert_eq!(fs.filsys.s_nfree, 508);
    fs.bfree(4);
    assert_eq!(fs.filsys.s_pfree, 11);
    assert_eq!(fs.filsys.s_free[11], 4);
    assert_eq!(fs.filsys.s_free[0], 12);
    assert_eq!(fs.filsys.s_nfree, 509);
}

#[test]
fn balloc_loads_next_group() {
    let mut fs = FileSystem::install(BlockStore::new(formatted())).unwrap();
    fs.filsys.s_pfree = 1;
    fs.filsys.s_free[0] = 462;
    assert_eq!(fs.balloc(), Some(462));
    assert_eq!(fs.filsys.s_pfree, 50);
    assert_eq!(fs.filsys.s_free[0], 49);
    assert_eq!(fs.filsys.s_free[2], 511);
}

#[test]
fn chpath_updates_prompt() {
    let fs = FileSystem::install(BlockStore::new(formatted())).unwrap();
    let mut p = b"root@VirtualUbuntu:~/root".to_vec();
    fs.chpath(&mut p, "d", 5);
    assert_eq!(p, b"root@VirtualUbuntu:~/root/d".to_vec());
    fs.chpath(&mut p, ".", 5);
    assert_eq!(p, b"root@VirtualUbuntu:~/root/d".to_vec());
    fs.chpath(&mut p, "..", 1);
    assert_eq!(p, b"root@VirtualUbuntu:~/root".to_vec());
    fs.chpath(&mut p, "..", 1);
    assert_eq!(p, b"root@VirtualUbuntu:~/root".to_vec());
}

#[test]
fn perm_string_lists_bits() {
    assert_eq!(&perm_string(0o057), b"rwxr-x---");
    assert_eq!(&perm_string(0), b"---------");
    assert_eq!(&perm_string(0o777 | DIDIR), b"rwxrwxrwx");
}

#[test]
fn copy_str_pads_with_zero() {
    let mut b = [9u8; 6];
    copy_str_to_bytes_2("abc", &mut b);
    assert_eq!(b, [b'a', b'b', b'c', 0, 0, 0]);
    let mut c = [9u8; 2];
    copy_str_to_bytes_2("abc", &mut c);
    assert_eq!(c, [b'a', b'b']);
}

#[test]
fn layout_round_trips() {
    let d = Dinode { di_number: 1, di_mode: 0o2057, di_uid: 3, di_gid: 4, di_size: 70000, di_addr: [1, 2, 3, 4, 5, 6, 7, 8, 9, 65535] };
    let b = dinode_bytes(&d);
    assert_eq!(b.len(), 32);
    assert_eq!(b[8..12], 70000u32.to_le_bytes());
    let d2 = read_dinode_at(&b, 0);
    assert_eq!(d2.di_size, 70000);
    assert_eq!(d2.di_addr, d.di_addr);
    assert_eq!(d2.di_mode, 0o2057);

    let mut e = DirEntry::default();
    e.d_name[0] = b'x';
    e.d_ino = 300;
    let mut v = vec![0u8; 32];
    write_direntry_at(&mut v, 16, &e);
    assert_eq!(v[30], 44);
    assert_eq!(v[31], 1);
    let e2 = read_direntry_at(&v, 16);
    assert_eq!(e2.d_ino, 300);
    assert_eq!(e2.d_name[0], b'x');

    let mut sb = SuperBlock::default();
    sb.s_nfree = 12345;
    sb.s_free[49] = 7;
    sb.s_inode[0] = 99;
    sb.s_fmod = 1;
    let sbb = superblock_bytes(&sb);
    let sb2 = read_superblock(&sbb);
    assert_eq!(sb2.s_nfree, 12345);
    assert_eq!(sb2.s_free[49], 7);
    assert_eq!(sb2.s_inode[0], 99);
    assert_eq!(sb2.s_fmod, 1);
}

#[test]
fn iput_writes_back_and_releases() {
    let mut fs = FileSystem::install(BlockStore::new(formatted())).unwrap();
    let h = fs.iget(2).unwrap();
    let h2 = fs.iget(2).unwrap();
    assert_eq!(h, h2);
    assert_eq!(fs.inodes[h].i_count, 2);
    assert_eq!(fs.iput(h), Ok(()));
    assert_eq!(fs.inodes[h].i_count, 1);
    fs.inodes[h].di_size = 99;
    assert_eq!(fs.iput(h), Ok(()));
    let h3 = fs.iget(2).unwrap();
    assert_ne!(h3, h);
    assert_eq!(fs.inodes[h3].di_size, 99);
}

#[test]
fn fs_error_variants() {
    let mut fs = FileSystem::install(BlockStore::new(formatted())).unwrap();
    fs.filsys.s_ninode = 0;
    assert_eq!(fs.ialloc(), Err(FsError::NoFreeInode));
    fs.filsys.s_ninode = 5;
    fs.filsys.s_pinode = 60;
    assert_eq!(fs.ialloc(), Err(FsError::Corrupt));
    fs.filsys.s_pinode = 0;
    fs.filsys.s_ninode = u32::MAX;
    assert_eq!(fs.ifree(9), Err(FsError::Corrupt));
}
