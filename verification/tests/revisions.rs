use fs_core::cli::copy_str_to_bytes_2;
use fs_core::disk::BlockStore;
use fs_core::file_op::OPEN_FAILED;
use fs_core::shell::{format_confirmed, open_mode, parse_command, Command};
use fs_core::state::FileSystem;
use fs_core::types::{BLOCKSIZ, DIFILE, DINODEBLK, FILEBLK, FAPPEND, FREAD, FWRITE, GDIREAD, ROOTMODE};

fn formatted_fs() -> FileSystem {
    let disk = BlockStore::new(vec![0u8; (DINODEBLK + FILEBLK + 2) * BLOCKSIZ]);
    let mut fs = FileSystem::new_empty(disk);
    fs.format().unwrap();
    let bytes = fs.buffer_pool_manager.disk_bytes().clone();
    FileSystem::install(BlockStore::new(bytes)).unwrap()
}

fn name(s: &str) -> [u8; 12] {
    let mut b = [0u8; 12];
    copy_str_to_bytes_2(s, &mut b);
    b
}

#[test]
fn user_keeps_twenty_files_open() {
    let mut fs = formatted_fs();
    fs.user_id = fs.login(&name("root"), &name("root")).unwrap() as i32;
    for i in 0..20 {
        let f = format!("f{}", i);
        assert_eq!(fs.creat(0, &f, ROOTMODE | GDIREAD | DIFILE), Ok(()));
        let t = fs.aopen(0, &f, FREAD as u16);
        assert_ne!(t, OPEN_FAILED);
        assert_eq!(fs.user[0].u_ofile[i], t);
    }
    assert_eq!(fs.creat(0, "f20", ROOTMODE | GDIREAD | DIFILE), Ok(()));
    assert_eq!(fs.aopen(0, "f20", FREAD as u16), OPEN_FAILED);
}

#[test]
fn write_returns_bytes_stored() {
    let mut fs = formatted_fs();
    fs.user_id = fs.login(&name("root"), &name("root")).unwrap() as i32;
    fs.creat(0, "big", ROOTMODE | GDIREAD | DIFILE).unwrap();
    fs.aopen(0, "big", FWRITE as u16);
    let cfd = fs.xfa("big");
    let data = vec![7u8; 6000];
    assert_eq!(fs.write(cfd, &data, 6000), 5120);
    let t = fs.user[0].u_ofile[cfd as usize] as usize;
    let h = fs.sys_ofile[t].f_inode;
    assert_eq!(fs.inodes[h].di_size, 5120);
}

#[test]
fn append_returns_bytes_stored() {
    let mut fs = formatted_fs();
    fs.user_id = fs.login(&name("root"), &name("root")).unwrap() as i32;
    fs.creat(0, "log", ROOTMODE | DIFILE).unwrap();
    fs.aopen(0, "log", FAPPEND as u16);
    let cfd = fs.xfa("log");
    // empty file: 512 bytes fit the first block, then 512 whole bytes and 76 more
    let data = vec![1u8; 1100];
    assert_eq!(fs.write(cfd, &data, 1100), 1100);
}

#[test]
fn chdir_into_new_directory() {
    let mut fs = formatted_fs();
    fs.user_id = fs.login(&name("root"), &name("root")).unwrap() as i32;
    assert_eq!(fs.mkdir(0, "sub"), Ok(()));
    assert_eq!(fs.chdir(0, "sub"), Ok(()));
    assert_eq!(fs.dir.size, 2);
    assert_eq!(fs.chdir(0, ".."), Ok(()));
    assert!(fs.in_root_dir());
}

#[test]
fn shell_commands_and_modes() {
    assert_eq!(parse_command("ls"), Command::Ls);
    assert_eq!(parse_command("cruser"), Command::Cruser);
    assert_eq!(parse_command("fmt"), Command::Fmt);
    assert_eq!(parse_command("lss"), Command::Unknown);
    assert_eq!(open_mode("-r"), Some(FREAD as u16));
    assert_eq!(open_mode("-w"), Some(FWRITE as u16));
    assert_eq!(open_mode("-a"), Some(FAPPEND as u16));
    assert_eq!(open_mode("-x"), None);
}

#[test]
fn format_needs_two_yes_and_root_password() {
    assert!(format_confirmed(b'y', b'y', "root\n"));
    assert!(format_confirmed(b'y', b'y', "root\r\n"));
    assert!(!format_confirmed(b'y', b'n', "root\n"));
    assert!(!format_confirmed(b'n', b'y', "root\n"));
    assert!(!format_confirmed(b'y', b'y', "rootx\n"));
}

#[test]
fn only_root_may_format() {
    let mut fs = formatted_fs();
    let j = fs.login(&name("root"), &name("root")).unwrap();
    fs.user_id = j as i32;
    assert!(fs.may_format(j as i32));
    assert!(!fs.may_format(-1));
}

#[test]
fn lruk_with_k_one_evicts_least_recent() {
    let mut r = fs_core::lruk::LRUKReplacer::new(10, 1);
    r.record_access(1);
    r.record_access(2);
    r.record_access(1);
    let mut v: i32 = -1;
    assert!(r.evict(&mut v));
    assert_eq!(v, 2);
    assert_eq!(r.size(), 1);
}

#[test]
fn rewrite_sets_size_to_bytes_written() {
    let mut fs = formatted_fs();
    fs.user_id = fs.login(&name("root"), &name("root")).unwrap() as i32;
    fs.creat(0, "doc", ROOTMODE | GDIREAD | DIFILE).unwrap();
    fs.aopen(0, "doc", FWRITE as u16);
    let cfd = fs.xfa("doc");
    let data = vec![3u8; 600];
    assert_eq!(fs.write(cfd, &data, 600), 600);
    assert_eq!(fs.write(cfd, b"short", 5), 5);
    let t = fs.user[0].u_ofile[cfd as usize] as usize;
    let h = fs.sys_ofile[t].f_inode;
    assert_eq!(fs.inodes[h].di_size, 5);
    assert_eq!(fs.sys_ofile[t].f_off, 5);
}

#[test]
fn missing_name_looks_up_as_zero() {
    let fs = formatted_fs();
    assert_eq!(fs.namei("nothing"), 0);
    assert_eq!(fs_core::util::NOT_FOUND, 0);
}

#[test]
fn read_after_write_gives_resident_blocks() {
    let mut fs = formatted_fs();
    fs.user_id = fs.login(&name("root"), &name("root")).unwrap() as i32;
    fs.creat(0, "data", ROOTMODE | GDIREAD | DIFILE).unwrap();
    fs.aopen(0, "data", (FREAD | FWRITE) as u16);
    let cfd = fs.xfa("data");
    let data: Vec<u8> = (0..700u32).map(|i| (i % 251) as u8).collect();
    assert_eq!(fs.write(cfd, &data, 700), 700);
    let mut buf = vec![0u8; 2 * BLOCKSIZ];
    assert_eq!(fs.read(cfd, &mut buf), 700);
    assert_eq!(&buf[..700], &data[..]);
}

#[test]
fn format_lays_out_root_etc_and_password_blocks() {
    let disk = BlockStore::new(vec![0u8; (DINODEBLK + FILEBLK + 2) * BLOCKSIZ]);
    let mut fs = FileSystem::new_empty(disk);
    fs.format().unwrap();
    let d = fs.buffer_pool_manager.disk_bytes().clone();
    let root = 34 * BLOCKSIZ;
    assert_eq!(&d[root..root + 2], b".\0");
    assert_eq!(&d[root + 14..root + 16], &[1, 0]);
    assert_eq!(&d[root + 16..root + 19], b"..\0");
    assert_eq!(&d[root + 30..root + 32], &[1, 0]);
    assert_eq!(&d[root + 32..root + 36], b"etc\0");
    assert_eq!(&d[root + 46..root + 48], &[2, 0]);
    let etc = 35 * BLOCKSIZ;
    assert_eq!(&d[etc..etc + 2], b".\0");
    assert_eq!(&d[etc + 14..etc + 16], &[2, 0]);
    assert_eq!(&d[etc + 32..etc + 41], b"password\0");
    assert_eq!(&d[etc + 46..etc + 48], &[3, 0]);
    let pw = 36 * BLOCKSIZ;
    assert_eq!(&d[pw..pw + 4], &[1, 0, 1, 0]);
    assert_eq!(&d[pw + 4..pw + 9], b"root\0");
    assert_eq!(&d[pw + 16..pw + 21], b"root\0");
    assert_eq!(&d[BLOCKSIZ..BLOCKSIZ + 2], &[DINODEBLK as u8, 0]);
}
