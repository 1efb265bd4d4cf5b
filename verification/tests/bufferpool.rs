use fs_core::bufferpool::BufferPoolManager;
use fs_core::disk::{BlockStore, DiskError};
use fs_core::types::BLOCKSIZ;

#[test]
fn test_buffer_pool_basic() {
    let disk = BlockStore::new(vec![0u8; 2 * BLOCKSIZ]);
    let mut bpm = BufferPoolManager::new(10, 5, disk);

    let f = bpm.fetch_pg(1).unwrap().unwrap();
    bpm.write_page(f, 0, &[0xAA, 0xBB]);

    assert!(bpm.flush_pg(1).unwrap());
    assert!(bpm.delete_pg(1).unwrap());

    let f2 = bpm.fetch_pg(1).unwrap().unwrap();
    let page = bpm.get_pages()[f2 as usize];
    assert_eq!(page[0], 0xAA, "first byte should be 0xAA");
    assert_eq!(page[1], 0xBB, "second byte should be 0xBB");

    let bytes = bpm.disk_bytes();
    assert_eq!(bytes[BLOCKSIZ], 0xAA, "first byte on disk should be 0xAA");
    assert_eq!(bytes[BLOCKSIZ + 1], 0xBB, "second byte on disk should be 0xBB");
}

#[test]
fn bufferpool_fetch_hit_returns_same_frame() {
    let disk = BlockStore::new(vec![0u8; 4 * BLOCKSIZ]);
    let mut bpm = BufferPoolManager::new(3, 2, disk);
    let a = bpm.fetch_pg(2).unwrap().unwrap();
    let b = bpm.fetch_pg(2).unwrap().unwrap();
    assert_eq!(a, b);
    assert_eq!(a, 0);
    let c = bpm.fetch_pg(3).unwrap().unwrap();
    assert_eq!(c, 1);
}

#[test]
fn bufferpool_eviction_writes_back() {
    let disk = BlockStore::new(vec![0u8; 4 * BLOCKSIZ]);
    let mut bpm = BufferPoolManager::new(1, 2, disk);
    let f = bpm.fetch_pg(0).unwrap().unwrap();
    bpm.write_page(f, 3, &[7]);
    // the only frame is evicted for block 1; block 0 goes back to disk
    let g = bpm.fetch_pg(1).unwrap().unwrap();
    assert_eq!(g, f);
    assert_eq!(bpm.disk_bytes()[3], 7);
    assert_eq!(bpm.take_written(), vec![0]);
}

#[test]
fn bufferpool_read_past_end_is_error() {
    let disk = BlockStore::new(vec![0u8; BLOCKSIZ]);
    let mut bpm = BufferPoolManager::new(2, 2, disk);
    assert_eq!(bpm.fetch_pg(5), Err(DiskError::UnexpectedEof));
    assert_eq!(bpm.fetch_pg(-1), Err(DiskError::InvalidPage));
}

#[test]
fn bufferpool_flush_unknown_page_is_false() {
    let disk = BlockStore::new(vec![0u8; BLOCKSIZ]);
    let mut bpm = BufferPoolManager::new(2, 2, disk);
    assert_eq!(bpm.flush_pg(0), Ok(false));
    assert_eq!(bpm.delete_pg(0), Ok(true));
    assert_eq!(bpm.get_pool_size(), 2);
}

#[test]
fn bufferpool_flush_all_writes_every_frame() {
    let disk = BlockStore::new(vec![0u8; 3 * BLOCKSIZ]);
    let mut bpm = BufferPoolManager::new(3, 2, disk);
    let a = bpm.fetch_pg(0).unwrap().unwrap();
    let b = bpm.fetch_pg(2).unwrap().unwrap();
    bpm.write_page(a, 0, &[1]);
    bpm.write_page(b, 511, &[2]);
    bpm.flush_all_pgs().unwrap();
    assert_eq!(bpm.disk_bytes()[0], 1);
    assert_eq!(bpm.disk_bytes()[3 * BLOCKSIZ - 1], 2);
}

#[test]
fn disk_write_grows_store() {
    let mut d = BlockStore::new(Vec::new());
    let page = [9u8; BLOCKSIZ];
    d.write_block(1, &page).unwrap();
    assert_eq!(d.bytes().len(), 2 * BLOCKSIZ);
    assert_eq!(d.bytes()[0], 0);
    assert_eq!(d.bytes()[BLOCKSIZ], 9);
    let mut buf = [0u8; BLOCKSIZ];
    d.read_block(1, &mut buf).unwrap();
    assert_eq!(buf[17], 9);
    assert_eq!(d.take_written(), vec![1]);
}
