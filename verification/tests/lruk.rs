use fs_core::lruk::LRUKReplacer;

#[test]
fn lruk_test() {
    let mut lru_replacer = LRUKReplacer::new(7, 2);

    lru_replacer.record_access(1);
    lru_replacer.record_access(2);
    lru_replacer.record_access(3);
    lru_replacer.record_access(4);
    lru_replacer.record_access(5);
    lru_replacer.record_access(6);
    lru_replacer.set_evictable(1, true);
    lru_replacer.set_evictable(2, true);
    lru_replacer.set_evictable(3, true);
    lru_replacer.set_evictable(4, true);
    lru_replacer.set_evictable(5, true);
    lru_replacer.set_evictable(6, false);
    assert!(5 == lru_replacer.size());

    lru_replacer.record_access(1);
    let mut value: i32 = -1;
    lru_replacer.evict(&mut value);
    assert!(2 == value);
    lru_replacer.evict(&mut value);
    assert!(3 == value);
    lru_replacer.evict(&mut value);
    assert!(4 == value);
    assert!(2 == lru_replacer.size());

    lru_replacer.record_access(3);
    lru_replacer.record_access(4);
    lru_replacer.record_access(5);
    lru_replacer.record_access(4);
    lru_replacer.set_evictable(3, true);
    lru_replacer.set_evictable(4, true);
    assert!(4 == lru_replacer.size());

    lru_replacer.evict(&mut value);
    assert!(3 == value);
    assert!(3 == lru_replacer.size());

    lru_replacer.set_evictable(6, true);
    assert!(4 == lru_replacer.size());

    lru_replacer.evict(&mut value);
    assert!(6 == value);
    assert!(3 == lru_replacer.size());

    lru_replacer.set_evictable(1, false);
    assert!(2 == lru_replacer.size());
    assert!(true == lru_replacer.evict(&mut value));
    assert!(5 == value);
    assert!(1 == lru_replacer.size());

    lru_replacer.record_access(1);
    lru_replacer.record_access(1);
    lru_replacer.set_evictable(1, true);
    assert!(2 == lru_replacer.size());
    assert!(true == lru_replacer.evict(&mut value));
    assert!(value == 4);

    assert!(1 == lru_replacer.size());
    lru_replacer.evict(&mut value);
    assert!(value == 1);
    assert!(0 == lru_replacer.size());

    assert!(false == lru_replacer.evict(&mut value));
    assert!(0 == lru_replacer.size());
    lru_replacer.record_access(2);
    lru_replacer.remove(2);
    assert!(0 == lru_replacer.size());
}

#[test]
fn lruk_evict_empty_is_false() {
    let mut r = LRUKReplacer::new(4, 2);
    let mut v: i32 = -1;
    assert!(!r.evict(&mut v));
    // a newly seen frame starts evictable
    r.record_access(2);
    assert_eq!(r.size(), 1);
    r.set_evictable(2, false);
    assert_eq!(r.size(), 0);
    assert!(!r.evict(&mut v));
    r.set_evictable(2, true);
    assert_eq!(r.size(), 1);
    assert!(r.evict(&mut v));
    assert_eq!(v, 2);
    assert_eq!(r.size(), 0);
}

#[test]
fn lruk_remove_drops_evictable_frame() {
    let mut r = LRUKReplacer::new(4, 2);
    r.record_access(1);
    r.record_access(2);
    r.set_evictable(1, true);
    r.set_evictable(2, true);
    assert_eq!(r.size(), 2);
    r.remove(1);
    assert_eq!(r.size(), 1);
    let mut v: i32 = -1;
    assert!(r.evict(&mut v));
    assert_eq!(v, 2);
}
