use fs_core::extend_hashtable::ExtendibleHashTable;

#[test]
fn extended_test() {
    let mut table = ExtendibleHashTable::new(2);

    table.insert(1, "a");
    table.insert(2, "b");
    table.insert(3, "c");
    assert_eq!(table.get_global_depth(), 1);
    table.insert(4, "d");
    assert_eq!(table.get_global_depth(), 2);
    table.insert(5, "e");
    table.insert(6, "f");
    table.insert(7, "g");
    assert_eq!(table.get_global_depth(), 2);
    table.insert(8, "h");
    assert_eq!(table.get_global_depth(), 3);
    table.insert(9, "i");

    assert_eq!(table.find(9), Some("i"));
    assert_eq!(table.find(8), Some("h"));
    assert_eq!(table.find(7), Some("g"));
    assert_eq!(table.find(6), Some("f"));
    assert_eq!(table.find(5), Some("e"));
    assert_eq!(table.find(4), Some("d"));
    assert_eq!(table.find(3), Some("c"));
    assert_eq!(table.find(2), Some("b"));
    assert_eq!(table.find(1), Some("a"));
    assert_eq!(table.find(10), None);

    assert_eq!(table.get_global_depth(), 4);
    assert_eq!(table.get_local_depth(0), 2);
    assert_eq!(table.get_local_depth(1), 1);
    assert_eq!(table.get_local_depth(2), 2);
    assert_eq!(table.get_local_depth(7), 4);

    assert!(table.remove(8));
    assert!(table.remove(4));
    assert!(table.remove(1));
    assert!(!table.remove(20));
}
