use sandbox_vfs::impls::dir_entries::{name_order, DirEntries};

#[test]
fn names_are_ordered_bytewise() {
    assert!(name_order(b"a", b"b") < 0);
    assert!(name_order(b"b", b"a") > 0);
    assert_eq!(name_order(b"ab", b"ab"), 0);
    assert!(name_order(b"a", b"ab") < 0);
    assert!(name_order(b"B", b"a") < 0);
}

#[test]
fn insert_get_remove() {
    let mut d = DirEntries::new();
    assert!(d.is_empty());
    assert_eq!(d.insert(b"m".to_vec(), 1), None);
    assert_eq!(d.insert(b"c".to_vec(), 2), None);
    assert_eq!(d.insert(b"x".to_vec(), 3), None);
    assert_eq!(d.len(), 3);
    assert_eq!(d.entry(0).0, &b"c".to_vec());
    assert_eq!(d.entry(2).1, 3);
    assert_eq!(d.get(b"m"), Some(1));
    assert_eq!(d.insert(b"m".to_vec(), 9), Some(1));
    assert_eq!(d.get(b"m"), Some(9));
    assert_eq!(d.len(), 3);
    d.remove(b"m");
    assert_eq!(d.get(b"m"), None);
    assert_eq!(d.len(), 2);
    d.remove(b"absent");
    assert_eq!(d.len(), 2);
}
