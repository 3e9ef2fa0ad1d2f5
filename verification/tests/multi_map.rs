use reactive_state::utils::btree_multi_map::BTreeMultiMap;

#[test]
fn new_is_empty() {
    let map: BTreeMultiMap<String> = BTreeMultiMap::new();
    assert!(map.is_empty());
}

#[test]
fn insert() {
    let mut map = BTreeMultiMap::new();

    let id1 = map.insert(1, "one".to_string());
    assert_eq!(id1, 0);
    assert!(!map.is_empty());

    let id2 = map.insert(1, "another one".to_string());
    assert_eq!(id2, 1);

    let id3 = map.insert(2, "two".to_string());
    assert_eq!(id3, 0);
}

#[test]
fn remove() {
    let mut map = BTreeMultiMap::new();

    let id1 = map.insert(1, "one".to_string());
    let id2 = map.insert(1, "another one".to_string());
    map.insert(2, "two".to_string());

    let removed = map.remove(1, id1);
    assert_eq!(removed, Some("one".to_string()));

    let removed = map.remove(1, id2);
    assert_eq!(removed, Some("another one".to_string()));

    let removed = map.remove(1, 999);
    assert_eq!(removed, None);
}

#[test]
fn first_key() {
    let mut map = BTreeMultiMap::new();

    assert_eq!(map.first_key(), None);

    map.insert(3, "three".to_string());
    map.insert(1, "one".to_string());
    map.insert(2, "two".to_string());

    assert_eq!(map.first_key(), Some(1));
}

#[test]
fn first_entry() {
    let mut map = BTreeMultiMap::new();

    assert!(map.first_entry().is_none());

    map.insert(3, "three".to_string());
    map.insert(1, "one".to_string());
    map.insert(2, "two".to_string());

    let entry = map.first_entry().unwrap();
    assert_eq!(entry.0, (1, 0));
    assert_eq!(entry.1, &"one".to_string());
}

#[test]
fn first_key_id_tracks_order() {
    let mut map = BTreeMultiMap::new();
    assert_eq!(map.first_key_id(), None);
    map.insert(9, 'a');
    map.insert(4, 'b');
    assert_eq!(map.first_key_id(), Some((4, 0)));
    map.remove(4, 0);
    assert_eq!(map.first_key_id(), Some((9, 0)));
}

#[test]
fn id_reuse_after_removal() {
    let mut map = BTreeMultiMap::new();
    let id0 = map.insert(7, 'x');
    let id1 = map.insert(7, 'y');
    assert_eq!((id0, id1), (0, 1));
    map.remove(7, 0);
    let id2 = map.insert(7, 'z');
    assert_eq!(id2, 0);
    assert_eq!(map.remove(7, 0), Some('z'));
    assert_eq!(map.remove(7, 1), Some('y'));
    assert!(map.is_empty());
}
