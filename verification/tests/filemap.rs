use diffvibe::filemap::FileMap;

#[test]
fn file_map_insert_and_get() {
    let mut map = FileMap::new();
    assert_eq!(map.len(), 0);
    assert!(map.get("a").is_none());
    for (i, p) in ["m", "b", "z", "a/b", "a", "a.b", "é", "mm"].iter().enumerate() {
        map.insert(p, i as u64, Some(100 + i as u64));
    }
    assert_eq!(map.len(), 8);
    for (i, p) in ["m", "b", "z", "a/b", "a", "a.b", "é", "mm"].iter().enumerate() {
        let info = map.get(p).unwrap();
        assert_eq!(info.size, i as u64);
        assert_eq!(info.digest, Some(100 + i as u64));
    }
    assert!(map.get("c").is_none());
    assert!(map.get("").is_none());
    assert!(map.get("zz").is_none());
}

#[test]
fn file_map_insert_replaces() {
    let mut map = FileMap::new();
    map.insert("p", 1, None);
    map.insert("q", 2, Some(2));
    map.insert("p", 3, Some(9));
    assert_eq!(map.len(), 2);
    let info = map.get("p").unwrap();
    assert_eq!((info.size, info.digest), (3, Some(9)));
    let info = map.get("q").unwrap();
    assert_eq!((info.size, info.digest), (2, Some(2)));
}
