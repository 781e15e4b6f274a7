use versearch::bytemap::ByteMap;

fn filled(keys: &[&[u8]]) -> ByteMap<u64> {
    let mut map: ByteMap<u64> = ByteMap::new();
    for (n, key) in keys.iter().enumerate() {
        let at = map.search(key).unwrap_err();
        map.insert_at(at, key.to_vec(), n as u64);
    }
    map
}

#[test]
fn keys_are_kept_in_ascending_order() {
    let map = filled(&[b"m", b"a", b"z", b"", b"mm", b"b"]);
    let keys: Vec<Vec<u8>> = (0..map.len()).map(|i| map.key(i).clone()).collect();
    assert_eq!(
        keys,
        vec![b"".to_vec(), b"a".to_vec(), b"b".to_vec(), b"m".to_vec(), b"mm".to_vec(), b"z".to_vec()]
    );
    let values: Vec<u64> = (0..map.len()).map(|i| *map.value(i)).collect();
    assert_eq!(values, vec![3, 1, 5, 0, 4, 2]);
}

#[test]
fn search_finds_entries_and_gaps() {
    let map = filled(&[b"b", b"d", b"f"]);
    assert_eq!(map.search(b"b"), Ok(0));
    assert_eq!(map.search(b"d"), Ok(1));
    assert_eq!(map.search(b"f"), Ok(2));
    assert_eq!(map.search(b"a"), Err(0));
    assert_eq!(map.search(b"c"), Err(1));
    assert_eq!(map.search(b"da"), Err(2));
    assert_eq!(map.search(b"g"), Err(3));
    let empty: ByteMap<u64> = ByteMap::new();
    assert_eq!(empty.len(), 0);
    assert_eq!(empty.search(b"a"), Err(0));
}

#[test]
fn get_returns_the_value_under_a_key() {
    let map = filled(&[b"b", b"d", b"f"]);
    assert_eq!(map.get(b"b"), Some(&0));
    assert_eq!(map.get(b"f"), Some(&2));
    assert_eq!(map.get(b"c"), None);
}

#[test]
fn position_or_insert_keeps_what_is_there() {
    let mut map = filled(&[b"b", b"d"]);
    assert_eq!(map.position_or_insert(b"d", 9), 1);
    assert_eq!(map.get(b"d"), Some(&1));
    assert_eq!(map.position_or_insert(b"c", 9), 1);
    assert_eq!(map.get(b"c"), Some(&9));
    assert_eq!(map.search(b"d"), Ok(2));
    assert_eq!(map.len(), 3);
}

#[test]
fn value_mut_changes_one_value() {
    let mut map = filled(&[b"b", b"d"]);
    *map.value_mut(1) = 40;
    assert_eq!(map.get(b"d"), Some(&40));
    assert_eq!(map.get(b"b"), Some(&0));
}
