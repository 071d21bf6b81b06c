use voxel::coord_map::{CoordMap, KeyMap};

#[test]
fn coord_map_insert_get_remove() {
    let mut m: CoordMap<u32> = CoordMap::new();
    assert!(!m.contains_key(&[1, 2, 3]));
    m.insert([1, 2, 3], 10);
    m.insert([-1, 0, 0], 20);
    m.insert([1, 2, 3], 30);
    assert_eq!(m.get(&[1, 2, 3]), Some(&30));
    assert_eq!(m.get(&[-1, 0, 0]), Some(&20));
    assert_eq!(m.keys().len(), 2);
    assert_eq!(m.remove(&[1, 2, 3]), Some(30));
    assert_eq!(m.remove(&[1, 2, 3]), None);
    assert!(!m.contains_key(&[1, 2, 3]));
    assert_eq!(m.keys(), vec![[-1, 0, 0]]);
}

#[test]
fn token_map() {
    let mut m: KeyMap<[u8; 16], &str> = KeyMap::new();
    m.insert([1u8; 16], "a");
    m.insert([2u8; 16], "b");
    assert_eq!(m.get(&[2u8; 16]), Some(&"b"));
    assert_eq!(m.get(&[3u8; 16]), None);
}
