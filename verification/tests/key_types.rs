use multi_key_map::MultiKeyMap;
use multi_key_map::SubKeyed;
use std::collections::HashSet;

#[test]
fn vector_lists_its_elements() {
    let k: Vec<u8> = vec![4, 5, 4];
    assert_eq!(SubKeyed::<u8>::sub_key_count(&k), 3);
    assert_eq!(*SubKeyed::<u8>::sub_key(&k, 0), 4);
    assert_eq!(*SubKeyed::<u8>::sub_key(&k, 1), 5);
    assert_eq!(*SubKeyed::<u8>::sub_key(&k, 2), 4);
    let none: Vec<u8> = Vec::new();
    assert_eq!(SubKeyed::<u8>::sub_key_count(&none), 0);
}

#[test]
fn array_lists_its_elements() {
    let k: [u16; 3] = [9, 8, 7];
    assert_eq!(SubKeyed::<u16>::sub_key_count(&k), 3);
    assert_eq!(*SubKeyed::<u16>::sub_key(&k, 0), 9);
    assert_eq!(*SubKeyed::<u16>::sub_key(&k, 2), 7);
    let none: [u16; 0] = [];
    assert_eq!(SubKeyed::<u16>::sub_key_count(&none), 0);
}

#[test]
fn pair_lists_first_then_second() {
    let k: (char, char) = ('a', 'b');
    assert_eq!(SubKeyed::<char>::sub_key_count(&k), 2);
    assert_eq!(*SubKeyed::<char>::sub_key(&k, 0), 'a');
    assert_eq!(*SubKeyed::<char>::sub_key(&k, 1), 'b');
}

#[test]
fn map_keyed_by_pairs() {
    let mut m: MultiKeyMap<(String, String), String, u32> = MultiKeyMap::new();
    let ab = ("a".to_string(), "b".to_string());
    let ac = ("a".to_string(), "c".to_string());
    assert_eq!(m.insert(ab.clone(), 1), None);
    assert_eq!(m.insert(ac.clone(), 2), None);
    let under_a: HashSet<(String, String)> =
        m.keys_containing(&"a".to_string()).unwrap().cloned().collect();
    assert_eq!(under_a, [ab.clone(), ac.clone()].into_iter().collect());
    let under_c: HashSet<(String, String)> =
        m.keys_containing(&"c".to_string()).unwrap().cloned().collect();
    assert_eq!(under_c, [ac.clone()].into_iter().collect());
    assert_eq!(m.remove(&ab), Some(1));
    assert!(m.keys_containing(&"b".to_string()).is_none());
    assert_eq!(m.get(&ac), Some(&2));
}

#[test]
fn map_keyed_by_arrays() {
    let mut m: MultiKeyMap<[u8; 3], u8, &str> = MultiKeyMap::new();
    m.insert([1, 2, 3], "x");
    m.insert([3, 3, 3], "y");
    let under_3: HashSet<[u8; 3]> = m.keys_containing(&3).unwrap().cloned().collect();
    assert_eq!(under_3, [[1, 2, 3], [3, 3, 3]].into_iter().collect());
    assert_eq!(m.remove(&[3, 3, 3]), Some("y"));
    let under_3: HashSet<[u8; 3]> = m.keys_containing(&3).unwrap().cloned().collect();
    assert_eq!(under_3, [[1, 2, 3]].into_iter().collect());
    assert_eq!(m.remove(&[1, 2, 3]), Some("x"));
    assert!(m.keys_containing(&3).is_none());
    assert!(m.keys_containing(&1).is_none());
}

#[test]
fn pair_with_equal_components_is_indexed_once() {
    let mut m: MultiKeyMap<(u8, u8), u8, &str> = MultiKeyMap::new();
    m.insert((5, 5), "same");
    assert_eq!(m.keys_containing(&5).unwrap().count(), 1);
    assert_eq!(m.remove(&(5, 5)), Some("same"));
    assert!(m.keys_containing(&5).is_none());
}
