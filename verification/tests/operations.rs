use multi_key_map::MultiKeyMap;
use std::collections::HashSet;

fn bucket(m: &MultiKeyMap<Vec<u32>, u32, &'static str>, sk: u32) -> Option<HashSet<Vec<u32>>> {
    m.keys_containing(&sk).map(|keys| keys.cloned().collect())
}

fn set_of(keys: &[Vec<u32>]) -> HashSet<Vec<u32>> {
    keys.iter().cloned().collect()
}

#[test]
fn new_map_is_empty() {
    let m: MultiKeyMap<Vec<u32>, u32, &str> = MultiKeyMap::new();
    assert!(!m.contains_key(&vec![1, 2]));
    assert_eq!(m.get(&vec![1, 2]), None);
    assert!(m.keys_containing(&1).is_none());
}

#[test]
fn insert_new_key_returns_none_and_stores_value() {
    let mut m: MultiKeyMap<Vec<u32>, u32, &str> = MultiKeyMap::new();
    assert_eq!(m.insert(vec![1, 2], "a"), None);
    assert!(m.contains_key(&vec![1, 2]));
    assert_eq!(m.get(&vec![1, 2]), Some(&"a"));
    assert_eq!(bucket(&m, 1), Some(set_of(&[vec![1, 2]])));
    assert_eq!(bucket(&m, 2), Some(set_of(&[vec![1, 2]])));
    assert_eq!(bucket(&m, 3), None);
}

#[test]
fn insert_then_remove_restores_the_map() {
    let mut m: MultiKeyMap<Vec<u32>, u32, &str> = MultiKeyMap::new();
    m.insert(vec![1, 5], "kept");
    let before_1 = bucket(&m, 1);
    let before_2 = bucket(&m, 2);

    assert_eq!(m.insert(vec![1, 2], "v"), None);
    assert_eq!(m.remove(&vec![1, 2]), Some("v"));

    assert!(!m.contains_key(&vec![1, 2]));
    assert_eq!(m.get(&vec![1, 2]), None);
    assert_eq!(bucket(&m, 1), before_1);
    assert_eq!(bucket(&m, 2), before_2);
    assert_eq!(bucket(&m, 1), Some(set_of(&[vec![1, 5]])));
    assert_eq!(bucket(&m, 2), None);
    assert_eq!(m.get(&vec![1, 5]), Some(&"kept"));
}

#[test]
fn overwrite_returns_old_value_and_keeps_index() {
    let mut m: MultiKeyMap<Vec<u32>, u32, &str> = MultiKeyMap::new();
    assert_eq!(m.insert(vec![1, 2], "v1"), None);
    let a = bucket(&m, 1);
    let b = bucket(&m, 2);
    assert_eq!(m.insert(vec![1, 2], "v2"), Some("v1"));
    assert_eq!(m.get(&vec![1, 2]), Some(&"v2"));
    assert_eq!(bucket(&m, 1), a);
    assert_eq!(bucket(&m, 2), b);
    assert_eq!(bucket(&m, 1), Some(set_of(&[vec![1, 2]])));
}

#[test]
fn duplicate_sub_keys_are_indexed_once() {
    let mut m: MultiKeyMap<Vec<u32>, u32, &str> = MultiKeyMap::new();
    m.insert(vec![7, 7], "twice");
    let listed: Vec<Vec<u32>> = m.keys_containing(&7).unwrap().cloned().collect();
    assert_eq!(listed, vec![vec![7, 7]]);
}

#[test]
fn removing_key_with_duplicate_sub_keys_leaves_nothing() {
    let mut m: MultiKeyMap<Vec<u32>, u32, &str> = MultiKeyMap::new();
    m.insert(vec![7, 7], "twice");
    assert_eq!(m.remove(&vec![7, 7]), Some("twice"));
    assert!(m.keys_containing(&7).is_none());
    assert!(!m.contains_key(&vec![7, 7]));
}

#[test]
fn removing_key_with_duplicate_sub_keys_keeps_other_owners() {
    let mut m: MultiKeyMap<Vec<u32>, u32, &str> = MultiKeyMap::new();
    m.insert(vec![7, 7, 8], "twice");
    m.insert(vec![7, 9], "other");
    assert_eq!(m.remove(&vec![7, 7, 8]), Some("twice"));
    assert_eq!(bucket(&m, 7), Some(set_of(&[vec![7, 9]])));
    assert_eq!(bucket(&m, 8), None);
    assert_eq!(bucket(&m, 9), Some(set_of(&[vec![7, 9]])));
}

#[test]
fn shared_sub_key_lists_every_owner() {
    let mut m: MultiKeyMap<Vec<u32>, u32, &str> = MultiKeyMap::new();
    let k1 = vec![1, 2];
    let k2 = vec![1, 3];
    m.insert(k1.clone(), "one");
    m.insert(k2.clone(), "two");
    assert_eq!(bucket(&m, 1), Some(set_of(&[k1.clone(), k2.clone()])));

    assert_eq!(m.remove(&k1), Some("one"));
    assert_eq!(bucket(&m, 1), Some(set_of(&[k2.clone()])));
    assert_eq!(bucket(&m, 2), None);

    assert_eq!(m.remove(&k2), Some("two"));
    assert_eq!(bucket(&m, 1), None);
    assert_eq!(bucket(&m, 3), None);
}

#[test]
fn absent_lookups_find_nothing() {
    let mut m: MultiKeyMap<Vec<u32>, u32, &str> = MultiKeyMap::new();
    m.insert(vec![1, 2], "a");
    assert!(!m.contains_key(&vec![2, 1]));
    assert_eq!(m.get(&vec![2, 1]), None);
    assert_eq!(m.get_mut(&vec![2, 1]), None);
    assert!(m.keys_containing(&9).is_none());
}

#[test]
fn remove_absent_key_changes_nothing() {
    let mut m: MultiKeyMap<Vec<u32>, u32, &str> = MultiKeyMap::new();
    m.insert(vec![1, 2], "a");
    assert_eq!(m.remove(&vec![1, 3]), None);
    assert_eq!(m.remove(&vec![2]), None);
    assert_eq!(m.get(&vec![1, 2]), Some(&"a"));
    assert_eq!(bucket(&m, 1), Some(set_of(&[vec![1, 2]])));
    assert_eq!(bucket(&m, 2), Some(set_of(&[vec![1, 2]])));
    assert_eq!(bucket(&m, 3), None);
}

#[test]
fn remove_twice_returns_value_once() {
    let mut m: MultiKeyMap<Vec<u32>, u32, &str> = MultiKeyMap::new();
    m.insert(vec![1, 2], "a");
    assert_eq!(m.remove(&vec![1, 2]), Some("a"));
    assert_eq!(m.remove(&vec![1, 2]), None);
}

#[test]
fn get_mut_changes_the_value_only() {
    let mut m: MultiKeyMap<Vec<u32>, u32, &str> = MultiKeyMap::new();
    m.insert(vec![1, 2], "a");
    m.insert(vec![1, 3], "b");
    *m.get_mut(&vec![1, 2]).unwrap() = "changed";
    assert_eq!(m.get(&vec![1, 2]), Some(&"changed"));
    assert_eq!(m.get(&vec![1, 3]), Some(&"b"));
    assert_eq!(bucket(&m, 1), Some(set_of(&[vec![1, 2], vec![1, 3]])));
    assert_eq!(m.remove(&vec![1, 2]), Some("changed"));
}

#[test]
fn key_without_sub_keys_is_stored_and_not_indexed() {
    let mut m: MultiKeyMap<Vec<u32>, u32, &str> = MultiKeyMap::new();
    assert_eq!(m.insert(vec![], "bare"), None);
    assert!(m.contains_key(&vec![]));
    assert_eq!(m.get(&vec![]), Some(&"bare"));
    assert!(m.keys_containing(&0).is_none());
    let store_slot = std::mem::size_of::<Vec<u32>>() + std::mem::size_of::<&str>() + 8;
    assert_eq!(m.mem_utalisation(), store_slot as u64);
    assert_eq!(m.remove(&vec![]), Some("bare"));
    assert!(!m.contains_key(&vec![]));
}

#[test]
fn index_follows_a_run_of_inserts_and_removes() {
    let mut m: MultiKeyMap<Vec<u32>, u32, &str> = MultiKeyMap::new();
    let mut present: Vec<Vec<u32>> = Vec::new();
    let keys: Vec<Vec<u32>> = vec![
        vec![1, 2],
        vec![2, 3],
        vec![3, 3, 1],
        vec![4],
        vec![1, 2, 3, 4],
        vec![5, 1],
    ];
    let steps: [(bool, usize); 12] = [
        (true, 0),
        (true, 1),
        (true, 2),
        (false, 1),
        (true, 3),
        (true, 4),
        (false, 0),
        (true, 1),
        (false, 4),
        (true, 5),
        (false, 2),
        (false, 3),
    ];
    for (insert, which) in steps {
        let k = keys[which].clone();
        if insert {
            m.insert(k.clone(), "v");
            if !present.contains(&k) {
                present.push(k);
            }
        } else {
            m.remove(&k);
            present.retain(|p| *p != k);
        }
        for sk in 0..7u32 {
            let want: HashSet<Vec<u32>> =
                present.iter().filter(|p| p.contains(&sk)).cloned().collect();
            match m.keys_containing(&sk) {
                Some(found) => {
                    let found: HashSet<Vec<u32>> = found.cloned().collect();
                    assert!(!found.is_empty());
                    assert_eq!(found, want);
                }
                None => assert!(want.is_empty()),
            }
        }
        for k in &keys {
            assert_eq!(m.contains_key(k), present.contains(k));
        }
    }
}

#[test]
fn debug_output_names_the_map() {
    let m: MultiKeyMap<Vec<u32>, u32, &str> = MultiKeyMap::new();
    assert!(format!("{:?}", m).contains("MultiKeyMap"));
}
