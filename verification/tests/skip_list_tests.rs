use kv_db::{SkipList, SkipListError};
use rand::Rng;
use std::collections::HashSet;

#[test]
fn test_insert_and_get_basic() {
    let mut list = SkipList::new(5);

    list.put(b"\x03".to_vec(), b"\x01\x02\x03".to_vec()).unwrap();
    list.put(b"\x01".to_vec(), b"\x04\x05\x06".to_vec()).unwrap();
    list.put(b"\x02".to_vec(), b"\x07\x08\x09".to_vec()).unwrap();

    assert_eq!(list.get(b"\x01".to_vec()).unwrap(), b"\x04\x05\x06".to_vec());
    assert_eq!(list.get(b"\x02".to_vec()).unwrap(), b"\x07\x08\x09".to_vec());
    assert_eq!(list.get(b"\x03".to_vec()).unwrap(), b"\x01\x02\x03".to_vec());

    assert!(list.get(b"\x04".to_vec()).is_err());
}

#[test]
fn test_insert_sorted_order() {
    let mut list = SkipList::new(5);

    for i in 1u32..=10u32 {
        let key = i.to_be_bytes().to_vec();
        let value = format!("number {}", i).into_bytes();
        list.put(key, value).unwrap();
    }

    for i in 1u32..=10u32 {
        let key = i.to_be_bytes().to_vec();
        let expected = format!("number {}", i).into_bytes();
        assert_eq!(list.get(key).unwrap(), expected);
    }

    assert!(list.get(11u32.to_be_bytes().to_vec()).is_err());
}

#[test]
fn test_insert_reverse_order() {
    let mut list = SkipList::new(5);

    for i in (1u32..=10u32).rev() {
        let key = i.to_be_bytes().to_vec();
        let value = format!("number {}", i).into_bytes();
        list.put(key, value).unwrap();
    }

    for i in 1u32..=10u32 {
        let key = i.to_be_bytes().to_vec();
        let expected = format!("number {}", i).into_bytes();
        assert_eq!(list.get(key).unwrap(), expected);
    }

    assert!(list.get(0u32.to_be_bytes().to_vec()).is_err());
}

#[test]
fn test_insert_duplicate_keys() {
    let mut list = SkipList::new(5);

    list.put(1u32.to_be_bytes().to_vec(), b"one".to_vec()).unwrap();
    list.put(1u32.to_be_bytes().to_vec(), b"uno".to_vec()).unwrap();

    assert_eq!(list.get(1u32.to_be_bytes().to_vec()).unwrap(), b"uno".to_vec());
}

#[test]
fn test_search_nonexistent_keys() {
    let mut list = SkipList::new(5);

    list.put(10u32.to_be_bytes().to_vec(), b"ten".to_vec()).unwrap();
    list.put(20u32.to_be_bytes().to_vec(), b"twenty".to_vec()).unwrap();
    list.put(30u32.to_be_bytes().to_vec(), b"thirty".to_vec()).unwrap();

    let nonexistent_keys = vec![5u32, 15u32, 25u32, 35u32];

    for key_num in nonexistent_keys {
        let key = key_num.to_be_bytes().to_vec();
        assert!(list.get(key).is_err(), "Key {} should not be found", key_num);
    }
}

#[test]
fn test_large_number_of_elements() {
    let mut list = SkipList::new(16);
    let num_elements = 1000u32;
    let mut inserted_keys = HashSet::new();

    for i in 1u32..=num_elements {
        let key = i.to_be_bytes().to_vec();
        let value = format!("number {}", i).into_bytes();
        list.put(key, value).unwrap();
        inserted_keys.insert(i);
    }

    for key_num in inserted_keys.iter() {
        let key = key_num.to_be_bytes().to_vec();
        let expected_value = format!("number {}", key_num).into_bytes();
        assert_eq!(list.get(key).unwrap(), expected_value);
    }

    let nonexistent_keys = vec![0u32, num_elements + 1, num_elements + 100];
    for key_num in nonexistent_keys {
        let key = key_num.to_be_bytes().to_vec();
        assert!(list.get(key).is_err(), "Key {} should not be found", key_num);
    }
}

#[test]
fn test_random_insertions() {
    let mut list = SkipList::new(16);
    let num_elements = 500;
    let mut rng = rand::thread_rng();
    let mut inserted_keys = HashSet::new();

    for _ in 0..num_elements {
        let key_num = rng.gen_range(1u32..=10000u32);
        let key = key_num.to_be_bytes().to_vec();
        let value = format!("value {}", key_num).into_bytes();
        list.put(key.clone(), value).unwrap();
        inserted_keys.insert(key_num);
    }

    for key_num in inserted_keys.iter() {
        let key = key_num.to_be_bytes().to_vec();
        let expected = format!("value {}", key_num).into_bytes();
        let retrieved = list.get(key).unwrap();
        assert_eq!(retrieved, expected);
    }

    let nonexistent_keys = vec![10001u32, 20000u32, 30000u32];
    for key_num in nonexistent_keys {
        let key = key_num.to_be_bytes().to_vec();
        assert!(list.get(key).is_err(), "Key {} should not be found", key_num);
    }
}

#[test]
fn test_max_level_elements() {
    let max_level = 4;
    let mut list = SkipList::new(max_level);

    for i in 1u32..=20u32 {
        let key = i.to_be_bytes().to_vec();
        let value = format!("number {}", i).into_bytes();
        list.put(key, value).unwrap();
    }

    for i in 1u32..=20u32 {
        let key = i.to_be_bytes().to_vec();
        let expected = format!("number {}", i).into_bytes();
        assert_eq!(list.get(key).unwrap(), expected);
    }

    assert!(list.get(0u32.to_be_bytes().to_vec()).is_err());
    assert!(list.get(21u32.to_be_bytes().to_vec()).is_err());
}

#[test]
fn test_skiplist_integrity_after_multiple_insertions() {
    let mut list = SkipList::new(10);
    let num_elements = 100;
    let mut rng = rand::thread_rng();
    let mut inserted_keys = Vec::new();

    for _ in 0..num_elements {
        let key_num = rng.gen_range(1u32..=1000u32);
        let key = key_num.to_be_bytes().to_vec();
        let value = format!("value {}", key_num).into_bytes();
        list.put(key.clone(), value).unwrap();
        inserted_keys.push(key_num);
    }

    inserted_keys.sort_unstable();
    inserted_keys.dedup();

    for key_num in inserted_keys.iter() {
        let key = key_num.to_be_bytes().to_vec();
        let retrieved = list.get(key).unwrap();
        assert_eq!(retrieved, format!("value {}", key_num).into_bytes());
    }

    let nonexistent_keys = vec![1001u32, 2000u32, 3000u32];
    for key_num in nonexistent_keys {
        let key = key_num.to_be_bytes().to_vec();
        assert!(list.get(key).is_err(), "Key {} should not be found", key_num);
    }
}

#[test]
fn test_skiplist_empty() {
    let list = SkipList::new(5);

    assert!(list.get(b"\x01".to_vec()).is_err());
    assert!(list.get(b"\x00".to_vec()).is_err());
    assert!(list.get(b"\xFF".to_vec()).is_err());
}

#[test]
fn test_skiplist_single_element() {
    let mut list = SkipList::new(5);

    list.put(b"\x2A".to_vec(), b"forty-two".to_vec()).unwrap();

    assert_eq!(list.get(b"\x2A".to_vec()).unwrap(), b"forty-two".to_vec());

    assert!(list.get(b"\x29".to_vec()).is_err());
    assert!(list.get(b"\x2B".to_vec()).is_err());
}

#[test]
fn test_skiplist_duplicate_inserts() {
    let mut list = SkipList::new(5);

    list.put(b"\x64".to_vec(), b"hundred".to_vec()).unwrap();
    list.put(b"\x64".to_vec(), b"cien".to_vec()).unwrap();
    list.put(b"\x64".to_vec(), b"cent".to_vec()).unwrap();

    assert_eq!(list.get(b"\x64".to_vec()).unwrap(), b"cent".to_vec());
}

#[test]
fn test_skiplist_forward_pointers_integrity() {
    let mut list = SkipList::new(3);

    list.put(b"\x01".to_vec(), b"one".to_vec()).unwrap();
    list.put(b"\x02".to_vec(), b"two".to_vec()).unwrap();
    list.put(b"\x03".to_vec(), b"three".to_vec()).unwrap();
    list.put(b"\x04".to_vec(), b"four".to_vec()).unwrap();
    list.put(b"\x05".to_vec(), b"five".to_vec()).unwrap();

    for level in 0..=list.current_level {
        let mut current = list.head;
        let mut previous_key: Option<Vec<u8>> = None;

        while let Some(next_idx) = list.nodes[current].forward[level] {
            let node = &list.nodes[next_idx];
            let key = node.key.as_ref().unwrap();

            if let Some(ref prev) = previous_key {
                assert!(
                    prev < key,
                    "List is not sorted at level {} (prev={:?}, current={:?})",
                    level,
                    prev,
                    key
                );
            }
            previous_key = Some(key.clone());
            current = next_idx;
        }
    }
}

// --- the index beyond the cases above ---------------------------------------

fn walk(list: &SkipList, level: usize) -> Vec<Vec<u8>> {
    let mut keys = Vec::new();
    let mut current = list.head;
    while let Some(next) = list.nodes[current].forward[level] {
        keys.push(list.nodes[next].key.clone().unwrap());
        current = next;
    }
    keys
}

#[test]
fn get_on_missing_key_is_key_not_found() {
    let mut list = SkipList::new(4);
    assert_eq!(list.get(vec![7]), Err(SkipListError::KeyNotFound));
    list.put(vec![1], vec![1]).unwrap();
    list.put(vec![9], vec![9]).unwrap();
    assert_eq!(list.get(vec![7]), Err(SkipListError::KeyNotFound));
    assert_eq!(list.get(vec![]), Err(SkipListError::KeyNotFound));
}

#[test]
fn update_keeps_one_node_per_key() {
    let mut list = SkipList::new(4);
    list.put(vec![5], vec![1]).unwrap();
    let nodes_after_first = list.nodes.len();
    let level_after_first = list.current_level;
    let forward_after_first = list.nodes[1].forward.clone();
    list.put(vec![5], vec![2]).unwrap();
    assert_eq!(list.nodes.len(), nodes_after_first);
    assert_eq!(list.nodes.len(), 2);
    assert_eq!(list.current_level, level_after_first);
    assert_eq!(list.nodes[1].forward, forward_after_first);
    assert_eq!(list.nodes[1].key, Some(vec![5]));
    assert_eq!(list.nodes[1].value, Some(vec![2]));
    assert_eq!(list.get(vec![5]), Ok(vec![2]));
}

#[test]
fn new_list_has_only_the_head() {
    let list = SkipList::new(7);
    assert_eq!(list.head, 0);
    assert_eq!(list.current_level, 0);
    assert_eq!(list.max_level(), 7);
    assert_eq!(list.nodes.len(), 1);
    assert_eq!(list.nodes[0].key, None);
    assert_eq!(list.nodes[0].value, None);
    assert_eq!(list.nodes[0].forward, vec![None; 8]);
}

#[test]
fn put_with_level_splices_on_each_level() {
    let mut list = SkipList::new(3);
    list.put_with_level(vec![20], vec![2], 0).unwrap();
    assert_eq!(list.current_level, 0);
    list.put_with_level(vec![10], vec![1], 2).unwrap();
    assert_eq!(list.current_level, 2);
    list.put_with_level(vec![30], vec![3], 1).unwrap();
    assert_eq!(list.current_level, 2);

    // nodes stand in the order of their making
    assert_eq!(list.nodes[1].key, Some(vec![20]));
    assert_eq!(list.nodes[2].key, Some(vec![10]));
    assert_eq!(list.nodes[3].key, Some(vec![30]));
    assert_eq!(list.nodes[1].forward.len(), 1);
    assert_eq!(list.nodes[2].forward.len(), 3);
    assert_eq!(list.nodes[3].forward.len(), 2);

    assert_eq!(list.nodes[0].forward, vec![Some(2), Some(2), Some(2), None]);
    assert_eq!(list.nodes[2].forward, vec![Some(1), Some(3), None]);
    assert_eq!(list.nodes[1].forward, vec![Some(3)]);
    assert_eq!(list.nodes[3].forward, vec![None, None]);

    assert_eq!(walk(&list, 0), vec![vec![10], vec![20], vec![30]]);
    assert_eq!(walk(&list, 1), vec![vec![10], vec![30]]);
    assert_eq!(walk(&list, 2), vec![vec![10]]);
    assert_eq!(walk(&list, 3), Vec::<Vec<u8>>::new());
}

#[test]
fn max_level_zero_is_a_sorted_chain() {
    let mut list = SkipList::new(0);
    for k in [5u8, 3, 9, 1, 7] {
        list.put(vec![k], vec![k + 100]).unwrap();
    }
    assert_eq!(list.current_level, 0);
    assert_eq!(walk(&list, 0), vec![vec![1], vec![3], vec![5], vec![7], vec![9]]);
    assert_eq!(list.get(vec![7]), Ok(vec![107]));
}

#[test]
fn node_at_top_level_saturates() {
    let mut list = SkipList::new(2);
    list.put_with_level(vec![1], vec![1], 2).unwrap();
    assert_eq!(list.current_level, 2);
    assert_eq!(list.nodes[1].forward.len(), 3);
    assert_eq!(list.nodes[0].forward, vec![Some(1), Some(1), Some(1)]);
}

#[test]
fn every_level_is_sorted_after_random_puts() {
    let mut list = SkipList::with_seed(8, 12345);
    let mut rng = rand::thread_rng();
    for _ in 0..2000 {
        let k: u16 = rng.gen();
        list.put(k.to_be_bytes().to_vec(), vec![0]).unwrap();
    }
    for level in 0..=list.current_level {
        let keys = walk(&list, level);
        for pair in keys.windows(2) {
            assert!(pair[0] < pair[1]);
        }
    }
    for level in (list.current_level + 1)..=list.max_level() {
        assert_eq!(list.nodes[list.head].forward[level], None);
    }
    for node in list.nodes.iter().skip(1) {
        assert!(node.forward.len() <= list.current_level + 1);
    }
}

#[test]
fn same_seed_gives_same_shape() {
    let mut a = SkipList::with_seed(6, 99);
    let mut b = SkipList::with_seed(6, 99);
    for k in 0u8..100 {
        a.put(vec![k], vec![k]).unwrap();
        b.put(vec![k], vec![k]).unwrap();
    }
    assert_eq!(a.current_level, b.current_level);
    for i in 0..a.nodes.len() {
        assert_eq!(a.nodes[i].forward, b.nodes[i].forward);
    }
    let heights: HashSet<usize> = a.nodes.iter().skip(1).map(|n| n.forward.len()).collect();
    assert!(heights.len() > 1);
}

#[test]
fn keys_order_as_byte_strings() {
    let mut list = SkipList::new(3);
    list.put(vec![1, 0], vec![1]).unwrap();
    list.put(vec![1], vec![2]).unwrap();
    list.put(vec![], vec![3]).unwrap();
    list.put(vec![0, 255], vec![4]).unwrap();
    list.put(vec![255], vec![5]).unwrap();
    assert_eq!(
        walk(&list, 0),
        vec![vec![], vec![0, 255], vec![1], vec![1, 0], vec![255]]
    );
    assert_eq!(list.get(vec![]), Ok(vec![3]));
}

#[test]
fn scale_ten_thousand_random_keys() {
    let mut list = SkipList::new(16);
    let mut rng = rand::thread_rng();
    let mut inserted: HashSet<u64> = HashSet::new();
    while inserted.len() < 10_000 {
        inserted.insert(rng.gen());
    }
    for k in inserted.iter() {
        list.put(k.to_be_bytes().to_vec(), k.to_le_bytes().to_vec()).unwrap();
    }
    for k in inserted.iter() {
        assert_eq!(list.get(k.to_be_bytes().to_vec()), Ok(k.to_le_bytes().to_vec()));
    }
    let mut missing = 0;
    while missing < 10_000 {
        let k: u64 = rng.gen();
        if !inserted.contains(&k) {
            assert_eq!(list.get(k.to_be_bytes().to_vec()), Err(SkipListError::KeyNotFound));
            missing += 1;
        }
    }
}

#[test]
fn level_step_counts_heads_up_to_the_cap() {
    assert_eq!(SkipList::level_step(0, 3, true), Some(1));
    assert_eq!(SkipList::level_step(2, 3, true), Some(3));
    assert_eq!(SkipList::level_step(3, 3, true), None);
    assert_eq!(SkipList::level_step(0, 3, false), None);
    assert_eq!(SkipList::level_step(0, 0, true), None);
    assert_eq!(SkipList::level_step(0, 0, false), None);
}

#[test]
fn each_level_holds_exactly_the_nodes_that_stand_on_it() {
    let mut list = SkipList::with_seed(6, 2024);
    let mut rng = rand::thread_rng();
    for _ in 0..1500 {
        let k: u16 = rng.gen();
        list.put(k.to_be_bytes().to_vec(), vec![1]).unwrap();
    }
    let entries = list.nodes.len() - 1;

    // level 0 visits every entry exactly once
    let mut seen = HashSet::new();
    let mut current = list.head;
    while let Some(next) = list.nodes[current].forward[0] {
        assert!(seen.insert(next));
        current = next;
    }
    assert_eq!(seen.len(), entries);

    let mut lower: Vec<usize> = Vec::new();
    for level in 0..=list.current_level {
        // the head has a link on every level in use
        assert!(list.nodes[list.head].forward[level].is_some());

        let mut on_level: Vec<usize> = Vec::new();
        let mut current = list.head;
        while let Some(next) = list.nodes[current].forward[level] {
            on_level.push(next);
            current = next;
        }
        let standing = (1..list.nodes.len())
            .filter(|i| list.nodes[*i].forward.len() > level)
            .count();
        assert_eq!(on_level.len(), standing);
        for i in on_level.iter() {
            assert!(list.nodes[*i].forward.len() > level);
        }

        if level > 0 {
            // a subsequence of the level below
            let mut from = 0;
            for i in on_level.iter() {
                let at = lower[from..].iter().position(|j| j == i);
                assert!(at.is_some());
                from += at.unwrap() + 1;
            }
        }
        lower = on_level;
    }
}

#[test]
fn empty_list_has_no_head_links() {
    let list = SkipList::new(4);
    for level in 0..=4 {
        assert_eq!(list.nodes[list.head].forward[level], None);
    }
}
