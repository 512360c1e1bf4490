use bptree::range::KeyBound;
use bptree::tree::BPTree;

/// The tree rebuilt from what would be stored of it: its metadata, its
/// blocks and its free list, checked as a reopened tree is.
fn reopen<K: bptree::key::TreeKey + Clone, V: Clone>(tree: &BPTree<K, V>) -> BPTree<K, V> {
    let nodes: Vec<_> = (0..tree.block_count() as u64).map(|id| tree.node(id).cloned()).collect();
    let t = BPTree::from_parts(&tree.metadata(), nodes, tree.free_blocks().clone());
    t.validate().unwrap();
    t
}

#[test]
fn test_basic_insert_get() {
    let mut bptree: BPTree<String, String> = BPTree::new(4096);
    bptree.insert("key1".to_string(), "value1".to_string());
    bptree.insert("key2".to_string(), "value2".to_string());
    assert_eq!(bptree.get(&"key1".to_string()), Some("value1".to_string()));
    assert_eq!(bptree.get(&"key2".to_string()), Some("value2".to_string()));
    assert_eq!(bptree.get(&"missing".to_string()), None);
}

#[test]
fn tree_test_basic_insert_get() {
    let mut btree: BPTree<String, String> = BPTree::new(4096);
    btree.insert("key1".to_string(), "value1".to_string());
    btree.insert("key2".to_string(), "value2".to_string());
    assert_eq!(btree.get(&"key1".to_string()), Some("value1".to_string()));
    assert_eq!(btree.get(&"key2".to_string()), Some("value2".to_string()));
    assert_eq!(btree.get(&"missing".to_string()), None);
}

#[test]
fn test_multi_block_scenario() {
    let mut btree: BPTree<String, String> = BPTree::new(16384);
    for i in 0..100 {
        btree.insert(format!("k{:03}", i), format!("v{}", i));
    }
    for i in 0..100 {
        assert_eq!(btree.get(&format!("k{:03}", i)), Some(format!("v{}", i)), "Failed to retrieve key {}", i);
    }
    assert_eq!(btree.get(&"missing_key".to_string()), None);
    assert_eq!(btree.get(&"k999".to_string()), None);
}

#[test]
fn test_persistence_across_instances() {
    let mut first: BPTree<String, String> = BPTree::new(16384);
    for i in 0..200 {
        first.insert(format!("pk{}", i), format!("pv{}", i));
    }
    for i in 0..200 {
        assert_eq!(first.get(&format!("pk{}", i)), Some(format!("pv{}", i)));
    }
    let mut second = reopen(&first);
    for i in 0..200 {
        assert_eq!(second.get(&format!("pk{}", i)), Some(format!("pv{}", i)), "Failed to retrieve persisted key {}", i);
    }
    for i in 200..400 {
        second.insert(format!("pk{}", i), format!("pv{}", i));
    }
    let third = reopen(&second);
    for i in 0..400 {
        assert_eq!(
            third.get(&format!("pk{}", i)),
            Some(format!("pv{}", i)),
            "Failed to retrieve key {} in final verification",
            i
        );
    }
}

#[test]
fn test_large_data_persistence() {
    let mut first: BPTree<u32, u32> = BPTree::new(16384);
    for i in 0..300 {
        first.insert(i, i * 2);
    }
    for i in [0, 100, 200, 299] {
        assert_eq!(first.get(&i), Some(i * 2));
    }
    let second = reopen(&first);
    for i in 0..300 {
        assert_eq!(second.get(&i), Some(i * 2), "Failed to retrieve dataset item {}", i);
    }
}

#[test]
fn test_ordered_insertion_and_persistence() {
    let mut first: BPTree<u32, u32> = BPTree::new(2048);
    for i in 0..200 {
        first.insert(i, i * 10);
    }
    for i in 0..200 {
        assert_eq!(first.get(&i), Some(i * 10));
    }
    let second = reopen(&first);
    for i in 0..200 {
        assert_eq!(second.get(&i), Some(i * 10));
    }
}

#[test]
fn test_reverse_ordered_insertion_and_persistence() {
    let mut first: BPTree<u32, u32> = BPTree::new(2048);
    for i in (0..200).rev() {
        first.insert(i, i * 10);
    }
    for i in 0..200 {
        assert_eq!(first.get(&i), Some(i * 10));
    }
    let second = reopen(&first);
    for i in 0..200 {
        assert_eq!(second.get(&i), Some(i * 10));
    }
}

#[test]
fn string_keys_sort_by_their_bytes_with_a_prefix_first() {
    let mut t: BPTree<String, u32> = BPTree::new(512);
    let words = ["pear", "apple", "app", "", "banana", "apples", "Zebra", "äpfel", "b"];
    for (i, w) in words.iter().enumerate() {
        t.insert(w.to_string(), i as u32);
    }
    let listed: Vec<String> = t.range(KeyBound::Unbounded, KeyBound::Unbounded).into_iter().map(|(k, _)| k).collect();
    let mut expected: Vec<String> = words.iter().map(|w| w.to_string()).collect();
    expected.sort();
    assert_eq!(listed, expected);
    let some: Vec<String> = t
        .range(KeyBound::Included("app".to_string()), KeyBound::Excluded("b".to_string()))
        .into_iter()
        .map(|(k, _)| k)
        .collect();
    assert_eq!(some, vec!["app".to_string(), "apple".to_string(), "apples".to_string(), "banana".to_string()][..3].to_vec());
    t.validate().unwrap();
}

#[test]
fn many_string_keys_split_merge_and_stay_sound() {
    let mut t: BPTree<String, u64> = BPTree::new(512);
    for i in 0..500u64 {
        t.insert(format!("key-{}", (i * 7919) % 500), i);
    }
    assert_eq!(t.len(), 500);
    t.validate().unwrap();
    for i in 0..450u64 {
        assert!(t.delete(&format!("key-{}", (i * 104729) % 500)).is_some());
    }
    assert_eq!(t.len(), 50);
    t.validate().unwrap();
    let all = t.range(KeyBound::Unbounded, KeyBound::Unbounded);
    for w in all.windows(2) {
        assert!(w[0].0 < w[1].0);
    }
}
