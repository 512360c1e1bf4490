use bptree::range::KeyBound;
use bptree::tree::{BPTree, BPTreeRangeIter};

#[test]
fn test_len_and_is_empty() {
    let mut bptree: BPTree<u32, u32> = BPTree::new(4096);

    assert!(bptree.is_empty());
    assert_eq!(bptree.len(), 0);

    bptree.insert(1, 10);
    assert!(!bptree.is_empty());
    assert_eq!(bptree.len(), 1);

    bptree.insert(2, 20);
    assert_eq!(bptree.len(), 2);

    bptree.delete(&1);
    assert_eq!(bptree.len(), 1);

    bptree.delete(&2);
    assert!(bptree.is_empty());
    assert_eq!(bptree.len(), 0);
}

#[test]
fn test_update_and_upsert() {
    let mut bptree: BPTree<u32, u32> = BPTree::new(4096);

    assert_eq!(bptree.update(1, 10), None);
    assert_eq!(bptree.len(), 0);

    assert_eq!(bptree.upsert(1, 10), None);
    assert_eq!(bptree.len(), 1);

    assert_eq!(bptree.update(1, 11), Some(10));
    assert_eq!(bptree.get(&1), Some(11));
    assert_eq!(bptree.len(), 1);

    assert_eq!(bptree.upsert(1, 12), Some(11));
    assert_eq!(bptree.get(&1), Some(12));
    assert_eq!(bptree.len(), 1);
}

#[test]
fn insert_many_with_small_blocks_keeps_every_value() {
    let mut bptree: BPTree<u32, u32> = BPTree::new(512);
    for i in 0..500u32 {
        assert_eq!(bptree.insert(i, i * 10), None);
    }
    assert_eq!(bptree.len(), 500);
    for i in 0..500u32 {
        assert_eq!(bptree.get(&i), Some(i * 10));
    }
    assert_eq!(bptree.get(&500), None);
}

#[test]
fn insert_in_reverse_order_keeps_every_value() {
    let mut bptree: BPTree<u64, u64> = BPTree::new(512);
    for i in (0..300u64).rev() {
        bptree.insert(i, i + 1);
    }
    for i in 0..300u64 {
        assert_eq!(bptree.get(&i), Some(i + 1));
    }
}

#[test]
fn capacity_follows_block_size() {
    assert_eq!(BPTree::<u32, u32>::estimate_max_keys(512), 12);
}

#[test]
fn test_basic_delete() {
    let mut bptree: BPTree<String, String> = BPTree::new(4096);
    bptree.insert("key1".to_string(), "value1".to_string());
    bptree.insert("key2".to_string(), "value2".to_string());

    assert_eq!(bptree.delete(&"key1".to_string()), Some("value1".to_string()));
    assert_eq!(bptree.get(&"key1".to_string()), None);
    assert_eq!(bptree.get(&"key2".to_string()), Some("value2".to_string()));

    assert_eq!(bptree.delete(&"key2".to_string()), Some("value2".to_string()));
    assert_eq!(bptree.get(&"key2".to_string()), None);
    assert!(!bptree.root_exists());
}

#[test]
fn test_delete_with_redistribution() {
    let mut bptree: BPTree<u32, u32> = BPTree::new(512);
    for i in 0..20 {
        bptree.insert(i, i * 10);
    }
    for i in 0..10 {
        bptree.delete(&i);
    }
    for i in 10..20 {
        assert_eq!(bptree.get(&i), Some(i * 10));
    }
}

#[test]
fn test_delete_with_merge() {
    let mut bptree: BPTree<u32, u32> = BPTree::new(512);
    for i in 0..20 {
        bptree.insert(i, i * 10);
    }
    for i in 0..18 {
        bptree.delete(&i);
    }
    assert_eq!(bptree.get(&19), Some(190));
    let root = bptree.node(bptree::tree::ROOT_ID).unwrap();
    assert!(root.is_leaf());
}

#[test]
fn delete_of_absent_key_changes_nothing() {
    let mut bptree: BPTree<u32, u32> = BPTree::new(512);
    for i in 0..30 {
        bptree.insert(i * 2, i);
    }
    assert_eq!(bptree.delete(&7), None);
    assert_eq!(bptree.len(), 30);
    for i in 0..30 {
        assert_eq!(bptree.get(&(i * 2)), Some(i));
    }
}

#[test]
fn delete_everything_in_mixed_order_then_reinsert() {
    let mut bptree: BPTree<u64, u64> = BPTree::new(512);
    for i in 0..400u64 {
        bptree.insert((i * 7919) % 400, i);
    }
    assert_eq!(bptree.len(), 400);
    for i in 0..400u64 {
        let k = (i * 104729) % 400;
        assert!(bptree.delete(&k).is_some());
        assert_eq!(bptree.get(&k), None);
        assert_eq!(bptree.len(), 399 - i);
    }
    assert!(bptree.is_empty());
    assert!(!bptree.root_exists());
    for i in 0..50u64 {
        bptree.insert(i, i);
    }
    for i in 0..50u64 {
        assert_eq!(bptree.get(&i), Some(i));
    }
}

#[test]
fn delete_batch_reports_each_key_in_turn() {
    let mut bptree: BPTree<u32, u32> = BPTree::new(4096);
    bptree.insert(1, 10);
    bptree.insert(2, 20);
    let results = bptree.delete_batch(&[1, 3, 1, 2]);
    assert_eq!(results, vec![Some(10), None, None, Some(20)]);
    assert!(bptree.is_empty());
}

#[test]
fn delete_safe_removes_like_delete() {
    let mut bptree: BPTree<u32, u32> = BPTree::new(4096);
    bptree.insert(5, 50);
    assert_eq!(bptree.delete_safe(&5), Some(50));
    assert_eq!(bptree.delete_safe(&5), None);
    assert!(bptree.is_empty());
}

#[test]
fn test_iter_empty_tree() {
    let bptree: BPTree<u32, u32> = BPTree::new(4096);
    assert_eq!(bptree.range(KeyBound::Unbounded, KeyBound::Unbounded).len(), 0);
}

#[test]
fn test_iter_range_empty() {
    let mut bptree: BPTree<u32, u32> = BPTree::new(4096);
    bptree.insert(10, 100);
    assert_eq!(bptree.range(KeyBound::Included(0), KeyBound::Excluded(5)).len(), 0);
    assert_eq!(bptree.range(KeyBound::Included(15), KeyBound::Excluded(20)).len(), 0);
}

#[test]
fn test_iter_basic() {
    let mut bptree: BPTree<u32, u32> = BPTree::new(4096);
    for i in 0..100 {
        bptree.insert(i, i * 10);
    }
    let results = bptree.range(KeyBound::Unbounded, KeyBound::Unbounded);
    assert_eq!(results.len(), 100);
    for (idx, (key, value)) in results.into_iter().enumerate() {
        assert_eq!(key, idx as u32);
        assert_eq!(value, (idx * 10) as u32);
    }
}

#[test]
fn test_iter_range() {
    let mut bptree: BPTree<u32, u32> = BPTree::new(512);
    for i in 0..50 {
        bptree.insert(i, i * 10);
    }
    let range_vec = bptree.range(KeyBound::Included(10), KeyBound::Excluded(20));
    assert_eq!(range_vec.len(), 10);
    assert_eq!(range_vec[0].0, 10);
    assert_eq!(range_vec[9].0, 19);

    let full_range = bptree.range(KeyBound::Unbounded, KeyBound::Unbounded);
    assert_eq!(full_range.len(), 50);
}

#[test]
fn test_range_query() {
    let mut bptree: BPTree<u32, String> = BPTree::new(4096);
    for i in 0..10 {
        bptree.insert(i, format!("val{}", i));
    }
    let range = bptree.range(KeyBound::Included(3), KeyBound::Excluded(7));
    assert_eq!(range.len(), 4);
    assert_eq!(range[0].0, 3);
    assert_eq!(range[3].0, 6);

    let full_range = bptree.range(KeyBound::Unbounded, KeyBound::Unbounded);
    assert_eq!(full_range.len(), 10);
}

#[test]
fn range_bounds_include_and_exclude_their_ends() {
    let mut bptree: BPTree<u64, u64> = BPTree::new(512);
    for i in 0..200u64 {
        bptree.insert(i * 2, i);
    }
    let r = bptree.range(KeyBound::Excluded(10), KeyBound::Included(20));
    let keys: Vec<u64> = r.iter().map(|(k, _)| *k).collect();
    assert_eq!(keys, vec![12, 14, 16, 18, 20]);
    let r = bptree.range(KeyBound::Included(390), KeyBound::Unbounded);
    let keys: Vec<u64> = r.iter().map(|(k, _)| *k).collect();
    assert_eq!(keys, vec![390, 392, 394, 396, 398]);
    let r = bptree.range(KeyBound::Included(30), KeyBound::Excluded(10));
    assert!(r.is_empty());
    let r = bptree.range(KeyBound::Unbounded, KeyBound::Excluded(5));
    assert_eq!(r, vec![(0, 0), (2, 1), (4, 2)]);
}

fn rebuilt_with(tree: &BPTree<u32, u32>, id: u64, node: Option<bptree::node::UniversalNode<u32, u32>>) -> BPTree<u32, u32> {
    let mut nodes = Vec::new();
    for i in 0..tree.block_count() as u64 {
        if i == id {
            nodes.push(node.clone());
        } else {
            nodes.push(tree.node(i).cloned());
        }
    }
    BPTree::from_parts(&tree.metadata(), nodes, tree.free_blocks().clone())
}

#[test]
fn test_validate_empty_tree() {
    let bptree: BPTree<u32, u32> = BPTree::new(4096);
    bptree.validate().unwrap();
}

#[test]
fn test_validate() {
    let mut bptree: BPTree<u32, u32> = BPTree::new(512);
    bptree.validate().unwrap();
    for i in 0..100 {
        bptree.insert(i, i * 10);
        bptree.validate().unwrap();
    }
    for i in 0..100 {
        let res = bptree.delete(&i);
        assert!(res.is_some(), "Key {} should exist", i);
        bptree.validate().unwrap();
    }
}

#[test]
fn test_validate_corruption() {
    let mut bptree: BPTree<u32, u32> = BPTree::new(512);
    for i in 0..50 {
        bptree.insert(i, i * 10);
    }
    // Lose block 2 (one of the children)
    let broken = rebuilt_with(&bptree, 2, None);
    let res = broken.validate();
    assert!(res.is_err(), "Validation should fail but returned {:?}", res);
    // A leaf with its keys out of order
    let mut leaf = bptree.node(2).unwrap().clone();
    leaf.keys.reverse();
    let broken = rebuilt_with(&bptree, 2, Some(leaf));
    assert!(broken.validate().is_err());
    // An intact copy checks out
    let same = rebuilt_with(&bptree, 0, None);
    same.validate().unwrap();
}

#[test]
fn validate_reports_a_wrong_entry_count() {
    let mut bptree: BPTree<u32, u32> = BPTree::new(512);
    for i in 0..30 {
        bptree.insert(i, i);
    }
    let mut meta = bptree.metadata();
    meta.entry_count = 29;
    let mut nodes = Vec::new();
    for i in 0..bptree.block_count() as u64 {
        nodes.push(bptree.node(i).cloned());
    }
    let broken: BPTree<u32, u32> = BPTree::from_parts(&meta, nodes, bptree.free_blocks().clone());
    match broken.validate() {
        Err(bptree::error::BPTreeError::ValidationFailed(msg)) => assert!(msg.contains("entry_count mismatch")),
        other => panic!("Expected ValidationFailed, got {:?}", other),
    }
}

#[test]
fn test_clear() {
    let mut bptree: BPTree<u32, u32> = BPTree::new(4096);
    for i in 0..10 {
        bptree.insert(i, i * 10);
    }
    assert_eq!(bptree.len(), 10);
    bptree.clear();
    assert!(bptree.is_empty());
    assert_eq!(bptree.len(), 0);
    assert!(!bptree.root_exists());
    bptree.validate().unwrap();
}

#[test]
fn clear_frees_every_block_below_the_root() {
    let mut bptree: BPTree<u32, u32> = BPTree::new(512);
    for i in 0..200 {
        bptree.insert(i, i);
    }
    let used = bptree.get_all_block_ids();
    assert!(used.len() > 3);
    bptree.clear();
    bptree.validate().unwrap();
    assert_eq!(bptree.free_blocks().len(), used.len() - 1);
    for i in 0..50 {
        bptree.insert(i, i + 1);
    }
    assert_eq!(bptree.get(&49), Some(50));
    bptree.validate().unwrap();
}

#[test]
fn get_all_block_ids_lists_root_first_and_each_block_once() {
    let mut bptree: BPTree<u32, u32> = BPTree::new(512);
    assert_eq!(bptree.get_all_block_ids(), vec![1]);
    for i in 0..100 {
        bptree.insert(i, i);
    }
    let ids = bptree.get_all_block_ids();
    assert_eq!(ids[0], 1);
    let mut sorted = ids.clone();
    sorted.sort();
    sorted.dedup();
    assert_eq!(sorted.len(), ids.len());
    for id in ids {
        assert!(bptree.node(id).is_some());
    }
}

type BlockImage = Option<(Vec<u32>, Vec<u32>, Vec<u64>, Option<u64>)>;

fn block_images(tree: &BPTree<u32, u32>) -> Vec<BlockImage> {
    (0..tree.block_count() as u64)
        .map(|id| tree.node(id).map(|n| (n.keys.clone(), n.values.clone(), n.child_ids.clone(), n.next_leaf)))
        .collect()
}

fn changed_blocks(before: &[BlockImage], after: &[BlockImage]) -> Vec<u64> {
    let n = before.len().max(after.len());
    (0..n)
        .filter(|&i| before.get(i).cloned().flatten() != after.get(i).cloned().flatten())
        .map(|i| i as u64)
        .collect()
}

#[test]
fn touched_blocks_cover_every_changed_block() {
    let mut bptree: BPTree<u32, u32> = BPTree::new(512);
    bptree.take_touched();
    for step in 0..300u32 {
        let before = block_images(&bptree);
        let key = (step * 37) % 150;
        if step % 3 == 2 {
            bptree.delete(&key);
        } else {
            bptree.upsert(key, step);
        }
        let after = block_images(&bptree);
        let touched = bptree.take_touched();
        for id in changed_blocks(&before, &after) {
            assert!(touched.contains(&id), "block {} changed at step {} but was not recorded", id, step);
        }
        assert!(bptree.take_touched().is_empty());
    }
    let before = block_images(&bptree);
    bptree.clear();
    let touched = bptree.take_touched();
    for id in changed_blocks(&before, &block_images(&bptree)) {
        assert!(touched.contains(&id));
    }
}

#[test]
fn touched_record_keeps_earlier_entries_in_front() {
    let mut bptree: BPTree<u32, u32> = BPTree::new(512);
    bptree.insert(1, 1);
    let first = bptree.take_touched();
    assert_eq!(first, vec![1]);
    bptree.insert(1, 2);
    bptree.insert(2, 3);
    let both = bptree.take_touched();
    assert_eq!(both[0], 1);
    assert!(both.len() >= 2);
}

fn walk(mut it: BPTreeRangeIter<u32, u32>) -> Vec<(u32, u32)> {
    let mut out = Vec::new();
    while let Some(p) = it.next() {
        out.push(p);
    }
    assert_eq!(it.next(), None);
    out
}

#[test]
fn iter_of_empty_tree_gives_nothing() {
    let bptree: BPTree<u32, u32> = BPTree::new(4096);
    assert!(walk(bptree.iter()).is_empty());
    assert!(walk(bptree.iter_range(KeyBound::Included(1), KeyBound::Excluded(5))).is_empty());
}

#[test]
fn iter_gives_every_entry_in_key_order() {
    let mut bptree: BPTree<u32, u32> = BPTree::new(512);
    for i in 0..300u32 {
        bptree.insert((i * 7) % 300, i);
    }
    for i in 0..100u32 {
        bptree.delete(&(i * 3));
    }
    let all = walk(bptree.iter());
    assert_eq!(all.len(), 200);
    assert_eq!(all, bptree.range(KeyBound::Unbounded, KeyBound::Unbounded));
    for w in all.windows(2) {
        assert!(w[0].0 < w[1].0);
    }
}

fn bound(kind: u8, k: u32) -> KeyBound<u32> {
    match kind {
        0 => KeyBound::Included(k),
        1 => KeyBound::Excluded(k),
        _ => KeyBound::Unbounded,
    }
}

#[test]
fn iter_range_matches_range_for_each_kind_of_bound() {
    let mut bptree: BPTree<u32, u32> = BPTree::new(512);
    for i in 0..120u32 {
        bptree.insert(i * 2, i);
    }
    for a in [0u32, 1, 10, 37, 100, 239, 240, 500] {
        for b in [0u32, 3, 10, 38, 150, 238, 239, 600] {
            for sk in 0..3u8 {
                for ek in 0..3u8 {
                    assert_eq!(
                        walk(bptree.iter_range(bound(sk, a), bound(ek, b))),
                        bptree.range(bound(sk, a), bound(ek, b))
                    );
                }
            }
        }
    }
}

#[test]
fn iter_range_between_two_keys() {
    let mut bptree: BPTree<u32, u32> = BPTree::new(4096);
    for i in 1..=10u32 {
        bptree.insert(i, i * 100);
    }
    let got = walk(bptree.iter_range(KeyBound::Included(3), KeyBound::Excluded(7)));
    assert_eq!(got, vec![(3, 300), (4, 400), (5, 500), (6, 600)]);
}

#[test]
fn try_new_refuses_a_block_too_small_for_the_overhead() {
    assert!(BPTree::<u32, u32>::try_new(16).is_none());
    let t = BPTree::<u32, u32>::try_new(4096).unwrap();
    assert!(t.is_empty());
    assert!(!t.root_exists());
    t.validate().unwrap();
}

#[test]
fn deleting_down_to_one_leaf_collapses_the_root() {
    let mut bptree: BPTree<u32, u32> = BPTree::new(512);
    for i in 0..200 {
        bptree.insert(i, i);
    }
    assert!(!bptree.node(bptree::tree::ROOT_ID).unwrap().is_leaf());
    for i in 0..199 {
        bptree.delete(&i);
        let root = bptree.node(bptree::tree::ROOT_ID).unwrap();
        assert!(root.is_leaf() || root.keys.len() > 0);
    }
    assert!(bptree.node(bptree::tree::ROOT_ID).unwrap().is_leaf());
    assert_eq!(bptree.delete(&199), Some(199));
    assert!(!bptree.root_exists());
    assert!(bptree.is_empty());
}

#[test]
fn validate_reports_a_key_out_of_its_range_as_a_validation_failure() {
    let mut bptree: BPTree<u32, u32> = BPTree::new(512);
    for i in 0..60 {
        bptree.insert(i, i);
    }
    let root = bptree.node(bptree::tree::ROOT_ID).unwrap().clone();
    let child = root.child_ids[1];
    let mut bad = bptree.node(child).unwrap().clone();
    bad.keys[0] = 0;
    let broken = rebuilt_with(&bptree, child, Some(bad));
    match broken.validate() {
        Err(bptree::error::BPTreeError::ValidationFailed(_)) => {},
        other => panic!("expected ValidationFailed, got {:?}", other),
    }
}

#[test]
fn validate_reports_a_wrong_count_with_its_message() {
    let mut bptree: BPTree<u32, u32> = BPTree::new(512);
    for i in 0..10 {
        bptree.insert(i, i);
    }
    let mut meta = bptree.metadata();
    meta.entry_count = 3;
    let nodes: Vec<_> = (0..bptree.block_count() as u64).map(|id| bptree.node(id).cloned()).collect();
    let broken: BPTree<u32, u32> = BPTree::from_parts(&meta, nodes, bptree.free_blocks().clone());
    match broken.validate() {
        Err(bptree::error::BPTreeError::ValidationFailed(msg)) => assert!(msg.starts_with("entry_count mismatch")),
        other => panic!("expected ValidationFailed, got {:?}", other),
    }
}

fn check_half_full(t: &BPTree<u32, u32>) {
    let min = (t.metadata().max_keys_per_node + 1) / 2 - 1;
    if !t.root_exists() {
        return;
    }
    let root = t.node(bptree::tree::ROOT_ID).unwrap();
    assert!(root.is_leaf() || !root.keys.is_empty());
    let mut pending: Vec<u64> = root.child_ids.clone();
    while let Some(id) = pending.pop() {
        let n = t.node(id).unwrap();
        assert!(n.keys.len() >= min, "block {} holds {} keys, fewer than {}", id, n.keys.len(), min);
        pending.extend(n.child_ids.iter().copied());
    }
}

#[test]
fn nodes_below_the_root_stay_half_full() {
    let mut t: BPTree<u32, u32> = BPTree::new(512);
    for i in 0..600u32 {
        t.insert((i * 7919) % 600, i);
        check_half_full(&t);
    }
    for i in 0..600u32 {
        t.delete(&((i * 104729) % 600));
        check_half_full(&t);
        assert_eq!(t.root_exists(), !t.is_empty());
    }
    assert!(!t.root_exists());
}
