use bptree::node::{NodeType, UniversalNode};

#[test]
fn test_internal_vs_leaf_detection() {
    let internal: UniversalNode<u32, u32> = UniversalNode {
        key_count: 2,
        keys: vec![1, 3],
        child_ids: vec![0, 1, 2],
        values: vec![],
        next_leaf: None,
        is_dirty: false,
        node_type: NodeType::Internal,
    };

    let leaf: UniversalNode<u32, u32> = UniversalNode {
        key_count: 2,
        keys: vec![1, 3],
        child_ids: vec![],
        values: vec![10, 30],
        next_leaf: None,
        is_dirty: false,
        node_type: NodeType::Leaf,
    };

    assert!(internal.is_internal());
    assert!(!internal.is_leaf());
    assert!(leaf.is_leaf());
    assert!(!leaf.is_internal());
}

#[test]
fn test_leaf_insert_get() {
    let mut node = UniversalNode::<u32, u32>::new_leaf();

    node.insert_leaf(5, 50).unwrap();
    node.insert_leaf(3, 30).unwrap();
    node.insert_leaf(7, 70).unwrap();

    assert_eq!(node.get(&3), Some(&30));
    assert_eq!(node.get(&5), Some(&50));
    assert_eq!(node.get(&7), Some(&70));
    assert_eq!(node.get(&4), None);
}

#[test]
fn test_internal_operations() {
    let mut node = UniversalNode::<u32, u32>::new_internal();

    node.insert_internal(5, 0, 1).unwrap();
    assert_eq!(node.keys, vec![5]);
    assert_eq!(node.child_ids, vec![0, 1]);

    assert_eq!(node.get_child_id(0), Some(0));
    assert_eq!(node.get_child_id(1), Some(1));

    node.validate().unwrap();
}

#[test]
fn test_node_split() {
    let mut leaf = UniversalNode::<u32, u32>::new_leaf();
    for i in 0..4 {
        leaf.insert_leaf(i * 2, i * 20).unwrap();
    }

    let (split_key, right_node) = leaf.split().unwrap();
    assert_eq!(split_key, 4);
    assert_eq!(leaf.keys, vec![0, 2]);
    assert_eq!(right_node.keys, vec![4, 6]);
}

fn leaf_of(keys: Vec<u32>, values: Vec<u32>) -> UniversalNode<u32, u32> {
    UniversalNode {
        key_count: keys.len() as u32,
        keys,
        child_ids: vec![],
        values,
        next_leaf: None,
        is_dirty: false,
        node_type: NodeType::Leaf,
    }
}

fn internal_of(keys: Vec<u32>, child_ids: Vec<u64>) -> UniversalNode<u32, u32> {
    UniversalNode {
        key_count: keys.len() as u32,
        keys,
        child_ids,
        values: vec![],
        next_leaf: None,
        is_dirty: false,
        node_type: NodeType::Internal,
    }
}

#[test]
fn find_key_index_is_the_first_key_not_below() {
    let node = leaf_of(vec![10, 20, 30], vec![1, 2, 3]);
    assert_eq!(node.find_key_index(&5), 0);
    assert_eq!(node.find_key_index(&10), 0);
    assert_eq!(node.find_key_index(&15), 1);
    assert_eq!(node.find_key_index(&30), 2);
    assert_eq!(node.find_key_index(&31), 3);
}

#[test]
fn child_index_sends_a_separator_to_its_right_child() {
    let node = internal_of(vec![10, 20], vec![7, 8, 9]);
    assert_eq!(node.child_index(&5), 0);
    assert_eq!(node.child_index(&10), 1);
    assert_eq!(node.child_index(&19), 1);
    assert_eq!(node.child_index(&20), 2);
    assert_eq!(node.get_child_id(2), Some(9));
    assert_eq!(node.get_child_id(3), None);
}

#[test]
fn validate_rejects_inconsistent_nodes() {
    let mut bad = leaf_of(vec![1, 2], vec![10]);
    assert!(bad.validate().is_err());
    bad.values.push(20);
    assert!(bad.validate().is_ok());
    bad.key_count = 3;
    assert!(bad.validate().is_err());
    let internal = internal_of(vec![1, 2], vec![4, 5]);
    assert!(internal.validate().is_err());
}

#[test]
fn remove_leaf_takes_out_one_entry() {
    let mut node = leaf_of(vec![1, 3, 5], vec![10, 30, 50]);
    assert_eq!(node.remove_leaf(&3), Some(30));
    assert_eq!(node.keys, vec![1, 5]);
    assert_eq!(node.values, vec![10, 50]);
    assert_eq!(node.key_count, 2);
    assert_eq!(node.remove_leaf(&4), None);
    assert_eq!(node.keys, vec![1, 5]);
}

#[test]
fn internal_split_promotes_the_middle_key() {
    let mut node = internal_of(vec![10, 20, 30, 40, 50], vec![1, 2, 3, 4, 5, 6]);
    let (key, right) = node.split().unwrap();
    assert_eq!(key, 30);
    assert_eq!(node.keys, vec![10, 20]);
    assert_eq!(node.child_ids, vec![1, 2, 3]);
    assert_eq!(right.keys, vec![40, 50]);
    assert_eq!(right.child_ids, vec![4, 5, 6]);
    assert!(right.is_internal());
    let mut single = leaf_of(vec![1], vec![1]);
    assert!(single.split().is_err());
}

#[test]
fn merge_joins_neighbours() {
    let mut left = leaf_of(vec![1, 2], vec![10, 20]);
    let right = leaf_of(vec![3, 4], vec![30, 40]);
    left.merge(&right, None).unwrap();
    assert_eq!(left.keys, vec![1, 2, 3, 4]);
    assert_eq!(left.values, vec![10, 20, 30, 40]);
    assert_eq!(left.key_count, 4);

    let mut left = internal_of(vec![10], vec![1, 2]);
    let right = internal_of(vec![30], vec![3, 4]);
    left.merge(&right, Some(20)).unwrap();
    assert_eq!(left.keys, vec![10, 20, 30]);
    assert_eq!(left.child_ids, vec![1, 2, 3, 4]);

    let mut leaf = leaf_of(vec![1], vec![1]);
    assert!(leaf.merge(&internal_of(vec![5], vec![1, 2]), None).is_err());
}

#[test]
fn absorb_undoes_a_split() {
    let mut node = internal_of(vec![10, 20, 30, 40], vec![1, 2, 3, 4, 5]);
    let (key, right) = node.split().unwrap();
    node.absorb(right, key);
    assert_eq!(node.keys, vec![10, 20, 30, 40]);
    assert_eq!(node.child_ids, vec![1, 2, 3, 4, 5]);
    assert_eq!(node.key_count, 4);
}

#[test]
fn borrowing_moves_one_entry_and_the_separator() {
    let mut left = leaf_of(vec![1, 2, 3], vec![10, 20, 30]);
    let mut child = leaf_of(vec![5], vec![50]);
    let mut sep = 5;
    child.borrow_from_left(&mut left, &mut sep).unwrap();
    assert_eq!(left.keys, vec![1, 2]);
    assert_eq!(child.keys, vec![3, 5]);
    assert_eq!(child.values, vec![30, 50]);
    assert_eq!(sep, 3);

    let mut child = leaf_of(vec![1], vec![10]);
    let mut right = leaf_of(vec![5, 6, 7], vec![50, 60, 70]);
    let mut sep = 5;
    child.borrow_from_right(&mut right, &mut sep).unwrap();
    assert_eq!(child.keys, vec![1, 5]);
    assert_eq!(right.keys, vec![6, 7]);
    assert_eq!(sep, 6);

    let mut left = internal_of(vec![10, 20], vec![1, 2, 3]);
    let mut child = internal_of(vec![40], vec![4, 5]);
    let mut sep = 30;
    child.borrow_from_left(&mut left, &mut sep).unwrap();
    assert_eq!(left.keys, vec![10]);
    assert_eq!(left.child_ids, vec![1, 2]);
    assert_eq!(child.keys, vec![30, 40]);
    assert_eq!(child.child_ids, vec![3, 4, 5]);
    assert_eq!(sep, 20);
}

#[test]
fn first_last_and_min_keys() {
    let node = leaf_of(vec![4, 8, 9], vec![0, 0, 0]);
    assert_eq!(node.first_key(), Some(&4));
    assert_eq!(node.last_key(), Some(&9));
    let empty = UniversalNode::<u32, u32>::new_leaf();
    assert_eq!(empty.first_key(), None);
    assert_eq!(empty.last_key(), None);
    assert_eq!(empty.min_keys(4), 1);
    assert_eq!(empty.min_keys(5), 2);
    assert_eq!(empty.min_keys(12), 5);
    let d: UniversalNode<u32, u32> = UniversalNode::default();
    assert!(d.is_leaf());
    assert_eq!(NodeType::default(), NodeType::Leaf);
}
