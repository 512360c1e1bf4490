use bptree::node::{NodeType, UniversalNode};
use bptree::ser::BlockSerializer;
use bptree::storage::StorageError;
use bptree::tree::{BPTree, BPTreeMetadata, METADATA_V1, ROOT_ID};

#[test]
fn test_block_padding() {
    let padded = BlockSerializer::pad_to_block(vec![1, 2, 3], 1024);
    assert_eq!(padded.len(), 1024);
    assert_eq!(&padded[..3], &[1, 2, 3]);
    assert!(padded[3..].iter().all(|&b| b == 0));
    let long = vec![7u8; 10];
    assert_eq!(BlockSerializer::pad_to_block(long.clone(), 4), long);
}

#[test]
fn test_oversized_node() {
    let data = vec![1u8; 101];
    match BlockSerializer::check_node_size(data, 100) {
        Err(StorageError::InvalidBlockSize { expected, actual }) => {
            assert_eq!(expected, 100);
            assert_eq!(actual, 101);
        }
        other => panic!("Expected InvalidBlockSize, got {:?}", other),
    }
    assert_eq!(BlockSerializer::check_node_size(vec![1u8; 100], 100).unwrap().len(), 100);
}

#[test]
fn all_zero_detection() {
    assert!(BlockSerializer::is_all_zero(&[0, 0, 0]));
    assert!(BlockSerializer::is_all_zero(&[]));
    assert!(!BlockSerializer::is_all_zero(&[0, 1, 0]));
}

#[test]
fn decoded_node_gets_its_type_from_its_children() {
    let node: UniversalNode<u32, u32> = UniversalNode {
        key_count: 1,
        keys: vec![5],
        child_ids: vec![1, 2],
        values: vec![],
        next_leaf: None,
        is_dirty: false,
        node_type: NodeType::Leaf,
    };
    let fixed = BlockSerializer::finish_decoded_node(node).unwrap();
    assert!(fixed.is_internal());

    let broken: UniversalNode<u32, u32> = UniversalNode {
        key_count: 2,
        keys: vec![5, 6],
        child_ids: vec![],
        values: vec![50],
        next_leaf: None,
        is_dirty: false,
        node_type: NodeType::Internal,
    };
    match BlockSerializer::finish_decoded_node(broken) {
        Err(StorageError::BlockCorrupted(_)) => {}
        other => panic!("Expected BlockCorrupted, got {:?}", other),
    }
}

fn metadata(version: u8, block_size: usize) -> BPTreeMetadata {
    BPTreeMetadata { version, block_size, max_keys_per_node: 12, entry_count: 0, root_exists: false }
}

#[test]
fn test_tree_version_mismatch() {
    match BPTree::<u32, u32>::check_metadata(&metadata(99, 4096), 4096) {
        Err(StorageError::VersionMismatch { expected, actual }) => {
            assert_eq!(expected, METADATA_V1);
            assert_eq!(actual, 99);
        }
        other => panic!("Expected VersionMismatch, got {:?}", other),
    }
}

#[test]
fn test_tree_block_size_mismatch() {
    match BPTree::<u32, u32>::check_metadata(&metadata(METADATA_V1, 4096), 2048) {
        Err(StorageError::MetadataMismatch(msg)) => {
            assert!(msg.contains("Block size mismatch"));
        }
        other => panic!("Expected MetadataMismatch, got {:?}", other),
    }
    assert!(BPTree::<u32, u32>::check_metadata(&metadata(METADATA_V1, 4096), 4096).is_ok());
}

#[test]
fn undecodable_root_block() {
    assert!(BPTree::<u32, u32>::check_undecodable_root(&[0u8; 64]).is_ok());
    match BPTree::<u32, u32>::check_undecodable_root(&[0, 3, 0]) {
        Err(StorageError::BlockCorrupted(id)) => assert_eq!(id, ROOT_ID),
        other => panic!("Expected BlockCorrupted, got {:?}", other),
    }
}

#[test]
fn metadata_records_the_tree() {
    let mut tree: BPTree<u32, u32> = BPTree::new(512);
    for i in 0..40 {
        tree.insert(i, i);
    }
    let m = tree.metadata();
    assert_eq!(m.version, METADATA_V1);
    assert_eq!(m.block_size, 512);
    assert_eq!(m.entry_count, 40);
    assert!(m.root_exists);
    assert_eq!(m.max_keys_per_node, BPTree::<u32, u32>::estimate_max_keys(512));
}
