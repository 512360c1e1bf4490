//! The byte-level side of storing nodes in blocks: size checks, padding and
//! the checks on a decoded node.
use vstd::prelude::*;

use crate::key::TreeKey;
use crate::node::{NodeType, UniversalNode};
use crate::storage::StorageError;

verus! {

/// Serialization utilities for block storage
pub struct BlockSerializer;

impl BlockSerializer {
    /// An encoded node must fit in one block: the encoding itself when it
    /// does, else the sizes that do not match.
    pub fn check_node_size(data: Vec<u8>, block_size: usize) -> (r: Result<Vec<u8>, StorageError>)
        ensures
            data@.len() <= block_size ==> r == Ok::<Vec<u8>, StorageError>(data),
            data@.len() > block_size ==> r == Err::<Vec<u8>, StorageError>(
                StorageError::InvalidBlockSize { expected: block_size, actual: data@.len() as usize },
            ),
    {
        if data.len() > block_size {
            return Err(StorageError::InvalidBlockSize { expected: block_size, actual: data.len() });
        }
        Ok(data)
    }

    /// Pad data to fill the entire block
    pub fn pad_to_block(data: Vec<u8>, block_size: usize) -> (r: Vec<u8>)
        ensures
            data@.len() >= block_size ==> r@ == data@,
            data@.len() < block_size ==> r@.len() == block_size && r@.subrange(0, data@.len() as int) == data@
                && forall|i: int| data@.len() <= i < block_size ==> r@[i] == 0u8,
    {
        let mut data = data;
        let ghost orig = data@;
        if data.len() < block_size {
            while data.len() < block_size
                invariant
                    orig.len() <= data@.len() <= block_size,
                    data@.subrange(0, orig.len() as int) == orig,
                    forall|i: int| orig.len() <= i < data@.len() ==> data@[i] == 0u8,
                decreases block_size - data@.len(),
            {
                data.push(0u8);
                proof {
                    assert(data@.subrange(0, orig.len() as int) =~= orig);
                }
            }
        }
        data
    }

    /// Whether every byte is zero (the contents of a freshly allocated block).
    pub fn is_all_zero(data: &[u8]) -> (r: bool)
        ensures
            r == forall|i: int| 0 <= i < data@.len() ==> data@[i] == 0u8,
    {
        let mut i: usize = 0;
        while i < data.len()
            invariant
                i <= data@.len(),
                forall|j: int| 0 <= j < i ==> data@[j] == 0u8,
            decreases data@.len() - i,
        {
            if data[i] != 0 {
                return false;
            }
            i = i + 1;
        }
        true
    }

    /// Finish a node read back from its encoding: a node with children is
    /// internal, any other a leaf; the result must be consistent.
    pub fn finish_decoded_node<K: TreeKey, V>(node: UniversalNode<K, V>) -> (r: Result<
        UniversalNode<K, V>,
        StorageError,
    >)
        ensures
            ({
                let typed = UniversalNode {
                    node_type: if node.child_ids@.len() > 0 {
                        NodeType::Internal
                    } else {
                        NodeType::Leaf
                    },
                    ..node
                };
                &&& r is Ok <==> typed.well_shaped()
                &&& r matches Ok(n) ==> n == typed
                &&& r matches Err(e) ==> e == StorageError::BlockCorrupted(0)
            }),
    {
        let mut node = node;
        if node.child_ids.len() != 0 {
            node.node_type = NodeType::Internal;
        } else {
            node.node_type = NodeType::Leaf;
        }
        match node.validate() {
            Ok(()) => Ok(node),
            Err(e) => Err(e),
        }
    }
}

} // verus!
