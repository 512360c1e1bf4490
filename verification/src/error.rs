use vstd::prelude::*;

use crate::storage::{BlockId, StorageError};

verus! {

/// B-tree specific errors
#[derive(Debug)]
pub enum BPTreeError {
    Storage(StorageError),
    KeyNotFound,
    NodeCorrupted,
    InvalidOperation,
    Underflow,
    MergeFailed,
    SiblingNotFound,
    ValidationFailed(String),
}

impl From<StorageError> for BPTreeError {
    fn from(err: StorageError) -> (r: Self) {
        BPTreeError::Storage(err)
    }
}

impl vstd::std_specs::convert::FromSpecImpl<StorageError> for BPTreeError {
    open spec fn obeys_from_spec() -> bool {
        true
    }

    open spec fn from_spec(v: StorageError) -> Self {
        BPTreeError::Storage(v)
    }
}

/// Result of a deletion operation
#[derive(Debug)]
pub enum DeleteResult<K, V> {
    NoChange,
    KeyRemoved(V),
    Underflow {
        node_id: BlockId,
        value: Option<V>,
        left_sibling: Option<BlockId>,
        right_sibling: Option<BlockId>,
        new_separator: Option<K>,
    },
    TreeEmpty,
}

} // verus!
