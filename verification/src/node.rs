use vstd::prelude::*;

use crate::key::TreeKey;
use crate::storage::{BlockId, StorageError};

verus! {

/// Whether a node is a leaf (holds values) or internal (holds children).
#[derive(Debug, Clone, PartialEq, Eq, Structural)]
pub enum NodeType {
    Leaf,
    Internal,
}

impl Default for NodeType {
    fn default() -> (r: Self)
        ensures
            r == NodeType::Leaf,
    {
        NodeType::Leaf
    }
}

/// The keys are in strictly increasing order of rank.
pub open spec fn sorted_keys<K: TreeKey>(keys: Seq<K>) -> bool {
    forall|i: int, j: int| 0 <= i < j < keys.len() ==> #[trigger] keys[i].rank() < #[trigger] keys[j].rank()
}

/// `idx` is where a key of rank `k` belongs in `keys`: every key before it is
/// smaller, every key from it on is at least as large.
pub open spec fn is_lower_bound<K: TreeKey>(keys: Seq<K>, k: int, idx: int) -> bool {
    &&& 0 <= idx <= keys.len()
    &&& forall|j: int| 0 <= j < idx ==> #[trigger] keys[j].rank() < k
    &&& forall|j: int| idx <= j < keys.len() ==> #[trigger] keys[j].rank() >= k
}

/// `idx` is the number of keys of rank at most `k`: every key before it is at
/// most `k`, every key from it on is larger.
pub open spec fn is_upper_bound<K: TreeKey>(keys: Seq<K>, k: int, idx: int) -> bool {
    &&& 0 <= idx <= keys.len()
    &&& forall|j: int| 0 <= j < idx ==> #[trigger] keys[j].rank() <= k
    &&& forall|j: int| idx <= j < keys.len() ==> #[trigger] keys[j].rank() > k
}

/// Some key of `keys` has rank `k`.
pub open spec fn has_rank<K: TreeKey>(keys: Seq<K>, k: int) -> bool {
    exists|j: int| 0 <= j < keys.len() && #[trigger] keys[j].rank() == k
}

/// Universal node structure that can represent both internal and leaf nodes
#[derive(Debug, Clone)]
pub struct UniversalNode<K, V> {
    /// Number of keys in this node
    pub key_count: u32,
    /// Keys for this node (always present)
    pub keys: Vec<K>,
    /// Child block IDs (only for internal nodes, empty for leaf nodes)
    pub child_ids: Vec<BlockId>,
    /// Values for keys (only for leaf nodes, empty for internal nodes)
    pub values: Vec<V>,
    /// Pointer to next leaf node (only for leaf nodes)
    pub next_leaf: Option<BlockId>,
    /// Whether this node needs to be written back to storage
    pub is_dirty: bool,
    /// Explicit node type to avoid ambiguity
    pub node_type: NodeType,
}

impl<K: TreeKey, V> UniversalNode<K, V> {
    /// The node is a leaf.
    pub open spec fn leaf(&self) -> bool {
        self.node_type == NodeType::Leaf
    }

    /// The node's fields agree with each other: the count matches the keys, an
    /// internal node has one child more than keys and no values or next leaf,
    /// a leaf has no children and one value per key.
    pub open spec fn well_shaped(&self) -> bool {
        &&& self.key_count as int == self.keys@.len()
        &&& if self.leaf() {
            &&& self.child_ids@.len() == 0
            &&& self.values@.len() == self.keys@.len()
        } else {
            &&& self.child_ids@.len() == self.keys@.len() + 1
            &&& self.values@.len() == 0
            &&& self.next_leaf is None
        }
    }

    /// The node's keys are strictly increasing.
    pub open spec fn sorted(&self) -> bool {
        sorted_keys(self.keys@)
    }

    /// Create a new empty internal node
    pub fn new_internal() -> (r: Self)
        ensures
            r.key_count == 0,
            r.keys@.len() == 0,
            r.child_ids@.len() == 0,
            r.values@.len() == 0,
            r.next_leaf is None,
            r.is_dirty,
            r.node_type == NodeType::Internal,
    {
        UniversalNode {
            key_count: 0,
            keys: Vec::new(),
            child_ids: Vec::new(),
            values: Vec::new(),
            next_leaf: None,
            is_dirty: true,
            node_type: NodeType::Internal,
        }
    }

    /// Create a new empty leaf node
    pub fn new_leaf() -> (r: Self)
        ensures
            r.key_count == 0,
            r.keys@.len() == 0,
            r.child_ids@.len() == 0,
            r.values@.len() == 0,
            r.next_leaf is None,
            r.is_dirty,
            r.node_type == NodeType::Leaf,
    {
        UniversalNode {
            key_count: 0,
            keys: Vec::new(),
            child_ids: Vec::new(),
            values: Vec::new(),
            next_leaf: None,
            is_dirty: true,
            node_type: NodeType::Leaf,
        }
    }

    /// Check if this is an internal node
    pub fn is_internal(&self) -> (r: bool)
        ensures
            r == (self.node_type == NodeType::Internal),
    {
        match self.node_type {
            NodeType::Internal => true,
            NodeType::Leaf => false,
        }
    }

    /// Check if this is a leaf node
    pub fn is_leaf(&self) -> (r: bool)
        ensures
            r == self.leaf(),
    {
        match self.node_type {
            NodeType::Leaf => true,
            NodeType::Internal => false,
        }
    }

    /// Validate node consistency
    pub fn validate(&self) -> (r: Result<(), StorageError>)
        ensures
            r is Ok <==> self.well_shaped(),
            r matches Err(e) ==> e == StorageError::BlockCorrupted(0),
    {
        if self.key_count as usize != self.keys.len() {
            return Err(StorageError::BlockCorrupted(0));
        }
        if self.is_internal() {
            if self.child_ids.len() == 0 || self.child_ids.len() - 1 != self.keys.len() {
                return Err(StorageError::BlockCorrupted(0));
            }
            if self.values.len() != 0 {
                return Err(StorageError::BlockCorrupted(0));
            }
            if self.next_leaf.is_some() {
                return Err(StorageError::BlockCorrupted(0));
            }
        } else {
            if self.child_ids.len() != 0 {
                return Err(StorageError::BlockCorrupted(0));
            }
            if self.values.len() != self.keys.len() {
                return Err(StorageError::BlockCorrupted(0));
            }
        }
        Ok(())
    }

    /// Find the index where a key should be inserted
    pub fn find_key_index(&self, key: &K) -> (r: usize)
        ensures
            r <= self.keys@.len(),
            self.sorted() ==> is_lower_bound(self.keys@, key.rank(), r as int),
    {
        let mut lo: usize = 0;
        let mut hi: usize = self.keys.len();
        while lo < hi
            invariant
                lo <= hi <= self.keys@.len(),
                self.sorted() ==> forall|j: int| 0 <= j < lo ==> #[trigger] self.keys@[j].rank() < key.rank(),
                self.sorted() ==> forall|j: int|
                    hi <= j < self.keys@.len() ==> #[trigger] self.keys@[j].rank() >= key.rank(),
            decreases hi - lo,
        {
            let mid = lo + (hi - lo) / 2;
            if self.keys[mid].key_less(key) {
                lo = mid + 1;
            } else {
                hi = mid;
            }
        }
        lo
    }

    /// Index of the child whose key range holds `key`: the number of keys that
    /// are not greater than `key`.
    pub fn child_index(&self, key: &K) -> (r: usize)
        ensures
            r <= self.keys@.len(),
            self.sorted() ==> is_upper_bound(self.keys@, key.rank(), r as int),
    {
        let mut lo: usize = 0;
        let mut hi: usize = self.keys.len();
        while lo < hi
            invariant
                lo <= hi <= self.keys@.len(),
                self.sorted() ==> forall|j: int| 0 <= j < lo ==> #[trigger] self.keys@[j].rank() <= key.rank(),
                self.sorted() ==> forall|j: int|
                    hi <= j < self.keys@.len() ==> #[trigger] self.keys@[j].rank() > key.rank(),
            decreases hi - lo,
        {
            let mid = lo + (hi - lo) / 2;
            if key.key_less(&self.keys[mid]) {
                hi = mid;
            } else {
                lo = mid + 1;
            }
        }
        lo
    }

    /// Get the child ID for a given key index (internal nodes only)
    pub fn get_child_id(&self, key_idx: usize) -> (r: Option<BlockId>)
        ensures
            r == (if self.node_type == NodeType::Internal && key_idx < self.child_ids@.len() {
                Some(self.child_ids@[key_idx as int])
            } else {
                None::<BlockId>
            }),
    {
        if self.is_internal() && key_idx < self.child_ids.len() {
            Some(self.child_ids[key_idx])
        } else {
            None
        }
    }

    /// Insert a key-value pair into a leaf node
    pub fn insert_leaf(&mut self, key: K, value: V) -> (r: Result<(), StorageError>)
        requires
            old(self).leaf() ==> old(self).keys@.len() <= old(self).values@.len(),
            old(self).leaf() ==> old(self).key_count < u32::MAX,
        ensures
            r is Ok <==> old(self).leaf(),
            r matches Err(e) ==> e == StorageError::BlockCorrupted(0) && *final(self) == *old(self),
            r is Ok ==> exists|idx: int|
                {
                    &&& 0 <= idx <= old(self).keys@.len()
                    &&& final(self).keys@ == old(self).keys@.insert(idx, key)
                    &&& final(self).values@ == old(self).values@.insert(idx, value)
                    &&& (old(self).sorted() ==> is_lower_bound(old(self).keys@, key.rank(), idx))
                },
            r is Ok ==> final(self).key_count == old(self).key_count + 1,
            r is Ok ==> final(self).is_dirty,
            r is Ok ==> final(self).child_ids == old(self).child_ids,
            r is Ok ==> final(self).next_leaf == old(self).next_leaf,
            r is Ok ==> final(self).node_type == old(self).node_type,
            r is Ok && old(self).sorted() && !has_rank(old(self).keys@, key.rank()) ==> final(self).sorted(),
    {
        if !self.is_leaf() {
            return Err(StorageError::BlockCorrupted(0));
        }
        let ghost k = key.rank();
        let index = self.find_key_index(&key);
        self.keys.insert(index, key);
        self.values.insert(index, value);
        self.key_count = self.key_count + 1;
        self.is_dirty = true;
        proof {
            if old(self).sorted() && !has_rank(old(self).keys@, k) {
                lemma_insert_sorted(old(self).keys@, self.keys@, k, index as int);
            }
        }
        Ok(())
    }

    /// Insert a key and split point into an internal node
    pub fn insert_internal(&mut self, key: K, left_child: BlockId, right_child: BlockId) -> (r: Result<
        (),
        StorageError,
    >)
        requires
            old(self).node_type == NodeType::Internal ==> old(self).key_count < u32::MAX,
            old(self).node_type == NodeType::Internal && old(self).child_ids@.len() > 0
                ==> old(self).child_ids@.len() > old(self).keys@.len(),
        ensures
            r is Ok <==> old(self).node_type == NodeType::Internal,
            r matches Err(e) ==> e == StorageError::BlockCorrupted(0) && *final(self) == *old(self),
            r is Ok && old(self).child_ids@.len() == 0 ==> {
                &&& final(self).keys@ == old(self).keys@.push(key)
                &&& final(self).child_ids@ == seq![left_child, right_child]
            },
            r is Ok && old(self).child_ids@.len() > 0 ==> exists|idx: int|
                {
                    &&& 0 <= idx <= old(self).keys@.len()
                    &&& final(self).keys@ == old(self).keys@.insert(idx, key)
                    &&& final(self).child_ids@ == old(self).child_ids@.insert(idx + 1, right_child).update(
                        idx,
                        left_child,
                    )
                    &&& (old(self).sorted() ==> is_lower_bound(old(self).keys@, key.rank(), idx))
                },
            r is Ok ==> final(self).key_count == old(self).key_count + 1,
            r is Ok ==> final(self).is_dirty,
            r is Ok ==> final(self).values == old(self).values,
            r is Ok ==> final(self).next_leaf == old(self).next_leaf,
            r is Ok ==> final(self).node_type == old(self).node_type,
            r is Ok && old(self).child_ids@.len() > 0 && old(self).sorted() && !has_rank(
                old(self).keys@,
                key.rank(),
            ) ==> final(self).sorted(),
    {
        if !self.is_internal() {
            return Err(StorageError::BlockCorrupted(0));
        }
        if self.child_ids.len() == 0 {
            self.keys.push(key);
            self.child_ids.push(left_child);
            self.child_ids.push(right_child);
            proof {
                assert(self.child_ids@ =~= seq![left_child, right_child]);
            }
        } else {
            let ghost k = key.rank();
            let index = self.find_key_index(&key);
            self.keys.insert(index, key);
            self.child_ids.insert(index + 1, right_child);
            self.child_ids.set(index, left_child);
            proof {
                if old(self).sorted() && !has_rank(old(self).keys@, k) {
                    lemma_insert_sorted(old(self).keys@, self.keys@, k, index as int);
                }
            }
        }
        self.key_count = self.key_count + 1;
        self.is_dirty = true;
        Ok(())
    }

    /// Get a value by key (leaf nodes only)
    pub fn get(&self, key: &K) -> (r: Option<&V>)
        ensures
            r matches Some(v) ==> self.leaf() && exists|j: int|
                0 <= j < self.keys@.len() && j < self.values@.len() && #[trigger] self.keys@[j].rank()
                    == key.rank() && *v == self.values@[j],
            self.leaf() && self.sorted() && self.keys@.len() <= self.values@.len() ==> (r is Some
                <==> has_rank(self.keys@, key.rank())),
    {
        if !self.is_leaf() {
            return None;
        }
        let index = self.find_key_index(key);
        if index < self.keys.len() && self.keys[index].key_equal(key) && index < self.values.len() {
            Some(&self.values[index])
        } else {
            None
        }
    }

    /// Remove a key-value pair from a leaf node
    pub fn remove_leaf(&mut self, key: &K) -> (r: Option<V>)
        requires
            old(self).leaf() ==> old(self).keys@.len() <= old(self).values@.len(),
            old(self).leaf() ==> old(self).key_count as int == old(self).keys@.len(),
        ensures
            r is None ==> *final(self) == *old(self),
            old(self).leaf() && old(self).sorted() ==> (r is Some <==> has_rank(old(self).keys@, key.rank())),
            r matches Some(v) ==> old(self).leaf() && exists|j: int|
                {
                    &&& 0 <= j < old(self).keys@.len()
                    &&& #[trigger] old(self).keys@[j].rank() == key.rank()
                    &&& v == old(self).values@[j]
                    &&& final(self).keys@ == old(self).keys@.remove(j)
                    &&& final(self).values@ == old(self).values@.remove(j)
                },
            r is Some ==> final(self).key_count == old(self).key_count - 1,
            r is Some ==> final(self).is_dirty,
            r is Some ==> final(self).child_ids == old(self).child_ids,
            r is Some ==> final(self).next_leaf == old(self).next_leaf,
            r is Some ==> final(self).node_type == old(self).node_type,
    {
        if !self.is_leaf() {
            return None;
        }
        let index = self.find_key_index(key);
        if index < self.keys.len() && self.keys[index].key_equal(key) {
            self.keys.remove(index);
            let value = self.values.remove(index);
            self.key_count = self.key_count - 1;
            self.is_dirty = true;
            Some(value)
        } else {
            None
        }
    }

    /// Split this node into two, returning the split key and new node
    pub fn split(&mut self) -> (r: Result<(K, UniversalNode<K, V>), StorageError>)
        requires
            old(self).key_count >= 2 ==> old(self).keys@.len() > 0,
            old(self).key_count >= 2 && old(self).leaf() ==> old(self).keys@.len() / 2 <= old(
                self,
            ).values@.len(),
            old(self).key_count >= 2 && !old(self).leaf() ==> old(self).keys@.len() / 2 + 1 <= old(
                self,
            ).child_ids@.len(),
        ensures
            r is Ok <==> old(self).key_count >= 2,
            r matches Err(e) ==> e == StorageError::BlockCorrupted(0) && *final(self) == *old(self),
            r matches Ok((split_key, right)) ==> {
                let s = (old(self).keys@.len() / 2) as int;
                let n = old(self).keys@.len() as int;
                &&& split_key == old(self).keys@[s]
                &&& final(self).key_count == final(self).keys@.len() as u32
                &&& right.key_count == right.keys@.len() as u32
                &&& final(self).is_dirty && right.is_dirty
                &&& final(self).node_type == old(self).node_type
                &&& right.node_type == old(self).node_type
                &&& final(self).next_leaf == old(self).next_leaf
                &&& if old(self).leaf() {
                    &&& final(self).keys@ == old(self).keys@.subrange(0, s)
                    &&& right.keys@ == old(self).keys@.subrange(s, n)
                    &&& final(self).values@ == old(self).values@.subrange(0, s)
                    &&& right.values@ == old(self).values@.subrange(s, old(self).values@.len() as int)
                    &&& final(self).child_ids@ == old(self).child_ids@
                    &&& right.child_ids@.len() == 0
                    &&& right.next_leaf == old(self).next_leaf
                } else {
                    &&& final(self).keys@ == old(self).keys@.subrange(0, s)
                    &&& right.keys@ == old(self).keys@.subrange(s + 1, n)
                    &&& final(self).child_ids@ == old(self).child_ids@.subrange(0, s + 1)
                    &&& right.child_ids@ == old(self).child_ids@.subrange(
                        s + 1,
                        old(self).child_ids@.len() as int,
                    )
                    &&& final(self).values@ == old(self).values@
                    &&& right.values@.len() == 0
                    &&& right.next_leaf is None
                }
            },
    {
        if self.key_count < 2 {
            return Err(StorageError::BlockCorrupted(0));
        }
        let split_idx = self.keys.len() / 2;
        if self.is_leaf() {
            let split_key = self.keys[split_idx].copy_key();
            let right_keys = self.keys.split_off(split_idx);
            let right_values = self.values.split_off(split_idx);
            let new_node = UniversalNode {
                key_count: right_keys.len() as u32,
                keys: right_keys,
                child_ids: Vec::new(),
                values: right_values,
                next_leaf: self.next_leaf,
                is_dirty: true,
                node_type: NodeType::Leaf,
            };
            self.key_count = self.keys.len() as u32;
            self.is_dirty = true;
            Ok((split_key, new_node))
        } else {
            let split_key = self.keys[split_idx].copy_key();
            let right_keys = self.keys.split_off(split_idx + 1);
            let right_children = self.child_ids.split_off(split_idx + 1);
            self.keys.pop();
            let new_node = UniversalNode {
                key_count: right_keys.len() as u32,
                keys: right_keys,
                child_ids: right_children,
                values: Vec::new(),
                next_leaf: None,
                is_dirty: true,
                node_type: NodeType::Internal,
            };
            self.key_count = self.keys.len() as u32;
            self.is_dirty = true;
            proof {
                assert(self.keys@ =~= old(self).keys@.subrange(0, split_idx as int));
            }
            Ok((split_key, new_node))
        }
    }

    /// Merge this node with another (used during deletion)
    pub fn merge(&mut self, other: &UniversalNode<K, V>, separator: Option<K>) -> (r: Result<
        (),
        StorageError,
    >) where V: Clone
        ensures
            r is Ok <==> (old(self).node_type == NodeType::Internal) == (other.node_type
                == NodeType::Internal),
            r matches Err(e) ==> e == StorageError::BlockCorrupted(0) && *final(self) == *old(self),
            r is Ok ==> final(self).key_count == final(self).keys@.len() as u32,
            r is Ok ==> final(self).is_dirty,
            r is Ok ==> final(self).node_type == old(self).node_type,
            r is Ok && !old(self).leaf() ==> {
                &&& final(self).keys@ == (match separator {
                    Some(sep) => old(self).keys@.push(sep),
                    None => old(self).keys@,
                }) + other.keys@
                &&& final(self).child_ids@ == old(self).child_ids@ + other.child_ids@
                &&& final(self).values@ == old(self).values@
                &&& final(self).next_leaf == old(self).next_leaf
            },
            r is Ok && old(self).leaf() ==> {
                &&& final(self).keys@ == old(self).keys@ + other.keys@
                &&& final(self).values@.len() == old(self).values@.len() + other.values@.len()
                &&& final(self).values@.subrange(0, old(self).values@.len() as int)
                    == old(self).values@
                &&& forall|j: int|
                    0 <= j < other.values@.len() ==> cloned::<V>(
                        other.values@[j],
                        #[trigger] final(self).values@[old(self).values@.len() + j],
                    )
                &&& final(self).child_ids@ == old(self).child_ids@
                &&& final(self).next_leaf == other.next_leaf
            },
    {
        if self.is_internal() != other.is_internal() {
            return Err(StorageError::BlockCorrupted(0));
        }
        if self.is_internal() {
            match separator {
                Some(sep) => {
                    self.keys.push(sep);
                },
                None => {},
            }
            let ghost base = self.keys@;
            let mut i: usize = 0;
            while i < other.keys.len()
                invariant
                    i <= other.keys@.len(),
                    self.keys@ == base + other.keys@.subrange(0, i as int),
                    self.node_type == old(self).node_type,
                    self.child_ids@ == old(self).child_ids@,
                    self.values@ == old(self).values@,
                    self.next_leaf == old(self).next_leaf,
                decreases other.keys@.len() - i,
            {
                self.keys.push(other.keys[i].copy_key());
                i = i + 1;
                proof {
                    assert(self.keys@ =~= base + other.keys@.subrange(0, i as int));
                }
            }
            let ghost cbase = self.child_ids@;
            let mut c: usize = 0;
            while c < other.child_ids.len()
                invariant
                    c <= other.child_ids@.len(),
                    self.child_ids@ == cbase + other.child_ids@.subrange(0, c as int),
                    self.keys@ == base + other.keys@,
                    self.node_type == old(self).node_type,
                    self.values@ == old(self).values@,
                    self.next_leaf == old(self).next_leaf,
                decreases other.child_ids@.len() - c,
            {
                self.child_ids.push(other.child_ids[c]);
                c = c + 1;
                proof {
                    assert(self.child_ids@ =~= cbase + other.child_ids@.subrange(0, c as int));
                }
            }
            proof {
                assert(other.keys@.subrange(0, other.keys@.len() as int) =~= other.keys@);
                assert(other.child_ids@.subrange(0, other.child_ids@.len() as int)
                    =~= other.child_ids@);
            }
        } else {
            let ghost base = self.keys@;
            let mut i: usize = 0;
            while i < other.keys.len()
                invariant
                    i <= other.keys@.len(),
                    self.keys@ == base + other.keys@.subrange(0, i as int),
                    self.node_type == old(self).node_type,
                    self.child_ids@ == old(self).child_ids@,
                    self.values@ == old(self).values@,
                    self.next_leaf == old(self).next_leaf,
                decreases other.keys@.len() - i,
            {
                self.keys.push(other.keys[i].copy_key());
                i = i + 1;
                proof {
                    assert(self.keys@ =~= base + other.keys@.subrange(0, i as int));
                }
            }
            let ghost vbase = self.values@;
            let mut j: usize = 0;
            while j < other.values.len()
                invariant
                    j <= other.values@.len(),
                    self.values@.len() == vbase.len() + j,
                    self.values@.subrange(0, vbase.len() as int) == vbase,
                    forall|t: int|
                        0 <= t < j ==> cloned::<V>(
                            other.values@[t],
                            #[trigger] self.values@[vbase.len() + t],
                        ),
                    self.keys@ == base + other.keys@,
                    self.node_type == old(self).node_type,
                    self.child_ids@ == old(self).child_ids@,
                    self.next_leaf == old(self).next_leaf,
                decreases other.values@.len() - j,
            {
                let v = other.values[j].clone();
                self.values.push(v);
                j = j + 1;
                proof {
                    assert(self.values@.subrange(0, vbase.len() as int) =~= vbase);
                }
            }
            self.next_leaf = other.next_leaf;
            proof {
                assert(other.keys@.subrange(0, other.keys@.len() as int) =~= other.keys@);
            }
        }
        self.key_count = self.keys.len() as u32;
        self.is_dirty = true;
        Ok(())
    }

    /// Merge `other`, the right neighbour of this node, into this node by
    /// taking its contents: for internal nodes the separator goes between
    /// the two key lists; a leaf takes over `other`'s next-leaf link.
    pub fn absorb(&mut self, other: UniversalNode<K, V>, separator: K)
        requires
            old(self).keys@.len() + other.keys@.len() + 1 <= u32::MAX,
        ensures
            final(self).keys@ == (if old(self).leaf() {
                old(self).keys@ + other.keys@
            } else {
                old(self).keys@.push(separator) + other.keys@
            }),
            final(self).values@ == old(self).values@ + other.values@,
            final(self).child_ids@ == old(self).child_ids@ + other.child_ids@,
            final(self).next_leaf == (if old(self).leaf() {
                other.next_leaf
            } else {
                old(self).next_leaf
            }),
            final(self).node_type == old(self).node_type,
            final(self).key_count as int == final(self).keys@.len(),
            final(self).is_dirty,
    {
        let mut other = other;
        if self.is_internal() {
            self.keys.push(separator);
        } else {
            self.next_leaf = other.next_leaf;
        }
        self.keys.append(&mut other.keys);
        self.values.append(&mut other.values);
        self.child_ids.append(&mut other.child_ids);
        self.key_count = self.keys.len() as u32;
        self.is_dirty = true;
    }

    /// Move the last entry of the left sibling into this node, updating the
    /// separator between the two in the parent.
    pub fn borrow_from_left(&mut self, left_sibling: &mut UniversalNode<K, V>, parent_separator: &mut K)
        -> (r: Result<(), StorageError>)
        ensures
            r is Ok,
            final(self).is_dirty && final(left_sibling).is_dirty,
            final(self).key_count == final(self).keys@.len() as u32,
            final(left_sibling).key_count == final(left_sibling).keys@.len() as u32,
            final(self).node_type == old(self).node_type,
            final(left_sibling).node_type == old(left_sibling).node_type,
            final(self).next_leaf == old(self).next_leaf,
            final(left_sibling).next_leaf == old(left_sibling).next_leaf,
            // a leaf takes the left sibling's last key and value
            old(self).leaf() && old(left_sibling).keys@.len() > 0 && old(left_sibling).values@.len() > 0
                ==> {
                let lk = old(left_sibling).keys@.last();
                &&& final(left_sibling).keys@ == old(left_sibling).keys@.drop_last()
                &&& final(left_sibling).values@ == old(left_sibling).values@.drop_last()
                &&& final(self).keys@ == seq![lk].add(old(self).keys@)
                &&& final(self).values@ == seq![old(left_sibling).values@.last()].add(old(self).values@)
                &&& *final(parent_separator) == lk
                &&& final(self).child_ids@ == old(self).child_ids@
                &&& final(left_sibling).child_ids@ == old(left_sibling).child_ids@
            },
            // an internal node takes the parent separator and the left sibling's last child
            !old(self).leaf() && old(left_sibling).keys@.len() > 0 && old(left_sibling).child_ids@.len() > 0
                ==> {
                &&& final(left_sibling).keys@ == old(left_sibling).keys@.drop_last()
                &&& final(left_sibling).child_ids@ == old(left_sibling).child_ids@.drop_last()
                &&& final(self).keys@ == seq![*old(parent_separator)].add(old(self).keys@)
                &&& final(self).child_ids@ == seq![old(left_sibling).child_ids@.last()].add(
                    old(self).child_ids@,
                )
                &&& *final(parent_separator) == old(left_sibling).keys@.last()
                &&& final(self).values@ == old(self).values@
                &&& final(left_sibling).values@ == old(left_sibling).values@
            },
            // with nothing to take, only the key lists may lose the taken key
            old(left_sibling).keys@.len() == 0 ==> {
                &&& final(self).keys@ == old(self).keys@
                &&& final(self).values@ == old(self).values@
                &&& final(self).child_ids@ == old(self).child_ids@
                &&& final(left_sibling).keys@ == old(left_sibling).keys@
                &&& final(left_sibling).values@ == old(left_sibling).values@
                &&& final(left_sibling).child_ids@ == old(left_sibling).child_ids@
                &&& *final(parent_separator) == *old(parent_separator)
            },
            old(self).leaf() && old(left_sibling).keys@.len() > 0 && old(left_sibling).values@.len() == 0
                ==> {
                &&& final(left_sibling).keys@ == old(left_sibling).keys@.drop_last()
                &&& final(left_sibling).values@ == old(left_sibling).values@
                &&& final(self).keys@ == old(self).keys@
                &&& final(self).values@ == old(self).values@
                &&& final(self).child_ids@ == old(self).child_ids@
                &&& final(left_sibling).child_ids@ == old(left_sibling).child_ids@
                &&& *final(parent_separator) == *old(parent_separator)
            },
            !old(self).leaf() && old(left_sibling).keys@.len() > 0 && old(left_sibling).child_ids@.len() == 0
                ==> {
                &&& final(left_sibling).keys@ == old(left_sibling).keys@.drop_last()
                &&& final(left_sibling).child_ids@ == old(left_sibling).child_ids@
                &&& final(left_sibling).values@ == old(left_sibling).values@
                &&& final(self).keys@ == old(self).keys@
                &&& final(self).values@ == old(self).values@
                &&& final(self).child_ids@ == old(self).child_ids@
                &&& *final(parent_separator) == *old(parent_separator)
            },
    {
        if self.is_leaf() {
            if let Some(key) = left_sibling.keys.pop() {
                if let Some(value) = left_sibling.values.pop() {
                    self.keys.insert(0, key.copy_key());
                    self.values.insert(0, value);
                    *parent_separator = key;
                    proof {
                        assert(self.keys@ =~= seq![key].add(old(self).keys@));
                        assert(self.values@ =~= seq![value].add(old(self).values@));
                    }
                }
            }
        } else {
            if let Some(key) = left_sibling.keys.pop() {
                if let Some(child) = left_sibling.child_ids.pop() {
                    let sep = parent_separator.copy_key();
                    self.keys.insert(0, sep);
                    self.child_ids.insert(0, child);
                    *parent_separator = key;
                    proof {
                        assert(self.keys@ =~= seq![*old(parent_separator)].add(old(self).keys@));
                        assert(self.child_ids@ =~= seq![child].add(old(self).child_ids@));
                    }
                }
            }
        }
        left_sibling.key_count = left_sibling.keys.len() as u32;
        self.key_count = self.keys.len() as u32;
        left_sibling.is_dirty = true;
        self.is_dirty = true;
        Ok(())
    }

    /// Move the first entry of the right sibling into this node, updating the
    /// separator between the two in the parent.
    pub fn borrow_from_right(&mut self, right_sibling: &mut UniversalNode<K, V>, parent_separator: &mut K)
        -> (r: Result<(), StorageError>)
        requires
            old(self).leaf() && old(right_sibling).keys@.len() > 0 ==> old(right_sibling).values@.len() > 0,
            !old(self).leaf() && old(right_sibling).keys@.len() > 0 ==> old(right_sibling).child_ids@.len()
                > 0,
        ensures
            r is Ok,
            final(self).is_dirty && final(right_sibling).is_dirty,
            final(self).key_count == final(self).keys@.len() as u32,
            final(right_sibling).key_count == final(right_sibling).keys@.len() as u32,
            final(self).node_type == old(self).node_type,
            final(right_sibling).node_type == old(right_sibling).node_type,
            final(self).next_leaf == old(self).next_leaf,
            final(right_sibling).next_leaf == old(right_sibling).next_leaf,
            old(right_sibling).keys@.len() == 0 ==> {
                &&& final(self).keys@ == old(self).keys@
                &&& final(self).values@ == old(self).values@
                &&& final(self).child_ids@ == old(self).child_ids@
                &&& final(right_sibling).keys@ == old(right_sibling).keys@
                &&& final(right_sibling).values@ == old(right_sibling).values@
                &&& final(right_sibling).child_ids@ == old(right_sibling).child_ids@
                &&& *final(parent_separator) == *old(parent_separator)
            },
            // a leaf takes the right sibling's first key and value; the separator
            // becomes the right sibling's new first key, if it has one
            old(self).leaf() && old(right_sibling).keys@.len() > 0 ==> {
                &&& final(right_sibling).keys@ == old(right_sibling).keys@.drop_first()
                &&& final(right_sibling).values@ == old(right_sibling).values@.drop_first()
                &&& final(self).keys@ == old(self).keys@.push(old(right_sibling).keys@[0])
                &&& final(self).values@ == old(self).values@.push(old(right_sibling).values@[0])
                &&& *final(parent_separator) == (if old(right_sibling).keys@.len() > 1 {
                    old(right_sibling).keys@[1]
                } else {
                    *old(parent_separator)
                })
                &&& final(self).child_ids@ == old(self).child_ids@
                &&& final(right_sibling).child_ids@ == old(right_sibling).child_ids@
            },
            // an internal node takes the parent separator and the right sibling's first child
            !old(self).leaf() && old(right_sibling).keys@.len() > 0 ==> {
                &&& final(right_sibling).keys@ == old(right_sibling).keys@.drop_first()
                &&& final(right_sibling).child_ids@ == old(right_sibling).child_ids@.drop_first()
                &&& final(self).keys@ == old(self).keys@.push(*old(parent_separator))
                &&& final(self).child_ids@ == old(self).child_ids@.push(old(right_sibling).child_ids@[0])
                &&& *final(parent_separator) == old(right_sibling).keys@[0]
                &&& final(self).values@ == old(self).values@
                &&& final(right_sibling).values@ == old(right_sibling).values@
            },
    {
        if self.is_leaf() {
            if right_sibling.keys.len() != 0 {
                let key = right_sibling.keys.remove(0);
                let value = right_sibling.values.remove(0);
                self.keys.push(key);
                self.values.push(value);
                if right_sibling.keys.len() > 0 {
                    *parent_separator = right_sibling.keys[0].copy_key();
                }
                proof {
                    assert(right_sibling.keys@ =~= old(right_sibling).keys@.drop_first());
                    assert(right_sibling.values@ =~= old(right_sibling).values@.drop_first());
                }
            }
        } else {
            if right_sibling.keys.len() != 0 {
                let key = right_sibling.keys.remove(0);
                let child = right_sibling.child_ids.remove(0);
                let sep = parent_separator.copy_key();
                self.keys.push(sep);
                self.child_ids.push(child);
                *parent_separator = key;
                proof {
                    assert(right_sibling.keys@ =~= old(right_sibling).keys@.drop_first());
                    assert(right_sibling.child_ids@ =~= old(right_sibling).child_ids@.drop_first());
                }
            }
        }
        right_sibling.key_count = right_sibling.keys.len() as u32;
        self.key_count = self.keys.len() as u32;
        right_sibling.is_dirty = true;
        self.is_dirty = true;
        Ok(())
    }

    /// The smallest key of the node, if any.
    pub fn first_key(&self) -> (r: Option<&K>)
        ensures
            r == (if self.keys@.len() > 0 {
                Some(&self.keys@[0])
            } else {
                None::<&K>
            }),
    {
        if self.keys.len() > 0 {
            Some(&self.keys[0])
        } else {
            None
        }
    }

    /// The largest key of the node, if any.
    pub fn last_key(&self) -> (r: Option<&K>)
        ensures
            r == (if self.keys@.len() > 0 {
                Some(&self.keys@.last())
            } else {
                None::<&K>
            }),
    {
        if self.keys.len() > 0 {
            Some(&self.keys[self.keys.len() - 1])
        } else {
            None
        }
    }

    /// The fewest keys a node other than the root may hold, for nodes of at
    /// most `max_keys` keys.
    pub fn min_keys(&self, max_keys: usize) -> (r: usize)
        requires
            1 <= max_keys < usize::MAX,
        ensures
            r == (max_keys + 1) / 2 - 1,
    {
        (max_keys + 1) / 2 - 1
    }
}

impl<K: TreeKey, V> Default for UniversalNode<K, V> {
    fn default() -> (r: Self)
        ensures
            r.key_count == 0,
            r.keys@.len() == 0,
            r.child_ids@.len() == 0,
            r.values@.len() == 0,
            r.next_leaf is None,
            r.is_dirty,
            r.node_type == NodeType::Leaf,
    {
        Self::new_leaf()
    }
}

/// Inserting a key that is absent, at its lower bound, keeps keys sorted.
pub proof fn lemma_insert_sorted<K: TreeKey>(keys: Seq<K>, new_keys: Seq<K>, k: int, idx: int)
    requires
        sorted_keys(keys),
        !has_rank(keys, k),
        is_lower_bound(keys, k, idx),
        new_keys.len() == keys.len() + 1,
        new_keys[idx].rank() == k,
        forall|j: int| 0 <= j < idx ==> new_keys[j] == keys[j],
        forall|j: int| idx < j < new_keys.len() ==> new_keys[j] == keys[j - 1],
    ensures
        sorted_keys(new_keys),
{
    assert forall|i: int, j: int| 0 <= i < j < new_keys.len() implies #[trigger] new_keys[i].rank()
        < #[trigger] new_keys[j].rank() by {
        if j < idx {
            assert(new_keys[i] == keys[i] && new_keys[j] == keys[j]);
        } else if j == idx {
            assert(new_keys[i] == keys[i]);
        } else if i == idx {
            assert(new_keys[j] == keys[j - 1]);
            assert(keys[j - 1].rank() >= k);
            assert(keys[j - 1].rank() != k);
        } else if i < idx {
            assert(new_keys[i] == keys[i]);
            assert(new_keys[j] == keys[j - 1]);
            assert(keys[i].rank() < k);
            assert(keys[j - 1].rank() >= k);
        } else {
            assert(new_keys[i] == keys[i - 1]);
            assert(new_keys[j] == keys[j - 1]);
        }
    }
}

} // verus!
