//! The B+ tree: nodes kept in numbered blocks, the root always in block 1.
use vstd::prelude::*;

use crate::key::TreeKey;
use crate::model::{
    child_hi, child_lo, entries, entries_of, in_bounds, lemma_frame_node, lemma_leaf_map, lemma_node2_facts,
    lemma_route, leaf_map, leaf_map_prefix, entries_kids, reach_kids, node_at, node_local_ok, node_ok, node_ok2, present, reach, reach_of, wf_node,
    Store,
};
use crate::model_update::{
    fresh, lemma_child_replaced, lemma_child_split, lemma_internal, lemma_leaf_insert, lemma_leaf_replace,
    lemma_grow_root, lemma_lower_bound_unique, lemma_sep_position, lemma_split_internal, lemma_split_leaf, lemma_wf_facts,
};
use crate::error::{BPTreeError, DeleteResult};
use crate::range::{
    below_range, in_key_range, is_above_start, is_below_end, lemma_listing_agree, lemma_listing_concat, lemma_listing_empty,
    lemma_listing_push, lemma_listing_skip, range_first, range_listing, above_start, KeyBound,
};
use crate::node::{has_rank, is_lower_bound, is_upper_bound, UniversalNode};
use crate::model_check::{
    collected, collected_kids, lemma_child_check_needed, lemma_child_check_step, lemma_collected, lemma_kids_count_bound,
    marked, opt_rank, subtree_checks,
};
use crate::ser::BlockSerializer;
use crate::storage::{BlockId, StorageError};
use crate::model_fill::{filled, filled_of, kid_filled, lemma_filled_frame, lemma_filled_kids, lemma_other_kids_filled, min_fill};
use crate::touch::{keeps_touch, lemma_touch_grow, lemma_touch_record, lemma_touch_refl, lemma_touch_trans, lemma_touch_write, touch_ok};

verus! {

/// The block that holds the root node (and, on disk, the tree's metadata).
pub const ROOT_ID: BlockId = 1;

/// The format version of the tree metadata that this library writes and reads.
pub const METADATA_V1: u8 = 1;

/// Tree metadata, stored at the start of the root block.
pub struct BPTreeMetadata {
    pub version: u8,
    pub block_size: usize,
    pub max_keys_per_node: usize,
    pub entry_count: u64,
    pub root_exists: bool,
}

/// Persistent B+ tree: the nodes, by block number, with the allocation state
/// of the blocks and the tree's metadata.
pub struct BPTree<K, V> {
    /// Block contents by block number; `None` for a block without a node.
    pub(crate) nodes: Vec<Option<UniversalNode<K, V>>>,
    /// Freed blocks, reused last-freed first.
    pub(crate) free_blocks: Vec<BlockId>,
    pub(crate) root_exists: bool,
    pub(crate) max_keys_per_node: usize,
    pub(crate) entry_count: u64,
    pub(crate) block_size: usize,
    /// Blocks written or emptied since the caller last collected them.
    pub(crate) touched: Vec<BlockId>,
}

impl<K: TreeKey, V> View for BPTree<K, V> {
    type V = Map<int, V>;

    /// The tree's entries, by key rank.
    closed spec fn view(&self) -> Map<int, V> {
        if self.root_exists {
            entries(self.nodes@, ROOT_ID, self.tree_height())
        } else {
            Map::empty()
        }
    }
}

/// The free list holds distinct blocks that hold no node, other than the
/// reserved blocks 0 and 1.
pub open spec fn free_list_ok<K, V>(s: Store<K, V>, free: Seq<BlockId>) -> bool {
    &&& free.no_duplicates()
    &&& forall|j: int| 0 <= j < free.len() ==> 2 <= #[trigger] free[j] < s.len() && s[free[j] as int] is None
}

/// The allocation state of the blocks is consistent: blocks 0 and 1 exist,
/// block 0 holds no node, the free list is sound and the node capacity is
/// between 2 and the largest count a node records.
pub open spec fn alloc_ok<K, V>(s: Store<K, V>, free: Seq<BlockId>, max_keys: usize) -> bool {
    &&& s.len() >= 2
    &&& s[0] is None
    &&& free_list_ok(s, free)
    &&& 2 <= max_keys < u32::MAX
}

impl<K: TreeKey, V> BPTree<K, V> {
    /// `self` and `other` agree on all but the blocks and the free list.
    pub closed spec fn same_meta(&self, other: &Self) -> bool {
        &&& self.root_exists == other.root_exists
        &&& self.max_keys_per_node == other.max_keys_per_node
        &&& self.entry_count == other.entry_count
        &&& self.block_size == other.block_size
    }

    /// The block contents.
    pub closed spec fn store(&self) -> Store<K, V> {
        self.nodes@
    }

    /// The freed blocks.
    pub closed spec fn free_list(&self) -> Seq<BlockId> {
        self.free_blocks@
    }

    /// Whether block 1 holds a root node.
    pub closed spec fn has_root(&self) -> bool {
        self.root_exists
    }

    /// The most keys a node may hold.
    pub closed spec fn capacity(&self) -> int {
        self.max_keys_per_node as int
    }

    /// The block size the tree was made for.
    pub closed spec fn spec_block_size(&self) -> int {
        self.block_size as int
    }

    /// The number of entries the tree's metadata records.
    pub closed spec fn recorded_len(&self) -> int {
        self.entry_count as int
    }

    /// The blocks written or emptied since they were last collected.
    pub closed spec fn touched_list(&self) -> Seq<BlockId> {
        self.touched@
    }

    /// The tree is balanced as a B+ tree is: all leaves at one depth (the
    /// tree's invariant), every node below the root at least half full, and
    /// a root that holds a key when it is internal, and also when it is a
    /// leaf of nodes that hold at least three keys.
    pub open spec fn balanced(&self) -> bool {
        &&& self.has_root() ==> filled(self.store(), ROOT_ID, self.tree_height(), min_fill(self.capacity()))
        &&& self.root_collapsed()
        &&& self.has_root() && min_fill(self.capacity()) >= 1 ==> node_at(self.store(), ROOT_ID).keys@.len() > 0
    }

    /// A root that is an internal node holds at least one key: an internal
    /// root left without keys has been replaced by its only child.
    pub open spec fn root_collapsed(&self) -> bool {
        self.has_root() && !node_at(self.store(), ROOT_ID).leaf() ==> node_at(self.store(), ROOT_ID).keys@.len() > 0
    }

    /// The height of the tree at block 1 (a leaf root has height 0).
    pub closed spec fn tree_height(&self) -> nat {
        choose|h: nat| wf_node(self.nodes@, ROOT_ID, h, None, None, self.max_keys_per_node as nat)
    }

    /// The tree's invariant: a well-formed tree, whose nodes below the root
    /// are at least half full, with a settled root: an internal root holds a
    /// key, and with nodes of at least three keys so does a leaf root.
    pub closed spec fn wf(&self) -> bool {
        &&& self.wf_loose()
        &&& self.root_exists && !node_at(self.nodes@, ROOT_ID).leaf() ==> node_at(self.nodes@, ROOT_ID).keys@.len() > 0
        &&& self.root_exists && min_fill(self.max_keys_per_node as int) >= 1 ==> node_at(
            self.nodes@,
            ROOT_ID,
        ).keys@.len() > 0
    }

    /// The tree's invariant but for its root: a well-formed tree of some
    /// height at block 1 when the root exists, with its nodes below the root
    /// at least half full, a consistent free list, and the entry count.
    pub closed spec fn wf_loose(&self) -> bool {
        &&& self.nodes@.len() >= 2
        &&& self.nodes@[0] is None
        &&& 2 <= self.max_keys_per_node < u32::MAX
        &&& free_list_ok(self.nodes@, self.free_blocks@)
        &&& self.root_exists ==> wf_node(
            self.nodes@,
            ROOT_ID,
            self.tree_height(),
            None,
            None,
            self.max_keys_per_node as nat,
        )
        &&& !self.root_exists ==> self.nodes@[ROOT_ID as int] is None
        &&& self@.dom().finite()
        &&& self.entry_count == self@.len()
        &&& self.root_exists ==> filled(self.nodes@, ROOT_ID, self.tree_height(), min_fill(self.max_keys_per_node as int))
    }

    /// The node capacity that a tree on blocks of `block_size` bytes uses.
    pub open spec fn spec_max_keys(block_size: usize) -> int {
        let overhead = 132 + size_of::<BPTreeMetadata>();
        let pair = size_of::<K>() + size_of::<V>() + 20;
        let q = (block_size - overhead) / pair;
        if q < 2 {
            2
        } else {
            q
        }
    }

    /// Number of keys per node that fit in a block, at least 2.
    pub fn estimate_max_keys(block_size: usize) -> (r: usize)
        requires
            block_size >= 132 + size_of::<BPTreeMetadata>(),
            size_of::<K>() + size_of::<V>() + 20 <= usize::MAX,
        ensures
            r == Self::spec_max_keys(block_size),
    {
        let metadata_size = core::mem::size_of::<BPTreeMetadata>() + 32;
        let overhead = 100 + metadata_size;
        let pair_size = core::mem::size_of::<K>() + core::mem::size_of::<V>() + 20;
        let q = (block_size - overhead) / pair_size;
        if q < 2 {
            2
        } else {
            q
        }
    }

    /// An empty tree on blocks of `block_size` bytes: no root, no entries,
    /// no block in use.
    pub fn new(block_size: usize) -> (r: Self)
        requires
            block_size >= 132 + size_of::<BPTreeMetadata>(),
            size_of::<K>() + size_of::<V>() + 20 <= usize::MAX,
            Self::spec_max_keys(block_size) < u32::MAX,
        ensures
            r.balanced(),
            r.root_collapsed(),
            r.wf(),
            r@ == Map::<int, V>::empty(),
            !r.has_root(),
            r.capacity() == Self::spec_max_keys(block_size),
            r.spec_block_size() == block_size,
    {
        let max_keys_per_node = Self::estimate_max_keys(block_size);
        let mut nodes: Vec<Option<UniversalNode<K, V>>> = Vec::new();
        nodes.push(None);
        nodes.push(None);
        let r = BPTree {
            nodes,
            free_blocks: Vec::new(),
            root_exists: false,
            max_keys_per_node,
            entry_count: 0,
            block_size,
            touched: Vec::new(),
        };
        proof {
            assert(r@ =~= Map::<int, V>::empty());
        }
        r
    }

    /// An empty tree on blocks of `block_size` bytes, made as `new` makes
    /// it, when a block can hold the tree's overhead and a node's capacity
    /// can be counted; `None` otherwise.
    pub fn try_new(block_size: usize) -> (r: Option<Self>)
        ensures
            r is Some <==> block_size >= 132 + size_of::<BPTreeMetadata>() && size_of::<K>() + size_of::<V>() + 20
                <= usize::MAX && Self::spec_max_keys(block_size) < u32::MAX,
            r matches Some(t) ==> {
                &&& t.wf()
                &&& t@ == Map::<int, V>::empty()
                &&& !t.has_root()
                &&& t.root_collapsed()
                &&& t.balanced()
                &&& t.capacity() == Self::spec_max_keys(block_size)
                &&& t.spec_block_size() == block_size
            },
    {
        let meta = core::mem::size_of::<BPTreeMetadata>();
        if meta > usize::MAX - 132 || block_size < 132 + meta {
            return None;
        }
        let ks = core::mem::size_of::<K>();
        let vs = core::mem::size_of::<V>();
        if ks > usize::MAX - 20 || vs > usize::MAX - 20 - ks {
            return None;
        }
        if Self::estimate_max_keys(block_size) >= 0xffff_ffffusize {
            return None;
        }
        Some(Self::new(block_size))
    }

    /// Number of entries in the tree, as its metadata records it; in a sound
    /// tree, the number of entries.
    pub fn len(&self) -> (r: u64)
        ensures
            r == self.recorded_len(),
            self.wf() ==> self@.dom().finite() && r == self@.len(),
    {
        self.entry_count
    }

    /// Whether the tree's metadata records no entry; in a sound tree,
    /// whether the tree holds no entry.
    pub fn is_empty(&self) -> (r: bool)
        ensures
            r == (self.recorded_len() == 0),
            self.wf() ==> self@.dom().finite() && (r <==> self@ == Map::<int, V>::empty()),
    {
        proof {
            if self.wf() && self@.len() == 0 {
                self@.dom().lemma_len0_is_empty();
                assert(self@ =~= Map::<int, V>::empty());
            }
        }
        self.entry_count == 0
    }

    /// Whether the root node exists.
    pub fn root_exists(&self) -> (r: bool)
        ensures
            r == self.has_root(),
    {
        self.root_exists
    }

    /// The node in block `id`.
    fn node_ref(&self, id: BlockId) -> (r: &UniversalNode<K, V>)
        requires
            present(self.nodes@, id),
        ensures
            *r == node_at(self.nodes@, id),
    {
        assert(self.nodes@.len() == self.nodes.len());
        let i = id as usize;
        assert(i as int == id as int);
        self.nodes[i].as_ref().unwrap()
    }

    /// Get the value of a key.
    pub fn get(&self, key: &K) -> (r: Option<V>) where V: Clone
        requires
            self.wf(),
        ensures
            r matches Some(v) ==> self@.contains_key(key.rank()) && cloned::<V>(self@[key.rank()], v),
            r is None ==> !self@.contains_key(key.rank()),
    {
        if !self.root_exists {
            return None;
        }
        match self.get_recursive(ROOT_ID, key, Ghost(self.tree_height()), Ghost(None), Ghost(None)) {
            Some(v) => Some(v.clone()),
            None => None,
        }
    }

    /// The value of `key` in the subtree at `node_id`.
    fn get_recursive(
        &self,
        node_id: BlockId,
        key: &K,
        Ghost(h): Ghost<nat>,
        Ghost(lo): Ghost<Option<int>>,
        Ghost(hi): Ghost<Option<int>>,
    ) -> (r: Option<&V>)
        requires
            wf_node(self.nodes@, node_id, h, lo, hi, self.max_keys_per_node as nat),
            in_bounds(key.rank(), lo, hi),
        ensures
            r matches Some(v) ==> entries(self.nodes@, node_id, h).contains_key(key.rank()) && *v
                == entries(self.nodes@, node_id, h)[key.rank()],
            r is None ==> !entries(self.nodes@, node_id, h).contains_key(key.rank()),
        decreases h,
    {
        let ghost s = self.nodes@;
        let ghost m = self.max_keys_per_node as nat;
        let node = self.node_ref(node_id);
        proof {
            assert(node_ok(s, *node, h, lo, hi, m));
            assert(node_local_ok(*node, h, lo, hi, m));
        }
        if node.is_leaf() {
            proof {
                lemma_leaf_map(node.keys@, node.values@, node.keys@.len());
                assert(entries(s, node_id, h) == leaf_map(node.keys@, node.values@));
            }
            node.get(key)
        } else {
            let idx = node.child_index(key);
            let child = node.child_ids[idx];
            proof {
                let hc = (h - 1) as nat;
                assert(hc + 1 == h);
                lemma_route(s, *node, hc, lo, hi, m, m, key.rank(), idx as int);
                assert(entries(s, node_id, h) == entries_of(s, *node, h));
            }
            self.get_recursive(
                child,
                key,
                Ghost((h - 1) as nat),
                Ghost(child_lo(*node, lo, idx as int)),
                Ghost(child_hi(*node, hi, idx as int)),
            )
        }
    }

    /// A block for a new node: the last freed block if there is one, else a
    /// block past all others.
    fn allocate_node(&mut self) -> (r: BlockId)
        requires
            alloc_ok(old(self).nodes@, old(self).free_blocks@, old(self).max_keys_per_node),
        ensures
            alloc_ok(final(self).nodes@, final(self).free_blocks@, final(self).max_keys_per_node),
            final(self).same_meta(old(self)),
            old(self).free_blocks@.contains(r) || r == old(self).nodes@.len(),
            r >= 2,
            r < final(self).nodes@.len(),
            final(self).nodes@[r as int] is None,
            !final(self).free_blocks@.contains(r),
            forall|x: BlockId| final(self).free_blocks@.contains(x) ==> old(self).free_blocks@.contains(x),
            final(self).nodes@.len() >= old(self).nodes@.len(),
            forall|x: int| 0 <= x < old(self).nodes@.len() ==> #[trigger] final(self).nodes@[x] == old(self).nodes@[x],
            forall|x: int| old(self).nodes@.len() <= x < final(self).nodes@.len() ==> #[trigger] final(self).nodes@[x] is None,
            keeps_touch(old(self).nodes@, old(self).touched@, final(self).nodes@, final(self).touched@),
    {
        proof {
            assert forall|s: Store<K, V>, t: Seq<BlockId>| touch_ok(s, t, self.nodes@, self.touched@) implies touch_ok(
                s,
                t,
                self.nodes@.push(None),
                self.touched@,
            ) by {
                lemma_touch_grow(s, t, self.nodes@, self.touched@);
            }
        }
        match self.free_blocks.pop() {
            Some(id) => {
                proof {
                    assert(old(self).free_blocks@[old(self).free_blocks@.len() - 1] == id);
                    assert(self.free_blocks@ =~= old(self).free_blocks@.drop_last());
                    assert forall|j: int| 0 <= j < self.free_blocks@.len() implies self.free_blocks@[j] != id by {
                        assert(old(self).free_blocks@[j] == self.free_blocks@[j]);
                    }
                    assert forall|x: BlockId| self.free_blocks@.contains(x) implies old(self).free_blocks@.contains(x) by {
                        let j = choose|j: int| 0 <= j < self.free_blocks@.len() && self.free_blocks@[j] == x;
                        assert(old(self).free_blocks@[j] == x);
                    }
                }
                id
            },
            None => {
                let id = self.nodes.len() as u64;
                self.nodes.push(None);
                proof {
                    assert forall|j: int| 0 <= j < self.free_blocks@.len() implies 2 <= #[trigger] self.free_blocks@[j]
                        < self.nodes@.len() && self.nodes@[self.free_blocks@[j] as int] is None by {}
                }
                id
            },
        }
    }

    /// Take the node out of block `id`, leaving the block empty.
    fn take_node(&mut self, id: BlockId) -> (r: UniversalNode<K, V>)
        requires
            present(old(self).nodes@, id),
        ensures
            r == node_at(old(self).nodes@, id),
            final(self).nodes@ == old(self).nodes@.update(id as int, None),
            final(self).same_meta(old(self)),
            final(self).free_blocks == old(self).free_blocks,
            alloc_ok(old(self).nodes@, old(self).free_blocks@, old(self).max_keys_per_node) ==> alloc_ok(
                final(self).nodes@,
                final(self).free_blocks@,
                final(self).max_keys_per_node,
            ),
            final(self).touched@ == old(self).touched@.push(id),
            keeps_touch(old(self).nodes@, old(self).touched@, final(self).nodes@, final(self).touched@),
    {
        assert(self.nodes@.len() == self.nodes.len());
        let i = id as usize;
        let mut tmp: Option<UniversalNode<K, V>> = None;
        std::mem::swap(&mut self.nodes[i], &mut tmp);
        self.touched.push(id);
        proof {
            assert forall|s: Store<K, V>, t: Seq<BlockId>| touch_ok(s, t, old(self).nodes@, old(self).touched@) implies touch_ok(
                s,
                t,
                self.nodes@,
                self.touched@,
            ) by {
                lemma_touch_write(s, t, old(self).nodes@, old(self).touched@, id, None);
            }
        }
        proof {
            if alloc_ok(old(self).nodes@, old(self).free_blocks@, old(self).max_keys_per_node) {
                assert forall|j: int| 0 <= j < self.free_blocks@.len() implies 2 <= #[trigger] self.free_blocks@[j]
                    < self.nodes@.len() && self.nodes@[self.free_blocks@[j] as int] is None by {
                    assert(old(self).nodes@[self.free_blocks@[j] as int] is None);
                }
            }
        }
        tmp.unwrap()
    }

    /// Return block `id`, which holds no node, to the free list.
    fn free_block(&mut self, id: BlockId)
        requires
            alloc_ok(old(self).nodes@, old(self).free_blocks@, old(self).max_keys_per_node),
            2 <= id < old(self).nodes@.len(),
            old(self).nodes@[id as int] is None,
            !old(self).free_blocks@.contains(id),
        ensures
            alloc_ok(final(self).nodes@, final(self).free_blocks@, final(self).max_keys_per_node),
            final(self).nodes@ == old(self).nodes@,
            final(self).free_blocks@ == old(self).free_blocks@.push(id),
            final(self).same_meta(old(self)),
            keeps_touch(old(self).nodes@, old(self).touched@, final(self).nodes@, final(self).touched@),
    {
        self.free_blocks.push(id);
        self.touched.push(id);
        proof {
            assert forall|s: Store<K, V>, t: Seq<BlockId>| touch_ok(s, t, old(self).nodes@, old(self).touched@) implies touch_ok(
                s,
                t,
                self.nodes@,
                self.touched@,
            ) by {
                lemma_touch_record(s, t, old(self).nodes@, old(self).touched@, id);
            }
            assert forall|a: int, b: int| 0 <= a < b < self.free_blocks@.len() implies self.free_blocks@[a]
                != self.free_blocks@[b] by {
                if b == self.free_blocks@.len() - 1 {
                    assert(old(self).free_blocks@.contains(self.free_blocks@[a]));
                }
            }
            assert forall|j: int| 0 <= j < self.free_blocks@.len() implies 2 <= #[trigger] self.free_blocks@[j]
                < self.nodes@.len() && self.nodes@[self.free_blocks@[j] as int] is None by {
                if j < old(self).free_blocks@.len() {
                    assert(old(self).free_blocks@[j] == self.free_blocks@[j]);
                }
            }
        }
    }

    /// Put node `n` into block `id`.
    fn put_node(&mut self, id: BlockId, n: UniversalNode<K, V>)
        requires
            id < old(self).nodes@.len(),
        ensures
            alloc_ok(old(self).nodes@, old(self).free_blocks@, old(self).max_keys_per_node) && id != 0
                && !old(self).free_blocks@.contains(id) ==> alloc_ok(
                final(self).nodes@,
                final(self).free_blocks@,
                final(self).max_keys_per_node,
            ),
            final(self).nodes@ == old(self).nodes@.update(id as int, Some(n)),
            final(self).same_meta(old(self)),
            final(self).free_blocks == old(self).free_blocks,
            keeps_touch(old(self).nodes@, old(self).touched@, final(self).nodes@, final(self).touched@),
    {
        assert(self.nodes@.len() == self.nodes.len());
        let i = id as usize;
        let ghost n_copy = n;
        self.nodes.set(i, Some(n));
        self.touched.push(id);
        proof {
            assert forall|s: Store<K, V>, t: Seq<BlockId>| touch_ok(s, t, old(self).nodes@, old(self).touched@) implies touch_ok(
                s,
                t,
                self.nodes@,
                self.touched@,
            ) by {
                lemma_touch_write(s, t, old(self).nodes@, old(self).touched@, id, Some(n_copy));
            }
            if alloc_ok(old(self).nodes@, old(self).free_blocks@, old(self).max_keys_per_node) && id != 0
                && !old(self).free_blocks@.contains(id) {
                assert forall|j: int| 0 <= j < self.free_blocks@.len() implies 2 <= #[trigger] self.free_blocks@[j]
                    < self.nodes@.len() && self.nodes@[self.free_blocks@[j] as int] is None by {
                    assert(self.free_blocks@.contains(self.free_blocks@[j]));
                }
            }
        }
    }
}


/// The insertion into the subtree at `node_id` changed only its blocks and
/// blocks that held no node, and did not shrink the store.
pub open spec fn insert_frame<K: TreeKey, V>(s0: Store<K, V>, s1: Store<K, V>, node_id: u64, h: nat) -> bool {
    &&& s1.len() >= s0.len()
    &&& forall|x: u64|
        present(s0, x) && !reach(s0, node_id, h).contains(x) ==> x < s1.len() && s1[x as int]
            == #[trigger] s0[x as int]
}

/// After an insertion into the subtree at `node_id` of key range `lo`..`hi`
/// that should hold entries `e`: without a split, the subtree is well formed
/// and holds `e`; with a split at `sep` into a new block `rid`, the two
/// subtrees are well formed on either side of `sep` and together hold `e`.
/// Either way, they occupy only the subtree's former blocks and blocks that
/// held no node.
pub open spec fn insert_result<K: TreeKey, V>(
    s0: Store<K, V>,
    s1: Store<K, V>,
    node_id: u64,
    h: nat,
    lo: Option<int>,
    hi: Option<int>,
    m: nat,
    e: Map<int, V>,
    split: Option<(K, u64)>,
) -> bool {
    match split {
        None => {
            &&& wf_node(s1, node_id, h, lo, hi, m)
            &&& entries(s1, node_id, h) == e
            &&& forall|x: u64| #[trigger] reach(s1, node_id, h).contains(x) ==> reach(s0, node_id, h).contains(x)
                || fresh(s0, x)
        },
        Some((sep, rid)) => {
            &&& wf_node(s1, node_id, h, lo, Some(sep.rank()), m)
            &&& wf_node(s1, rid, h, Some(sep.rank()), hi, m)
            &&& reach(s1, node_id, h).disjoint(reach(s1, rid, h))
            &&& entries(s1, node_id, h).union_prefer_right(entries(s1, rid, h)) == e
            &&& (lo matches Some(l) ==> l < sep.rank())
            &&& in_bounds(sep.rank(), lo, hi)
            &&& forall|x: u64| #[trigger] reach(s1, node_id, h).contains(x) ==> reach(s0, node_id, h).contains(x)
                || fresh(s0, x)
            &&& forall|x: u64| #[trigger] reach(s1, rid, h).contains(x) ==> reach(s0, node_id, h).contains(x)
                || fresh(s0, x)
        },
    }
}

/// The value a map holds for `k`, if any.
pub open spec fn map_get<V>(e: Map<int, V>, k: int) -> Option<V> {
    if e.contains_key(k) {
        Some(e[k])
    } else {
        None
    }
}

/// The keys of node value `n` are sorted.
pub open spec fn sorted_keys_of<K: TreeKey, V>(n: UniversalNode<K, V>) -> bool {
    crate::node::sorted_keys(n.keys@)
}

impl<K: TreeKey, V> BPTree<K, V> {
    /// Insert `key` with `value` into the subtree at `node_id` of height `h`
    /// and key range `lo`..`hi`. Returns the key's previous value, and, when
    /// the subtree's top node split, the separator and block of the new right
    /// half.
    fn insert_recursive(
        &mut self,
        node_id: BlockId,
        key: K,
        value: V,
        Ghost(h): Ghost<nat>,
        Ghost(lo): Ghost<Option<int>>,
        Ghost(hi): Ghost<Option<int>>,
    ) -> (r: (Option<V>, Option<(K, BlockId)>))
        requires
            alloc_ok(old(self).nodes@, old(self).free_blocks@, old(self).max_keys_per_node),
            wf_node(old(self).nodes@, node_id, h, lo, hi, old(self).max_keys_per_node as nat),
            in_bounds(key.rank(), lo, hi),
            filled(old(self).nodes@, node_id, h, min_fill(old(self).max_keys_per_node as int)),
        ensures
            r.1 is None ==> filled(final(self).nodes@, node_id, h, min_fill(old(self).max_keys_per_node as int)),
            r.1 matches Some((_, rid)) ==> kid_filled(final(self).nodes@, node_id, h, min_fill(old(self).max_keys_per_node as int))
                && kid_filled(final(self).nodes@, rid, h, min_fill(old(self).max_keys_per_node as int)),
            r.1 is None ==> node_at(final(self).nodes@, node_id).keys@.len() >= node_at(old(self).nodes@, node_id).keys@.len(),
            keeps_touch(old(self).nodes@, old(self).touched@, final(self).nodes@, final(self).touched@),
            alloc_ok(final(self).nodes@, final(self).free_blocks@, final(self).max_keys_per_node),
            final(self).same_meta(old(self)),
            insert_frame(old(self).nodes@, final(self).nodes@, node_id, h),
            r.0 == map_get(entries(old(self).nodes@, node_id, h), key.rank()),
            insert_result(
                old(self).nodes@,
                final(self).nodes@,
                node_id,
                h,
                lo,
                hi,
                old(self).max_keys_per_node as nat,
                entries(old(self).nodes@, node_id, h).insert(key.rank(), value),
                r.1,
            ),
        decreases h, 1nat,
    {
        proof {
            assert(node_ok(self.nodes@, node_at(self.nodes@, node_id), h, lo, hi, self.max_keys_per_node as nat));
        }
        if self.node_ref(node_id).is_leaf() {
            self.insert_into_leaf(node_id, key, value, Ghost(lo), Ghost(hi))
        } else {
            self.insert_into_internal(node_id, key, value, Ghost(h), Ghost(lo), Ghost(hi))
        }
    }

    /// `insert_recursive` at a leaf.
    fn insert_into_leaf(
        &mut self,
        node_id: BlockId,
        key: K,
        value: V,
        Ghost(lo): Ghost<Option<int>>,
        Ghost(hi): Ghost<Option<int>>,
    ) -> (r: (Option<V>, Option<(K, BlockId)>))
        requires
            alloc_ok(old(self).nodes@, old(self).free_blocks@, old(self).max_keys_per_node),
            wf_node(old(self).nodes@, node_id, 0, lo, hi, old(self).max_keys_per_node as nat),
            in_bounds(key.rank(), lo, hi),
            filled(old(self).nodes@, node_id, 0, min_fill(old(self).max_keys_per_node as int)),
        ensures
            r.1 is None ==> filled(final(self).nodes@, node_id, 0, min_fill(old(self).max_keys_per_node as int)),
            r.1 matches Some((_, rid)) ==> kid_filled(final(self).nodes@, node_id, 0, min_fill(old(self).max_keys_per_node as int))
                && kid_filled(final(self).nodes@, rid, 0, min_fill(old(self).max_keys_per_node as int)),
            r.1 is None ==> node_at(final(self).nodes@, node_id).keys@.len() >= node_at(old(self).nodes@, node_id).keys@.len(),
            keeps_touch(old(self).nodes@, old(self).touched@, final(self).nodes@, final(self).touched@),
            alloc_ok(final(self).nodes@, final(self).free_blocks@, final(self).max_keys_per_node),
            final(self).same_meta(old(self)),
            insert_frame(old(self).nodes@, final(self).nodes@, node_id, 0),
            r.0 == map_get(entries(old(self).nodes@, node_id, 0), key.rank()),
            insert_result(
                old(self).nodes@,
                final(self).nodes@,
                node_id,
                0,
                lo,
                hi,
                old(self).max_keys_per_node as nat,
                entries(old(self).nodes@, node_id, 0).insert(key.rank(), value),
                r.1,
            ),
    {
        let ghost s0 = self.nodes@;
        let ghost m = self.max_keys_per_node as nat;
        let ghost k = key.rank();
        let ghost n0 = node_at(s0, node_id);
        proof {
            assert(node_ok(s0, n0, 0, lo, hi, m));
            assert(node_local_ok(n0, 0, lo, hi, m));
            lemma_wf_facts(s0, node_id, 0, lo, hi, m);
            lemma_leaf_map(n0.keys@, n0.values@, n0.keys@.len());
            assert(entries(s0, node_id, 0) == leaf_map(n0.keys@, n0.values@));
        }
        let mut node = self.take_node(node_id);
        proof {
            lemma_not_free(s0, self.free_blocks@, node_id);
        }
        let idx = node.find_key_index(&key);
        let old_value;
        if idx < node.keys.len() && node.keys[idx].key_equal(&key) {
            let mut v = value;
            std::mem::swap(&mut node.values[idx], &mut v);
            node.is_dirty = true;
            proof {
                assert(node.values@ == n0.values@.update(idx as int, value));
                lemma_leaf_replace(n0.keys@, n0.values@, idx as int, value);
                assert(v == n0.values@[idx as int]);
            }
            old_value = Some(v);
        } else {
            proof {
                assert(!has_rank(n0.keys@, k)) by {
                    if has_rank(n0.keys@, k) {
                        let j = choose|j: int| 0 <= j < n0.keys@.len() && #[trigger] n0.keys@[j].rank() == k;
                        if j > idx {
                            assert(n0.keys@[idx as int].rank() < n0.keys@[j].rank());
                        }
                    }
                }
            }
            let ghost key_copy = key;
            let _ = node.insert_leaf(key, value);
            proof {
                let idx2 = choose|idx2: int|
                    {
                        &&& 0 <= idx2 <= n0.keys@.len()
                        &&& node.keys@ == n0.keys@.insert(idx2, key_copy)
                        &&& node.values@ == n0.values@.insert(idx2, value)
                        &&& (sorted_keys_of(n0) ==> is_lower_bound(n0.keys@, k, idx2))
                    };
                lemma_leaf_insert(n0.keys@, n0.values@, idx2, key_copy, value);
            }
            old_value = None;
        }
        proof {
            assert forall|j: int| 0 <= j < node.keys@.len() implies in_bounds(
                #[trigger] node.keys@[j].rank(),
                lo,
                hi,
            ) by {
                if !has_rank(n0.keys@, node.keys@[j].rank()) {
                    assert(node.keys@[j].rank() == k) by {
                        if node.keys@[j].rank() != k {
                            assert(leaf_map(node.keys@, node.values@).contains_key(node.keys@[j].rank())) by {
                                lemma_leaf_map(node.keys@, node.values@, node.keys@.len());
                            }
                        }
                    }
                } else {
                    let t = choose|t: int| 0 <= t < n0.keys@.len() && #[trigger] n0.keys@[t].rank() == node.keys@[j].rank();
                }
            }
            assert(node_local_ok(node, 0, lo, hi, m + 1));
        }
        if node.keys.len() > self.max_keys_per_node {
            let ghost full = node;
            let (split_key, right_node) = match node.split() {
                Ok(pair) => pair,
                Err(_) => {
                    proof {
                        assert(false);
                    }
                    return (old_value, None);
                },
            };
            let right_id = self.allocate_node();
            node.next_leaf = Some(right_id);
            proof {
                lemma_split_leaf(s0, full, node, right_node, split_key, lo, hi, m);
            }
            self.put_node(right_id, right_node);
            self.put_node(node_id, node);
            proof {
                let s1 = self.nodes@;
                assert(node_at(s1, node_id) == node);
                assert(node_at(s1, right_id) == right_node);
                assert(reach(s1, node_id, 0) =~= set![node_id]);
                assert(reach(s1, right_id, 0) =~= set![right_id]);
                assert(entries(s1, node_id, 0) == leaf_map(node.keys@, node.values@));
                assert(entries(s1, right_id, 0) == leaf_map(right_node.keys@, right_node.values@));
                assert(node_ok(s1, node, 0, lo, Some(split_key.rank()), m));
                assert(node_ok(s1, right_node, 0, Some(split_key.rank()), hi, m));
            }
            (old_value, Some((split_key, right_id)))
        } else {
            self.put_node(node_id, node);
            proof {
                let s1 = self.nodes@;
                assert(node_at(s1, node_id) == node);
                assert(reach(s1, node_id, 0) =~= set![node_id]);
                assert(entries(s1, node_id, 0) == leaf_map(node.keys@, node.values@));
                assert(node_ok(s1, node, 0, lo, hi, m));
            }
            (old_value, None)
        }
    }
}


impl<K: TreeKey, V> BPTree<K, V> {
    /// `insert_recursive` at an internal node: insert into the child whose
    /// range holds the key, then take in the child's split, if any.
    fn insert_into_internal(
        &mut self,
        node_id: BlockId,
        key: K,
        value: V,
        Ghost(h): Ghost<nat>,
        Ghost(lo): Ghost<Option<int>>,
        Ghost(hi): Ghost<Option<int>>,
    ) -> (r: (Option<V>, Option<(K, BlockId)>))
        requires
            alloc_ok(old(self).nodes@, old(self).free_blocks@, old(self).max_keys_per_node),
            wf_node(old(self).nodes@, node_id, h, lo, hi, old(self).max_keys_per_node as nat),
            !node_at(old(self).nodes@, node_id).leaf(),
            in_bounds(key.rank(), lo, hi),
            filled(old(self).nodes@, node_id, h, min_fill(old(self).max_keys_per_node as int)),
        ensures
            r.1 is None ==> filled(final(self).nodes@, node_id, h, min_fill(old(self).max_keys_per_node as int)),
            r.1 matches Some((_, rid)) ==> kid_filled(final(self).nodes@, node_id, h, min_fill(old(self).max_keys_per_node as int))
                && kid_filled(final(self).nodes@, rid, h, min_fill(old(self).max_keys_per_node as int)),
            r.1 is None ==> node_at(final(self).nodes@, node_id).keys@.len() >= node_at(old(self).nodes@, node_id).keys@.len(),
            keeps_touch(old(self).nodes@, old(self).touched@, final(self).nodes@, final(self).touched@),
            alloc_ok(final(self).nodes@, final(self).free_blocks@, final(self).max_keys_per_node),
            final(self).same_meta(old(self)),
            insert_frame(old(self).nodes@, final(self).nodes@, node_id, h),
            r.0 == map_get(entries(old(self).nodes@, node_id, h), key.rank()),
            insert_result(
                old(self).nodes@,
                final(self).nodes@,
                node_id,
                h,
                lo,
                hi,
                old(self).max_keys_per_node as nat,
                entries(old(self).nodes@, node_id, h).insert(key.rank(), value),
                r.1,
            ),
        decreases h, 0nat,
    {
        let ghost s0 = self.nodes@;
        let ghost m = self.max_keys_per_node as nat;
        let ghost k = key.rank();
        let ghost n0 = node_at(s0, node_id);
        let ghost vg = value;
        proof {
            assert(node_ok(s0, n0, h, lo, hi, m));
            assert(node_local_ok(n0, h, lo, hi, m));
            assert(h > 0);
        }
        let child_idx = self.node_ref(node_id).child_index(&key);
        let child_id = self.node_ref(node_id).child_ids[child_idx];
        let ghost hc = (h - 1) as nat;
        let ghost clo = child_lo(n0, lo, child_idx as int);
        let ghost chi = child_hi(n0, hi, child_idx as int);
        proof {
            assert(hc + 1 == h);
            assert(node_ok2(s0, n0, h, lo, hi, m, m));
            lemma_route(s0, n0, hc, lo, hi, m, m, k, child_idx as int);
            lemma_internal(s0, n0, h, hc, lo, hi, m, m);
            lemma_wf_facts(s0, node_id, h, lo, hi, m);
            assert(entries(s0, node_id, h) == entries_of(s0, n0, h));
            assert(reach(s0, node_id, h) == set![node_id] + reach_of(s0, n0, h));
            assert forall|x: u64| reach(s0, child_id, hc).contains(x) implies reach_of(s0, n0, h).contains(x) by {
                assert(reach(s0, n0.child_ids@[child_idx as int], hc).contains(x));
            }
        }
        proof {
            lemma_filled_kids(s0, n0, h, hc, lo, hi, m, m, min_fill(m as int));
            assert(kid_filled(s0, n0.child_ids@[child_idx as int], hc, min_fill(m as int)));
        }
        let (old_value, split_result) = self.insert_recursive(child_id, key, value, Ghost(hc), Ghost(clo), Ghost(chi));
        let ghost s1 = self.nodes@;
        proof {
            assert(!reach(s0, child_id, hc).contains(node_id));
            assert(s1[node_id as int] == s0[node_id as int]);
        }
        match split_result {
            None => {
                proof {
                    lemma_child_replaced(s0, s1, n0, h, hc, lo, hi, m, m, child_idx as int, k, vg);
                    assert(node_at(s1, node_id) == n0);
                    assert(node_ok(s1, n0, h, lo, hi, m));
                    assert(entries(s1, node_id, h) == entries_of(s1, n0, h));
                    assert(reach(s1, node_id, h) == set![node_id] + reach_of(s1, n0, h));
                    assert(!fresh(s0, node_id));
                    assert forall|x: u64| present(s0, x) && !reach(s0, node_id, h).contains(x) implies x < s1.len()
                        && s1[x as int] == #[trigger] s0[x as int] by {
                        assert(!reach(s0, child_id, hc).contains(x));
                    }
                    let mn = min_fill(m as int);
                    lemma_other_kids_filled(s0, s1, n0, h, hc, lo, hi, m, child_idx as int, mn);
                    assert(kid_filled(s1, child_id, hc, mn));
                    assert forall|j: int| 0 <= j < n0.child_ids@.len() implies #[trigger] kid_filled(
                        s1,
                        n0.child_ids@[j],
                        hc,
                        mn,
                    ) by {
                        if j == child_idx {
                        }
                    }
                    lemma_filled_kids(s1, n0, h, hc, lo, hi, m, m, mn);
                }
                (old_value, None)
            },
            Some((split_key, new_right_id)) => {
                let split = self.add_child_split(
                    node_id,
                    child_idx,
                    child_id,
                    split_key,
                    new_right_id,
                    Ghost(s0),
                    Ghost(h),
                    Ghost(lo),
                    Ghost(hi),
                    Ghost(k),
                    Ghost(vg),
                );
                (old_value, split)
            },
        }
    }

    /// After child `child_idx` of the node at `node_id` split around
    /// `split_key` into a new block `new_right_id`, add both to the node, and
    /// split the node in turn if it is now over capacity. `s0` is the store
    /// before the insertion of `k` with `v` began.
    #[verifier::rlimit(100)]
    fn add_child_split(
        &mut self,
        node_id: BlockId,
        child_idx: usize,
        child_id: BlockId,
        split_key: K,
        new_right_id: BlockId,
        Ghost(s0): Ghost<Store<K, V>>,
        Ghost(h): Ghost<nat>,
        Ghost(lo): Ghost<Option<int>>,
        Ghost(hi): Ghost<Option<int>>,
        Ghost(k): Ghost<int>,
        Ghost(v): Ghost<V>,
    ) -> (r: Option<(K, BlockId)>)
        requires
            alloc_ok(old(self).nodes@, old(self).free_blocks@, old(self).max_keys_per_node),
            h > 0,
            wf_node(s0, node_id, h, lo, hi, old(self).max_keys_per_node as nat),
            !node_at(s0, node_id).leaf(),
            present(old(self).nodes@, node_id),
            node_at(old(self).nodes@, node_id) == node_at(s0, node_id),
            child_idx < node_at(s0, node_id).child_ids@.len(),
            child_id == node_at(s0, node_id).child_ids@[child_idx as int],
            is_upper_bound(node_at(s0, node_id).keys@, k, child_idx as int),
            in_bounds(k, lo, hi),
            insert_frame(s0, old(self).nodes@, child_id, (h - 1) as nat),
            insert_result(
                s0,
                old(self).nodes@,
                child_id,
                (h - 1) as nat,
                child_lo(node_at(s0, node_id), lo, child_idx as int),
                child_hi(node_at(s0, node_id), hi, child_idx as int),
                old(self).max_keys_per_node as nat,
                entries(s0, child_id, (h - 1) as nat).insert(k, v),
                Some((split_key, new_right_id)),
            ),
            filled(s0, node_id, h, min_fill(old(self).max_keys_per_node as int)),
            kid_filled(old(self).nodes@, child_id, (h - 1) as nat, min_fill(old(self).max_keys_per_node as int)),
            kid_filled(old(self).nodes@, new_right_id, (h - 1) as nat, min_fill(old(self).max_keys_per_node as int)),
        ensures
            r is None ==> filled(final(self).nodes@, node_id, h, min_fill(old(self).max_keys_per_node as int)),
            r matches Some((_, rid)) ==> kid_filled(final(self).nodes@, node_id, h, min_fill(old(self).max_keys_per_node as int))
                && kid_filled(final(self).nodes@, rid, h, min_fill(old(self).max_keys_per_node as int)),
            r is None ==> node_at(final(self).nodes@, node_id).keys@.len() == node_at(s0, node_id).keys@.len() + 1,
            keeps_touch(old(self).nodes@, old(self).touched@, final(self).nodes@, final(self).touched@),
            alloc_ok(final(self).nodes@, final(self).free_blocks@, final(self).max_keys_per_node),
            final(self).same_meta(old(self)),
            insert_frame(s0, final(self).nodes@, node_id, h),
            insert_result(
                s0,
                final(self).nodes@,
                node_id,
                h,
                lo,
                hi,
                old(self).max_keys_per_node as nat,
                entries(s0, node_id, h).insert(k, v),
                r,
            ),
    {
        let ghost s1 = self.nodes@;
        let ghost m = self.max_keys_per_node as nat;
        let ghost n0 = node_at(s0, node_id);
        let ghost hc = (h - 1) as nat;
        let ghost sk = split_key.rank();
        proof {
            assert(hc + 1 == h);
            assert(node_ok(s0, n0, h, lo, hi, m));
            assert(node_ok2(s0, n0, h, lo, hi, m, m));
            assert(node_local_ok(n0, h, lo, hi, m));
            lemma_route(s0, n0, hc, lo, hi, m, m, k, child_idx as int);
            lemma_internal(s0, n0, h, hc, lo, hi, m, m);
            lemma_wf_facts(s0, node_id, h, lo, hi, m);
            assert(entries(s0, node_id, h) == entries_of(s0, n0, h));
            assert(reach(s0, node_id, h) == set![node_id] + reach_of(s0, n0, h));
            assert forall|x: u64| reach(s0, child_id, hc).contains(x) implies reach_of(s0, n0, h).contains(x) by {
                assert(reach(s0, n0.child_ids@[child_idx as int], hc).contains(x));
            }
            lemma_sep_position(n0, lo, hi, child_idx as int, sk);
        }
        let mut node = self.take_node(node_id);
        let ghost split_copy = split_key;
        let _ = node.insert_internal(split_key, child_id, new_right_id);
        let ghost n2 = node;
        proof {
            let idx2 = choose|idx2: int|
                {
                    &&& 0 <= idx2 <= n0.keys@.len()
                    &&& n2.keys@ == n0.keys@.insert(idx2, split_copy)
                    &&& n2.child_ids@ == n0.child_ids@.insert(idx2 + 1, new_right_id).update(idx2, child_id)
                    &&& (sorted_keys_of(n0) ==> is_lower_bound(n0.keys@, sk, idx2))
                };
            lemma_lower_bound_unique(n0.keys@, sk, idx2, child_idx as int);
            assert(n2.child_ids@ =~= n0.child_ids@.insert(child_idx as int + 1, new_right_id));
            assert(n2.well_shaped());
            lemma_child_split(s0, s1, n0, n2, h, hc, lo, hi, m, m, child_idx as int, k, v, split_copy, new_right_id);
            lemma_node2_facts(s1, n2, h, lo, hi, m + 1, m);
            assert(!fresh(s0, node_id));
            assert(!reach_of(s1, n2, h).contains(node_id));
            assert forall|x: u64| present(s0, x) && !reach(s0, node_id, h).contains(x) implies x < s1.len()
                && s1[x as int] == #[trigger] s0[x as int] by {
                assert(!reach(s0, child_id, hc).contains(x));
            }
            // the node's children, the new one included, are filled subtrees
            let mn = min_fill(m as int);
            lemma_other_kids_filled(s0, s1, n0, h, hc, lo, hi, m, child_idx as int, mn);
            assert forall|j: int| 0 <= j < n2.child_ids@.len() implies #[trigger] kid_filled(s1, n2.child_ids@[j], hc, mn) by {
                let ci = child_idx as int;
                if j < ci {
                    assert(n2.child_ids@[j] == n0.child_ids@[j]);
                } else if j > ci + 1 {
                    assert(n2.child_ids@[j] == n0.child_ids@[j - 1]);
                }
            }
            lemma_filled_kids(s1, n2, h, hc, lo, hi, m + 1, m, mn);
        }
        proof {
            lemma_not_free(s1, self.free_blocks@, node_id);
        }
        if node.keys.len() > self.max_keys_per_node {
            self.store_split_internal(
                node_id,
                node,
                Ghost(s0),
                Ghost(s1),
                Ghost(h),
                Ghost(lo),
                Ghost(hi),
                Ghost(entries(s0, node_id, h).insert(k, v)),
            )
        } else {
            self.put_node(node_id, node);
            proof {
                let s2 = self.nodes@;
                assert forall|x: u64| #[trigger] reach_of(s1, node, h).contains(x) implies x < s2.len() && s2[x as int]
                    == s1[x as int] by {
                    assert(x != node_id);
                    assert(present(s1, x));
                }
                assert(node_ok(s1, node, h, lo, hi, m));
                lemma_frame_node(s1, s2, node, h, lo, hi, m);
                assert(node_at(s2, node_id) == node);
                assert(entries(s2, node_id, h) == entries_of(s2, node, h));
                assert(reach(s2, node_id, h) == set![node_id] + reach_of(s2, node, h));
                assert(node.keys@.len() == n0.keys@.len() + 1);
                assert forall|x: u64| #[trigger] reach_of(s2, node, h).contains(x) implies node_at(s2, x).keys@.len()
                    >= min_fill(m as int) by {
                    assert(reach_of(s1, node, h).contains(x));
                }
            }
            None
        }
    }
}


/// A block that holds a node is not on a sound free list.
pub proof fn lemma_not_free<K, V>(s: Store<K, V>, free: Seq<BlockId>, id: BlockId)
    requires
        free_list_ok(s, free),
        present(s, id),
    ensures
        !free.contains(id),
{
    if free.contains(id) {
        let j = choose|j: int| 0 <= j < free.len() && free[j] == id;
        assert(s[free[j] as int] is None);
    }
}

impl<K: TreeKey, V> BPTree<K, V> {
    /// Split the over-full internal node `n2`, taken out of block `node_id`,
    /// and store both halves: the left one back in `node_id`, the right one
    /// in a new block.
    fn store_split_internal(
        &mut self,
        node_id: BlockId,
        n2: UniversalNode<K, V>,
        Ghost(s0): Ghost<Store<K, V>>,
        Ghost(s1): Ghost<Store<K, V>>,
        Ghost(h): Ghost<nat>,
        Ghost(lo): Ghost<Option<int>>,
        Ghost(hi): Ghost<Option<int>>,
        Ghost(e): Ghost<Map<int, V>>,
    ) -> (r: Option<(K, BlockId)>)
        requires
            alloc_ok(old(self).nodes@, old(self).free_blocks@, old(self).max_keys_per_node),
            old(self).nodes@ == s1.update(node_id as int, None),
            present(s1, node_id),
            node_id != 0,
            !old(self).free_blocks@.contains(node_id),
            h > 0,
            node_ok2(s1, n2, h, lo, hi, old(self).max_keys_per_node as nat + 1, old(self).max_keys_per_node as nat),
            n2.keys@.len() == old(self).max_keys_per_node + 1,
            !n2.leaf(),
            !reach_of(s1, n2, h).contains(node_id),
            forall|x: u64| #[trigger] reach_of(s1, n2, h).contains(x) ==> reach(s0, node_id, h).contains(x) || fresh(s0, x),
            reach(s0, node_id, h).contains(node_id),
            insert_frame(s0, s1, node_id, h),
            entries_of(s1, n2, h) == e,
            filled_of(s1, n2, h, min_fill(old(self).max_keys_per_node as int)),
        ensures
            r matches Some((_, rid)) ==> kid_filled(final(self).nodes@, node_id, h, min_fill(old(self).max_keys_per_node as int))
                && kid_filled(final(self).nodes@, rid, h, min_fill(old(self).max_keys_per_node as int)),
            keeps_touch(old(self).nodes@, old(self).touched@, final(self).nodes@, final(self).touched@),
            alloc_ok(final(self).nodes@, final(self).free_blocks@, final(self).max_keys_per_node),
            final(self).same_meta(old(self)),
            insert_frame(s0, final(self).nodes@, node_id, h),
            insert_result(s0, final(self).nodes@, node_id, h, lo, hi, old(self).max_keys_per_node as nat, e, r),
            r is Some,
    {
        let ghost m = self.max_keys_per_node as nat;
        let ghost hc = (h - 1) as nat;
        let mut node = n2;
        let (promoted_key, right_node) = match node.split() {
            Ok(pair) => pair,
            Err(_) => {
                proof {
                    assert(false);
                }
                return None;
            },
        };
        let right_block_id = self.allocate_node();
        proof {
            assert(hc + 1 == h);
            lemma_node2_facts(s1, n2, h, lo, hi, m + 1, m);
            lemma_split_internal(s1, n2, node, right_node, promoted_key, h, hc, lo, hi, m);
            assert(!present(s1, right_block_id));
        }
        self.put_node(right_block_id, right_node);
        self.put_node(node_id, node);
        proof {
            let s2 = self.nodes@;
            let pk = Some(promoted_key.rank());
            assert forall|x: u64| #[trigger] reach_of(s1, node, h).contains(x) implies x < s2.len() && s2[x as int]
                == s1[x as int] by {
                assert(reach_of(s1, n2, h).contains(x));
                assert(present(s1, x));
                assert(x != node_id);
                assert(x != right_block_id);
            }
            lemma_frame_node(s1, s2, node, h, lo, pk, m);
            assert forall|x: u64| #[trigger] reach_of(s1, right_node, h).contains(x) implies x < s2.len() && s2[x
                as int] == s1[x as int] by {
                assert(reach_of(s1, n2, h).contains(x));
                assert(present(s1, x));
                assert(x != node_id);
                assert(x != right_block_id);
            }
            lemma_frame_node(s1, s2, right_node, h, pk, hi, m);
            assert(node_at(s2, node_id) == node);
            assert(node_at(s2, right_block_id) == right_node);
            assert(entries(s2, node_id, h) == entries_of(s2, node, h));
            assert(entries(s2, right_block_id, h) == entries_of(s2, right_node, h));
            assert(reach(s2, node_id, h) == set![node_id] + reach_of(s2, node, h));
            assert(reach(s2, right_block_id, h) == set![right_block_id] + reach_of(s2, right_node, h));
            assert forall|x: u64| #[trigger] reach(s2, node_id, h).contains(x) implies reach(s0, node_id, h).contains(x)
                || fresh(s0, x) by {
                if x != node_id {
                    assert(reach_of(s1, n2, h).contains(x));
                }
            }
            assert forall|x: u64| #[trigger] reach(s2, right_block_id, h).contains(x) implies reach(s0, node_id, h).contains(
                x,
            ) || fresh(s0, x) by {
                if x != right_block_id {
                    assert(reach_of(s1, n2, h).contains(x));
                } else if !fresh(s0, x) {
                    assert(present(s0, x));
                    if !reach(s0, node_id, h).contains(x) {
                        assert(s1[x as int] == s0[x as int]);
                    }
                }
            }
            assert forall|x: u64| present(s0, x) && !reach(s0, node_id, h).contains(x) implies x < s2.len() && s2[x
                as int] == #[trigger] s0[x as int] by {
                assert(s1[x as int] == s0[x as int]);
            }
            let mn = min_fill(m as int);
            assert(node.keys@.len() >= mn);
            assert(right_node.keys@.len() >= mn);
            assert forall|x: u64| #[trigger] reach_of(s2, node, h).contains(x) implies node_at(s2, x).keys@.len() >= mn by {
                assert(reach_of(s1, node, h).contains(x));
                assert(reach_of(s1, n2, h).contains(x));
            }
            assert forall|x: u64| #[trigger] reach_of(s2, right_node, h).contains(x) implies node_at(s2, x).keys@.len()
                >= mn by {
                assert(reach_of(s1, right_node, h).contains(x));
                assert(reach_of(s1, n2, h).contains(x));
            }
        }
        Some((promoted_key, right_block_id))
    }
}


impl<K: TreeKey, V> BPTree<K, V> {
    /// Insert a key-value pair, replacing the value of a key already present.
    /// Returns the key's previous value.
    pub fn insert(&mut self, key: K, value: V) -> (r: Option<V>)
        requires
            old(self).wf(),
            old(self)@.len() < u64::MAX || old(self)@.contains_key(key.rank()),
        ensures
            final(self).balanced(),
            old(self).root_collapsed() ==> final(self).root_collapsed(),
            touch_ok(old(self).store(), old(self).touched_list(), final(self).store(), final(self).touched_list()),
            final(self).wf(),
            final(self)@ == old(self)@.insert(key.rank(), value),
            r == map_get(old(self)@, key.rank()),
            final(self).has_root(),
            final(self).capacity() == old(self).capacity(),
            final(self).spec_block_size() == old(self).spec_block_size(),
    {
        self.upsert(key, value)
    }

    /// Insert a key-value pair, replacing the value of a key already present.
    /// Returns the key's previous value.
    pub fn upsert(&mut self, key: K, value: V) -> (r: Option<V>)
        requires
            old(self).wf(),
            old(self)@.len() < u64::MAX || old(self)@.contains_key(key.rank()),
        ensures
            final(self).balanced(),
            old(self).root_collapsed() ==> final(self).root_collapsed(),
            touch_ok(old(self).store(), old(self).touched_list(), final(self).store(), final(self).touched_list()),
            final(self).wf(),
            final(self)@ == old(self)@.insert(key.rank(), value),
            r == map_get(old(self)@, key.rank()),
            final(self).has_root(),
            final(self).capacity() == old(self).capacity(),
            final(self).spec_block_size() == old(self).spec_block_size(),
    {
        proof {
            lemma_touch_refl(self.nodes@, self.touched@);
        }
        let ghost k = key.rank();
        let ghost vg = value;
        let ghost m = self.max_keys_per_node as nat;
        if !self.root_exists {
            let mut root = UniversalNode::new_leaf();
            let ghost kg = key;
            let _ = root.insert_leaf(key, value);
            self.root_exists = true;
            self.entry_count = 1;
            proof {
                assert(!self.free_blocks@.contains(ROOT_ID)) by {
                    if self.free_blocks@.contains(ROOT_ID) {
                        let j = choose|j: int| 0 <= j < self.free_blocks@.len() && self.free_blocks@[j] == ROOT_ID;
                        assert(2 <= self.free_blocks@[j]);
                    }
                }
            }
            self.put_node(ROOT_ID, root);
            proof {
                let s = self.nodes@;
                assert(root.keys@ =~= seq![kg]);
                assert(root.values@ =~= seq![vg]);
                assert(crate::node::sorted_keys(root.keys@));
                assert(node_at(s, ROOT_ID) == root);
                assert(node_ok(s, root, 0, None, None, m));
                assert(wf_node(s, ROOT_ID, 0, None, None, m));
                crate::model_update::lemma_height_unique(s, ROOT_ID, 0, self.tree_height(), m);
                lemma_leaf_map(root.keys@, root.values@, 1);
                assert(self@ == leaf_map(root.keys@, root.values@));
                assert(self@ =~= old(self)@.insert(k, vg));
                assert(self.nodes@.len() >= 2);
                assert(self.nodes@[0] is None);
                assert(free_list_ok(self.nodes@, self.free_blocks@));
                assert(self@.dom().finite());
                assert(self.entry_count == self@.len());
            }
            return None;
        }
        let ghost h = self.tree_height();
        let ghost s0 = self.nodes@;
        let (old_value, split) = self.insert_recursive(ROOT_ID, key, value, Ghost(h), Ghost(None), Ghost(None));
        proof {
            lemma_wf_facts(s0, ROOT_ID, h, None, None, m);
        }
        if old_value.is_none() {
            self.entry_count = self.entry_count + 1;
        }
        match split {
            None => {
                proof {
                    lemma_wf_facts(self.nodes@, ROOT_ID, h, None, None, m);
                    crate::model_update::lemma_height_unique(self.nodes@, ROOT_ID, h, self.tree_height(), m);
                    assert(node_ok(s0, node_at(s0, ROOT_ID), h, None, None, m));
                    assert(node_local_ok(node_at(s0, ROOT_ID), h, None, None, m));
                    assert(node_ok(self.nodes@, node_at(self.nodes@, ROOT_ID), h, None, None, m));
                    assert(node_local_ok(node_at(self.nodes@, ROOT_ID), h, None, None, m));
                }
            },
            Some((split_key, new_right_id)) => {
                let ghost s1 = self.nodes@;
                let new_left_id = self.allocate_node();
                proof {
                    assert(!present(s1, new_left_id));
                    assert(new_left_id != ROOT_ID);
                    lemma_not_free(self.nodes@, self.free_blocks@, ROOT_ID);
                }
                let left_node = self.take_node(ROOT_ID);
                self.put_node(new_left_id, left_node);
                let mut new_root = UniversalNode::new_internal();
                let ghost sk = split_key;
                let _ = new_root.insert_internal(split_key, new_left_id, new_right_id);
                self.put_node(ROOT_ID, new_root);
                proof {
                    let s2 = self.nodes@;
                    assert(new_root.keys@ =~= seq![sk]);
                    lemma_grow_root(s1, s2, ROOT_ID, new_left_id, new_right_id, sk, new_root, h, m);
                    lemma_wf_facts(s2, ROOT_ID, h + 1, None, None, m);
                    crate::model_update::lemma_height_unique(s2, ROOT_ID, h + 1, self.tree_height(), m);
                    // both halves of the old root are filled subtrees below the new root
                    let mn = min_fill(m as int);
                    let sp = Some(sk.rank());
                    let n1 = node_at(s1, ROOT_ID);
                    lemma_wf_facts(s1, ROOT_ID, h, None, sp, m);
                    lemma_wf_facts(s1, new_right_id, h, sp, None, m);
                    assert(reach(s1, ROOT_ID, h) == set![ROOT_ID] + reach_of(s1, n1, h));
                    assert forall|x: u64| #[trigger] reach_of(s1, n1, h).contains(x) implies x < s2.len() && s2[x as int]
                        == s1[x as int] by {
                        assert(reach(s1, ROOT_ID, h).contains(x));
                        assert(present(s1, x));
                    }
                    assert(node_ok(s1, n1, h, None, sp, m));
                    crate::model::lemma_frame_node(s1, s2, n1, h, None, sp, m);
                    assert(node_at(s2, new_left_id) == n1);
                    assert(kid_filled(s2, new_left_id, h, mn));
                    assert forall|x: u64| #[trigger] reach(s1, new_right_id, h).contains(x) implies x < s2.len() && s2[x
                        as int] == s1[x as int] by {
                        assert(present(s1, x));
                        assert(!reach(s1, ROOT_ID, h).contains(x));
                    }
                    lemma_filled_frame(s1, s2, new_right_id, h, sp, None, m, mn);
                    assert(node_ok(s2, new_root, h + 1, None, None, m));
                    assert forall|j: int| 0 <= j < new_root.child_ids@.len() implies #[trigger] kid_filled(
                        s2,
                        new_root.child_ids@[j],
                        h,
                        mn,
                    ) by {
                        assert(new_root.child_ids@ == seq![new_left_id, new_right_id]);
                    }
                    lemma_filled_kids(s2, new_root, h + 1, h, None, None, m, m, mn);
                }
            },
        }
        proof {
            assert(self@ == old(self)@.insert(k, vg));
            assert(self@.dom() == old(self)@.dom().insert(k));
            assert(self.nodes@.len() >= 2);
            assert(self.nodes@[0] is None);
            assert(free_list_ok(self.nodes@, self.free_blocks@));
            
            assert(self@.dom().finite());
            assert(self.entry_count == self@.len());
        }
        old_value
    }

    /// Whether the key is present, by a search from the root.
    fn contains(&self, key: &K) -> (r: bool)
        requires
            self.wf(),
        ensures
            r == self@.contains_key(key.rank()),
    {
        if !self.root_exists {
            return false;
        }
        self.get_recursive(ROOT_ID, key, Ghost(self.tree_height()), Ghost(None), Ghost(None)).is_some()
    }

    /// Give a present key a new value; an absent key is left absent. Returns
    /// the key's previous value.
    pub fn update(&mut self, key: K, value: V) -> (r: Option<V>)
        requires
            old(self).wf(),
        ensures
            final(self).balanced(),
            old(self).root_collapsed() ==> final(self).root_collapsed(),
            touch_ok(old(self).store(), old(self).touched_list(), final(self).store(), final(self).touched_list()),
            final(self).wf(),
            final(self)@ == (if old(self)@.contains_key(key.rank()) {
                old(self)@.insert(key.rank(), value)
            } else {
                old(self)@
            }),
            r == map_get(old(self)@, key.rank()),
            final(self).has_root() == old(self).has_root(),
            final(self).capacity() == old(self).capacity(),
            final(self).spec_block_size() == old(self).spec_block_size(),
    {
        proof {
            lemma_touch_refl(self.nodes@, self.touched@);
        }
        if !self.root_exists {
            return None;
        }
        if !self.contains(&key) {
            return None;
        }
        self.upsert(key, value)
    }
}


/// The value that a deletion result carries, if any.
pub open spec fn deleted_value<K, V>(r: DeleteResult<K, V>) -> Option<V> {
    match r {
        DeleteResult::KeyRemoved(v) => Some(v),
        DeleteResult::Underflow { value, .. } => value,
        _ => None,
    }
}

/// A deletion in the subtree at `node_id` changed only that subtree's blocks
/// and allocated none.
pub open spec fn delete_frame<K: TreeKey, V>(s0: Store<K, V>, s1: Store<K, V>, node_id: u64, h: nat) -> bool {
    &&& s1.len() == s0.len()
    &&& forall|x: u64|
        present(s0, x) && !reach(s0, node_id, h).contains(x) ==> s1[x as int] == #[trigger] s0[x as int]
}

/// The map left after removing, one after the other, the first `i` keys of
/// `keys`.
pub open spec fn remove_each<K: TreeKey, V>(m: Map<int, V>, keys: Seq<K>, i: nat) -> Map<int, V>
    decreases i,
{
    if i == 0 {
        m
    } else {
        remove_each(m, keys, (i - 1) as nat).remove(keys[i - 1].rank())
    }
}

impl<K: TreeKey, V> BPTree<K, V> {
    /// The fewest keys a node other than the root may hold.
    fn min_keys(&self) -> (r: usize)
        requires
            1 <= self.max_keys_per_node < usize::MAX,
        ensures
            r == (self.max_keys_per_node + 1) / 2 - 1,
    {
        (self.max_keys_per_node + 1) / 2 - 1
    }

    /// Whether block `node_id` is the root block.
    fn is_root(&self, node_id: BlockId) -> (r: bool)
        ensures
            r == (node_id == ROOT_ID),
    {
        node_id == ROOT_ID
    }

    /// Delete `key` from the subtree at `node_id` of height `h` and key range
    /// `lo`..`hi`, rebalancing the children on the way back up. Reports an
    /// underflow when the subtree's top node, not being the root, is left
    /// with fewer keys than a node may hold.
    #[verifier::rlimit(100)]
    #[verifier::spinoff_prover]
    fn delete_recursive(
        &mut self,
        node_id: BlockId,
        key: &K,
        Ghost(h): Ghost<nat>,
        Ghost(lo): Ghost<Option<int>>,
        Ghost(hi): Ghost<Option<int>>,
    ) -> (r: DeleteResult<K, V>)
        requires
            alloc_ok(old(self).nodes@, old(self).free_blocks@, old(self).max_keys_per_node),
            wf_node(old(self).nodes@, node_id, h, lo, hi, old(self).max_keys_per_node as nat),
            in_bounds(key.rank(), lo, hi),
            !reach_of(old(self).nodes@, node_at(old(self).nodes@, node_id), h).contains(ROOT_ID),
            filled(old(self).nodes@, node_id, h, min_fill(old(self).max_keys_per_node as int)),
            node_id != ROOT_ID ==> node_at(old(self).nodes@, node_id).keys@.len() >= min_fill(
                old(self).max_keys_per_node as int,
            ),
            node_id == ROOT_ID && !node_at(old(self).nodes@, node_id).leaf() ==> node_at(
                old(self).nodes@,
                node_id,
            ).keys@.len() > 0,
        ensures
            filled(final(self).nodes@, node_id, h, min_fill(old(self).max_keys_per_node as int)),
            node_at(final(self).nodes@, node_id).keys@.len() + 1 >= node_at(old(self).nodes@, node_id).keys@.len(),
            node_id != ROOT_ID && !(r is Underflow) ==> node_at(final(self).nodes@, node_id).keys@.len() >= min_fill(
                old(self).max_keys_per_node as int,
            ),
            keeps_touch(old(self).nodes@, old(self).touched@, final(self).nodes@, final(self).touched@),
            alloc_ok(final(self).nodes@, final(self).free_blocks@, final(self).max_keys_per_node),
            final(self).same_meta(old(self)),
            delete_frame(old(self).nodes@, final(self).nodes@, node_id, h),
            wf_node(final(self).nodes@, node_id, h, lo, hi, old(self).max_keys_per_node as nat),
            entries(final(self).nodes@, node_id, h) == entries(old(self).nodes@, node_id, h).remove(key.rank()),
            forall|x: u64| #[trigger] reach(final(self).nodes@, node_id, h).contains(x) ==> reach(
                old(self).nodes@,
                node_id,
                h,
            ).contains(x),
            deleted_value(r) == map_get(entries(old(self).nodes@, node_id, h), key.rank()),
            r is NoChange ==> final(self).nodes@ == old(self).nodes@ && final(self).free_blocks@ == old(
                self,
            ).free_blocks@,
            r matches DeleteResult::Underflow { value, .. } ==> {
                &&& value is Some
                &&& node_id != ROOT_ID
                &&& node_at(final(self).nodes@, node_id).keys@.len() < (old(self).max_keys_per_node + 1) / 2 - 1
            },
            !(r is TreeEmpty),
            !node_at(old(self).nodes@, node_id).leaf() && node_at(old(self).nodes@, node_id).keys@.len() > 0
                && node_at(final(self).nodes@, node_id).keys@.len() == 0 ==> first_child_settled(
                final(self).nodes@,
                node_id,
            ),
        decreases h,
    {
        let ghost s0 = self.nodes@;
        let ghost m = self.max_keys_per_node as nat;
        let ghost k = key.rank();
        let ghost n0 = node_at(s0, node_id);
        proof {
            assert(node_ok(s0, n0, h, lo, hi, m));
            assert(node_local_ok(n0, h, lo, hi, m));
            lemma_wf_facts(s0, node_id, h, lo, hi, m);
            lemma_not_free(s0, self.free_blocks@, node_id);
        }
        if self.node_ref(node_id).is_leaf() {
            proof {
                lemma_leaf_map(n0.keys@, n0.values@, n0.keys@.len());
                assert(entries(s0, node_id, h) == leaf_map(n0.keys@, n0.values@));
            }
            if self.node_ref(node_id).get(key).is_none() {
                proof {
                    assert(entries(s0, node_id, h).remove(k) =~= entries(s0, node_id, h));
                }
                return DeleteResult::NoChange;
            }
            let mut node = self.take_node(node_id);
            let removed = node.remove_leaf(key);
            match removed {
                Some(removed_value) => {
                    let count = node.key_count;
                    let ghost n1 = node;
                    proof {
                        let j = choose|j: int|
                            {
                                &&& 0 <= j < n0.keys@.len()
                                &&& #[trigger] n0.keys@[j].rank() == k
                                &&& removed_value == n0.values@[j]
                                &&& n1.keys@ == n0.keys@.remove(j)
                                &&& n1.values@ == n0.values@.remove(j)
                            };
                        crate::model_delete::lemma_leaf_remove(n0.keys@, n0.values@, j);
                        assert forall|t: int| 0 <= t < n1.keys@.len() implies in_bounds(
                            #[trigger] n1.keys@[t].rank(),
                            lo,
                            hi,
                        ) by {
                            if t < j {
                                assert(n1.keys@[t] == n0.keys@[t]);
                            } else {
                                assert(n1.keys@[t] == n0.keys@[t + 1]);
                            }
                        }
                        assert(node_local_ok(n1, h, lo, hi, m));
                    }
                    self.put_node(node_id, node);
                    proof {
                        let s1 = self.nodes@;
                        assert(node_at(s1, node_id) == n1);
                        assert(reach(s1, node_id, h) =~= set![node_id]);
                        assert(reach(s0, node_id, h) =~= set![node_id]);
                        assert(entries(s1, node_id, h) == leaf_map(n1.keys@, n1.values@));
                        assert(node_ok(s1, n1, h, lo, hi, m));
                        assert(wf_node(s1, node_id, h, lo, hi, m));
                    }
                    if !self.is_root(node_id) && (count as usize) < self.min_keys() {
                        DeleteResult::Underflow {
                            node_id,
                            value: Some(removed_value),
                            left_sibling: None,
                            right_sibling: None,
                            new_separator: None,
                        }
                    } else {
                        DeleteResult::KeyRemoved(removed_value)
                    }
                },
                None => {
                    proof {
                        assert(false);
                    }
                    DeleteResult::NoChange
                },
            }
        } else {
            let child_idx = self.node_ref(node_id).child_index(key);
            let child_id = self.node_ref(node_id).child_ids[child_idx];
            let ghost hc = (h - 1) as nat;
            let ghost clo = child_lo(n0, lo, child_idx as int);
            let ghost chi = child_hi(n0, hi, child_idx as int);
            proof {
                assert(hc + 1 == h);
                assert(node_ok2(s0, n0, h, lo, hi, m, m));
                lemma_route(s0, n0, hc, lo, hi, m, m, k, child_idx as int);
                lemma_internal(s0, n0, h, hc, lo, hi, m, m);
                assert(entries(s0, node_id, h) == entries_of(s0, n0, h));
                assert(reach(s0, node_id, h) == set![node_id] + reach_of(s0, n0, h));
                lemma_wf_facts(s0, child_id, hc, clo, chi, m);
                assert forall|x: u64| reach(s0, child_id, hc).contains(x) implies reach_of(s0, n0, h).contains(x) by {
                    assert(reach(s0, n0.child_ids@[child_idx as int], hc).contains(x));
                }
                assert(reach(s0, child_id, hc) == set![child_id] + reach_of(s0, node_at(s0, child_id), hc));
            }
            proof {
                lemma_filled_kids(s0, n0, h, hc, lo, hi, m, m, min_fill(m as int));
                assert(kid_filled(s0, n0.child_ids@[child_idx as int], hc, min_fill(m as int)));
                assert(child_id != ROOT_ID) by {
                    assert(reach(s0, child_id, hc).contains(child_id));
                }
            }
            let result = self.delete_recursive(child_id, key, Ghost(hc), Ghost(clo), Ghost(chi));
            let ghost s1 = self.nodes@;
            proof {
                assert(!reach(s0, child_id, hc).contains(node_id));
                assert(s1[node_id as int] == s0[node_id as int]);
                assert forall|x: u64| present(s0, x) && !reach(s0, node_id, h).contains(x) implies s1[x as int]
                    == #[trigger] s0[x as int] by {
                    assert(!reach(s0, child_id, hc).contains(x));
                }
                lemma_other_kids_filled(s0, s1, n0, h, hc, lo, hi, m, child_idx as int, min_fill(m as int));
                if !(result is NoChange) {
                    crate::model_delete::lemma_child_removed(s0, s1, n0, h, hc, lo, hi, m, m, child_idx as int, k);
                    assert(node_at(s1, node_id) == n0);
                    assert(entries(s1, node_id, h) == entries_of(s1, n0, h));
                    assert(reach(s1, node_id, h) == set![node_id] + reach_of(s1, n0, h));
                    assert(wf_node(s1, node_id, h, lo, hi, m));
                }
            }
            match result {
                DeleteResult::Underflow { value, .. } => {
                    self.handle_child_underflow(node_id, child_idx, Ghost(h), Ghost(lo), Ghost(hi));
                    let count = self.node_ref(node_id).key_count;
                    proof {
                        let s2 = self.nodes@;
                        assert forall|x: u64| present(s0, x) && !reach(s0, node_id, h).contains(x) implies s2[x as int]
                            == #[trigger] s0[x as int] by {
                            assert(s1[x as int] == s0[x as int]);
                            assert(!reach(s1, node_id, h).contains(x));
                        }
                        assert(node_ok(s2, node_at(s2, node_id), h, lo, hi, m));
                    }
                    let parent_underflows = !self.is_root(node_id) && (count as usize) < self.min_keys();
                    if parent_underflows {
                        DeleteResult::Underflow {
                            node_id,
                            value,
                            left_sibling: None,
                            right_sibling: None,
                            new_separator: None,
                        }
                    } else {
                        match value {
                            Some(v) => DeleteResult::KeyRemoved(v),
                            None => DeleteResult::NoChange,
                        }
                    }
                },
                DeleteResult::KeyRemoved(val) => {
                    proof {
                        let mn = min_fill(m as int);
                        assert(kid_filled(s1, child_id, hc, mn));
                        assert forall|j: int| 0 <= j < n0.child_ids@.len() implies #[trigger] kid_filled(
                            s1,
                            n0.child_ids@[j],
                            hc,
                            mn,
                        ) by {
                            if j == child_idx {
                            }
                        }
                        assert(node_ok(s1, n0, h, lo, hi, m));
                        lemma_filled_kids(s1, n0, h, hc, lo, hi, m, m, mn);
                    }
                    DeleteResult::KeyRemoved(val)
                },
                other => {
                    proof {
                        assert(entries(s0, node_id, h).remove(k) =~= entries(s0, node_id, h));
                    }
                    other
                },
            }
        }
    }
}

/// The first child of the internal node at `id` is a leaf or has a key.
pub open spec fn first_child_settled<K: TreeKey, V>(s: Store<K, V>, id: u64) -> bool {
    let c = node_at(s, node_at(s, id).child_ids@[0]);
    c.leaf() || c.keys@.len() > 0
}

/// Children `a` and `a + 1` of the node at `parent_id` in `s0` are merged in
/// `s1`: the left child holds its own keys (with the separator between them
/// when they are internal), values and children followed by the right
/// child's, and takes over the right child's next leaf when they are leaves;
/// the right child's block is empty; the parent lost the separator and the
/// right child.
pub open spec fn merged_into_left<K: TreeKey, V>(s0: Store<K, V>, s1: Store<K, V>, parent_id: u64, a: int) -> bool {
    let p0 = node_at(s0, parent_id);
    let p1 = node_at(s1, parent_id);
    let l0 = node_at(s0, p0.child_ids@[a]);
    let r0 = node_at(s0, p0.child_ids@[a + 1]);
    let l1 = node_at(s1, p0.child_ids@[a]);
    &&& present(s1, parent_id)
    &&& p1.keys@ == p0.keys@.remove(a)
    &&& p1.child_ids@ == p0.child_ids@.remove(a + 1)
    &&& present(s1, p0.child_ids@[a])
    &&& l1.keys@ == (if l0.leaf() {
        l0.keys@ + r0.keys@
    } else {
        l0.keys@.push(p0.keys@[a]) + r0.keys@
    })
    &&& l1.values@ == l0.values@ + r0.values@
    &&& l1.child_ids@ == l0.child_ids@ + r0.child_ids@
    &&& l1.next_leaf == (if l0.leaf() {
        r0.next_leaf
    } else {
        l0.next_leaf
    })
    &&& l1.node_type == l0.node_type
    &&& s1[p0.child_ids@[a + 1] as int] is None
}

/// The position of the sibling that handling an underfull child `i` of the
/// node at `parent_id` works with: the left one when it can spare a key, else
/// the right one when it can, else the left one to merge with, else the right
/// one; `i` itself for an only child.
pub open spec fn underflow_sibling<K: TreeKey, V>(s0: Store<K, V>, parent_id: u64, i: int, m: int) -> int {
    let cs = node_at(s0, parent_id).child_ids@;
    let min = (m + 1) / 2 - 1;
    if i > 0 && node_at(s0, cs[i - 1]).keys@.len() > min {
        i - 1
    } else if i + 1 < cs.len() && node_at(s0, cs[i + 1]).keys@.len() > min {
        i + 1
    } else if i > 0 {
        i - 1
    } else if i + 1 < cs.len() {
        i + 1
    } else {
        i
    }
}

/// What handling an underfull child `i` of the node at `parent_id` (node
/// capacity `m`) did, going from blocks `s0` and free list `f0` to `s1` and
/// `f1`: with a left sibling that can spare a key, that sibling's last key
/// moved over and became the separator; else with such a right sibling, its
/// first key moved over and the separator became the right sibling's new
/// first key (its moved key when internal); else the child was merged with
/// its left sibling, or if it has none with its right one, freeing the
/// right block of the two; an only child is left as it is.
pub open spec fn underflow_handled<K: TreeKey, V>(
    s0: Store<K, V>,
    f0: Seq<BlockId>,
    s1: Store<K, V>,
    f1: Seq<BlockId>,
    parent_id: u64,
    i: int,
    m: int,
) -> bool {
    let p0 = node_at(s0, parent_id);
    let p1 = node_at(s1, parent_id);
    let cs = p0.child_ids@;
    let min = (m + 1) / 2 - 1;
    if i > 0 && node_at(s0, cs[i - 1]).keys@.len() > min {
        let l0 = node_at(s0, cs[i - 1]);
        &&& p1.child_ids@ == cs
        &&& p1.keys@ == p0.keys@.update(i - 1, l0.keys@.last())
        &&& node_at(s1, cs[i - 1]).keys@.len() == l0.keys@.len() - 1
        &&& node_at(s1, cs[i]).keys@.len() == node_at(s0, cs[i]).keys@.len() + 1
        &&& f1 == f0
    } else if i + 1 < cs.len() && node_at(s0, cs[i + 1]).keys@.len() > min {
        let r0 = node_at(s0, cs[i + 1]);
        &&& p1.child_ids@ == cs
        &&& p1.keys@ == p0.keys@.update(
            i,
            if !r0.leaf() {
                r0.keys@[0]
            } else if r0.keys@.len() > 1 {
                r0.keys@[1]
            } else {
                p0.keys@[i]
            },
        )
        &&& node_at(s1, cs[i + 1]).keys@.len() == r0.keys@.len() - 1
        &&& node_at(s1, cs[i]).keys@.len() == node_at(s0, cs[i]).keys@.len() + 1
        &&& f1 == f0
    } else if i > 0 {
        &&& merged_into_left(s0, s1, parent_id, i - 1)
        &&& f1 == f0.push(cs[i])
    } else if i + 1 < cs.len() {
        &&& merged_into_left(s0, s1, parent_id, i)
        &&& f1 == f0.push(cs[i + 1])
    } else {
        &&& s1 == s0
        &&& f1 == f0
    }
}

/// What handling the root after a deletion did, going from blocks `s0` and
/// free list `f0` to `s1` and `f1`, where `has_root` tells whether a root
/// remains: a root with no keys but a child took that child's node into the
/// root block and freed the child's block; a leaf root with no keys was
/// removed; any other root was left as it is.
pub open spec fn root_underflow_handled<K: TreeKey, V>(
    s0: Store<K, V>,
    f0: Seq<BlockId>,
    s1: Store<K, V>,
    f1: Seq<BlockId>,
    has_root: bool,
) -> bool {
    let r0 = node_at(s0, ROOT_ID);
    if r0.keys@.len() == 0 && r0.child_ids@.len() > 0 {
        let c = r0.child_ids@[0];
        &&& has_root
        &&& s1 == s0.update(ROOT_ID as int, Some(node_at(s0, c))).update(c as int, None)
        &&& f1 == f0.push(c)
    } else if r0.keys@.len() == 0 && r0.leaf() {
        &&& !has_root
        &&& s1 == s0.update(ROOT_ID as int, None)
        &&& f1 == f0
    } else {
        &&& has_root
        &&& s1 == s0
        &&& f1 == f0
    }
}

/// The root step after a deletion leaves an internal root with a key, given
/// that a root left without keys has a settled first child; from a leaf root
/// it leaves a root exactly when entries remain.
proof fn lemma_root_step<K: TreeKey, V>(mid: BPTree<K, V>, fin: BPTree<K, V>, old_root_leaf: bool, settled: bool)
    requires
        mid.wf_loose(),
        mid.root_exists,
        fin.wf(),
        fin@ == mid@,
        root_underflow_handled(mid.nodes@, mid.free_blocks@, fin.nodes@, fin.free_blocks@, fin.root_exists),
        old_root_leaf ==> node_at(mid.nodes@, ROOT_ID).leaf(),
        settled && node_at(mid.nodes@, ROOT_ID).keys@.len() == 0 && !node_at(mid.nodes@, ROOT_ID).leaf()
            ==> first_child_settled(mid.nodes@, ROOT_ID),
    ensures
        settled ==> fin.root_collapsed(),
        old_root_leaf ==> (fin.has_root() <==> fin@.len() > 0),
{
    let s = mid.nodes@;
    let m = mid.max_keys_per_node as nat;
    let th = mid.tree_height();
    let r0 = node_at(s, ROOT_ID);
    assert(wf_node(s, ROOT_ID, th, None, None, m));
    assert(node_ok(s, r0, th, None, None, m));
    assert(node_local_ok(r0, th, None, None, m));
    if r0.keys@.len() == 0 && r0.child_ids@.len() > 0 {
        assert(!r0.leaf());
        assert(node_at(fin.nodes@, ROOT_ID) == node_at(s, r0.child_ids@[0]));
    } else if r0.keys@.len() == 0 && r0.leaf() {
        assert(fin@ =~= Map::<int, V>::empty());
    } else {
        assert(fin.nodes@ == s);
        if old_root_leaf {
            assert(th == 0);
            lemma_leaf_map(r0.keys@, r0.values@, r0.keys@.len());
            assert(mid@ == entries(s, ROOT_ID, th));
            assert(entries(s, ROOT_ID, 0) == leaf_map(r0.keys@, r0.values@));
            assert(mid@.contains_key(r0.keys@[0].rank()));
            if mid@.len() == 0 {
                mid@.dom().lemma_len0_is_empty();
                assert(mid@.dom().contains(r0.keys@[0].rank()));
            }
        }
    }
}

/// After an underfull child `i` (one key short) of the node at `pid` was
/// handled, every node below the node is at least half full again.
proof fn lemma_underflow_fill<K: TreeKey, V>(
    s0: Store<K, V>,
    f0: Seq<BlockId>,
    s1: Store<K, V>,
    f1: Seq<BlockId>,
    pid: u64,
    i: int,
    h: nat,
    lo: Option<int>,
    hi: Option<int>,
    m: nat,
)
    requires
        h > 0,
        wf_node(s0, pid, h, lo, hi, m),
        wf_node(s1, pid, h, lo, hi, m),
        !node_at(s0, pid).leaf(),
        node_at(s0, pid).keys@.len() > 0,
        0 <= i < node_at(s0, pid).child_ids@.len(),
        forall|x: u64| #[trigger] reach(s1, pid, h).contains(x) ==> reach(s0, pid, h).contains(x),
        s1.len() == s0.len(),
        forall|x: u64|
            x < s0.len() && x != pid && x != node_at(s0, pid).child_ids@[i] && x != node_at(s0, pid).child_ids@[underflow_sibling(
                s0,
                pid,
                i,
                m as int,
            )] ==> s1[x as int] == #[trigger] s0[x as int],
        underflow_handled(s0, f0, s1, f1, pid, i, m as int),
        forall|j: int|
            0 <= j < node_at(s0, pid).child_ids@.len() && j != i ==> #[trigger] kid_filled(
                s0,
                node_at(s0, pid).child_ids@[j],
                (h - 1) as nat,
                min_fill(m as int),
            ),
        filled(s0, node_at(s0, pid).child_ids@[i], (h - 1) as nat, min_fill(m as int)),
        node_at(s0, node_at(s0, pid).child_ids@[i]).keys@.len() + 1 >= min_fill(m as int),
        node_at(s0, node_at(s0, pid).child_ids@[i]).keys@.len() < min_fill(m as int),
    ensures
        filled(s1, pid, h, min_fill(m as int)),
{
    let n0 = node_at(s0, pid);
    let n1 = node_at(s1, pid);
    let cs = n0.child_ids@;
    let hc = (h - 1) as nat;
    let mn = min_fill(m as int);
    let sib = underflow_sibling(s0, pid, i, m as int);
    assert(node_ok(s0, n0, h, lo, hi, m));
    assert(node_local_ok(n0, h, lo, hi, m));
    assert(node_ok2(s0, n0, h, lo, hi, m, m));
    lemma_internal(s0, n0, h, hc, lo, hi, m, m);
    lemma_wf_facts(s1, pid, h, lo, hi, m);
    assert(reach(s1, pid, h) == set![pid] + reach_of(s1, n1, h));
    assert(reach(s0, pid, h) == set![pid] + reach_of(s0, n0, h));
    assert(cs.len() >= 2);
    assert(sib != i);
    assert forall|x: u64| #[trigger] reach_of(s1, n1, h).contains(x) implies node_at(s1, x).keys@.len() >= mn by {
        assert(reach(s1, pid, h).contains(x));
        assert(reach(s0, pid, h).contains(x));
        assert(x != pid);
        assert(reach_of(s0, n0, h).contains(x));
        assert(present(s1, x));
        let j = choose|j: int| 0 <= j < cs.len() && #[trigger] reach(s0, cs[j], hc).contains(x);
        assert(reach(s0, cs[j], hc) == set![cs[j]] + reach_of(s0, node_at(s0, cs[j]), hc));
        if x != cs[i] && x != cs[sib] {
            assert(s1[x as int] == s0[x as int]);
            if j != i {
                assert(kid_filled(s0, cs[j], hc, mn));
            }
        } else {
            let ki = node_at(s0, cs[i]).keys@.len();
            if i > 0 && node_at(s0, cs[i - 1]).keys@.len() > mn {
            } else if i + 1 < cs.len() && node_at(s0, cs[i + 1]).keys@.len() > mn {
            } else if i > 0 {
                assert(kid_filled(s0, cs[i - 1], hc, mn));
                assert(merged_into_left(s0, s1, pid, i - 1));
            } else {
                assert(kid_filled(s0, cs[i + 1], hc, mn));
                assert(merged_into_left(s0, s1, pid, i));
            }
        }
    }
}

impl<K: TreeKey, V> BPTree<K, V> {
    /// After a deletion left child `child_idx` of the node at `parent_id`
    /// with too few keys: take a key from the left sibling if it can spare
    /// one, else from the right sibling, else merge the child with a sibling.
    #[verifier::rlimit(100)]
    #[verifier::spinoff_prover]
    fn handle_child_underflow(
        &mut self,
        parent_id: BlockId,
        child_idx: usize,
        Ghost(h): Ghost<nat>,
        Ghost(lo): Ghost<Option<int>>,
        Ghost(hi): Ghost<Option<int>>,
    )
        requires
            alloc_ok(old(self).nodes@, old(self).free_blocks@, old(self).max_keys_per_node),
            wf_node(old(self).nodes@, parent_id, h, lo, hi, old(self).max_keys_per_node as nat),
            !node_at(old(self).nodes@, parent_id).leaf(),
            child_idx < node_at(old(self).nodes@, parent_id).child_ids@.len(),
            node_at(old(self).nodes@, node_at(old(self).nodes@, parent_id).child_ids@[child_idx as int]).keys@.len()
                < (old(self).max_keys_per_node + 1) / 2 - 1,
            !reach_of(old(self).nodes@, node_at(old(self).nodes@, parent_id), h).contains(ROOT_ID),
            node_at(old(self).nodes@, parent_id).keys@.len() > 0,
            forall|j: int|
                0 <= j < node_at(old(self).nodes@, parent_id).child_ids@.len() && j != child_idx ==> #[trigger] kid_filled(
                    old(self).nodes@,
                    node_at(old(self).nodes@, parent_id).child_ids@[j],
                    (h - 1) as nat,
                    min_fill(old(self).max_keys_per_node as int),
                ),
            filled(
                old(self).nodes@,
                node_at(old(self).nodes@, parent_id).child_ids@[child_idx as int],
                (h - 1) as nat,
                min_fill(old(self).max_keys_per_node as int),
            ),
            node_at(old(self).nodes@, node_at(old(self).nodes@, parent_id).child_ids@[child_idx as int]).keys@.len() + 1
                >= min_fill(old(self).max_keys_per_node as int),
        ensures
            filled(final(self).nodes@, parent_id, h, min_fill(old(self).max_keys_per_node as int)),
            node_at(final(self).nodes@, parent_id).keys@.len() + 1 >= node_at(old(self).nodes@, parent_id).keys@.len(),
            keeps_touch(old(self).nodes@, old(self).touched@, final(self).nodes@, final(self).touched@),
            alloc_ok(final(self).nodes@, final(self).free_blocks@, final(self).max_keys_per_node),
            final(self).same_meta(old(self)),
            delete_frame(old(self).nodes@, final(self).nodes@, parent_id, h),
            wf_node(final(self).nodes@, parent_id, h, lo, hi, old(self).max_keys_per_node as nat),
            entries(final(self).nodes@, parent_id, h) == entries(old(self).nodes@, parent_id, h),
            forall|x: u64| #[trigger] reach(final(self).nodes@, parent_id, h).contains(x) ==> reach(
                old(self).nodes@,
                parent_id,
                h,
            ).contains(x),
            underflow_handled(
                old(self).nodes@,
                old(self).free_blocks@,
                final(self).nodes@,
                final(self).free_blocks@,
                parent_id,
                child_idx as int,
                old(self).max_keys_per_node as int,
            ),
            final(self).nodes@.len() == old(self).nodes@.len(),
            forall|x: u64|
                x < old(self).nodes@.len() && x != parent_id && x != node_at(old(self).nodes@, parent_id).child_ids@[child_idx as int]
                    && x != node_at(old(self).nodes@, parent_id).child_ids@[underflow_sibling(
                    old(self).nodes@,
                    parent_id,
                    child_idx as int,
                    old(self).max_keys_per_node as int,
                )] ==> final(self).nodes@[x as int] == #[trigger] old(self).nodes@[x as int],
    {
        let ghost s0 = self.nodes@;
        let ghost f0 = self.free_blocks@;
        let ghost m = self.max_keys_per_node as nat;
        let ghost n0 = node_at(s0, parent_id);
        let ghost hc = (h - 1) as nat;
        proof {
            assert(node_ok(s0, n0, h, lo, hi, m));
            assert(node_local_ok(n0, h, lo, hi, m));
            assert(h > 0);
            assert(hc + 1 == h);
            assert(node_ok2(s0, n0, h, lo, hi, m, m));
            lemma_internal(s0, n0, h, hc, lo, hi, m, m);
            lemma_wf_facts(s0, parent_id, h, lo, hi, m);
            assert(reach(s0, parent_id, h) == set![parent_id] + reach_of(s0, n0, h));
            lemma_not_free(s0, self.free_blocks@, parent_id);
            assert forall|j: int| 0 <= j < n0.child_ids@.len() implies {
                &&& #[trigger] reach_of(s0, n0, h).contains(n0.child_ids@[j])
                &&& present(s0, n0.child_ids@[j])
                &&& node_local_ok(
                    node_at(s0, n0.child_ids@[j]),
                    hc,
                    child_lo(n0, lo, j),
                    child_hi(n0, hi, j),
                    m,
                )
                &&& n0.child_ids@[j] != parent_id
                &&& n0.child_ids@[j] != ROOT_ID
                &&& !self.free_blocks@.contains(n0.child_ids@[j])
            } by {
                let c = n0.child_ids@[j];
                lemma_wf_facts(s0, c, hc, child_lo(n0, lo, j), child_hi(n0, hi, j), m);
                assert(reach(s0, n0.child_ids@[j], hc).contains(c));
                assert(node_ok(s0, node_at(s0, c), hc, child_lo(n0, lo, j), child_hi(n0, hi, j), m));
                lemma_not_free(s0, self.free_blocks@, c);
            }
            assert forall|j: int, t: int| 0 <= j < t < n0.child_ids@.len() implies n0.child_ids@[j]
                != n0.child_ids@[t] by {
                let c = n0.child_ids@[j];
                lemma_wf_facts(s0, c, hc, child_lo(n0, lo, j), child_hi(n0, hi, j), m);
                assert(reach(s0, n0.child_ids@[j], hc).disjoint(reach(s0, n0.child_ids@[t], hc)));
                lemma_wf_facts(s0, n0.child_ids@[t], hc, child_lo(n0, lo, t), child_hi(n0, hi, t), m);
            }
        }
        let min = self.min_keys();
        let child_count = self.node_ref(parent_id).child_ids.len();
        let child_id = self.node_ref(parent_id).child_ids[child_idx];
        // Try redistribution first
        if child_idx > 0 {
            let sibling_id = self.node_ref(parent_id).child_ids[child_idx - 1];
            if self.node_ref(sibling_id).key_count > min as u32 {
                // Borrow from left sibling
                let a = child_idx - 1;
                let ghost ln = node_at(s0, sibling_id);
                let ghost cn = node_at(s0, child_id);
                let mut parent = self.take_node(parent_id);
                let mut sibling = self.take_node(sibling_id);
                let mut child = self.take_node(child_id);
                let mut separator = parent.keys[a].copy_key();
                let _ = child.borrow_from_left(&mut sibling, &mut separator);
                let ghost nk = separator;
                parent.keys.set(a, separator);
                let ghost l2 = sibling;
                let ghost c2 = child;
                let ghost p2 = parent;
                self.put_node(sibling_id, sibling);
                self.put_node(child_id, child);
                self.put_node(parent_id, parent);
                proof {
                    let s2 = self.nodes@;
                    assert(s2 =~= s0.update(sibling_id as int, Some(l2)).update(child_id as int, Some(c2)).update(
                        parent_id as int,
                        Some(p2),
                    ));
                    if h == 1 {
                        assert(l2.keys@ + c2.keys@ =~= ln.keys@ + cn.keys@);
                        assert(l2.values@ + c2.values@ =~= ln.values@ + cn.values@);
                    } else {
                        assert(l2.keys@.push(nk) + c2.keys@ =~= ln.keys@.push(n0.keys@[a as int]) + cn.keys@);
                        assert(l2.child_ids@ + c2.child_ids@ =~= ln.child_ids@ + cn.child_ids@);
                    }
                    crate::model_delete::lemma_borrow_step(s0, s2, parent_id, p2, a as int, l2, c2, nk, h, lo, hi, m);
                }
                proof {
                    lemma_underflow_fill(s0, f0, self.nodes@, self.free_blocks@, parent_id, child_idx as int, h, lo, hi, m);
                }
                return;
            }
        }
        if child_idx + 1 < child_count {
            let sibling_id = self.node_ref(parent_id).child_ids[child_idx + 1];
            if self.node_ref(sibling_id).key_count > min as u32 {
                // Borrow from right sibling
                let ghost rn = node_at(s0, sibling_id);
                let ghost cn = node_at(s0, child_id);
                let mut parent = self.take_node(parent_id);
                let mut sibling = self.take_node(sibling_id);
                let mut child = self.take_node(child_id);
                let mut separator = parent.keys[child_idx].copy_key();
                let _ = child.borrow_from_right(&mut sibling, &mut separator);
                let ghost nk = separator;
                parent.keys.set(child_idx, separator);
                let ghost r2 = sibling;
                let ghost c2 = child;
                let ghost p2 = parent;
                self.put_node(sibling_id, sibling);
                self.put_node(child_id, child);
                self.put_node(parent_id, parent);
                proof {
                    let s2 = self.nodes@;
                    assert(s2 =~= s0.update(child_id as int, Some(c2)).update(sibling_id as int, Some(r2)).update(
                        parent_id as int,
                        Some(p2),
                    ));
                    if h == 1 {
                        assert(c2.keys@ + r2.keys@ =~= cn.keys@ + rn.keys@);
                        assert(c2.values@ + r2.values@ =~= cn.values@ + rn.values@);
                    } else {
                        assert(c2.keys@.push(nk) + r2.keys@ =~= cn.keys@.push(n0.keys@[child_idx as int]) + rn.keys@);
                        assert(c2.child_ids@ + r2.child_ids@ =~= cn.child_ids@ + rn.child_ids@);
                    }
                    crate::model_delete::lemma_borrow_step(
                        s0,
                        s2,
                        parent_id,
                        p2,
                        child_idx as int,
                        c2,
                        r2,
                        nk,
                        h,
                        lo,
                        hi,
                        m,
                    );
                }
                proof {
                    lemma_underflow_fill(s0, f0, self.nodes@, self.free_blocks@, parent_id, child_idx as int, h, lo, hi, m);
                }
                return;
            }
        }
        // If redistribution fails, merge with a sibling
        if child_idx > 0 {
            let sibling_id = self.node_ref(parent_id).child_ids[child_idx - 1];
            self.merge_nodes(parent_id, sibling_id, child_id, child_idx - 1, Ghost(h), Ghost(lo), Ghost(hi));
        } else if child_idx + 1 < child_count {
            let sibling_id = self.node_ref(parent_id).child_ids[child_idx + 1];
            self.merge_nodes(parent_id, child_id, sibling_id, child_idx, Ghost(h), Ghost(lo), Ghost(hi));
        }
        proof {
            lemma_underflow_fill(s0, f0, self.nodes@, self.free_blocks@, parent_id, child_idx as int, h, lo, hi, m);
        }
    }

    /// Merge the node at `right_id` into its left neighbour at `left_id`,
    /// children `separator_idx` and `separator_idx + 1` of the node at
    /// `parent_id`, dropping their separator from the parent and freeing the
    /// right block.
    fn merge_nodes(
        &mut self,
        parent_id: BlockId,
        left_id: BlockId,
        right_id: BlockId,
        separator_idx: usize,
        Ghost(h): Ghost<nat>,
        Ghost(lo): Ghost<Option<int>>,
        Ghost(hi): Ghost<Option<int>>,
    )
        requires
            alloc_ok(old(self).nodes@, old(self).free_blocks@, old(self).max_keys_per_node),
            wf_node(old(self).nodes@, parent_id, h, lo, hi, old(self).max_keys_per_node as nat),
            !node_at(old(self).nodes@, parent_id).leaf(),
            separator_idx + 1 < node_at(old(self).nodes@, parent_id).child_ids@.len(),
            left_id == node_at(old(self).nodes@, parent_id).child_ids@[separator_idx as int],
            right_id == node_at(old(self).nodes@, parent_id).child_ids@[separator_idx + 1],
            node_at(old(self).nodes@, left_id).keys@.len() + node_at(old(self).nodes@, right_id).keys@.len() + 1
                <= old(self).max_keys_per_node,
            !reach_of(old(self).nodes@, node_at(old(self).nodes@, parent_id), h).contains(ROOT_ID),
        ensures
            keeps_touch(old(self).nodes@, old(self).touched@, final(self).nodes@, final(self).touched@),
            alloc_ok(final(self).nodes@, final(self).free_blocks@, final(self).max_keys_per_node),
            final(self).same_meta(old(self)),
            delete_frame(old(self).nodes@, final(self).nodes@, parent_id, h),
            wf_node(final(self).nodes@, parent_id, h, lo, hi, old(self).max_keys_per_node as nat),
            entries(final(self).nodes@, parent_id, h) == entries(old(self).nodes@, parent_id, h),
            forall|x: u64| #[trigger] reach(final(self).nodes@, parent_id, h).contains(x) ==> reach(
                old(self).nodes@,
                parent_id,
                h,
            ).contains(x),
            merged_into_left(old(self).nodes@, final(self).nodes@, parent_id, separator_idx as int),
            final(self).free_blocks@ == old(self).free_blocks@.push(right_id),
            final(self).nodes@.len() == old(self).nodes@.len(),
            forall|x: u64|
                x < old(self).nodes@.len() && x != parent_id && x != left_id && x != right_id ==> final(self).nodes@[x as int]
                    == #[trigger] old(self).nodes@[x as int],
    {
        let ghost s0 = self.nodes@;
        let ghost m = self.max_keys_per_node as nat;
        let ghost n0 = node_at(s0, parent_id);
        let ghost hc = (h - 1) as nat;
        let ghost a = separator_idx as int;
        proof {
            assert(node_ok(s0, n0, h, lo, hi, m));
            assert(node_local_ok(n0, h, lo, hi, m));
            assert(hc + 1 == h);
            assert(node_ok2(s0, n0, h, lo, hi, m, m));
            lemma_internal(s0, n0, h, hc, lo, hi, m, m);
            lemma_wf_facts(s0, parent_id, h, lo, hi, m);
            assert(reach(s0, parent_id, h) == set![parent_id] + reach_of(s0, n0, h));
            lemma_not_free(s0, self.free_blocks@, parent_id);
            lemma_wf_facts(s0, left_id, hc, child_lo(n0, lo, a), child_hi(n0, hi, a), m);
            lemma_wf_facts(s0, right_id, hc, child_lo(n0, lo, a + 1), child_hi(n0, hi, a + 1), m);
            assert(reach(s0, n0.child_ids@[a], hc).contains(left_id));
            assert(reach(s0, n0.child_ids@[a + 1], hc).contains(right_id));
            assert(reach(s0, n0.child_ids@[a], hc).disjoint(reach(s0, n0.child_ids@[a + 1], hc)));
            assert(reach_of(s0, n0, h).contains(left_id));
            assert(reach_of(s0, n0, h).contains(right_id));
            lemma_not_free(s0, self.free_blocks@, left_id);
            lemma_not_free(s0, self.free_blocks@, right_id);
            assert(node_ok(s0, node_at(s0, left_id), hc, child_lo(n0, lo, a), child_hi(n0, hi, a), m));
            assert(node_ok(s0, node_at(s0, right_id), hc, child_lo(n0, lo, a + 1), child_hi(n0, hi, a + 1), m));
        }
        let ghost ln = node_at(s0, left_id);
        let mut parent = self.take_node(parent_id);
        let mut left_node = self.take_node(left_id);
        let right_node = self.take_node(right_id);
        // Get separator key
        let separator_key = parent.keys.remove(separator_idx);
        parent.child_ids.remove(separator_idx + 1);
        parent.key_count = parent.key_count - 1;
        // Merge nodes
        left_node.absorb(right_node, separator_key);
        let ghost l2 = left_node;
        let ghost p2 = parent;
        self.put_node(left_id, left_node);
        self.free_block(right_id);
        self.put_node(parent_id, parent);
        proof {
            let s2 = self.nodes@;
            assert(s2 =~= s0.update(left_id as int, Some(l2)).update(right_id as int, None).update(
                parent_id as int,
                Some(p2),
            ));
            crate::model_delete::lemma_merge_step(s0, s2, parent_id, p2, a, l2, h, lo, hi, m);
        }
    }

    /// After a deletion: a root with no keys but a child is replaced by that
    /// child; an empty leaf root leaves the tree without a root.
    fn handle_root_underflow(&mut self)
        requires
            old(self).wf_loose(),
            old(self).root_exists && node_at(old(self).nodes@, ROOT_ID).keys@.len() == 0 && !node_at(
                old(self).nodes@,
                ROOT_ID,
            ).leaf() ==> first_child_settled(old(self).nodes@, ROOT_ID),
        ensures
            keeps_touch(old(self).nodes@, old(self).touched@, final(self).nodes@, final(self).touched@),
            final(self).wf(),
            final(self)@ == old(self)@,
            final(self).max_keys_per_node == old(self).max_keys_per_node,
            final(self).block_size == old(self).block_size,
            !old(self).root_exists ==> !final(self).root_exists && final(self).nodes@ == old(self).nodes@
                && final(self).free_blocks@ == old(self).free_blocks@,
            old(self).root_exists ==> root_underflow_handled(
                old(self).nodes@,
                old(self).free_blocks@,
                final(self).nodes@,
                final(self).free_blocks@,
                final(self).root_exists,
            ),
    {
        if !self.root_exists {
            return;
        }
        proof {
            let r0 = node_at(self.nodes@, ROOT_ID);
            let th = self.tree_height();
            assert(wf_node(self.nodes@, ROOT_ID, th, None, None, self.max_keys_per_node as nat));
            assert(node_ok(self.nodes@, r0, th, None, None, self.max_keys_per_node as nat));
            assert(node_local_ok(r0, th, None, None, self.max_keys_per_node as nat));
        }
        let ghost s0 = self.nodes@;
        let ghost m = self.max_keys_per_node as nat;
        let ghost h = self.tree_height();
        proof {
            assert(wf_node(s0, ROOT_ID, h, None, None, m));
            lemma_wf_facts(s0, ROOT_ID, h, None, None, m);
            lemma_not_free(s0, self.free_blocks@, ROOT_ID);
            assert(node_ok(s0, node_at(s0, ROOT_ID), h, None, None, m));
            assert(node_local_ok(node_at(s0, ROOT_ID), h, None, None, m));
        }
        let key_count = self.node_ref(ROOT_ID).key_count;
        let is_leaf = self.node_ref(ROOT_ID).is_leaf();
        // If root is empty and has children, replace root with its only child
        if key_count == 0 && self.node_ref(ROOT_ID).child_ids.len() > 0 {
            let only_child_id = self.node_ref(ROOT_ID).child_ids[0];
            proof {
                crate::model_delete::lemma_collapse_root(
                    s0,
                    s0.update(ROOT_ID as int, Some(node_at(s0, only_child_id))).update(only_child_id as int, None),
                    ROOT_ID,
                    h,
                    m,
                );
                assert(reach(s0, ROOT_ID, h).contains(only_child_id));
                lemma_not_free(s0, self.free_blocks@, only_child_id);
            }
            let only_child_node = self.take_node(only_child_id);
            self.put_node(ROOT_ID, only_child_node);
            self.free_block(only_child_id);
            proof {
                let s2 = self.nodes@;
                assert(s2 =~= s0.update(ROOT_ID as int, Some(node_at(s0, only_child_id))).update(
                    only_child_id as int,
                    None,
                ));
                lemma_wf_facts(s2, ROOT_ID, (h - 1) as nat, None, None, m);
                crate::model_update::lemma_height_unique(s2, ROOT_ID, (h - 1) as nat, self.tree_height(), m);
                assert(self@ == old(self)@);
                // the nodes below the new root were below the old one
                let mn = min_fill(m as int);
                let r0 = node_at(s0, ROOT_ID);
                let cn = node_at(s0, only_child_id);
                let hc = (h - 1) as nat;
                assert(node_ok2(s0, r0, h, None, None, m, m));
                lemma_internal(s0, r0, h, hc, None, None, m, m);
                assert(wf_node(s0, only_child_id, hc, child_lo(r0, None, 0), child_hi(r0, None, 0), m));
                lemma_wf_facts(s0, only_child_id, hc, child_lo(r0, None, 0), child_hi(r0, None, 0), m);
                assert(reach(s0, only_child_id, hc) == set![only_child_id] + reach_of(s0, cn, hc));
                assert(!reach_of(s0, cn, hc).contains(only_child_id));
                assert(reach_of(s0, r0, h).contains(only_child_id));
                assert forall|x: u64| #[trigger] reach_of(s0, cn, hc).contains(x) implies x < s2.len() && s2[x as int]
                    == s0[x as int] by {
                    assert(reach(s0, only_child_id, hc).contains(x));
                    assert(reach_of(s0, r0, h).contains(x));
                }
                assert(node_ok(s0, cn, hc, child_lo(r0, None, 0), child_hi(r0, None, 0), m));
                crate::model::lemma_frame_node(s0, s2, cn, hc, child_lo(r0, None, 0), child_hi(r0, None, 0), m);
                assert(node_at(s2, ROOT_ID) == cn);
                assert forall|x: u64| #[trigger] reach_of(s2, cn, hc).contains(x) implies node_at(s2, x).keys@.len()
                    >= mn by {
                    assert(reach(s0, only_child_id, hc).contains(x));
                    assert(reach_of(s0, r0, h).contains(x));
                }
                assert(cn.keys@.len() >= mn);
            }
        } else if key_count == 0 && is_leaf {
            // Tree is completely empty
            self.root_exists = false;
            self.entry_count = 0;
            let _ = self.take_node(ROOT_ID);
            proof {
                let n = node_at(s0, ROOT_ID);
                lemma_leaf_map(n.keys@, n.values@, 0);
                assert(old(self)@ == leaf_map(n.keys@, n.values@));
                assert(old(self)@ =~= Map::<int, V>::empty());
                assert(self@ =~= Map::<int, V>::empty());
            }
        }
    }

    /// Delete a key. Returns its value, if it was present.
    pub fn delete(&mut self, key: &K) -> (r: Option<V>)
        requires
            old(self).wf(),
        ensures
            min_fill(final(self).capacity()) >= 1 ==> (final(self).has_root() <==> final(self)@.len() > 0),
            final(self).balanced(),
            touch_ok(old(self).store(), old(self).touched_list(), final(self).store(), final(self).touched_list()),
            final(self).wf(),
            final(self)@ == old(self)@.remove(key.rank()),
            r == map_get(old(self)@, key.rank()),
            final(self).capacity() == old(self).capacity(),
            final(self).spec_block_size() == old(self).spec_block_size(),
            old(self).root_collapsed() ==> final(self).root_collapsed(),
            r is Some && node_at(old(self).store(), ROOT_ID).leaf() ==> (final(self).has_root() <==> final(self)@.len()
                > 0),
    {
        proof {
            lemma_touch_refl(self.nodes@, self.touched@);
        }
        if !self.root_exists {
            proof {
                assert(old(self)@.remove(key.rank()) =~= old(self)@);
                assert(self@ =~= Map::<int, V>::empty());
            }
            return None;
        }
        let ghost h = self.tree_height();
        let ghost m = self.max_keys_per_node as nat;
        let ghost k = key.rank();
        proof {
            assert(wf_node(self.nodes@, ROOT_ID, h, None, None, m));
        }
        match self.delete_recursive(ROOT_ID, key, Ghost(h), Ghost(None), Ghost(None)) {
            DeleteResult::KeyRemoved(value) => {
                proof {
                    old(self)@.lemma_remove_key_len(k);
                }
                self.entry_count = self.entry_count - 1;
                proof {
                    crate::model_update::lemma_height_unique(self.nodes@, ROOT_ID, h, self.tree_height(), m);
                    assert(self@ == old(self)@.remove(k));
                    assert(self.wf_loose());
                }
                let ghost mid = *self;
                proof {
                    let s0 = old(self).nodes@;
                    assert(node_ok(s0, node_at(s0, ROOT_ID), h, None, None, m));
                    assert(node_local_ok(node_at(s0, ROOT_ID), h, None, None, m));
                    assert(wf_node(mid.nodes@, ROOT_ID, h, None, None, m));
                    assert(node_ok(mid.nodes@, node_at(mid.nodes@, ROOT_ID), h, None, None, m));
                    assert(node_local_ok(node_at(mid.nodes@, ROOT_ID), h, None, None, m));
                }
                self.handle_root_underflow();
                proof {
                    lemma_root_step(mid, *self, node_at(old(self).nodes@, ROOT_ID).leaf(), old(self).root_collapsed());
                    if min_fill(self.max_keys_per_node as int) >= 1 {
                        law_root_iff_entries(*self);
                    }
                }
                Some(value)
            },
            DeleteResult::NoChange => {
                proof {
                    assert(old(self)@.remove(k) =~= old(self)@);
                    if min_fill(self.max_keys_per_node as int) >= 1 {
                        law_root_iff_entries(*self);
                    }
                }
                None
            },
            DeleteResult::TreeEmpty => {
                self.root_exists = false;
                self.entry_count = 0;
                None
            },
            DeleteResult::Underflow { value, .. } => {
                if value.is_some() {
                    self.entry_count = self.entry_count - 1;
                }
                self.handle_root_underflow();
                value
            },
        }
    }

    /// Delete several keys, one after the other. Returns, for each key, the
    /// value it had when its turn came.
    pub fn delete_batch(&mut self, keys: &[K]) -> (r: Vec<Option<V>>)
        requires
            old(self).wf(),
        ensures
            final(self).balanced(),
            old(self).root_collapsed() ==> final(self).root_collapsed(),
            touch_ok(old(self).store(), old(self).touched_list(), final(self).store(), final(self).touched_list()),
            final(self).wf(),
            final(self)@ == remove_each(old(self)@, keys@, keys@.len()),
            r@.len() == keys@.len(),
            forall|i: int|
                0 <= i < keys@.len() ==> #[trigger] r@[i] == map_get(
                    remove_each(old(self)@, keys@, i as nat),
                    keys@[i].rank(),
                ),
            final(self).capacity() == old(self).capacity(),
            final(self).spec_block_size() == old(self).spec_block_size(),
    {
        let mut results: Vec<Option<V>> = Vec::with_capacity(keys.len());
        let mut i: usize = 0;
        proof {
            lemma_touch_refl(self.nodes@, self.touched@);
        }
        while i < keys.len()
            invariant
                touch_ok(old(self).nodes@, old(self).touched@, self.nodes@, self.touched@),
                i <= keys@.len(),
                old(self).root_collapsed() ==> self.root_collapsed(),
                self.balanced(),
                self.wf(),
                self@ == remove_each(old(self)@, keys@, i as nat),
                results@.len() == i,
                forall|j: int|
                    0 <= j < i ==> #[trigger] results@[j] == map_get(
                        remove_each(old(self)@, keys@, j as nat),
                        keys@[j].rank(),
                    ),
                self.capacity() == old(self).capacity(),
                self.spec_block_size() == old(self).spec_block_size(),
            decreases keys@.len() - i,
        {
            let ghost s_before = self.nodes@;
            let ghost t_before = self.touched@;
            let r = self.delete(&keys[i]);
            proof {
                lemma_touch_trans(old(self).nodes@, old(self).touched@, s_before, t_before, self.nodes@, self.touched@);
            }
            results.push(r);
            i = i + 1;
        }
        results
    }

    /// Delete a key, restoring the tree's root state should the deletion
    /// fail. Returns the key's value, if it was present.
    pub fn delete_safe(&mut self, key: &K) -> (r: Option<V>)
        requires
            old(self).wf(),
        ensures
            final(self).balanced(),
            old(self).root_collapsed() ==> final(self).root_collapsed(),
            touch_ok(old(self).store(), old(self).touched_list(), final(self).store(), final(self).touched_list()),
            final(self).wf(),
            final(self)@ == old(self)@.remove(key.rank()),
            r == map_get(old(self)@, key.rank()),
            final(self).capacity() == old(self).capacity(),
            final(self).spec_block_size() == old(self).spec_block_size(),
    {
        self.delete(key)
    }
}

impl<K: TreeKey, V> BPTree<K, V> {
    /// The entries whose keys lie between `start` and `end`, in key order.
    pub fn range(&self, start: KeyBound<K>, end: KeyBound<K>) -> (r: Vec<(K, V)>) where V: Clone
        requires
            self.wf(),
        ensures
            range_listing(self@, start, end, r@),
    {
        let mut results: Vec<(K, V)> = Vec::new();
        if !self.root_exists {
            return results;
        }
        self.range_recursive(
            ROOT_ID,
            &start,
            &end,
            &mut results,
            Ghost(self.tree_height()),
            Ghost(None),
            Ghost(None),
        );
        proof {
            assert(results@.subrange(0, results@.len() as int) =~= results@);
        }
        results
    }

    /// Append to `out`, in key order, the entries of the subtree at
    /// `node_id` (of height `h` and key range `lo`..`hi`) whose keys lie
    /// between `start` and `end`, visiting only the children whose ranges
    /// can hold such keys.
    fn range_recursive(
        &self,
        node_id: BlockId,
        start: &KeyBound<K>,
        end: &KeyBound<K>,
        out: &mut Vec<(K, V)>,
        Ghost(h): Ghost<nat>,
        Ghost(lo): Ghost<Option<int>>,
        Ghost(hi): Ghost<Option<int>>,
    ) where V: Clone
        requires
            wf_node(self.nodes@, node_id, h, lo, hi, self.max_keys_per_node as nat),
            below_range(old(out)@, lo),
        ensures
            final(out)@.len() >= old(out)@.len(),
            final(out)@.subrange(0, old(out)@.len() as int) == old(out)@,
            range_listing(
                entries(self.nodes@, node_id, h),
                *start,
                *end,
                final(out)@.subrange(old(out)@.len() as int, final(out)@.len() as int),
            ),
            forall|i: int|
                old(out)@.len() <= i < final(out)@.len() ==> in_bounds(#[trigger] final(out)@[i].0.rank(), lo, hi),
        decreases h, 1nat,
    {
        proof {
            assert(node_ok(self.nodes@, node_at(self.nodes@, node_id), h, lo, hi, self.max_keys_per_node as nat));
        }
        if self.node_ref(node_id).is_leaf() {
            self.range_leaf(node_id, start, end, out, Ghost(h), Ghost(lo), Ghost(hi))
        } else {
            self.range_internal(node_id, start, end, out, Ghost(h), Ghost(lo), Ghost(hi))
        }
    }

    /// `range_recursive` at a leaf: its entries in the range, in order.
    fn range_leaf(
        &self,
        node_id: BlockId,
        start: &KeyBound<K>,
        end: &KeyBound<K>,
        out: &mut Vec<(K, V)>,
        Ghost(h): Ghost<nat>,
        Ghost(lo): Ghost<Option<int>>,
        Ghost(hi): Ghost<Option<int>>,
    ) where V: Clone
        requires
            wf_node(self.nodes@, node_id, h, lo, hi, self.max_keys_per_node as nat),
            below_range(old(out)@, lo),
            node_at(self.nodes@, node_id).leaf(),
        ensures
            final(out)@.len() >= old(out)@.len(),
            final(out)@.subrange(0, old(out)@.len() as int) == old(out)@,
            range_listing(
                entries(self.nodes@, node_id, h),
                *start,
                *end,
                final(out)@.subrange(old(out)@.len() as int, final(out)@.len() as int),
            ),
            forall|i: int|
                old(out)@.len() <= i < final(out)@.len() ==> in_bounds(#[trigger] final(out)@[i].0.rank(), lo, hi),
    {
        let ghost s = self.nodes@;
        let ghost m = self.max_keys_per_node as nat;
        let ghost n = node_at(s, node_id);
        let ghost base = out@;
        let node = self.node_ref(node_id);
        proof {
            assert(node_ok(s, n, h, lo, hi, m));
            assert(node_local_ok(n, h, lo, hi, m));
            lemma_listing_empty::<K, V>(*start, *end);
            assert(leaf_map_prefix(n.keys@, n.values@, 0) == Map::<int, V>::empty());
        }
        let ghost mut app: Seq<(K, V)> = Seq::empty();
        let mut i: usize = 0;
        while i < node.keys.len()
            invariant
                node == n,
                node_local_ok(n, h, lo, hi, m),
                n.leaf(),
                i <= n.keys@.len(),
                out@ == base + app,
                range_listing(leaf_map_prefix(n.keys@, n.values@, i as nat), *start, *end, app),
                forall|a: int| 0 <= a < app.len() ==> exists|t: int| 0 <= t < i && #[trigger] app[a].0 == n.keys@[t],
            decreases n.keys@.len() - i,
        {
            let key = &node.keys[i];
            let ghost prefix = leaf_map_prefix(n.keys@, n.values@, i as nat);
            proof {
                assert(leaf_map_prefix(n.keys@, n.values@, (i + 1) as nat) == prefix.insert(
                    n.keys@[i as int].rank(),
                    n.values@[i as int],
                ));
                assert forall|a: int| 0 <= a < app.len() implies #[trigger] app[a].0.rank() < key.rank() by {
                    let t = choose|t: int| 0 <= t < i && #[trigger] app[a].0 == n.keys@[t];
                }
            }
            if is_above_start(key, start) && is_below_end(key, end) {
                let copied = key.copy_key();
                let value = node.values[i].clone();
                proof {
                    lemma_listing_push(prefix, *start, *end, app, copied, n.values@[i as int], value);
                }
                out.push((copied, value));
                proof {
                    let old_app = app;
                    app = app.push((copied, value));
                    assert(out@ =~= base + app);
                    assert forall|a: int| 0 <= a < app.len() implies exists|t: int|
                        0 <= t < i + 1 && #[trigger] app[a].0 == n.keys@[t] by {
                        if a < old_app.len() {
                            assert(app[a] == old_app[a]);
                        } else {
                            assert(app[a].0 == n.keys@[i as int]);
                        }
                    }
                }
            } else {
                proof {
                    lemma_listing_skip(prefix, *start, *end, app, key.rank(), n.values@[i as int]);
                }
            }
            i = i + 1;
        }
        proof {
            lemma_leaf_map(n.keys@, n.values@, n.keys@.len());
            assert(entries(s, node_id, h) == leaf_map(n.keys@, n.values@));
            assert(out@.subrange(0, base.len() as int) =~= base);
            assert(out@.subrange(base.len() as int, out@.len() as int) =~= app);
            assert forall|a: int| base.len() <= a < out@.len() implies in_bounds(#[trigger] out@[a].0.rank(), lo, hi) by {
                assert(out@[a] == app[a - base.len()]);
                let t = choose|t: int| 0 <= t < i && #[trigger] app[a - base.len()].0 == n.keys@[t];
            }
        }
    }

    /// `range_recursive` at an internal node: the children whose ranges can
    /// hold keys of the range, in order.
    #[verifier::rlimit(40)]
    fn range_internal(
        &self,
        node_id: BlockId,
        start: &KeyBound<K>,
        end: &KeyBound<K>,
        out: &mut Vec<(K, V)>,
        Ghost(h): Ghost<nat>,
        Ghost(lo): Ghost<Option<int>>,
        Ghost(hi): Ghost<Option<int>>,
    ) where V: Clone
        requires
            wf_node(self.nodes@, node_id, h, lo, hi, self.max_keys_per_node as nat),
            below_range(old(out)@, lo),
            !node_at(self.nodes@, node_id).leaf(),
        ensures
            final(out)@.len() >= old(out)@.len(),
            final(out)@.subrange(0, old(out)@.len() as int) == old(out)@,
            range_listing(
                entries(self.nodes@, node_id, h),
                *start,
                *end,
                final(out)@.subrange(old(out)@.len() as int, final(out)@.len() as int),
            ),
            forall|i: int|
                old(out)@.len() <= i < final(out)@.len() ==> in_bounds(#[trigger] final(out)@[i].0.rank(), lo, hi),
        decreases h, 0nat,
    {
        let ghost s = self.nodes@;
        let ghost m = self.max_keys_per_node as nat;
        let ghost n = node_at(s, node_id);
        let ghost base = out@;
        let ghost hc = (h - 1) as nat;
        let node = self.node_ref(node_id);
        proof {
            assert(node_ok(s, n, h, lo, hi, m));
            assert(node_local_ok(n, h, lo, hi, m));
            assert(hc + 1 == h);
            assert(node_ok2(s, n, h, lo, hi, m, m));
            lemma_internal(s, n, h, hc, lo, hi, m, m);
            assert(entries(s, node_id, h) == entries_of(s, n, h));
            lemma_listing_empty::<K, V>(*start, *end);
        }
        let first = match start {
            KeyBound::Included(k) => node.child_index(k),
            KeyBound::Excluded(k) => node.child_index(k),
            KeyBound::Unbounded => 0,
        };
        let last = match end {
            KeyBound::Included(k) => node.child_index(k),
            KeyBound::Excluded(k) => node.child_index(k),
            KeyBound::Unbounded => node.keys.len(),
        };
        proof {
            // children before `first` and after `last` hold no key of the range
            assert forall|t: int, x: int|
                0 <= t < n.child_ids@.len() && (t < first || t > last) && #[trigger] entries(
                    s,
                    n.child_ids@[t],
                    hc,
                ).contains_key(x) implies !in_key_range(x, *start, *end) by {
                assert(in_bounds(x, child_lo(n, lo, t), child_hi(n, hi, t)));
                if t < first {
                    assert(x < n.keys@[t].rank());
                } else {
                    assert(n.keys@[t - 1].rank() <= x);
                }
            }
        }
        let child_count = node.child_ids.len();
        let ghost mut app: Seq<(K, V)> = Seq::empty();
        let ghost mut seen: Map<int, V> = Map::empty();
        let mut j: usize = first;
        while j <= last
            invariant
                node == n,
                n == node_at(s, node_id),
                s == self.nodes@,
                m == self.max_keys_per_node as nat,
                h == hc + 1,
                !n.leaf(),
                n.child_ids@.len() == n.keys@.len() + 1,
                sorted_keys_of(n),
                forall|t: int| 0 <= t < n.keys@.len() ==> in_bounds(#[trigger] n.keys@[t].rank(), lo, hi),
                first <= j,
                last <= n.keys@.len(),
                j <= last + 1 || j == first,
                out@ == base + app,
                below_range(base, lo),
                forall|t: int|
                    #![trigger n.child_ids@[t]]
                    0 <= t < n.child_ids@.len() ==> wf_node(s, n.child_ids@[t], hc, child_lo(n, lo, t), child_hi(n, hi, t), m),
                forall|t: int, x: int|
                    0 <= t < n.child_ids@.len() && #[trigger] entries(s, n.child_ids@[t], hc).contains_key(x) ==> {
                        &&& in_bounds(x, child_lo(n, lo, t), child_hi(n, hi, t))
                        &&& entries_of(s, n, h).contains_key(x)
                        &&& entries_of(s, n, h)[x] == entries(s, n.child_ids@[t], hc)[x]
                    },
                range_listing(seen, *start, *end, app),
                forall|x: int|
                    #[trigger] seen.contains_key(x) ==> entries_of(s, n, h).contains_key(x) && seen[x] == entries_of(
                        s,
                        n,
                        h,
                    )[x] && (j > first && j - 1 < n.keys@.len() ==> x < n.keys@[j - 1].rank()),
                forall|t: int, x: int|
                    first <= t < j && #[trigger] entries(s, n.child_ids@[t], hc).contains_key(x) ==> seen.contains_key(x),
                forall|a: int| 0 <= a < app.len() ==> in_bounds(#[trigger] app[a].0.rank(), lo, hi) && (j > first && j - 1
                    < n.keys@.len() ==> app[a].0.rank() < n.keys@[j - 1].rank()),
                j == first ==> app.len() == 0,
                j == first ==> forall|x: int| !#[trigger] seen.contains_key(x),
                n.child_ids@.len() <= usize::MAX,
            decreases last + 1 - j,
        {
            let child = node.child_ids[j];
            let ghost prev = out@;
            let ghost cl = child_lo(n, lo, j as int);
            let ghost ch = child_hi(n, hi, j as int);
            proof {
                assert(wf_node(s, n.child_ids@[j as int], hc, cl, ch, m));
                assert forall|a: int| 0 <= a < prev.len() implies (cl matches Some(l) && #[trigger] prev[a].0.rank() < l) by {
                    if a < base.len() {
                        assert(prev[a] == base[a]);
                        assert(lo matches Some(l0) && base[a].0.rank() < l0);
                        if j > 0 {
                            assert(in_bounds(n.keys@[j - 1].rank(), lo, hi));
                        }
                    } else {
                        assert(prev[a] == app[a - base.len()]);
                        assert(j > first);
                        assert(j - 1 < n.keys@.len());
                        assert(app[a - base.len()].0.rank() < n.keys@[j - 1].rank());
                        assert(cl == Some(n.keys@[j - 1].rank()));
                    }
                }
            }
            self.range_recursive(child, start, end, out, Ghost(hc), Ghost(cl), Ghost(ch));
            proof {
                let pl = prev.len() as int;
                let added = out@.subrange(pl, out@.len() as int);
                let f = entries(s, n.child_ids@[j as int], hc);
                assert(out@ =~= prev + added);
                assert(out@ =~= base + (app + added));
                assert forall|a: int, c: int| 0 <= a < app.len() && 0 <= c < added.len() implies #[trigger] app[a].0.rank()
                    < #[trigger] added[c].0.rank() by {
                    assert(added[c] == out@[pl + c]);
                    if j == first {
                        assert(seen.contains_key(app[a].0.rank()));
                    }
                }
                assert forall|x: int| #[trigger] seen.contains_key(x) implies !f.contains_key(x) by {
                    if j > first && f.contains_key(x) {
                        assert(j - 1 < n.keys@.len());
                        assert(x < n.keys@[j - 1].rank());
                        assert(in_bounds(x, cl, ch));
                        assert(cl == Some(n.keys@[j - 1].rank()));
                    }
                }
                lemma_listing_concat(seen, f, *start, *end, app, added);
                let old_seen = seen;
                let old_app = app;
                seen = seen.union_prefer_right(f);
                app = app + added;
                if j < n.keys@.len() {
                    assert(in_bounds(n.keys@[j as int].rank(), lo, hi));
                }
                assert forall|x: int| #[trigger] seen.contains_key(x) implies entries_of(s, n, h).contains_key(x) && seen[x]
                    == entries_of(s, n, h)[x] && (j + 1 > first ==> (j < n.keys@.len() ==> x < n.keys@[j as int].rank())) by {
                    if f.contains_key(x) {
                        assert(in_bounds(x, cl, ch));
                        assert(seen[x] == f[x]);
                    } else {
                        assert(old_seen.contains_key(x));
                        assert(seen[x] == old_seen[x]);
                        assert(j > first);
                        assert(j - 1 < n.keys@.len());
                        assert(x < n.keys@[j - 1].rank());
                        if j < n.keys@.len() {
                            assert(n.keys@[j - 1].rank() < n.keys@[j as int].rank());
                        }
                    }
                }
                assert forall|a: int| 0 <= a < app.len() implies in_bounds(#[trigger] app[a].0.rank(), lo, hi) && (j < n.keys@.len()
                    ==> app[a].0.rank() < n.keys@[j as int].rank()) by {
                    if a < old_app.len() {
                        assert(app[a] == old_app[a]);
                        if j > first {
                            if j < n.keys@.len() {
                                assert(n.keys@[j - 1].rank() < n.keys@[j as int].rank());
                            }
                        } else {
                            assert(old_app.len() == 0) by {
                                if old_app.len() > 0 {
                                    assert(old_seen.contains_key(old_app[0].0.rank()));
                                }
                            }
                        }
                    } else {
                        assert(app[a] == added[a - old_app.len()]);
                        assert(out@[pl + a - old_app.len()] == added[a - old_app.len()]);
                        assert(in_bounds(added[a - old_app.len()].0.rank(), cl, ch));
                        if j > 0 {
                            assert(in_bounds(n.keys@[j - 1].rank(), lo, hi));
                        }
                    }
                }
                assert forall|t: int, x: int|
                    first <= t < j + 1 && #[trigger] entries(s, n.child_ids@[t], hc).contains_key(x) implies seen.contains_key(x) by {
                    if t < j {
                        assert(old_seen.contains_key(x));
                    }
                }
            }
            j = j + 1;
        }
        proof {
            let e = entries_of(s, n, h);
            assert forall|x: int| in_key_range(x, *start, *end) implies (#[trigger] seen.contains_key(x) == e.contains_key(x))
                && (seen.contains_key(x) ==> seen[x] == e[x]) by {
                if e.contains_key(x) {
                    let t = choose|t: int| 0 <= t < n.child_ids@.len() && #[trigger] entries(s, n.child_ids@[t], hc).contains_key(x);
                    if t < first || t > last {
                    } else {
                        assert(seen.contains_key(x));
                    }
                }
            }
            lemma_listing_agree(seen, e, *start, *end, app);
            assert(out@.subrange(0, base.len() as int) =~= base);
            assert(out@.subrange(base.len() as int, out@.len() as int) =~= app);
            assert forall|a: int| base.len() <= a < out@.len() implies in_bounds(#[trigger] out@[a].0.rank(), lo, hi) by {
                assert(out@[a] == app[a - base.len()]);
            }
        }
    }

}

impl<K: TreeKey, V> BPTree<K, V> {
    /// The entry with the least key between `start` and `end`, if there is
    /// one.
    fn first_in_range(&self, start: &KeyBound<K>, end: &KeyBound<K>) -> (r: Option<(K, V)>) where V: Clone
        requires
            self.wf(),
        ensures
            range_first(self@, *start, *end, r),
    {
        if !self.root_exists {
            return None;
        }
        self.first_recursive(ROOT_ID, start, end, Ghost(self.tree_height()), Ghost(None), Ghost(None))
    }

    /// The entry with the least key between `start` and `end` in the subtree
    /// at `node_id` (of height `h` and key range `lo`..`hi`), if there is one.
    fn first_recursive(
        &self,
        node_id: BlockId,
        start: &KeyBound<K>,
        end: &KeyBound<K>,
        Ghost(h): Ghost<nat>,
        Ghost(lo): Ghost<Option<int>>,
        Ghost(hi): Ghost<Option<int>>,
    ) -> (r: Option<(K, V)>) where V: Clone
        requires
            wf_node(self.nodes@, node_id, h, lo, hi, self.max_keys_per_node as nat),
        ensures
            range_first(entries(self.nodes@, node_id, h), *start, *end, r),
        decreases h, 1nat,
    {
        proof {
            assert(node_ok(self.nodes@, node_at(self.nodes@, node_id), h, lo, hi, self.max_keys_per_node as nat));
        }
        if self.node_ref(node_id).is_leaf() {
            self.first_in_leaf(node_id, start, end, Ghost(h), Ghost(lo), Ghost(hi))
        } else {
            self.first_in_internal(node_id, start, end, Ghost(h), Ghost(lo), Ghost(hi))
        }
    }

    /// `first_recursive` at a leaf: its first key from `start` on, if that
    /// key is not past `end`.
    fn first_in_leaf(
        &self,
        node_id: BlockId,
        start: &KeyBound<K>,
        end: &KeyBound<K>,
        Ghost(h): Ghost<nat>,
        Ghost(lo): Ghost<Option<int>>,
        Ghost(hi): Ghost<Option<int>>,
    ) -> (r: Option<(K, V)>) where V: Clone
        requires
            wf_node(self.nodes@, node_id, h, lo, hi, self.max_keys_per_node as nat),
            node_at(self.nodes@, node_id).leaf(),
        ensures
            range_first(entries(self.nodes@, node_id, h), *start, *end, r),
    {
        let ghost s = self.nodes@;
        let ghost m = self.max_keys_per_node as nat;
        let ghost n = node_at(s, node_id);
        let ghost e = leaf_map(n.keys@, n.values@);
        let node = self.node_ref(node_id);
        proof {
            assert(node_ok(s, n, h, lo, hi, m));
            assert(node_local_ok(n, h, lo, hi, m));
            lemma_leaf_map(n.keys@, n.values@, n.keys@.len());
            assert(entries(s, node_id, h) == e);
        }
        let mut i: usize = 0;
        while i < node.keys.len()
            invariant
                node == n,
                node_local_ok(n, h, lo, hi, m),
                n.leaf(),
                i <= n.keys@.len(),
                e == leaf_map(n.keys@, n.values@),
                s == self.nodes@,
                entries(s, node_id, h) == e,
                forall|x: int| e.contains_key(x) <==> exists|j: int| 0 <= j < n.keys@.len() && #[trigger] n.keys@[j].rank() == x,
                forall|j: int| 0 <= j < n.keys@.len() ==> e[#[trigger] n.keys@[j].rank()] == n.values@[j],
                forall|t: int| 0 <= t < i ==> !above_start(#[trigger] n.keys@[t].rank(), *start),
            decreases n.keys@.len() - i,
        {
            let key = &node.keys[i];
            if is_above_start(key, start) {
                if is_below_end(key, end) {
                    let copied = key.copy_key();
                    let value = node.values[i].clone();
                    proof {
                        assert(e[n.keys@[i as int].rank()] == n.values@[i as int]);
                        assert forall|y: int| #[trigger] e.contains_key(y) && in_key_range(y, *start, *end) implies copied.rank()
                            <= y by {
                            let t = choose|t: int| 0 <= t < n.keys@.len() && #[trigger] n.keys@[t].rank() == y;
                            if t < i {
                                assert(!above_start(n.keys@[t].rank(), *start));
                            } else if t > i {
                                assert(n.keys@[i as int].rank() < n.keys@[t].rank());
                            }
                        }
                    }
                    return Some((copied, value));
                } else {
                    proof {
                        assert forall|y: int| #[trigger] e.contains_key(y) implies !in_key_range(y, *start, *end) by {
                            let t = choose|t: int| 0 <= t < n.keys@.len() && #[trigger] n.keys@[t].rank() == y;
                            if t < i {
                                assert(!above_start(n.keys@[t].rank(), *start));
                            } else if t > i {
                                assert(n.keys@[i as int].rank() < n.keys@[t].rank());
                            }
                        }
                    }
                    return None;
                }
            }
            i = i + 1;
        }
        proof {
            assert forall|y: int| #[trigger] e.contains_key(y) implies !in_key_range(y, *start, *end) by {
                let t = choose|t: int| 0 <= t < n.keys@.len() && #[trigger] n.keys@[t].rank() == y;
                assert(!above_start(n.keys@[t].rank(), *start));
            }
        }
        None
    }

    /// `first_recursive` at an internal node: the children from the one
    /// whose range holds `start` on, in order, until one has an entry in the
    /// range or the next separator is past `end`.
    #[verifier::rlimit(40)]
    fn first_in_internal(
        &self,
        node_id: BlockId,
        start: &KeyBound<K>,
        end: &KeyBound<K>,
        Ghost(h): Ghost<nat>,
        Ghost(lo): Ghost<Option<int>>,
        Ghost(hi): Ghost<Option<int>>,
    ) -> (r: Option<(K, V)>) where V: Clone
        requires
            wf_node(self.nodes@, node_id, h, lo, hi, self.max_keys_per_node as nat),
            !node_at(self.nodes@, node_id).leaf(),
        ensures
            range_first(entries(self.nodes@, node_id, h), *start, *end, r),
        decreases h, 0nat,
    {
        let ghost s = self.nodes@;
        let ghost m = self.max_keys_per_node as nat;
        let ghost n = node_at(s, node_id);
        let ghost hc = (h - 1) as nat;
        let ghost e = entries_of(s, n, h);
        let node = self.node_ref(node_id);
        proof {
            assert(node_ok(s, n, h, lo, hi, m));
            assert(node_local_ok(n, h, lo, hi, m));
            assert(hc + 1 == h);
            assert(node_ok2(s, n, h, lo, hi, m, m));
            lemma_internal(s, n, h, hc, lo, hi, m, m);
            assert(entries(s, node_id, h) == e);
        }
        let first = match start {
            KeyBound::Included(k) => node.child_index(k),
            KeyBound::Excluded(k) => node.child_index(k),
            KeyBound::Unbounded => 0,
        };
        proof {
            // the children before `first` hold only keys before the start
            assert forall|t: int, x: int|
                0 <= t < first && #[trigger] entries(s, n.child_ids@[t], hc).contains_key(x) implies !in_key_range(
                x,
                *start,
                *end,
            ) by {
                assert(in_bounds(x, child_lo(n, lo, t), child_hi(n, hi, t)));
                assert(x < n.keys@[t].rank());
            }
        }
        let mut j: usize = first;
        while j < node.child_ids.len()
            invariant
                node == n,
                n == node_at(s, node_id),
                s == self.nodes@,
                m == self.max_keys_per_node as nat,
                h == hc + 1,
                !n.leaf(),
                e == entries_of(s, n, h),
                n.child_ids@.len() == n.keys@.len() + 1,
                sorted_keys_of(n),
                first <= j <= n.child_ids@.len(),
                forall|t: int|
                    #![trigger n.child_ids@[t]]
                    0 <= t < n.child_ids@.len() ==> wf_node(s, n.child_ids@[t], hc, child_lo(n, lo, t), child_hi(n, hi, t), m),
                forall|t: int, x: int|
                    0 <= t < n.child_ids@.len() && #[trigger] entries(s, n.child_ids@[t], hc).contains_key(x) ==> {
                        &&& in_bounds(x, child_lo(n, lo, t), child_hi(n, hi, t))
                        &&& e.contains_key(x)
                        &&& e[x] == entries(s, n.child_ids@[t], hc)[x]
                    },
                forall|x: int|
                    e.contains_key(x) ==> exists|t: int|
                        0 <= t < n.child_ids@.len() && #[trigger] entries(s, n.child_ids@[t], hc).contains_key(x),
                forall|t: int, x: int|
                    0 <= t < j && #[trigger] entries(s, n.child_ids@[t], hc).contains_key(x) ==> !in_key_range(x, *start, *end),
            decreases n.child_ids@.len() - j,
        {
            let child = node.child_ids[j];
            let ghost f = entries(s, n.child_ids@[j as int], hc);
            proof {
                assert(wf_node(s, n.child_ids@[j as int], hc, child_lo(n, lo, j as int), child_hi(n, hi, j as int), m));
            }
            let r = self.first_recursive(
                child,
                start,
                end,
                Ghost(hc),
                Ghost(child_lo(n, lo, j as int)),
                Ghost(child_hi(n, hi, j as int)),
            );
            match r {
                Some(p) => {
                    proof {
                        let k = p.0.rank();
                        assert(f.contains_key(k));
                        assert(in_bounds(k, child_lo(n, lo, j as int), child_hi(n, hi, j as int)));
                        assert forall|y: int| #[trigger] e.contains_key(y) && in_key_range(y, *start, *end) implies k <= y by {
                            let t = choose|t: int|
                                0 <= t < n.child_ids@.len() && #[trigger] entries(s, n.child_ids@[t], hc).contains_key(y);
                            if t > j {
                                assert(in_bounds(y, child_lo(n, lo, t), child_hi(n, hi, t)));
                                assert(n.keys@[j as int].rank() <= n.keys@[t - 1].rank());
                            } else if t == j {
                                assert(f.contains_key(y));
                            }
                        }
                    }
                    return Some(p);
                },
                None => {
                    if j < node.keys.len() && !is_below_end(&node.keys[j], end) {
                        proof {
                            assert forall|y: int| #[trigger] e.contains_key(y) implies !in_key_range(y, *start, *end) by {
                                let t = choose|t: int|
                                    0 <= t < n.child_ids@.len() && #[trigger] entries(s, n.child_ids@[t], hc).contains_key(y);
                                if t > j {
                                    assert(in_bounds(y, child_lo(n, lo, t), child_hi(n, hi, t)));
                                    assert(n.keys@[j as int].rank() <= n.keys@[t - 1].rank());
                                } else if t == j {
                                    assert(f.contains_key(y));
                                }
                            }
                        }
                        return None;
                    }
                    proof {
                        assert forall|t: int, x: int|
                            0 <= t < j + 1 && #[trigger] entries(s, n.child_ids@[t], hc).contains_key(x) implies !in_key_range(
                            x,
                            *start,
                            *end,
                        ) by {
                            if t == j {
                                assert(f.contains_key(x));
                            }
                        }
                    }
                },
            }
            j = j + 1;
        }
        proof {
            assert forall|y: int| #[trigger] e.contains_key(y) implies !in_key_range(y, *start, *end) by {
                let t = choose|t: int| 0 <= t < n.child_ids@.len() && #[trigger] entries(s, n.child_ids@[t], hc).contains_key(y);
            }
        }
        None
    }
}

/// A walk, in key order, through the entries of a tree whose keys lie in a
/// range: each call of `next` gives the entry that follows the last one given.
pub struct BPTreeRangeIter<'a, K, V> {
    tree: &'a BPTree<K, V>,
    start: KeyBound<K>,
    end: KeyBound<K>,
}

impl<'a, K: TreeKey, V> BPTreeRangeIter<'a, K, V> {
    /// The tree walked through.
    pub closed spec fn tree(&self) -> BPTree<K, V> {
        *self.tree
    }

    /// Where the walk goes on: the entries not yet given are those from
    /// here to the end.
    pub closed spec fn start(&self) -> KeyBound<K> {
        self.start
    }

    /// Where the walk stops.
    pub closed spec fn end(&self) -> KeyBound<K> {
        self.end
    }

    /// The entry with the least key not yet given, or `None` when the range
    /// holds no more entries.
    pub fn next(&mut self) -> (r: Option<(K, V)>) where V: Clone
        requires
            old(self).tree().wf(),
        ensures
            final(self).tree() == old(self).tree(),
            final(self).end() == old(self).end(),
            range_first(old(self).tree()@, old(self).start(), old(self).end(), r),
            r matches Some(p) ==> final(self).start() == KeyBound::Excluded(p.0),
            r is None ==> final(self).start() == old(self).start(),
    {
        match self.tree.first_in_range(&self.start, &self.end) {
            Some(p) => {
                self.start = KeyBound::Excluded(p.0.copy_key());
                Some(p)
            },
            None => None,
        }
    }
}

impl<K: TreeKey, V> BPTree<K, V> {
    /// A walk through all entries, in key order.
    pub fn iter<'a>(&'a self) -> (r: BPTreeRangeIter<'a, K, V>)
        ensures
            r.tree() == *self,
            r.start() == KeyBound::<K>::Unbounded,
            r.end() == KeyBound::<K>::Unbounded,
    {
        BPTreeRangeIter { tree: self, start: KeyBound::Unbounded, end: KeyBound::Unbounded }
    }

    /// A walk through the entries whose keys lie between `start` and `end`,
    /// in key order.
    pub fn iter_range<'a>(&'a self, start: KeyBound<K>, end: KeyBound<K>) -> (r: BPTreeRangeIter<'a, K, V>)
        ensures
            r.tree() == *self,
            r.start() == start,
            r.end() == end,
    {
        BPTreeRangeIter { tree: self, start, end }
    }
}

/// The kinds of error that checking a tree gives: a block that should hold a
/// node and does not, a node whose fields disagree, or a broken rule of the
/// tree.
pub open spec fn check_failure(e: BPTreeError) -> bool {
    ||| e is ValidationFailed
    ||| e is NodeCorrupted
    ||| e matches BPTreeError::Storage(StorageError::BlockNotFound(_))
}

impl<K: TreeKey, V> BPTree<K, V> {
    /// The tree's bookkeeping is sound: the reserved blocks are there and
    /// block 0 is empty, the node capacity is in range, the free list is
    /// sound, and without a root block 1 is empty and no entry is recorded.
    pub open spec fn table_ok(&self) -> bool {
        &&& self.store().len() >= 2
        &&& self.store()[0] is None
        &&& 2 <= self.capacity() < u32::MAX
        &&& free_list_ok(self.store(), self.free_list())
        &&& !self.has_root() ==> self.store()[ROOT_ID as int] is None && self.recorded_len() == 0
    }
}

/// The message of a disagreement between the recorded and the counted
/// number of entries, made by std's `format!`, which copies the text before
/// the first placeholder as it stands: the message begins with
/// "entry_count mismatch". The rest, the two counts in decimal, is left
/// unsaid.
#[verifier::external_body]
fn count_mismatch_message(expected: u64, actual: u64) -> (r: String)
    ensures
        starts_with(r@, "entry_count mismatch"@),
{
    format!("entry_count mismatch: expected {}, actual {}", expected, actual)
}

impl<K: TreeKey, V> BPTree<K, V> {
    /// Check the tree: the block table, the free list, the metadata and
    /// every node reachable from the root. Succeeds exactly when the tree is
    /// sound.
    pub fn validate(&self) -> (r: Result<(), BPTreeError>)
        ensures
            r is Ok ==> self.balanced(),
            r is Ok <==> self.wf(),
            r matches Err(e) ==> check_failure(e),
            !self.table_ok() ==> r is Err && r->Err_0 is ValidationFailed,
            self.table_ok() && self.has_root() && wf_node(self.store(), ROOT_ID, self.tree_height(), None, None, self.capacity() as nat)
                && self@.len() <= u64::MAX && self@.len() != self.recorded_len() ==> r is Err && r->Err_0 is ValidationFailed && starts_with(
                r->Err_0->ValidationFailed_0@,
                "entry_count mismatch"@,
            ),
    {
        if self.nodes.len() < 2 {
            return Err(BPTreeError::ValidationFailed("Block table lacks the reserved blocks".to_owned()));
        }
        if self.nodes[0].is_some() {
            return Err(BPTreeError::ValidationFailed("Block 0 holds a node".to_owned()));
        }
        if self.max_keys_per_node < 2 || self.max_keys_per_node >= 0xffff_ffffusize {
            return Err(BPTreeError::ValidationFailed("Node capacity out of range".to_owned()));
        }
        match self.check_free_list() {
            Ok(()) => {},
            Err(e) => {
                return Err(e);
            },
        }
        if !self.root_exists {
            if self.nodes[1].is_some() {
                return Err(BPTreeError::ValidationFailed("Root block holds a node of no tree".to_owned()));
            }
            if self.entry_count != 0 {
                return Err(
                    BPTreeError::ValidationFailed("Root does not exist but entry_count is not 0".to_owned()),
                );
            }
            proof {
                assert(self@ =~= Map::<int, V>::empty());
            }
            return Ok(());
        }
        let ghost hh = self.tree_height();
        proof {
            if wf_node(self.nodes@, ROOT_ID, hh, None, None, self.max_keys_per_node as nat) {
                crate::model_check::lemma_height_below_len(self.nodes@, ROOT_ID, hh, None, None, self.max_keys_per_node as nat);
            }
        }
        let height = match self.leftmost_height(Ghost(hh)) {
            Some(h) => h,
            None => {
                return Err(BPTreeError::ValidationFailed("No leaf below the root".to_owned()));
            },
        };
        let mut visited: Vec<bool> = vec![false; self.nodes.len()];
        proof {
            assert(marked(visited@) =~= Set::<u64>::empty());
        }
        let actual_count = match self.validate_recursive(ROOT_ID, height, None, None, &mut visited) {
            Ok(c) => c,
            Err(e) => {
                proof {
                    if wf_node(self.nodes@, ROOT_ID, hh, None, None, self.max_keys_per_node as nat) && self@.len()
                        <= u64::MAX {
                        assert(reach(self.nodes@, ROOT_ID, hh).disjoint(Set::<u64>::empty()));
                        assert(subtree_checks(
                            self.nodes@,
                            ROOT_ID,
                            hh,
                            None,
                            None,
                            self.max_keys_per_node as nat,
                            Set::<u64>::empty(),
                        ));
                    }
                }
                return Err(e);
            },
        };
        let ghost m = self.max_keys_per_node as nat;
        proof {
            lemma_wf_facts(self.nodes@, ROOT_ID, height as nat, None, None, m);
            crate::model_update::lemma_height_unique(self.nodes@, ROOT_ID, height as nat, self.tree_height(), m);
        }
        if actual_count != self.entry_count {
            return Err(BPTreeError::ValidationFailed(count_mismatch_message(self.entry_count, actual_count)));
        }
        let min = self.min_keys();
        let root_keys = self.node_ref(ROOT_ID).keys.len();
        proof {
            let r0 = node_at(self.nodes@, ROOT_ID);
            assert(node_ok(self.nodes@, r0, height as nat, None, None, m));
            assert(node_local_ok(r0, height as nat, None, None, m));
        }
        if root_keys == 0 && (!self.node_ref(ROOT_ID).is_leaf() || min >= 1) {
            return Err(BPTreeError::ValidationFailed("Root holds no key".to_owned()));
        }
        if !self.check_fill(ROOT_ID, height, min, Ghost(None), Ghost(None)) {
            return Err(BPTreeError::ValidationFailed("Node holds too few keys".to_owned()));
        }
        Ok(())
    }

    /// Whether every node below the top of the subtree at `node_id` (of
    /// height `height` and key range `lo`..`hi`) holds at least `min` keys.
    fn check_fill(
        &self,
        node_id: BlockId,
        height: usize,
        min: usize,
        Ghost(lo): Ghost<Option<int>>,
        Ghost(hi): Ghost<Option<int>>,
    ) -> (r: bool)
        requires
            wf_node(self.nodes@, node_id, height as nat, lo, hi, self.max_keys_per_node as nat),
        ensures
            r == filled(self.nodes@, node_id, height as nat, min as int),
        decreases height,
    {
        let ghost s = self.nodes@;
        let ghost m = self.max_keys_per_node as nat;
        let ghost n = node_at(s, node_id);
        let ghost h = height as nat;
        let node = self.node_ref(node_id);
        proof {
            assert(node_ok(s, n, h, lo, hi, m));
            assert(node_local_ok(n, h, lo, hi, m));
        }
        if node.is_leaf() {
            proof {
                assert(reach_of(s, n, h) =~= Set::<u64>::empty());
            }
            return true;
        }
        let ghost hc = (h - 1) as nat;
        proof {
            assert(hc + 1 == h);
            assert(node_ok2(s, n, h, lo, hi, m, m));
            lemma_internal(s, n, h, hc, lo, hi, m, m);
            lemma_filled_kids(s, n, h, hc, lo, hi, m, m, min as int);
        }
        let mut i: usize = 0;
        while i < node.child_ids.len()
            invariant
                node == n,
                n == node_at(s, node_id),
                s == self.nodes@,
                m == self.max_keys_per_node as nat,
                h == height as nat,
                h == hc + 1,
                !n.leaf(),
                i <= n.child_ids@.len(),
                forall|t: int|
                    #![trigger n.child_ids@[t]]
                    0 <= t < n.child_ids@.len() ==> wf_node(s, n.child_ids@[t], hc, child_lo(n, lo, t), child_hi(n, hi, t), m),
                forall|t: int| 0 <= t < i ==> #[trigger] kid_filled(s, n.child_ids@[t], hc, min as int),
                filled(s, node_id, h, min as int) <==> forall|t: int|
                    0 <= t < n.child_ids@.len() ==> #[trigger] kid_filled(s, n.child_ids@[t], hc, min as int),
            decreases n.child_ids@.len() - i,
        {
            let c = node.child_ids[i];
            proof {
                assert(wf_node(s, n.child_ids@[i as int], hc, child_lo(n, lo, i as int), child_hi(n, hi, i as int), m));
                assert(present(s, c));
            }
            if self.node_ref(c).keys.len() < min {
                proof {
                    assert(!kid_filled(s, n.child_ids@[i as int], hc, min as int));
                }
                return false;
            }
            if !self.check_fill(c, height - 1, min, Ghost(child_lo(n, lo, i as int)), Ghost(child_hi(n, hi, i as int))) {
                proof {
                    assert(!kid_filled(s, n.child_ids@[i as int], hc, min as int));
                }
                return false;
            }
            i = i + 1;
        }
        true
    }

    /// Check the free list: distinct blocks, none reserved, none in use.
    fn check_free_list(&self) -> (r: Result<(), BPTreeError>)
        ensures
            r is Ok <==> free_list_ok(self.nodes@, self.free_blocks@),
            r matches Err(e) ==> e is ValidationFailed,
    {
        let n = self.nodes.len();
        let mut seen: Vec<bool> = vec![false; n];
        let mut i: usize = 0;
        while i < self.free_blocks.len()
            invariant
                n == self.nodes@.len(),
                seen@.len() == n,
                i <= self.free_blocks@.len(),
                forall|j: int|
                    0 <= j < i ==> 2 <= #[trigger] self.free_blocks@[j] < n && self.nodes@[self.free_blocks@[j] as int] is None,
                forall|a: int, b: int| 0 <= a < i && 0 <= b < i && a != b ==> self.free_blocks@[a] != self.free_blocks@[b],
                forall|x: int| 0 <= x < n ==> (#[trigger] seen@[x] <==> exists|j: int| 0 <= j < i && self.free_blocks@[j] == x),
            decreases self.free_blocks@.len() - i,
        {
            let id = self.free_blocks[i];
            if id < 2 || id >= n as u64 || self.nodes[id as usize].is_some() {
                return Err(BPTreeError::ValidationFailed("Free list holds a block in use".to_owned()));
            }
            if seen[id as usize] {
                proof {
                    let j = choose|j: int| 0 <= j < i && self.free_blocks@[j] == id;
                    assert(self.free_blocks@[j] == self.free_blocks@[i as int]);
                }
                return Err(BPTreeError::ValidationFailed("Free list holds a block twice".to_owned()));
            }
            seen.set(id as usize, true);
            proof {
                assert forall|x: int| 0 <= x < n implies (#[trigger] seen@[x] <==> exists|j: int|
                    0 <= j < i + 1 && self.free_blocks@[j] == x) by {
                    if x == id {
                        assert(self.free_blocks@[i as int] == x);
                    }
                }
            }
            i = i + 1;
        }
        Ok(())
    }

    /// The number of levels below the root along its first children, if that
    /// path ends in a leaf within as many steps as there are blocks. For a
    /// well-formed tree of height `hh` it is `hh`.
    fn leftmost_height(&self, Ghost(hh): Ghost<nat>) -> (r: Option<usize>)
        ensures
            wf_node(self.nodes@, ROOT_ID, hh, None, None, self.max_keys_per_node as nat) ==> r == Some(hh as usize),
    {
        let ghost s = self.nodes@;
        let ghost m = self.max_keys_per_node as nat;
        let ghost rooted = wf_node(s, ROOT_ID, hh, None, None, m);
        let n = self.nodes.len();
        let mut cur: BlockId = ROOT_ID;
        let mut h: usize = 0;
        let ghost mut ghi: Option<int> = None;
        proof {
            if rooted {
                crate::model_check::lemma_height_below_len(s, ROOT_ID, hh, None, None, m);
            }
        }
        while h < n
            invariant
                s == self.nodes@,
                m == self.max_keys_per_node as nat,
                n == s.len(),
                rooted == wf_node(s, ROOT_ID, hh, None, None, m),
                rooted ==> h <= hh && hh < n && wf_node(s, cur, (hh - h) as nat, None, ghi, m),
            decreases n - h,
        {
            if cur >= n as u64 || self.nodes[cur as usize].is_none() {
                return None;
            }
            let node = self.node_ref(cur);
            proof {
                if rooted {
                    assert(node_ok(s, *node, (hh - h) as nat, None, ghi, m));
                    assert(node_local_ok(*node, (hh - h) as nat, None, ghi, m));
                }
            }
            if node.is_leaf() {
                return Some(h);
            }
            if node.child_ids.len() == 0 {
                return None;
            }
            proof {
                if rooted {
                    let hc = (hh - h - 1) as nat;
                    assert(hc + 1 == (hh - h) as nat);
                    assert(crate::model::node_ok2(s, *node, (hh - h) as nat, None, ghi, m, m));
                    lemma_internal(s, *node, (hh - h) as nat, hc, None, ghi, m, m);
                    assert(wf_node(s, node.child_ids@[0], hc, child_lo(*node, None, 0), child_hi(*node, ghi, 0), m));
                    assert(child_lo(*node, None, 0) == None::<int>);
                }
                ghi = child_hi(*node, ghi, 0);
            }
            cur = node.child_ids[0];
            h = h + 1;
        }
        None
    }

    /// Check the subtree at `node_id`: every node present and reached once,
    /// well shaped, with keys in order, within `min_key`..`max_key` and no
    /// more than a node may hold, leaves exactly `height` levels down.
    /// Returns the number of entries; `visited` marks the blocks seen.
    #[verifier::rlimit(80)]
    fn validate_recursive(
        &self,
        node_id: BlockId,
        height: usize,
        min_key: Option<&K>,
        max_key: Option<&K>,
        visited: &mut Vec<bool>,
    ) -> (r: Result<u64, BPTreeError>)
        requires
            old(visited)@.len() == self.nodes@.len(),
            2 <= self.max_keys_per_node < u32::MAX,
        ensures
            final(visited)@.len() == old(visited)@.len(),
            r is Ok <==> subtree_checks(
                self.nodes@,
                node_id,
                height as nat,
                opt_rank(min_key),
                opt_rank(max_key),
                self.max_keys_per_node as nat,
                marked(old(visited)@),
            ),
            r matches Ok(c) ==> c == entries(self.nodes@, node_id, height as nat).len() && marked(final(visited)@) == marked(
                old(visited)@,
            ) + reach(self.nodes@, node_id, height as nat),
            r matches Err(e) ==> check_failure(e),
            !present(self.nodes@, node_id) ==> r == Err::<u64, BPTreeError>(
                BPTreeError::Storage(StorageError::BlockNotFound(node_id)),
            ),
            present(self.nodes@, node_id) && marked(old(visited)@).contains(node_id) ==> r is Err
                && r->Err_0 is ValidationFailed,
            present(self.nodes@, node_id) && !marked(old(visited)@).contains(node_id) && !node_at(
                self.nodes@,
                node_id,
            ).well_shaped() ==> r == Err::<u64, BPTreeError>(BPTreeError::NodeCorrupted),
            present(self.nodes@, node_id) && !marked(old(visited)@).contains(node_id) && node_at(
                self.nodes@,
                node_id,
            ).well_shaped() && !node_local_ok(
                node_at(self.nodes@, node_id),
                height as nat,
                opt_rank(min_key),
                opt_rank(max_key),
                self.max_keys_per_node as nat,
            ) ==> r is Err && r->Err_0 is ValidationFailed,
        decreases height,
    {
        let ghost s = self.nodes@;
        let ghost m = self.max_keys_per_node as nat;
        let ghost h = height as nat;
        let ghost lo = opt_rank(min_key);
        let ghost hi = opt_rank(max_key);
        let ghost v0 = marked(visited@);
        if node_id >= self.nodes.len() as u64 || self.nodes[node_id as usize].is_none() {
            return Err(BPTreeError::Storage(StorageError::BlockNotFound(node_id)));
        }
        let ghost n = node_at(s, node_id);
        proof {
            assert(reach(s, node_id, h) == set![node_id] + reach_of(s, n, h));
        }
        if visited[node_id as usize] {
            proof {
                assert(v0.contains(node_id));
                assert(reach(s, node_id, h).contains(node_id));
            }
            return Err(BPTreeError::ValidationFailed("Block reached twice".to_owned()));
        }
        visited.set(node_id as usize, true);
        proof {
            assert(marked(visited@) =~= v0.insert(node_id));
        }
        let node = self.node_ref(node_id);
        if node.validate().is_err() {
            return Err(BPTreeError::NodeCorrupted);
        }
        let is_leaf = node.is_leaf();
        if is_leaf != (height == 0) {
            return Err(BPTreeError::ValidationFailed("Leaf depth mismatch".to_owned()));
        }
        if node.keys.len() > self.max_keys_per_node {
            return Err(BPTreeError::ValidationFailed("Node holds too many keys".to_owned()));
        }
        // Check key range and order
        let mut i: usize = 0;
        while i < node.keys.len()
            invariant
                node == n,
                s == self.nodes@,
                m == self.max_keys_per_node as nat,
                h == height as nat,
                n == node_at(s, node_id),
                present(s, node_id),
                visited@.len() == old(visited)@.len(),
                lo == opt_rank(min_key),
                hi == opt_rank(max_key),
                n.well_shaped(),
                i <= n.keys@.len(),
                forall|j: int| 0 <= j < i ==> in_bounds(#[trigger] n.keys@[j].rank(), lo, hi),
                forall|a: int, b: int| 0 <= a < b < i ==> #[trigger] n.keys@[a].rank() < #[trigger] n.keys@[b].rank(),
            decreases n.keys@.len() - i,
        {
            let key = &node.keys[i];
            if let Some(min) = min_key {
                if key.key_less(min) {
                    return Err(BPTreeError::ValidationFailed("Key violates min bound".to_owned()));
                }
            }
            if let Some(max) = max_key {
                if !key.key_less(max) {
                    return Err(BPTreeError::ValidationFailed("Key violates max bound".to_owned()));
                }
            }
            if i > 0 && !node.keys[i - 1].key_less(key) {
                return Err(BPTreeError::ValidationFailed("Keys out of order".to_owned()));
            }
            i = i + 1;
        }
        if !is_leaf && node.keys.len() > 0 {
            if let Some(min) = min_key {
                if !min.key_less(&node.keys[0]) {
                    return Err(BPTreeError::ValidationFailed("Key violates min bound".to_owned()));
                }
            }
        }
        proof {
            assert(node_local_ok(n, h, lo, hi, m));
        }
        if is_leaf {
            proof {
                assert(reach_of(s, n, h) =~= Set::<u64>::empty());
                assert(node_ok(s, n, h, lo, hi, m));
                assert(wf_node(s, node_id, h, lo, hi, m));
                lemma_leaf_map(n.keys@, n.values@, n.keys@.len());
                assert(entries(s, node_id, h) == leaf_map(n.keys@, n.values@));
                assert(reach(s, node_id, h) =~= set![node_id]);
                assert(marked(visited@) =~= v0 + reach(s, node_id, h));
            }
            return Ok(node.key_count as u64);
        }
        let ghost hc = (h - 1) as nat;
        let ghost cs = n.child_ids@;
        let child_count = node.child_ids.len();
        let mut total: u64 = 0;
        let mut i: usize = 0;
        while i < child_count
            invariant
                node == n,
                s == self.nodes@,
                m == self.max_keys_per_node as nat,
                2 <= self.max_keys_per_node < u32::MAX,
                lo == opt_rank(min_key),
                hi == opt_rank(max_key),
                h == height as nat,
                h == hc + 1,
                cs == n.child_ids@,
                child_count == cs.len(),
                node_local_ok(n, h, lo, hi, m),
                !n.leaf(),
                present(s, node_id),
                n == node_at(s, node_id),
                !v0.contains(node_id),
                v0 == marked(old(visited)@),
                visited@.len() == s.len(),
                visited@.len() == old(visited)@.len(),
                i <= cs.len(),
                crate::model::kids_ok(s, n, hc, lo, hi, m, i as nat),
                reach_kids(s, cs, hc, i as nat).disjoint(v0.insert(node_id)),
                marked(visited@) == v0.insert(node_id) + reach_kids(s, cs, hc, i as nat),
                entries_kids(s, cs, hc, i as nat).dom().finite(),
                total == entries_kids(s, cs, hc, i as nat).len(),
            decreases cs.len() - i,
        {
            let child_min = if i == 0 {
                min_key
            } else {
                Some(&node.keys[i - 1])
            };
            let child_max = if i == node.keys.len() {
                max_key
            } else {
                Some(&node.keys[i])
            };
            proof {
                assert(opt_rank(child_min) == child_lo(n, lo, i as int));
                assert(opt_rank(child_max) == child_hi(n, hi, i as int));
            }
            let ghost vi = marked(visited@);
            let c = match self.validate_recursive(node.child_ids[i], height - 1, child_min, child_max, visited) {
                Ok(c) => c,
                Err(e) => {
                    proof {
                        lemma_child_check_needed(s, n, node_id, h, lo, hi, m, v0, i as nat);
                    }
                    return Err(e);
                },
            };
            let ghost ci = cs[i as int];
            proof {
                lemma_child_check_step(s, n, node_id, h, lo, hi, m, v0, i as nat);
            }
            total = match total.checked_add(c) {
                Some(t) => t,
                None => {
                    proof {
                        if subtree_checks(s, node_id, h, lo, hi, m, v0) {
                            lemma_kids_count_bound(s, n, node_id, h, lo, hi, m, (i + 1) as nat);
                        }
                    }
                    return Err(BPTreeError::ValidationFailed("Too many entries".to_owned()));
                },
            };
            i = i + 1;
        }
        proof {
            assert(reach_of(s, n, h) == reach_kids(s, cs, hc, cs.len()));
            assert(node_ok(s, n, h, lo, hi, m));
            assert(wf_node(s, node_id, h, lo, hi, m));
            assert(entries(s, node_id, h) == entries_kids(s, cs, hc, cs.len()));
            assert(marked(visited@) =~= v0 + reach(s, node_id, h));
        }
        Ok(total)
    }
}

impl<K: TreeKey, V> BPTree<K, V> {
    /// The blocks the tree uses: the root block first, then, when there is
    /// a root, the blocks below it, each before the blocks below it.
    pub fn get_all_block_ids(&self) -> (r: Vec<BlockId>)
        requires
            self.wf(),
        ensures
            r@ == seq![ROOT_ID] + (if self.has_root() {
                collected(self.store(), node_at(self.store(), ROOT_ID), self.tree_height())
            } else {
                Seq::empty()
            }),
            r@.no_duplicates(),
            forall|x: u64|
                #[trigger] r@.contains(x) <==> (x == ROOT_ID || (self.has_root() && reach(
                    self.store(),
                    ROOT_ID,
                    self.tree_height(),
                ).contains(x))),
    {
        let mut ids: Vec<BlockId> = Vec::new();
        ids.push(ROOT_ID);
        if self.root_exists {
            self.collect_blocks_recursive(ROOT_ID, &mut ids, Ghost(self.tree_height()), Ghost(None), Ghost(None));
        }
        proof {
            let s = self.nodes@;
            let h = self.tree_height();
            let m = self.max_keys_per_node as nat;
            if !self.root_exists {
                assert(ids@ =~= seq![ROOT_ID] + Seq::<u64>::empty());
                assert forall|x: u64| #[trigger] ids@.contains(x) <==> x == ROOT_ID by {
                    if ids@.contains(x) {
                        let j = choose|j: int| 0 <= j < ids@.len() && ids@[j] == x;
                    }
                    if x == ROOT_ID {
                        assert(ids@[0] == x);
                    }
                }
            } else {
                let rn = node_at(s, ROOT_ID);
                let c = collected(s, rn, h);
                assert(node_ok(s, rn, h, None, None, m));
                lemma_collected(s, rn, h, None, None, m);
                assert(!c.contains(ROOT_ID));
                assert forall|j: int, t: int| 0 <= j < 1 && 0 <= t < c.len() implies seq![ROOT_ID][j] != c[t] by {
                    assert(c.contains(c[t]));
                }
                vstd::seq_lib::lemma_no_dup_in_concat(seq![ROOT_ID], c);
                assert(reach(s, ROOT_ID, h) == set![ROOT_ID] + reach_of(s, rn, h));
                assert forall|x: u64| #[trigger] ids@.contains(x) <==> (x == ROOT_ID || reach(s, ROOT_ID, h).contains(x)) by {
                    if ids@.contains(x) && x != ROOT_ID {
                        let j = choose|j: int| 0 <= j < ids@.len() && ids@[j] == x;
                        assert(c[j - 1] == x);
                        assert(c.contains(x));
                    }
                    if x == ROOT_ID {
                        assert(ids@[0] == x);
                    } else if reach(s, ROOT_ID, h).contains(x) {
                        assert(reach_of(s, rn, h).contains(x));
                        assert(c.contains(x));
                        let j = choose|j: int| 0 <= j < c.len() && c[j] == x;
                        assert(ids@[j + 1] == x);
                    }
                }
            }
        }
        ids
    }

    /// Append to `ids` the blocks below the node at `node_id`, child by
    /// child, each before the blocks below it.
    fn collect_blocks_recursive(
        &self,
        node_id: BlockId,
        ids: &mut Vec<BlockId>,
        Ghost(h): Ghost<nat>,
        Ghost(lo): Ghost<Option<int>>,
        Ghost(hi): Ghost<Option<int>>,
    )
        requires
            wf_node(self.nodes@, node_id, h, lo, hi, self.max_keys_per_node as nat),
        ensures
            final(ids)@ == old(ids)@ + collected(self.nodes@, node_at(self.nodes@, node_id), h),
        decreases h,
    {
        let ghost s = self.nodes@;
        let ghost m = self.max_keys_per_node as nat;
        let ghost n = node_at(s, node_id);
        let ghost base = ids@;
        let node = self.node_ref(node_id);
        proof {
            assert(node_ok(s, n, h, lo, hi, m));
            assert(node_local_ok(n, h, lo, hi, m));
        }
        if !node.is_leaf() {
            let ghost hc = (h - 1) as nat;
            proof {
                assert(hc + 1 == h);
                assert(node_ok2(s, n, h, lo, hi, m, m));
                lemma_internal(s, n, h, hc, lo, hi, m, m);
                assert(collected_kids(s, n.child_ids@, hc, 0) =~= Seq::<u64>::empty());
                assert(base + Seq::<u64>::empty() =~= base);
            }
            let mut i: usize = 0;
            while i < node.child_ids.len()
                invariant
                    node == n,
                    s == self.nodes@,
                    m == self.max_keys_per_node as nat,
                    h == hc + 1,
                    i <= n.child_ids@.len(),
                    forall|t: int|
                        #![trigger n.child_ids@[t]]
                        0 <= t < n.child_ids@.len() ==> wf_node(s, n.child_ids@[t], hc, child_lo(n, lo, t), child_hi(n, hi, t), m),
                    ids@ == base + collected_kids(s, n.child_ids@, hc, i as nat),
                decreases n.child_ids@.len() - i,
            {
                let child_id = node.child_ids[i];
                ids.push(child_id);
                self.collect_blocks_recursive(
                    child_id,
                    ids,
                    Ghost(hc),
                    Ghost(child_lo(n, lo, i as int)),
                    Ghost(child_hi(n, hi, i as int)),
                );
                proof {
                    assert(ids@ =~= base + collected_kids(s, n.child_ids@, hc, (i + 1) as nat));
                }
                i = i + 1;
            }
        } else {
            proof {
                assert(ids@ =~= base + collected(s, n, h));
            }
        }
    }

    /// Remove every entry, returning the blocks below the root to the free
    /// list and leaving the tree without a root.
    pub fn clear(&mut self)
        requires
            old(self).wf(),
        ensures
            final(self).balanced(),
            final(self).root_collapsed(),
            touch_ok(old(self).store(), old(self).touched_list(), final(self).store(), final(self).touched_list()),
            final(self).wf(),
            final(self)@ == Map::<int, V>::empty(),
            !final(self).has_root(),
            final(self).capacity() == old(self).capacity(),
            final(self).spec_block_size() == old(self).spec_block_size(),
            final(self).store().len() == old(self).store().len(),
            forall|x: u64|
                x < old(self).store().len() ==> #[trigger] final(self).store()[x as int] == (if old(self).has_root()
                    && reach(old(self).store(), ROOT_ID, old(self).tree_height()).contains(x) {
                    None::<UniversalNode<K, V>>
                } else {
                    old(self).store()[x as int]
                }),
            forall|x: u64|
                #[trigger] final(self).free_list().contains(x) <==> old(self).free_list().contains(x) || (old(
                    self,
                ).has_root() && reach(old(self).store(), ROOT_ID, old(self).tree_height()).contains(x) && x != ROOT_ID),
    {
        proof {
            lemma_touch_refl(self.nodes@, self.touched@);
        }
        if self.root_exists {
            let ghost s0 = self.nodes@;
            let ghost m = self.max_keys_per_node as nat;
            proof {
                lemma_wf_facts(s0, ROOT_ID, self.tree_height(), None, None, m);
            }
            self.deallocate_recursive(ROOT_ID, Ghost(self.tree_height()), Ghost(None), Ghost(None));
            self.root_exists = false;
            self.entry_count = 0;
            proof {
                assert(present(self.nodes@, ROOT_ID));
                lemma_not_free(self.nodes@, self.free_blocks@, ROOT_ID);
            }
            let _ = self.take_node(ROOT_ID);
            proof {
                assert(self@ =~= Map::<int, V>::empty());
                let hh = old(self).tree_height();
                assert(reach(s0, ROOT_ID, hh).contains(ROOT_ID));
                assert forall|x: u64| x < s0.len() implies #[trigger] self.nodes@[x as int] == (if reach(
                    s0,
                    ROOT_ID,
                    hh,
                ).contains(x) {
                    None::<UniversalNode<K, V>>
                } else {
                    s0[x as int]
                }) by {}
            }
        }
    }

    /// Free the blocks of the subtree at `node_id`, its own block last, but
    /// never the root block.
    fn deallocate_recursive(
        &mut self,
        node_id: BlockId,
        Ghost(h): Ghost<nat>,
        Ghost(lo): Ghost<Option<int>>,
        Ghost(hi): Ghost<Option<int>>,
    )
        requires
            alloc_ok(old(self).nodes@, old(self).free_blocks@, old(self).max_keys_per_node),
            wf_node(old(self).nodes@, node_id, h, lo, hi, old(self).max_keys_per_node as nat),
        ensures
            keeps_touch(old(self).nodes@, old(self).touched@, final(self).nodes@, final(self).touched@),
            alloc_ok(final(self).nodes@, final(self).free_blocks@, final(self).max_keys_per_node),
            final(self).same_meta(old(self)),
            final(self).nodes@.len() == old(self).nodes@.len(),
            forall|x: u64|
                #[trigger] reach(old(self).nodes@, node_id, h).contains(x) && x != ROOT_ID ==> final(self).nodes@[x as int]
                    is None,
            forall|x: int|
                0 <= x < old(self).nodes@.len() && (!reach(old(self).nodes@, node_id, h).contains(x as u64) || x
                    == ROOT_ID) ==> #[trigger] final(self).nodes@[x] == old(self).nodes@[x],
            forall|x: u64|
                #[trigger] final(self).free_blocks@.contains(x) <==> old(self).free_blocks@.contains(x) || (reach(
                    old(self).nodes@,
                    node_id,
                    h,
                ).contains(x) && x != ROOT_ID),
        decreases h,
    {
        let ghost s0 = self.nodes@;
        let ghost m = self.max_keys_per_node as nat;
        let ghost n = node_at(s0, node_id);
        proof {
            assert(node_ok(s0, n, h, lo, hi, m));
            assert(node_local_ok(n, h, lo, hi, m));
            lemma_wf_facts(s0, node_id, h, lo, hi, m);
            assert(reach(s0, node_id, h) == set![node_id] + reach_of(s0, n, h));
        }
        if !self.node_ref(node_id).is_leaf() {
            let ghost hc = (h - 1) as nat;
            let ghost cs = n.child_ids@;
            proof {
                assert(hc + 1 == h);
                assert(node_ok2(s0, n, h, lo, hi, m, m));
                lemma_internal(s0, n, h, hc, lo, hi, m, m);
            }
            let child_count = self.node_ref(node_id).child_ids.len();
            let mut i: usize = 0;
            while i < child_count
                invariant
                    child_count == cs.len(),
                    cs == n.child_ids@,
                    h == hc + 1,
                    m == self.max_keys_per_node as nat,
                    i <= cs.len(),
                    keeps_touch(old(self).nodes@, old(self).touched@, self.nodes@, self.touched@),
                    alloc_ok(self.nodes@, self.free_blocks@, self.max_keys_per_node),
                    self.same_meta(old(self)),
                    self.max_keys_per_node == old(self).max_keys_per_node,
                    self.nodes@.len() == s0.len(),
                    s0 == old(self).nodes@,
                    n == node_at(s0, node_id),
                    present(s0, node_id),
                    self.nodes@[node_id as int] == s0[node_id as int],
                    !reach_of(s0, n, h).contains(node_id),
                    forall|t: int|
                        #![trigger cs[t]]
                        0 <= t < cs.len() ==> wf_node(s0, cs[t], hc, child_lo(n, lo, t), child_hi(n, hi, t), m),
                    forall|t: int, u: int|
                        0 <= t < u < cs.len() ==> #[trigger] reach(s0, cs[t], hc).disjoint(#[trigger] reach(s0, cs[u], hc)),
                    forall|x: u64| #[trigger] reach_of(s0, n, h).contains(x) <==> exists|t: int|
                        0 <= t < cs.len() && #[trigger] reach(s0, cs[t], hc).contains(x),
                    forall|x: u64|
                        #[trigger] reach_kids(s0, cs, hc, i as nat).contains(x) && x != ROOT_ID ==> self.nodes@[x as int] is None,
                    forall|x: u64|
                        #[trigger] self.free_blocks@.contains(x) <==> old(self).free_blocks@.contains(x) || (reach_kids(
                            s0,
                            cs,
                            hc,
                            i as nat,
                        ).contains(x) && x != ROOT_ID),
                    forall|x: int|
                        0 <= x < s0.len() && (!reach_kids(s0, cs, hc, i as nat).contains(x as u64) || x == ROOT_ID) ==> #[trigger] self.nodes@[x]
                            == s0[x],
                decreases cs.len() - i,
            {
                let child_id = self.node_ref(node_id).child_ids[i];
                let ghost si = self.nodes@;
                proof {
                    crate::model::lemma_reach_kids(s0, cs, hc, i as nat);
                    lemma_wf_facts(s0, child_id, hc, child_lo(n, lo, i as int), child_hi(n, hi, i as int), m);
                    assert forall|x: u64| #[trigger] reach(s0, child_id, hc).contains(x) implies x < si.len() && si[x as int] == s0[x as int] by {
                        if reach_kids(s0, cs, hc, i as nat).contains(x) {
                            let t = choose|t: int| 0 <= t < i && #[trigger] reach(s0, cs[t], hc).contains(x);
                            assert(reach(s0, cs[t], hc).disjoint(reach(s0, cs[i as int], hc)));
                        }
                    }
                    crate::model::lemma_frame(s0, si, child_id, hc, child_lo(n, lo, i as int), child_hi(n, hi, i as int), m);
                }
                self.deallocate_recursive(
                    child_id,
                    Ghost(hc),
                    Ghost(child_lo(n, lo, i as int)),
                    Ghost(child_hi(n, hi, i as int)),
                );
                proof {
                    let s2 = self.nodes@;
                    assert(reach(si, child_id, hc) == reach(s0, child_id, hc));
                    assert(reach_kids(s0, cs, hc, (i + 1) as nat) == reach_kids(s0, cs, hc, i as nat) + reach(s0, cs[i as int], hc));
                    assert(reach(s0, cs[i as int], hc).contains(child_id));
                    assert(reach_of(s0, n, h).contains(child_id));
                    assert forall|x: int|
                        0 <= x < s0.len() && (!reach_kids(s0, cs, hc, (i + 1) as nat).contains(x as u64) || x == ROOT_ID) implies #[trigger] s2[x]
                            == s0[x] by {
                        assert(s2[x] == si[x]);
                    }
                    crate::model::lemma_reach_kids(s0, cs, hc, (i + 1) as nat);
                    assert(!reach_kids(s0, cs, hc, (i + 1) as nat).contains(node_id)) by {
                        if reach_kids(s0, cs, hc, (i + 1) as nat).contains(node_id) {
                            let t = choose|t: int| 0 <= t < i + 1 && #[trigger] reach(s0, cs[t], hc).contains(node_id);
                            assert(reach_of(s0, n, h).contains(node_id));
                        }
                    }
                    assert(s2[node_id as int] == s0[node_id as int]);
                    assert forall|x: u64|
                        #[trigger] reach_kids(s0, cs, hc, (i + 1) as nat).contains(x) && x != ROOT_ID implies s2[x as int] is None by {
                        if reach(s0, cs[i as int], hc).contains(x) {
                            assert(reach(si, child_id, hc).contains(x));
                        } else {
                            assert(reach_kids(s0, cs, hc, i as nat).contains(x));
                            assert(si[x as int] is None);
                            crate::model::lemma_reach_kids(s0, cs, hc, i as nat);
                            let t = choose|t: int| 0 <= t < i && #[trigger] reach(s0, cs[t], hc).contains(x);
                            assert(reach(s0, cs[t], hc).disjoint(reach(s0, cs[i as int], hc)));
                            assert(!reach(si, child_id, hc).contains(x));
                            lemma_wf_facts(s0, cs[t], hc, child_lo(n, lo, t), child_hi(n, hi, t), m);
                            assert(present(s0, x));
                            assert(s2[(x as int)] == si[(x as int)]);
                        }
                    }
                }
                i = i + 1;
            }
            proof {
                assert(reach_of(s0, n, h) == reach_kids(s0, cs, hc, cs.len()));
            }
        } else {
            proof {
                assert(reach_of(s0, n, h) =~= Set::<u64>::empty());
            }
        }
        let ghost mid = self.free_blocks@;
        proof {
            assert forall|x: u64| #[trigger] mid.contains(x) <==> old(self).free_blocks@.contains(x) || (reach_of(
                s0,
                n,
                h,
            ).contains(x) && x != ROOT_ID) by {}
        }
        if node_id != ROOT_ID {
            proof {
                lemma_not_free(self.nodes@, self.free_blocks@, node_id);
            }
            let _ = self.take_node(node_id);
            self.free_block(node_id);
            proof {
                assert forall|x: u64| #[trigger] self.free_blocks@.contains(x) <==> mid.contains(x) || x == node_id by {
                    if x == node_id {
                        assert(self.free_blocks@[mid.len() as int] == x);
                    }
                    if mid.contains(x) {
                        let j = choose|j: int| 0 <= j < mid.len() && mid[j] == x;
                        assert(self.free_blocks@[j] == x);
                    }
                    if self.free_blocks@.contains(x) && x != node_id {
                        let j = choose|j: int| 0 <= j < self.free_blocks@.len() && self.free_blocks@[j] == x;
                        assert(mid[j] == x);
                    }
                }
            }
        }
    }
}

/// In a sound tree whose nodes hold at least three keys, the root exists
/// exactly when the tree holds an entry: deleting the last entry leaves no
/// root, and a tree with entries has one.
pub proof fn law_root_iff_entries<K: TreeKey, V>(t: BPTree<K, V>)
    requires
        t.wf(),
        min_fill(t.capacity()) >= 1,
    ensures
        t.has_root() <==> t@.len() > 0,
{
    if t.root_exists {
        let m = t.max_keys_per_node as nat;
        let th = t.tree_height();
        assert(wf_node(t.nodes@, ROOT_ID, th, None, None, m));
        crate::model_fill::lemma_filled_nonempty(t.nodes@, ROOT_ID, th, None, None, m, min_fill(m as int));
        let x = choose|x: int| #[trigger] entries(t.nodes@, ROOT_ID, th).contains_key(x);
        assert(t@.contains_key(x));
        if t@.len() == 0 {
            t@.dom().lemma_len0_is_empty();
            assert(t@.dom().contains(x));
        }
    } else {
        assert(t@ =~= Map::<int, V>::empty());
    }
}

/// A tree rebuilt from another's stored parts (its blocks, free list and
/// metadata, as `from_parts` takes them) is sound when the other is, and
/// holds the same entries.
pub proof fn law_rebuilt_tree_is_same<K: TreeKey, V>(t: BPTree<K, V>, rebuilt: BPTree<K, V>)
    requires
        t.wf(),
        rebuilt.store() == t.store(),
        rebuilt.free_list() == t.free_list(),
        rebuilt.has_root() == t.has_root(),
        rebuilt.capacity() == t.capacity(),
        rebuilt.recorded_len() == t.recorded_len(),
    ensures
        rebuilt.wf(),
        rebuilt@ == t@,
{
    assert(rebuilt.tree_height() == t.tree_height());
}

/// `s` begins with `p`.
pub open spec fn starts_with(s: Seq<char>, p: Seq<char>) -> bool {
    p.len() <= s.len() && s.subrange(0, p.len() as int) == p
}

/// The message of a block size disagreement between metadata and storage,
/// made by std's `format!`, which copies the text before the first
/// placeholder as it stands: the message begins with "Block size mismatch".
/// The rest, the two sizes in decimal, is left unsaid.
#[verifier::external_body]
fn block_size_mismatch_message(metadata_size: usize, storage_size: usize) -> (r: String)
    ensures
        starts_with(r@, "Block size mismatch"@),
{
    format!("Block size mismatch: metadata says {}, storage says {}", metadata_size, storage_size)
}

impl<K: TreeKey, V> BPTree<K, V> {
    /// Check metadata read from the root block against the storage it came
    /// from: the version must be the one this library writes, the block size
    /// that of the storage.
    pub fn check_metadata(metadata: &BPTreeMetadata, storage_block_size: usize) -> (r: Result<(), StorageError>)
        ensures
            r is Ok <==> metadata.version == METADATA_V1 && metadata.block_size == storage_block_size,
            metadata.version != METADATA_V1 ==> r == Err::<(), StorageError>(
                StorageError::VersionMismatch { expected: METADATA_V1, actual: metadata.version },
            ),
            metadata.version == METADATA_V1 && metadata.block_size != storage_block_size ==> r is Err
                && r->Err_0 is MetadataMismatch && starts_with(r->Err_0->MetadataMismatch_0@, "Block size mismatch"@),
    {
        if metadata.version != METADATA_V1 {
            return Err(StorageError::VersionMismatch { expected: METADATA_V1, actual: metadata.version });
        }
        if metadata.block_size != storage_block_size {
            return Err(
                StorageError::MetadataMismatch(block_size_mismatch_message(metadata.block_size, storage_block_size)),
            );
        }
        Ok(())
    }

    /// What to do with a root block whose metadata cannot be decoded: a block
    /// of zeros was never written and is initialized; anything else is
    /// corrupted.
    pub fn check_undecodable_root(data: &[u8]) -> (r: Result<(), StorageError>)
        ensures
            r is Ok <==> forall|i: int| 0 <= i < data@.len() ==> data@[i] == 0u8,
            r matches Err(e) ==> e == StorageError::BlockCorrupted(ROOT_ID),
    {
        if BlockSerializer::is_all_zero(data) {
            Ok(())
        } else {
            Err(StorageError::BlockCorrupted(ROOT_ID))
        }
    }

    /// The metadata to store in the root block.
    pub fn metadata(&self) -> (r: BPTreeMetadata)
        ensures
            r.version == METADATA_V1,
            r.block_size == self.spec_block_size(),
            r.max_keys_per_node == self.capacity(),
            r.root_exists == self.has_root(),
            r.entry_count == self.recorded_len(),
            self.wf() ==> r.entry_count == self@.len(),
    {
        BPTreeMetadata {
            version: METADATA_V1,
            block_size: self.block_size,
            max_keys_per_node: self.max_keys_per_node,
            entry_count: self.entry_count,
            root_exists: self.root_exists,
        }
    }

    /// A tree from stored parts: its metadata, the node of each block (`None`
    /// where a block holds no node) and the freed blocks. Nothing is checked
    /// here; `validate` tells whether the parts make a sound tree.
    pub fn from_parts(metadata: &BPTreeMetadata, nodes: Vec<Option<UniversalNode<K, V>>>, free_blocks: Vec<BlockId>) -> (r: Self)
        ensures
            r.store() == nodes@,
            r.free_list() == free_blocks@,
            r.has_root() == metadata.root_exists,
            r.capacity() == metadata.max_keys_per_node,
            r.spec_block_size() == metadata.block_size,
            r.recorded_len() == metadata.entry_count,
    {
        BPTree {
            nodes,
            free_blocks,
            root_exists: metadata.root_exists,
            max_keys_per_node: metadata.max_keys_per_node,
            entry_count: metadata.entry_count,
            block_size: metadata.block_size,
            touched: Vec::new(),
        }
    }

    /// The node in block `id`, if it holds one.
    pub fn node(&self, id: BlockId) -> (r: Option<&UniversalNode<K, V>>)
        ensures
            r == (if id < self.store().len() {
                match self.store()[id as int] {
                    Some(n) => Some(&n),
                    None => None::<&UniversalNode<K, V>>,
                }
            } else {
                None::<&UniversalNode<K, V>>
            }),
    {
        if id < self.nodes.len() as u64 {
            match &self.nodes[id as usize] {
                Some(n) => Some(n),
                None => None,
            }
        } else {
            None
        }
    }

    /// Number of blocks the tree knows of (every block number is below it).
    pub fn block_count(&self) -> (r: usize)
        ensures
            r == self.store().len(),
    {
        self.nodes.len()
    }

    /// The freed blocks, in the order they are reused from the end.
    pub fn free_blocks(&self) -> (r: &Vec<BlockId>)
        ensures
            r@ == self.free_list(),
    {
        &self.free_blocks
    }

    /// Blocks written or emptied since the last call, which the caller is to
    /// write out or release; the list starts over empty.
    pub fn take_touched(&mut self) -> (r: Vec<BlockId>)
        ensures
            r@ == old(self).touched_list(),
            final(self).touched_list() == Seq::<BlockId>::empty(),
            final(self).store() == old(self).store(),
            final(self).free_list() == old(self).free_list(),
            final(self).same_meta(old(self)),
            final(self).wf() == old(self).wf(),
            final(self)@ == old(self)@,
    {
        let mut out: Vec<BlockId> = Vec::new();
        std::mem::swap(&mut out, &mut self.touched);
        out
    }
}

} // verus!
