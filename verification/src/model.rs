//! The mathematical model of a B+ tree laid out in numbered blocks: which
//! blocks a subtree occupies, which entries it holds, and when it is well
//! formed.
use vstd::prelude::*;

use crate::key::TreeKey;
use crate::node::{sorted_keys, UniversalNode};

verus! {

/// Block contents, by block number; `None` is a block that holds no node.
pub type Store<K, V> = Seq<Option<UniversalNode<K, V>>>;

/// Block `id` holds a node.
pub open spec fn present<K, V>(s: Store<K, V>, id: u64) -> bool {
    id < s.len() && s[id as int] is Some
}

/// The node in block `id`.
pub open spec fn node_at<K, V>(s: Store<K, V>, id: u64) -> UniversalNode<K, V> {
    s[id as int].unwrap()
}

/// `k` lies in the half-open range from `lo` (included) to `hi` (excluded);
/// a missing bound does not restrict.
pub open spec fn in_bounds(k: int, lo: Option<int>, hi: Option<int>) -> bool {
    &&& (lo matches Some(l) ==> l <= k)
    &&& (hi matches Some(u) ==> k < u)
}

/// Lower bound of the key range of child `i` of `n`, whose own range starts at `lo`.
pub open spec fn child_lo<K: TreeKey, V>(n: UniversalNode<K, V>, lo: Option<int>, i: int) -> Option<int> {
    if i <= 0 {
        lo
    } else {
        Some(n.keys@[i - 1].rank())
    }
}

/// Upper bound of the key range of child `i` of `n`, whose own range ends at `hi`.
pub open spec fn child_hi<K: TreeKey, V>(n: UniversalNode<K, V>, hi: Option<int>, i: int) -> Option<int> {
    if i >= n.keys@.len() {
        hi
    } else {
        Some(n.keys@[i].rank())
    }
}

/// The map from key rank to value that a leaf's first `i` entries give.
pub open spec fn leaf_map_prefix<K: TreeKey, V>(keys: Seq<K>, vals: Seq<V>, i: nat) -> Map<int, V>
    decreases i,
{
    if i == 0 {
        Map::empty()
    } else {
        leaf_map_prefix(keys, vals, (i - 1) as nat).insert(keys[i - 1].rank(), vals[i - 1])
    }
}

/// The map from key rank to value that a leaf holds.
pub open spec fn leaf_map<K: TreeKey, V>(keys: Seq<K>, vals: Seq<V>) -> Map<int, V> {
    leaf_map_prefix(keys, vals, keys.len())
}

/// What a node holds by itself: consistent fields, sorted keys within the
/// range, at most `m` keys, and a leaf exactly at height 0. An internal
/// node's keys lie strictly above the range's lower bound, so that each of
/// its children has a range of its own.
pub open spec fn node_local_ok<K: TreeKey, V>(
    n: UniversalNode<K, V>,
    h: nat,
    lo: Option<int>,
    hi: Option<int>,
    m: nat,
) -> bool {
    &&& n.well_shaped()
    &&& sorted_keys(n.keys@)
    &&& n.keys@.len() <= m
    &&& forall|j: int| 0 <= j < n.keys@.len() ==> in_bounds(#[trigger] n.keys@[j].rank(), lo, hi)
    &&& (h == 0) == n.leaf()
    &&& (!n.leaf() && n.keys@.len() > 0 ==> (lo matches Some(l) ==> l < n.keys@[0].rank()))
}

/// Node value `n` is the top of a well-formed subtree of height `h` whose
/// keys lie in the range `lo`..`hi` and whose nodes hold at most `m` keys.
pub open spec fn node_ok<K: TreeKey, V>(
    s: Store<K, V>,
    n: UniversalNode<K, V>,
    h: nat,
    lo: Option<int>,
    hi: Option<int>,
    m: nat,
) -> bool
    decreases h, 0nat,
{
    &&& node_local_ok(n, h, lo, hi, m)
    &&& (h > 0 ==> kids_ok(s, n, (h - 1) as nat, lo, hi, m, n.child_ids@.len()))
}

/// Block `id` is the top of a well-formed subtree that does not reach back
/// to its own block.
pub open spec fn wf_node<K: TreeKey, V>(
    s: Store<K, V>,
    id: u64,
    h: nat,
    lo: Option<int>,
    hi: Option<int>,
    m: nat,
) -> bool
    decreases h, 1nat,
{
    &&& present(s, id)
    &&& node_ok(s, node_at(s, id), h, lo, hi, m)
    &&& !reach_of(s, node_at(s, id), h).contains(id)
}

/// The first `i` children of `n`, of height `h`, are well formed in their key
/// ranges and occupy pairwise disjoint blocks.
pub open spec fn kids_ok<K: TreeKey, V>(
    s: Store<K, V>,
    n: UniversalNode<K, V>,
    h: nat,
    lo: Option<int>,
    hi: Option<int>,
    m: nat,
    i: nat,
) -> bool
    decreases h, i + 2,
{
    if i == 0 {
        true
    } else {
        &&& kids_ok(s, n, h, lo, hi, m, (i - 1) as nat)
        &&& wf_node(
            s,
            n.child_ids@[i - 1],
            h,
            child_lo(n, lo, i - 1),
            child_hi(n, hi, i - 1),
            m,
        )
        &&& reach(s, n.child_ids@[i - 1], h).disjoint(
            reach_kids(s, n.child_ids@, h, (i - 1) as nat),
        )
    }
}

/// The blocks below node value `n` of height `h` (its children's subtrees).
pub open spec fn reach_of<K: TreeKey, V>(s: Store<K, V>, n: UniversalNode<K, V>, h: nat) -> Set<u64>
    decreases h, 0nat,
{
    if h == 0 {
        Set::empty()
    } else {
        reach_kids(s, n.child_ids@, (h - 1) as nat, n.child_ids@.len())
    }
}

/// The blocks of the subtree at block `id`.
pub open spec fn reach<K: TreeKey, V>(s: Store<K, V>, id: u64, h: nat) -> Set<u64>
    decreases h, 1nat,
{
    set![id] + reach_of(s, node_at(s, id), h)
}

/// The blocks of the subtrees at the first `i` blocks of `cs`.
pub open spec fn reach_kids<K: TreeKey, V>(s: Store<K, V>, cs: Seq<u64>, h: nat, i: nat) -> Set<u64>
    decreases h, i + 2,
{
    if i == 0 {
        Set::empty()
    } else {
        reach_kids(s, cs, h, (i - 1) as nat) + reach(s, cs[i - 1], h)
    }
}

/// The entries, by key rank, below node value `n` of height `h`.
pub open spec fn entries_of<K: TreeKey, V>(s: Store<K, V>, n: UniversalNode<K, V>, h: nat) -> Map<int, V>
    decreases h, 0nat,
{
    if h == 0 {
        leaf_map(n.keys@, n.values@)
    } else {
        entries_kids(s, n.child_ids@, (h - 1) as nat, n.child_ids@.len())
    }
}

/// The entries of the subtree at block `id`.
pub open spec fn entries<K: TreeKey, V>(s: Store<K, V>, id: u64, h: nat) -> Map<int, V>
    decreases h, 1nat,
{
    entries_of(s, node_at(s, id), h)
}

/// The entries of the subtrees at the first `i` blocks of `cs`.
pub open spec fn entries_kids<K: TreeKey, V>(s: Store<K, V>, cs: Seq<u64>, h: nat, i: nat) -> Map<int, V>
    decreases h, i + 2,
{
    if i == 0 {
        Map::empty()
    } else {
        entries_kids(s, cs, h, (i - 1) as nat).union_prefer_right(entries(s, cs[i - 1], h))
    }
}

} // verus!

verus! {

/// A block lies in the subtrees of the first `i` children exactly when it lies
/// in the subtree of one of them.
pub proof fn lemma_reach_kids<K: TreeKey, V>(s: Store<K, V>, cs: Seq<u64>, h: nat, i: nat)
    ensures
        forall|x: u64|
            reach_kids(s, cs, h, i).contains(x) <==> exists|j: int|
                0 <= j < i && #[trigger] reach(s, cs[j], h).contains(x),
    decreases i,
{
    if i > 0 {
        lemma_reach_kids(s, cs, h, (i - 1) as nat);
        assert(reach_kids(s, cs, h, i) == reach_kids(s, cs, h, (i - 1) as nat) + reach(s, cs[i - 1], h));
        assert forall|x: u64| reach_kids(s, cs, h, i).contains(x) <==> exists|j: int|
            0 <= j < i && #[trigger] reach(s, cs[j], h).contains(x) by {
            if reach(s, cs[i - 1], h).contains(x) {
                assert(0 <= i - 1 < i && reach(s, cs[i - 1], h).contains(x));
            }
        }
    }
}

/// The children of a node are well formed exactly when each is, in its own
/// key range, and no two share a block.
pub proof fn lemma_kids_ok<K: TreeKey, V>(
    s: Store<K, V>,
    n: UniversalNode<K, V>,
    h: nat,
    lo: Option<int>,
    hi: Option<int>,
    m: nat,
    i: nat,
)
    ensures
        kids_ok(s, n, h, lo, hi, m, i) <==> {
            &&& forall|j: int|
                0 <= j < i ==> #[trigger] wf_node(
                    s,
                    n.child_ids@[j],
                    h,
                    child_lo(n, lo, j),
                    child_hi(n, hi, j),
                    m,
                )
            &&& forall|j: int, k: int|
                0 <= j < k < i ==> #[trigger] reach(s, n.child_ids@[j], h).disjoint(
                    #[trigger] reach(s, n.child_ids@[k], h),
                )
        },
    decreases i,
{
    if i > 0 {
        let cs = n.child_ids@;
        lemma_kids_ok(s, n, h, lo, hi, m, (i - 1) as nat);
        lemma_reach_kids(s, cs, h, (i - 1) as nat);
        let last = reach(s, cs[i - 1], h);
        let before = reach_kids(s, cs, h, (i - 1) as nat);
        assert(kids_ok(s, n, h, lo, hi, m, i) == (kids_ok(s, n, h, lo, hi, m, (i - 1) as nat)
            && wf_node(s, cs[i - 1], h, child_lo(n, lo, i - 1), child_hi(n, hi, i - 1), m)
            && last.disjoint(before)));
        if kids_ok(s, n, h, lo, hi, m, i) {
            assert forall|j: int, k: int| 0 <= j < k < i implies #[trigger] reach(s, cs[j], h).disjoint(
                #[trigger] reach(s, cs[k], h),
            ) by {
                if k == i - 1 {
                    assert forall|x: u64| reach(s, cs[j], h).contains(x) implies !reach(
                        s,
                        cs[k],
                        h,
                    ).contains(x) by {
                        assert(before.contains(x));
                    }
                }
            }
        }
        if forall|j: int|
            0 <= j < i ==> #[trigger] wf_node(s, cs[j], h, child_lo(n, lo, j), child_hi(n, hi, j), m) {
            if forall|j: int, k: int|
                0 <= j < k < i ==> #[trigger] reach(s, cs[j], h).disjoint(#[trigger] reach(s, cs[k], h)) {
                assert forall|x: u64| last.contains(x) implies !before.contains(x) by {
                    if before.contains(x) {
                        let j = choose|j: int| 0 <= j < i - 1 && #[trigger] reach(s, cs[j], h).contains(x);
                        assert(reach(s, cs[j], h).disjoint(reach(s, cs[i - 1], h)));
                    }
                }
                assert(wf_node(s, cs[i - 1], h, child_lo(n, lo, i - 1), child_hi(n, hi, i - 1), m));
            }
        }
    }
}

/// A key lies in the entries of the first `i` subtrees exactly when it lies in
/// one of them; where only one holds it, the entry is that one's.
pub proof fn lemma_entries_kids<K: TreeKey, V>(s: Store<K, V>, cs: Seq<u64>, h: nat, i: nat)
    ensures
        forall|x: int|
            entries_kids(s, cs, h, i).contains_key(x) <==> exists|j: int|
                0 <= j < i && #[trigger] entries(s, cs[j], h).contains_key(x),
        forall|j: int, x: int|
            0 <= j < i && #[trigger] entries(s, cs[j], h).contains_key(x) && (forall|t: int|
                j < t < i ==> !(#[trigger] entries(s, cs[t], h).contains_key(x)))
                ==> entries_kids(s, cs, h, i)[x] == entries(s, cs[j], h)[x],
        entries_kids(s, cs, h, i).dom().finite() <== (forall|j: int|
            0 <= j < i ==> (#[trigger] entries(s, cs[j], h)).dom().finite()),
    decreases i,
{
    if i > 0 {
        lemma_entries_kids(s, cs, h, (i - 1) as nat);
        let last = entries(s, cs[i - 1], h);
        assert(entries_kids(s, cs, h, i) == entries_kids(s, cs, h, (i - 1) as nat).union_prefer_right(last));
        if forall|j: int| 0 <= j < i ==> (#[trigger] entries(s, cs[j], h)).dom().finite() {
            assert(last.dom().finite());
            assert(entries_kids(s, cs, h, i).dom() =~= entries_kids(s, cs, h, (i - 1) as nat).dom()
                + last.dom());
        }
        assert forall|x: int| entries_kids(s, cs, h, i).contains_key(x) <==> exists|j: int|
            0 <= j < i && #[trigger] entries(s, cs[j], h).contains_key(x) by {
            if last.contains_key(x) {
                assert(0 <= i - 1 < i && entries(s, cs[i - 1], h).contains_key(x));
            }
        }
        assert forall|j: int, x: int|
            0 <= j < i && #[trigger] entries(s, cs[j], h).contains_key(x) && (forall|t: int|
                j < t < i ==> !(#[trigger] entries(s, cs[t], h).contains_key(x)))
                implies entries_kids(s, cs, h, i)[x] == entries(s, cs[j], h)[x] by {
            if j < i - 1 {
                assert(!entries(s, cs[i - 1], h).contains_key(x));
            }
        }
    }
}

/// A leaf's map holds exactly the ranks of its keys; with sorted keys, each
/// key's entry is its own value, and the map has one entry per key.
pub proof fn lemma_leaf_map<K: TreeKey, V>(keys: Seq<K>, vals: Seq<V>, i: nat)
    requires
        i <= keys.len(),
    ensures
        forall|x: int|
            leaf_map_prefix(keys, vals, i).contains_key(x) <==> exists|j: int|
                0 <= j < i && #[trigger] keys[j].rank() == x,
        sorted_keys(keys) ==> forall|j: int|
            0 <= j < i ==> leaf_map_prefix(keys, vals, i)[#[trigger] keys[j].rank()] == vals[j],
        leaf_map_prefix(keys, vals, i).dom().finite(),
        sorted_keys(keys) ==> leaf_map_prefix(keys, vals, i).len() == i,
    decreases i,
{
    if i > 0 {
        lemma_leaf_map(keys, vals, (i - 1) as nat);
        let prev = leaf_map_prefix(keys, vals, (i - 1) as nat);
        let k = keys[i - 1].rank();
        assert forall|x: int| leaf_map_prefix(keys, vals, i).contains_key(x) <==> exists|j: int|
            0 <= j < i && #[trigger] keys[j].rank() == x by {
            if x == k {
                assert(keys[i - 1].rank() == x);
            }
        }
        if sorted_keys(keys) {
            if prev.contains_key(k) {
                let j = choose|j: int| 0 <= j < i - 1 && #[trigger] keys[j].rank() == k;
                assert(keys[j].rank() < keys[i - 1].rank());
            }
        }
    }
}

} // verus!

verus! {

/// A well-formed subtree keeps its entries in its key range, has finitely
/// many of them, and occupies only blocks that hold nodes.
pub proof fn lemma_node_facts<K: TreeKey, V>(
    s: Store<K, V>,
    n: UniversalNode<K, V>,
    h: nat,
    lo: Option<int>,
    hi: Option<int>,
    m: nat,
)
    requires
        node_ok(s, n, h, lo, hi, m),
    ensures
        forall|x: int| entries_of(s, n, h).contains_key(x) ==> in_bounds(x, lo, hi),
        entries_of(s, n, h).dom().finite(),
        forall|x: u64| reach_of(s, n, h).contains(x) ==> present(s, x),
{
    lemma_node2_facts(s, n, h, lo, hi, m, m);
}

/// `node_ok` with separate bounds on the size of the node itself and of the
/// nodes below it.
pub open spec fn node_ok2<K: TreeKey, V>(
    s: Store<K, V>,
    n: UniversalNode<K, V>,
    h: nat,
    lo: Option<int>,
    hi: Option<int>,
    ms: nat,
    m: nat,
) -> bool {
    &&& node_local_ok(n, h, lo, hi, ms)
    &&& (h > 0 ==> kids_ok(s, n, (h - 1) as nat, lo, hi, m, n.child_ids@.len()))
}

/// The facts of `lemma_node_facts`, for a node of any size.
pub proof fn lemma_node2_facts<K: TreeKey, V>(
    s: Store<K, V>,
    n: UniversalNode<K, V>,
    h: nat,
    lo: Option<int>,
    hi: Option<int>,
    ms: nat,
    m: nat,
)
    requires
        node_ok2(s, n, h, lo, hi, ms, m),
    ensures
        forall|x: int| entries_of(s, n, h).contains_key(x) ==> in_bounds(x, lo, hi),
        entries_of(s, n, h).dom().finite(),
        forall|x: u64| reach_of(s, n, h).contains(x) ==> present(s, x),
    decreases h,
{
    if h == 0 {
        lemma_leaf_map(n.keys@, n.values@, n.keys@.len());
    } else {
        let hc = (h - 1) as nat;
        let cs = n.child_ids@;
        let len = cs.len();
        assert(kids_ok(s, n, hc, lo, hi, m, len));
        assert(entries_of(s, n, h) == entries_kids(s, cs, hc, len));
        assert(reach_of(s, n, h) == reach_kids(s, cs, hc, len));
        lemma_kids_ok(s, n, hc, lo, hi, m, len);
        lemma_entries_kids(s, cs, hc, len);
        lemma_reach_kids(s, cs, hc, len);
        assert forall|j: int| 0 <= j < len implies {
            &&& forall|x: int| #[trigger] entries(s, cs[j], hc).contains_key(x) ==> in_bounds(x, lo, hi)
            &&& entries(s, cs[j], hc).dom().finite()
            &&& forall|x: u64| #[trigger] reach(s, cs[j], hc).contains(x) ==> present(s, x)
        } by {
            assert(wf_node(s, cs[j], hc, child_lo(n, lo, j), child_hi(n, hi, j), m));
            lemma_node2_facts(s, node_at(s, cs[j]), hc, child_lo(n, lo, j), child_hi(n, hi, j), m, m);
            assert(entries(s, cs[j], hc) == entries_of(s, node_at(s, cs[j]), hc));
            assert(reach(s, cs[j], hc) == set![cs[j]] + reach_of(s, node_at(s, cs[j]), hc));
            if j > 0 {
                assert(in_bounds(n.keys@[j - 1].rank(), lo, hi));
            }
            if j < n.keys@.len() {
                assert(in_bounds(n.keys@[j].rank(), lo, hi));
            }
            assert forall|x: int| #[trigger] entries(s, cs[j], hc).contains_key(x) implies in_bounds(
                x,
                lo,
                hi,
            ) by {
                assert(entries_of(s, node_at(s, cs[j]), hc).contains_key(x));
                assert(in_bounds(x, child_lo(n, lo, j), child_hi(n, hi, j)));
            }
        }
        assert forall|x: int| entries_of(s, n, h).contains_key(x) implies in_bounds(x, lo, hi) by {
            let j = choose|j: int| 0 <= j < len && #[trigger] entries(s, cs[j], hc).contains_key(x);
        }
        assert forall|x: u64| reach_of(s, n, h).contains(x) implies present(s, x) by {
            let j = choose|j: int| 0 <= j < len && #[trigger] reach(s, cs[j], hc).contains(x);
        }
    }
}

/// In an internal node, a key in the range of child `i` (the number of node
/// keys not greater than it) is held by the node exactly when it is held by
/// that child, with the same value.
pub proof fn lemma_route<K: TreeKey, V>(
    s: Store<K, V>,
    n: UniversalNode<K, V>,
    h: nat,
    lo: Option<int>,
    hi: Option<int>,
    ms: nat,
    m: nat,
    x: int,
    i: int,
)
    requires
        node_ok2(s, n, h + 1, lo, hi, ms, m),
        crate::node::is_upper_bound(n.keys@, x, i),
        in_bounds(x, lo, hi),
    ensures
        in_bounds(x, child_lo(n, lo, i), child_hi(n, hi, i)),
        wf_node(s, n.child_ids@[i], h, child_lo(n, lo, i), child_hi(n, hi, i), m),
        entries_of(s, n, h + 1).contains_key(x) == entries(s, n.child_ids@[i], h).contains_key(x),
        entries(s, n.child_ids@[i], h).contains_key(x) ==> entries_of(s, n, h + 1)[x] == entries(
            s,
            n.child_ids@[i],
            h,
        )[x],
{
    let cs = n.child_ids@;
    let len = cs.len();
    assert(((h + 1) - 1) as nat == h);
    assert(kids_ok(s, n, h, lo, hi, m, len));
    assert(entries_of(s, n, h + 1) == entries_kids(s, cs, h, len));
    lemma_kids_ok(s, n, h, lo, hi, m, len);
    lemma_entries_kids(s, cs, h, len);
    assert forall|j: int| 0 <= j < len && j != i implies !(#[trigger] entries(s, cs[j], h)).contains_key(
        x,
    ) by {
        assert(wf_node(s, cs[j], h, child_lo(n, lo, j), child_hi(n, hi, j), m));
        lemma_node2_facts(s, node_at(s, cs[j]), h, child_lo(n, lo, j), child_hi(n, hi, j), m, m);
        assert(entries(s, cs[j], h) == entries_of(s, node_at(s, cs[j]), h));
        if entries(s, cs[j], h).contains_key(x) {
            assert(entries_of(s, node_at(s, cs[j]), h).contains_key(x));
            assert(in_bounds(x, child_lo(n, lo, j), child_hi(n, hi, j)));
            if j < i {
                assert(n.keys@[j].rank() <= x);
            } else {
                assert(n.keys@[j - 1].rank() > x);
            }
        }
    }
    assert(wf_node(s, cs[i], h, child_lo(n, lo, i), child_hi(n, hi, i), m));
}

} // verus!

verus! {

/// Children lists whose subtrees occupy the same blocks and hold the same
/// entries give the same union of blocks and of entries.
pub proof fn lemma_kids_eq<K: TreeKey, V>(s1: Store<K, V>, s2: Store<K, V>, cs: Seq<u64>, h: nat, i: nat)
    requires
        forall|j: int| 0 <= j < i ==> #[trigger] reach(s2, cs[j], h) == reach(s1, cs[j], h),
        forall|j: int| 0 <= j < i ==> #[trigger] entries(s2, cs[j], h) == entries(s1, cs[j], h),
    ensures
        reach_kids(s2, cs, h, i) == reach_kids(s1, cs, h, i),
        entries_kids(s2, cs, h, i) == entries_kids(s1, cs, h, i),
    decreases i,
{
    if i > 0 {
        lemma_kids_eq(s1, s2, cs, h, (i - 1) as nat);
        assert(reach(s2, cs[i - 1], h) == reach(s1, cs[i - 1], h));
        assert(entries(s2, cs[i - 1], h) == entries(s1, cs[i - 1], h));
        assert(reach_kids(s2, cs, h, i) == reach_kids(s2, cs, h, (i - 1) as nat) + reach(s2, cs[i - 1], h));
        assert(reach_kids(s1, cs, h, i) == reach_kids(s1, cs, h, (i - 1) as nat) + reach(s1, cs[i - 1], h));
        assert(entries_kids(s2, cs, h, i) == entries_kids(s2, cs, h, (i - 1) as nat).union_prefer_right(
            entries(s2, cs[i - 1], h),
        ));
        assert(entries_kids(s1, cs, h, i) == entries_kids(s1, cs, h, (i - 1) as nat).union_prefer_right(
            entries(s1, cs[i - 1], h),
        ));
    }
}

/// A subtree below node value `n` depends only on the blocks it occupies:
/// another store that agrees on them gives the same well-formedness, blocks
/// and entries.
pub proof fn lemma_frame_node<K: TreeKey, V>(
    s1: Store<K, V>,
    s2: Store<K, V>,
    n: UniversalNode<K, V>,
    h: nat,
    lo: Option<int>,
    hi: Option<int>,
    m: nat,
)
    requires
        node_ok(s1, n, h, lo, hi, m),
        forall|x: u64| #[trigger] reach_of(s1, n, h).contains(x) ==> x < s2.len() && s2[x as int] == s1[x as int],
    ensures
        node_ok(s2, n, h, lo, hi, m),
        reach_of(s2, n, h) == reach_of(s1, n, h),
        entries_of(s2, n, h) == entries_of(s1, n, h),
    decreases h,
{
    if h > 0 {
        let hc = (h - 1) as nat;
        let cs = n.child_ids@;
        let len = cs.len();
        assert(kids_ok(s1, n, hc, lo, hi, m, len));
        assert(reach_of(s1, n, h) == reach_kids(s1, cs, hc, len));
        lemma_kids_ok(s1, n, hc, lo, hi, m, len);
        lemma_reach_kids(s1, cs, hc, len);
        assert forall|j: int| #![trigger cs[j]] 0 <= j < len implies {
            &&& wf_node(s2, cs[j], hc, child_lo(n, lo, j), child_hi(n, hi, j), m)
            &&& reach(s2, cs[j], hc) == reach(s1, cs[j], hc)
            &&& entries(s2, cs[j], hc) == entries(s1, cs[j], hc)
        } by {
            let c = cs[j];
            assert(wf_node(s1, c, hc, child_lo(n, lo, j), child_hi(n, hi, j), m));
            assert(reach(s1, c, hc) == set![c] + reach_of(s1, node_at(s1, c), hc));
            assert(reach(s1, c, hc).contains(c));
            assert(reach_of(s1, n, h).contains(c));
            assert forall|x: u64| #[trigger] reach_of(s1, node_at(s1, c), hc).contains(x) implies x < s2.len()
                && s2[x as int] == s1[x as int] by {
                assert(reach(s1, c, hc).contains(x));
                assert(reach_of(s1, n, h).contains(x));
            }
            lemma_frame_node(s1, s2, node_at(s1, c), hc, child_lo(n, lo, j), child_hi(n, hi, j), m);
            assert(node_at(s2, c) == node_at(s1, c));
            assert(reach(s2, c, hc) == set![c] + reach_of(s2, node_at(s2, c), hc));
            assert(entries(s2, c, hc) == entries_of(s2, node_at(s2, c), hc));
            assert(entries(s1, c, hc) == entries_of(s1, node_at(s1, c), hc));
        }
        lemma_kids_eq(s1, s2, cs, hc, len);
        lemma_kids_ok(s2, n, hc, lo, hi, m, len);
        assert(kids_ok(s2, n, hc, lo, hi, m, len));
        assert(reach_of(s2, n, h) == reach_kids(s2, cs, hc, len));
        assert(entries_of(s2, n, h) == entries_kids(s2, cs, hc, len));
        assert(entries_of(s1, n, h) == entries_kids(s1, cs, hc, len));
    }
}

/// The subtree at block `id` depends only on the blocks it occupies.
pub proof fn lemma_frame<K: TreeKey, V>(
    s1: Store<K, V>,
    s2: Store<K, V>,
    id: u64,
    h: nat,
    lo: Option<int>,
    hi: Option<int>,
    m: nat,
)
    requires
        wf_node(s1, id, h, lo, hi, m),
        forall|x: u64| #[trigger] reach(s1, id, h).contains(x) ==> x < s2.len() && s2[x as int] == s1[x as int],
    ensures
        wf_node(s2, id, h, lo, hi, m),
        reach(s2, id, h) == reach(s1, id, h),
        entries(s2, id, h) == entries(s1, id, h),
{
    assert(reach(s1, id, h) == set![id] + reach_of(s1, node_at(s1, id), h));
    assert(reach(s1, id, h).contains(id));
    assert forall|x: u64| #[trigger] reach_of(s1, node_at(s1, id), h).contains(x) implies x < s2.len()
        && s2[x as int] == s1[x as int] by {
        assert(reach(s1, id, h).contains(x));
    }
    lemma_frame_node(s1, s2, node_at(s1, id), h, lo, hi, m);
    assert(node_at(s2, id) == node_at(s1, id));
    assert(reach(s2, id, h) == set![id] + reach_of(s2, node_at(s2, id), h));
}

} // verus!
