//! How the model of a subtree changes when its nodes are changed: entries of
//! leaves, splitting nodes and adding children.
use vstd::prelude::*;

use crate::key::TreeKey;
use crate::model::{
    child_hi, child_lo, entries, entries_kids, entries_of, in_bounds, kids_ok, lemma_entries_kids,
    lemma_kids_ok, lemma_leaf_map, lemma_node2_facts, lemma_reach_kids, leaf_map, node_at, node_local_ok,
    node_ok, node_ok2, reach, reach_kids, reach_of, wf_node, Store,
};
use crate::node::{has_rank, is_lower_bound, lemma_insert_sorted, sorted_keys, UniversalNode};

verus! {

/// Giving a present key a new value changes only that key's entry.
pub proof fn lemma_leaf_replace<K: TreeKey, V>(keys: Seq<K>, vals: Seq<V>, idx: int, v: V)
    requires
        sorted_keys(keys),
        vals.len() == keys.len(),
        0 <= idx < keys.len(),
    ensures
        leaf_map(keys, vals.update(idx, v)) == leaf_map(keys, vals).insert(keys[idx].rank(), v),
{
    let n = keys.len();
    let nv = vals.update(idx, v);
    lemma_leaf_map(keys, vals, n);
    lemma_leaf_map(keys, nv, n);
    let a = leaf_map(keys, nv);
    let b = leaf_map(keys, vals).insert(keys[idx].rank(), v);
    assert forall|x: int| a.contains_key(x) <==> b.contains_key(x) by {
        if x == keys[idx].rank() {
            assert(keys[idx].rank() == x);
        }
    }
    assert forall|x: int| a.contains_key(x) implies a[x] == b[x] by {
        let j = choose|j: int| 0 <= j < n && #[trigger] keys[j].rank() == x;
        if j != idx {
            if j < idx {
                assert(keys[j].rank() < keys[idx].rank());
            } else {
                assert(keys[idx].rank() < keys[j].rank());
            }
        }
    }
    assert(a =~= b);
}

/// Inserting an absent key at its place adds that key's entry and keeps the
/// keys sorted.
pub proof fn lemma_leaf_insert<K: TreeKey, V>(keys: Seq<K>, vals: Seq<V>, idx: int, key: K, v: V)
    requires
        sorted_keys(keys),
        vals.len() == keys.len(),
        is_lower_bound(keys, key.rank(), idx),
        !has_rank(keys, key.rank()),
    ensures
        sorted_keys(keys.insert(idx, key)),
        leaf_map(keys.insert(idx, key), vals.insert(idx, v)) == leaf_map(keys, vals).insert(key.rank(), v),
{
    let nk = keys.insert(idx, key);
    let nv = vals.insert(idx, v);
    let n = keys.len();
    lemma_insert_sorted(keys, nk, key.rank(), idx);
    lemma_leaf_map(keys, vals, n);
    lemma_leaf_map(nk, nv, n + 1);
    let a = leaf_map(nk, nv);
    let b = leaf_map(keys, vals).insert(key.rank(), v);
    assert forall|x: int| a.contains_key(x) <==> b.contains_key(x) by {
        if a.contains_key(x) {
            let j = choose|j: int| 0 <= j < n + 1 && #[trigger] nk[j].rank() == x;
            if j < idx {
                assert(keys[j].rank() == x);
            } else if j > idx {
                assert(keys[j - 1].rank() == x);
            }
        }
        if b.contains_key(x) {
            if x == key.rank() {
                assert(nk[idx].rank() == x);
            } else {
                let j = choose|j: int| 0 <= j < n && #[trigger] keys[j].rank() == x;
                if j < idx {
                    assert(nk[j].rank() == x);
                } else {
                    assert(nk[j + 1].rank() == x);
                }
            }
        }
    }
    assert forall|x: int| a.contains_key(x) implies a[x] == b[x] by {
        let j = choose|j: int| 0 <= j < n + 1 && #[trigger] nk[j].rank() == x;
        if j < idx {
            assert(keys[j].rank() == x);
            assert(nv[j] == vals[j]);
        } else if j > idx {
            assert(keys[j - 1].rank() == x);
            assert(nv[j] == vals[j - 1]);
        }
    }
    assert(a =~= b);
}

/// A leaf's map is the union of the maps of its two halves.
pub proof fn lemma_leaf_split<K: TreeKey, V>(keys: Seq<K>, vals: Seq<V>, sidx: int)
    requires
        sorted_keys(keys),
        vals.len() == keys.len(),
        0 <= sidx <= keys.len(),
    ensures
        leaf_map(keys, vals) == leaf_map(keys.subrange(0, sidx), vals.subrange(0, sidx)).union_prefer_right(
            leaf_map(keys.subrange(sidx, keys.len() as int), vals.subrange(sidx, vals.len() as int)),
        ),
{
    let n = keys.len();
    let k1 = keys.subrange(0, sidx);
    let v1 = vals.subrange(0, sidx);
    let k2 = keys.subrange(sidx, n as int);
    let v2 = vals.subrange(sidx, n as int);
    assert(sorted_keys(k1));
    assert(sorted_keys(k2));
    lemma_leaf_map(keys, vals, n);
    lemma_leaf_map(k1, v1, k1.len());
    lemma_leaf_map(k2, v2, k2.len());
    let a = leaf_map(keys, vals);
    let b = leaf_map(k1, v1).union_prefer_right(leaf_map(k2, v2));
    assert forall|x: int| a.contains_key(x) <==> b.contains_key(x) by {
        if a.contains_key(x) {
            let j = choose|j: int| 0 <= j < n && #[trigger] keys[j].rank() == x;
            if j < sidx {
                assert(k1[j].rank() == x);
            } else {
                assert(k2[j - sidx].rank() == x);
            }
        }
        if leaf_map(k1, v1).contains_key(x) {
            let j = choose|j: int| 0 <= j < k1.len() && #[trigger] k1[j].rank() == x;
            assert(keys[j].rank() == x);
        }
        if leaf_map(k2, v2).contains_key(x) {
            let j = choose|j: int| 0 <= j < k2.len() && #[trigger] k2[j].rank() == x;
            assert(keys[j + sidx].rank() == x);
        }
    }
    assert forall|x: int| a.contains_key(x) implies a[x] == b[x] by {
        let j = choose|j: int| 0 <= j < n && #[trigger] keys[j].rank() == x;
        if j < sidx {
            assert(k1[j].rank() == x);
            if leaf_map(k2, v2).contains_key(x) {
                let t = choose|t: int| 0 <= t < k2.len() && #[trigger] k2[t].rank() == x;
                assert(keys[t + sidx].rank() == x);
                assert(keys[j].rank() < keys[t + sidx].rank());
            }
        } else {
            assert(k2[j - sidx].rank() == x);
        }
    }
    assert(a =~= b);
}

} // verus!

verus! {

/// What an internal node's subtree is, child by child: each child is well
/// formed in its key range, the children occupy disjoint blocks, and the
/// node's blocks and entries are those of its children, each entry found in
/// exactly the child whose range holds its key.
pub proof fn lemma_internal<K: TreeKey, V>(
    s: Store<K, V>,
    n: UniversalNode<K, V>,
    hn: nat,
    h: nat,
    lo: Option<int>,
    hi: Option<int>,
    ms: nat,
    m: nat,
)
    requires
        hn == h + 1,
        node_ok2(s, n, hn, lo, hi, ms, m),
    ensures
        n.child_ids@.len() == n.keys@.len() + 1,
        forall|j: int|
            #![trigger n.child_ids@[j]]
            0 <= j < n.child_ids@.len() ==> wf_node(
                s,
                n.child_ids@[j],
                h,
                child_lo(n, lo, j),
                child_hi(n, hi, j),
                m,
            ),
        forall|j: int, k: int|
            0 <= j < k < n.child_ids@.len() ==> #[trigger] reach(s, n.child_ids@[j], h).disjoint(
                #[trigger] reach(s, n.child_ids@[k], h),
            ),
        forall|j: int, x: int|
            0 <= j < n.child_ids@.len() && #[trigger] entries(s, n.child_ids@[j], h).contains_key(x) ==> {
                &&& in_bounds(x, child_lo(n, lo, j), child_hi(n, hi, j))
                &&& entries_of(s, n, hn).contains_key(x)
                &&& entries_of(s, n, hn)[x] == entries(s, n.child_ids@[j], h)[x]
            },
        forall|x: int|
            entries_of(s, n, hn).contains_key(x) ==> exists|j: int|
                0 <= j < n.child_ids@.len() && #[trigger] entries(s, n.child_ids@[j], h).contains_key(x),
        forall|x: u64|
            reach_of(s, n, hn).contains(x) <==> exists|j: int|
                0 <= j < n.child_ids@.len() && #[trigger] reach(s, n.child_ids@[j], h).contains(x),
{
    let cs = n.child_ids@;
    let len = cs.len();
    assert((hn - 1) as nat == h);
    assert(kids_ok(s, n, h, lo, hi, m, len));
    assert(entries_of(s, n, hn) == entries_kids(s, cs, h, len));
    assert(reach_of(s, n, hn) == reach_kids(s, cs, h, len));
    lemma_kids_ok(s, n, h, lo, hi, m, len);
    lemma_entries_kids(s, cs, h, len);
    lemma_reach_kids(s, cs, h, len);
    assert forall|j: int, x: int|
        0 <= j < len && #[trigger] entries(s, cs[j], h).contains_key(x) implies in_bounds(
        x,
        child_lo(n, lo, j),
        child_hi(n, hi, j),
    ) by {
        assert(wf_node(s, cs[j], h, child_lo(n, lo, j), child_hi(n, hi, j), m));
        lemma_node2_facts(s, node_at(s, cs[j]), h, child_lo(n, lo, j), child_hi(n, hi, j), m, m);
        assert(entries(s, cs[j], h) == entries_of(s, node_at(s, cs[j]), h));
    }
    assert forall|j: int, x: int|
        0 <= j < len && #[trigger] entries(s, cs[j], h).contains_key(x) implies entries_kids(
        s,
        cs,
        h,
        len,
    )[x] == entries(s, cs[j], h)[x] by {
        assert forall|t: int| j < t < len implies !(#[trigger] entries(s, cs[t], h).contains_key(x)) by {
            if entries(s, cs[t], h).contains_key(x) {
                assert(in_bounds(x, child_lo(n, lo, t), child_hi(n, hi, t)));
                assert(in_bounds(x, child_lo(n, lo, j), child_hi(n, hi, j)));
                assert(n.keys@[j].rank() <= n.keys@[t - 1].rank());
            }
        }
    }
}

/// Splitting a leaf of `m + 1` keys gives two well-formed leaves whose
/// ranges meet at the split key and whose entries together are the leaf's.
pub proof fn lemma_split_leaf<K: TreeKey, V>(
    s: Store<K, V>,
    n: UniversalNode<K, V>,
    left: UniversalNode<K, V>,
    right: UniversalNode<K, V>,
    sep: K,
    lo: Option<int>,
    hi: Option<int>,
    m: nat,
)
    requires
        node_local_ok(n, 0, lo, hi, m + 1),
        n.keys@.len() == m + 1,
        m >= 2,
        m < u32::MAX,
        sep == n.keys@[(n.keys@.len() / 2) as int],
        left.keys@ == n.keys@.subrange(0, (n.keys@.len() / 2) as int),
        right.keys@ == n.keys@.subrange((n.keys@.len() / 2) as int, n.keys@.len() as int),
        left.values@ == n.values@.subrange(0, (n.keys@.len() / 2) as int),
        right.values@ == n.values@.subrange((n.keys@.len() / 2) as int, n.values@.len() as int),
        left.key_count == left.keys@.len() as u32,
        right.key_count == right.keys@.len() as u32,
        left.leaf(),
        right.leaf(),
        left.child_ids@.len() == 0,
        right.child_ids@.len() == 0,
    ensures
        node_ok(s, left, 0, lo, Some(sep.rank()), m),
        node_ok(s, right, 0, Some(sep.rank()), hi, m),
        entries_of(s, left, 0).union_prefer_right(entries_of(s, right, 0)) == entries_of(s, n, 0),
        lo matches Some(l) ==> l < sep.rank(),
        in_bounds(sep.rank(), lo, hi),
        reach_of(s, left, 0) == Set::<u64>::empty(),
        reach_of(s, right, 0) == Set::<u64>::empty(),
{
    let sidx = (n.keys@.len() / 2) as int;
    lemma_split_leaf_at(s, n, left, right, sep, lo, hi, m + 1, m, sidx);
}

/// Splitting a leaf before its `q`-th key gives two well-formed leaves whose
/// ranges meet at that key and whose entries together are the leaf's.
pub proof fn lemma_split_leaf_at<K: TreeKey, V>(
    s: Store<K, V>,
    n: UniversalNode<K, V>,
    left: UniversalNode<K, V>,
    right: UniversalNode<K, V>,
    sep: K,
    lo: Option<int>,
    hi: Option<int>,
    ms: nat,
    m: nat,
    q: int,
)
    requires
        node_local_ok(n, 0, lo, hi, ms),
        0 <= q < n.keys@.len(),
        sep == n.keys@[q],
        left.keys@ == n.keys@.subrange(0, q),
        right.keys@ == n.keys@.subrange(q, n.keys@.len() as int),
        left.values@ == n.values@.subrange(0, q),
        right.values@ == n.values@.subrange(q, n.values@.len() as int),
        left.key_count as int == left.keys@.len(),
        right.key_count as int == right.keys@.len(),
        left.leaf(),
        right.leaf(),
        left.child_ids@.len() == 0,
        right.child_ids@.len() == 0,
        left.keys@.len() <= m,
        right.keys@.len() <= m,
    ensures
        node_ok(s, left, 0, lo, Some(sep.rank()), m),
        node_ok(s, right, 0, Some(sep.rank()), hi, m),
        entries_of(s, left, 0).union_prefer_right(entries_of(s, right, 0)) == entries_of(s, n, 0),
        q > 0 ==> (lo matches Some(l) ==> l < sep.rank()),
        in_bounds(sep.rank(), lo, hi),
        reach_of(s, left, 0) == Set::<u64>::empty(),
        reach_of(s, right, 0) == Set::<u64>::empty(),
{
    lemma_leaf_split(n.keys@, n.values@, q);
    assert(n.keys@[0].rank() <= n.keys@[q].rank());
    assert(in_bounds(n.keys@[0].rank(), lo, hi));
    assert(in_bounds(n.keys@[q].rank(), lo, hi));
    assert forall|j: int| 0 <= j < left.keys@.len() implies in_bounds(
        #[trigger] left.keys@[j].rank(),
        lo,
        Some(sep.rank()),
    ) by {
        assert(left.keys@[j] == n.keys@[j]);
        assert(in_bounds(n.keys@[j].rank(), lo, hi));
    }
    assert forall|j: int| 0 <= j < right.keys@.len() implies in_bounds(
        #[trigger] right.keys@[j].rank(),
        Some(sep.rank()),
        hi,
    ) by {
        assert(right.keys@[j] == n.keys@[j + q]);
        assert(in_bounds(n.keys@[j + q].rank(), lo, hi));
    }
    assert(sorted_keys(left.keys@));
    assert(sorted_keys(right.keys@));
}

} // verus!

verus! {

/// Splitting an internal node of `m + 1` keys around its middle key gives two
/// well-formed nodes whose ranges meet at that key, which together occupy the
/// node's blocks and hold its entries.
pub proof fn lemma_split_internal<K: TreeKey, V>(
    s: Store<K, V>,
    n: UniversalNode<K, V>,
    left: UniversalNode<K, V>,
    right: UniversalNode<K, V>,
    sep: K,
    hn: nat,
    h: nat,
    lo: Option<int>,
    hi: Option<int>,
    m: nat,
)
    requires
        hn == h + 1,
        node_ok2(s, n, hn, lo, hi, m + 1, m),
        n.keys@.len() == m + 1,
        m >= 2,
        m < u32::MAX,
        sep == n.keys@[(n.keys@.len() / 2) as int],
        left.keys@ == n.keys@.subrange(0, (n.keys@.len() / 2) as int),
        right.keys@ == n.keys@.subrange((n.keys@.len() / 2) as int + 1, n.keys@.len() as int),
        left.child_ids@ == n.child_ids@.subrange(0, (n.keys@.len() / 2) as int + 1),
        right.child_ids@ == n.child_ids@.subrange((n.keys@.len() / 2) as int + 1, n.child_ids@.len() as int),
        left.key_count == left.keys@.len() as u32,
        right.key_count == right.keys@.len() as u32,
        !left.leaf(),
        !right.leaf(),
        left.values@.len() == 0,
        right.values@.len() == 0,
        left.next_leaf is None,
        right.next_leaf is None,
    ensures
        node_ok(s, left, hn, lo, Some(sep.rank()), m),
        node_ok(s, right, hn, Some(sep.rank()), hi, m),
        reach_of(s, left, hn).disjoint(reach_of(s, right, hn)),
        reach_of(s, left, hn) + reach_of(s, right, hn) == reach_of(s, n, hn),
        entries_of(s, left, hn).union_prefer_right(entries_of(s, right, hn)) == entries_of(s, n, hn),
        lo matches Some(l) ==> l < sep.rank(),
        in_bounds(sep.rank(), lo, hi),
{
    let si = (n.keys@.len() / 2) as int;
    lemma_split_internal_at(s, n, left, right, sep, hn, h, lo, hi, m + 1, m, si);
}

/// Splitting an internal node around its `q`-th key gives two well-formed
/// nodes whose ranges meet at that key, which together occupy the node's
/// blocks and hold its entries.
#[verifier::rlimit(60)]
pub proof fn lemma_split_internal_at<K: TreeKey, V>(
    s: Store<K, V>,
    n: UniversalNode<K, V>,
    left: UniversalNode<K, V>,
    right: UniversalNode<K, V>,
    sep: K,
    hn: nat,
    h: nat,
    lo: Option<int>,
    hi: Option<int>,
    ms: nat,
    m: nat,
    q: int,
)
    requires
        hn == h + 1,
        node_ok2(s, n, hn, lo, hi, ms, m),
        0 <= q < n.keys@.len(),
        sep == n.keys@[q],
        left.keys@ == n.keys@.subrange(0, q),
        right.keys@ == n.keys@.subrange(q + 1, n.keys@.len() as int),
        left.child_ids@ == n.child_ids@.subrange(0, q + 1),
        right.child_ids@ == n.child_ids@.subrange(q + 1, n.child_ids@.len() as int),
        left.key_count as int == left.keys@.len(),
        right.key_count as int == right.keys@.len(),
        !left.leaf(),
        !right.leaf(),
        left.values@.len() == 0,
        right.values@.len() == 0,
        left.next_leaf is None,
        right.next_leaf is None,
        left.keys@.len() <= m,
        right.keys@.len() <= m,
    ensures
        node_ok(s, left, hn, lo, Some(sep.rank()), m),
        node_ok(s, right, hn, Some(sep.rank()), hi, m),
        reach_of(s, left, hn).disjoint(reach_of(s, right, hn)),
        reach_of(s, left, hn) + reach_of(s, right, hn) == reach_of(s, n, hn),
        entries_of(s, left, hn).union_prefer_right(entries_of(s, right, hn)) == entries_of(s, n, hn),
        lo matches Some(l) ==> l < sep.rank(),
        in_bounds(sep.rank(), lo, hi),
{
    let si = q;
    let len = n.child_ids@.len() as int;
    let nk = n.keys@.len() as int;
    let sp = Some(sep.rank());
    lemma_internal(s, n, hn, h, lo, hi, ms, m);
    assert(n.keys@[0].rank() <= n.keys@[si].rank());
    assert(in_bounds(n.keys@[0].rank(), lo, hi));
    assert(in_bounds(n.keys@[si].rank(), lo, hi));
    // the left half
    assert forall|j: int| 0 <= j < left.keys@.len() implies in_bounds(
        #[trigger] left.keys@[j].rank(),
        lo,
        sp,
    ) by {
        assert(left.keys@[j] == n.keys@[j]);
        assert(in_bounds(n.keys@[j].rank(), lo, hi));
    }
    assert(sorted_keys(left.keys@));
    assert(node_local_ok(left, hn, lo, sp, m));
    assert forall|j: int| 0 <= j < left.child_ids@.len() implies #[trigger] wf_node(
        s,
        left.child_ids@[j],
        h,
        child_lo(left, lo, j),
        child_hi(left, sp, j),
        m,
    ) by {
        assert(left.child_ids@[j] == n.child_ids@[j]);
        assert(child_lo(left, lo, j) == child_lo(n, lo, j));
        assert(child_hi(left, sp, j) == child_hi(n, hi, j));
    }
    assert forall|j: int, k: int| 0 <= j < k < left.child_ids@.len() implies #[trigger] reach(
        s,
        left.child_ids@[j],
        h,
    ).disjoint(#[trigger] reach(s, left.child_ids@[k], h)) by {
        assert(left.child_ids@[j] == n.child_ids@[j]);
        assert(left.child_ids@[k] == n.child_ids@[k]);
    }
    lemma_kids_ok(s, left, h, lo, sp, m, left.child_ids@.len());
    assert(node_ok(s, left, hn, lo, sp, m));
    // the right half
    assert forall|j: int| 0 <= j < right.keys@.len() implies in_bounds(
        #[trigger] right.keys@[j].rank(),
        sp,
        hi,
    ) by {
        assert(right.keys@[j] == n.keys@[j + si + 1]);
        assert(in_bounds(n.keys@[j + si + 1].rank(), lo, hi));
    }
    assert(sorted_keys(right.keys@));
    assert(node_local_ok(right, hn, sp, hi, m));
    assert forall|j: int| 0 <= j < right.child_ids@.len() implies #[trigger] wf_node(
        s,
        right.child_ids@[j],
        h,
        child_lo(right, sp, j),
        child_hi(right, hi, j),
        m,
    ) by {
        assert(right.child_ids@[j] == n.child_ids@[j + si + 1]);
        assert(child_lo(right, sp, j) == child_lo(n, lo, j + si + 1));
        assert(child_hi(right, hi, j) == child_hi(n, hi, j + si + 1));
        assert(wf_node(
            s,
            n.child_ids@[j + si + 1],
            h,
            child_lo(n, lo, j + si + 1),
            child_hi(n, hi, j + si + 1),
            m,
        ));
    }
    assert forall|j: int, k: int| 0 <= j < k < right.child_ids@.len() implies #[trigger] reach(
        s,
        right.child_ids@[j],
        h,
    ).disjoint(#[trigger] reach(s, right.child_ids@[k], h)) by {
        assert(right.child_ids@[j] == n.child_ids@[j + si + 1]);
        assert(right.child_ids@[k] == n.child_ids@[k + si + 1]);
        assert(reach(s, n.child_ids@[j + si + 1], h).disjoint(reach(s, n.child_ids@[k + si + 1], h)));
    }
    lemma_kids_ok(s, right, h, sp, hi, m, right.child_ids@.len());
    assert(node_ok(s, right, hn, sp, hi, m));
    lemma_internal(s, left, hn, h, lo, sp, m, m);
    lemma_internal(s, right, hn, h, sp, hi, m, m);
    // blocks
    let rl = reach_of(s, left, hn);
    let rr = reach_of(s, right, hn);
    let rn = reach_of(s, n, hn);
    assert forall|x: u64| rl.contains(x) implies !rr.contains(x) by {
        let j = choose|j: int| 0 <= j < left.child_ids@.len() && #[trigger] reach(s, left.child_ids@[j], h).contains(x);
        if rr.contains(x) {
            let k = choose|k: int| 0 <= k < right.child_ids@.len() && #[trigger] reach(s, right.child_ids@[k], h).contains(x);
            assert(left.child_ids@[j] == n.child_ids@[j]);
            assert(right.child_ids@[k] == n.child_ids@[k + si + 1]);
            assert(reach(s, n.child_ids@[j], h).disjoint(reach(s, n.child_ids@[k + si + 1], h)));
        }
    }
    assert forall|x: u64| (rl + rr).contains(x) <==> rn.contains(x) by {
        if rl.contains(x) {
            let j = choose|j: int| 0 <= j < left.child_ids@.len() && #[trigger] reach(s, left.child_ids@[j], h).contains(x);
            assert(left.child_ids@[j] == n.child_ids@[j]);
            assert(reach(s, n.child_ids@[j], h).contains(x));
        }
        if rr.contains(x) {
            let k = choose|k: int| 0 <= k < right.child_ids@.len() && #[trigger] reach(s, right.child_ids@[k], h).contains(x);
            assert(right.child_ids@[k] == n.child_ids@[k + si + 1]);
            assert(reach(s, n.child_ids@[k + si + 1], h).contains(x));
        }
        if rn.contains(x) {
            let j = choose|j: int| 0 <= j < len && #[trigger] reach(s, n.child_ids@[j], h).contains(x);
            if j <= si {
                assert(left.child_ids@[j] == n.child_ids@[j]);
                assert(reach(s, left.child_ids@[j], h).contains(x));
            } else {
                assert(right.child_ids@[j - si - 1] == n.child_ids@[j]);
                assert(reach(s, right.child_ids@[j - si - 1], h).contains(x));
            }
        }
    }
    assert(rl + rr =~= rn);
    // entries
    let el = entries_of(s, left, hn);
    let er = entries_of(s, right, hn);
    let en = entries_of(s, n, hn);
    assert forall|x: int| el.union_prefer_right(er).contains_key(x) <==> en.contains_key(x) by {
        if el.contains_key(x) {
            let j = choose|j: int| 0 <= j < left.child_ids@.len() && #[trigger] entries(s, left.child_ids@[j], h).contains_key(x);
            assert(left.child_ids@[j] == n.child_ids@[j]);
            assert(entries(s, n.child_ids@[j], h).contains_key(x));
        }
        if er.contains_key(x) {
            let k = choose|k: int| 0 <= k < right.child_ids@.len() && #[trigger] entries(s, right.child_ids@[k], h).contains_key(x);
            assert(right.child_ids@[k] == n.child_ids@[k + si + 1]);
            assert(entries(s, n.child_ids@[k + si + 1], h).contains_key(x));
        }
        if en.contains_key(x) {
            let j = choose|j: int| 0 <= j < len && #[trigger] entries(s, n.child_ids@[j], h).contains_key(x);
            if j <= si {
                assert(left.child_ids@[j] == n.child_ids@[j]);
                assert(entries(s, left.child_ids@[j], h).contains_key(x));
            } else {
                assert(right.child_ids@[j - si - 1] == n.child_ids@[j]);
                assert(entries(s, right.child_ids@[j - si - 1], h).contains_key(x));
            }
        }
    }
    assert forall|x: int| en.contains_key(x) implies el.union_prefer_right(er)[x] == en[x] by {
        let j = choose|j: int| 0 <= j < len && #[trigger] entries(s, n.child_ids@[j], h).contains_key(x);
        if j <= si {
            assert(left.child_ids@[j] == n.child_ids@[j]);
            assert(entries(s, left.child_ids@[j], h).contains_key(x));
            if er.contains_key(x) {
                let k = choose|k: int| 0 <= k < right.child_ids@.len() && #[trigger] entries(s, right.child_ids@[k], h).contains_key(x);
                assert(in_bounds(x, child_lo(right, sp, k), child_hi(right, hi, k)));
                assert(in_bounds(x, child_lo(left, lo, j), child_hi(left, sp, j)));
            }
        } else {
            assert(right.child_ids@[j - si - 1] == n.child_ids@[j]);
            assert(entries(s, right.child_ids@[j - si - 1], h).contains_key(x));
        }
    }
    assert(el.union_prefer_right(er) =~= en);
}

} // verus!

verus! {

/// A block in a store that holds no node.
pub open spec fn fresh<K, V>(s: Store<K, V>, x: u64) -> bool {
    !crate::model::present(s, x)
}

/// A well-formed subtree occupies only blocks that hold nodes, its own block
/// among them, and keeps finitely many entries, all in its key range.
pub proof fn lemma_wf_facts<K: TreeKey, V>(
    s: Store<K, V>,
    id: u64,
    h: nat,
    lo: Option<int>,
    hi: Option<int>,
    m: nat,
)
    requires
        wf_node(s, id, h, lo, hi, m),
    ensures
        reach(s, id, h).contains(id),
        forall|x: u64| #[trigger] reach(s, id, h).contains(x) ==> crate::model::present(s, x),
        forall|x: int| #[trigger] entries(s, id, h).contains_key(x) ==> in_bounds(x, lo, hi),
        entries(s, id, h).dom().finite(),
{
    lemma_node2_facts(s, node_at(s, id), h, lo, hi, m, m);
    assert(reach(s, id, h) == set![id] + reach_of(s, node_at(s, id), h));
    assert(entries(s, id, h) == entries_of(s, node_at(s, id), h));
}

/// When one child's subtree gains an entry, in a store that changes only
/// that subtree's blocks and blocks that held no node, the node stays well
/// formed and gains the entry.
pub proof fn lemma_child_replaced<K: TreeKey, V>(
    s0: Store<K, V>,
    s1: Store<K, V>,
    n: UniversalNode<K, V>,
    hn: nat,
    h: nat,
    lo: Option<int>,
    hi: Option<int>,
    ms: nat,
    m: nat,
    i: int,
    k: int,
    v: V,
)
    requires
        hn == h + 1,
        node_ok2(s0, n, hn, lo, hi, ms, m),
        0 <= i < n.child_ids@.len(),
        wf_node(s1, n.child_ids@[i], h, child_lo(n, lo, i), child_hi(n, hi, i), m),
        entries(s1, n.child_ids@[i], h) == entries(s0, n.child_ids@[i], h).insert(k, v),
        in_bounds(k, child_lo(n, lo, i), child_hi(n, hi, i)),
        forall|x: u64|
            #[trigger] reach(s1, n.child_ids@[i], h).contains(x) ==> reach(s0, n.child_ids@[i], h).contains(x)
                || fresh(s0, x),
        forall|x: u64|
            crate::model::present(s0, x) && !reach(s0, n.child_ids@[i], h).contains(x) ==> x < s1.len() && s1[x as int]
                == #[trigger] s0[x as int],
    ensures
        node_ok2(s1, n, hn, lo, hi, ms, m),
        entries_of(s1, n, hn) == entries_of(s0, n, hn).insert(k, v),
        forall|x: u64| #[trigger] reach_of(s1, n, hn).contains(x) ==> reach_of(s0, n, hn).contains(x) || fresh(s0, x),
{
    let cs = n.child_ids@;
    let len = cs.len() as int;
    let ci = cs[i];
    lemma_internal(s0, n, hn, h, lo, hi, ms, m);
    lemma_wf_facts(s0, ci, h, child_lo(n, lo, i), child_hi(n, hi, i), m);
    assert forall|j: int| #![trigger cs[j]] 0 <= j < len && j != i implies {
        &&& wf_node(s1, cs[j], h, child_lo(n, lo, j), child_hi(n, hi, j), m)
        &&& reach(s1, cs[j], h) == reach(s0, cs[j], h)
        &&& entries(s1, cs[j], h) == entries(s0, cs[j], h)
    } by {
        lemma_wf_facts(s0, cs[j], h, child_lo(n, lo, j), child_hi(n, hi, j), m);
        if j < i {
            assert(reach(s0, cs[j], h).disjoint(reach(s0, cs[i], h)));
        } else {
            assert(reach(s0, cs[i], h).disjoint(reach(s0, cs[j], h)));
        }
        assert forall|x: u64| #[trigger] reach(s0, cs[j], h).contains(x) implies x < s1.len() && s1[x as int]
            == s0[x as int] by {
            assert(crate::model::present(s0, x));
            assert(!reach(s0, ci, h).contains(x));
        }
        crate::model::lemma_frame(s0, s1, cs[j], h, child_lo(n, lo, j), child_hi(n, hi, j), m);
    }
    assert forall|j: int| 0 <= j < len implies #[trigger] wf_node(
        s1,
        cs[j],
        h,
        child_lo(n, lo, j),
        child_hi(n, hi, j),
        m,
    ) by {
        if j != i {
            assert(wf_node(s1, cs[j], h, child_lo(n, lo, j), child_hi(n, hi, j), m));
        }
    }
    assert forall|j: int, t: int| 0 <= j < t < len implies #[trigger] reach(s1, cs[j], h).disjoint(
        #[trigger] reach(s1, cs[t], h),
    ) by {
        if j != i && t != i {
            assert(reach(s1, cs[j], h) == reach(s0, cs[j], h));
            assert(reach(s1, cs[t], h) == reach(s0, cs[t], h));
            assert(reach(s0, cs[j], h).disjoint(reach(s0, cs[t], h)));
        } else {
            let o = if j == i {
                t
            } else {
                j
            };
            assert(reach(s1, cs[o], h) == reach(s0, cs[o], h));
            lemma_wf_facts(s0, cs[o], h, child_lo(n, lo, o), child_hi(n, hi, o), m);
            if o < i {
                assert(reach(s0, cs[o], h).disjoint(reach(s0, cs[i], h)));
            } else {
                assert(reach(s0, cs[i], h).disjoint(reach(s0, cs[o], h)));
            }
            assert forall|x: u64| reach(s1, cs[j], h).contains(x) implies !reach(s1, cs[t], h).contains(x) by {
                if reach(s1, cs[t], h).contains(x) {
                    assert(reach(s1, cs[i], h).contains(x));
                    assert(reach(s0, cs[o], h).contains(x));
                    assert(crate::model::present(s0, x));
                }
            }
        }
    }
    assert((hn - 1) as nat == h);
    lemma_kids_ok(s1, n, h, lo, hi, m, cs.len());
    assert(node_ok2(s1, n, hn, lo, hi, ms, m));
    lemma_internal(s1, n, hn, h, lo, hi, ms, m);
    let e0 = entries_of(s0, n, hn);
    let e1 = entries_of(s1, n, hn);
    assert forall|x: int| e1.contains_key(x) <==> e0.insert(k, v).contains_key(x) by {
        if e1.contains_key(x) {
            let j = choose|j: int| 0 <= j < len && #[trigger] entries(s1, cs[j], h).contains_key(x);
            if j != i {
                assert(entries(s0, cs[j], h).contains_key(x));
            } else if x != k {
                assert(entries(s0, cs[i], h).contains_key(x));
            }
        }
        if e0.contains_key(x) {
            let j = choose|j: int| 0 <= j < len && #[trigger] entries(s0, cs[j], h).contains_key(x);
            if j != i {
                assert(entries(s1, cs[j], h).contains_key(x));
            } else {
                assert(entries(s1, cs[i], h).contains_key(x));
            }
        }
        if x == k {
            assert(entries(s1, cs[i], h).contains_key(x));
        }
    }
    assert forall|x: int| e1.contains_key(x) implies e1[x] == e0.insert(k, v)[x] by {
        let j = choose|j: int| 0 <= j < len && #[trigger] entries(s1, cs[j], h).contains_key(x);
        if j != i {
            assert(entries(s0, cs[j], h).contains_key(x));
            assert(in_bounds(x, child_lo(n, lo, j), child_hi(n, hi, j)));
            if x == k {
                if j < i {
                    assert(n.keys@[j].rank() <= n.keys@[i - 1].rank());
                } else {
                    assert(n.keys@[i].rank() <= n.keys@[j - 1].rank());
                }
            }
        } else if x != k {
            assert(entries(s0, cs[i], h).contains_key(x));
        }
    }
    assert(e1 =~= e0.insert(k, v));
    assert forall|x: u64| #[trigger] reach_of(s1, n, hn).contains(x) implies reach_of(s0, n, hn).contains(x)
        || fresh(s0, x) by {
        let j = choose|j: int| 0 <= j < len && #[trigger] reach(s1, cs[j], h).contains(x);
        if j != i {
            assert(reach(s0, cs[j], h).contains(x));
        } else if !fresh(s0, x) {
            assert(reach(s0, cs[i], h).contains(x));
        }
    }
}

} // verus!

verus! {

/// When one child's subtree gains an entry and splits in two around `sep`,
/// with the new half at block `r`, adding `sep` and `r` to the node after
/// that child gives a well-formed node (of one key more) with the entry.
#[verifier::rlimit(80)]
pub proof fn lemma_child_split<K: TreeKey, V>(
    s0: Store<K, V>,
    s1: Store<K, V>,
    n: UniversalNode<K, V>,
    n2: UniversalNode<K, V>,
    hn: nat,
    h: nat,
    lo: Option<int>,
    hi: Option<int>,
    ms: nat,
    m: nat,
    i: int,
    k: int,
    v: V,
    sep: K,
    r: u64,
)
    requires
        hn == h + 1,
        node_ok2(s0, n, hn, lo, hi, ms, m),
        0 <= i < n.child_ids@.len(),
        wf_node(s1, n.child_ids@[i], h, child_lo(n, lo, i), Some(sep.rank()), m),
        wf_node(s1, r, h, Some(sep.rank()), child_hi(n, hi, i), m),
        reach(s1, n.child_ids@[i], h).disjoint(reach(s1, r, h)),
        entries(s1, n.child_ids@[i], h).union_prefer_right(entries(s1, r, h)) == entries(
            s0,
            n.child_ids@[i],
            h,
        ).insert(k, v),
        in_bounds(k, child_lo(n, lo, i), child_hi(n, hi, i)),
        child_lo(n, lo, i) matches Some(l) ==> l < sep.rank(),
        in_bounds(sep.rank(), child_lo(n, lo, i), child_hi(n, hi, i)),
        forall|x: u64|
            #[trigger] reach(s1, n.child_ids@[i], h).contains(x) ==> reach(s0, n.child_ids@[i], h).contains(x)
                || fresh(s0, x),
        forall|x: u64|
            #[trigger] reach(s1, r, h).contains(x) ==> reach(s0, n.child_ids@[i], h).contains(x) || fresh(s0, x),
        forall|x: u64|
            crate::model::present(s0, x) && !reach(s0, n.child_ids@[i], h).contains(x) ==> x < s1.len() && s1[x as int]
                == #[trigger] s0[x as int],
        n2.keys@ == n.keys@.insert(i, sep),
        n2.child_ids@ == n.child_ids@.insert(i + 1, r),
        n2.well_shaped(),
        !n2.leaf(),
        n2.keys@.len() <= ms + 1,
    ensures
        node_ok2(s1, n2, hn, lo, hi, ms + 1, m),
        entries_of(s1, n2, hn) == entries_of(s0, n, hn).insert(k, v),
        forall|x: u64| #[trigger] reach_of(s1, n2, hn).contains(x) ==> reach_of(s0, n, hn).contains(x) || fresh(s0, x),
{
    let cs = n.child_ids@;
    let cs2 = n2.child_ids@;
    let len = cs.len() as int;
    let ci = cs[i];
    let sk = sep.rank();
    lemma_internal(s0, n, hn, h, lo, hi, ms, m);
    lemma_wf_facts(s0, ci, h, child_lo(n, lo, i), child_hi(n, hi, i), m);
    lemma_wf_facts(s1, ci, h, child_lo(n, lo, i), Some(sk), m);
    lemma_wf_facts(s1, r, h, Some(sk), child_hi(n, hi, i), m);
    // keys of the new node
    lemma_sep_position(n, lo, hi, i, sk);
    lemma_insert_sorted(n.keys@, n2.keys@, sk, i);
    if i > 0 {
        assert(in_bounds(n.keys@[i - 1].rank(), lo, hi));
    }
    if i < n.keys@.len() {
        assert(in_bounds(n.keys@[i].rank(), lo, hi));
    }
    assert(in_bounds(sk, lo, hi));
    assert forall|j: int| 0 <= j < n2.keys@.len() implies in_bounds(#[trigger] n2.keys@[j].rank(), lo, hi) by {
        if j < i {
            assert(n2.keys@[j] == n.keys@[j]);
        } else if j > i {
            assert(n2.keys@[j] == n.keys@[j - 1]);
        }
    }
    assert(node_local_ok(n2, hn, lo, hi, ms + 1));
    // children of the new node: bounds
    assert forall|j: int| 0 <= j < i implies cs2[j] == cs[j] && child_lo(n2, lo, j) == child_lo(n, lo, j)
        && child_hi(n2, hi, j) == child_hi(n, hi, j) by {
        if j > 0 {
            assert(n2.keys@[j - 1] == n.keys@[j - 1]);
        }
        assert(n2.keys@[j] == n.keys@[j]);
    }
    assert(cs2[i] == ci && child_lo(n2, lo, i) == child_lo(n, lo, i) && child_hi(n2, hi, i) == Some(sk)) by {
        if i > 0 {
            assert(n2.keys@[i - 1] == n.keys@[i - 1]);
        }
    }
    assert(cs2[i + 1] == r && child_lo(n2, lo, i + 1) == Some(sk) && child_hi(n2, hi, i + 1) == child_hi(n, hi, i)) by {
        if i + 1 < n2.keys@.len() {
            assert(n2.keys@[i + 1] == n.keys@[i]);
        }
    }
    assert forall|j: int| i + 1 < j < len + 1 implies cs2[j] == cs[j - 1] && child_lo(n2, lo, j) == child_lo(
        n,
        lo,
        j - 1,
    ) && child_hi(n2, hi, j) == child_hi(n, hi, j - 1) by {
        assert(n2.keys@[j - 1] == n.keys@[j - 2]);
        if j < n2.keys@.len() {
            assert(n2.keys@[j] == n.keys@[j - 1]);
        }
    }
    // the untouched children keep their subtrees
    assert forall|j: int| #![trigger cs[j]] 0 <= j < len && j != i implies {
        &&& wf_node(s1, cs[j], h, child_lo(n, lo, j), child_hi(n, hi, j), m)
        &&& reach(s1, cs[j], h) == reach(s0, cs[j], h)
        &&& entries(s1, cs[j], h) == entries(s0, cs[j], h)
        &&& forall|x: u64| reach(s0, cs[j], h).contains(x) ==> crate::model::present(s0, x) && !reach(s0, ci, h).contains(x)
    } by {
        lemma_wf_facts(s0, cs[j], h, child_lo(n, lo, j), child_hi(n, hi, j), m);
        if j < i {
            assert(reach(s0, cs[j], h).disjoint(reach(s0, cs[i], h)));
        } else {
            assert(reach(s0, cs[i], h).disjoint(reach(s0, cs[j], h)));
        }
        assert forall|x: u64| #[trigger] reach(s0, cs[j], h).contains(x) implies x < s1.len() && s1[x as int]
            == s0[x as int] by {
            assert(crate::model::present(s0, x));
            assert(!reach(s0, ci, h).contains(x));
        }
        crate::model::lemma_frame(s0, s1, cs[j], h, child_lo(n, lo, j), child_hi(n, hi, j), m);
    }
    // which old child each new child comes from
    let o = |j: int| if j <= i { j } else { j - 1 };
    assert forall|j: int| 0 <= j < len + 1 && j != i && j != i + 1 implies #[trigger] cs2[j] == cs[o(j)] && o(j) != i
        && 0 <= o(j) < len by {}
    assert forall|j: int| 0 <= j < len + 1 implies #[trigger] wf_node(
        s1,
        cs2[j],
        h,
        child_lo(n2, lo, j),
        child_hi(n2, hi, j),
        m,
    ) by {
        if j != i && j != i + 1 {
            assert(cs[o(j)] == cs2[j]);
        }
    }
    // new children come from the split child's blocks or fresh ones
    assert forall|j: int, x: u64| 0 <= j < len + 1 && (j == i || j == i + 1) && #[trigger] reach(s1, cs2[j], h).contains(
        x,
    ) implies reach(s0, ci, h).contains(x) || fresh(s0, x) by {}
    assert forall|j: int, t: int| 0 <= j < t < len + 1 implies #[trigger] reach(s1, cs2[j], h).disjoint(
        #[trigger] reach(s1, cs2[t], h),
    ) by {
        let jn = j == i || j == i + 1;
        let tn = t == i || t == i + 1;
        if jn && tn {
            assert(j == i && t == i + 1);
        } else if !jn && !tn {
            assert(cs[o(j)] == cs2[j]);
            assert(cs[o(t)] == cs2[t]);
            assert(o(j) < o(t));
            assert(reach(s0, cs[o(j)], h).disjoint(reach(s0, cs[o(t)], h)));
        } else {
            let a = if jn {
                t
            } else {
                j
            };
            let b = if jn {
                j
            } else {
                t
            };
            assert(cs[o(a)] == cs2[a]);
            assert forall|x: u64| reach(s1, cs2[j], h).contains(x) implies !reach(s1, cs2[t], h).contains(x) by {
                if reach(s1, cs2[t], h).contains(x) {
                    assert(reach(s1, cs2[a], h).contains(x));
                    assert(reach(s1, cs2[b], h).contains(x));
                    assert(reach(s0, cs[o(a)], h).contains(x));
                }
            }
        }
    }
    assert((hn - 1) as nat == h);
    lemma_kids_ok(s1, n2, h, lo, hi, m, cs2.len());
    assert(node_ok2(s1, n2, hn, lo, hi, ms + 1, m));
    lemma_internal(s1, n2, hn, h, lo, hi, ms + 1, m);
    // entries
    let e0 = entries_of(s0, n, hn);
    let e1 = entries_of(s1, n2, hn);
    let ec = entries(s1, ci, h).union_prefer_right(entries(s1, r, h));
    assert forall|x: int| e1.contains_key(x) <==> e0.insert(k, v).contains_key(x) by {
        if e1.contains_key(x) {
            let j = choose|j: int| 0 <= j < len + 1 && #[trigger] entries(s1, cs2[j], h).contains_key(x);
            if j != i && j != i + 1 {
                assert(cs[o(j)] == cs2[j]);
                assert(entries(s0, cs[o(j)], h).contains_key(x));
            } else if x != k {
                assert(ec.contains_key(x));
                assert(entries(s0, ci, h).contains_key(x));
            }
        }
        if e0.contains_key(x) {
            let j = choose|j: int| 0 <= j < len && #[trigger] entries(s0, cs[j], h).contains_key(x);
            if j < i {
                assert(cs2[j] == cs[j]);
                assert(entries(s1, cs2[j], h).contains_key(x));
            } else if j > i {
                assert(cs2[j + 1] == cs[j]);
                assert(entries(s1, cs2[j + 1], h).contains_key(x));
            } else {
                assert(ec.contains_key(x));
                if entries(s1, ci, h).contains_key(x) {
                    assert(entries(s1, cs2[i], h).contains_key(x));
                } else {
                    assert(entries(s1, cs2[i + 1], h).contains_key(x));
                }
            }
        }
        if x == k {
            assert(ec.contains_key(x));
            if entries(s1, ci, h).contains_key(x) {
                assert(entries(s1, cs2[i], h).contains_key(x));
            } else {
                assert(entries(s1, cs2[i + 1], h).contains_key(x));
            }
        }
    }
    assert forall|x: int| e1.contains_key(x) implies e1[x] == e0.insert(k, v)[x] by {
        let j = choose|j: int| 0 <= j < len + 1 && #[trigger] entries(s1, cs2[j], h).contains_key(x);
        if j != i && j != i + 1 {
            assert(cs[o(j)] == cs2[j]);
            assert(entries(s0, cs[o(j)], h).contains_key(x));
            assert(in_bounds(x, child_lo(n, lo, o(j)), child_hi(n, hi, o(j))));
            if x == k {
                if o(j) < i {
                    assert(n.keys@[o(j)].rank() <= n.keys@[i - 1].rank());
                } else {
                    assert(n.keys@[i].rank() <= n.keys@[o(j) - 1].rank());
                }
            }
        } else {
            assert(ec.contains_key(x));
            if j == i {
                assert(in_bounds(x, child_lo(n, lo, i), Some(sk)));
                if entries(s1, r, h).contains_key(x) {
                    assert(in_bounds(x, Some(sk), child_hi(n, hi, i)));
                }
                assert(ec[x] == entries(s1, ci, h)[x]);
            } else {
                assert(ec[x] == entries(s1, r, h)[x]);
            }
            if x != k {
                assert(entries(s0, ci, h).contains_key(x));
            }
        }
    }
    assert(e1 =~= e0.insert(k, v));
    assert forall|x: u64| #[trigger] reach_of(s1, n2, hn).contains(x) implies reach_of(s0, n, hn).contains(x)
        || fresh(s0, x) by {
        let j = choose|j: int| 0 <= j < len + 1 && #[trigger] reach(s1, cs2[j], h).contains(x);
        if j != i && j != i + 1 {
            assert(cs[o(j)] == cs2[j]);
            assert(reach(s0, cs[o(j)], h).contains(x));
        } else if !fresh(s0, x) {
            assert(reach(s0, cs[i], h).contains(x));
        }
    }
}

} // verus!

verus! {

/// A key strictly inside the range of child `i` of a node with sorted keys
/// belongs at position `i` among the node's keys and is not one of them.
pub proof fn lemma_sep_position<K: TreeKey, V>(
    n: UniversalNode<K, V>,
    lo: Option<int>,
    hi: Option<int>,
    i: int,
    sk: int,
)
    requires
        sorted_keys(n.keys@),
        0 <= i <= n.keys@.len(),
        child_lo(n, lo, i) matches Some(l) ==> l < sk,
        in_bounds(sk, child_lo(n, lo, i), child_hi(n, hi, i)),
    ensures
        is_lower_bound(n.keys@, sk, i),
        !has_rank(n.keys@, sk),
{
    assert forall|j: int| 0 <= j < i implies #[trigger] n.keys@[j].rank() < sk by {
        assert(n.keys@[j].rank() <= n.keys@[i - 1].rank());
    }
    assert forall|j: int| i <= j < n.keys@.len() implies #[trigger] n.keys@[j].rank() >= sk by {
        assert(n.keys@[i].rank() <= n.keys@[j].rank());
    }
    if has_rank(n.keys@, sk) {
        let j = choose|j: int| 0 <= j < n.keys@.len() && #[trigger] n.keys@[j].rank() == sk;
        if j < i {
            assert(n.keys@[j].rank() <= n.keys@[i - 1].rank());
        } else {
            assert(n.keys@[i].rank() <= n.keys@[j].rank());
        }
    }
}

/// Two places where a key belongs among sorted keys are the same place.
pub proof fn lemma_lower_bound_unique<K: TreeKey>(keys: Seq<K>, k: int, a: int, b: int)
    requires
        is_lower_bound(keys, k, a),
        is_lower_bound(keys, k, b),
    ensures
        a == b,
{
    if a < b {
        assert(keys[a].rank() < k);
    } else if b < a {
        assert(keys[b].rank() < k);
    }
}

} // verus!

verus! {

/// When the top node of a tree splits around `sep`, moving it from block
/// `root_id` to a free block `lid` and putting in `root_id` a new node with
/// `sep` and the two halves as children gives a well-formed tree one level
/// higher that holds the entries of both halves.
pub proof fn lemma_grow_root<K: TreeKey, V>(
    s1: Store<K, V>,
    s2: Store<K, V>,
    root_id: u64,
    lid: u64,
    right_id: u64,
    sep: K,
    root: UniversalNode<K, V>,
    h: nat,
    m: nat,
)
    requires
        wf_node(s1, root_id, h, None, Some(sep.rank()), m),
        wf_node(s1, right_id, h, Some(sep.rank()), None, m),
        reach(s1, root_id, h).disjoint(reach(s1, right_id, h)),
        !crate::model::present(s1, lid),
        lid < s2.len(),
        root_id < s2.len(),
        lid != root_id,
        s2.len() >= s1.len(),
        forall|x: int| 0 <= x < s1.len() && x != lid && x != root_id ==> #[trigger] s2[x] == s1[x],
        s2[lid as int] == Some(node_at(s1, root_id)),
        s2[root_id as int] == Some(root),
        root.keys@ == seq![sep],
        root.child_ids@ == seq![lid, right_id],
        root.key_count == 1,
        !root.leaf(),
        root.values@.len() == 0,
        root.next_leaf is None,
        1 <= m,
    ensures
        wf_node(s2, root_id, h + 1, None, None, m),
        entries(s2, root_id, h + 1) == entries(s1, root_id, h).union_prefer_right(entries(s1, right_id, h)),
{
    let n1 = node_at(s1, root_id);
    let sp = Some(sep.rank());
    let hn = h + 1;
    lemma_wf_facts(s1, root_id, h, None, sp, m);
    lemma_wf_facts(s1, right_id, h, sp, None, m);
    assert(reach(s1, root_id, h) == set![root_id] + reach_of(s1, n1, h));
    // the old top node, moved
    assert forall|x: u64| #[trigger] reach_of(s1, n1, h).contains(x) implies x < s2.len() && s2[x as int] == s1[x as int] by {
        assert(reach(s1, root_id, h).contains(x));
    }
    assert(node_ok(s1, n1, h, None, sp, m));
    crate::model::lemma_frame_node(s1, s2, n1, h, None, sp, m);
    assert(node_at(s2, lid) == n1);
    assert(!reach_of(s1, n1, h).contains(lid)) by {
        if reach_of(s1, n1, h).contains(lid) {
            assert(reach(s1, root_id, h).contains(lid));
        }
    }
    assert(wf_node(s2, lid, h, None, sp, m));
    assert(reach(s2, lid, h) == set![lid] + reach_of(s1, n1, h));
    assert(entries(s2, lid, h) == entries(s1, root_id, h));
    // the right half, untouched
    assert forall|x: u64| #[trigger] reach(s1, right_id, h).contains(x) implies x < s2.len() && s2[x as int] == s1[x as int] by {
        assert(!reach(s1, root_id, h).contains(x));
    }
    crate::model::lemma_frame(s1, s2, right_id, h, sp, None, m);
    // the new top node
    assert(child_lo(root, None, 0) == None::<int>);
    assert(child_hi(root, None, 0) == sp);
    assert(child_lo(root, None, 1) == sp);
    assert(child_hi(root, None, 1) == None::<int>);
    assert(root.child_ids@[0] == lid);
    assert(root.child_ids@[1] == right_id);
    assert(reach(s2, lid, h).disjoint(reach(s2, right_id, h))) by {
        assert forall|x: u64| reach(s2, lid, h).contains(x) implies !reach(s2, right_id, h).contains(x) by {
            if x != lid {
                assert(reach(s1, root_id, h).contains(x));
            }
        }
    }
    assert forall|j: int| 0 <= j < 2 implies #[trigger] wf_node(
        s2,
        root.child_ids@[j],
        h,
        child_lo(root, None, j),
        child_hi(root, None, j),
        m,
    ) by {}
    assert forall|j: int, k: int| 0 <= j < k < 2 implies #[trigger] reach(s2, root.child_ids@[j], h).disjoint(
        #[trigger] reach(s2, root.child_ids@[k], h),
    ) by {}
    lemma_kids_ok(s2, root, h, None, None, m, 2);
    assert(sorted_keys(root.keys@));
    assert(node_local_ok(root, hn, None, None, m));
    assert((hn - 1) as nat == h);
    assert(node_ok(s2, root, hn, None, None, m));
    assert(node_ok2(s2, root, hn, None, None, m, m));
    lemma_internal(s2, root, hn, h, None, None, m, m);
    assert(!reach_of(s2, root, hn).contains(root_id)) by {
        if reach_of(s2, root, hn).contains(root_id) {
            let j = choose|j: int| 0 <= j < 2 && #[trigger] reach(s2, root.child_ids@[j], h).contains(root_id);
            if j == 1 {
                assert(reach(s1, root_id, h).contains(root_id));
            }
        }
    }
    assert(node_at(s2, root_id) == root);
    assert(wf_node(s2, root_id, hn, None, None, m));
    let e2 = entries(s2, root_id, hn);
    let e1 = entries(s1, root_id, h).union_prefer_right(entries(s1, right_id, h));
    assert(e2 == entries_of(s2, root, hn));
    assert forall|x: int| e2.contains_key(x) <==> e1.contains_key(x) by {
        if e1.contains_key(x) {
            if entries(s1, root_id, h).contains_key(x) {
                assert(entries(s2, root.child_ids@[0], h).contains_key(x));
            } else {
                assert(entries(s2, root.child_ids@[1], h).contains_key(x));
            }
        }
    }
    assert forall|x: int| e2.contains_key(x) implies e2[x] == e1[x] by {
        let j = choose|j: int| 0 <= j < 2 && #[trigger] entries(s2, root.child_ids@[j], h).contains_key(x);
        if j == 0 {
            if entries(s1, right_id, h).contains_key(x) {
                assert(in_bounds(x, sp, None));
                assert(in_bounds(x, None, sp));
            }
        }
    }
    assert(e2 =~= e1);
}

} // verus!

verus! {

/// A block is the top of well-formed trees (with no bounds on keys) of one
/// height only.
pub proof fn lemma_height_unique<K: TreeKey, V>(s: Store<K, V>, id: u64, h1: nat, h2: nat, m: nat)
    requires
        wf_node(s, id, h1, None, None, m),
    ensures
        wf_node(s, id, h2, None, None, m) ==> h1 == h2,
{
    if wf_node(s, id, h2, None, None, m) {
        lemma_height_unique_node(s, node_at(s, id), h1, h2, None, None, None, None, m);
    }
}

/// A node value tops well-formed subtrees of one height only, whatever their
/// key ranges.
pub proof fn lemma_height_unique_node<K: TreeKey, V>(
    s: Store<K, V>,
    n: UniversalNode<K, V>,
    h1: nat,
    h2: nat,
    lo1: Option<int>,
    hi1: Option<int>,
    lo2: Option<int>,
    hi2: Option<int>,
    m: nat,
)
    requires
        node_ok(s, n, h1, lo1, hi1, m),
        node_ok(s, n, h2, lo2, hi2, m),
    ensures
        h1 == h2,
    decreases h1,
{
    if h1 > 0 && h2 > 0 {
        assert(node_ok2(s, n, h1, lo1, hi1, m, m));
        assert(node_ok2(s, n, h2, lo2, hi2, m, m));
        lemma_internal(s, n, h1, (h1 - 1) as nat, lo1, hi1, m, m);
        lemma_internal(s, n, h2, (h2 - 1) as nat, lo2, hi2, m, m);
        let c = n.child_ids@[0];
        assert(wf_node(s, c, (h1 - 1) as nat, child_lo(n, lo1, 0), child_hi(n, hi1, 0), m));
        assert(wf_node(s, c, (h2 - 1) as nat, child_lo(n, lo2, 0), child_hi(n, hi2, 0), m));
        lemma_height_unique_node(
            s,
            node_at(s, c),
            (h1 - 1) as nat,
            (h2 - 1) as nat,
            child_lo(n, lo1, 0),
            child_hi(n, hi1, 0),
            child_lo(n, lo2, 0),
            child_hi(n, hi2, 0),
            m,
        );
    }
}

} // verus!
