//! Facts about well-formed subtrees that a check of a stored tree relies on:
//! how many blocks a subtree occupies and how many entries it holds.
use vstd::prelude::*;

use crate::key::TreeKey;
use crate::model::{
    child_hi, child_lo, entries, entries_kids, in_bounds, kids_ok, lemma_entries_kids, lemma_kids_ok, lemma_reach_kids, node_at,
    node_local_ok, node_ok, node_ok2, present, reach, reach_kids, reach_of, wf_node, Store,
};
use crate::node::UniversalNode;
use crate::model_update::{lemma_internal, lemma_wf_facts};

verus! {

/// A set of block numbers all below `n` is finite and has at most `n`
/// members.
pub proof fn lemma_bounded_set(s: Set<u64>, n: nat)
    requires
        forall|x: u64| #[trigger] s.contains(x) ==> x < n,
    ensures
        s.finite(),
        s.len() <= n,
    decreases n,
{
    if n == 0 {
        assert(s =~= Set::<u64>::empty());
    } else {
        let top = (n - 1) as u64;
        let rest = s.remove(top);
        lemma_bounded_set(rest, (n - 1) as nat);
        if s.contains(top) {
            assert(s =~= rest.insert(top));
        } else {
            assert(s =~= rest);
        }
    }
}

/// The blocks that a subtree of height `h` occupies number more than `h`.
pub proof fn lemma_reach_size<K: TreeKey, V>(
    s: Store<K, V>,
    id: u64,
    h: nat,
    lo: Option<int>,
    hi: Option<int>,
    m: nat,
)
    requires
        wf_node(s, id, h, lo, hi, m),
    ensures
        reach(s, id, h).finite(),
        reach(s, id, h).len() >= h + 1,
    decreases h,
{
    lemma_wf_facts(s, id, h, lo, hi, m);
    lemma_bounded_set(reach(s, id, h), s.len());
    let n = node_at(s, id);
    assert(reach(s, id, h) == set![id] + reach_of(s, n, h));
    assert forall|x: u64| #[trigger] reach_of(s, n, h).contains(x) implies x < s.len() by {
        assert(reach(s, id, h).contains(x));
    }
    lemma_bounded_set(reach_of(s, n, h), s.len());
    assert(reach(s, id, h) =~= reach_of(s, n, h).insert(id));
    if h > 0 {
        let hc = (h - 1) as nat;
        assert(crate::model::node_ok2(s, n, h, lo, hi, m, m));
        lemma_internal(s, n, h, hc, lo, hi, m, m);
        let c = n.child_ids@[0];
        assert(wf_node(s, c, hc, child_lo(n, lo, 0), child_hi(n, hi, 0), m));
        lemma_reach_size(s, c, hc, child_lo(n, lo, 0), child_hi(n, hi, 0), m);
        assert(reach(s, c, hc).subset_of(reach_of(s, n, h))) by {
            assert forall|x: u64| reach(s, c, hc).contains(x) implies reach_of(s, n, h).contains(x) by {
                assert(reach(s, n.child_ids@[0], hc).contains(x));
            }
        }
        vstd::set_lib::lemma_len_subset(reach(s, c, hc), reach_of(s, n, h));
    } else {
        assert(reach_of(s, n, h) =~= Set::<u64>::empty());
    }
}

/// A well-formed subtree is lower than the number of blocks.
pub proof fn lemma_height_below_len<K: TreeKey, V>(
    s: Store<K, V>,
    id: u64,
    h: nat,
    lo: Option<int>,
    hi: Option<int>,
    m: nat,
)
    requires
        wf_node(s, id, h, lo, hi, m),
    ensures
        h < s.len(),
{
    lemma_reach_size(s, id, h, lo, hi, m);
    lemma_wf_facts(s, id, h, lo, hi, m);
    lemma_bounded_set(reach(s, id, h), s.len());
}

/// The blocks marked in a list of flags, one per block.
pub open spec fn marked(v: Seq<bool>) -> Set<u64> {
    Set::new(|x: u64| x < v.len() && v[x as int])
}

/// The rank of an optional key.
pub open spec fn opt_rank<K: TreeKey>(k: Option<&K>) -> Option<int> {
    match k {
        Some(k) => Some(k.rank()),
        None => None,
    }
}

/// The subtree at block `id` is well formed for height `h` and the key range
/// `lo`..`hi`, shares no block with `seen`, and its number of entries fits in
/// a `u64`.
pub open spec fn subtree_checks<K: TreeKey, V>(
    s: Store<K, V>,
    id: u64,
    h: nat,
    lo: Option<int>,
    hi: Option<int>,
    m: nat,
    seen: Set<u64>,
) -> bool {
    &&& wf_node(s, id, h, lo, hi, m)
    &&& reach(s, id, h).disjoint(seen)
    &&& entries(s, id, h).len() <= u64::MAX
}

/// When the subtree at block `id` (whose node is `n`, of height `h`) passes
/// the check against `seen`, its child `i` passes the check against `seen`,
/// the block `id` and the subtrees of the children before it.
pub proof fn lemma_child_check_needed<K: TreeKey, V>(
    s: Store<K, V>,
    n: UniversalNode<K, V>,
    id: u64,
    h: nat,
    lo: Option<int>,
    hi: Option<int>,
    m: nat,
    seen: Set<u64>,
    i: nat,
)
    requires
        present(s, id),
        n == node_at(s, id),
        !n.leaf(),
        h > 0,
        i < n.child_ids@.len(),
    ensures
        subtree_checks(s, id, h, lo, hi, m, seen) ==> subtree_checks(
            s,
            n.child_ids@[i as int],
            (h - 1) as nat,
            child_lo(n, lo, i as int),
            child_hi(n, hi, i as int),
            m,
            seen.insert(id) + reach_kids(s, n.child_ids@, (h - 1) as nat, i),
        ),
{
    let hc = (h - 1) as nat;
    let cs = n.child_ids@;
    if subtree_checks(s, id, h, lo, hi, m, seen) {
        assert(node_ok2(s, n, h, lo, hi, m, m));
        lemma_internal(s, n, h, hc, lo, hi, m, m);
        lemma_wf_facts(s, id, h, lo, hi, m);
        lemma_reach_kids(s, cs, hc, i);
        let c = cs[i as int];
        assert(reach(s, id, h) == set![id] + reach_of(s, n, h));
        assert forall|x: u64| reach(s, c, hc).contains(x) implies !(seen.insert(id) + reach_kids(s, cs, hc, i)).contains(x) by {
            assert(reach_of(s, n, h).contains(x));
            assert(reach(s, id, h).contains(x));
            if reach_kids(s, cs, hc, i).contains(x) {
                let t = choose|t: int| 0 <= t < i && #[trigger] reach(s, cs[t], hc).contains(x);
                assert(reach(s, cs[t], hc).disjoint(reach(s, cs[i as int], hc)));
            }
        }
        let ec = entries(s, c, hc);
        let en = entries(s, id, h);
        assert(en == crate::model::entries_of(s, n, h));
        assert(ec.dom().subset_of(en.dom()));
        lemma_wf_facts(s, c, hc, child_lo(n, lo, i as int), child_hi(n, hi, i as int), m);
        vstd::set_lib::lemma_len_subset(ec.dom(), en.dom());
    }
}

/// After child `i` passed the check against the blocks seen so far, the
/// first `i + 1` children are well formed and disjoint from the blocks seen
/// before the node, the blocks seen are those and the children's, and the
/// children hold the entries counted before and the child's.
pub proof fn lemma_child_check_step<K: TreeKey, V>(
    s: Store<K, V>,
    n: UniversalNode<K, V>,
    id: u64,
    h: nat,
    lo: Option<int>,
    hi: Option<int>,
    m: nat,
    seen: Set<u64>,
    i: nat,
)
    requires
        h > 0,
        !n.leaf(),
        node_local_ok(n, h, lo, hi, m),
        i < n.child_ids@.len(),
        kids_ok(s, n, (h - 1) as nat, lo, hi, m, i),
        reach_kids(s, n.child_ids@, (h - 1) as nat, i).disjoint(seen.insert(id)),
        entries_kids(s, n.child_ids@, (h - 1) as nat, i).dom().finite(),
        subtree_checks(
            s,
            n.child_ids@[i as int],
            (h - 1) as nat,
            child_lo(n, lo, i as int),
            child_hi(n, hi, i as int),
            m,
            seen.insert(id) + reach_kids(s, n.child_ids@, (h - 1) as nat, i),
        ),
    ensures
        kids_ok(s, n, (h - 1) as nat, lo, hi, m, i + 1),
        reach_kids(s, n.child_ids@, (h - 1) as nat, i + 1).disjoint(seen.insert(id)),
        seen.insert(id) + reach_kids(s, n.child_ids@, (h - 1) as nat, i) + reach(
            s,
            n.child_ids@[i as int],
            (h - 1) as nat,
        ) == seen.insert(id) + reach_kids(s, n.child_ids@, (h - 1) as nat, i + 1),
        entries_kids(s, n.child_ids@, (h - 1) as nat, i + 1).dom().finite(),
        entries_kids(s, n.child_ids@, (h - 1) as nat, i + 1).len() == entries_kids(
            s,
            n.child_ids@,
            (h - 1) as nat,
            i,
        ).len() + entries(s, n.child_ids@[i as int], (h - 1) as nat).len(),
{
    let hc = (h - 1) as nat;
    let cs = n.child_ids@;
    let c = cs[i as int];
    let before = reach_kids(s, cs, hc, i);
    assert(reach_kids(s, cs, hc, i + 1) == before + reach(s, c, hc));
    assert(kids_ok(s, n, hc, lo, hi, m, i + 1) == (kids_ok(s, n, hc, lo, hi, m, i) && wf_node(
        s,
        c,
        hc,
        child_lo(n, lo, i as int),
        child_hi(n, hi, i as int),
        m,
    ) && reach(s, c, hc).disjoint(before)));
    assert(reach(s, c, hc).disjoint(before)) by {
        assert forall|x: u64| reach(s, c, hc).contains(x) implies !before.contains(x) by {
            assert(!(seen.insert(id) + before).contains(x));
        }
    }
    assert((seen.insert(id) + before) + reach(s, c, hc) =~= seen.insert(id) + (before + reach(s, c, hc)));
    assert(reach_kids(s, cs, hc, i + 1).disjoint(seen.insert(id))) by {
        assert forall|x: u64| reach_kids(s, cs, hc, i + 1).contains(x) implies !seen.insert(id).contains(x) by {
            if reach(s, c, hc).contains(x) {
                assert(!(seen.insert(id) + before).contains(x));
            }
        }
    }
    // the entries of the children so far lie below child `i`'s range
    let ek = entries_kids(s, cs, hc, i);
    let ec = entries(s, c, hc);
    lemma_wf_facts(s, c, hc, child_lo(n, lo, i as int), child_hi(n, hi, i as int), m);
    lemma_kids_ok(s, n, hc, lo, hi, m, i);
    lemma_entries_kids(s, cs, hc, i);
    assert(ek.dom().disjoint(ec.dom())) by {
        assert forall|x: int| ek.dom().contains(x) implies !ec.dom().contains(x) by {
            let t = choose|t: int| 0 <= t < i && #[trigger] entries(s, cs[t], hc).contains_key(x);
            assert(wf_node(s, cs[t], hc, child_lo(n, lo, t), child_hi(n, hi, t), m));
            lemma_wf_facts(s, cs[t], hc, child_lo(n, lo, t), child_hi(n, hi, t), m);
            assert(in_bounds(x, child_lo(n, lo, t), child_hi(n, hi, t)));
            assert(n.keys@[t].rank() <= n.keys@[i - 1].rank());
            if ec.dom().contains(x) {
                assert(in_bounds(x, child_lo(n, lo, i as int), child_hi(n, hi, i as int)));
            }
        }
    }
    assert(entries_kids(s, cs, hc, i + 1) == ek.union_prefer_right(ec));
    assert(ek.union_prefer_right(ec).dom() =~= ek.dom() + ec.dom());
    vstd::set_lib::lemma_set_disjoint_lens(ek.dom(), ec.dom());
}

/// The entries of the first `i` children of a well-formed subtree's top node
/// are no more than the subtree's.
pub proof fn lemma_kids_count_bound<K: TreeKey, V>(
    s: Store<K, V>,
    n: UniversalNode<K, V>,
    id: u64,
    h: nat,
    lo: Option<int>,
    hi: Option<int>,
    m: nat,
    i: nat,
)
    requires
        wf_node(s, id, h, lo, hi, m),
        n == node_at(s, id),
        !n.leaf(),
        h > 0,
        i <= n.child_ids@.len(),
    ensures
        entries_kids(s, n.child_ids@, (h - 1) as nat, i).len() <= entries(s, id, h).len(),
{
    let hc = (h - 1) as nat;
    let cs = n.child_ids@;
    lemma_wf_facts(s, id, h, lo, hi, m);
    assert(node_ok2(s, n, h, lo, hi, m, m));
    lemma_internal(s, n, h, hc, lo, hi, m, m);
    lemma_entries_kids(s, cs, hc, i);
    let ek = entries_kids(s, cs, hc, i);
    let en = entries(s, id, h);
    assert(en == crate::model::entries_of(s, n, h));
    assert(ek.dom().subset_of(en.dom())) by {
        assert forall|x: int| ek.dom().contains(x) implies en.dom().contains(x) by {
            let t = choose|t: int| 0 <= t < i && #[trigger] entries(s, cs[t], hc).contains_key(x);
        }
    }
    vstd::set_lib::lemma_len_subset(ek.dom(), en.dom());
}

/// The blocks below node value `n` of height `h`, listed child by child,
/// each child's block before the blocks below it.
pub open spec fn collected<K: TreeKey, V>(s: Store<K, V>, n: UniversalNode<K, V>, h: nat) -> Seq<u64>
    decreases h, 0nat,
{
    if h == 0 {
        Seq::empty()
    } else {
        collected_kids(s, n.child_ids@, (h - 1) as nat, n.child_ids@.len())
    }
}

/// The blocks of the subtrees at the first `i` blocks of `cs`, each block
/// before the blocks below it.
pub open spec fn collected_kids<K: TreeKey, V>(s: Store<K, V>, cs: Seq<u64>, h: nat, i: nat) -> Seq<u64>
    decreases h, i + 1,
{
    if i == 0 {
        Seq::empty()
    } else {
        collected_kids(s, cs, h, (i - 1) as nat) + seq![cs[i - 1]] + collected(s, node_at(s, cs[i - 1]), h)
    }
}

/// The blocks below a well-formed node are listed once each, and they are
/// the blocks of the node's subtree below it.
pub proof fn lemma_collected<K: TreeKey, V>(
    s: Store<K, V>,
    n: UniversalNode<K, V>,
    h: nat,
    lo: Option<int>,
    hi: Option<int>,
    m: nat,
)
    requires
        node_ok(s, n, h, lo, hi, m),
    ensures
        collected(s, n, h).no_duplicates(),
        forall|x: u64| #[trigger] collected(s, n, h).contains(x) <==> reach_of(s, n, h).contains(x),
    decreases h, 1nat, 0nat,
{
    if h > 0 {
        lemma_collected_kids(s, n, h, lo, hi, m, n.child_ids@.len());
    }
}

/// The blocks of the subtrees of the first `i` children of a well-formed
/// node are listed once each.
pub proof fn lemma_collected_kids<K: TreeKey, V>(
    s: Store<K, V>,
    n: UniversalNode<K, V>,
    h: nat,
    lo: Option<int>,
    hi: Option<int>,
    m: nat,
    i: nat,
)
    requires
        node_ok(s, n, h, lo, hi, m),
        h > 0,
        i <= n.child_ids@.len(),
    ensures
        collected_kids(s, n.child_ids@, (h - 1) as nat, i).no_duplicates(),
        forall|x: u64|
            #[trigger] collected_kids(s, n.child_ids@, (h - 1) as nat, i).contains(x) <==> reach_kids(
                s,
                n.child_ids@,
                (h - 1) as nat,
                i,
            ).contains(x),
    decreases h, 0nat, i,
{
    if i > 0 {
        let hc = (h - 1) as nat;
        let cs = n.child_ids@;
        let c = cs[i - 1];
        lemma_collected_kids(s, n, h, lo, hi, m, (i - 1) as nat);
        assert(node_ok2(s, n, h, lo, hi, m, m));
        lemma_internal(s, n, h, hc, lo, hi, m, m);
        assert(wf_node(s, c, hc, child_lo(n, lo, i - 1), child_hi(n, hi, i - 1), m));
        let cn = node_at(s, c);
        assert(node_ok(s, cn, hc, child_lo(n, lo, i - 1), child_hi(n, hi, i - 1), m));
        lemma_collected(s, cn, hc, child_lo(n, lo, i - 1), child_hi(n, hi, i - 1), m);
        lemma_reach_kids(s, cs, hc, (i - 1) as nat);
        let a = collected_kids(s, cs, hc, (i - 1) as nat);
        let b = seq![c] + collected(s, cn, hc);
        assert(reach(s, c, hc) == set![c] + reach_of(s, cn, hc));
        assert(b.no_duplicates()) by {
            assert forall|j: int| 0 <= j < collected(s, cn, hc).len() implies c != #[trigger] collected(s, cn, hc)[j] by {
                assert(collected(s, cn, hc).contains(collected(s, cn, hc)[j]));
            }
            vstd::seq_lib::lemma_no_dup_in_concat(seq![c], collected(s, cn, hc));
        }
        assert forall|x: u64| b.contains(x) <==> reach(s, c, hc).contains(x) by {
            if b.contains(x) && x != c {
                let j = choose|j: int| 0 <= j < b.len() && b[j] == x;
                assert(collected(s, cn, hc)[j - 1] == x);
                assert(collected(s, cn, hc).contains(x));
            }
            if reach(s, c, hc).contains(x) {
                if x == c {
                    assert(b[0] == x);
                } else {
                    assert(collected(s, cn, hc).contains(x));
                    let j = choose|j: int| 0 <= j < collected(s, cn, hc).len() && collected(s, cn, hc)[j] == x;
                    assert(b[j + 1] == x);
                }
            }
        }
        assert forall|j: int, t: int| 0 <= j < a.len() && 0 <= t < b.len() implies a[j] != b[t] by {
            assert(a.contains(a[j]));
            assert(b.contains(b[t]));
            if a[j] == b[t] {
                let u = choose|u: int| 0 <= u < i - 1 && #[trigger] reach(s, cs[u], hc).contains(a[j]);
                assert(reach(s, cs[u], hc).disjoint(reach(s, cs[i - 1], hc)));
            }
        }
        vstd::seq_lib::lemma_no_dup_in_concat(a, b);
        assert(collected_kids(s, cs, hc, i) =~= a + b);
        assert forall|x: u64| (a + b).contains(x) <==> reach_kids(s, cs, hc, i).contains(x) by {
            if (a + b).contains(x) {
                let j = choose|j: int| 0 <= j < (a + b).len() && (a + b)[j] == x;
                if j < a.len() {
                    assert(a.contains(x));
                } else {
                    assert(b[j - a.len()] == x);
                    assert(b.contains(x));
                }
            }
            if reach_kids(s, cs, hc, i).contains(x) {
                if a.contains(x) {
                    let j = choose|j: int| 0 <= j < a.len() && a[j] == x;
                    assert((a + b)[j] == x);
                } else {
                    assert(reach(s, c, hc).contains(x));
                    assert(b.contains(x));
                    let j = choose|j: int| 0 <= j < b.len() && b[j] == x;
                    assert((a + b)[j + a.len()] == x);
                }
            }
        }
    }
}

} // verus!
