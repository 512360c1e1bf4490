//! How full a subtree's nodes are: every node below the top of a subtree
//! holds at least a given number of keys.
use vstd::prelude::*;

use crate::key::TreeKey;
use crate::model::{node_at, node_ok2, present, reach, reach_of, wf_node, Store};
use crate::model_update::{lemma_internal, lemma_wf_facts};
use crate::node::UniversalNode;

verus! {

/// The fewest keys a node other than the root holds, for nodes of at most
/// `m` keys.
pub open spec fn min_fill(m: int) -> int {
    (m + 1) / 2 - 1
}

/// Every node below node value `n` (of height `h`) holds at least `mn` keys.
pub open spec fn filled_of<K: TreeKey, V>(s: Store<K, V>, n: UniversalNode<K, V>, h: nat, mn: int) -> bool {
    forall|x: u64| #[trigger] reach_of(s, n, h).contains(x) ==> node_at(s, x).keys@.len() >= mn
}

/// Every node below the top of the subtree at block `id` holds at least
/// `mn` keys.
pub open spec fn filled<K: TreeKey, V>(s: Store<K, V>, id: u64, h: nat, mn: int) -> bool {
    filled_of(s, node_at(s, id), h, mn)
}

/// The subtree at block `id`, its top included, holds at least `mn` keys in
/// every node.
pub open spec fn kid_filled<K: TreeKey, V>(s: Store<K, V>, id: u64, h: nat, mn: int) -> bool {
    node_at(s, id).keys@.len() >= mn && filled(s, id, h, mn)
}

/// A node's subtree is filled exactly when each child's subtree, the child
/// included, is.
pub proof fn lemma_filled_kids<K: TreeKey, V>(
    s: Store<K, V>,
    n: UniversalNode<K, V>,
    hn: nat,
    h: nat,
    lo: Option<int>,
    hi: Option<int>,
    ms: nat,
    m: nat,
    mn: int,
)
    requires
        hn == h + 1,
        node_ok2(s, n, hn, lo, hi, ms, m),
    ensures
        filled_of(s, n, hn, mn) <==> forall|j: int|
            0 <= j < n.child_ids@.len() ==> #[trigger] kid_filled(s, n.child_ids@[j], h, mn),
{
    lemma_internal(s, n, hn, h, lo, hi, ms, m);
    if filled_of(s, n, hn, mn) {
        assert forall|j: int| 0 <= j < n.child_ids@.len() implies #[trigger] kid_filled(s, n.child_ids@[j], h, mn) by {
            let c = n.child_ids@[j];
            assert(reach(s, c, h) == set![c] + reach_of(s, node_at(s, c), h));
            assert(reach(s, c, h).contains(c));
            assert(reach_of(s, n, hn).contains(c));
            assert forall|x: u64| #[trigger] reach_of(s, node_at(s, c), h).contains(x) implies node_at(s, x).keys@.len()
                >= mn by {
                assert(reach(s, c, h).contains(x));
                assert(reach_of(s, n, hn).contains(x));
            }
        }
    }
    if forall|j: int| 0 <= j < n.child_ids@.len() ==> #[trigger] kid_filled(s, n.child_ids@[j], h, mn) {
        assert forall|x: u64| #[trigger] reach_of(s, n, hn).contains(x) implies node_at(s, x).keys@.len() >= mn by {
            let j = choose|j: int| 0 <= j < n.child_ids@.len() && #[trigger] reach(s, n.child_ids@[j], h).contains(x);
            let c = n.child_ids@[j];
            assert(kid_filled(s, c, h, mn));
            assert(reach(s, c, h) == set![c] + reach_of(s, node_at(s, c), h));
        }
    }
}

/// A subtree, its top included, stays filled in a store that keeps all its
/// blocks.
pub proof fn lemma_filled_frame<K: TreeKey, V>(
    s0: Store<K, V>,
    s1: Store<K, V>,
    id: u64,
    h: nat,
    lo: Option<int>,
    hi: Option<int>,
    m: nat,
    mn: int,
)
    requires
        wf_node(s0, id, h, lo, hi, m),
        kid_filled(s0, id, h, mn),
        forall|x: u64| #[trigger] reach(s0, id, h).contains(x) ==> x < s1.len() && s1[x as int] == s0[x as int],
    ensures
        kid_filled(s1, id, h, mn),
        wf_node(s1, id, h, lo, hi, m),
        reach(s1, id, h) == reach(s0, id, h),
{
    crate::model::lemma_frame(s0, s1, id, h, lo, hi, m);
    lemma_wf_facts(s0, id, h, lo, hi, m);
    assert(reach(s0, id, h) == set![id] + reach_of(s0, node_at(s0, id), h));
    assert(reach(s1, id, h) == set![id] + reach_of(s1, node_at(s1, id), h));
    assert(node_at(s1, id) == node_at(s0, id));
    assert forall|x: u64| #[trigger] reach_of(s1, node_at(s1, id), h).contains(x) implies node_at(s1, x).keys@.len()
        >= mn by {
        assert(reach(s0, id, h).contains(x));
    }
}

} // verus!

verus! {

/// When a store keeps every block that held a node outside the subtree of
/// child `ci`, the other children's subtrees stay as they were, and filled.
pub proof fn lemma_other_kids_filled<K: TreeKey, V>(
    s0: Store<K, V>,
    s1: Store<K, V>,
    n: UniversalNode<K, V>,
    hn: nat,
    h: nat,
    lo: Option<int>,
    hi: Option<int>,
    m: nat,
    ci: int,
    mn: int,
)
    requires
        hn == h + 1,
        node_ok2(s0, n, hn, lo, hi, m, m),
        filled_of(s0, n, hn, mn),
        0 <= ci < n.child_ids@.len(),
        forall|x: u64|
            present(s0, x) && !reach(s0, n.child_ids@[ci], h).contains(x) ==> x < s1.len() && s1[x as int]
                == #[trigger] s0[x as int],
    ensures
        forall|j: int|
            0 <= j < n.child_ids@.len() && j != ci ==> {
                &&& #[trigger] kid_filled(s1, n.child_ids@[j], h, mn)
                &&& reach(s1, n.child_ids@[j], h) == reach(s0, n.child_ids@[j], h)
                &&& wf_node(s1, n.child_ids@[j], h, crate::model::child_lo(n, lo, j), crate::model::child_hi(n, hi, j), m)
            },
{
    lemma_filled_kids(s0, n, hn, h, lo, hi, m, m, mn);
    lemma_internal(s0, n, hn, h, lo, hi, m, m);
    assert forall|j: int| 0 <= j < n.child_ids@.len() && j != ci implies {
        &&& #[trigger] kid_filled(s1, n.child_ids@[j], h, mn)
        &&& reach(s1, n.child_ids@[j], h) == reach(s0, n.child_ids@[j], h)
        &&& wf_node(s1, n.child_ids@[j], h, crate::model::child_lo(n, lo, j), crate::model::child_hi(n, hi, j), m)
    } by {
        let c = n.child_ids@[j];
        let cc = n.child_ids@[ci];
        assert(kid_filled(s0, c, h, mn));
        if j < ci {
            assert(reach(s0, n.child_ids@[j], h).disjoint(reach(s0, n.child_ids@[ci], h)));
        } else {
            assert(reach(s0, n.child_ids@[ci], h).disjoint(reach(s0, n.child_ids@[j], h)));
        }
        lemma_wf_facts(s0, c, h, crate::model::child_lo(n, lo, j), crate::model::child_hi(n, hi, j), m);
        assert forall|x: u64| #[trigger] reach(s0, c, h).contains(x) implies x < s1.len() && s1[x as int] == s0[x as int] by {
            assert(!reach(s0, cc, h).contains(x));
            assert(present(s0, x));
        }
        lemma_filled_frame(s0, s1, c, h, crate::model::child_lo(n, lo, j), crate::model::child_hi(n, hi, j), m, mn);
    }
}

} // verus!

verus! {

/// A subtree whose top holds a key and whose nodes below hold at least one
/// key each holds an entry.
pub proof fn lemma_filled_nonempty<K: TreeKey, V>(
    s: Store<K, V>,
    id: u64,
    h: nat,
    lo: Option<int>,
    hi: Option<int>,
    m: nat,
    mn: int,
)
    requires
        wf_node(s, id, h, lo, hi, m),
        node_at(s, id).keys@.len() > 0,
        filled(s, id, h, mn),
        mn >= 1,
    ensures
        exists|x: int| #[trigger] crate::model::entries(s, id, h).contains_key(x),
    decreases h,
{
    let n = node_at(s, id);
    assert(crate::model::node_ok(s, n, h, lo, hi, m));
    assert(crate::model::node_local_ok(n, h, lo, hi, m));
    assert(crate::model::entries(s, id, h) == crate::model::entries_of(s, n, h));
    if h == 0 {
        crate::model::lemma_leaf_map(n.keys@, n.values@, n.keys@.len());
        assert(crate::model::entries(s, id, h).contains_key(n.keys@[0].rank()));
    } else {
        let hc = (h - 1) as nat;
        assert(node_ok2(s, n, h, lo, hi, m, m));
        lemma_filled_kids(s, n, h, hc, lo, hi, m, m, mn);
        lemma_internal(s, n, h, hc, lo, hi, m, m);
        let c = n.child_ids@[0];
        assert(kid_filled(s, c, hc, mn));
        assert(wf_node(s, c, hc, crate::model::child_lo(n, lo, 0), crate::model::child_hi(n, hi, 0), m));
        lemma_filled_nonempty(s, c, hc, crate::model::child_lo(n, lo, 0), crate::model::child_hi(n, hi, 0), m, mn);
        let x = choose|x: int| #[trigger] crate::model::entries(s, c, hc).contains_key(x);
        assert(crate::model::entries(s, n.child_ids@[0], hc).contains_key(x));
        assert(crate::model::entries(s, id, h).contains_key(x));
    }
}

} // verus!
