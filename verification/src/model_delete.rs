//! How the model changes under deletion: removing a leaf entry, moving
//! entries between neighbouring subtrees and merging them.
use vstd::prelude::*;

use crate::key::TreeKey;
use crate::model::{
    child_hi, child_lo, entries, entries_of, in_bounds, lemma_frame, lemma_frame_node, lemma_kids_ok, lemma_leaf_map,
    leaf_map, entries_kids, reach_kids, node_at, node_local_ok, node_ok, node_ok2, present, reach, reach_of, wf_node, Store,
};
use crate::model_update::{lemma_internal, lemma_leaf_split, lemma_wf_facts};
use crate::node::{sorted_keys, UniversalNode};

verus! {

/// Removing a leaf's `j`-th entry removes that key's entry and keeps the keys
/// sorted.
pub proof fn lemma_leaf_remove<K: TreeKey, V>(keys: Seq<K>, vals: Seq<V>, j: int)
    requires
        sorted_keys(keys),
        vals.len() == keys.len(),
        0 <= j < keys.len(),
    ensures
        sorted_keys(keys.remove(j)),
        leaf_map(keys.remove(j), vals.remove(j)) == leaf_map(keys, vals).remove(keys[j].rank()),
{
    let nk = keys.remove(j);
    let nv = vals.remove(j);
    let n = keys.len();
    let k = keys[j].rank();
    assert forall|a: int, b: int| 0 <= a < b < nk.len() implies #[trigger] nk[a].rank() < #[trigger] nk[b].rank() by {
        let a0 = if a < j { a } else { a + 1 };
        let b0 = if b < j { b } else { b + 1 };
        assert(nk[a] == keys[a0]);
        assert(nk[b] == keys[b0]);
    }
    lemma_leaf_map(keys, vals, n);
    lemma_leaf_map(nk, nv, (n - 1) as nat);
    let x1 = leaf_map(nk, nv);
    let x2 = leaf_map(keys, vals).remove(k);
    assert forall|x: int| x1.contains_key(x) <==> x2.contains_key(x) by {
        if x1.contains_key(x) {
            let t = choose|t: int| 0 <= t < n - 1 && #[trigger] nk[t].rank() == x;
            if t < j {
                assert(keys[t].rank() == x);
                assert(keys[t].rank() < keys[j].rank());
            } else {
                assert(keys[t + 1].rank() == x);
                assert(keys[j].rank() < keys[t + 1].rank());
            }
        }
        if x2.contains_key(x) {
            let t = choose|t: int| 0 <= t < n && #[trigger] keys[t].rank() == x;
            if t < j {
                assert(nk[t].rank() == x);
            } else {
                assert(t != j);
                assert(nk[t - 1].rank() == x);
            }
        }
    }
    assert forall|x: int| x1.contains_key(x) implies x1[x] == x2[x] by {
        let t = choose|t: int| 0 <= t < n - 1 && #[trigger] nk[t].rank() == x;
        if t < j {
            assert(keys[t].rank() == x);
            assert(nv[t] == vals[t]);
        } else {
            assert(keys[t + 1].rank() == x);
            assert(nv[t] == vals[t + 1]);
        }
    }
    assert(x1 =~= x2);
}

/// Two neighbouring leaves, the left one for keys below `sep` and the right
/// one for keys from `sep` on, together form one leaf for both ranges, with
/// the entries of both.
pub proof fn lemma_combine_leaves<K: TreeKey, V>(
    s: Store<K, V>,
    l: UniversalNode<K, V>,
    r: UniversalNode<K, V>,
    lo: Option<int>,
    sep: int,
    hi: Option<int>,
    ml: nat,
    mr: nat,
    c: UniversalNode<K, V>,
    mc: nat,
)
    requires
        node_ok(s, l, 0, lo, Some(sep), ml),
        node_ok(s, r, 0, Some(sep), hi, mr),
        in_bounds(sep, lo, hi),
        c.keys@ == l.keys@ + r.keys@,
        c.values@ == l.values@ + r.values@,
        c.leaf(),
        c.child_ids@.len() == 0,
        c.key_count as int == c.keys@.len(),
        c.keys@.len() <= mc,
    ensures
        node_ok(s, c, 0, lo, hi, mc),
        entries_of(s, c, 0) == entries_of(s, l, 0).union_prefer_right(entries_of(s, r, 0)),
        reach_of(s, c, 0) == Set::<u64>::empty(),
{
    let nl = l.keys@.len() as int;
    assert(node_local_ok(l, 0, lo, Some(sep), ml));
    assert(node_local_ok(r, 0, Some(sep), hi, mr));
    assert forall|j: int| 0 <= j < c.keys@.len() implies in_bounds(#[trigger] c.keys@[j].rank(), lo, hi) by {
        if j < nl {
            assert(c.keys@[j] == l.keys@[j]);
            assert(in_bounds(l.keys@[j].rank(), lo, Some(sep)));
        } else {
            assert(c.keys@[j] == r.keys@[j - nl]);
            assert(in_bounds(r.keys@[j - nl].rank(), Some(sep), hi));
        }
    }
    assert forall|a: int, b: int| 0 <= a < b < c.keys@.len() implies #[trigger] c.keys@[a].rank()
        < #[trigger] c.keys@[b].rank() by {
        if b < nl {
            assert(c.keys@[a] == l.keys@[a] && c.keys@[b] == l.keys@[b]);
        } else if a >= nl {
            assert(c.keys@[a] == r.keys@[a - nl] && c.keys@[b] == r.keys@[b - nl]);
        } else {
            assert(c.keys@[a] == l.keys@[a] && c.keys@[b] == r.keys@[b - nl]);
            assert(in_bounds(l.keys@[a].rank(), lo, Some(sep)));
            assert(in_bounds(r.keys@[b - nl].rank(), Some(sep), hi));
        }
    }
    assert(c.keys@.subrange(0, nl) =~= l.keys@);
    assert(c.values@.subrange(0, nl) =~= l.values@);
    assert(c.keys@.subrange(nl, c.keys@.len() as int) =~= r.keys@);
    assert(c.values@.subrange(nl, c.values@.len() as int) =~= r.values@);
    lemma_leaf_split(c.keys@, c.values@, nl);
    assert(node_local_ok(c, 0, lo, hi, mc));
}

/// Two neighbouring internal nodes of one height, the left one for keys
/// below `sep` and the right one for keys from `sep` on, together with `sep`
/// between their keys form one node for both ranges, over the children of
/// both.
#[verifier::rlimit(40)]
pub proof fn lemma_combine_internal<K: TreeKey, V>(
    s: Store<K, V>,
    l: UniversalNode<K, V>,
    r: UniversalNode<K, V>,
    sep: K,
    hn: nat,
    h: nat,
    lo: Option<int>,
    hi: Option<int>,
    ml: nat,
    mr: nat,
    m: nat,
    c: UniversalNode<K, V>,
    mc: nat,
)
    requires
        hn == h + 1,
        node_ok2(s, l, hn, lo, Some(sep.rank()), ml, m),
        node_ok2(s, r, hn, Some(sep.rank()), hi, mr, m),
        reach_of(s, l, hn).disjoint(reach_of(s, r, hn)),
        in_bounds(sep.rank(), lo, hi),
        lo matches Some(x) ==> x < sep.rank(),
        c.keys@ == l.keys@.push(sep) + r.keys@,
        c.child_ids@ == l.child_ids@ + r.child_ids@,
        !c.leaf(),
        c.values@.len() == 0,
        c.next_leaf is None,
        c.key_count as int == c.keys@.len(),
        c.keys@.len() <= mc,
    ensures
        node_ok2(s, c, hn, lo, hi, mc, m),
        entries_of(s, c, hn) == entries_of(s, l, hn).union_prefer_right(entries_of(s, r, hn)),
        reach_of(s, c, hn) == reach_of(s, l, hn) + reach_of(s, r, hn),
{
    let sk = sep.rank();
    let sp = Some(sk);
    let nl = l.keys@.len() as int;
    let nr = r.keys@.len() as int;
    let lc = l.child_ids@;
    let rc = r.child_ids@;
    let cc = c.child_ids@;
    lemma_internal(s, l, hn, h, lo, sp, ml, m);
    lemma_internal(s, r, hn, h, sp, hi, mr, m);
    assert(lc.len() == nl + 1);
    assert(rc.len() == nr + 1);
    assert(cc.len() == nl + nr + 2);
    assert(c.keys@.len() == nl + nr + 1);
    // keys
    assert forall|j: int| 0 <= j < nl implies #[trigger] c.keys@[j] == l.keys@[j] by {}
    assert(c.keys@[nl] == sep);
    assert forall|j: int| nl < j < nl + nr + 1 implies #[trigger] c.keys@[j] == r.keys@[j - nl - 1] by {}
    assert forall|j: int| 0 <= j < c.keys@.len() implies in_bounds(#[trigger] c.keys@[j].rank(), lo, hi) by {
        if j < nl {
            assert(c.keys@[j] == l.keys@[j]);
            assert(in_bounds(l.keys@[j].rank(), lo, sp));
        } else if j > nl {
            assert(c.keys@[j] == r.keys@[j - nl - 1]);
            assert(in_bounds(r.keys@[j - nl - 1].rank(), sp, hi));
        }
    }
    assert forall|a: int, b: int| 0 <= a < b < c.keys@.len() implies #[trigger] c.keys@[a].rank()
        < #[trigger] c.keys@[b].rank() by {
        if b < nl {
            assert(c.keys@[a] == l.keys@[a] && c.keys@[b] == l.keys@[b]);
        } else if a > nl {
            assert(c.keys@[a] == r.keys@[a - nl - 1] && c.keys@[b] == r.keys@[b - nl - 1]);
        } else {
            if a < nl {
                assert(c.keys@[a] == l.keys@[a]);
                assert(in_bounds(l.keys@[a].rank(), lo, sp));
            }
            if b > nl {
                assert(c.keys@[b] == r.keys@[b - nl - 1]);
                assert(r.keys@[0].rank() <= r.keys@[b - nl - 1].rank());
                assert(sk < r.keys@[0].rank());
            }
        }
    }
    assert(c.keys@.len() > 0 ==> (lo matches Some(x) ==> x < c.keys@[0].rank())) by {
        if nl > 0 {
            assert(c.keys@[0] == l.keys@[0]);
        }
    }
    assert(node_local_ok(c, hn, lo, hi, mc));
    // children
    assert forall|j: int| #![trigger cc[j]] 0 <= j <= nl implies cc[j] == lc[j] && child_lo(c, lo, j) == child_lo(
        l,
        lo,
        j,
    ) && child_hi(c, hi, j) == child_hi(l, sp, j) by {
        if j > 0 {
            assert(c.keys@[j - 1] == l.keys@[j - 1]);
        }
        if j < nl {
            assert(c.keys@[j] == l.keys@[j]);
        }
    }
    assert forall|j: int| #![trigger cc[j]] nl < j < nl + nr + 2 implies cc[j] == rc[j - nl - 1] && child_lo(
        c,
        lo,
        j,
    ) == child_lo(r, sp, j - nl - 1) && child_hi(c, hi, j) == child_hi(r, hi, j - nl - 1) by {
        if j - 1 > nl {
            assert(c.keys@[j - 1] == r.keys@[j - nl - 2]);
        }
        if j < nl + nr + 1 {
            assert(c.keys@[j] == r.keys@[j - nl - 1]);
        }
    }
    assert forall|j: int| 0 <= j < cc.len() implies #[trigger] wf_node(
        s,
        cc[j],
        h,
        child_lo(c, lo, j),
        child_hi(c, hi, j),
        m,
    ) by {
        if j <= nl {
            assert(cc[j] == lc[j]);
        } else {
            assert(cc[j] == rc[j - nl - 1]);
        }
    }
    assert forall|j: int, t: int| 0 <= j < t < cc.len() implies #[trigger] reach(s, cc[j], h).disjoint(
        #[trigger] reach(s, cc[t], h),
    ) by {
        if t <= nl {
            assert(cc[j] == lc[j] && cc[t] == lc[t]);
        } else if j > nl {
            assert(cc[j] == rc[j - nl - 1] && cc[t] == rc[t - nl - 1]);
        } else {
            assert(cc[j] == lc[j] && cc[t] == rc[t - nl - 1]);
            assert forall|x: u64| reach(s, cc[j], h).contains(x) implies !reach(s, cc[t], h).contains(x) by {
                assert(reach(s, lc[j], h).contains(x));
                assert(reach_of(s, l, hn).contains(x));
                if reach(s, cc[t], h).contains(x) {
                    assert(reach(s, rc[t - nl - 1], h).contains(x));
                    assert(reach_of(s, r, hn).contains(x));
                }
            }
        }
    }
    assert((hn - 1) as nat == h);
    lemma_kids_ok(s, c, h, lo, hi, m, cc.len());
    assert(node_ok2(s, c, hn, lo, hi, mc, m));
    lemma_internal(s, c, hn, h, lo, hi, mc, m);
    // blocks
    let rl = reach_of(s, l, hn);
    let rr = reach_of(s, r, hn);
    let rcn = reach_of(s, c, hn);
    assert forall|x: u64| rcn.contains(x) <==> (rl + rr).contains(x) by {
        if rcn.contains(x) {
            let j = choose|j: int| 0 <= j < cc.len() && #[trigger] reach(s, cc[j], h).contains(x);
            if j <= nl {
                assert(cc[j] == lc[j]);
                assert(reach(s, lc[j], h).contains(x));
            } else {
                assert(cc[j] == rc[j - nl - 1]);
                assert(reach(s, rc[j - nl - 1], h).contains(x));
            }
        }
        if rl.contains(x) {
            let j = choose|j: int| 0 <= j < lc.len() && #[trigger] reach(s, lc[j], h).contains(x);
            assert(cc[j] == lc[j]);
            assert(reach(s, cc[j], h).contains(x));
        }
        if rr.contains(x) {
            let j = choose|j: int| 0 <= j < rc.len() && #[trigger] reach(s, rc[j], h).contains(x);
            assert(cc[j + nl + 1] == rc[j]);
            assert(reach(s, cc[j + nl + 1], h).contains(x));
        }
    }
    assert(rcn =~= rl + rr);
    // entries
    let el = entries_of(s, l, hn);
    let er = entries_of(s, r, hn);
    let ec = entries_of(s, c, hn);
    assert forall|x: int| ec.contains_key(x) <==> el.union_prefer_right(er).contains_key(x) by {
        if ec.contains_key(x) {
            let j = choose|j: int| 0 <= j < cc.len() && #[trigger] entries(s, cc[j], h).contains_key(x);
            if j <= nl {
                assert(cc[j] == lc[j]);
                assert(entries(s, lc[j], h).contains_key(x));
            } else {
                assert(cc[j] == rc[j - nl - 1]);
                assert(entries(s, rc[j - nl - 1], h).contains_key(x));
            }
        }
        if el.contains_key(x) {
            let j = choose|j: int| 0 <= j < lc.len() && #[trigger] entries(s, lc[j], h).contains_key(x);
            assert(cc[j] == lc[j]);
            assert(entries(s, cc[j], h).contains_key(x));
        }
        if er.contains_key(x) {
            let j = choose|j: int| 0 <= j < rc.len() && #[trigger] entries(s, rc[j], h).contains_key(x);
            assert(cc[j + nl + 1] == rc[j]);
            assert(entries(s, cc[j + nl + 1], h).contains_key(x));
        }
    }
    assert forall|x: int| ec.contains_key(x) implies ec[x] == el.union_prefer_right(er)[x] by {
        let j = choose|j: int| 0 <= j < cc.len() && #[trigger] entries(s, cc[j], h).contains_key(x);
        if j <= nl {
            assert(cc[j] == lc[j]);
            assert(entries(s, lc[j], h).contains_key(x));
            assert(in_bounds(x, child_lo(l, lo, j), child_hi(l, sp, j)));
            if j < nl {
                assert(in_bounds(l.keys@[j].rank(), lo, sp));
            }
            if er.contains_key(x) {
                let t = choose|t: int| 0 <= t < rc.len() && #[trigger] entries(s, rc[t], h).contains_key(x);
                assert(in_bounds(x, child_lo(r, sp, t), child_hi(r, hi, t)));
                if t > 0 {
                    assert(in_bounds(r.keys@[t - 1].rank(), sp, hi));
                }
            }
        } else {
            assert(cc[j] == rc[j - nl - 1]);
            assert(entries(s, rc[j - nl - 1], h).contains_key(x));
        }
    }
    assert(ec =~= el.union_prefer_right(er));
}

/// When one child's subtree loses the entry of key `k` (which lies in that
/// child's range), in a store that changes only that subtree's blocks, and
/// the subtree keeps to its former blocks, the node stays well formed, loses
/// the entry and keeps to its former blocks.
pub proof fn lemma_child_removed<K: TreeKey, V>(
    s0: Store<K, V>,
    s1: Store<K, V>,
    n: UniversalNode<K, V>,
    hn: nat,
    h: nat,
    lo: Option<int>,
    hi: Option<int>,
    ms: nat,
    m: nat,
    i: int,
    k: int,
)
    requires
        hn == h + 1,
        node_ok2(s0, n, hn, lo, hi, ms, m),
        0 <= i < n.child_ids@.len(),
        wf_node(s1, n.child_ids@[i], h, child_lo(n, lo, i), child_hi(n, hi, i), m),
        entries(s1, n.child_ids@[i], h) == entries(s0, n.child_ids@[i], h).remove(k),
        in_bounds(k, child_lo(n, lo, i), child_hi(n, hi, i)),
        forall|x: u64|
            #[trigger] reach(s1, n.child_ids@[i], h).contains(x) ==> reach(s0, n.child_ids@[i], h).contains(x),
        forall|x: u64|
            crate::model::present(s0, x) && !reach(s0, n.child_ids@[i], h).contains(x) ==> x < s1.len() && s1[x as int]
                == #[trigger] s0[x as int],
    ensures
        node_ok2(s1, n, hn, lo, hi, ms, m),
        entries_of(s1, n, hn) == entries_of(s0, n, hn).remove(k),
        forall|x: u64| #[trigger] reach_of(s1, n, hn).contains(x) ==> reach_of(s0, n, hn).contains(x),
{
    let cs = n.child_ids@;
    let len = cs.len() as int;
    let ci = cs[i];
    lemma_internal(s0, n, hn, h, lo, hi, ms, m);
    lemma_wf_facts(s0, ci, h, child_lo(n, lo, i), child_hi(n, hi, i), m);
    assert forall|j: int| #![trigger cs[j]] 0 <= j < len && j != i implies {
        &&& wf_node(s1, cs[j], h, child_lo(n, lo, j), child_hi(n, hi, j), m)
        &&& reach(s1, cs[j], h) == reach(s0, cs[j], h)
        &&& entries(s1, cs[j], h) == entries(s0, cs[j], h)
    } by {
        lemma_wf_facts(s0, cs[j], h, child_lo(n, lo, j), child_hi(n, hi, j), m);
        if j < i {
            assert(reach(s0, cs[j], h).disjoint(reach(s0, cs[i], h)));
        } else {
            assert(reach(s0, cs[i], h).disjoint(reach(s0, cs[j], h)));
        }
        assert forall|x: u64| #[trigger] reach(s0, cs[j], h).contains(x) implies x < s1.len() && s1[x as int]
            == s0[x as int] by {
            assert(crate::model::present(s0, x));
            assert(!reach(s0, ci, h).contains(x));
        }
        crate::model::lemma_frame(s0, s1, cs[j], h, child_lo(n, lo, j), child_hi(n, hi, j), m);
    }
    assert forall|j: int| 0 <= j < len implies #[trigger] wf_node(
        s1,
        cs[j],
        h,
        child_lo(n, lo, j),
        child_hi(n, hi, j),
        m,
    ) by {
        if j != i {
            assert(wf_node(s1, cs[j], h, child_lo(n, lo, j), child_hi(n, hi, j), m));
        }
    }
    assert forall|j: int, t: int| 0 <= j < t < len implies #[trigger] reach(s1, cs[j], h).disjoint(
        #[trigger] reach(s1, cs[t], h),
    ) by {
        if j != i && t != i {
            assert(reach(s1, cs[j], h) == reach(s0, cs[j], h));
            assert(reach(s1, cs[t], h) == reach(s0, cs[t], h));
            assert(reach(s0, cs[j], h).disjoint(reach(s0, cs[t], h)));
        } else {
            let o = if j == i {
                t
            } else {
                j
            };
            assert(reach(s1, cs[o], h) == reach(s0, cs[o], h));
            lemma_wf_facts(s0, cs[o], h, child_lo(n, lo, o), child_hi(n, hi, o), m);
            if o < i {
                assert(reach(s0, cs[o], h).disjoint(reach(s0, cs[i], h)));
            } else {
                assert(reach(s0, cs[i], h).disjoint(reach(s0, cs[o], h)));
            }
            assert forall|x: u64| reach(s1, cs[j], h).contains(x) implies !reach(s1, cs[t], h).contains(x) by {
                if reach(s1, cs[t], h).contains(x) {
                    assert(reach(s1, cs[i], h).contains(x));
                    assert(reach(s0, cs[o], h).contains(x));
                    assert(crate::model::present(s0, x));
                }
            }
        }
    }
    assert((hn - 1) as nat == h);
    lemma_kids_ok(s1, n, h, lo, hi, m, cs.len());
    assert(node_ok2(s1, n, hn, lo, hi, ms, m));
    lemma_internal(s1, n, hn, h, lo, hi, ms, m);
    let e0 = entries_of(s0, n, hn);
    let e1 = entries_of(s1, n, hn);
    assert forall|x: int| e1.contains_key(x) <==> e0.remove(k).contains_key(x) by {
        if e1.contains_key(x) {
            let j = choose|j: int| 0 <= j < len && #[trigger] entries(s1, cs[j], h).contains_key(x);
            if j != i {
                assert(entries(s0, cs[j], h).contains_key(x));
                assert(in_bounds(x, child_lo(n, lo, j), child_hi(n, hi, j)));
                if x == k {
                    if j < i {
                        assert(n.keys@[j].rank() <= n.keys@[i - 1].rank());
                    } else {
                        assert(n.keys@[i].rank() <= n.keys@[j - 1].rank());
                    }
                }
            } else {
                assert(entries(s0, cs[i], h).contains_key(x));
            }
        }
        if e0.remove(k).contains_key(x) {
            let j = choose|j: int| 0 <= j < len && #[trigger] entries(s0, cs[j], h).contains_key(x);
            if j != i {
                assert(entries(s1, cs[j], h).contains_key(x));
            } else {
                assert(entries(s1, cs[i], h).contains_key(x));
            }
        }
    }
    assert forall|x: int| e1.contains_key(x) implies e1[x] == e0.remove(k)[x] by {
        let j = choose|j: int| 0 <= j < len && #[trigger] entries(s1, cs[j], h).contains_key(x);
        if j != i {
            assert(entries(s0, cs[j], h).contains_key(x));
        } else {
            assert(entries(s0, cs[i], h).contains_key(x));
        }
    }
    assert(e1 =~= e0.remove(k));
    assert forall|x: u64| #[trigger] reach_of(s1, n, hn).contains(x) implies reach_of(s0, n, hn).contains(x) by {
        let j = choose|j: int| 0 <= j < len && #[trigger] reach(s1, cs[j], h).contains(x);
        if j != i {
            assert(reach(s0, cs[j], h).contains(x));
        } else {
            assert(reach(s0, cs[i], h).contains(x));
        }
    }
}

} // verus!

verus! {

/// The entries of two neighbouring children together are the node's entries
/// for their keys.
pub proof fn lemma_pair_entries<K: TreeKey, V>(
    s: Store<K, V>,
    n: UniversalNode<K, V>,
    hn: nat,
    h: nat,
    lo: Option<int>,
    hi: Option<int>,
    ms: nat,
    m: nat,
    a: int,
)
    requires
        hn == h + 1,
        node_ok2(s, n, hn, lo, hi, ms, m),
        0 <= a,
        a + 1 < n.child_ids@.len(),
    ensures
        forall|x: int|
            #![trigger entries(s, n.child_ids@[a], h).union_prefer_right(entries(s, n.child_ids@[a + 1], h))[x]]
            entries(s, n.child_ids@[a], h).union_prefer_right(entries(s, n.child_ids@[a + 1], h)).contains_key(x)
                ==> entries_of(s, n, hn).contains_key(x) && entries(s, n.child_ids@[a], h).union_prefer_right(
                entries(s, n.child_ids@[a + 1], h),
            )[x] == entries_of(s, n, hn)[x],
{
    lemma_internal(s, n, hn, h, lo, hi, ms, m);
    let cs = n.child_ids@;
    let u = entries(s, cs[a], h).union_prefer_right(entries(s, cs[a + 1], h));
    assert forall|x: int| u.contains_key(x) implies entries_of(s, n, hn).contains_key(x) && u[x] == entries_of(
        s,
        n,
        hn,
    )[x] by {
        if entries(s, cs[a + 1], h).contains_key(x) {
            assert(u[x] == entries(s, cs[a + 1], h)[x]);
        } else {
            assert(entries(s, cs[a], h).contains_key(x));
        }
    }
}

/// When two neighbouring children `a` and `a + 1` are rebuilt, within their
/// former blocks, into two subtrees that meet at a new key `nk` and together
/// hold the same entries, putting `nk` in place of the key between them gives
/// a well-formed node with the same entries within its former blocks.
#[verifier::rlimit(80)]
pub proof fn lemma_pair_replaced<K: TreeKey, V>(
    s0: Store<K, V>,
    s1: Store<K, V>,
    n: UniversalNode<K, V>,
    n2: UniversalNode<K, V>,
    hn: nat,
    h: nat,
    lo: Option<int>,
    hi: Option<int>,
    ms: nat,
    m: nat,
    a: int,
    nk: K,
)
    requires
        hn == h + 1,
        node_ok2(s0, n, hn, lo, hi, ms, m),
        0 <= a,
        a + 1 < n.child_ids@.len(),
        in_bounds(nk.rank(), child_lo(n, lo, a), child_hi(n, hi, a + 1)),
        child_lo(n, lo, a) matches Some(l) ==> l < nk.rank(),
        wf_node(s1, n.child_ids@[a], h, child_lo(n, lo, a), Some(nk.rank()), m),
        wf_node(s1, n.child_ids@[a + 1], h, Some(nk.rank()), child_hi(n, hi, a + 1), m),
        reach(s1, n.child_ids@[a], h).disjoint(reach(s1, n.child_ids@[a + 1], h)),
        forall|x: u64|
            #[trigger] reach(s1, n.child_ids@[a], h).contains(x) ==> reach(s0, n.child_ids@[a], h).contains(x)
                || reach(s0, n.child_ids@[a + 1], h).contains(x),
        forall|x: u64|
            #[trigger] reach(s1, n.child_ids@[a + 1], h).contains(x) ==> reach(s0, n.child_ids@[a], h).contains(x)
                || reach(s0, n.child_ids@[a + 1], h).contains(x),
        entries(s1, n.child_ids@[a], h).union_prefer_right(entries(s1, n.child_ids@[a + 1], h)) == entries(
            s0,
            n.child_ids@[a],
            h,
        ).union_prefer_right(entries(s0, n.child_ids@[a + 1], h)),
        forall|x: u64|
            present(s0, x) && !reach(s0, n.child_ids@[a], h).contains(x) && !reach(s0, n.child_ids@[a + 1], h).contains(
                x,
            ) ==> x < s1.len() && s1[x as int] == #[trigger] s0[x as int],
        n2.keys@ == n.keys@.update(a, nk),
        n2.child_ids@ == n.child_ids@,
        n2.well_shaped(),
        !n2.leaf(),
    ensures
        node_ok2(s1, n2, hn, lo, hi, ms, m),
        entries_of(s1, n2, hn) == entries_of(s0, n, hn),
        forall|x: u64| #[trigger] reach_of(s1, n2, hn).contains(x) ==> reach_of(s0, n, hn).contains(x),
{
    let cs = n.child_ids@;
    let len = cs.len() as int;
    let nkeys = n.keys@.len() as int;
    let sk = nk.rank();
    lemma_internal(s0, n, hn, h, lo, hi, ms, m);
    lemma_pair_entries(s0, n, hn, h, lo, hi, ms, m, a);
    lemma_wf_facts(s0, cs[a], h, child_lo(n, lo, a), child_hi(n, hi, a), m);
    lemma_wf_facts(s0, cs[a + 1], h, child_lo(n, lo, a + 1), child_hi(n, hi, a + 1), m);
    lemma_wf_facts(s1, cs[a], h, child_lo(n, lo, a), Some(sk), m);
    lemma_wf_facts(s1, cs[a + 1], h, Some(sk), child_hi(n, hi, a + 1), m);
    assert(reach(s0, cs[a], h).disjoint(reach(s0, cs[a + 1], h)));
    // keys
    if a > 0 {
        assert(in_bounds(n.keys@[a - 1].rank(), lo, hi));
    }
    if a + 1 < nkeys {
        assert(in_bounds(n.keys@[a + 1].rank(), lo, hi));
    }
    assert(in_bounds(sk, lo, hi));
    assert forall|j: int| 0 <= j < n2.keys@.len() implies in_bounds(#[trigger] n2.keys@[j].rank(), lo, hi) by {
        if j != a {
            assert(n2.keys@[j] == n.keys@[j]);
        }
    }
    assert forall|i: int, j: int| 0 <= i < j < n2.keys@.len() implies #[trigger] n2.keys@[i].rank()
        < #[trigger] n2.keys@[j].rank() by {
        if i != a && j != a {
            assert(n2.keys@[i] == n.keys@[i] && n2.keys@[j] == n.keys@[j]);
        } else if i == a {
            assert(n2.keys@[j] == n.keys@[j]);
            assert(n.keys@[a + 1].rank() <= n.keys@[j].rank());
        } else {
            assert(n2.keys@[i] == n.keys@[i]);
            assert(n.keys@[i].rank() <= n.keys@[a - 1].rank());
        }
    }
    assert(n2.keys@.len() > 0 ==> (lo matches Some(x) ==> x < n2.keys@[0].rank())) by {
        if a > 0 {
            assert(n2.keys@[0] == n.keys@[0]);
        }
    }
    assert(node_local_ok(n2, hn, lo, hi, ms));
    // children bounds
    assert forall|j: int| #![trigger cs[j]] 0 <= j < len && j != a && j != a + 1 implies child_lo(n2, lo, j) == child_lo(
        n,
        lo,
        j,
    ) && child_hi(n2, hi, j) == child_hi(n, hi, j) by {
        if j > 0 {
            assert(n2.keys@[j - 1] == n.keys@[j - 1]);
        }
        if j < nkeys {
            assert(n2.keys@[j] == n.keys@[j]);
        }
    }
    assert(child_lo(n2, lo, a) == child_lo(n, lo, a)) by {
        if a > 0 {
            assert(n2.keys@[a - 1] == n.keys@[a - 1]);
        }
    }
    assert(child_hi(n2, hi, a) == Some(sk));
    assert(child_lo(n2, lo, a + 1) == Some(sk));
    assert(child_hi(n2, hi, a + 1) == child_hi(n, hi, a + 1)) by {
        if a + 1 < nkeys {
            assert(n2.keys@[a + 1] == n.keys@[a + 1]);
        }
    }
    // the other children keep their subtrees
    assert forall|j: int| #![trigger cs[j]] 0 <= j < len && j != a && j != a + 1 implies {
        &&& wf_node(s1, cs[j], h, child_lo(n, lo, j), child_hi(n, hi, j), m)
        &&& reach(s1, cs[j], h) == reach(s0, cs[j], h)
        &&& entries(s1, cs[j], h) == entries(s0, cs[j], h)
        &&& reach(s0, cs[j], h).disjoint(reach(s0, cs[a], h))
        &&& reach(s0, cs[j], h).disjoint(reach(s0, cs[a + 1], h))
    } by {
        lemma_wf_facts(s0, cs[j], h, child_lo(n, lo, j), child_hi(n, hi, j), m);
        if j < a {
            assert(reach(s0, cs[j], h).disjoint(reach(s0, cs[a], h)));
            assert(reach(s0, cs[j], h).disjoint(reach(s0, cs[a + 1], h)));
        } else {
            assert(reach(s0, cs[a], h).disjoint(reach(s0, cs[j], h)));
            assert(reach(s0, cs[a + 1], h).disjoint(reach(s0, cs[j], h)));
        }
        assert forall|x: u64| #[trigger] reach(s0, cs[j], h).contains(x) implies x < s1.len() && s1[x as int]
            == s0[x as int] by {
            assert(present(s0, x));
            assert(!reach(s0, cs[a], h).contains(x));
            assert(!reach(s0, cs[a + 1], h).contains(x));
        }
        lemma_frame(s0, s1, cs[j], h, child_lo(n, lo, j), child_hi(n, hi, j), m);
    }
    assert forall|j: int| 0 <= j < len implies #[trigger] wf_node(
        s1,
        n2.child_ids@[j],
        h,
        child_lo(n2, lo, j),
        child_hi(n2, hi, j),
        m,
    ) by {
        assert(n2.child_ids@[j] == cs[j]);
    }
    let pair = |j: int| j == a || j == a + 1;
    assert forall|j: int, t: int| 0 <= j < t < len implies #[trigger] reach(s1, n2.child_ids@[j], h).disjoint(
        #[trigger] reach(s1, n2.child_ids@[t], h),
    ) by {
        assert(n2.child_ids@[j] == cs[j] && n2.child_ids@[t] == cs[t]);
        if pair(j) && pair(t) {
        } else if !pair(j) && !pair(t) {
            assert(reach(s0, cs[j], h).disjoint(reach(s0, cs[t], h)));
        } else {
            let o = if pair(j) {
                t
            } else {
                j
            };
            let p = if pair(j) {
                j
            } else {
                t
            };
            assert forall|x: u64| reach(s1, cs[j], h).contains(x) implies !reach(s1, cs[t], h).contains(x) by {
                if reach(s1, cs[t], h).contains(x) {
                    assert(reach(s1, cs[p], h).contains(x));
                    assert(reach(s1, cs[o], h).contains(x));
                    assert(reach(s0, cs[o], h).contains(x));
                }
            }
        }
    }
    assert((hn - 1) as nat == h);
    lemma_kids_ok(s1, n2, h, lo, hi, m, len as nat);
    assert(node_ok2(s1, n2, hn, lo, hi, ms, m));
    lemma_internal(s1, n2, hn, h, lo, hi, ms, m);
    // entries
    let e0 = entries_of(s0, n, hn);
    let e1 = entries_of(s1, n2, hn);
    let u1 = entries(s1, cs[a], h).union_prefer_right(entries(s1, cs[a + 1], h));
    let u0 = entries(s0, cs[a], h).union_prefer_right(entries(s0, cs[a + 1], h));
    assert forall|x: int| e1.contains_key(x) <==> e0.contains_key(x) by {
        if e1.contains_key(x) {
            let j = choose|j: int| 0 <= j < len && #[trigger] entries(s1, n2.child_ids@[j], h).contains_key(x);
            assert(n2.child_ids@[j] == cs[j]);
            if pair(j) {
                assert(u1.contains_key(x));
                assert(u0.contains_key(x));
            } else {
                assert(entries(s0, cs[j], h).contains_key(x));
            }
        }
        if e0.contains_key(x) {
            let j = choose|j: int| 0 <= j < len && #[trigger] entries(s0, cs[j], h).contains_key(x);
            if pair(j) {
                assert(u0.contains_key(x));
                assert(u1.contains_key(x));
                if entries(s1, cs[a], h).contains_key(x) {
                    assert(n2.child_ids@[a] == cs[a]);
                    assert(entries(s1, n2.child_ids@[a], h).contains_key(x));
                } else {
                    assert(n2.child_ids@[a + 1] == cs[a + 1]);
                    assert(entries(s1, n2.child_ids@[a + 1], h).contains_key(x));
                }
            } else {
                assert(n2.child_ids@[j] == cs[j]);
                assert(entries(s1, n2.child_ids@[j], h).contains_key(x));
            }
        }
    }
    assert forall|x: int| e1.contains_key(x) implies e1[x] == e0[x] by {
        let j = choose|j: int| 0 <= j < len && #[trigger] entries(s1, n2.child_ids@[j], h).contains_key(x);
        assert(n2.child_ids@[j] == cs[j]);
        if pair(j) {
            if j == a {
                assert(in_bounds(x, child_lo(n, lo, a), Some(sk)));
                if entries(s1, cs[a + 1], h).contains_key(x) {
                    assert(in_bounds(x, Some(sk), child_hi(n, hi, a + 1)));
                }
                assert(u1[x] == entries(s1, cs[a], h)[x]);
            } else {
                assert(u1[x] == entries(s1, cs[a + 1], h)[x]);
            }
            assert(u0.contains_key(x));
            assert(u0[x] == e0[x]);
        } else {
            assert(entries(s0, cs[j], h).contains_key(x));
        }
    }
    assert(e1 =~= e0);
    assert forall|x: u64| #[trigger] reach_of(s1, n2, hn).contains(x) implies reach_of(s0, n, hn).contains(x) by {
        let j = choose|j: int| 0 <= j < len && #[trigger] reach(s1, n2.child_ids@[j], h).contains(x);
        assert(n2.child_ids@[j] == cs[j]);
        if pair(j) {
            if reach(s0, cs[a], h).contains(x) {
                assert(reach(s0, cs[a], h).contains(x));
            } else {
                assert(reach(s0, cs[a + 1], h).contains(x));
            }
        } else {
            assert(reach(s0, cs[j], h).contains(x));
        }
    }
}

/// When two neighbouring children `a` and `a + 1` are merged, within their
/// former blocks, into one subtree at child `a`'s block for both ranges with
/// the entries of both, dropping the key between them and the second child
/// gives a well-formed node with the same entries within its former blocks.
#[verifier::rlimit(80)]
pub proof fn lemma_pair_merged<K: TreeKey, V>(
    s0: Store<K, V>,
    s1: Store<K, V>,
    n: UniversalNode<K, V>,
    n2: UniversalNode<K, V>,
    hn: nat,
    h: nat,
    lo: Option<int>,
    hi: Option<int>,
    ms: nat,
    m: nat,
    a: int,
)
    requires
        hn == h + 1,
        node_ok2(s0, n, hn, lo, hi, ms, m),
        0 <= a,
        a + 1 < n.child_ids@.len(),
        wf_node(s1, n.child_ids@[a], h, child_lo(n, lo, a), child_hi(n, hi, a + 1), m),
        forall|x: u64|
            #[trigger] reach(s1, n.child_ids@[a], h).contains(x) ==> reach(s0, n.child_ids@[a], h).contains(x)
                || reach(s0, n.child_ids@[a + 1], h).contains(x),
        entries(s1, n.child_ids@[a], h) == entries(s0, n.child_ids@[a], h).union_prefer_right(
            entries(s0, n.child_ids@[a + 1], h),
        ),
        forall|x: u64|
            present(s0, x) && !reach(s0, n.child_ids@[a], h).contains(x) && !reach(s0, n.child_ids@[a + 1], h).contains(
                x,
            ) ==> x < s1.len() && s1[x as int] == #[trigger] s0[x as int],
        n2.keys@ == n.keys@.remove(a),
        n2.child_ids@ == n.child_ids@.remove(a + 1),
        n2.well_shaped(),
        !n2.leaf(),
    ensures
        node_ok2(s1, n2, hn, lo, hi, ms, m),
        entries_of(s1, n2, hn) == entries_of(s0, n, hn),
        forall|x: u64| #[trigger] reach_of(s1, n2, hn).contains(x) ==> reach_of(s0, n, hn).contains(x),
{
    let cs = n.child_ids@;
    let cs2 = n2.child_ids@;
    let len = cs.len() as int;
    let nkeys = n.keys@.len() as int;
    lemma_internal(s0, n, hn, h, lo, hi, ms, m);
    lemma_pair_entries(s0, n, hn, h, lo, hi, ms, m, a);
    lemma_wf_facts(s0, cs[a], h, child_lo(n, lo, a), child_hi(n, hi, a), m);
    lemma_wf_facts(s0, cs[a + 1], h, child_lo(n, lo, a + 1), child_hi(n, hi, a + 1), m);
    lemma_wf_facts(s1, cs[a], h, child_lo(n, lo, a), child_hi(n, hi, a + 1), m);
    // keys
    assert forall|j: int| 0 <= j < n2.keys@.len() implies #[trigger] n2.keys@[j] == n.keys@[if j < a {
        j
    } else {
        j + 1
    }] by {}
    assert forall|j: int| 0 <= j < n2.keys@.len() implies in_bounds(#[trigger] n2.keys@[j].rank(), lo, hi) by {
        if j < a {
            assert(n2.keys@[j] == n.keys@[j]);
        } else {
            assert(n2.keys@[j] == n.keys@[j + 1]);
        }
    }
    assert forall|i: int, j: int| 0 <= i < j < n2.keys@.len() implies #[trigger] n2.keys@[i].rank()
        < #[trigger] n2.keys@[j].rank() by {
        let i0 = if i < a {
            i
        } else {
            i + 1
        };
        let j0 = if j < a {
            j
        } else {
            j + 1
        };
        assert(n2.keys@[i] == n.keys@[i0]);
        assert(n2.keys@[j] == n.keys@[j0]);
    }
    assert(n2.keys@.len() > 0 ==> (lo matches Some(x) ==> x < n2.keys@[0].rank())) by {
        if n2.keys@.len() > 0 {
            if a > 0 {
                assert(n2.keys@[0] == n.keys@[0]);
            } else {
                assert(n2.keys@[0] == n.keys@[1]);
                assert(n.keys@[0].rank() < n.keys@[1].rank());
            }
        }
    }
    assert(node_local_ok(n2, hn, lo, hi, ms));
    // which old child each new child is
    let o = |j: int| if j <= a {
        j
    } else {
        j + 1
    };
    assert forall|j: int| #![trigger cs2[j]] 0 <= j < len - 1 implies cs2[j] == cs[o(j)] && 0 <= o(j) < len && o(j)
        != a + 1 by {}
    assert forall|j: int| #![trigger cs2[j]] 0 <= j < len - 1 && j != a implies child_lo(n2, lo, j) == child_lo(
        n,
        lo,
        o(j),
    ) && child_hi(n2, hi, j) == child_hi(n, hi, o(j)) by {
        if j > 0 {
            if j - 1 < a {
                assert(n2.keys@[j - 1] == n.keys@[j - 1]);
            } else {
                assert(n2.keys@[j - 1] == n.keys@[j]);
            }
        }
        if j < nkeys - 1 {
            if j < a {
                assert(n2.keys@[j] == n.keys@[j]);
            } else {
                assert(n2.keys@[j] == n.keys@[j + 1]);
            }
        }
    }
    assert(child_lo(n2, lo, a) == child_lo(n, lo, a)) by {
        if a > 0 {
            assert(n2.keys@[a - 1] == n.keys@[a - 1]);
        }
    }
    assert(child_hi(n2, hi, a) == child_hi(n, hi, a + 1)) by {
        if a < nkeys - 1 {
            assert(n2.keys@[a] == n.keys@[a + 1]);
        }
    }
    // the other children keep their subtrees
    assert forall|j: int| #![trigger cs[j]] 0 <= j < len && j != a && j != a + 1 implies {
        &&& wf_node(s1, cs[j], h, child_lo(n, lo, j), child_hi(n, hi, j), m)
        &&& reach(s1, cs[j], h) == reach(s0, cs[j], h)
        &&& entries(s1, cs[j], h) == entries(s0, cs[j], h)
        &&& reach(s0, cs[j], h).disjoint(reach(s0, cs[a], h))
        &&& reach(s0, cs[j], h).disjoint(reach(s0, cs[a + 1], h))
    } by {
        lemma_wf_facts(s0, cs[j], h, child_lo(n, lo, j), child_hi(n, hi, j), m);
        if j < a {
            assert(reach(s0, cs[j], h).disjoint(reach(s0, cs[a], h)));
            assert(reach(s0, cs[j], h).disjoint(reach(s0, cs[a + 1], h)));
        } else {
            assert(reach(s0, cs[a], h).disjoint(reach(s0, cs[j], h)));
            assert(reach(s0, cs[a + 1], h).disjoint(reach(s0, cs[j], h)));
        }
        assert forall|x: u64| #[trigger] reach(s0, cs[j], h).contains(x) implies x < s1.len() && s1[x as int]
            == s0[x as int] by {
            assert(present(s0, x));
            assert(!reach(s0, cs[a], h).contains(x));
            assert(!reach(s0, cs[a + 1], h).contains(x));
        }
        lemma_frame(s0, s1, cs[j], h, child_lo(n, lo, j), child_hi(n, hi, j), m);
    }
    assert forall|j: int| 0 <= j < len - 1 implies #[trigger] wf_node(
        s1,
        cs2[j],
        h,
        child_lo(n2, lo, j),
        child_hi(n2, hi, j),
        m,
    ) by {
        assert(cs2[j] == cs[o(j)]);
    }
    assert forall|j: int, t: int| 0 <= j < t < len - 1 implies #[trigger] reach(s1, cs2[j], h).disjoint(
        #[trigger] reach(s1, cs2[t], h),
    ) by {
        assert(cs2[j] == cs[o(j)] && cs2[t] == cs[o(t)]);
        if j != a && t != a {
            assert(reach(s0, cs[o(j)], h).disjoint(reach(s0, cs[o(t)], h)));
        } else {
            let q = if j == a {
                t
            } else {
                j
            };
            assert forall|x: u64| reach(s1, cs2[j], h).contains(x) implies !reach(s1, cs2[t], h).contains(x) by {
                if reach(s1, cs2[t], h).contains(x) {
                    assert(reach(s1, cs[a], h).contains(x));
                    assert(reach(s1, cs[o(q)], h).contains(x));
                    assert(reach(s0, cs[o(q)], h).contains(x));
                }
            }
        }
    }
    assert((hn - 1) as nat == h);
    lemma_kids_ok(s1, n2, h, lo, hi, m, cs2.len());
    assert(node_ok2(s1, n2, hn, lo, hi, ms, m));
    lemma_internal(s1, n2, hn, h, lo, hi, ms, m);
    // entries
    let e0 = entries_of(s0, n, hn);
    let e1 = entries_of(s1, n2, hn);
    let u0 = entries(s0, cs[a], h).union_prefer_right(entries(s0, cs[a + 1], h));
    assert forall|x: int| e1.contains_key(x) <==> e0.contains_key(x) by {
        if e1.contains_key(x) {
            let j = choose|j: int| 0 <= j < len - 1 && #[trigger] entries(s1, cs2[j], h).contains_key(x);
            assert(cs2[j] == cs[o(j)]);
            if j == a {
                assert(u0.contains_key(x));
            } else {
                assert(entries(s0, cs[o(j)], h).contains_key(x));
            }
        }
        if e0.contains_key(x) {
            let j = choose|j: int| 0 <= j < len && #[trigger] entries(s0, cs[j], h).contains_key(x);
            if j == a || j == a + 1 {
                assert(u0.contains_key(x));
                assert(cs2[a] == cs[a]);
                assert(entries(s1, cs2[a], h).contains_key(x));
            } else if j < a {
                assert(cs2[j] == cs[j]);
                assert(entries(s1, cs2[j], h).contains_key(x));
            } else {
                assert(cs2[j - 1] == cs[j]);
                assert(entries(s1, cs2[j - 1], h).contains_key(x));
            }
        }
    }
    assert forall|x: int| e1.contains_key(x) implies e1[x] == e0[x] by {
        let j = choose|j: int| 0 <= j < len - 1 && #[trigger] entries(s1, cs2[j], h).contains_key(x);
        assert(cs2[j] == cs[o(j)]);
        if j == a {
            assert(u0.contains_key(x));
            assert(u0[x] == e0[x]);
        } else {
            assert(entries(s0, cs[o(j)], h).contains_key(x));
        }
    }
    assert(e1 =~= e0);
    assert forall|x: u64| #[trigger] reach_of(s1, n2, hn).contains(x) implies reach_of(s0, n, hn).contains(x) by {
        let j = choose|j: int| 0 <= j < len - 1 && #[trigger] reach(s1, cs2[j], h).contains(x);
        assert(cs2[j] == cs[o(j)]);
        if j == a {
            if reach(s0, cs[a], h).contains(x) {
                assert(reach(s0, cs[a], h).contains(x));
            } else {
                assert(reach(s0, cs[a + 1], h).contains(x));
            }
        } else {
            assert(reach(s0, cs[o(j)], h).contains(x));
        }
    }
}

} // verus!

verus! {

/// The subtrees of the first `i` blocks of a children list depend only on
/// those blocks.
pub proof fn lemma_kids_prefix<K: TreeKey, V>(s: Store<K, V>, c1: Seq<u64>, c2: Seq<u64>, h: nat, i: nat)
    requires
        i <= c1.len(),
        i <= c2.len(),
        forall|j: int| 0 <= j < i ==> c1[j] == c2[j],
    ensures
        entries_kids(s, c1, h, i) == entries_kids(s, c2, h, i),
        reach_kids(s, c1, h, i) == reach_kids(s, c2, h, i),
    decreases i,
{
    if i > 0 {
        lemma_kids_prefix(s, c1, c2, h, (i - 1) as nat);
        assert(c1[i - 1] == c2[i - 1]);
    }
}

/// The subtrees of two children lists one after the other hold the entries
/// and occupy the blocks of both.
pub proof fn lemma_kids_concat<K: TreeKey, V>(s: Store<K, V>, a: Seq<u64>, b: Seq<u64>, h: nat, i: nat)
    requires
        i <= b.len(),
    ensures
        entries_kids(s, a + b, h, a.len() + i) == entries_kids(s, a, h, a.len()).union_prefer_right(
            entries_kids(s, b, h, i),
        ),
        reach_kids(s, a + b, h, a.len() + i) == reach_kids(s, a, h, a.len()) + reach_kids(s, b, h, i),
    decreases i,
{
    if i == 0 {
        lemma_kids_prefix(s, a + b, a, h, a.len());
        assert(entries_kids(s, a, h, a.len()).union_prefer_right(Map::empty()) =~= entries_kids(s, a, h, a.len()));
        assert(reach_kids(s, a, h, a.len()) + Set::empty() =~= reach_kids(s, a, h, a.len()));
    } else {
        lemma_kids_concat(s, a, b, h, (i - 1) as nat);
        assert((a + b)[a.len() + i - 1] == b[i - 1]);
        let ea = entries_kids(s, a, h, a.len());
        let eb = entries_kids(s, b, h, (i - 1) as nat);
        let e = entries(s, b[i - 1], h);
        assert(ea.union_prefer_right(eb).union_prefer_right(e) =~= ea.union_prefer_right(eb.union_prefer_right(e)));
        let ra = reach_kids(s, a, h, a.len());
        let rb = reach_kids(s, b, h, (i - 1) as nat);
        let r = reach(s, b[i - 1], h);
        assert(ra + rb + r =~= ra + (rb + r));
    }
}

/// Two neighbouring leaves that meet at `sep`, regrouped into two other
/// leaves with the same entries in the same order, are well formed on
/// either side of the right one's first key and hold the same entries.
pub proof fn lemma_regroup_leaves<K: TreeKey, V>(
    s: Store<K, V>,
    l: UniversalNode<K, V>,
    r: UniversalNode<K, V>,
    l2: UniversalNode<K, V>,
    r2: UniversalNode<K, V>,
    lo: Option<int>,
    sep: int,
    hi: Option<int>,
    ml: nat,
    mr: nat,
    m: nat,
)
    requires
        node_ok(s, l, 0, lo, Some(sep), ml),
        node_ok(s, r, 0, Some(sep), hi, mr),
        in_bounds(sep, lo, hi),
        l2.keys@ + r2.keys@ == l.keys@ + r.keys@,
        l2.values@ + r2.values@ == l.values@ + r.values@,
        l2.leaf(),
        r2.leaf(),
        l2.child_ids@.len() == 0,
        r2.child_ids@.len() == 0,
        l2.key_count as int == l2.keys@.len(),
        r2.key_count as int == r2.keys@.len(),
        l2.values@.len() == l2.keys@.len(),
        l2.keys@.len() <= m,
        r2.keys@.len() <= m,
        r2.keys@.len() > 0,
    ensures
        node_ok(s, l2, 0, lo, Some(r2.keys@[0].rank()), m),
        node_ok(s, r2, 0, Some(r2.keys@[0].rank()), hi, m),
        entries_of(s, l2, 0).union_prefer_right(entries_of(s, r2, 0)) == entries_of(s, l, 0).union_prefer_right(
            entries_of(s, r, 0),
        ),
        in_bounds(r2.keys@[0].rank(), lo, hi),
        l2.keys@.len() > 0 ==> (lo matches Some(x) ==> x < r2.keys@[0].rank()),
{
    let keys = l.keys@ + r.keys@;
    let vals = l.values@ + r.values@;
    let nl = l.keys@.len() as int;
    let q = l2.keys@.len() as int;
    let sk2 = r2.keys@[0].rank();
    assert(node_local_ok(l, 0, lo, Some(sep), ml));
    assert(node_local_ok(r, 0, Some(sep), hi, mr));
    assert forall|j: int| 0 <= j < keys.len() implies in_bounds(#[trigger] keys[j].rank(), lo, hi) by {
        if j < nl {
            assert(keys[j] == l.keys@[j]);
            assert(in_bounds(l.keys@[j].rank(), lo, Some(sep)));
        } else {
            assert(keys[j] == r.keys@[j - nl]);
            assert(in_bounds(r.keys@[j - nl].rank(), Some(sep), hi));
        }
    }
    assert forall|a: int, b: int| 0 <= a < b < keys.len() implies #[trigger] keys[a].rank()
        < #[trigger] keys[b].rank() by {
        if b < nl {
            assert(keys[a] == l.keys@[a] && keys[b] == l.keys@[b]);
        } else if a >= nl {
            assert(keys[a] == r.keys@[a - nl] && keys[b] == r.keys@[b - nl]);
        } else {
            assert(keys[a] == l.keys@[a] && keys[b] == r.keys@[b - nl]);
            assert(in_bounds(l.keys@[a].rank(), lo, Some(sep)));
            assert(in_bounds(r.keys@[b - nl].rank(), Some(sep), hi));
        }
    }
    assert(sorted_keys(keys));
    assert(keys.subrange(0, nl) =~= l.keys@);
    assert(vals.subrange(0, nl) =~= l.values@);
    assert(keys.subrange(nl, keys.len() as int) =~= r.keys@);
    assert(vals.subrange(nl, vals.len() as int) =~= r.values@);
    lemma_leaf_split(keys, vals, nl);
    assert(keys == l2.keys@ + r2.keys@);
    assert(vals == l2.values@ + r2.values@);
    assert(keys.subrange(0, q) =~= l2.keys@);
    assert(vals.subrange(0, q) =~= l2.values@);
    assert(keys.subrange(q, keys.len() as int) =~= r2.keys@);
    assert(vals.subrange(q, vals.len() as int) =~= r2.values@);
    lemma_leaf_split(keys, vals, q);
    assert(keys[q] == r2.keys@[0]);
    assert(in_bounds(sk2, lo, hi));
    assert forall|j: int| 0 <= j < l2.keys@.len() implies in_bounds(#[trigger] l2.keys@[j].rank(), lo, Some(sk2)) by {
        assert(l2.keys@[j] == keys[j]);
    }
    assert forall|j: int| 0 <= j < r2.keys@.len() implies in_bounds(#[trigger] r2.keys@[j].rank(), Some(sk2), hi) by {
        assert(r2.keys@[j] == keys[q + j]);
    }
    assert(sorted_keys(l2.keys@)) by {
        assert forall|a: int, b: int| 0 <= a < b < l2.keys@.len() implies #[trigger] l2.keys@[a].rank()
            < #[trigger] l2.keys@[b].rank() by {
            assert(l2.keys@[a] == keys[a] && l2.keys@[b] == keys[b]);
        }
    }
    assert(sorted_keys(r2.keys@)) by {
        assert forall|a: int, b: int| 0 <= a < b < r2.keys@.len() implies #[trigger] r2.keys@[a].rank()
            < #[trigger] r2.keys@[b].rank() by {
            assert(r2.keys@[a] == keys[q + a] && r2.keys@[b] == keys[q + b]);
        }
    }
    if q > 0 {
        assert(keys[0].rank() < keys[q].rank());
        assert(in_bounds(keys[0].rank(), lo, hi));
    }
    assert(node_local_ok(l2, 0, lo, Some(sk2), m));
    assert(node_local_ok(r2, 0, Some(sk2), hi, m));
}

/// The bounds of child `j` of a node with keys `ck` in the range `lo`..`hi`.
pub open spec fn seq_lo<K: TreeKey>(ck: Seq<K>, lo: Option<int>, j: int) -> Option<int> {
    if j <= 0 {
        lo
    } else {
        Some(ck[j - 1].rank())
    }
}

/// The upper bound of child `j` of a node with keys `ck` in the range `lo`..`hi`.
pub open spec fn seq_hi<K: TreeKey>(ck: Seq<K>, hi: Option<int>, j: int) -> Option<int> {
    if j >= ck.len() {
        hi
    } else {
        Some(ck[j].rank())
    }
}

/// Two neighbouring internal nodes that meet at `sep`, regrouped into two
/// other nodes that meet at `sep2`, with the same keys (separators included)
/// and children in the same order, are well formed on either side of `sep2`,
/// occupy the same blocks and hold the same entries.
#[verifier::rlimit(60)]
pub proof fn lemma_regroup_internal<K: TreeKey, V>(
    s: Store<K, V>,
    l: UniversalNode<K, V>,
    r: UniversalNode<K, V>,
    sep: K,
    l2: UniversalNode<K, V>,
    r2: UniversalNode<K, V>,
    sep2: K,
    hn: nat,
    h: nat,
    lo: Option<int>,
    hi: Option<int>,
    ml: nat,
    mr: nat,
    m: nat,
)
    requires
        hn == h + 1,
        node_ok2(s, l, hn, lo, Some(sep.rank()), ml, m),
        node_ok2(s, r, hn, Some(sep.rank()), hi, mr, m),
        reach_of(s, l, hn).disjoint(reach_of(s, r, hn)),
        in_bounds(sep.rank(), lo, hi),
        lo matches Some(x) ==> x < sep.rank(),
        l2.keys@.push(sep2) + r2.keys@ == l.keys@.push(sep) + r.keys@,
        l2.child_ids@ + r2.child_ids@ == l.child_ids@ + r.child_ids@,
        l2.well_shaped(),
        r2.well_shaped(),
        !l2.leaf(),
        !r2.leaf(),
        l2.keys@.len() <= m,
        r2.keys@.len() <= m,
    ensures
        node_ok(s, l2, hn, lo, Some(sep2.rank()), m),
        node_ok(s, r2, hn, Some(sep2.rank()), hi, m),
        reach_of(s, l2, hn).disjoint(reach_of(s, r2, hn)),
        reach_of(s, l2, hn) + reach_of(s, r2, hn) == reach_of(s, l, hn) + reach_of(s, r, hn),
        entries_of(s, l2, hn).union_prefer_right(entries_of(s, r2, hn)) == entries_of(s, l, hn).union_prefer_right(
            entries_of(s, r, hn),
        ),
        in_bounds(sep2.rank(), lo, hi),
        lo matches Some(x) ==> x < sep2.rank(),
{
    let sk = sep.rank();
    let sp = Some(sk);
    let ck = l.keys@.push(sep) + r.keys@;
    let cc = l.child_ids@ + r.child_ids@;
    let nl = l.keys@.len() as int;
    let nr = r.keys@.len() as int;
    let q = l2.keys@.len() as int;
    let lc = l.child_ids@;
    let rc = r.child_ids@;
    let l2c = l2.child_ids@;
    let r2c = r2.child_ids@;
    lemma_internal(s, l, hn, h, lo, sp, ml, m);
    lemma_internal(s, r, hn, h, sp, hi, mr, m);
    assert(ck.len() == nl + nr + 1);
    assert(cc.len() == ck.len() + 1);
    assert(l2c.len() == q + 1);
    assert(r2c.len() == r2.keys@.len() + 1);
    // the combined keys
    assert forall|j: int| 0 <= j < nl implies #[trigger] ck[j] == l.keys@[j] by {}
    assert(ck[nl] == sep);
    assert forall|j: int| nl < j < ck.len() implies #[trigger] ck[j] == r.keys@[j - nl - 1] by {}
    assert forall|j: int| 0 <= j < ck.len() implies in_bounds(#[trigger] ck[j].rank(), lo, hi) by {
        if j < nl {
            assert(in_bounds(l.keys@[j].rank(), lo, sp));
        } else if j > nl {
            assert(in_bounds(r.keys@[j - nl - 1].rank(), sp, hi));
        }
    }
    assert forall|a: int, b: int| 0 <= a < b < ck.len() implies #[trigger] ck[a].rank() < #[trigger] ck[b].rank() by {
        if b < nl {
        } else if a > nl {
            assert(ck[a] == r.keys@[a - nl - 1] && ck[b] == r.keys@[b - nl - 1]);
        } else {
            if a < nl {
                assert(in_bounds(l.keys@[a].rank(), lo, sp));
            }
            if b > nl {
                assert(ck[b] == r.keys@[b - nl - 1]);
                assert(r.keys@[0].rank() <= r.keys@[b - nl - 1].rank());
                assert(sk < r.keys@[0].rank());
            }
        }
    }
    assert(lo matches Some(x) ==> x < ck[0].rank()) by {
        if nl > 0 {
            assert(ck[0] == l.keys@[0]);
        }
    }
    // the combined children, each in its range
    assert forall|j: int| 0 <= j < cc.len() implies #[trigger] wf_node(s, cc[j], h, seq_lo(ck, lo, j), seq_hi(ck, hi, j), m)
        by {
        if j <= nl {
            assert(cc[j] == lc[j]);
            assert(child_lo(l, lo, j) == seq_lo(ck, lo, j));
            assert(child_hi(l, sp, j) == seq_hi(ck, hi, j));
        } else {
            let t = j - nl - 1;
            assert(cc[j] == rc[t]);
            assert(child_lo(r, sp, t) == seq_lo(ck, lo, j));
            assert(child_hi(r, hi, t) == seq_hi(ck, hi, j));
        }
    }
    assert forall|j: int, t: int| 0 <= j < t < cc.len() implies #[trigger] reach(s, cc[j], h).disjoint(
        #[trigger] reach(s, cc[t], h),
    ) by {
        if t <= nl {
            assert(cc[j] == lc[j] && cc[t] == lc[t]);
        } else if j > nl {
            assert(cc[j] == rc[j - nl - 1] && cc[t] == rc[t - nl - 1]);
        } else {
            assert(cc[j] == lc[j] && cc[t] == rc[t - nl - 1]);
            assert forall|x: u64| reach(s, cc[j], h).contains(x) implies !reach(s, cc[t], h).contains(x) by {
                assert(reach(s, lc[j], h).contains(x));
                assert(reach_of(s, l, hn).contains(x));
                if reach(s, cc[t], h).contains(x) {
                    assert(reach(s, rc[t - nl - 1], h).contains(x));
                    assert(reach_of(s, r, hn).contains(x));
                }
            }
        }
    }
    // the regrouped nodes
    assert(ck == l2.keys@.push(sep2) + r2.keys@);
    assert(cc == l2c + r2c);
    assert forall|j: int| 0 <= j < q implies #[trigger] l2.keys@[j] == ck[j] by {}
    assert(ck[q] == sep2);
    assert forall|t: int| 0 <= t < r2.keys@.len() implies #[trigger] r2.keys@[t] == ck[q + 1 + t] by {}
    assert forall|j: int| 0 <= j <= q implies #[trigger] l2c[j] == cc[j] by {}
    assert forall|t: int| 0 <= t < r2c.len() implies #[trigger] r2c[t] == cc[q + 1 + t] by {}
    let sp2 = Some(sep2.rank());
    assert(in_bounds(sep2.rank(), lo, hi));
    assert(lo matches Some(x) ==> x < sep2.rank()) by {
        if q > 0 {
            assert(ck[0].rank() < ck[q].rank());
        }
    }
    assert forall|j: int| 0 <= j < q implies in_bounds(#[trigger] l2.keys@[j].rank(), lo, sp2) by {
        assert(ck[j].rank() < ck[q].rank());
    }
    assert(sorted_keys(l2.keys@)) by {
        assert forall|a: int, b: int| 0 <= a < b < q implies #[trigger] l2.keys@[a].rank() < #[trigger] l2.keys@[b].rank()
            by {
            assert(l2.keys@[a] == ck[a] && l2.keys@[b] == ck[b]);
        }
    }
    assert(q > 0 ==> (lo matches Some(x) ==> x < l2.keys@[0].rank()));
    assert(node_local_ok(l2, hn, lo, sp2, m));
    assert forall|t: int| 0 <= t < r2.keys@.len() implies in_bounds(#[trigger] r2.keys@[t].rank(), sp2, hi) by {
        assert(ck[q].rank() < ck[q + 1 + t].rank());
    }
    assert(sorted_keys(r2.keys@)) by {
        assert forall|a: int, b: int| 0 <= a < b < r2.keys@.len() implies #[trigger] r2.keys@[a].rank()
            < #[trigger] r2.keys@[b].rank() by {
            assert(r2.keys@[a] == ck[q + 1 + a] && r2.keys@[b] == ck[q + 1 + b]);
        }
    }
    assert(r2.keys@.len() > 0 ==> sep2.rank() < r2.keys@[0].rank()) by {
        if r2.keys@.len() > 0 {
            assert(ck[q].rank() < ck[q + 1].rank());
        }
    }
    assert(node_local_ok(r2, hn, sp2, hi, m));
    assert forall|j: int| 0 <= j < l2c.len() implies #[trigger] wf_node(s, l2c[j], h, child_lo(l2, lo, j), child_hi(l2, sp2, j), m)
        by {
        assert(l2c[j] == cc[j]);
        assert(child_lo(l2, lo, j) == seq_lo(ck, lo, j));
        assert(child_hi(l2, sp2, j) == seq_hi(ck, hi, j));
    }
    assert forall|j: int, t: int| 0 <= j < t < l2c.len() implies #[trigger] reach(s, l2c[j], h).disjoint(
        #[trigger] reach(s, l2c[t], h),
    ) by {
        assert(l2c[j] == cc[j] && l2c[t] == cc[t]);
    }
    assert forall|j: int| 0 <= j < r2c.len() implies #[trigger] wf_node(s, r2c[j], h, child_lo(r2, sp2, j), child_hi(r2, hi, j), m)
        by {
        assert(r2c[j] == cc[q + 1 + j]);
        assert(child_lo(r2, sp2, j) == seq_lo(ck, lo, q + 1 + j));
        assert(child_hi(r2, hi, j) == seq_hi(ck, hi, q + 1 + j));
    }
    assert forall|j: int, t: int| 0 <= j < t < r2c.len() implies #[trigger] reach(s, r2c[j], h).disjoint(
        #[trigger] reach(s, r2c[t], h),
    ) by {
        assert(r2c[j] == cc[q + 1 + j] && r2c[t] == cc[q + 1 + t]);
    }
    assert((hn - 1) as nat == h);
    lemma_kids_ok(s, l2, h, lo, sp2, m, l2c.len());
    lemma_kids_ok(s, r2, h, sp2, hi, m, r2c.len());
    assert(node_ok(s, l2, hn, lo, sp2, m));
    assert(node_ok(s, r2, hn, sp2, hi, m));
    // blocks and entries
    assert(reach_of(s, l2, hn) == reach_kids(s, l2c, h, l2c.len()));
    assert(reach_of(s, r2, hn) == reach_kids(s, r2c, h, r2c.len()));
    assert(reach_of(s, l, hn) == reach_kids(s, lc, h, lc.len()));
    assert(reach_of(s, r, hn) == reach_kids(s, rc, h, rc.len()));
    assert(entries_of(s, l2, hn) == entries_kids(s, l2c, h, l2c.len()));
    assert(entries_of(s, r2, hn) == entries_kids(s, r2c, h, r2c.len()));
    assert(entries_of(s, l, hn) == entries_kids(s, lc, h, lc.len()));
    assert(entries_of(s, r, hn) == entries_kids(s, rc, h, rc.len()));
    lemma_kids_concat(s, l2c, r2c, h, r2c.len());
    lemma_kids_concat(s, lc, rc, h, rc.len());
    crate::model::lemma_reach_kids(s, l2c, h, l2c.len());
    crate::model::lemma_reach_kids(s, r2c, h, r2c.len());
    assert forall|x: u64| reach_of(s, l2, hn).contains(x) implies !reach_of(s, r2, hn).contains(x) by {
        let j = choose|j: int| 0 <= j < l2c.len() && #[trigger] reach(s, l2c[j], h).contains(x);
        if reach_of(s, r2, hn).contains(x) {
            let t = choose|t: int| 0 <= t < r2c.len() && #[trigger] reach(s, r2c[t], h).contains(x);
            assert(l2c[j] == cc[j]);
            assert(r2c[t] == cc[q + 1 + t]);
            assert(reach(s, cc[j], h).disjoint(reach(s, cc[q + 1 + t], h)));
        }
    }
}

} // verus!

verus! {

/// Moving entries between children `a` and `a + 1` of the node at block
/// `pid`: when the two children's nodes are regrouped (leaves: the same
/// entries in the same order; internal nodes: the same keys, with the old
/// separator among them, and the same children) into `l2` and `r2` that meet
/// at `nk`, and the node's separator becomes `nk`, the subtree at `pid` stays
/// well formed, holds the same entries and keeps to its former blocks.
#[verifier::rlimit(80)]
pub proof fn lemma_borrow_step<K: TreeKey, V>(
    s0: Store<K, V>,
    s2: Store<K, V>,
    pid: u64,
    n2: UniversalNode<K, V>,
    a: int,
    l2: UniversalNode<K, V>,
    r2: UniversalNode<K, V>,
    nk: K,
    h: nat,
    lo: Option<int>,
    hi: Option<int>,
    m: nat,
)
    requires
        wf_node(s0, pid, h, lo, hi, m),
        h > 0,
        0 <= a,
        a + 1 < node_at(s0, pid).child_ids@.len(),
        (h == 1) ==> {
            &&& l2.keys@ + r2.keys@ == node_at(s0, node_at(s0, pid).child_ids@[a]).keys@ + node_at(
                s0,
                node_at(s0, pid).child_ids@[a + 1],
            ).keys@
            &&& l2.values@ + r2.values@ == node_at(s0, node_at(s0, pid).child_ids@[a]).values@ + node_at(
                s0,
                node_at(s0, pid).child_ids@[a + 1],
            ).values@
            &&& l2.values@.len() == l2.keys@.len()
            &&& l2.child_ids@.len() == 0
            &&& r2.child_ids@.len() == 0
            &&& l2.keys@.len() > 0
            &&& r2.keys@.len() > 0
            &&& nk == r2.keys@[0]
        },
        (h > 1) ==> {
            &&& l2.keys@.push(nk) + r2.keys@ == node_at(s0, node_at(s0, pid).child_ids@[a]).keys@.push(
                node_at(s0, pid).keys@[a],
            ) + node_at(s0, node_at(s0, pid).child_ids@[a + 1]).keys@
            &&& l2.child_ids@ + r2.child_ids@ == node_at(s0, node_at(s0, pid).child_ids@[a]).child_ids@ + node_at(
                s0,
                node_at(s0, pid).child_ids@[a + 1],
            ).child_ids@
            &&& l2.well_shaped()
            &&& r2.well_shaped()
        },
        l2.leaf() == (h == 1),
        r2.leaf() == (h == 1),
        l2.key_count as int == l2.keys@.len(),
        r2.key_count as int == r2.keys@.len(),
        l2.keys@.len() <= m,
        r2.keys@.len() <= m,
        n2.keys@ == node_at(s0, pid).keys@.update(a, nk),
        n2.child_ids@ == node_at(s0, pid).child_ids@,
        n2.well_shaped(),
        !n2.leaf(),
        s2 == s0.update(node_at(s0, pid).child_ids@[a] as int, Some(l2)).update(
            node_at(s0, pid).child_ids@[a + 1] as int,
            Some(r2),
        ).update(pid as int, Some(n2)),
    ensures
        wf_node(s2, pid, h, lo, hi, m),
        entries(s2, pid, h) == entries(s0, pid, h),
        forall|x: u64| #[trigger] reach(s2, pid, h).contains(x) ==> reach(s0, pid, h).contains(x),
{
    let n = node_at(s0, pid);
    let hc = (h - 1) as nat;
    let cs = n.child_ids@;
    let la = cs[a];
    let ra = cs[a + 1];
    let ln = node_at(s0, la);
    let rn = node_at(s0, ra);
    let clo = child_lo(n, lo, a);
    let chi = child_hi(n, hi, a + 1);
    let ka = n.keys@[a];
    let sp = Some(ka.rank());
    let sp2 = Some(nk.rank());
    assert(node_ok2(s0, n, h, lo, hi, m, m));
    lemma_internal(s0, n, h, hc, lo, hi, m, m);
    assert(child_hi(n, hi, a) == sp);
    assert(child_lo(n, lo, a + 1) == sp);
    assert(wf_node(s0, la, hc, clo, sp, m));
    assert(wf_node(s0, ra, hc, sp, chi, m));
    assert(reach(s0, la, hc).disjoint(reach(s0, ra, hc)));
    lemma_wf_facts(s0, la, hc, clo, sp, m);
    lemma_wf_facts(s0, ra, hc, sp, chi, m);
    lemma_wf_facts(s0, pid, h, lo, hi, m);
    assert(reach(s0, la, hc) == set![la] + reach_of(s0, ln, hc));
    assert(reach(s0, ra, hc) == set![ra] + reach_of(s0, rn, hc));
    assert(reach(s0, pid, h) == set![pid] + reach_of(s0, n, h));
    assert(in_bounds(ka.rank(), lo, hi));
    assert(in_bounds(ka.rank(), clo, chi)) by {
        if a + 1 < n.keys@.len() {
            assert(n.keys@[a].rank() < n.keys@[a + 1].rank());
        }
        if a > 0 {
            assert(n.keys@[a - 1].rank() < n.keys@[a].rank());
        }
    }
    assert(clo matches Some(x) ==> x < ka.rank()) by {
        if a > 0 {
            assert(n.keys@[a - 1].rank() < n.keys@[a].rank());
        } else {
            assert(n.keys@.len() > 0);
        }
    }
    // the regrouped children, as node values
    if h == 1 {
        assert(hc == 0);
        lemma_regroup_leaves(s0, ln, rn, l2, r2, clo, ka.rank(), chi, m, m, m);
        assert(reach_of(s0, l2, hc) =~= Set::<u64>::empty());
        assert(reach_of(s0, r2, hc) =~= Set::<u64>::empty());
        assert(reach_of(s0, ln, hc) =~= Set::<u64>::empty());
        assert(reach_of(s0, rn, hc) =~= Set::<u64>::empty());
    } else {
        assert(node_ok2(s0, ln, hc, clo, sp, m, m));
        assert(node_ok2(s0, rn, hc, sp, chi, m, m));
        assert(reach_of(s0, ln, hc).disjoint(reach_of(s0, rn, hc))) by {
            assert forall|x: u64| reach_of(s0, ln, hc).contains(x) implies !reach_of(s0, rn, hc).contains(x) by {
                assert(reach(s0, la, hc).contains(x));
                if reach_of(s0, rn, hc).contains(x) {
                    assert(reach(s0, ra, hc).contains(x));
                }
            }
        }
        lemma_regroup_internal(s0, ln, rn, ka, l2, r2, nk, hc, (hc - 1) as nat, clo, chi, m, m, m);
    }
    assert(node_ok(s0, l2, hc, clo, sp2, m));
    assert(node_ok(s0, r2, hc, sp2, chi, m));
    assert(reach_of(s0, l2, hc).disjoint(reach_of(s0, r2, hc)));
    assert(reach_of(s0, l2, hc) + reach_of(s0, r2, hc) == reach_of(s0, ln, hc) + reach_of(s0, rn, hc));
    assert(entries_of(s0, l2, hc).union_prefer_right(entries_of(s0, r2, hc)) == entries_of(s0, ln, hc).union_prefer_right(
        entries_of(s0, rn, hc),
    ));
    assert(in_bounds(nk.rank(), clo, chi));
    assert(clo matches Some(x) ==> x < nk.rank());
    // the store with the two children rewritten
    let s1 = s0.update(la as int, Some(l2)).update(ra as int, Some(r2));
    assert(s2 == s1.update(pid as int, Some(n2)));
    assert(la != ra) by {
        assert(reach(s0, la, hc).contains(la));
    }
    let old_blocks = reach_of(s0, ln, hc) + reach_of(s0, rn, hc);
    assert forall|x: u64| old_blocks.contains(x) implies x != la && x != ra && x != pid && present(s0, x) by {
        if reach_of(s0, ln, hc).contains(x) {
            assert(reach(s0, la, hc).contains(x));
        } else {
            assert(reach(s0, ra, hc).contains(x));
        }
        assert(reach(s0, la, hc).contains(la));
        assert(reach(s0, ra, hc).contains(ra));
        assert(reach_of(s0, n, h).contains(x)) by {
            if reach_of(s0, ln, hc).contains(x) {
                assert(reach(s0, cs[a], hc).contains(x));
            } else {
                assert(reach(s0, cs[a + 1], hc).contains(x));
            }
        }
    }
    assert forall|x: u64| #[trigger] reach_of(s0, l2, hc).contains(x) implies x < s1.len() && s1[x as int] == s0[x as int] by {
        assert((reach_of(s0, l2, hc) + reach_of(s0, r2, hc)).contains(x));
        assert(old_blocks.contains(x));
    }
    assert forall|x: u64| #[trigger] reach_of(s0, r2, hc).contains(x) implies x < s1.len() && s1[x as int] == s0[x as int] by {
        assert((reach_of(s0, l2, hc) + reach_of(s0, r2, hc)).contains(x));
        assert(old_blocks.contains(x));
    }
    lemma_frame_node(s0, s1, l2, hc, clo, sp2, m);
    lemma_frame_node(s0, s1, r2, hc, sp2, chi, m);
    assert(node_at(s1, la) == l2);
    assert(node_at(s1, ra) == r2);
    assert(!reach_of(s1, l2, hc).contains(la)) by {
        if reach_of(s1, l2, hc).contains(la) {
            assert((reach_of(s0, l2, hc) + reach_of(s0, r2, hc)).contains(la));
            assert(old_blocks.contains(la));
        }
    }
    assert(!reach_of(s1, r2, hc).contains(ra)) by {
        if reach_of(s1, r2, hc).contains(ra) {
            assert((reach_of(s0, l2, hc) + reach_of(s0, r2, hc)).contains(ra));
            assert(old_blocks.contains(ra));
        }
    }
    assert(wf_node(s1, la, hc, clo, sp2, m));
    assert(wf_node(s1, ra, hc, sp2, chi, m));
    assert(reach(s1, la, hc) == set![la] + reach_of(s1, l2, hc));
    assert(reach(s1, ra, hc) == set![ra] + reach_of(s1, r2, hc));
    assert(entries(s1, la, hc) == entries_of(s1, l2, hc));
    assert(entries(s1, ra, hc) == entries_of(s1, r2, hc));
    assert(entries(s0, la, hc) == entries_of(s0, ln, hc));
    assert(entries(s0, ra, hc) == entries_of(s0, rn, hc));
    assert(reach(s1, la, hc).disjoint(reach(s1, ra, hc))) by {
        assert forall|x: u64| reach(s1, la, hc).contains(x) implies !reach(s1, ra, hc).contains(x) by {
            if reach(s1, ra, hc).contains(x) {
                if x == la {
                    assert(reach_of(s1, r2, hc).contains(la));
                    assert((reach_of(s0, l2, hc) + reach_of(s0, r2, hc)).contains(la));
                    assert(old_blocks.contains(la));
                } else if x == ra {
                    assert(reach_of(s1, l2, hc).contains(ra));
                    assert((reach_of(s0, l2, hc) + reach_of(s0, r2, hc)).contains(ra));
                    assert(old_blocks.contains(ra));
                }
            }
        }
    }
    assert forall|x: u64| #[trigger] reach(s1, la, hc).contains(x) implies reach(s0, la, hc).contains(x) || reach(
        s0,
        ra,
        hc,
    ).contains(x) by {
        if x != la {
            assert((reach_of(s0, l2, hc) + reach_of(s0, r2, hc)).contains(x));
            assert(old_blocks.contains(x));
            if reach_of(s0, ln, hc).contains(x) {
                assert(reach(s0, la, hc).contains(x));
            } else {
                assert(reach(s0, ra, hc).contains(x));
            }
        }
    }
    assert forall|x: u64| #[trigger] reach(s1, ra, hc).contains(x) implies reach(s0, la, hc).contains(x) || reach(
        s0,
        ra,
        hc,
    ).contains(x) by {
        if x != ra {
            assert((reach_of(s0, l2, hc) + reach_of(s0, r2, hc)).contains(x));
            assert(old_blocks.contains(x));
            if reach_of(s0, ln, hc).contains(x) {
                assert(reach(s0, la, hc).contains(x));
            } else {
                assert(reach(s0, ra, hc).contains(x));
            }
        }
    }
    assert forall|x: u64|
        present(s0, x) && !reach(s0, la, hc).contains(x) && !reach(s0, ra, hc).contains(x) implies x < s1.len()
            && s1[x as int] == #[trigger] s0[x as int] by {}
    lemma_pair_replaced(s0, s1, n, n2, h, hc, lo, hi, m, m, a, nk);
    // the node itself
    assert forall|x: u64| #[trigger] reach_of(s1, n2, h).contains(x) implies x < s2.len() && s2[x as int] == s1[x as int] by {
        assert(reach_of(s0, n, h).contains(x));
        assert(reach(s0, pid, h).contains(x));
        assert(x != pid);
    }
    lemma_frame_node(s1, s2, n2, h, lo, hi, m);
    assert(node_at(s2, pid) == n2);
    assert(!reach_of(s2, n2, h).contains(pid));
    assert(wf_node(s2, pid, h, lo, hi, m));
    assert(entries(s2, pid, h) == entries_of(s2, n2, h));
    assert(reach(s2, pid, h) == set![pid] + reach_of(s2, n2, h));
}

/// Merging children `a` and `a + 1` of the node at block `pid`: when child
/// `a`'s block gets the node `l2` holding both children's contents (internal
/// nodes: with the separator between them), child `a + 1`'s block is
/// emptied, and the node drops that separator and child, the subtree at
/// `pid` stays well formed, holds the same entries and keeps to its former
/// blocks, of which the emptied one is no longer part.
#[verifier::rlimit(80)]
pub proof fn lemma_merge_step<K: TreeKey, V>(
    s0: Store<K, V>,
    s2: Store<K, V>,
    pid: u64,
    n2: UniversalNode<K, V>,
    a: int,
    l2: UniversalNode<K, V>,
    h: nat,
    lo: Option<int>,
    hi: Option<int>,
    m: nat,
)
    requires
        wf_node(s0, pid, h, lo, hi, m),
        h > 0,
        0 <= a,
        a + 1 < node_at(s0, pid).child_ids@.len(),
        (h == 1) ==> {
            &&& l2.keys@ == node_at(s0, node_at(s0, pid).child_ids@[a]).keys@ + node_at(
                s0,
                node_at(s0, pid).child_ids@[a + 1],
            ).keys@
            &&& l2.values@ == node_at(s0, node_at(s0, pid).child_ids@[a]).values@ + node_at(
                s0,
                node_at(s0, pid).child_ids@[a + 1],
            ).values@
            &&& l2.child_ids@.len() == 0
        },
        (h > 1) ==> {
            &&& l2.keys@ == node_at(s0, node_at(s0, pid).child_ids@[a]).keys@.push(node_at(s0, pid).keys@[a])
                + node_at(s0, node_at(s0, pid).child_ids@[a + 1]).keys@
            &&& l2.child_ids@ == node_at(s0, node_at(s0, pid).child_ids@[a]).child_ids@ + node_at(
                s0,
                node_at(s0, pid).child_ids@[a + 1],
            ).child_ids@
            &&& l2.values@.len() == 0
            &&& l2.next_leaf is None
        },
        l2.leaf() == (h == 1),
        l2.key_count as int == l2.keys@.len(),
        l2.keys@.len() <= m,
        n2.keys@ == node_at(s0, pid).keys@.remove(a),
        n2.child_ids@ == node_at(s0, pid).child_ids@.remove(a + 1),
        n2.well_shaped(),
        !n2.leaf(),
        s2 == s0.update(node_at(s0, pid).child_ids@[a] as int, Some(l2)).update(
            node_at(s0, pid).child_ids@[a + 1] as int,
            None,
        ).update(pid as int, Some(n2)),
    ensures
        wf_node(s2, pid, h, lo, hi, m),
        entries(s2, pid, h) == entries(s0, pid, h),
        forall|x: u64| #[trigger] reach(s2, pid, h).contains(x) ==> reach(s0, pid, h).contains(x),
        reach_of(s0, node_at(s0, pid), h).contains(node_at(s0, pid).child_ids@[a + 1]),
{
    let n = node_at(s0, pid);
    let hc = (h - 1) as nat;
    let cs = n.child_ids@;
    let la = cs[a];
    let ra = cs[a + 1];
    let ln = node_at(s0, la);
    let rn = node_at(s0, ra);
    let clo = child_lo(n, lo, a);
    let chi = child_hi(n, hi, a + 1);
    let ka = n.keys@[a];
    let sp = Some(ka.rank());
    assert(node_ok2(s0, n, h, lo, hi, m, m));
    lemma_internal(s0, n, h, hc, lo, hi, m, m);
    assert(child_hi(n, hi, a) == sp);
    assert(child_lo(n, lo, a + 1) == sp);
    assert(wf_node(s0, la, hc, clo, sp, m));
    assert(wf_node(s0, ra, hc, sp, chi, m));
    assert(reach(s0, la, hc).disjoint(reach(s0, ra, hc)));
    lemma_wf_facts(s0, la, hc, clo, sp, m);
    lemma_wf_facts(s0, ra, hc, sp, chi, m);
    lemma_wf_facts(s0, pid, h, lo, hi, m);
    assert(reach(s0, la, hc) == set![la] + reach_of(s0, ln, hc));
    assert(reach(s0, ra, hc) == set![ra] + reach_of(s0, rn, hc));
    assert(reach(s0, pid, h) == set![pid] + reach_of(s0, n, h));
    assert(reach(s0, cs[a + 1], hc).contains(ra));
    assert(in_bounds(ka.rank(), lo, hi));
    assert(in_bounds(ka.rank(), clo, chi)) by {
        if a + 1 < n.keys@.len() {
            assert(n.keys@[a].rank() < n.keys@[a + 1].rank());
        }
        if a > 0 {
            assert(n.keys@[a - 1].rank() < n.keys@[a].rank());
        }
    }
    assert(clo matches Some(x) ==> x < ka.rank()) by {
        if a > 0 {
            assert(n.keys@[a - 1].rank() < n.keys@[a].rank());
        } else {
            assert(n.keys@.len() > 0);
        }
    }
    // the merged child, as a node value
    if h == 1 {
        lemma_combine_leaves(s0, ln, rn, clo, ka.rank(), chi, m, m, l2, m);
        assert(reach_of(s0, ln, hc) =~= Set::<u64>::empty());
        assert(reach_of(s0, rn, hc) =~= Set::<u64>::empty());
        assert(reach_of(s0, l2, hc) =~= reach_of(s0, ln, hc) + reach_of(s0, rn, hc));
    } else {
        assert(node_ok2(s0, ln, hc, clo, sp, m, m));
        assert(node_ok2(s0, rn, hc, sp, chi, m, m));
        assert(reach_of(s0, ln, hc).disjoint(reach_of(s0, rn, hc))) by {
            assert forall|x: u64| reach_of(s0, ln, hc).contains(x) implies !reach_of(s0, rn, hc).contains(x) by {
                assert(reach(s0, la, hc).contains(x));
                if reach_of(s0, rn, hc).contains(x) {
                    assert(reach(s0, ra, hc).contains(x));
                }
            }
        }
        lemma_combine_internal(s0, ln, rn, ka, hc, (hc - 1) as nat, clo, chi, m, m, m, l2, m);
    }
    assert(node_ok(s0, l2, hc, clo, chi, m));
    assert(reach_of(s0, l2, hc) == reach_of(s0, ln, hc) + reach_of(s0, rn, hc));
    assert(entries_of(s0, l2, hc) == entries_of(s0, ln, hc).union_prefer_right(entries_of(s0, rn, hc)));
    // the store with the merged child
    let s1 = s0.update(la as int, Some(l2)).update(ra as int, None);
    assert(s2 == s1.update(pid as int, Some(n2)));
    assert(la != ra) by {
        assert(reach(s0, la, hc).contains(la));
    }
    let old_blocks = reach_of(s0, ln, hc) + reach_of(s0, rn, hc);
    assert forall|x: u64| old_blocks.contains(x) implies x != la && x != ra && x != pid && present(s0, x) by {
        if reach_of(s0, ln, hc).contains(x) {
            assert(reach(s0, la, hc).contains(x));
        } else {
            assert(reach(s0, ra, hc).contains(x));
        }
        assert(reach(s0, la, hc).contains(la));
        assert(reach(s0, ra, hc).contains(ra));
        assert(reach_of(s0, n, h).contains(x)) by {
            if reach_of(s0, ln, hc).contains(x) {
                assert(reach(s0, cs[a], hc).contains(x));
            } else {
                assert(reach(s0, cs[a + 1], hc).contains(x));
            }
        }
    }
    assert forall|x: u64| #[trigger] reach_of(s0, l2, hc).contains(x) implies x < s1.len() && s1[x as int] == s0[x as int] by {
        assert(old_blocks.contains(x));
    }
    lemma_frame_node(s0, s1, l2, hc, clo, chi, m);
    assert(node_at(s1, la) == l2);
    assert(!reach_of(s1, l2, hc).contains(la)) by {
        if reach_of(s1, l2, hc).contains(la) {
            assert(old_blocks.contains(la));
        }
    }
    assert(wf_node(s1, la, hc, clo, chi, m));
    assert(reach(s1, la, hc) == set![la] + reach_of(s1, l2, hc));
    assert(entries(s1, la, hc) == entries_of(s1, l2, hc));
    assert(entries(s0, la, hc) == entries_of(s0, ln, hc));
    assert(entries(s0, ra, hc) == entries_of(s0, rn, hc));
    assert forall|x: u64| #[trigger] reach(s1, la, hc).contains(x) implies reach(s0, la, hc).contains(x) || reach(
        s0,
        ra,
        hc,
    ).contains(x) by {
        if x != la {
            assert(old_blocks.contains(x));
            if reach_of(s0, ln, hc).contains(x) {
                assert(reach(s0, la, hc).contains(x));
            } else {
                assert(reach(s0, ra, hc).contains(x));
            }
        }
    }
    assert forall|x: u64|
        present(s0, x) && !reach(s0, la, hc).contains(x) && !reach(s0, ra, hc).contains(x) implies x < s1.len()
            && s1[x as int] == #[trigger] s0[x as int] by {}
    lemma_pair_merged(s0, s1, n, n2, h, hc, lo, hi, m, m, a);
    // the node itself
    assert forall|x: u64| #[trigger] reach_of(s1, n2, h).contains(x) implies x < s2.len() && s2[x as int] == s1[x as int] by {
        assert(reach_of(s0, n, h).contains(x));
        assert(reach(s0, pid, h).contains(x));
        assert(x != pid);
    }
    lemma_frame_node(s1, s2, n2, h, lo, hi, m);
    assert(node_at(s2, pid) == n2);
    assert(!reach_of(s2, n2, h).contains(pid));
    assert(wf_node(s2, pid, h, lo, hi, m));
    assert(entries(s2, pid, h) == entries_of(s2, n2, h));
    assert(reach(s2, pid, h) == set![pid] + reach_of(s2, n2, h));
    assert(reach_of(s0, n, h).contains(ra)) by {
        assert(reach(s0, cs[a + 1], hc).contains(ra));
    }
}

/// When the top node of a tree has no keys left, putting its only child's
/// node in its block and emptying the child's block gives a tree one level
/// lower with the same entries.
pub proof fn lemma_collapse_root<K: TreeKey, V>(s0: Store<K, V>, s2: Store<K, V>, rid: u64, h: nat, m: nat)
    requires
        wf_node(s0, rid, h, None, None, m),
        h > 0,
        node_at(s0, rid).keys@.len() == 0,
        s2 == s0.update(rid as int, Some(node_at(s0, node_at(s0, rid).child_ids@[0]))).update(
            node_at(s0, rid).child_ids@[0] as int,
            None,
        ),
    ensures
        wf_node(s2, rid, (h - 1) as nat, None, None, m),
        entries(s2, rid, (h - 1) as nat) == entries(s0, rid, h),
        reach_of(s0, node_at(s0, rid), h).contains(node_at(s0, rid).child_ids@[0]),
        forall|x: u64| #[trigger] reach(s2, rid, (h - 1) as nat).contains(x) ==> reach(s0, rid, h).contains(x),
{
    let n = node_at(s0, rid);
    let hc = (h - 1) as nat;
    let c = n.child_ids@[0];
    let cn = node_at(s0, c);
    assert(node_ok2(s0, n, h, None, None, m, m));
    lemma_internal(s0, n, h, hc, None, None, m, m);
    assert(child_lo(n, None, 0) == None::<int>);
    assert(child_hi(n, None, 0) == None::<int>);
    assert(wf_node(s0, c, hc, None, None, m));
    lemma_wf_facts(s0, c, hc, None, None, m);
    lemma_wf_facts(s0, rid, h, None, None, m);
    assert(reach(s0, c, hc) == set![c] + reach_of(s0, cn, hc));
    assert(reach(s0, rid, h) == set![rid] + reach_of(s0, n, h));
    assert(reach(s0, c, hc).contains(c));
    assert(reach_of(s0, n, h).contains(c)) by {
        assert(reach(s0, n.child_ids@[0], hc).contains(c));
    }
    assert forall|x: u64| #[trigger] reach_of(s0, cn, hc).contains(x) implies x < s2.len() && s2[x as int] == s0[x as int]
        by {
        assert(reach(s0, c, hc).contains(x));
        assert(reach_of(s0, n, h).contains(x)) by {
            assert(reach(s0, n.child_ids@[0], hc).contains(x));
        }
        assert(x != rid);
    }
    lemma_frame_node(s0, s2, cn, hc, None, None, m);
    assert(c != rid);
    assert(node_at(s2, rid) == cn);
    assert(!reach_of(s2, cn, hc).contains(rid));
    assert(wf_node(s2, rid, hc, None, None, m));
    assert(entries(s2, rid, hc) == entries_of(s2, cn, hc));
    assert(entries(s0, rid, h) == entries_of(s0, n, h));
    assert(entries_of(s0, n, h) == entries(s0, c, hc)) by {
        assert(n.child_ids@.len() == 1);
        assert(entries_of(s0, n, h) == entries_kids(s0, n.child_ids@, hc, 1));
        assert(entries_kids(s0, n.child_ids@, hc, 0) == Map::<int, V>::empty());
        assert(Map::<int, V>::empty().union_prefer_right(entries(s0, c, hc)) =~= entries(s0, c, hc));
    }
    assert(reach(s2, rid, hc) == set![rid] + reach_of(s2, cn, hc));
    assert forall|x: u64| #[trigger] reach(s2, rid, hc).contains(x) implies reach(s0, rid, h).contains(x) by {
        if x != rid {
            assert(reach(s0, c, hc).contains(x));
            assert(reach_of(s0, n, h).contains(x)) by {
                assert(reach(s0, n.child_ids@[0], hc).contains(x));
            }
        }
    }
}

} // verus!
