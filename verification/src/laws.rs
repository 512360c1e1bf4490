//! What holds of the tree's and the nodes' operations taken together, stated
//! over the maps and node contents that their contracts speak of.
use vstd::prelude::*;

use crate::key::{byte_rank, lemma_byte_rank_order, string_weight, TreeKey};
use vstd::utf8::{encode_utf8, encode_utf8_decode_utf8};
use crate::node::UniversalNode;
use crate::range::{above_start, range_first, range_listing, KeyBound};
use crate::tree::map_get;

verus! {

/// What `insert` (or `upsert`) stored under a key is what `get` then finds
/// there; every other key keeps its value.
pub proof fn law_get_after_insert<V>(before: Map<int, V>, after: Map<int, V>, k: int, v: V)
    requires
        after == before.insert(k, v),
    ensures
        map_get(after, k) == Some(v),
        forall|x: int| x != k ==> #[trigger] map_get(after, x) == map_get(before, x),
{
}

/// Deleting a key that an insertion added to the tree gives back the tree's
/// former entries, and the deletion returns the inserted value.
pub proof fn law_delete_undoes_insert<V>(before: Map<int, V>, inserted: Map<int, V>, after: Map<int, V>, k: int, v: V)
    requires
        !before.contains_key(k),
        inserted == before.insert(k, v),
        after == inserted.remove(k),
    ensures
        after == before,
        map_get(inserted, k) == Some(v),
{
    assert(after =~= before);
}

/// After a deletion the key is absent, and the other keys keep their
/// values.
pub proof fn law_get_after_delete<V>(before: Map<int, V>, after: Map<int, V>, k: int)
    requires
        after == before.remove(k),
    ensures
        map_get(after, k) is None,
        forall|x: int| x != k ==> #[trigger] map_get(after, x) == map_get(before, x),
{
}

/// An insertion adds one entry exactly when the key was absent; a deletion
/// removes one exactly when it was present.
pub proof fn law_len_after_insert_and_delete<V>(m: Map<int, V>, k: int, v: V)
    requires
        m.dom().finite(),
    ensures
        m.insert(k, v).len() == (if m.contains_key(k) {
            m.len()
        } else {
            m.len() + 1
        }),
        m.remove(k).len() == (if m.contains_key(k) {
            m.len() - 1
        } else {
            m.len() as int
        }),
{
    if m.contains_key(k) {
        assert(m.insert(k, v).dom() =~= m.dom());
        m.lemma_remove_key_len(k);
    } else {
        assert(m.remove(k).dom() =~= m.dom());
    }
}

/// `update` of an absent key leaves the entries as they were; of a present
/// key it is an insertion.
pub proof fn law_update_is_conditional_insert<V>(m: Map<int, V>, k: int, v: V)
    ensures
        !m.contains_key(k) ==> (if m.contains_key(k) {
            m.insert(k, v)
        } else {
            m
        }) == m,
        m.contains_key(k) ==> map_get(m.insert(k, v), k) == Some(v),
{
}

/// A range with no bounds lists every entry of the tree exactly once, so its
/// length is the number of entries.
pub proof fn law_full_range_lists_every_entry<K: TreeKey, V: Clone>(e: Map<int, V>, out: Seq<(K, V)>)
    requires
        e.dom().finite(),
        range_listing(e, KeyBound::Unbounded, KeyBound::Unbounded, out),
    ensures
        out.len() == e.len(),
        forall|x: int| e.contains_key(x) <==> exists|i: int| 0 <= i < out.len() && #[trigger] out[i].0.rank() == x,
{
    let ranks = out.map_values(|p: (K, V)| p.0.rank());
    assert(ranks.no_duplicates()) by {
        assert forall|i: int, j: int| 0 <= i < ranks.len() && 0 <= j < ranks.len() && i != j implies ranks[i]
            != ranks[j] by {
            if i < j {
                assert(out[i].0.rank() < out[j].0.rank());
            } else {
                assert(out[j].0.rank() < out[i].0.rank());
            }
        }
    }
    assert(ranks.to_set() =~= e.dom()) by {
        assert forall|x: int| ranks.to_set().contains(x) implies e.dom().contains(x) by {
            let i = choose|i: int| 0 <= i < ranks.len() && ranks[i] == x;
            assert(out[i].0.rank() == x);
        }
        assert forall|x: int| e.dom().contains(x) implies ranks.to_set().contains(x) by {
            let i = choose|i: int| 0 <= i < out.len() && #[trigger] out[i].0.rank() == x;
            assert(ranks[i] == x);
        }
    }
    ranks.unique_seq_to_set();
    assert forall|x: int| e.contains_key(x) implies exists|i: int| 0 <= i < out.len() && #[trigger] out[i].0.rank() == x by {}
}

/// Merging the two halves of a split node, with the key that the split
/// gave, rebuilds the node: same keys, values, children and next leaf.
pub proof fn law_absorb_undoes_split<K: TreeKey, V>(
    n: UniversalNode<K, V>,
    left: UniversalNode<K, V>,
    right: UniversalNode<K, V>,
    sep: K,
    merged: UniversalNode<K, V>,
)
    requires
        n.well_shaped(),
        n.keys@.len() >= 2,
        sep == n.keys@[(n.keys@.len() / 2) as int],
        left.node_type == n.node_type,
        left.next_leaf == n.next_leaf,
        n.leaf() ==> {
            &&& left.keys@ == n.keys@.subrange(0, (n.keys@.len() / 2) as int)
            &&& right.keys@ == n.keys@.subrange((n.keys@.len() / 2) as int, n.keys@.len() as int)
            &&& left.values@ == n.values@.subrange(0, (n.keys@.len() / 2) as int)
            &&& right.values@ == n.values@.subrange((n.keys@.len() / 2) as int, n.values@.len() as int)
            &&& left.child_ids@ == n.child_ids@
            &&& right.child_ids@.len() == 0
            &&& right.next_leaf == n.next_leaf
        },
        !n.leaf() ==> {
            &&& left.keys@ == n.keys@.subrange(0, (n.keys@.len() / 2) as int)
            &&& right.keys@ == n.keys@.subrange((n.keys@.len() / 2) as int + 1, n.keys@.len() as int)
            &&& left.child_ids@ == n.child_ids@.subrange(0, (n.keys@.len() / 2) as int + 1)
            &&& right.child_ids@ == n.child_ids@.subrange((n.keys@.len() / 2) as int + 1, n.child_ids@.len() as int)
            &&& left.values@ == n.values@
            &&& right.values@.len() == 0
        },
        merged.keys@ == (if left.leaf() {
            left.keys@ + right.keys@
        } else {
            left.keys@.push(sep) + right.keys@
        }),
        merged.values@ == left.values@ + right.values@,
        merged.child_ids@ == left.child_ids@ + right.child_ids@,
        merged.next_leaf == (if left.leaf() {
            right.next_leaf
        } else {
            left.next_leaf
        }),
        merged.node_type == left.node_type,
    ensures
        merged.keys@ == n.keys@,
        merged.values@ == n.values@,
        merged.child_ids@ == n.child_ids@,
        merged.next_leaf == n.next_leaf,
        merged.node_type == n.node_type,
{
    let s = (n.keys@.len() / 2) as int;
    if n.leaf() {
        assert(merged.keys@ =~= n.keys@);
        assert(merged.values@ =~= n.values@);
        assert(merged.child_ids@ =~= n.child_ids@);
    } else {
        assert(merged.keys@ =~= n.keys@);
        assert(merged.values@ =~= n.values@);
        assert(merged.child_ids@ =~= n.child_ids@);
    }
}

/// Moving an entry from a leaf to its right neighbour, or from the right
/// neighbour to it, keeps the two leaves' entries and their order; the new
/// separator is the right leaf's first key.
pub proof fn law_leaf_borrow_keeps_entries<K: TreeKey, V>(
    left: Seq<K>,
    right: Seq<K>,
    left_vals: Seq<V>,
    right_vals: Seq<V>,
    left2: Seq<K>,
    right2: Seq<K>,
    left_vals2: Seq<V>,
    right_vals2: Seq<V>,
)
    requires
        left.len() > 0,
        left_vals.len() == left.len(),
        right_vals.len() == right.len(),
        // borrow_from_left on the right leaf, or borrow_from_right on the left one
        (left2 == left.drop_last() && right2 == seq![left.last()].add(right) && left_vals2 == left_vals.drop_last()
            && right_vals2 == seq![left_vals.last()].add(right_vals)) || (right.len() > 0 && left2 == left.push(right[0])
            && right2 == right.drop_first() && left_vals2 == left_vals.push(right_vals[0]) && right_vals2
            == right_vals.drop_first()),
    ensures
        left2 + right2 == left + right,
        left_vals2 + right_vals2 == left_vals + right_vals,
{
    assert(left2 + right2 =~= left + right);
    assert(left_vals2 + right_vals2 =~= left_vals + right_vals);
}

/// A walk through a range gives the range's listing: the entry that `next`
/// gives is the first of the listing, and the rest of the listing is the
/// listing of the range that starts just after it; when `next` gives
/// nothing, the listing is empty.
pub proof fn law_walk_follows_the_listing<K: TreeKey, V: Clone>(
    e: Map<int, V>,
    start: KeyBound<K>,
    end: KeyBound<K>,
    out: Seq<(K, V)>,
    r: Option<(K, V)>,
)
    requires
        range_listing(e, start, end, out),
        range_first(e, start, end, r),
    ensures
        r is None <==> out.len() == 0,
        r matches Some(p) ==> out[0].0.rank() == p.0.rank() && range_listing(
            e,
            KeyBound::Excluded(p.0),
            end,
            out.drop_first(),
        ),
{
    match r {
        None => {
            if out.len() > 0 {
                assert(e.contains_key(out[0].0.rank()));
            }
        },
        Some(p) => {
            let k = p.0.rank();
            let i = choose|i: int| 0 <= i < out.len() && #[trigger] out[i].0.rank() == k;
            assert(e.contains_key(out[0].0.rank()));
            if i > 0 {
                assert(out[0].0.rank() < out[i].0.rank());
            }
            assert(out[0].0.rank() == k);
            let rest = out.drop_first();
            let s2 = KeyBound::Excluded(p.0);
            assert forall|a: int, b: int| 0 <= a < b < rest.len() implies #[trigger] rest[a].0.rank()
                < #[trigger] rest[b].0.rank() by {
                assert(rest[a] == out[a + 1] && rest[b] == out[b + 1]);
            }
            assert forall|a: int| 0 <= a < rest.len() implies crate::range::in_key_range(
                #[trigger] rest[a].0.rank(),
                s2,
                end,
            ) && e.contains_key(rest[a].0.rank()) && cloned::<V>(e[rest[a].0.rank()], rest[a].1) by {
                assert(rest[a] == out[a + 1]);
                assert(out[0].0.rank() < out[a + 1].0.rank());
            }
            assert forall|x: int| e.contains_key(x) && crate::range::in_key_range(x, s2, end) implies exists|a: int|
                0 <= a < rest.len() && #[trigger] rest[a].0.rank() == x by {
                assert(above_start(x, start));
                let j = choose|j: int| 0 <= j < out.len() && #[trigger] out[j].0.rank() == x;
                assert(j != 0);
                assert(rest[j - 1] == out[j]);
            }
        },
    }
}

/// `u8` keys are ranked by their numeric value: a key sorts before another
/// exactly when it is smaller, and two keys are the same key exactly when
/// they are equal.
pub proof fn law_u8_keys_in_numeric_order(a: u8, b: u8)
    ensures
        (a < b) == (a.rank() < b.rank()),
        (a == b) == (a.rank() == b.rank()),
{
}

/// `u16` keys are ranked by their numeric value: a key sorts before another
/// exactly when it is smaller, and two keys are the same key exactly when
/// they are equal.
pub proof fn law_u16_keys_in_numeric_order(a: u16, b: u16)
    ensures
        (a < b) == (a.rank() < b.rank()),
        (a == b) == (a.rank() == b.rank()),
{
}

/// `u32` keys are ranked by their numeric value: a key sorts before another
/// exactly when it is smaller, and two keys are the same key exactly when
/// they are equal.
pub proof fn law_u32_keys_in_numeric_order(a: u32, b: u32)
    ensures
        (a < b) == (a.rank() < b.rank()),
        (a == b) == (a.rank() == b.rank()),
{
}

/// `u64` keys are ranked by their numeric value: a key sorts before another
/// exactly when it is smaller, and two keys are the same key exactly when
/// they are equal.
pub proof fn law_u64_keys_in_numeric_order(a: u64, b: u64)
    ensures
        (a < b) == (a.rank() < b.rank()),
        (a == b) == (a.rank() == b.rank()),
{
}

/// `usize` keys are ranked by their numeric value: a key sorts before another
/// exactly when it is smaller, and two keys are the same key exactly when
/// they are equal.
pub proof fn law_usize_keys_in_numeric_order(a: usize, b: usize)
    ensures
        (a < b) == (a.rank() < b.rank()),
        (a == b) == (a.rank() == b.rank()),
{
}

/// `i32` keys are ranked by their numeric value: a key sorts before another
/// exactly when it is smaller, and two keys are the same key exactly when
/// they are equal.
pub proof fn law_i32_keys_in_numeric_order(a: i32, b: i32)
    ensures
        (a < b) == (a.rank() < b.rank()),
        (a == b) == (a.rank() == b.rank()),
{
}

/// `i64` keys are ranked by their numeric value: a key sorts before another
/// exactly when it is smaller, and two keys are the same key exactly when
/// they are equal.
pub proof fn law_i64_keys_in_numeric_order(a: i64, b: i64)
    ensures
        (a < b) == (a.rank() < b.rank()),
        (a == b) == (a.rank() == b.rank()),
{
}

/// A walk through a tree of `i64` keys, or a range listing of it, gives the
/// entries in increasing numeric key order.
pub proof fn law_i64_listing_in_numeric_order<V: Clone>(
    e: Map<int, V>,
    start: KeyBound<i64>,
    end: KeyBound<i64>,
    out: Seq<(i64, V)>,
)
    requires
        range_listing(e, start, end, out),
    ensures
        forall|i: int, j: int| 0 <= i < j < out.len() ==> #[trigger] out[i].0 < #[trigger] out[j].0,
{
    assert forall|i: int, j: int| 0 <= i < j < out.len() implies #[trigger] out[i].0 < #[trigger] out[j].0 by {
        assert(out[i].0.rank() < out[j].0.rank());
        law_i64_keys_in_numeric_order(out[i].0, out[j].0);
    }
}

/// `a` and `b` agree before position `k`, where `a` has the smaller byte or
/// has ended while `b` goes on.
pub open spec fn first_smaller_at(a: Seq<u8>, b: Seq<u8>, k: int) -> bool {
    &&& 0 <= k <= a.len()
    &&& k <= b.len()
    &&& forall|j: int| 0 <= j < k ==> a[j] == b[j]
    &&& (k < a.len() && k < b.len() && a[k] < b[k]) || (k == a.len() && k < b.len())
}

/// Byte string `a` sorts before `b`: at the first position where they
/// differ `a` has the smaller byte, or `a` is a proper prefix of `b`.
pub open spec fn bytes_before(a: Seq<u8>, b: Seq<u8>) -> bool {
    exists|k: int| #[trigger] first_smaller_at(a, b, k)
}

/// The first position, from `i` on, where `a` and `b` differ, or the end of
/// the shorter one.
proof fn first_difference(a: Seq<u8>, b: Seq<u8>, i: nat) -> (k: nat)
    requires
        i <= a.len(),
        i <= b.len(),
        forall|j: int| 0 <= j < i ==> a[j] == b[j],
    ensures
        i <= k <= a.len(),
        k <= b.len(),
        forall|j: int| 0 <= j < k ==> a[j] == b[j],
        k < a.len() && k < b.len() ==> a[k as int] != b[k as int],
    decreases a.len() - i,
{
    if i < a.len() && i < b.len() && a[i as int] == b[i as int] {
        first_difference(a, b, i + 1)
    } else {
        i
    }
}

/// `String` keys are ranked by their UTF-8 bytes, as `String`'s order
/// compares them: a string sorts before another exactly when its bytes come
/// first byte by byte (a prefix first), and two strings are the same key
/// exactly when they hold the same characters. Holds of every string whose
/// length in bytes a `usize` can count.
pub proof fn law_string_keys_in_byte_order(a: String, b: String)
    requires
        encode_utf8(a@).len() <= usize::MAX,
        encode_utf8(b@).len() <= usize::MAX,
    ensures
        (a.rank() < b.rank()) == bytes_before(encode_utf8(a@), encode_utf8(b@)),
        (a.rank() == b.rank()) == (a@ == b@),
{
    let x = encode_utf8(a@);
    let y = encode_utf8(b@);
    let k = first_difference(x, y, 0);
    lemma_byte_rank_order(x, y, k, string_weight());
    if bytes_before(x, y) {
        let w = choose|w: int| #[trigger] first_smaller_at(x, y, w);
        lemma_byte_rank_order(x, y, w as nat, string_weight());
    }
    if a.rank() < b.rank() {
        assert(bytes_before(x, y)) by {
            if !(k < x.len() && k < y.len()) {
                assert(k == x.len());
            }
            assert(first_smaller_at(x, y, k as int));
        }
    }
    if a.rank() == b.rank() {
        assert(x =~= y);
        encode_utf8_decode_utf8(a@);
        encode_utf8_decode_utf8(b@);
    }
}

} // verus!
