//! Ranges of keys, and what it takes for a list of entries to be the part
//! of a map that lies in a range.
use vstd::prelude::*;

use crate::key::TreeKey;

verus! {

/// One end of a range of keys.
pub enum KeyBound<K> {
    /// The range includes this key.
    Included(K),
    /// The range stops just short of this key.
    Excluded(K),
    /// The range does not end on this side.
    Unbounded,
}

/// A key of rank `x` is not before the range's start.
pub open spec fn above_start<K: TreeKey>(x: int, start: KeyBound<K>) -> bool {
    match start {
        KeyBound::Included(k) => k.rank() <= x,
        KeyBound::Excluded(k) => k.rank() < x,
        KeyBound::Unbounded => true,
    }
}

/// A key of rank `x` is not past the range's end.
pub open spec fn below_end<K: TreeKey>(x: int, end: KeyBound<K>) -> bool {
    match end {
        KeyBound::Included(k) => x <= k.rank(),
        KeyBound::Excluded(k) => x < k.rank(),
        KeyBound::Unbounded => true,
    }
}

/// A key of rank `x` lies in the range from `start` to `end`.
pub open spec fn in_key_range<K: TreeKey>(x: int, start: KeyBound<K>, end: KeyBound<K>) -> bool {
    above_start(x, start) && below_end(x, end)
}

/// `out` lists, in increasing key order, exactly the entries of `e` whose
/// keys lie in the range, each with a clone of its value.
pub open spec fn range_listing<K: TreeKey, V: Clone>(
    e: Map<int, V>,
    start: KeyBound<K>,
    end: KeyBound<K>,
    out: Seq<(K, V)>,
) -> bool {
    &&& forall|i: int, j: int| 0 <= i < j < out.len() ==> #[trigger] out[i].0.rank() < #[trigger] out[j].0.rank()
    &&& forall|i: int|
        0 <= i < out.len() ==> in_key_range(#[trigger] out[i].0.rank(), start, end) && e.contains_key(out[i].0.rank())
            && cloned::<V>(e[out[i].0.rank()], out[i].1)
    &&& forall|x: int|
        e.contains_key(x) && in_key_range(x, start, end) ==> exists|i: int| 0 <= i < out.len() && #[trigger] out[i].0.rank() == x
}

/// `r` is the entry of `e` with the least key in the range, with a clone of
/// its value, or `None` when no key of `e` lies in the range.
pub open spec fn range_first<K: TreeKey, V: Clone>(
    e: Map<int, V>,
    start: KeyBound<K>,
    end: KeyBound<K>,
    r: Option<(K, V)>,
) -> bool {
    match r {
        Some(p) => {
            &&& e.contains_key(p.0.rank())
            &&& in_key_range(p.0.rank(), start, end)
            &&& cloned::<V>(e[p.0.rank()], p.1)
            &&& forall|y: int| #[trigger] e.contains_key(y) && in_key_range(y, start, end) ==> p.0.rank() <= y
        },
        None => forall|y: int| #[trigger] e.contains_key(y) ==> !in_key_range(y, start, end),
    }
}

/// Every entry of `out` lies below every key of the range from `lo` on
/// (with no lower bound, `out` is empty).
pub open spec fn below_range<K: TreeKey, V>(out: Seq<(K, V)>, lo: Option<int>) -> bool {
    forall|i: int| 0 <= i < out.len() ==> (lo matches Some(l) && #[trigger] out[i].0.rank() < l)
}

/// Whether a key is not before the range's start.
pub fn is_above_start<K: TreeKey>(key: &K, start: &KeyBound<K>) -> (r: bool)
    ensures
        r == above_start(key.rank(), *start),
{
    match start {
        KeyBound::Included(k) => !key.key_less(k),
        KeyBound::Excluded(k) => k.key_less(key),
        KeyBound::Unbounded => true,
    }
}

/// Whether a key is not past the range's end.
pub fn is_below_end<K: TreeKey>(key: &K, end: &KeyBound<K>) -> (r: bool)
    ensures
        r == below_end(key.rank(), *end),
{
    match end {
        KeyBound::Included(k) => !k.key_less(key),
        KeyBound::Excluded(k) => key.key_less(k),
        KeyBound::Unbounded => true,
    }
}

/// The empty listing is that of the empty map.
pub proof fn lemma_listing_empty<K: TreeKey, V: Clone>(start: KeyBound<K>, end: KeyBound<K>)
    ensures
        range_listing(Map::<int, V>::empty(), start, end, Seq::<(K, V)>::empty()),
{
}

/// Adding an entry in the range whose key lies above all listed keys adds it
/// at the end of the listing.
pub proof fn lemma_listing_push<K: TreeKey, V: Clone>(
    e: Map<int, V>,
    start: KeyBound<K>,
    end: KeyBound<K>,
    p: Seq<(K, V)>,
    key: K,
    v: V,
    c: V,
)
    requires
        range_listing(e, start, end, p),
        forall|i: int| 0 <= i < p.len() ==> #[trigger] p[i].0.rank() < key.rank(),
        in_key_range(key.rank(), start, end),
        cloned::<V>(v, c),
    ensures
        range_listing(e.insert(key.rank(), v), start, end, p.push((key, c))),
{
    let q = p.push((key, c));
    let e2 = e.insert(key.rank(), v);
    assert forall|i: int, j: int| 0 <= i < j < q.len() implies #[trigger] q[i].0.rank() < #[trigger] q[j].0.rank() by {
        if j < p.len() {
            assert(q[i] == p[i] && q[j] == p[j]);
        } else {
            assert(q[i] == p[i]);
        }
    }
    assert forall|i: int| 0 <= i < q.len() implies in_key_range(#[trigger] q[i].0.rank(), start, end)
        && e2.contains_key(q[i].0.rank()) && cloned::<V>(e2[q[i].0.rank()], q[i].1) by {
        if i < p.len() {
            assert(q[i] == p[i]);
            assert(p[i].0.rank() < key.rank());
        }
    }
    assert forall|x: int| e2.contains_key(x) && in_key_range(x, start, end) implies exists|i: int|
        0 <= i < q.len() && #[trigger] q[i].0.rank() == x by {
        if x == key.rank() {
            assert(q[p.len() as int].0.rank() == x);
        } else {
            let i = choose|i: int| 0 <= i < p.len() && #[trigger] p[i].0.rank() == x;
            assert(q[i] == p[i]);
        }
    }
}

/// An entry outside the range leaves the listing as it is.
pub proof fn lemma_listing_skip<K: TreeKey, V: Clone>(
    e: Map<int, V>,
    start: KeyBound<K>,
    end: KeyBound<K>,
    p: Seq<(K, V)>,
    k: int,
    v: V,
)
    requires
        range_listing(e, start, end, p),
        !in_key_range(k, start, end),
    ensures
        range_listing(e.insert(k, v), start, end, p),
{
    let e2 = e.insert(k, v);
    assert forall|i: int| 0 <= i < p.len() implies in_key_range(#[trigger] p[i].0.rank(), start, end)
        && e2.contains_key(p[i].0.rank()) && cloned::<V>(e2[p[i].0.rank()], p[i].1) by {}
    assert forall|x: int| e2.contains_key(x) && in_key_range(x, start, end) implies exists|i: int|
        0 <= i < p.len() && #[trigger] p[i].0.rank() == x by {
        assert(e.contains_key(x));
    }
}

/// The listings of two maps with disjoint keys, the second's keys all above
/// the first's, together list the union of the maps.
pub proof fn lemma_listing_concat<K: TreeKey, V: Clone>(
    e: Map<int, V>,
    f: Map<int, V>,
    start: KeyBound<K>,
    end: KeyBound<K>,
    p: Seq<(K, V)>,
    q: Seq<(K, V)>,
)
    requires
        range_listing(e, start, end, p),
        range_listing(f, start, end, q),
        forall|i: int, j: int| 0 <= i < p.len() && 0 <= j < q.len() ==> #[trigger] p[i].0.rank() < #[trigger] q[j].0.rank(),
        forall|x: int| #[trigger] e.contains_key(x) ==> !f.contains_key(x),
    ensures
        range_listing(e.union_prefer_right(f), start, end, p + q),
{
    let r = p + q;
    let u = e.union_prefer_right(f);
    let np = p.len() as int;
    assert forall|i: int, j: int| 0 <= i < j < r.len() implies #[trigger] r[i].0.rank() < #[trigger] r[j].0.rank() by {
        if j < np {
            assert(r[i] == p[i] && r[j] == p[j]);
        } else if i >= np {
            assert(r[i] == q[i - np] && r[j] == q[j - np]);
        } else {
            assert(r[i] == p[i] && r[j] == q[j - np]);
        }
    }
    assert forall|i: int| 0 <= i < r.len() implies in_key_range(#[trigger] r[i].0.rank(), start, end)
        && u.contains_key(r[i].0.rank()) && cloned::<V>(u[r[i].0.rank()], r[i].1) by {
        if i < np {
            assert(r[i] == p[i]);
            assert(e.contains_key(p[i].0.rank()));
        } else {
            assert(r[i] == q[i - np]);
        }
    }
    assert forall|x: int| u.contains_key(x) && in_key_range(x, start, end) implies exists|i: int|
        0 <= i < r.len() && #[trigger] r[i].0.rank() == x by {
        if f.contains_key(x) {
            let j = choose|j: int| 0 <= j < q.len() && #[trigger] q[j].0.rank() == x;
            assert(r[j + np] == q[j]);
        } else {
            let i = choose|i: int| 0 <= i < p.len() && #[trigger] p[i].0.rank() == x;
            assert(r[i] == p[i]);
        }
    }
}

/// A listing of one map is a listing of any map that agrees with it on the
/// range.
pub proof fn lemma_listing_agree<K: TreeKey, V: Clone>(
    e: Map<int, V>,
    f: Map<int, V>,
    start: KeyBound<K>,
    end: KeyBound<K>,
    p: Seq<(K, V)>,
)
    requires
        range_listing(e, start, end, p),
        forall|x: int|
            in_key_range(x, start, end) ==> (#[trigger] e.contains_key(x) == f.contains_key(x)) && (e.contains_key(x)
                ==> e[x] == f[x]),
    ensures
        range_listing(f, start, end, p),
{
    assert forall|i: int| 0 <= i < p.len() implies in_key_range(#[trigger] p[i].0.rank(), start, end)
        && f.contains_key(p[i].0.rank()) && cloned::<V>(f[p[i].0.rank()], p[i].1) by {
        assert(e.contains_key(p[i].0.rank()));
    }
    assert forall|x: int| f.contains_key(x) && in_key_range(x, start, end) implies exists|i: int|
        0 <= i < p.len() && #[trigger] p[i].0.rank() == x by {
        assert(e.contains_key(x));
    }
}

} // verus!
