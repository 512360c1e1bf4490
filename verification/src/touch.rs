//! The record of touched blocks: which blocks a change has to write back.
use vstd::prelude::*;

use crate::model::Store;
use crate::node::UniversalNode;
use crate::storage::BlockId;

verus! {

/// The contents of block `id`; a block past the end holds no node.
pub open spec fn slot<K, V>(s: Store<K, V>, id: BlockId) -> Option<UniversalNode<K, V>> {
    if id < s.len() {
        s[id as int]
    } else {
        None
    }
}

/// Going from blocks `s0` with record `t0` to blocks `s1` with record `t1`
/// kept `t0`, in order, at the front of `t1`, and listed in `t1` every block
/// whose contents changed.
#[verifier::opaque]
pub open spec fn touch_ok<K, V>(s0: Store<K, V>, t0: Seq<BlockId>, s1: Store<K, V>, t1: Seq<BlockId>) -> bool {
    &&& t0.len() <= t1.len()
    &&& t1.subrange(0, t0.len() as int) == t0
    &&& forall|id: BlockId| #[trigger] slot(s1, id) != slot(s0, id) ==> t1.contains(id)
}

/// Every record that covered the changes up to blocks `s0` with record `t0`
/// still covers them up to blocks `s1` with record `t1`.
pub open spec fn keeps_touch<K, V>(s0: Store<K, V>, t0: Seq<BlockId>, s1: Store<K, V>, t1: Seq<BlockId>) -> bool {
    forall|s: Store<K, V>, t: Seq<BlockId>| touch_ok(s, t, s0, t0) ==> #[trigger] touch_ok(s, t, s1, t1)
}

/// No change needs no record.
pub proof fn lemma_touch_refl<K, V>(s: Store<K, V>, t: Seq<BlockId>)
    ensures
        touch_ok(s, t, s, t),
{
    reveal(touch_ok);
    assert(t.subrange(0, t.len() as int) =~= t);
}

/// Two recorded changes in a row are a recorded change.
pub proof fn lemma_touch_trans<K, V>(
    s0: Store<K, V>,
    t0: Seq<BlockId>,
    s1: Store<K, V>,
    t1: Seq<BlockId>,
    s2: Store<K, V>,
    t2: Seq<BlockId>,
)
    requires
        touch_ok(s0, t0, s1, t1),
        touch_ok(s1, t1, s2, t2),
    ensures
        touch_ok(s0, t0, s2, t2),
{
    reveal(touch_ok);
    assert(t2.subrange(0, t0.len() as int) =~= t0) by {
        assert forall|i: int| 0 <= i < t0.len() implies t2[i] == t0[i] by {
            assert(t2.subrange(0, t1.len() as int)[i] == t2[i]);
            assert(t1.subrange(0, t0.len() as int)[i] == t1[i]);
        }
    }
    assert forall|id: BlockId| #[trigger] slot(s2, id) != slot(s0, id) implies t2.contains(id) by {
        if slot(s1, id) != slot(s0, id) {
            assert(t1.contains(id));
            let i = choose|i: int| 0 <= i < t1.len() && t1[i] == id;
            assert(t2.subrange(0, t1.len() as int)[i] == t2[i]);
        } else {
            assert(slot(s2, id) != slot(s1, id));
        }
    }
}

/// A recorded change stays recorded when the record grows.
pub proof fn lemma_touch_record<K, V>(
    s0: Store<K, V>,
    t0: Seq<BlockId>,
    s1: Store<K, V>,
    t1: Seq<BlockId>,
    id: BlockId,
)
    requires
        touch_ok(s0, t0, s1, t1),
    ensures
        touch_ok(s0, t0, s1, t1.push(id)),
{
    reveal(touch_ok);
    let t2 = t1.push(id);
    assert(t2.subrange(0, t0.len() as int) =~= t0) by {
        assert forall|i: int| 0 <= i < t0.len() implies t2[i] == t0[i] by {
            assert(t1.subrange(0, t0.len() as int)[i] == t1[i]);
        }
    }
    assert forall|x: BlockId| #[trigger] slot(s1, x) != slot(s0, x) implies t2.contains(x) by {
        let i = choose|i: int| 0 <= i < t1.len() && t1[i] == x;
        assert(t2[i] == x);
    }
}

/// Writing block `id` and recording it keeps the changes recorded.
pub proof fn lemma_touch_write<K, V>(
    s0: Store<K, V>,
    t0: Seq<BlockId>,
    s1: Store<K, V>,
    t1: Seq<BlockId>,
    id: BlockId,
    c: Option<UniversalNode<K, V>>,
)
    requires
        touch_ok(s0, t0, s1, t1),
        id < s1.len(),
    ensures
        touch_ok(s0, t0, s1.update(id as int, c), t1.push(id)),
{
    lemma_touch_record(s0, t0, s1, t1, id);
    reveal(touch_ok);
    let s2 = s1.update(id as int, c);
    let t2 = t1.push(id);
    assert forall|x: BlockId| #[trigger] slot(s2, x) != slot(s0, x) implies t2.contains(x) by {
        if x == id {
            assert(t2[t1.len() as int] == x);
        } else {
            assert(slot(s2, x) == slot(s1, x));
        }
    }
}

/// A new empty block at the end changes no block's contents.
pub proof fn lemma_touch_grow<K, V>(s0: Store<K, V>, t0: Seq<BlockId>, s1: Store<K, V>, t1: Seq<BlockId>)
    requires
        touch_ok(s0, t0, s1, t1),
    ensures
        touch_ok(s0, t0, s1.push(None), t1),
{
    reveal(touch_ok);
    let s2 = s1.push(None);
    assert forall|x: BlockId| #[trigger] slot(s2, x) != slot(s0, x) implies t1.contains(x) by {
        assert(slot(s2, x) == slot(s1, x));
    }
}

} // verus!
