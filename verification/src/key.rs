use vstd::prelude::*;
use vstd::arithmetic::power::{lemma_pow_positive, pow};
use vstd::utf8::encode_utf8;

verus! {

/// Keys that the tree can order.
///
/// Each key has a rank, an integer that places it in the order the tree
/// keeps: a key sorts before another exactly when its rank is smaller, and the
/// tree treats two keys with the same rank as the same key.
pub trait TreeKey: Sized {
    /// The key's place in the order.
    spec fn rank(&self) -> int;

    /// Whether `self` sorts strictly before `other`.
    fn key_less(&self, other: &Self) -> (r: bool)
        ensures
            r == (self.rank() < other.rank()),
    ;

    /// Whether `self` and `other` are the same key.
    fn key_equal(&self, other: &Self) -> (r: bool)
        ensures
            r == (self.rank() == other.rank()),
    ;

    /// A copy of the key.
    fn copy_key(&self) -> (r: Self)
        ensures
            r == *self,
    ;
}

impl TreeKey for u8 {
    open spec fn rank(&self) -> int {
        *self as int
    }

    fn key_less(&self, other: &Self) -> (r: bool) {
        *self < *other
    }

    fn key_equal(&self, other: &Self) -> (r: bool) {
        *self == *other
    }

    fn copy_key(&self) -> (r: Self) {
        *self
    }
}

impl TreeKey for u16 {
    open spec fn rank(&self) -> int {
        *self as int
    }

    fn key_less(&self, other: &Self) -> (r: bool) {
        *self < *other
    }

    fn key_equal(&self, other: &Self) -> (r: bool) {
        *self == *other
    }

    fn copy_key(&self) -> (r: Self) {
        *self
    }
}

impl TreeKey for u32 {
    open spec fn rank(&self) -> int {
        *self as int
    }

    fn key_less(&self, other: &Self) -> (r: bool) {
        *self < *other
    }

    fn key_equal(&self, other: &Self) -> (r: bool) {
        *self == *other
    }

    fn copy_key(&self) -> (r: Self) {
        *self
    }
}

impl TreeKey for u64 {
    open spec fn rank(&self) -> int {
        *self as int
    }

    fn key_less(&self, other: &Self) -> (r: bool) {
        *self < *other
    }

    fn key_equal(&self, other: &Self) -> (r: bool) {
        *self == *other
    }

    fn copy_key(&self) -> (r: Self) {
        *self
    }
}

impl TreeKey for usize {
    open spec fn rank(&self) -> int {
        *self as int
    }

    fn key_less(&self, other: &Self) -> (r: bool) {
        *self < *other
    }

    fn key_equal(&self, other: &Self) -> (r: bool) {
        *self == *other
    }

    fn copy_key(&self) -> (r: Self) {
        *self
    }
}

impl TreeKey for i32 {
    open spec fn rank(&self) -> int {
        *self as int
    }

    fn key_less(&self, other: &Self) -> (r: bool) {
        *self < *other
    }

    fn key_equal(&self, other: &Self) -> (r: bool) {
        *self == *other
    }

    fn copy_key(&self) -> (r: Self) {
        *self
    }
}

impl TreeKey for i64 {
    open spec fn rank(&self) -> int {
        *self as int
    }

    fn key_less(&self, other: &Self) -> (r: bool) {
        *self < *other
    }

    fn key_equal(&self, other: &Self) -> (r: bool) {
        *self == *other
    }

    fn copy_key(&self) -> (r: Self) {
        *self
    }
}


/// The rank of the bytes of `b` from position `i` on, each byte a digit
/// (one more than its value) of base 257, the digit at `i` of weight
/// `257^(e - 1)`. Below a common length bound `e`, this orders byte strings
/// as they compare, byte by byte, a prefix first.
pub open spec fn byte_rank(b: Seq<u8>, i: nat, e: nat) -> int
    decreases b.len() - i,
{
    if i >= b.len() {
        0
    } else {
        (b[i as int] + 1) * pow(257, (e - 1) as nat) + byte_rank(b, i + 1, (e - 1) as nat)
    }
}

/// The weight just above the longest byte string a `usize` can count.
pub open spec fn string_weight() -> nat {
    (usize::MAX + 1) as nat
}

/// The rank of a string: that of its UTF-8 bytes.
pub open spec fn string_rank(s: String) -> int {
    byte_rank(encode_utf8(s@), 0, string_weight())
}

/// The rank of the bytes from `i` on lies below the weight of the digit
/// before them.
pub proof fn lemma_byte_rank_bound(b: Seq<u8>, i: nat, e: nat)
    requires
        i <= b.len(),
        b.len() - i <= e,
    ensures
        0 <= byte_rank(b, i, e) < pow(257, e),
    decreases b.len() - i,
{
    lemma_pow_positive(257, e);
    if i < b.len() {
        let p = pow(257, (e - 1) as nat);
        lemma_byte_rank_bound(b, i + 1, (e - 1) as nat);
        lemma_pow_positive(257, (e - 1) as nat);
        assert(pow(257, e) == 257 * p) by {
            reveal(pow);
        }
        let d = b[i as int] + 1;
        let r = byte_rank(b, i + 1, (e - 1) as nat);
        assert(0 <= d * p + r < 257 * p) by (nonlinear_arith)
            requires
                1 <= d <= 256,
                0 <= r < p,
        ;
    }
}

/// Over a common prefix from `i` to `k`, two byte strings gain the same
/// rank.
pub proof fn lemma_byte_rank_prefix(a: Seq<u8>, b: Seq<u8>, i: nat, k: nat, e: nat)
    requires
        i <= k <= a.len(),
        k <= b.len(),
        forall|j: int| i <= j < k ==> a[j] == b[j],
        k - i <= e,
    ensures
        byte_rank(a, i, e) - byte_rank(a, k, (e - (k - i)) as nat) == byte_rank(b, i, e) - byte_rank(
            b,
            k,
            (e - (k - i)) as nat,
        ),
    decreases k - i,
{
    if i < k {
        lemma_byte_rank_prefix(a, b, i + 1, k, (e - 1) as nat);
    }
}

/// Where two byte strings first differ, the one with the smaller byte, or
/// the one that has ended, has the smaller rank from there on.
pub proof fn lemma_byte_rank_first_difference(a: Seq<u8>, b: Seq<u8>, k: nat, e: nat)
    requires
        k <= a.len(),
        k < b.len(),
        a.len() - k <= e,
        b.len() - k <= e,
        k < a.len() ==> a[k as int] < b[k as int],
    ensures
        byte_rank(a, k, e) < byte_rank(b, k, e),
{
    let p = pow(257, (e - 1) as nat);
    lemma_pow_positive(257, (e - 1) as nat);
    lemma_byte_rank_bound(b, k + 1, (e - 1) as nat);
    let rb = byte_rank(b, k + 1, (e - 1) as nat);
    let db = b[k as int] + 1;
    if k < a.len() {
        lemma_byte_rank_bound(a, k + 1, (e - 1) as nat);
        let ra = byte_rank(a, k + 1, (e - 1) as nat);
        let da = a[k as int] + 1;
        assert(da * p + ra < db * p + rb) by (nonlinear_arith)
            requires
                1 <= da < db,
                0 <= ra < p,
                0 <= rb,
        ;
    } else {
        assert(0 < db * p + rb) by (nonlinear_arith)
            requires
                1 <= db,
                0 < p,
                0 <= rb,
        ;
    }
}

/// Byte strings no longer than `e` are ordered by rank as they compare,
/// byte by byte, with a prefix first.
pub proof fn lemma_byte_rank_order(a: Seq<u8>, b: Seq<u8>, k: nat, e: nat)
    requires
        k <= a.len(),
        k <= b.len(),
        a.len() <= e,
        b.len() <= e,
        forall|j: int| 0 <= j < k ==> a[j] == b[j],
        k < a.len() && k < b.len() ==> a[k as int] != b[k as int],
    ensures
        (byte_rank(a, 0, e) < byte_rank(b, 0, e)) <==> (if k < a.len() && k < b.len() {
            a[k as int] < b[k as int]
        } else {
            a.len() < b.len()
        }),
        (byte_rank(a, 0, e) == byte_rank(b, 0, e)) <==> (k == a.len() && k == b.len()),
{
    lemma_byte_rank_prefix(a, b, 0, k, e);
    let e2 = (e - k) as nat;
    if k < a.len() && k < b.len() {
        if a[k as int] < b[k as int] {
            lemma_byte_rank_first_difference(a, b, k, e2);
        } else {
            lemma_byte_rank_first_difference(b, a, k, e2);
        }
    } else if k < b.len() {
        lemma_byte_rank_first_difference(a, b, k, e2);
    } else if k < a.len() {
        lemma_byte_rank_first_difference(b, a, k, e2);
    }
}

impl TreeKey for String {
    /// Strings are ordered by their UTF-8 bytes, as `String`'s `Ord` orders
    /// them.
    open spec fn rank(&self) -> int {
        string_rank(*self)
    }

    fn key_less(&self, other: &Self) -> (r: bool) {
        let a = self.as_str().as_bytes();
        let b = other.as_str().as_bytes();
        proof {
            assert(a@ == encode_utf8(self@));
            assert(b@ == encode_utf8(other@));
        }
        let n = if a.len() < b.len() {
            a.len()
        } else {
            b.len()
        };
        let mut i: usize = 0;
        while i < n
            invariant
                a@ == encode_utf8(self@),
                b@ == encode_utf8(other@),
                i <= n,
                n <= a@.len(),
                n <= b@.len(),
                n == a@.len() || n == b@.len(),
                a@.len() <= usize::MAX,
                b@.len() <= usize::MAX,
                forall|j: int| 0 <= j < i ==> a@[j] == b@[j],
            decreases n - i,
        {
            if a[i] != b[i] {
                proof {
                    lemma_byte_rank_order(a@, b@, i as nat, string_weight());
                }
                return a[i] < b[i];
            }
            i = i + 1;
        }
        proof {
            lemma_byte_rank_order(a@, b@, n as nat, string_weight());
        }
        a.len() < b.len()
    }

    fn key_equal(&self, other: &Self) -> (r: bool) {
        !self.key_less(other) && !other.key_less(self)
    }

    fn copy_key(&self) -> (r: Self) {
        self.clone()
    }
}

} // verus!
