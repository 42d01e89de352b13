//! A simpler list index: a path of bytes in a binary tree, where a byte 1
//! leads right of its parent and any other byte leads left.

use crate::order::Order;
use vstd::prelude::*;

verus! {

/// Flips the direction of a comparison.
pub open spec fn reversed(o: Order) -> Order {
    match o {
        Order::Less => Order::Greater,
        Order::Equal => Order::Equal,
        Order::Greater => Order::Less,
    }
}

/// Compares `a` with a `b` that is no longer than `a`, from position `k` on.
pub open spec fn opaque_order_from(a: Seq<u8>, b: Seq<u8>, k: int) -> Order
    decreases b.len() - k,
{
    if k < 0 || k >= b.len() {
        if a.len() == b.len() {
            Order::Equal
        } else if a.len() > b.len() && a[b.len() as int] == 1 {
            Order::Greater
        } else {
            Order::Less
        }
    } else if a[k] > b[k] {
        Order::Greater
    } else if a[k] < b[k] {
        Order::Less
    } else {
        opaque_order_from(a, b, k + 1)
    }
}

/// The order of opaque indices: the longer one is compared with the shorter.
pub open spec fn opaque_order(a: Seq<u8>, b: Seq<u8>) -> Order {
    if b.len() > a.len() {
        reversed(opaque_order_from(b, a, 0))
    } else {
        opaque_order_from(a, b, 0)
    }
}

/// The length of the common prefix of `a` and `b` within both, from `k` on.
pub open spec fn common_prefix_from(a: Seq<u8>, b: Seq<u8>, k: int) -> int
    decreases a.len() - k,
{
    if k < 0 || k >= a.len() || k >= b.len() || a[k] != b[k] {
        k
    } else {
        common_prefix_from(a, b, k + 1)
    }
}

/// The bytes of the index that `new_between` returns.
pub open spec fn opaque_between(lower: Seq<u8>, upper: Seq<u8>) -> Seq<u8> {
    let i = common_prefix_from(lower, upper, 0);
    if i < lower.len() && i < upper.len() {
        lower.subrange(0, i)
    } else if lower.len() < upper.len() {
        lower.push(1)
    } else {
        upper.push(0)
    }
}

/// `a` and `b` agree on their first `i` bytes.
pub open spec fn agree_before(a: Seq<u8>, b: Seq<u8>, i: int) -> bool {
    forall|k: int| 0 <= k < i ==> #[trigger] a[k] == #[trigger] b[k]
}

/// Every byte of `a` is 0 (left) or 1 (right): a path in the binary tree.
pub open spec fn is_path(a: Seq<u8>) -> bool {
    forall|k: int| 0 <= k < a.len() ==> #[trigger] a[k] <= 1
}

/// What position `i` of path `a` says of where it lies in the tree, read in
/// order: 0 for a step left, 2 for a step right, 1 for the node the path
/// ends at.
pub open spec fn step_rank(a: Seq<u8>, i: int) -> int {
    if i < a.len() {
        2 * a[i]
    } else {
        1
    }
}

/// `a` comes before `b` in order through the tree, parting from it at
/// position `i`: they agree before `i`, and there `a` turns or stops to the
/// left of where `b` goes.
pub open spec fn before_at(a: Seq<u8>, b: Seq<u8>, i: int) -> bool {
    &&& 0 <= i <= a.len()
    &&& i <= b.len()
    &&& agree_before(a, b, i)
    &&& step_rank(a, i) < step_rank(b, i)
}

proof fn lemma_order_from_agree(a: Seq<u8>, b: Seq<u8>, k: int, i: int)
    requires
        a.len() >= b.len(),
        0 <= k <= i <= b.len(),
        agree_before(a, b, i),
    ensures
        opaque_order_from(a, b, k) == opaque_order_from(a, b, i),
    decreases i - k,
{
    if k < i {
        assert(a[k] == b[k]);
        lemma_order_from_agree(a, b, k + 1, i);
    }
}

/// The order compares indices at the first position where both have a byte
/// and the bytes differ: the smaller byte gives the smaller index.
pub proof fn lemma_opaque_first_difference(a: Seq<u8>, b: Seq<u8>, i: int)
    requires
        0 <= i < a.len(),
        i < b.len(),
        agree_before(a, b, i),
        a[i] != b[i],
    ensures
        opaque_order(a, b) == (if a[i] < b[i] { Order::Less } else { Order::Greater }),
{
    if b.len() > a.len() {
        assert(agree_before(b, a, i));
        lemma_order_from_agree(b, a, 0, i);
    } else {
        lemma_order_from_agree(a, b, 0, i);
    }
}

/// An index that extends another lies under it: to its right when the next
/// byte is 1, to its left otherwise.
pub proof fn lemma_opaque_extension(a: Seq<u8>, b: Seq<u8>)
    requires
        a.len() > b.len(),
        agree_before(a, b, b.len() as int),
    ensures
        opaque_order(a, b) == (if a[b.len() as int] == 1 { Order::Greater } else { Order::Less }),
        opaque_order(b, a) == (if a[b.len() as int] == 1 { Order::Less } else { Order::Greater }),
{
    lemma_order_from_agree(a, b, 0, b.len() as int);
}

/// An index is equal to itself.
pub proof fn lemma_opaque_reflexive(a: Seq<u8>)
    ensures
        opaque_order(a, a) == Order::Equal,
{
    lemma_order_from_agree(a, a, 0, a.len() as int);
}

/// Comparing the other way round gives the reversed answer.
pub proof fn lemma_opaque_antisymmetric(a: Seq<u8>, b: Seq<u8>)
    ensures
        opaque_order(b, a) == reversed(opaque_order(a, b)),
{
    if a.len() == b.len() {
        lemma_order_from_flip(a, b, 0);
    }
}

proof fn lemma_order_from_flip(a: Seq<u8>, b: Seq<u8>, k: int)
    requires
        a.len() == b.len(),
        0 <= k,
    ensures
        opaque_order_from(b, a, k) == reversed(opaque_order_from(a, b, k)),
    decreases b.len() - k,
{
    if k < b.len() {
        lemma_order_from_flip(a, b, k + 1);
    }
}

/// The length of the common prefix of `a` and `b`, from `k` on, is where
/// they part: they agree before it, and past it one has ended or the two
/// bytes there differ.
proof fn lemma_common_prefix(a: Seq<u8>, b: Seq<u8>, k: int)
    requires
        0 <= k <= a.len(),
        k <= b.len(),
        agree_before(a, b, k),
    ensures
        k <= common_prefix_from(a, b, k) <= a.len(),
        common_prefix_from(a, b, k) <= b.len(),
        agree_before(a, b, common_prefix_from(a, b, k)),
        common_prefix_from(a, b, k) < a.len() && common_prefix_from(a, b, k) < b.len() ==> a[common_prefix_from(a, b, k)]
            != b[common_prefix_from(a, b, k)],
    decreases a.len() - k,
{
    if k < a.len() && k < b.len() && a[k] == b[k] {
        assert(agree_before(a, b, k + 1)) by {
            assert forall|j: int| 0 <= j < k + 1 implies #[trigger] a[j] == #[trigger] b[j] by {
                if j < k {
                    assert(a[j] == b[j]);
                }
            }
        }
        lemma_common_prefix(a, b, k + 1);
    }
}

/// For paths, one index is less than another exactly when it comes before
/// it in order through the tree.
pub proof fn lemma_opaque_less_is_before(a: Seq<u8>, b: Seq<u8>)
    requires
        is_path(a),
        is_path(b),
    ensures
        opaque_order(a, b) == Order::Less <==> exists|i: int| before_at(a, b, i),
{
    lemma_common_prefix(a, b, 0);
    let c = common_prefix_from(a, b, 0);
    assert forall|j: int| #[trigger] before_at(a, b, j) implies j == c by {
        if j < c {
            assert(a[j] == b[j]);
        } else if j > c {
            assert(a[c] == b[c]);
        }
    }
    if c < a.len() && c < b.len() {
        lemma_opaque_first_difference(a, b, c);
        if a[c] < b[c] {
            assert(before_at(a, b, c));
        }
    } else if c == a.len() && c == b.len() {
        assert(a =~= b);
        lemma_opaque_reflexive(a);
    } else if c == b.len() {
        lemma_opaque_extension(a, b);
        if a[c] != 1 {
            assert(a[c] <= 1);
            assert(before_at(a, b, c));
        }
    } else {
        assert(agree_before(b, a, c));
        lemma_opaque_extension(b, a);
        if b[c] == 1 {
            assert(before_at(a, b, c));
        }
    }
}

proof fn lemma_before_transitive(a: Seq<u8>, b: Seq<u8>, c: Seq<u8>, i: int, j: int)
    requires
        before_at(a, b, i),
        before_at(b, c, j),
    ensures
        before_at(a, c, if i < j { i } else { j }),
{
    if i < j {
        assert(agree_before(a, c, i)) by {
            assert forall|k: int| 0 <= k < i implies #[trigger] a[k] == #[trigger] c[k] by {
                assert(a[k] == b[k]);
                assert(b[k] == c[k]);
            }
        }
        assert(b[i] == c[i]);
    } else if j < i {
        assert(agree_before(a, c, j)) by {
            assert forall|k: int| 0 <= k < j implies #[trigger] a[k] == #[trigger] c[k] by {
                assert(a[k] == b[k]);
                assert(b[k] == c[k]);
            }
        }
        assert(a[j] == b[j]);
    } else {
        assert(agree_before(a, c, i)) by {
            assert forall|k: int| 0 <= k < i implies #[trigger] a[k] == #[trigger] c[k] by {
                assert(a[k] == b[k]);
                assert(b[k] == c[k]);
            }
        }
    }
}

/// The order of paths is transitive: it is the order of a walk through the
/// tree, left subtree, node, right subtree.
pub proof fn lemma_opaque_transitive(a: Seq<u8>, b: Seq<u8>, c: Seq<u8>)
    requires
        is_path(a),
        is_path(b),
        is_path(c),
        opaque_order(a, b) == Order::Less,
        opaque_order(b, c) == Order::Less,
    ensures
        opaque_order(a, c) == Order::Less,
{
    lemma_opaque_less_is_before(a, b);
    lemma_opaque_less_is_before(b, c);
    lemma_opaque_less_is_before(a, c);
    let i = choose|i: int| before_at(a, b, i);
    let j = choose|j: int| before_at(b, c, j);
    lemma_before_transitive(a, b, c, i, j);
}

/// A position in a list, as a path in a binary tree of bytes.
#[derive(Debug)]
pub struct OpaqueIndex(pub Vec<u8>);

impl Clone for OpaqueIndex {
    fn clone(&self) -> (r: OpaqueIndex)
        ensures
            r.0@ == self.0@,
    {
        let bytes = self.0.clone();
        assert(bytes@ =~= self.0@);
        OpaqueIndex(bytes)
    }
}

proof fn lemma_extended_order(x: Seq<u8>, b: u8)
    ensures
        opaque_order_from(x.push(b), x, 0) == (if b == 1 { Order::Greater } else { Order::Less }),
        opaque_order(x.push(b), x) == (if b == 1 { Order::Greater } else { Order::Less }),
        opaque_order(x, x.push(b)) == (if b == 1 { Order::Less } else { Order::Greater }),
{
    let a = x.push(b);
    lemma_order_from_equal_prefix(a, x, 0);
}

proof fn lemma_order_from_equal_prefix(a: Seq<u8>, x: Seq<u8>, k: int)
    requires
        0 <= k <= x.len(),
        a.len() == x.len() + 1,
        forall|j: int| 0 <= j < x.len() ==> a[j] == x[j],
    ensures
        opaque_order_from(a, x, k) == opaque_order_from(a, x, x.len() as int),
    decreases x.len() - k,
{
    if k < x.len() {
        lemma_order_from_equal_prefix(a, x, k + 1);
    }
}

impl OpaqueIndex {
    /// Compares the longer index with the shorter one.
    fn compare_longer(&self, other: &OpaqueIndex) -> (o: Order)
        requires
            self.0@.len() >= other.0@.len(),
        ensures
            o == opaque_order_from(self.0@, other.0@, 0),
    {
        let mut i: usize = 0;
        while i < other.0.len()
            invariant
                i <= other.0@.len(),
                other.0@.len() <= self.0@.len(),
                opaque_order_from(self.0@, other.0@, 0) == opaque_order_from(self.0@, other.0@, i as int),
            decreases other.0.len() - i,
        {
            if self.0[i] > other.0[i] {
                return Order::Greater;
            } else if self.0[i] < other.0[i] {
                return Order::Less;
            }
            i = i + 1;
        }
        if self.0.len() == other.0.len() {
            Order::Equal
        } else if self.0[other.0.len()] == 1 {
            Order::Greater
        } else {
            Order::Less
        }
    }

    /// Compares two indices by their place in the tree.
    pub fn compare(&self, other: &OpaqueIndex) -> (o: Order)
        ensures
            o == opaque_order(self.0@, other.0@),
    {
        if other.0.len() > self.0.len() {
            match other.compare_longer(self) {
                Order::Less => Order::Greater,
                Order::Equal => Order::Equal,
                Order::Greater => Order::Less,
            }
        } else {
            self.compare_longer(other)
        }
    }

    /// The right child of `other`, which compares as greater than it.
    pub fn new_after(other: &OpaqueIndex) -> (r: OpaqueIndex)
        ensures
            r.0@ == other.0@.push(1),
            opaque_order(r.0@, other.0@) == Order::Greater,
            opaque_order(other.0@, r.0@) == Order::Less,
            is_path(other.0@) ==> is_path(r.0@),
    {
        let mut v = other.0.clone();
        assert(v@ =~= other.0@);
        v.push(1);
        proof {
            lemma_extended_order(other.0@, 1);
        }
        OpaqueIndex(v)
    }

    /// The left child of `other`, which compares as less than it.
    pub fn new_before(other: &OpaqueIndex) -> (r: OpaqueIndex)
        ensures
            r.0@ == other.0@.push(0),
            opaque_order(r.0@, other.0@) == Order::Less,
            opaque_order(other.0@, r.0@) == Order::Greater,
            is_path(other.0@) ==> is_path(r.0@),
    {
        let mut v = other.0.clone();
        assert(v@ =~= other.0@);
        v.push(0);
        proof {
            lemma_extended_order(other.0@, 0);
        }
        OpaqueIndex(v)
    }

    /// The common ancestor of the two indices where their paths part, or a
    /// child of the shorter one when one path extends the other.
    pub fn new_between(lower_bound: &OpaqueIndex, upper_bound: &OpaqueIndex) -> (r: OpaqueIndex)
        ensures
            r.0@ == opaque_between(lower_bound.0@, upper_bound.0@),
            is_path(lower_bound.0@) && is_path(upper_bound.0@) ==> is_path(r.0@),
    {
        let mut i: usize = 0;
        while i < lower_bound.0.len() && i < upper_bound.0.len()
            invariant
                i <= lower_bound.0@.len(),
                i <= upper_bound.0@.len(),
                common_prefix_from(lower_bound.0@, upper_bound.0@, 0) == common_prefix_from(lower_bound.0@, upper_bound.0@, i as int),
            decreases lower_bound.0.len() - i,
        {
            if lower_bound.0[i] != upper_bound.0[i] {
                assert(common_prefix_from(lower_bound.0@, upper_bound.0@, i as int) == i as int);
                let mut n = lower_bound.0.clone();
                assert(n@ =~= lower_bound.0@);
                n.truncate(i);
                return OpaqueIndex(n);
            }
            i = i + 1;
        }
        if lower_bound.0.len() < upper_bound.0.len() {
            let mut v = lower_bound.0.clone();
            assert(v@ =~= lower_bound.0@);
            v.push(1);
            OpaqueIndex(v)
        } else {
            let mut v = upper_bound.0.clone();
            assert(v@ =~= upper_bound.0@);
            v.push(0);
            OpaqueIndex(v)
        }
    }
}

impl Default for OpaqueIndex {
    /// The root of the tree.
    fn default() -> (r: OpaqueIndex)
        ensures
            r.0@ == Seq::<u8>::empty(),
    {
        OpaqueIndex(Vec::new())
    }
}

} // verus!
