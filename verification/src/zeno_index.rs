//! Fractional indices between zero and one with arbitrary precision, used to
//! place items of a list between each other.

use crate::order::{KeyOrder, Model, Order};
use vstd::prelude::*;

verus! {

/// The largest byte which is left of the magic byte.
pub const MAGIC_FLOOR: u8 = 127;

/// The smallest byte which is right of the magic byte.
pub const MAGIC_CEIL: u8 = 128;

/// One digit of a [ZenoIndex]: a regular byte, or the magic digit that
/// compares as if it were 127.5. An index is its stored bytes followed by
/// infinitely many magic digits.
#[derive(Clone, Copy, Debug, PartialEq, Eq, Structural)]
pub enum FractionByte {
    Magic,
    Byte(u8),
}

/// Twice the value a digit stands for: `Byte(x)` is `2x`, `Magic` is 255.
/// Digits compare by this value.
pub open spec fn fraction_value(d: FractionByte) -> int {
    match d {
        FractionByte::Magic => 255,
        FractionByte::Byte(x) => 2 * x,
    }
}

/// The byte between `lhs` and `rhs` that `new_between_bytes` picks, if any.
pub open spec fn bytes_between(lhs: u8, rhs: u8) -> Option<FractionByte> {
    if lhs + 1 < rhs {
        Some(FractionByte::Byte(((rhs - lhs) / 2 + lhs) as u8))
    } else {
        None
    }
}

/// The digit between two digits that `FractionByte::new_between` picks, if any.
pub open spec fn fraction_between(lower: FractionByte, upper: FractionByte) -> Option<FractionByte> {
    match (lower, upper) {
        (FractionByte::Byte(lhs), FractionByte::Byte(rhs)) => {
            if lhs <= MAGIC_FLOOR && rhs >= MAGIC_CEIL {
                Some(FractionByte::Magic)
            } else {
                bytes_between(lhs, rhs)
            }
        },
        (FractionByte::Byte(lhs), FractionByte::Magic) => bytes_between(lhs, MAGIC_CEIL),
        (FractionByte::Magic, FractionByte::Byte(rhs)) => bytes_between(MAGIC_FLOOR, rhs),
        _ => None,
    }
}

impl FractionByte {
    /// The byte halfway between `lhs` and `rhs`, when one lies strictly between.
    pub fn new_between_bytes(lhs: u8, rhs: u8) -> (r: Option<FractionByte>)
        requires
            rhs >= 1,
        ensures
            r == bytes_between(lhs, rhs),
    {
        if lhs < rhs - 1 {
            Some(FractionByte::Byte((rhs - lhs) / 2 + lhs))
        } else {
            None
        }
    }

    /// A digit strictly between two digits, when one exists.
    pub fn new_between(lower_bound: FractionByte, upper_bound: FractionByte) -> (r: Option<FractionByte>)
        requires
            upper_bound != FractionByte::Byte(0),
        ensures
            r == fraction_between(lower_bound, upper_bound),
            r matches Some(d) ==> fraction_value(lower_bound) < fraction_value(d) < fraction_value(upper_bound),
            r is None ==> forall|d: FractionByte| !(fraction_value(lower_bound) < #[trigger] fraction_value(d) < fraction_value(upper_bound)),
    {
        match (lower_bound, upper_bound) {
            (FractionByte::Byte(lhs), FractionByte::Byte(rhs)) => {
                if lhs <= MAGIC_FLOOR && rhs >= MAGIC_CEIL {
                    Some(FractionByte::Magic)
                } else {
                    FractionByte::new_between_bytes(lhs, rhs)
                }
            },
            (FractionByte::Byte(lhs), FractionByte::Magic) => {
                FractionByte::new_between_bytes(lhs, MAGIC_CEIL)
            },
            (FractionByte::Magic, FractionByte::Byte(rhs)) => {
                FractionByte::new_between_bytes(MAGIC_FLOOR, rhs)
            },
            _ => None,
        }
    }

    /// Twice the value of this digit.
    pub fn value(&self) -> (v: u16)
        ensures
            v == fraction_value(*self),
    {
        match self {
            FractionByte::Magic => 255,
            FractionByte::Byte(x) => 2 * (*x as u16),
        }
    }

    /// Compares two digits: bytes by value, and a byte against the magic
    /// digit as if the magic digit were 127.5.
    pub fn compare(&self, other: &FractionByte) -> (o: Order)
        ensures
            o == Order::Less <==> fraction_value(*self) < fraction_value(*other),
            o == Order::Equal <==> *self == *other,
            o == Order::Greater <==> fraction_value(*self) > fraction_value(*other),
    {
        let a = self.value();
        let b = other.value();
        if a < b {
            Order::Less
        } else if a == b {
            Order::Equal
        } else {
            Order::Greater
        }
    }
}

impl Default for FractionByte {
    fn default() -> (r: FractionByte)
        ensures
            r == FractionByte::Magic,
    {
        FractionByte::Magic
    }
}

/// The digit at position `i` of an index with bytes `s`.
pub open spec fn fraction_at(s: Seq<u8>, i: int) -> FractionByte {
    if 0 <= i < s.len() {
        FractionByte::Byte(s[i])
    } else {
        FractionByte::Magic
    }
}

/// Twice the value of the digit at position `i`.
pub open spec fn digit_value(s: Seq<u8>, i: int) -> int {
    fraction_value(fraction_at(s, i))
}

/// `a` and `b` have the same digits at every position below `n`.
pub open spec fn agree_before(a: Seq<u8>, b: Seq<u8>, n: int) -> bool {
    forall|j: int| 0 <= j < n ==> #[trigger] digit_value(a, j) == digit_value(b, j)
}

/// The order of fractional indices: at the first position where the digits
/// differ, the smaller digit belongs to the smaller index.
pub open spec fn zeno_less(a: Seq<u8>, b: Seq<u8>) -> bool {
    exists|i: int| 0 <= i && #[trigger] agree_before(a, b, i) && digit_value(a, i) < digit_value(b, i)
}

/// The first position at or after `k` where the digits of `a` and `b`
/// differ, or a position past both when there is none.
pub open spec fn diff_from(a: Seq<u8>, b: Seq<u8>, k: int) -> int
    decreases a.len() + b.len() + 1 - k,
{
    if k < 0 || k > a.len() + b.len() {
        k
    } else if digit_value(a, k) != digit_value(b, k) {
        k
    } else {
        diff_from(a, b, k + 1)
    }
}

/// The bytes of the index that `new_before` returns.
pub open spec fn before_bytes(s: Seq<u8>) -> Seq<u8>
    decreases s.len(),
{
    if s.len() == 0 {
        seq![MAGIC_FLOOR]
    } else if s[0] > 0 {
        seq![(s[0] - 1) as u8]
    } else {
        seq![s[0]] + before_bytes(s.drop_first())
    }
}

/// The bytes of the index that `new_after` returns.
pub open spec fn after_bytes(s: Seq<u8>) -> Seq<u8>
    decreases s.len(),
{
    if s.len() == 0 {
        seq![MAGIC_CEIL]
    } else if s[0] < 255 {
        seq![(s[0] + 1) as u8]
    } else {
        seq![s[0]] + after_bytes(s.drop_first())
    }
}

/// Keeps `s` up to the first position `j` or later whose digit can be
/// raised, and raises it: a byte below 255 by one, the magic digit to 128.
pub open spec fn raise_from(s: Seq<u8>, j: int) -> Seq<u8>
    decreases s.len() - j,
{
    if j >= s.len() || j < 0 {
        s.push(MAGIC_CEIL)
    } else if s[j] < 255 {
        s.subrange(0, j).push((s[j] + 1) as u8)
    } else {
        raise_from(s, j + 1)
    }
}

/// Keeps `s` up to the first position `j` or later whose digit can be
/// lowered, and lowers it: a byte above 0 by one, the magic digit to 127.
pub open spec fn lower_from(s: Seq<u8>, j: int) -> Seq<u8>
    decreases s.len() - j,
{
    if j >= s.len() || j < 0 {
        s.push(MAGIC_FLOOR)
    } else if s[j] > 0 {
        s.subrange(0, j).push((s[j] - 1) as u8)
    } else {
        lower_from(s, j + 1)
    }
}

/// The bytes of the index that `new_between` returns.
pub open spec fn between_bytes(left: Seq<u8>, right: Seq<u8>) -> Seq<u8> {
    let i = diff_from(left, right, 0);
    match fraction_between(fraction_at(left, i), fraction_at(right, i)) {
        Some(FractionByte::Magic) => left.subrange(0, i),
        Some(FractionByte::Byte(b)) => left.subrange(0, i).push(b),
        None => if i < left.len() {
            raise_from(left, i + 1)
        } else {
            lower_from(right, i + 1)
        },
    }
}


pub proof fn lemma_less_at(a: Seq<u8>, b: Seq<u8>, i: int)
    requires
        0 <= i,
        agree_before(a, b, i),
        digit_value(a, i) < digit_value(b, i),
    ensures
        zeno_less(a, b),
{
}

/// `agree_before` for a smaller bound, and across a third index.
pub proof fn lemma_agree_mono(a: Seq<u8>, b: Seq<u8>, n: int, m: int)
    requires
        agree_before(a, b, n),
        m <= n,
    ensures
        agree_before(a, b, m),
{
}

pub proof fn lemma_agree_trans(a: Seq<u8>, b: Seq<u8>, c: Seq<u8>, n: int)
    requires
        agree_before(a, b, n),
        agree_before(b, c, n),
    ensures
        agree_before(a, c, n),
{
    assert forall|j: int| 0 <= j < n implies #[trigger] digit_value(a, j) == digit_value(c, j) by {
        assert(digit_value(a, j) == digit_value(b, j));
        assert(digit_value(b, j) == digit_value(c, j));
    }
}

/// Indices whose digits agree past both lengths are equal.
pub proof fn lemma_agree_equal(a: Seq<u8>, b: Seq<u8>, n: int)
    requires
        agree_before(a, b, n),
        n > a.len(),
        n > b.len(),
    ensures
        a == b,
{
    if a.len() < b.len() {
        assert(digit_value(a, a.len() as int) == digit_value(b, a.len() as int));
    } else if b.len() < a.len() {
        assert(digit_value(a, b.len() as int) == digit_value(b, b.len() as int));
    } else {
        assert forall|j: int| 0 <= j < a.len() implies a[j] == b[j] by {
            assert(digit_value(a, j) == digit_value(b, j));
        }
        assert(a =~= b);
    }
}

pub proof fn lemma_diff_from(a: Seq<u8>, b: Seq<u8>, k: int)
    requires
        0 <= k,
        agree_before(a, b, k),
    ensures
        diff_from(a, b, k) >= k,
        agree_before(a, b, diff_from(a, b, k)),
        a != b ==> digit_value(a, diff_from(a, b, k)) != digit_value(b, diff_from(a, b, k)),
        a != b ==> diff_from(a, b, k) <= a.len() && diff_from(a, b, k) <= b.len(),
    decreases a.len() + b.len() + 1 - k,
{
    if k > a.len() + b.len() {
        lemma_agree_equal(a, b, k);
    } else if digit_value(a, k) != digit_value(b, k) {
        if a.len() < k {
            assert(digit_value(a, a.len() as int) == digit_value(b, a.len() as int));
        }
        if b.len() < k {
            assert(digit_value(a, b.len() as int) == digit_value(b, b.len() as int));
        }
    } else {
        assert(agree_before(a, b, k + 1));
        lemma_diff_from(a, b, k + 1);
    }
}

pub proof fn lemma_zeno_irreflexive(a: Seq<u8>)
    ensures
        !zeno_less(a, a),
{
}

pub proof fn lemma_zeno_asymmetric(a: Seq<u8>, b: Seq<u8>)
    requires
        zeno_less(a, b),
    ensures
        !zeno_less(b, a),
{
    let i = choose|i: int| 0 <= i && #[trigger] agree_before(a, b, i) && digit_value(a, i) < digit_value(b, i);
    if zeno_less(b, a) {
        let j = choose|j: int| 0 <= j && #[trigger] agree_before(b, a, j) && digit_value(b, j) < digit_value(a, j);
        if i < j {
            assert(digit_value(b, i) == digit_value(a, i));
        } else if j < i {
            assert(digit_value(a, j) == digit_value(b, j));
        }
    }
}

pub proof fn lemma_zeno_transitive(a: Seq<u8>, b: Seq<u8>, c: Seq<u8>)
    requires
        zeno_less(a, b),
        zeno_less(b, c),
    ensures
        zeno_less(a, c),
{
    let i = choose|i: int| 0 <= i && #[trigger] agree_before(a, b, i) && digit_value(a, i) < digit_value(b, i);
    let j = choose|j: int| 0 <= j && #[trigger] agree_before(b, c, j) && digit_value(b, j) < digit_value(c, j);
    if i <= j {
        lemma_agree_mono(b, c, j, i);
        lemma_agree_trans(a, b, c, i);
        if i < j {
            assert(digit_value(b, i) == digit_value(c, i));
        }
        lemma_less_at(a, c, i);
    } else {
        lemma_agree_mono(a, b, i, j);
        lemma_agree_trans(a, b, c, j);
        assert(digit_value(a, j) == digit_value(b, j));
        lemma_less_at(a, c, j);
    }
}

pub proof fn lemma_zeno_total(a: Seq<u8>, b: Seq<u8>)
    ensures
        a == b || zeno_less(a, b) || zeno_less(b, a),
{
    lemma_diff_from(a, b, 0);
    let d = diff_from(a, b, 0);
    if a != b {
        if digit_value(a, d) < digit_value(b, d) {
            lemma_less_at(a, b, d);
        } else {
            assert(agree_before(b, a, d));
            lemma_less_at(b, a, d);
        }
    }
}

/// For `a` before `b`, the first differing position holds a smaller digit
/// in `a`, and lies within `a`'s bytes or just past them.
pub proof fn lemma_first_diff(a: Seq<u8>, b: Seq<u8>)
    requires
        zeno_less(a, b),
    ensures
        agree_before(a, b, diff_from(a, b, 0)),
        digit_value(a, diff_from(a, b, 0)) < digit_value(b, diff_from(a, b, 0)),
        0 <= diff_from(a, b, 0) <= a.len(),
        diff_from(a, b, 0) <= b.len(),
{
    lemma_zeno_irreflexive(a);
    lemma_diff_from(a, b, 0);
    let d = diff_from(a, b, 0);
    if digit_value(a, d) > digit_value(b, d) {
        assert(agree_before(b, a, d));
        lemma_less_at(b, a, d);
        lemma_zeno_asymmetric(a, b);
    }
}

pub proof fn lemma_raise_from(s: Seq<u8>, j: int)
    requires
        0 <= j <= s.len(),
    ensures
        agree_before(s, raise_from(s, j), j),
        zeno_less(s, raise_from(s, j)),
    decreases s.len() - j,
{
    let r = raise_from(s, j);
    if j == s.len() {
        assert(agree_before(s, r, s.len() as int));
        lemma_less_at(s, r, s.len() as int);
    } else if s[j] < 255 {
        assert(agree_before(s, r, j));
        lemma_less_at(s, r, j);
    } else {
        lemma_raise_from(s, j + 1);
        lemma_agree_mono(s, r, j + 1, j);
    }
}

pub proof fn lemma_lower_from(s: Seq<u8>, j: int)
    requires
        0 <= j <= s.len(),
    ensures
        agree_before(lower_from(s, j), s, j),
        zeno_less(lower_from(s, j), s),
    decreases s.len() - j,
{
    let r = lower_from(s, j);
    if j == s.len() {
        assert(agree_before(r, s, s.len() as int));
        lemma_less_at(r, s, s.len() as int);
    } else if s[j] > 0 {
        assert(agree_before(r, s, j));
        lemma_less_at(r, s, j);
    } else {
        lemma_lower_from(s, j + 1);
        lemma_agree_mono(r, s, j + 1, j);
    }
}

/// Copies the first `n` bytes of `v`.
fn prefix_of(v: &Vec<u8>, n: usize) -> (r: Vec<u8>)
    requires
        n <= v@.len(),
    ensures
        r@ == v@.subrange(0, n as int),
{
    let mut r = v.clone();
    assert(r@ =~= v@);
    r.truncate(n);
    r
}

/// The bytes of `raise_from(s, j)`.
fn raise_digit_from(s: &Vec<u8>, j: usize) -> (r: Vec<u8>)
    requires
        j <= s@.len(),
    ensures
        r@ == raise_from(s@, j as int),
{
    let mut k = j;
    while k < s.len()
        invariant
            j <= k <= s@.len(),
            raise_from(s@, j as int) == raise_from(s@, k as int),
        decreases s.len() - k,
    {
        if s[k] < 255 {
            let mut r = prefix_of(s, k);
            r.push(s[k] + 1);
            return r;
        }
        k = k + 1;
    }
    let mut r = s.clone();
    assert(r@ =~= s@);
    r.push(MAGIC_CEIL);
    r
}

/// The bytes of `lower_from(s, j)`.
fn lower_digit_from(s: &Vec<u8>, j: usize) -> (r: Vec<u8>)
    requires
        j <= s@.len(),
    ensures
        r@ == lower_from(s@, j as int),
{
    let mut k = j;
    while k < s.len()
        invariant
            j <= k <= s@.len(),
            lower_from(s@, j as int) == lower_from(s@, k as int),
        decreases s.len() - k,
    {
        if s[k] > 0 {
            let mut r = prefix_of(s, k);
            r.push(s[k] - 1);
            return r;
        }
        k = k + 1;
    }
    let mut r = s.clone();
    assert(r@ =~= s@);
    r.push(MAGIC_FLOOR);
    r
}

/// A fraction strictly between zero and one, represented by its bytes
/// followed by infinitely many magic digits; the empty index stands for one
/// half.
#[derive(Debug)]
pub struct ZenoIndex(pub Vec<u8>);

impl Clone for ZenoIndex {
    fn clone(&self) -> (r: ZenoIndex)
        ensures
            r.0@ == self.0@,
    {
        let bytes = self.0.clone();
        assert(bytes@ =~= self.0@);
        ZenoIndex(bytes)
    }
}

impl ZenoIndex {
    /// The digit at position `i`.
    pub fn digit(&self, i: usize) -> (d: FractionByte)
        ensures
            d == fraction_at(self.0@, i as int),
    {
        if i < self.0.len() {
            FractionByte::Byte(self.0[i])
        } else {
            FractionByte::Magic
        }
    }

    /// An index that compares as less than `fs`.
    pub fn new_before(fs: &ZenoIndex) -> (r: ZenoIndex)
        ensures
            r.0@ == before_bytes(fs.0@),
            zeno_less(r.0@, fs.0@),
    {
        let ghost s = fs.0@;
        proof {
            assert(s.skip(0) =~= s);
            assert(s.subrange(0, 0) + before_bytes(s) =~= before_bytes(s));
        }
        let mut i: usize = 0;
        while i < fs.0.len()
            invariant
                i <= s.len(),
                s == fs.0@,
                forall|j: int| 0 <= j < i ==> s[j] == 0,
                before_bytes(s) == s.subrange(0, i as int) + before_bytes(s.skip(i as int)),
            decreases fs.0.len() - i,
        {
            proof {
                assert(s.skip(i as int)[0] == s[i as int]);
                assert(s.skip(i as int).drop_first() =~= s.skip(i + 1));
            }
            if fs.0[i] > 0 {
                let mut bytes = prefix_of(&fs.0, i);
                bytes.push(fs.0[i] - 1);
                proof {
                    assert(bytes@ =~= s.subrange(0, i as int) + before_bytes(s.skip(i as int)));
                    assert(agree_before(bytes@, s, i as int));
                    lemma_less_at(bytes@, s, i as int);
                }
                return ZenoIndex(bytes);
            }
            proof {
                assert(s.subrange(0, i + 1) =~= s.subrange(0, i as int).push(0));
                assert(s.subrange(0, i as int) + before_bytes(s.skip(i as int))
                    =~= s.subrange(0, i + 1) + before_bytes(s.skip(i + 1)));
            }
            i = i + 1;
        }
        let mut bytes = fs.0.clone();
        bytes.push(MAGIC_FLOOR);
        proof {
            assert(s.skip(i as int) =~= Seq::<u8>::empty());
            assert(s.subrange(0, i as int) =~= s);
            assert(bytes@ =~= s.push(MAGIC_FLOOR));
            assert(agree_before(bytes@, s, s.len() as int));
            lemma_less_at(bytes@, s, s.len() as int);
        }
        ZenoIndex(bytes)
    }

    /// An index that compares as greater than `fs`.
    pub fn new_after(fs: &ZenoIndex) -> (r: ZenoIndex)
        ensures
            r.0@ == after_bytes(fs.0@),
            zeno_less(fs.0@, r.0@),
    {
        let ghost s = fs.0@;
        proof {
            assert(s.skip(0) =~= s);
            assert(s.subrange(0, 0) + after_bytes(s) =~= after_bytes(s));
        }
        let mut i: usize = 0;
        while i < fs.0.len()
            invariant
                i <= s.len(),
                s == fs.0@,
                forall|j: int| 0 <= j < i ==> s[j] == 255,
                after_bytes(s) == s.subrange(0, i as int) + after_bytes(s.skip(i as int)),
            decreases fs.0.len() - i,
        {
            proof {
                assert(s.skip(i as int)[0] == s[i as int]);
                assert(s.skip(i as int).drop_first() =~= s.skip(i + 1));
            }
            if fs.0[i] < 255 {
                let mut bytes = prefix_of(&fs.0, i);
                bytes.push(fs.0[i] + 1);
                proof {
                    assert(bytes@ =~= s.subrange(0, i as int) + after_bytes(s.skip(i as int)));
                    assert(agree_before(s, bytes@, i as int));
                    lemma_less_at(s, bytes@, i as int);
                }
                return ZenoIndex(bytes);
            }
            proof {
                assert(s.subrange(0, i + 1) =~= s.subrange(0, i as int).push(255));
                assert(s.subrange(0, i as int) + after_bytes(s.skip(i as int))
                    =~= s.subrange(0, i + 1) + after_bytes(s.skip(i + 1)));
            }
            i = i + 1;
        }
        let mut bytes = fs.0.clone();
        bytes.push(MAGIC_CEIL);
        proof {
            assert(s.skip(i as int) =~= Seq::<u8>::empty());
            assert(s.subrange(0, i as int) =~= s);
            assert(bytes@ =~= s.push(MAGIC_CEIL));
            assert(agree_before(s, bytes@, s.len() as int));
            lemma_less_at(s, bytes@, s.len() as int);
        }
        ZenoIndex(bytes)
    }
}


impl ZenoIndex {
    /// An index strictly between `left` and `right`, which must be in order.
    pub fn new_between(left: &ZenoIndex, right: &ZenoIndex) -> (r: ZenoIndex)
        requires
            zeno_less(left.0@, right.0@),
        ensures
            r.0@ == between_bytes(left.0@, right.0@),
            zeno_less(left.0@, r.0@),
            zeno_less(r.0@, right.0@),
    {
        let ghost l = left.0@;
        let ghost rt = right.0@;
        let ghost d = diff_from(l, rt, 0);
        proof {
            lemma_first_diff(l, rt);
        }
        let mut i: usize = 0;
        while i < left.0.len() && left.digit(i).compare(&right.digit(i)) == Order::Equal
            invariant
                l == left.0@,
                rt == right.0@,
                0 <= i <= d,
                d == diff_from(l, rt, 0),
                agree_before(l, rt, d),
                digit_value(l, d) < digit_value(rt, d),
                0 <= d <= l.len(),
                d <= rt.len(),
            decreases left.0.len() - i,
        {
            proof {
                if i == d {
                    assert(fraction_value(fraction_at(l, i as int)) < fraction_value(fraction_at(rt, i as int)));
                }
            }
            i = i + 1;
        }
        proof {
            if i < d {
                assert(digit_value(l, i as int) == digit_value(rt, i as int));
                assert(i == l.len());
            }
            assert(i == d);
        }
        let ld = left.digit(i);
        let rd = right.digit(i);
        assert(fraction_value(ld) < fraction_value(rd));
        match FractionByte::new_between(ld, rd) {
            Some(FractionByte::Magic) => {
                let bytes = prefix_of(&left.0, i);
                proof {
                    assert(agree_before(l, bytes@, i as int));
                    lemma_less_at(l, bytes@, i as int);
                    lemma_agree_trans(bytes@, l, rt, i as int);
                    lemma_less_at(bytes@, rt, i as int);
                }
                ZenoIndex(bytes)
            },
            Some(FractionByte::Byte(b)) => {
                let mut bytes = prefix_of(&left.0, i);
                bytes.push(b);
                proof {
                    assert(agree_before(l, bytes@, i as int));
                    lemma_less_at(l, bytes@, i as int);
                    lemma_agree_trans(bytes@, l, rt, i as int);
                    lemma_less_at(bytes@, rt, i as int);
                }
                ZenoIndex(bytes)
            },
            None => {
                if i < left.0.len() {
                    let bytes = raise_digit_from(&left.0, i + 1);
                    proof {
                        lemma_raise_from(l, i + 1);
                        lemma_agree_mono(l, bytes@, i + 1, i as int);
                        assert(agree_before(bytes@, l, i as int));
                        lemma_agree_trans(bytes@, l, rt, i as int);
                        assert(digit_value(bytes@, i as int) == digit_value(l, i as int));
                        lemma_less_at(bytes@, rt, i as int);
                    }
                    ZenoIndex(bytes)
                } else {
                    let n = right.0.len();
                    assert(i < n);
                    let bytes = lower_digit_from(&right.0, i + 1);
                    proof {
                        lemma_lower_from(rt, i + 1);
                        lemma_agree_mono(bytes@, rt, i + 1, i as int);
                        assert(agree_before(rt, bytes@, i as int));
                        lemma_agree_trans(l, rt, bytes@, i as int);
                        assert(digit_value(bytes@, i as int) == digit_value(rt, i as int));
                        lemma_less_at(l, bytes@, i as int);
                    }
                    ZenoIndex(bytes)
                }
            },
        }
    }

    /// Compares two indices digit by digit.
    pub fn compare(&self, other: &ZenoIndex) -> (o: Order)
        ensures
            o == Order::Less <==> zeno_less(self.0@, other.0@),
            o == Order::Equal <==> self.0@ == other.0@,
            o == Order::Greater <==> zeno_less(other.0@, self.0@),
    {
        let ghost a = self.0@;
        let ghost b = other.0@;
        let mut i: usize = 0;
        loop
            invariant
                a == self.0@,
                b == other.0@,
                i <= a.len(),
                agree_before(a, b, i as int),
            decreases a.len() - i,
        {
            let c = self.digit(i).compare(&other.digit(i));
            match c {
                Order::Less => {
                    proof {
                        lemma_less_at(a, b, i as int);
                        lemma_zeno_asymmetric(a, b);
                        lemma_zeno_irreflexive(a);
                    }
                    return Order::Less;
                },
                Order::Greater => {
                    proof {
                        assert(agree_before(b, a, i as int));
                        lemma_less_at(b, a, i as int);
                        lemma_zeno_asymmetric(b, a);
                        lemma_zeno_irreflexive(a);
                    }
                    return Order::Greater;
                },
                Order::Equal => {
                    if i == self.0.len() {
                        proof {
                            assert(agree_before(a, b, i + 1));
                            if b.len() > a.len() {
                                assert(digit_value(a, a.len() as int) == digit_value(b, a.len() as int));
                            }
                            lemma_agree_equal(a, b, i + 1);
                            lemma_zeno_irreflexive(a);
                        }
                        return Order::Equal;
                    }
                },
            }
            i = i + 1;
        }
    }
}

impl Default for ZenoIndex {
    /// The index standing for one half.
    fn default() -> (r: ZenoIndex)
        ensures
            r.0@ == Seq::<u8>::empty(),
    {
        ZenoIndex(Vec::new())
    }
}

impl Model for ZenoIndex {
    type M = Seq<u8>;

    open spec fn model(&self) -> Seq<u8> {
        self.0@
    }

    fn duplicate(&self) -> (r: ZenoIndex) {
        self.clone()
    }
}

/// Indices are keyed by the fractions they stand for.
impl KeyOrder for ZenoIndex {
    open spec fn less(a: Seq<u8>, b: Seq<u8>) -> bool {
        zeno_less(a, b)
    }

    proof fn lemma_irreflexive(a: Seq<u8>) {
        lemma_zeno_irreflexive(a);
    }

    proof fn lemma_transitive(a: Seq<u8>, b: Seq<u8>, c: Seq<u8>) {
        lemma_zeno_transitive(a, b, c);
    }

    proof fn lemma_total(a: Seq<u8>, b: Seq<u8>) {
        lemma_zeno_total(a, b);
    }

    fn compare(&self, other: &ZenoIndex) -> (o: Order) {
        ZenoIndex::compare(self, other)
    }
}

} // verus!
