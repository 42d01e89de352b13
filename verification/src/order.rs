//! Total orders on keys, and the plain-value models that contracts speak of.

use vstd::prelude::*;

verus! {

/// The outcome of comparing two keys.
#[derive(Clone, Copy, Debug, PartialEq, Eq, Structural)]
pub enum Order {
    Less,
    Equal,
    Greater,
}

/// A value with a mathematical model, and a way to duplicate it exactly.
pub trait Model: Sized {
    type M;

    spec fn model(&self) -> Self::M;

    fn duplicate(&self) -> (r: Self)
        ensures
            r.model() == self.model(),
    ;
}

/// A key type whose models are totally ordered by `less`.
pub trait KeyOrder: Model {
    spec fn less(a: Self::M, b: Self::M) -> bool;

    proof fn lemma_irreflexive(a: Self::M)
        ensures
            !Self::less(a, a),
    ;

    proof fn lemma_transitive(a: Self::M, b: Self::M, c: Self::M)
        requires
            Self::less(a, b),
            Self::less(b, c),
        ensures
            Self::less(a, c),
    ;

    proof fn lemma_total(a: Self::M, b: Self::M)
        ensures
            a == b || Self::less(a, b) || Self::less(b, a),
    ;

    fn compare(&self, other: &Self) -> (o: Order)
        ensures
            o == Order::Less <==> Self::less(self.model(), other.model()),
            o == Order::Equal <==> self.model() == other.model(),
            o == Order::Greater <==> Self::less(other.model(), self.model()),
    ;
}

impl Model for u8 {
    type M = u8;

    open spec fn model(&self) -> u8 {
        *self
    }

    fn duplicate(&self) -> (r: u8) {
        *self
    }
}

impl KeyOrder for u8 {
    open spec fn less(a: u8, b: u8) -> bool {
        a < b
    }

    proof fn lemma_irreflexive(a: u8) {
    }

    proof fn lemma_transitive(a: u8, b: u8, c: u8) {
    }

    proof fn lemma_total(a: u8, b: u8) {
    }

    fn compare(&self, other: &u8) -> (o: Order) {
        if *self < *other {
            Order::Less
        } else if *self == *other {
            Order::Equal
        } else {
            Order::Greater
        }
    }
}


/// Lexicographic order on sequences of ordered models: a proper prefix comes
/// first, otherwise the first differing element decides.
pub open spec fn lex_less<T: KeyOrder>(a: Seq<T::M>, b: Seq<T::M>) -> bool
    decreases a.len(),
{
    if a.len() == 0 {
        b.len() > 0
    } else if b.len() == 0 {
        false
    } else if T::less(a[0], b[0]) {
        true
    } else if a[0] == b[0] {
        lex_less::<T>(a.drop_first(), b.drop_first())
    } else {
        false
    }
}

pub proof fn lemma_lex_irreflexive<T: KeyOrder>(a: Seq<T::M>)
    ensures
        !lex_less::<T>(a, a),
    decreases a.len(),
{
    if a.len() > 0 {
        T::lemma_irreflexive(a[0]);
        lemma_lex_irreflexive::<T>(a.drop_first());
    }
}

pub proof fn lemma_lex_transitive<T: KeyOrder>(a: Seq<T::M>, b: Seq<T::M>, c: Seq<T::M>)
    requires
        lex_less::<T>(a, b),
        lex_less::<T>(b, c),
    ensures
        lex_less::<T>(a, c),
    decreases a.len(),
{
    if a.len() > 0 && c.len() > 0 {
        if T::less(a[0], b[0]) && T::less(b[0], c[0]) {
            T::lemma_transitive(a[0], b[0], c[0]);
        } else if a[0] == b[0] && b[0] == c[0] {
            lemma_lex_transitive::<T>(a.drop_first(), b.drop_first(), c.drop_first());
        }
    }
}

pub proof fn lemma_lex_total<T: KeyOrder>(a: Seq<T::M>, b: Seq<T::M>)
    ensures
        a == b || lex_less::<T>(a, b) || lex_less::<T>(b, a),
    decreases a.len(),
{
    if a.len() == 0 && b.len() == 0 {
        assert(a =~= b);
    } else if a.len() > 0 && b.len() > 0 {
        T::lemma_total(a[0], b[0]);
        if a[0] == b[0] {
            lemma_lex_total::<T>(a.drop_first(), b.drop_first());
            if a.drop_first() == b.drop_first() {
                assert(a =~= seq![a[0]] + a.drop_first());
                assert(b =~= seq![b[0]] + b.drop_first());
            }
        }
    }
}

impl<T: Model> Model for Vec<T> {
    type M = Seq<T::M>;

    open spec fn model(&self) -> Seq<T::M> {
        self@.map_values(|x: T| x.model())
    }

    fn duplicate(&self) -> (r: Vec<T>) {
        let mut r: Vec<T> = Vec::new();
        let mut i: usize = 0;
        while i < self.len()
            invariant
                i <= self.len(),
                r@.len() == i,
                forall|j: int| 0 <= j < i ==> #[trigger] r@[j].model() == self@[j].model(),
            decreases self.len() - i,
        {
            r.push(self[i].duplicate());
            i = i + 1;
        }
        assert(r.model() =~= self.model());
        r
    }
}

impl<T: KeyOrder> KeyOrder for Vec<T> {
    open spec fn less(a: Seq<T::M>, b: Seq<T::M>) -> bool {
        lex_less::<T>(a, b)
    }

    proof fn lemma_irreflexive(a: Seq<T::M>) {
        lemma_lex_irreflexive::<T>(a);
    }

    proof fn lemma_transitive(a: Seq<T::M>, b: Seq<T::M>, c: Seq<T::M>) {
        lemma_lex_transitive::<T>(a, b, c);
    }

    proof fn lemma_total(a: Seq<T::M>, b: Seq<T::M>) {
        lemma_lex_total::<T>(a, b);
    }

    fn compare(&self, other: &Vec<T>) -> (o: Order) {
        let ghost a = self.model();
        let ghost b = other.model();
        let mut i: usize = 0;
        while i < self.len() && i < other.len()
            invariant
                i <= self.len(),
                i <= other.len(),
                a == self.model(),
                b == other.model(),
                a.subrange(0, i as int) == b.subrange(0, i as int),
            decreases self.len() - i,
        {
            let c = self[i].compare(&other[i]);
            proof {
                assert(a.skip(i as int)[0] == a[i as int]);
                assert(b.skip(i as int)[0] == b[i as int]);
                assert(a.skip(i as int).drop_first() =~= a.skip(i + 1));
                assert(b.skip(i as int).drop_first() =~= b.skip(i + 1));
            }
            match c {
                Order::Less => {
                    proof {
                        lemma_lex_total::<T>(a, b);
                        lemma_lex_order_facts::<T>(a, b, i as int);
                    }
                    return Order::Less;
                },
                Order::Greater => {
                    proof {
                        lemma_lex_order_facts::<T>(a, b, i as int);
                        lemma_lex_order_facts::<T>(b, a, i as int);
                        assert(b.skip(i as int).drop_first() =~= b.skip(i + 1));
                    }
                    return Order::Greater;
                },
                Order::Equal => {
                    proof {
                        assert(a.subrange(0, i + 1) =~= a.subrange(0, i as int).push(a[i as int]));
                        assert(b.subrange(0, i + 1) =~= b.subrange(0, i as int).push(b[i as int]));
                    }
                },
            }
            i = i + 1;
        }
        proof {
            lemma_lex_order_facts::<T>(a, b, i as int);
            lemma_lex_order_facts::<T>(b, a, i as int);
        }
        if i < other.len() {
            Order::Less
        } else if i < self.len() {
            Order::Greater
        } else {
            proof {
                assert(a =~= a.subrange(0, i as int));
                assert(b =~= b.subrange(0, i as int));
            }
            Order::Equal
        }
    }
}

/// With equal first `i` elements, the order of `a` and `b` is that of their
/// remainders, and they are equal exactly when their remainders are.
pub proof fn lemma_lex_order_facts<T: KeyOrder>(a: Seq<T::M>, b: Seq<T::M>, i: int)
    requires
        0 <= i <= a.len(),
        i <= b.len(),
        a.subrange(0, i) == b.subrange(0, i),
    ensures
        lex_less::<T>(a, b) == lex_less::<T>(a.skip(i), b.skip(i)),
        lex_less::<T>(b, a) == lex_less::<T>(b.skip(i), a.skip(i)),
        (a == b) == (a.skip(i) == b.skip(i)),
    decreases i,
{
    if i > 0 {
        assert(a[0] == a.subrange(0, i)[0]);
        assert(b[0] == b.subrange(0, i)[0]);
        T::lemma_irreflexive(a[0]);
        assert(a.drop_first().subrange(0, i - 1) =~= a.subrange(0, i).drop_first());
        assert(b.drop_first().subrange(0, i - 1) =~= b.subrange(0, i).drop_first());
        lemma_lex_order_facts::<T>(a.drop_first(), b.drop_first(), i - 1);
        assert(a.drop_first().skip(i - 1) =~= a.skip(i));
        assert(b.drop_first().skip(i - 1) =~= b.skip(i));
        if a.skip(i) == b.skip(i) {
            assert(a =~= a.subrange(0, i) + a.skip(i));
            assert(b =~= b.subrange(0, i) + b.skip(i));
        }
    } else {
        assert(a.skip(0) =~= a);
        assert(b.skip(0) =~= b);
    }
}


impl<T: Model> Model for Option<T> {
    type M = Option<T::M>;

    open spec fn model(&self) -> Option<T::M> {
        match self {
            Some(x) => Some(x.model()),
            None => None,
        }
    }

    fn duplicate(&self) -> (r: Option<T>) {
        match self {
            Some(x) => Some(x.duplicate()),
            None => None,
        }
    }
}

impl Model for bool {
    type M = bool;

    open spec fn model(&self) -> bool {
        *self
    }

    fn duplicate(&self) -> (r: bool) {
        *self
    }
}

/// The model of a byte vector is its view.
pub broadcast proof fn lemma_bytes_model(v: &Vec<u8>)
    ensures
        #[trigger] v.model() == v@,
{
    assert(v.model() =~= v@);
}

impl Model for u64 {
    type M = u64;

    open spec fn model(&self) -> u64 {
        *self
    }

    fn duplicate(&self) -> (r: u64) {
        *self
    }
}

impl Model for u128 {
    type M = u128;

    open spec fn model(&self) -> u128 {
        *self
    }

    fn duplicate(&self) -> (r: u128) {
        *self
    }
}

impl KeyOrder for u128 {
    open spec fn less(a: u128, b: u128) -> bool {
        a < b
    }

    proof fn lemma_irreflexive(a: u128) {
    }

    proof fn lemma_transitive(a: u128, b: u128, c: u128) {
    }

    proof fn lemma_total(a: u128, b: u128) {
    }

    fn compare(&self, other: &u128) -> (o: Order) {
        if *self < *other {
            Order::Less
        } else if *self == *other {
            Order::Equal
        } else {
            Order::Greater
        }
    }
}

} // verus!
