use vstd::prelude::*;

use crate::order::ascending;
use crate::order::Ordinal;
use crate::order::Rank;
use crate::random::choose_item;
use rand::rngs::ThreadRng;

verus! {

/// The views of the items of `s`, in order.
pub open spec fn views<T: View>(s: Seq<T>) -> Seq<T::V> {
    s.map_values(|t: T| t@)
}

/// `seq![v]` when `keep` holds, the empty sequence otherwise.
pub open spec fn kept<V>(keep: bool, v: V) -> Seq<V> {
    if keep {
        seq![v]
    } else {
        Seq::empty()
    }
}

/// The sorted merge of two sorted sequences, keeping an element according to whether it
/// occurs only in the first, only in the second, or in both.
pub open spec fn merged<T: Ordinal>(
    a: Seq<T::V>,
    b: Seq<T::V>,
    in_first: bool,
    in_second: bool,
    in_both: bool,
) -> Seq<T::V>
    decreases a.len() + b.len(),
{
    if a.len() == 0 {
        if b.len() == 0 {
            Seq::empty()
        } else {
            kept(in_second, b[0]) + merged::<T>(a, b.drop_first(), in_first, in_second, in_both)
        }
    } else if b.len() == 0 {
        kept(in_first, a[0]) + merged::<T>(a.drop_first(), b, in_first, in_second, in_both)
    } else if T::precedes(a[0], b[0]) {
        kept(in_first, a[0]) + merged::<T>(a.drop_first(), b, in_first, in_second, in_both)
    } else if T::precedes(b[0], a[0]) {
        kept(in_second, b[0]) + merged::<T>(a, b.drop_first(), in_first, in_second, in_both)
    } else {
        kept(in_both, a[0]) + merged::<T>(
            a.drop_first(),
            b.drop_first(),
            in_first,
            in_second,
            in_both,
        )
    }
}

/// Whether `x` belongs to the result of a set operation on `a` and `b`.
pub open spec fn selected<V>(
    a: Seq<V>,
    b: Seq<V>,
    in_first: bool,
    in_second: bool,
    in_both: bool,
    x: V,
) -> bool {
    ||| in_first && a.contains(x) && !b.contains(x)
    ||| in_second && b.contains(x) && !a.contains(x)
    ||| in_both && a.contains(x) && b.contains(x)
}

/// What a sequence with one more element at its end contains.
pub proof fn lemma_push_contains<A>(s: Seq<A>, v: A)
    ensures
        forall|x: A| #[trigger] s.push(v).contains(x) <==> (s.contains(x) || x == v),
{
    assert forall|x: A| #[trigger] s.push(v).contains(x) <==> (s.contains(x) || x == v) by {
        if s.push(v).contains(x) {
            let k = choose|k: int| 0 <= k < s.push(v).len() && s.push(v)[k] == x;
            if k < s.len() {
                assert(s[k] == x);
            }
        }
        if s.contains(x) {
            let k = choose|k: int| 0 <= k < s.len() && s[k] == x;
            assert(s.push(v)[k] == x);
        }
        if x == v {
            assert(s.push(v)[s.len() as int] == x);
        }
    }
}

/// The head of an ascending sequence sorts before everything after it.
proof fn lemma_head_first<T: Ordinal>(s: Seq<T::V>)
    requires
        ascending::<T>(s),
        s.len() > 0,
    ensures
        forall|x: T::V| s.drop_first().contains(x) ==> T::precedes(s[0], x),
        !s.drop_first().contains(s[0]),
        ascending::<T>(s.drop_first()),
{
    assert forall|x: T::V| s.drop_first().contains(x) implies T::precedes(s[0], x) by {
        let k = choose|k: int| 0 <= k < s.drop_first().len() && s.drop_first()[k] == x;
        assert(s[k + 1] == x);
    }
    if s.drop_first().contains(s[0]) {
        T::lemma_strict_total_order(s[0], s[0], s[0]);
    }
    assert forall|i: int, j: int| 0 <= i < j < s.drop_first().len() implies T::precedes(
        #[trigger] s.drop_first()[i],
        #[trigger] s.drop_first()[j],
    ) by {
        assert(s.drop_first()[i] == s[i + 1]);
        assert(s.drop_first()[j] == s[j + 1]);
    }
}

/// If `a` sorts before the head of an ascending sequence, it sorts before all of it.
proof fn lemma_before_all<T: Ordinal>(a: T::V, s: Seq<T::V>)
    requires
        ascending::<T>(s),
        s.len() > 0,
        T::precedes(a, s[0]),
    ensures
        forall|x: T::V| s.contains(x) ==> T::precedes(a, x),
        !s.contains(a),
{
    assert forall|x: T::V| s.contains(x) implies T::precedes(a, x) by {
        let k = choose|k: int| 0 <= k < s.len() && s[k] == x;
        if k > 0 {
            assert(T::precedes(s[0], s[k]));
            T::lemma_strict_total_order(a, s[0], x);
        }
    }
    if s.contains(a) {
        T::lemma_strict_total_order(a, a, a);
    }
}

/// The merge of two ascending sequences is ascending and holds exactly the selected elements.
pub proof fn lemma_merged<T: Ordinal>(
    a: Seq<T::V>,
    b: Seq<T::V>,
    in_first: bool,
    in_second: bool,
    in_both: bool,
)
    requires
        ascending::<T>(a),
        ascending::<T>(b),
    ensures
        ascending::<T>(merged::<T>(a, b, in_first, in_second, in_both)),
        forall|x: T::V|
            merged::<T>(a, b, in_first, in_second, in_both).contains(x) <==> selected(
                a,
                b,
                in_first,
                in_second,
                in_both,
                x,
            ),
    decreases a.len() + b.len(),
{
    let m = merged::<T>(a, b, in_first, in_second, in_both);
    if a.len() == 0 && b.len() == 0 {
        assert(m =~= Seq::<T::V>::empty());
    } else {
        // which head is taken, and what remains
        let (h, keep, rest_a, rest_b) = if a.len() == 0 {
            (b[0], in_second, a, b.drop_first())
        } else if b.len() == 0 {
            (a[0], in_first, a.drop_first(), b)
        } else if T::precedes(a[0], b[0]) {
            (a[0], in_first, a.drop_first(), b)
        } else if T::precedes(b[0], a[0]) {
            (b[0], in_second, a, b.drop_first())
        } else {
            (a[0], in_both, a.drop_first(), b.drop_first())
        };
        if a.len() > 0 {
            lemma_head_first::<T>(a);
        }
        if b.len() > 0 {
            lemma_head_first::<T>(b);
        }
        if a.len() > 0 && b.len() > 0 {
            T::lemma_strict_total_order(a[0], b[0], a[0]);
            if T::precedes(a[0], b[0]) {
                lemma_before_all::<T>(a[0], b);
            } else if T::precedes(b[0], a[0]) {
                lemma_before_all::<T>(b[0], a);
            }
        }
        lemma_merged::<T>(rest_a, rest_b, in_first, in_second, in_both);
        let rest = merged::<T>(rest_a, rest_b, in_first, in_second, in_both);
        assert(m == kept(keep, h) + rest);
        // the head sorts before everything that remains
        assert forall|x: T::V| rest_a.contains(x) || rest_b.contains(x) implies T::precedes(
            h,
            x,
        ) by {
            if a.len() > 0 && b.len() > 0 && !T::precedes(a[0], b[0]) && !T::precedes(b[0], a[0]) {
                assert(a[0] == b[0]);
            }
            if a.len() > 0 && b.len() > 0 && T::precedes(b[0], a[0]) && rest_a.contains(x) {
                lemma_before_all::<T>(b[0], a);
            }
            if a.len() > 0 && b.len() > 0 && T::precedes(a[0], b[0]) && rest_b.contains(x) {
                lemma_before_all::<T>(a[0], b);
            }
        }
        assert forall|x: T::V| rest.contains(x) implies T::precedes(h, x) by {
            assert(selected(rest_a, rest_b, in_first, in_second, in_both, x));
        }
        assert forall|i: int, j: int| 0 <= i < j < m.len() implies T::precedes(
            #[trigger] m[i],
            #[trigger] m[j],
        ) by {
            if keep {
                if i == 0 {
                    assert(m[j] == rest[j - 1]);
                    assert(rest.contains(rest[j - 1]));
                } else {
                    assert(m[i] == rest[i - 1]);
                    assert(m[j] == rest[j - 1]);
                }
            } else {
                assert(m[i] == rest[i]);
                assert(m[j] == rest[j]);
            }
        }
        assert forall|x: T::V| m.contains(x) <==> selected(a, b, in_first, in_second, in_both, x) by {
            if a.len() > 0 {
                assert(a =~= seq![a[0]] + a.drop_first());
                assert(a.contains(x) <==> (x == a[0] || a.drop_first().contains(x)));
            }
            if b.len() > 0 {
                assert(b =~= seq![b[0]] + b.drop_first());
                assert(b.contains(x) <==> (x == b[0] || b.drop_first().contains(x)));
            }
            assert(!rest_a.contains(h) && !rest_b.contains(h)) by {
                if a.len() > 0 && b.len() > 0 && T::precedes(b[0], a[0]) {
                    lemma_before_all::<T>(b[0], a);
                }
                if a.len() > 0 && b.len() > 0 && T::precedes(a[0], b[0]) {
                    lemma_before_all::<T>(a[0], b);
                }
                if a.len() > 0 && b.len() > 0 && !T::precedes(a[0], b[0]) && !T::precedes(
                    b[0],
                    a[0],
                ) {
                    assert(a[0] == b[0]);
                }
            }
            assert(selected(a, b, in_first, in_second, in_both, h) == keep) by {
                if a.len() > 0 && b.len() > 0 && !T::precedes(a[0], b[0]) && !T::precedes(
                    b[0],
                    a[0],
                ) {
                    assert(a[0] == b[0]);
                }
            }
            assert(!rest.contains(h)) by {
                if rest.contains(h) {
                    assert(selected(rest_a, rest_b, in_first, in_second, in_both, h));
                }
            }
            assert(rest.contains(x) <==> selected(rest_a, rest_b, in_first, in_second, in_both, x));
            if x != h {
                assert(a.contains(x) <==> rest_a.contains(x));
                assert(b.contains(x) <==> rest_b.contains(x));
            }
            if keep {
                assert(m.contains(x) <==> (x == h || rest.contains(x))) by {
                    if m.contains(x) {
                        let k = choose|k: int| 0 <= k < m.len() && m[k] == x;
                        if k > 0 {
                            assert(rest[k - 1] == x);
                        }
                    }
                    if rest.contains(x) {
                        let k = choose|k: int| 0 <= k < rest.len() && rest[k] == x;
                        assert(m[k + 1] == x);
                    }
                    assert(m[0] == h);
                }
            } else {
                assert(m =~= rest);
            }
        }
    }
}

/// Two ascending sequences with the same elements are the same sequence.
pub proof fn lemma_ascending_unique<T: Ordinal>(s1: Seq<T::V>, s2: Seq<T::V>)
    requires
        ascending::<T>(s1),
        ascending::<T>(s2),
        forall|x: T::V| s1.contains(x) <==> s2.contains(x),
    ensures
        s1 == s2,
    decreases s1.len(),
{
    if s1.len() == 0 {
        if s2.len() > 0 {
            assert(s2.contains(s2[0]));
        }
        assert(s1 =~= s2);
    } else {
        assert(s1.contains(s1[0]));
        assert(s2.len() > 0);
        assert(s2.contains(s2[0]));
        lemma_head_first::<T>(s1);
        lemma_head_first::<T>(s2);
        assert(s1 =~= seq![s1[0]] + s1.drop_first());
        assert(s2 =~= seq![s2[0]] + s2.drop_first());
        T::lemma_strict_total_order(s1[0], s2[0], s1[0]);
        if s1[0] != s2[0] {
            assert(s2.drop_first().contains(s1[0]));
            assert(s1.drop_first().contains(s2[0]));
            assert(false);
        }
        assert forall|x: T::V| s1.drop_first().contains(x) <==> s2.drop_first().contains(x) by {
            assert(s1.contains(x) <==> (x == s1[0] || s1.drop_first().contains(x)));
            assert(s2.contains(x) <==> (x == s2[0] || s2.drop_first().contains(x)));
        }
        lemma_ascending_unique::<T>(s1.drop_first(), s2.drop_first());
    }
}


/// A sorted set that keeps its items in a vector, so it can be indexed and chosen from at
/// random. Items are kept in ascending order with no two items of the same view.
#[derive(Debug)]
pub struct Bag<T: Ordinal>(Vec<T>);

impl<T: Ordinal> View for Bag<T> {
    type V = Seq<T::V>;

    closed spec fn view(&self) -> Seq<T::V> {
        views(self.0@)
    }
}

/// Where a value stands in a bag: at an index, or missing and belonging at an index.
pub enum Position {
    Found(usize),
    Missing(usize),
}

impl<T: Ordinal> Bag<T> {
    #[verifier::type_invariant]
    spec fn well_formed(self) -> bool {
        ascending::<T>(views(self.0@))
    }

    /// An empty bag.
    pub fn new() -> (r: Self)
        ensures
            r@ == Seq::<T::V>::empty(),
            ascending::<T>(r@),
    {
        let r = Bag(Vec::new());
        assert(views(r.0@) =~= Seq::<T::V>::empty());
        r
    }

    /// The number of items.
    pub fn len(&self) -> (r: usize)
        ensures
            r == self@.len(),
    {
        self.0.len()
    }

    /// True when the bag has no items.
    pub fn is_empty(&self) -> (r: bool)
        ensures
            r <==> self@.len() == 0,
    {
        self.0.len() == 0
    }

    /// The item at an index, in ascending order.
    pub fn get(&self, index: usize) -> (r: &T)
        requires
            index < self@.len(),
        ensures
            r@ == self@[index as int],
    {
        &self.0[index]
    }

    /// Chooses an item at random, or `None` when the bag is empty.
    pub fn pick(&self, rng: &mut ThreadRng) -> (r: Option<&T>)
        ensures
            r is None <==> self@.len() == 0,
            r matches Some(t) ==> self@.contains(t@),
    {
        let r = choose_item(self.0.as_slice(), rng);
        proof {
            if let Some(x) = r {
                let i = choose|i: int| 0 <= i < self.0@.len() && self.0@[i] == *x;
                assert(self@[i] == x@);
            }
        }
        r
    }

    /// The items in ascending order.
    pub fn items(&self) -> (r: &[T])
        ensures
            views(r@) == self@,
            ascending::<T>(self@),
    {
        proof {
            use_type_invariant(self);
        }
        self.0.as_slice()
    }

    /// The items in ascending order, as a new vector.
    pub fn list(&self) -> (r: Vec<T>)
        ensures
            views(r@) == self@,
    {
        let mut r: Vec<T> = Vec::new();
        let mut i: usize = 0;
        while i < self.0.len()
            invariant
                i <= self.0.len(),
                views(r@) =~= views(self.0@).take(i as int),
            decreases self.0.len() - i,
        {
            let ghost before = r@;
            let item = self.0[i];
            r.push(item);
            assert(r@ == before.push(item));
            assert(views(r@) =~= views(before).push(item@));
            assert(views(self.0@).take(i + 1) =~= views(self.0@).take(i as int).push(item@));
            i += 1;
        }
        assert(views(self.0@).take(i as int) =~= views(self.0@));
        r
    }

    /// A bag with the same items.
    pub fn duplicate(&self) -> (r: Self)
        ensures
            r@ == self@,
    {
        proof {
            use_type_invariant(self);
        }
        Bag(self.list())
    }

    /// Binary search for a value's view among the items.
    pub fn search(&self, value: &T) -> (r: Position)
        ensures
            match r {
                Position::Found(i) => i < self@.len() && self@[i as int] == value@,
                Position::Missing(i) => {
                    &&& i <= self@.len()
                    &&& forall|k: int| 0 <= k < i ==> T::precedes(#[trigger] self@[k], value@)
                    &&& forall|k: int|
                        i <= k < self@.len() ==> T::precedes(value@, #[trigger] self@[k])
                    &&& !self@.contains(value@)
                },
            },
    {
        proof {
            use_type_invariant(self);
        }
        let ghost s = self@;
        let mut low: usize = 0;
        let mut high: usize = self.0.len();
        while low < high
            invariant
                s == self@,
                s == views(self.0@),
                ascending::<T>(s),
                low <= high <= s.len(),
                forall|k: int| 0 <= k < low ==> T::precedes(#[trigger] s[k], value@),
                forall|k: int| high <= k < s.len() ==> T::precedes(value@, #[trigger] s[k]),
            decreases high - low,
        {
            let mid = low + (high - low) / 2;
            match self.0[mid].rank(value) {
                Rank::Equal => {
                    return Position::Found(mid);
                },
                Rank::Less => {
                    proof {
                        assert forall|k: int| 0 <= k < mid + 1 implies T::precedes(
                            #[trigger] s[k],
                            value@,
                        ) by {
                            if k < mid {
                                T::lemma_strict_total_order(s[k], s[mid as int], value@);
                            }
                        }
                    }
                    low = mid + 1;
                },
                Rank::Greater => {
                    proof {
                        assert forall|k: int| mid <= k < s.len() implies T::precedes(
                            value@,
                            #[trigger] s[k],
                        ) by {
                            if k > mid {
                                T::lemma_strict_total_order(value@, s[mid as int], s[k]);
                            }
                        }
                    }
                    high = mid;
                },
            }
        }
        proof {
            if s.contains(value@) {
                let k = choose|k: int| 0 <= k < s.len() && s[k] == value@;
                T::lemma_strict_total_order(value@, value@, value@);
                if k < low {
                    assert(T::precedes(s[k], value@));
                } else {
                    assert(T::precedes(value@, s[k]));
                }
            }
        }
        Position::Missing(low)
    }

    /// True when the bag holds an item with the view of `value`.
    pub fn contains(&self, value: &T) -> (r: bool)
        ensures
            r <==> self@.contains(value@),
    {
        match self.search(value) {
            Position::Found(i) => {
                assert(self@[i as int] == value@);
                true
            },
            Position::Missing(_) => false,
        }
    }

    /// Inserts the item unless the bag already holds one with its view. Returns true if it
    /// was inserted.
    pub fn insert(&mut self, value: T) -> (r: bool)
        ensures
            r <==> !old(self)@.contains(value@),
            forall|x: T::V| final(self)@.contains(x) <==> (old(self)@.contains(x) || x == value@),
            r ==> final(self)@.len() == old(self)@.len() + 1,
            !r ==> final(self)@ == old(self)@,
            ascending::<T>(final(self)@),
    {
        proof {
            use_type_invariant(&*self);
        }
        match self.search(&value) {
            Position::Found(i) => {
                assert(self@[i as int] == value@);
                false
            },
            Position::Missing(pos) => {
                let ghost s = self@;
                let mut items = Vec::new();
                std::mem::swap(&mut items, &mut self.0);
                assert(views(items@) == s);
                items.insert(pos, value);
                proof {
                    let n = views(items@);
                    assert(n =~= s.take(pos as int).push(value@) + s.skip(pos as int));
                    assert forall|i: int, j: int| 0 <= i < j < n.len() implies T::precedes(
                        #[trigger] n[i],
                        #[trigger] n[j],
                    ) by {
                        if j < pos {
                            assert(n[i] == s[i] && n[j] == s[j]);
                        } else if j == pos {
                            assert(n[i] == s[i]);
                        } else if i < pos {
                            assert(n[i] == s[i] && n[j] == s[j - 1]);
                            T::lemma_strict_total_order(s[i], value@, s[j - 1]);
                        } else if i == pos {
                            assert(n[j] == s[j - 1]);
                        } else {
                            assert(n[i] == s[i - 1] && n[j] == s[j - 1]);
                        }
                    }
                    assert forall|x: T::V| n.contains(x) <==> (s.contains(x) || x == value@) by {
                        if n.contains(x) {
                            let k = choose|k: int| 0 <= k < n.len() && n[k] == x;
                            if k < pos {
                                assert(s[k] == x);
                            } else if k > pos {
                                assert(s[k - 1] == x);
                            }
                        }
                        if s.contains(x) {
                            let k = choose|k: int| 0 <= k < s.len() && s[k] == x;
                            if k < pos {
                                assert(n[k] == x);
                            } else {
                                assert(n[k + 1] == x);
                            }
                        }
                        if x == value@ {
                            assert(n[pos as int] == x);
                        }
                    }
                }
                self.0 = items;
                true
            },
        }
    }

    /// Removes the item with the view of `value`, returning it, or `None` when there is none.
    pub fn remove(&mut self, value: &T) -> (r: Option<T>)
        ensures
            r is Some <==> old(self)@.contains(value@),
            r matches Some(t) ==> t@ == value@,
            forall|x: T::V|
                final(self)@.contains(x) <==> (old(self)@.contains(x) && x != value@),
    {
        proof {
            use_type_invariant(&*self);
        }
        match self.search(value) {
            Position::Found(pos) => {
                let ghost s = self@;
                let mut items = Vec::new();
                std::mem::swap(&mut items, &mut self.0);
                assert(views(items@) == s);
                let removed = items.remove(pos);
                proof {
                    let n = views(items@);
                    assert(n =~= s.take(pos as int) + s.skip(pos as int + 1));
                    assert forall|i: int, j: int| 0 <= i < j < n.len() implies T::precedes(
                        #[trigger] n[i],
                        #[trigger] n[j],
                    ) by {
                        if j < pos {
                            assert(n[i] == s[i] && n[j] == s[j]);
                        } else if i < pos {
                            assert(n[i] == s[i] && n[j] == s[j + 1]);
                        } else {
                            assert(n[i] == s[i + 1] && n[j] == s[j + 1]);
                        }
                    }
                    assert forall|x: T::V| n.contains(x) <==> (s.contains(x) && x != value@) by {
                        if n.contains(x) {
                            let k = choose|k: int| 0 <= k < n.len() && n[k] == x;
                            if k < pos {
                                assert(s[k] == x);
                                assert(T::precedes(s[k], s[pos as int]));
                                T::lemma_strict_total_order(x, x, x);
                            } else {
                                assert(s[k + 1] == x);
                                assert(T::precedes(s[pos as int], s[k + 1]));
                                T::lemma_strict_total_order(x, x, x);
                            }
                        }
                        if s.contains(x) && x != value@ {
                            let k = choose|k: int| 0 <= k < s.len() && s[k] == x;
                            if k < pos {
                                assert(n[k] == x);
                            } else {
                                assert(k != pos);
                                assert(n[k - 1] == x);
                            }
                        }
                    }
                }
                self.0 = items;
                Some(removed)
            },
            Position::Missing(_) => None,
        }
    }

    /// Merges two bags, keeping an item according to whether it is only in `self`, only in
    /// `other`, or in both.
    pub fn set_operation(
        &self,
        other: &Self,
        insert_if_in_self: bool,
        insert_if_in_other: bool,
        insert_if_in_both: bool,
    ) -> (r: Self)
        ensures
            r@ == merged::<T>(
                self@,
                other@,
                insert_if_in_self,
                insert_if_in_other,
                insert_if_in_both,
            ),
            ascending::<T>(r@),
            forall|x: T::V|
                r@.contains(x) <==> selected(
                    self@,
                    other@,
                    insert_if_in_self,
                    insert_if_in_other,
                    insert_if_in_both,
                    x,
                ),
    {
        proof {
            use_type_invariant(self);
            use_type_invariant(other);
        }
        let ghost a = self@;
        let ghost b = other@;
        let ghost whole = merged::<T>(a, b, insert_if_in_self, insert_if_in_other, insert_if_in_both);
        let mut result: Vec<T> = Vec::new();
        let mut i: usize = 0;
        let mut j: usize = 0;
        assert(a.skip(0) =~= a);
        assert(b.skip(0) =~= b);
        assert(views(result@) =~= Seq::<T::V>::empty());
        while i < self.0.len() || j < other.0.len()
            invariant
                a == views(self.0@),
                b == views(other.0@),
                i <= self.0.len(),
                j <= other.0.len(),
                whole == merged::<T>(a, b, insert_if_in_self, insert_if_in_other, insert_if_in_both),
                whole == views(result@) + merged::<T>(
                    a.skip(i as int),
                    b.skip(j as int),
                    insert_if_in_self,
                    insert_if_in_other,
                    insert_if_in_both,
                ),
            decreases self.0.len() - i + other.0.len() - j,
        {
            let ghost rest_a = a.skip(i as int);
            let ghost rest_b = b.skip(j as int);
            let ghost before = views(result@);
            if i < self.0.len() && j < other.0.len() {
                let x = self.0[i];
                let y = other.0[j];
                assert(rest_a[0] == x@ && rest_b[0] == y@);
                assert(rest_a.drop_first() =~= a.skip(i + 1));
                assert(rest_b.drop_first() =~= b.skip(j + 1));
                match x.rank(&y) {
                    Rank::Less => {
                        if insert_if_in_self {
                            result.push(x);
                        }
                        i += 1;
                    },
                    Rank::Greater => {
                        if insert_if_in_other {
                            result.push(y);
                        }
                        j += 1;
                    },
                    Rank::Equal => {
                        if insert_if_in_both {
                            result.push(x);
                        }
                        i += 1;
                        j += 1;
                    },
                }
            } else if i < self.0.len() {
                let x = self.0[i];
                assert(rest_a[0] == x@);
                assert(rest_a.drop_first() =~= a.skip(i + 1));
                assert(rest_b.len() == 0);
                if insert_if_in_self {
                    result.push(x);
                }
                i += 1;
            } else {
                let y = other.0[j];
                assert(rest_b[0] == y@);
                assert(rest_b.drop_first() =~= b.skip(j + 1));
                assert(rest_a.len() == 0);
                if insert_if_in_other {
                    result.push(y);
                }
                j += 1;
            }
            assert(views(result@) =~= before + (views(result@).skip(before.len() as int)));
        }
        proof {
            assert(a.skip(i as int).len() == 0 && b.skip(j as int).len() == 0);
            assert(whole =~= views(result@));
            lemma_merged::<T>(a, b, insert_if_in_self, insert_if_in_other, insert_if_in_both);
        }
        Bag(result)
    }

    /// The items in either bag.
    pub fn union(&self, other: &Self) -> (r: Self)
        ensures
            r@ == merged::<T>(self@, other@, true, true, true),
            ascending::<T>(r@),
            forall|x: T::V| r@.contains(x) <==> (self@.contains(x) || other@.contains(x)),
    {
        self.set_operation(other, true, true, true)
    }

    /// The items of `self` that are not in `other`.
    pub fn difference(&self, other: &Self) -> (r: Self)
        ensures
            r@ == merged::<T>(self@, other@, true, false, false),
            ascending::<T>(r@),
            forall|x: T::V| r@.contains(x) <==> (self@.contains(x) && !other@.contains(x)),
    {
        self.set_operation(other, true, false, false)
    }

    /// The items in both bags.
    pub fn intersection(&self, other: &Self) -> (r: Self)
        ensures
            r@ == merged::<T>(self@, other@, false, false, true),
            ascending::<T>(r@),
            forall|x: T::V| r@.contains(x) <==> (self@.contains(x) && other@.contains(x)),
    {
        self.set_operation(other, false, false, true)
    }

    /// The items in exactly one of the bags.
    pub fn symmetric_difference(&self, other: &Self) -> (r: Self)
        ensures
            r@ == merged::<T>(self@, other@, true, true, false),
            ascending::<T>(r@),
            forall|x: T::V| r@.contains(x) <==> (self@.contains(x) != other@.contains(x)),
    {
        self.set_operation(other, true, true, false)
    }
}


/// Union, intersection and symmetric difference give the same bag whichever bag comes first.
pub proof fn lemma_set_operations_commute<T: Ordinal>(a: Seq<T::V>, b: Seq<T::V>)
    requires
        ascending::<T>(a),
        ascending::<T>(b),
    ensures
        merged::<T>(a, b, true, true, true) == merged::<T>(b, a, true, true, true),
        merged::<T>(a, b, false, false, true) == merged::<T>(b, a, false, false, true),
        merged::<T>(a, b, true, true, false) == merged::<T>(b, a, true, true, false),
{
    lemma_merged::<T>(a, b, true, true, true);
    lemma_merged::<T>(b, a, true, true, true);
    assert forall|x: T::V| merged::<T>(a, b, true, true, true).contains(x) <==> merged::<T>(b, a, true, true, true).contains(x) by {
        assert(merged::<T>(a, b, true, true, true).contains(x) <==> selected(a, b, true, true, true, x));
        assert(merged::<T>(b, a, true, true, true).contains(x) <==> selected(b, a, true, true, true, x));
    }
    lemma_ascending_unique::<T>(merged::<T>(a, b, true, true, true), merged::<T>(b, a, true, true, true));
    lemma_merged::<T>(a, b, false, false, true);
    lemma_merged::<T>(b, a, false, false, true);
    assert forall|x: T::V| merged::<T>(a, b, false, false, true).contains(x) <==> merged::<T>(b, a, false, false, true).contains(x) by {
        assert(merged::<T>(a, b, false, false, true).contains(x) <==> selected(a, b, false, false, true, x));
        assert(merged::<T>(b, a, false, false, true).contains(x) <==> selected(b, a, false, false, true, x));
    }
    lemma_ascending_unique::<T>(merged::<T>(a, b, false, false, true), merged::<T>(b, a, false, false, true));
    lemma_merged::<T>(a, b, true, true, false);
    lemma_merged::<T>(b, a, true, true, false);
    assert forall|x: T::V| merged::<T>(a, b, true, true, false).contains(x) <==> merged::<T>(b, a, true, true, false).contains(x) by {
        assert(merged::<T>(a, b, true, true, false).contains(x) <==> selected(a, b, true, true, false, x));
        assert(merged::<T>(b, a, true, true, false).contains(x) <==> selected(b, a, true, true, false, x));
    }
    lemma_ascending_unique::<T>(merged::<T>(a, b, true, true, false), merged::<T>(b, a, true, true, false));
}

/// The difference of two bags and their intersection share no item, and their union is the
/// first bag.
pub proof fn lemma_difference_and_intersection_partition<T: Ordinal>(a: Seq<T::V>, b: Seq<T::V>)
    requires
        ascending::<T>(a),
        ascending::<T>(b),
    ensures
        merged::<T>(merged::<T>(a, b, true, false, false), merged::<T>(a, b, false, false, true), true, true, true)
            == a,
        merged::<T>(merged::<T>(a, b, true, false, false), merged::<T>(a, b, false, false, true), false, false, true)
            == Seq::<T::V>::empty(),
{
    let d = merged::<T>(a, b, true, false, false);
    let i = merged::<T>(a, b, false, false, true);
    lemma_merged::<T>(a, b, true, false, false);
    lemma_merged::<T>(a, b, false, false, true);
    lemma_merged::<T>(d, i, true, true, true);
    lemma_merged::<T>(d, i, false, false, true);
    let all = merged::<T>(d, i, true, true, true);
    let none = merged::<T>(d, i, false, false, true);
    assert forall|x: T::V| all.contains(x) <==> a.contains(x) by {
        assert(d.contains(x) <==> selected(a, b, true, false, false, x));
        assert(i.contains(x) <==> selected(a, b, false, false, true, x));
        assert(all.contains(x) <==> selected(d, i, true, true, true, x));
    }
    lemma_ascending_unique::<T>(all, a);
    if none.len() > 0 {
        let x = none[0];
        assert(none.contains(x));
        assert(none.contains(x) <==> selected(d, i, false, false, true, x));
        assert(d.contains(x) <==> selected(a, b, true, false, false, x));
        assert(i.contains(x) <==> selected(a, b, false, false, true, x));
    }
}

/// The symmetric difference of two bags is their union less their intersection.
pub proof fn lemma_symmetric_difference_is_union_less_intersection<T: Ordinal>(a: Seq<T::V>, b: Seq<T::V>)
    requires
        ascending::<T>(a),
        ascending::<T>(b),
    ensures
        merged::<T>(a, b, true, true, false) == merged::<T>(
            merged::<T>(a, b, true, true, true),
            merged::<T>(a, b, false, false, true),
            true,
            false,
            false,
        ),
{
    let u = merged::<T>(a, b, true, true, true);
    let i = merged::<T>(a, b, false, false, true);
    lemma_merged::<T>(a, b, true, true, false);
    lemma_merged::<T>(a, b, true, true, true);
    lemma_merged::<T>(a, b, false, false, true);
    lemma_merged::<T>(u, i, true, false, false);
    let s1 = merged::<T>(a, b, true, true, false);
    let s2 = merged::<T>(u, i, true, false, false);
    assert forall|x: T::V| s1.contains(x) <==> s2.contains(x) by {
        assert(s1.contains(x) <==> selected(a, b, true, true, false, x));
        assert(u.contains(x) <==> selected(a, b, true, true, true, x));
        assert(i.contains(x) <==> selected(a, b, false, false, true, x));
        assert(s2.contains(x) <==> selected(u, i, true, false, false, x));
    }
    lemma_ascending_unique::<T>(s1, s2);
}

} // verus!
