use vstd::prelude::*;

use crate::random::random_up_to;
use rand::rngs::ThreadRng;

verus! {

/// The sum of the weights of the items.
pub open spec fn weight_sum<T>(items: Seq<(T, usize)>) -> nat
    decreases items.len(),
{
    if items.len() == 0 {
        0
    } else {
        weight_sum(items.drop_last()) + items.last().1 as nat
    }
}

/// The index of the item that the number `n` lands on when the items' weights are laid out end
/// to end from 1: the first item whose weights, counted up to and including it, reach `n`.
pub open spec fn landing<T>(items: Seq<(T, usize)>, n: int) -> int
    decreases items.len(),
{
    if items.len() == 0 {
        0
    } else if n <= items[0].1 {
        0
    } else {
        1 + landing(items.drop_first(), n - items[0].1)
    }
}

/// Items with weights, from which one can be picked at random in proportion to its weight. An
/// item of weight 0 is listed but never picked.
#[derive(Debug)]
pub struct WeightedVec<T> {
    items: Vec<(T, usize)>,
    total_weight: usize,
}

impl<T> WeightedVec<T> {
    #[verifier::type_invariant]
    spec fn total_is_sum(self) -> bool {
        self.total_weight == weight_sum(self.items@)
    }

    /// The items and their weights, in the order they were pushed.
    pub closed spec fn entries(&self) -> Seq<(T, usize)> {
        self.items@
    }

    /// An empty list.
    pub fn new() -> (r: Self)
        ensures
            r.entries() == Seq::<(T, usize)>::empty(),
    {
        WeightedVec { items: Vec::new(), total_weight: 0 }
    }

    /// The items and their weights.
    pub fn items(&self) -> (r: &Vec<(T, usize)>)
        ensures
            r@ == self.entries(),
    {
        &self.items
    }

    /// The sum of all weights.
    pub fn total_weight(&self) -> (r: usize)
        ensures
            r == weight_sum(self.entries()),
    {
        proof {
            use_type_invariant(self);
        }
        self.total_weight
    }

    /// Adds an item with a weight. The total weight must stay within `usize`.
    pub fn push(&mut self, value: T, weight: usize)
        requires
            weight_sum(old(self).entries()) + weight <= usize::MAX,
        ensures
            final(self).entries() == old(self).entries().push((value, weight)),
    {
        proof {
            use_type_invariant(&*self);
        }
        let ghost before = self.items@;
        let total = self.total_weight + weight;
        let mut taken = WeightedVec::new();
        std::mem::swap(&mut taken, self);
        let WeightedVec { items, total_weight: _ } = taken;
        let mut items = items;
        items.push((value, weight));
        proof {
            assert(items@.drop_last() =~= before);
        }
        *self = WeightedVec { items, total_weight: total };
    }

    /// The item that the number `n`, between 1 and the total weight, lands on.
    pub fn pick_at(&self, n: usize) -> (r: &T)
        requires
            1 <= n <= weight_sum(self.entries()),
        ensures
            0 <= landing(self.entries(), n as int) < self.entries().len(),
            *r == self.entries()[landing(self.entries(), n as int)].0,
    {
        let ghost all = self.items@;
        let mut rest: usize = n;
        let mut i: usize = 0;
        proof {
            assert(all.skip(0) =~= all);
            lemma_sum_split(all, 0);
        }
        while i < self.items.len()
            invariant
                all == self.items@,
                i <= all.len(),
                1 <= rest <= weight_sum(all.skip(i as int)),
                landing(all, n as int) == i + landing(all.skip(i as int), rest as int),
            decreases all.len() - i,
        {
            let weight = self.items[i].1;
            let ghost tail = all.skip(i as int);
            proof {
                lemma_sum_first(tail);
                assert(tail[0] == all[i as int]);
                assert(tail.drop_first() =~= all.skip(i + 1));
            }
            if rest <= weight {
                proof {
                    assert(landing(tail, rest as int) == 0);
                }
                return &self.items[i].0;
            }
            rest = rest - weight;
            i = i + 1;
        }
        proof {
            assert(all.skip(i as int) =~= Seq::<(T, usize)>::empty());
        }
        &self.items[0].0
    }

    /// Picks an item at random, in proportion to its weight. The total weight must not be 0.
    pub fn pick(&self, rng: &mut ThreadRng) -> (r: &T)
        requires
            weight_sum(self.entries()) > 0,
        ensures
            exists|n: int|
                1 <= n <= weight_sum(self.entries()) && 0 <= landing(self.entries(), n) < self.entries().len()
                    && *r == self.entries()[landing(self.entries(), n)].0,
    {
        let total = self.total_weight();
        let n = random_up_to(rng, total);
        self.pick_at(n)
    }
}

/// An item of a weighted list is smaller than the list, for recursion over nested patterns.
pub proof fn lemma_entry_decreases<T>(list: WeightedVec<T>, i: int)
    requires
        0 <= i < list.entries().len(),
    ensures
        decreases_to!(list => list.entries()[i].0),
{
    assert(decreases_to!(list => list.items));
    assert(decreases_to!(list.items => list.items@));
    assert(decreases_to!(list.items@ => list.items@[i]));
    assert(decreases_to!(list.items@[i] => list.items@[i].0));
}

proof fn lemma_sum_first<T>(items: Seq<(T, usize)>)
    requires
        items.len() > 0,
    ensures
        weight_sum(items) == items[0].1 + weight_sum(items.drop_first()),
    decreases items.len(),
{
    if items.len() > 1 {
        lemma_sum_first(items.drop_last());
        assert(items.drop_last().drop_first() =~= items.drop_first().drop_last());
        assert(items.drop_first().last() == items.last());
    } else {
        assert(items.drop_last() =~= Seq::<(T, usize)>::empty());
        assert(items.drop_first() =~= Seq::<(T, usize)>::empty());
    }
}

proof fn lemma_sum_split<T>(items: Seq<(T, usize)>, i: int)
    requires
        0 <= i <= items.len(),
    ensures
        weight_sum(items.skip(i)) <= weight_sum(items),
    decreases i,
{
    if i > 0 {
        lemma_sum_split(items, i - 1);
        lemma_sum_first(items.skip(i - 1));
        assert(items.skip(i - 1).drop_first() =~= items.skip(i));
    } else {
        assert(items.skip(0) =~= items);
    }
}

/// The weights of a prefix of the items sum to no more than all of them.
pub proof fn lemma_sum_prefix<T>(items: Seq<(T, usize)>, k: int)
    requires
        0 <= k <= items.len(),
    ensures
        weight_sum(items.take(k)) <= weight_sum(items),
    decreases items.len() - k,
{
    if k < items.len() {
        lemma_sum_prefix(items, k + 1);
        assert(items.take(k + 1).drop_last() =~= items.take(k));
    } else {
        assert(items.take(k) =~= items);
    }
}

} // verus!
