use vstd::prelude::*;

verus! {

/// The outcome of comparing two values.
#[derive(Clone, Copy, Debug, PartialEq, Eq)]
pub enum Rank {
    Less,
    Equal,
    Greater,
}

/// A value with a strict total order on its view, used to keep bags sorted.
pub trait Ordinal: View + Copy + Sized {
    /// `a` sorts strictly before `b`.
    spec fn precedes(a: Self::V, b: Self::V) -> bool;

    /// `precedes` is a strict total order.
    proof fn lemma_strict_total_order(a: Self::V, b: Self::V, c: Self::V)
        ensures
            !Self::precedes(a, a),
            Self::precedes(a, b) && Self::precedes(b, c) ==> Self::precedes(a, c),
            Self::precedes(a, b) || Self::precedes(b, a) || a == b,
    ;

    /// Compares two values by the order.
    fn rank(&self, other: &Self) -> (r: Rank)
        ensures
            r == Rank::Less <==> Self::precedes(self@, other@),
            r == Rank::Greater <==> Self::precedes(other@, self@),
            r == Rank::Equal <==> self@ == other@,
    ;
}

impl Ordinal for i32 {
    open spec fn precedes(a: i32, b: i32) -> bool {
        a < b
    }

    proof fn lemma_strict_total_order(a: i32, b: i32, c: i32) {
    }

    fn rank(&self, other: &i32) -> (r: Rank) {
        if *self < *other {
            Rank::Less
        } else if *self > *other {
            Rank::Greater
        } else {
            Rank::Equal
        }
    }
}

impl Ordinal for u64 {
    open spec fn precedes(a: u64, b: u64) -> bool {
        a < b
    }

    proof fn lemma_strict_total_order(a: u64, b: u64, c: u64) {
    }

    fn rank(&self, other: &u64) -> (r: Rank) {
        if *self < *other {
            Rank::Less
        } else if *self > *other {
            Rank::Greater
        } else {
            Rank::Equal
        }
    }
}

/// Every element of `s` sorts strictly before every later element.
pub open spec fn ascending<T: Ordinal>(s: Seq<T::V>) -> bool {
    forall|i: int, j: int| 0 <= i < j < s.len() ==> T::precedes(#[trigger] s[i], #[trigger] s[j])
}

} // verus!
