use vstd::prelude::*;

use crate::order::Rank;
use vstd::string::StringSliceAdditionalSpecFns;

verus! {

/// Lexicographic order on byte strings: the order of `str` in Rust.
pub open spec fn lex_less(a: Seq<u8>, b: Seq<u8>) -> bool
    decreases a.len(),
{
    if a.len() == 0 {
        b.len() > 0
    } else if b.len() == 0 {
        false
    } else if a[0] < b[0] {
        true
    } else if a[0] > b[0] {
        false
    } else {
        lex_less(a.drop_first(), b.drop_first())
    }
}

/// `lex_less` is a strict total order.
pub proof fn lemma_lex_order(a: Seq<u8>, b: Seq<u8>, c: Seq<u8>)
    ensures
        !lex_less(a, a),
        lex_less(a, b) && lex_less(b, c) ==> lex_less(a, c),
        lex_less(a, b) || lex_less(b, a) || a == b,
    decreases a.len(),
{
    if a.len() > 0 {
        lemma_lex_order(a.drop_first(), b.drop_first(), c.drop_first());
        if b.len() > 0 && a[0] == b[0] && a.drop_first() == b.drop_first() {
            assert(a =~= seq![a[0]] + a.drop_first());
            assert(b =~= seq![b[0]] + b.drop_first());
        }
    } else if b.len() == 0 {
        assert(a =~= b);
    }
}

/// Compares two byte strings lexicographically.
pub fn compare_bytes(a: &[u8], b: &[u8]) -> (r: Rank)
    ensures
        r == Rank::Less <==> lex_less(a@, b@),
        r == Rank::Greater <==> lex_less(b@, a@),
        r == Rank::Equal <==> a@ == b@,
{
    let mut i: usize = 0;
    proof {
        assert(a@.skip(0) =~= a@);
        assert(b@.skip(0) =~= b@);
        lemma_lex_order(a@, b@, a@);
    }
    while i < a.len() && i < b.len()
        invariant
            i <= a.len(),
            i <= b.len(),
            a@.take(i as int) == b@.take(i as int),
            lex_less(a@, b@) == lex_less(a@.skip(i as int), b@.skip(i as int)),
            lex_less(b@, a@) == lex_less(b@.skip(i as int), a@.skip(i as int)),
        decreases a.len() - i,
    {
        proof {
            assert(a@.skip(i as int)[0] == a@[i as int]);
            assert(b@.skip(i as int)[0] == b@[i as int]);
            assert(a@.skip(i as int).drop_first() =~= a@.skip(i + 1));
            assert(b@.skip(i as int).drop_first() =~= b@.skip(i + 1));
        }
        if a[i] < b[i] {
            proof {
                lemma_lex_order(a@, b@, a@);
            }
            return Rank::Less;
        } else if a[i] > b[i] {
            proof {
                lemma_lex_order(a@, b@, a@);
            }
            return Rank::Greater;
        }
        proof {
            assert(a@.take(i + 1) =~= a@.take(i as int).push(a@[i as int]));
            assert(b@.take(i + 1) =~= b@.take(i as int).push(b@[i as int]));
        }
        i += 1;
    }
    proof {
        lemma_lex_order(a@, b@, a@);
        if a.len() == b.len() {
            assert(a@ =~= a@.take(i as int));
            assert(b@ =~= b@.take(i as int));
        } else if i == a.len() {
            assert(a@.skip(i as int).len() == 0);
        } else {
            assert(b@.skip(i as int).len() == 0);
        }
    }
    if a.len() < b.len() {
        Rank::Less
    } else if a.len() > b.len() {
        Rank::Greater
    } else {
        Rank::Equal
    }
}

/// True when two strings hold the same bytes, and so the same characters.
pub fn same_name(a: &str, b: &str) -> (r: bool)
    ensures
        r <==> a.spec_bytes() == b.spec_bytes(),
{
    match compare_bytes(a.as_bytes(), b.as_bytes()) {
        Rank::Equal => true,
        _ => false,
    }
}

} // verus!
