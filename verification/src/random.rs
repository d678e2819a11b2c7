use rand::rngs::ThreadRng;
use rand::seq::IndexedRandom as _;
use rand::Rng as _;
use vstd::prelude::*;

verus! {

/// The thread-local random number generator of the `rand` crate, carried through opaque.
#[verifier::external_type_specification]
#[verifier::external_body]
pub struct ExThreadRng(ThreadRng);

/// Calls `rand::Rng::random_range` with the range `1..=bound`. The crate documents that the
/// result lies in the range, and that it panics on an empty range, which `requires` rules out.
/// Which value comes out is left unsaid: it is random.
#[verifier::external_body]
pub(crate) fn random_up_to(rng: &mut ThreadRng, bound: usize) -> (r: usize)
    requires
        bound > 0,
    ensures
        1 <= r <= bound,
{
    rng.random_range(1..=bound)
}

/// Calls `rand::seq::IndexedRandom::choose` on a slice. The crate's source returns `None` for
/// an empty slice, and otherwise the item at an index drawn with `random_range` below the
/// length. Which item comes out is left unsaid: it is random.
#[verifier::external_body]
pub(crate) fn choose_item<'a, T>(items: &'a [T], rng: &mut ThreadRng) -> (r: Option<&'a T>)
    ensures
        r is None <==> items@.len() == 0,
        r matches Some(x) ==> exists|i: int| 0 <= i < items@.len() && items@[i] == *x,
{
    items.choose(rng)
}

} // verus!
