use vstd::prelude::*;

use crate::bag::views;
use crate::errors::ElbieError;
use crate::phoneme::Phoneme;
use crate::phoneme::Inventory;
use crate::transformation::RuleState;
use crate::transformation::RuleStateError;
use crate::transformation::SpliceView;
use crate::transformation::WordSplice;
use crate::word::Word;

verus! {

/// `sorted` with `x` put after every splice that starts no later than it.
pub open spec fn insert_by_start(sorted: Seq<SpliceView>, x: SpliceView) -> Seq<SpliceView>
    decreases sorted.len(),
{
    if sorted.len() == 0 {
        seq![x]
    } else if x.0 < sorted.last().0 {
        insert_by_start(sorted.drop_last(), x).push(sorted.last())
    } else {
        sorted.push(x)
    }
}

/// The splices ordered by where they start; splices that start at the same place keep their
/// order.
pub open spec fn by_start(splices: Seq<SpliceView>) -> Seq<SpliceView>
    decreases splices.len(),
{
    if splices.len() == 0 {
        splices
    } else {
        insert_by_start(by_start(splices.drop_last()), splices.last())
    }
}

/// Whether the splices are in the order of where they start.
pub open spec fn starts_ascending(splices: Seq<SpliceView>) -> bool {
    forall|i: int, j: int| 0 <= i < j < splices.len() ==> splices[i].0 <= splices[j].0
}

/// Whether splice `a`, which starts no later than `b`, collides with it: they start at the
/// same place, or `a` reaches past the start of `b`.
pub open spec fn collides(a: SpliceView, b: SpliceView) -> bool {
    a.0 == b.0 || a.0 + a.1 > b.0
}

/// Whether the splice at `i` collides with the one after it.
pub open spec fn collides_with_next(splices: Seq<SpliceView>, i: int) -> bool {
    collides(splices[i], splices[i + 1])
}

/// Whether two neighbouring splices collide.
pub open spec fn neighbours_collide(splices: Seq<SpliceView>) -> bool {
    exists|i: int| 0 <= i && i + 1 < splices.len() && #[trigger] collides_with_next(splices, i)
}

/// Whether two different splices replace overlapping parts of the word or start at the same
/// place, whatever their order.
pub open spec fn any_collide(splices: Seq<SpliceView>) -> bool {
    exists|i: int, j: int|
        0 <= i < splices.len() && 0 <= j < splices.len() && i != j && splices[i].0 <= splices[j].0
            && #[trigger] collides(splices[i], splices[j])
}

/// The smaller of `x` and `hi`.
pub open spec fn clamp(x: int, hi: int) -> int {
    if x < hi {
        x
    } else {
        hi
    }
}

/// The word from `pos` on, with the ordered splices applied: the phonemes before each splice are
/// kept, the ones it covers are replaced, and a splice never reaches past the end of the word.
pub open spec fn spliced(word: Seq<Seq<u8>>, splices: Seq<SpliceView>, pos: int) -> Seq<Seq<u8>>
    decreases splices.len(),
{
    if splices.len() == 0 {
        word.subrange(pos, word.len() as int)
    } else {
        let kept_to = if pos < splices[0].0 {
            clamp(splices[0].0, word.len() as int)
        } else {
            pos
        };
        let resume = clamp(kept_to + splices[0].1, word.len() as int);
        word.subrange(pos, kept_to) + splices[0].2 + spliced(word, splices.drop_first(), resume)
    }
}

proof fn lemma_insert_at(sorted: Seq<SpliceView>, x: SpliceView, p: int)
    requires
        0 <= p <= sorted.len(),
        forall|k: int| p <= k < sorted.len() ==> sorted[k].0 > x.0,
        p > 0 ==> sorted[p - 1].0 <= x.0,
    ensures
        insert_by_start(sorted, x) == sorted.take(p).push(x) + sorted.skip(p),
    decreases sorted.len(),
{
    if sorted.len() == p {
        assert(sorted.take(p) =~= sorted);
        assert(sorted.skip(p) =~= Seq::<SpliceView>::empty());
        assert(sorted.take(p).push(x) + sorted.skip(p) =~= sorted.push(x));
    } else {
        let rest = sorted.drop_last();
        lemma_insert_at(rest, x, p);
        assert(rest.take(p) =~= sorted.take(p));
        assert(rest.skip(p).push(sorted.last()) =~= sorted.skip(p));
        assert((rest.take(p).push(x) + rest.skip(p)).push(sorted.last()) =~= sorted.take(p).push(x)
            + sorted.skip(p));
    }
}

proof fn lemma_insert_keeps_order(sorted: Seq<SpliceView>, x: SpliceView)
    requires
        starts_ascending(sorted),
    ensures
        starts_ascending(insert_by_start(sorted, x)),
        insert_by_start(sorted, x).to_multiset() == sorted.to_multiset().insert(x),
        insert_by_start(sorted, x).len() == sorted.len() + 1,
    decreases sorted.len(),
{
    broadcast use vstd::seq_lib::group_to_multiset_ensures;

    if sorted.len() == 0 {
        assert(seq![x] =~= Seq::<SpliceView>::empty().push(x));
    } else if x.0 < sorted.last().0 {
        let rest = sorted.drop_last();
        lemma_insert_keeps_order(rest, x);
        let inner = insert_by_start(rest, x);
        assert(sorted =~= rest.push(sorted.last()));
        assert forall|k: int| 0 <= k < inner.len() implies inner[k].0 <= sorted.last().0 by {
            let v = inner[k];
            assert(inner.to_multiset().contains(v));
            assert(inner.contains(v));
            assert(rest.to_multiset().insert(x).contains(v));
            if v != x {
                assert(rest.to_multiset().contains(v));
                assert(rest.contains(v));
                let m = choose|m: int| 0 <= m < rest.len() && rest[m] == v;
                assert(sorted[m] == v);
            }
        }
    } else {
    }
}

proof fn lemma_by_start(splices: Seq<SpliceView>)
    ensures
        starts_ascending(by_start(splices)),
        by_start(splices).to_multiset() == splices.to_multiset(),
        by_start(splices).len() == splices.len(),
    decreases splices.len(),
{
    broadcast use vstd::seq_lib::group_to_multiset_ensures;

    if splices.len() > 0 {
        lemma_by_start(splices.drop_last());
        lemma_insert_keeps_order(by_start(splices.drop_last()), splices.last());
        assert(splices =~= splices.drop_last().push(splices.last()));
    }
}

/// Ordering the splices by start puts them in ascending order of start, and neither adds nor
/// loses one.
pub proof fn lemma_by_start_is_sorted_permutation(splices: Seq<SpliceView>)
    ensures
        starts_ascending(by_start(splices)),
        by_start(splices).to_multiset() == splices.to_multiset(),
{
    lemma_by_start(splices);
}

fn insert_sorted(sorted: &mut Vec<WordSplice>, x: WordSplice)
    ensures
        views(final(sorted)@) == insert_by_start(views(old(sorted)@), x@),
{
    let ghost s = views(sorted@);
    let mut p: usize = sorted.len();
    while p > 0 && sorted[p - 1].start_index > x.start_index
        invariant
            p <= sorted@.len(),
            s == views(sorted@),
            forall|k: int| p <= k < sorted@.len() ==> sorted@[k].start_index > x.start_index,
        decreases p,
    {
        p = p - 1;
    }
    proof {
        lemma_insert_at(s, x@, p as int);
    }
    let ghost before = sorted@;
    sorted.insert(p, x);
    proof {
        assert(sorted@ =~= before.take(p as int).push(x) + before.skip(p as int));
        assert(views(sorted@) =~= s.take(p as int).push(x@) + s.skip(p as int));
    }
}

fn sort_by_start(splices: Vec<WordSplice>) -> (r: Vec<WordSplice>)
    ensures
        views(r@) == by_start(views(splices@)),
{
    let ghost all = views(splices@);
    let total = splices.len();
    let mut sorted: Vec<WordSplice> = Vec::new();
    let mut rest = splices;
    let mut taken: usize = 0;
    proof {
        assert(all.take(0) =~= Seq::<SpliceView>::empty());
        assert(views(sorted@) =~= by_start(all.take(0)));
    }
    while rest.len() > 0
        invariant
            taken + rest@.len() == all.len(),
            all.len() == total,
            views(rest@) == all.skip(taken as int),
            views(sorted@) == by_start(all.take(taken as int)),
        decreases rest@.len(),
    {
        let ghost before = rest@;
        let x = rest.remove(0);
        proof {
            assert(rest@ == before.remove(0));
            assert(all.skip(taken as int)[0] == all[taken as int]);
            assert(views(before)[0] == before[0]@);
            assert(x@ == all[taken as int]);
            assert(views(rest@) =~= views(before).drop_first());
            assert(all.skip(taken as int).drop_first() =~= all.skip(taken + 1));
            assert(all.take(taken + 1).drop_last() =~= all.take(taken as int));
        }
        insert_sorted(&mut sorted, x);
        taken = taken + 1;
    }
    proof {
        assert(all.take(taken as int) =~= all);
    }
    sorted
}

fn first_collision(sorted: &Vec<WordSplice>) -> (r: bool)
    requires
        starts_ascending(views(sorted@)),
    ensures
        r <==> neighbours_collide(views(sorted@)),
{
    let ghost s = views(sorted@);
    let mut i: usize = 1;
    while i < sorted.len()
        invariant
            1 <= i,
            s == views(sorted@),
            starts_ascending(s),
            forall|k: int| 0 <= k && k + 1 < i && k + 1 < s.len() ==> !#[trigger] collides_with_next(s, k),
        decreases sorted@.len() - i,
    {
        let a = &sorted[i - 1];
        let b = &sorted[i];
        assert(s[i - 1] == a@);
        assert(s[i as int] == b@);
        if a.start_index == b.start_index || a.start_index < b.start_index && a.length
            > b.start_index - a.start_index {
            assert(collides_with_next(s, i - 1));
            return true;
        }
        assert(!collides_with_next(s, i - 1));
        i = i + 1;
    }
    false
}

proof fn lemma_views_push<T: View>(a: Seq<T>, x: T)
    ensures
        views(a.push(x)) == views(a).push(x@),
{
    assert(views(a.push(x)) =~= views(a).push(x@));
}

proof fn lemma_views_append<T: View>(a: Seq<T>, b: Seq<T>)
    ensures
        views(a + b) == views(a) + views(b),
{
    assert(views(a + b) =~= views(a) + views(b));
}

/// Applies the splices found by a rule to a word. The splices are ordered by where they start;
/// two neighbours in that order that start at the same place, or where the first reaches past
/// the start of the second, are an error named after the rule. Otherwise the phonemes outside
/// the splices are kept and each splice's phonemes replace the ones it covers. The flag tells
/// whether any splice was applied.
pub fn apply_splices(word: &Word, splices: Vec<WordSplice>, rule_name: &'static str) -> (r: Result<
    (Word, bool),
    ElbieError,
>)
    ensures
        r is Err <==> neighbours_collide(by_start(views(splices@))),
        r matches Err(e) ==> e == ElbieError::TransformationCreatedOverlappingReplacements(
            rule_name,
        ),
        r matches Ok((w, applied)) ==> w@ == spliced(word@, by_start(views(splices@)), 0) && (
        applied <==> splices@.len() > 0),
{
    let ghost t = by_start(views(splices@));
    proof {
        lemma_by_start(views(splices@));
    }
    let sorted = sort_by_start(splices);
    assert(starts_ascending(views(sorted@)));
    if first_collision(&sorted) {
        return Err(ElbieError::TransformationCreatedOverlappingReplacements(rule_name));
    }
    let applied = sorted.len() > 0;
    let old = word.phonemes();
    let ghost w = word@;
    let n = old.len();
    let mut out: Vec<Phoneme> = Vec::new();
    let mut pos: usize = 0;
    let mut rest = sorted;
    proof {
        assert(views(out@) + spliced(w, views(rest@), 0) =~= spliced(w, t, 0));
    }
    while rest.len() > 0
        invariant
            n == old@.len(),
            w == views(old@),
            w.len() == n,
            pos <= n,
            views(out@) + spliced(w, views(rest@), pos as int) == spliced(w, t, 0),
        decreases rest@.len(),
    {
        let ghost r0 = views(rest@);
        let ghost out0 = views(out@);
        let ghost pos0 = pos as int;
        let mut s = rest.remove(0);
        proof {
            assert(views(rest@) =~= r0.drop_first());
            assert(s@ == r0[0]);
        }
        let ghost kept_to = if pos0 < s.start_index { clamp(s.start_index as int, n as int) } else { pos0 };
        while pos < n && pos < s.start_index
            invariant
                n == old@.len(),
                w == views(old@),
                w.len() == n,
                0 <= pos0,
                kept_to == (if pos0 < s.start_index as int {
                    clamp(s.start_index as int, n as int)
                } else {
                    pos0
                }),
                pos0 <= pos <= kept_to,
                kept_to <= n,
                views(out@) == out0 + w.subrange(pos0, pos as int),
            decreases n - pos,
        {
            let ghost before = out@;
            out.push(old[pos]);
            proof {
                lemma_views_append(before, seq![old@[pos as int]]);
                assert(w[pos as int] == old@[pos as int]@);
                assert(out0 + w.subrange(pos0, pos + 1) =~= (out0 + w.subrange(pos0, pos as int)).push(
                    w[pos as int],
                ));
            }
            pos = pos + 1;
        }
        assert(pos == kept_to);
        if s.length > n - pos {
            pos = n;
        } else {
            pos = pos + s.length;
        }
        let ghost before = out@;
        let ghost rep = s.replace@;
        let ghost sv = s@;
        out.append(&mut s.replace);
        proof {
            lemma_views_append(before, rep);
            let resume = pos as int;
            assert(spliced(w, r0, pos0) == w.subrange(pos0, kept_to) + sv.2 + spliced(
                w,
                r0.drop_first(),
                resume,
            ));
            assert(views(out@) + spliced(w, views(rest@), pos as int) =~= out0 + spliced(
                w,
                r0,
                pos0,
            ));
        }
    }
    let ghost tail_start = pos as int;
    let ghost out1 = views(out@);
    while pos < n
        invariant
            n == old@.len(),
            w == views(old@),
            w.len() == n,
            0 <= tail_start <= pos <= n,
            views(out@) == out1 + w.subrange(tail_start, pos as int),
        decreases n - pos,
    {
        let ghost before = out@;
        out.push(old[pos]);
        proof {
            lemma_views_push(before, old@[pos as int]);
            assert(w.subrange(tail_start, pos + 1) =~= w.subrange(tail_start, pos as int).push(
                w[pos as int],
            ));
        }
        pos = pos + 1;
    }
    proof {
        assert(spliced(w, Seq::<SpliceView>::empty(), tail_start) == w.subrange(tail_start, n as int));
        assert(views(rest@) =~= Seq::<SpliceView>::empty());
    }
    Ok((Word::from_phonemes(out), applied))
}

/// Among splices in ascending order of start, two neighbours collide exactly when some two
/// splices collide: checking neighbours finds every collision.
pub proof fn lemma_neighbours_collide_iff_any(splices: Seq<SpliceView>)
    requires
        starts_ascending(splices),
    ensures
        neighbours_collide(splices) <==> any_collide(splices),
{
    if neighbours_collide(splices) {
        let i = choose|i: int| 0 <= i && i + 1 < splices.len() && #[trigger] collides_with_next(splices, i);
        assert(collides(splices[i], splices[i + 1]));
        assert(any_collide(splices));
    }
    if any_collide(splices) {
        let (i, j) = choose|i: int, j: int|
            0 <= i < splices.len() && 0 <= j < splices.len() && i != j && splices[i].0 <= splices[j].0
                && #[trigger] collides(splices[i], splices[j]);
        let lo = if i < j { i } else { j };
        if splices[i].0 == splices[j].0 {
            assert(splices[lo].0 <= splices[lo + 1].0);
            assert(splices[lo + 1].0 <= splices[if i < j { j } else { i }].0);
            assert(collides_with_next(splices, lo));
        } else {
            assert(i < j);
            assert(splices[i].0 <= splices[i + 1].0 <= splices[j].0);
            assert(collides_with_next(splices, i));
        }
    }
}

/// Applying no splices leaves the word as it was.
pub proof fn lemma_no_splices(word: Seq<Seq<u8>>)
    ensures
        spliced(word, Seq::<SpliceView>::empty(), 0) == word,
{
    assert(word.subrange(0, word.len() as int) =~= word);
}

/// One splice inside the word replaces the phonemes it covers and keeps the rest.
pub proof fn lemma_one_splice(word: Seq<Seq<u8>>, splice: SpliceView)
    requires
        0 <= splice.0,
        0 <= splice.1,
        splice.0 + splice.1 <= word.len(),
    ensures
        spliced(word, seq![splice], 0) == word.take(splice.0) + splice.2 + word.skip(
            splice.0 + splice.1,
        ),
{
    let t = seq![splice];
    assert(t.drop_first() =~= Seq::<SpliceView>::empty());
    assert(t[0] == splice);
    let resume = splice.0 + splice.1;
    assert(spliced(word, t.drop_first(), resume) == word.subrange(resume, word.len() as int));
    assert(spliced(word, t, 0) == word.subrange(0, splice.0) + splice.2 + spliced(
        word,
        t.drop_first(),
        resume,
    ));
    assert(word.subrange(0, splice.0) =~= word.take(splice.0));
    assert(word.subrange(splice.0 + splice.1, word.len() as int) =~= word.skip(splice.0 + splice.1));
}

/// What the attempts of a rule's pattern collect, each given by the state it ran on, its
/// answer and the replacements of that state after it ran: the replacements of each attempt
/// that matched, in order, or the error of the first attempt that stopped with one. A failed
/// match adds nothing.
pub open spec fn collected<T>(tries: Seq<(T, Result<bool, RuleStateError>, Seq<SpliceView>)>) -> Result<
    Seq<SpliceView>,
    ElbieError,
>
    decreases tries.len(),
{
    if tries.len() == 0 {
        Ok(Seq::empty())
    } else {
        match tries[0].1 {
            Err(RuleStateError::Elbie(e)) => Err(e),
            Ok(true) => match collected(tries.drop_first()) {
                Ok(found) => Ok(tries[0].2 + found),
                Err(e) => Err(e),
            },
            _ => collected(tries.drop_first()),
        }
    }
}

/// Tries a rule's pattern at every place of the word, from the first phoneme to just past the
/// last, each time on a fresh state with no replacements, and collects the replacements of each
/// attempt that reports a match. A failed match adds nothing; an error stops the search. The
/// attempts are given by the states the pattern ran on (fresh, at places 0, 1, and so on), an
/// answer the pattern may give on each, and the replacements each state holds after it ran;
/// the result is what `collected` makes of them, and all places are tried unless an error
/// stops the search.
pub fn find_splices<'a, S: Fn(&mut RuleState<'a>) -> Result<bool, RuleStateError>>(
    inventory: &'a Inventory,
    phonemes: &'a [Phoneme],
    sequence: &S,
) -> (r: Result<Vec<WordSplice>, ElbieError>)
    requires
        forall|s: &mut RuleState<'a>| call_requires(*sequence, (s,)),
    ensures
        exists|tries: Seq<(&mut RuleState<'a>, Result<bool, RuleStateError>, Seq<SpliceView>)>|
            #![trigger collected(tries)]
            tries.len() <= phonemes@.len() + 1 && (forall|k: int|
                #![trigger tries[k]]
                0 <= k < tries.len() ==> mut_ref_current(tries[k].0).inventory_view() == *inventory
                    && mut_ref_current(tries[k].0).word() == views(phonemes@) && mut_ref_current(tries[k].0).position()
                    == k && mut_ref_current(tries[k].0).splices() == Seq::<SpliceView>::empty() && call_ensures(
                    *sequence,
                    (tries[k].0,),
                    tries[k].1,
                ) && tries[k].2 == mut_ref_future(tries[k].0).splices()) && match r {
                Ok(found) => tries.len() == phonemes@.len() + 1 && collected(tries) == Ok::<Seq<SpliceView>, ElbieError>(
                    views(found@),
                ),
                Err(e) => collected(tries) == Err::<Seq<SpliceView>, ElbieError>(e),
            },
{
    let r = find_splices_from(inventory, phonemes, sequence, 0);
    let ghost tries = choose|tries: Seq<(&mut RuleState<'a>, Result<bool, RuleStateError>, Seq<SpliceView>)>|
            #![trigger collected(tries)]
            tries.len() <= phonemes@.len() + 1 - 0 && (forall|k: int|
                #![trigger tries[k]]
                0 <= k < tries.len() ==> mut_ref_current(tries[k].0).inventory_view() == *inventory
                    && mut_ref_current(tries[k].0).word() == views(phonemes@) && mut_ref_current(tries[k].0).position()
                    == 0 + k && mut_ref_current(tries[k].0).splices() == Seq::<SpliceView>::empty() && call_ensures(
                    *sequence,
                    (tries[k].0,),
                    tries[k].1,
                ) && tries[k].2 == mut_ref_future(tries[k].0).splices()) && match r {
                Ok(found) => tries.len() == phonemes@.len() + 1 - 0 && collected(tries) == Ok::<Seq<SpliceView>, ElbieError>(
                    views(found@),
                ),
                Err(e) => collected(tries) == Err::<Seq<SpliceView>, ElbieError>(e),
            };
    assert(tries.len() <= phonemes@.len() + 1);
    r
}

/// `find_splices` from the place `index` on.
fn find_splices_from<'a, S: Fn(&mut RuleState<'a>) -> Result<bool, RuleStateError>>(
    inventory: &'a Inventory,
    phonemes: &'a [Phoneme],
    sequence: &S,
    index: usize,
) -> (r: Result<Vec<WordSplice>, ElbieError>)
    requires
        index <= phonemes@.len(),
        forall|s: &mut RuleState<'a>| call_requires(*sequence, (s,)),
    ensures
        exists|tries: Seq<(&mut RuleState<'a>, Result<bool, RuleStateError>, Seq<SpliceView>)>|
            #![trigger collected(tries)]
            tries.len() <= phonemes@.len() + 1 - index && (forall|k: int|
                #![trigger tries[k]]
                0 <= k < tries.len() ==> mut_ref_current(tries[k].0).inventory_view() == *inventory
                    && mut_ref_current(tries[k].0).word() == views(phonemes@) && mut_ref_current(tries[k].0).position()
                    == index + k && mut_ref_current(tries[k].0).splices() == Seq::<SpliceView>::empty() && call_ensures(
                    *sequence,
                    (tries[k].0,),
                    tries[k].1,
                ) && tries[k].2 == mut_ref_future(tries[k].0).splices()) && match r {
                Ok(found) => tries.len() == phonemes@.len() + 1 - index && collected(tries) == Ok::<Seq<SpliceView>, ElbieError>(
                    views(found@),
                ),
                Err(e) => collected(tries) == Err::<Seq<SpliceView>, ElbieError>(e),
            },
    decreases phonemes@.len() - index,
{
    let mut state = RuleState::new(inventory, phonemes, index);
    let answer = (*sequence)(&mut state);
    let ghost after = state.splices();
    let ghost first = choose|s: &mut RuleState<'a>|
        #![trigger call_ensures(*sequence, (s,), answer)]
        mut_ref_current(s).inventory_view() == *inventory && mut_ref_current(s).word() == views(phonemes@)
            && mut_ref_current(s).position() == index && mut_ref_current(s).splices() == Seq::<SpliceView>::empty()
            && call_ensures(*sequence, (s,), answer) && after == mut_ref_future(s).splices();
    let ghost single = seq![(first, answer, after)];
    proof {
        assert(single.drop_first() =~= Seq::<(&mut RuleState<'a>, Result<bool, RuleStateError>, Seq<SpliceView>)>::empty());
        assert(single[0] == (first, answer, after));
        assert(mut_ref_current(single[0].0).position() == index);
    }
    let mut here: Vec<WordSplice> = match answer {
        Ok(true) => state.into_splices(),
        Err(RuleStateError::Elbie(e)) => {
            assert(collected(single) == Err::<Seq<SpliceView>, ElbieError>(e));
            return Err(e);
        },
        _ => Vec::new(),
    };
    let ghost here_view = views(here@);
    proof {
        if !(answer matches Ok(true)) {
            assert(here_view =~= Seq::<SpliceView>::empty());
        }
        assert(collected(single.drop_first()) == Ok::<Seq<SpliceView>, ElbieError>(Seq::empty()));
    }
    if index == phonemes.len() {
        proof {
            assert(here_view + Seq::<SpliceView>::empty() =~= here_view);
            assert(collected(single) == Ok::<Seq<SpliceView>, ElbieError>(here_view));
        }
        return Ok(here);
    }
    let next = index + 1;
    let rest = find_splices_from(inventory, phonemes, sequence, next);
    let ghost later = choose|tries: Seq<(&mut RuleState<'a>, Result<bool, RuleStateError>, Seq<SpliceView>)>|
            #![trigger collected(tries)]
            tries.len() <= phonemes@.len() + 1 - next && (forall|k: int|
                #![trigger tries[k]]
                0 <= k < tries.len() ==> mut_ref_current(tries[k].0).inventory_view() == *inventory
                    && mut_ref_current(tries[k].0).word() == views(phonemes@) && mut_ref_current(tries[k].0).position()
                    == next + k && mut_ref_current(tries[k].0).splices() == Seq::<SpliceView>::empty() && call_ensures(
                    *sequence,
                    (tries[k].0,),
                    tries[k].1,
                ) && tries[k].2 == mut_ref_future(tries[k].0).splices()) && match rest {
                Ok(found) => tries.len() == phonemes@.len() + 1 - next && collected(tries) == Ok::<Seq<SpliceView>, ElbieError>(
                    views(found@),
                ),
                Err(e) => collected(tries) == Err::<Seq<SpliceView>, ElbieError>(e),
            };
    let ghost all = single + later;
    proof {
        assert(all.drop_first() =~= later);
        assert(all[0] == single[0]);
        assert forall|k: int| 1 <= k < all.len() implies #[trigger] all[k] == later[k - 1] by {}
        assert(forall|k: int|
            #![trigger all[k]]
            0 <= k < all.len() ==> mut_ref_current(all[k].0).inventory_view() == *inventory
                && mut_ref_current(all[k].0).word() == views(phonemes@) && mut_ref_current(all[k].0).position()
                == index + k && mut_ref_current(all[k].0).splices() == Seq::<SpliceView>::empty() && call_ensures(
                *sequence,
                (all[k].0,),
                all[k].1,
            ) && all[k].2 == mut_ref_future(all[k].0).splices());
    }
    match rest {
        Ok(mut found) => {
            let ghost found_view = views(found@);
            here.append(&mut found);
            proof {
                assert(views(here@) =~= here_view + found_view);
                if !(answer matches Ok(true)) {
                    assert(here_view + found_view =~= found_view);
                }
                assert(collected(all) == Ok::<Seq<SpliceView>, ElbieError>(views(here@)));
            }
            Ok(here)
        },
        Err(e) => {
            assert(collected(all) == Err::<Seq<SpliceView>, ElbieError>(e));
            Err(e)
        },
    }
}

/// Applies a rule to a word: finds the replacements of its pattern at every place of the word,
/// as `find_splices` says, then applies them all at once to the original word, as
/// `apply_splices` does. An error comes only from the pattern itself, the first error of its
/// attempts, or from replacements that collide.
pub fn apply_rule<'a, S: Fn(&mut RuleState<'a>) -> Result<bool, RuleStateError>>(
    inventory: &'a Inventory,
    word: &'a Word,
    rule_name: &'static str,
    sequence: &S,
) -> (r: Result<(Word, bool), ElbieError>)
    requires
        forall|s: &mut RuleState<'a>| call_requires(*sequence, (s,)),
    ensures
        exists|tries: Seq<(&mut RuleState<'a>, Result<bool, RuleStateError>, Seq<SpliceView>)>|
            #![trigger collected(tries)]
            tries.len() <= word@.len() + 1 && (forall|k: int|
                #![trigger tries[k]]
                0 <= k < tries.len() ==> mut_ref_current(tries[k].0).inventory_view() == *inventory
                    && mut_ref_current(tries[k].0).word() == word@ && mut_ref_current(tries[k].0).position() == k
                    && mut_ref_current(tries[k].0).splices() == Seq::<SpliceView>::empty() && call_ensures(
                    *sequence,
                    (tries[k].0,),
                    tries[k].1,
                ) && tries[k].2 == mut_ref_future(tries[k].0).splices()) && match collected(tries) {
                Ok(found) => tries.len() == word@.len() + 1 && match r {
                    Ok((w, applied)) => !neighbours_collide(by_start(found)) && w@ == spliced(
                        word@,
                        by_start(found),
                        0,
                    ) && (applied <==> found.len() > 0),
                    Err(e) => neighbours_collide(by_start(found)) && e
                        == ElbieError::TransformationCreatedOverlappingReplacements(rule_name),
                },
                Err(e) => r == Err::<(Word, bool), ElbieError>(e),
            },
{
    let phonemes = word.phonemes().as_slice();
    assert(views(phonemes@) == word@);
    let found = find_splices(inventory, phonemes, sequence);
    let ghost tries = choose|tries: Seq<(&mut RuleState<'a>, Result<bool, RuleStateError>, Seq<SpliceView>)>|
        #![trigger collected(tries)]
        tries.len() <= phonemes@.len() + 1 && (forall|k: int|
            #![trigger tries[k]]
            0 <= k < tries.len() ==> mut_ref_current(tries[k].0).inventory_view() == *inventory
                && mut_ref_current(tries[k].0).word() == views(phonemes@) && mut_ref_current(tries[k].0).position()
                == k && mut_ref_current(tries[k].0).splices() == Seq::<SpliceView>::empty() && call_ensures(
                *sequence,
                (tries[k].0,),
                tries[k].1,
            ) && tries[k].2 == mut_ref_future(tries[k].0).splices()) && match found {
            Ok(found) => tries.len() == phonemes@.len() + 1 && collected(tries) == Ok::<Seq<SpliceView>, ElbieError>(
                views(found@),
            ),
            Err(e) => collected(tries) == Err::<Seq<SpliceView>, ElbieError>(e),
        };
    match found {
        Ok(splices) => {
            let ghost f = views(splices@);
            let r = apply_splices(word, splices, rule_name);
            assert(collected(tries) == Ok::<Seq<SpliceView>, ElbieError>(f));
            r
        },
        Err(e) => {
            assert(collected(tries) == Err::<Seq<SpliceView>, ElbieError>(e));
            Err(e)
        },
    }
}

} // verus!
