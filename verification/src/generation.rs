use rand::rngs::ThreadRng;
use vstd::prelude::*;
use vstd::string::StringSliceAdditionalSpecFns;

use crate::bag::views;
use crate::errors::ElbieError;
use crate::patterns::AddPhoneme;
use crate::patterns::Choice;
use crate::patterns::NamedOrInlineBranches;
use crate::patterns::Pattern;
use crate::patterns::PatternSet;
use crate::patterns::Sequence;
use crate::patterns::Series;
use crate::patterns::TreeBranches;
use crate::phoneme::members;
use crate::phoneme::Inventory;
use crate::phoneme::Phoneme;
use crate::validation::set_test;
use crate::weighted_vec::landing;
use crate::weighted_vec::lemma_entry_decreases;
use crate::weighted_vec::weight_sum;
use crate::word::Word;

verus! {

/// The state of a word being generated: its phonemes so far, and whether it was ended.
pub type GenState = (Seq<Seq<u8>>, bool);

/// One thing drawn at random while generating: whether to generate a further repetition or an
/// optional part, a phoneme, or the index of an alternative of a choice.
pub enum Draw {
    Decision(bool),
    Phoneme(Seq<u8>),
    Alternative(int),
}

/// Where generation ends when it reads its draws from a sequence: the state it leaves or the
/// error it meets, with how many draws it used; `None` when the draws do not fit (one of the
/// wrong kind, a phoneme that may not be drawn, an alternative a draw cannot land on, or too
/// few draws).
pub type GenRun = Option<(Result<GenState, ElbieError>, nat)>;

/// A run that used `k` draws more.
pub open spec fn after(run: GenRun, k: nat) -> GenRun {
    match run {
        Some((out, n)) => Some((out, n + k)),
        None => None,
    }
}

/// A step of generation as a result: the state it left, or the error it met.
pub open spec fn outcome(r: Result<(), ElbieError>, word: Seq<Seq<u8>>, complete: bool) -> Result<GenState, ElbieError> {
    match r {
        Ok(()) => Ok((word, complete)),
        Err(e) => Err(e),
    }
}

/// A generated word as a result, with whether it was ended.
pub open spec fn word_result(r: Result<Word, ElbieError>, complete: bool) -> Result<GenState, ElbieError> {
    match r {
        Ok(w) => Ok((w@, complete)),
        Err(e) => Err(e),
    }
}

/// The first draw, when it is a decision.
pub open spec fn first_decision(draws: Seq<Draw>) -> Option<bool> {
    if draws.len() > 0 {
        match draws[0] {
            Draw::Decision(b) => Some(b),
            _ => None,
        }
    } else {
        None
    }
}

/// The first draw, when it is a phoneme.
pub open spec fn first_phoneme(draws: Seq<Draw>) -> Option<Seq<u8>> {
    if draws.len() > 0 {
        match draws[0] {
            Draw::Phoneme(p) => Some(p),
            _ => None,
        }
    } else {
        None
    }
}

/// The first draw, when it is an alternative.
pub open spec fn first_alternative(draws: Seq<Draw>) -> Option<int> {
    if draws.len() > 0 {
        match draws[0] {
            Draw::Alternative(i) => Some(i),
            _ => None,
        }
    } else {
        None
    }
}

/// Whether drawing a number between 1 and the total weight can land on the `i`th item.
pub open spec fn can_pick<T>(items: Seq<(T, usize)>, i: int) -> bool {
    exists|n: int| 1 <= n <= weight_sum(items) && landing(items, n) == i
}

/// Adding one phoneme of the named set: an error after the end of the word, for an unknown set,
/// or when the set has no phoneme to give (with `avoid_duplicates`, none but the phoneme before
/// it); otherwise the word with the drawn phoneme added, which must be in the set and, with
/// `avoid_duplicates`, not the phoneme before it.
pub open spec fn gen_phoneme(inventory: Inventory, add: AddPhoneme, s: GenState, draws: Seq<Draw>) -> GenRun {
    let name = add.name.spec_bytes();
    let set = members(inventory.set_named(name));
    if s.1 {
        Some((Err(ElbieError::PhonemeAfterTerminate), 0))
    } else if !inventory.has_set(name) {
        Some((Err(ElbieError::UnknownSet(add.name)), 0))
    } else if add.avoid_duplicates && s.0.len() > 0 {
        if exists|x: Seq<u8>| set.contains(x) && x != s.0.last() {
            match first_phoneme(draws) {
                Some(p) => if set.contains(p) && p != s.0.last() {
                    Some((Ok((s.0.push(p), false)), 1))
                } else {
                    None
                },
                None => None,
            }
        } else {
            Some((Err(ElbieError::SetIsEmptyWithFilter(add.name)), 0))
        }
    } else if set.len() > 0 {
        match first_phoneme(draws) {
            Some(p) => if set.contains(p) {
                Some((Ok((s.0.push(p), false)), 1))
            } else {
                None
            },
            None => None,
        }
    } else {
        Some((Err(ElbieError::SetIsEmpty(add.name)), 0))
    }
}

/// Generating `pattern` from the state `s`, reading what is drawn from `draws`. A sequence
/// generates its patterns one after another; a series generates its pattern `minimum` times
/// and then, while the word is not ended, draws a decision, and goes on while it is true and
/// `maximum` is not reached; an optional pattern, while the word is not ended, draws a decision
/// and is generated when it is true; a choice with no weight at all is an error, and otherwise
/// draws an alternative and generates it; a tree adds a phoneme and then generates the body of
/// the first branch whose condition that phoneme meets (none is an error); a reference
/// generates the named pattern; a set member adds a phoneme; and the end marks the word as
/// ended. `fuel` bounds how deep references to named patterns and branches may nest.
pub open spec fn gen(
    set: PatternSet,
    inventory: Inventory,
    pattern: Pattern,
    s: GenState,
    draws: Seq<Draw>,
    fuel: nat,
) -> GenRun
    decreases fuel, pattern, 0nat,
{
    match pattern {
        Pattern::Sequence(sequence) => gen_seq(set, inventory, sequence, 0, s, draws, fuel),
        Pattern::Series(series) => gen_series(set, inventory, *series, 0, s, draws, fuel),
        Pattern::Optional(optional) => if s.1 {
            Some((Ok(s), 0))
        } else {
            match first_decision(draws) {
                None => None,
                Some(false) => Some((Ok(s), 1)),
                Some(true) => after(gen(set, inventory, optional.pattern, s, draws.skip(1), fuel), 1),
            }
        },
        Pattern::Choice(choice) => if weight_sum(choice.branches.entries()) == 0 {
            Some((Err(ElbieError::NoChoiceChoices(choice.defined_at)), 0))
        } else {
            match first_alternative(draws) {
                Some(i) => if 0 <= i < choice.branches.entries().len() && can_pick(choice.branches.entries(), i) {
                    proof {
                        lemma_entry_decreases(choice.branches, i);
                    }
                    after(gen(set, inventory, choice.branches.entries()[i].0.body, s, draws.skip(1), fuel), 1)
                } else {
                    None
                },
                None => None,
            }
        },
        Pattern::Tree(tree) => match gen_phoneme(inventory, tree.initial, s, draws) {
            None => None,
            Some((Err(e), k)) => Some((Err(e), k)),
            Some((Ok(m), k)) => after(
                match tree.environment {
                    NamedOrInlineBranches::Inline(branches) => gen_branches(
                        set,
                        inventory,
                        branches,
                        0,
                        m.0.last(),
                        m,
                        draws.skip(k as int),
                        fuel,
                    ),
                    NamedOrInlineBranches::Named(name) => match set.branches_named(name.spec_bytes()) {
                        None => Some((Err(ElbieError::UnknownEnvironment(name)), 0)),
                        Some(branches) => if fuel == 0 {
                            Some((Err(ElbieError::NestingTooDeep(name)), 0))
                        } else {
                            gen_branches(set, inventory, branches, 0, m.0.last(), m, draws.skip(k as int), (fuel - 1) as nat)
                        },
                    },
                },
                k,
            ),
        },
        Pattern::RuleReference(reference) => match set.pattern_named(reference.name.spec_bytes()) {
            None => Some((Err(ElbieError::UnknownPattern(reference.name)), 0)),
            Some(named) => if fuel == 0 {
                Some((Err(ElbieError::NestingTooDeep(reference.name)), 0))
            } else {
                gen(set, inventory, named, s, draws, (fuel - 1) as nat)
            },
        },
        Pattern::SetMember(add) => gen_phoneme(inventory, add, s, draws),
        Pattern::Terminate(_) => Some((Ok((s.0, true)), 0)),
    }
}

/// The patterns of a sequence from the `index`th on, generated one after another.
pub open spec fn gen_seq(
    set: PatternSet,
    inventory: Inventory,
    sequence: Sequence,
    index: int,
    s: GenState,
    draws: Seq<Draw>,
    fuel: nat,
) -> GenRun
    decreases fuel, sequence, sequence.patterns@.len() - index,
{
    if index < 0 || index >= sequence.patterns@.len() {
        Some((Ok(s), 0))
    } else {
        match gen(set, inventory, sequence.patterns@[index], s, draws, fuel) {
            None => None,
            Some((Err(e), k)) => Some((Err(e), k)),
            Some((Ok(m), k)) => after(gen_seq(set, inventory, sequence, index + 1, m, draws.skip(k as int), fuel), k),
        }
    }
}

/// A series that has generated `count` repetitions, going on from the state `s`.
pub open spec fn gen_series(
    set: PatternSet,
    inventory: Inventory,
    series: Series,
    count: nat,
    s: GenState,
    draws: Seq<Draw>,
    fuel: nat,
) -> GenRun
    decreases fuel, series, usize::MAX - count,
{
    if count < series.minimum {
        match gen(set, inventory, series.pattern, s, draws, fuel) {
            None => None,
            Some((Err(e), k)) => Some((Err(e), k)),
            Some((Ok(m), k)) => after(gen_series(set, inventory, series, count + 1, m, draws.skip(k as int), fuel), k),
        }
    } else if s.1 {
        Some((Ok(s), 0))
    } else {
        match first_decision(draws) {
            None => None,
            Some(false) => Some((Ok(s), 1)),
            Some(true) => if (series.maximum matches Some(maximum) && count >= maximum) || count >= usize::MAX {
                Some((Ok(s), 1))
            } else {
                let rest = draws.skip(1);
                after(
                    match gen(set, inventory, series.pattern, s, rest, fuel) {
                        None => None,
                        Some((Err(e), k)) => Some((Err(e), k)),
                        Some((Ok(m), k)) => after(gen_series(set, inventory, series, count + 1, m, rest.skip(k as int), fuel), k),
                    },
                    1,
                )
            },
        }
    }
}

/// The branches from the `index`th on, after the phoneme `phoneme`: the body of the first
/// branch whose condition it meets, generated; an unknown condition set, or no such branch, is
/// an error.
pub open spec fn gen_branches(
    set: PatternSet,
    inventory: Inventory,
    branches: TreeBranches,
    index: int,
    phoneme: Seq<u8>,
    s: GenState,
    draws: Seq<Draw>,
    fuel: nat,
) -> GenRun
    decreases fuel, branches, branches.branches@.len() - index,
{
    if index < 0 || index >= branches.branches@.len() {
        Some((Err(ElbieError::NoCatchAllInEnvironment(branches.defined_at)), 0))
    } else {
        match set_test(inventory, phoneme, branches.branches@[index].condition_set) {
            Err(e) => Some((Err(e), 0)),
            Ok(true) => gen(set, inventory, branches.branches@[index].body, s, draws, fuel),
            Ok(false) => gen_branches(set, inventory, branches, index + 1, phoneme, s, draws, fuel),
        }
    }
}

/// Draws used one after another, followed by any others.
proof fn lemma_draws_split(a: Seq<Draw>, b: Seq<Draw>, rest: Seq<Draw>)
    ensures
        (a + b) + rest == a + (b + rest),
        (a + (b + rest)).skip(a.len() as int) == b + rest,
{
    assert((a + b) + rest =~= a + (b + rest));
    assert((a + (b + rest)).skip(a.len() as int) =~= b + rest);
}

/// A draw followed by other draws.
proof fn lemma_draw_first(d: Draw, a: Seq<Draw>, rest: Seq<Draw>)
    ensures
        (Seq::empty().push(d) + a + rest)[0] == d,
        (Seq::empty().push(d) + a + rest).skip(1) == a + rest,
        (Seq::empty().push(d) + a + rest).len() > 0,
{
    assert((Seq::empty().push(d) + a + rest).skip(1) =~= a + rest);
}

/// A phoneme that was added, as a result.
pub open spec fn phoneme_result(r: Result<Phoneme, ElbieError>, word: Seq<Seq<u8>>) -> Result<GenState, ElbieError> {
    match r {
        Ok(_) => Ok((word, false)),
        Err(e) => Err(e),
    }
}

/// Adds a phoneme of the named set, as `gen_phoneme` says, and gives it with the draws used.
fn add_phoneme(add: &AddPhoneme, inventory: &Inventory, rng: &mut ThreadRng, complete: bool, word: &mut Word) -> (r: (
    Result<Phoneme, ElbieError>,
    Ghost<Seq<Draw>>,
))
    ensures
        forall|rest: Seq<Draw>|
            #[trigger] gen_phoneme(*inventory, *add, (old(word)@, complete), r.1@ + rest) == Some(
                (phoneme_result(r.0, final(word)@), r.1@.len()),
            ),
        r.0 matches Ok(p) ==> final(word)@ == old(word)@.push(p@),
{
    if complete {
        return (Err(ElbieError::PhonemeAfterTerminate), Ghost(Seq::empty()));
    }
    let ghost before = word@;
    let ghost set = members(inventory.set_named(add.name.spec_bytes()));
    let previous: Option<Phoneme> = if add.avoid_duplicates {
        match word.last() {
            Some(p) => Some(*p),
            None => None,
        }
    } else {
        None
    };
    let picked = match previous {
        Some(p) => {
            let mut exclude: Vec<Phoneme> = Vec::new();
            exclude.push(p);
            assert(views(exclude@) =~= Seq::empty().push(p@));
            proof {
                assert forall|x: Seq<u8>| views(exclude@).contains(x) <==> x == before.last() by {
                    if x == before.last() {
                        assert(views(exclude@)[0] == x);
                    }
                }
            }
            let r = inventory.pick_except(add.name, exclude.as_slice(), rng);
            proof {
                if r is Err && inventory.has_set(add.name.spec_bytes()) {
                    assert forall|x: Seq<u8>| !(set.contains(x) && x != before.last()) by {
                        if set.contains(x) && x != before.last() {
                            assert(!views(exclude@).contains(x));
                        }
                    }
                }
            }
            r
        },
        None => inventory.pick(add.name, rng),
    };
    match picked {
        Ok(phoneme) => {
            word.push(phoneme);
            let ghost used = Seq::empty().push(Draw::Phoneme(phoneme@));
            proof {
                assert(set.contains(phoneme@));
                assert forall|rest: Seq<Draw>|
                    #[trigger] gen_phoneme(*inventory, *add, (before, complete), used + rest) == Some(
                        (phoneme_result(Ok::<Phoneme, ElbieError>(phoneme), word@), used.len()),
                    ) by {
                    lemma_draw_first(Draw::Phoneme(phoneme@), Seq::empty(), rest);
                    assert(used + rest == Seq::empty().push(Draw::Phoneme(phoneme@)) + Seq::<Draw>::empty() + rest) by {
                        assert(used + rest =~= Seq::empty().push(Draw::Phoneme(phoneme@)) + Seq::<Draw>::empty() + rest);
                    }
                    assert(first_phoneme(used + rest) == Some(phoneme@));
                }
            }
            (Ok(phoneme), Ghost(used))
        },
        Err(e) => (Err(e), Ghost(Seq::empty())),
    }
}

/// Generates `pattern` onto the word, as `gen` says, and gives the draws it used.
/// `is_probable` decides, from the bits of a probability, whether an optional part is generated.
fn extend_word<F: Fn(u32) -> bool>(
    pattern: &Pattern,
    set: &PatternSet,
    inventory: &Inventory,
    rng: &mut ThreadRng,
    is_probable: &F,
    fuel: usize,
    complete: &mut bool,
    word: &mut Word,
) -> (r: (Result<(), ElbieError>, Ghost<Seq<Draw>>))
    requires
        forall|p: u32| is_probable.requires((p,)),
    ensures
        forall|rest: Seq<Draw>|
            #[trigger] gen(*set, *inventory, *pattern, (old(word)@, *old(complete)), r.1@ + rest, fuel as nat) == Some(
                (outcome(r.0, final(word)@, *final(complete)), r.1@.len()),
            ),
    decreases fuel, *pattern, 0nat,
{
    let ghost s = (word@, *complete);
    match pattern {
        Pattern::Sequence(sequence) => {
            let (r, Ghost(u)) = extend_seq(sequence, 0, set, inventory, rng, is_probable, fuel, complete, word);
            proof {
                assert forall|rest: Seq<Draw>|
                    #[trigger] gen(*set, *inventory, *pattern, s, u + rest, fuel as nat) == Some(
                        (outcome(r, word@, *complete), u.len()),
                    ) by {
                    assert(gen_seq(*set, *inventory, *sequence, 0, s, u + rest, fuel as nat) == Some(
                        (outcome(r, word@, *complete), u.len()),
                    ));
                }
            }
            (r, Ghost(u))
        },
        Pattern::Series(series) => {
            let (r, Ghost(u)) = extend_series(series, 0, set, inventory, rng, is_probable, fuel, complete, word);
            proof {
                assert forall|rest: Seq<Draw>|
                    #[trigger] gen(*set, *inventory, *pattern, s, u + rest, fuel as nat) == Some(
                        (outcome(r, word@, *complete), u.len()),
                    ) by {
                    assert(gen_series(*set, *inventory, **series, 0, s, u + rest, fuel as nat) == Some(
                        (outcome(r, word@, *complete), u.len()),
                    ));
                }
            }
            (r, Ghost(u))
        },
        Pattern::Optional(optional) => {
            if *complete {
                return (Ok(()), Ghost(Seq::empty()));
            }
            let b = is_probable(optional.probability);
            if b {
                let (r, Ghost(u)) = extend_word(&optional.pattern, set, inventory, rng, is_probable, fuel, complete, word);
                let ghost used = Seq::empty().push(Draw::Decision(true)) + u;
                proof {
                    assert forall|rest: Seq<Draw>|
                        #[trigger] gen(*set, *inventory, *pattern, s, used + rest, fuel as nat) == Some(
                            (outcome(r, word@, *complete), used.len()),
                        ) by {
                        lemma_draw_first(Draw::Decision(true), u, rest);
                        assert(first_decision(used + rest) == Some(true));
                        assert(gen(*set, *inventory, optional.pattern, s, u + rest, fuel as nat) == Some(
                            (outcome(r, word@, *complete), u.len()),
                        ));
                    }
                }
                (r, Ghost(used))
            } else {
                let ghost used = Seq::empty().push(Draw::Decision(false));
                proof {
                    assert forall|rest: Seq<Draw>|
                        #[trigger] gen(*set, *inventory, *pattern, s, used + rest, fuel as nat) == Some(
                            (outcome(Ok(()), word@, *complete), used.len()),
                        ) by {
                        lemma_draw_first(Draw::Decision(false), Seq::empty(), rest);
                        assert(used + rest =~= Seq::empty().push(Draw::Decision(false)) + Seq::<Draw>::empty() + rest);
                    }
                }
                (Ok(()), Ghost(used))
            }
        },
        Pattern::Choice(choice) => {
            if choice.branches.total_weight() == 0 {
                return (Err(ElbieError::NoChoiceChoices(choice.defined_at)), Ghost(Seq::empty()));
            }
            let branch = choice.branches.pick(rng);
            let ghost n = choose|n: int|
                1 <= n <= weight_sum(choice.branches.entries()) && 0 <= landing(choice.branches.entries(), n)
                    < choice.branches.entries().len() && *branch == choice.branches.entries()[landing(
                    choice.branches.entries(),
                    n,
                )].0;
            let ghost i = landing(choice.branches.entries(), n);
            proof {
                lemma_entry_decreases(choice.branches, i);
                assert(can_pick(choice.branches.entries(), i));
            }
            let (r, Ghost(u)) = extend_word(&branch.body, set, inventory, rng, is_probable, fuel, complete, word);
            let ghost used = Seq::empty().push(Draw::Alternative(i)) + u;
            proof {
                assert forall|rest: Seq<Draw>|
                    #[trigger] gen(*set, *inventory, *pattern, s, used + rest, fuel as nat) == Some(
                        (outcome(r, word@, *complete), used.len()),
                    ) by {
                    lemma_draw_first(Draw::Alternative(i), u, rest);
                    assert(first_alternative(used + rest) == Some(i));
                    assert(gen(*set, *inventory, branch.body, s, u + rest, fuel as nat) == Some(
                        (outcome(r, word@, *complete), u.len()),
                    ));
                }
            }
            (r, Ghost(used))
        },
        Pattern::Tree(tree) => {
            let (picked, Ghost(u1)) = add_phoneme(&tree.initial, inventory, rng, *complete, word);
            let phoneme = match picked {
                Ok(p) => p,
                Err(e) => {
                    proof {
                        assert forall|rest: Seq<Draw>|
                            #[trigger] gen(*set, *inventory, *pattern, s, u1 + rest, fuel as nat) == Some(
                                (outcome(Err(e), word@, *complete), u1.len()),
                            ) by {
                            assert(gen_phoneme(*inventory, tree.initial, s, u1 + rest) == Some(
                                (phoneme_result(Err::<Phoneme, ElbieError>(e), word@), u1.len()),
                            ));
                        }
                    }
                    return (Err(e), Ghost(u1));
                },
            };
            let ghost m = (word@, false);
            assert(m.0.last() == phoneme@);
            let (branches, inner_fuel): (&TreeBranches, usize) = match &tree.environment {
                NamedOrInlineBranches::Inline(branches) => (branches, fuel),
                NamedOrInlineBranches::Named(name) => {
                    let found = set.get_named_branches(name);
                    match found {
                        Ok(b) => {
                            if fuel == 0 {
                                proof {
                                    assert forall|rest: Seq<Draw>|
                                        #[trigger] gen(*set, *inventory, *pattern, s, u1 + rest, fuel as nat) == Some(
                                            (outcome(Err(ElbieError::NestingTooDeep(name)), word@, *complete), u1.len()),
                                        ) by {
                                        assert(gen_phoneme(*inventory, tree.initial, s, u1 + rest) == Some(
                                            (phoneme_result(Ok::<Phoneme, ElbieError>(phoneme), word@), u1.len()),
                                        ));
                                    }
                                }
                                return (Err(ElbieError::NestingTooDeep(name)), Ghost(u1));
                            }
                            (b, fuel - 1)
                        },
                        Err(e) => {
                            proof {
                                assert forall|rest: Seq<Draw>|
                                    #[trigger] gen(*set, *inventory, *pattern, s, u1 + rest, fuel as nat) == Some(
                                        (outcome(Err(e), word@, *complete), u1.len()),
                                    ) by {
                                    assert(gen_phoneme(*inventory, tree.initial, s, u1 + rest) == Some(
                                        (phoneme_result(Ok::<Phoneme, ElbieError>(phoneme), word@), u1.len()),
                                    ));
                                }
                            }
                            return (Err(e), Ghost(u1));
                        },
                    }
                },
            };
            let (r, Ghost(u2)) = extend_branches(branches, 0, &phoneme, set, inventory, rng, is_probable, inner_fuel, complete, word);
            proof {
                assert forall|rest: Seq<Draw>|
                    #[trigger] gen(*set, *inventory, *pattern, s, (u1 + u2) + rest, fuel as nat) == Some(
                        (outcome(r, word@, *complete), (u1 + u2).len()),
                    ) by {
                    lemma_draws_split(u1, u2, rest);
                    assert(gen_phoneme(*inventory, tree.initial, s, u1 + (u2 + rest)) == Some(
                        (phoneme_result(Ok::<Phoneme, ElbieError>(phoneme), m.0), u1.len()),
                    ));
                    assert(gen_branches(*set, *inventory, *branches, 0, phoneme@, m, u2 + rest, inner_fuel as nat) == Some(
                        (outcome(r, word@, *complete), u2.len()),
                    ));
                }
            }
            (r, Ghost(u1 + u2))
        },
        Pattern::RuleReference(reference) => {
            let named = match set.get(reference.name) {
                Ok(p) => p,
                Err(e) => {
                    return (Err(e), Ghost(Seq::empty()));
                },
            };
            if fuel == 0 {
                return (Err(ElbieError::NestingTooDeep(reference.name)), Ghost(Seq::empty()));
            }
            let (r, Ghost(u)) = extend_word(named, set, inventory, rng, is_probable, fuel - 1, complete, word);
            proof {
                assert forall|rest: Seq<Draw>|
                    #[trigger] gen(*set, *inventory, *pattern, s, u + rest, fuel as nat) == Some(
                        (outcome(r, word@, *complete), u.len()),
                    ) by {
                    assert(gen(*set, *inventory, *named, s, u + rest, (fuel - 1) as nat) == Some(
                        (outcome(r, word@, *complete), u.len()),
                    ));
                }
            }
            (r, Ghost(u))
        },
        Pattern::SetMember(add) => {
            let (picked, Ghost(u)) = add_phoneme(add, inventory, rng, *complete, word);
            let r = match picked {
                Ok(_) => Ok(()),
                Err(e) => Err(e),
            };
            proof {
                assert forall|rest: Seq<Draw>|
                    #[trigger] gen(*set, *inventory, *pattern, s, u + rest, fuel as nat) == Some(
                        (outcome(r, word@, *complete), u.len()),
                    ) by {
                    assert(gen_phoneme(*inventory, *add, s, u + rest) == Some((phoneme_result(picked, word@), u.len())));
                }
            }
            (r, Ghost(u))
        },
        Pattern::Terminate(_) => {
            *complete = true;
            (Ok(()), Ghost(Seq::empty()))
        },
    }
}

fn extend_seq<F: Fn(u32) -> bool>(
    sequence: &Sequence,
    index: usize,
    set: &PatternSet,
    inventory: &Inventory,
    rng: &mut ThreadRng,
    is_probable: &F,
    fuel: usize,
    complete: &mut bool,
    word: &mut Word,
) -> (r: (Result<(), ElbieError>, Ghost<Seq<Draw>>))
    requires
        forall|p: u32| is_probable.requires((p,)),
        index <= sequence.patterns@.len(),
    ensures
        forall|rest: Seq<Draw>|
            #[trigger] gen_seq(*set, *inventory, *sequence, index as int, (old(word)@, *old(complete)), r.1@ + rest, fuel as nat)
                == Some((outcome(r.0, final(word)@, *final(complete)), r.1@.len())),
    decreases fuel, *sequence, sequence.patterns@.len() - index,
{
    if index >= sequence.patterns.len() {
        return (Ok(()), Ghost(Seq::empty()));
    }
    let ghost s = (word@, *complete);
    let (first, Ghost(u1)) = extend_word(&sequence.patterns[index], set, inventory, rng, is_probable, fuel, complete, word);
    match first {
        Err(e) => {
            proof {
                assert forall|rest: Seq<Draw>|
                    #[trigger] gen_seq(*set, *inventory, *sequence, index as int, s, u1 + rest, fuel as nat) == Some(
                        (outcome(Err(e), word@, *complete), u1.len()),
                    ) by {
                    assert(gen(*set, *inventory, sequence.patterns@[index as int], s, u1 + rest, fuel as nat) == Some(
                        (outcome(Err(e), word@, *complete), u1.len()),
                    ));
                }
            }
            (Err(e), Ghost(u1))
        },
        Ok(()) => {
            let ghost m = (word@, *complete);
            let (r, Ghost(u2)) = extend_seq(sequence, index + 1, set, inventory, rng, is_probable, fuel, complete, word);
            proof {
                assert forall|rest: Seq<Draw>|
                    #[trigger] gen_seq(*set, *inventory, *sequence, index as int, s, (u1 + u2) + rest, fuel as nat) == Some(
                        (outcome(r, word@, *complete), (u1 + u2).len()),
                    ) by {
                    lemma_draws_split(u1, u2, rest);
                    assert(gen(*set, *inventory, sequence.patterns@[index as int], s, u1 + (u2 + rest), fuel as nat) == Some(
                        (Ok::<GenState, ElbieError>(m), u1.len()),
                    ));
                    assert(gen_seq(*set, *inventory, *sequence, index + 1, m, u2 + rest, fuel as nat) == Some(
                        (outcome(r, word@, *complete), u2.len()),
                    ));
                }
            }
            (r, Ghost(u1 + u2))
        },
    }
}

fn extend_series<F: Fn(u32) -> bool>(
    series: &Series,
    count: usize,
    set: &PatternSet,
    inventory: &Inventory,
    rng: &mut ThreadRng,
    is_probable: &F,
    fuel: usize,
    complete: &mut bool,
    word: &mut Word,
) -> (r: (Result<(), ElbieError>, Ghost<Seq<Draw>>))
    requires
        forall|p: u32| is_probable.requires((p,)),
    ensures
        forall|rest: Seq<Draw>|
            #[trigger] gen_series(*set, *inventory, *series, count as nat, (old(word)@, *old(complete)), r.1@ + rest, fuel as nat)
                == Some((outcome(r.0, final(word)@, *final(complete)), r.1@.len())),
    decreases fuel, *series, usize::MAX - count,
{
    let ghost s = (word@, *complete);
    let ghost prefix: Seq<Draw> = Seq::empty();
    if count >= series.minimum {
        if *complete {
            return (Ok(()), Ghost(Seq::empty()));
        }
        let b = is_probable(series.probability);
        let stop = !b || match series.maximum {
            Some(maximum) => count >= maximum,
            None => false,
        } || count == usize::MAX;
        if stop {
            let ghost used = Seq::empty().push(Draw::Decision(b));
            proof {
                assert forall|rest: Seq<Draw>|
                    #[trigger] gen_series(*set, *inventory, *series, count as nat, s, used + rest, fuel as nat) == Some(
                        (outcome(Ok(()), word@, *complete), used.len()),
                    ) by {
                    lemma_draw_first(Draw::Decision(b), Seq::empty(), rest);
                    assert(used + rest =~= Seq::empty().push(Draw::Decision(b)) + Seq::<Draw>::empty() + rest);
                }
            }
            return (Ok(()), Ghost(used));
        }
        proof {
            prefix = Seq::empty().push(Draw::Decision(true));
        }
    }
    let (first, Ghost(u1)) = extend_word(&series.pattern, set, inventory, rng, is_probable, fuel, complete, word);
    match first {
        Err(e) => {
            proof {
                assert forall|rest: Seq<Draw>|
                    #[trigger] gen_series(*set, *inventory, *series, count as nat, s, (prefix + u1) + rest, fuel as nat)
                        == Some((outcome(Err(e), word@, *complete), (prefix + u1).len())) by {
                    assert(gen(*set, *inventory, series.pattern, s, u1 + rest, fuel as nat) == Some(
                        (outcome(Err(e), word@, *complete), u1.len()),
                    ));
                    if count >= series.minimum {
                        lemma_draw_first(Draw::Decision(true), u1, rest);
                    } else {
                        assert(prefix + u1 =~= u1);
                    }
                }
            }
            (Err(e), Ghost(prefix + u1))
        },
        Ok(()) => {
            let ghost m = (word@, *complete);
            let (r, Ghost(u2)) = extend_series(series, count + 1, set, inventory, rng, is_probable, fuel, complete, word);
            proof {
                assert forall|rest: Seq<Draw>|
                    #[trigger] gen_series(*set, *inventory, *series, count as nat, s, (prefix + (u1 + u2)) + rest, fuel as nat)
                        == Some((outcome(r, word@, *complete), (prefix + (u1 + u2)).len())) by {
                    lemma_draws_split(u1, u2, rest);
                    assert(gen(*set, *inventory, series.pattern, s, u1 + (u2 + rest), fuel as nat) == Some(
                        (Ok::<GenState, ElbieError>(m), u1.len()),
                    ));
                    assert(gen_series(*set, *inventory, *series, (count + 1) as nat, m, u2 + rest, fuel as nat) == Some(
                        (outcome(r, word@, *complete), u2.len()),
                    ));
                    if count >= series.minimum {
                        lemma_draw_first(Draw::Decision(true), u1 + u2, rest);
                    } else {
                        assert(prefix + (u1 + u2) =~= u1 + u2);
                    }
                }
            }
            (r, Ghost(prefix + (u1 + u2)))
        },
    }
}

fn extend_branches<F: Fn(u32) -> bool>(
    branches: &TreeBranches,
    index: usize,
    phoneme: &Phoneme,
    set: &PatternSet,
    inventory: &Inventory,
    rng: &mut ThreadRng,
    is_probable: &F,
    fuel: usize,
    complete: &mut bool,
    word: &mut Word,
) -> (r: (Result<(), ElbieError>, Ghost<Seq<Draw>>))
    requires
        forall|p: u32| is_probable.requires((p,)),
        index <= branches.branches@.len(),
    ensures
        forall|rest: Seq<Draw>|
            #[trigger] gen_branches(
                *set,
                *inventory,
                *branches,
                index as int,
                phoneme@,
                (old(word)@, *old(complete)),
                r.1@ + rest,
                fuel as nat,
            ) == Some((outcome(r.0, final(word)@, *final(complete)), r.1@.len())),
    decreases fuel, *branches, branches.branches@.len() - index,
{
    if index >= branches.branches.len() {
        return (Err(ElbieError::NoCatchAllInEnvironment(branches.defined_at)), Ghost(Seq::empty()));
    }
    let branch = &branches.branches[index];
    let ghost s = (word@, *complete);
    match inventory.phoneme_is(phoneme, branch.condition_set) {
        Err(e) => (Err(e), Ghost(Seq::empty())),
        Ok(true) => {
            let (r, Ghost(u)) = extend_word(&branch.body, set, inventory, rng, is_probable, fuel, complete, word);
            proof {
                assert forall|rest: Seq<Draw>|
                    #[trigger] gen_branches(*set, *inventory, *branches, index as int, phoneme@, s, u + rest, fuel as nat)
                        == Some((outcome(r, word@, *complete), u.len())) by {
                    assert(gen(*set, *inventory, branch.body, s, u + rest, fuel as nat) == Some(
                        (outcome(r, word@, *complete), u.len()),
                    ));
                }
            }
            (r, Ghost(u))
        },
        Ok(false) => {
            let (r, Ghost(u)) = extend_branches(branches, index + 1, phoneme, set, inventory, rng, is_probable, fuel, complete, word);
            proof {
                assert forall|rest: Seq<Draw>|
                    #[trigger] gen_branches(*set, *inventory, *branches, index as int, phoneme@, s, u + rest, fuel as nat)
                        == Some((outcome(r, word@, *complete), u.len())) by {
                    assert(gen_branches(*set, *inventory, *branches, index + 1, phoneme@, s, u + rest, fuel as nat) == Some(
                        (outcome(r, word@, *complete), u.len()),
                    ));
                }
            }
            (r, Ghost(u))
        },
    }
}

/// Generates a word from the initial pattern of the pattern set, starting from an empty word
/// that is not ended: the word is what `gen` gives for some sequence of draws, all of which it
/// used. Phonemes and alternatives are drawn with `rng`; `is_probable` decides, from the bits of
/// a probability, whether a further repetition of a series or an optional part is generated.
/// References to named patterns and branches may nest `usize::MAX` deep.
pub fn generate<F: Fn(u32) -> bool>(
    patterns: &PatternSet,
    inventory: &Inventory,
    rng: &mut ThreadRng,
    is_probable: &F,
) -> (r: Result<Word, ElbieError>)
    requires
        forall|p: u32| is_probable.requires((p,)),
    ensures
        exists|draws: Seq<Draw>, complete: bool|
            #![trigger gen(*patterns, *inventory, patterns.initial_pattern(), (Seq::empty(), false), draws, usize::MAX as nat), word_result(r, complete)]
            gen(*patterns, *inventory, patterns.initial_pattern(), (Seq::empty(), false), draws, usize::MAX as nat) == Some(
                (word_result(r, complete), draws.len()),
            ),
{
    let mut word = Word::new(&[]);
    let mut complete = false;
    assert(word@ =~= Seq::<Seq<u8>>::empty());
    let (r, Ghost(u)) = extend_word(
        patterns.initial(),
        patterns,
        inventory,
        rng,
        is_probable,
        usize::MAX,
        &mut complete,
        &mut word,
    );
    proof {
        assert(u + Seq::<Draw>::empty() =~= u);
        assert(gen(*patterns, *inventory, patterns.initial_pattern(), (Seq::empty(), false), u + Seq::<Draw>::empty(), usize::MAX as nat) == Some(
            (outcome(r, word@, complete), u.len()),
        ));
    }
    match r {
        Ok(()) => {
            assert(word_result(Ok::<Word, ElbieError>(word), complete) == outcome(r, word@, complete));
            Ok(word)
        },
        Err(e) => {
            assert(word_result(Err::<Word, ElbieError>(e), complete) == outcome(r, word@, complete));
            Err(e)
        },
    }
}

/// With `avoid_duplicates`, a phoneme added after another is a phoneme of the set other than
/// the one before it; and adding one fails, with `SetIsEmptyWithFilter`, exactly when the set
/// holds no phoneme but the one before it. This holds of a set member, and of the phoneme that
/// starts a tree, which is added the same way.
pub proof fn lemma_avoid_duplicates(
    set: PatternSet,
    inventory: Inventory,
    add: AddPhoneme,
    s: GenState,
    draws: Seq<Draw>,
    fuel: nat,
)
    requires
        add.avoid_duplicates,
        !s.1,
        s.0.len() > 0,
        inventory.has_set(add.name.spec_bytes()),
    ensures
        ({
            let set_members = members(inventory.set_named(add.name.spec_bytes()));
            let run = gen(set, inventory, Pattern::SetMember(add), s, draws, fuel);
            &&& run == gen_phoneme(inventory, add, s, draws)
            &&& run matches Some((Ok(m), _)) ==> {
                &&& m.0.len() == s.0.len() + 1
                &&& m.0.take(s.0.len() as int) == s.0
                &&& m.0.last() != s.0.last()
                &&& set_members.contains(m.0.last())
            }
            &&& (run matches Some((Err(_), _))) <==> (forall|x: Seq<u8>| #[trigger] set_members.contains(x) ==> x == s.0.last())
            &&& run matches Some((Err(e), _)) ==> e == ElbieError::SetIsEmptyWithFilter(add.name)
        }),
{
    let set_members = members(inventory.set_named(add.name.spec_bytes()));
    let run = gen_phoneme(inventory, add, s, draws);
    if let Some((Ok(m), _)) = run {
        assert(m.0.take(s.0.len() as int) =~= s.0);
    }
    if !(forall|x: Seq<u8>| #[trigger] set_members.contains(x) ==> x == s.0.last()) {
        let x = choose|x: Seq<u8>| !(set_members.contains(x) ==> x == s.0.last());
        assert(set_members.contains(x) && x != s.0.last());
    }
}

} // verus!
