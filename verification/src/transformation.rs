use vstd::prelude::*;
use vstd::string::StringSliceAdditionalSpecFns;

use crate::bag::views;
use crate::errors::ElbieError;
use crate::names::same_name;
use crate::phoneme::first_unknown_phoneme;
use crate::phoneme::members;
use crate::phoneme::name_bytes;
use crate::phoneme::Inventory;
use crate::phoneme::Phoneme;
use crate::word::Word;

verus! {

/// Why a rule's pattern stopped: the match failed, or an error stopped it.
#[derive(Debug)]
pub enum RuleStateError {
    MatchFailed,
    Elbie(ElbieError),
}

impl From<ElbieError> for RuleStateError {
    fn from(value: ElbieError) -> (r: Self) {
        RuleStateError::Elbie(value)
    }
}

impl vstd::std_specs::convert::FromSpecImpl<ElbieError> for RuleStateError {
    open spec fn obeys_from_spec() -> bool {
        true
    }

    open spec fn from_spec(value: ElbieError) -> Self {
        RuleStateError::Elbie(value)
    }
}

/// A replacement found by a rule: `length` phonemes from `start_index` become `replace`.
#[derive(Debug)]
pub struct WordSplice {
    pub start_index: usize,
    pub length: usize,
    pub replace: Vec<Phoneme>,
}

/// A splice as plain values: start, length, and the names of the replacement phonemes.
pub type SpliceView = (int, int, Seq<Seq<u8>>);

impl View for WordSplice {
    type V = SpliceView;

    open spec fn view(&self) -> SpliceView {
        (self.start_index as int, self.length as int, views(self.replace@))
    }
}

/// What a pattern's answer makes of a match: `Ok(true)` is a match, `Ok(false)` a failed
/// match, and errors pass through.
pub open spec fn seq_result(answer: Result<bool, RuleStateError>) -> Result<(), RuleStateError> {
    match answer {
        Ok(true) => Ok(()),
        Ok(false) => Err(RuleStateError::MatchFailed),
        Err(e) => Err(e),
    }
}

/// Whether `name` matches a phoneme: when the inventory has a phoneme of that name, the
/// phoneme must be it; otherwise the phoneme must be in the set of that name, which must exist.
pub open spec fn name_match(inventory: Inventory, phoneme: Seq<u8>, name: &'static str) -> Result<
    bool,
    ElbieError,
> {
    if inventory.has_phoneme(name.spec_bytes()) {
        Ok(phoneme == name.spec_bytes())
    } else if inventory.has_set(name.spec_bytes()) {
        Ok(members(inventory.set_named(name.spec_bytes())).contains(phoneme))
    } else {
        Err(ElbieError::UnknownSet(name))
    }
}

/// The state of one attempt of a rule to match at a place in a word: the phonemes still to
/// match, the place in the word, and the replacements found so far.
pub struct RuleState<'phonemes> {
    inventory: &'phonemes Inventory,
    phonemes: &'phonemes [Phoneme],
    word_index: usize,
    splices: Vec<WordSplice>,
}

impl<'phonemes> RuleState<'phonemes> {
    #[verifier::type_invariant]
    spec fn within_word(self) -> bool {
        self.word_index <= self.phonemes@.len()
    }

    /// The inventory that names refer to.
    pub closed spec fn inventory_view(&self) -> Inventory {
        *self.inventory
    }

    /// The whole word, as names.
    pub closed spec fn word(&self) -> Seq<Seq<u8>> {
        views(self.phonemes@)
    }

    /// The place of the next phoneme to match.
    pub closed spec fn position(&self) -> int {
        self.word_index as int
    }

    /// The replacements found so far.
    pub closed spec fn splices(&self) -> Seq<SpliceView> {
        views(self.splices@)
    }

    /// What the next phoneme is, if any.
    pub open spec fn next_phoneme(&self) -> Option<Seq<u8>> {
        if 0 <= self.position() < self.word().len() {
            Some(self.word()[self.position()])
        } else {
            None
        }
    }

    /// What `peek_is` answers for `name`: a name that is neither a phoneme nor a set is an
    /// error wherever the state is; otherwise whether the next phoneme matches, and `false` at
    /// the end of the word.
    pub open spec fn peek_answer(&self, name: &'static str) -> Result<bool, ElbieError> {
        match self.next_phoneme() {
            Some(p) => name_match(self.inventory_view(), p, name),
            None => if self.inventory_view().has_phoneme(name.spec_bytes()) || self.inventory_view().has_set(
                name.spec_bytes(),
            ) {
                Ok(false)
            } else {
                Err(ElbieError::UnknownSet(name))
            },
        }
    }

    /// `new` is `old` moved forward by `steps` phonemes, with the same replacements.
    pub open spec fn advanced(old: &Self, new: &Self, steps: int) -> bool {
        &&& new.inventory_view() == old.inventory_view()
        &&& new.word() == old.word()
        &&& new.position() == old.position() + steps
        &&& new.splices() == old.splices()
    }

    /// A state at `word_index` in `phonemes`, with no replacements.
    pub(crate) fn new(inventory: &'phonemes Inventory, phonemes: &'phonemes [Phoneme], word_index: usize) -> (r: Self)
        requires
            word_index <= phonemes@.len(),
        ensures
            r.inventory_view() == *inventory,
            r.word() == views(phonemes@),
            r.position() == word_index,
            r.splices() == Seq::<SpliceView>::empty(),
    {
        let r = RuleState { inventory, phonemes, word_index, splices: Vec::new() };
        assert(views(r.splices@) =~= Seq::<SpliceView>::empty());
        r
    }

    /// The place of the next phoneme to match.
    pub fn word_index(&self) -> (r: usize)
        ensures
            r == self.position(),
            r <= self.word().len(),
    {
        proof {
            use_type_invariant(self);
        }
        self.word_index
    }

    /// A state at the same place with no replacements, to try a pattern without committing it.
    fn fork(&self) -> (r: Self)
        ensures
            r.inventory_view() == self.inventory_view(),
            r.word() == self.word(),
            r.position() == self.position(),
            r.splices() == Seq::<SpliceView>::empty(),
    {
        proof {
            use_type_invariant(self);
        }
        RuleState::new(self.inventory, self.phonemes, self.word_index)
    }

    /// Takes the place and the replacements of a state forked from this one.
    fn absorb(&mut self, inner: Self)
        ensures
            final(self).inventory_view() == old(self).inventory_view(),
            final(self).word() == inner.word(),
            final(self).position() == inner.position(),
            final(self).splices() == old(self).splices() + inner.splices(),
    {
        proof {
            use_type_invariant(&*self);
            use_type_invariant(&inner);
        }
        let RuleState { inventory: _, phonemes, word_index, splices } = inner;
        let mut splices = splices;
        let mut mine = Vec::new();
        std::mem::swap(&mut mine, &mut self.splices);
        let ghost before = views(mine@);
        let ghost added = views(splices@);
        mine.append(&mut splices);
        *self = RuleState { inventory: self.inventory, phonemes, word_index, splices: mine };
        proof {
            assert(views(self.splices@) =~= before + added);
        }
    }

    /// Records a replacement.
    fn push_splice(&mut self, splice: WordSplice)
        ensures
            final(self).inventory_view() == old(self).inventory_view(),
            final(self).word() == old(self).word(),
            final(self).position() == old(self).position(),
            final(self).splices() == old(self).splices().push(splice@),
    {
        proof {
            use_type_invariant(&*self);
        }
        let mut mine = Vec::new();
        std::mem::swap(&mut mine, &mut self.splices);
        let ghost before = mine@;
        mine.push(splice);
        self.splices = mine;
        proof {
            assert(views(before.push(splice)) =~= views(before).push(splice@));
        }
    }

    /// The replacements found.
    pub fn into_splices(self) -> (r: Vec<WordSplice>)
        ensures
            views(r@) == self.splices(),
    {
        self.splices
    }

    /// The next phoneme, without moving.
    pub fn peek(&mut self) -> (r: Option<&'phonemes Phoneme>)
        ensures
            *final(self) == *old(self),
            r is None <==> old(self).next_phoneme() is None,
            r matches Some(p) ==> old(self).next_phoneme() == Some(p@),
    {
        proof {
            use_type_invariant(&*self);
        }
        if self.word_index < self.phonemes.len() {
            Some(&self.phonemes[self.word_index])
        } else {
            None
        }
    }

    /// True when the next phoneme matches `name`, as `phoneme_is` says; false at the end of the
    /// word. A name that is neither a phoneme nor a set is an error. The place does not change.
    pub fn peek_is(&mut self, name: &'static str) -> (r: Result<bool, ElbieError>)
        ensures
            *final(self) == *old(self),
            r == old(self).peek_answer(name),
    {
        match self.peek() {
            Some(phoneme) => self.phoneme_is(phoneme, name),
            None => {
                if self.inventory.phonemes().contains(&Phoneme::new(name)) {
                    Ok(false)
                } else {
                    match self.inventory.get_set(name) {
                        Ok(_) => Ok(false),
                        Err(e) => Err(e),
                    }
                }
            },
        }
    }

    /// True when the phoneme has the name `name` or, when no phoneme has that name, is in the
    /// set of that name. An unknown set is an error.
    pub fn phoneme_is(&mut self, phoneme: &Phoneme, name: &'static str) -> (r: Result<bool, ElbieError>)
        ensures
            *final(self) == *old(self),
            r == name_match(old(self).inventory_view(), phoneme@, name),
    {
        if self.inventory.phonemes().contains(&Phoneme::new(name)) {
            Ok(same_name(phoneme.name, name))
        } else {
            match self.inventory.get_set(name) {
                Ok(set) => Ok(set.contains(phoneme)),
                Err(e) => Err(e),
            }
        }
    }

    /// True at the beginning of the word.
    pub fn peek_initial(&self) -> (r: bool)
        ensures
            r <==> self.position() == 0,
    {
        self.word_index == 0
    }

    /// Matches the beginning of the word.
    pub fn initial(&mut self) -> (r: Result<(), RuleStateError>)
        ensures
            *final(self) == *old(self),
            r is Ok <==> old(self).position() == 0,
            r is Err ==> r == Err::<(), RuleStateError>(RuleStateError::MatchFailed),
    {
        if self.peek_initial() {
            Ok(())
        } else {
            Err(RuleStateError::MatchFailed)
        }
    }

    /// Matches anywhere but the beginning of the word.
    pub fn not_initial(&mut self) -> (r: Result<(), RuleStateError>)
        ensures
            *final(self) == *old(self),
            r is Ok <==> old(self).position() != 0,
            r is Err ==> r == Err::<(), RuleStateError>(RuleStateError::MatchFailed),
    {
        if self.peek_initial() {
            Err(RuleStateError::MatchFailed)
        } else {
            Ok(())
        }
    }

    /// True at the end of the word.
    pub fn peek_final(&mut self) -> (r: bool)
        ensures
            *final(self) == *old(self),
            r <==> old(self).next_phoneme() is None,
    {
        proof {
            use_type_invariant(&*self);
        }
        self.word_index == self.phonemes.len()
    }

    /// Matches the end of the word.
    pub fn final_(&mut self) -> (r: Result<(), RuleStateError>)
        ensures
            *final(self) == *old(self),
            r is Ok <==> old(self).next_phoneme() is None,
            r is Err ==> r == Err::<(), RuleStateError>(RuleStateError::MatchFailed),
    {
        if self.peek_final() {
            Ok(())
        } else {
            Err(RuleStateError::MatchFailed)
        }
    }

    /// Matches anywhere but the end of the word.
    pub fn not_final(&mut self) -> (r: Result<(), RuleStateError>)
        ensures
            *final(self) == *old(self),
            r is Ok <==> old(self).next_phoneme() is Some,
            r is Err ==> r == Err::<(), RuleStateError>(RuleStateError::MatchFailed),
    {
        if self.peek_final() {
            Err(RuleStateError::MatchFailed)
        } else {
            Ok(())
        }
    }

    /// Matches any phoneme, moving past it.
    pub fn any(&mut self) -> (r: Result<(), RuleStateError>)
        ensures
            r is Ok <==> old(self).next_phoneme() is Some,
            r is Ok ==> Self::advanced(old(self), final(self), 1),
            r is Err ==> r == Err::<(), RuleStateError>(RuleStateError::MatchFailed)
                && *final(self) == *old(self),
    {
        proof {
            use_type_invariant(&*self);
        }
        if self.word_index < self.phonemes.len() {
            self.word_index = self.word_index + 1;
            Ok(())
        } else {
            Err(RuleStateError::MatchFailed)
        }
    }

    /// Matches the next phoneme against `name` and moves past it when it matches.
    pub fn is(&mut self, name: &'static str) -> (r: Result<(), RuleStateError>)
        ensures
            r is Ok <==> old(self).peek_answer(name) == Ok::<bool, ElbieError>(true),
            r is Ok ==> Self::advanced(old(self), final(self), 1),
            r is Err ==> *final(self) == *old(self),
            old(self).peek_answer(name) == Ok::<bool, ElbieError>(false) ==> r
                == Err::<(), RuleStateError>(RuleStateError::MatchFailed),
            old(self).peek_answer(name) matches Err(e) ==> r == Err::<(), RuleStateError>(
                RuleStateError::Elbie(e),
            ),
    {
        match self.peek_is(name) {
            Ok(true) => self.any(),
            Ok(false) => Err(RuleStateError::MatchFailed),
            Err(e) => Err(RuleStateError::Elbie(e)),
        }
    }

    /// Matches `name` like `is`, but a failed match is no failure: it answers whether it
    /// matched.
    pub fn opt(&mut self, name: &'static str) -> (r: Result<bool, ElbieError>)
        ensures
            r == old(self).peek_answer(name),
            r == Ok::<bool, ElbieError>(true) ==> Self::advanced(old(self), final(self), 1),
            r != Ok::<bool, ElbieError>(true) ==> *final(self) == *old(self),
    {
        match self.is(name) {
            Ok(()) => Ok(true),
            Err(RuleStateError::MatchFailed) => Ok(false),
            Err(RuleStateError::Elbie(err)) => Err(err),
        }
    }

    /// The phonemes with the given names.
    pub fn get_replacement(&self, phonemes: &[&'static str]) -> (r: Result<Vec<Phoneme>, ElbieError>)
        ensures
            r is Ok <==> forall|j: int|
                0 <= j < phonemes@.len() ==> self.inventory_view().has_phoneme(
                    #[trigger] phonemes@[j].spec_bytes(),
                ),
            r matches Ok(v) ==> views(v@) == name_bytes(phonemes@),
            r matches Err(e) ==> exists|j: int|
                first_unknown_phoneme(&self.inventory_view(), phonemes@, j) && e
                    == ElbieError::UnknownPhoneme(phonemes@[j]),
    {
        let mut result: Vec<Phoneme> = Vec::new();
        let mut i: usize = 0;
        while i < phonemes.len()
            invariant
                i <= phonemes@.len(),
                forall|j: int|
                    0 <= j < i ==> self.inventory_view().has_phoneme(
                        #[trigger] phonemes@[j].spec_bytes(),
                    ),
                views(result@) == name_bytes(phonemes@.take(i as int)),
            decreases phonemes@.len() - i,
        {
            let ghost before = result@;
            let phoneme = match self.inventory.get_phoneme(phonemes[i]) {
                Ok(phoneme) => phoneme,
                Err(e) => {
                    assert(first_unknown_phoneme(&self.inventory_view(), phonemes@, i as int));
                    return Err(e);
                },
            };
            result.push(phoneme);
            proof {
                assert(views(before.push(phoneme)) =~= views(before).push(phoneme@));
                assert(name_bytes(phonemes@.take(i + 1)) =~= name_bytes(phonemes@.take(i as int)).push(
                    phonemes@[i as int].spec_bytes(),
                ));
            }
            i += 1;
        }
        proof {
            assert(phonemes@.take(i as int) =~= phonemes@);
        }
        Ok(result)
    }

    /// Records an insertion of the named phonemes at the current place.
    pub fn ins(&mut self, phonemes: &[&'static str]) -> (r: Result<(), ElbieError>)
        ensures
            r is Ok <==> forall|j: int|
                0 <= j < phonemes@.len() ==> old(self).inventory_view().has_phoneme(
                    #[trigger] phonemes@[j].spec_bytes(),
                ),
            r is Ok ==> {
                &&& final(self).inventory_view() == old(self).inventory_view()
                &&& final(self).word() == old(self).word()
                &&& final(self).position() == old(self).position()
                &&& final(self).splices() == old(self).splices().push(
                    (old(self).position(), 0int, name_bytes(phonemes@)),
                )
            },
            r matches Err(e) ==> *final(self) == *old(self) && exists|j: int|
                first_unknown_phoneme(&old(self).inventory_view(), phonemes@, j) && e
                    == ElbieError::UnknownPhoneme(phonemes@[j]),
    {
        let replace = self.get_replacement(phonemes)?;
        let splice = WordSplice { start_index: self.word_index, length: 0, replace };
        self.push_splice(splice);
        Ok(())
    }

    /// Matches `name` like `is` and records a replacement of the matched phoneme by the named
    /// phonemes.
    pub fn repl(&mut self, name: &'static str, phonemes: &[&'static str]) -> (r: Result<(), RuleStateError>)
        ensures
            r is Ok <==> (forall|j: int|
                0 <= j < phonemes@.len() ==> old(self).inventory_view().has_phoneme(
                    #[trigger] phonemes@[j].spec_bytes(),
                )) && old(self).peek_answer(name) == Ok::<bool, ElbieError>(true),
            r is Ok ==> {
                &&& final(self).inventory_view() == old(self).inventory_view()
                &&& final(self).word() == old(self).word()
                &&& final(self).position() == old(self).position() + 1
                &&& final(self).splices() == old(self).splices().push(
                    (old(self).position(), 1int, name_bytes(phonemes@)),
                )
            },
            r is Err ==> *final(self) == *old(self),
            !(forall|j: int|
                0 <= j < phonemes@.len() ==> old(self).inventory_view().has_phoneme(
                    #[trigger] phonemes@[j].spec_bytes(),
                )) ==> (r matches Err(RuleStateError::Elbie(e)) && exists|j: int|
                first_unknown_phoneme(&old(self).inventory_view(), phonemes@, j) && e
                    == ElbieError::UnknownPhoneme(phonemes@[j])),
            (forall|j: int|
                0 <= j < phonemes@.len() ==> old(self).inventory_view().has_phoneme(
                    #[trigger] phonemes@[j].spec_bytes(),
                )) ==> match old(self).peek_answer(name) {
                Ok(true) => r is Ok,
                Ok(false) => r == Err::<(), RuleStateError>(RuleStateError::MatchFailed),
                Err(e) => r == Err::<(), RuleStateError>(RuleStateError::Elbie(e)),
            },
    {
        let replace = match self.get_replacement(phonemes) {
            Ok(replace) => replace,
            Err(e) => {
                return Err(RuleStateError::Elbie(e));
            },
        };
        let start_index = self.word_index;
        self.is(name)?;
        let splice = WordSplice { start_index, length: 1, replace };
        self.push_splice(splice);
        Ok(())
    }

    /// Matches `name` like `opt`, and when it matches records a replacement of the matched
    /// phoneme by the named phonemes. Answers whether it matched.
    pub fn opt_repl(&mut self, name: &'static str, phonemes: &[&'static str]) -> (r: Result<bool, ElbieError>)
        ensures
            (forall|j: int|
                0 <= j < phonemes@.len() ==> old(self).inventory_view().has_phoneme(
                    #[trigger] phonemes@[j].spec_bytes(),
                )) ==> r == old(self).peek_answer(name),
            r == Ok::<bool, ElbieError>(true) ==> {
                &&& final(self).inventory_view() == old(self).inventory_view()
                &&& final(self).word() == old(self).word()
                &&& final(self).position() == old(self).position() + 1
                &&& final(self).splices() == old(self).splices().push(
                    (old(self).position(), 1int, name_bytes(phonemes@)),
                )
            },
            r != Ok::<bool, ElbieError>(true) ==> *final(self) == *old(self),
            !(forall|j: int|
                0 <= j < phonemes@.len() ==> old(self).inventory_view().has_phoneme(
                    #[trigger] phonemes@[j].spec_bytes(),
                )) ==> (r matches Err(e) && exists|j: int|
                first_unknown_phoneme(&old(self).inventory_view(), phonemes@, j) && e
                    == ElbieError::UnknownPhoneme(phonemes@[j])),
    {
        let replace = self.get_replacement(phonemes)?;
        let start_index = self.word_index;
        let matched = self.opt(name)?;
        if matched {
            let splice = WordSplice { start_index, length: 1, replace };
                self.push_splice(splice);
        }
        Ok(matched)
    }

    /// Runs a pattern written as a closure on this state. The closure answers `Ok(true)` for a
    /// match; `Ok(false)` becomes a failed match, and errors pass through.
    pub fn seq<S: Fn(&mut Self) -> Result<bool, RuleStateError>>(&mut self, sequence: S) -> (r:
        Result<(), RuleStateError>)
        requires
            forall|s: &mut Self| call_requires(sequence, (s,)),
        ensures
            exists|s: &mut Self, answer: Result<bool, RuleStateError>|
                #![trigger call_ensures(sequence, (s,), answer)]
                *s == *old(self) && *final(s) == *final(self) && call_ensures(sequence, (s,), answer) && r
                    == seq_result(answer),
    {
        let answer = sequence(self);
        match answer {
            Ok(true) => Ok(()),
            Ok(false) => Err(RuleStateError::MatchFailed),
            Err(e) => Err(e),
        }
    }

    /// Runs a pattern on a copy of this state. When it matches, this state takes the copy's
    /// place and replacements and the answer is `true`; when it fails, this state is left as it
    /// was and the answer is `false`. Errors pass through, leaving this state as it was.
    pub fn opt_seq<S: Fn(&mut Self) -> Result<bool, RuleStateError>>(&mut self, sequence: S) -> (r:
        Result<bool, ElbieError>)
        requires
            forall|s: &mut Self| call_requires(sequence, (s,)),
        ensures
            r != Ok::<bool, ElbieError>(true) ==> *final(self) == *old(self),
            r == Ok::<bool, ElbieError>(true) ==> {
                &&& final(self).inventory_view() == old(self).inventory_view()
                &&& final(self).splices().take(old(self).splices().len() as int) == old(self).splices()
            },
            exists|s: &mut Self, answer: Result<bool, RuleStateError>|
                #![trigger call_ensures(sequence, (s,), answer)]
                (*s).inventory_view() == old(self).inventory_view() && (*s).word() == old(self).word() && (
                *s).position() == old(self).position() && (*s).splices() == Seq::<SpliceView>::empty()
                    && call_ensures(sequence, (s,), answer) && match seq_result(answer) {
                    Ok(()) => r == Ok::<bool, ElbieError>(true) && final(self).inventory_view()
                        == old(self).inventory_view() && final(self).word() == final(s).word()
                        && final(self).position() == final(s).position() && final(self).splices()
                        == old(self).splices() + final(s).splices(),
                    Err(RuleStateError::MatchFailed) => r == Ok::<bool, ElbieError>(false),
                    Err(RuleStateError::Elbie(e)) => r == Err::<bool, ElbieError>(e),
                },
    {
        let mut inner = self.fork();
        match inner.seq(sequence) {
            Ok(()) => {
                let ghost before = self.splices();
                self.absorb(inner);
                assert(self.splices().take(before.len() as int) =~= before);
                Ok(true)
            },
            Err(RuleStateError::MatchFailed) => Ok(false),
            Err(RuleStateError::Elbie(e)) => Err(e),
        }
    }

    /// Runs a pattern like `seq` and, when it matches, records a replacement of everything it
    /// matched by the named phonemes. Unknown replacement phonemes are an error before the
    /// pattern runs. The methods of a state never move it backwards; a pattern that did so
    /// anyway counts as a failed match.
    pub fn repl_seq<S: Fn(&mut Self) -> Result<bool, RuleStateError>>(
        &mut self,
        sequence: S,
        phonemes: &[&'static str],
    ) -> (r: Result<(), RuleStateError>)
        requires
            forall|s: &mut Self| call_requires(sequence, (s,)),
        ensures
            !(forall|j: int|
                0 <= j < phonemes@.len() ==> old(self).inventory_view().has_phoneme(
                    #[trigger] phonemes@[j].spec_bytes(),
                )) ==> *final(self) == *old(self) && (r matches Err(RuleStateError::Elbie(e))
                && exists|j: int|
                first_unknown_phoneme(&old(self).inventory_view(), phonemes@, j) && e
                    == ElbieError::UnknownPhoneme(phonemes@[j])),
            r is Ok ==> {
                &&& final(self).position() >= old(self).position()
                &&& final(self).splices().len() > 0
                &&& final(self).splices().last() == (
                    old(self).position(),
                    final(self).position() - old(self).position(),
                    name_bytes(phonemes@),
                )
            },
            (forall|j: int|
                0 <= j < phonemes@.len() ==> old(self).inventory_view().has_phoneme(
                    #[trigger] phonemes@[j].spec_bytes(),
                )) ==> exists|s: &mut Self, answer: Result<bool, RuleStateError>|
                #![trigger call_ensures(sequence, (s,), answer)]
                *s == *old(self) && call_ensures(sequence, (s,), answer) && match seq_result(answer) {
                    Ok(()) => if final(s).position() >= old(self).position() {
                        r is Ok && final(self).inventory_view() == final(s).inventory_view()
                            && final(self).word() == final(s).word() && final(self).position()
                            == final(s).position() && final(self).splices() == final(s).splices().push(
                            (
                                old(self).position(),
                                final(s).position() - old(self).position(),
                                name_bytes(phonemes@),
                            ),
                        )
                    } else {
                        r == Err::<(), RuleStateError>(RuleStateError::MatchFailed) && *final(self) == *final(s)
                    },
                    Err(e) => r == Err::<(), RuleStateError>(e) && *final(self) == *final(s),
                },
    {
        let replace = match self.get_replacement(phonemes) {
            Ok(replace) => replace,
            Err(e) => {
                return Err(RuleStateError::Elbie(e));
            },
        };
        let start_index = self.word_index;
        match self.seq(sequence) {
            Ok(()) => {},
            Err(e) => {
                return Err(e);
            },
        }
        if self.word_index < start_index {
            return Err(RuleStateError::MatchFailed);
        }
        let splice = WordSplice { start_index, length: self.word_index - start_index, replace };
        self.push_splice(splice);
        Ok(())
    }

    /// Runs a pattern like `opt_seq` and, when it matches, records a replacement of everything
    /// it matched by the named phonemes. Answers whether it matched; when it did not, the state
    /// is left as it was. Unknown replacement phonemes are an error before the pattern runs.
    pub fn opt_repl_seq<S: Fn(&mut Self) -> Result<bool, RuleStateError>>(
        &mut self,
        sequence: S,
        phonemes: &[&'static str],
    ) -> (r: Result<bool, ElbieError>)
        requires
            forall|s: &mut Self| call_requires(sequence, (s,)),
        ensures
            !(forall|j: int|
                0 <= j < phonemes@.len() ==> old(self).inventory_view().has_phoneme(
                    #[trigger] phonemes@[j].spec_bytes(),
                )) ==> *final(self) == *old(self) && (r matches Err(e) && exists|j: int|
                first_unknown_phoneme(&old(self).inventory_view(), phonemes@, j) && e
                    == ElbieError::UnknownPhoneme(phonemes@[j])),
            r != Ok::<bool, ElbieError>(true) ==> *final(self) == *old(self),
            r == Ok::<bool, ElbieError>(true) ==> {
                &&& final(self).inventory_view() == old(self).inventory_view()
                &&& final(self).position() >= old(self).position()
                &&& final(self).splices().len() > old(self).splices().len()
                &&& final(self).splices().take(old(self).splices().len() as int) == old(self).splices()
                &&& final(self).splices().last() == (
                    old(self).position(),
                    final(self).position() - old(self).position(),
                    name_bytes(phonemes@),
                )
            },
            (forall|j: int|
                0 <= j < phonemes@.len() ==> old(self).inventory_view().has_phoneme(
                    #[trigger] phonemes@[j].spec_bytes(),
                )) ==> exists|s: &mut Self, answer: Result<bool, RuleStateError>|
                #![trigger call_ensures(sequence, (s,), answer)]
                (*s).inventory_view() == old(self).inventory_view() && (*s).word() == old(self).word() && (
                *s).position() == old(self).position() && (*s).splices() == Seq::<SpliceView>::empty()
                    && call_ensures(sequence, (s,), answer) && match seq_result(answer) {
                    Ok(()) => if final(s).position() >= old(self).position() {
                        r == Ok::<bool, ElbieError>(true) && final(self).inventory_view()
                            == old(self).inventory_view() && final(self).word() == final(s).word()
                            && final(self).position() == final(s).position() && final(self).splices() == (
                        old(self).splices() + final(s).splices()).push(
                            (
                                old(self).position(),
                                final(s).position() - old(self).position(),
                                name_bytes(phonemes@),
                            ),
                        )
                    } else {
                        r == Ok::<bool, ElbieError>(false)
                    },
                    Err(RuleStateError::MatchFailed) => r == Ok::<bool, ElbieError>(false),
                    Err(RuleStateError::Elbie(e)) => r == Err::<bool, ElbieError>(e),
                },
    {
        let replace = self.get_replacement(phonemes)?;
        let start_index = self.word_index;
        let mut inner = self.fork();
        match inner.seq(sequence) {
            Ok(()) => {
                if inner.word_index < start_index {
                    return Ok(false);
                }
                let ghost before = self.splices();
                self.absorb(inner);
                let splice = WordSplice { start_index, length: self.word_index - start_index, replace };
                self.push_splice(splice);
                assert(self.splices().take(before.len() as int) =~= before);
                Ok(true)
            },
            Err(RuleStateError::MatchFailed) => Ok(false),
            Err(RuleStateError::Elbie(e)) => Err(e),
        }
    }

    /// A failed match, for ending a chain of alternatives.
    pub fn fail(&self) -> (r: Result<bool, RuleStateError>)
        ensures
            r == Err::<bool, RuleStateError>(RuleStateError::MatchFailed),
    {
        Err(RuleStateError::MatchFailed)
    }
}

} // verus!
