use vstd::prelude::*;
use vstd::string::StringSliceAdditionalSpecFns;

use crate::bag::views;
use crate::errors::ElbieError;
use crate::patterns::AddPhoneme;
use crate::patterns::Choice;
use crate::patterns::NamedOrInlineBranches;
use crate::patterns::Pattern;
use crate::patterns::PatternSet;
use crate::patterns::Sequence;
use crate::patterns::Series;
use crate::patterns::SourceLocation;
use crate::patterns::TerminateWord;
use crate::patterns::TreeBranches;
use crate::phoneme::members;
use crate::phoneme::Inventory;
use crate::phoneme::Phoneme;
use crate::weighted_vec::lemma_entry_decreases;
use crate::word::Word;

verus! {

/// Whether a phoneme is in the named set of the inventory; an unknown set is an error.
pub open spec fn set_test(inventory: Inventory, phoneme: Seq<u8>, set: &'static str) -> Result<
    bool,
    ElbieError,
> {
    if inventory.has_set(set.spec_bytes()) {
        Ok(members(inventory.set_named(set.spec_bytes())).contains(phoneme))
    } else {
        Err(ElbieError::UnknownSet(set))
    }
}

/// Whether the phoneme at `pos` is in the named set; `false` past the end of the word.
pub open spec fn phoneme_step(inventory: Inventory, word: Seq<Seq<u8>>, set: &'static str, pos: int) -> Result<
    bool,
    ElbieError,
> {
    if 0 <= pos < word.len() {
        set_test(inventory, word[pos], set)
    } else {
        Ok(false)
    }
}

/// How far a pattern matches the word from `pos`: `Ok(Some(end))` when it matches the phonemes
/// up to `end`, `Ok(None)` when it does not match, or an error. Matching is greedy and does not
/// come back on a choice once made: a sequence matches its patterns one after another; a series
/// repeats its pattern while it matches (stopping once it has more than `maximum` repetitions,
/// or after a repetition that matched nothing) and needs `minimum` of them; an optional pattern
/// matches nothing when its pattern fails; a choice takes the first alternative that matches; a
/// tree matches a phoneme and then the body of the first branch whose condition that phoneme
/// meets. `fuel` bounds how deep references to named patterns and branches may nest.
pub open spec fn run(
    set: PatternSet,
    inventory: Inventory,
    word: Seq<Seq<u8>>,
    pattern: Pattern,
    pos: int,
    fuel: nat,
) -> Result<Option<int>, ElbieError>
    decreases fuel, pattern, 0nat,
{
    match pattern {
        Pattern::Sequence(sequence) => run_seq(set, inventory, word, sequence, 0, pos, fuel),
        Pattern::Series(series) => run_series(set, inventory, word, *series, 0, pos, fuel),
        Pattern::Optional(optional) => match run(set, inventory, word, optional.pattern, pos, fuel) {
            Ok(Some(end)) => Ok(Some(end)),
            Ok(None) => Ok(Some(pos)),
            Err(e) => Err(e),
        },
        Pattern::Choice(choice) => run_choice(set, inventory, word, choice, 0, pos, fuel),
        Pattern::Tree(tree) => match tree.environment {
            NamedOrInlineBranches::Inline(branches) => match phoneme_step(
                inventory,
                word,
                tree.initial.name,
                pos,
            ) {
                Err(e) => Err(e),
                Ok(false) => Ok(None),
                Ok(true) => run_branches(set, inventory, word, branches, 0, word[pos], pos + 1, fuel),
            },
            NamedOrInlineBranches::Named(name) => match set.branches_named(name.spec_bytes()) {
                None => Err(ElbieError::UnknownEnvironment(name)),
                Some(branches) => if fuel == 0 {
                    Err(ElbieError::NestingTooDeep(name))
                } else {
                    match phoneme_step(inventory, word, tree.initial.name, pos) {
                        Err(e) => Err(e),
                        Ok(false) => Ok(None),
                        Ok(true) => run_branches(
                            set,
                            inventory,
                            word,
                            branches,
                            0,
                            word[pos],
                            pos + 1,
                            (fuel - 1) as nat,
                        ),
                    }
                },
            },
        },
        Pattern::RuleReference(reference) => match set.pattern_named(reference.name.spec_bytes()) {
            None => Err(ElbieError::UnknownPattern(reference.name)),
            Some(named) => if fuel == 0 {
                Err(ElbieError::NestingTooDeep(reference.name))
            } else {
                run(set, inventory, word, named, pos, (fuel - 1) as nat)
            },
        },
        Pattern::SetMember(add_phoneme) => match phoneme_step(inventory, word, add_phoneme.name, pos) {
            Err(e) => Err(e),
            Ok(true) => Ok(Some(pos + 1)),
            Ok(false) => Ok(None),
        },
        Pattern::Terminate(_) => if pos < word.len() {
            Ok(None)
        } else {
            Ok(Some(pos))
        },
    }
}

/// The patterns of a sequence from the `index`th on, matched one after another from `pos`.
pub open spec fn run_seq(
    set: PatternSet,
    inventory: Inventory,
    word: Seq<Seq<u8>>,
    sequence: Sequence,
    index: int,
    pos: int,
    fuel: nat,
) -> Result<Option<int>, ElbieError>
    decreases fuel, sequence, sequence.patterns@.len() - index,
{
    if index < 0 || index >= sequence.patterns@.len() {
        Ok(Some(pos))
    } else {
        match run(set, inventory, word, sequence.patterns@[index], pos, fuel) {
            Err(e) => Err(e),
            Ok(None) => Ok(None),
            Ok(Some(end)) => run_seq(set, inventory, word, sequence, index + 1, end, fuel),
        }
    }
}

/// The end of a series that has matched `count` repetitions, the last ending at `end`.
pub open spec fn series_end(series: Series, count: int, end: int) -> Result<Option<int>, ElbieError> {
    if count >= series.minimum {
        Ok(Some(end))
    } else {
        Ok(None)
    }
}

/// A series that has matched `count` repetitions up to `pos`, going on from there.
pub open spec fn run_series(
    set: PatternSet,
    inventory: Inventory,
    word: Seq<Seq<u8>>,
    series: Series,
    count: int,
    pos: int,
    fuel: nat,
) -> Result<Option<int>, ElbieError>
    decreases fuel, series, word.len() - pos,
{
    match run(set, inventory, word, series.pattern, pos, fuel) {
        Err(e) => Err(e),
        Ok(None) => series_end(series, count, pos),
        Ok(Some(end)) => if series.maximum matches Some(maximum) && count + 1 > maximum {
            series_end(series, count + 1, end)
        } else if pos < end <= word.len() {
            run_series(set, inventory, word, series, count + 1, end, fuel)
        } else {
            series_end(series, count + 1, end)
        },
    }
}

/// The alternatives of a choice from the `index`th on: the first that matches.
pub open spec fn run_choice(
    set: PatternSet,
    inventory: Inventory,
    word: Seq<Seq<u8>>,
    choice: Choice,
    index: int,
    pos: int,
    fuel: nat,
) -> Result<Option<int>, ElbieError>
    decreases fuel, choice, choice.branches.entries().len() - index,
{
    if index < 0 || index >= choice.branches.entries().len() {
        Ok(None)
    } else {
        proof {
            lemma_entry_decreases(choice.branches, index);
        }
        match run(set, inventory, word, choice.branches.entries()[index].0.body, pos, fuel) {
            Err(e) => Err(e),
            Ok(Some(end)) => Ok(Some(end)),
            Ok(None) => run_choice(set, inventory, word, choice, index + 1, pos, fuel),
        }
    }
}

/// The branches from the `index`th on, for a tree whose phoneme was `phoneme`: the body of the
/// first branch whose condition holds of it, matched from `pos`.
pub open spec fn run_branches(
    set: PatternSet,
    inventory: Inventory,
    word: Seq<Seq<u8>>,
    branches: TreeBranches,
    index: int,
    phoneme: Seq<u8>,
    pos: int,
    fuel: nat,
) -> Result<Option<int>, ElbieError>
    decreases fuel, branches, branches.branches@.len() - index,
{
    if index < 0 || index >= branches.branches@.len() {
        Ok(None)
    } else {
        match set_test(inventory, phoneme, branches.branches@[index].condition_set) {
            Err(e) => Err(e),
            Ok(true) => run(set, inventory, word, branches.branches@[index].body, pos, fuel),
            Ok(false) => run_branches(set, inventory, word, branches, index + 1, phoneme, pos, fuel),
        }
    }
}

/// How deep references to named patterns and branches may nest while validating a word: more
/// than any reference chain that consumes phonemes between repeated names can need.
pub open spec fn nesting_budget(set: PatternSet, word_len: int) -> int {
    (word_len + 1) * (set.pattern_entries().len() + set.branch_entries().len() + 1)
}

/// The nesting budget, or `usize::MAX` when it does not fit.
pub open spec fn budget_for(set: PatternSet, word_len: int) -> nat {
    if nesting_budget(set, word_len) <= usize::MAX {
        nesting_budget(set, word_len) as nat
    } else {
        usize::MAX as nat
    }
}

/// Whether a word follows the pattern set: `Ok(true)` when the initial pattern matches the
/// whole word, `Ok(false)` when it fails or leaves phonemes over.
pub open spec fn word_follows(set: PatternSet, inventory: Inventory, word: Seq<Seq<u8>>, fuel: nat) -> Result<
    bool,
    ElbieError,
> {
    match run(set, inventory, word, set.initial_pattern(), 0, fuel) {
        Err(e) => Err(e),
        Ok(None) => Ok(false),
        Ok(Some(end)) => Ok(end == word.len()),
    }
}

/// The kinds of pattern whose matching starts, for explanations and traces.
#[derive(Debug, Clone, Copy)]
pub enum ValidationTraceStart {
    Sequence,
    Series,
    Optional,
    Choice,
    Case(Option<&'static str>),
    CaseEnvironment,
    RuleReference(&'static str),
}

/// The kinds of pattern whose matching ends, with what they found.
#[derive(Debug, Clone, Copy)]
pub enum ValidationTraceEnd {
    Sequence,
    Series(usize),
    Optional(bool),
    Choice(usize),
    Case(Option<&'static str>),
    CaseEnvironment(Option<usize>),
    RuleReference(&'static str),
    PhonemeFound(Phoneme),
    PhonemeNotFound,
    Terminate,
    Word,
}

/// Why a pattern did not match.
#[derive(Debug, Clone, Copy)]
pub enum ValidationFailure {
    InnerSequencePatternFailed { index: usize },
    SeriesFailedToReachMinimumCount { minimum: usize, count: usize },
    NoChoiceBranchesMatched,
    CaseBranchBodyFailed { index: usize },
    NoCaseBranchesMatched,
    CaseEnvironmentFailed,
    CaseConditionFailed,
    ReferencedRuleFailed { name: &'static str },
    InvalidPhoneme { expected: &'static str, found: Phoneme },
    UnexpectedEnd { expected: &'static str },
    UnexpectedPhoneme { found: Phoneme },
    UnexpectedPhonemeAfterPattern { found: Phoneme },
    InitialPatternFailed,
}

/// A start or an end in an explanation.
#[derive(Debug, Clone, Copy)]
pub enum ValidWordEvent {
    Start(ValidationTraceStart),
    End(ValidationTraceEnd),
}

/// One step of the explanation of why a word is valid: where in the word, which pattern, what.
#[derive(Debug, Clone, Copy)]
pub struct ValidWordElement {
    pub index: usize,
    pub pattern_source: SourceLocation,
    pub event: ValidWordEvent,
}

/// One message of a validation trace.
#[derive(Debug, Clone, Copy)]
pub enum ValidationTraceMessage {
    Start(SourceLocation, usize, ValidationTraceStart),
    Success(SourceLocation, usize, ValidationTraceEnd),
    Failure(SourceLocation, usize, ValidationTraceEnd, ValidationFailure),
}

/// A trace message with its nesting level.
#[derive(Debug, Clone, Copy)]
pub struct TraceLine {
    pub level: usize,
    pub message: ValidationTraceMessage,
}

/// What validation records: the explanation of the matches that make a word valid (attempts
/// that were given up are taken out again) and, when tracing, every message in order.
pub struct ValidationLog {
    explanation: Vec<ValidWordElement>,
    trace: Vec<TraceLine>,
    tracing: bool,
    level: usize,
}

/// Whether an end closes a start: the ends that only report a phoneme, the end of the word or
/// the whole word have no start.
pub fn closes_start(event: &ValidationTraceEnd) -> (r: bool)
    ensures
        r <==> !(event is PhonemeFound || event is PhonemeNotFound || event is Terminate
            || event is Word),
{
    match event {
        ValidationTraceEnd::PhonemeFound(_) => false,
        ValidationTraceEnd::PhonemeNotFound => false,
        ValidationTraceEnd::Terminate => false,
        ValidationTraceEnd::Word => false,
        _ => true,
    }
}

/// What a validation may do to a log: it keeps whether the log traces, and a log that does not
/// trace keeps its trace as it was.
pub open spec fn log_step(before: ValidationLog, after: ValidationLog) -> bool {
    &&& after.is_tracing() == before.is_tracing()
    &&& !before.is_tracing() ==> after.traced() == before.traced()
}

impl ValidationLog {
    /// The steps of the explanation recorded so far.
    pub closed spec fn recorded(&self) -> Seq<ValidWordElement> {
        self.explanation@
    }

    /// The trace lines recorded so far.
    pub closed spec fn traced(&self) -> Seq<TraceLine> {
        self.trace@
    }

    /// Whether the log keeps trace lines.
    pub closed spec fn is_tracing(&self) -> bool {
        self.tracing
    }

    /// The nesting level of the next trace line.
    pub closed spec fn depth(&self) -> usize {
        self.level
    }

    /// The level after a start: one deeper when tracing (it stays at the largest level there
    /// is).
    pub open spec fn depth_after_start(&self) -> usize {
        if self.is_tracing() && self.depth() < usize::MAX {
            (self.depth() + 1) as usize
        } else {
            self.depth()
        }
    }

    /// The level after an end: one shallower when tracing and the end closes a start (it does
    /// not go below the top).
    pub open spec fn depth_after_end(&self, event: ValidationTraceEnd) -> usize {
        if self.is_tracing() && !(event is PhonemeFound || event is PhonemeNotFound || event is Terminate
            || event is Word) && self.depth() > 0 {
            (self.depth() - 1) as usize
        } else {
            self.depth()
        }
    }

    /// An empty log that keeps trace messages when `tracing`.
    pub fn new(tracing: bool) -> (r: Self)
        ensures
            r.recorded() == Seq::<ValidWordElement>::empty(),
            r.traced() == Seq::<TraceLine>::empty(),
            r.is_tracing() == tracing,
    {
        ValidationLog { explanation: Vec::new(), trace: Vec::new(), tracing, level: 0 }
    }

    /// The explanation recorded.
    pub fn explanation(&self) -> (r: &Vec<ValidWordElement>)
        ensures
            r@ == self.recorded(),
    {
        &self.explanation
    }

    /// The trace messages recorded.
    pub fn trace(&self) -> (r: &Vec<TraceLine>)
        ensures
            r@ == self.traced(),
    {
        &self.trace
    }

    /// Takes the explanation and the trace out of the log.
    pub fn into_parts(self) -> (r: (Vec<ValidWordElement>, Vec<TraceLine>))
        ensures
            r.0@ == self.recorded(),
            r.1@ == self.traced(),
    {
        (self.explanation, self.trace)
    }

    fn start(&mut self, location: SourceLocation, position: usize, event: ValidationTraceStart)
        ensures
            log_step(*old(self), *final(self)),
            final(self).recorded() == old(self).recorded().push(
                ValidWordElement { index: position, pattern_source: location, event: ValidWordEvent::Start(event) },
            ),
            final(self).traced() == if old(self).is_tracing() {
                old(self).traced().push(
                    TraceLine { level: old(self).depth(), message: ValidationTraceMessage::Start(location, position, event) },
                )
            } else {
                old(self).traced()
            },
            final(self).depth() == old(self).depth_after_start(),
    {
        self.explanation.push(
            ValidWordElement { index: position, pattern_source: location, event: ValidWordEvent::Start(event) },
        );
        if self.tracing {
            self.trace.push(
                TraceLine {
                    level: self.level,
                    message: ValidationTraceMessage::Start(location, position, event),
                },
            );
            if self.level < usize::MAX {
                self.level = self.level + 1;
            }
        }
    }

    fn success(&mut self, location: SourceLocation, position: usize, event: ValidationTraceEnd)
        ensures
            log_step(*old(self), *final(self)),
            final(self).recorded() == old(self).recorded().push(
                ValidWordElement { index: position, pattern_source: location, event: ValidWordEvent::End(event) },
            ),
            final(self).depth() == old(self).depth_after_end(event),
            final(self).traced() == if old(self).is_tracing() {
                old(self).traced().push(
                    TraceLine {
                        level: old(self).depth_after_end(event),
                        message: ValidationTraceMessage::Success(location, position, event),
                    },
                )
            } else {
                old(self).traced()
            },
    {
        self.explanation.push(
            ValidWordElement { index: position, pattern_source: location, event: ValidWordEvent::End(event) },
        );
        if self.tracing {
            if closes_start(&event) && self.level > 0 {
                self.level = self.level - 1;
            }
            self.trace.push(
                TraceLine {
                    level: self.level,
                    message: ValidationTraceMessage::Success(location, position, event),
                },
            );
        }
    }

    fn failure(
        &mut self,
        location: SourceLocation,
        position: usize,
        event: ValidationTraceEnd,
        failure: ValidationFailure,
    )
        ensures
            log_step(*old(self), *final(self)),
            final(self).recorded() == old(self).recorded(),
            final(self).depth() == old(self).depth_after_end(event),
            final(self).traced() == if old(self).is_tracing() {
                old(self).traced().push(
                    TraceLine {
                        level: old(self).depth_after_end(event),
                        message: ValidationTraceMessage::Failure(location, position, event, failure),
                    },
                )
            } else {
                old(self).traced()
            },
    {
        if self.tracing {
            if closes_start(&event) && self.level > 0 {
                self.level = self.level - 1;
            }
            self.trace.push(
                TraceLine {
                    level: self.level,
                    message: ValidationTraceMessage::Failure(location, position, event, failure),
                },
            );
        }
    }

    fn mark(&self) -> (r: usize)
        ensures
            r == self.recorded().len(),
    {
        self.explanation.len()
    }

    fn rewind(&mut self, mark: usize)
        ensures
            log_step(*old(self), *final(self)),
            final(self).recorded() == if mark <= old(self).recorded().len() {
                old(self).recorded().take(mark as int)
            } else {
                old(self).recorded()
            },
            final(self).traced() == old(self).traced(),
            final(self).depth() == old(self).depth(),
    {
        self.explanation.truncate(mark);
    }
}

/// What a matcher's answer says, as in `run`: where the match ended, or no match.
pub open spec fn lifted(r: Result<Result<usize, usize>, ElbieError>) -> Result<Option<int>, ElbieError> {
    match r {
        Ok(Ok(end)) => Ok(Some(end as int)),
        Ok(Err(_)) => Ok(None),
        Err(e) => Err(e),
    }
}

impl PatternSet {
    fn check_phoneme(
        &self,
        inventory: &Inventory,
        word: &[Phoneme],
        add_phoneme: &AddPhoneme,
        pos: usize,
        log: &mut ValidationLog,
    ) -> (r: Result<Result<usize, usize>, ElbieError>)
        requires
            pos <= word@.len(),
        ensures
            lifted(r) == match phoneme_step(*inventory, views(word@), add_phoneme.name, pos as int) {
                Err(e) => Err(e),
                Ok(true) => Ok(Some(pos + 1)),
                Ok(false) => Ok(None),
            },
            r matches Ok(Ok(end)) ==> end == pos + 1 && end <= word@.len(),
            r matches Ok(Err(end)) ==> end <= word@.len(),
            log_step(*old(log), *final(log)),
    {
        if pos < word.len() {
            let phoneme = word[pos];
            assert(views(word@)[pos as int] == phoneme@);
            match inventory.phoneme_is(&phoneme, add_phoneme.name) {
                Err(e) => Err(e),
                Ok(true) => {
                    log.success(add_phoneme.defined_at, pos, ValidationTraceEnd::PhonemeFound(phoneme));
                    Ok(Ok(pos + 1))
                },
                Ok(false) => {
                    log.failure(
                        add_phoneme.defined_at,
                        pos,
                        ValidationTraceEnd::PhonemeFound(phoneme),
                        ValidationFailure::InvalidPhoneme { expected: add_phoneme.name, found: phoneme },
                    );
                    Ok(Err(pos + 1))
                },
            }
        } else {
            log.failure(
                add_phoneme.defined_at,
                pos,
                ValidationTraceEnd::PhonemeNotFound,
                ValidationFailure::UnexpectedEnd { expected: add_phoneme.name },
            );
            Ok(Err(pos))
        }
    }

    fn check_pattern(
        &self,
        inventory: &Inventory,
        word: &[Phoneme],
        pattern: &Pattern,
        pos: usize,
        fuel: usize,
        log: &mut ValidationLog,
    ) -> (r: Result<Result<usize, usize>, ElbieError>)
        requires
            pos <= word@.len() < usize::MAX,
        ensures
            lifted(r) == run(*self, *inventory, views(word@), *pattern, pos as int, fuel as nat),
            r matches Ok(Ok(end)) ==> pos <= end <= word@.len(),
            r matches Ok(Err(end)) ==> end <= word@.len(),
            log_step(*old(log), *final(log)),
        decreases fuel, *pattern, 0nat,
    {
        match pattern {
            Pattern::Sequence(sequence) => {
                log.start(sequence.defined_at, pos, ValidationTraceStart::Sequence);
                let r = self.check_seq(inventory, word, sequence, 0, pos, fuel, log);
                if let Ok(Ok(end)) = r {
                    log.success(sequence.defined_at, end, ValidationTraceEnd::Sequence);
                }
                r
            },
            Pattern::Series(series) => {
                log.start(series.defined_at, pos, ValidationTraceStart::Series);
                let mark = log.mark();
                self.check_series(inventory, word, series, 0, pos, pos, mark, fuel, log)
            },
            Pattern::Optional(optional) => {
                log.start(optional.defined_at, pos, ValidationTraceStart::Optional);
                let mark = log.mark();
                match self.check_pattern(inventory, word, &optional.pattern, pos, fuel, log) {
                    Err(e) => Err(e),
                    Ok(Ok(end)) => {
                        log.success(optional.defined_at, end, ValidationTraceEnd::Optional(true));
                        Ok(Ok(end))
                    },
                    Ok(Err(_)) => {
                        log.rewind(mark);
                        log.success(optional.defined_at, pos, ValidationTraceEnd::Optional(false));
                        Ok(Ok(pos))
                    },
                }
            },
            Pattern::Choice(choice) => {
                log.start(choice.defined_at, pos, ValidationTraceStart::Choice);
                self.check_choice(inventory, word, choice, 0, pos, fuel, log)
            },
            Pattern::Tree(tree) => {
                let (branches, name, inner_fuel): (&TreeBranches, Option<&'static str>, usize) =
                    match &tree.environment {
                    NamedOrInlineBranches::Inline(branches) => (branches, None, fuel),
                    NamedOrInlineBranches::Named(name) => {
                        let branches = self.get_named_branches(name)?;
                        if fuel == 0 {
                            return Err(ElbieError::NestingTooDeep(name));
                        }
                        (branches, Some(*name), fuel - 1)
                    },
                };
                log.start(tree.defined_at, pos, ValidationTraceStart::Case(name));
                match self.check_phoneme(inventory, word, &tree.initial, pos, log) {
                    Err(e) => Err(e),
                    Ok(Err(end)) => {
                        log.failure(
                            tree.defined_at,
                            end,
                            ValidationTraceEnd::Case(name),
                            ValidationFailure::CaseConditionFailed,
                        );
                        Ok(Err(end))
                    },
                    Ok(Ok(next)) => {
                        let phoneme = word[pos];
                        assert(views(word@)[pos as int] == phoneme@);
                        log.start(branches.defined_at, next, ValidationTraceStart::CaseEnvironment);
                        match self.check_branches(inventory, word, branches, 0, &phoneme, next, inner_fuel, log) {
                            Err(e) => Err(e),
                            Ok(Ok(end)) => {
                                log.success(tree.defined_at, end, ValidationTraceEnd::Case(name));
                                Ok(Ok(end))
                            },
                            Ok(Err(end)) => {
                                log.failure(
                                    tree.defined_at,
                                    end,
                                    ValidationTraceEnd::Case(name),
                                    ValidationFailure::CaseEnvironmentFailed,
                                );
                                Ok(Err(end))
                            },
                        }
                    },
                }
            },
            Pattern::RuleReference(reference) => {
                log.start(reference.defined_at, pos, ValidationTraceStart::RuleReference(reference.name));
                let named = self.get(reference.name)?;
                if fuel == 0 {
                    return Err(ElbieError::NestingTooDeep(reference.name));
                }
                match self.check_pattern(inventory, word, named, pos, fuel - 1, log) {
                    Err(e) => Err(e),
                    Ok(Ok(end)) => {
                        log.success(reference.defined_at, end, ValidationTraceEnd::RuleReference(reference.name));
                        Ok(Ok(end))
                    },
                    Ok(Err(end)) => {
                        log.failure(
                            reference.defined_at,
                            end,
                            ValidationTraceEnd::RuleReference(reference.name),
                            ValidationFailure::ReferencedRuleFailed { name: reference.name },
                        );
                        Ok(Err(end))
                    },
                }
            },
            Pattern::SetMember(add_phoneme) => self.check_phoneme(inventory, word, add_phoneme, pos, log),
            Pattern::Terminate(terminate) => {
                if pos < word.len() {
                    log.failure(
                        terminate.defined_at,
                        pos,
                        ValidationTraceEnd::Terminate,
                        ValidationFailure::UnexpectedPhoneme { found: word[pos] },
                    );
                    Ok(Err(pos + 1))
                } else {
                    log.success(terminate.defined_at, pos, ValidationTraceEnd::Terminate);
                    Ok(Ok(pos))
                }
            },
        }
    }

    fn check_seq(
        &self,
        inventory: &Inventory,
        word: &[Phoneme],
        sequence: &Sequence,
        index: usize,
        pos: usize,
        fuel: usize,
        log: &mut ValidationLog,
    ) -> (r: Result<Result<usize, usize>, ElbieError>)
        requires
            pos <= word@.len() < usize::MAX,
            index <= sequence.patterns@.len(),
        ensures
            lifted(r) == run_seq(*self, *inventory, views(word@), *sequence, index as int, pos as int, fuel as nat),
            r matches Ok(Ok(end)) ==> pos <= end <= word@.len(),
            r matches Ok(Err(end)) ==> end <= word@.len(),
            log_step(*old(log), *final(log)),
        decreases fuel, *sequence, sequence.patterns@.len() - index,
    {
        if index >= sequence.patterns.len() {
            return Ok(Ok(pos));
        }
        match self.check_pattern(inventory, word, &sequence.patterns[index], pos, fuel, log) {
            Err(e) => Err(e),
            Ok(Err(end)) => {
                log.failure(
                    sequence.defined_at,
                    end,
                    ValidationTraceEnd::Sequence,
                    ValidationFailure::InnerSequencePatternFailed { index },
                );
                Ok(Err(end))
            },
            Ok(Ok(end)) => self.check_seq(inventory, word, sequence, index + 1, end, fuel, log),
        }
    }

    fn check_series(
        &self,
        inventory: &Inventory,
        word: &[Phoneme],
        series: &Series,
        count: usize,
        start: usize,
        pos: usize,
        mark: usize,
        fuel: usize,
        log: &mut ValidationLog,
    ) -> (r: Result<Result<usize, usize>, ElbieError>)
        requires
            start <= pos <= word@.len() < usize::MAX,
            count <= pos - start,
        ensures
            lifted(r) == run_series(*self, *inventory, views(word@), *series, count as int, pos as int, fuel as nat),
            r matches Ok(Ok(end)) ==> pos <= end <= word@.len(),
            r matches Ok(Err(end)) ==> end <= word@.len(),
            log_step(*old(log), *final(log)),
        decreases fuel, *series, word@.len() - pos,
    {
        let tried = log.mark();
        match self.check_pattern(inventory, word, &series.pattern, pos, fuel, log) {
            Err(e) => Err(e),
            Ok(Err(_)) => {
                log.rewind(tried);
                self.end_series(series, count, start, pos, log)
            },
            Ok(Ok(end)) => {
                let stop = match series.maximum {
                    Some(maximum) => count >= maximum,
                    None => false,
                };
                if stop {
                    self.end_series(series, count + 1, start, end, log)
                } else if pos < end {
                    self.check_series(inventory, word, series, count + 1, start, end, mark, fuel, log)
                } else {
                    self.end_series(series, count + 1, start, end, log)
                }
            },
        }
    }

    fn end_series(&self, series: &Series, count: usize, start: usize, end: usize, log: &mut ValidationLog) -> (r:
        Result<Result<usize, usize>, ElbieError>)
        requires
            start <= end,
        ensures
            lifted(r) == series_end(*series, count as int, end as int),
            r matches Ok(Ok(e)) ==> e == end,
            r matches Ok(Err(e)) ==> e == start,
            log_step(*old(log), *final(log)),
    {
        if count >= series.minimum {
            log.success(series.defined_at, end, ValidationTraceEnd::Series(count));
            Ok(Ok(end))
        } else {
            log.failure(
                series.defined_at,
                start,
                ValidationTraceEnd::Series(count),
                ValidationFailure::SeriesFailedToReachMinimumCount { minimum: series.minimum, count },
            );
            Ok(Err(start))
        }
    }

    fn check_choice(
        &self,
        inventory: &Inventory,
        word: &[Phoneme],
        choice: &Choice,
        index: usize,
        pos: usize,
        fuel: usize,
        log: &mut ValidationLog,
    ) -> (r: Result<Result<usize, usize>, ElbieError>)
        requires
            pos <= word@.len() < usize::MAX,
            index <= choice.branches.entries().len(),
        ensures
            lifted(r) == run_choice(*self, *inventory, views(word@), *choice, index as int, pos as int, fuel as nat),
            r matches Ok(Ok(end)) ==> pos <= end <= word@.len(),
            r matches Ok(Err(end)) ==> end <= word@.len(),
            log_step(*old(log), *final(log)),
        decreases fuel, *choice, choice.branches.entries().len() - index,
    {
        let items = choice.branches.items();
        if index >= items.len() {
            log.failure(
                choice.defined_at,
                pos,
                ValidationTraceEnd::Choice(items.len()),
                ValidationFailure::NoChoiceBranchesMatched,
            );
            return Ok(Err(pos));
        }
        proof {
            lemma_entry_decreases(choice.branches, index as int);
        }
        let mark = log.mark();
        match self.check_pattern(inventory, word, &items[index].0.body, pos, fuel, log) {
            Err(e) => Err(e),
            Ok(Ok(end)) => {
                log.success(choice.defined_at, end, ValidationTraceEnd::Choice(index));
                Ok(Ok(end))
            },
            Ok(Err(_)) => {
                log.rewind(mark);
                self.check_choice(inventory, word, choice, index + 1, pos, fuel, log)
            },
        }
    }

    fn check_branches(
        &self,
        inventory: &Inventory,
        word: &[Phoneme],
        branches: &TreeBranches,
        index: usize,
        phoneme: &Phoneme,
        pos: usize,
        fuel: usize,
        log: &mut ValidationLog,
    ) -> (r: Result<Result<usize, usize>, ElbieError>)
        requires
            pos <= word@.len() < usize::MAX,
            index <= branches.branches@.len(),
        ensures
            lifted(r) == run_branches(*self, *inventory, views(word@), *branches, index as int, phoneme@, pos as int, fuel as nat),
            r matches Ok(Ok(end)) ==> pos <= end <= word@.len(),
            r matches Ok(Err(end)) ==> end <= word@.len(),
            log_step(*old(log), *final(log)),
        decreases fuel, *branches, branches.branches@.len() - index,
    {
        if index >= branches.branches.len() {
            log.failure(
                branches.defined_at,
                pos,
                ValidationTraceEnd::CaseEnvironment(None),
                ValidationFailure::NoCaseBranchesMatched,
            );
            return Ok(Err(pos));
        }
        let branch = &branches.branches[index];
        match inventory.phoneme_is(phoneme, branch.condition_set) {
            Err(e) => Err(e),
            Ok(true) => match self.check_pattern(inventory, word, &branch.body, pos, fuel, log) {
                Err(e) => Err(e),
                Ok(Ok(end)) => {
                    log.success(branches.defined_at, end, ValidationTraceEnd::CaseEnvironment(Some(index)));
                    Ok(Ok(end))
                },
                Ok(Err(end)) => {
                    log.failure(
                        branches.defined_at,
                        end,
                        ValidationTraceEnd::CaseEnvironment(Some(index)),
                        ValidationFailure::CaseBranchBodyFailed { index },
                    );
                    Ok(Err(end))
                },
            },
            Ok(false) => self.check_branches(inventory, word, branches, index + 1, phoneme, pos, fuel, log),
        }
    }

    /// How deep references to named patterns and branches may nest for a word of `word_len`
    /// phonemes, as `nesting_budget` says, or `usize::MAX` when that does not fit.
    pub fn budget(&self, word_len: usize) -> (r: usize)
        ensures
            r == budget_for(*self, word_len as int),
    {
        let names = self.pattern_count().checked_add(self.branch_count());
        let factor = match names {
            Some(n) => n.checked_add(1),
            None => None,
        };
        let length = word_len.checked_add(1);
        match (length, factor) {
            (Some(l), Some(f)) => match l.checked_mul(f) {
                Some(b) => b,
                None => usize::MAX,
            },
            _ => {
                assert(nesting_budget(*self, word_len as int) > usize::MAX) by (nonlinear_arith)
                    requires
                        word_len + 1 > usize::MAX || self.pattern_entries().len()
                            + self.branch_entries().len() + 1 > usize::MAX,
                        nesting_budget(*self, word_len as int) == (word_len + 1) * (
                        self.pattern_entries().len() + self.branch_entries().len() + 1),
                {}
                usize::MAX
            },
        }
    }

    /// Validates a word against the patterns, recording an explanation and, when `tracing`,
    /// a trace. `Ok(true)` when the initial pattern matches the whole word; `Ok(false)` when it
    /// fails, or when phonemes are left after it; errors come from unknown sets, patterns or
    /// branches, or from references nested deeper than the budget.
    pub fn validate(&self, inventory: &Inventory, word: &Word, log: &mut ValidationLog) -> (r: Result<
        bool,
        ElbieError,
    >)
        requires
            word@.len() < usize::MAX,
        ensures
            r == word_follows(*self, *inventory, word@, budget_for(*self, word@.len() as int)),
            log_step(*old(log), *final(log)),
    {
        let phonemes = word.phonemes().as_slice();
        let fuel = self.budget(phonemes.len());
        match self.check_pattern(inventory, phonemes, self.initial(), 0, fuel, log) {
            Err(e) => Err(e),
            Ok(Err(end)) => {
                log.failure(
                    self.initial().defined_at(),
                    end,
                    ValidationTraceEnd::Word,
                    ValidationFailure::InitialPatternFailed,
                );
                Ok(false)
            },
            Ok(Ok(end)) => {
                if end < phonemes.len() {
                    log.failure(
                        self.initial().defined_at(),
                        end,
                        ValidationTraceEnd::Word,
                        ValidationFailure::UnexpectedPhonemeAfterPattern { found: phonemes[end] },
                    );
                    Ok(false)
                } else {
                    Ok(true)
                }
            },
        }
    }
}

/// A series of phonemes of one set that has matched `count` of them, the word being all of
/// that set: it ends after `maximum + 1` of them, or at the end of the word.
proof fn lemma_series_of_members(
    set: PatternSet,
    inventory: Inventory,
    word: Seq<Seq<u8>>,
    series: Series,
    add: AddPhoneme,
    maximum: usize,
    count: int,
    fuel: nat,
)
    requires
        series.pattern == Pattern::SetMember(add),
        series.maximum == Some(maximum),
        inventory.has_set(add.name.spec_bytes()),
        forall|i: int| 0 <= i < word.len() ==> members(inventory.set_named(add.name.spec_bytes())).contains(#[trigger] word[i]),
        0 <= count <= maximum,
        count <= word.len(),
    ensures
        run_series(set, inventory, word, series, count, count, fuel) == ({
            let c = if word.len() <= maximum + 1 {
                word.len() as int
            } else {
                maximum + 1
            };
            series_end(series, c, c)
        }),
    decreases word.len() - count,
{
    if count < word.len() {
        assert(members(inventory.set_named(add.name.spec_bytes())).contains(word[count]));
        assert(phoneme_step(inventory, word, add.name, count) == Ok::<bool, ElbieError>(true));
        assert(run(set, inventory, word, series.pattern, count, fuel) == Ok::<Option<int>, ElbieError>(Some(count + 1)));
        if count < maximum {
            lemma_series_of_members(set, inventory, word, series, add, maximum, count + 1, fuel);
        }
    } else {
        assert(phoneme_step(inventory, word, add.name, count) == Ok::<bool, ElbieError>(false));
        assert(run(set, inventory, word, series.pattern, count, fuel) == Ok::<Option<int>, ElbieError>(None));
    }
}

/// A series of single phonemes of a set never matches more than one repetition beyond its
/// `maximum`: followed by the end of the word, it accepts a word made of phonemes of that set
/// exactly when the word has at least `minimum` and at most `maximum + 1` phonemes.
pub proof fn lemma_series_maximum_bounds_words(
    set: PatternSet,
    inventory: Inventory,
    word: Seq<Seq<u8>>,
    sequence: Sequence,
    series: Series,
    add: AddPhoneme,
    terminate: TerminateWord,
    maximum: usize,
    fuel: nat,
)
    requires
        set.initial_pattern() == Pattern::Sequence(sequence),
        sequence.patterns@.len() == 2,
        sequence.patterns@[0] == Pattern::Series(Box::new(series)),
        sequence.patterns@[1] == Pattern::Terminate(terminate),
        series.pattern == Pattern::SetMember(add),
        series.maximum == Some(maximum),
        inventory.has_set(add.name.spec_bytes()),
        forall|i: int| 0 <= i < word.len() ==> members(inventory.set_named(add.name.spec_bytes())).contains(#[trigger] word[i]),
    ensures
        word_follows(set, inventory, word, fuel) == Ok::<bool, ElbieError>(series.minimum <= word.len() <= maximum + 1),
{
    lemma_series_of_members(set, inventory, word, series, add, maximum, 0, fuel);
    let c = if word.len() <= maximum + 1 {
        word.len() as int
    } else {
        maximum + 1
    };
    assert(run(set, inventory, word, sequence.patterns@[0], 0, fuel) == series_end(series, c, c));
    if c >= series.minimum {
        assert(run(set, inventory, word, sequence.patterns@[1], c, fuel) == if c < word.len() {
            Ok::<Option<int>, ElbieError>(None)
        } else {
            Ok(Some(c))
        });
        if c == word.len() {
            assert(run_seq(set, inventory, word, sequence, 2, c, fuel) == Ok::<Option<int>, ElbieError>(Some(c)));
            assert(run_seq(set, inventory, word, sequence, 1, c, fuel) == Ok::<Option<int>, ElbieError>(Some(c)));
        } else {
            assert(run_seq(set, inventory, word, sequence, 1, c, fuel) == Ok::<Option<int>, ElbieError>(None));
        }
    }
    assert(run(set, inventory, word, set.initial_pattern(), 0, fuel) == run_seq(set, inventory, word, sequence, 0, 0, fuel));
}

} // verus!
