use vstd::prelude::*;
use vstd::string::StringSliceAdditionalSpecFns;

use crate::errors::ElbieError;
use crate::names::same_name;
use crate::weighted_vec::WeightedVec;
use crate::weighted_vec::weight_sum;

verus! {

/// Where in the source of a language a pattern was defined: file, line and column.
#[derive(Debug, Clone, Copy)]
pub struct SourceLocation {
    pub file: &'static str,
    pub line: u32,
    pub column: u32,
}

/// Patterns that must all match, one after another.
#[derive(Debug)]
pub struct Sequence {
    pub patterns: Vec<Pattern>,
    pub defined_at: SourceLocation,
}

/// A pattern repeated at least `minimum` times. `probability` is the chance of one more
/// repetition when generating, kept as the bits of an IEEE single-precision number.
#[derive(Debug)]
pub struct Series {
    pub pattern: Pattern,
    pub probability: u32,
    pub minimum: usize,
    pub maximum: Option<usize>,
    pub defined_at: SourceLocation,
}

/// A pattern that may be left out. `probability` is the chance of it when generating, kept as
/// the bits of an IEEE single-precision number.
#[derive(Debug)]
pub struct Optional {
    pub pattern: Pattern,
    pub probability: u32,
    pub defined_at: SourceLocation,
}

/// One alternative of a choice.
#[derive(Debug)]
pub struct ChoiceBranch {
    pub body: Pattern,
}

/// Alternatives, each with a weight for generation; when validating, the first that matches
/// is taken.
#[derive(Debug)]
pub struct Choice {
    pub branches: WeightedVec<ChoiceBranch>,
    pub defined_at: SourceLocation,
}

/// One phoneme of the named set (or the named phoneme). With `avoid_duplicates`, generation
/// does not repeat the phoneme before it.
#[derive(Debug)]
pub struct AddPhoneme {
    pub name: &'static str,
    pub avoid_duplicates: bool,
    pub defined_at: SourceLocation,
}

/// A branch of a tree: taken when the phoneme before it is in `condition_set`.
#[derive(Debug)]
pub struct Branch {
    pub condition_set: &'static str,
    pub body: Pattern,
}

/// The branches that may follow a phoneme, tried in order.
#[derive(Debug)]
pub struct TreeBranches {
    pub branches: Vec<Branch>,
    pub defined_at: SourceLocation,
}

/// Branches given in place, or the name of branches defined in the pattern set.
#[derive(Debug)]
pub enum NamedOrInlineBranches {
    Inline(TreeBranches),
    Named(&'static str),
}

/// A phoneme, then the first branch whose condition the phoneme meets.
#[derive(Debug)]
pub struct Tree {
    pub initial: AddPhoneme,
    pub environment: NamedOrInlineBranches,
    pub defined_at: SourceLocation,
}

/// The end of the word.
#[derive(Debug)]
pub struct TerminateWord {
    pub defined_at: SourceLocation,
}

/// The pattern defined under a name in the pattern set.
#[derive(Debug)]
pub struct RuleReference {
    pub name: &'static str,
    pub defined_at: SourceLocation,
}

/// A phonotactic pattern.
#[derive(Debug)]
pub enum Pattern {
    Sequence(Sequence),
    Series(Box<Series>),
    Optional(Box<Optional>),
    Choice(Choice),
    Tree(Box<Tree>),
    RuleReference(RuleReference),
    SetMember(AddPhoneme),
    Terminate(TerminateWord),
}

impl Pattern {
    /// Where the pattern was defined.
    pub fn defined_at(&self) -> (r: SourceLocation)
        ensures
            r == location_of(*self),
    {
        match self {
            Pattern::Sequence(sequence) => sequence.defined_at,
            Pattern::Series(series) => series.defined_at,
            Pattern::Optional(optional) => optional.defined_at,
            Pattern::Choice(choice) => choice.defined_at,
            Pattern::Tree(tree) => tree.defined_at,
            Pattern::RuleReference(reference) => reference.defined_at,
            Pattern::SetMember(add_phoneme) => add_phoneme.defined_at,
            Pattern::Terminate(terminate_word) => terminate_word.defined_at,
        }
    }
}

/// Where a pattern was defined.
pub open spec fn location_of(pattern: Pattern) -> SourceLocation {
    match pattern {
        Pattern::Sequence(sequence) => sequence.defined_at,
        Pattern::Series(series) => series.defined_at,
        Pattern::Optional(optional) => optional.defined_at,
        Pattern::Choice(choice) => choice.defined_at,
        Pattern::Tree(tree) => tree.defined_at,
        Pattern::RuleReference(reference) => reference.defined_at,
        Pattern::SetMember(add_phoneme) => add_phoneme.defined_at,
        Pattern::Terminate(terminate_word) => terminate_word.defined_at,
    }
}

/// The value of the first entry named `name`, if any.
pub open spec fn lookup<V>(entries: Seq<(&'static str, V)>, name: Seq<u8>) -> Option<V>
    decreases entries.len(),
{
    if entries.len() == 0 {
        None
    } else if entries[0].0.spec_bytes() == name {
        Some(entries[0].1)
    } else {
        lookup(entries.drop_first(), name)
    }
}

/// The index of the entry named `name`; meaningful when there is one.
pub open spec fn lookup_index<V>(entries: Seq<(&'static str, V)>, name: Seq<u8>) -> int
    decreases entries.len(),
{
    if entries.len() == 0 {
        0
    } else if entries[0].0.spec_bytes() == name {
        0
    } else {
        1 + lookup_index(entries.drop_first(), name)
    }
}

proof fn lemma_lookup_push<V>(entries: Seq<(&'static str, V)>, name: &'static str, value: V, key: Seq<u8>)
    requires
        lookup(entries, name.spec_bytes()) is None,
    ensures
        lookup(entries.push((name, value)), key) == if key == name.spec_bytes() {
            Some(value)
        } else {
            lookup(entries, key)
        },
    decreases entries.len(),
{
    if entries.len() > 0 {
        assert(entries.push((name, value))[0] == entries[0]);
        assert(entries[0].0.spec_bytes() != name.spec_bytes());
        lemma_lookup_push(entries.drop_first(), name, value, key);
        assert(entries.push((name, value)).drop_first() =~= entries.drop_first().push((name, value)));
        if entries[0].0.spec_bytes() != key {
            assert(lookup(entries.push((name, value)), key) == lookup(
                entries.drop_first().push((name, value)),
                key,
            ));
        }
    } else {
        let pushed = entries.push((name, value));
        assert(pushed.drop_first() =~= Seq::<(&'static str, V)>::empty());
        assert(lookup(pushed.drop_first(), key) is None);
        assert(lookup(entries, key) is None);
    }
}

fn find_entry<V>(entries: &Vec<(&'static str, V)>, name: &'static str) -> (r: Option<usize>)
    ensures
        r is None <==> lookup(entries@, name.spec_bytes()) is None,
        r matches Some(i) ==> i < entries@.len() && lookup(entries@, name.spec_bytes()) == Some(
            entries@[i as int].1,
        ),
{
    let mut i: usize = 0;
    assert(entries@.skip(0) =~= entries@);
    while i < entries.len()
        invariant
            i <= entries@.len(),
            lookup(entries@, name.spec_bytes()) == lookup(entries@.skip(i as int), name.spec_bytes()),
        decreases entries@.len() - i,
    {
        proof {
            assert(entries@.skip(i as int)[0] == entries@[i as int]);
            assert(entries@.skip(i as int).drop_first() =~= entries@.skip(i + 1));
        }
        if same_name(entries[i].0, name) {
            return Some(i);
        }
        i = i + 1;
    }
    proof {
        assert(entries@.skip(i as int) =~= Seq::<(&'static str, V)>::empty());
    }
    None
}

/// Patterns built one after another as one pattern: a single pattern stands for itself; any
/// other number of patterns becomes a sequence defined at `defined_at`.
pub fn flatten_patterns(patterns: Vec<Pattern>, defined_at: SourceLocation) -> (r: Pattern)
    ensures
        patterns@.len() == 1 ==> r == patterns@[0],
        patterns@.len() != 1 ==> (r matches Pattern::Sequence(s) && s.patterns@ == patterns@
            && s.defined_at == defined_at),
{
    if patterns.len() == 1 {
        let mut patterns = patterns;
        patterns.remove(0)
    } else {
        Pattern::Sequence(Sequence { patterns, defined_at })
    }
}

/// The alternatives of a choice from patterns and their weights, in order. The weights must
/// add up within `usize`.
pub fn choice_branches(items: Vec<(Pattern, usize)>) -> (r: WeightedVec<ChoiceBranch>)
    requires
        weight_sum(items@) <= usize::MAX,
    ensures
        r.entries().len() == items@.len(),
        forall|i: int|
            0 <= i < items@.len() ==> (#[trigger] r.entries()[i]) == (ChoiceBranch { body: items@[i].0 }, items@[i].1),
{
    let ghost all = items@;
    let count = items.len();
    let mut rest = items;
    let mut result: WeightedVec<ChoiceBranch> = WeightedVec::new();
    let mut taken: usize = 0;
    while rest.len() > 0
        invariant
            taken <= all.len(),
            all.len() == count,
            rest@ == all.skip(taken as int),
            weight_sum(all) <= usize::MAX,
            result.entries().len() == taken,
            forall|i: int|
                0 <= i < taken ==> (#[trigger] result.entries()[i]) == (ChoiceBranch { body: all[i].0 }, all[i].1),
            weight_sum(result.entries()) == weight_sum(all.take(taken as int)),
        decreases rest@.len(),
    {
        let (body, weight) = rest.remove(0);
        proof {
            assert(all[taken as int] == (body, weight));
            assert(all.take(taken + 1).drop_last() =~= all.take(taken as int));
            lemma_weight_sum_prefix(all, taken + 1);
        }
        let ghost before = result.entries();
        result.push(ChoiceBranch { body }, weight);
        proof {
            assert(result.entries().drop_last() =~= before);
            assert(rest@ =~= all.skip(taken + 1));
        }
        taken = taken + 1;
    }
    result
}

proof fn lemma_weight_sum_prefix<T>(items: Seq<(T, usize)>, n: int)
    requires
        0 <= n <= items.len(),
    ensures
        weight_sum(items.take(n)) <= weight_sum(items),
    decreases items.len() - n,
{
    if n < items.len() {
        lemma_weight_sum_prefix(items, n + 1);
        assert(items.take(n + 1).drop_last() =~= items.take(n));
    } else {
        assert(items.take(n) =~= items);
    }
}

/// The branches of a tree from patterns and the sets that select them, in order.
pub fn tree_branches(items: Vec<(Pattern, &'static str)>) -> (r: Vec<Branch>)
    ensures
        r@.len() == items@.len(),
        forall|i: int|
            0 <= i < items@.len() ==> (#[trigger] r@[i]) == (Branch { condition_set: items@[i].1, body: items@[i].0 }),
{
    let ghost all = items@;
    let mut rest = items;
    let mut result: Vec<Branch> = Vec::new();
    while rest.len() > 0
        invariant
            result@.len() <= all.len(),
            rest@ == all.skip(result@.len() as int),
            forall|i: int|
                0 <= i < result@.len() ==> (#[trigger] result@[i]) == (Branch { condition_set: all[i].1, body: all[i].0 }),
        decreases rest@.len(),
    {
        let ghost n: int = result@.len() as int;
        let (body, condition_set) = rest.remove(0);
        proof {
            assert(all[n] == (body, condition_set));
            assert(rest@ =~= all.skip(n + 1));
        }
        result.push(Branch { condition_set, body });
    }
    result
}

/// The patterns of a language: the pattern a word must follow, named patterns that rule
/// references call, and named branches that trees can follow.
#[derive(Debug)]
pub struct PatternSet {
    patterns: Vec<(&'static str, Pattern)>,
    branches: Vec<(&'static str, TreeBranches)>,
    initial: Pattern,
}

impl PatternSet {
    /// The named patterns, in the order they were added.
    pub closed spec fn pattern_entries(&self) -> Seq<(&'static str, Pattern)> {
        self.patterns@
    }

    /// The named branches, in the order they were added.
    pub closed spec fn branch_entries(&self) -> Seq<(&'static str, TreeBranches)> {
        self.branches@
    }

    /// The pattern a whole word must follow.
    pub closed spec fn initial_pattern(&self) -> Pattern {
        self.initial
    }

    /// The pattern named `name`, if any.
    pub open spec fn pattern_named(&self, name: Seq<u8>) -> Option<Pattern> {
        lookup(self.pattern_entries(), name)
    }

    /// The branches named `name`, if any.
    pub open spec fn branches_named(&self, name: Seq<u8>) -> Option<TreeBranches> {
        lookup(self.branch_entries(), name)
    }

    /// A pattern set whose words follow `initial`, with nothing named yet.
    pub fn new(initial: Pattern) -> (r: Self)
        ensures
            r.initial_pattern() == initial,
            r.pattern_entries() == Seq::<(&'static str, Pattern)>::empty(),
            r.branch_entries() == Seq::<(&'static str, TreeBranches)>::empty(),
    {
        PatternSet { patterns: Vec::new(), branches: Vec::new(), initial }
    }

    /// How many patterns are named.
    pub fn pattern_count(&self) -> (r: usize)
        ensures
            r == self.pattern_entries().len(),
    {
        self.patterns.len()
    }

    /// How many branches are named.
    pub fn branch_count(&self) -> (r: usize)
        ensures
            r == self.branch_entries().len(),
    {
        self.branches.len()
    }

    /// The pattern a whole word must follow.
    pub fn initial(&self) -> (r: &Pattern)
        ensures
            *r == self.initial_pattern(),
    {
        &self.initial
    }

    /// Names a pattern. A name already given to a pattern is an error, and nothing changes.
    pub fn pattern(&mut self, name: &'static str, pattern: Pattern) -> (r: Result<(), ElbieError>)
        ensures
            r is Err <==> old(self).pattern_named(name.spec_bytes()) is Some,
            r is Err ==> r == Err::<(), ElbieError>(ElbieError::PatternAlreadyExists(name))
                && *final(self) == *old(self),
            r is Ok ==> final(self).pattern_entries() == old(self).pattern_entries().push(
                (name, pattern),
            ),
            final(self).branch_entries() == old(self).branch_entries(),
            final(self).initial_pattern() == old(self).initial_pattern(),
    {
        match find_entry(&self.patterns, name) {
            Some(_) => Err(ElbieError::PatternAlreadyExists(name)),
            None => {
                self.patterns.push((name, pattern));
                Ok(())
            },
        }
    }

    /// The pattern named `name`; an unknown name is an error.
    pub fn get(&self, name: &'static str) -> (r: Result<&Pattern, ElbieError>)
        ensures
            r is Ok <==> self.pattern_named(name.spec_bytes()) is Some,
            r matches Ok(p) ==> self.pattern_named(name.spec_bytes()) == Some(*p),
            r is Err ==> r == Err::<&Pattern, ElbieError>(ElbieError::UnknownPattern(name)),
    {
        match find_entry(&self.patterns, name) {
            Some(i) => Ok(&self.patterns[i].1),
            None => Err(ElbieError::UnknownPattern(name)),
        }
    }

    /// Names branches. A name already given to branches is an error, and nothing changes.
    pub fn named_branches(&mut self, name: &'static str, branches: TreeBranches) -> (r: Result<
        (),
        ElbieError,
    >)
        ensures
            r is Err <==> old(self).branches_named(name.spec_bytes()) is Some,
            r is Err ==> r == Err::<(), ElbieError>(ElbieError::EnvironmentAlreadyExists(name))
                && *final(self) == *old(self),
            r is Ok ==> final(self).branch_entries() == old(self).branch_entries().push(
                (name, branches),
            ),
            final(self).pattern_entries() == old(self).pattern_entries(),
            final(self).initial_pattern() == old(self).initial_pattern(),
    {
        match find_entry(&self.branches, name) {
            Some(_) => Err(ElbieError::EnvironmentAlreadyExists(name)),
            None => {
                self.branches.push((name, branches));
                Ok(())
            },
        }
    }

    /// The branches named `name`; an unknown name is an error.
    pub fn get_named_branches(&self, name: &'static str) -> (r: Result<&TreeBranches, ElbieError>)
        ensures
            r is Ok <==> self.branches_named(name.spec_bytes()) is Some,
            r matches Ok(b) ==> self.branches_named(name.spec_bytes()) == Some(*b),
            r is Err ==> r == Err::<&TreeBranches, ElbieError>(ElbieError::UnknownEnvironment(name)),
    {
        match find_entry(&self.branches, name) {
            Some(i) => Ok(&self.branches[i].1),
            None => Err(ElbieError::UnknownEnvironment(name)),
        }
    }
}

/// After a pattern is named, looking the name up gives that pattern, and every other name
/// gives what it gave before.
pub proof fn lemma_pattern_then_get(
    before: PatternSet,
    after: PatternSet,
    name: &'static str,
    pattern: Pattern,
    other: Seq<u8>,
)
    requires
        before.pattern_named(name.spec_bytes()) is None,
        after.pattern_entries() == before.pattern_entries().push((name, pattern)),
    ensures
        after.pattern_named(name.spec_bytes()) == Some(pattern),
        other != name.spec_bytes() ==> after.pattern_named(other) == before.pattern_named(other),
{
    lemma_lookup_push(before.pattern_entries(), name, pattern, name.spec_bytes());
    lemma_lookup_push(before.pattern_entries(), name, pattern, other);
}

/// After branches are named, looking the name up gives those branches, and every other name
/// gives what it gave before.
pub proof fn lemma_branches_then_get(
    before: PatternSet,
    after: PatternSet,
    name: &'static str,
    branches: TreeBranches,
    other: Seq<u8>,
)
    requires
        before.branches_named(name.spec_bytes()) is None,
        after.branch_entries() == before.branch_entries().push((name, branches)),
    ensures
        after.branches_named(name.spec_bytes()) == Some(branches),
        other != name.spec_bytes() ==> after.branches_named(other) == before.branches_named(other),
{
    lemma_lookup_push(before.branch_entries(), name, branches, name.spec_bytes());
    lemma_lookup_push(before.branch_entries(), name, branches, other);
}

/// A choice of the older environment API: end the word, or generate a phoneme of a set and go
/// on with a named environment, allowing a repeat of the phoneme before it or not.
#[derive(Debug, Clone, Copy)]
pub enum EnvironmentChoice {
    Done,
    Continuing(&'static str, &'static str, bool),
}

/// A branch of the older environment API: the set the phoneme before it must be in, and
/// weighted choices of what comes next.
#[derive(Debug)]
pub struct EnvironmentBranch(&'static str, WeightedVec<EnvironmentChoice>);

/// The sum of the weights of some choices.
pub open spec fn choice_weights(choices: Seq<(EnvironmentChoice, usize)>) -> nat
    decreases choices.len(),
{
    if choices.len() == 0 {
        0
    } else {
        choice_weights(choices.drop_last()) + choices.last().1 as nat
    }
}

impl EnvironmentBranch {
    /// The set the phoneme before the branch must be in.
    pub closed spec fn condition(&self) -> &'static str {
        self.0
    }

    /// The weighted choices.
    pub closed spec fn choice_list(&self) -> Seq<(EnvironmentChoice, usize)> {
        self.1.entries()
    }

    /// A branch with its condition set and weighted choices; the weights must sum within
    /// `usize`.
    pub fn new(set_check: &'static str, choices: &[(EnvironmentChoice, usize)]) -> (r: Self)
        requires
            choice_weights(choices@) <= usize::MAX,
        ensures
            r.condition() == set_check,
            r.choice_list() == choices@,
    {
        let mut list = WeightedVec::new();
        let mut i: usize = 0;
        while i < choices.len()
            invariant
                i <= choices@.len(),
                choice_weights(choices@) <= usize::MAX,
                list.entries() == choices@.take(i as int),
            decreases choices@.len() - i,
        {
            proof {
                assert(choices@.take(i + 1).drop_last() =~= choices@.take(i as int));
                lemma_weights_match(choices@.take(i as int));
                lemma_weights_prefix(choices@, i + 1);
            }
            list.push(choices[i].0, choices[i].1);
            proof {
                assert(choices@.take(i + 1) =~= choices@.take(i as int).push(choices@[i as int]));
            }
            i = i + 1;
        }
        proof {
            assert(choices@.take(i as int) =~= choices@);
        }
        EnvironmentBranch(set_check, list)
    }

    /// The set the phoneme before the branch must be in.
    pub fn set(&self) -> (r: &'static str)
        ensures
            r == self.condition(),
    {
        self.0
    }

    /// The weighted choices.
    pub fn choices(&self) -> (r: &WeightedVec<EnvironmentChoice>)
        ensures
            r.entries() == self.choice_list(),
    {
        &self.1
    }
}

proof fn lemma_weights_match(choices: Seq<(EnvironmentChoice, usize)>)
    ensures
        weight_sum(choices) == choice_weights(choices),
    decreases choices.len(),
{
    if choices.len() > 0 {
        lemma_weights_match(choices.drop_last());
    }
}

proof fn lemma_weights_prefix(choices: Seq<(EnvironmentChoice, usize)>, k: int)
    requires
        0 <= k <= choices.len(),
    ensures
        choice_weights(choices.take(k)) <= choice_weights(choices),
    decreases choices.len() - k,
{
    if k < choices.len() {
        lemma_weights_prefix(choices, k + 1);
        assert(choices.take(k + 1).drop_last() =~= choices.take(k));
    } else {
        assert(choices.take(k) =~= choices);
    }
}

/// The pattern a choice of the older environment API stands for: the end of the word, or a
/// phoneme of a set followed by a named environment.
pub open spec fn environment_pattern(choice: EnvironmentChoice, defined_at: SourceLocation) -> Pattern {
    match choice {
        EnvironmentChoice::Done => Pattern::Terminate(TerminateWord { defined_at }),
        EnvironmentChoice::Continuing(set, next, allow_duplicates) => Pattern::Tree(
            Box::new(
                Tree {
                    initial: AddPhoneme { name: set, avoid_duplicates: !allow_duplicates, defined_at },
                    environment: NamedOrInlineBranches::Named(next),
                    defined_at,
                },
            ),
        ),
    }
}

fn choice_pattern(choice: EnvironmentChoice, defined_at: SourceLocation) -> (r: Pattern)
    ensures
        r == environment_pattern(choice, defined_at),
{
    match choice {
        EnvironmentChoice::Done => Pattern::Terminate(TerminateWord { defined_at }),
        EnvironmentChoice::Continuing(set, next, allow_duplicates) => Pattern::Tree(
            Box::new(
                Tree {
                    initial: AddPhoneme { name: set, avoid_duplicates: !allow_duplicates, defined_at },
                    environment: NamedOrInlineBranches::Named(next),
                    defined_at,
                },
            ),
        ),
    }
}

/// Whether a branch made from an environment branch has its condition and a choice of the
/// patterns its choices stand for, with their weights.
pub open spec fn branch_from_environment(branch: Branch, environment: EnvironmentBranch, defined_at: SourceLocation) -> bool {
    &&& branch.condition_set == environment.condition()
    &&& branch.body matches Pattern::Choice(choice) && choice.defined_at == defined_at
        && choice.branches.entries().len() == environment.choice_list().len() && forall|j: int|
        0 <= j < environment.choice_list().len() ==> (#[trigger] choice.branches.entries()[j]).1
            == environment.choice_list()[j].1 && choice.branches.entries()[j].0.body == environment_pattern(
            environment.choice_list()[j].0,
            defined_at,
        )
}

/// The tree branches that branches of the older environment API stand for: for each, a branch
/// on its condition set whose body chooses, by weight, between the patterns its choices stand
/// for. Each environment branch must have a choice.
pub fn branches_from_environment(environment: &[EnvironmentBranch], defined_at: SourceLocation) -> (r:
    TreeBranches)
    requires
        forall|i: int| 0 <= i < environment@.len() ==> (#[trigger] environment@[i]).choice_list().len() > 0,
    ensures
        r.defined_at == defined_at,
        r.branches@.len() == environment@.len(),
        forall|i: int|
            0 <= i < environment@.len() ==> branch_from_environment(
                #[trigger] r.branches@[i],
                environment@[i],
                defined_at,
            ),
{
    let mut branches: Vec<Branch> = Vec::new();
    let mut i: usize = 0;
    while i < environment.len()
        invariant
            i <= environment@.len(),
            branches@.len() == i,
            forall|k: int|
                0 <= k < i ==> branch_from_environment(#[trigger] branches@[k], environment@[k], defined_at),
        decreases environment@.len() - i,
    {
        let source = &environment[i];
        let items = source.choices().items();
        let total = source.choices().total_weight();
        let mut list: WeightedVec<ChoiceBranch> = WeightedVec::new();
        let mut j: usize = 0;
        while j < items.len()
            invariant
                j <= items@.len(),
                items@ == source.choice_list(),
                total == weight_sum(items@),
                list.entries().len() == j,
                weight_sum(list.entries()) == weight_sum(items@.take(j as int)),
                forall|q: int|
                    0 <= q < j ==> (#[trigger] list.entries()[q]).1 == items@[q].1 && list.entries()[q].0.body
                        == environment_pattern(items@[q].0, defined_at),
            decreases items@.len() - j,
        {
            proof {
                crate::weighted_vec::lemma_sum_prefix(items@, j + 1);
                assert(items@.take(j + 1).drop_last() =~= items@.take(j as int));
            }
            let pattern = choice_pattern(items[j].0, defined_at);
            let ghost before = list.entries();
            list.push(ChoiceBranch { body: pattern }, items[j].1);
            proof {
                assert(list.entries().drop_last() =~= before);
            }
            j = j + 1;
        }
        branches.push(
            Branch {
                condition_set: source.set(),
                body: Pattern::Choice(Choice { branches: list, defined_at }),
            },
        );
        i = i + 1;
    }
    TreeBranches { branches, defined_at }
}

} // verus!
