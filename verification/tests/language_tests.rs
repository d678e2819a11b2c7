use elbie::errors::ElbieError;
use elbie::generation::generate;
use elbie::patterns::Branch;
use elbie::patterns::NamedOrInlineBranches;
use elbie::patterns::Tree;
use elbie::patterns::TreeBranches;
use elbie::patterns::AddPhoneme;
use elbie::patterns::Choice;
use elbie::patterns::ChoiceBranch;
use elbie::patterns::EnvironmentBranch;
use elbie::patterns::EnvironmentChoice;
use elbie::patterns::Optional;
use elbie::patterns::Pattern;
use elbie::patterns::PatternSet;
use elbie::patterns::RuleReference;
use elbie::patterns::Sequence;
use elbie::patterns::Series;
use elbie::patterns::SourceLocation;
use elbie::patterns::TerminateWord;
use elbie::patterns::branches_from_environment;
use elbie::phoneme::Inventory;
use elbie::phoneme::InventoryLoader;
use elbie::phoneme::Phoneme;
use elbie::reading::read_word;
use elbie::splice::apply_rule;
use elbie::splice::apply_splices;
use elbie::transformation::RuleState;
use elbie::transformation::RuleStateError;
use elbie::transformation::WordSplice;
use elbie::validation::ValidationLog;
use elbie::weighted_vec::WeightedVec;
use elbie::word::Word;

const HERE: SourceLocation = SourceLocation { file: "test", line: 1, column: 1 };

fn sample_inventory() -> Inventory {
    let mut inventory = Inventory::new();
    for p in ["p", "t", "k", "s"] {
        inventory.add_phoneme(p, &["consonant"]).unwrap();
    }
    for p in ["a", "i", "u", "ai"] {
        inventory.add_phoneme(p, &["vowel"]).unwrap();
    }
    inventory
}

fn set(name: &'static str) -> Pattern {
    Pattern::SetMember(AddPhoneme { name, avoid_duplicates: false, defined_at: HERE })
}

fn word(inventory: &Inventory, names: &[&'static str]) -> Word {
    let phonemes: Vec<Phoneme> = names.iter().map(|n| inventory.get_phoneme(n).unwrap()).collect();
    Word::new(&phonemes)
}

#[test]
fn inventory_sets_and_lookup() {
    let sounds = sample_inventory();
    let inventory = &sounds;
    assert!(inventory.phoneme_is(&Phoneme::new("p"), "consonant").unwrap());
    assert!(!inventory.phoneme_is(&Phoneme::new("a"), "consonant").unwrap());
    assert!(inventory.phoneme_is(&Phoneme::new("a"), "phoneme").unwrap());
    assert!(matches!(inventory.phoneme_is(&Phoneme::new("a"), "nasal"), Err(ElbieError::UnknownSet("nasal"))));
    assert!(matches!(inventory.get_phoneme("x"), Err(ElbieError::UnknownPhoneme("x"))));
    let mut again = sample_inventory();
    assert!(matches!(again.add_phoneme("p", &[]), Err(ElbieError::PhonemeAlreadyExists("p"))));
}

#[test]
fn inventory_extend_adds_sets_and_container() {
    let mut target = Inventory::new();
    target.add_phoneme("m", &["nasal"]).unwrap();
    let source = sample_inventory();
    target.extend(&source, "borrowed").unwrap();
    assert!(target.phoneme_is(&Phoneme::new("p"), "consonant").unwrap());
    assert!(target.phoneme_is(&Phoneme::new("ai"), "borrowed").unwrap());
    assert!(!target.phoneme_is(&Phoneme::new("m"), "borrowed").unwrap());
    assert!(target.phoneme_is(&Phoneme::new("m"), "nasal").unwrap());
}

#[test]
fn inventory_extend_refuses_a_set_named_like_a_phoneme() {
    let mut target = Inventory::new();
    target.add_phoneme("consonant", &[]).unwrap();
    let source = sample_inventory();
    assert!(matches!(target.extend(&source, "borrowed"), Err(ElbieError::PhonemeExistsWithSetName("consonant"))));
    let mut other = Inventory::new();
    other.add_phoneme("borrowed", &[]).unwrap();
    assert!(matches!(other.extend(&source, "borrowed"), Err(ElbieError::PhonemeExistsWithSetName("borrowed"))));
}

#[test]
fn read_word_takes_longest_name() {
    let inventory = sample_inventory();
    let w = read_word(&inventory, "paita").unwrap();
    assert_eq!(w.display(), "/paita/");
    let names: Vec<&str> = w.phonemes().iter().map(|p| p.name).collect();
    assert_eq!(names, vec!["p", "ai", "t", "a"]);
}

#[test]
fn read_word_reports_unread_text() {
    let inventory = sample_inventory();
    match read_word(&inventory, "paxa") {
        Err(ElbieError::UnknownPhonemeWhileReading(whole, rest)) => {
            assert_eq!(whole, "paxa");
            assert_eq!(rest, "xa");
        },
        other => panic!("unexpected {other:?}"),
    }
    match read_word(&inventory, "taéka") {
        Err(ElbieError::UnknownPhonemeWhileReading(whole, rest)) => {
            assert_eq!(whole, "taéka");
            assert_eq!(rest, "éka");
        },
        other => panic!("unexpected {other:?}"),
    }
}

fn syllables() -> PatternSet {
    // (C V)+ then the end of the word
    let syllable = Pattern::Sequence(Sequence { patterns: vec![set("consonant"), set("vowel")], defined_at: HERE });
    let series = Pattern::Series(Box::new(Series { pattern: syllable, probability: 0, minimum: 1, maximum: None, defined_at: HERE }));
    let mut patterns = PatternSet::new(Pattern::Sequence(Sequence {
        patterns: vec![series, Pattern::Terminate(TerminateWord { defined_at: HERE })],
        defined_at: HERE,
    }));
    patterns.pattern("syllable", set("vowel")).unwrap();
    patterns
}

#[test]
fn validation_accepts_and_rejects() {
    let inventory = sample_inventory();
    let patterns = syllables();
    let mut log = ValidationLog::new(false);
    assert_eq!(patterns.validate(&inventory, &word(&inventory, &["p", "a", "t", "i"]), &mut log).unwrap(), true);
    let mut log = ValidationLog::new(false);
    assert_eq!(patterns.validate(&inventory, &word(&inventory, &["p", "a", "t"]), &mut log).unwrap(), false);
    let mut log = ValidationLog::new(true);
    assert_eq!(patterns.validate(&inventory, &word(&inventory, &["a"]), &mut log).unwrap(), false);
    assert!(!log.trace().is_empty());
}

#[test]
fn validation_explains_valid_words() {
    let inventory = sample_inventory();
    let patterns = syllables();
    let mut log = ValidationLog::new(false);
    assert!(patterns.validate(&inventory, &word(&inventory, &["k", "u"]), &mut log).unwrap());
    assert!(!log.explanation().is_empty());
}

#[test]
fn validation_reports_unknown_pattern_and_set() {
    let inventory = sample_inventory();
    let patterns = PatternSet::new(Pattern::RuleReference(RuleReference { name: "missing", defined_at: HERE }));
    let mut log = ValidationLog::new(false);
    assert!(matches!(patterns.validate(&inventory, &word(&inventory, &["a"]), &mut log), Err(ElbieError::UnknownPattern("missing"))));
    let patterns = PatternSet::new(set("nasal"));
    let mut log = ValidationLog::new(false);
    assert!(matches!(patterns.validate(&inventory, &word(&inventory, &["a"]), &mut log), Err(ElbieError::UnknownSet("nasal"))));
}

#[test]
fn validation_choice_and_optional() {
    let inventory = sample_inventory();
    let mut branches = WeightedVec::new();
    branches.push(ChoiceBranch { body: set("consonant") }, 1);
    branches.push(ChoiceBranch { body: set("vowel") }, 1);
    let choice = Pattern::Choice(Choice { branches, defined_at: HERE });
    let optional = Pattern::Optional(Box::new(Optional { pattern: set("consonant"), probability: 0, defined_at: HERE }));
    let patterns = PatternSet::new(Pattern::Sequence(Sequence { patterns: vec![choice, optional], defined_at: HERE }));
    let mut log = ValidationLog::new(false);
    assert!(patterns.validate(&inventory, &word(&inventory, &["a", "k"]), &mut log).unwrap());
    let mut log = ValidationLog::new(false);
    assert!(patterns.validate(&inventory, &word(&inventory, &["a"]), &mut log).unwrap());
    let mut log = ValidationLog::new(false);
    assert!(!patterns.validate(&inventory, &word(&inventory, &["a", "a"]), &mut log).unwrap());
}

#[test]
fn rule_reference_nesting_is_bounded() {
    let inventory = sample_inventory();
    let mut patterns = PatternSet::new(Pattern::RuleReference(RuleReference { name: "loop", defined_at: HERE }));
    patterns.pattern("loop", Pattern::RuleReference(RuleReference { name: "loop", defined_at: HERE })).unwrap();
    let mut log = ValidationLog::new(false);
    assert!(matches!(patterns.validate(&inventory, &word(&inventory, &["a"]), &mut log), Err(ElbieError::NestingTooDeep("loop"))));
}

#[test]
fn pattern_set_names_are_unique() {
    let mut patterns = syllables();
    assert!(matches!(patterns.pattern("syllable", set("vowel")), Err(ElbieError::PatternAlreadyExists("syllable"))));
    assert!(patterns.get("syllable").is_ok());
    assert!(matches!(patterns.get("nothing"), Err(ElbieError::UnknownPattern("nothing"))));
    assert!(matches!(patterns.get_named_branches("nothing"), Err(ElbieError::UnknownEnvironment("nothing"))));
}

#[test]
fn environment_branches_become_tree_branches() {
    let branch = EnvironmentBranch::new("vowel", &[(EnvironmentChoice::Done, 2), (EnvironmentChoice::Continuing("consonant", "onset", false), 3)]);
    assert_eq!(branch.set(), "vowel");
    assert_eq!(branch.choices().total_weight(), 5);
    let branches = branches_from_environment(&[branch], HERE);
    assert_eq!(branches.branches.len(), 1);
    assert_eq!(branches.branches[0].condition_set, "vowel");
    match &branches.branches[0].body {
        Pattern::Choice(choice) => {
            assert_eq!(choice.branches.items().len(), 2);
            assert_eq!(choice.branches.items()[1].1, 3);
            match &choice.branches.items()[1].0.body {
                Pattern::Tree(tree) => assert!(tree.initial.avoid_duplicates),
                _ => panic!("expected a tree"),
            }
        },
        _ => panic!("expected a choice"),
    }
}

#[test]
fn weighted_pick_lands_by_weight() {
    let mut list = WeightedVec::new();
    list.push("zero", 0);
    list.push("one", 2);
    list.push("two", 3);
    assert_eq!(*list.pick_at(1), "one");
    assert_eq!(*list.pick_at(2), "one");
    assert_eq!(*list.pick_at(3), "two");
    assert_eq!(*list.pick_at(5), "two");
    let mut rng = rand::rng();
    let picked = *list.pick(&mut rng);
    assert!(picked == "one" || picked == "two");
}

fn splice(start_index: usize, length: usize, replace: Vec<Phoneme>) -> WordSplice {
    WordSplice { start_index, length, replace }
}

#[test]
fn splices_apply_at_once() {
    let inventory = sample_inventory();
    let w = word(&inventory, &["p", "a", "t", "a"]);
    let s = inventory.get_phoneme("s").unwrap();
    let i = inventory.get_phoneme("i").unwrap();
    let (result, applied) = apply_splices(&w, vec![splice(3, 1, vec![i]), splice(0, 1, vec![s, s])], "rule").unwrap();
    assert!(applied);
    assert_eq!(result.display(), "/ssati/");
    let (same, applied) = apply_splices(&w, vec![], "rule").unwrap();
    assert!(!applied);
    assert_eq!(same.display(), "/pata/");
}

#[test]
fn overlapping_splices_are_an_error() {
    let inventory = sample_inventory();
    let w = word(&inventory, &["p", "a", "t", "a"]);
    let s = inventory.get_phoneme("s").unwrap();
    let result = apply_splices(&w, vec![splice(0, 2, vec![s]), splice(1, 1, vec![])], "clash");
    assert!(matches!(result, Err(ElbieError::TransformationCreatedOverlappingReplacements("clash"))));
    let result = apply_splices(&w, vec![splice(2, 0, vec![s]), splice(2, 1, vec![])], "same-start");
    assert!(matches!(result, Err(ElbieError::TransformationCreatedOverlappingReplacements("same-start"))));
}

#[test]
fn rule_replaces_between_consonants() {
    // vowel between consonants becomes i: matched on the original word, so neighbours overlap
    // in context but not in replacement
    let inventory = sample_inventory();
    let w = word(&inventory, &["p", "a", "t", "a", "k"]);
    let rule = |state: &mut RuleState| -> Result<bool, RuleStateError> {
        state.is("consonant")?;
        state.repl("vowel", &["i"])?;
        state.is("consonant")?;
        Ok(true)
    };
    let (result, applied) = apply_rule(&inventory, &w, "raise", &rule).unwrap();
    assert!(applied);
    assert_eq!(result.display(), "/pitik/");
}

#[test]
fn rule_with_unknown_replacement_is_an_error() {
    let inventory = sample_inventory();
    let w = word(&inventory, &["p", "a"]);
    let rule = |state: &mut RuleState| -> Result<bool, RuleStateError> {
        state.repl("vowel", &["x"])?;
        Ok(true)
    };
    assert!(matches!(apply_rule(&inventory, &w, "bad", &rule), Err(ElbieError::UnknownPhoneme("x"))));
}

#[test]
fn rule_state_positions() {
    let inventory = sample_inventory();
    let w = word(&inventory, &["p", "a"]);
    let rule = |state: &mut RuleState| -> Result<bool, RuleStateError> {
        state.initial()?;
        state.not_final()?;
        state.any()?;
        assert!(state.peek_is("vowel").unwrap());
        assert!(state.opt("vowel").unwrap());
        state.final_()?;
        assert!(!state.peek_is("vowel").unwrap());
        assert!(matches!(state.peek_is("nasal"), Err(ElbieError::UnknownSet("nasal"))));
        state.ins(&["s"])?;
        Ok(true)
    };
    let (result, _) = apply_rule(&inventory, &w, "append", &rule).unwrap();
    assert_eq!(result.display(), "/pas/");
}

#[test]
fn rule_optional_sequences() {
    let inventory = sample_inventory();
    let w = word(&inventory, &["t", "a", "k", "a"]);
    let rule = |state: &mut RuleState| -> Result<bool, RuleStateError> {
        state.is("consonant")?;
        let matched = state.opt_repl_seq(|inner: &mut RuleState| {
            inner.is("vowel")?;
            inner.is("consonant")?;
            Ok(true)
        }, &["u"])?;
        Ok(matched)
    };
    let (result, _) = apply_rule(&inventory, &w, "merge", &rule).unwrap();
    assert_eq!(result.display(), "/tua/");
}

fn never(_: u32) -> bool {
    false
}

fn always(_: u32) -> bool {
    true
}

fn valid(patterns: &PatternSet, inventory: &Inventory, word: &Word) -> bool {
    let mut log = ValidationLog::new(false);
    patterns.validate(inventory, word, &mut log).unwrap()
}

#[test]
fn generation_takes_the_minimum_when_nothing_is_probable() {
    let inventory = sample_inventory();
    let patterns = syllables();
    let word = generate(&patterns, &inventory, &mut rand::rng(), &never).unwrap();
    assert_eq!(word.len(), 2);
    assert!(inventory.phoneme_is(&word.phonemes()[0], "consonant").unwrap());
    assert!(inventory.phoneme_is(&word.phonemes()[1], "vowel").unwrap());
    assert!(valid(&patterns, &inventory, &word));
}

#[test]
fn generation_stops_at_the_maximum() {
    let inventory = sample_inventory();
    let syllable = Pattern::Sequence(Sequence { patterns: vec![set("consonant"), set("vowel")], defined_at: HERE });
    let series = Pattern::Series(Box::new(Series { pattern: syllable, probability: 0, minimum: 1, maximum: Some(3), defined_at: HERE }));
    let optional = Pattern::Optional(Box::new(Optional { pattern: set("consonant"), probability: 0, defined_at: HERE }));
    let patterns = PatternSet::new(Pattern::Sequence(Sequence { patterns: vec![series, optional], defined_at: HERE }));
    let word = generate(&patterns, &inventory, &mut rand::rng(), &always).unwrap();
    assert_eq!(word.len(), 7);
    assert!(valid(&patterns, &inventory, &word));
}

#[test]
fn generation_follows_tree_branches() {
    let inventory = sample_inventory();
    let tree = Pattern::Tree(Box::new(Tree {
        initial: AddPhoneme { name: "vowel", avoid_duplicates: false, defined_at: HERE },
        environment: NamedOrInlineBranches::Inline(TreeBranches {
            branches: vec![Branch { condition_set: "vowel", body: set("consonant") }],
            defined_at: HERE,
        }),
        defined_at: HERE,
    }));
    let patterns = PatternSet::new(tree);
    let word = generate(&patterns, &inventory, &mut rand::rng(), &never).unwrap();
    assert_eq!(word.len(), 2);
    assert!(inventory.phoneme_is(&word.phonemes()[0], "vowel").unwrap());
    assert!(inventory.phoneme_is(&word.phonemes()[1], "consonant").unwrap());
}

#[test]
fn generation_errors() {
    let inventory = sample_inventory();
    let after_end = PatternSet::new(Pattern::Sequence(Sequence {
        patterns: vec![Pattern::Terminate(TerminateWord { defined_at: HERE }), set("vowel")],
        defined_at: HERE,
    }));
    assert!(matches!(generate(&after_end, &inventory, &mut rand::rng(), &never), Err(ElbieError::PhonemeAfterTerminate)));
    let unknown = PatternSet::new(set("nasal"));
    assert!(matches!(generate(&unknown, &inventory, &mut rand::rng(), &never), Err(ElbieError::UnknownSet("nasal"))));
    let mut branches = WeightedVec::new();
    branches.push(ChoiceBranch { body: set("vowel") }, 0);
    let weightless = PatternSet::new(Pattern::Choice(Choice { branches, defined_at: HERE }));
    assert!(matches!(generate(&weightless, &inventory, &mut rand::rng(), &never), Err(ElbieError::NoChoiceChoices(_))));
    let no_branch = PatternSet::new(Pattern::Tree(Box::new(Tree {
        initial: AddPhoneme { name: "vowel", avoid_duplicates: false, defined_at: HERE },
        environment: NamedOrInlineBranches::Inline(TreeBranches {
            branches: vec![Branch { condition_set: "consonant", body: set("consonant") }],
            defined_at: HERE,
        }),
        defined_at: HERE,
    })));
    assert!(matches!(generate(&no_branch, &inventory, &mut rand::rng(), &never), Err(ElbieError::NoCatchAllInEnvironment(_))));
    let mut single = Inventory::new();
    single.add_phoneme("m", &["nasal"]).unwrap();
    let twice = AddPhoneme { name: "nasal", avoid_duplicates: true, defined_at: HERE };
    let repeated = PatternSet::new(Pattern::Sequence(Sequence {
        patterns: vec![set("nasal"), Pattern::SetMember(twice)],
        defined_at: HERE,
    }));
    assert!(matches!(generate(&repeated, &single, &mut rand::rng(), &never), Err(ElbieError::SetIsEmptyWithFilter("nasal"))));
    single.phoneme_set_exists();
}
