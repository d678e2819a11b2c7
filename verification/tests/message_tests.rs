use elbie::patterns::Pattern;
use elbie::patterns::PatternSet;
use elbie::patterns::Sequence;
use elbie::patterns::SourceLocation;
use elbie::patterns::TerminateWord;
use elbie::phoneme::Inventory;
use elbie::phoneme::InventoryLoader;
use elbie::phoneme::Phoneme;
use elbie::patterns::AddPhoneme;
use elbie::validation::TraceLine;
use elbie::validation::ValidWordElement;
use elbie::validation::ValidWordEvent;
use elbie::validation::ValidationFailure;
use elbie::validation::ValidationLog;
use elbie::validation::ValidationTraceEnd;
use elbie::validation::ValidationTraceMessage;
use elbie::validation::ValidationTraceStart;
use elbie::word::Word;

const AT: SourceLocation = SourceLocation { file: "lang.rs", line: 12, column: 5 };

#[test]
fn start_message_text() {
    let message = ValidationTraceMessage::Start(AT, 3, ValidationTraceStart::RuleReference("onset"));
    assert_eq!(message.text(), "[lang.rs:12:5; phoneme 3]: start rule reference 'onset'");
    let message = ValidationTraceMessage::Start(AT, 0, ValidationTraceStart::Optional);
    assert_eq!(message.text(), "[lang.rs:12:5; phoneme 0]: start option");
}

#[test]
fn success_message_text() {
    let message = ValidationTraceMessage::Success(AT, 4, ValidationTraceEnd::Optional(true));
    assert_eq!(message.text(), "[lang.rs:12:5; phoneme 4]: end option  matched");
    let message = ValidationTraceMessage::Success(AT, 4, ValidationTraceEnd::Optional(false));
    assert_eq!(message.text(), "[lang.rs:12:5; phoneme 4]: end option not matched");
    let message = ValidationTraceMessage::Success(AT, 10, ValidationTraceEnd::Series(2));
    assert_eq!(message.text(), "[lang.rs:12:5; phoneme 10]: end series with count 2");
}

#[test]
fn failure_message_text() {
    let k = Phoneme::new("k");
    let message = ValidationTraceMessage::Failure(
        AT,
        1,
        ValidationTraceEnd::PhonemeFound(k),
        ValidationFailure::InvalidPhoneme { expected: "vowel", found: k },
    );
    assert_eq!(message.text(), "[lang.rs:12:5; phoneme 1]: phoneme found k failed -- Expected phoneme in set 'vowel', found k.");
    let message = ValidationTraceMessage::Failure(
        AT,
        0,
        ValidationTraceEnd::Series(1),
        ValidationFailure::SeriesFailedToReachMinimumCount { minimum: 2, count: 1 },
    );
    assert_eq!(message.text(), "[lang.rs:12:5; phoneme 0]: end series with count 1 failed -- Series incomplete, only found 1 of 2.");
}

#[test]
fn explanation_step_and_trace_line_text() {
    let element = ValidWordElement { index: 2, pattern_source: AT, event: ValidWordEvent::End(ValidationTraceEnd::Choice(1)) };
    assert_eq!(element.text(), "[lang.rs:12:5; phoneme 2]: end choice at branch 1");
    let line = TraceLine { level: 2, message: ValidationTraceMessage::Start(AT, 0, ValidationTraceStart::Sequence) };
    assert_eq!(line.text(), "    [lang.rs:12:5; phoneme 0]: start sequence");
}

#[test]
fn untraced_validation_keeps_no_trace() {
    let mut inventory = Inventory::new();
    inventory.add_phoneme("a", &["vowel"]).unwrap();
    let patterns = PatternSet::new(Pattern::Sequence(Sequence {
        patterns: vec![
            Pattern::SetMember(AddPhoneme { name: "vowel", avoid_duplicates: false, defined_at: AT }),
            Pattern::Terminate(TerminateWord { defined_at: AT }),
        ],
        defined_at: AT,
    }));
    let word = Word::new(&[Phoneme::new("a"), Phoneme::new("a")]);
    let mut log = ValidationLog::new(false);
    assert_eq!(patterns.validate(&inventory, &word, &mut log).unwrap(), false);
    assert!(log.trace().is_empty());
    let mut log = ValidationLog::new(true);
    assert_eq!(patterns.validate(&inventory, &word, &mut log).unwrap(), false);
    assert!(!log.trace().is_empty());
}
