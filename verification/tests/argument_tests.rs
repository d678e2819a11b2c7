use elbie::arguments::parse_args;
use elbie::arguments::ArgumentError;
use elbie::arguments::Arguments;
use elbie::arguments::Command;
use elbie::arguments::ValidateOption;
use elbie::format::Format;

fn parse(args: &[&str]) -> Result<Arguments, ArgumentError> {
    let args: Vec<String> = args.iter().map(|a| a.to_string()).collect();
    parse_args(&args)
}

#[test]
fn no_arguments_generate_one_word() {
    let a = parse(&[]).unwrap();
    assert_eq!(a.grid_style, None);
    assert_eq!(a.comment, None);
    assert!(matches!(a.command, Command::GenerateWords(1)));
}

#[test]
fn no_spans_after_format_turns_spans_off() {
    let a = parse(&["--format=terminal", "--no-spans", "--phonemes=consonants"]).unwrap();
    assert_eq!(a.grid_style, Some(Format::Terminal { spans: false }));
    match a.command {
        Command::ShowPhonemes(Some(table)) => assert_eq!(table, "consonants"),
        other => panic!("unexpected {other:?}"),
    }
}

#[test]
fn no_spans_before_format_is_remembered() {
    let a = parse(&["--no-spans", "--format=html"]).unwrap();
    assert_eq!(a.grid_style, Some(Format::HTML { spans: false }));
    let b = parse(&["--no-spans", "--format=json"]).unwrap();
    assert_eq!(b.grid_style, Some(Format::JSON));
    let c = parse(&["--format=markdown", "--no-spans", "--no-spans"]).unwrap();
    assert_eq!(c.grid_style, Some(Format::Markdown));
}

#[test]
fn format_errors() {
    assert_eq!(parse(&["--format=plain", "--format=json"]).err(), Some(ArgumentError::TooManyGridStyles));
    assert_eq!(parse(&["--format=html", "--no-spans", "--no-spans"]).err(), Some(ArgumentError::NoSpansTwice));
    assert_eq!(parse(&["--format=csv"]).err(), Some(ArgumentError::UnknownCommand(0)));
}

#[test]
fn comment_takes_the_next_argument_or_a_default() {
    let a = parse(&["--comment"]).unwrap();
    assert_eq!(a.comment, Some("Elbie".to_string()));
    let b = parse(&["--comment", "my tool", "--help"]).unwrap();
    assert_eq!(b.comment, Some("my tool".to_string()));
    assert!(matches!(b.command, Command::ShowUsage));
    let c = parse(&["--comment", "--help"]).unwrap();
    assert_eq!(c.comment, Some("--help".to_string()));
    assert!(matches!(c.command, Command::GenerateWords(1)));
}

#[test]
fn generate_takes_a_count() {
    assert!(matches!(parse(&["--generate", "25"]).unwrap().command, Command::GenerateWords(25)));
    assert!(matches!(parse(&["--generate", "+007"]).unwrap().command, Command::GenerateWords(7)));
    assert_eq!(parse(&["--generate", "+"]).err(), Some(ArgumentError::GenerateCountNotANumber));
    assert_eq!(parse(&["--generate", "99999999999999999999999"]).err(), Some(ArgumentError::GenerateCountNotANumber));
    assert_eq!(parse(&["--generate"]).err(), Some(ArgumentError::GenerateCountRequired));
    assert_eq!(parse(&["--generate", "many"]).err(), Some(ArgumentError::GenerateCountNotANumber));
    assert_eq!(parse(&["--help", "--generate", "3"]).err(), Some(ArgumentError::TooManyCommands));
    assert_eq!(parse(&["--help", "--generate"]).err(), Some(ArgumentError::TooManyCommands));
}

#[test]
fn validate_takes_all_remaining_words() {
    let a = parse(&["--format=plain", "--validate=trace", "sabo", "--help"]).unwrap();
    match a.command {
        Command::ValidateWords(words, option) => {
            assert_eq!(words, vec!["sabo".to_string(), "--help".to_string()]);
            assert_eq!(option, ValidateOption::Trace);
        }
        other => panic!("unexpected {other:?}"),
    }
    match parse(&["--validate=explain", "ka"]).unwrap().command {
        Command::ValidateWords(words, option) => {
            assert_eq!(words, vec!["ka".to_string()]);
            assert_eq!(option, ValidateOption::Explain);
        }
        other => panic!("unexpected {other:?}"),
    }
    assert_eq!(parse(&["--validate"]).err(), Some(ArgumentError::NoWordsToValidate));
    assert_eq!(parse(&["--spelling", "--validate", "a"]).err(), Some(ArgumentError::TooManyCommands));
}

#[test]
fn phonemes_and_spelling_options() {
    assert!(matches!(parse(&["--phonemes"]).unwrap().command, Command::ShowPhonemes(None)));
    match parse(&["--phonemes=--phonemes=vowels"]).unwrap().command {
        Command::ShowPhonemes(Some(table)) => assert_eq!(table, "vowels"),
        other => panic!("unexpected {other:?}"),
    }
    assert!(matches!(parse(&["--spelling"]).unwrap().command, Command::ShowSpelling(1)));
    assert!(matches!(parse(&["--spelling=3"]).unwrap().command, Command::ShowSpelling(3)));
    assert!(matches!(parse(&["--spelling=0"]).unwrap().command, Command::ShowSpelling(1)));
    assert_eq!(parse(&["--spelling=two"]).err(), Some(ArgumentError::SpellingColumnsNotANumber));
    assert_eq!(parse(&["--phonemes", "--spelling=x"]).err(), Some(ArgumentError::TooManyCommands));
}

#[test]
fn lexicon_takes_a_path_and_an_index() {
    match parse(&["--lexicon", "words.csv", "2"]).unwrap().command {
        Command::ProcessLexicon(path, index) => {
            assert_eq!(path, "words.csv");
            assert_eq!(index, 2);
        }
        other => panic!("unexpected {other:?}"),
    }
    assert_eq!(parse(&["--lexicon"]).err(), Some(ArgumentError::NoLexiconFilename));
    assert_eq!(parse(&["--lexicon", "words.csv"]).err(), Some(ArgumentError::NoOrthographyIndex));
    assert_eq!(parse(&["--lexicon", "words.csv", "first"]).err(), Some(ArgumentError::OrthographyIndexNotANumber));
    assert_eq!(parse(&["--help", "--lexicon", "words.csv", "first"]).err(), Some(ArgumentError::OrthographyIndexNotANumber));
}

#[test]
fn unknown_arguments_are_named_by_index() {
    assert_eq!(parse(&["--phonemes", "--bogus"]).err(), Some(ArgumentError::UnknownCommand(1)));
}
