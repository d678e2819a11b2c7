use elbie::transformation_arguments::parse_args;
use elbie::transformation_arguments::ArgumentError;
use elbie::transformation_arguments::Arguments;
use elbie::transformation_arguments::Command;
use elbie::transformation_arguments::TransformationOption;

fn parse(args: &[&str]) -> Result<Arguments, ArgumentError> {
    let args: Vec<String> = args.iter().map(|a| a.to_string()).collect();
    parse_args(&args)
}

#[test]
fn languages_then_words() {
    match parse(&["old", "--trace", "new", "sabo", "kata"]).unwrap().command {
        Command::TransformWords(from, to, words, option) => {
            assert_eq!(from, "old");
            assert_eq!(to, "new");
            assert_eq!(words, vec!["sabo".to_string(), "kata".to_string()]);
            assert_eq!(option, TransformationOption::Trace);
        }
        other => panic!("unexpected {other:?}"),
    }
}

#[test]
fn last_option_wins() {
    match parse(&["--trace", "a", "b", "--explain"]).unwrap().command {
        Command::TransformWords(_, _, words, option) => {
            assert!(words.is_empty());
            assert_eq!(option, TransformationOption::Explain);
        }
        other => panic!("unexpected {other:?}"),
    }
}

#[test]
fn help_needs_no_languages() {
    assert!(matches!(parse(&["--help"]).unwrap().command, Command::ShowUsage));
    assert!(matches!(parse(&["a", "--help", "b", "c"]).unwrap().command, Command::ShowUsage));
    assert_eq!(parse(&["--help", "--help"]).err(), Some(ArgumentError::TooManyCommands));
}

#[test]
fn languages_are_required() {
    assert_eq!(parse(&[]).err(), Some(ArgumentError::SourceLanguageRequired));
    assert_eq!(parse(&["--explain", "old"]).err(), Some(ArgumentError::TargetRequired));
}
