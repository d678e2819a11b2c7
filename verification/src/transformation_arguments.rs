use vstd::prelude::*;

use crate::arguments::option_text;
use crate::arguments::texts;
use crate::text::same_text;

verus! {

/// How words are transformed: plainly, explaining the validation of the results, tracing the
/// rules, or both.
#[derive(Debug, Clone, Copy, PartialEq, Eq, Structural)]
pub enum TransformationOption {
    Simple,
    Explain,
    Trace,
    ExplainAndTrace,
}

/// A command of the transformation command line.
#[derive(Debug)]
pub enum Command {
    /// Transform these words from the first language to the second.
    TransformWords(String, String, Vec<String>, TransformationOption),
    ShowUsage,
}

/// The parsed transformation command line.
#[derive(Debug)]
pub struct Arguments {
    pub command: Command,
}

/// Why a transformation command line cannot be parsed.
#[derive(Debug, Clone, Copy, PartialEq, Eq, Structural)]
pub enum ArgumentError {
    TooManyCommands,
    SourceLanguageRequired,
    TargetRequired,
}

/// A command as plain values.
pub enum CommandView {
    TransformWords(Seq<char>, Seq<char>, Seq<Seq<char>>, TransformationOption),
    ShowUsage,
}

/// A command as plain values.
pub open spec fn command_view(c: Command) -> CommandView {
    match c {
        Command::TransformWords(from, to, words, option) => CommandView::TransformWords(
            from@,
            to@,
            texts(words@),
            option,
        ),
        Command::ShowUsage => CommandView::ShowUsage,
    }
}

/// What has been read so far: the option, whether help was asked for, the two languages and
/// the words.
pub struct ParseState {
    pub option: TransformationOption,
    pub help: bool,
    pub from: Option<Seq<char>>,
    pub to: Option<Seq<char>>,
    pub words: Seq<Seq<char>>,
}

/// Nothing read yet.
pub open spec fn initial_state() -> ParseState {
    ParseState { option: TransformationOption::Simple, help: false, from: None, to: None, words: seq![] }
}

/// One argument read: an option, the request for help, else the source language, the target
/// language and then a word, whichever is still missing first.
pub open spec fn parse_step(st: ParseState, arg: Seq<char>) -> Result<ParseState, ArgumentError> {
    if arg == "--explain"@ {
        Ok(ParseState { option: TransformationOption::Explain, ..st })
    } else if arg == "--trace"@ {
        Ok(ParseState { option: TransformationOption::Trace, ..st })
    } else if arg == "--help"@ {
        if st.help {
            Err(ArgumentError::TooManyCommands)
        } else {
            Ok(ParseState { help: true, ..st })
        }
    } else if st.from is None {
        Ok(ParseState { from: Some(arg), ..st })
    } else if st.to is None {
        Ok(ParseState { to: Some(arg), ..st })
    } else {
        Ok(ParseState { words: st.words.push(arg), ..st })
    }
}

/// The first `n` arguments read.
pub open spec fn parse_prefix(args: Seq<Seq<char>>, n: nat) -> Result<ParseState, ArgumentError>
    decreases n,
{
    if n == 0 {
        Ok(initial_state())
    } else {
        match parse_prefix(args, (n - 1) as nat) {
            Err(e) => Err(e),
            Ok(st) => parse_step(st, args[n - 1]),
        }
    }
}

/// Once an argument fails to parse, the error stands whatever follows it.
proof fn lemma_error_stands(args: Seq<Seq<char>>, n: nat, m: nat, e: ArgumentError)
    requires
        n <= m,
        parse_prefix(args, n) == Err::<ParseState, ArgumentError>(e),
    ensures
        parse_prefix(args, m) == Err::<ParseState, ArgumentError>(e),
    decreases m - n,
{
    if n < m {
        lemma_error_stands(args, n, (m - 1) as nat, e);
    }
}

/// The command line parsed: the request for help, else the transformation of the words from
/// the source language to the target, both of which must be given.
pub open spec fn parsed(args: Seq<Seq<char>>) -> Result<CommandView, ArgumentError> {
    match parse_prefix(args, args.len()) {
        Err(e) => Err(e),
        Ok(st) => if st.help {
            Ok(CommandView::ShowUsage)
        } else {
            match (st.from, st.to) {
                (Some(from), Some(to)) => Ok(CommandView::TransformWords(from, to, st.words, st.option)),
                (Some(_), None) => Err(ArgumentError::TargetRequired),
                (None, _) => Err(ArgumentError::SourceLanguageRequired),
            }
        },
    }
}

/// Parses a transformation command line, without the program's name. The result is `parsed`
/// of the arguments' texts.
pub fn parse_args(args: &Vec<String>) -> (r: Result<Arguments, ArgumentError>)
    ensures
        match r {
            Ok(a) => parsed(texts(args@)) == Ok::<CommandView, ArgumentError>(command_view(a.command)),
            Err(e) => parsed(texts(args@)) == Err::<CommandView, ArgumentError>(e),
        },
{
    let ghost all = texts(args@);
    let mut option = TransformationOption::Simple;
    let mut help = false;
    let mut from: Option<String> = None;
    let mut to: Option<String> = None;
    let mut words: Vec<String> = Vec::new();
    let mut i: usize = 0;
    proof {
        assert(texts(words@) =~= Seq::<Seq<char>>::empty());
    }
    while i < args.len()
        invariant
            i <= args@.len(),
            all == texts(args@),
            parse_prefix(all, i as nat) == Ok::<ParseState, ArgumentError>(
                ParseState {
                    option,
                    help,
                    from: option_text(from),
                    to: option_text(to),
                    words: texts(words@),
                },
            ),
        decreases args@.len() - i,
    {
        let arg: &str = args[i].as_str();
        assert(all[i as int] == arg@);
        if same_text(arg, "--explain") {
            option = TransformationOption::Explain;
        } else if same_text(arg, "--trace") {
            option = TransformationOption::Trace;
        } else if same_text(arg, "--help") {
            if help {
                proof {
                    lemma_error_stands(all, (i + 1) as nat, all.len(), ArgumentError::TooManyCommands);
                }
                return Err(ArgumentError::TooManyCommands);
            }
            help = true;
        } else if from.is_none() {
            from = Some(args[i].clone());
        } else if to.is_none() {
            to = Some(args[i].clone());
        } else {
            let ghost prev = words@;
            let word = args[i].clone();
            words.push(word);
            proof {
                assert(texts(words@) =~= texts(prev).push(word@));
            }
        }
        i = i + 1;
    }
    proof {
        assert(all.len() == i);
    }
    if help {
        return Ok(Arguments { command: Command::ShowUsage });
    }
    match (from, to) {
        (Some(f), Some(t)) => Ok(Arguments { command: Command::TransformWords(f, t, words, option) }),
        (Some(_), None) => Err(ArgumentError::TargetRequired),
        (None, _) => Err(ArgumentError::SourceLanguageRequired),
    }
}

} // verus!
