use vstd::prelude::*;
use vstd::string::StringExecFns;

use crate::format::Format;
use crate::orthography::parse_usize;
use crate::orthography::usize_parse;
use crate::text::chars_of;
use crate::text::same_text;
use crate::text::string_between;

verus! {

/// How words are validated: plainly, explaining valid words, tracing, or both.
#[derive(Debug, Clone, Copy, PartialEq, Eq, Structural)]
pub enum ValidateOption {
    Simple,
    Explain,
    Trace,
    ExplainAndTrace,
}

/// A command of the single-language command line.
#[derive(Debug)]
pub enum Command {
    /// Generate this many words.
    GenerateWords(usize),
    /// Validate these words.
    ValidateWords(Vec<String>, ValidateOption),
    /// Show all phoneme tables, or the named one.
    ShowPhonemes(Option<String>),
    /// Show the spelling table in this many column groups.
    ShowSpelling(usize),
    ShowUsage,
    /// Format the lexicon in this file, spelled in the orthography of this index.
    ProcessLexicon(String, usize),
}

/// The parsed command line: the output format, the comment to print first, and the command.
#[derive(Debug)]
pub struct Arguments {
    pub grid_style: Option<Format>,
    pub comment: Option<String>,
    pub command: Command,
}

/// Why a command line cannot be parsed. Where it names an argument, that is its index.
#[derive(Debug, Clone, Copy, PartialEq, Eq, Structural)]
pub enum ArgumentError {
    TooManyGridStyles,
    NoSpansTwice,
    TooManyCommands,
    GenerateCountRequired,
    GenerateCountNotANumber,
    NoWordsToValidate,
    SpellingColumnsNotANumber,
    NoLexiconFilename,
    NoOrthographyIndex,
    OrthographyIndexNotANumber,
    UnknownCommand(usize),
}

/// A command as plain values.
pub enum CommandView {
    GenerateWords(usize),
    ValidateWords(Seq<Seq<char>>, ValidateOption),
    ShowPhonemes(Option<Seq<char>>),
    ShowSpelling(usize),
    ShowUsage,
    ProcessLexicon(Seq<char>, usize),
}

/// A command as plain values.
pub open spec fn command_view(c: Command) -> CommandView {
    match c {
        Command::GenerateWords(n) => CommandView::GenerateWords(n),
        Command::ValidateWords(words, option) => CommandView::ValidateWords(
            words@.map_values(|w: String| w@),
            option,
        ),
        Command::ShowPhonemes(Some(table)) => CommandView::ShowPhonemes(Some(table@)),
        Command::ShowPhonemes(None) => CommandView::ShowPhonemes(None),
        Command::ShowSpelling(n) => CommandView::ShowSpelling(n),
        Command::ShowUsage => CommandView::ShowUsage,
        Command::ProcessLexicon(path, index) => CommandView::ProcessLexicon(path@, index),
    }
}

/// What has been parsed so far: the format, whether spans are still on for a format chosen
/// later, the comment and the command.
pub struct ParseState {
    pub grid_style: Option<Format>,
    pub spanning: bool,
    pub comment: Option<Seq<char>>,
    pub command: Option<CommandView>,
}

/// Nothing parsed yet.
pub open spec fn initial_state() -> ParseState {
    ParseState { grid_style: None, spanning: true, comment: None, command: None }
}

/// `text` with every leading copy of `prefix` taken off.
pub open spec fn stripped(text: Seq<char>, prefix: Seq<char>) -> Seq<char>
    decreases text.len(),
{
    if prefix.len() > 0 && prefix.len() <= text.len() && text.take(prefix.len() as int) == prefix {
        stripped(text.skip(prefix.len() as int), prefix)
    } else {
        text
    }
}

/// Whether `text` starts with `prefix`.
pub open spec fn starts_with(text: Seq<char>, prefix: Seq<char>) -> bool {
    prefix.len() <= text.len() && text.take(prefix.len() as int) == prefix
}

/// The format named by an argument `--format=...`, with spans as `spanning` says.
pub open spec fn format_argument(arg: Seq<char>, spanning: bool) -> Option<Format> {
    if arg == "--format=plain"@ {
        Some(Format::Plain)
    } else if arg == "--format=terminal"@ {
        Some(Format::Terminal { spans: spanning })
    } else if arg == "--format=markdown"@ {
        Some(Format::Markdown)
    } else if arg == "--format=html"@ {
        Some(Format::HTML { spans: spanning })
    } else if arg == "--format=json"@ {
        Some(Format::JSON)
    } else {
        None
    }
}

/// The validation asked for by an argument `--validate...`.
pub open spec fn validate_argument(arg: Seq<char>) -> Option<ValidateOption> {
    if arg == "--validate"@ {
        Some(ValidateOption::Simple)
    } else if arg == "--validate=explain"@ {
        Some(ValidateOption::Explain)
    } else if arg == "--validate=trace"@ {
        Some(ValidateOption::Trace)
    } else {
        None
    }
}

/// Sets the command, unless one is set already.
pub open spec fn with_command(st: ParseState, command: CommandView) -> Result<ParseState, ArgumentError> {
    if st.command is Some {
        Err(ArgumentError::TooManyCommands)
    } else {
        Ok(ParseState { command: Some(command), ..st })
    }
}

/// The argument at `i` parsed: the new state and the index of the next argument to read, or
/// the error. Arguments that take values take the arguments after them.
pub open spec fn parse_step(args: Seq<Seq<char>>, i: int, st: ParseState) -> Result<(ParseState, int), ArgumentError> {
    let arg = args[i];
    if format_argument(arg, st.spanning) is Some {
        if st.grid_style is Some {
            Err(ArgumentError::TooManyGridStyles)
        } else {
            Ok((ParseState { grid_style: format_argument(arg, st.spanning), ..st }, i + 1))
        }
    } else if arg == "--no-spans"@ {
        match st.grid_style {
            Some(Format::Terminal { spans }) => if spans {
                Ok((ParseState { grid_style: Some(Format::Terminal { spans: false }), ..st }, i + 1))
            } else {
                Err(ArgumentError::NoSpansTwice)
            },
            Some(Format::HTML { spans }) => if spans {
                Ok((ParseState { grid_style: Some(Format::HTML { spans: false }), ..st }, i + 1))
            } else {
                Err(ArgumentError::NoSpansTwice)
            },
            Some(_) => Ok((st, i + 1)),
            None => Ok((ParseState { spanning: false, ..st }, i + 1)),
        }
    } else if arg == "--comment"@ {
        if i + 1 < args.len() {
            Ok((ParseState { comment: Some(args[i + 1]), ..st }, i + 2))
        } else {
            Ok((ParseState { comment: Some("Elbie"@), ..st }, i + 1))
        }
    } else if arg == "--generate"@ {
        if st.command is Some {
            Err(ArgumentError::TooManyCommands)
        } else if i + 1 >= args.len() {
            Err(ArgumentError::GenerateCountRequired)
        } else {
            match usize_parse(args[i + 1]) {
                Ok(n) => Ok((ParseState { command: Some(CommandView::GenerateWords(n)), ..st }, i + 2)),
                Err(_) => Err(ArgumentError::GenerateCountNotANumber),
            }
        }
    } else if validate_argument(arg) is Some {
        if i + 1 >= args.len() {
            Err(ArgumentError::NoWordsToValidate)
        } else {
            match with_command(st, CommandView::ValidateWords(args.skip(i + 1), validate_argument(arg)->0)) {
                Ok(next) => Ok((next, args.len() as int)),
                Err(e) => Err(e),
            }
        }
    } else if arg == "--phonemes"@ {
        match with_command(st, CommandView::ShowPhonemes(None)) {
            Ok(next) => Ok((next, i + 1)),
            Err(e) => Err(e),
        }
    } else if starts_with(arg, "--phonemes="@) {
        match with_command(st, CommandView::ShowPhonemes(Some(stripped(arg, "--phonemes="@)))) {
            Ok(next) => Ok((next, i + 1)),
            Err(e) => Err(e),
        }
    } else if arg == "--spelling"@ {
        match with_command(st, CommandView::ShowSpelling(1)) {
            Ok(next) => Ok((next, i + 1)),
            Err(e) => Err(e),
        }
    } else if starts_with(arg, "--spelling="@) {
        if st.command is Some {
            Err(ArgumentError::TooManyCommands)
        } else {
            match usize_parse(stripped(arg, "--spelling="@)) {
                Ok(n) => Ok(
                    (
                        ParseState { command: Some(CommandView::ShowSpelling(if n == 0 { 1 } else { n })), ..st },
                        i + 1,
                    ),
                ),
                Err(_) => Err(ArgumentError::SpellingColumnsNotANumber),
            }
        }
    } else if arg == "--lexicon"@ {
        if i + 1 >= args.len() {
            Err(ArgumentError::NoLexiconFilename)
        } else if i + 2 >= args.len() {
            Err(ArgumentError::NoOrthographyIndex)
        } else {
            match usize_parse(args[i + 2]) {
                Ok(n) => match with_command(st, CommandView::ProcessLexicon(args[i + 1], n)) {
                    Ok(next) => Ok((next, i + 3)),
                    Err(e) => Err(e),
                },
                Err(_) => Err(ArgumentError::OrthographyIndexNotANumber),
            }
        }
    } else if arg == "--help"@ {
        match with_command(st, CommandView::ShowUsage) {
            Ok(next) => Ok((next, i + 1)),
            Err(e) => Err(e),
        }
    } else {
        Err(ArgumentError::UnknownCommand(i as usize))
    }
}

/// The arguments from `i` on parsed after the state `st`.
pub open spec fn parse_from(args: Seq<Seq<char>>, i: int, st: ParseState) -> Result<ParseState, ArgumentError>
    decreases args.len() - i,
{
    if i < 0 || i >= args.len() {
        Ok(st)
    } else {
        match parse_step(args, i, st) {
            Err(e) => Err(e),
            Ok((next, j)) => if i < j {
                parse_from(args, j, next)
            } else {
                Ok(next)
            },
        }
    }
}

/// The command line parsed: the format, the comment and the command, which is to generate one
/// word when none is given.
pub open spec fn parsed(args: Seq<Seq<char>>) -> Result<(Option<Format>, Option<Seq<char>>, CommandView), ArgumentError> {
    match parse_from(args, 0, initial_state()) {
        Err(e) => Err(e),
        Ok(st) => Ok(
            (
                st.grid_style,
                st.comment,
                match st.command {
                    Some(c) => c,
                    None => CommandView::GenerateWords(1),
                },
            ),
        ),
    }
}

/// The texts of the arguments.
pub open spec fn texts(args: Seq<String>) -> Seq<Seq<char>> {
    args.map_values(|a: String| a@)
}

/// An optional string by its text.
pub open spec fn option_text(text: Option<String>) -> Option<Seq<char>> {
    match text {
        Some(t) => Some(t@),
        None => None,
    }
}

/// The command to generate words, given what parsing the count as a number gave.
pub fn generate_command(count: Result<usize, String>) -> (r: Result<Command, ArgumentError>)
    ensures
        match count {
            Ok(n) => r matches Ok(c) && command_view(c) == CommandView::GenerateWords(n),
            Err(_) => r matches Err(e) && e == ArgumentError::GenerateCountNotANumber,
        },
{
    match count {
        Ok(n) => Ok(Command::GenerateWords(n)),
        Err(_) => Err(ArgumentError::GenerateCountNotANumber),
    }
}

/// The command to show the spelling table, given what parsing the number of column groups as
/// a number gave; zero groups are taken as one.
pub fn spelling_command(columns: Result<usize, String>) -> (r: Result<Command, ArgumentError>)
    ensures
        match columns {
            Ok(n) => r matches Ok(c) && command_view(c) == CommandView::ShowSpelling(
                if n == 0 { 1 } else { n },
            ),
            Err(_) => r matches Err(e) && e == ArgumentError::SpellingColumnsNotANumber,
        },
{
    match columns {
        Ok(n) => Ok(Command::ShowSpelling(if n == 0 { 1 } else { n })),
        Err(_) => Err(ArgumentError::SpellingColumnsNotANumber),
    }
}

/// The command to format a lexicon file, given what parsing the orthography index as a number
/// gave.
pub fn lexicon_command(path: String, index: Result<usize, String>) -> (r: Result<Command, ArgumentError>)
    ensures
        match index {
            Ok(n) => r matches Ok(c) && command_view(c) == CommandView::ProcessLexicon(path@, n),
            Err(_) => r matches Err(e) && e == ArgumentError::OrthographyIndexNotANumber,
        },
{
    match index {
        Ok(n) => Ok(Command::ProcessLexicon(path, n)),
        Err(_) => Err(ArgumentError::OrthographyIndexNotANumber),
    }
}

/// What has been parsed so far, as values the program holds.
struct ArgState {
    grid_style: Option<Format>,
    spanning: bool,
    comment: Option<String>,
    command: Option<Command>,
}

spec fn state_view(st: ArgState) -> ParseState {
    ParseState {
        grid_style: st.grid_style,
        spanning: st.spanning,
        comment: option_text(st.comment),
        command: match st.command {
            Some(c) => Some(command_view(c)),
            None => None,
        },
    }
}

/// Whether `p` stands in `t` at `at`.
fn occurs_at(t: &Vec<char>, at: usize, p: &Vec<char>) -> (r: bool)
    ensures
        r == (at + p@.len() <= t@.len() && t@.subrange(at as int, at + p@.len()) == p@),
{
    if t.len() < at || t.len() - at < p.len() {
        return false;
    }
    let tl = t.len();
    let mut k: usize = 0;
    while k < p.len()
        invariant
            k <= p@.len(),
            t@.len() == tl,
            at + p@.len() <= t@.len(),
            forall|m: int| 0 <= m < k ==> t@[at + m] == p@[m],
        decreases p@.len() - k,
    {
        if t[at + k] != p[k] {
            assert(t@.subrange(at as int, at + p@.len())[k as int] != p@[k as int]);
            return false;
        }
        k = k + 1;
    }
    assert(t@.subrange(at as int, at + p@.len()) =~= p@);
    true
}

/// Whether `text` starts with `prefix`.
fn has_prefix(text: &str, prefix: &str) -> (r: bool)
    ensures
        r == starts_with(text@, prefix@),
{
    let t = chars_of(text);
    let p = chars_of(prefix);
    let r = occurs_at(&t, 0, &p);
    proof {
        assert(t@.subrange(0, p@.len() as int) =~= t@.take(p@.len() as int));
    }
    r
}

/// `text` with every leading copy of `prefix` taken off.
fn without_prefixes(text: &str, prefix: &str) -> (r: String)
    ensures
        r@ == stripped(text@, prefix@),
{
    let t = chars_of(text);
    let p = chars_of(prefix);
    let tl = t.len();
    let mut at: usize = 0;
    proof {
        assert(t@.skip(0) =~= t@);
    }
    while p.len() > 0 && occurs_at(&t, at, &p)
        invariant
            at <= t@.len(),
            t@.len() == tl,
            t@ == text@,
            p@ == prefix@,
            stripped(t@.skip(at as int), p@) == stripped(text@, prefix@),
        decreases t@.len() - at,
    {
        proof {
            let rest = t@.skip(at as int);
            assert(rest.take(p@.len() as int) =~= t@.subrange(at as int, at + p@.len()));
            assert(rest.skip(p@.len() as int) =~= t@.skip(at + p@.len()));
        }
        at = at + p.len();
    }
    proof {
        let rest = t@.skip(at as int);
        if p@.len() > 0 && p@.len() <= rest.len() {
            assert(rest.take(p@.len() as int) =~= t@.subrange(at as int, at + p@.len()));
        }
        assert(t@.subrange(at as int, t@.len() as int) =~= rest);
    }
    string_between(&t, at, t.len())
}

/// The format named by an argument `--format=...`, with spans as `spanning` says.
fn format_of(arg: &str, spanning: bool) -> (r: Option<Format>)
    ensures
        r == format_argument(arg@, spanning),
{
    if same_text(arg, "--format=plain") {
        Some(Format::Plain)
    } else if same_text(arg, "--format=terminal") {
        Some(Format::Terminal { spans: spanning })
    } else if same_text(arg, "--format=markdown") {
        Some(Format::Markdown)
    } else if same_text(arg, "--format=html") {
        Some(Format::HTML { spans: spanning })
    } else if same_text(arg, "--format=json") {
        Some(Format::JSON)
    } else {
        None
    }
}

/// The validation asked for by an argument `--validate...`.
fn validate_of(arg: &str) -> (r: Option<ValidateOption>)
    ensures
        r == validate_argument(arg@),
{
    if same_text(arg, "--validate") {
        Some(ValidateOption::Simple)
    } else if same_text(arg, "--validate=explain") {
        Some(ValidateOption::Explain)
    } else if same_text(arg, "--validate=trace") {
        Some(ValidateOption::Trace)
    } else {
        None
    }
}

/// Copies of the arguments from `from` on.
fn arguments_from(args: &Vec<String>, from: usize) -> (r: Vec<String>)
    requires
        from <= args@.len(),
    ensures
        texts(r@) == texts(args@).skip(from as int),
{
    let mut out: Vec<String> = Vec::new();
    let mut k: usize = from;
    while k < args.len()
        invariant
            from <= k <= args@.len(),
            texts(out@) =~= texts(args@).subrange(from as int, k as int),
        decreases args@.len() - k,
    {
        let ghost prev = out@;
        let copy = args[k].clone();
        out.push(copy);
        proof {
            assert(out@ == prev.push(copy));
            assert(texts(out@) =~= texts(prev).push(copy@));
            assert(texts(out@) =~= texts(args@).subrange(from as int, k + 1));
        }
        k = k + 1;
    }
    proof {
        assert(texts(args@).subrange(from as int, args@.len() as int) =~= texts(args@).skip(
            from as int,
        ));
    }
    out
}

/// Sets the command, unless one is set already.
fn set_command(st: &mut ArgState, command: Command) -> (r: Result<(), ArgumentError>)
    ensures
        match with_command(state_view(*old(st)), command_view(command)) {
            Ok(next) => r is Ok && state_view(*final(st)) == next,
            Err(e) => r == Err::<(), ArgumentError>(e),
        },
{
    if st.command.is_some() {
        Err(ArgumentError::TooManyCommands)
    } else {
        st.command = Some(command);
        Ok(())
    }
}

/// Parses the argument at `i` into `st`, and gives the index of the next argument to read.
fn parse_argument(args: &Vec<String>, i: usize, st: &mut ArgState) -> (r: Result<usize, ArgumentError>)
    requires
        i < args@.len(),
    ensures
        match parse_step(texts(args@), i as int, state_view(*old(st))) {
            Ok((next, j)) => r matches Ok(k) && k == j && i < k <= args@.len() && state_view(
                *final(st),
            ) == next,
            Err(e) => r == Err::<usize, ArgumentError>(e),
        },
{
    let ghost all = texts(args@);
    let arg: &str = args[i].as_str();
    assert(all[i as int] == arg@);
    let len = args.len();
    match format_of(arg, st.spanning) {
        Some(f) => {
            if st.grid_style.is_some() {
                return Err(ArgumentError::TooManyGridStyles);
            }
            st.grid_style = Some(f);
            return Ok(i + 1);
        },
        None => {},
    }
    if same_text(arg, "--no-spans") {
        match st.grid_style {
            Some(Format::Terminal { spans }) => {
                if spans {
                    st.grid_style = Some(Format::Terminal { spans: false });
                } else {
                    return Err(ArgumentError::NoSpansTwice);
                }
            },
            Some(Format::HTML { spans }) => {
                if spans {
                    st.grid_style = Some(Format::HTML { spans: false });
                } else {
                    return Err(ArgumentError::NoSpansTwice);
                }
            },
            Some(_) => {},
            None => {
                st.spanning = false;
            },
        }
        Ok(i + 1)
    } else if same_text(arg, "--comment") {
        if i + 1 < len {
            assert(all[i + 1] == args@[i + 1]@);
            st.comment = Some(args[i + 1].clone());
            Ok(i + 2)
        } else {
            st.comment = Some(String::from_str("Elbie"));
            Ok(i + 1)
        }
    } else if same_text(arg, "--generate") {
        if st.command.is_some() {
            Err(ArgumentError::TooManyCommands)
        } else if i + 1 >= len {
            Err(ArgumentError::GenerateCountRequired)
        } else {
            assert(all[i + 1] == args@[i + 1]@);
            let command = generate_command(parse_usize(args[i + 1].as_str()))?;
            st.command = Some(command);
            Ok(i + 2)
        }
    } else if let Some(option) = validate_of(arg) {
        if i + 1 >= len {
            Err(ArgumentError::NoWordsToValidate)
        } else {
            let words = arguments_from(args, i + 1);
            set_command(st, Command::ValidateWords(words, option))?;
            Ok(len)
        }
    } else if same_text(arg, "--phonemes") {
        set_command(st, Command::ShowPhonemes(None))?;
        Ok(i + 1)
    } else if has_prefix(arg, "--phonemes=") {
        set_command(st, Command::ShowPhonemes(Some(without_prefixes(arg, "--phonemes="))))?;
        Ok(i + 1)
    } else if same_text(arg, "--spelling") {
        set_command(st, Command::ShowSpelling(1))?;
        Ok(i + 1)
    } else if has_prefix(arg, "--spelling=") {
        if st.command.is_some() {
            Err(ArgumentError::TooManyCommands)
        } else {
            let columns = without_prefixes(arg, "--spelling=");
            let command = spelling_command(parse_usize(columns.as_str()))?;
            st.command = Some(command);
            Ok(i + 1)
        }
    } else if same_text(arg, "--lexicon") {
        if i + 1 >= len {
            Err(ArgumentError::NoLexiconFilename)
        } else if i + 2 >= len {
            Err(ArgumentError::NoOrthographyIndex)
        } else {
            assert(all[i + 1] == args@[i + 1]@);
            assert(all[i + 2] == args@[i + 2]@);
            let command = lexicon_command(args[i + 1].clone(), parse_usize(args[i + 2].as_str()))?;
            set_command(st, command)?;
            Ok(i + 3)
        }
    } else if same_text(arg, "--help") {
        set_command(st, Command::ShowUsage)?;
        Ok(i + 1)
    } else {
        Err(ArgumentError::UnknownCommand(i))
    }
}

/// Parses a command line, without the program's name. Options set the output format
/// (`--format=...`, `--no-spans`) and the comment (`--comment`); at most one command is
/// given, and without one a single word is generated. The result is `parsed` of the
/// arguments' texts: the arguments parsed, or the first error met. The errors
/// `TooManyCommands`, `TooManyGridStyles`, `UnknownCommand` and `NoSpansTwice` stand for a
/// command line that the tool refuses by stopping with a panic: a second command, a second
/// grid style, an argument that is no option, and `--no-spans` given twice; the caller is
/// the one to stop.
pub fn parse_args(args: &Vec<String>) -> (r: Result<Arguments, ArgumentError>)
    ensures
        match r {
            Ok(a) => parsed(texts(args@)) == Ok::<
                (Option<Format>, Option<Seq<char>>, CommandView),
                ArgumentError,
            >((a.grid_style, option_text(a.comment), command_view(a.command))),
            Err(e) => parsed(texts(args@)) == Err::<
                (Option<Format>, Option<Seq<char>>, CommandView),
                ArgumentError,
            >(e),
        },
{
    let mut st = ArgState { grid_style: None, spanning: true, comment: None, command: None };
    let mut i: usize = 0;
    while i < args.len()
        invariant
            i <= args@.len(),
            parse_from(texts(args@), i as int, state_view(st)) == parse_from(
                texts(args@),
                0,
                initial_state(),
            ),
        decreases args@.len() - i,
    {
        match parse_argument(args, i, &mut st) {
            Ok(j) => {
                i = j;
            },
            Err(e) => {
                return Err(e);
            },
        }
    }
    let command = match st.command {
        Some(c) => c,
        None => Command::GenerateWords(1),
    };
    Ok(Arguments { grid_style: st.grid_style, comment: st.comment, command })
}

} // verus!
