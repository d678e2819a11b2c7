use vstd::prelude::*;
use vstd::string::StringExecFns;

use crate::patterns::SourceLocation;
use crate::text::decimal;
use crate::text::decimal_text;
use crate::validation::TraceLine;
use crate::validation::ValidWordElement;
use crate::validation::ValidWordEvent;
use crate::validation::ValidationFailure;
use crate::validation::ValidationTraceEnd;
use crate::validation::ValidationTraceMessage;
use crate::validation::ValidationTraceStart;

verus! {

/// Where a pattern was defined, written `file:line:column`.
pub open spec fn location_text(l: SourceLocation) -> Seq<char> {
    l.file@ + ":"@ + decimal(l.line as nat) + ":"@ + decimal(l.column as nat)
}

/// The text of the start of a pattern.
pub open spec fn start_text(event: ValidationTraceStart) -> Seq<char> {
    match event {
        ValidationTraceStart::Sequence => "start sequence"@,
        ValidationTraceStart::Series => "start series"@,
        ValidationTraceStart::Optional => "start option"@,
        ValidationTraceStart::Choice => "start choice"@,
        ValidationTraceStart::Case(Some(case)) => "start case for environment '"@ + case@ + "'"@,
        ValidationTraceStart::Case(None) => "start case"@,
        ValidationTraceStart::CaseEnvironment => "start case environment"@,
        ValidationTraceStart::RuleReference(name) => "start rule reference '"@ + name@ + "'"@,
    }
}

/// The text of the end of a pattern.
pub open spec fn end_text(event: ValidationTraceEnd) -> Seq<char> {
    match event {
        ValidationTraceEnd::Sequence => "end sequence"@,
        ValidationTraceEnd::Series(count) => "end series with count "@ + decimal(count as nat),
        ValidationTraceEnd::Optional(matched) => "end option "@ + (if matched {
            ""@
        } else {
            "not"@
        }) + " matched"@,
        ValidationTraceEnd::Choice(branch) => "end choice at branch "@ + decimal(branch as nat),
        ValidationTraceEnd::Case(Some(environment)) => "end case for environment '"@ + environment@ + "'"@,
        ValidationTraceEnd::Case(None) => "end case"@,
        ValidationTraceEnd::CaseEnvironment(Some(branch)) => "end case environment at branch "@ + decimal(
            branch as nat,
        ),
        ValidationTraceEnd::CaseEnvironment(None) => "end case environment without a branch"@,
        ValidationTraceEnd::RuleReference(name) => "end rule_reference '"@ + name@ + "'"@,
        ValidationTraceEnd::PhonemeFound(phoneme) => "phoneme found "@ + phoneme.name@,
        ValidationTraceEnd::PhonemeNotFound => "phoneme not found"@,
        ValidationTraceEnd::Terminate => "terminate"@,
        ValidationTraceEnd::Word => "word"@,
    }
}

/// The text of why a pattern did not match.
pub open spec fn failure_text(failure: ValidationFailure) -> Seq<char> {
    match failure {
        ValidationFailure::InnerSequencePatternFailed { index } => "inner pattern "@ + decimal(index as nat)
            + " failed"@,
        ValidationFailure::SeriesFailedToReachMinimumCount { minimum, count } => "Series incomplete, only found "@
            + decimal(count as nat) + " of "@ + decimal(minimum as nat) + "."@,
        ValidationFailure::InvalidPhoneme { expected, found } => "Expected phoneme in set '"@ + expected@
            + "', found "@ + found.name@ + "."@,
        ValidationFailure::UnexpectedEnd { expected } => "Expected phoneme in set '"@ + expected@
            + "', found end of word."@,
        ValidationFailure::UnexpectedPhoneme { found } => "Expected end of word, found "@ + found.name@ + "."@,
        ValidationFailure::UnexpectedPhonemeAfterPattern { found } => "Found phoneme "@ + found.name@
            + " after pattern was complete."@,
        ValidationFailure::NoChoiceBranchesMatched => "No branches in choice matched."@,
        ValidationFailure::CaseBranchBodyFailed { index } => "Case body pattern "@ + decimal(index as nat)
            + " failed."@,
        ValidationFailure::NoCaseBranchesMatched => "No branches in case matched."@,
        ValidationFailure::CaseEnvironmentFailed => "Case environment failed."@,
        ValidationFailure::CaseConditionFailed => "Phoneme did not match initial set for case."@,
        ValidationFailure::ReferencedRuleFailed { name } => "Rule '"@ + name@ + "' failed."@,
        ValidationFailure::InitialPatternFailed => "Initial pattern failed."@,
    }
}

/// The prefix of a message: where the pattern was defined and at which phoneme.
pub open spec fn place_text(source: SourceLocation, position: usize) -> Seq<char> {
    "["@ + location_text(source) + "; phoneme "@ + decimal(position as nat) + "]: "@
}

/// The text of a trace message.
pub open spec fn message_text(message: ValidationTraceMessage) -> Seq<char> {
    match message {
        ValidationTraceMessage::Start(source, position, event) => place_text(source, position) + start_text(event),
        ValidationTraceMessage::Success(source, position, event) => place_text(source, position) + end_text(event),
        ValidationTraceMessage::Failure(source, position, event, error) => place_text(source, position) + end_text(
            event,
        ) + " failed -- "@ + failure_text(error),
    }
}

/// The text of a step of an explanation.
pub open spec fn element_text(element: ValidWordElement) -> Seq<char> {
    place_text(element.pattern_source, element.index) + match element.event {
        ValidWordEvent::Start(event) => start_text(event),
        ValidWordEvent::End(event) => end_text(event),
    }
}

/// A trace line as it is printed: two spaces for each level of nesting, then the message.
pub open spec fn trace_line_text(line: TraceLine) -> Seq<char> {
    Seq::new((line.level * 2) as nat, |i: int| ' ') + message_text(line.message)
}

fn push_number(out: &mut String, n: usize)
    ensures
        final(out)@ == old(out)@ + decimal(n as nat),
{
    let digits = decimal_text(n);
    out.append(digits.as_str());
}

fn write_location(out: &mut String, l: SourceLocation)
    ensures
        final(out)@ == old(out)@ + location_text(l),
{
    let ghost start = out@;
    out.append(l.file);
    out.append(":");
    push_number(out, l.line as usize);
    out.append(":");
    push_number(out, l.column as usize);
    assert(out@ =~= start + location_text(l));
}

fn write_place(out: &mut String, source: SourceLocation, position: usize)
    ensures
        final(out)@ == old(out)@ + place_text(source, position),
{
    let ghost start = out@;
    out.append("[");
    write_location(out, source);
    out.append("; phoneme ");
    push_number(out, position);
    out.append("]: ");
    assert(out@ =~= start + place_text(source, position));
}

fn write_quoted(out: &mut String, before: &str, name: &str, after: &str)
    ensures
        final(out)@ == old(out)@ + (before@ + name@ + after@),
{
    let ghost start = out@;
    out.append(before);
    out.append(name);
    out.append(after);
    assert(out@ =~= start + (before@ + name@ + after@));
}

fn write_counted(out: &mut String, before: &str, n: usize)
    ensures
        final(out)@ == old(out)@ + (before@ + decimal(n as nat)),
{
    let ghost start = out@;
    out.append(before);
    push_number(out, n);
    assert(out@ =~= start + (before@ + decimal(n as nat)));
}

impl ValidationTraceStart {
    /// The text of the start, as `start_text` says.
    pub fn write_text(&self, out: &mut String)
        ensures
            final(out)@ == old(out)@ + start_text(*self),
    {
        match self {
            ValidationTraceStart::Sequence => out.append("start sequence"),
            ValidationTraceStart::Series => out.append("start series"),
            ValidationTraceStart::Optional => out.append("start option"),
            ValidationTraceStart::Choice => out.append("start choice"),
            ValidationTraceStart::Case(Some(case)) => write_quoted(out, "start case for environment '", case, "'"),
            ValidationTraceStart::Case(None) => out.append("start case"),
            ValidationTraceStart::CaseEnvironment => out.append("start case environment"),
            ValidationTraceStart::RuleReference(name) => write_quoted(out, "start rule reference '", name, "'"),
        }
    }
}

impl ValidationTraceEnd {
    /// The text of the end, as `end_text` says.
    pub fn write_text(&self, out: &mut String)
        ensures
            final(out)@ == old(out)@ + end_text(*self),
    {
        match self {
            ValidationTraceEnd::Sequence => out.append("end sequence"),
            ValidationTraceEnd::Series(count) => write_counted(out, "end series with count ", *count),
            ValidationTraceEnd::Optional(matched) => {
                if *matched {
                    write_quoted(out, "end option ", "", " matched");
                } else {
                    write_quoted(out, "end option ", "not", " matched");
                }
            },
            ValidationTraceEnd::Choice(branch) => write_counted(out, "end choice at branch ", *branch),
            ValidationTraceEnd::Case(Some(environment)) => write_quoted(
                out,
                "end case for environment '",
                environment,
                "'",
            ),
            ValidationTraceEnd::Case(None) => out.append("end case"),
            ValidationTraceEnd::CaseEnvironment(Some(branch)) => write_counted(
                out,
                "end case environment at branch ",
                *branch,
            ),
            ValidationTraceEnd::CaseEnvironment(None) => out.append("end case environment without a branch"),
            ValidationTraceEnd::RuleReference(name) => write_quoted(out, "end rule_reference '", name, "'"),
            ValidationTraceEnd::PhonemeFound(phoneme) => write_quoted(out, "phoneme found ", phoneme.name, ""),
            ValidationTraceEnd::PhonemeNotFound => out.append("phoneme not found"),
            ValidationTraceEnd::Terminate => out.append("terminate"),
            ValidationTraceEnd::Word => out.append("word"),
        }
        proof {
            reveal_strlit("");
        }
    }
}

impl ValidationFailure {
    /// The text of the failure, as `failure_text` says.
    pub fn write_text(&self, out: &mut String)
        ensures
            final(out)@ == old(out)@ + failure_text(*self),
    {
        let ghost start = out@;
        match self {
            ValidationFailure::InnerSequencePatternFailed { index } => {
                write_counted(out, "inner pattern ", *index);
                out.append(" failed");
            },
            ValidationFailure::SeriesFailedToReachMinimumCount { minimum, count } => {
                write_counted(out, "Series incomplete, only found ", *count);
                write_counted(out, " of ", *minimum);
                out.append(".");
            },
            ValidationFailure::InvalidPhoneme { expected, found } => {
                write_quoted(out, "Expected phoneme in set '", expected, "', found ");
                write_quoted(out, "", found.name, ".");
            },
            ValidationFailure::UnexpectedEnd { expected } => write_quoted(
                out,
                "Expected phoneme in set '",
                expected,
                "', found end of word.",
            ),
            ValidationFailure::UnexpectedPhoneme { found } => write_quoted(
                out,
                "Expected end of word, found ",
                found.name,
                ".",
            ),
            ValidationFailure::UnexpectedPhonemeAfterPattern { found } => write_quoted(
                out,
                "Found phoneme ",
                found.name,
                " after pattern was complete.",
            ),
            ValidationFailure::NoChoiceBranchesMatched => out.append("No branches in choice matched."),
            ValidationFailure::CaseBranchBodyFailed { index } => {
                write_counted(out, "Case body pattern ", *index);
                out.append(" failed.");
            },
            ValidationFailure::NoCaseBranchesMatched => out.append("No branches in case matched."),
            ValidationFailure::CaseEnvironmentFailed => out.append("Case environment failed."),
            ValidationFailure::CaseConditionFailed => out.append("Phoneme did not match initial set for case."),
            ValidationFailure::ReferencedRuleFailed { name } => write_quoted(out, "Rule '", name, "' failed."),
            ValidationFailure::InitialPatternFailed => out.append("Initial pattern failed."),
        }
        proof {
            reveal_strlit("");
        }
        assert(out@ =~= start + failure_text(*self));
    }
}

impl ValidationTraceMessage {
    /// The text of the message, as `message_text` says.
    pub fn text(&self) -> (r: String)
        ensures
            r@ == message_text(*self),
    {
        let mut out = String::new();
        match self {
            ValidationTraceMessage::Start(source, position, event) => {
                write_place(&mut out, *source, *position);
                event.write_text(&mut out);
            },
            ValidationTraceMessage::Success(source, position, event) => {
                write_place(&mut out, *source, *position);
                event.write_text(&mut out);
            },
            ValidationTraceMessage::Failure(source, position, event, error) => {
                write_place(&mut out, *source, *position);
                event.write_text(&mut out);
                out.append(" failed -- ");
                error.write_text(&mut out);
            },
        }
        assert(out@ =~= message_text(*self));
        out
    }
}

impl ValidWordElement {
    /// The text of the step, as `element_text` says.
    pub fn text(&self) -> (r: String)
        ensures
            r@ == element_text(*self),
    {
        let mut out = String::new();
        write_place(&mut out, self.pattern_source, self.index);
        match &self.event {
            ValidWordEvent::Start(event) => event.write_text(&mut out),
            ValidWordEvent::End(event) => event.write_text(&mut out),
        }
        assert(out@ =~= element_text(*self));
        out
    }
}

impl TraceLine {
    /// The line as it is printed, as `trace_line_text` says. The nesting level must leave room
    /// for its indentation.
    pub fn text(&self) -> (r: String)
        requires
            self.level * 2 <= usize::MAX,
        ensures
            r@ == trace_line_text(*self),
    {
        let mut out = String::new();
        let mut i: usize = 0;
        let width = self.level * 2;
        while i < width
            invariant
                i <= width == self.level * 2,
                out@ == Seq::new(i as nat, |k: int| ' '),
            decreases width - i,
        {
            crate::text::push_char(&mut out, ' ');
            assert(out@ =~= Seq::new((i + 1) as nat, |k: int| ' '));
            i = i + 1;
        }
        let message = self.message.text();
        out.append(message.as_str());
        out
    }
}

} // verus!
