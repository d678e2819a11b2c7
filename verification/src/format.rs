use vstd::prelude::*;
use vstd::string::StringExecFns;

use crate::text::lowercase;
use crate::text::same_text;
use crate::text::to_lowercase;

verus! {

/// The output formats of grids and lexicons.
#[derive(Debug, Clone, Copy, PartialEq, Eq, Structural)]
pub enum Format {
    Plain,
    Terminal { spans: bool },
    Markdown,
    HTML { spans: bool },
    JSON,
    CSV,
}

/// The format a lower-case name stands for.
pub open spec fn format_named(name: Seq<char>) -> Option<Format> {
    if name == "plain"@ {
        Some(Format::Plain)
    } else if name == "terminal"@ {
        Some(Format::Terminal { spans: true })
    } else if name == "markdown"@ {
        Some(Format::Markdown)
    } else if name == "html"@ {
        Some(Format::HTML { spans: true })
    } else if name == "json"@ {
        Some(Format::JSON)
    } else if name == "csv"@ {
        Some(Format::CSV)
    } else {
        None
    }
}

impl Format {
    /// The same format with spans turned off, where it has them.
    pub fn with_no_spans(&self) -> (r: Self)
        ensures
            r == match *self {
                Format::Terminal { spans: _ } => Format::Terminal { spans: false },
                Format::HTML { spans: _ } => Format::HTML { spans: false },
                other => other,
            },
    {
        match self {
            Format::Plain => Format::Plain,
            Format::Terminal { spans: _ } => Format::Terminal { spans: false },
            Format::Markdown => Format::Markdown,
            Format::HTML { spans: _ } => Format::HTML { spans: false },
            Format::JSON => Format::JSON,
            Format::CSV => Format::CSV,
        }
    }

    /// The format named by `text`, in any case: the format of its lower-case form, as
    /// `from_lowercase_name` says.
    pub fn parse(text: &str) -> (r: Result<Self, String>)
        ensures
            r matches Ok(f) ==> format_named(lowercase(text@)) == Some(f),
            r is Err ==> format_named(lowercase(text@)) is None,
            r matches Err(e) ==> e@ == "Unknown grid style '"@ + lowercase(text@) + "'."@,
    {
        let name = to_lowercase(text);
        Format::from_lowercase_name(name.as_str())
    }

    /// The format a lower-case name stands for; an unknown name is an error that quotes it.
    pub fn from_lowercase_name(name: &str) -> (r: Result<Self, String>)
        ensures
            r matches Ok(f) ==> format_named(name@) == Some(f),
            r is Err ==> format_named(name@) is None,
            r matches Err(e) ==> e@ == "Unknown grid style '"@ + name@ + "'."@,
    {
        if same_text(name, "plain") {
            Ok(Format::Plain)
        } else if same_text(name, "terminal") {
            Ok(Format::Terminal { spans: true })
        } else if same_text(name, "markdown") {
            Ok(Format::Markdown)
        } else if same_text(name, "html") {
            Ok(Format::HTML { spans: true })
        } else if same_text(name, "json") {
            Ok(Format::JSON)
        } else if same_text(name, "csv") {
            Ok(Format::CSV)
        } else {
            let mut message = String::new();
            message.append("Unknown grid style '");
            message.append(name);
            message.append("'.");
            assert(message@ =~= "Unknown grid style '"@ + name@ + "'."@);
            Err(message)
        }
    }
}

impl core::str::FromStr for Format {
    type Err = String;

    /// The format named by `text`, in any case, as `parse` says.
    fn from_str(text: &str) -> (r: Result<Self, String>)
        ensures
            r matches Ok(f) ==> format_named(lowercase(text@)) == Some(f),
            r is Err ==> format_named(lowercase(text@)) is None,
            r matches Err(e) ==> e@ == "Unknown grid style '"@ + lowercase(text@) + "'."@,
    {
        Format::parse(text)
    }
}

} // verus!
