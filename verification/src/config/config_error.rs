//! The error types of configuration parsing.

pub use super::options::OptionParseError;
use crate::text::{append_str, decimal, decimal_string};
use vstd::prelude::*;

verus! {

/// Enum for containing errors that might occur in parsing bind lines.
#[derive(Debug, PartialEq, Clone)]
pub enum BindParseError {
    /// User wants to map a key to a non-existent context.
    NoMatchingContext {
        /// The name of the context that was not found.
        context: String,
    },
    /// Not enough terms in a `bind` line.
    NotEnoughTerms,
    /// The `bind` term isn't formed correctly.
    MalformedBindTerm,
    /// Unexpected unicode character in the `bind` term.
    UnicodeBoundaryErrorInBind,
    /// The key event term isn't formed correctly.
    MalformedKeyEventTerm,
    /// Unexpected unicode character in the key event term.
    UnicodeBoundaryErrorInKeyEvent,
}

/// The kind of an I/O error, as far as the editor tells kinds apart.
#[derive(Debug, PartialEq, Eq, Clone, Copy, Structural)]
pub enum IoErrorKind {
    /// An entity was not found.
    NotFound,
    /// The operation lacked the necessary privileges.
    PermissionDenied,
    /// The data was not valid (for example, not UTF-8).
    InvalidData,
    /// Any other kind of I/O error.
    Other,
}

/// An I/O error (for example, a file that cannot be opened), compared by its kind.
#[derive(Debug, Clone)]
pub struct IOError {
    kind: IoErrorKind,
    message: String,
}

impl IOError {
    /// An I/O error of the given kind, described by `message`.
    pub fn new(kind: IoErrorKind, message: String) -> (e: IOError)
        ensures
            e.kind_of() == kind,
            e.message_of() == message@,
    {
        IOError { kind, message }
    }

    /// The kind of the error.
    pub closed spec fn kind_of(self) -> IoErrorKind {
        self.kind
    }

    /// The description of the error.
    pub closed spec fn message_of(self) -> Seq<char> {
        self.message@
    }

    /// The kind of the error.
    pub fn kind(&self) -> (k: IoErrorKind)
        ensures
            k == self.kind_of(),
    {
        self.kind
    }

    /// The description of the error.
    pub fn message(&self) -> (m: String)
        ensures
            m@ == self.message_of(),
    {
        self.message.clone()
    }
}

impl PartialEq for IOError {
    fn eq(&self, other: &Self) -> (r: bool) {
        self.kind == other.kind
    }
}

impl vstd::std_specs::cmp::PartialEqSpecImpl for IOError {
    open spec fn obeys_eq_spec() -> bool {
        true
    }

    open spec fn eq_spec(&self, other: &Self) -> bool {
        self.kind_of() == other.kind_of()
    }
}

/// Enum for containing errors that might occur in parsing custom layout specifications.
#[derive(Debug, PartialEq, Clone)]
pub enum LayoutParseError {
    /// No first line to parse.
    NoFirstLine,
    /// The spec didn't start with a layout name.
    NoLayoutName,
    /// Non-ASCII character in layout pair.
    NonAsciiCharacter {
        /// The line number of the pair.
        line: usize,
    },
    /// No ` => ` found in layout pair.
    MalformedLayoutPair {
        /// The line number of the pair.
        line: usize,
    },
    /// Not mapping a character to a character.
    NonCharacterMapping {
        /// The line number of the pair.
        line: usize,
    },
    /// IO error (e.g. cannot open the layout file)
    IOError {
        /// The error.
        error: IOError,
    },
}

/// Enum for containing errors that might occur in parsing include statements.
#[derive(Debug, PartialEq, Clone, Copy)]
pub enum IncludeParseError {
    /// No `include ` found at beginning of line.
    MalformedInclude,
    /// Neither a layout include nor config include.
    UnknownIncludeType,
    /// Found no single-quoted file name in layout include.
    LayoutNoQuotedFile,
    /// No ` as ` found in non-empty string after final single quote in layout include.
    MalformedAsClause,
}

/// Enum for containing errors that might occur in parsing configurations.
#[derive(Debug, PartialEq, Clone)]
pub enum ConfigParseError {
    /// See [`BindParseError`].
    BindParseError {
        /// The error.
        error: BindParseError,
        /// The line on which it occurred.
        line: usize,
    },
    /// See [`OptionParseError`](super::options::OptionParseError).
    OptionParseError {
        /// The error.
        error: OptionParseError,
        /// The line on which it occurred.
        line: usize,
    },
    /// See [`LayoutParseError`].
    LayoutParseError {
        /// The error.
        error: LayoutParseError,
        /// The line on which it occurred.
        line: usize,
    },
    /// See [`IncludeParseError`].
    IncludeParseError {
        /// The error.
        error: IncludeParseError,
        /// The line on which it occurred.
        line: usize,
    },
    /// Could not determine the statement type of the line.
    NotAStatement {
        /// The line.
        line: usize,
    },
    /// Can not set layout to unknown custom layout
    NoMatchingLayout {
        /// The line.
        line: usize,
    },
    /// IO error (e.g. cannot open the config file)
    IOError {
        /// The error.
        error: IOError,
    },
}

impl ConfigParseError {
    /// Create a `ConfigParseError::BindParseError` from the inner `BindParseError`.
    pub fn bind(error: BindParseError, line: usize) -> (e: Self)
        ensures
            e == (ConfigParseError::BindParseError { error, line }),
    {
        Self::BindParseError { error, line }
    }

    /// Create a `ConfigParseError::OptionParseError` from the inner `OptionParseError`.
    pub fn option(error: OptionParseError, line: usize) -> (e: Self)
        ensures
            e == (ConfigParseError::OptionParseError { error, line }),
    {
        Self::OptionParseError { error, line }
    }

    /// Create a `ConfigParseError::LayoutParseError` from the inner `LayoutParseError`.
    pub fn layout(error: LayoutParseError, line: usize) -> (e: Self)
        ensures
            e == (ConfigParseError::LayoutParseError { error, line }),
    {
        Self::LayoutParseError { error, line }
    }

    /// Create a `ConfigParseError::IncludeParseError` from the inner `IncludeParseError`.
    pub fn include_error(error: IncludeParseError, line: usize) -> (e: Self)
        ensures
            e == (ConfigParseError::IncludeParseError { error, line }),
    {
        Self::IncludeParseError { error, line }
    }
}

/// What a [`BindParseError`] says.
pub open spec fn bind_message(e: BindParseError) -> Seq<char> {
    match e {
        BindParseError::NoMatchingContext { context } => "no matching context "@ + context@
            + " found"@,
        BindParseError::NotEnoughTerms => "not enough terms (expected at least 3)"@,
        BindParseError::MalformedBindTerm => "incorrect syntax in bind term"@,
        BindParseError::UnicodeBoundaryErrorInBind => "unexpected unicode character in bind term"@,
        BindParseError::MalformedKeyEventTerm => "incorrect syntax in key event term"@,
        BindParseError::UnicodeBoundaryErrorInKeyEvent =>
            "unexpected unicode character in key event term"@,
    }
}

/// What an [`OptionParseError`] says.
pub open spec fn option_message(e: OptionParseError) -> Seq<char> {
    match e {
        OptionParseError::NoSetPlusSpace => "did not find `set ` at beginning of string"@,
        OptionParseError::NoEquals => "did not find `=` in string"@,
        OptionParseError::NoValueAfterEquals => "did not find a value after `=` in string"@,
        OptionParseError::NoMatchingOption { option } => "no matching option in `Options` for "@
            + option@,
        OptionParseError::ValueParseError { msg } => "failed to parse value: "@ + msg@,
    }
}

/// What a [`LayoutParseError`] says.
pub open spec fn layout_message(e: LayoutParseError) -> Seq<char> {
    match e {
        LayoutParseError::NoFirstLine => "no first line to parse"@,
        LayoutParseError::NoLayoutName => "no layout name found"@,
        LayoutParseError::NonAsciiCharacter { line } => "non-ASCII character found in layout pair on line "@
            + decimal(line as nat),
        LayoutParseError::MalformedLayoutPair { line } => "did not find ` => ` in layout pair on line "@
            + decimal(line as nat),
        LayoutParseError::NonCharacterMapping { line } => "layout pair on line "@ + decimal(
            line as nat,
        ) + " not mapping a character to a character"@,
        LayoutParseError::IOError { error } => error.message_of(),
    }
}

/// What an [`IncludeParseError`] says.
pub open spec fn include_message(e: IncludeParseError) -> Seq<char> {
    match e {
        IncludeParseError::MalformedInclude => "no `include ` found"@,
        IncludeParseError::UnknownIncludeType => "neither a layout include nor a config include"@,
        IncludeParseError::LayoutNoQuotedFile =>
            "in layout include, found no single-quoted file name"@,
        IncludeParseError::MalformedAsClause =>
            "in layout include, found no ` as ` in non-empty string after final single quote"@,
    }
}

/// What a [`ConfigParseError`] says.
pub open spec fn config_message(e: ConfigParseError) -> Seq<char> {
    match e {
        ConfigParseError::BindParseError { error, line } => "error parsing bind statement on line "@
            + decimal(line as nat) + ": "@ + bind_message(error),
        ConfigParseError::OptionParseError { error, line } =>
            "error parsing option statement on line "@ + decimal(line as nat) + ": "@
            + option_message(error),
        ConfigParseError::LayoutParseError { error, line } =>
            "error parsing layout spec (included on line "@ + decimal(line as nat) + "): "@
            + layout_message(error),
        ConfigParseError::IncludeParseError { error, line } =>
            "error parsing include statement on line "@ + decimal(line as nat) + ": "@
            + include_message(error),
        ConfigParseError::NotAStatement { line } => "could not determine statement type of line "@
            + decimal(line as nat),
        ConfigParseError::NoMatchingLayout { line } =>
            "could not find an included custom layout matching line "@ + decimal(line as nat),
        ConfigParseError::IOError { error } => error.message_of(),
    }
}

fn text_of(a: &str) -> (s: String)
    ensures
        s@ == a@,
{
    a.to_owned()
}

fn text_and(a: &str, b: &str) -> (s: String)
    ensures
        s@ == a@ + b@,
{
    let mut s = a.to_owned();
    append_str(&mut s, b);
    s
}

fn text_num(a: &str, n: usize, b: &str) -> (s: String)
    ensures
        s@ == a@ + decimal(n as nat) + b@,
{
    let mut s = a.to_owned();
    let d = decimal_string(n);
    append_str(&mut s, d.as_str());
    append_str(&mut s, b);
    s
}

impl BindParseError {
    /// What the error says.
    pub fn message(&self) -> (s: String)
        ensures
            s@ == bind_message(*self),
    {
        match self {
            BindParseError::NoMatchingContext { context } => {
                let mut s = text_and("no matching context ", context.as_str());
                append_str(&mut s, " found");
                s
            },
            BindParseError::NotEnoughTerms => text_of("not enough terms (expected at least 3)"),
            BindParseError::MalformedBindTerm => text_of("incorrect syntax in bind term"),
            BindParseError::UnicodeBoundaryErrorInBind => text_of(
                "unexpected unicode character in bind term",
            ),
            BindParseError::MalformedKeyEventTerm => text_of("incorrect syntax in key event term"),
            BindParseError::UnicodeBoundaryErrorInKeyEvent => text_of(
                "unexpected unicode character in key event term",
            ),
        }
    }
}

impl OptionParseError {
    /// What the error says.
    pub fn message(&self) -> (s: String)
        ensures
            s@ == option_message(*self),
    {
        match self {
            OptionParseError::NoSetPlusSpace => text_of("did not find `set ` at beginning of string"),
            OptionParseError::NoEquals => text_of("did not find `=` in string"),
            OptionParseError::NoValueAfterEquals => text_of(
                "did not find a value after `=` in string",
            ),
            OptionParseError::NoMatchingOption { option } => text_and(
                "no matching option in `Options` for ",
                option.as_str(),
            ),
            OptionParseError::ValueParseError { msg } => text_and(
                "failed to parse value: ",
                msg.as_str(),
            ),
        }
    }
}

impl LayoutParseError {
    /// What the error says.
    pub fn message(&self) -> (s: String)
        ensures
            s@ == layout_message(*self),
    {
        match self {
            LayoutParseError::NoFirstLine => text_of("no first line to parse"),
            LayoutParseError::NoLayoutName => text_of("no layout name found"),
            LayoutParseError::NonAsciiCharacter { line } => {
                let s = text_num("non-ASCII character found in layout pair on line ", *line, "");
                proof {
                    reveal_strlit("");
                }
                assert(s@ =~= layout_message(*self));
                s
            },
            LayoutParseError::MalformedLayoutPair { line } => {
                let s = text_num("did not find ` => ` in layout pair on line ", *line, "");
                proof {
                    reveal_strlit("");
                }
                assert(s@ =~= layout_message(*self));
                s
            },
            LayoutParseError::NonCharacterMapping { line } => text_num(
                "layout pair on line ",
                *line,
                " not mapping a character to a character",
            ),
            LayoutParseError::IOError { error } => error.message(),
        }
    }
}

impl IncludeParseError {
    /// What the error says.
    pub fn message(&self) -> (s: String)
        ensures
            s@ == include_message(*self),
    {
        match self {
            IncludeParseError::MalformedInclude => text_of("no `include ` found"),
            IncludeParseError::UnknownIncludeType => text_of(
                "neither a layout include nor a config include",
            ),
            IncludeParseError::LayoutNoQuotedFile => text_of(
                "in layout include, found no single-quoted file name",
            ),
            IncludeParseError::MalformedAsClause => text_of(
                "in layout include, found no ` as ` in non-empty string after final single quote",
            ),
        }
    }
}

impl ConfigParseError {
    /// What the error says: the line on which it occurred and the inner error's message.
    pub fn value(&self) -> (s: String)
        ensures
            s@ == config_message(*self),
    {
        match self {
            ConfigParseError::BindParseError { error, line } => {
                let mut s = text_num("error parsing bind statement on line ", *line, ": ");
                let m = error.message();
                append_str(&mut s, m.as_str());
                s
            },
            ConfigParseError::OptionParseError { error, line } => {
                let mut s = text_num("error parsing option statement on line ", *line, ": ");
                let m = error.message();
                append_str(&mut s, m.as_str());
                s
            },
            ConfigParseError::LayoutParseError { error, line } => {
                let mut s = text_num("error parsing layout spec (included on line ", *line, "): ");
                let m = error.message();
                append_str(&mut s, m.as_str());
                s
            },
            ConfigParseError::IncludeParseError { error, line } => {
                let mut s = text_num("error parsing include statement on line ", *line, ": ");
                let m = error.message();
                append_str(&mut s, m.as_str());
                s
            },
            ConfigParseError::NotAStatement { line } => {
                let s = text_num("could not determine statement type of line ", *line, "");
                proof {
                    reveal_strlit("");
                }
                assert(s@ =~= config_message(*self));
                s
            },
            ConfigParseError::NoMatchingLayout { line } => {
                let s = text_num(
                    "could not find an included custom layout matching line ",
                    *line,
                    "",
                );
                proof {
                    reveal_strlit("");
                }
                assert(s@ =~= config_message(*self));
                s
            },
            ConfigParseError::IOError { error } => error.message(),
        }
    }
}

} // verus!
