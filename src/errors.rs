//! Errors: platform-condition parse errors with their diagnostics, and the
//! graph construction error.

use vstd::prelude::*;
use crate::targets::TargetError;
use crate::text::{starts_with, ends_with, str_starts_with, str_ends_with};

verus! {

/// The kind of error found while parsing a `cfg()` expression.
#[derive(Debug)]
pub enum ExpressionParseErrorKind {
    /// not() takes exactly 1 predicate, unlike all() and any()
    InvalidNot(usize),
    /// The characters are not valid in an cfg expression
    InvalidCharacters,
    /// An opening parens was unmatched with a closing parens
    UnclosedParens,
    /// A closing parens was unmatched with an opening parens
    UnopenedParens,
    /// An opening quotes was unmatched with a closing quotes
    UnclosedQuotes,
    /// A closing quotes was unmatched with an opening quotes
    UnopenedQuotes,
    /// The expression does not contain any valid terms
    Empty,
    /// Found an unexpected term, which wasn't one of the expected terms that is listed
    Unexpected {
        /// The list of expected terms.
        expected: Vec<String>,
    },
    /// Failed to parse an integer value
    InvalidInteger,
    /// The root cfg() may only contain a single predicate
    MultipleRootPredicates,
    /// A `target_has_atomic` predicate didn't correctly parse.
    InvalidHasAtomic,
    /// An element was not part of the builtin information in rustc
    UnknownBuiltin,
}

/// An error returned in case a `cfg()` expression cannot be parsed.
#[derive(Debug)]
pub struct ExpressionParseError {
    /// The string we tried to parse.
    pub input: String,
    /// The range of characters of the input that resulted in this error.
    pub span: (usize, usize),
    /// The kind of error that occurred.
    pub kind: ExpressionParseErrorKind,
}

/// `n + 4`, or the largest `usize` where that does not fit.
pub open spec fn plus_four(n: usize) -> usize {
    if n <= usize::MAX - 4 {
        (n + 4) as usize
    } else {
        usize::MAX
    }
}

/// Whether the expression is wrapped as `cfg(...)`.
pub open spec fn wrapped_in_cfg(s: Seq<char>) -> bool {
    starts_with(s, "cfg("@) && ends_with(s, ")"@)
}

impl ExpressionParseError {
    /// Builds the error for `input` from the span and kind that the parser
    /// reported. The parser's span does not count a leading `cfg(`, so where
    /// the input is wrapped in `cfg(...)` the span moves four characters on.
    pub fn new(input: &str, start: usize, end: usize, kind: ExpressionParseErrorKind) -> (r: Self)
        ensures
            r.input@ == input@,
            r.span == if wrapped_in_cfg(input@) {
                (plus_four(start), plus_four(end))
            } else {
                (start, end)
            },
            r.kind == kind,
    {
        let wrapped = str_starts_with(input, "cfg(") && str_ends_with(input, ")");
        let span = if wrapped {
            (start.saturating_add(4), end.saturating_add(4))
        } else {
            (start, end)
        };
        ExpressionParseError { input: input.to_owned(), span, kind }
    }
}

/// An error returned while parsing a plain target string: a character that
/// is not alphanumeric, `-`, `_` or `.`.
#[derive(Debug)]
pub struct PlainStringParseError {
    /// The input that failed to parse.
    pub input: String,
    /// The byte offset of the offending character.
    pub char_index: usize,
    /// The offending character.
    pub character: char,
}

/// The number of bytes of a character in UTF-8.
pub open spec fn utf8_len(c: char) -> usize {
    if (c as u32) < 0x80 {
        1
    } else if (c as u32) < 0x800 {
        2
    } else if (c as u32) < 0x10000 {
        3
    } else {
        4
    }
}

impl PlainStringParseError {
    /// The byte range of the offending character, as (start, length).
    pub fn span(&self) -> (r: (usize, usize))
        ensures
            r == (self.char_index, utf8_len(self.character)),
    {
        let c = self.character as u32;
        let n: usize = if c < 0x80 {
            1
        } else if c < 0x800 {
            2
        } else if c < 0x10000 {
            3
        } else {
            4
        };
        (self.char_index, n)
    }
}

/// An error found while parsing a platform condition.
#[derive(Debug)]
pub enum TargetSpecError {
    /// A `cfg()` expression was invalid and could not be parsed.
    InvalidExpression(ExpressionParseError),
    /// A plain target string held a character it may not hold.
    InvalidTargetSpecString(PlainStringParseError),
}

/// A diagnostic for an [`ExpressionParseError`]: the input as source, and a
/// label on the span of the error.
#[derive(Debug)]
pub struct ExpressionParseDiagnostic(pub ExpressionParseError);

impl ExpressionParseDiagnostic {
    /// Creates a new `ExpressionParseDiagnostic`.
    pub fn new(error: ExpressionParseError) -> (r: Self)
        ensures
            r.0 == error,
    {
        ExpressionParseDiagnostic(error)
    }
}

/// A diagnostic for a [`PlainStringParseError`]: the input as source, and a
/// label on the offending character.
#[derive(Debug)]
pub struct PlainStringParseDiagnostic {
    pub error: PlainStringParseError,
    pub input: String,
}

impl PlainStringParseDiagnostic {
    /// Creates a new `PlainStringParseDiagnostic`.
    pub fn new(error: PlainStringParseError) -> (r: Self)
        ensures
            r.error == error,
            r.input@ == error.input@,
    {
        let input = error.input.clone();
        PlainStringParseDiagnostic { error, input }
    }
}

/// Converts an error into its diagnostic.
pub trait IntoMietteDiagnostic: Sized {
    /// The diagnostic type that `self` converts to.
    type IntoDiagnostic;

    /// Converts the error into its diagnostic.
    fn into_diagnostic(self) -> Self::IntoDiagnostic;
}

impl IntoMietteDiagnostic for ExpressionParseError {
    type IntoDiagnostic = ExpressionParseDiagnostic;

    fn into_diagnostic(self) -> ExpressionParseDiagnostic {
        ExpressionParseDiagnostic::new(self)
    }
}

impl IntoMietteDiagnostic for PlainStringParseError {
    type IntoDiagnostic = PlainStringParseDiagnostic;

    fn into_diagnostic(self) -> PlainStringParseDiagnostic {
        PlainStringParseDiagnostic::new(self)
    }
}


/// Why a package graph could not be built.
#[derive(Debug)]
pub enum Error {
    /// A resolved edge leads to a package id with no package record.
    MissingDependency { package: String, dependency: String },
    /// A workspace member id has no package record.
    WorkspaceMemberNotFound { member: String },
    /// A default member that is not a workspace member.
    DefaultMemberNotMember { member: String },
    /// A workspace member whose source is not the workspace.
    NotInWorkspace { member: String, manifest_path: String },
    /// Two workspace members share a package name.
    DuplicateWorkspaceName { name: String, first: String, second: String },
    /// A build target that cannot be classified, or a second target for a taken slot.
    InvalidTarget { package: String, error: TargetError },
    /// A named feature turns on `dep:x` where `x` is no optional dependency.
    UnknownOptionalDependency { package: String, feature: String, dependency: String },
    /// A dev-dependency declaration marked optional.
    OptionalDevDependency { package: String, dependency: String },
    /// A resolved edge that no manifest declaration explains.
    NoMatchingDependency { package: String, resolved_name: String },
    /// A platform condition that does not parse.
    InvalidPlatform { package: String, dependency: String, error: TargetSpecError },
    /// A path package whose manifest path has no parent directory.
    NoManifestParent { package: String, manifest_path: String },
    /// A workspace member whose manifest path yields no member directory.
    InvalidManifestPath { package: String, manifest_path: String },
}

} // verus!
