//! Lines of a hunk and the parser's errors.
use vstd::prelude::*;

verus! {

/// Marker of an added line.
pub const LINE_TYPE_ADDED: &'static str = "+";

/// Marker of a removed line.
pub const LINE_TYPE_REMOVED: &'static str = "-";

/// Marker of a context line.
pub const LINE_TYPE_CONTEXT: &'static str = " ";

/// Marker of an empty line, which is read as a context line.
pub const LINE_TYPE_EMPTY: &'static str = "\n";

/// Why a text is not a well-formed diff; each carries the offending line.
#[derive(Debug)]
pub enum Error {
    /// A `+++` line that no `---` line (or `diff --git` line) opened.
    TargetWithoutSource(String),
    /// A hunk header outside any file.
    UnexpectedHunk(String),
    /// A line of a hunk's body that cannot be read.
    ExpectLine(String),
}

/// What an [`Error`] says, with its line as characters.
pub enum ErrorView {
    TargetWithoutSource(Seq<char>),
    UnexpectedHunk(Seq<char>),
    ExpectLine(Seq<char>),
}

impl View for Error {
    type V = ErrorView;

    open spec fn view(&self) -> ErrorView {
        match self {
            Error::TargetWithoutSource(l) => ErrorView::TargetWithoutSource(l@),
            Error::UnexpectedHunk(l) => ErrorView::UnexpectedHunk(l@),
            Error::ExpectLine(l) => ErrorView::ExpectLine(l@),
        }
    }
}

impl ErrorView {
    pub open spec fn description(self) -> Seq<char> {
        match self {
            ErrorView::TargetWithoutSource(_) => "Target without source"@,
            ErrorView::UnexpectedHunk(_) => "Unexpected hunk found"@,
            ErrorView::ExpectLine(_) => "Hunk line expected"@,
        }
    }

    pub open spec fn line(self) -> Seq<char> {
        match self {
            ErrorView::TargetWithoutSource(l) => l,
            ErrorView::UnexpectedHunk(l) => l,
            ErrorView::ExpectLine(l) => l,
        }
    }
}

impl Clone for Error {
    fn clone(&self) -> (r: Self)
        ensures
            r@ == self@,
    {
        match self {
            Error::TargetWithoutSource(l) => Error::TargetWithoutSource(l.clone()),
            Error::UnexpectedHunk(l) => Error::UnexpectedHunk(l.clone()),
            Error::ExpectLine(l) => Error::ExpectLine(l.clone()),
        }
    }
}

impl Error {
    /// A short description of the kind of error.
    pub fn description(&self) -> (r: &'static str)
        ensures
            r@ == self@.description(),
    {
        match self {
            Error::TargetWithoutSource(_) => "Target without source",
            Error::UnexpectedHunk(_) => "Unexpected hunk found",
            Error::ExpectLine(_) => "Hunk line expected",
        }
    }

    /// The description followed by the offending line.
    pub fn to_string(&self) -> (r: String)
        ensures
            r@ == self@.description() + ": "@ + self@.line(),
    {
        let mut r = String::from_str(self.description());
        r.append(": ");
        match self {
            Error::TargetWithoutSource(l) => r.append(l.as_str()),
            Error::UnexpectedHunk(l) => r.append(l.as_str()),
            Error::ExpectLine(l) => r.append(l.as_str()),
        }
        r
    }
}

/// One line of a hunk.
#[derive(Debug, PartialEq, Eq, Hash)]
pub struct Line {
    /// Number of the line in the source file, for context and removed lines.
    pub source_line_no: Option<usize>,
    /// Number of the line in the target file, for context and added lines.
    pub target_line_no: Option<usize>,
    /// Position (counted from 0) of the line in the diff text.
    pub diff_line_no: usize,
    /// The marker: `+`, `-`, ` ` or `\`.
    pub line_type: String,
    /// The line without its marker.
    pub value: String,
}

pub struct LineView {
    pub source_line_no: Option<usize>,
    pub target_line_no: Option<usize>,
    pub diff_line_no: usize,
    pub line_type: Seq<char>,
    pub value: Seq<char>,
}

impl View for Line {
    type V = LineView;

    open spec fn view(&self) -> LineView {
        LineView {
            source_line_no: self.source_line_no,
            target_line_no: self.target_line_no,
            diff_line_no: self.diff_line_no,
            line_type: self.line_type@,
            value: self.value@,
        }
    }
}

pub open spec fn added_type() -> Seq<char> {
    seq!['+']
}

pub open spec fn removed_type() -> Seq<char> {
    seq!['-']
}

pub open spec fn context_type() -> Seq<char> {
    seq![' ']
}

/// The three markers differ.
pub proof fn lemma_types_distinct()
    ensures
        added_type() != removed_type(),
        added_type() != context_type(),
        removed_type() != context_type(),
{
    assert(added_type()[0] != removed_type()[0]);
    assert(added_type()[0] != context_type()[0]);
    assert(removed_type()[0] != context_type()[0]);
}

impl LineView {
    /// The line as it stands in a diff: marker, then value.
    pub open spec fn text(self) -> Seq<char> {
        self.line_type + self.value
    }
}

/// Whether a line of this type stands in the source file.
pub open spec fn on_source_side(t: Seq<char>) -> bool {
    t == removed_type() || t == context_type()
}

/// Whether a line of this type stands in the target file.
pub open spec fn on_target_side(t: Seq<char>) -> bool {
    t == added_type() || t == context_type()
}

/// Whether `s` holds the single character `c`.
fn is_char(s: &String, c: char) -> (r: bool)
    ensures
        r == (s@ == seq![c]),
{
    let t = s.as_str();
    if t.unicode_len() == 1 {
        let d = t.get_char(0);
        proof {
            if d == c {
                assert(t@ =~= seq![c]);
            }
        }
        d == c
    } else {
        false
    }
}

impl Clone for Line {
    fn clone(&self) -> (r: Self)
        ensures
            r@ == self@,
    {
        Line {
            source_line_no: self.source_line_no,
            target_line_no: self.target_line_no,
            diff_line_no: self.diff_line_no,
            line_type: self.line_type.clone(),
            value: self.value.clone(),
        }
    }
}

impl Line {
    /// A line with the given value and marker, numbered 0 on both sides and in
    /// the diff.
    pub fn new(value: &str, line_type: &str) -> (r: Line)
        ensures
            r@ == (LineView {
                source_line_no: Some(0),
                target_line_no: Some(0),
                diff_line_no: 0,
                line_type: line_type@,
                value: value@,
            }),
    {
        Line {
            source_line_no: Some(0),
            target_line_no: Some(0),
            diff_line_no: 0,
            line_type: line_type.to_owned(),
            value: value.to_owned(),
        }
    }

    /// Whether the line is added.
    pub fn is_added(&self) -> (r: bool)
        ensures
            r == (self@.line_type == added_type()),
    {
        is_char(&self.line_type, '+')
    }

    /// Whether the line is removed.
    pub fn is_removed(&self) -> (r: bool)
        ensures
            r == (self@.line_type == removed_type()),
    {
        is_char(&self.line_type, '-')
    }

    /// Whether the line is context.
    pub fn is_context(&self) -> (r: bool)
        ensures
            r == (self@.line_type == context_type()),
    {
        is_char(&self.line_type, ' ')
    }

    /// The line as it stands in a diff: marker, then value.
    pub fn to_string(&self) -> (r: String)
        ensures
            r@ == self@.text(),
    {
        let mut r = self.line_type.clone();
        r.append(self.value.as_str());
        r
    }
}

} // verus!
