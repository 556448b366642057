//! Errors of decoding (positioned) and of rendering.
use vstd::prelude::*;

verus! {

/// What went wrong while decoding.
#[derive(Clone, Copy, Debug, PartialEq, Eq, Structural)]
pub enum ErrorKind {
    /// No `-----BEGIN <label>-----` line, or none with an `-----END ` line after it.
    MissingBlock,
    /// The END line does not close the label that BEGIN opened.
    LabelMismatch,
    /// A header block that starts with a continuation line.
    StrayContinuation,
    /// A header line without a `:`.
    MalformedHeader,
    /// A header block whose first field is not `Proc-Type`.
    MissingProcType,
    /// A header field whose name is not known.
    UnknownHeader,
    /// A `Proc-Type` value without a `,`.
    MalformedProcType,
    /// A `Proc-Type` version that is not a `u32` in decimal.
    InvalidVersion,
    /// A `Proc-Type` specifier that is not one of the four tokens.
    InvalidSpecifier,
    /// A `DEK-Info` parameter that is not hexadecimal.
    InvalidHex,
    /// A body that is not base64.
    InvalidContent,
}

/// A decoding error and where it was found: line and column (both counted
/// from 0, the column in characters), and the byte offset in the input.
#[derive(Clone, Copy, Debug, PartialEq, Eq, Structural)]
pub struct ParseError {
    pub kind: ErrorKind,
    pub line: usize,
    pub column: usize,
    pub offset: usize,
}

/// The error of this library's public entry points.
#[derive(Clone, Copy, Debug, PartialEq, Eq, Structural)]
pub enum Error {
    /// The envelope or the body could not be decoded.
    PemParserError(ParseError),
    /// A header field could not be decoded.
    HeaderParserError(ParseError),
    /// A message with an empty label cannot be rendered.
    RenderError,
}

pub type PemResult<T> = Result<T, Error>;

/// An error at 0-based line `line` and column `column` of a split text.
pub struct ErrAt {
    pub kind: ErrorKind,
    pub line: int,
    pub column: int,
}

/// An error at a 0-based line and column, before it is placed in the text.
#[derive(Clone, Copy, Debug, PartialEq, Eq, Structural)]
pub struct Located {
    pub kind: ErrorKind,
    pub line: usize,
    pub column: usize,
}

impl View for Located {
    type V = ErrAt;

    open spec fn view(&self) -> ErrAt {
        ErrAt { kind: self.kind, line: self.line as int, column: self.column as int }
    }
}

/// `e` reports `a` in the text `t`, with the byte offset of its position.
pub open spec fn placed(e: ParseError, t: Seq<char>, a: ErrAt) -> bool {
    &&& e.kind == a.kind
    &&& e.line == a.line
    &&& e.column == a.column
    &&& e.offset == crate::text::byte_offset(
        t,
        crate::text::line_offset(crate::text::lines_of(t), a.line) + a.column,
    )
}

/// `a` points into the text whose lines are `ls`.
pub open spec fn within(ls: Seq<Seq<char>>, a: ErrAt) -> bool {
    0 <= a.line < ls.len() && 0 <= a.column <= ls[a.line].len()
}

/// The description of each kind of error.
pub open spec fn kind_message(k: ErrorKind) -> Seq<char> {
    match k {
        ErrorKind::MissingBlock => "Missing PEM block"@,
        ErrorKind::LabelMismatch => "END label does not match BEGIN label"@,
        ErrorKind::StrayContinuation => "Continuation line without a header field"@,
        ErrorKind::MalformedHeader => "Header line without a colon"@,
        ErrorKind::MissingProcType => "Proc-Type must be the first header field"@,
        ErrorKind::UnknownHeader => "Unknown header entry"@,
        ErrorKind::MalformedProcType => "Proc-Type value without a comma"@,
        ErrorKind::InvalidVersion => "Invalid Proc-Type version"@,
        ErrorKind::InvalidSpecifier => "Invalid Proc-Type specifier"@,
        ErrorKind::InvalidHex => "Invalid hexadecimal DEK-Info parameter"@,
        ErrorKind::InvalidContent => "Invalid base64 content"@,
    }
}

impl ErrorKind {
    /// A short description of the error.
    pub fn message(&self) -> (r: &'static str)
        ensures
            r@ == kind_message(*self),
    {
        match self {
            ErrorKind::MissingBlock => "Missing PEM block",
            ErrorKind::LabelMismatch => "END label does not match BEGIN label",
            ErrorKind::StrayContinuation => "Continuation line without a header field",
            ErrorKind::MalformedHeader => "Header line without a colon",
            ErrorKind::MissingProcType => "Proc-Type must be the first header field",
            ErrorKind::UnknownHeader => "Unknown header entry",
            ErrorKind::MalformedProcType => "Proc-Type value without a comma",
            ErrorKind::InvalidVersion => "Invalid Proc-Type version",
            ErrorKind::InvalidSpecifier => "Invalid Proc-Type specifier",
            ErrorKind::InvalidHex => "Invalid hexadecimal DEK-Info parameter",
            ErrorKind::InvalidContent => "Invalid base64 content",
        }
    }
}

impl ParseError {
    /// A short description of the error.
    pub fn message(&self) -> (r: &'static str)
        ensures
            r@ == kind_message(self.kind),
    {
        self.kind.message()
    }
}

/// Places `l` in the text `t`, whose lines start at `starts`.
pub(crate) fn place(l: Located, starts: &Vec<usize>, t: &Vec<char>) -> (e: ParseError)
    requires
        within(crate::text::lines_of(t@), l@),
        crate::text::utf8_len(t@) <= usize::MAX,
        starts.len() == crate::text::lines_of(t@).len(),
        forall|k: int|
            0 <= k < starts.len() ==> #[trigger] starts@[k] == crate::text::line_offset(
                crate::text::lines_of(t@),
                k,
            ) && starts@[k] + crate::text::lines_of(t@)[k].len() <= t.len(),
    ensures
        placed(e, t@, l@),
{
    let start = starts[l.line];
    assert(starts@[l.line as int] == start);
    let offset = crate::text::byte_offset_of(t, start + l.column);
    ParseError { kind: l.kind, line: l.line, column: l.column, offset }
}

/// Errors found inside the header block, as opposed to the envelope or the body.
pub open spec fn is_header_kind(k: ErrorKind) -> bool {
    !(k is MissingBlock || k is LabelMismatch || k is InvalidContent)
}

/// `err` reports `a` in the text `t`, under the variant that its kind belongs to.
pub open spec fn error_at(err: Error, t: Seq<char>, a: ErrAt) -> bool {
    match err {
        Error::PemParserError(e) => !is_header_kind(a.kind) && placed(e, t, a),
        Error::HeaderParserError(e) => is_header_kind(a.kind) && placed(e, t, a),
        Error::RenderError => false,
    }
}

} // verus!
