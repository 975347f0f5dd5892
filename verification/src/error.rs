//! Error types shared by the config and event-log parsers.

use vstd::prelude::*;
use vstd::string::StringExecFns;

use crate::chars::{dec_rep, push_char, push_decimal, push_repeat, repeat_char};

verus! {

/// An optional column range: `None` when the input simply ran out,
/// `Some((l, r))` when a malformed token spans columns `l..=r`.
pub type Span = Option<(usize, usize)>;

/// A parse failure carrying a 1-indexed row, an optional column span, and
/// a human-readable description of what was expected at that position.
#[derive(Clone, Debug, PartialEq)]
pub enum ParseError {
    Expected { msg: String, row: usize, span: Span },
}

/// Converts the various ways callers describe an error position into a `Span`.
pub trait IntoSpan: Sized {
    spec fn spec_span(self) -> Span;

    fn into_span(self) -> (s: Span)
        ensures
            s == self.spec_span(),
    ;
}

impl IntoSpan for usize {
    open spec fn spec_span(self) -> Span {
        Some((self, self))
    }

    fn into_span(self) -> (s: Span)
        ensures
            s == self.spec_span(),
    {
        Some((self, self))
    }
}

impl IntoSpan for (usize, usize) {
    open spec fn spec_span(self) -> Span {
        Some(self)
    }

    fn into_span(self) -> (s: Span)
        ensures
            s == self.spec_span(),
    {
        Some(self)
    }
}

impl IntoSpan for Option<()> {
    open spec fn spec_span(self) -> Span {
        None
    }

    fn into_span(self) -> (s: Span)
        ensures
            s == self.spec_span(),
    {
        None
    }
}

/// The mathematical value of a `ParseError`.
#[verifier::ext_equal]
pub struct ParseErrorV {
    pub msg: Seq<char>,
    pub row: usize,
    pub span: Span,
}

impl View for ParseError {
    type V = ParseErrorV;

    open spec fn view(&self) -> ParseErrorV {
        match self {
            ParseError::Expected { msg, row, span } => ParseErrorV {
                msg: msg@,
                row: *row,
                span: *span,
            },
        }
    }
}

impl ParseError {
    /// What this error's fields are, as mathematical values.
    pub open spec fn msg_view(self) -> Seq<char> {
        match self {
            ParseError::Expected { msg, .. } => msg@,
        }
    }

    pub open spec fn row_view(self) -> usize {
        match self {
            ParseError::Expected { row, .. } => row,
        }
    }

    pub open spec fn span_view(self) -> Span {
        match self {
            ParseError::Expected { span, .. } => span,
        }
    }

    pub fn expected<Sp: IntoSpan>(msg: &str, row: usize, span: Sp) -> (e: ParseError)
        ensures
            e.msg_view() == msg@,
            e.row_view() == row,
            e.span_view() == span.spec_span(),
    {
        ParseError::Expected { msg: msg.to_owned(), row, span: span.into_span() }
    }

    /// Like `expected`, but takes an already-built message.
    pub fn expected_string<Sp: IntoSpan>(msg: String, row: usize, span: Sp) -> (e: ParseError)
        ensures
            e.msg_view() == msg@,
            e.row_view() == row,
            e.span_view() == span.spec_span(),
    {
        ParseError::Expected { msg, row, span: span.into_span() }
    }
}

/// A failure outside parsing, described by a message.
#[derive(Debug)]
pub enum Error {
    Msg(String),
}

impl Error {
    pub open spec fn msg_view(self) -> Seq<char> {
        match self {
            Error::Msg(m) => m@,
        }
    }

    pub fn message(&self) -> (m: &String)
        ensures
            m@ == self.msg_view(),
    {
        match self {
            Error::Msg(m) => m,
        }
    }
}

/// The rendering of a parse error for a terminal: the 1-indexed row and a
/// context name, the offending line, a caret underline over the error's
/// span (a blank line when it has none), and the expected-message.
pub open spec fn spec_render_parse_error(
    context: Seq<char>,
    text: Seq<char>,
    e: ParseErrorV,
) -> Seq<char> {
    let lines = crate::parser::spec_lines(text);
    let line = if 1 <= e.row && e.row <= lines.len() {
        lines[e.row - 1]
    } else {
        Seq::empty()
    };
    let underline = match e.span {
        None => "\n"@,
        Some((l, r)) => repeat_char(' ', l as int) + repeat_char(
            '^',
            if r >= l {
                r - l + 1
            } else {
                0
            },
        ) + "\n"@,
    };
    "Line "@ + dec_rep(e.row as int) + ": Error parsing "@ + context + "\n\n"@ + line + "\n"@
        + underline + "Expected "@ + e.msg
}

/// Render a parse error with the offending line and a caret underline,
/// ready to print.
pub fn render_parse_error(context: &str, text: &str, err: &ParseError) -> (r: String)
    ensures
        r@ == spec_render_parse_error(context@, text@, err@),
{
    let mut out = String::from_str("Line ");
    match err {
        ParseError::Expected { msg, row, span } => {
            push_decimal(&mut out, *row);
            out.append(": Error parsing ");
            out.append(context);
            out.append("\n\n");
            let lines = crate::parser::split_lines(text);
            if 1 <= *row && *row <= lines.len() {
                let line: &str = lines[*row - 1];
                proof {
                    assert(line@ == crate::parser::strslices_view(lines@)[*row - 1]);
                }
                out.append(line);
            }
            out.append("\n");
            match span {
                None => {
                    out.append("\n");
                },
                Some((l, r)) => {
                    push_repeat(&mut out, ' ', *l);
                    if *r >= *l {
                        let d = *r - *l;
                        let ghost pre = out@;
                        push_char(&mut out, '^');
                        push_repeat(&mut out, '^', d);
                        proof {
                            assert(out@ =~= pre + repeat_char('^', d as int + 1));
                        }
                    }
                    out.append("\n");
                },
            }
            out.append("Expected ");
            out.append(msg.as_str());
        },
    }
    proof {
        assert(out@ =~= spec_render_parse_error(context@, text@, err@));
    }
    out
}

} // verus!
