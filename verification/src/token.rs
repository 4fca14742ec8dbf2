//! Tokens, spans and the errors of reading a text.

use vstd::prelude::*;
use crate::ident::Ident;

verus! {

/// A half-open range of byte offsets into the source text.
#[derive(Clone, Copy, Debug, PartialEq, Eq)]
pub struct Span {
    pub start: usize,
    pub end: usize,
}

/// One lexical unit of the fact language.
#[derive(Clone, Debug, PartialEq, Eq)]
pub enum Token {
    /// A name: a maximal run of name bytes that is not a keyword.
    Ident(Ident),
    /// The keyword `draw`, which opens a directive.
    Draw,
    /// `-`
    Dash,
    /// `[`
    Open,
    /// `]`
    Close,
    /// A line feed, which ends a line.
    Newline,
}

/// The mathematical value of a [`Token`].
pub enum TokenView {
    Ident(Seq<u8>),
    Draw,
    Dash,
    Open,
    Close,
    Newline,
}

impl View for Token {
    type V = TokenView;

    open spec fn view(&self) -> TokenView {
        match self {
            Token::Ident(i) => TokenView::Ident(i@),
            Token::Draw => TokenView::Draw,
            Token::Dash => TokenView::Dash,
            Token::Open => TokenView::Open,
            Token::Close => TokenView::Close,
            Token::Newline => TokenView::Newline,
        }
    }
}

/// A token together with the place in the source where it was read.
#[derive(Clone, Debug, PartialEq, Eq)]
pub struct Spanned {
    pub token: Token,
    pub span: Span,
}

impl View for Spanned {
    type V = (TokenView, Span);

    open spec fn view(&self) -> (TokenView, Span) {
        (self.token@, self.span)
    }
}

/// No token rule matches at `span`; `text` is the offending slice.
#[derive(Clone, Debug, PartialEq, Eq)]
pub struct LexError {
    pub span: Span,
    pub text: Vec<u8>,
}

impl View for LexError {
    type V = (Span, Seq<u8>);

    open spec fn view(&self) -> (Span, Seq<u8>) {
        (self.span, self.text@)
    }
}

/// The parser refused the token at `span`, whose text is `text`; at the end
/// of the input, these are the span and text of the last token read.
#[derive(Clone, Debug, PartialEq, Eq)]
pub struct ParseError {
    pub span: Span,
    pub text: Vec<u8>,
}

impl View for ParseError {
    type V = (Span, Seq<u8>);

    open spec fn view(&self) -> (Span, Seq<u8>) {
        (self.span, self.text@)
    }
}

/// Why a source text yielded no program.
#[derive(Clone, Debug, PartialEq, Eq)]
pub enum Error {
    Lex(LexError),
    Parse(ParseError),
}

/// The mathematical value of an [`Error`].
pub enum ErrorView {
    Lex(Span, Seq<u8>),
    Parse(Span, Seq<u8>),
}

impl View for Error {
    type V = ErrorView;

    open spec fn view(&self) -> ErrorView {
        match self {
            Error::Lex(e) => ErrorView::Lex(e.span, e.text@),
            Error::Parse(e) => ErrorView::Parse(e.span, e.text@),
        }
    }
}

} // verus!
