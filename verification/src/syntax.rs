//! Reading a text: the lexer and the parser run together.

use vstd::prelude::*;
use crate::fact::{syns_view, Syn, SynView};
use crate::lexer::{lemma_lexeme_bounds, lexeme_at, Lexeme, Lexer};
use crate::parser::{finish, initial, step, Parser, ParserView};
use crate::token::{Error, ErrorView, ParseError, Span};

verus! {

/// The span `start..end`.
pub open spec fn span_of(start: int, end: int) -> Span {
    Span { start: start as usize, end: end as usize }
}

/// Reading on from `pos` with the parser in `state`: tokens are read and
/// handed to the parser one by one. The first refusal ends the reading: a
/// byte that begins no token is a lexical error, a token that the parser
/// refuses is a parse error at that token, and an input that ends inside a
/// bracket is a parse error at the last token read, `last`.
pub open spec fn parse_from(src: Seq<u8>, pos: int, last: Span, state: ParserView) -> Result<
    Seq<SynView>,
    ErrorView,
>
    decreases src.len() - pos,
{
    match lexeme_at(src, pos) {
        Lexeme::End => match finish(state) {
            Some(program) => Ok(program),
            None => Err(ErrorView::Parse(last, src.subrange(last.start as int, last.end as int))),
        },
        Lexeme::Error { start, end } => Err(
            ErrorView::Lex(span_of(start, end), src.subrange(start, end)),
        ),
        Lexeme::Token { token, start, end } => {
            if pos <= start < end <= src.len() {
                match step(state, token) {
                    Some(next) => parse_from(src, end, span_of(start, end), next),
                    None => Err(ErrorView::Parse(span_of(start, end), src.subrange(start, end))),
                }
            } else {
                Err(ErrorView::Parse(last, Seq::empty()))
            }
        },
    }
}

/// The program that a source text spells, or the error that stops it.
pub open spec fn parse_spec(src: Seq<u8>) -> Result<Seq<SynView>, ErrorView> {
    parse_from(src, 0, Span { start: 0, end: 0 }, initial())
}

/// Reads a source text into a program: a sequence of facts and directives,
/// one for each line that is not blank.
pub fn parse_program(src: &[u8]) -> (r: Result<Vec<Syn>, Error>)
    ensures
        match parse_spec(src@) {
            Ok(program) => r matches Ok(v) && syns_view(v@) == program,
            Err(e) => r matches Err(err) && err@ == e,
        },
{
    let len = src.len();
    let mut lexer = Lexer::new(src);
    let mut parser = Parser::new();
    loop
        invariant
            len == src@.len(),
            lexer.source() == src@,
            0 <= lexer.position() <= src@.len(),
            parse_spec(src@) == parse_from(src@, lexer.position(), lexer.last_span(), parser@),
        decreases src@.len() - lexer.position(),
    {
        proof {
            lemma_lexeme_bounds(src@, lexer.position());
        }
        match lexer.next_token() {
            None => {
                match parser.end_of_input() {
                    Ok(program) => {
                        return Ok(program);
                    },
                    Err(_) => {
                        let span = lexer.span();
                        let text = lexer.slice();
                        return Err(Error::Parse(ParseError { span, text }));
                    },
                }
            },
            Some(Err(e)) => {
                return Err(Error::Lex(e));
            },
            Some(Ok(token)) => {
                match parser.parse(token) {
                    Ok(()) => {},
                    Err(_) => {
                        let span = lexer.span();
                        let text = lexer.slice();
                        return Err(Error::Parse(ParseError { span, text }));
                    },
                }
            },
        }
    }
}

/// A place in a text, counted from 0: the line, and the column in bytes.
#[derive(Clone, Copy, Debug, PartialEq, Eq)]
pub struct Place {
    pub line: usize,
    pub column: usize,
}

/// The number of line feeds among the first `n` bytes.
pub open spec fn feeds_before(src: Seq<u8>, n: nat) -> nat
    decreases n,
{
    if n == 0 || n > src.len() {
        0
    } else if src[n - 1] == 10 {
        feeds_before(src, (n - 1) as nat) + 1
    } else {
        feeds_before(src, (n - 1) as nat)
    }
}

/// The number of bytes between the last line feed before offset `n`, or
/// the start of the text, and `n`.
pub open spec fn column_at(src: Seq<u8>, n: nat) -> nat
    decreases n,
{
    if n == 0 || n > src.len() || src[n - 1] == 10 {
        0
    } else {
        column_at(src, (n - 1) as nat) + 1
    }
}

/// The line and column of a byte offset, for pointing at an error. An
/// offset beyond the text gives the start.
pub fn place_of(src: &[u8], offset: usize) -> (r: Place)
    ensures
        r.line == feeds_before(src@, offset as nat),
        r.column == column_at(src@, offset as nat),
{
    if offset > src.len() {
        return Place { line: 0, column: 0 };
    }
    let mut line: usize = 0;
    let mut column: usize = 0;
    let mut k: usize = 0;
    while k < offset
        invariant
            k <= offset <= src@.len(),
            line == feeds_before(src@, k as nat),
            column == column_at(src@, k as nat),
            line <= k,
            column <= k,
        decreases offset - k,
    {
        if src[k] == 10 {
            line += 1;
            column = 0;
        } else {
            column += 1;
        }
        k += 1;
    }
    Place { line, column }
}

} // verus!
