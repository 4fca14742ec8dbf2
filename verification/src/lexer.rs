//! The lexer: from bytes to tokens.

use vstd::prelude::*;
use crate::ident::Ident;
use crate::token::{LexError, Span, Spanned, Token, TokenView};

verus! {

/// The bytes of the keyword `draw`.
pub open spec fn draw_word() -> Seq<u8> {
    seq![100u8, 114u8, 97u8, 119u8]
}

/// The bytes of the dash, `-`, when it stands as a name.
pub open spec fn dash_word() -> Seq<u8> {
    seq![45u8]
}

/// The blanks of one byte: space, tab, vertical tab, form feed and
/// carriage return. The line feed is not among them: it is a token.
pub open spec fn is_space(b: u8) -> bool {
    b == 32 || b == 9 || b == 11 || b == 12 || b == 13
}

/// The blanks of two bytes: the next-line mark and the no-break space.
pub open spec fn is_space2(a: u8, b: u8) -> bool {
    a == 0xC2 && (b == 0x85 || b == 0xA0)
}

/// The blanks of three bytes: the ogham space mark, the spaces from the
/// en quad to the hair space, the line and the paragraph separator, the
/// narrow no-break space, the medium mathematical space and the
/// ideographic space.
pub open spec fn is_space3(a: u8, b: u8, c: u8) -> bool {
    ||| a == 0xE1 && b == 0x9A && c == 0x80
    ||| a == 0xE2 && b == 0x80 && (0x80 <= c <= 0x8A || c == 0xA8 || c == 0xA9 || c == 0xAF)
    ||| a == 0xE2 && b == 0x81 && c == 0x9F
    ||| a == 0xE3 && b == 0x80 && c == 0x80
}

/// The length of the blank that starts at `pos`, or 0 where none starts
/// there. A blank is a character with the property White_Space, in UTF-8,
/// but for the line feed.
pub open spec fn space_len(src: Seq<u8>, pos: int) -> int {
    if !(0 <= pos < src.len()) {
        0
    } else if is_space(src[pos]) {
        1
    } else if pos + 1 < src.len() && is_space2(src[pos], src[pos + 1]) {
        2
    } else if pos + 2 < src.len() && is_space3(src[pos], src[pos + 1], src[pos + 2]) {
        3
    } else {
        0
    }
}

/// Bytes that make up a name: ASCII letters and digits, the underscore, and
/// every byte of a multi-byte UTF-8 sequence.
pub open spec fn is_ident_byte(b: u8) -> bool {
    (48 <= b <= 57) || (65 <= b <= 90) || (97 <= b <= 122) || b == 95 || b >= 128
}

/// Whether a name can go on at `pos`: a name byte stands there, and no
/// blank starts there.
pub open spec fn ident_at(src: Seq<u8>, pos: int) -> bool {
    0 <= pos < src.len() && is_ident_byte(src[pos]) && space_len(src, pos) == 0
}

/// The first position at or after `pos` at which no blank starts.
pub open spec fn skip_spaces(src: Seq<u8>, pos: int) -> int
    decreases src.len() - pos,
{
    if space_len(src, pos) > 0 {
        skip_spaces(src, pos + space_len(src, pos))
    } else {
        pos
    }
}

/// The first position at or after `pos` at which a name cannot go on.
pub open spec fn ident_end(src: Seq<u8>, pos: int) -> int
    decreases src.len() - pos,
{
    if ident_at(src, pos) {
        ident_end(src, pos + 1)
    } else {
        pos
    }
}

/// The token that a run of name bytes spells.
pub open spec fn word_token(word: Seq<u8>) -> TokenView {
    if word == draw_word() {
        TokenView::Draw
    } else {
        TokenView::Ident(word)
    }
}

/// What the lexer finds when it reads on from a position.
pub enum Lexeme {
    /// Nothing but blanks is left.
    End,
    /// A token, at `start..end`.
    Token { token: TokenView, start: int, end: int },
    /// A byte at `start..end` that begins no token.
    Error { start: int, end: int },
}

/// The lexeme read from `pos`: blanks are skipped, then one byte decides.
pub open spec fn lexeme_at(src: Seq<u8>, pos: int) -> Lexeme {
    let p = skip_spaces(src, pos);
    if !(0 <= p < src.len()) {
        Lexeme::End
    } else if src[p] == 10 {
        Lexeme::Token { token: TokenView::Newline, start: p, end: p + 1 }
    } else if src[p] == 91 {
        Lexeme::Token { token: TokenView::Open, start: p, end: p + 1 }
    } else if src[p] == 93 {
        Lexeme::Token { token: TokenView::Close, start: p, end: p + 1 }
    } else if src[p] == 45 {
        Lexeme::Token { token: TokenView::Dash, start: p, end: p + 1 }
    } else if ident_at(src, p) {
        let e = ident_end(src, p);
        Lexeme::Token { token: word_token(src.subrange(p, e)), start: p, end: e }
    } else {
        Lexeme::Error { start: p, end: p + 1 }
    }
}

/// All tokens from `pos` to the end of the text, or the first lexical error.
pub open spec fn tokens_from(src: Seq<u8>, pos: int) -> Result<Seq<(TokenView, Span)>, (Span, Seq<u8>)>
    decreases src.len() - pos,
{
    match lexeme_at(src, pos) {
        Lexeme::End => Ok(Seq::empty()),
        Lexeme::Error { start, end } => Err(
            (Span { start: start as usize, end: end as usize }, src.subrange(start, end)),
        ),
        Lexeme::Token { token, start, end } => {
            if pos <= start < end <= src.len() {
                match tokens_from(src, end) {
                    Ok(rest) => Ok(
                        seq![(token, Span { start: start as usize, end: end as usize })] + rest,
                    ),
                    Err(e) => Err(e),
                }
            } else {
                Ok(Seq::empty())
            }
        },
    }
}

/// Skipping blanks stops inside the text, at a place where no blank
/// starts.
pub proof fn lemma_skip_spaces(src: Seq<u8>, pos: int)
    requires
        0 <= pos <= src.len(),
    ensures
        pos <= skip_spaces(src, pos) <= src.len(),
        space_len(src, skip_spaces(src, pos)) == 0,
    decreases src.len() - pos,
{
    if space_len(src, pos) > 0 {
        lemma_skip_spaces(src, pos + space_len(src, pos));
    }
}

/// A name ends inside the text, goes on at each of its places, cannot go
/// on at its end, and is not empty where it can start.
pub proof fn lemma_ident_end(src: Seq<u8>, pos: int)
    requires
        0 <= pos <= src.len(),
    ensures
        pos <= ident_end(src, pos) <= src.len(),
        forall|k: int| pos <= k < ident_end(src, pos) ==> #[trigger] ident_at(src, k),
        !ident_at(src, ident_end(src, pos)),
        ident_at(src, pos) ==> pos < ident_end(src, pos),
    decreases src.len() - pos,
{
    if ident_at(src, pos) {
        lemma_ident_end(src, pos + 1);
    }
}

/// A token lies inside the text, after the position it was read from, and
/// is not empty.
pub proof fn lemma_lexeme_bounds(src: Seq<u8>, pos: int)
    requires
        0 <= pos <= src.len(),
    ensures
        match lexeme_at(src, pos) {
            Lexeme::End => true,
            Lexeme::Token { token, start, end } => pos <= start < end <= src.len(),
            Lexeme::Error { start, end } => pos <= start < end <= src.len(),
        },
{
    lemma_skip_spaces(src, pos);
    let p = skip_spaces(src, pos);
    if p < src.len() {
        lemma_ident_end(src, p);
    }
}

/// The length of the blank that starts at `pos`, or 0.
pub fn space_at(src: &[u8], pos: usize) -> (n: usize)
    ensures
        n == space_len(src@, pos as int),
        pos + n <= src@.len() || n == 0,
{
    let len = src.len();
    if pos >= len {
        return 0;
    }
    let a = src[pos];
    if a == 32 || a == 9 || a == 11 || a == 12 || a == 13 {
        return 1;
    }
    if len - pos >= 2 {
        let b = src[pos + 1];
        if a == 0xC2 && (b == 0x85 || b == 0xA0) {
            return 2;
        }
        if len - pos >= 3 {
            let c = src[pos + 2];
            if (a == 0xE1 && b == 0x9A && c == 0x80) || (a == 0xE2 && b == 0x80 && ((0x80 <= c
                && c <= 0x8A) || c == 0xA8 || c == 0xA9 || c == 0xAF)) || (a == 0xE2 && b == 0x81
                && c == 0x9F) || (a == 0xE3 && b == 0x80 && c == 0x80) {
                return 3;
            }
        }
    }
    0
}

fn ident_here(src: &[u8], pos: usize) -> (r: bool)
    ensures
        r == ident_at(src@, pos as int),
{
    if pos >= src.len() {
        return false;
    }
    let b = src[pos];
    ((48 <= b && b <= 57) || (65 <= b && b <= 90) || (97 <= b && b <= 122) || b == 95 || b >= 128)
        && space_at(src, pos) == 0
}

/// The bytes `src[start..end]`, copied.
pub fn copy_range(src: &[u8], start: usize, end: usize) -> (r: Vec<u8>)
    requires
        start <= end <= src@.len(),
    ensures
        r@ == src@.subrange(start as int, end as int),
{
    let mut out: Vec<u8> = Vec::new();
    let mut i: usize = start;
    while i < end
        invariant
            start <= i <= end <= src@.len(),
            out@ == src@.subrange(start as int, i as int),
        decreases end - i,
    {
        out.push(src[i]);
        i += 1;
    }
    out
}

fn is_draw(word: &Vec<u8>) -> (r: bool)
    ensures
        r == (word@ == draw_word()),
{
    let r = word.len() == 4 && word[0] == 100 && word[1] == 114 && word[2] == 97 && word[3] == 119;
    assert(r == (word@ =~= draw_word()));
    r
}

/// A restartable reader of tokens over a borrowed text.
pub struct Lexer<'a> {
    src: &'a [u8],
    start: usize,
    pos: usize,
}

impl<'a> Lexer<'a> {
    #[verifier::type_invariant]
    spec fn inv(self) -> bool {
        self.start <= self.pos <= self.src@.len()
    }

    /// The text being read.
    pub closed spec fn source(self) -> Seq<u8> {
        self.src@
    }

    /// The offset from which the next token will be read.
    pub closed spec fn position(self) -> int {
        self.pos as int
    }

    /// The span of the token read last (empty at offset 0 before any).
    pub closed spec fn last_span(self) -> Span {
        Span { start: self.start, end: self.pos }
    }

    /// A lexer at the start of `src`.
    pub fn new(src: &'a [u8]) -> (r: Lexer<'a>)
        ensures
            r.source() == src@,
            r.position() == 0,
            r.last_span() == (Span { start: 0, end: 0 }),
    {
        Lexer { src, start: 0, pos: 0 }
    }

    /// Reads the next token. `None` means that only blanks were left; the
    /// lexer then stays where it was, so that its span still names the last
    /// token. After an error the lexer stands behind the offending byte and
    /// can read on.
    pub fn next_token(&mut self) -> (r: Option<Result<Token, LexError>>)
        ensures
            final(self).source() == old(self).source(),
            match lexeme_at(old(self).source(), old(self).position()) {
                Lexeme::End => r is None && *final(self) == *old(self),
                Lexeme::Token { token, start, end } => {
                    &&& r matches Some(Ok(t))
                    &&& t@ == token
                    &&& final(self).position() == end
                    &&& final(self).last_span() == (Span {
                        start: start as usize,
                        end: end as usize,
                    })
                },
                Lexeme::Error { start, end } => {
                    &&& r matches Some(Err(e))
                    &&& e.span == (Span { start: start as usize, end: end as usize })
                    &&& e.text@ == old(self).source().subrange(start, end)
                    &&& final(self).position() == end
                    &&& final(self).last_span() == e.span
                },
            },
    {
        proof {
            use_type_invariant(&*self);
            lemma_skip_spaces(self.src@, self.pos as int);
        }
        let src = self.src;
        let len = src.len();
        let mut p: usize = self.pos;
        let mut n: usize = space_at(src, p);
        while n > 0
            invariant
                self.pos <= p <= src@.len(),
                n == space_len(src@, p as int),
                len == src@.len(),
                n > 0 ==> p + n <= src@.len(),
                skip_spaces(src@, p as int) == skip_spaces(src@, self.pos as int),
            decreases src@.len() - p,
        {
            p += n;
            n = space_at(src, p);
        }
        if p >= src.len() {
            return None;
        }
        let b = src[p];
        if b == 10 || b == 91 || b == 93 || b == 45 {
            self.pos = p + 1;
            self.start = p;
            let token = if b == 10 {
                Token::Newline
            } else if b == 91 {
                Token::Open
            } else if b == 93 {
                Token::Close
            } else {
                Token::Dash
            };
            return Some(Ok(token));
        }
        if ident_here(src, p) {
            let mut e: usize = p + 1;
            proof {
                lemma_ident_end(src@, p as int);
            }
            while ident_here(src, e)
                invariant
                    len == src@.len(),
                    p < e <= src@.len(),
                    ident_end(src@, e as int) == ident_end(src@, p as int),
                decreases src@.len() - e,
            {
                e += 1;
            }
            let word = copy_range(src, p, e);
            self.pos = e;
            self.start = p;
            if is_draw(&word) {
                return Some(Ok(Token::Draw));
            }
            return Some(Ok(Token::Ident(Ident(word))));
        }
        let text = copy_range(src, p, p + 1);
        self.pos = p + 1;
        self.start = p;
        Some(Err(LexError { span: Span { start: p, end: p + 1 }, text }))
    }

    /// The span of the token read last.
    pub fn span(&self) -> (r: Span)
        ensures
            r == self.last_span(),
    {
        Span { start: self.start, end: self.pos }
    }

    /// The text of the token read last.
    pub fn slice(&self) -> (r: Vec<u8>)
        ensures
            r@ == self.source().subrange(
                self.last_span().start as int,
                self.last_span().end as int,
            ),
    {
        proof {
            use_type_invariant(self);
        }
        copy_range(self.src, self.start, self.pos)
    }
}

/// Reads the whole text into tokens, stopping at the first lexical error.
pub fn tokenize(src: &[u8]) -> (r: Result<Vec<Spanned>, LexError>)
    ensures
        match tokens_from(src@, 0) {
            Ok(tokens) => r matches Ok(v) && v@.map_values(|s: Spanned| s@) == tokens,
            Err(e) => r matches Err(err) && err@ == e,
        },
{
    let mut lexer = Lexer::new(src);
    let mut out: Vec<Spanned> = Vec::new();
    let ghost mut done: Seq<(TokenView, Span)> = Seq::empty();
    loop
        invariant
            lexer.source() == src@,
            0 <= lexer.position() <= src@.len(),
            done == out@.map_values(|s: Spanned| s@),
            match tokens_from(src@, lexer.position()) {
                Ok(rest) => tokens_from(src@, 0) == Ok::<Seq<(TokenView, Span)>, (Span, Seq<u8>)>(
                    done + rest,
                ),
                Err(e) => tokens_from(src@, 0) == Err::<Seq<(TokenView, Span)>, (Span, Seq<u8>)>(e),
            },
        decreases src@.len() - lexer.position(),
    {
        proof {
            lemma_lexeme_bounds(src@, lexer.position());
        }
        match lexer.next_token() {
            None => {
                assert(done + Seq::<(TokenView, Span)>::empty() =~= done);
                return Ok(out);
            },
            Some(Err(e)) => {
                return Err(e);
            },
            Some(Ok(token)) => {
                let span = lexer.span();
                let ghost item = (token@, span);
                let ghost before = out@;
                out.push(Spanned { token, span });
                proof {
                    assert(out@.map_values(|s: Spanned| s@) =~= done.push(item));
                    match tokens_from(src@, lexer.position()) {
                        Ok(rest) => {
                            assert(done + (seq![item] + rest) =~= done.push(item) + rest);
                        },
                        Err(_) => {},
                    }
                    done = done.push(item);
                }
            },
        }
    }
}

} // verus!
