use depict_core::ident::Ident;
use depict_core::lexer::{tokenize, Lexer};
use depict_core::token::{LexError, Span, Spanned, Token};

fn spanned(token: Token, start: usize, end: usize) -> Spanned {
    Spanned { token, span: Span { start, end } }
}

fn name(text: &str) -> Token {
    Token::Ident(Ident::new(text))
}

#[test]
fn tokens_carry_their_spans() {
    let tokens = tokenize(b"k [ - s b ]\n").unwrap();
    assert_eq!(
        tokens,
        vec![
            spanned(name("k"), 0, 1),
            spanned(Token::Open, 2, 3),
            spanned(Token::Dash, 4, 5),
            spanned(name("s"), 6, 7),
            spanned(name("b"), 8, 9),
            spanned(Token::Close, 10, 11),
            spanned(Token::Newline, 11, 12),
        ]
    );
}

#[test]
fn names_are_maximal_runs() {
    let tokens = tokenize(b"alpha_1[beta]").unwrap();
    assert_eq!(
        tokens,
        vec![
            spanned(name("alpha_1"), 0, 7),
            spanned(Token::Open, 7, 8),
            spanned(name("beta"), 8, 12),
            spanned(Token::Close, 12, 13),
        ]
    );
}

#[test]
fn draw_is_a_keyword_only_as_a_whole_word() {
    let tokens = tokenize(b"draw drawn Draw").unwrap();
    assert_eq!(
        tokens,
        vec![
            spanned(Token::Draw, 0, 4),
            spanned(name("drawn"), 5, 10),
            spanned(name("Draw"), 11, 15),
        ]
    );
}

#[test]
fn names_may_hold_bytes_beyond_ascii() {
    let tokens = tokenize("caf\u{e9} x".as_bytes()).unwrap();
    assert_eq!(tokens, vec![spanned(name("caf\u{e9}"), 0, 5), spanned(name("x"), 6, 7)]);
}

#[test]
fn blanks_are_skipped_and_line_feeds_are_tokens() {
    let tokens = tokenize(b" \t\r\n\x0b\x0c\n").unwrap();
    assert_eq!(tokens, vec![spanned(Token::Newline, 3, 4), spanned(Token::Newline, 6, 7)]);
}

#[test]
fn white_space_beyond_ascii_is_blank_too() {
    let text = "a\u{a0}b\u{2003}\u{3000}c\u{85}\u{1680}\u{2028}\u{205f}\u{202f}d";
    let tokens = tokenize(text.as_bytes()).unwrap();
    assert_eq!(
        tokens,
        vec![
            spanned(name("a"), 0, 1),
            spanned(name("b"), 3, 4),
            spanned(name("c"), 10, 11),
            spanned(name("d"), 25, 26),
        ]
    );
    assert_eq!(tokenize("\u{a0}\u{2009}\u{200a}\u{2000}".as_bytes()).unwrap(), vec![]);
}

#[test]
fn bytes_that_only_resemble_a_blank_stay_in_the_name() {
    let tokens = tokenize("a\u{a1}\u{200b}\u{e9}".as_bytes()).unwrap();
    assert_eq!(tokens, vec![spanned(name("a\u{a1}\u{200b}\u{e9}"), 0, 8)]);
    assert_eq!(tokenize(b"x\xc2").unwrap(), vec![spanned(Token::Ident(depict_core::ident::Ident(vec![120, 0xc2])), 0, 2)]);
}

#[test]
fn empty_text_has_no_tokens() {
    assert_eq!(tokenize(b"").unwrap(), vec![]);
    assert_eq!(tokenize(b"   ").unwrap(), vec![]);
}

#[test]
fn a_byte_that_begins_no_token_is_a_lex_error() {
    let err = tokenize(b"a ! b").unwrap_err();
    assert_eq!(err, LexError { span: Span { start: 2, end: 3 }, text: b"!".to_vec() });
}

#[test]
fn the_first_lex_error_is_reported() {
    let err = tokenize(b"a\n  @ # b").unwrap_err();
    assert_eq!(err, LexError { span: Span { start: 4, end: 5 }, text: b"@".to_vec() });
}

#[test]
fn the_lexer_reads_on_after_an_error() {
    let mut lexer = Lexer::new(b"a ! b");
    assert_eq!(lexer.next_token(), Some(Ok(name("a"))));
    assert_eq!(lexer.span(), Span { start: 0, end: 1 });
    assert_eq!(lexer.slice(), b"a".to_vec());
    assert_eq!(
        lexer.next_token(),
        Some(Err(LexError { span: Span { start: 2, end: 3 }, text: b"!".to_vec() }))
    );
    assert_eq!(lexer.span(), Span { start: 2, end: 3 });
    assert_eq!(lexer.slice(), b"!".to_vec());
    assert_eq!(lexer.next_token(), Some(Ok(name("b"))));
    assert_eq!(lexer.next_token(), None);
}

#[test]
fn at_the_end_the_span_still_names_the_last_token() {
    let mut lexer = Lexer::new(b"ab cd   ");
    assert_eq!(lexer.span(), Span { start: 0, end: 0 });
    assert_eq!(lexer.next_token(), Some(Ok(name("ab"))));
    assert_eq!(lexer.next_token(), Some(Ok(name("cd"))));
    assert_eq!(lexer.next_token(), None);
    assert_eq!(lexer.next_token(), None);
    assert_eq!(lexer.span(), Span { start: 3, end: 5 });
    assert_eq!(lexer.slice(), b"cd".to_vec());
}

#[test]
fn a_new_lexer_restarts_the_text() {
    let text = b"x - y";
    let mut first = Lexer::new(text);
    let mut second = Lexer::new(text);
    first.next_token();
    first.next_token();
    assert_eq!(second.next_token(), Some(Ok(name("x"))));
    assert_eq!(first.next_token(), Some(Ok(name("y"))));
}

#[test]
fn identifiers_compare_by_exact_text() {
    assert!(Ident::new("abc").same(&Ident::new("abc")));
    assert!(!Ident::new("abc").same(&Ident::new("Abc")));
    assert!(!Ident::new("abc").same(&Ident::new("ab")));
    assert!(!Ident::new("").same(&Ident::new("a")));
    assert_eq!(Ident::new("abc").duplicate(), Ident::new("abc"));
    assert_eq!(Ident::new("k").0, vec![107u8]);
    assert!(Ident::new("-").is_dash());
    assert!(!Ident::new("--").is_dash());
    assert!(!Ident::new("a").is_dash());
}
