use depict_core::fact::{Directive, Fact, Syn};
use depict_core::ident::Ident;
use depict_core::parser::{Parser, Rejected};
use depict_core::syntax::{parse_program, place_of, Place};
use depict_core::token::{Error, LexError, ParseError, Span, Token};

fn atom(name: &str) -> Fact {
    Fact::Atom(Ident::new(name))
}

fn fact(name: &str, body: Vec<Fact>) -> Fact {
    Fact::Fact(Ident::new(name), body)
}

fn word(name: &str) -> Token {
    Token::Ident(Ident::new(name))
}

fn parse_error(start: usize, end: usize, text: &str) -> Error {
    Error::Parse(ParseError { span: Span { start, end }, text: text.as_bytes().to_vec() })
}

#[test]
fn placeholder_model_parses() {
    let program = parse_program("k [ - s b ]\n- c s\n".as_bytes()).unwrap();
    assert!(!program.is_empty());
    assert_eq!(
        program,
        vec![
            Syn::Fact(fact("k", vec![atom("-"), atom("s"), atom("b")])),
            Syn::Fact(fact("-", vec![atom("c"), atom("s")])),
        ]
    );
}

#[test]
fn unterminated_bracket_is_a_parse_error() {
    match parse_program("k [ - s".as_bytes()) {
        Err(Error::Parse(e)) => {
            assert!(e.span.start >= 2);
            assert_eq!(e.span, Span { start: 6, end: 7 });
            assert_eq!(e.text, b"s".to_vec());
        }
        other => panic!("expected a parse error, got {:?}", other),
    }
}

#[test]
fn empty_and_blank_texts_parse_to_the_empty_program() {
    assert_eq!(parse_program(b""), Ok(vec![]));
    assert_eq!(parse_program(b"   "), Ok(vec![]));
    assert_eq!(parse_program(b" \n\t\r\n  \n"), Ok(vec![]));
}

#[test]
fn a_text_of_any_white_space_parses_to_the_empty_program() {
    assert_eq!(parse_program("\u{a0}".as_bytes()), Ok(vec![]));
    assert_eq!(parse_program(" \u{2003}\n\u{3000}\u{85}\t".as_bytes()), Ok(vec![]));
}

#[test]
fn an_error_is_placed_by_line_and_column() {
    let text = b"ab\ncd ]\n";
    assert_eq!(place_of(text, 0), Place { line: 0, column: 0 });
    assert_eq!(place_of(text, 2), Place { line: 0, column: 2 });
    assert_eq!(place_of(text, 3), Place { line: 1, column: 0 });
    assert_eq!(place_of(text, 6), Place { line: 1, column: 3 });
    assert_eq!(place_of(text, 8), Place { line: 2, column: 0 });
    assert_eq!(place_of(text, 9), Place { line: 0, column: 0 });
    assert_eq!(parse_program(text), Err(parse_error(6, 7, "]")));
}

#[test]
fn a_single_name_is_an_atom() {
    assert_eq!(parse_program(b"a"), Ok(vec![Syn::Fact(atom("a"))]));
    assert_eq!(parse_program(b"-\n"), Ok(vec![Syn::Fact(atom("-"))]));
}

#[test]
fn a_name_with_one_child_is_a_fact() {
    assert_eq!(parse_program(b"a b"), Ok(vec![Syn::Fact(fact("a", vec![atom("b")]))]));
}

#[test]
fn a_bracketed_body_and_an_unbracketed_one_spell_the_same_fact() {
    let bracketed = parse_program(b"a [ b c ]").unwrap();
    let open = parse_program(b"a b c").unwrap();
    assert_eq!(bracketed, vec![Syn::Fact(fact("a", vec![atom("b"), atom("c")]))]);
    assert_eq!(bracketed, open);
}

#[test]
fn an_empty_bracket_is_an_empty_body() {
    assert_eq!(parse_program(b"a [ ]"), Ok(vec![Syn::Fact(fact("a", vec![]))]));
}

#[test]
fn brackets_nest() {
    assert_eq!(
        parse_program(b"a [ b [ c d ] e [ ] ]\n"),
        Ok(vec![Syn::Fact(fact(
            "a",
            vec![fact("b", vec![atom("c"), atom("d")]), fact("e", vec![])]
        ))])
    );
}

#[test]
fn a_bracket_may_follow_a_later_item_of_a_line() {
    assert_eq!(
        parse_program(b"a b [ c ] d"),
        Ok(vec![Syn::Fact(fact("a", vec![fact("b", vec![atom("c")]), atom("d")]))])
    );
}

#[test]
fn lines_keep_their_order_and_blank_lines_vanish() {
    assert_eq!(
        parse_program(b"\n\nb\n\n\na x\n"),
        Ok(vec![Syn::Fact(atom("b")), Syn::Fact(fact("a", vec![atom("x")]))])
    );
}

#[test]
fn indentation_is_not_significant() {
    assert_eq!(parse_program(b"   a   b  "), parse_program(b"a b"));
}

#[test]
fn a_directive_is_a_keyword_followed_by_names() {
    assert_eq!(
        parse_program(b"draw a b\nc\ndraw"),
        Ok(vec![
            Syn::Directive(Directive(Ident::new("draw"), vec![Ident::new("a"), Ident::new("b")])),
            Syn::Fact(atom("c")),
            Syn::Directive(Directive(Ident::new("draw"), vec![])),
        ])
    );
}

#[test]
fn a_directive_takes_nothing_but_names() {
    assert_eq!(parse_program(b"draw -"), Err(parse_error(5, 6, "-")));
    assert_eq!(parse_program(b"draw a [ b ]"), Err(parse_error(7, 8, "[")));
    assert_eq!(parse_program(b"draw draw"), Err(parse_error(5, 9, "draw")));
}

#[test]
fn the_keyword_stands_only_at_the_start_of_a_line() {
    assert_eq!(parse_program(b"a draw"), Err(parse_error(2, 6, "draw")));
    assert_eq!(parse_program(b"a [ draw ]"), Err(parse_error(4, 8, "draw")));
}

#[test]
fn nothing_follows_a_bracketed_fact_on_its_line() {
    assert_eq!(parse_program(b"a [ b ] c"), Err(parse_error(8, 9, "c")));
    assert_eq!(parse_program(b"a [ b ] [ c ]"), Err(parse_error(8, 9, "[")));
}

#[test]
fn a_bracket_needs_a_name_before_it() {
    assert_eq!(parse_program(b"[ a ]"), Err(parse_error(0, 1, "[")));
    assert_eq!(parse_program(b"a [ [ b ] ]"), Err(parse_error(4, 5, "[")));
}

#[test]
fn a_closing_bracket_needs_an_open_one() {
    assert_eq!(parse_program(b"a ] b"), Err(parse_error(2, 3, "]")));
}

#[test]
fn a_line_ends_no_bracket() {
    assert_eq!(parse_program(b"a [ b\n]"), Err(parse_error(5, 6, "\n")));
}

#[test]
fn a_lex_error_stops_the_parse() {
    assert_eq!(
        parse_program(b"a [ b ? ]"),
        Err(Error::Lex(LexError { span: Span { start: 6, end: 7 }, text: b"?".to_vec() }))
    );
}

#[test]
fn the_first_failure_in_reading_order_is_reported() {
    assert_eq!(parse_program(b"a ] ?"), Err(parse_error(2, 3, "]")));
    assert_eq!(
        parse_program(b"a ? ]"),
        Err(Error::Lex(LexError { span: Span { start: 2, end: 3 }, text: b"?".to_vec() }))
    );
}

#[test]
fn the_parser_takes_tokens_one_at_a_time() {
    let mut parser = Parser::new();
    assert_eq!(parser.parse(word("a")), Ok(()));
    assert_eq!(parser.parse(Token::Open), Ok(()));
    assert_eq!(parser.parse(word("b")), Ok(()));
    assert_eq!(parser.parse(Token::Close), Ok(()));
    assert_eq!(parser.parse(Token::Newline), Ok(()));
    assert_eq!(parser.parse(Token::Dash), Ok(()));
    assert_eq!(parser.parse(word("c")), Ok(()));
    assert_eq!(
        parser.end_of_input(),
        Ok(vec![
            Syn::Fact(fact("a", vec![atom("b")])),
            Syn::Fact(fact("-", vec![atom("c")])),
        ])
    );
}

#[test]
fn a_refused_token_leaves_the_parser_as_it_was() {
    let mut parser = Parser::new();
    assert_eq!(parser.parse(word("a")), Ok(()));
    assert_eq!(parser.parse(Token::Close), Err(Rejected));
    assert_eq!(parser.parse(Token::Draw), Err(Rejected));
    assert_eq!(parser.parse(Token::Open), Ok(()));
    assert_eq!(parser.parse(Token::Newline), Err(Rejected));
    assert_eq!(parser.parse(Token::Open), Err(Rejected));
    assert_eq!(parser.parse(Token::Close), Ok(()));
    assert_eq!(parser.parse(word("b")), Err(Rejected));
    assert_eq!(parser.end_of_input(), Ok(vec![Syn::Fact(fact("a", vec![]))]));
}

#[test]
fn the_end_of_input_inside_a_bracket_is_refused() {
    let mut parser = Parser::new();
    assert_eq!(parser.parse(word("a")), Ok(()));
    assert_eq!(parser.parse(Token::Open), Ok(()));
    assert_eq!(parser.end_of_input(), Err(Rejected));
}

#[test]
fn a_parser_without_tokens_yields_the_empty_program() {
    assert_eq!(Parser::new().end_of_input(), Ok(vec![]));
}
