use depict_core::fact::{Directive, Fact, Syn};
use depict_core::ident::Ident;
use depict_core::print::{print_tokens, program_to_tokens, serialize};
use depict_core::syntax::parse_program;
use depict_core::token::Token;

fn atom(name: &str) -> Fact {
    Fact::Atom(Ident::new(name))
}

fn fact(name: &str, body: Vec<Fact>) -> Fact {
    Fact::Fact(Ident::new(name), body)
}

fn sample() -> Vec<Syn> {
    vec![
        Syn::Fact(fact("k", vec![atom("-"), atom("s"), atom("b")])),
        Syn::Directive(Directive(Ident::new("draw"), vec![Ident::new("k"), Ident::new("s")])),
        Syn::Fact(atom("lonely")),
        Syn::Fact(fact("a", vec![fact("b", vec![]), fact("-", vec![atom("c"), atom("d")])])),
    ]
}

#[test]
fn a_program_is_written_one_line_per_unit() {
    assert_eq!(
        serialize(&sample()),
        b"k [ - s b ]\ndraw k s\nlonely\na [ b [ ] - [ c d ] ]\n".to_vec()
    );
}

#[test]
fn the_empty_program_is_written_as_the_empty_text() {
    assert_eq!(serialize(&vec![]), Vec::<u8>::new());
}

#[test]
fn a_written_program_is_read_back() {
    let program = sample();
    assert_eq!(parse_program(&serialize(&program)), Ok(program));
}

#[test]
fn parsing_then_writing_then_parsing_gives_the_same_program() {
    let texts: [&[u8]; 6] = [
        b"k [ - s b ]\n- c s\n",
        b"a b c\n\n  d [ e [ f ] ]  \ndraw x y",
        b"a - b - c",
        b"",
        b"-",
        b"p q [ r [ ] s ] t\ndraw\n",
    ];
    for text in texts {
        let program = parse_program(text).unwrap();
        let written = serialize(&program);
        assert_eq!(parse_program(&written), Ok(program));
    }
}

#[test]
fn the_placeholder_model_is_its_own_canonical_text_up_to_brackets() {
    let program = parse_program(b"k [ - s b ]\n- c s\n").unwrap();
    assert_eq!(serialize(&program), b"k [ - s b ]\n- [ c s ]\n".to_vec());
}

#[test]
fn the_tokens_of_a_program_spell_its_lines() {
    let program = vec![Syn::Fact(fact("a", vec![atom("-")]))];
    let tokens = program_to_tokens(&program);
    assert_eq!(
        tokens,
        vec![
            Token::Ident(Ident::new("a")),
            Token::Open,
            Token::Dash,
            Token::Close,
            Token::Newline,
        ]
    );
    assert_eq!(print_tokens(&tokens), b"a [ - ]\n".to_vec());
}

#[test]
fn tokens_of_one_line_stand_one_space_apart() {
    let tokens = vec![Token::Draw, Token::Ident(Ident::new("x")), Token::Newline, Token::Dash];
    assert_eq!(print_tokens(&tokens), b"draw x\n-".to_vec());
}
