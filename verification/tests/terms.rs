use depict_core::eval::{eval, eval_fact, eval_text};
use depict_core::fact::Fact;
use depict_core::ident::Ident;
use depict_core::syntax::parse_program;
use depict_core::token::{Error, ParseError, Span};
use depict_core::val::{Body, Val};

fn id(name: &str) -> Option<Ident> {
    Some(Ident::new(name))
}

fn reference(name: &str) -> Val {
    Val::Atom(Ident::new(name))
}

fn process(name: &str, body: Vec<Val>) -> Val {
    Val::Process { name: id(name), label: None, body: Some(Body::All(body)) }
}

fn chain(path: Vec<Val>) -> Val {
    Val::Chain { name: None, path }
}

fn root(body: Vec<Val>) -> Val {
    Val::Process { name: None, label: None, body: Some(Body::All(body)) }
}

fn term(text: &str) -> Val {
    eval(&parse_program(text.as_bytes()).unwrap())
}

#[test]
fn the_placeholder_model_evaluates_to_two_chains() {
    assert_eq!(
        term("k [ - s b ]\n- c s\n"),
        root(vec![
            chain(vec![reference("k"), reference("s"), reference("b")]),
            chain(vec![reference("c"), reference("s")]),
        ])
    );
}

#[test]
fn dashes_between_names_link_them_into_a_chain() {
    assert_eq!(
        term("a - b - c"),
        root(vec![chain(vec![reference("a"), reference("b"), reference("c")])])
    );
}

#[test]
fn a_bracketed_body_becomes_the_body_of_a_process() {
    assert_eq!(
        term("p [ q r [ s ] ]"),
        root(vec![process("p", vec![reference("q"), process("r", vec![reference("s")])])])
    );
}

#[test]
fn a_process_may_hold_chains() {
    assert_eq!(
        term("p [ - [ a b ] c - d ]"),
        root(vec![chain(vec![
            reference("p"),
            chain(vec![reference("a"), reference("b")]),
            reference("c"),
            reference("d"),
        ])])
    );
    assert_eq!(
        term("p [ - [ a b ] c ]"),
        root(vec![process("p", vec![chain(vec![reference("a"), reference("b")]), reference("c")])])
    );
}

#[test]
fn a_lone_dash_is_the_empty_chain() {
    assert_eq!(term("-"), root(vec![chain(vec![])]));
    assert_eq!(eval_fact(&Fact::Atom(Ident::new("-"))), chain(vec![]));
}

#[test]
fn an_empty_bracket_is_a_process_with_an_empty_body() {
    assert_eq!(term("p [ ]"), root(vec![process("p", vec![])]));
}

#[test]
fn empty_input_evaluates_to_the_default_term() {
    assert_eq!(term(""), Val::default());
    assert_eq!(term("  \n\n "), Val::default());
    assert_eq!(Val::default(), Val::Process { name: None, label: None, body: None });
    assert_eq!(eval(&Vec::new()), Val::default());
}

#[test]
fn directives_spell_no_term() {
    assert_eq!(term("draw a b"), Val::default());
    assert_eq!(term("draw a\nx\n"), root(vec![reference("x")]));
}

#[test]
fn evaluation_is_deterministic() {
    let program = parse_program(b"a [ b - c ]\nd e\n- f\n").unwrap();
    assert_eq!(eval(&program), eval(&program));
}

#[test]
fn a_copy_of_a_term_equals_it() {
    let v = term("a [ b [ c ] - d e ]\nf - g\n");
    assert_eq!(v.duplicate(), v);
}

#[test]
fn a_term_is_known_by_its_name_or_else_its_label() {
    let named = Val::process(id("n"), id("l"), None);
    let labelled = Val::process(None, id("l"), Some(vec![]));
    let anonymous = Val::process(None, None, None);
    assert_eq!(named.key(), Some(&Ident::new("n")));
    assert_eq!(labelled.key(), Some(&Ident::new("l")));
    assert_eq!(anonymous.key(), None);
    assert_eq!(Val::chain(id("c"), vec![]).key(), Some(&Ident::new("c")));
    assert_eq!(Val::chain(None, vec![named]).key(), None);
    assert_eq!(Val::atom(Ident::new("a")).key(), None);
}

#[test]
fn constructors_build_the_variants() {
    assert_eq!(Val::atom(Ident::new("a")), reference("a"));
    assert_eq!(Val::process(id("p"), None, Some(vec![reference("a")])), process("p", vec![reference("a")]));
    assert_eq!(Val::chain(None, vec![reference("a")]), chain(vec![reference("a")]));
    assert_eq!(Val::process(None, None, None), Val::default());
}

#[test]
fn a_text_is_read_and_evaluated_in_one_go() {
    assert_eq!(eval_text(b"a - b"), Ok(root(vec![chain(vec![reference("a"), reference("b")])])));
    assert_eq!(eval_text(b" \n "), Ok(Val::default()));
    assert_eq!(
        eval_text(b"a [ b"),
        Err(Error::Parse(ParseError { span: Span { start: 4, end: 5 }, text: b"b".to_vec() }))
    );
}
