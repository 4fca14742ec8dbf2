use depict_core::eval::eval;
use depict_core::highlight::{is_blank, parse_highlights, resolve_query, resolve_text};
use depict_core::ident::Ident;
use depict_core::model::{Draw, Drawing, Item, Path, Process};
use depict_core::shell::{highlight_rules, AppProps, EditCycle, Highlight, Step};
use depict_core::syntax::parse_program;
use depict_core::token::{Error, LexError, ParseError, Span};
use depict_core::val::{Body, Val};

fn id(name: &str) -> Ident {
    Ident::new(name)
}

fn reference(name: &str) -> Val {
    Val::Atom(Ident::new(name))
}

fn process(name: &str, body: Vec<Val>) -> Val {
    Val::Process { name: Some(id(name)), label: None, body: Some(Body::All(body)) }
}

fn root(body: Vec<Val>) -> Val {
    Val::Process { name: None, label: None, body: Some(Body::All(body)) }
}

fn term(text: &str) -> Val {
    eval(&parse_program(text.as_bytes()).unwrap())
}

#[test]
fn a_blank_highlight_text_gives_the_default_term() {
    assert_eq!(parse_highlights(""), Ok(Val::default()));
    assert_eq!(parse_highlights("   "), Ok(Val::default()));
    assert_eq!(parse_highlights(" \n\t \r\n"), Ok(Val::default()));
    assert_eq!(resolve_text(b""), Ok(Val::default()));
    assert_eq!(parse_highlights("\u{a0}"), Ok(Val::default()));
    assert_eq!(parse_highlights(" \u{2003}\u{3000}\n\u{85}"), Ok(Val::default()));
}

#[test]
fn blank_means_white_space_only() {
    assert!(is_blank(b""));
    assert!(is_blank(b" \t\n\r\x0b\x0c"));
    assert!(!is_blank(b"  a "));
    assert!(!is_blank(b"-"));
    let spaces = [
        '\u{9}', '\u{a}', '\u{b}', '\u{c}', '\u{d}', '\u{20}', '\u{85}', '\u{a0}', '\u{1680}',
        '\u{2000}', '\u{2001}', '\u{2002}', '\u{2003}', '\u{2004}', '\u{2005}', '\u{2006}',
        '\u{2007}', '\u{2008}', '\u{2009}', '\u{200a}', '\u{2028}', '\u{2029}', '\u{202f}',
        '\u{205f}', '\u{3000}',
    ];
    for c in spaces {
        assert!(c.is_whitespace());
        assert!(is_blank(format!("{c}").as_bytes()));
        assert!(is_blank(format!(" {c}\n{c}").as_bytes()));
        assert!(!is_blank(format!("{c}x").as_bytes()));
    }
    for c in ['\u{200b}', '\u{a1}', '\u{84}', '\u{2060}', '\u{feff}', '\u{180e}', '\u{200c}'] {
        assert!(!c.is_whitespace());
        assert!(!is_blank(format!("{c}").as_bytes()));
    }
    assert!(!is_blank(b"\xc2"));
    assert!(!is_blank(b" \xe2\x80"));
}

#[test]
fn blank_agrees_with_trimming_on_every_short_text_of_these_characters() {
    let alphabet = ['a', ' ', '\n', '\u{a0}', '\u{2003}', '\u{200b}', '\u{3000}', '-'];
    for x in alphabet {
        for y in alphabet {
            for z in alphabet {
                let text = format!("{x}{y}{z}");
                assert_eq!(is_blank(text.as_bytes()), text.trim().is_empty());
            }
        }
    }
}

#[test]
fn a_highlight_text_is_resolved_against_itself() {
    assert_eq!(
        parse_highlights("a [ ]\nb [ a ]\nc"),
        Ok(root(vec![
            process("a", vec![]),
            process("b", vec![process("a", vec![])]),
            reference("c"),
        ]))
    );
}

#[test]
fn the_placeholder_model_resolves_without_error() {
    let v = parse_highlights("k [ - s b ]\n- c s\n").unwrap();
    assert_eq!(
        v,
        root(vec![
            Val::Chain { name: None, path: vec![reference("k"), reference("s"), reference("b")] },
            Val::Chain { name: None, path: vec![reference("c"), reference("s")] },
        ])
    );
}

#[test]
fn a_malformed_highlight_text_is_an_error() {
    assert_eq!(
        parse_highlights("k [ - s"),
        Err(Error::Parse(ParseError { span: Span { start: 6, end: 7 }, text: b"s".to_vec() }))
    );
    assert_eq!(
        parse_highlights("k ; s"),
        Err(Error::Lex(LexError { span: Span { start: 2, end: 3 }, text: b";".to_vec() }))
    );
}

#[test]
fn a_query_that_names_a_process_of_the_model_is_bound_to_it() {
    let model = term("pname [ inner ]\nq [ ]");
    let query = term("pname");
    let resolved = resolve_query(&model, &query);
    assert_eq!(resolved, root(vec![process("pname", vec![reference("inner")])]));
    assert_eq!(highlight_rules(&resolved), vec![Highlight::Box(id("pname"))]);
}

#[test]
fn a_query_that_names_nothing_in_the_model_stays_unresolved() {
    let model = term("pname [ inner ]\nq [ ]");
    let query = term("absent");
    let resolved = resolve_query(&model, &query);
    assert_eq!(resolved, root(vec![reference("absent")]));
    assert_eq!(highlight_rules(&resolved), vec![]);
}

#[test]
fn a_query_sees_only_the_scopes_on_its_own_path() {
    let model = term("outer [ hidden [ ] ]\nshown [ ]");
    let query = term("hidden\nshown\nouter [ hidden ]");
    let resolved = resolve_query(&model, &query);
    assert_eq!(
        resolved,
        root(vec![
            reference("hidden"),
            process("shown", vec![]),
            process("outer", vec![process("hidden", vec![])]),
        ])
    );
}

#[test]
fn the_members_of_the_root_ask_for_boxes_arrows_and_edges() {
    let labelled = |l: &str| Val::Process { name: None, label: Some(id(l)), body: None };
    let v = root(vec![
        process("p", vec![process("inside", vec![])]),
        labelled("tag"),
        Val::Process { name: Some(id("n")), label: Some(id("l")), body: None },
        Val::Process { name: None, label: None, body: None },
        reference("unresolved"),
        Val::Chain { name: Some(id("c")), path: vec![process("a", vec![]), process("b", vec![])] },
        Val::Chain {
            name: None,
            path: vec![
                process("a", vec![]),
                labelled("b"),
                reference("r"),
                process("d", vec![]),
                process("e", vec![]),
            ],
        },
        Val::Chain { name: None, path: vec![process("alone", vec![])] },
        Val::Chain { name: None, path: vec![] },
    ]);
    assert_eq!(
        highlight_rules(&v),
        vec![
            Highlight::Box(id("p")),
            Highlight::Box(id("tag")),
            Highlight::Box(id("n")),
            Highlight::Arrow(id("c")),
            Highlight::Edge(id("a"), id("b")),
            Highlight::Edge(id("d"), id("e")),
        ]
    );
}

#[test]
fn a_root_without_a_body_asks_for_nothing() {
    assert_eq!(highlight_rules(&Val::default()), vec![]);
    assert_eq!(highlight_rules(&reference("a")), vec![]);
    assert_eq!(
        highlight_rules(&Val::Chain { name: Some(id("c")), path: vec![process("a", vec![])] }),
        vec![]
    );
}

#[test]
fn an_edit_that_repeats_the_drawn_text_is_skipped() {
    let mut cycle = EditCycle::new();
    assert_eq!(cycle.on_edit(b"a b"), Step::Draw);
    cycle.finished(b"a b", true);
    assert_eq!(cycle.on_edit(b"a b"), Step::Skip);
    assert_eq!(cycle.on_edit(b"a b "), Step::Draw);
}

#[test]
fn a_failed_text_is_tried_again() {
    let mut cycle = EditCycle::new();
    cycle.finished(b"good", true);
    assert_eq!(cycle.on_edit(b"bad ["), Step::Draw);
    cycle.finished(b"bad [", false);
    assert_eq!(cycle.on_edit(b"bad ["), Step::Draw);
    assert_eq!(cycle.on_edit(b"good"), Step::Skip);
}

#[test]
fn a_query_that_declares_a_process_is_emphasised_under_its_own_name() {
    let model = term("");
    let query = term("p [ ]\nq");
    let resolved = resolve_query(&model, &query);
    assert_eq!(resolved, root(vec![process("p", vec![]), reference("q")]));
    assert_eq!(highlight_rules(&resolved), vec![Highlight::Box(id("p"))]);
}

#[test]
fn a_reference_deep_in_the_query_is_bound_too() {
    let model = term("a [ b [ ] c [ ] ]");
    let query = term("a [ c [ b zzz ] ]");
    let resolved = resolve_query(&model, &query);
    assert_eq!(
        resolved,
        root(vec![process("a", vec![process("c", vec![process("b", vec![]), reference("zzz")])])])
    );
}

#[test]
fn a_text_of_one_no_break_space_clears_the_drawing() {
    let mut cycle = EditCycle::new();
    assert_eq!(cycle.on_edit("\u{a0}".as_bytes()), Step::Clear);
    cycle.finished("\u{a0}".as_bytes(), true);
    assert_eq!(cycle.on_edit("\u{a0}".as_bytes()), Step::Skip);
    assert_eq!(cycle.on_edit("\u{2003}\n".as_bytes()), Step::Clear);
}

#[test]
fn a_blank_text_clears_without_drawing() {
    let mut cycle = EditCycle::new();
    assert_eq!(cycle.on_edit(b""), Step::Clear);
    assert_eq!(cycle.on_edit(b" \n "), Step::Clear);
    cycle.finished(b" \n ", true);
    assert_eq!(cycle.on_edit(b" \n "), Step::Skip);
    assert_eq!(cycle.on_edit(b""), Step::Clear);
}

#[test]
fn the_items_of_a_diagram_hold_their_parts() {
    let path = Path { name: "p", action: "push", percept: "moved" };
    let process = Process { name: "person", controls: vec![path], senses: vec![] };
    assert_eq!(process.controls[0].action, "push");
    let items = vec![
        Item::Process(process),
        Item::Path(Path { name: "q", action: "a", percept: "b" }),
        Item::Draw(Draw { name: "d" }),
        Item::Drawing(Drawing { names: vec!["person", "lever"] }),
    ];
    match &items[3] {
        Item::Drawing(d) => assert_eq!(d.names, vec!["person", "lever"]),
        _ => unreachable!(),
    }
    let _props = AppProps {};
}
