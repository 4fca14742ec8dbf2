use depict_core::eval::eval;
use depict_core::ident::Ident;
use depict_core::scope::{copy_path, index, resolve, ScopeMap};
use depict_core::syntax::parse_program;
use depict_core::val::{Body, Val};

fn id(name: &str) -> Ident {
    Ident::new(name)
}

fn path(names: &[&str]) -> Vec<Ident> {
    names.iter().map(|n| Ident::new(n)).collect()
}

fn reference(name: &str) -> Val {
    Val::Atom(Ident::new(name))
}

fn process(name: &str, body: Vec<Val>) -> Val {
    Val::Process { name: Some(id(name)), label: None, body: Some(Body::All(body)) }
}

fn root(body: Vec<Val>) -> Val {
    Val::Process { name: None, label: None, body: Some(Body::All(body)) }
}

fn term(text: &str) -> Val {
    eval(&parse_program(text.as_bytes()).unwrap())
}

fn indexed(v: &Val) -> ScopeMap {
    let mut scopes = ScopeMap::new();
    index(v, &Vec::new(), &mut scopes);
    scopes
}

const NESTED: &str = "A [ B [ x [ ] C [ x ] ] D [ x ] ]";

#[test]
fn the_index_holds_the_names_of_each_scope() {
    let scopes = indexed(&term(NESTED));
    assert!(scopes.declares(&path(&[]), &id("A")));
    assert!(scopes.declares(&path(&["A"]), &id("B")));
    assert!(scopes.declares(&path(&["A"]), &id("D")));
    assert!(scopes.declares(&path(&["A", "B"]), &id("x")));
    assert!(scopes.declares(&path(&["A", "B"]), &id("C")));
    assert!(!scopes.declares(&path(&[]), &id("B")));
    assert!(!scopes.declares(&path(&[]), &id("x")));
    assert!(!scopes.declares(&path(&["A"]), &id("x")));
    assert!(!scopes.declares(&path(&["A", "D"]), &id("x")));
    assert!(!scopes.declares(&path(&["A", "B", "C"]), &id("x")));
    assert!(!scopes.declares(&path(&["A", "B"]), &id("A")));
}

#[test]
fn an_inner_scope_sees_an_outer_name() {
    let scopes = indexed(&term(NESTED));
    let found = scopes.lookup(&path(&["A", "B", "C"]), &id("x"));
    assert_eq!(found, Some(&process("x", vec![])));
    let at_home = scopes.lookup(&path(&["A", "B"]), &id("x"));
    assert_eq!(at_home, Some(&process("x", vec![])));
}

#[test]
fn a_sibling_scope_does_not_see_the_name() {
    let scopes = indexed(&term(NESTED));
    assert_eq!(scopes.lookup(&path(&["A", "D"]), &id("x")), None);
    assert_eq!(scopes.lookup(&path(&["A"]), &id("x")), None);
    assert_eq!(scopes.lookup(&path(&[]), &id("x")), None);
}

#[test]
fn resolution_replaces_the_inner_reference_and_leaves_the_sibling() {
    let v = term(NESTED);
    let scopes = indexed(&v);
    let resolved = resolve(&v, &Vec::new(), &scopes);
    assert_eq!(
        resolved,
        root(vec![process(
            "A",
            vec![
                process("B", vec![process("x", vec![]), process("C", vec![process("x", vec![])])]),
                process("D", vec![reference("x")]),
            ]
        )])
    );
}

#[test]
fn the_innermost_declaration_wins() {
    let v = term("x [ outer ]\nS [ x [ inner ] T [ x ] ]\nU [ x ]");
    let scopes = indexed(&v);
    assert_eq!(
        scopes.lookup(&path(&["S", "T"]), &id("x")),
        Some(&process("x", vec![reference("inner")]))
    );
    assert_eq!(
        scopes.lookup(&path(&["U"]), &id("x")),
        Some(&process("x", vec![reference("outer")]))
    );
    let resolved = resolve(&v, &Vec::new(), &scopes);
    assert_eq!(
        resolved,
        root(vec![
            process("x", vec![reference("outer")]),
            process(
                "S",
                vec![
                    process("x", vec![reference("inner")]),
                    process("T", vec![process("x", vec![reference("inner")])]),
                ]
            ),
            process("U", vec![process("x", vec![reference("outer")])]),
        ])
    );
}

#[test]
fn resolution_does_not_depend_on_the_order_of_declaration() {
    let before = term("user [ lib ]\nlib [ ]");
    let after = term("lib [ ]\nuser [ lib ]");
    let resolved_before = resolve(&before, &Vec::new(), &indexed(&before));
    let resolved_after = resolve(&after, &Vec::new(), &indexed(&after));
    assert_eq!(
        resolved_before,
        root(vec![process("user", vec![process("lib", vec![])]), process("lib", vec![])])
    );
    assert_eq!(
        resolved_after,
        root(vec![process("lib", vec![]), process("user", vec![process("lib", vec![])])])
    );
}

#[test]
fn an_unresolved_reference_passes_through() {
    let v = term("a [ missing ]\n- p q\n");
    let scopes = indexed(&v);
    let resolved = resolve(&v, &Vec::new(), &scopes);
    assert_eq!(resolved, v);
}

#[test]
fn names_inside_an_anonymous_chain_belong_to_the_enclosing_scope() {
    let v = root(vec![Val::Chain { name: None, path: vec![process("p", vec![]), reference("p")] }]);
    let scopes = indexed(&v);
    assert!(scopes.declares(&path(&[]), &id("p")));
    let resolved = resolve(&v, &Vec::new(), &scopes);
    assert_eq!(
        resolved,
        root(vec![Val::Chain { name: None, path: vec![process("p", vec![]), process("p", vec![])] }])
    );
}

#[test]
fn a_named_chain_opens_a_scope() {
    let v = root(vec![
        Val::Chain { name: Some(id("c")), path: vec![process("p", vec![]), reference("p")] },
        reference("p"),
        reference("c"),
    ]);
    let scopes = indexed(&v);
    assert!(scopes.declares(&path(&[]), &id("c")));
    assert!(scopes.declares(&path(&["c"]), &id("p")));
    assert!(!scopes.declares(&path(&[]), &id("p")));
    let resolved = resolve(&v, &Vec::new(), &scopes);
    let the_chain = || Val::Chain {
        name: Some(id("c")),
        path: vec![process("p", vec![]), reference("p")],
    };
    assert_eq!(
        resolved,
        root(vec![
            Val::Chain { name: Some(id("c")), path: vec![process("p", vec![]), process("p", vec![])] },
            reference("p"),
            the_chain(),
        ])
    );
}

#[test]
fn a_later_declaration_of_a_name_replaces_an_earlier_one() {
    let v = term("n [ first ]\nn [ second ]\nuse [ n ]");
    let scopes = indexed(&v);
    assert_eq!(
        scopes.lookup(&path(&["use"]), &id("n")),
        Some(&process("n", vec![reference("second")]))
    );
}

#[test]
fn a_process_known_by_its_label_is_declared_under_it() {
    let labelled = Val::Process { name: None, label: Some(id("tag")), body: Some(Body::All(vec![process("in", vec![])])) };
    let v = root(vec![labelled, reference("tag")]);
    let scopes = indexed(&v);
    assert!(scopes.declares(&path(&[]), &id("tag")));
    assert!(scopes.declares(&path(&["tag"]), &id("in")));
}

#[test]
fn the_table_keeps_a_snapshot_of_the_path() {
    let mut scopes = ScopeMap::new();
    let mut at = path(&["a"]);
    scopes.declare(&at, &id("n"), &reference("v"));
    at.push(id("b"));
    assert!(scopes.declares(&path(&["a"]), &id("n")));
    assert!(!scopes.declares(&at, &id("n")));
    assert_eq!(scopes.lookup(&at, &id("n")), Some(&reference("v")));
    assert_eq!(scopes.lookup(&path(&[]), &id("n")), None);
    assert_eq!(copy_path(&at), at);
}

#[test]
fn an_empty_table_resolves_nothing() {
    let scopes = ScopeMap::new();
    assert_eq!(scopes.lookup(&path(&["a", "b"]), &id("n")), None);
    let v = term("a [ b ]");
    assert_eq!(resolve(&v, &Vec::new(), &scopes), v);
}

#[test]
fn an_empty_chain_resolves_to_itself() {
    let v = term("-");
    assert_eq!(resolve(&v, &Vec::new(), &indexed(&v)), v);
}
