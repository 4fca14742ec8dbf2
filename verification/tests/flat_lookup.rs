use depict_core::fact::{Directive, Fact, Syn};
use depict_core::flat::{facts, filter_fact, render, resolve};
use depict_core::ident::Ident;
use depict_core::syntax::parse_program;

fn atom(name: &str) -> Fact {
    Fact::Atom(Ident::new(name))
}

fn fact(name: &str, body: Vec<Fact>) -> Fact {
    Fact::Fact(Ident::new(name), body)
}

#[test]
fn filter_fact_concatenates_bodies_in_store_order() {
    let program = parse_program(b"a [ x y ]\nb [ z ]\na [ w ]\na\n").unwrap();
    let store = facts(&program);
    let found = filter_fact(&store, &Ident::new("a"));
    assert_eq!(found, vec![&atom("x"), &atom("y"), &atom("w")]);
}

#[test]
fn filter_fact_without_a_match_is_empty() {
    let program = parse_program(b"a [ x y ]\nb [ z ]\n").unwrap();
    let store = facts(&program);
    assert_eq!(filter_fact(&store, &Ident::new("c")), Vec::<&Fact>::new());
    assert_eq!(filter_fact(&store, &Ident::new("x")), Vec::<&Fact>::new());
    assert_eq!(filter_fact(&Vec::new(), &Ident::new("a")), Vec::<&Fact>::new());
}

#[test]
fn an_atom_of_the_store_answers_no_lookup() {
    let program = parse_program(b"a\na [ ]\n").unwrap();
    let store = facts(&program);
    assert_eq!(store.len(), 2);
    assert_eq!(filter_fact(&store, &Ident::new("a")), Vec::<&Fact>::new());
}

#[test]
fn a_nested_fact_answers_like_a_top_level_one() {
    let program = parse_program(b"p [ n [ x ] ]\n").unwrap();
    let store = facts(&program);
    assert_eq!(filter_fact(&store, &Ident::new("n")), vec![&atom("x")]);
}

#[test]
fn a_fact_comes_before_the_facts_inside_it() {
    let program = parse_program(b"n [ a n [ b n [ c ] ] d ]\nq [ n [ e ] ]\nn [ f ]\n").unwrap();
    let store = facts(&program);
    let found = filter_fact(&store, &Ident::new("n"));
    assert_eq!(
        found,
        vec![
            &atom("a"),
            &fact("n", vec![atom("b"), fact("n", vec![atom("c")])]),
            &atom("d"),
            &atom("b"),
            &fact("n", vec![atom("c")]),
            &atom("c"),
            &atom("e"),
            &atom("f"),
        ]
    );
}

#[test]
fn lookup_descends_to_every_depth() {
    let program = parse_program(b"outer [ inner [ x ] ]\n").unwrap();
    let store = facts(&program);
    assert_eq!(filter_fact(&store, &Ident::new("inner")), vec![&atom("x")]);
    let nested = filter_fact(&store, &Ident::new("outer"));
    assert_eq!(nested, vec![&fact("inner", vec![atom("x")])]);
    assert_eq!(filter_fact(&nested, &Ident::new("inner")), vec![&atom("x")]);
    assert_eq!(filter_fact(&store, &Ident::new("x")), Vec::<&Fact>::new());
}

#[test]
fn resolve_looks_an_atom_up_by_name() {
    let program = parse_program(b"a [ x ]\nb [ y ]\na [ z ]\n").unwrap();
    let store = facts(&program);
    let query = atom("a");
    assert_eq!(resolve(&store, &query), vec![&atom("x"), &atom("z")]);
}

#[test]
fn resolve_unwraps_a_fact_without_lookup() {
    let program = parse_program(b"a [ x ]\n").unwrap();
    let store = facts(&program);
    let inline = fact("a", vec![atom("p"), atom("q")]);
    assert_eq!(resolve(&store, &inline), vec![&atom("p"), &atom("q")]);
    let empty = fact("a", vec![]);
    assert_eq!(resolve(&store, &empty), Vec::<&Fact>::new());
}

#[test]
fn the_namespace_is_flat_and_nothing_shadows() {
    let program = parse_program(b"n [ first ]\nbox [ n [ hidden ] ]\nn [ second ]\n").unwrap();
    let store = facts(&program);
    let query = atom("n");
    assert_eq!(resolve(&store, &query), vec![&atom("first"), &atom("hidden"), &atom("second")]);
    let inside = filter_fact(&store, &Ident::new("box"));
    assert_eq!(resolve(&inside, &query), vec![&atom("hidden")]);
}

#[test]
fn resolving_twice_gives_the_same_output() {
    let program = parse_program(b"a [ x y ]\nb [ a ]\na [ z ]\n").unwrap();
    let store = facts(&program);
    let query = atom("a");
    let first = resolve(&store, &query);
    let second = resolve(&store, &query);
    assert_eq!(first, second);
    assert_eq!(first, vec![&atom("x"), &atom("y"), &atom("z")]);
}

#[test]
fn directives_are_no_facts() {
    let program = parse_program(b"draw a\na [ x ]\n").unwrap();
    let store = facts(&program);
    assert_eq!(store, vec![&fact("a", vec![atom("x")])]);
    assert_eq!(filter_fact(&store, &Ident::new("draw")), Vec::<&Fact>::new());
}

#[test]
fn render_finds_the_names_of_the_items_to_draw() {
    let program = vec![
        Syn::Fact(fact("draw", vec![atom("d1")])),
        Syn::Fact(fact(
            "d1",
            vec![fact("compact", vec![atom("a"), atom("b"), atom("c")]), fact("wide", vec![atom("a")])],
        )),
        Syn::Fact(fact("a", vec![fact("name", vec![atom("Alice")])])),
        Syn::Fact(fact(
            "b",
            vec![fact("name", vec![atom("Bob")]), fact("age", vec![atom("x")])],
        )),
    ];
    let drawings = render(&program);
    assert_eq!(
        drawings,
        vec![vec![vec![&atom("Alice")], vec![&atom("Bob")], Vec::<&Fact>::new()]]
    );
}

#[test]
fn render_reads_the_draw_directives_of_a_text() {
    let program = parse_program(
        b"draw d1 d2\nd1 [ compact [ a b ] ]\na [ name [ Alice ] ]\nb [ name [ Bob ] ]\nd2 [ compact [ b ] other [ a ] ]\n",
    )
    .unwrap();
    assert_eq!(
        render(&program),
        vec![vec![vec![&atom("Alice")], vec![&atom("Bob")]], vec![vec![&atom("Bob")]]]
    );
}

#[test]
fn render_takes_directives_and_facts_in_the_order_of_the_program() {
    let program = vec![
        Syn::Directive(Directive(Ident::new("draw"), vec![Ident::new("d")])),
        Syn::Fact(fact("box", vec![fact("draw", vec![atom("e")])])),
        Syn::Directive(Directive(Ident::new("show"), vec![Ident::new("d")])),
        Syn::Fact(fact("d", vec![fact("compact", vec![atom("x")])])),
        Syn::Fact(fact("e", vec![fact("compact", vec![atom("y"), atom("x")])])),
        Syn::Fact(fact("x", vec![fact("name", vec![atom("X")])])),
        Syn::Fact(fact("y", vec![fact("name", vec![atom("Y")])])),
    ];
    assert_eq!(
        render(&program),
        vec![vec![vec![&atom("X")]], vec![vec![&atom("Y")], vec![&atom("X")]]]
    );
}

#[test]
fn render_takes_inline_drawings_as_they_stand() {
    let program = vec![
        Syn::Fact(fact(
            "draw",
            vec![fact("inline", vec![fact("compact", vec![fact("x", vec![fact("name", vec![atom("X")])])])]), atom("nothing")],
        )),
    ];
    let drawings = render(&program);
    assert_eq!(drawings, vec![vec![vec![&atom("X")]], vec![]]);
}

#[test]
fn render_of_a_program_that_asks_for_no_drawing_is_empty() {
    let program = parse_program(b"k [ - s b ]\n- c s\n").unwrap();
    assert_eq!(render(&program), Vec::<Vec<Vec<&Fact>>>::new());
    let empty = parse_program(b"draw\n").unwrap();
    assert_eq!(render(&empty), Vec::<Vec<Vec<&Fact>>>::new());
}
