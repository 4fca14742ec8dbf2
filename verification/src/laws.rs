//! Laws of lookup and resolution.

use vstd::prelude::*;
use crate::fact::{Fact, SynView};
use crate::flat::{refs_view, resolve_spec};
use crate::eval::{eval_spec, eval_text_spec};
use crate::highlight::{blank, blank_from, highlight_spec, resolve_query_spec};
use crate::lexer::{lemma_lexeme_bounds, lemma_skip_spaces, skip_spaces, space_len};
use crate::parser::{finish, initial, line_result, step};
use crate::scope::{
    declare_all, index_seq, index_spec, inner_path, lookup_from, lookup_spec, resolve_spec as resolve_term,
    Scopes,
};
use crate::syntax::{parse_from, parse_spec};
use crate::shell::member_rules;
use crate::token::{ErrorView, Span, TokenView};
use crate::val::{children_of, empty_process, key_of, ValView};

verus! {

/// Resolving the same fact twice in an unchanged store yields the same
/// output: whatever two calls of the flat resolver give back for one store
/// and one fact, the two results hold the same facts in the same order.
pub proof fn law_resolve_is_deterministic(
    store: Seq<&Fact>,
    fact: Fact,
    first: Seq<&Fact>,
    second: Seq<&Fact>,
)
    requires
        refs_view(first) == resolve_spec(refs_view(store), fact@),
        refs_view(second) == resolve_spec(refs_view(store), fact@),
    ensures
        first.len() == second.len(),
        forall|k: int| 0 <= k < first.len() ==> first[k]@ == second[k]@,
{
    assert(refs_view(first).len() == first.len());
    assert(refs_view(second).len() == second.len());
    assert forall|k: int| 0 <= k < first.len() implies first[k]@ == second[k]@ by {
        assert(refs_view(first)[k] == first[k]@);
        assert(refs_view(second)[k] == second[k]@);
    }
}

proof fn lemma_blank_after_skip(src: Seq<u8>, pos: int)
    requires
        0 <= pos <= src.len(),
        blank_from(src, pos),
    ensures
        blank_from(src, skip_spaces(src, pos)),
    decreases src.len() - pos,
{
    if space_len(src, pos) > 0 {
        assert(src[pos] != 10);
        lemma_blank_after_skip(src, pos + space_len(src, pos));
    }
}

/// A text that holds nothing but white space from `pos` on parses to the
/// empty program when reading starts there.
pub proof fn lemma_parse_blank(src: Seq<u8>, pos: int, last: Span)
    requires
        0 <= pos <= src.len(),
        blank_from(src, pos),
    ensures
        parse_from(src, pos, last, initial()) == Ok::<Seq<SynView>, ErrorView>(Seq::empty()),
    decreases src.len() - pos,
{
    lemma_skip_spaces(src, pos);
    lemma_lexeme_bounds(src, pos);
    lemma_blank_after_skip(src, pos);
    let p = skip_spaces(src, pos);
    assert(line_result(Seq::empty()) =~= Seq::<SynView>::empty());
    assert(Seq::<SynView>::empty() + Seq::<SynView>::empty() =~= Seq::<SynView>::empty());
    if p < src.len() {
        assert(src[p] == 10);
        let next = step(initial(), TokenView::Newline);
        assert(next == Some(initial()));
        lemma_parse_blank(src, p + 1, Span { start: p as usize, end: (p + 1) as usize });
    } else {
        assert(finish(initial()) == Some(Seq::<SynView>::empty()));
    }
}

/// Empty input is no error: a text that is empty or all white space parses to the
/// empty program, and as a highlight text it resolves to the anonymous
/// process without a body.
pub proof fn law_blank_text_is_empty(src: Seq<u8>)
    requires
        blank(src),
    ensures
        parse_spec(src) == Ok::<Seq<SynView>, ErrorView>(Seq::empty()),
        eval_text_spec(src) == Ok::<ValView, ErrorView>(empty_process()),
        highlight_spec(src) == Ok::<ValView, ErrorView>(empty_process()),
{
    lemma_parse_blank(src, 0, Span { start: 0, end: 0 });
    assert(eval_spec(Seq::empty()) == empty_process());
    assert(resolve_query_spec(empty_process(), empty_process()) == empty_process());
}

/// The nearest declaration is the deepest one on the way to the root: a
/// lookup that answers found the name in the scope of some prefix of the
/// path and in no deeper one; a lookup that does not answer found it in
/// none.
pub proof fn lemma_lookup_nearest(scopes: Scopes, path: Seq<Seq<u8>>, depth: nat, name: Seq<u8>)
    requires
        depth <= path.len(),
    ensures
        match lookup_from(scopes, path, depth, name) {
            Some(binding) => exists|d: int|
                0 <= d <= depth && #[trigger] scopes.contains_key((path.take(d), name))
                    && scopes[(path.take(d), name)] == binding && forall|e: int|
                    d < e <= depth ==> !#[trigger] scopes.contains_key((path.take(e), name)),
            None => forall|d: int|
                0 <= d <= depth ==> !#[trigger] scopes.contains_key((path.take(d), name)),
        },
    decreases depth,
{
    if scopes.contains_key((path.take(depth as int), name)) {
        assert(scopes.contains_key((path.take(depth as int), name)));
    } else if depth > 0 {
        lemma_lookup_nearest(scopes, path, (depth - 1) as nat, name);
        match lookup_from(scopes, path, (depth - 1) as nat, name) {
            Some(binding) => {
                let d = choose|d: int|
                    0 <= d <= depth - 1 && #[trigger] scopes.contains_key((path.take(d), name))
                        && scopes[(path.take(d), name)] == binding && forall|e: int|
                        d < e <= depth - 1 ==> !#[trigger] scopes.contains_key(
                            (path.take(e), name),
                        );
                assert(scopes.contains_key((path.take(d), name)));
                assert forall|e: int| d < e <= depth implies !#[trigger] scopes.contains_key(
                    (path.take(e), name),
                ) by {
                    if e <= depth - 1 {
                    }
                }
            },
            None => {},
        }
    }
}

/// Whether `outer` is the scope of `inner` or one that encloses it.
pub open spec fn encloses(outer: Seq<Seq<u8>>, inner: Seq<Seq<u8>>) -> bool {
    outer.len() <= inner.len() && inner.take(outer.len() as int) == outer
}

/// Lexical scoping without leaks. Let `name` be declared in the scope at
/// `home` and in no other. Then a reference to `name` resolves to that
/// declaration from `home` and from every scope inside it, and stays
/// unresolved from every other scope, a sibling scope among them.
pub proof fn law_visible_below_and_nowhere_else(
    scopes: Scopes,
    home: Seq<Seq<u8>>,
    path: Seq<Seq<u8>>,
    name: Seq<u8>,
)
    requires
        scopes.contains_key((home, name)),
        forall|p: Seq<Seq<u8>>| #[trigger] scopes.contains_key((p, name)) ==> p == home,
    ensures
        encloses(home, path) ==> lookup_spec(scopes, path, name) == Some(scopes[(home, name)])
            && resolve_term(ValView::Atom(name), path, scopes) == scopes[(home, name)],
        !encloses(home, path) ==> lookup_spec(scopes, path, name) is None && resolve_term(
            ValView::Atom(name),
            path,
            scopes,
        ) == ValView::Atom(name),
{
    lemma_lookup_nearest(scopes, path, path.len(), name);
    match lookup_spec(scopes, path, name) {
        Some(binding) => {
            let d = choose|d: int|
                0 <= d <= path.len() && #[trigger] scopes.contains_key((path.take(d), name))
                    && scopes[(path.take(d), name)] == binding;
            assert(path.take(d) == home);
            assert(encloses(home, path));
        },
        None => {
            if encloses(home, path) {
                assert(scopes.contains_key((path.take(home.len() as int), name)));
            }
        },
    }
}

/// The innermost declaration wins: where the scope at `path` itself
/// declares `name`, a reference from that scope resolves to it, whatever
/// the enclosing scopes declare.
pub proof fn law_innermost_wins(scopes: Scopes, path: Seq<Seq<u8>>, name: Seq<u8>)
    requires
        scopes.contains_key((path, name)),
    ensures
        lookup_spec(scopes, path, name) == Some(scopes[(path, name)]),
{
    assert(path.take(path.len() as int) =~= path);
}

/// Every entry of the table stands under the name by which its term is
/// known.
pub open spec fn keyed(scopes: Scopes) -> bool {
    forall|p: Seq<Seq<u8>>, n: Seq<u8>| #[trigger]
        scopes.contains_key((p, n)) ==> key_of(scopes[(p, n)]) == Some(n)
}

/// Every declaration of `before` is a declaration of `after`.
pub open spec fn grows(before: Scopes, after: Scopes) -> bool {
    forall|p: Seq<Seq<u8>>, n: Seq<u8>| #[trigger]
        before.contains_key((p, n)) ==> after.contains_key((p, n))
}

/// Whether some term inside `v`, at any depth, is known by `name`.
pub open spec fn declares(v: ValView, name: Seq<u8>) -> bool
    decreases v,
{
    match v {
        ValView::Atom(_) => false,
        ValView::Process { name: _, label: _, body } => match body {
            Some(children) => declares_among(children, children.len(), name),
            None => false,
        },
        ValView::Chain { name: _, path: children } => declares_among(
            children,
            children.len(),
            name,
        ),
    }
}

/// Whether one of the first `n` of `children`, or some term inside one of
/// them, is known by `name`.
pub open spec fn declares_among(children: Seq<ValView>, n: nat, name: Seq<u8>) -> bool
    decreases children, n,
{
    if n == 0 || n > children.len() {
        false
    } else {
        declares_among(children, (n - 1) as nat, name) || key_of(children[n - 1]) == Some(name)
            || declares(children[n - 1], name)
    }
}

proof fn lemma_declare_all(children: Seq<ValView>, n: nat, path: Seq<Seq<u8>>, scopes: Scopes)
    requires
        n <= children.len(),
    ensures
        grows(scopes, declare_all(children, n, path, scopes)),
        keyed(scopes) ==> keyed(declare_all(children, n, path, scopes)),
        forall|k: int|
            0 <= k < n && key_of(#[trigger] children[k]) is Some ==> declare_all(
                children,
                n,
                path,
                scopes,
            ).contains_key((path, key_of(children[k])->0)),
        forall|p: Seq<Seq<u8>>, m: Seq<u8>| #[trigger]
            declare_all(children, n, path, scopes).contains_key((p, m)) ==> scopes.contains_key(
                (p, m),
            ) || declares_among(children, n, m),
    decreases n,
{
    if n > 0 {
        let before = declare_all(children, (n - 1) as nat, path, scopes);
        let after = declare_all(children, n, path, scopes);
        lemma_declare_all(children, (n - 1) as nat, path, scopes);
        assert forall|p: Seq<Seq<u8>>, m: Seq<u8>| #[trigger]
            after.contains_key((p, m)) implies scopes.contains_key((p, m)) || declares_among(
            children,
            n,
            m,
        ) by {
            if before.contains_key((p, m)) {
            } else {
                assert(key_of(children[n - 1]) == Some(m));
            }
        }
        assert forall|k: int| 0 <= k < n && key_of(#[trigger] children[k]) is Some implies after.contains_key(
            (path, key_of(children[k])->0),
        ) by {
            if k < n - 1 {
                assert(before.contains_key((path, key_of(children[k])->0)));
            }
        }
        assert(grows(scopes, after)) by {
            assert forall|p: Seq<Seq<u8>>, m: Seq<u8>| #[trigger]
                scopes.contains_key((p, m)) implies after.contains_key((p, m)) by {
                assert(before.contains_key((p, m)));
            }
        }
        if keyed(scopes) {
            assert forall|p: Seq<Seq<u8>>, m: Seq<u8>| #[trigger]
                after.contains_key((p, m)) implies key_of(after[(p, m)]) == Some(m) by {
                if key_of(children[n - 1]) == Some(m) && p == path {
                } else {
                    assert(before.contains_key((p, m)));
                }
            }
        }
    }
}

/// Indexing only adds declarations, keeps every entry under the name of
/// its term, declares every child that is known by a name in the scope
/// that its parent opens, and declares no name that no term inside knows.
pub proof fn lemma_index(v: ValView, path: Seq<Seq<u8>>, scopes: Scopes)
    ensures
        grows(scopes, index_spec(v, path, scopes)),
        keyed(scopes) ==> keyed(index_spec(v, path, scopes)),
        forall|p: Seq<Seq<u8>>, m: Seq<u8>| #[trigger]
            index_spec(v, path, scopes).contains_key((p, m)) ==> scopes.contains_key((p, m))
                || declares(v, m),
        forall|k: int|
            0 <= k < children_of(v).len() && key_of(
                #[trigger] children_of(v)[k],
            ) is Some ==> index_spec(v, path, scopes).contains_key(
                (inner_path(v, path), key_of(children_of(v)[k])->0),
            ),
    decreases v, 0nat,
{
    match v {
        ValView::Atom(_) => {},
        ValView::Process { name, label, body } => match body {
            Some(cs) => {
                lemma_index_children(v, cs, path, scopes);
            },
            None => {},
        },
        ValView::Chain { name, path: cs } => {
            lemma_index_children(v, cs, path, scopes);
        },
    }
}

proof fn lemma_index_children(v: ValView, cs: Seq<ValView>, path: Seq<Seq<u8>>, scopes: Scopes)
    requires
        cs == children_of(v),
        v is Process || v is Chain,
        v is Process ==> v->body is Some,
    ensures
        index_spec(v, path, scopes) == index_seq(
            cs,
            cs.len(),
            inner_path(v, path),
            declare_all(cs, cs.len(), inner_path(v, path), scopes),
        ),
        grows(scopes, index_spec(v, path, scopes)),
        keyed(scopes) ==> keyed(index_spec(v, path, scopes)),
        forall|p: Seq<Seq<u8>>, m: Seq<u8>| #[trigger]
            index_spec(v, path, scopes).contains_key((p, m)) ==> scopes.contains_key((p, m))
                || declares(v, m),
        forall|k: int|
            0 <= k < cs.len() && key_of(#[trigger] cs[k]) is Some ==> index_spec(
                v,
                path,
                scopes,
            ).contains_key((inner_path(v, path), key_of(cs[k])->0)),
    decreases v, 0nat, 0nat,
{
    let inner = inner_path(v, path);
    let declared = declare_all(cs, cs.len(), inner, scopes);
    let after = index_seq(cs, cs.len(), inner, declared);
    lemma_declare_all(cs, cs.len(), inner, scopes);
    lemma_index_seq(cs, cs.len(), inner, declared);
    assert forall|p: Seq<Seq<u8>>, m: Seq<u8>| #[trigger] after.contains_key((p, m)) implies scopes.contains_key(
        (p, m),
    ) || declares(v, m) by {
        assert(declares(v, m) == declares_among(cs, cs.len(), m));
        if declared.contains_key((p, m)) {
        }
    }
    assert(grows(scopes, after)) by {
        assert forall|p: Seq<Seq<u8>>, m: Seq<u8>| #[trigger]
            scopes.contains_key((p, m)) implies after.contains_key((p, m)) by {
            assert(declared.contains_key((p, m)));
        }
    }
    assert forall|k: int| 0 <= k < cs.len() && key_of(#[trigger] cs[k]) is Some implies after.contains_key(
        (inner, key_of(cs[k])->0),
    ) by {
        assert(declared.contains_key((inner, key_of(cs[k])->0)));
    }
}

proof fn lemma_index_seq(cs: Seq<ValView>, n: nat, path: Seq<Seq<u8>>, scopes: Scopes)
    requires
        n <= cs.len(),
    ensures
        grows(scopes, index_seq(cs, n, path, scopes)),
        keyed(scopes) ==> keyed(index_seq(cs, n, path, scopes)),
        forall|p: Seq<Seq<u8>>, m: Seq<u8>| #[trigger]
            index_seq(cs, n, path, scopes).contains_key((p, m)) ==> scopes.contains_key((p, m))
                || declares_among(cs, n, m),
    decreases cs, n,
{
    if n > 0 {
        let before = index_seq(cs, (n - 1) as nat, path, scopes);
        let after = index_seq(cs, n, path, scopes);
        lemma_index_seq(cs, (n - 1) as nat, path, scopes);
        lemma_index(cs[n - 1], path, before);
        assert(after == index_spec(cs[n - 1], path, before));
        assert forall|p: Seq<Seq<u8>>, m: Seq<u8>| #[trigger] after.contains_key((p, m)) implies scopes.contains_key(
            (p, m),
        ) || declares_among(cs, n, m) by {
            if before.contains_key((p, m)) {
            }
        }
        assert(grows(scopes, after)) by {
            assert forall|p: Seq<Seq<u8>>, m: Seq<u8>| #[trigger]
                scopes.contains_key((p, m)) implies after.contains_key((p, m)) by {
                assert(before.contains_key((p, m)));
            }
        }
    }
}

/// Visibility does not depend on the order of declaration: a child that
/// is known by a name is declared in the scope that its parent opens,
/// wherever it stands among its siblings, and a reference to that name from
/// this scope or from any scope inside it resolves.
pub proof fn law_visibility_ignores_order(
    v: ValView,
    path: Seq<Seq<u8>>,
    scopes: Scopes,
    k: int,
    from: Seq<Seq<u8>>,
)
    requires
        0 <= k < children_of(v).len(),
        key_of(children_of(v)[k]) is Some,
        encloses(inner_path(v, path), from),
    ensures
        lookup_spec(index_spec(v, path, scopes), from, key_of(children_of(v)[k])->0) is Some,
{
    let name = key_of(children_of(v)[k])->0;
    let home = inner_path(v, path);
    let after = index_spec(v, path, scopes);
    lemma_index(v, path, scopes);
    assert(after.contains_key((home, name)));
    lemma_lookup_nearest(after, from, from.len(), name);
    if lookup_spec(after, from, name) is None {
        assert(!after.contains_key((from.take(home.len() as int), name)));
    }
}

/// A highlight query that names a process of the model is bound to it:
/// where a member of the model's anonymous root is known by `pname`, a
/// reference to `pname` resolves against the model to a term that is
/// known by `pname`.
pub proof fn law_highlight_binds(model: ValView, pname: Seq<u8>)
    requires
        model is Process,
        key_of(model) is None,
        model->body is Some,
        exists|k: int| 0 <= k < model->body->0.len() && key_of(#[trigger] model->body->0[k]) == Some(pname),
    ensures
        key_of(resolve_query_spec(model, ValView::Atom(pname))) == Some(pname),
{
    let root = Seq::<Seq<u8>>::empty();
    let empty = Map::<(Seq<Seq<u8>>, Seq<u8>), ValView>::empty();
    let scopes = index_spec(model, root, empty);
    lemma_index(model, root, empty);
    let k = choose|k: int| 0 <= k < model->body->0.len() && key_of(#[trigger] model->body->0[k]) == Some(pname);
    assert(children_of(model)[k] == model->body->0[k]);
    assert(inner_path(model, root) == root);
    assert(scopes.contains_key((root, pname)));
    assert(root.take(0) =~= root);
}

/// A highlight query that names nothing in the model stays unresolved, and
/// nothing fails: where no term inside the model is known by `pname`, a
/// reference to `pname` resolves against the model to itself, from every
/// scope.
pub proof fn law_highlight_absent(model: ValView, path: Seq<Seq<u8>>, pname: Seq<u8>)
    requires
        !declares(model, pname),
    ensures
        resolve_query_spec(model, ValView::Atom(pname)) == ValView::Atom(pname),
        resolve_term(
            ValView::Atom(pname),
            path,
            index_spec(model, Seq::empty(), Map::<(Seq<Seq<u8>>, Seq<u8>), ValView>::empty()),
        ) == ValView::Atom(pname),
{
    let root = Seq::<Seq<u8>>::empty();
    let empty = Map::<(Seq<Seq<u8>>, Seq<u8>), ValView>::empty();
    let scopes = index_spec(model, root, empty);
    lemma_index(model, root, empty);
    assert forall|p: Seq<Seq<u8>>| !#[trigger] scopes.contains_key((p, pname)) by {
        if scopes.contains_key((p, pname)) {
            assert(empty.contains_key((p, pname)) || declares(model, pname));
        }
    }
    lemma_lookup_nearest(scopes, path, path.len(), pname);
    lemma_lookup_nearest(scopes, root, root.len(), pname);
}

/// A reference is bound wherever the model declares its name on the way
/// up: where the model declares `pname` in the scope at `home`, a reference
/// to `pname` from `home` or from any scope inside it, at whatever place of
/// the query it stands, resolves to a term that is known by `pname`.
pub proof fn law_reference_binds(
    model: ValView,
    home: Seq<Seq<u8>>,
    from: Seq<Seq<u8>>,
    pname: Seq<u8>,
)
    requires
        index_spec(
            model,
            Seq::empty(),
            Map::<(Seq<Seq<u8>>, Seq<u8>), ValView>::empty(),
        ).contains_key((home, pname)),
        encloses(home, from),
    ensures
        key_of(
            resolve_term(
                ValView::Atom(pname),
                from,
                index_spec(model, Seq::empty(), Map::<(Seq<Seq<u8>>, Seq<u8>), ValView>::empty()),
            ),
        ) == Some(pname),
{
    let empty = Map::<(Seq<Seq<u8>>, Seq<u8>), ValView>::empty();
    let scopes = index_spec(model, Seq::empty(), empty);
    lemma_index(model, Seq::empty(), empty);
    lemma_lookup_nearest(scopes, from, from.len(), pname);
    if lookup_spec(scopes, from, pname) is None {
        assert(!scopes.contains_key((from.take(home.len() as int), pname)));
    }
}

/// What the query itself declares stands as it is: a process, or a named
/// chain, of the query is no reference, so resolution keeps its name and
/// label, and it asks for the same emphasis after resolution as before,
/// whatever the model holds. Only references depend on the model.
pub proof fn law_declared_terms_stand(v: ValView, path: Seq<Seq<u8>>, scopes: Scopes)
    requires
        v is Process || (v is Chain && v->Chain_name is Some),
    ensures
        key_of(resolve_term(v, path, scopes)) == key_of(v),
        member_rules(resolve_term(v, path, scopes)) == member_rules(v),
{
}

/// A highlight text that parses never fails to resolve: its result is the
/// term of the text, resolved against its own scopes.
pub proof fn law_parsed_highlight_resolves(src: Seq<u8>)
    requires
        parse_spec(src) is Ok,
    ensures
        highlight_spec(src) == Ok::<ValView, ErrorView>(
            resolve_query_spec(eval_text_spec(src)->Ok_0, eval_text_spec(src)->Ok_0),
        ),
{
    if blank(src) {
        law_blank_text_is_empty(src);
    }
}

} // verus!
