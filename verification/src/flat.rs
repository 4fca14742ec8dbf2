//! The flat resolver: lookup by name in a store of facts.

use vstd::prelude::*;
use crate::fact::{
    facts_view, idents_view, lemma_fact_view, syns_view, Fact, FactView, Syn, SynView,
};
use crate::ident::Ident;
use crate::lexer::draw_word;
use crate::parser::draw_ident;

verus! {

/// The values of a sequence of borrowed facts, in order.
pub open spec fn refs_view(fs: Seq<&Fact>) -> Seq<FactView> {
    Seq::new(fs.len(), |k: int| fs[k]@)
}

/// The facts among the units of a program, in order. A directive is no fact
/// and takes no part in lookup.
pub open spec fn facts_of(store: Seq<SynView>) -> Seq<FactView>
    decreases store.len(),
{
    if store.len() == 0 {
        Seq::empty()
    } else {
        let rest = facts_of(store.drop_last());
        match store.last() {
            SynView::Fact(f) => rest.push(f),
            SynView::Directive(_, _) => rest,
        }
    }
}

/// The body of a fact headed by `name`; nothing for any other entry.
pub open spec fn body_under(entry: FactView, name: Seq<u8>) -> Seq<FactView> {
    match entry {
        FactView::Fact(head, body) => if head == name {
            body
        } else {
            Seq::empty()
        },
        FactView::Atom(_) => Seq::empty(),
    }
}

/// What one entry gives to a lookup of `name`: its body where it is headed
/// by `name`, and then what the facts inside its body give, at every
/// depth. An atom gives nothing.
pub open spec fn entry_gives(entry: FactView, name: Seq<u8>) -> Seq<FactView>
    decreases entry,
{
    match entry {
        FactView::Atom(_) => Seq::empty(),
        FactView::Fact(head, body) => body_under(entry, name) + gives_upto(
            body,
            body.len(),
            name,
        ),
    }
}

/// What the first `n` entries of `store` give to a lookup of `name`, in
/// store order.
pub open spec fn gives_upto(store: Seq<FactView>, n: nat, name: Seq<u8>) -> Seq<FactView>
    decreases store, n,
{
    if n == 0 || n > store.len() {
        Seq::empty()
    } else {
        gives_upto(store, (n - 1) as nat, name) + entry_gives(store[n - 1], name)
    }
}

/// The flat lookup: the bodies of all facts headed by `name`, those at the
/// top of the store and those nested in bodies alike, concatenated in store
/// order; a fact comes before the facts inside it.
pub open spec fn filter_fact_spec(store: Seq<FactView>, name: Seq<u8>) -> Seq<FactView> {
    gives_upto(store, store.len(), name)
}

/// What a fact denotes in a store: an atom points by name and is looked up
/// in the whole store; a fact with a body denotes that body, with no lookup.
pub open spec fn resolve_spec(store: Seq<FactView>, fact: FactView) -> Seq<FactView> {
    match fact {
        FactView::Atom(name) => filter_fact_spec(store, name),
        FactView::Fact(_, body) => body,
    }
}

/// Whether `entry`, or a fact inside it at any depth, is headed by `name`.
pub open spec fn heads(entry: FactView, name: Seq<u8>) -> bool
    decreases entry,
{
    match entry {
        FactView::Atom(_) => false,
        FactView::Fact(head, body) => head == name || heads_upto(body, body.len(), name),
    }
}

/// Whether one of the first `n` entries of `store`, or a fact inside one
/// of them, is headed by `name`.
pub open spec fn heads_upto(store: Seq<FactView>, n: nat, name: Seq<u8>) -> bool
    decreases store, n,
{
    if n == 0 || n > store.len() {
        false
    } else {
        heads_upto(store, (n - 1) as nat, name) || heads(store[n - 1], name)
    }
}

/// A lookup of a name that heads no fact, at any depth, yields nothing.
pub proof fn lemma_gives_nothing(store: Seq<FactView>, n: nat, name: Seq<u8>)
    requires
        n <= store.len(),
        !heads_upto(store, n, name),
    ensures
        gives_upto(store, n, name).len() == 0,
    decreases store, n,
{
    if n > 0 {
        let last = store[n - 1];
        assert(heads_upto(store, n, name) == (heads_upto(store, (n - 1) as nat, name) || heads(
            last,
            name,
        )));
        lemma_gives_nothing(store, (n - 1) as nat, name);
        match last {
            FactView::Atom(_) => {},
            FactView::Fact(head, body) => {
                assert(heads(last, name) == (head == name || heads_upto(body, body.len(), name)));
                lemma_gives_nothing(body, body.len(), name);
                assert(entry_gives(last, name) == body_under(last, name) + gives_upto(
                    body,
                    body.len(),
                    name,
                ));
            },
        }
        assert(gives_upto(store, n, name) == gives_upto(store, (n - 1) as nat, name)
            + entry_gives(last, name));
    }
}

/// The facts of a program, borrowed in order.
pub fn facts<'a>(store: &'a Vec<Syn>) -> (r: Vec<&'a Fact>)
    ensures
        refs_view(r@) == facts_of(syns_view(store@)),
{
    let mut out: Vec<&'a Fact> = Vec::new();
    let mut k: usize = 0;
    assert(syns_view(store@).take(0) =~= Seq::empty());
    assert(refs_view(out@) =~= Seq::empty());
    while k < store.len()
        invariant
            k <= store.len(),
            refs_view(out@) == facts_of(syns_view(store@).take(k as int)),
        decreases store.len() - k,
    {
        proof {
            let next = syns_view(store@).take(k + 1);
            assert(next.drop_last() =~= syns_view(store@).take(k as int));
            assert(next.last() == store@[k as int]@);
        }
        match &store[k] {
            Syn::Fact(f) => {
                let ghost before = out@;
                out.push(f);
                assert(refs_view(out@) =~= refs_view(before).push(f@));
            },
            Syn::Directive(_) => {},
        }
        k += 1;
    }
    assert(syns_view(store@).take(store.len() as int) =~= syns_view(store@));
    out
}

fn gather<'a>(entry: &'a Fact, i: &Ident, out: &mut Vec<&'a Fact>)
    ensures
        refs_view(final(out)@) == refs_view(old(out)@) + entry_gives(entry@, i@),
    decreases entry,
{
    let ghost start = refs_view(out@);
    match entry {
        Fact::Atom(_) => {
            assert(start + Seq::<FactView>::empty() =~= start);
        },
        Fact::Fact(head, body) => {
            proof {
                lemma_fact_view(*head, *body);
            }
            if head.same(i) {
                let mut j: usize = 0;
                assert(start + facts_view(body@).take(0) =~= start);
                while j < body.len()
                    invariant
                        j <= body.len(),
                        refs_view(out@) == start + facts_view(body@).take(j as int),
                    decreases body.len() - j,
                {
                    let ghost before = out@;
                    out.push(&body[j]);
                    assert(refs_view(out@) =~= refs_view(before).push(body@[j as int]@));
                    assert(start + facts_view(body@).take(j + 1) =~= (start + facts_view(
                        body@,
                    ).take(j as int)).push(body@[j as int]@));
                    j += 1;
                }
                assert(facts_view(body@).take(body.len() as int) =~= facts_view(body@));
            } else {
                assert(start + Seq::<FactView>::empty() =~= start);
            }
            let ghost own = body_under(entry@, i@);
            assert(refs_view(out@) == start + own);
            gather_all(body, i, out);
            assert((start + own) + gives_upto(facts_view(body@), body@.len(), i@) =~= start + (own
                + gives_upto(facts_view(body@), body@.len(), i@)));
        },
    }
}

fn gather_all<'a>(body: &'a Vec<Fact>, i: &Ident, out: &mut Vec<&'a Fact>)
    ensures
        refs_view(final(out)@) == refs_view(old(out)@) + gives_upto(
            facts_view(body@),
            body@.len(),
            i@,
        ),
    decreases body,
{
    let ghost start = refs_view(out@);
    let ghost members = facts_view(body@);
    let mut k: usize = 0;
    assert(start + Seq::<FactView>::empty() =~= start);
    while k < body.len()
        invariant
            k <= body.len(),
            members == facts_view(body@),
            refs_view(out@) == start + gives_upto(members, k as nat, i@),
        decreases body.len() - k,
    {
        let ghost before = gives_upto(members, k as nat, i@);
        assert(members[k as int] == body@[k as int]@);
        gather(&body[k], i, out);
        assert((start + before) + entry_gives(members[k as int], i@) =~= start + (before
            + entry_gives(members[k as int], i@)));
        k += 1;
    }
}

/// The flat lookup: the bodies of all facts headed by `i`, concatenated in
/// the order of `v`. Every fact is asked, at the top of `v` or nested in a
/// body at any depth: the namespace is flat, and nothing shadows anything.
/// Where no fact is headed by `i`, the result is empty.
pub fn filter_fact<'a>(v: &Vec<&'a Fact>, i: &Ident) -> (r: Vec<&'a Fact>)
    ensures
        refs_view(r@) == filter_fact_spec(refs_view(v@), i@),
        !heads_upto(refs_view(v@), v@.len(), i@) ==> r@.len() == 0,
{
    let ghost entries = refs_view(v@);
    let mut out: Vec<&'a Fact> = Vec::new();
    let mut k: usize = 0;
    assert(refs_view(out@) =~= Seq::<FactView>::empty());
    while k < v.len()
        invariant
            k <= v.len(),
            entries == refs_view(v@),
            refs_view(out@) == gives_upto(entries, k as nat, i@),
        decreases v.len() - k,
    {
        let entry: &'a Fact = v[k];
        assert(entries[k as int] == entry@);
        gather(entry, i, &mut out);
        k += 1;
    }
    proof {
        if !heads_upto(entries, v@.len(), i@) {
            lemma_gives_nothing(entries, v@.len(), i@);
            assert(refs_view(out@).len() == out@.len());
        }
    }
    out
}

/// What `r` denotes in the store `v`: for an atom the flat lookup of its
/// name, for a fact with a body that body as it stands.
pub fn resolve<'a>(v: &Vec<&'a Fact>, r: &'a Fact) -> (out: Vec<&'a Fact>)
    ensures
        refs_view(out@) == resolve_spec(refs_view(v@), r@),
{
    match r {
        Fact::Atom(i) => filter_fact(v, i),
        Fact::Fact(head, body) => {
            proof {
                lemma_fact_view(*head, *body);
            }
            let mut out: Vec<&'a Fact> = Vec::new();
            let mut j: usize = 0;
            while j < body.len()
                invariant
                    j <= body.len(),
                    refs_view(out@) == facts_view(body@).take(j as int),
                decreases body.len() - j,
            {
                let ghost before = out@;
                out.push(&body[j]);
                assert(refs_view(out@) =~= refs_view(before).push(body@[j as int]@));
                assert(facts_view(body@).take(j + 1) =~= facts_view(body@).take(j as int).push(
                    body@[j as int]@,
                ));
                j += 1;
            }
            assert(facts_view(body@).take(body.len() as int) =~= facts_view(body@));
            out
        },
    }
}

/// The bytes of the name `compact`.
pub open spec fn compact_word() -> Seq<u8> {
    seq![99u8, 111u8, 109u8, 112u8, 97u8, 99u8, 116u8]
}

/// The bytes of the name `name`.
pub open spec fn name_word() -> Seq<u8> {
    seq![110u8, 97u8, 109u8, 101u8]
}

/// The names of one item of a drawing: the item is resolved in the store,
/// and `name` is looked up among what it denotes.
pub open spec fn item_names(store: Seq<FactView>, item: FactView) -> Seq<FactView> {
    filter_fact_spec(resolve_spec(store, item), name_word())
}

/// The names of the first `n` of `items`, one entry for each item.
pub open spec fn items_names(store: Seq<FactView>, items: Seq<FactView>, n: nat) -> Seq<
    Seq<FactView>,
>
    decreases n,
{
    if n == 0 || n > items.len() {
        Seq::empty()
    } else {
        items_names(store, items, (n - 1) as nat).push(item_names(store, items[n - 1]))
    }
}

/// What one hint of a drawing gives: a fact headed `compact` gives the
/// names of its items; any other hint gives nothing.
pub open spec fn hint_names(store: Seq<FactView>, hint: FactView) -> Seq<Seq<FactView>> {
    match hint {
        FactView::Fact(head, items) => if head == compact_word() {
            items_names(store, items, items.len())
        } else {
            Seq::empty()
        },
        FactView::Atom(_) => Seq::empty(),
    }
}

/// What the first `n` of `hints` give, in order.
pub open spec fn hints_names(store: Seq<FactView>, hints: Seq<FactView>, n: nat) -> Seq<
    Seq<FactView>,
>
    decreases n,
{
    if n == 0 || n > hints.len() {
        Seq::empty()
    } else {
        hints_names(store, hints, (n - 1) as nat) + hint_names(store, hints[n - 1])
    }
}

/// The drawing that a list of hints asks for.
pub open spec fn hints_drawing(store: Seq<FactView>, hints: Seq<FactView>) -> Seq<Seq<FactView>> {
    hints_names(store, hints, hints.len())
}

/// One drawing: `draw` is resolved in the store to its hints, and the
/// hints give the names of the items to draw.
pub open spec fn drawing_names(store: Seq<FactView>, draw: FactView) -> Seq<Seq<FactView>> {
    hints_drawing(store, resolve_spec(store, draw))
}

/// The drawings for a list of draws, in order.
pub open spec fn drawings(store: Seq<FactView>, draws: Seq<FactView>) -> Seq<Seq<Seq<FactView>>> {
    Seq::new(draws.len(), |k: int| drawing_names(store, draws[k]))
}

/// The names of a directive, each as an atom.
pub open spec fn atoms(names: Seq<Seq<u8>>) -> Seq<FactView> {
    Seq::new(names.len(), |k: int| FactView::Atom(names[k]))
}

/// What one unit of a program asks to draw: a `draw` directive asks for
/// the drawing of each of its names; a fact asks for the members of the
/// bodies headed `draw` in it, at every depth.
pub open spec fn unit_draws(unit: SynView) -> Seq<FactView> {
    match unit {
        SynView::Directive(keyword, names) => if keyword == draw_word() {
            atoms(names)
        } else {
            Seq::empty()
        },
        SynView::Fact(f) => entry_gives(f, draw_word()),
    }
}

/// What the first `n` units of a program ask to draw, in order.
pub open spec fn draws_upto(program: Seq<SynView>, n: nat) -> Seq<FactView>
    decreases n,
{
    if n == 0 || n > program.len() {
        Seq::empty()
    } else {
        draws_upto(program, (n - 1) as nat) + unit_draws(program[n - 1])
    }
}

/// What a program asks to draw: one drawing for each draw that its units
/// ask for, in order. The store in which the draws are resolved is the
/// facts of the program.
pub open spec fn render_spec(program: Seq<SynView>) -> Seq<Seq<Seq<FactView>>> {
    drawings(facts_of(program), draws_upto(program, program.len()))
}

/// The values of a sequence of name lists.
pub open spec fn names_view(names: Seq<Vec<&Fact>>) -> Seq<Seq<FactView>> {
    Seq::new(names.len(), |k: int| refs_view(names[k]@))
}

/// The values of a sequence of drawings.
pub open spec fn drawings_view(ds: Seq<Vec<Vec<&Fact>>>) -> Seq<Seq<Seq<FactView>>> {
    Seq::new(ds.len(), |k: int| names_view(ds[k]@))
}

fn compact_ident() -> (r: Ident)
    ensures
        r@ == compact_word(),
{
    let r = Ident(vec![99u8, 111u8, 109u8, 112u8, 97u8, 99u8, 116u8]);
    assert(r@ =~= compact_word());
    r
}

fn name_ident() -> (r: Ident)
    ensures
        r@ == name_word(),
{
    let r = Ident(vec![110u8, 97u8, 109u8, 101u8]);
    assert(r@ =~= name_word());
    r
}

fn drawing<'a>(store: &Vec<&'a Fact>, hints: &Vec<&'a Fact>) -> (r: Vec<Vec<&'a Fact>>)
    ensures
        names_view(r@) == hints_drawing(refs_view(store@), refs_view(hints@)),
{
    let compact = compact_ident();
    let name = name_ident();
    let ghost st = refs_view(store@);
    let ghost hs = refs_view(hints@);
    let mut out: Vec<Vec<&'a Fact>> = Vec::new();
    assert(names_view(out@) =~= Seq::<Seq<FactView>>::empty());
    let mut h: usize = 0;
    while h < hints.len()
        invariant
            h <= hints.len(),
            st == refs_view(store@),
            hs == refs_view(hints@),
            compact@ == compact_word(),
            name@ == name_word(),
            names_view(out@) == hints_names(st, hs, h as nat),
        decreases hints.len() - h,
    {
        let ghost before = hints_names(st, hs, h as nat);
        let hint: &'a Fact = hints[h];
        assert(hs[h as int] == hint@);
        match hint {
            Fact::Fact(head, items) => {
                proof {
                    lemma_fact_view(*head, *items);
                }
                if head.same(&compact) {
                    let ghost its = facts_view(items@);
                    let mut t: usize = 0;
                    assert(before + Seq::<Seq<FactView>>::empty() =~= before);
                    while t < items.len()
                        invariant
                            t <= items.len(),
                            st == refs_view(store@),
                            its == facts_view(items@),
                            name@ == name_word(),
                            names_view(out@) == before + items_names(st, its, t as nat),
                        decreases items.len() - t,
                    {
                        let ghost sofar = items_names(st, its, t as nat);
                        let resolved = resolve(store, &items[t]);
                        let names = filter_fact(&resolved, &name);
                        assert(its[t as int] == items@[t as int]@);
                        let ghost old_out = out@;
                        out.push(names);
                        assert(names_view(out@) =~= names_view(old_out).push(refs_view(names@)));
                        assert(before + sofar.push(refs_view(names@)) =~= (before + sofar).push(
                            refs_view(names@),
                        ));
                        t += 1;
                    }
                } else {
                    assert(before + Seq::<Seq<FactView>>::empty() =~= before);
                }
            },
            Fact::Atom(_) => {
                assert(before + Seq::<Seq<FactView>>::empty() =~= before);
            },
        }
        h += 1;
    }
    out
}

/// What a program asks to draw. A `draw` directive asks for the drawing
/// of each of its names, and a fact headed `draw`, wherever it stands, for
/// the drawing of each member of its body. Each of these is resolved to its
/// hints; each hint headed `compact` gives, for each of its items, the
/// names of that item, which are found by resolving the item and looking up
/// `name` among what it denotes.
pub fn render<'a>(v: &'a Vec<Syn>) -> (r: Vec<Vec<Vec<&'a Fact>>>)
    ensures
        drawings_view(r@) == render_spec(syns_view(v@)),
{
    let store = facts(v);
    let draw = draw_ident();
    let ghost st = refs_view(store@);
    let ghost units = syns_view(v@);
    let mut out: Vec<Vec<Vec<&'a Fact>>> = Vec::new();
    assert(drawings_view(out@) =~= drawings(st, Seq::<FactView>::empty()));
    let mut u: usize = 0;
    while u < v.len()
        invariant
            u <= v.len(),
            st == refs_view(store@),
            units == syns_view(v@),
            draw@ == draw_word(),
            drawings_view(out@) == drawings(st, draws_upto(units, u as nat)),
        decreases v.len() - u,
    {
        let ghost before = draws_upto(units, u as nat);
        assert(units[u as int] == v@[u as int]@);
        match &v[u] {
            Syn::Fact(f) => {
                let mut found: Vec<&'a Fact> = Vec::new();
                assert(refs_view(found@) =~= Seq::<FactView>::empty());
                gather(f, &draw, &mut found);
                let ghost ds = refs_view(found@);
                assert(ds =~= unit_draws(units[u as int]));
                let mut d: usize = 0;
                assert(before + ds.take(0) =~= before);
                while d < found.len()
                    invariant
                        d <= found.len(),
                        st == refs_view(store@),
                        ds == refs_view(found@),
                        drawings_view(out@) == drawings(st, before + ds.take(d as int)),
                    decreases found.len() - d,
                {
                    let hints = resolve(&store, found[d]);
                    let names = drawing(&store, &hints);
                    assert(ds[d as int] == found@[d as int]@);
                    let ghost old_out = out@;
                    out.push(names);
                    assert(drawings_view(out@) =~= drawings_view(old_out).push(names_view(names@)));
                    assert(drawings(st, before + ds.take(d + 1)) =~= drawings(
                        st,
                        before + ds.take(d as int),
                    ).push(drawing_names(st, ds[d as int])));
                    d += 1;
                }
                assert(ds.take(found.len() as int) =~= ds);
            },
            Syn::Directive(directive) => {
                if directive.0.same(&draw) {
                    let ghost names = idents_view(directive.1@);
                    let ghost ds = atoms(names);
                    let mut d: usize = 0;
                    assert(before + ds.take(0) =~= before);
                    while d < directive.1.len()
                        invariant
                            d <= directive.1.len(),
                            st == refs_view(store@),
                            names == idents_view(directive.1@),
                            ds == atoms(names),
                            drawings_view(out@) == drawings(st, before + ds.take(d as int)),
                        decreases directive.1.len() - d,
                    {
                        let hints = filter_fact(&store, &directive.1[d]);
                        let drawn = drawing(&store, &hints);
                        assert(ds[d as int] == FactView::Atom(directive.1@[d as int]@));
                        let ghost old_out = out@;
                        out.push(drawn);
                        assert(drawings_view(out@) =~= drawings_view(old_out).push(
                            names_view(drawn@),
                        ));
                        assert(drawings(st, before + ds.take(d + 1)) =~= drawings(
                            st,
                            before + ds.take(d as int),
                        ).push(drawing_names(st, ds[d as int])));
                        d += 1;
                    }
                    assert(ds.take(directive.1.len() as int) =~= ds);
                } else {
                    assert(before + Seq::<FactView>::empty() =~= before);
                }
            },
        }
        u += 1;
    }
    out
}

} // verus!
