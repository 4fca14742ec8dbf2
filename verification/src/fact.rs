//! Facts, directives and programs.

use vstd::prelude::*;
use crate::ident::Ident;

verus! {

/// A fact of the flat language.
#[derive(Debug, PartialEq, Eq)]
pub enum Fact {
    /// A bare reference to a name, resolved by lookup.
    Atom(Ident),
    /// A named fact with its body, an ordered list of child facts.
    Fact(Ident, Vec<Fact>),
}

/// The mathematical value of a [`Fact`].
pub enum FactView {
    Atom(Seq<u8>),
    Fact(Seq<u8>, Seq<FactView>),
}

impl View for Fact {
    type V = FactView;

    open spec fn view(&self) -> FactView
        decreases self,
    {
        match self {
            Fact::Atom(i) => FactView::Atom(i@),
            Fact::Fact(i, fs) => FactView::Fact(
                i@,
                Seq::new(
                    fs@.len(),
                    |k: int|
                        if 0 <= k < fs@.len() {
                            fs@[k]@
                        } else {
                            FactView::Atom(Seq::empty())
                        },
                ),
            ),
        }
    }
}

/// The values of a sequence of facts, in order.
pub open spec fn facts_view(fs: Seq<Fact>) -> Seq<FactView> {
    Seq::new(fs.len(), |k: int| fs[k]@)
}

/// The values of a sequence of names, in order.
pub open spec fn idents_view(names: Seq<Ident>) -> Seq<Seq<u8>> {
    Seq::new(names.len(), |k: int| names[k]@)
}

/// The body of a named fact is seen as the values of its children.
pub proof fn lemma_fact_view(head: Ident, body: Vec<Fact>)
    ensures
        (Fact::Fact(head, body))@ == FactView::Fact(head@, facts_view(body@)),
{
    assert((Fact::Fact(head, body))@->Fact_1 =~= facts_view(body@));
}

/// Pushing a fact pushes its value.
pub proof fn lemma_facts_view_push(fs: Seq<Fact>, f: Fact)
    ensures
        facts_view(fs.push(f)) == facts_view(fs).push(f@),
{
    assert(facts_view(fs.push(f)) =~= facts_view(fs).push(f@));
}

/// Pushing a name pushes its value.
pub proof fn lemma_idents_view_push(names: Seq<Ident>, name: Ident)
    ensures
        idents_view(names.push(name)) == idents_view(names).push(name@),
{
    assert(idents_view(names.push(name)) =~= idents_view(names).push(name@));
}

/// A line led by a keyword: the keyword, then the names that follow it.
#[derive(Clone, Debug, PartialEq, Eq)]
pub struct Directive(pub Ident, pub Vec<Ident>);

/// A top-level unit of a parsed program.
#[derive(Debug, PartialEq, Eq)]
pub enum Syn {
    Fact(Fact),
    Directive(Directive),
}

/// The mathematical value of a [`Syn`].
pub enum SynView {
    Fact(FactView),
    Directive(Seq<u8>, Seq<Seq<u8>>),
}

impl View for Syn {
    type V = SynView;

    open spec fn view(&self) -> SynView {
        match self {
            Syn::Fact(f) => SynView::Fact(f@),
            Syn::Directive(d) => SynView::Directive(d.0@, idents_view(d.1@)),
        }
    }
}

/// The values of a sequence of top-level units, in order.
pub open spec fn syns_view(syns: Seq<Syn>) -> Seq<SynView> {
    Seq::new(syns.len(), |k: int| syns[k]@)
}

/// Pushing a unit pushes its value.
pub proof fn lemma_syns_view_push(syns: Seq<Syn>, syn: Syn)
    ensures
        syns_view(syns.push(syn)) == syns_view(syns).push(syn@),
{
    assert(syns_view(syns.push(syn)) =~= syns_view(syns).push(syn@));
}

} // verus!
