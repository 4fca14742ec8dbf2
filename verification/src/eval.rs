//! The evaluator: from a parsed program to its term.

use vstd::prelude::*;
use crate::fact::{facts_view, lemma_fact_view, syns_view, Fact, FactView, Syn, SynView};
use crate::flat::{facts, facts_of, refs_view};
use crate::lexer::dash_word;
use crate::syntax::{parse_program, parse_spec};
use crate::token::{Error, ErrorView};
use crate::val::{
    lemma_chain_view, lemma_process_view, lemma_vals_view_push, vals_view, Body, Val, ValView,
};

verus! {

/// A bare dash: the mark of a chain.
pub open spec fn is_dash(f: FactView) -> bool {
    f matches FactView::Atom(name) && name == dash_word()
}

/// Whether a bare dash stands among the members of a body.
pub open spec fn has_dash(body: Seq<FactView>) -> bool {
    exists|k: int| 0 <= k < body.len() && is_dash(#[trigger] body[k])
}

/// The term that a fact spells.
///
/// A dash marks a chain. A fact whose head is a dash, or whose body holds a
/// bare dash, is a chain without a name: its path is the head, unless that
/// is the dash, followed by the members of the body that are not bare
/// dashes. A lone dash is the empty chain. Any other fact with a body is a
/// process named by its head, whose body is the terms of its members. Any
/// other atom is a reference.
pub open spec fn eval_fact_spec(f: FactView) -> ValView
    decreases f,
{
    match f {
        FactView::Atom(name) => if name == dash_word() {
            ValView::Chain { name: None, path: Seq::empty() }
        } else {
            ValView::Atom(name)
        },
        FactView::Fact(head, body) => if head == dash_word() {
            ValView::Chain { name: None, path: eval_seq(body, body.len(), true) }
        } else if has_dash(body) {
            ValView::Chain {
                name: None,
                path: seq![ValView::Atom(head)] + eval_seq(body, body.len(), true),
            }
        } else {
            ValView::Process {
                name: Some(head),
                label: None,
                body: Some(eval_seq(body, body.len(), false)),
            }
        },
    }
}

/// The terms of the first `n` members of a body, in order; with
/// `skip_dashes`, bare dashes are passed over.
pub open spec fn eval_seq(body: Seq<FactView>, n: nat, skip_dashes: bool) -> Seq<ValView>
    decreases body, n,
{
    if n == 0 || n > body.len() {
        Seq::empty()
    } else if skip_dashes && is_dash(body[n - 1]) {
        eval_seq(body, (n - 1) as nat, skip_dashes)
    } else {
        eval_seq(body, (n - 1) as nat, skip_dashes).push(eval_fact_spec(body[n - 1]))
    }
}

/// The term that a program spells: the anonymous process whose body holds
/// the terms of the program's facts, in order. A program without facts
/// spells the anonymous process without a body. Directives spell no term.
pub open spec fn eval_spec(program: Seq<SynView>) -> ValView {
    let fs = facts_of(program);
    ValView::Process {
        name: None,
        label: None,
        body: if fs.len() == 0 {
            None
        } else {
            Some(eval_seq(fs, fs.len(), false))
        },
    }
}

fn dash_fact(f: &Fact) -> (r: bool)
    ensures
        r == is_dash(f@),
{
    match f {
        Fact::Atom(name) => name.is_dash(),
        Fact::Fact(_, _) => false,
    }
}

fn any_dash(body: &Vec<Fact>) -> (r: bool)
    ensures
        r == has_dash(facts_view(body@)),
{
    let mut k: usize = 0;
    while k < body.len()
        invariant
            k <= body.len(),
            forall|j: int| 0 <= j < k ==> !is_dash(#[trigger] facts_view(body@)[j]),
        decreases body.len() - k,
    {
        if dash_fact(&body[k]) {
            assert(is_dash(facts_view(body@)[k as int]));
            return true;
        }
        k += 1;
    }
    false
}

/// The terms of the members of a body, appended to `out`.
fn eval_into(out: &mut Vec<Val>, body: &Vec<Fact>, skip_dashes: bool)
    ensures
        vals_view(final(out)@) == vals_view(old(out)@) + eval_seq(
            facts_view(body@),
            body@.len(),
            skip_dashes,
        ),
    decreases body,
{
    let ghost start = vals_view(out@);
    let ghost fs = facts_view(body@);
    let mut k: usize = 0;
    assert(start + Seq::<ValView>::empty() =~= start);
    while k < body.len()
        invariant
            k <= body.len(),
            fs == facts_view(body@),
            vals_view(out@) == start + eval_seq(fs, k as nat, skip_dashes),
        decreases body.len() - k,
    {
        let ghost before = eval_seq(fs, k as nat, skip_dashes);
        assert(fs[k as int] == body@[k as int]@);
        if skip_dashes && dash_fact(&body[k]) {
            assert(eval_seq(fs, (k + 1) as nat, skip_dashes) == before);
        } else {
            let term = eval_fact(&body[k]);
            proof {
                lemma_vals_view_push(out@, term);
                assert(eval_seq(fs, (k + 1) as nat, skip_dashes) == before.push(term@));
                assert(start + before.push(term@) =~= (start + before).push(term@));
            }
            out.push(term);
        }
        k += 1;
    }
}

/// The term that a fact spells.
pub fn eval_fact(f: &Fact) -> (r: Val)
    ensures
        r@ == eval_fact_spec(f@),
    decreases f,
{
    match f {
        Fact::Atom(name) => {
            if name.is_dash() {
                let path: Vec<Val> = Vec::new();
                proof {
                    lemma_chain_view(None, path);
                    assert(vals_view(path@) =~= Seq::<ValView>::empty());
                }
                Val::Chain { name: None, path }
            } else {
                Val::Atom(name.duplicate())
            }
        },
        Fact::Fact(head, body) => {
            proof {
                lemma_fact_view(*head, *body);
            }
            let mut terms: Vec<Val> = Vec::new();
            assert(vals_view(terms@) =~= Seq::<ValView>::empty());
            if head.is_dash() {
                eval_into(&mut terms, body, true);
                proof {
                    lemma_chain_view(None, terms);
                    let tail = eval_seq(facts_view(body@), body@.len(), true);
                    assert(Seq::<ValView>::empty() + tail =~= tail);
                }
                Val::Chain { name: None, path: terms }
            } else if any_dash(body) {
                let first = Val::Atom(head.duplicate());
                proof {
                    lemma_vals_view_push(terms@, first);
                }
                terms.push(first);
                assert(vals_view(terms@) =~= seq![ValView::Atom(head@)]);
                eval_into(&mut terms, body, true);
                proof {
                    lemma_chain_view(None, terms);
                }
                Val::Chain { name: None, path: terms }
            } else {
                eval_into(&mut terms, body, false);
                let name = Some(head.duplicate());
                let body = Some(Body::All(terms));
                proof {
                    lemma_process_view(name, None, body);
                    let all = eval_seq(f@->Fact_1, f@->Fact_1.len(), false);
                    assert(Seq::<ValView>::empty() + all =~= all);
                }
                Val::Process { name, label: None, body }
            }
        },
    }
}

/// The term that a program spells: its root.
pub fn eval(items: &Vec<Syn>) -> (r: Val)
    ensures
        r@ == eval_spec(syns_view(items@)),
{
    let fs = facts(items);
    if fs.len() == 0 {
        return Val::Process { name: None, label: None, body: None };
    }
    let ghost views = refs_view(fs@);
    let mut terms: Vec<Val> = Vec::new();
    let mut k: usize = 0;
    assert(vals_view(terms@) =~= Seq::<ValView>::empty());
    while k < fs.len()
        invariant
            k <= fs.len(),
            views == refs_view(fs@),
            vals_view(terms@) == eval_seq(views, k as nat, false),
        decreases fs.len() - k,
    {
        let term = eval_fact(fs[k]);
        proof {
            lemma_vals_view_push(terms@, term);
            assert(views[k as int] == fs@[k as int]@);
            assert(eval_seq(views, (k + 1) as nat, false) == eval_seq(views, k as nat, false).push(
                term@,
            ));
        }
        terms.push(term);
        k += 1;
    }
    let body = Some(Body::All(terms));
    proof {
        lemma_process_view(None, None, body);
    }
    Val::Process { name: None, label: None, body }
}

/// The term that a text spells, or the error that stops its reading.
pub open spec fn eval_text_spec(src: Seq<u8>) -> Result<ValView, ErrorView> {
    match parse_spec(src) {
        Ok(program) => Ok(eval_spec(program)),
        Err(e) => Err(e),
    }
}

/// Reads a text and evaluates it to its term.
pub fn eval_text(src: &[u8]) -> (r: Result<Val, Error>)
    ensures
        match eval_text_spec(src@) {
            Ok(v) => r matches Ok(val) && val@ == v,
            Err(e) => r matches Err(err) && err@ == e,
        },
{
    match parse_program(src) {
        Ok(items) => Ok(eval(&items)),
        Err(e) => Err(e),
    }
}

} // verus!
