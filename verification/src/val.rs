//! Terms: processes, chains and references.

use vstd::prelude::*;
use crate::ident::Ident;

verus! {

/// The composite body of a process: all of these terms together.
#[derive(Debug, PartialEq, Eq)]
pub enum Body {
    All(Vec<Val>),
}

/// A term of the nested language.
#[derive(Debug, PartialEq, Eq)]
pub enum Val {
    /// A bare reference to a name, to be resolved against the scopes that
    /// enclose it.
    Atom(Ident),
    /// A process. One with neither name nor label is anonymous.
    Process { name: Option<Ident>, label: Option<Ident>, body: Option<Body> },
    /// Terms linked in order, an edge path. It carries no body.
    Chain { name: Option<Ident>, path: Vec<Val> },
}

/// The mathematical value of a [`Val`].
pub enum ValView {
    Atom(Seq<u8>),
    Process { name: Option<Seq<u8>>, label: Option<Seq<u8>>, body: Option<Seq<ValView>> },
    Chain { name: Option<Seq<u8>>, path: Seq<ValView> },
}

/// The value of a name that may be absent.
pub open spec fn name_view(name: Option<Ident>) -> Option<Seq<u8>> {
    match name {
        Some(i) => Some(i@),
        None => None,
    }
}

/// The values of the first `n` of a sequence of terms, in order.
pub open spec fn views_upto(vs: Seq<Val>, n: nat) -> Seq<ValView>
    decreases vs, n,
{
    if n == 0 || n > vs.len() {
        Seq::empty()
    } else {
        views_upto(vs, (n - 1) as nat).push(vs[n - 1]@)
    }
}

impl View for Val {
    type V = ValView;

    open spec fn view(&self) -> ValView
        decreases self,
    {
        match self {
            Val::Atom(i) => ValView::Atom(i@),
            Val::Process { name, label, body } => ValView::Process {
                name: name_view(*name),
                label: name_view(*label),
                body: match body {
                    None => None,
                    Some(Body::All(vs)) => Some(views_upto(vs@, vs@.len())),
                },
            },
            Val::Chain { name, path } => ValView::Chain {
                name: name_view(*name),
                path: views_upto(path@, path@.len()),
            },
        }
    }
}

/// The values of a sequence of terms, in order.
pub open spec fn vals_view(vs: Seq<Val>) -> Seq<ValView> {
    Seq::new(vs.len(), |k: int| vs[k]@)
}

/// The value of a body that may be absent.
pub open spec fn body_view(body: Option<Body>) -> Option<Seq<ValView>> {
    match body {
        None => None,
        Some(Body::All(vs)) => Some(vals_view(vs@)),
    }
}

/// The values of the first `n` terms are the first `n` of all the values.
pub proof fn lemma_views_upto(vs: Seq<Val>, n: nat)
    requires
        n <= vs.len(),
    ensures
        views_upto(vs, n) == vals_view(vs).take(n as int),
    decreases n,
{
    if n > 0 {
        lemma_views_upto(vs, (n - 1) as nat);
        let prev = views_upto(vs, (n - 1) as nat);
        let e = vs[n - 1]@;
        assert(views_upto(vs, n) == prev.push(e));
        assert(prev.push(e) =~= vals_view(vs).take(n as int));
    } else {
        assert(views_upto(vs, n) =~= vals_view(vs).take(n as int));
    }
}

/// The value of a process holds the values of its name, label and body.
pub proof fn lemma_process_view(name: Option<Ident>, label: Option<Ident>, body: Option<Body>)
    ensures
        (Val::Process { name, label, body })@ == (ValView::Process {
            name: name_view(name),
            label: name_view(label),
            body: body_view(body),
        }),
{
    match body {
        None => {},
        Some(Body::All(vs)) => {
            lemma_views_upto(vs@, vs@.len());
            assert(vals_view(vs@).take(vs@.len() as int) =~= vals_view(vs@));
        },
    }
}

/// The value of a chain holds the values of its name and of its path.
pub proof fn lemma_chain_view(name: Option<Ident>, path: Vec<Val>)
    ensures
        (Val::Chain { name, path })@ == (ValView::Chain {
            name: name_view(name),
            path: vals_view(path@),
        }),
{
    lemma_views_upto(path@, path@.len());
    assert(vals_view(path@).take(path@.len() as int) =~= vals_view(path@));
}

/// Pushing a term pushes its value.
pub proof fn lemma_vals_view_push(vs: Seq<Val>, v: Val)
    ensures
        vals_view(vs.push(v)) == vals_view(vs).push(v@),
{
    assert(vals_view(vs.push(v)) =~= vals_view(vs).push(v@));
}

/// The name by which a term is known: the name of a process or, where it
/// has none, its label; the name of a chain. An atom, and a process with
/// neither name nor label, is known by none.
pub open spec fn key_of(v: ValView) -> Option<Seq<u8>> {
    match v {
        ValView::Atom(_) => None,
        ValView::Process { name, label, body } => match name {
            Some(n) => Some(n),
            None => label,
        },
        ValView::Chain { name, path } => name,
    }
}

/// The children of a term: the body of a process, the path of a chain.
pub open spec fn children_of(v: ValView) -> Seq<ValView> {
    match v {
        ValView::Atom(_) => Seq::empty(),
        ValView::Process { name, label, body } => match body {
            Some(vs) => vs,
            None => Seq::empty(),
        },
        ValView::Chain { name, path } => path,
    }
}

/// The anonymous process without a body: what an empty text evaluates to.
pub open spec fn empty_process() -> ValView {
    ValView::Process { name: None, label: None, body: None }
}

/// A copy of a name that may be absent.
pub fn copy_name(name: &Option<Ident>) -> (r: Option<Ident>)
    ensures
        name_view(r) == name_view(*name),
{
    match name {
        Some(i) => Some(i.duplicate()),
        None => None,
    }
}

fn copy_all(vs: &Vec<Val>) -> (r: Vec<Val>)
    ensures
        vals_view(r@) == vals_view(vs@),
    decreases vs,
{
    let mut out: Vec<Val> = Vec::new();
    let mut k: usize = 0;
    while k < vs.len()
        invariant
            k <= vs.len(),
            vals_view(out@) == vals_view(vs@).take(k as int),
        decreases vs.len() - k,
    {
        let copy = vs[k].duplicate();
        proof {
            lemma_vals_view_push(out@, copy);
            assert(vals_view(vs@).take(k + 1) =~= vals_view(vs@).take(k as int).push(vs@[k as int]@));
        }
        out.push(copy);
        k += 1;
    }
    assert(vals_view(vs@).take(vs.len() as int) =~= vals_view(vs@));
    out
}

impl Val {
    /// A reference to `name`.
    pub fn atom(name: Ident) -> (r: Val)
        ensures
            r@ == ValView::Atom(name@),
    {
        Val::Atom(name)
    }

    /// A process with the given name, label and body.
    pub fn process(name: Option<Ident>, label: Option<Ident>, body: Option<Vec<Val>>) -> (r: Val)
        ensures
            r@ == (ValView::Process {
                name: name_view(name),
                label: name_view(label),
                body: match body {
                    Some(vs) => Some(vals_view(vs@)),
                    None => None,
                },
            }),
    {
        let body = match body {
            Some(vs) => Some(Body::All(vs)),
            None => None,
        };
        proof {
            lemma_process_view(name, label, body);
        }
        Val::Process { name, label, body }
    }

    /// A chain with the given name along the given path.
    pub fn chain(name: Option<Ident>, path: Vec<Val>) -> (r: Val)
        ensures
            r@ == (ValView::Chain { name: name_view(name), path: vals_view(path@) }),
    {
        proof {
            lemma_chain_view(name, path);
        }
        Val::Chain { name, path }
    }

    /// A deep copy of this term.
    pub fn duplicate(&self) -> (r: Val)
        ensures
            r@ == self@,
        decreases self,
    {
        match self {
            Val::Atom(i) => Val::Atom(i.duplicate()),
            Val::Process { name, label, body } => {
                let name2 = copy_name(name);
                let label2 = copy_name(label);
                let body2 = match body {
                    None => None,
                    Some(Body::All(vs)) => Some(Body::All(copy_all(vs))),
                };
                proof {
                    lemma_process_view(*name, *label, *body);
                    lemma_process_view(name2, label2, body2);
                }
                Val::Process { name: name2, label: label2, body: body2 }
            },
            Val::Chain { name, path } => {
                let name2 = copy_name(name);
                let path2 = copy_all(path);
                proof {
                    lemma_chain_view(*name, *path);
                    lemma_chain_view(name2, path2);
                }
                Val::Chain { name: name2, path: path2 }
            },
        }
    }

    /// The name by which this term is known, if any.
    pub fn key(&self) -> (r: Option<&Ident>)
        ensures
            match r {
                Some(i) => key_of(self@) == Some(i@),
                None => key_of(self@) is None,
            },
    {
        match self {
            Val::Atom(_) => None,
            Val::Process { name, label, body } => {
                proof {
                    lemma_process_view(*name, *label, *body);
                }
                match name {
                    Some(n) => Some(n),
                    None => match label {
                        Some(l) => Some(l),
                        None => None,
                    },
                }
            },
            Val::Chain { name, path } => {
                proof {
                    lemma_chain_view(*name, *path);
                }
                match name {
                    Some(n) => Some(n),
                    None => None,
                }
            },
        }
    }
}

impl Default for Val {
    /// The anonymous process without a body.
    fn default() -> (r: Val)
        ensures
            r@ == empty_process(),
    {
        Val::Process { name: None, label: None, body: None }
    }
}

} // verus!
