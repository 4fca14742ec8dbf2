//! What the surrounding application decides: which elements a resolved
//! query emphasises, and which edits of the model are worth drawing.

use vstd::prelude::*;
use crate::highlight::{blank, is_blank};
use crate::ident::{same_bytes, Ident};
use crate::lexer::copy_range;
use crate::val::{key_of, lemma_chain_view, lemma_process_view, vals_view, Body, Val, ValView};

verus! {

/// The properties with which the application's root view is started: none.
pub struct AppProps {}

/// What to emphasise in a drawing.
#[derive(Clone, Debug, PartialEq, Eq)]
pub enum Highlight {
    /// The box of the process of this name.
    Box(Ident),
    /// The arrow of the chain of this name.
    Arrow(Ident),
    /// The arrow from the first process to the second.
    Edge(Ident, Ident),
}

/// The mathematical value of a [`Highlight`].
pub enum HighlightView {
    Box(Seq<u8>),
    Arrow(Seq<u8>),
    Edge(Seq<u8>, Seq<u8>),
}

impl View for Highlight {
    type V = HighlightView;

    open spec fn view(&self) -> HighlightView {
        match self {
            Highlight::Box(p) => HighlightView::Box(p@),
            Highlight::Arrow(c) => HighlightView::Arrow(c@),
            Highlight::Edge(p, q) => HighlightView::Edge(p@, q@),
        }
    }
}

/// The values of a sequence of highlights, in order.
pub open spec fn highlights_view(hs: Seq<Highlight>) -> Seq<HighlightView> {
    Seq::new(hs.len(), |k: int| hs[k]@)
}

/// The name by which a process is picked out: its name or, where it has
/// none, its label. Anything but a process is picked out by none.
pub open spec fn process_key(v: ValView) -> Option<Seq<u8>> {
    if v is Process {
        key_of(v)
    } else {
        None
    }
}

/// The edges among the first `n` links of a path: one for each pair of
/// neighbours that are both processes picked out by a name.
pub open spec fn edges(path: Seq<ValView>, n: nat) -> Seq<HighlightView>
    decreases n,
{
    if n == 0 || n >= path.len() {
        Seq::empty()
    } else {
        let before = edges(path, (n - 1) as nat);
        match (process_key(path[n - 1]), process_key(path[n as int])) {
            (Some(p), Some(q)) => before.push(HighlightView::Edge(p, q)),
            _ => before,
        }
    }
}

/// What one member of the root asks to emphasise: a process its box, a
/// named chain its arrow, a chain without a name the edges along its path.
/// A reference that stayed unresolved asks for nothing.
pub open spec fn member_rules(v: ValView) -> Seq<HighlightView> {
    match v {
        ValView::Atom(_) => Seq::empty(),
        ValView::Process { name, label, body } => match process_key(v) {
            Some(p) => seq![HighlightView::Box(p)],
            None => Seq::empty(),
        },
        ValView::Chain { name, path } => match name {
            Some(c) => seq![HighlightView::Arrow(c)],
            None => edges(path, (path.len() - 1) as nat),
        },
    }
}

/// What the first `n` members ask to emphasise, in order.
pub open spec fn rules_upto(members: Seq<ValView>, n: nat) -> Seq<HighlightView>
    decreases n,
{
    if n == 0 || n > members.len() {
        Seq::empty()
    } else {
        rules_upto(members, (n - 1) as nat) + member_rules(members[n - 1])
    }
}

/// What a resolved highlight term asks to emphasise: what the members of
/// the root's body ask for, in order. A root that is no process with a
/// body asks for nothing.
pub open spec fn highlight_rules_spec(root: ValView) -> Seq<HighlightView> {
    match root {
        ValView::Process { name, label, body } => match body {
            Some(members) => rules_upto(members, members.len()),
            None => Seq::empty(),
        },
        _ => Seq::empty(),
    }
}

fn box_name(v: &Val) -> (r: Option<&Ident>)
    ensures
        match r {
            Some(i) => process_key(v@) == Some(i@),
            None => process_key(v@) is None,
        },
{
    match v {
        Val::Process { name: _, label: _, body: _ } => v.key(),
        _ => None,
    }
}

fn push_edges(out: &mut Vec<Highlight>, path: &Vec<Val>)
    ensures
        highlights_view(final(out)@) == highlights_view(old(out)@) + edges(
            vals_view(path@),
            (path@.len() - 1) as nat,
        ),
{
    let ghost start = highlights_view(out@);
    let ghost links = vals_view(path@);
    assert(start + Seq::<HighlightView>::empty() =~= start);
    if path.len() < 2 {
        return ;
    }
    let mut n: usize = 0;
    while n + 1 < path.len()
        invariant
            n + 1 <= path.len(),
            links == vals_view(path@),
            highlights_view(out@) == start + edges(links, n as nat),
        decreases path.len() - n,
    {
        let ghost before = edges(links, n as nat);
        assert(links[n as int] == path@[n as int]@);
        assert(links[n + 1] == path@[n + 1]@);
        match box_name(&path[n]) {
            Some(p) => match box_name(&path[n + 1]) {
                Some(q) => {
                    let edge = Highlight::Edge(p.duplicate(), q.duplicate());
                    let ghost old_out = out@;
                    out.push(edge);
                    assert(highlights_view(out@) =~= highlights_view(old_out).push(edge@));
                    assert(start + before.push(edge@) =~= (start + before).push(edge@));
                },
                None => {},
            },
            None => {},
        }
        n += 1;
    }
}

/// What a resolved highlight term asks to emphasise: for each member of
/// the root, a process its box, a named chain its arrow, a chain without
/// a name the edges between neighbouring processes. A reference that
/// stayed unresolved asks for nothing.
pub fn highlight_rules(root: &Val) -> (r: Vec<Highlight>)
    ensures
        highlights_view(r@) == highlight_rules_spec(root@),
{
    let mut out: Vec<Highlight> = Vec::new();
    assert(highlights_view(out@) =~= Seq::<HighlightView>::empty());
    match root {
        Val::Process { name, label, body } => {
            proof {
                lemma_process_view(*name, *label, *body);
            }
            match body {
                Some(Body::All(members)) => {
                    let ghost ms = vals_view(members@);
                    let mut k: usize = 0;
                    while k < members.len()
                        invariant
                            k <= members.len(),
                            ms == vals_view(members@),
                            highlights_view(out@) == rules_upto(ms, k as nat),
                        decreases members.len() - k,
                    {
                        let ghost before = rules_upto(ms, k as nat);
                        let ghost old_out = out@;
                        assert(ms[k as int] == members@[k as int]@);
                        let member = &members[k];
                        match member {
                            Val::Atom(_) => {
                                assert(before + Seq::<HighlightView>::empty() =~= before);
                            },
                            Val::Process { name: _, label: _, body: _ } => {
                                match box_name(member) {
                                    Some(p) => {
                                        let rule = Highlight::Box(p.duplicate());
                                        out.push(rule);
                                        assert(highlights_view(out@) =~= highlights_view(
                                            old_out,
                                        ).push(rule@));
                                        assert(before + seq![rule@] =~= before.push(rule@));
                                    },
                                    None => {
                                        assert(before + Seq::<HighlightView>::empty() =~= before);
                                    },
                                }
                            },
                            Val::Chain { name: chain_name, path } => {
                                proof {
                                    lemma_chain_view(*chain_name, *path);
                                }
                                match chain_name {
                                    Some(c) => {
                                        let rule = Highlight::Arrow(c.duplicate());
                                        out.push(rule);
                                        assert(highlights_view(out@) =~= highlights_view(
                                            old_out,
                                        ).push(rule@));
                                        assert(before + seq![rule@] =~= before.push(rule@));
                                    },
                                    None => {
                                        push_edges(&mut out, path);
                                    },
                                }
                            },
                        }
                        k += 1;
                    }
                },
                None => {},
            }
        },
        Val::Atom(_) => {},
        Val::Chain { name, path } => {
            proof {
                lemma_chain_view(*name, *path);
            }
        },
    }
    out
}

/// What to do with an edited model text.
#[derive(Clone, Copy, Debug, PartialEq, Eq)]
pub enum Step {
    /// The text is the one drawn last: do nothing.
    Skip,
    /// The text is blank: show the empty drawing, without drawing.
    Clear,
    /// Draw the text.
    Draw,
}

/// The memory of the drawing cycle: the model text that was drawn last.
pub struct EditCycle {
    drawn: Option<Vec<u8>>,
}

impl View for EditCycle {
    type V = Option<Seq<u8>>;

    closed spec fn view(&self) -> Option<Seq<u8>> {
        match self.drawn {
            Some(text) => Some(text@),
            None => None,
        }
    }
}

/// The step that an edit calls for when `drawn` was drawn last.
pub open spec fn step_for(drawn: Option<Seq<u8>>, model: Seq<u8>) -> Step {
    if drawn == Some(model) {
        Step::Skip
    } else if blank(model) {
        Step::Clear
    } else {
        Step::Draw
    }
}

impl EditCycle {
    /// A cycle in which nothing has been drawn yet.
    pub fn new() -> (r: EditCycle)
        ensures
            r@ is None,
    {
        EditCycle { drawn: None }
    }

    /// Decides what an edit calls for. An edit that repeats the text drawn
    /// last is skipped; a blank text clears the drawing without being
    /// drawn; every other text is drawn.
    pub fn on_edit(&self, model: &[u8]) -> (r: Step)
        ensures
            r == step_for(self@, model@),
    {
        match &self.drawn {
            Some(text) => {
                if same_bytes(text.as_slice(), model) {
                    return Step::Skip;
                }
            },
            None => {},
        }
        if is_blank(model) {
            Step::Clear
        } else {
            Step::Draw
        }
    }

    /// Records how the step for `model` ended. Only a text that was shown
    /// is remembered: after a failure the same text is tried again.
    pub fn finished(&mut self, model: &[u8], shown: bool)
        ensures
            final(self)@ == if shown {
                Some(model@)
            } else {
                old(self)@
            },
    {
        if shown {
            let text = copy_range(model, 0, model.len());
            assert(text@ =~= model@);
            self.drawn = Some(text);
        }
    }
}

} // verus!
