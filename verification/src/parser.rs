//! The parser: a machine that takes tokens one at a time.

use vstd::prelude::*;
use crate::fact::{
    facts_view, idents_view, lemma_fact_view, lemma_facts_view_push, lemma_idents_view_push,
    lemma_syns_view_push, syns_view, Directive, Fact, FactView, Syn, SynView,
};
use crate::ident::Ident;
use crate::lexer::{dash_word, draw_word};
use crate::token::{Token, TokenView};

verus! {

/// An open bracket: the name before it and the children read so far.
pub struct FrameView {
    pub name: Seq<u8>,
    pub children: Seq<FactView>,
}

/// The state of the parser between two tokens.
pub struct ParserView {
    /// The lines completed so far.
    pub done: Seq<SynView>,
    /// The names read so far on a directive line, if this is one.
    pub directive: Option<Seq<Seq<u8>>>,
    /// The items read so far on a fact line, outside every bracket.
    pub items: Seq<FactView>,
    /// The brackets that are open, outermost first.
    pub stack: Seq<FrameView>,
}

/// The state before any token.
pub open spec fn initial() -> ParserView {
    ParserView { done: Seq::empty(), directive: None, items: Seq::empty(), stack: Seq::empty() }
}

/// What a fact line amounts to. A single item stands for itself; a name
/// followed by further items is a fact with these items as its body.
pub open spec fn line_result(items: Seq<FactView>) -> Seq<SynView> {
    if items.len() == 0 {
        Seq::empty()
    } else if items.len() > 1 && items[0] is Atom {
        seq![SynView::Fact(FactView::Fact(items[0]->Atom_0, items.subrange(1, items.len() as int)))]
    } else {
        seq![SynView::Fact(items[0])]
    }
}

/// Adds a finished item to the innermost open bracket, or to the line.
pub open spec fn add_item(s: ParserView, item: FactView) -> ParserView {
    if s.stack.len() > 0 {
        let top = s.stack.last();
        ParserView {
            stack: s.stack.drop_last().push(
                FrameView { name: top.name, children: top.children.push(item) },
            ),
            ..s
        }
    } else {
        ParserView { items: s.items.push(item), ..s }
    }
}

/// A name arrives. On a line whose first item is a bracketed fact nothing
/// may follow that fact.
pub open spec fn push_word(s: ParserView, name: Seq<u8>) -> Option<ParserView> {
    if s.stack.len() == 0 && s.items.len() > 0 && s.items[0] is Fact {
        None
    } else {
        Some(add_item(s, FactView::Atom(name)))
    }
}

/// `[` arrives: the name just before it becomes the head of a new bracket.
pub open spec fn open_bracket(s: ParserView) -> Option<ParserView> {
    if s.stack.len() > 0 {
        let top = s.stack.last();
        if top.children.len() > 0 && top.children.last() is Atom {
            Some(
                ParserView {
                    stack: s.stack.drop_last().push(
                        FrameView { name: top.name, children: top.children.drop_last() },
                    ).push(
                        FrameView { name: top.children.last()->Atom_0, children: Seq::empty() },
                    ),
                    ..s
                },
            )
        } else {
            None
        }
    } else if s.items.len() > 0 && s.items.last() is Atom {
        Some(
            ParserView {
                items: s.items.drop_last(),
                stack: seq![FrameView { name: s.items.last()->Atom_0, children: Seq::empty() }],
                ..s
            },
        )
    } else {
        None
    }
}

/// `]` arrives: the innermost bracket becomes a fact, an item of what
/// encloses it.
pub open spec fn close_bracket(s: ParserView) -> Option<ParserView> {
    if s.stack.len() > 0 {
        let top = s.stack.last();
        Some(
            add_item(
                ParserView { stack: s.stack.drop_last(), ..s },
                FactView::Fact(top.name, top.children),
            ),
        )
    } else {
        None
    }
}

/// The state after one more token, or `None` where the token is refused.
pub open spec fn step(s: ParserView, token: TokenView) -> Option<ParserView> {
    match s.directive {
        Some(names) => match token {
            TokenView::Ident(name) => Some(ParserView { directive: Some(names.push(name)), ..s }),
            TokenView::Newline => Some(
                ParserView {
                    done: s.done.push(SynView::Directive(draw_word(), names)),
                    directive: None,
                    ..s
                },
            ),
            _ => None,
        },
        None => match token {
            TokenView::Draw => if s.items.len() == 0 && s.stack.len() == 0 {
                Some(ParserView { directive: Some(Seq::empty()), ..s })
            } else {
                None
            },
            TokenView::Ident(name) => push_word(s, name),
            TokenView::Dash => push_word(s, dash_word()),
            TokenView::Open => open_bracket(s),
            TokenView::Close => close_bracket(s),
            TokenView::Newline => if s.stack.len() > 0 {
                None
            } else {
                Some(ParserView { done: s.done + line_result(s.items), items: Seq::empty(), ..s })
            },
        },
    }
}

/// The program read when the input ends in state `s`, or `None` where a
/// bracket is still open.
pub open spec fn finish(s: ParserView) -> Option<Seq<SynView>> {
    if s.stack.len() > 0 {
        None
    } else {
        match s.directive {
            Some(names) => Some(s.done.push(SynView::Directive(draw_word(), names))),
            None => Some(s.done + line_result(s.items)),
        }
    }
}

/// The state after a run of tokens, or `None` where one of them is refused.
pub open spec fn feed(s: ParserView, tokens: Seq<TokenView>) -> Option<ParserView>
    decreases tokens.len(),
{
    if tokens.len() == 0 {
        Some(s)
    } else {
        match step(s, tokens[0]) {
            Some(next) => feed(next, tokens.drop_first()),
            None => None,
        }
    }
}

/// The program that a whole run of tokens spells, if it is accepted.
pub open spec fn parse_tokens_spec(tokens: Seq<TokenView>) -> Option<Seq<SynView>> {
    match feed(initial(), tokens) {
        Some(s) => finish(s),
        None => None,
    }
}

/// The parser refused a token, or the end of the input.
#[derive(Clone, Copy, Debug, PartialEq, Eq)]
pub struct Rejected;

struct Frame {
    name: Ident,
    children: Vec<Fact>,
}

impl View for Frame {
    type V = FrameView;

    closed spec fn view(&self) -> FrameView {
        FrameView { name: self.name@, children: facts_view(self.children@) }
    }
}

/// A parser that takes tokens one at a time.
pub struct Parser {
    done: Vec<Syn>,
    in_directive: bool,
    names: Vec<Ident>,
    items: Vec<Fact>,
    stack: Vec<Frame>,
}

impl View for Parser {
    type V = ParserView;

    closed spec fn view(&self) -> ParserView {
        ParserView {
            done: syns_view(self.done@),
            directive: if self.in_directive {
                Some(idents_view(self.names@))
            } else {
                None
            },
            items: facts_view(self.items@),
            stack: Seq::new(self.stack@.len(), |k: int| self.stack@[k]@),
        }
    }
}

/// The keyword `draw` as a name.
pub fn draw_ident() -> (r: Ident)
    ensures
        r@ == draw_word(),
{
    let r = Ident(vec![100u8, 114u8, 97u8, 119u8]);
    assert(r@ =~= draw_word());
    r
}

/// The dash as a name.
pub fn dash_ident() -> (r: Ident)
    ensures
        r@ == dash_word(),
{
    let r = Ident(vec![45u8]);
    assert(r@ =~= dash_word());
    r
}

impl Parser {
    /// A parser that has read nothing.
    pub fn new() -> (r: Parser)
        ensures
            r@ == initial(),
    {
        let r = Parser {
            done: Vec::new(),
            in_directive: false,
            names: Vec::new(),
            items: Vec::new(),
            stack: Vec::new(),
        };
        assert(r@.done =~= Seq::empty());
        assert(r@.items =~= Seq::empty());
        assert(r@.stack =~= Seq::empty());
        r
    }

    fn add(&mut self, item: Fact)
        ensures
            final(self)@ == add_item(old(self)@, item@),
    {
        if self.stack.len() > 0 {
            let ghost before = self.stack@;
            let mut top = self.stack.pop().unwrap();
            proof {
                lemma_facts_view_push(top.children@, item);
            }
            top.children.push(item);
            self.stack.push(top);
            assert(self@.stack =~= add_item(old(self)@, item@).stack);
        } else {
            proof {
                lemma_facts_view_push(self.items@, item);
            }
            self.items.push(item);
            assert(self@.stack =~= old(self)@.stack);
        }
    }

    fn word(&mut self, name: Ident) -> (r: Result<(), Rejected>)
        requires
            !old(self).in_directive,
        ensures
            match push_word(old(self)@, name@) {
                Some(s) => r is Ok && final(self)@ == s,
                None => r is Err && final(self)@ == old(self)@,
            },
    {
        if self.stack.len() == 0 && self.items.len() > 0 {
            match &self.items[0] {
                Fact::Fact(_, _) => {
                    return Err(Rejected);
                },
                Fact::Atom(_) => {},
            }
        }
        self.add(Fact::Atom(name));
        Ok(())
    }

    fn open(&mut self) -> (r: Result<(), Rejected>)
        requires
            !old(self).in_directive,
        ensures
            match open_bracket(old(self)@) {
                Some(s) => r is Ok && final(self)@ == s,
                None => r is Err && final(self)@ == old(self)@,
            },
    {
        if self.stack.len() > 0 {
            let depth = self.stack.len();
            let n = self.stack[depth - 1].children.len();
            if n == 0 {
                return Err(Rejected);
            }
            match &self.stack[depth - 1].children[n - 1] {
                Fact::Fact(_, _) => {
                    return Err(Rejected);
                },
                Fact::Atom(_) => {},
            }
            let mut top = self.stack.pop().unwrap();
            match top.children.pop().unwrap() {
                Fact::Atom(name) => {
                    assert(facts_view(top.children@) =~= old(self)@.stack.last().children.drop_last());
                    self.stack.push(top);
                    self.stack.push(Frame { name, children: Vec::new() });
                    assert(facts_view(Seq::<Fact>::empty()) =~= Seq::<FactView>::empty());
                    assert(self@.stack =~= open_bracket(old(self)@)->0.stack);
                },
                Fact::Fact(_, _) => {},
            }
            Ok(())
        } else {
            let n = self.items.len();
            if n == 0 {
                return Err(Rejected);
            }
            match &self.items[n - 1] {
                Fact::Fact(_, _) => {
                    return Err(Rejected);
                },
                Fact::Atom(_) => {},
            }
            match self.items.pop().unwrap() {
                Fact::Atom(name) => {
                    assert(facts_view(self.items@) =~= old(self)@.items.drop_last());
                    self.stack.push(Frame { name, children: Vec::new() });
                    assert(facts_view(Seq::<Fact>::empty()) =~= Seq::<FactView>::empty());
                    assert(self@.stack =~= open_bracket(old(self)@)->0.stack);
                },
                Fact::Fact(_, _) => {},
            }
            Ok(())
        }
    }

    fn close(&mut self) -> (r: Result<(), Rejected>)
        requires
            !old(self).in_directive,
        ensures
            match close_bracket(old(self)@) {
                Some(s) => r is Ok && final(self)@ == s,
                None => r is Err && final(self)@ == old(self)@,
            },
    {
        if self.stack.len() == 0 {
            return Err(Rejected);
        }
        let top = self.stack.pop().unwrap();
        let ghost mid = self@;
        assert(mid.stack =~= old(self)@.stack.drop_last());
        proof {
            lemma_fact_view(top.name, top.children);
        }
        self.add(Fact::Fact(top.name, top.children));
        Ok(())
    }

    /// The line read so far, as a unit of the program, if it holds anything.
    fn end_line(&mut self)
        requires
            !old(self).in_directive,
            old(self).stack@.len() == 0,
        ensures
            final(self)@ == (ParserView {
                done: old(self)@.done + line_result(old(self)@.items),
                items: Seq::empty(),
                ..old(self)@
            }),
    {
        let mut items: Vec<Fact> = Vec::new();
        std::mem::swap(&mut self.items, &mut items);
        assert(facts_view(self.items@) =~= Seq::<FactView>::empty());
        assert(self@.stack =~= old(self)@.stack);
        if items.len() == 0 {
            assert(self@.done =~= old(self)@.done + line_result(old(self)@.items));
            return ;
        }
        let ghost all = items@;
        let first = items.remove(0);
        let fact = if items.len() > 0 {
            match first {
                Fact::Atom(head) => {
                    proof {
                        lemma_fact_view(head, items);
                        assert(facts_view(items@) =~= facts_view(all).subrange(
                            1,
                            all.len() as int,
                        ));
                    }
                    Fact::Fact(head, items)
                },
                other => other,
            }
        } else {
            first
        };
        proof {
            lemma_syns_view_push(self.done@, Syn::Fact(fact));
            assert(line_result(facts_view(all)) =~= seq![SynView::Fact(fact@)]);
            assert(syns_view(self.done@).push(SynView::Fact(fact@)) =~= old(self)@.done
                + line_result(old(self)@.items));
        }
        self.done.push(Syn::Fact(fact));
    }

    /// Takes one token. A refused token leaves the parser as it was.
    pub fn parse(&mut self, token: Token) -> (r: Result<(), Rejected>)
        ensures
            match step(old(self)@, token@) {
                Some(s) => r is Ok && final(self)@ == s,
                None => r is Err && final(self)@ == old(self)@,
            },
    {
        if self.in_directive {
            match token {
                Token::Ident(name) => {
                    proof {
                        lemma_idents_view_push(self.names@, name);
                    }
                    self.names.push(name);
                    assert(self@.stack =~= old(self)@.stack);
                    Ok(())
                },
                Token::Newline => {
                    let mut names: Vec<Ident> = Vec::new();
                    std::mem::swap(&mut self.names, &mut names);
                    let syn = Syn::Directive(Directive(draw_ident(), names));
                    proof {
                        lemma_syns_view_push(self.done@, syn);
                    }
                    self.done.push(syn);
                    self.in_directive = false;
                    assert(self@.stack =~= old(self)@.stack);
                    Ok(())
                },
                _ => Err(Rejected),
            }
        } else {
            match token {
                Token::Draw => {
                    if self.items.len() == 0 && self.stack.len() == 0 {
                        self.in_directive = true;
                        self.names = Vec::new();
                        assert(idents_view(self.names@) =~= Seq::<Seq<u8>>::empty());
                        assert(self@.stack =~= old(self)@.stack);
                        Ok(())
                    } else {
                        Err(Rejected)
                    }
                },
                Token::Ident(name) => self.word(name),
                Token::Dash => self.word(dash_ident()),
                Token::Open => self.open(),
                Token::Close => self.close(),
                Token::Newline => {
                    if self.stack.len() > 0 {
                        Err(Rejected)
                    } else {
                        self.end_line();
                        Ok(())
                    }
                },
            }
        }
    }

    /// Ends the input and yields the program, unless a bracket is open.
    pub fn end_of_input(self) -> (r: Result<Vec<Syn>, Rejected>)
        ensures
            match finish(self@) {
                Some(program) => r matches Ok(v) && syns_view(v@) == program,
                None => r is Err,
            },
    {
        let mut this = self;
        if this.stack.len() > 0 {
            return Err(Rejected);
        }
        if this.in_directive {
            let syn = Syn::Directive(Directive(draw_ident(), this.names));
            proof {
                lemma_syns_view_push(this.done@, syn);
            }
            this.done.push(syn);
            Ok(this.done)
        } else {
            this.end_line();
            Ok(this.done)
        }
    }
}

} // verus!
