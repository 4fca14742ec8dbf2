//! Well-formed programs: what the parser yields can be written down and
//! read again.

use vstd::prelude::*;
use crate::fact::{FactView, SynView};
use crate::lexer::{
    dash_word, draw_word, ident_at, ident_end, is_ident_byte, lemma_ident_end,
    lemma_lexeme_bounds, lemma_skip_spaces, lexeme_at, skip_spaces, space_len, Lexeme,
};
use crate::parser::{finish, initial, line_result, step, FrameView, ParserView};
use crate::syntax::{parse_from, parse_spec, span_of};
use crate::token::{Span, TokenView};

verus! {

/// Bytes that the lexer reads as one run: name bytes throughout, with no
/// blank among them.
pub open spec fn solid(name: Seq<u8>) -> bool {
    &&& forall|k: int| 0 <= k < name.len() ==> is_ident_byte(#[trigger] name[k])
    &&& forall|k: int| 0 <= k < name.len() ==> #[trigger] space_len(name, k) == 0
}

/// A name that the lexer reads as a name token: not empty, one run of name
/// bytes, and not the keyword `draw`.
pub open spec fn plain_name(name: Seq<u8>) -> bool {
    &&& name.len() > 0
    &&& solid(name)
    &&& name != draw_word()
}

/// A name that can head a fact or stand as an atom: a plain name, or the
/// dash.
pub open spec fn is_name(name: Seq<u8>) -> bool {
    plain_name(name) || name == dash_word()
}

/// A fact all of whose names can be written down and read again.
pub open spec fn wf_fact(f: FactView) -> bool
    decreases f,
{
    match f {
        FactView::Atom(name) => is_name(name),
        FactView::Fact(head, body) => is_name(head) && forall|k: int|
            0 <= k < body.len() ==> wf_fact(#[trigger] body[k]),
    }
}

/// Facts that are all well formed.
pub open spec fn wf_facts(fs: Seq<FactView>) -> bool {
    forall|k: int| 0 <= k < fs.len() ==> wf_fact(#[trigger] fs[k])
}

/// Plain names throughout.
pub open spec fn plain_names(names: Seq<Seq<u8>>) -> bool {
    forall|k: int| 0 <= k < names.len() ==> plain_name(#[trigger] names[k])
}

/// A unit that can be written down and read again: a well-formed fact, or
/// a directive led by `draw` and followed by plain names.
pub open spec fn wf_syn(syn: SynView) -> bool {
    match syn {
        SynView::Fact(f) => wf_fact(f),
        SynView::Directive(keyword, names) => keyword == draw_word() && plain_names(names),
    }
}

/// A program all of whose units are well formed.
pub open spec fn wf_program(program: Seq<SynView>) -> bool {
    forall|k: int| 0 <= k < program.len() ==> wf_syn(#[trigger] program[k])
}

/// A token as the lexer makes it: a name token holds a plain name.
pub open spec fn lexed(token: TokenView) -> bool {
    token matches TokenView::Ident(name) ==> plain_name(name)
}

/// An open bracket whose head and children are well formed.
pub open spec fn wf_frame(frame: FrameView) -> bool {
    is_name(frame.name) && wf_facts(frame.children)
}

/// A parser state that holds nothing but well-formed parts.
pub open spec fn wf_state(s: ParserView) -> bool {
    &&& wf_program(s.done)
    &&& s.directive matches Some(names) ==> plain_names(names)
    &&& wf_facts(s.items)
    &&& forall|k: int| 0 <= k < s.stack.len() ==> wf_frame(#[trigger] s.stack[k])
}

proof fn lemma_add_item_wf(s: ParserView, item: FactView)
    requires
        wf_state(s),
        wf_fact(item),
    ensures
        wf_state(crate::parser::add_item(s, item)),
{
    let after = crate::parser::add_item(s, item);
    if s.stack.len() > 0 {
        let top = s.stack.last();
        assert(wf_frame(top));
        assert forall|k: int| 0 <= k < after.stack.len() implies wf_frame(
            #[trigger] after.stack[k],
        ) by {
            if k < s.stack.len() - 1 {
                assert(after.stack[k] == s.stack[k]);
            } else {
                assert forall|j: int| 0 <= j < after.stack[k].children.len() implies wf_fact(
                    #[trigger] after.stack[k].children[j],
                ) by {
                    if j < top.children.len() {
                        assert(after.stack[k].children[j] == top.children[j]);
                    }
                }
            }
        }
    } else {
        assert forall|j: int| 0 <= j < after.items.len() implies wf_fact(
            #[trigger] after.items[j],
        ) by {
            if j < s.items.len() {
                assert(after.items[j] == s.items[j]);
            }
        }
    }
}

proof fn lemma_line_result_wf(done: Seq<SynView>, items: Seq<FactView>)
    requires
        wf_program(done),
        wf_facts(items),
    ensures
        wf_program(done + line_result(items)),
{
    let line = line_result(items);
    assert forall|k: int| 0 <= k < (done + line).len() implies wf_syn(#[trigger] (done + line)[k]) by {
        if k < done.len() {
            assert((done + line)[k] == done[k]);
        } else {
            assert((done + line)[k] == line[k - done.len()]);
            assert(wf_fact(items[0]));
            if items.len() > 1 && items[0] is Atom {
                let body = items.subrange(1, items.len() as int);
                assert forall|j: int| 0 <= j < body.len() implies wf_fact(#[trigger] body[j]) by {
                    assert(body[j] == items[j + 1]);
                }
            }
        }
    }
}

/// A well-formed state stays well formed under every token that the lexer
/// can make.
pub proof fn lemma_step_wf(s: ParserView, token: TokenView)
    requires
        wf_state(s),
        lexed(token),
        step(s, token) is Some,
    ensures
        wf_state(step(s, token)->0),
{
    let after = step(s, token)->0;
    match s.directive {
        Some(names) => {
            match token {
                TokenView::Ident(name) => {
                    let more = names.push(name);
                    assert forall|k: int| 0 <= k < more.len() implies plain_name(
                        #[trigger] more[k],
                    ) by {
                        if k < names.len() {
                            assert(more[k] == names[k]);
                        }
                    }
                },
                TokenView::Newline => {
                    let line = SynView::Directive(draw_word(), names);
                    assert forall|k: int| 0 <= k < after.done.len() implies wf_syn(
                        #[trigger] after.done[k],
                    ) by {
                        if k < s.done.len() {
                            assert(after.done[k] == s.done[k]);
                        }
                    }
                },
                _ => {},
            }
        },
        None => {
            match token {
                TokenView::Draw => {},
                TokenView::Ident(name) => {
                    lemma_add_item_wf(s, FactView::Atom(name));
                },
                TokenView::Dash => {
                    lemma_add_item_wf(s, FactView::Atom(dash_word()));
                },
                TokenView::Open => {
                    if s.stack.len() > 0 {
                        let top = s.stack.last();
                        assert(wf_frame(top));
                        assert(wf_fact(top.children.last()));
                        assert forall|k: int| 0 <= k < after.stack.len() implies wf_frame(
                            #[trigger] after.stack[k],
                        ) by {
                            if k < s.stack.len() - 1 {
                                assert(after.stack[k] == s.stack[k]);
                            } else if k == s.stack.len() - 1 {
                                assert forall|j: int|
                                    0 <= j < after.stack[k].children.len() implies wf_fact(
                                    #[trigger] after.stack[k].children[j],
                                ) by {
                                    assert(after.stack[k].children[j] == top.children[j]);
                                }
                            } else {
                            }
                        }
                    } else {
                        assert(wf_fact(s.items.last()));
                        assert forall|j: int| 0 <= j < after.items.len() implies wf_fact(
                            #[trigger] after.items[j],
                        ) by {
                            assert(after.items[j] == s.items[j]);
                        }
                        assert forall|k: int| 0 <= k < after.stack.len() implies wf_frame(
                            #[trigger] after.stack[k],
                        ) by {
                        }
                    }
                },
                TokenView::Close => {
                    let top = s.stack.last();
                    assert(wf_frame(top));
                    let popped = ParserView { stack: s.stack.drop_last(), ..s };
                    assert forall|k: int| 0 <= k < popped.stack.len() implies wf_frame(
                        #[trigger] popped.stack[k],
                    ) by {
                        assert(popped.stack[k] == s.stack[k]);
                    }
                    lemma_add_item_wf(popped, FactView::Fact(top.name, top.children));
                },
                TokenView::Newline => {
                    lemma_line_result_wf(s.done, s.items);
                },
            }
        },
    }
}

/// A program that comes out of a well-formed state is well formed.
pub proof fn lemma_finish_wf(s: ParserView)
    requires
        wf_state(s),
        finish(s) is Some,
    ensures
        wf_program(finish(s)->0),
{
    match s.directive {
        Some(names) => {
            let out = finish(s)->0;
            assert forall|k: int| 0 <= k < out.len() implies wf_syn(#[trigger] out[k]) by {
                if k < s.done.len() {
                    assert(out[k] == s.done[k]);
                }
            }
        },
        None => {
            lemma_line_result_wf(s.done, s.items);
        },
    }
}

/// Every token that the lexer reads is one that it can read again from
/// its own text.
pub proof fn lemma_lexeme_lexed(src: Seq<u8>, pos: int)
    requires
        0 <= pos <= src.len(),
    ensures
        lexeme_at(src, pos) matches Lexeme::Token { token, start, end } ==> lexed(token),
{
    lemma_skip_spaces(src, pos);
    let p = skip_spaces(src, pos);
    if p < src.len() && is_ident_byte(src[p]) {
        lemma_ident_end(src, p);
        let e = ident_end(src, p);
        let word = src.subrange(p, e);
        assert forall|k: int| 0 <= k < word.len() implies is_ident_byte(#[trigger] word[k]) by {
            assert(word[k] == src[p + k]);
            assert(ident_at(src, p + k));
        }
        assert forall|k: int| 0 <= k < word.len() implies #[trigger] space_len(word, k) == 0 by {
            assert(ident_at(src, p + k));
            assert(word[k] == src[p + k]);
            if k + 1 < word.len() {
                assert(word[k + 1] == src[p + k + 1]);
            }
            if k + 2 < word.len() {
                assert(word[k + 2] == src[p + k + 2]);
            }
        }
    }
}

proof fn lemma_parse_wf(src: Seq<u8>, pos: int, last: Span, s: ParserView)
    requires
        0 <= pos <= src.len(),
        wf_state(s),
        parse_from(src, pos, last, s) is Ok,
    ensures
        wf_program(parse_from(src, pos, last, s)->Ok_0),
    decreases src.len() - pos,
{
    lemma_lexeme_bounds(src, pos);
    lemma_lexeme_lexed(src, pos);
    match lexeme_at(src, pos) {
        Lexeme::End => {
            lemma_finish_wf(s);
        },
        Lexeme::Error { start, end } => {},
        Lexeme::Token { token, start, end } => {
            lemma_step_wf(s, token);
            lemma_parse_wf(src, end, span_of(start, end), step(s, token)->0);
        },
    }
}

/// Whatever text is parsed, the program that comes out is well formed.
pub proof fn lemma_parsed_is_well_formed(src: Seq<u8>)
    requires
        parse_spec(src) is Ok,
    ensures
        wf_program(parse_spec(src)->Ok_0),
{
    lemma_parse_wf(src, 0, Span { start: 0, end: 0 }, initial());
}

} // verus!
