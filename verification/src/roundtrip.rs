//! A program that is written down is read back.

use vstd::prelude::*;
use crate::fact::{FactView, SynView};
use crate::lexer::draw_word;
use crate::parser::{
    add_item, close_bracket, feed, finish, initial, line_result, open_bracket, parse_tokens_spec,
    step, FrameView, ParserView,
};
use crate::lexer::{
    ident_at, ident_end, is_ident_byte, is_space, lexeme_at, skip_spaces, space_len, Lexeme,
};
use crate::print::{
    body_tokens, fact_tokens, gap, name_token, names_tokens, program_text, program_tokens,
    syn_tokens, token_text, tokens_text,
};
use crate::syntax::{parse_from, parse_spec, span_of};
use crate::token::{ErrorView, Span, TokenView};
use crate::wellformed::{
    lemma_parsed_is_well_formed, lexed, plain_name, solid, wf_fact, wf_program, wf_syn,
};

verus! {

/// Feeding two runs of tokens one after the other is feeding their
/// concatenation.
pub proof fn lemma_feed_concat(s: ParserView, a: Seq<TokenView>, b: Seq<TokenView>)
    ensures
        feed(s, a + b) == match feed(s, a) {
            Some(mid) => feed(mid, b),
            None => None,
        },
    decreases a.len(),
{
    if a.len() == 0 {
        assert(a + b =~= b);
    } else {
        assert((a + b)[0] == a[0]);
        assert((a + b).drop_first() =~= a.drop_first() + b);
        match step(s, a[0]) {
            Some(next) => {
                lemma_feed_concat(next, a.drop_first(), b);
            },
            None => {},
        }
    }
}

proof fn lemma_feed_one(s: ParserView, token: TokenView)
    ensures
        feed(s, seq![token]) == step(s, token),
{
    let one = seq![token];
    assert(one.drop_first() =~= Seq::<TokenView>::empty());
    match step(s, token) {
        Some(next) => {
            assert(feed(next, one.drop_first()) == Some(next));
        },
        None => {},
    }
}

/// A state in which the parser can take a further item: it reads no
/// directive, and it stands inside a bracket or at the start of a line.
pub open spec fn ready(s: ParserView) -> bool {
    s.directive is None && (s.stack.len() > 0 || s.items.len() == 0)
}

/// The state `s` with one more bracket open, headed by `head`.
pub open spec fn opened(s: ParserView, head: Seq<u8>) -> ParserView {
    ParserView { stack: s.stack.push(FrameView { name: head, children: Seq::empty() }), ..s }
}

/// The state `s` with `items` added to its innermost bracket.
pub open spec fn filled(s: ParserView, items: Seq<FactView>) -> ParserView {
    ParserView {
        stack: s.stack.drop_last().push(
            FrameView { name: s.stack.last().name, children: s.stack.last().children + items },
        ),
        ..s
    }
}

proof fn lemma_feed_name(s: ParserView, name: Seq<u8>)
    requires
        ready(s),
    ensures
        step(s, name_token(name)) == Some(add_item(s, FactView::Atom(name))),
{
}

proof fn lemma_feed_open(s: ParserView, head: Seq<u8>)
    requires
        ready(s),
    ensures
        feed(s, seq![name_token(head), TokenView::Open]) == Some(opened(s, head)),
{
    let tokens = seq![name_token(head), TokenView::Open];
    lemma_feed_name(s, head);
    let s1 = add_item(s, FactView::Atom(head));
    assert(tokens.drop_first() =~= seq![TokenView::Open]);
    lemma_feed_one(s1, TokenView::Open);
    let s2 = open_bracket(s1);
    if s.stack.len() > 0 {
        let top = s.stack.last();
        assert(s1.stack.last().children.drop_last() =~= top.children);
        assert(s1.stack.drop_last() =~= s.stack.drop_last());
        assert(s2->0.stack =~= opened(s, head).stack);
    } else {
        assert(s1.items.drop_last() =~= s.items);
        assert(s2->0.stack =~= opened(s, head).stack);
    }
    assert(s2 == Some(opened(s, head)));
}

/// The tokens that spell a fact make the parser take that fact as one
/// item.
pub proof fn lemma_feed_fact(s: ParserView, f: FactView)
    requires
        ready(s),
    ensures
        feed(s, fact_tokens(f)) == Some(add_item(s, f)),
    decreases f, 0nat,
{
    match f {
        FactView::Atom(name) => {
            lemma_feed_name(s, name);
            lemma_feed_one(s, name_token(name));
        },
        FactView::Fact(head, body) => {
            let start = seq![name_token(head), TokenView::Open];
            let inside = body_tokens(body, body.len());
            let end = seq![TokenView::Close];
            lemma_feed_open(s, head);
            let s2 = opened(s, head);
            lemma_feed_body(s2, body, body.len());
            let s3 = filled(s2, body.take(body.len() as int));
            lemma_feed_concat(s, start, inside);
            lemma_feed_concat(s, start + inside, end);
            lemma_feed_one(s3, TokenView::Close);
            assert(body.take(body.len() as int) =~= body);
            assert(s3.stack.last().children =~= body);
            assert(s3.stack.drop_last() =~= s.stack);
            let closed = ParserView { stack: s3.stack.drop_last(), ..s3 };
            assert(closed == s);
            assert(close_bracket(s3) == Some(add_item(s, f)));
        },
    }
}

proof fn lemma_feed_body(s: ParserView, body: Seq<FactView>, n: nat)
    requires
        s.directive is None,
        s.stack.len() > 0,
        n <= body.len(),
    ensures
        feed(s, body_tokens(body, n)) == Some(filled(s, body.take(n as int))),
    decreases body, n,
{
    if n == 0 {
        assert(body.take(0) =~= Seq::<FactView>::empty());
        assert(s.stack.last().children + Seq::<FactView>::empty() =~= s.stack.last().children);
        assert(filled(s, body.take(0)).stack =~= s.stack);
        assert(filled(s, body.take(0)) == s);
    } else {
        let before = body_tokens(body, (n - 1) as nat);
        lemma_feed_body(s, body, (n - 1) as nat);
        let mid = filled(s, body.take(n - 1));
        lemma_feed_fact(mid, body[n - 1]);
        lemma_feed_concat(s, before, fact_tokens(body[n - 1]));
        let after = add_item(mid, body[n - 1]);
        assert(mid.stack.drop_last() =~= s.stack.drop_last());
        assert(s.stack.last().children + body.take(n as int) =~= (s.stack.last().children
            + body.take(n - 1)).push(body[n - 1]));
        assert(after.stack =~= filled(s, body.take(n as int)).stack);
        assert(after == filled(s, body.take(n as int)));
    }
}

/// The state at the start of a line, after the lines `done`.
pub open spec fn line_start(done: Seq<SynView>) -> ParserView {
    ParserView { done, directive: None, items: Seq::empty(), stack: Seq::empty() }
}

proof fn lemma_feed_names(s: ParserView, names: Seq<Seq<u8>>, n: nat)
    requires
        s.directive == Some(Seq::<Seq<u8>>::empty()),
        n <= names.len(),
    ensures
        feed(s, names_tokens(names).take(n as int)) == Some(
            ParserView { directive: Some(names.take(n as int)), ..s },
        ),
    decreases n,
{
    if n == 0 {
        assert(names_tokens(names).take(0) =~= Seq::<TokenView>::empty());
        assert(names.take(0) =~= Seq::<Seq<u8>>::empty());
    } else {
        lemma_feed_names(s, names, (n - 1) as nat);
        let before = names_tokens(names).take(n - 1);
        let token = TokenView::Ident(names[n - 1]);
        assert(names_tokens(names).take(n as int) =~= before + seq![token]);
        lemma_feed_concat(s, before, seq![token]);
        let mid = ParserView { directive: Some(names.take(n - 1)), ..s };
        lemma_feed_one(mid, token);
        assert(names.take(n - 1).push(names[n - 1]) =~= names.take(n as int));
    }
}

/// Whether the directives of a program are led by the keyword `draw`.
pub open spec fn keyword_is_draw(syn: SynView) -> bool {
    syn matches SynView::Directive(keyword, _) ==> keyword == draw_word()
}

proof fn lemma_feed_syn(done: Seq<SynView>, syn: SynView)
    requires
        keyword_is_draw(syn),
    ensures
        feed(line_start(done), syn_tokens(syn)) == Some(line_start(done.push(syn))),
{
    let s = line_start(done);
    let feedline = seq![TokenView::Newline];
    match syn {
        SynView::Fact(f) => {
            lemma_feed_fact(s, f);
            lemma_feed_concat(s, fact_tokens(f), feedline);
            let s1 = add_item(s, f);
            lemma_feed_one(s1, TokenView::Newline);
            assert(s1.items =~= seq![f]);
            assert(line_result(s1.items) =~= seq![syn]);
            assert(done + line_result(s1.items) =~= done.push(syn));
        },
        SynView::Directive(keyword, names) => {
            let head = seq![TokenView::Draw];
            lemma_feed_one(s, TokenView::Draw);
            let s1 = ParserView { directive: Some(Seq::<Seq<u8>>::empty()), ..s };
            assert(step(s, TokenView::Draw) == Some(s1));
            lemma_feed_names(s1, names, names.len());
            assert(names_tokens(names).take(names.len() as int) =~= names_tokens(names));
            assert(names.take(names.len() as int) =~= names);
            let s2 = ParserView { directive: Some(names), ..s };
            lemma_feed_concat(s, head, names_tokens(names));
            lemma_feed_concat(s, head + names_tokens(names), feedline);
            lemma_feed_one(s2, TokenView::Newline);
        },
    }
}

proof fn lemma_feed_program(program: Seq<SynView>, n: nat)
    requires
        n <= program.len(),
        forall|k: int| 0 <= k < program.len() ==> keyword_is_draw(#[trigger] program[k]),
    ensures
        feed(initial(), program_tokens(program, n)) == Some(line_start(program.take(n as int))),
    decreases n,
{
    if n == 0 {
        assert(program.take(0) =~= Seq::<SynView>::empty());
    } else {
        lemma_feed_program(program, (n - 1) as nat);
        let before = program_tokens(program, (n - 1) as nat);
        lemma_feed_concat(initial(), before, syn_tokens(program[n - 1]));
        lemma_feed_syn(program.take(n - 1), program[n - 1]);
        assert(program.take(n - 1).push(program[n - 1]) =~= program.take(n as int));
    }
}

/// The tokens that spell a program parse to that program: whatever the
/// names are, as long as every directive is led by the keyword `draw`.
pub proof fn law_tokens_round_trip(program: Seq<SynView>)
    requires
        forall|k: int| 0 <= k < program.len() ==> keyword_is_draw(#[trigger] program[k]),
    ensures
        parse_tokens_spec(program_tokens(program, program.len())) == Some(program),
{
    lemma_feed_program(program, program.len());
    assert(program.take(program.len() as int) =~= program);
    assert(line_result(Seq::<FactView>::empty()) =~= Seq::<SynView>::empty());
    assert(program + Seq::<SynView>::empty() =~= program);
}

/// Tokens that are all as the lexer makes them.
pub open spec fn all_lexed(tokens: Seq<TokenView>) -> bool {
    forall|k: int| 0 <= k < tokens.len() ==> lexed(#[trigger] tokens[k])
}

proof fn lemma_all_lexed_concat(a: Seq<TokenView>, b: Seq<TokenView>)
    requires
        all_lexed(a),
        all_lexed(b),
    ensures
        all_lexed(a + b),
{
    assert forall|k: int| 0 <= k < (a + b).len() implies lexed(#[trigger] (a + b)[k]) by {
        if k < a.len() {
            assert((a + b)[k] == a[k]);
        } else {
            assert((a + b)[k] == b[k - a.len()]);
        }
    }
}

proof fn lemma_fact_tokens_lexed(f: FactView)
    requires
        wf_fact(f),
    ensures
        all_lexed(fact_tokens(f)),
    decreases f, 0nat,
{
    match f {
        FactView::Atom(name) => {},
        FactView::Fact(head, body) => {
            lemma_body_tokens_lexed(body, body.len());
            let start = seq![name_token(head), TokenView::Open];
            lemma_all_lexed_concat(start, body_tokens(body, body.len()));
            lemma_all_lexed_concat(start + body_tokens(body, body.len()), seq![TokenView::Close]);
        },
    }
}

proof fn lemma_body_tokens_lexed(body: Seq<FactView>, n: nat)
    requires
        n <= body.len(),
        forall|k: int| 0 <= k < body.len() ==> wf_fact(#[trigger] body[k]),
    ensures
        all_lexed(body_tokens(body, n)),
    decreases body, n,
{
    if n > 0 {
        lemma_body_tokens_lexed(body, (n - 1) as nat);
        lemma_fact_tokens_lexed(body[n - 1]);
        lemma_all_lexed_concat(body_tokens(body, (n - 1) as nat), fact_tokens(body[n - 1]));
    }
}

proof fn lemma_program_tokens_lexed(program: Seq<SynView>, n: nat)
    requires
        n <= program.len(),
        wf_program(program),
    ensures
        all_lexed(program_tokens(program, n)),
    decreases n,
{
    if n > 0 {
        lemma_program_tokens_lexed(program, (n - 1) as nat);
        let syn = program[n - 1];
        assert(wf_syn(syn));
        match syn {
            SynView::Fact(f) => {
                lemma_fact_tokens_lexed(f);
                lemma_all_lexed_concat(fact_tokens(f), seq![TokenView::Newline]);
            },
            SynView::Directive(_, names) => {
                assert(all_lexed(names_tokens(names))) by {
                    assert forall|k: int| 0 <= k < names.len() implies lexed(
                        #[trigger] names_tokens(names)[k],
                    ) by {
                        assert(plain_name(names[k]));
                    }
                }
                lemma_all_lexed_concat(seq![TokenView::Draw], names_tokens(names));
                lemma_all_lexed_concat(
                    seq![TokenView::Draw] + names_tokens(names),
                    seq![TokenView::Newline],
                );
            },
        }
        lemma_all_lexed_concat(program_tokens(program, (n - 1) as nat), syn_tokens(syn));
    }
}

proof fn lemma_skip_exact(src: Seq<u8>, pos: int, stop: int)
    requires
        0 <= pos <= stop <= src.len(),
        forall|k: int| pos <= k < stop ==> is_space(#[trigger] src[k]),
        space_len(src, stop) == 0,
    ensures
        skip_spaces(src, pos) == stop,
    decreases stop - pos,
{
    if pos < stop {
        assert(is_space(src[pos]));
        lemma_skip_exact(src, pos + 1, stop);
    }
}

proof fn lemma_ident_exact(src: Seq<u8>, pos: int, stop: int)
    requires
        0 <= pos <= stop <= src.len(),
        forall|k: int| pos <= k < stop ==> #[trigger] ident_at(src, k),
        !ident_at(src, stop),
    ensures
        ident_end(src, pos) == stop,
    decreases stop - pos,
{
    if pos < stop {
        assert(ident_at(src, pos));
        lemma_ident_exact(src, pos + 1, stop);
    }
}

/// A run of name bytes that stands in a text before a byte of ASCII, or at
/// its end, is read as one run there.
proof fn lemma_solid_in_text(src: Seq<u8>, start: int, end: int, name: Seq<u8>)
    requires
        0 <= start <= end <= src.len(),
        src.subrange(start, end) == name,
        solid(name),
        end < src.len() ==> src[end] < 128,
    ensures
        forall|k: int| start <= k < end ==> #[trigger] ident_at(src, k),
{
    assert forall|k: int| start <= k < end implies #[trigger] ident_at(src, k) by {
        let j = k - start;
        assert(name[j] == src[k]);
        assert(is_ident_byte(name[j]));
        assert(space_len(name, j) == 0);
        if j + 1 < name.len() {
            assert(name[j + 1] == src[k + 1]);
        }
        if j + 2 < name.len() {
            assert(name[j + 2] == src[k + 2]);
        }
    }
}

/// The text of a run of tokens that does not start a line begins, if it
/// begins at all, with a space or a line feed.
proof fn lemma_text_head(tokens: Seq<TokenView>)
    ensures
        tokens_text(tokens, false).len() > 0 ==> tokens_text(tokens, false)[0] == 32
            || tokens_text(tokens, false)[0] == 10,
        tokens.len() == 0 ==> tokens_text(tokens, false).len() == 0,
{
    if tokens.len() > 0 {
        let text = tokens_text(tokens, false);
        let g = gap(tokens[0], false);
        let t = token_text(tokens[0]);
        let rest = tokens_text(tokens.drop_first(), tokens[0] is Newline);
        assert(text == g + t + rest);
        if tokens[0] is Newline {
            assert(text[0] == t[0]);
        } else {
            assert(text[0] == g[0]);
        }
    }
}

/// The text of a token as the lexer makes it is not empty and begins with
/// no blank byte.
proof fn lemma_token_text(token: TokenView)
    requires
        lexed(token),
    ensures
        token_text(token).len() > 0,
        !is_space(token_text(token)[0]),
{
    match token {
        TokenView::Ident(name) => {
            assert(is_ident_byte(name[0]));
        },
        _ => {},
    }
}

/// Reading the text of a run of tokens feeds exactly these tokens to the
/// parser.
proof fn lemma_parse_text(
    src: Seq<u8>,
    pos: int,
    last: Span,
    s: ParserView,
    tokens: Seq<TokenView>,
    fresh: bool,
)
    requires
        0 <= pos <= src.len(),
        src.subrange(pos, src.len() as int) == tokens_text(tokens, fresh),
        all_lexed(tokens),
        feed(s, tokens) is Some,
        finish(feed(s, tokens)->0) is Some,
    ensures
        parse_from(src, pos, last, s) == Ok::<Seq<SynView>, ErrorView>(
            finish(feed(s, tokens)->0)->0,
        ),
    decreases tokens.len(),
{
    let suffix = src.subrange(pos, src.len() as int);
    if tokens.len() == 0 {
        assert(suffix.len() == 0);
        assert(pos == src.len());
    } else {
        let token = tokens[0];
        let rest = tokens.drop_first();
        let g = gap(token, fresh);
        let text = token_text(token);
        let tail = tokens_text(rest, token is Newline);
        assert(lexed(token));
        lemma_token_text(token);
        assert(suffix == g + text + tail);
        let p = pos + g.len();
        let e = p + text.len();
        assert(suffix.len() == g.len() + text.len() + tail.len());
        assert(e <= src.len());
        assert forall|k: int| pos <= k < p implies is_space(#[trigger] src[k]) by {
            assert(src[k] == suffix[k - pos]);
            assert(suffix[k - pos] == g[k - pos]);
        }
        assert forall|j: int| 0 <= j < text.len() implies src[p + j] == #[trigger] text[j] by {
            assert(src[p + j] == suffix[p + j - pos]);
        }
        assert(src[p] == text[0]);
        assert(src.subrange(e, src.len() as int) =~= tail) by {
            let after = src.subrange(e, src.len() as int);
            assert(after.len() == tail.len());
            assert forall|j: int| 0 <= j < tail.len() implies after[j] == tail[j] by {
                assert(after[j] == suffix[e - pos + j]);
                assert(suffix[e - pos + j] == tail[j]);
            }
        }
        assert(src.subrange(p, e) =~= text);
        assert(all_lexed(rest)) by {
            assert forall|k: int| 0 <= k < rest.len() implies lexed(#[trigger] rest[k]) by {
                assert(rest[k] == tokens[k + 1]);
            }
        }
        if token is Ident || token is Draw {
            lemma_text_head(rest);
            if e < src.len() {
                assert(src[e] == tail[0]);
            }
            assert(solid(text)) by {
                if token is Draw {
                    assert forall|k: int| 0 <= k < text.len() implies #[trigger] space_len(
                        text,
                        k,
                    ) == 0 by {
                        assert(text[k] == 100 || text[k] == 114 || text[k] == 97 || text[k] == 119);
                    }
                }
            }
            lemma_solid_in_text(src, p, e, text);
            lemma_ident_exact(src, p, e);
            assert(ident_at(src, p));
        }
        assert(space_len(src, p) == 0);
        lemma_skip_exact(src, pos, p);
        assert(lexeme_at(src, pos) == Lexeme::Token { token, start: p, end: e });
        let next = step(s, token)->0;
        lemma_parse_text(src, e, span_of(p, e), next, rest, token is Newline);
    }
}

/// A well-formed program is read back from its own text.
pub proof fn lemma_text_round_trip(program: Seq<SynView>)
    requires
        wf_program(program),
    ensures
        parse_spec(program_text(program)) == Ok::<Seq<SynView>, ErrorView>(program),
{
    let tokens = program_tokens(program, program.len());
    let text = program_text(program);
    assert forall|k: int| 0 <= k < program.len() implies keyword_is_draw(
        #[trigger] program[k],
    ) by {
        assert(wf_syn(program[k]));
    }
    law_tokens_round_trip(program);
    lemma_program_tokens_lexed(program, program.len());
    assert(text.subrange(0, text.len() as int) =~= text);
    lemma_parse_text(text, 0, Span { start: 0, end: 0 }, initial(), tokens, true);
}

/// Parsing a text and writing the program down again loses nothing: the
/// text that is written parses to the same program, unit for unit and in
/// the same order.
pub proof fn law_text_round_trip(src: Seq<u8>)
    requires
        parse_spec(src) is Ok,
    ensures
        parse_spec(program_text(parse_spec(src)->Ok_0)) == parse_spec(src),
{
    lemma_parsed_is_well_formed(src);
    lemma_text_round_trip(parse_spec(src)->Ok_0);
}

} // verus!
