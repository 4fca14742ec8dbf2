//! Writing a program down as tokens and as text.

use vstd::prelude::*;
use crate::fact::{facts_view, idents_view, lemma_fact_view, syns_view, Fact, FactView, Syn, SynView};
use crate::ident::Ident;
use crate::lexer::{dash_word, draw_word};
use crate::token::{Token, TokenView};

verus! {

/// The token that spells a name: the dash for the dash, a name token for
/// any other name.
pub open spec fn name_token(name: Seq<u8>) -> TokenView {
    if name == dash_word() {
        TokenView::Dash
    } else {
        TokenView::Ident(name)
    }
}

/// The tokens that spell a fact: an atom is its name; a fact with a body
/// is its head, then its members between brackets.
pub open spec fn fact_tokens(f: FactView) -> Seq<TokenView>
    decreases f,
{
    match f {
        FactView::Atom(name) => seq![name_token(name)],
        FactView::Fact(head, body) => seq![name_token(head), TokenView::Open] + body_tokens(
            body,
            body.len(),
        ) + seq![TokenView::Close],
    }
}

/// The tokens that spell the first `n` members of a body.
pub open spec fn body_tokens(body: Seq<FactView>, n: nat) -> Seq<TokenView>
    decreases body, n,
{
    if n == 0 || n > body.len() {
        Seq::empty()
    } else {
        body_tokens(body, (n - 1) as nat) + fact_tokens(body[n - 1])
    }
}

/// The name tokens that spell a list of names.
pub open spec fn names_tokens(names: Seq<Seq<u8>>) -> Seq<TokenView> {
    Seq::new(names.len(), |k: int| TokenView::Ident(names[k]))
}

/// The tokens that spell one line of a program, the line feed included.
pub open spec fn syn_tokens(syn: SynView) -> Seq<TokenView> {
    match syn {
        SynView::Fact(f) => fact_tokens(f) + seq![TokenView::Newline],
        SynView::Directive(_, names) => seq![TokenView::Draw] + names_tokens(names)
            + seq![TokenView::Newline],
    }
}

/// The tokens that spell the first `n` lines of a program.
pub open spec fn program_tokens(program: Seq<SynView>, n: nat) -> Seq<TokenView>
    decreases n,
{
    if n == 0 || n > program.len() {
        Seq::empty()
    } else {
        program_tokens(program, (n - 1) as nat) + syn_tokens(program[n - 1])
    }
}

/// The bytes that spell one token.
pub open spec fn token_text(token: TokenView) -> Seq<u8> {
    match token {
        TokenView::Ident(name) => name,
        TokenView::Draw => draw_word(),
        TokenView::Dash => seq![45u8],
        TokenView::Open => seq![91u8],
        TokenView::Close => seq![93u8],
        TokenView::Newline => seq![10u8],
    }
}

/// What stands between a token and the one before it: nothing at the
/// start of a line (`fresh`) and before a line feed, one space otherwise.
pub open spec fn gap(token: TokenView, fresh: bool) -> Seq<u8> {
    if fresh || token is Newline {
        Seq::empty()
    } else {
        seq![32u8]
    }
}

/// The text that spells a run of tokens; `fresh` says that the run starts
/// a line.
pub open spec fn tokens_text(tokens: Seq<TokenView>, fresh: bool) -> Seq<u8>
    decreases tokens.len(),
{
    if tokens.len() == 0 {
        Seq::empty()
    } else {
        gap(tokens[0], fresh) + token_text(tokens[0]) + tokens_text(
            tokens.drop_first(),
            tokens[0] is Newline,
        )
    }
}

/// The text that spells a program: one line for each unit, the tokens of
/// a line one space apart.
pub open spec fn program_text(program: Seq<SynView>) -> Seq<u8> {
    tokens_text(program_tokens(program, program.len()), true)
}

/// The values of a sequence of tokens, in order.
pub open spec fn tokens_view(tokens: Seq<Token>) -> Seq<TokenView> {
    Seq::new(tokens.len(), |k: int| tokens[k]@)
}

fn push_token(out: &mut Vec<Token>, token: Token)
    ensures
        tokens_view(final(out)@) == tokens_view(old(out)@).push(token@),
{
    out.push(token);
    assert(tokens_view(out@) =~= tokens_view(old(out)@).push(token@));
}

fn push_name(out: &mut Vec<Token>, name: &Ident)
    ensures
        tokens_view(final(out)@) == tokens_view(old(out)@).push(name_token(name@)),
{
    if name.is_dash() {
        push_token(out, Token::Dash);
    } else {
        push_token(out, Token::Ident(name.duplicate()));
    }
}

fn body_to_tokens(body: &Vec<Fact>, out: &mut Vec<Token>)
    ensures
        tokens_view(final(out)@) == tokens_view(old(out)@) + body_tokens(
            facts_view(body@),
            body@.len(),
        ),
    decreases body,
{
    let ghost members = facts_view(body@);
    let ghost opened = tokens_view(out@);
    let mut k: usize = 0;
    assert(opened + Seq::<TokenView>::empty() =~= opened);
    while k < body.len()
        invariant
            k <= body.len(),
            members == facts_view(body@),
            tokens_view(out@) == opened + body_tokens(members, k as nat),
        decreases body.len() - k,
    {
        let ghost before = body_tokens(members, k as nat);
        assert(members[k as int] == body@[k as int]@);
        fact_to_tokens(&body[k], out);
        assert(opened + (before + fact_tokens(members[k as int])) =~= (opened + before)
            + fact_tokens(members[k as int]));
        k += 1;
    }
}

/// Appends the tokens that spell `f` to `out`.
pub fn fact_to_tokens(f: &Fact, out: &mut Vec<Token>)
    ensures
        tokens_view(final(out)@) == tokens_view(old(out)@) + fact_tokens(f@),
    decreases f,
{
    let ghost start = tokens_view(out@);
    match f {
        Fact::Atom(name) => {
            push_name(out, name);
            assert(start.push(name_token(name@)) =~= start + fact_tokens(f@));
        },
        Fact::Fact(head, body) => {
            proof {
                lemma_fact_view(*head, *body);
            }
            push_name(out, head);
            push_token(out, Token::Open);
            body_to_tokens(body, out);
            push_token(out, Token::Close);
            assert(tokens_view(out@) =~= start + fact_tokens(f@));
        },
    }
}

/// The tokens that spell a program.
pub fn program_to_tokens(program: &Vec<Syn>) -> (r: Vec<Token>)
    ensures
        tokens_view(r@) == program_tokens(syns_view(program@), program@.len()),
{
    let ghost lines = syns_view(program@);
    let mut out: Vec<Token> = Vec::new();
    let mut k: usize = 0;
    assert(tokens_view(out@) =~= Seq::<TokenView>::empty());
    while k < program.len()
        invariant
            k <= program.len(),
            lines == syns_view(program@),
            tokens_view(out@) == program_tokens(lines, k as nat),
        decreases program.len() - k,
    {
        let ghost before = tokens_view(out@);
        assert(lines[k as int] == program@[k as int]@);
        match &program[k] {
            Syn::Fact(f) => {
                fact_to_tokens(f, &mut out);
                push_token(&mut out, Token::Newline);
                assert(tokens_view(out@) =~= before + syn_tokens(lines[k as int]));
            },
            Syn::Directive(d) => {
                push_token(&mut out, Token::Draw);
                let ghost names = idents_view(d.1@);
                let ghost opened = tokens_view(out@);
                let mut j: usize = 0;
                assert(opened + names_tokens(names).take(0) =~= opened);
                while j < d.1.len()
                    invariant
                        j <= d.1.len(),
                        names == idents_view(d.1@),
                        tokens_view(out@) == opened + names_tokens(names).take(j as int),
                    decreases d.1.len() - j,
                {
                    push_token(&mut out, Token::Ident(d.1[j].duplicate()));
                    assert(opened + names_tokens(names).take(j + 1) =~= (opened + names_tokens(
                        names,
                    ).take(j as int)).push(TokenView::Ident(names[j as int])));
                    j += 1;
                }
                assert(names_tokens(names).take(d.1.len() as int) =~= names_tokens(names));
                push_token(&mut out, Token::Newline);
                assert(tokens_view(out@) =~= before + syn_tokens(lines[k as int]));
            },
        }
        k += 1;
    }
    out
}

fn push_bytes(out: &mut Vec<u8>, bytes: &Vec<u8>)
    ensures
        final(out)@ == old(out)@ + bytes@,
{
    let mut k: usize = 0;
    assert(out@ =~= old(out)@ + bytes@.take(0));
    while k < bytes.len()
        invariant
            k <= bytes.len(),
            out@ == old(out)@ + bytes@.take(k as int),
        decreases bytes.len() - k,
    {
        out.push(bytes[k]);
        assert(old(out)@ + bytes@.take(k + 1) =~= (old(out)@ + bytes@.take(k as int)).push(
            bytes@[k as int],
        ));
        k += 1;
    }
    assert(bytes@.take(bytes.len() as int) =~= bytes@);
}

fn push_token_text(out: &mut Vec<u8>, token: &Token)
    ensures
        final(out)@ == old(out)@ + token_text(token@),
{
    match token {
        Token::Ident(name) => {
            push_bytes(out, &name.0);
        },
        Token::Draw => {
            let word: Vec<u8> = vec![100u8, 114u8, 97u8, 119u8];
            assert(word@ =~= draw_word());
            push_bytes(out, &word);
        },
        Token::Dash => {
            out.push(45);
            assert(out@ =~= old(out)@ + token_text(token@));
        },
        Token::Open => {
            out.push(91);
            assert(out@ =~= old(out)@ + token_text(token@));
        },
        Token::Close => {
            out.push(93);
            assert(out@ =~= old(out)@ + token_text(token@));
        },
        Token::Newline => {
            out.push(10);
            assert(out@ =~= old(out)@ + token_text(token@));
        },
    }
}

/// The text that spells a run of tokens which starts a line.
pub fn print_tokens(tokens: &Vec<Token>) -> (r: Vec<u8>)
    ensures
        r@ == tokens_text(tokens_view(tokens@), true),
{
    let ghost all = tokens_view(tokens@);
    let mut out: Vec<u8> = Vec::new();
    let mut fresh = true;
    let mut k: usize = 0;
    assert(all.skip(0) =~= all);
    assert(out@ + tokens_text(all, true) =~= tokens_text(all, true));
    while k < tokens.len()
        invariant
            k <= tokens.len(),
            all == tokens_view(tokens@),
            out@ + tokens_text(all.skip(k as int), fresh) == tokens_text(all, true),
        decreases tokens.len() - k,
    {
        let ghost before = out@;
        let ghost rest = all.skip(k as int);
        let token = &tokens[k];
        assert(rest[0] == token@);
        assert(rest.drop_first() =~= all.skip(k + 1));
        let newline = match token {
            Token::Newline => true,
            _ => false,
        };
        if !(fresh || newline) {
            out.push(32);
        }
        assert(out@ =~= before + gap(token@, fresh));
        push_token_text(&mut out, token);
        assert(out@ + tokens_text(all.skip(k + 1), newline) =~= before + tokens_text(rest, fresh));
        fresh = newline;
        k += 1;
    }
    assert(all.skip(tokens.len() as int) =~= Seq::<TokenView>::empty());
    assert(out@ + Seq::<u8>::empty() =~= out@);
    out
}

/// The text that spells a program. Read again, it gives the program back.
pub fn serialize(program: &Vec<Syn>) -> (r: Vec<u8>)
    ensures
        r@ == program_text(syns_view(program@)),
{
    let tokens = program_to_tokens(program);
    print_tokens(&tokens)
}

} // verus!
