//! Highlight queries: reading one and resolving it.

use vstd::prelude::*;
use vstd::string::StringSliceAdditionalSpecFns;
use crate::eval::{eval_text, eval_text_spec};
use crate::fact::idents_view;
use crate::ident::Ident;
use crate::lexer::{space_at, space_len};
use crate::scope::{index, index_spec, resolve, resolve_spec, ScopeMap};
use crate::token::{Error, ErrorView};
use crate::val::{empty_process, Val, ValView};

verus! {

/// Whether the text from `pos` on holds nothing but white space: blanks
/// and line feeds.
pub open spec fn blank_from(src: Seq<u8>, pos: int) -> bool
    decreases src.len() - pos,
{
    if !(0 <= pos < src.len()) {
        true
    } else if src[pos] == 10 {
        blank_from(src, pos + 1)
    } else if space_len(src, pos) > 0 {
        blank_from(src, pos + space_len(src, pos))
    } else {
        false
    }
}

/// A text made of nothing but characters with the property White_Space,
/// in UTF-8; the empty text among them.
pub open spec fn blank(src: Seq<u8>) -> bool {
    blank_from(src, 0)
}

/// Whether `src` is made of nothing but white space.
pub fn is_blank(src: &[u8]) -> (r: bool)
    ensures
        r == blank(src@),
{
    let mut k: usize = 0;
    while k < src.len()
        invariant
            k <= src@.len(),
            blank(src@) == blank_from(src@, k as int),
        decreases src@.len() - k,
    {
        if src[k] == 10 {
            k += 1;
        } else {
            let n = space_at(src, k);
            if n == 0 {
                return false;
            }
            k += n;
        }
    }
    true
}

/// A term resolved against the scopes of another: the scopes of `model`
/// are indexed from the root, and the references in `query` are resolved
/// against them, from the root.
pub open spec fn resolve_query_spec(model: ValView, query: ValView) -> ValView {
    resolve_spec(
        query,
        Seq::empty(),
        index_spec(model, Seq::empty(), Map::<(Seq<Seq<u8>>, Seq<u8>), ValView>::empty()),
    )
}

/// What a highlight text resolves to. A blank text is not read at all: it
/// resolves to the anonymous process without a body. Any other text is
/// parsed and evaluated, and the term is resolved against its own scopes.
pub open spec fn highlight_spec(src: Seq<u8>) -> Result<ValView, ErrorView> {
    if blank(src) {
        Ok(empty_process())
    } else {
        match eval_text_spec(src) {
            Err(e) => Err(e),
            Ok(term) => Ok(resolve_query_spec(term, term)),
        }
    }
}

/// Resolves the references of `query` against the scopes of `model`.
/// A reference to a name that `model` declares in no enclosing scope comes
/// back unresolved; nothing fails. Only references are looked up: a
/// process or chain that `query` itself declares stands as it is.
pub fn resolve_query(model: &Val, query: &Val) -> (r: Val)
    ensures
        r@ == resolve_query_spec(model@, query@),
{
    let mut scopes = ScopeMap::new();
    let root: Vec<Ident> = Vec::new();
    assert(idents_view(root@) =~= Seq::<Seq<u8>>::empty());
    index(model, &root, &mut scopes);
    resolve(query, &root, &scopes)
}

/// Reads a highlight text, as bytes, into its resolved term.
pub fn resolve_text(src: &[u8]) -> (r: Result<Val, Error>)
    ensures
        match highlight_spec(src@) {
            Ok(v) => r matches Ok(val) && val@ == v,
            Err(e) => r matches Err(err) && err@ == e,
        },
{
    if is_blank(src) {
        return Ok(Val::default());
    }
    match eval_text(src) {
        Err(e) => Err(e),
        Ok(val) => Ok(resolve_query(&val, &val)),
    }
}

/// Reads a highlight text into its resolved term: the text is parsed and
/// evaluated, and the term is resolved against its own scopes. A blank
/// text gives the anonymous process without a body.
pub fn parse_highlights(data: &str) -> (r: Result<Val, Error>)
    ensures
        match highlight_spec(data.spec_bytes()) {
            Ok(v) => r matches Ok(val) && val@ == v,
            Err(e) => r matches Err(err) && err@ == e,
        },
{
    resolve_text(data.as_bytes())
}

} // verus!
