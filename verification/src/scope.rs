//! Lexical scopes: the scope table, the indexer and the resolver.

use vstd::prelude::*;
use crate::fact::{idents_view, lemma_idents_view_push};
use crate::ident::Ident;
use crate::val::{
    copy_name, key_of, lemma_chain_view, lemma_process_view, lemma_vals_view_push, vals_view,
    Body, Val, ValView,
};

verus! {

/// A scope table as a mathematical map: the pair of a scope path and a name
/// declared directly in that scope is mapped to the term declared there.
pub type Scopes = Map<(Seq<Seq<u8>>, Seq<u8>), ValView>;

/// The names declared directly in the scope at `path`.
pub open spec fn names_at(scopes: Scopes, path: Seq<Seq<u8>>) -> Set<Seq<u8>> {
    Set::new(|name: Seq<u8>| scopes.contains_key((path, name)))
}

/// The scope in which the children of `v` stand, where `v` itself stands
/// in the scope at `path`: a term that is known by a name opens a scope of
/// that name; an anonymous term opens none.
pub open spec fn inner_path(v: ValView, path: Seq<Seq<u8>>) -> Seq<Seq<u8>> {
    match key_of(v) {
        Some(name) => path.push(name),
        None => path,
    }
}

/// The table after the first `n` of `children` that are known by a name
/// have been declared in the scope at `path`, in order. A later declaration
/// of a name replaces an earlier one.
pub open spec fn declare_all(children: Seq<ValView>, n: nat, path: Seq<Seq<u8>>, scopes: Scopes)
    -> Scopes
    decreases n,
{
    if n == 0 || n > children.len() {
        scopes
    } else {
        let before = declare_all(children, (n - 1) as nat, path, scopes);
        match key_of(children[n - 1]) {
            Some(name) => before.insert((path, name), children[n - 1]),
            None => before,
        }
    }
}

/// The table after `v`, which stands in the scope at `path`, has been
/// indexed: its children are declared in the scope that `v` opens, then
/// each child is indexed in turn, depth first.
pub open spec fn index_spec(v: ValView, path: Seq<Seq<u8>>, scopes: Scopes) -> Scopes
    decreases v,
{
    match v {
        ValView::Atom(_) => scopes,
        ValView::Process { name, label, body } => match body {
            Some(children) => index_seq(
                children,
                children.len(),
                inner_path(v, path),
                declare_all(children, children.len(), inner_path(v, path), scopes),
            ),
            None => scopes,
        },
        ValView::Chain { name, path: children } => index_seq(
            children,
            children.len(),
            inner_path(v, path),
            declare_all(children, children.len(), inner_path(v, path), scopes),
        ),
    }
}

/// The table after the first `n` of `children`, which stand in the scope
/// at `path`, have been indexed in order.
pub open spec fn index_seq(children: Seq<ValView>, n: nat, path: Seq<Seq<u8>>, scopes: Scopes)
    -> Scopes
    decreases children, n,
{
    if n == 0 || n > children.len() {
        scopes
    } else {
        index_spec(children[n - 1], path, index_seq(children, (n - 1) as nat, path, scopes))
    }
}

/// The nearest declaration of `name` seen from the scope at `path`: the
/// scopes on the way from the first `depth` names of `path` up to the root
/// are asked, deepest first, and the first that declares `name` answers.
pub open spec fn lookup_from(scopes: Scopes, path: Seq<Seq<u8>>, depth: nat, name: Seq<u8>)
    -> Option<ValView>
    decreases depth,
{
    if scopes.contains_key((path.take(depth as int), name)) {
        Some(scopes[(path.take(depth as int), name)])
    } else if depth == 0 {
        None
    } else {
        lookup_from(scopes, path, (depth - 1) as nat, name)
    }
}

/// The nearest declaration of `name` seen from the scope at `path`.
pub open spec fn lookup_spec(scopes: Scopes, path: Seq<Seq<u8>>, name: Seq<u8>) -> Option<ValView> {
    lookup_from(scopes, path, path.len(), name)
}

/// The term `v`, which stands in the scope at `path`, with its references
/// resolved: a reference is replaced by the nearest declaration of its name
/// and stays as it is where no enclosing scope declares the name. What a
/// reference is replaced by is not resolved further.
pub open spec fn resolve_spec(v: ValView, path: Seq<Seq<u8>>, scopes: Scopes) -> ValView
    decreases v,
{
    match v {
        ValView::Atom(name) => match lookup_spec(scopes, path, name) {
            Some(binding) => binding,
            None => v,
        },
        ValView::Process { name, label, body } => ValView::Process {
            name,
            label,
            body: match body {
                Some(children) => Some(
                    resolve_seq(children, children.len(), inner_path(v, path), scopes),
                ),
                None => None,
            },
        },
        ValView::Chain { name, path: children } => ValView::Chain {
            name,
            path: resolve_seq(children, children.len(), inner_path(v, path), scopes),
        },
    }
}

/// The first `n` of `children`, which stand in the scope at `path`, each
/// resolved.
pub open spec fn resolve_seq(children: Seq<ValView>, n: nat, path: Seq<Seq<u8>>, scopes: Scopes)
    -> Seq<ValView>
    decreases children, n,
{
    if n == 0 || n > children.len() {
        Seq::empty()
    } else {
        resolve_seq(children, (n - 1) as nat, path, scopes).push(
            resolve_spec(children[n - 1], path, scopes),
        )
    }
}

/// One declaration: in the scope at `path`, `name` stands for `val`.
struct Binding {
    path: Vec<Ident>,
    name: Ident,
    val: Val,
}

spec fn key_at(b: Binding) -> (Seq<Seq<u8>>, Seq<u8>) {
    (idents_view(b.path@), b.name@)
}

spec fn bindings_map(bs: Seq<Binding>, n: nat) -> Scopes
    decreases n,
{
    if n == 0 || n > bs.len() {
        Map::empty()
    } else {
        bindings_map(bs, (n - 1) as nat).insert(key_at(bs[n - 1]), bs[n - 1].val@)
    }
}

proof fn lemma_bindings_prefix(bs: Seq<Binding>, b: Binding, n: nat)
    requires
        n <= bs.len(),
    ensures
        bindings_map(bs.push(b), n) == bindings_map(bs, n),
    decreases n,
{
    if n > 0 {
        lemma_bindings_prefix(bs, b, (n - 1) as nat);
        assert(bs.push(b)[n - 1] == bs[n - 1]);
    }
}

/// The scope table: for every scope path the names declared directly in
/// that scope, each with the term it stands for.
pub struct ScopeMap {
    bindings: Vec<Binding>,
}

impl View for ScopeMap {
    type V = Scopes;

    closed spec fn view(&self) -> Scopes {
        bindings_map(self.bindings@, self.bindings@.len())
    }
}

/// A copy of a scope path.
pub fn copy_path(path: &Vec<Ident>) -> (r: Vec<Ident>)
    ensures
        idents_view(r@) == idents_view(path@),
{
    let mut out: Vec<Ident> = Vec::new();
    let mut k: usize = 0;
    while k < path.len()
        invariant
            k <= path.len(),
            idents_view(out@) == idents_view(path@).take(k as int),
        decreases path.len() - k,
    {
        let name = path[k].duplicate();
        proof {
            lemma_idents_view_push(out@, name);
            assert(idents_view(path@).take(k + 1) =~= idents_view(path@).take(k as int).push(
                path@[k as int]@,
            ));
        }
        out.push(name);
        k += 1;
    }
    assert(idents_view(path@).take(path.len() as int) =~= idents_view(path@));
    out
}

/// Whether `entry` spells the first `depth` names of `path`.
fn is_prefix(entry: &Vec<Ident>, path: &Vec<Ident>, depth: usize) -> (r: bool)
    requires
        depth <= path@.len(),
    ensures
        r == (idents_view(entry@) == idents_view(path@).take(depth as int)),
{
    if entry.len() != depth {
        assert(idents_view(entry@).len() != idents_view(path@).take(depth as int).len());
        return false;
    }
    let mut k: usize = 0;
    while k < depth
        invariant
            k <= depth,
            depth == entry@.len(),
            depth <= path@.len(),
            forall|j: int| 0 <= j < k ==> entry@[j]@ == path@[j]@,
        decreases depth - k,
    {
        if !entry[k].same(&path[k]) {
            assert(idents_view(entry@)[k as int] != idents_view(path@).take(depth as int)[k as int]);
            return false;
        }
        k += 1;
    }
    assert(idents_view(entry@) =~= idents_view(path@).take(depth as int));
    true
}

impl ScopeMap {
    /// The table without any declaration.
    pub fn new() -> (r: ScopeMap)
        ensures
            r@ == Map::<(Seq<Seq<u8>>, Seq<u8>), ValView>::empty(),
    {
        ScopeMap { bindings: Vec::new() }
    }

    /// Declares `name` in the scope at `path` to stand for `val`. The path
    /// is copied: the table keeps a snapshot of it.
    pub fn declare(&mut self, path: &Vec<Ident>, name: &Ident, val: &Val)
        ensures
            final(self)@ == old(self)@.insert((idents_view(path@), name@), val@),
    {
        let binding = Binding { path: copy_path(path), name: name.duplicate(), val: val.duplicate() };
        proof {
            lemma_bindings_prefix(self.bindings@, binding, self.bindings@.len());
        }
        self.bindings.push(binding);
    }

    /// The term that `name` stands for in the scope spelled by the first
    /// `depth` names of `path`, if it is declared there.
    fn get(&self, path: &Vec<Ident>, depth: usize, name: &Ident) -> (r: Option<&Val>)
        requires
            depth <= path@.len(),
        ensures
            match r {
                Some(v) => self@.contains_key((idents_view(path@).take(depth as int), name@))
                    && self@[(idents_view(path@).take(depth as int), name@)] == v@,
                None => !self@.contains_key((idents_view(path@).take(depth as int), name@)),
            },
    {
        let ghost key = (idents_view(path@).take(depth as int), name@);
        let mut n: usize = self.bindings.len();
        while n > 0
            invariant
                n <= self.bindings@.len(),
                depth <= path@.len(),
                key == (idents_view(path@).take(depth as int), name@),
                self@.contains_key(key) == bindings_map(self.bindings@, n as nat).contains_key(key),
                self@.contains_key(key) ==> self@[key] == bindings_map(self.bindings@, n as nat)[key],
            decreases n,
        {
            let b = &self.bindings[n - 1];
            if b.name.same(name) && is_prefix(&b.path, path, depth) {
                assert(key_at(*b) == key);
                return Some(&b.val);
            }
            assert(key_at(*b) != key);
            n -= 1;
        }
        None
    }

    /// Whether `name` is declared directly in the scope at `path`.
    pub fn declares(&self, path: &Vec<Ident>, name: &Ident) -> (r: bool)
        ensures
            r == names_at(self@, idents_view(path@)).contains(name@),
    {
        assert(idents_view(path@).take(path@.len() as int) =~= idents_view(path@));
        self.get(path, path.len(), name).is_some()
    }

    /// The nearest declaration of `name` seen from the scope at `path`:
    /// the innermost enclosing scope that declares it wins.
    pub fn lookup(&self, path: &Vec<Ident>, name: &Ident) -> (r: Option<&Val>)
        ensures
            match r {
                Some(v) => lookup_spec(self@, idents_view(path@), name@) == Some(v@),
                None => lookup_spec(self@, idents_view(path@), name@) is None,
            },
    {
        let mut depth: usize = path.len();
        loop
            invariant
                depth <= path@.len(),
                lookup_spec(self@, idents_view(path@), name@) == lookup_from(
                    self@,
                    idents_view(path@),
                    depth as nat,
                    name@,
                ),
            decreases depth,
        {
            match self.get(path, depth, name) {
                Some(v) => {
                    return Some(v);
                },
                None => {},
            }
            if depth == 0 {
                return None;
            }
            depth -= 1;
        }
    }
}

fn inner_of(val: &Val, path: &Vec<Ident>) -> (r: Vec<Ident>)
    ensures
        idents_view(r@) == inner_path(val@, idents_view(path@)),
{
    let mut inner = copy_path(path);
    match val.key() {
        Some(name) => {
            let copy = name.duplicate();
            proof {
                lemma_idents_view_push(inner@, copy);
            }
            inner.push(copy);
        },
        None => {},
    }
    inner
}

fn index_children(children: &Vec<Val>, inner: &Vec<Ident>, scopes: &mut ScopeMap)
    ensures
        final(scopes)@ == index_seq(
            vals_view(children@),
            children@.len(),
            idents_view(inner@),
            declare_all(vals_view(children@), children@.len(), idents_view(inner@), old(scopes)@),
        ),
    decreases children,
{
    let ghost cs = vals_view(children@);
    let ghost p = idents_view(inner@);
    let ghost start = scopes@;
    let mut k: usize = 0;
    while k < children.len()
        invariant
            k <= children.len(),
            cs == vals_view(children@),
            p == idents_view(inner@),
            scopes@ == declare_all(cs, k as nat, p, start),
        decreases children.len() - k,
    {
        let ghost before = scopes@;
        assert(cs[k as int] == children@[k as int]@);
        match children[k].key() {
            Some(name) => {
                scopes.declare(inner, name, &children[k]);
            },
            None => {},
        }
        assert(scopes@ == declare_all(cs, (k + 1) as nat, p, start));
        k += 1;
    }
    let ghost declared = scopes@;
    let mut k: usize = 0;
    while k < children.len()
        invariant
            k <= children.len(),
            cs == vals_view(children@),
            p == idents_view(inner@),
            scopes@ == index_seq(cs, k as nat, p, declared),
        decreases children.len() - k,
    {
        assert(cs[k as int] == children@[k as int]@);
        index(&children[k], inner, scopes);
        assert(scopes@ == index_seq(cs, (k + 1) as nat, p, declared));
        k += 1;
    }
}

/// Indexes `val`, which stands in the scope at `path`, into `scopes`: the
/// table gains, for every scope inside `val`, the names declared directly
/// in it.
pub fn index(val: &Val, path: &Vec<Ident>, scopes: &mut ScopeMap)
    ensures
        final(scopes)@ == index_spec(val@, idents_view(path@), old(scopes)@),
    decreases val,
{
    match val {
        Val::Atom(_) => {},
        Val::Process { name, label, body } => {
            proof {
                lemma_process_view(*name, *label, *body);
            }
            match body {
                Some(Body::All(children)) => {
                    let inner = inner_of(val, path);
                    index_children(children, &inner, scopes);
                },
                None => {},
            }
        },
        Val::Chain { name, path: children } => {
            proof {
                lemma_chain_view(*name, *children);
            }
            let inner = inner_of(val, path);
            index_children(children, &inner, scopes);
        },
    }
}

fn resolve_children(children: &Vec<Val>, inner: &Vec<Ident>, scopes: &ScopeMap) -> (r: Vec<Val>)
    ensures
        vals_view(r@) == resolve_seq(
            vals_view(children@),
            children@.len(),
            idents_view(inner@),
            scopes@,
        ),
    decreases children,
{
    let ghost cs = vals_view(children@);
    let ghost p = idents_view(inner@);
    let mut out: Vec<Val> = Vec::new();
    let mut k: usize = 0;
    assert(vals_view(out@) =~= Seq::<ValView>::empty());
    while k < children.len()
        invariant
            k <= children.len(),
            cs == vals_view(children@),
            p == idents_view(inner@),
            vals_view(out@) == resolve_seq(cs, k as nat, p, scopes@),
        decreases children.len() - k,
    {
        assert(cs[k as int] == children@[k as int]@);
        let term = resolve(&children[k], inner, scopes);
        proof {
            lemma_vals_view_push(out@, term);
            assert(resolve_seq(cs, (k + 1) as nat, p, scopes@) == resolve_seq(
                cs,
                k as nat,
                p,
                scopes@,
            ).push(term@));
        }
        out.push(term);
        k += 1;
    }
    out
}

/// Resolves `val`, which stands in the scope at `path`, against `scopes`:
/// a fresh term in which every reference that an enclosing scope declares
/// is replaced by its nearest declaration. A reference that no enclosing
/// scope declares is passed through unchanged.
pub fn resolve(val: &Val, path: &Vec<Ident>, scopes: &ScopeMap) -> (r: Val)
    ensures
        r@ == resolve_spec(val@, idents_view(path@), scopes@),
    decreases val,
{
    match val {
        Val::Atom(name) => match scopes.lookup(path, name) {
            Some(binding) => binding.duplicate(),
            None => Val::Atom(name.duplicate()),
        },
        Val::Process { name, label, body } => {
            proof {
                lemma_process_view(*name, *label, *body);
            }
            let name2 = copy_name(name);
            let label2 = copy_name(label);
            let body2 = match body {
                Some(Body::All(children)) => {
                    let inner = inner_of(val, path);
                    Some(Body::All(resolve_children(children, &inner, scopes)))
                },
                None => None,
            };
            proof {
                lemma_process_view(name2, label2, body2);
            }
            Val::Process { name: name2, label: label2, body: body2 }
        },
        Val::Chain { name, path: children } => {
            proof {
                lemma_chain_view(*name, *children);
            }
            let name2 = copy_name(name);
            let inner = inner_of(val, path);
            let path2 = resolve_children(children, &inner, scopes);
            proof {
                lemma_chain_view(name2, path2);
            }
            Val::Chain { name: name2, path: path2 }
        },
    }
}

} // verus!
