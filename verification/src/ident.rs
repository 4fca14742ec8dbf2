//! Names.

use vstd::prelude::*;
use crate::lexer::dash_word;
use vstd::string::StrSliceExecFns;
use vstd::string::StringSliceAdditionalSpecFns;

verus! {

/// A name. Two identifiers are the same entity exactly when their bytes are
/// equal: there is no case folding and no aliasing.
#[derive(Clone, Debug, PartialEq, Eq, Hash)]
pub struct Ident(pub Vec<u8>);

impl View for Ident {
    type V = Seq<u8>;

    open spec fn view(&self) -> Seq<u8> {
        self.0@
    }
}

/// Whether two runs of bytes are the same.
pub fn same_bytes(a: &[u8], b: &[u8]) -> (r: bool)
    ensures
        r == (a@ == b@),
{
    if a.len() != b.len() {
        return false;
    }
    let mut k: usize = 0;
    while k < a.len()
        invariant
            k <= a@.len(),
            a@.len() == b@.len(),
            forall|j: int| 0 <= j < k ==> a@[j] == b@[j],
        decreases a@.len() - k,
    {
        if a[k] != b[k] {
            return false;
        }
        k += 1;
    }
    assert(a@ =~= b@);
    true
}

impl Ident {
    /// The identifier spelled by `name`, as its UTF-8 bytes.
    pub fn new(name: &str) -> (r: Ident)
        ensures
            r@ == name.spec_bytes(),
    {
        Ident(name.as_bytes_vec())
    }

    /// Exact comparison of two names, byte by byte.
    pub fn same(&self, other: &Ident) -> (r: bool)
        ensures
            r == (self@ == other@),
    {
        same_bytes(self.0.as_slice(), other.0.as_slice())
    }

    /// Whether this name is the dash.
    pub fn is_dash(&self) -> (r: bool)
        ensures
            r == (self@ == dash_word()),
    {
        let r = self.0.len() == 1 && self.0[0] == 45;
        assert(r == (self@ =~= dash_word()));
        r
    }

    /// A copy of this name.
    pub fn duplicate(&self) -> (r: Ident)
        ensures
            r@ == self@,
    {
        let mut bytes: Vec<u8> = Vec::new();
        let mut i: usize = 0;
        while i < self.0.len()
            invariant
                i <= self.0.len(),
                bytes@ == self.0@.subrange(0, i as int),
            decreases self.0.len() - i,
        {
            bytes.push(self.0[i]);
            i += 1;
        }
        assert(self.0@.subrange(0, self.0.len() as int) =~= self.0@);
        Ident(bytes)
    }
}

} // verus!
