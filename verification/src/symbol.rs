use vstd::prelude::*;
use crate::text::{str_eq, to_string};

verus! {

/// An interned identifier: the index of its text in the interner.
#[derive(Copy, Clone, Debug, PartialEq, Eq, Hash, Structural)]
pub struct Symbol(pub u32);

/// Maps identifier texts to symbols and back. The symbol of a text is the
/// position at which it was first interned.
pub struct Interner {
    vec: Vec<String>,
}

impl View for Interner {
    type V = Seq<Seq<char>>;

    closed spec fn view(&self) -> Seq<Seq<char>> {
        self.vec@.map_values(|s: String| s@)
    }
}

/// No text occurs twice.
pub open spec fn distinct_texts(v: Seq<Seq<char>>) -> bool {
    forall|i: int, j: int| 0 <= i < v.len() && 0 <= j < v.len() && i != j ==> v[i] != v[j]
}

impl Interner {
    /// Well-formedness: every text is interned once, and every index fits a symbol.
    pub open spec fn wf(&self) -> bool {
        &&& distinct_texts(self@)
        &&& self@.len() <= u32::MAX
    }

    pub fn new() -> (r: Interner)
        ensures
            r.wf(),
            r@ == Seq::<Seq<char>>::empty(),
    {
        let r = Interner { vec: Vec::new() };
        assert(r@ =~= Seq::<Seq<char>>::empty());
        r
    }

    /// Number of distinct texts interned so far.
    pub fn len(&self) -> (n: usize)
        ensures
            n == self@.len(),
    {
        self.vec.len()
    }

    /// The symbol of `s`, interning it first when it is new.
    pub fn intern(&mut self, s: &str) -> (sym: Symbol)
        requires
            old(self).wf(),
            old(self)@.len() < u32::MAX,
        ensures
            final(self).wf(),
            (sym.0 as int) < final(self)@.len(),
            final(self)@[sym.0 as int] == s@,
            old(self)@.contains(s@) ==> final(self)@ == old(self)@ && sym.0 as int
                == old(self)@.index_of(s@),
            !old(self)@.contains(s@) ==> final(self)@ == old(self)@.push(s@) && sym.0 as int
                == old(self)@.len(),
    {
        let n = self.vec.len();
        let mut i: usize = 0;
        while i < n
            invariant
                n == self.vec@.len(),
                n == self@.len(),
                i <= n,
                self == old(self),
                self.wf(),
                old(self)@.len() < u32::MAX,
                forall|j: int| 0 <= j < i ==> self@[j] != s@,
            decreases n - i,
        {
            assert(self@[i as int] == self.vec@[i as int]@);
            if str_eq(self.vec[i].as_str(), s) {
                proof {
                    assert(self@.contains(s@));
                    let k = self@.index_of(s@);
                    assert(self@[k] == s@);
                    assert(k == i);
                }
                return Symbol(i as u32);
            }
            i = i + 1;
        }
        proof {
            assert(!self@.contains(s@));
        }
        let sym = Symbol(n as u32);
        self.vec.push(to_string(s));
        assert(self@ =~= old(self)@.push(s@));
        sym
    }

    /// The text of `sym`.
    pub fn resolve(&self, sym: Symbol) -> (r: &str)
        requires
            (sym.0 as int) < self@.len(),
        ensures
            r@ == self@[sym.0 as int],
    {
        self.vec[sym.0 as usize].as_str()
    }
}

/// Interning is stable: a text that is already interned keeps its symbol, and
/// two different texts never share a symbol.
pub proof fn lemma_interned_symbols_unique(i: &Interner, a: int, b: int)
    requires
        i.wf(),
        0 <= a < i@.len(),
        0 <= b < i@.len(),
    ensures
        (i@[a] == i@[b]) <==> (a == b),
        i@.index_of(i@[a]) == a,
{
    assert(i@.contains(i@[a]));
    let k = i@.index_of(i@[a]);
    assert(i@[k] == i@[a]);
}

} // verus!
