use vstd::prelude::*;
use crate::symbol::Symbol;

verus! {

/// The first position at which `k` is a key of the association list `s`.
pub open spec fn first_index<V>(s: Seq<(Symbol, V)>, k: Symbol, i: int) -> bool {
    &&& 0 <= i < s.len()
    &&& s[i].0 == k
    &&& forall|j: int| 0 <= j < i ==> (#[trigger] s[j]).0 != k
}

/// Whether `k` is a key of the association list `s`.
pub open spec fn has_key<V>(s: Seq<(Symbol, V)>, k: Symbol) -> bool {
    exists|i: int| 0 <= i < s.len() && (#[trigger] s[i]).0 == k
}

/// The value of the first entry with key `k`, as a map built with
/// "first definition wins" would hold it.
pub open spec fn tbl_get<V>(s: Seq<(Symbol, V)>, k: Symbol) -> Option<V> {
    if has_key(s, k) {
        Some(s[choose|i: int| first_index(s, k, i)].1)
    } else {
        None
    }
}

/// No key occurs twice.
pub open spec fn keys_distinct<V>(s: Seq<(Symbol, V)>) -> bool {
    forall|i: int, j: int| 0 <= i < s.len() && 0 <= j < s.len() && i != j ==> s[i].0 != s[j].0
}

/// The first index is unique, and it is what `tbl_get` reads.
pub proof fn lemma_first_index<V>(s: Seq<(Symbol, V)>, k: Symbol, i: int)
    requires
        first_index(s, k, i),
    ensures
        has_key(s, k),
        tbl_get(s, k) == Some(s[i].1),
{
    assert(s[i].0 == k);
    assert(has_key(s, k));
    let c = choose|c: int| first_index(s, k, c);
    assert(first_index(s, k, c));
    if c < i {
        assert(s[c].0 != k);
    }
    if i < c {
        assert(s[i].0 != k);
    }
}

/// Appending a new key leaves every other lookup alone and makes the new key readable.
pub proof fn lemma_tbl_push<V>(s: Seq<(Symbol, V)>, k: Symbol, v: V, q: Symbol)
    requires
        !has_key(s, k),
    ensures
        tbl_get(s.push((k, v)), q) == if q == k {
            Some(v)
        } else {
            tbl_get(s, q)
        },
{
    let t = s.push((k, v));
    if q == k {
        assert forall|j: int| 0 <= j < s.len() implies (#[trigger] t[j]).0 != k by {
            assert(t[j] == s[j]);
        }
        lemma_first_index(t, k, s.len() as int);
    } else if has_key(s, q) {
        let c = choose|c: int| first_index(s, q, c);
        let w = choose|w: int| 0 <= w < s.len() && (#[trigger] s[w]).0 == q;
        lemma_find_first(s, q, w);
        let c2 = choose|c: int| first_index(s, q, c);
        lemma_first_index(s, q, c2);
        assert forall|j: int| 0 <= j < c2 implies (#[trigger] t[j]).0 != q by {
            assert(t[j] == s[j]);
        }
        assert(t[c2] == s[c2]);
        lemma_first_index(t, q, c2);
    } else {
        assert(!has_key(t, q)) by {
            if has_key(t, q) {
                let w = choose|w: int| 0 <= w < t.len() && (#[trigger] t[w]).0 == q;
                assert(t[w] == s[w]);
            }
        }
    }
}

/// A key that occurs has a first position.
pub proof fn lemma_find_first<V>(s: Seq<(Symbol, V)>, k: Symbol, w: int)
    requires
        0 <= w < s.len(),
        s[w].0 == k,
    ensures
        exists|i: int| first_index(s, k, i),
    decreases w,
{
    if exists|j: int| 0 <= j < w && (#[trigger] s[j]).0 == k {
        let j = choose|j: int| 0 <= j < w && (#[trigger] s[j]).0 == k;
        lemma_find_first(s, k, j);
    } else {
        assert(first_index(s, k, w));
    }
}

/// The position of the first entry with key `k`.
pub fn find_key<V>(tbl: &Vec<(Symbol, V)>, k: Symbol) -> (r: Option<usize>)
    ensures
        r matches Some(i) ==> first_index(tbl@, k, i as int) && tbl_get(tbl@, k) == Some(
            tbl@[i as int].1,
        ),
        r is None ==> !has_key(tbl@, k) && tbl_get(tbl@, k) is None,
{
    let mut i: usize = 0;
    while i < tbl.len()
        invariant
            i <= tbl@.len(),
            forall|j: int| 0 <= j < i ==> (#[trigger] tbl@[j]).0 != k,
        decreases tbl@.len() - i,
    {
        if tbl[i].0.0 == k.0 {
            proof {
                lemma_first_index(tbl@, k, i as int);
            }
            return Some(i);
        }
        i = i + 1;
    }
    None
}

/// Nested scopes of names; a lookup reads the innermost binding.
pub struct SymbolTable<T> {
    scopes: Vec<Vec<(Symbol, T)>>,
}

/// The binding of `k` within one scope: the last pair that names it.
pub open spec fn scope_find<T>(s: Seq<(Symbol, T)>, k: Symbol) -> Option<T>
    decreases s.len(),
{
    if s.len() == 0 {
        None
    } else if s.last().0 == k {
        Some(s.last().1)
    } else {
        scope_find(s.drop_last(), k)
    }
}

/// The binding of `k` in the innermost scope that binds it.
pub open spec fn scopes_lookup<T>(sc: Seq<Seq<(Symbol, T)>>, k: Symbol) -> Option<T>
    decreases sc.len(),
{
    if sc.len() == 0 {
        None
    } else {
        match scope_find(sc.last(), k) {
            Some(v) => Some(v),
            None => scopes_lookup(sc.drop_last(), k),
        }
    }
}

/// The names bound, innermost scope first and each scope in binding order.
pub open spec fn scopes_names<T>(sc: Seq<Seq<(Symbol, T)>>) -> Seq<Symbol>
    decreases sc.len(),
{
    if sc.len() == 0 {
        Seq::empty()
    } else {
        sc.last().map_values(|p: (Symbol, T)| p.0) + scopes_names(sc.drop_last())
    }
}

/// The position of the binding of `sym` in one scope, searching from the most recent.
fn scope_index<T>(scope: &Vec<(Symbol, T)>, sym: Symbol) -> (r: Option<usize>)
    ensures
        r matches Some(i) ==> i < scope@.len() && scope@[i as int].0 == sym && scope_find(scope@, sym)
            == Some(scope@[i as int].1),
        r is None ==> scope_find(scope@, sym) is None,
{
    let mut i: usize = scope.len();
    assert(scope@.take(i as int) =~= scope@);
    while i > 0
        invariant
            i <= scope@.len(),
            scope_find(scope@, sym) == scope_find(scope@.take(i as int), sym),
        decreases i,
    {
        assert(scope@.take(i as int).drop_last() =~= scope@.take(i - 1));
        if scope[i - 1].0.0 == sym.0 {
            return Some(i - 1);
        }
        i = i - 1;
    }
    assert(scope@.take(0) =~= Seq::<(Symbol, T)>::empty());
    None
}

impl<T> View for SymbolTable<T> {
    type V = Seq<Seq<(Symbol, T)>>;

    closed spec fn view(&self) -> Seq<Seq<(Symbol, T)>> {
        self.scopes@.map_values(|v: Vec<(Symbol, T)>| v@)
    }
}

impl<T> SymbolTable<T> {
    pub fn new() -> (r: Self)
        ensures
            r@ == Seq::<Seq<(Symbol, T)>>::empty(),
    {
        let r = SymbolTable { scopes: Vec::new() };
        assert(r@ =~= Seq::<Seq<(Symbol, T)>>::empty());
        r
    }

    /// Opens a new innermost scope.
    pub fn enter_scope(&mut self)
        ensures
            final(self)@ == old(self)@.push(Seq::<(Symbol, T)>::empty()),
    {
        self.scopes.push(Vec::new());
        assert(self@ =~= old(self)@.push(Seq::<(Symbol, T)>::empty()));
    }

    /// Closes the innermost scope, if there is one.
    pub fn exit_scope(&mut self)
        ensures
            old(self)@.len() > 0 ==> final(self)@ == old(self)@.drop_last(),
            old(self)@.len() == 0 ==> final(self)@ == old(self)@,
    {
        let _ = self.scopes.pop();
        assert(old(self)@.len() > 0 ==> self@ =~= old(self)@.drop_last());
        assert(old(self)@.len() == 0 ==> self@ =~= old(self)@);
    }

    /// Binds `sym` in the innermost scope unless that scope already binds it.
    pub fn define(&mut self, sym: Symbol, val: T) -> (r: bool)
        requires
            old(self)@.len() > 0,
        ensures
            r == (scope_find(old(self)@.last(), sym) is None),
            r ==> final(self)@ == old(self)@.update(
                old(self)@.len() - 1,
                old(self)@.last().push((sym, val)),
            ),
            !r ==> final(self)@ == old(self)@,
    {
        let last = self.scopes.len() - 1;
        assert(self@[last as int] == self.scopes@[last as int]@);
        if scope_index(&self.scopes[last], sym).is_some() {
            return false;
        }
        let mut scope = self.scopes.pop().unwrap();
        scope.push((sym, val));
        self.scopes.push(scope);
        assert(self@ =~= old(self)@.update(old(self)@.len() - 1, old(self)@.last().push((sym, val))));
        true
    }

    /// Binds `sym` in the innermost scope; a later binding of the same name
    /// in that scope hides the earlier one.
    pub fn bind(&mut self, sym: Symbol, val: T)
        requires
            old(self)@.len() > 0,
        ensures
            final(self)@ == old(self)@.update(old(self)@.len() - 1, old(self)@.last().push((sym, val))),
    {
        let last = self.scopes.len() - 1;
        assert(self@[last as int] == self.scopes@[last as int]@);
        let mut scope = self.scopes.pop().unwrap();
        scope.push((sym, val));
        self.scopes.push(scope);
        assert(self@ =~= old(self)@.update(old(self)@.len() - 1, old(self)@.last().push((sym, val))));
    }

    /// The innermost binding of `sym`.
    pub fn lookup(&self, sym: Symbol) -> (r: Option<&T>)
        ensures
            r matches Some(v) ==> scopes_lookup(self@, sym) == Some(*v),
            r is None ==> scopes_lookup(self@, sym) is None,
    {
        let mut k: usize = self.scopes.len();
        assert(self@.take(k as int) =~= self@);
        while k > 0
            invariant
                k <= self@.len(),
                self@.len() == self.scopes@.len(),
                scopes_lookup(self@, sym) == scopes_lookup(self@.take(k as int), sym),
            decreases k,
        {
            let scope = &self.scopes[k - 1];
            assert(self@[k - 1] == scope@);
            assert(self@.take(k as int).drop_last() =~= self@.take(k - 1));
            assert(self@.take(k as int).last() == scope@);
            match scope_index(scope, sym) {
                Some(i) => {
                    return Some(&scope[i].1);
                },
                None => {},
            }
            k = k - 1;
        }
        assert(self@.take(0) =~= Seq::<Seq<(Symbol, T)>>::empty());
        None
    }

    /// Every bound name, innermost scope first.
    pub fn names(&self) -> (r: Vec<Symbol>)
        ensures
            r@ == scopes_names(self@),
    {
        let mut out: Vec<Symbol> = Vec::new();
        let mut k: usize = self.scopes.len();
        assert(self@.take(k as int) =~= self@);
        while k > 0
            invariant
                k <= self@.len(),
                self@.len() == self.scopes@.len(),
                out@ + scopes_names(self@.take(k as int)) == scopes_names(self@),
            decreases k,
        {
            let scope = &self.scopes[k - 1];
            assert(self@[k - 1] == scope@);
            assert(self@.take(k as int).drop_last() =~= self@.take(k - 1));
            let ghost base = out@;
            let mut i: usize = 0;
            while i < scope.len()
                invariant
                    i <= scope@.len(),
                    out@ == base + scope@.take(i as int).map_values(|p: (Symbol, T)| p.0),
                decreases scope@.len() - i,
            {
                out.push(scope[i].0);
                i = i + 1;
                assert(out@ =~= base + scope@.take(i as int).map_values(|p: (Symbol, T)| p.0));
            }
            assert(scope@.take(scope@.len() as int) =~= scope@);
            assert(out@ + scopes_names(self@.take(k - 1)) =~= base + scopes_names(
                self@.take(k as int),
            ));
            k = k - 1;
        }
        assert(self@.take(0) =~= Seq::<Seq<(Symbol, T)>>::empty());
        assert(out@ =~= scopes_names(self@));
        out
    }

    /// The number of open scopes.
    pub fn depth(&self) -> (r: usize)
        ensures
            r == self@.len(),
    {
        self.scopes.len()
    }
}

} // verus!
