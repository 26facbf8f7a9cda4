use vstd::prelude::*;
use std::collections::HashMap;
use crate::ast::{
    BinaryOperator, Block, EnumDef, Expr, ExprId, Function, Pattern, Program, Stmt, StructDef, Type,
    TypeV, expr_id, expr_span, is_place_spec, lemma_types_view, types_view,
};
use crate::error::LexoraError;
use crate::span::Span;
use crate::symbol::{Interner, Symbol};
use crate::tables::{find_key, has_key, scope_find, scopes_lookup, tbl_get};
use crate::text::{str_eq, to_string};
use crate::typechecker::{EnumInfo, grows, variants_for, variants_view};

verus! {

broadcast use vstd::std_specs::hash::group_hash_axioms;

/// Where an owning value stands on one path through the code.
#[derive(Clone, Copy, PartialEq, Eq, Debug, Structural)]
pub enum MoveState {
    Owned,
    Moved,
    MaybeMoved,
}

/// What is known of a binding: a plain copyable value, or an owning value
/// whose owning parts (each named by its path of field indices) are tracked.
#[derive(Debug)]
pub enum BindState {
    Copy,
    Owning { paths: Vec<Vec<u32>>, states: Vec<MoveState> },
}

/// The value of a binding state.
pub enum BindV {
    Copy,
    Owning(Seq<Seq<u32>>, Seq<MoveState>),
}

impl View for BindState {
    type V = BindV;

    open spec fn view(&self) -> BindV {
        match self {
            BindState::Copy => BindV::Copy,
            BindState::Owning { paths, states } => BindV::Owning(
                paths@.map_values(|p: Vec<u32>| p@),
                states@,
            ),
        }
    }
}

/// Every tracked part has a state.
pub open spec fn bind_wf(b: BindV) -> bool {
    match b {
        BindV::Copy => true,
        BindV::Owning(p, s) => p.len() == s.len(),
    }
}

pub open spec fn scopes_view(sc: Seq<Vec<(Symbol, BindState)>>) -> Seq<Seq<(Symbol, BindV)>> {
    sc.map_values(|v: Vec<(Symbol, BindState)>| v@.map_values(|p: (Symbol, BindState)| (p.0, p.1@)))
}

pub open spec fn scopes_wf(sc: Seq<Seq<(Symbol, BindV)>>) -> bool {
    forall|k: int, j: int|
        0 <= k < sc.len() && 0 <= j < sc[k].len() ==> bind_wf(#[trigger] sc[k][j].1)
}

/// `q` starts with `p`.
pub open spec fn prefix_of(p: Seq<u32>, q: Seq<u32>) -> bool {
    p.len() <= q.len() && q.take(p.len() as int) == p
}

/// Whether some part under `path` is in state `m`.
pub open spec fn any_under(p: Seq<Seq<u32>>, s: Seq<MoveState>, path: Seq<u32>, m: MoveState) -> bool {
    exists|i: int| 0 <= i < p.len() && prefix_of(path, p[i]) && #[trigger] s[i] == m
}

/// Whether every part under `path` is in state `m`.
pub open spec fn all_under(p: Seq<Seq<u32>>, s: Seq<MoveState>, path: Seq<u32>, m: MoveState) -> bool {
    forall|i: int| 0 <= i < p.len() && prefix_of(path, p[i]) ==> #[trigger] s[i] == m
}

/// Whether some part lies under `path`.
pub open spec fn some_under(p: Seq<Seq<u32>>, path: Seq<u32>) -> bool {
    exists|i: int| 0 <= i < p.len() && prefix_of(path, #[trigger] p[i])
}

/// What using the value at `path` of binding `b` is reported as.
pub enum Verdict {
    Fine,
    MaybeMoved,
    Moved,
    PartlyMoved,
}

pub open spec fn verdict(b: Option<BindV>, path: Seq<u32>) -> Verdict {
    match b {
        Some(BindV::Owning(p, s)) => if !some_under(p, path) {
            Verdict::Fine
        } else if any_under(p, s, path, MoveState::MaybeMoved) {
            Verdict::MaybeMoved
        } else if all_under(p, s, path, MoveState::Moved) {
            Verdict::Moved
        } else if any_under(p, s, path, MoveState::Moved) {
            Verdict::PartlyMoved
        } else {
            Verdict::Fine
        },
        _ => Verdict::Fine,
    }
}

/// The binding with every part under `path` set to `m`.
pub open spec fn mark_spec(b: BindV, path: Seq<u32>, m: MoveState) -> BindV {
    match b {
        BindV::Copy => BindV::Copy,
        BindV::Owning(p, s) => BindV::Owning(
            p,
            Seq::new(
                s.len(),
                |i: int|
                    if i < p.len() && prefix_of(path, p[i]) {
                        m
                    } else {
                        s[i]
                    },
            ),
        ),
    }
}

/// One scope with the last binding of `sym` replaced by `v`.
pub open spec fn scope_set(s: Seq<(Symbol, BindV)>, sym: Symbol, v: BindV) -> Seq<(Symbol, BindV)>
    decreases s.len(),
{
    if s.len() == 0 {
        s
    } else if s.last().0 == sym {
        s.drop_last().push((sym, v))
    } else {
        scope_set(s.drop_last(), sym, v).push(s.last())
    }
}

/// The scopes with the innermost binding of `sym` replaced by `v`.
pub open spec fn scopes_set(sc: Seq<Seq<(Symbol, BindV)>>, sym: Symbol, v: BindV) -> Seq<
    Seq<(Symbol, BindV)>,
>
    decreases sc.len(),
{
    if sc.len() == 0 {
        sc
    } else if scope_find(sc.last(), sym) is Some {
        sc.drop_last().push(scope_set(sc.last(), sym, v))
    } else {
        scopes_set(sc.drop_last(), sym, v).push(sc.last())
    }
}

/// A type whose values own nothing, whatever the declarations say.
pub open spec fn copy_type(t: TypeV) -> bool
    decreases t,
{
    match t {
        TypeV::I32 | TypeV::I64 | TypeV::Bool | TypeV::Void | TypeV::Str | TypeV::Error => true,
        TypeV::Array(elem, _) => copy_type(*elem),
        _ => false,
    }
}

/// Every parameter of the function has a copy type.
pub open spec fn copy_params(f: &Function) -> bool {
    forall|i: int| 0 <= i < f.params@.len() ==> copy_type(#[trigger] f.params@[i].1@)
}

/// Every binding of one scope is a plain copy.
pub open spec fn copy_scope(s: Seq<(Symbol, BindV)>) -> bool {
    forall|j: int| 0 <= j < s.len() ==> (#[trigger] s[j]).1 is Copy
}

/// Every binding of the scopes is a plain copy.
pub open spec fn copy_scopes(sc: Seq<Seq<(Symbol, BindV)>>) -> bool {
    forall|k: int| 0 <= k < sc.len() ==> copy_scope(#[trigger] sc[k])
}

proof fn lemma_copy_scope_set(s: Seq<(Symbol, BindV)>, sym: Symbol, v: BindV)
    requires
        copy_scope(s),
        v is Copy,
    ensures
        copy_scope(scope_set(s, sym, v)),
    decreases s.len(),
{
    if s.len() > 0 {
        if s.last().0 == sym {
            assert(copy_scope(s.drop_last()));
            let t = s.drop_last().push((sym, v));
            assert forall|j: int| 0 <= j < t.len() implies (#[trigger] t[j]).1 is Copy by {
                if j < s.len() - 1 {
                    assert(t[j] == s[j]);
                }
            }
        } else {
            assert(copy_scope(s.drop_last()));
            lemma_copy_scope_set(s.drop_last(), sym, v);
            let u = scope_set(s.drop_last(), sym, v);
            let t = u.push(s.last());
            assert forall|j: int| 0 <= j < t.len() implies (#[trigger] t[j]).1 is Copy by {
                if j < u.len() {
                    assert(t[j] == u[j]);
                } else {
                    assert(t[j] == s[s.len() - 1]);
                }
            }
        }
    }
}

proof fn lemma_copy_scopes_set(sc: Seq<Seq<(Symbol, BindV)>>, sym: Symbol, v: BindV)
    requires
        copy_scopes(sc),
        v is Copy,
    ensures
        copy_scopes(scopes_set(sc, sym, v)),
    decreases sc.len(),
{
    if sc.len() > 0 {
        let inner = sc.drop_last();
        assert(copy_scopes(inner)) by {
            assert forall|k: int| 0 <= k < inner.len() implies copy_scope(#[trigger] inner[k]) by {
                assert(inner[k] == sc[k]);
            }
        }
        assert(copy_scope(sc[sc.len() - 1]));
        if scope_find(sc.last(), sym) is Some {
            lemma_copy_scope_set(sc.last(), sym, v);
            let t = inner.push(scope_set(sc.last(), sym, v));
            assert forall|k: int| 0 <= k < t.len() implies copy_scope(#[trigger] t[k]) by {
                if k < inner.len() {
                    assert(t[k] == inner[k]);
                }
            }
        } else {
            lemma_copy_scopes_set(inner, sym, v);
            let u = scopes_set(inner, sym, v);
            let t = u.push(sc.last());
            assert forall|k: int| 0 <= k < t.len() implies copy_scope(#[trigger] t[k]) by {
                if k < u.len() {
                    assert(t[k] == u[k]);
                }
            }
        }
    }
}

proof fn lemma_copy_scope_find(s: Seq<(Symbol, BindV)>, sym: Symbol)
    requires
        copy_scope(s),
    ensures
        scope_find(s, sym) matches Some(b) ==> b is Copy,
    decreases s.len(),
{
    if s.len() > 0 {
        assert(s.last() == s[s.len() - 1]);
        if s.last().0 != sym {
            let inner = s.drop_last();
            assert forall|j: int| 0 <= j < inner.len() implies (#[trigger] inner[j]).1 is Copy by {
                assert(inner[j] == s[j]);
            }
            lemma_copy_scope_find(inner, sym);
        }
    }
}

/// In copy scopes every name is bound to a plain copy, or not bound.
proof fn lemma_copy_lookup(sc: Seq<Seq<(Symbol, BindV)>>, sym: Symbol)
    requires
        copy_scopes(sc),
    ensures
        scopes_lookup(sc, sym) matches Some(b) ==> b is Copy,
    decreases sc.len(),
{
    if sc.len() > 0 {
        assert(copy_scope(sc[sc.len() - 1]));
        lemma_copy_scope_find(sc.last(), sym);
        let inner = sc.drop_last();
        assert forall|k: int| 0 <= k < inner.len() implies copy_scope(#[trigger] inner[k]) by {
            assert(inner[k] == sc[k]);
        }
        lemma_copy_lookup(inner, sym);
    }
}

/// Joining copy scopes with any scopes gives copy scopes.
proof fn lemma_copy_join(a: Seq<Seq<(Symbol, BindV)>>, b: Seq<Seq<(Symbol, BindV)>>)
    requires
        copy_scopes(a),
    ensures
        copy_scopes(join_scopes_spec(a, b)),
{
    let j = join_scopes_spec(a, b);
    assert forall|k: int| 0 <= k < j.len() implies copy_scope(#[trigger] j[k]) by {
        assert(copy_scope(a[k]));
        assert forall|q: int| 0 <= q < j[k].len() implies (#[trigger] j[k][q]).1 is Copy by {
            assert(a[k][q].1 is Copy);
        }
    }
}

/// Values of a copy type own nothing.
proof fn lemma_copy_not_owning(
    strs: Seq<(Symbol, Vec<(Symbol, Type)>)>,
    enums: Seq<(Symbol, EnumInfo)>,
    t: TypeV,
    n: nat,
)
    requires
        copy_type(t),
    ensures
        !owning_spec(strs, enums, t, n),
    decreases t,
{
    match t {
        TypeV::Array(elem, _) => lemma_copy_not_owning(strs, enums, *elem, n),
        _ => {},
    }
}

/// The pointwise join of two states of one binding: where they differ the
/// value may have moved.
pub open spec fn join_spec(a: BindV, b: BindV) -> BindV {
    match (a, b) {
        (BindV::Owning(p, sa), BindV::Owning(_, sb)) => if sa.len() == sb.len() {
            BindV::Owning(
                p,
                Seq::new(
                    sa.len(),
                    |i: int|
                        if sa[i] == sb[i] {
                            sa[i]
                        } else {
                            MoveState::MaybeMoved
                        },
                ),
            )
        } else {
            a
        },
        _ => a,
    }
}

/// Joining a state with itself changes nothing.
pub proof fn lemma_join_idempotent(a: BindV)
    ensures
        join_spec(a, a) == a,
{
    if let BindV::Owning(p, s) = a {
        assert(Seq::new(
            s.len(),
            |i: int|
                if s[i] == s[i] {
                    s[i]
                } else {
                    MoveState::MaybeMoved
                },
        ) =~= s);
    }
}

/// Joining two states of the same parts does not depend on their order.
pub proof fn lemma_join_commutes(p: Seq<Seq<u32>>, sa: Seq<MoveState>, sb: Seq<MoveState>)
    requires
        sa.len() == sb.len(),
    ensures
        join_spec(BindV::Owning(p, sa), BindV::Owning(p, sb)) == join_spec(
            BindV::Owning(p, sb),
            BindV::Owning(p, sa),
        ),
{
    let x = Seq::new(
        sa.len(),
        |i: int|
            if sa[i] == sb[i] {
                sa[i]
            } else {
                MoveState::MaybeMoved
            },
    );
    let y = Seq::new(
        sb.len(),
        |i: int|
            if sb[i] == sa[i] {
                sb[i]
            } else {
                MoveState::MaybeMoved
            },
    );
    assert(x =~= y);
}

/// A joined part is owned only when it is owned on both paths.
pub proof fn lemma_join_owned(p: Seq<Seq<u32>>, sa: Seq<MoveState>, sb: Seq<MoveState>, i: int)
    requires
        sa.len() == sb.len(),
        0 <= i < sa.len(),
    ensures
        join_spec(BindV::Owning(p, sa), BindV::Owning(p, sb))->Owning_1[i] == MoveState::Owned
            <==> (sa[i] == MoveState::Owned && sb[i] == MoveState::Owned),
{
}

pub fn is_comparison(op: &BinaryOperator) -> (r: bool)
    ensures
        r == (*op == BinaryOperator::Eq || *op == BinaryOperator::NotEq || *op == BinaryOperator::Less
            || *op == BinaryOperator::Greater || *op == BinaryOperator::LessEq || *op
            == BinaryOperator::GreaterEq),
{
    match op {
        BinaryOperator::Eq | BinaryOperator::NotEq | BinaryOperator::Less | BinaryOperator::Greater
        | BinaryOperator::LessEq | BinaryOperator::GreaterEq => true,
        _ => false,
    }
}

fn dup_paths(v: &Vec<Vec<u32>>) -> (r: Vec<Vec<u32>>)
    ensures
        r@.map_values(|p: Vec<u32>| p@) == v@.map_values(|p: Vec<u32>| p@),
{
    let mut out: Vec<Vec<u32>> = Vec::new();
    let mut i: usize = 0;
    while i < v.len()
        invariant
            i <= v@.len(),
            out@.len() == i,
            forall|j: int| 0 <= j < i ==> (#[trigger] out@[j])@ == v@[j]@,
        decreases v@.len() - i,
    {
        let mut p: Vec<u32> = Vec::new();
        let src = &v[i];
        let mut k: usize = 0;
        while k < src.len()
            invariant
                k <= src@.len(),
                p@ == src@.take(k as int),
            decreases src@.len() - k,
        {
            p.push(src[k]);
            k = k + 1;
            assert(p@ =~= src@.take(k as int));
        }
        assert(src@.take(src@.len() as int) =~= src@);
        out.push(p);
        i = i + 1;
    }
    assert(out@.map_values(|p: Vec<u32>| p@) =~= v@.map_values(|p: Vec<u32>| p@));
    out
}

fn dup_states(v: &Vec<MoveState>) -> (r: Vec<MoveState>)
    ensures
        r@ == v@,
{
    let mut out: Vec<MoveState> = Vec::new();
    let mut i: usize = 0;
    while i < v.len()
        invariant
            i <= v@.len(),
            out@ == v@.take(i as int),
        decreases v@.len() - i,
    {
        out.push(v[i]);
        i = i + 1;
        assert(out@ =~= v@.take(i as int));
    }
    assert(v@.take(v@.len() as int) =~= v@);
    out
}

impl BindState {
    /// A copy of the binding state.
    pub fn dup(&self) -> (r: BindState)
        ensures
            r@ == self@,
    {
        match self {
            BindState::Copy => BindState::Copy,
            BindState::Owning { paths, states } => BindState::Owning {
                paths: dup_paths(paths),
                states: dup_states(states),
            },
        }
    }
}

/// The join of two states of one binding.
pub fn join_state(a: &BindState, b: &BindState) -> (r: BindState)
    ensures
        r@ == join_spec(a@, b@),
{
    match (a, b) {
        (BindState::Owning { paths, states: sa }, BindState::Owning { states: sb, .. }) => {
            if sa.len() == sb.len() {
                let mut out: Vec<MoveState> = Vec::new();
                let mut i: usize = 0;
                while i < sa.len()
                    invariant
                        sa@.len() == sb@.len(),
                        i <= sa@.len(),
                        out@.len() == i,
                        forall|j: int|
                            0 <= j < i ==> #[trigger] out@[j] == if sa@[j] == sb@[j] {
                                sa@[j]
                            } else {
                                MoveState::MaybeMoved
                            },
                    decreases sa@.len() - i,
                {
                    let x = sa[i];
                    let y = sb[i];
                    out.push(if x == y {
                        x
                    } else {
                        MoveState::MaybeMoved
                    });
                    i = i + 1;
                }
                let r = BindState::Owning { paths: dup_paths(paths), states: out };
                assert(r@->Owning_1 =~= join_spec(a@, b@)->Owning_1);
                r
            } else {
                a.dup()
            }
        },
        _ => a.dup(),
    }
}

/// Whether a value of type `t` owns memory (at most `n` declarations deep).
pub open spec fn owning_spec(
    strs: Seq<(Symbol, Vec<(Symbol, Type)>)>,
    enums: Seq<(Symbol, EnumInfo)>,
    t: TypeV,
    n: nat,
) -> bool
    decreases n, t,
{
    match t {
        TypeV::Box(_) | TypeV::String | TypeV::Param(_) => true,
        TypeV::Enum(e, args) => n > 0 && match variants_for(enums, e, args) {
            Some(vs) => exists|i: int, k: int|
                0 <= i < vs.len() && 0 <= k < vs[i].1.len() && owning_spec(
                    strs,
                    enums,
                    #[trigger] vs[i].1[k],
                    (n - 1) as nat,
                ),
            None => false,
        },
        TypeV::Struct(s) => n > 0 && match tbl_get(strs, s) {
            Some(fs) => exists|i: int|
                0 <= i < fs@.len() && owning_spec(strs, enums, (#[trigger] fs@[i]).1@, (n - 1) as nat),
            None => false,
        },
        TypeV::Array(elem, _) => owning_spec(strs, enums, *elem, n),
        _ => false,
    }
}

/// The position of `f` among the fields.
pub open spec fn field_index(fields: Seq<(Symbol, Type)>, f: Symbol) -> Option<int> {
    if has_key(fields, f) {
        Some(choose|i: int| crate::tables::first_index(fields, f, i))
    } else {
        None
    }
}

/// The variable and field path that a place expression names.
pub open spec fn place_spec<'a>(
    e: &Expr<'a>,
    types: Map<ExprId, Type>,
    strs: Seq<(Symbol, Vec<(Symbol, Type)>)>,
) -> Option<(Symbol, Seq<u32>)>
    decreases e,
{
    match e {
        Expr::Identifier(sym, _, _) => Some((*sym, Seq::empty())),
        Expr::FieldAccess { object, field, .. } => match place_spec(&**object, types, strs) {
            Some((sym, path)) => if types.contains_key(expr_id(&**object)) {
                match types[expr_id(&**object)] {
                    Type::Struct(s) => match tbl_get(strs, s) {
                        Some(fs) => match field_index(fs@, *field) {
                            Some(idx) => Some((sym, path.push(idx as u32))),
                            None => None,
                        },
                        None => None,
                    },
                    _ => None,
                }
            } else {
                None
            },
            None => None,
        },
        _ => None,
    }
}

/// Whether an assignment to `path` would write into a part of a value that
/// is not fully owned.
pub open spec fn assign_blocked(b: Option<BindV>, path: Seq<u32>) -> bool {
    match b {
        Some(BindV::Owning(p, s)) => exists|i: int|
            0 <= i < p.len() && (#[trigger] p[i]).len() < path.len() && prefix_of(p[i], path) && s[i]
                != MoveState::Owned,
        _ => false,
    }
}

/// Scope-by-scope join of two views of the same scopes.
pub open spec fn join_scopes_spec(a: Seq<Seq<(Symbol, BindV)>>, b: Seq<Seq<(Symbol, BindV)>>) -> Seq<
    Seq<(Symbol, BindV)>,
> {
    Seq::new(
        if a.len() <= b.len() {
            a.len()
        } else {
            b.len()
        },
        |k: int|
            a[k].map_values(
                |p: (Symbol, BindV)|
                    (
                        p.0,
                        join_spec(
                            p.1,
                            match scope_find(b[k], p.0) {
                                Some(v) => v,
                                None => p.1,
                            },
                        ),
                    ),
            ),
    )
}

/// The ownership checker: reports uses of moved values and records moves.
pub struct MoveChecker<'a> {
    types: &'a HashMap<ExprId, Type>,
    interner: &'a Interner,
    scopes: Vec<Vec<(Symbol, BindState)>>,
    moves: HashMap<ExprId, Vec<u32>>,
    errors: Vec<LexoraError>,
    structs: Vec<(Symbol, Vec<(Symbol, Type)>)>,
    enums: Vec<(Symbol, EnumInfo)>,
}

/// The last position of `sym` in one scope.
fn scope_pos(scope: &Vec<(Symbol, BindState)>, sym: Symbol) -> (r: Option<usize>)
    ensures
        match r {
            Some(j) => j < scope@.len() && scope@[j as int].0 == sym && forall|q: int|
                j < q < scope@.len() ==> (#[trigger] scope@[q]).0 != sym,
            None => forall|q: int| 0 <= q < scope@.len() ==> (#[trigger] scope@[q]).0 != sym,
        },
{
    let mut i: usize = scope.len();
    while i > 0
        invariant
            i <= scope@.len(),
            forall|q: int| i <= q < scope@.len() ==> (#[trigger] scope@[q]).0 != sym,
        decreases i,
    {
        if scope[i - 1].0.0 == sym.0 {
            return Some(i - 1);
        }
        i = i - 1;
    }
    None
}

/// What `scope_find` reads for the last position of a key.
proof fn lemma_scope_find_pos(s: Seq<(Symbol, BindV)>, sym: Symbol, j: int)
    requires
        0 <= j < s.len(),
        s[j].0 == sym,
        forall|q: int| j < q < s.len() ==> (#[trigger] s[q]).0 != sym,
    ensures
        scope_find(s, sym) == Some(s[j].1),
        scope_set(s, sym, s[j].1) == s,
        forall|v: BindV| #[trigger] scope_set(s, sym, v) == s.update(j, (sym, v)),
    decreases s.len(),
{
    if j < s.len() - 1 {
        lemma_scope_find_pos(s.drop_last(), sym, j);
        assert forall|v: BindV| #[trigger] scope_set(s, sym, v) == s.update(j, (sym, v)) by {
            assert(scope_set(s.drop_last(), sym, v) == s.drop_last().update(j, (sym, v)));
            assert(s.drop_last().update(j, (sym, v)).push(s.last()) =~= s.update(j, (sym, v)));
        }
        assert(s.drop_last().push(s.last()) =~= s);
    } else {
        assert forall|v: BindV| #[trigger] scope_set(s, sym, v) == s.update(j, (sym, v)) by {
            assert(s.drop_last().push((sym, v)) =~= s.update(j, (sym, v)));
        }
        assert(s.drop_last().push((sym, s[j].1)) =~= s);
    }
}

proof fn lemma_scope_find_none(s: Seq<(Symbol, BindV)>, sym: Symbol)
    requires
        forall|q: int| 0 <= q < s.len() ==> (#[trigger] s[q]).0 != sym,
    ensures
        scope_find(s, sym) is None,
    decreases s.len(),
{
    if s.len() > 0 {
        lemma_scope_find_none(s.drop_last(), sym);
    }
}

/// Lookup and replacement at the innermost binding found at scope `k`.
proof fn lemma_scopes_at(sc: Seq<Seq<(Symbol, BindV)>>, sym: Symbol, k: int, v: BindV)
    requires
        0 <= k < sc.len(),
        scope_find(sc[k], sym) is Some,
        forall|q: int| k < q < sc.len() ==> scope_find(#[trigger] sc[q], sym) is None,
    ensures
        scopes_lookup(sc, sym) == scope_find(sc[k], sym),
        scopes_set(sc, sym, v) == sc.update(k, scope_set(sc[k], sym, v)),
    decreases sc.len(),
{
    if k < sc.len() - 1 {
        assert(scope_find(sc[sc.len() - 1], sym) is None);
        lemma_scopes_at(sc.drop_last(), sym, k, v);
        assert(sc.drop_last().update(k, scope_set(sc[k], sym, v)).push(sc.last()) =~= sc.update(
            k,
            scope_set(sc[k], sym, v),
        ));
    } else {
        assert(sc.drop_last().push(scope_set(sc.last(), sym, v)) =~= sc.update(
            k,
            scope_set(sc[k], sym, v),
        ));
    }
}

proof fn lemma_scopes_none(sc: Seq<Seq<(Symbol, BindV)>>, sym: Symbol, v: BindV)
    requires
        forall|q: int| 0 <= q < sc.len() ==> scope_find(#[trigger] sc[q], sym) is None,
    ensures
        scopes_lookup(sc, sym) is None,
        scopes_set(sc, sym, v) == sc,
    decreases sc.len(),
{
    if sc.len() > 0 {
        assert(scope_find(sc[sc.len() - 1], sym) is None);
        lemma_scopes_none(sc.drop_last(), sym, v);
        assert(sc.drop_last().push(sc.last()) =~= sc);
    }
}

fn dup_scope(s: &Vec<(Symbol, BindState)>) -> (r: Vec<(Symbol, BindState)>)
    ensures
        r@.map_values(|p: (Symbol, BindState)| (p.0, p.1@)) == s@.map_values(
            |p: (Symbol, BindState)| (p.0, p.1@),
        ),
{
    let mut out: Vec<(Symbol, BindState)> = Vec::new();
    let mut i: usize = 0;
    while i < s.len()
        invariant
            i <= s@.len(),
            out@.len() == i,
            forall|j: int| 0 <= j < i ==> (#[trigger] out@[j]).0 == s@[j].0 && out@[j].1@ == s@[j].1@,
        decreases s@.len() - i,
    {
        out.push((s[i].0, s[i].1.dup()));
        i = i + 1;
    }
    assert(out@.map_values(|p: (Symbol, BindState)| (p.0, p.1@)) =~= s@.map_values(
        |p: (Symbol, BindState)| (p.0, p.1@),
    ));
    out
}

fn dup_scopes(sc: &Vec<Vec<(Symbol, BindState)>>) -> (r: Vec<Vec<(Symbol, BindState)>>)
    ensures
        scopes_view(r@) == scopes_view(sc@),
{
    let mut out: Vec<Vec<(Symbol, BindState)>> = Vec::new();
    let mut i: usize = 0;
    while i < sc.len()
        invariant
            i <= sc@.len(),
            out@.len() == i,
            forall|j: int|
                0 <= j < i ==> (#[trigger] out@[j])@.map_values(|p: (Symbol, BindState)| (p.0, p.1@))
                    == sc@[j]@.map_values(|p: (Symbol, BindState)| (p.0, p.1@)),
        decreases sc@.len() - i,
    {
        let d = dup_scope(&sc[i]);
        out.push(d);
        i = i + 1;
    }
    assert(scopes_view(out@) =~= scopes_view(sc@));
    out
}

/// Joins two snapshots of the scopes, scope by scope.
pub fn join_scopes(a: &Vec<Vec<(Symbol, BindState)>>, b: &Vec<Vec<(Symbol, BindState)>>) -> (r: Vec<
    Vec<(Symbol, BindState)>,
>)
    ensures
        scopes_view(r@) == join_scopes_spec(scopes_view(a@), scopes_view(b@)),
{
    let n = if a.len() <= b.len() {
        a.len()
    } else {
        b.len()
    };
    let ghost av = scopes_view(a@);
    let ghost bv = scopes_view(b@);
    let ghost want = join_scopes_spec(av, bv);
    let mut out: Vec<Vec<(Symbol, BindState)>> = Vec::new();
    let mut k: usize = 0;
    while k < n
        invariant
            n == want.len(),
            n <= a@.len(),
            n <= b@.len(),
            av == scopes_view(a@),
            bv == scopes_view(b@),
            want == join_scopes_spec(av, bv),
            k <= n,
            out@.len() == k,
            forall|q: int|
                0 <= q < k ==> (#[trigger] out@[q])@.map_values(|p: (Symbol, BindState)| (p.0, p.1@))
                    == want[q],
        decreases n - k,
    {
        let ma = &a[k];
        let mb = &b[k];
        let mut scope: Vec<(Symbol, BindState)> = Vec::new();
        let mut i: usize = 0;
        while i < ma.len()
            invariant
                k < n,
                n <= a@.len(),
                n <= b@.len(),
                av == scopes_view(a@),
                bv == scopes_view(b@),
                *ma == a@[k as int],
                *mb == b@[k as int],
                want == join_scopes_spec(av, bv),
                i <= ma@.len(),
                scope@.len() == i,
                forall|j: int|
                    0 <= j < i ==> (#[trigger] scope@[j]).0 == ma@[j].0 && scope@[j].1@ == want[k as int][j].1,
            decreases ma@.len() - i,
        {
            let sym = ma[i].0;
            let joined = match scope_pos(mb, sym) {
                Some(j) => {
                    proof {
                        lemma_scope_find_pos(bv[k as int], sym, j as int);
                    }
                    join_state(&ma[i].1, &mb[j].1)
                },
                None => {
                    proof {
                        lemma_scope_find_none(bv[k as int], sym);
                    }
                    join_state(&ma[i].1, &ma[i].1)
                },
            };
            scope.push((sym, joined));
            i = i + 1;
        }
        let ghost sv = scope@.map_values(|p: (Symbol, BindState)| (p.0, p.1@));
        proof {
            assert(sv =~= want[k as int]);
        }
        out.push(scope);
        k = k + 1;
    }
    assert(scopes_view(out@) =~= want);
    out
}

impl<'a> MoveChecker<'a> {
    pub closed spec fn sc(&self) -> Seq<Seq<(Symbol, BindV)>> {
        scopes_view(self.scopes@)
    }

    pub closed spec fn errs(&self) -> Seq<LexoraError> {
        self.errors@
    }

    pub closed spec fn moved(&self) -> Map<ExprId, Vec<u32>> {
        self.moves@
    }

    pub closed spec fn typ(&self) -> Map<ExprId, Type> {
        self.types@
    }

    pub closed spec fn strs(&self) -> Seq<(Symbol, Vec<(Symbol, Type)>)> {
        self.structs@
    }

    pub closed spec fn enum_tbl(&self) -> Seq<(Symbol, EnumInfo)> {
        self.enums@
    }

    pub closed spec fn names(&self) -> Seq<Seq<char>> {
        self.interner@
    }

    /// The tables that the traversal only reads.
    /// Nothing the checker can meet owns memory: every recorded type is a
    /// copy type, no enum is declared, and every binding is a plain copy.
    #[verifier::opaque]
    pub closed spec fn copy_world(&self) -> bool {
        &&& forall|id: ExprId| self.typ().contains_key(id) ==> copy_type(#[trigger] self.typ()[id]@)
        &&& self.enum_tbl().len() == 0
        &&& copy_scopes(self.sc())
    }

    /// In a copy world every name is bound to a plain copy, or not bound.
    proof fn lemma_world_lookup(&self, sym: Symbol)
        requires
            self.copy_world(),
        ensures
            scopes_lookup(self.sc(), sym) matches Some(b) ==> b is Copy,
    {
        reveal(MoveChecker::copy_world);
        lemma_copy_lookup(self.sc(), sym);
    }

    /// In a copy world no recorded type owns memory.
    proof fn lemma_world_type(&self, id: ExprId, n: nat)
        requires
            self.copy_world(),
        ensures
            self.typ().contains_key(id) ==> !owning_spec(self.strs(), self.enum_tbl(), self.typ()[id]@, n),
    {
        reveal(MoveChecker::copy_world);
        if self.typ().contains_key(id) {
            lemma_copy_not_owning(self.strs(), self.enum_tbl(), self.typ()[id]@, n);
        }
    }

    /// In a copy world every recorded type is a copy type.
    proof fn lemma_world_copy_type(&self, id: ExprId)
        requires
            self.copy_world(),
        ensures
            self.typ().contains_key(id) ==> copy_type(self.typ()[id]@),
    {
        reveal(MoveChecker::copy_world);
    }

    /// A checker with copy types only, no enum and copy scopes is in a copy world.
    proof fn lemma_world_intro(&self)
        requires
            forall|id: ExprId| self.typ().contains_key(id) ==> copy_type(#[trigger] self.typ()[id]@),
            self.enum_tbl().len() == 0,
            copy_scopes(self.sc()),
        ensures
            self.copy_world(),
    {
        reveal(MoveChecker::copy_world);
    }

    /// The world stays a copy world when only the scopes change, to copies.
    proof fn lemma_world_keeps(&self, other: &MoveChecker)
        requires
            self.copy_world(),
            other.same_tables(self),
            copy_scopes(other.sc()),
        ensures
            other.copy_world(),
    {
        reveal(MoveChecker::copy_world);
        assert(other.typ() == self.typ());
        assert forall|id: ExprId| other.typ().contains_key(id) implies copy_type(#[trigger] other.typ()[id]@) by {
            assert(self.typ().contains_key(id));
        }
    }

    /// The scopes of a copy world hold copies only.
    proof fn lemma_world_scopes(&self)
        requires
            self.copy_world(),
        ensures
            copy_scopes(self.sc()),
            self.enum_tbl().len() == 0,
    {
        reveal(MoveChecker::copy_world);
    }

    pub closed spec fn same_tables(&self, other: &MoveChecker) -> bool {
        &&& self.types@ == other.types@
        &&& self.interner@ == other.interner@
        &&& self.structs@ == other.structs@
        &&& self.enums@ == other.enums@
    }

    pub fn new(types: &'a HashMap<ExprId, Type>, interner: &'a Interner) -> (r: Self)
        ensures
            r.sc() == Seq::<Seq<(Symbol, BindV)>>::empty(),
            r.errs() == Seq::<LexoraError>::empty(),
            r.moved() == Map::<ExprId, Vec<u32>>::empty(),
            r.typ() == types@,
            r.names() == interner@,
            r.strs() == Seq::<(Symbol, Vec<(Symbol, Type)>)>::empty(),
            r.enum_tbl() == Seq::<(Symbol, EnumInfo)>::empty(),
    {
        let r = MoveChecker {
            types,
            interner,
            scopes: Vec::new(),
            moves: HashMap::new(),
            errors: Vec::new(),
            structs: Vec::new(),
            enums: Vec::new(),
        };
        assert(r.sc() =~= Seq::<Seq<(Symbol, BindV)>>::empty());
        r
    }

    fn enter(&mut self)
        ensures
            stays_quiet(old(self), final(self)),
            final(self).sc() == old(self).sc().push(Seq::<(Symbol, BindV)>::empty()),
            final(self).errs() == old(self).errs(),
            final(self).moved() == old(self).moved(),
            final(self).same_tables(old(self)),
    {
        let v: Vec<(Symbol, BindState)> = Vec::new();
        assert(v@.map_values(|p: (Symbol, BindState)| (p.0, p.1@)) =~= Seq::<(Symbol, BindV)>::empty());
        self.scopes.push(v);
        assert(self.sc() =~= old(self).sc().push(Seq::<(Symbol, BindV)>::empty()));
        proof {
            if old(self).copy_world() {
                old(self).lemma_world_scopes();
                let sc = self.sc();
                assert forall|k: int| 0 <= k < sc.len() implies copy_scope(#[trigger] sc[k]) by {
                    if k < old(self).sc().len() {
                        assert(sc[k] == old(self).sc()[k]);
                    }
                }
                old(self).lemma_world_keeps(&*self);
            }
        }
    }

    fn exit(&mut self)
        ensures
            stays_quiet(old(self), final(self)),
            old(self).sc().len() > 0 ==> final(self).sc() == old(self).sc().drop_last(),
            old(self).sc().len() == 0 ==> final(self).sc() == old(self).sc(),
            final(self).errs() == old(self).errs(),
            final(self).moved() == old(self).moved(),
            final(self).same_tables(old(self)),
    {
        let _ = self.scopes.pop();
        proof {
            if old(self).scopes@.len() > 0 {
                assert(self.scopes@ =~= old(self).scopes@.drop_last());
                assert(self.sc() =~= old(self).sc().drop_last());
            }
            if old(self).copy_world() {
                old(self).lemma_world_scopes();
                let sc = self.sc();
                assert forall|k: int| 0 <= k < sc.len() implies copy_scope(#[trigger] sc[k]) by {
                    assert(sc[k] == old(self).sc()[k]);
                }
                old(self).lemma_world_keeps(&*self);
            }
        }
    }

    /// Where the innermost binding of `sym` sits.
    fn find_binding(&self, sym: Symbol) -> (r: Option<(usize, usize)>)
        ensures
            match r {
                Some((k, j)) => {
                    &&& k < self.sc().len()
                    &&& j < self.sc()[k as int].len()
                    &&& self.sc()[k as int][j as int].0 == sym
                    &&& scopes_lookup(self.sc(), sym) == Some(self.sc()[k as int][j as int].1)
                    &&& forall|v: BindV| #[trigger] scopes_set(self.sc(), sym, v) == self.sc().update(
                        k as int,
                        self.sc()[k as int].update(j as int, (sym, v)),
                    )
                },
                None => {
                    &&& scopes_lookup(self.sc(), sym) is None
                    &&& forall|v: BindV| #[trigger] scopes_set(self.sc(), sym, v) == self.sc()
                },
            },
    {
        let mut k: usize = self.scopes.len();
        while k > 0
            invariant
                k <= self.sc().len(),
                self.sc().len() == self.scopes@.len(),
                forall|q: int| k <= q < self.sc().len() ==> scope_find(#[trigger] self.sc()[q], sym) is None,
            decreases k,
        {
            let scope = &self.scopes[k - 1];
            let ghost sv = self.sc()[k - 1];
            assert(sv == scope@.map_values(|p: (Symbol, BindState)| (p.0, p.1@)));
            match scope_pos(scope, sym) {
                Some(j) => {
                    proof {
                        lemma_scope_find_pos(sv, sym, j as int);
                        assert forall|v: BindV| #[trigger] scopes_set(self.sc(), sym, v) == self.sc().update(
                            k - 1,
                            self.sc()[k - 1].update(j as int, (sym, v)),
                        ) by {
                            lemma_scopes_at(self.sc(), sym, k - 1, v);
                        }
                        lemma_scopes_at(self.sc(), sym, k - 1, BindV::Copy);
                    }
                    return Some((k - 1, j));
                },
                None => {
                    proof {
                        lemma_scope_find_none(sv, sym);
                    }
                },
            }
            k = k - 1;
        }
        proof {
            assert forall|v: BindV| #[trigger] scopes_set(self.sc(), sym, v) == self.sc() by {
                lemma_scopes_none(self.sc(), sym, v);
            }
            lemma_scopes_none(self.sc(), sym, BindV::Copy);
        }
        None
    }

    /// A copy of the innermost binding state of `sym`.
    fn lookup(&self, sym: Symbol) -> (r: Option<BindState>)
        ensures
            match r {
                Some(b) => scopes_lookup(self.sc(), sym) == Some(b@),
                None => scopes_lookup(self.sc(), sym) is None,
            },
    {
        match self.find_binding(sym) {
            Some((k, j)) => Some(self.scopes[k][j].1.dup()),
            None => None,
        }
    }

    /// Replaces the innermost binding state of `sym`.
    fn set_binding(&mut self, sym: Symbol, st: BindState)
        ensures
            final(self).sc() == scopes_set(old(self).sc(), sym, st@),
            final(self).errs() == old(self).errs(),
            final(self).moved() == old(self).moved(),
            final(self).same_tables(old(self)),
    {
        match self.find_binding(sym) {
            Some((k, j)) => {
                let ghost v = st@;
                self.scopes[k][j].1 = st;
                proof {
                    assert(self.sc() =~= old(self).sc().update(
                        k as int,
                        old(self).sc()[k as int].update(j as int, (sym, v)),
                    )) by {
                        assert forall|q: int| 0 <= q < self.sc().len() implies #[trigger] self.sc()[q]
                            == old(self).sc().update(
                            k as int,
                            old(self).sc()[k as int].update(j as int, (sym, v)),
                        )[q] by {
                            if q == k {
                                assert(self.sc()[q] =~= old(self).sc()[k as int].update(j as int, (sym, v)));
                            }
                        }
                    }
                }
            },
            None => {},
        }
    }
}

/// The nesting bound handed to the recursive type queries; no real program comes near it.
pub const DEPTH_LIMIT: u32 = 4294967295;

/// The first position of a key is the one `choose` picks.
proof fn lemma_first_index_unique<V>(s: Seq<(Symbol, V)>, k: Symbol, i: int)
    requires
        crate::tables::first_index(s, k, i),
    ensures
        (choose|c: int| crate::tables::first_index(s, k, c)) == i,
{
    let c = choose|c: int| crate::tables::first_index(s, k, c);
    assert(crate::tables::first_index(s, k, c));
    if c < i {
        assert(s[c].0 != k);
    }
    if i < c {
        assert(s[i].0 != k);
    }
}

proof fn lemma_owning_enum(
    strs: Seq<(Symbol, Vec<(Symbol, Type)>)>,
    enums: Seq<(Symbol, EnumInfo)>,
    e: Symbol,
    args: Seq<TypeV>,
    n: nat,
    vv: Seq<(Symbol, Seq<TypeV>)>,
    i: int,
    k: int,
)
    requires
        n > 0,
        variants_for(enums, e, args) == Some(vv),
        0 <= i < vv.len(),
        0 <= k < vv[i].1.len(),
        owning_spec(strs, enums, vv[i].1[k], (n - 1) as nat),
    ensures
        owning_spec(strs, enums, TypeV::Enum(e, args), n),
{
    let g = variants_for(enums, e, args);
    assert(g->0 == vv);
    assert(exists|i2: int, k2: int|
        0 <= i2 < g->0.len() && 0 <= k2 < g->0[i2].1.len() && owning_spec(
            strs,
            enums,
            #[trigger] g->0[i2].1[k2],
            (n - 1) as nat,
        ));
}

proof fn lemma_owning_struct(
    strs: Seq<(Symbol, Vec<(Symbol, Type)>)>,
    enums: Seq<(Symbol, EnumInfo)>,
    s: Symbol,
    n: nat,
    fields: Vec<(Symbol, Type)>,
    j: int,
)
    requires
        n > 0,
        tbl_get(strs, s) == Some(fields),
        0 <= j < fields@.len(),
        owning_spec(strs, enums, fields@[j].1@, (n - 1) as nat),
    ensures
        owning_spec(strs, enums, TypeV::Struct(s), n),
{
    let g = tbl_get(strs, s);
    assert(g->0 == fields);
    assert(g->0@ == fields@);
    assert(exists|i: int|
        0 <= i < g->0@.len() && owning_spec(strs, enums, (#[trigger] g->0@[i]).1@, (n - 1) as nat));
}

/// A scope with `sym` bound to `v`, replacing an earlier binding of it.
pub open spec fn scope_put(s: Seq<(Symbol, BindV)>, sym: Symbol, v: BindV) -> Seq<(Symbol, BindV)> {
    if scope_find(s, sym) is Some {
        scope_set(s, sym, v)
    } else {
        s.push((sym, v))
    }
}

/// Whether `q` starts with `p`.
fn starts_with(q: &Vec<u32>, p: &Vec<u32>) -> (r: bool)
    ensures
        r == prefix_of(p@, q@),
{
    if p.len() > q.len() {
        return false;
    }
    let mut i: usize = 0;
    while i < p.len()
        invariant
            p@.len() <= q@.len(),
            i <= p@.len(),
            forall|j: int| 0 <= j < i ==> q@[j] == p@[j],
        decreases p@.len() - i,
    {
        if q[i] != p[i] {
            assert(q@.take(p@.len() as int)[i as int] != p@[i as int]);
            return false;
        }
        i = i + 1;
    }
    assert(q@.take(p@.len() as int) =~= p@);
    true
}

fn copy_path(p: &Vec<u32>) -> (r: Vec<u32>)
    ensures
        r@ == p@,
{
    let mut out: Vec<u32> = Vec::new();
    let mut i: usize = 0;
    while i < p.len()
        invariant
            i <= p@.len(),
            out@ == p@.take(i as int),
        decreases p@.len() - i,
    {
        out.push(p[i]);
        i = i + 1;
        assert(out@ =~= p@.take(i as int));
    }
    assert(p@.take(p@.len() as int) =~= p@);
    out
}

/// The message of a use of a value in the given state, if it is reported.
pub open spec fn live_message(v: Verdict, consuming: bool) -> Option<Seq<char>> {
    match v {
        Verdict::Fine => None,
        Verdict::MaybeMoved => Some("kosullu tasinmis olabilecek deger kullanildi"@),
        Verdict::Moved => if consuming {
            Some("tasinmis deger tekrar kullanildi"@)
        } else {
            Some("tasinmis deger kullanildi"@)
        },
        Verdict::PartlyMoved => Some("kismen tasinmis deger kullanildi; alanlari ayri ayri kullanin"@),
    }
}

/// The last error is a `Custom` error with this text at this place.
/// A value that is not a place but owns memory, used as the base of a
/// field, element or dereference access.
pub open spec fn base_misused<'a>(c: &MoveChecker<'a>, base: &Expr) -> bool {
    !is_place_spec(base) && c.typ().contains_key(expr_id(base)) && owning_spec(
        c.strs(),
        c.enum_tbl(),
        c.typ()[expr_id(base)]@,
        DEPTH_LIMIT as nat,
    )
}

pub open spec fn last_custom(errs: Seq<LexoraError>, text: Seq<char>, span: Span) -> bool {
    errs.len() > 0 && match errs.last() {
        LexoraError::Custom { message, span: s } => message@ == text && s == span,
        _ => false,
    }
}

/// One step of the traversal: errors only added, tables kept.
pub open spec fn mc_steps<'a>(a: &MoveChecker<'a>, b: &MoveChecker<'a>) -> bool {
    &&& grows(a.errs(), b.errs())
    &&& b.same_tables(a)
}

impl<'a> MoveChecker<'a> {
    fn report(&mut self, message: &str, span: Span)
        ensures
            final(self).errs().len() == old(self).errs().len() + 1,
            last_custom(final(self).errs(), message@, span),
            mc_steps(old(self), final(self)),
            final(self).sc() == old(self).sc(),
            final(self).moved() == old(self).moved(),
    {
        let e = LexoraError::Custom { message: to_string(message), span };
        self.errors.push(e);
        proof {
            crate::typechecker::lemma_grows_push(old(self).errs(), e);
        }
    }

    /// Whether a value of type `ty` owns memory.
    #[verifier::spinoff_prover]
    fn is_owning(&self, ty: &Type, fuel: u32) -> (r: bool)
        ensures
            r == owning_spec(self.strs(), self.enum_tbl(), ty@, fuel as nat),
        decreases fuel, ty,
    {
        match ty {
            Type::Box(_) | Type::String | Type::Param(_) => true,
            Type::Enum(e, args) => {
                if fuel == 0 {
                    return false;
                }
                match crate::typechecker::lookup_variants(&self.enums, *e, args) {
                    Some(vs) => {
                        let ghost vv = variants_view(vs@);
                        proof {
                            lemma_types_view(args@);
                        }
                        let mut i: usize = 0;
                        while i < vs.len()
                            invariant
                                fuel > 0,
                                ty@ == TypeV::Enum(*e, types_view(args@)),
                                variants_for(self.enum_tbl(), *e, types_view(args@)) == Some(vv),
                                vv == variants_view(vs@),
                                i <= vs@.len(),
                                forall|i2: int, k2: int|
                                    0 <= i2 < i && 0 <= k2 < vv[i2].1.len() ==> !owning_spec(
                                        self.strs(),
                                        self.enum_tbl(),
                                        #[trigger] vv[i2].1[k2],
                                        (fuel - 1) as nat,
                                    ),
                            decreases vs@.len() - i,
                        {
                            let ftys = &vs[i].1;
                            proof {
                                lemma_types_view(ftys@);
                            }
                            let mut k: usize = 0;
                            while k < ftys.len()
                                invariant
                                    fuel > 0,
                                    ty@ == TypeV::Enum(*e, types_view(args@)),
                                    variants_for(self.enum_tbl(), *e, types_view(args@)) == Some(vv),
                                    vv == variants_view(vs@),
                                    i < vs@.len(),
                                    *ftys == vs@[i as int].1,
                                    vv[i as int].1 == types_view(ftys@),
                                    types_view(ftys@).len() == ftys@.len(),
                                    forall|q: int| 0 <= q < ftys@.len() ==> #[trigger] types_view(ftys@)[q] == ftys@[q]@,
                                    k <= ftys@.len(),
                                    forall|i2: int, k2: int|
                                        0 <= i2 < i && 0 <= k2 < vv[i2].1.len() ==> !owning_spec(
                                            self.strs(),
                                            self.enum_tbl(),
                                            #[trigger] vv[i2].1[k2],
                                            (fuel - 1) as nat,
                                        ),
                                    forall|k2: int|
                                        0 <= k2 < k ==> !owning_spec(
                                            self.strs(),
                                            self.enum_tbl(),
                                            #[trigger] vv[i as int].1[k2],
                                            (fuel - 1) as nat,
                                        ),
                                decreases ftys@.len() - k,
                            {
                                if self.is_owning(&ftys[k], fuel - 1) {
                                    assert(vv[i as int].1[k as int] == ftys@[k as int]@);
                                    proof {
                                        lemma_owning_enum(
                                            self.strs(),
                                            self.enum_tbl(),
                                            *e,
                                            types_view(args@),
                                            fuel as nat,
                                            vv,
                                            i as int,
                                            k as int,
                                        );
                                    }
                                    return true;
                                }
                                assert(vv[i as int].1[k as int] == ftys@[k as int]@);
                                k = k + 1;
                            }
                            i = i + 1;
                        }
                        false
                    },
                    None => false,
                }
            },
            Type::Struct(s) => {
                if fuel == 0 {
                    return false;
                }
                match find_key(&self.structs, *s) {
                    Some(k) => {
                        let fields = &self.structs[k].1;
                        let mut i: usize = 0;
                        while i < fields.len()
                            invariant
                                fuel > 0,
                                i <= fields@.len(),
                                ty@ == TypeV::Struct(*s),
                                tbl_get(self.strs(), *s) == Some(*fields),
                                forall|j: int|
                                    0 <= j < i ==> !owning_spec(
                                        self.strs(),
                                        self.enum_tbl(),
                                        (#[trigger] fields@[j]).1@,
                                        (fuel - 1) as nat,
                                    ),
                            decreases fields@.len() - i,
                        {
                            if self.is_owning(&fields[i].1, fuel - 1) {
                                proof {
                                    lemma_owning_struct(
                                        self.strs(),
                                        self.enum_tbl(),
                                        *s,
                                        fuel as nat,
                                        *fields,
                                        i as int,
                                    );
                                }
                                return true;
                            }
                            i = i + 1;
                        }
                        false
                    },
                    None => false,
                }
            },
            Type::Array(elem, _) => self.is_owning(&**elem, fuel),
            _ => false,
        }
    }

    /// Appends to `out` the path of every owning part of a value of type
    /// `ty` found under `prefix`: first the value itself, then its fields.
    fn owning_nodes(&self, ty: &Type, prefix: &mut Vec<u32>, out: &mut Vec<Vec<u32>>, fuel: u32)
        ensures
            final(prefix)@ == old(prefix)@,
            final(out)@.len() >= old(out)@.len(),
            forall|i: int| 0 <= i < old(out)@.len() ==> (#[trigger] final(out)@[i])@ == old(out)@[i]@,
            forall|i: int|
                old(out)@.len() <= i < final(out)@.len() ==> prefix_of(old(prefix)@, (#[trigger] final(out)@[i])@),
            owning_spec(self.strs(), self.enum_tbl(), ty@, fuel as nat) <==> final(out)@.len() > old(
                out,
            )@.len(),
            final(out)@.len() > old(out)@.len() ==> final(out)@[old(out)@.len() as int]@ == old(prefix)@,
        decreases fuel,
    {
        if !self.is_owning(ty, fuel) {
            return;
        }
        out.push(copy_path(prefix));
        assert(prefix@.take(prefix@.len() as int) =~= prefix@);
        if fuel == 0 {
            return;
        }
        match ty {
            Type::Struct(s) => {
                match find_key(&self.structs, *s) {
                    Some(k) => {
                        let fields = &self.structs[k].1;
                        let mut i: usize = 0;
                        while i < fields.len()
                            invariant
                                fuel > 0,
                                prefix@ == old(prefix)@,
                                out@.len() > old(out)@.len(),
                                forall|q: int| 0 <= q < old(out)@.len() ==> (#[trigger] out@[q])@ == old(out)@[q]@,
                                out@[old(out)@.len() as int]@ == old(prefix)@,
                                forall|q: int|
                                    old(out)@.len() <= q < out@.len() ==> prefix_of(old(prefix)@, (#[trigger] out@[q])@),
                            decreases fields@.len() - i,
                        {
                            let ghost before = out@;
                            prefix.push(i as u32);
                            self.owning_nodes(&fields[i].1, prefix, out, fuel - 1);
                            let _ = prefix.pop();
                            proof {
                                assert(prefix@ =~= old(prefix)@);
                                assert forall|q: int|
                                    old(out)@.len() <= q < out@.len() implies prefix_of(
                                    old(prefix)@,
                                    (#[trigger] out@[q])@,
                                ) by {
                                    if q >= before.len() {
                                        let x = out@[q]@;
                                        let pp = old(prefix)@.push(i as u32);
                                        assert(prefix_of(pp, x));
                                        assert(x.take(old(prefix)@.len() as int) =~= x.take(pp.len() as int).take(
                                            old(prefix)@.len() as int,
                                        ));
                                        assert(pp.take(old(prefix)@.len() as int) =~= old(prefix)@);
                                    } else {
                                        assert(out@[q]@ == before[q]@);
                                    }
                                }
                            }
                            i = i + 1;
                        }
                    },
                    None => {},
                }
            },
            _ => {},
        }
    }
}

/// The number of parts of a binding that is owning.
pub open spec fn owning_paths(b: Option<BindV>) -> Seq<Seq<u32>> {
    match b {
        Some(BindV::Owning(p, _)) => p,
        _ => Seq::empty(),
    }
}

impl<'a> MoveChecker<'a> {
    /// The variants of `sym` instantiated with `args`.
    fn variants_for(&self, sym: Symbol, args: &Vec<Type>) -> (r: Option<Vec<(Symbol, Vec<Type>)>>)
        ensures
            match r {
                Some(v) => variants_for(self.enum_tbl(), sym, types_view(args@)) == Some(
                    variants_view(v@),
                ),
                None => variants_for(self.enum_tbl(), sym, types_view(args@)) is None,
            },
    {
        crate::typechecker::lookup_variants(&self.enums, sym, args)
    }

    /// Binds `sym` in the innermost scope: as owning, with every owning part
    /// owned, when its type owns memory, and as a plain value otherwise.
    fn bind(&mut self, sym: Symbol, ty: Option<&Type>)
        requires
            old(self).sc().len() > 0,
            scopes_wf(old(self).sc()),
        ensures
            final(self).sc().len() == old(self).sc().len(),
            final(self).sc().drop_last() == old(self).sc().drop_last(),
            scopes_wf(final(self).sc()),
            final(self).errs() == old(self).errs(),
            final(self).moved() == old(self).moved(),
            final(self).same_tables(old(self)),
            scopes_lookup(final(self).sc(), sym) matches Some(b) && final(self).sc().last() == scope_put(
                old(self).sc().last(),
                sym,
                b,
            ) && (b is Owning <==> (ty matches Some(t) && owning_spec(
                old(self).strs(),
                old(self).enum_tbl(),
                t@,
                DEPTH_LIMIT as nat,
            ))) && (b matches BindV::Owning(p, s) ==> p.len() > 0 && forall|i: int|
                0 <= i < s.len() ==> s[i] == MoveState::Owned),
            old(self).copy_world() && (ty matches Some(t) ==> copy_type(t@)) ==> final(self).copy_world(),
    {
        proof {
            if old(self).copy_world() {
                old(self).lemma_world_scopes();
                match ty {
                    Some(t) => {
                        if copy_type(t@) {
                            lemma_copy_not_owning(old(self).strs(), old(self).enum_tbl(), t@, DEPTH_LIMIT as nat);
                        }
                    },
                    None => {},
                }
            }
        }
        let owning = match ty {
            Some(t) => self.is_owning(t, DEPTH_LIMIT),
            None => false,
        };
        let state = if owning {
            let t = ty.unwrap();
            let mut paths: Vec<Vec<u32>> = Vec::new();
            let mut prefix: Vec<u32> = Vec::new();
            self.owning_nodes(t, &mut prefix, &mut paths, DEPTH_LIMIT);
            let mut states: Vec<MoveState> = Vec::new();
            let mut i: usize = 0;
            while i < paths.len()
                invariant
                    i <= paths@.len(),
                    states@.len() == i,
                    forall|j: int| 0 <= j < i ==> states@[j] == MoveState::Owned,
                decreases paths@.len() - i,
            {
                states.push(MoveState::Owned);
                i = i + 1;
            }
            BindState::Owning { paths, states }
        } else {
            BindState::Copy
        };
        let ghost v = state@;
        let last = self.scopes.len() - 1;
        let ghost sv = self.sc()[last as int];
        assert(sv == self.scopes@[last as int]@.map_values(|p: (Symbol, BindState)| (p.0, p.1@)));
        match scope_pos(&self.scopes[last], sym) {
            Some(j) => {
                proof {
                    lemma_scope_find_pos(sv, sym, j as int);
                }
                self.scopes[last][j].1 = state;
                proof {
                    let want = sv.update(j as int, (sym, v));
                    assert(self.sc()[last as int] =~= want);
                    assert(self.sc() =~= old(self).sc().update(last as int, want));
                    assert(self.sc().drop_last() =~= old(self).sc().drop_last());
                    lemma_scope_find_pos(want, sym, j as int);
                    assert forall|q: int| 0 <= q < want.len() && q != j implies (#[trigger] want[q]).0 != sym
                        || q < j by {}
                }
            },
            None => {
                proof {
                    lemma_scope_find_none(sv, sym);
                }
                self.scopes[last].push((sym, state));
                proof {
                    let want = sv.push((sym, v));
                    assert(self.sc()[last as int] =~= want);
                    assert(self.sc() =~= old(self).sc().update(last as int, want));
                    assert(self.sc().drop_last() =~= old(self).sc().drop_last());
                }
            },
        }
        proof {
            let sc = self.sc();
            assert(scope_find(sc[last as int], sym) == Some(v)) by {
                let s2 = sc[last as int];
                if scope_find(sv, sym) is Some {
                } else {
                    assert(s2.drop_last() =~= sv);
                }
            }
            crate::move_check::lemma_scopes_innermost(sc, sym);
            assert forall|k: int, j: int|
                0 <= k < sc.len() && 0 <= j < sc[k].len() implies bind_wf(#[trigger] sc[k][j].1) by {
                if k < last {
                    assert(sc[k] == old(self).sc()[k]);
                } else {
                    if sc[k][j].0 == sym && sc[k][j].1 == v {
                    } else {
                        assert(sc[k][j].1 == old(self).sc()[k][j].1 || sc[k][j] == (sym, v));
                    }
                }
            }
            if old(self).copy_world() && (ty matches Some(t) ==> copy_type(t@)) {
                assert(v is Copy);
                assert forall|k: int| 0 <= k < sc.len() implies copy_scope(#[trigger] sc[k]) by {
                    if k < last {
                        assert(sc[k] == old(self).sc()[k]);
                    } else {
                        assert forall|j: int| 0 <= j < sc[k].len() implies (#[trigger] sc[k][j]).1 is Copy by {
                            if sc[k][j].0 == sym && sc[k][j].1 == v {
                            } else {
                                assert(sc[k][j].1 == old(self).sc()[k][j].1 || sc[k][j] == (sym, v));
                                assert(copy_scope(old(self).sc()[k]));
                            }
                        }
                    }
                }
                old(self).lemma_world_keeps(&*self);
            }
        }
    }
}

/// The lookup of a symbol bound in the innermost scope reads that binding.
proof fn lemma_scopes_innermost(sc: Seq<Seq<(Symbol, BindV)>>, sym: Symbol)
    requires
        sc.len() > 0,
        scope_find(sc.last(), sym) is Some,
    ensures
        scopes_lookup(sc, sym) == scope_find(sc.last(), sym),
{
}

impl<'a> MoveChecker<'a> {
    /// The variable and field path that `expr` names, when it is a chain of
    /// field accesses on a variable.
    fn place_path(&self, expr: &Expr) -> (r: Option<(Symbol, Vec<u32>)>)
        ensures
            match r {
                Some(p) => place_spec(expr, self.typ(), self.strs()) == Some((p.0, p.1@)),
                None => place_spec(expr, self.typ(), self.strs()) is None,
            },
        decreases expr,
    {
        match expr {
            Expr::Identifier(sym, _, _) => {
                let v: Vec<u32> = Vec::new();
                assert(v@ =~= Seq::<u32>::empty());
                Some((*sym, v))
            },
            Expr::FieldAccess { object, field, .. } => {
                let (sym, mut path) = match self.place_path(&**object) {
                    Some(p) => p,
                    None => {
                        return None;
                    },
                };
                let sty = match self.types.get(&object.id()) {
                    Some(Type::Struct(s)) => *s,
                    _ => {
                        return None;
                    },
                };
                let k = match find_key(&self.structs, sty) {
                    Some(k) => k,
                    None => {
                        return None;
                    },
                };
                let idx = match find_key(&self.structs[k].1, *field) {
                    Some(i) => i,
                    None => {
                        return None;
                    },
                };
                proof {
                    lemma_first_index_unique(self.structs@[k as int].1@, *field, idx as int);
                }
                path.push(idx as u32);
                Some((sym, path))
            },
            _ => None,
        }
    }

    /// The positions of the owning parts of `sym` that lie under `path`.
    fn nodes_under(&self, sym: Symbol, path: &Vec<u32>) -> (r: Vec<usize>)
        ensures
            forall|q: int|
                0 <= q < r@.len() ==> (#[trigger] r@[q]) < owning_paths(scopes_lookup(self.sc(), sym)).len()
                    && prefix_of(path@, owning_paths(scopes_lookup(self.sc(), sym))[r@[q] as int]),
            forall|i: int|
                0 <= i < owning_paths(scopes_lookup(self.sc(), sym)).len() && prefix_of(
                    path@,
                    #[trigger] owning_paths(scopes_lookup(self.sc(), sym))[i],
                ) ==> r@.contains(i as usize),
    {
        let mut out: Vec<usize> = Vec::new();
        match self.find_binding(sym) {
            Some((k, j)) => {
                match &self.scopes[k][j].1 {
                    BindState::Owning { paths, .. } => {
                        let ghost pv = paths@.map_values(|p: Vec<u32>| p@);
                        assert(owning_paths(scopes_lookup(self.sc(), sym)) == pv);
                        let mut i: usize = 0;
                        while i < paths.len()
                            invariant
                                i <= paths@.len(),
                                pv == paths@.map_values(|p: Vec<u32>| p@),
                                forall|q: int| 0 <= q < out@.len() ==> (#[trigger] out@[q]) < i && prefix_of(path@, pv[out@[q] as int]),
                                forall|i2: int| 0 <= i2 < i && prefix_of(path@, #[trigger] pv[i2]) ==> out@.contains(i2 as usize),
                            decreases paths@.len() - i,
                        {
                            if starts_with(&paths[i], path) {
                                let ghost before = out@;
                                out.push(i);
                                proof {
                                    assert forall|i2: int| 0 <= i2 < i + 1 && prefix_of(path@, #[trigger] pv[i2]) implies out@.contains(i2 as usize) by {
                                        if i2 < i {
                                            let w = choose|w: int| 0 <= w < before.len() && before[w] == i2 as usize;
                                            assert(out@[w] == before[w]);
                                        } else {
                                            assert(out@[before.len() as int] == i);
                                        }
                                    }
                                }
                            }
                            i = i + 1;
                        }
                    },
                    BindState::Copy => {},
                }
            },
            None => {},
        }
        out
    }

    /// Whether `sym` is bound to an owning value of which no part has moved.
    fn all_owned(&self, sym: Symbol) -> (r: bool)
        ensures
            r == (scopes_lookup(self.sc(), sym) matches Some(BindV::Owning(_, s)) && forall|i: int|
                0 <= i < s.len() ==> s[i] == MoveState::Owned),
    {
        match self.lookup(sym) {
            Some(BindState::Owning { paths, states }) => {
                assert(scopes_lookup(self.sc(), sym) == Some(
                    BindV::Owning(paths@.map_values(|p: Vec<u32>| p@), states@),
                ));
                let mut i: usize = 0;
                while i < states.len()
                    invariant
                        scopes_lookup(self.sc(), sym) == Some(
                            BindV::Owning(paths@.map_values(|p: Vec<u32>| p@), states@),
                        ),
                        i <= states@.len(),
                        forall|j: int| 0 <= j < i ==> states@[j] == MoveState::Owned,
                    decreases states@.len() - i,
                {
                    if states[i] != MoveState::Owned {
                        return false;
                    }
                    i = i + 1;
                }
                true
            },
            _ => false,
        }
    }

    /// Reports a use of the value at `path` of `sym` that has (or may have) moved.
    fn check_path_live(&mut self, sym: Symbol, path: &Vec<u32>, span: Span, consuming: bool)
        requires
            scopes_wf(old(self).sc()),
        ensures
            final(self).sc() == old(self).sc(),
            final(self).moved() == old(self).moved(),
            final(self).same_tables(old(self)),
            grows(old(self).errs(), final(self).errs()),
            match live_message(verdict(scopes_lookup(old(self).sc(), sym), path@), consuming) {
                None => final(self).errs() == old(self).errs(),
                Some(m) => final(self).errs().len() == old(self).errs().len() + 1 && last_custom(
                    final(self).errs(),
                    m,
                    span,
                ),
            },
            stays_quiet(old(self), final(self)),
    {
        proof {
            crate::typechecker::lemma_grows_refl(self.errs());
            if old(self).copy_world() {
                old(self).lemma_world_lookup(sym);
            }
        }
        let b = match self.lookup(sym) {
            Some(b) => b,
            None => {
                return;
            },
        };
        let (paths, states) = match &b {
            BindState::Owning { paths, states } => (paths, states),
            BindState::Copy => {
                return;
            },
        };
        proof {
            lemma_lookup_wf(self.sc(), sym);
        }
        let ghost pv = paths@.map_values(|p: Vec<u32>| p@);
        let mut any_sel = false;
        let mut any_maybe = false;
        let mut all_moved = true;
        let mut any_moved = false;
        let mut i: usize = 0;
        while i < paths.len()
            invariant
                paths@.len() == states@.len(),
                pv == paths@.map_values(|p: Vec<u32>| p@),
                i <= paths@.len(),
                any_sel == exists|j: int| 0 <= j < i && prefix_of(path@, #[trigger] pv[j]),
                any_maybe == exists|j: int| 0 <= j < i && prefix_of(path@, pv[j]) && #[trigger] states@[j] == MoveState::MaybeMoved,
                any_moved == exists|j: int| 0 <= j < i && prefix_of(path@, pv[j]) && #[trigger] states@[j] == MoveState::Moved,
                all_moved == forall|j: int| 0 <= j < i && prefix_of(path@, pv[j]) ==> #[trigger] states@[j] == MoveState::Moved,
            decreases paths@.len() - i,
        {
            assert(pv[i as int] == paths@[i as int]@);
            if starts_with(&paths[i], path) {
                any_sel = true;
                let st = states[i];
                if st == MoveState::MaybeMoved {
                    any_maybe = true;
                }
                if st == MoveState::Moved {
                    any_moved = true;
                } else {
                    all_moved = false;
                }
            }
            i = i + 1;
        }
        if !any_sel {
            return;
        }
        if any_maybe {
            self.report("kosullu tasinmis olabilecek deger kullanildi", span);
        } else if all_moved {
            if consuming {
                self.report("tasinmis deger tekrar kullanildi", span);
            } else {
                self.report("tasinmis deger kullanildi", span);
            }
        } else if any_moved {
            self.report("kismen tasinmis deger kullanildi; alanlari ayri ayri kullanin", span);
        }
    }

    /// Sets every owning part of `sym` under `path` to `m`.
    fn mark_path(&mut self, sym: Symbol, path: &Vec<u32>, m: MoveState)
        requires
            scopes_wf(old(self).sc()),
        ensures
            stays_quiet(old(self), final(self)),
            final(self).sc() == match scopes_lookup(old(self).sc(), sym) {
                Some(b) => scopes_set(old(self).sc(), sym, mark_spec(b, path@, m)),
                None => old(self).sc(),
            },
            scopes_wf(final(self).sc()),
            final(self).sc().len() == old(self).sc().len(),
            final(self).errs() == old(self).errs(),
            final(self).moved() == old(self).moved(),
            final(self).same_tables(old(self)),
    {
        proof {
            if old(self).copy_world() {
                old(self).lemma_world_lookup(sym);
                old(self).lemma_world_scopes();
                match scopes_lookup(old(self).sc(), sym) {
                    Some(b) => lemma_copy_scopes_set(old(self).sc(), sym, mark_spec(b, path@, m)),
                    None => {},
                }
            }
        }
        let b = match self.lookup(sym) {
            Some(b) => b,
            None => {
                return;
            },
        };
        proof {
            lemma_lookup_wf(self.sc(), sym);
        }
        match b {
            BindState::Owning { paths, states } => {
                let ghost pv = paths@.map_values(|p: Vec<u32>| p@);
                let mut out: Vec<MoveState> = Vec::new();
                let mut i: usize = 0;
                while i < states.len()
                    invariant
                        paths@.len() == states@.len(),
                        pv == paths@.map_values(|p: Vec<u32>| p@),
                        i <= states@.len(),
                        out@.len() == i,
                        forall|j: int| 0 <= j < i ==> #[trigger] out@[j] == if j < pv.len() && prefix_of(path@, pv[j]) {
                            m
                        } else {
                            states@[j]
                        },
                    decreases states@.len() - i,
                {
                    let under = starts_with(&paths[i], path);
                    out.push(if under {
                        m
                    } else {
                        states[i]
                    });
                    i = i + 1;
                }
                let nb = BindState::Owning { paths, states: out };
                proof {
                    assert(nb@->Owning_1 =~= mark_spec(BindV::Owning(pv, states@), path@, m)->Owning_1);
                }
                self.set_binding(sym, nb);
                proof {
                    lemma_set_wf(old(self).sc(), sym, nb@);
                }
            },
            BindState::Copy => {
                self.set_binding(sym, BindState::Copy);
                proof {
                    lemma_set_wf(old(self).sc(), sym, BindV::Copy);
                }
            },
        }
        proof {
            if old(self).copy_world() {
                old(self).lemma_world_keeps(&*self);
            }
        }
    }

    fn mark_path_moved(&mut self, sym: Symbol, path: &Vec<u32>)
        requires
            scopes_wf(old(self).sc()),
        ensures
            stays_quiet(old(self), final(self)),
            final(self).sc() == match scopes_lookup(old(self).sc(), sym) {
                Some(b) => scopes_set(old(self).sc(), sym, mark_spec(b, path@, MoveState::Moved)),
                None => old(self).sc(),
            },
            scopes_wf(final(self).sc()),
            final(self).sc().len() == old(self).sc().len(),
            final(self).errs() == old(self).errs(),
            final(self).moved() == old(self).moved(),
            final(self).same_tables(old(self)),
    {
        self.mark_path(sym, path, MoveState::Moved)
    }

    fn mark_path_live(&mut self, sym: Symbol, path: &Vec<u32>)
        requires
            scopes_wf(old(self).sc()),
        ensures
            stays_quiet(old(self), final(self)),
            final(self).sc() == match scopes_lookup(old(self).sc(), sym) {
                Some(b) => scopes_set(old(self).sc(), sym, mark_spec(b, path@, MoveState::Owned)),
                None => old(self).sc(),
            },
            scopes_wf(final(self).sc()),
            final(self).sc().len() == old(self).sc().len(),
            final(self).errs() == old(self).errs(),
            final(self).moved() == old(self).moved(),
            final(self).same_tables(old(self)),
    {
        self.mark_path(sym, path, MoveState::Owned)
    }

    /// Reports an assignment into a part of a value that has (partly) moved.
    fn check_assign_target(&mut self, sym: Symbol, path: &Vec<u32>, span: Span)
        requires
            scopes_wf(old(self).sc()),
        ensures
            final(self).sc() == old(self).sc(),
            final(self).moved() == old(self).moved(),
            final(self).same_tables(old(self)),
            grows(old(self).errs(), final(self).errs()),
            assign_blocked(scopes_lookup(old(self).sc(), sym), path@) ==> final(self).errs().len()
                == old(self).errs().len() + 1,
            !assign_blocked(scopes_lookup(old(self).sc(), sym), path@) ==> final(self).errs() == old(
                self,
            ).errs(),
    {
        proof {
            crate::typechecker::lemma_grows_refl(self.errs());
            lemma_lookup_wf(self.sc(), sym);
        }
        let bad = match self.lookup(sym) {
            Some(BindState::Owning { paths, states }) => {
                let ghost pv = paths@.map_values(|p: Vec<u32>| p@);
                let mut hit = false;
                let mut i: usize = 0;
                while i < paths.len() && i < states.len()
                    invariant
                        paths@.len() == states@.len(),
                        pv == paths@.map_values(|p: Vec<u32>| p@),
                        i <= paths@.len(),
                        hit == exists|j: int|
                            0 <= j < i && (#[trigger] pv[j]).len() < path@.len() && prefix_of(pv[j], path@)
                                && states@[j] != MoveState::Owned,
                    decreases paths@.len() - i,
                {
                    assert(pv[i as int] == paths@[i as int]@);
                    if paths[i].len() < path.len() && starts_with(path, &paths[i]) && states[i] != MoveState::Owned {
                        hit = true;
                    }
                    i = i + 1;
                }
                hit
            },
            _ => false,
        };
        if bad {
            self.report(
                "tasinmis degerin bir parcasina atama yapilamaz; once butun olarak yeniden atayin",
                span,
            );
        }
    }

    /// Whether the value of `expr` owns memory, by its recorded type.
    fn expr_is_owning(&self, expr: &Expr) -> (r: bool)
        ensures
            r == (self.typ().contains_key(expr_id(expr)) && owning_spec(
                self.strs(),
                self.enum_tbl(),
                self.typ()[expr_id(expr)]@,
                DEPTH_LIMIT as nat,
            )),
    {
        match self.types.get(&expr.id()) {
            Some(t) => self.is_owning(t, DEPTH_LIMIT),
            None => false,
        }
    }

    /// Reports a field, element or dereference taken from an owning temporary.
    fn check_place_base(&mut self, base: &Expr)
        ensures
            stays_quiet(old(self), final(self)),
            final(self).sc() == old(self).sc(),
            final(self).moved() == old(self).moved(),
            final(self).same_tables(old(self)),
            grows(old(self).errs(), final(self).errs()),
            base_misused(old(self), base) ==> final(self).errs().len() == old(self).errs().len() + 1 && last_custom(
                final(self).errs(),
                "gecici deger uzerinden alan/eleman/deref erisimi yapilamaz; once bir degiskene baglayin"@,
                expr_span(base),
            ),
            !base_misused(old(self), base) ==> final(self).errs() == old(self).errs(),
    {
        proof {
            crate::typechecker::lemma_grows_refl(self.errs());
            if old(self).copy_world() {
                old(self).lemma_world_type(expr_id(base), DEPTH_LIMIT as nat);
            }
        }
        if base.is_place() {
            return;
        }
        if self.expr_is_owning(base) {
            self.report(
                "gecici deger uzerinden alan/eleman/deref erisimi yapilamaz; once bir degiskene baglayin",
                base.span(),
            );
        }
    }
}

/// A binding found by lookup in well-formed scopes is well formed.
proof fn lemma_lookup_wf(sc: Seq<Seq<(Symbol, BindV)>>, sym: Symbol)
    requires
        scopes_wf(sc),
    ensures
        scopes_lookup(sc, sym) matches Some(b) ==> bind_wf(b),
    decreases sc.len(),
{
    if sc.len() > 0 {
        lemma_find_wf(sc.last(), sym);
        assert forall|k: int, j: int|
            0 <= k < sc.drop_last().len() && 0 <= j < sc.drop_last()[k].len() implies bind_wf(
            #[trigger] sc.drop_last()[k][j].1,
        ) by {
            assert(sc.drop_last()[k] == sc[k]);
        }
        lemma_lookup_wf(sc.drop_last(), sym);
    }
}

proof fn lemma_find_wf(s: Seq<(Symbol, BindV)>, sym: Symbol)
    requires
        forall|j: int| 0 <= j < s.len() ==> bind_wf(#[trigger] s[j].1),
    ensures
        scope_find(s, sym) matches Some(b) ==> bind_wf(b),
    decreases s.len(),
{
    if s.len() > 0 {
        assert(bind_wf(s[s.len() - 1].1));
        lemma_find_wf(s.drop_last(), sym);
    }
}

/// Replacing a binding with a well-formed one keeps the scopes well formed.
proof fn lemma_set_wf(sc: Seq<Seq<(Symbol, BindV)>>, sym: Symbol, v: BindV)
    requires
        scopes_wf(sc),
        bind_wf(v),
    ensures
        scopes_wf(scopes_set(sc, sym, v)),
        scopes_set(sc, sym, v).len() == sc.len(),
    decreases sc.len(),
{
    if sc.len() > 0 {
        let d = sc.drop_last();
        assert forall|k: int, j: int| 0 <= k < d.len() && 0 <= j < d[k].len() implies bind_wf(
            #[trigger] d[k][j].1,
        ) by {
            assert(d[k] == sc[k]);
        }
        lemma_set_wf(d, sym, v);
        lemma_scope_set_wf(sc.last(), sym, v);
        let r = scopes_set(sc, sym, v);
        assert forall|k: int, j: int| 0 <= k < r.len() && 0 <= j < r[k].len() implies bind_wf(
            #[trigger] r[k][j].1,
        ) by {
            if k == r.len() - 1 {
            } else {
                if scope_find(sc.last(), sym) is Some {
                    assert(r[k] == sc[k]);
                } else {
                    assert(r[k] == scopes_set(d, sym, v)[k]);
                }
            }
        }
    }
}

proof fn lemma_scope_set_wf(s: Seq<(Symbol, BindV)>, sym: Symbol, v: BindV)
    requires
        forall|j: int| 0 <= j < s.len() ==> bind_wf(#[trigger] s[j].1),
        bind_wf(v),
    ensures
        forall|j: int| 0 <= j < scope_set(s, sym, v).len() ==> bind_wf(#[trigger] scope_set(s, sym, v)[j].1),
        scope_set(s, sym, v).len() == s.len(),
    decreases s.len(),
{
    if s.len() > 0 {
        assert forall|j: int| 0 <= j < s.drop_last().len() implies bind_wf(#[trigger] s.drop_last()[j].1) by {
            assert(s.drop_last()[j] == s[j]);
        }
        lemma_scope_set_wf(s.drop_last(), sym, v);
        let r = scope_set(s, sym, v);
        assert forall|j: int| 0 <= j < r.len() implies bind_wf(#[trigger] r[j].1) by {
            if s.last().0 == sym {
                if j < s.len() - 1 {
                    assert(r[j] == s[j]);
                }
            } else {
                if j == s.len() - 1 {
                    assert(r[j] == s.last());
                } else {
                    assert(r[j] == scope_set(s.drop_last(), sym, v)[j]);
                }
            }
        }
    }
}

/// After replacing the innermost binding of `sym`, a lookup reads the new value.
proof fn lemma_lookup_after_set(sc: Seq<Seq<(Symbol, BindV)>>, sym: Symbol, v: BindV)
    requires
        scopes_lookup(sc, sym) is Some,
    ensures
        scopes_lookup(scopes_set(sc, sym, v), sym) == Some(v),
        scopes_set(sc, sym, v).len() == sc.len(),
    decreases sc.len(),
{
    if sc.len() > 0 {
        if scope_find(sc.last(), sym) is Some {
            lemma_find_after_set(sc.last(), sym, v);
            let r = scopes_set(sc, sym, v);
            assert(r.last() == scope_set(sc.last(), sym, v));
        } else {
            lemma_lookup_after_set(sc.drop_last(), sym, v);
            let r = scopes_set(sc, sym, v);
            assert(r.drop_last() =~= scopes_set(sc.drop_last(), sym, v));
            assert(r.last() == sc.last());
        }
    }
}

proof fn lemma_find_after_set(s: Seq<(Symbol, BindV)>, sym: Symbol, v: BindV)
    requires
        scope_find(s, sym) is Some,
    ensures
        scope_find(scope_set(s, sym, v), sym) == Some(v),
    decreases s.len(),
{
    if s.len() > 0 && s.last().0 != sym {
        lemma_find_after_set(s.drop_last(), sym, v);
        let r = scope_set(s, sym, v);
        assert(r.drop_last() =~= scope_set(s.drop_last(), sym, v));
    }
}

/// Joining well-formed scopes gives well-formed scopes.
proof fn lemma_join_wf(a: Seq<Seq<(Symbol, BindV)>>, b: Seq<Seq<(Symbol, BindV)>>)
    requires
        scopes_wf(a),
        scopes_wf(b),
    ensures
        scopes_wf(join_scopes_spec(a, b)),
{
    let r = join_scopes_spec(a, b);
    assert forall|k: int, j: int| 0 <= k < r.len() && 0 <= j < r[k].len() implies bind_wf(
        #[trigger] r[k][j].1,
    ) by {
        assert(bind_wf(a[k][j].1));
    }
}

/// A value that has been moved as a whole is reported when it is used again.
pub proof fn lemma_second_use_reported(p: Seq<Seq<u32>>, s: Seq<MoveState>)
    requires
        p.len() > 0,
        p.len() == s.len(),
    ensures
        live_message(
            verdict(Some(mark_spec(BindV::Owning(p, s), Seq::empty(), MoveState::Moved)), Seq::empty()),
            true,
        ) == Some("tasinmis deger tekrar kullanildi"@),
{
    let m = mark_spec(BindV::Owning(p, s), Seq::empty(), MoveState::Moved);
    let s2 = m->Owning_1;
    assert(p[0].take(0) =~= Seq::<u32>::empty());
    assert(prefix_of(Seq::empty(), p[0]));
    assert forall|i: int| 0 <= i < p.len() implies prefix_of(Seq::empty(), #[trigger] p[i]) by {
        assert(p[i].take(0) =~= Seq::<u32>::empty());
    }
    assert(all_under(p, s2, Seq::empty(), MoveState::Moved));
    assert(!any_under(p, s2, Seq::empty(), MoveState::MaybeMoved));
}

/// Binding another name in the innermost scope leaves the binding of `x`.
proof fn lemma_find_put_other(s: Seq<(Symbol, BindV)>, a: Symbol, v: BindV, x: Symbol)
    requires
        a != x,
    ensures
        scope_find(scope_put(s, a, v), x) == scope_find(s, x),
{
    if scope_find(s, a) is Some {
        lemma_find_set_other(s, a, v, x);
    } else {
        assert(s.push((a, v)).drop_last() =~= s);
    }
}

proof fn lemma_find_set_other(s: Seq<(Symbol, BindV)>, a: Symbol, v: BindV, x: Symbol)
    requires
        a != x,
    ensures
        scope_find(scope_set(s, a, v), x) == scope_find(s, x),
    decreases s.len(),
{
    if s.len() > 0 {
        if s.last().0 == a {
            assert(s.drop_last().push((a, v)).drop_last() =~= s.drop_last());
        } else {
            lemma_find_set_other(s.drop_last(), a, v, x);
            assert(scope_set(s.drop_last(), a, v).push(s.last()).drop_last() =~= scope_set(s.drop_last(), a, v));
        }
    }
}

/// The scopes after binding `a` in the innermost one look `x` up as before.
proof fn lemma_lookup_put_other(
    s1: Seq<Seq<(Symbol, BindV)>>,
    s2: Seq<Seq<(Symbol, BindV)>>,
    a: Symbol,
    v: BindV,
    x: Symbol,
)
    requires
        a != x,
        s1.len() > 0,
        s2.len() == s1.len(),
        s2.drop_last() == s1.drop_last(),
        s2.last() == scope_put(s1.last(), a, v),
    ensures
        scopes_lookup(s2, x) == scopes_lookup(s1, x),
{
    lemma_find_put_other(s1.last(), a, v, x);
}

/// A binding whose every part has been moved.
pub open spec fn moved_owning(o: Option<BindV>) -> bool {
    exists|p: Seq<Seq<u32>>, s: Seq<MoveState>|
        p.len() > 0 && p.len() == s.len() && o == Some(mark_spec(BindV::Owning(p, s), Seq::empty(), MoveState::Moved))
}

/// The first two statements bind values to the same variable, the first to
/// another name: `let a = x; let b = x;`. Gives `x` and where the second
/// use of it stands.
pub open spec fn double_let<'a>(stmts: Seq<Stmt<'a>>) -> Option<(Symbol, Span)> {
    if stmts.len() >= 2 {
        match stmts[0] {
            Stmt::Let { name: a, value: Expr::Identifier(x, _, _), .. } => match stmts[1] {
                Stmt::Let { value: Expr::Identifier(x2, sp, _), .. } => if a != x && x2 == x {
                    Some((x, sp))
                } else {
                    None
                },
                _ => None,
            },
            _ => None,
        }
    } else {
        None
    }
}

/// The variable such a pair of statements uses twice.
pub open spec fn dl_var<'a>(stmts: Seq<Stmt<'a>>) -> Symbol {
    match double_let(stmts) {
        Some(xs) => xs.0,
        None => Symbol(0),
    }
}

/// Where its second use stands.
pub open spec fn dl_span<'a>(stmts: Seq<Stmt<'a>>) -> Span {
    match double_let(stmts) {
        Some(xs) => xs.1,
        None => Span { start: 0, end: 0 },
    }
}

/// Among the first `n` parameters, the last one named `x` has an owning
/// type (a `String` or a box).
pub open spec fn owning_param_upto<'a>(f: &Function<'a>, x: Symbol, n: int) -> bool {
    exists|pi: int|
        0 <= pi < n && (#[trigger] f.params@[pi]).0 == x && (f.params@[pi].1@ is String || f.params@[pi].1@ is Box)
            && forall|q: int| pi < q < n ==> (#[trigger] f.params@[q]).0 != x
}

/// The last parameter named `x` has an owning type.
pub open spec fn owning_param<'a>(f: &Function<'a>, x: Symbol) -> bool {
    owning_param_upto(f, x, f.params@.len() as int)
}

/// A binding that owns memory and of which nothing is moved.
pub open spec fn fresh_owning(o: Option<BindV>) -> bool {
    o matches Some(BindV::Owning(p, s)) && p.len() > 0 && p.len() == s.len()
}

/// A function whose body starts with `let a = x; let b = x;` for an owning
/// parameter `x`.
pub open spec fn moves_param_twice<'a>(f: &Function<'a>) -> bool {
    double_let(f.body.stmts@) is Some && owning_param(f, dl_var(f.body.stmts@))
}

/// Such a pair of statements, where `x` is bound to a value that nothing
/// has moved yet.
pub open spec fn fresh_double<'a>(stmts: Seq<Stmt<'a>>, sc: Seq<Seq<(Symbol, BindV)>>) -> bool {
    double_let(stmts) matches Some(xs) && (scopes_lookup(sc, xs.0) matches Some(BindV::Owning(p, s)) && p.len() > 0
        && p.len() == s.len())
}

/// A call of `print` or `len`: they only read their arguments. Any other
/// call, of a function of the program or of `string`, takes them over.
pub open spec fn borrowing_call(names: Seq<Seq<char>>, f: Symbol) -> bool {
    (f.0 as int) < names.len() && (names[f.0 as int] == "print"@ || names[f.0 as int] == "len"@)
}

/// A call of a function that takes its arguments over, with one argument
/// that is a variable, moves that variable.
pub open spec fn call_moves_arg<'a>(a: &MoveChecker<'a>, b: &MoveChecker<'a>, e: &Expr) -> bool {
    e matches Expr::Call { name, args, .. } ==> (!borrowing_call(a.names(), *name) && args@.len() == 1 ==> (
    args@[0] matches Expr::Identifier(x, sp, id) ==> moves_var(a, b, x, sp, id)))
}

/// A call of `print` or `len` with one argument that is a variable moves
/// nothing: the bindings and the recorded moves stay as they were.
pub open spec fn call_reads_arg<'a>(a: &MoveChecker<'a>, b: &MoveChecker<'a>, e: &Expr) -> bool {
    e matches Expr::Call { name, args, .. } ==> (borrowing_call(a.names(), *name) && args@.len() == 1
        && args@[0] is Identifier ==> b.sc() == a.sc() && b.moved() == a.moved())
}

/// Passing the same owning variable to two calls that take their argument
/// over: the second call is reported as a use of a moved value, at the
/// place of its argument.
pub proof fn lemma_argument_moved_twice<'a>(
    a: &MoveChecker<'a>,
    b: &MoveChecker<'a>,
    c: &MoveChecker<'a>,
    e1: &Expr,
    e2: &Expr,
    x: Symbol,
)
    requires
        e1 matches Expr::Call { name, args, .. } && !borrowing_call(a.names(), *name) && args@.len() == 1 && (
        args@[0] matches Expr::Identifier(y, _, _) && y == x),
        e2 matches Expr::Call { name, args, .. } && !borrowing_call(b.names(), *name) && args@.len() == 1 && (
        args@[0] matches Expr::Identifier(y, _, _) && y == x),
        scopes_lookup(a.sc(), x) matches Some(BindV::Owning(p, s)) && p.len() > 0 && p.len() == s.len(),
        call_moves_arg(a, b, e1),
        call_moves_arg(b, c, e2),
    ensures
        c.errs().len() == b.errs().len() + 1,
        e2 matches Expr::Call { args, .. } && (args@[0] matches Expr::Identifier(_, sp, _) && last_custom(
            c.errs(),
            "tasinmis deger tekrar kullanildi"@,
            sp,
        )),
{
    match (e1, e2) {
        (Expr::Call { args: a1, .. }, Expr::Call { args: a2, .. }) => match (&a1@[0], &a2@[0]) {
            (Expr::Identifier(_, sp1, id1), Expr::Identifier(_, sp2, id2)) => {
                lemma_use_after_move(a, b, c, x, *sp1, *id1, *sp2, *id2);
            },
            _ => {},
        },
        _ => {},
    }
}

/// Using an owning variable as a value twice: the second use is reported as
/// "tasinmis deger tekrar kullanildi" at its own place, whatever the first
/// use reported.
pub proof fn lemma_use_after_move<'a>(
    a: &MoveChecker<'a>,
    b: &MoveChecker<'a>,
    c: &MoveChecker<'a>,
    sym: Symbol,
    span1: Span,
    id1: ExprId,
    span2: Span,
    id2: ExprId,
)
    requires
        scopes_lookup(a.sc(), sym) matches Some(BindV::Owning(p, s)) && p.len() > 0 && p.len() == s.len(),
        moves_var(a, b, sym, span1, id1),
        moves_var(b, c, sym, span2, id2),
    ensures
        c.errs().len() == b.errs().len() + 1,
        last_custom(c.errs(), "tasinmis deger tekrar kullanildi"@, span2),
        c.moved().contains_key(id2),
{
    let bv = scopes_lookup(a.sc(), sym)->0;
    let p = bv->Owning_0;
    let s = bv->Owning_1;
    lemma_second_use_reported(p, s);
}

/// The recorded type of `e` owns memory.
pub open spec fn owning_expr<'a>(c: &MoveChecker<'a>, e: &Expr) -> bool {
    c.typ().contains_key(expr_id(e)) && owning_spec(c.strs(), c.enum_tbl(), c.typ()[expr_id(e)]@, DEPTH_LIMIT as nat)
}

/// Using variable `sym` as a value moved it: the move is recorded under
/// `id`, every part of the binding is now moved, and a use of an already
/// (partly, or possibly) moved value was reported.
pub open spec fn moves_var<'a>(
    a: &MoveChecker<'a>,
    b: &MoveChecker<'a>,
    sym: Symbol,
    span: Span,
    id: ExprId,
) -> bool {
    match scopes_lookup(a.sc(), sym) {
        Some(BindV::Owning(p, s)) => {
            let bv = BindV::Owning(p, s);
            &&& b.moved().contains_key(id)
            &&& b.moved()[id]@ == Seq::<u32>::empty()
            &&& scopes_lookup(b.sc(), sym) == Some(mark_spec(bv, Seq::empty(), MoveState::Moved))
            &&& match live_message(verdict(Some(bv), Seq::empty()), true) {
                Some(m) => b.errs().len() == a.errs().len() + 1 && last_custom(b.errs(), m, span),
                None => b.errs() == a.errs(),
            }
        },
        _ => true,
    }
}

/// The traversal's frame: errors and moves only added, scopes keep their
/// number and stay well formed, tables kept.
pub open spec fn trav<'a>(a: &MoveChecker<'a>, b: &MoveChecker<'a>) -> bool {
    &&& mc_steps(a, b)
    &&& b.sc().len() == a.sc().len()
    &&& scopes_wf(b.sc())
    &&& stays_quiet(a, b)
}

/// Where nothing owns memory nothing is reported or moved, and nothing
/// comes to own memory.
pub open spec fn stays_quiet<'a>(a: &MoveChecker<'a>, b: &MoveChecker<'a>) -> bool {
    a.copy_world() ==> b.copy_world() && b.errs() == a.errs() && b.moved() == a.moved()
}

impl<'a> MoveChecker<'a> {
    /// Whether `sym` is bound to an owning value.
    fn binding_is_owning(&self, sym: Symbol) -> (r: bool)
        ensures
            r == (scopes_lookup(self.sc(), sym) matches Some(BindV::Owning(_, _))),
    {
        match self.find_binding(sym) {
            Some((k, j)) => match &self.scopes[k][j].1 {
                BindState::Owning { .. } => true,
                BindState::Copy => false,
            },
            None => false,
        }
    }

    fn record_move(&mut self, id: ExprId, path: Vec<u32>)
        ensures
            final(self).moved() == old(self).moved().insert(id, path),
            final(self).sc() == old(self).sc(),
            final(self).errs() == old(self).errs(),
            final(self).same_tables(old(self)),
    {
        self.moves.insert(id, path);
    }

    /// Uses the value of `expr`, moving what it owns out of the variables it names.
    fn consume_expr(&mut self, expr: &Expr)
        requires
            scopes_wf(old(self).sc()),
        ensures
            trav(old(self), final(self)),
            expr matches Expr::Identifier(sym, span, id) ==> moves_var(old(self), final(self), *sym, *span, *id),
            call_moves_arg(old(self), final(self), expr),
            call_reads_arg(old(self), final(self), expr),
            expr matches Expr::Index { span, .. } ==> (owning_expr(old(self), expr) ==> crate::typechecker::has_custom(
                final(self).errs(),
                "owning eleman diziden tasinamaz; yerinde odunc alin"@,
                *span,
            )),
        decreases expr, 1nat,
    {
        proof {
            crate::typechecker::lemma_grows_refl(self.errs());
            if old(self).copy_world() {
                old(self).lemma_world_type(expr_id(expr), DEPTH_LIMIT as nat);
                match expr {
                    Expr::Identifier(sym, _, _) => old(self).lemma_world_lookup(*sym),
                    _ => {},
                }
            }
        }
        match expr {
            Expr::Identifier(sym, span, id) => {
                if self.binding_is_owning(*sym) {
                    let empty: Vec<u32> = Vec::new();
                    assert(empty@ =~= Seq::<u32>::empty());
                    let ghost b = scopes_lookup(self.sc(), *sym)->0;
                    let ghost e0 = self.errs();
                    self.check_path_live(*sym, &empty, *span, true);
                    let ghost e1 = self.errs();
                    self.mark_path_moved(*sym, &empty);
                    proof {
                        lemma_lookup_wf(old(self).sc(), *sym);
                        lemma_lookup_after_set(old(self).sc(), *sym, mark_spec(b, Seq::empty(), MoveState::Moved));
                        lemma_set_wf(old(self).sc(), *sym, mark_spec(b, Seq::empty(), MoveState::Moved));
                    }
                    self.record_move(*id, empty);
                }
            },
            Expr::Box { value, .. } => self.consume_expr(&**value),
            Expr::Deref { target, span, id } => {
                if self.expr_is_owning(expr) {
                    let is_ident = match &**target {
                        Expr::Identifier(..) => true,
                        _ => false,
                    };
                    if is_ident {
                        self.consume_expr(&**target);
                        self.record_move(*id, Vec::new());
                    } else {
                        self.report(
                            "Box icinden owning deger deref ile tasinamaz (yalnizca *degisken formunda tasinabilir)",
                            *span,
                        );
                        self.read_place(&**target);
                    }
                } else {
                    self.check_place_base(&**target);
                    self.read_place(&**target);
                }
            },
            Expr::Call { .. } => self.consume_call(expr),
            Expr::BinaryOp { .. } => self.consume_binary(expr),
            Expr::UnaryOp { operand, .. } => self.consume_expr(&**operand),
            Expr::Cast { expr: inner, .. } => self.consume_expr(&**inner),
            Expr::Index { array, index, span, .. } => {
                let ghost mut e_r: Seq<LexoraError> = Seq::empty();
                if self.expr_is_owning(expr) {
                    self.report("owning eleman diziden tasinamaz; yerinde odunc alin", *span);
                    proof {
                        e_r = self.errs();
                    }
                }
                let ghost s1 = *self;
                self.check_place_base(&**array);
                let ghost s2 = *self;
                self.read_place(&**array);
                let ghost s3 = *self;
                self.consume_expr(&**index);
                proof {
                    if owning_expr(old(self), expr) {
                        let k = e_r.len() - 1;
                        assert(crate::typechecker::is_custom(
                            e_r[k],
                            "owning eleman diziden tasinamaz; yerinde odunc alin"@,
                            *span,
                        ));
                        crate::typechecker::lemma_kept_at(e_r, s2.errs(), k);
                        crate::typechecker::lemma_kept_at(s2.errs(), s3.errs(), k);
                        crate::typechecker::lemma_kept_at(s3.errs(), self.errs(), k);
                    }
                }
            },
            Expr::FieldAccess { .. } => self.consume_field(expr),
            Expr::ArrayLiteral(elems, _, _) => self.consume_all(elems),
            Expr::StructLiteral { fields, .. } => self.consume_fields(fields),
            Expr::EnumVariant { args, .. } => self.consume_all(args),
            Expr::Try { expr: inner, .. } => self.consume_expr(&**inner),
            Expr::Match { .. } => self.consume_match(expr),
            Expr::If { .. } => self.consume_if(expr),
            Expr::Integer(..) | Expr::Bool(..) | Expr::StringLiteral(..) | Expr::Error(..) => {},
        }
    }

    /// Reads a place without moving it; other expressions are used as values.
    fn read_place(&mut self, expr: &Expr)
        requires
            scopes_wf(old(self).sc()),
        ensures
            trav(old(self), final(self)),
            expr matches Expr::Identifier(sym, span, _) ==> final(self).sc() == old(self).sc() && final(self).moved()
                == old(self).moved() && match live_message(
                verdict(scopes_lookup(old(self).sc(), *sym), Seq::<u32>::empty()),
                false,
            ) {
                None => final(self).errs() == old(self).errs(),
                Some(m) => final(self).errs().len() == old(self).errs().len() + 1 && last_custom(
                    final(self).errs(),
                    m,
                    *span,
                ),
            },
        decreases expr, 2nat,
    {
        match expr {
            Expr::Identifier(sym, span, _) => {
                let empty: Vec<u32> = Vec::new();
                self.check_path_live(*sym, &empty, *span, false);
            },
            Expr::Deref { target, .. } => {
                self.check_place_base(&**target);
                self.read_place(&**target);
            },
            Expr::Index { array, index, .. } => {
                self.check_place_base(&**array);
                self.read_place(&**array);
                self.consume_expr(&**index);
            },
            Expr::FieldAccess { object, span, .. } => {
                self.check_place_base(&**object);
                match self.place_path(expr) {
                    Some((sym, path)) => self.check_path_live(sym, &path, *span, false),
                    None => self.read_place(&**object),
                }
            },
            _ => self.consume_expr(expr),
        }
    }

    fn consume_all(&mut self, es: &Vec<Expr>)
        requires
            scopes_wf(old(self).sc()),
        ensures
            trav(old(self), final(self)),
            es@.len() == 1 ==> (es@[0] matches Expr::Identifier(x, sp, id) ==> moves_var(
                old(self),
                final(self),
                x,
                sp,
                id,
            )),
        decreases es, 0nat,
    {
        let mut i: usize = 0;
        while i < es.len()
            invariant
                trav(old(self), self),
                i <= es@.len(),
                i == 0 ==> *self == *old(self),
                i == 1 && es@.len() == 1 ==> (es@[0] matches Expr::Identifier(x, sp, id) ==> moves_var(
                    old(self),
                    self,
                    x,
                    sp,
                    id,
                )),
            decreases es@.len() - i,
        {
            self.consume_expr(&es[i]);
            i = i + 1;
        }
    }

    fn consume_fields(&mut self, fields: &Vec<(Symbol, Expr)>)
        requires
            scopes_wf(old(self).sc()),
        ensures
            trav(old(self), final(self)),
        decreases fields, 0nat,
    {
        let mut i: usize = 0;
        while i < fields.len()
            invariant
                trav(old(self), self),
            decreases fields@.len() - i,
        {
            self.consume_expr(&fields[i].1);
            i = i + 1;
        }
    }

    /// The arguments of a built-in that only borrows them.
    fn read_args(&mut self, args: &Vec<Expr>)
        requires
            scopes_wf(old(self).sc()),
        ensures
            trav(old(self), final(self)),
            args@.len() == 1 && args@[0] is Identifier ==> final(self).sc() == old(self).sc() && final(self).moved()
                == old(self).moved(),
        decreases args, 0nat,
    {
        let mut i: usize = 0;
        while i < args.len()
            invariant
                trav(old(self), self),
                i <= args@.len(),
                i == 0 ==> *self == *old(self),
                i == 1 && args@.len() == 1 && args@[0] is Identifier ==> self.sc() == old(self).sc()
                    && self.moved() == old(self).moved(),
            decreases args@.len() - i,
        {
            proof {
                if self.copy_world() {
                    self.lemma_world_type(expr_id(&args@[i as int]), DEPTH_LIMIT as nat);
                }
            }
            let arg = &args[i];
            let is_string = match self.types.get(&arg.id()) {
                Some(Type::String) => true,
                _ => false,
            };
            if self.expr_is_owning(arg) && !arg.is_place() && !is_string {
                self.report(
                    "owning gecici deger odunc alan cagriya verilemez; once bir degiskene baglayin",
                    arg.span(),
                );
            }
            self.read_place(arg);
            i = i + 1;
        }
    }

    fn consume_call(&mut self, expr: &Expr)
        requires
            scopes_wf(old(self).sc()),
            expr is Call,
        ensures
            trav(old(self), final(self)),
            call_moves_arg(old(self), final(self), expr),
            call_reads_arg(old(self), final(self), expr),
        decreases expr, 0nat,
    {
        match expr {
            Expr::Call { name, args, .. } => {
                let fname = if (name.0 as usize) < self.interner.len() {
                    self.interner.resolve(*name)
                } else {
                    ""
                };
                proof {
                    reveal_strlit("");
                    reveal_strlit("print");
                    reveal_strlit("len");
                    assert(old(self).names() == self.interner@);
                    if (name.0 as int) < self.interner@.len() {
                        assert(fname@ == self.interner@[name.0 as int]);
                    } else {
                        assert(fname@ == ""@);
                        assert(fname@.len() == 0);
                    }
                    assert(borrowing_call(old(self).names(), *name) <==> (fname@ == "print"@ || fname@ == "len"@));
                }
                if str_eq(fname, "print") || str_eq(fname, "len") {
                    self.read_args(args);
                } else {
                    self.consume_all(args);
                }
            },
            _ => {},
        }
    }

    fn consume_binary(&mut self, expr: &Expr)
        requires
            scopes_wf(old(self).sc()),
            expr is BinaryOp,
        ensures
            trav(old(self), final(self)),
        decreases expr, 0nat,
    {
        match expr {
            Expr::BinaryOp { left, op, right, span, .. } => {
                if is_comparison(op) {
                    let mut ls: Vec<Symbol> = Vec::new();
                    let mut rs: Vec<Symbol> = Vec::new();
                    collect_idents(&**left, &mut ls);
                    collect_idents(&**right, &mut rs);
                    let mut shared: Vec<Symbol> = Vec::new();
                    let mut i: usize = 0;
                    while i < ls.len()
                        invariant
                            self == old(self),
                            old(self).copy_world() ==> shared@.len() == 0,
                        decreases ls@.len() - i,
                    {
                        proof {
                            if old(self).copy_world() {
                                old(self).lemma_world_lookup(ls@[i as int]);
                            }
                        }
                        if crate::typechecker::contains_sym(&rs, ls[i]) && self.all_owned(ls[i]) {
                            shared.push(ls[i]);
                        }
                        i = i + 1;
                    }
                    self.read_place(&**left);
                    self.read_place(&**right);
                    let mut k: usize = 0;
                    while k < shared.len()
                        invariant
                            trav(old(self), self),
                            old(self).copy_world() ==> shared@.len() == 0,
                        decreases shared@.len() - k,
                    {
                        if !self.all_owned(shared[k]) {
                            self.report(
                                "karsilastirmanin iki tarafi ayni owning degeri kullaniyor ve biri onu tasiyor; once bir degiskene baglayin",
                                *span,
                            );
                        }
                        k = k + 1;
                    }
                } else if *op == BinaryOperator::And || *op == BinaryOperator::Or {
                    self.consume_expr(&**left);
                    let entry = dup_scopes(&self.scopes);
                    self.consume_expr(&**right);
                    let after = dup_scopes(&self.scopes);
                    let ghost st = *self;
                    self.scopes = join_scopes(&after, &entry);
                    proof {
                        lemma_join_wf(scopes_view(after@), scopes_view(entry@));
                        if old(self).copy_world() {
                            st.lemma_world_scopes();
                            lemma_copy_join(scopes_view(after@), scopes_view(entry@));
                            st.lemma_world_keeps(&*self);
                        }
                    }
                } else {
                    self.consume_expr(&**left);
                    self.consume_expr(&**right);
                }
            },
            _ => {},
        }
    }

    fn consume_field(&mut self, expr: &Expr)
        requires
            scopes_wf(old(self).sc()),
            expr is FieldAccess,
        ensures
            trav(old(self), final(self)),
        decreases expr, 0nat,
    {
        match expr {
            Expr::FieldAccess { object, span, id, .. } => {
                proof {
                    if old(self).copy_world() {
                        old(self).lemma_world_type(expr_id(expr), DEPTH_LIMIT as nat);
                    }
                }
                self.check_place_base(&**object);
                if !self.expr_is_owning(expr) {
                    self.read_place(&**object);
                    return;
                }
                let place = self.place_path(expr);
                match place {
                    Some((sym, path)) => {
                        if self.binding_is_owning(sym) {
                            self.check_path_live(sym, &path, *span, true);
                            self.mark_path_moved(sym, &path);
                            self.record_move(*id, path);
                            return;
                        }
                    },
                    None => {},
                }
                if object.is_place() {
                    self.report(
                        "owning alan yalnizca yerel bir degiskenin alan zincirinden tasinabilir; dizi elemani ve Box icerigi yerinde odunc alinir",
                        *span,
                    );
                }
                self.read_place(&**object);
            },
            _ => {},
        }
    }

    /// Checks a block's statements and tail in the current scope.
    fn check_block_body(&mut self, block: &Block)
        requires
            scopes_wf(old(self).sc()),
            old(self).sc().len() > 0,
        ensures
            trav(old(self), final(self)),
            fresh_double(block.stmts@, old(self).sc()) ==> crate::typechecker::has_custom(
                final(self).errs(),
                "tasinmis deger tekrar kullanildi"@,
                dl_span(block.stmts@),
            ),
        decreases block, 0nat,
    {
        let mut i: usize = 0;
        while i < block.stmts.len()
            invariant
                trav(old(self), self),
                old(self).sc().len() > 0,
                i <= block.stmts@.len(),
                i == 0 ==> self.sc() == old(self).sc(),
                i == 1 && fresh_double(block.stmts@, old(self).sc()) ==> moved_owning(
                    scopes_lookup(self.sc(), dl_var(block.stmts@)),
                ),
                i >= 2 && fresh_double(block.stmts@, old(self).sc()) ==> crate::typechecker::has_custom(
                    self.errs(),
                    "tasinmis deger tekrar kullanildi"@,
                    dl_span(block.stmts@),
                ),
            decreases block.stmts@.len() - i,
        {
            let ghost e_i = self.errs();
            let ghost sc_i = self.sc();
            self.check_stmt(&block.stmts[i]);
            proof {
                if fresh_double(block.stmts@, old(self).sc()) {
                    let xs = (dl_var(block.stmts@), dl_span(block.stmts@));
                    if i == 0 {
                        let b = scopes_lookup(old(self).sc(), xs.0)->0;
                        assert(sc_i == old(self).sc());
                        assert(moved_owning(scopes_lookup(self.sc(), xs.0))) by {
                            assert(scopes_lookup(self.sc(), xs.0) == Some(
                                mark_spec(BindV::Owning(b->Owning_0, b->Owning_1), Seq::empty(), MoveState::Moved),
                            ));
                        }
                    } else if i == 1 {
                        assert(block.stmts@[1] matches Stmt::Let { value: Expr::Identifier(x2, sp, _), .. } && x2
                            == xs.0 && sp == xs.1);
                        assert(moved_owning(scopes_lookup(sc_i, xs.0)));
                        assert(block.stmts@[i as int] == block.stmts@[1]);
                        assert(crate::typechecker::has_custom(self.errs(), "tasinmis deger tekrar kullanildi"@, xs.1));
                    } else {
                        crate::typechecker::lemma_has_custom_grows(e_i, self.errs(), "tasinmis deger tekrar kullanildi"@, xs.1);
                    }
                }
            }
            i = i + 1;
        }
        let ghost e_t = self.errs();
        match &block.tail {
            Some(t) => self.consume_expr(&**t),
            None => {},
        }
        proof {
            if fresh_double(block.stmts@, old(self).sc()) {
                crate::typechecker::lemma_has_custom_grows(e_t, self.errs(), "tasinmis deger tekrar kullanildi"@, dl_span(block.stmts@));
            }
        }
    }

    fn consume_if(&mut self, expr: &Expr)
        requires
            scopes_wf(old(self).sc()),
            expr is If,
        ensures
            trav(old(self), final(self)),
        decreases expr, 0nat,
    {
        match expr {
            Expr::If { condition, then_body, else_body, .. } => {
                self.consume_expr(&**condition);
                let ghost st_entry = *self;
                let entry = dup_scopes(&self.scopes);
                self.enter();
                self.check_block_body(&**then_body);
                self.exit();
                let ghost st_then = *self;
                let after_then = dup_scopes(&self.scopes);
                self.scopes = dup_scopes(&entry);
                proof {
                    if old(self).copy_world() {
                        st_entry.lemma_world_scopes();
                        st_then.lemma_world_keeps(&*self);
                    }
                }
                match else_body {
                    Some(eb) => {
                        self.enter();
                        self.check_block_body(&**eb);
                        self.exit();
                    },
                    None => {},
                }
                let after_else = dup_scopes(&self.scopes);
                let ghost before_join = *self;
                self.scopes = join_scopes(&after_then, &after_else);
                proof {
                    lemma_join_wf(scopes_view(after_then@), scopes_view(after_else@));
                    if old(self).copy_world() {
                        st_then.lemma_world_scopes();
                        lemma_copy_join(scopes_view(after_then@), scopes_view(after_else@));
                        before_join.lemma_world_keeps(&*self);
                    }
                }
            },
            _ => {},
        }
    }

    fn consume_match(&mut self, expr: &Expr)
        requires
            scopes_wf(old(self).sc()),
            expr is Match,
        ensures
            trav(old(self), final(self)),
        decreases expr, 0nat,
    {
        match expr {
            Expr::Match { scrutinee, arms, .. } => {
                self.consume_expr(&**scrutinee);
                let scrut_args = match self.types.get(&scrutinee.id()) {
                    Some(Type::Enum(_, a)) => crate::ast::dup_types(a),
                    _ => Vec::new(),
                };
                let entry = dup_scopes(&self.scopes);
                proof {
                    if self.copy_world() {
                        self.lemma_world_scopes();
                    }
                }
                let joined = self.consume_arms(arms, &entry, &scrut_args);
                let ghost st = *self;
                match joined {
                    Some(j) => {
                        self.scopes = j;
                        proof {
                            if old(self).copy_world() {
                                st.lemma_world_keeps(&*self);
                            }
                        }
                    },
                    None => {},
                }
            },
            _ => {},
        }
    }

    /// Checks each arm from the state on entry and joins the states after them.
    fn consume_arms(
        &mut self,
        arms: &Vec<(Pattern, Block)>,
        entry: &Vec<Vec<(Symbol, BindState)>>,
        scrut_args: &Vec<Type>,
    ) -> (r: Option<Vec<Vec<(Symbol, BindState)>>>)
        requires
            scopes_wf(old(self).sc()),
            scopes_wf(scopes_view(entry@)),
            scopes_view(entry@).len() == old(self).sc().len(),
            old(self).copy_world() ==> copy_scopes(scopes_view(entry@)),
        ensures
            trav(old(self), final(self)),
            r matches Some(j) ==> scopes_wf(scopes_view(j@)) && scopes_view(j@).len() == old(self).sc().len(),
            old(self).copy_world() && copy_scopes(scopes_view(entry@)) ==> (r matches Some(j) ==> copy_scopes(
                scopes_view(j@),
            )),
            r is Some <==> arms@.len() > 0,
        decreases arms, 0nat,
    {
        let mut joined: Option<Vec<Vec<(Symbol, BindState)>>> = None;
        let mut i: usize = 0;
        while i < arms.len()
            invariant
                trav(old(self), self),
                scopes_wf(scopes_view(entry@)),
                scopes_view(entry@).len() == old(self).sc().len(),
                joined matches Some(j) ==> scopes_wf(scopes_view(j@)) && scopes_view(j@).len() == old(self).sc().len(),
                old(self).copy_world() && copy_scopes(scopes_view(entry@)) ==> (joined matches Some(j)
                    ==> copy_scopes(scopes_view(j@))),
                old(self).copy_world() ==> copy_scopes(scopes_view(entry@)),
                i <= arms@.len(),
                joined is Some <==> i > 0,
            decreases arms@.len() - i,
        {
            let ghost st0 = *self;
            self.scopes = dup_scopes(entry);
            proof {
                if old(self).copy_world() && copy_scopes(scopes_view(entry@)) {
                    st0.lemma_world_keeps(&*self);
                }
            }
            self.enter();
            proof {
                if old(self).copy_world() && copy_scopes(scopes_view(entry@)) {
                    self.lemma_world_scopes();
                }
            }
            match &arms[i].0 {
                Pattern::Variant { enum_name, variant, bindings } => {
                    proof {
                        if self.copy_world() {
                            self.lemma_world_scopes();
                        }
                    }
                    let ftys: Vec<Type> = match self.variants_for(*enum_name, scrut_args) {
                        Some(vs) => match find_key(&vs, *variant) {
                            Some(j) => crate::ast::dup_types(&vs[j].1),
                            None => Vec::new(),
                        },
                        None => Vec::new(),
                    };
                    let ghost st1 = *self;
                    let mut k: usize = 0;
                    while k < bindings.len()
                        invariant
                            mc_steps(old(self), self),
                            self.sc().len() == old(self).sc().len() + 1,
                            scopes_wf(self.sc()),
                            st1.copy_world() ==> self.copy_world() && ftys@.len() == 0 && self.errs() == st1.errs()
                                && self.moved() == st1.moved(),
                        decreases bindings@.len() - k,
                    {
                        if k < ftys.len() {
                            self.bind(bindings[k], Some(&ftys[k]));
                        } else {
                            self.bind(bindings[k], None);
                        }
                        k = k + 1;
                    }
                },
                Pattern::Wildcard => {},
            }
            self.check_block_body(&arms[i].1);
            self.exit();
            proof {
                if old(self).copy_world() && copy_scopes(scopes_view(entry@)) {
                    self.lemma_world_scopes();
                }
            }
            let after = dup_scopes(&self.scopes);
            joined = match joined {
                None => Some(after),
                Some(j) => {
                    let jj = join_scopes(&j, &after);
                    proof {
                        lemma_join_wf(scopes_view(j@), scopes_view(after@));
                        if old(self).copy_world() && copy_scopes(scopes_view(entry@)) {
                            lemma_copy_join(scopes_view(j@), scopes_view(after@));
                        }
                    }
                    Some(jj)
                },
            };
            i = i + 1;
        }
        joined
    }

    /// Checks one statement.
    fn check_stmt(&mut self, stmt: &Stmt)
        requires
            scopes_wf(old(self).sc()),
            old(self).sc().len() > 0,
        ensures
            trav(old(self), final(self)),
            stmt matches Stmt::Let { name, value: Expr::Identifier(x, _, _), .. } ==> (*name != *x ==> (scopes_lookup(
                old(self).sc(),
                *x,
            ) matches Some(BindV::Owning(p, s)) ==> scopes_lookup(final(self).sc(), *x) == Some(
                mark_spec(BindV::Owning(p, s), Seq::empty(), MoveState::Moved),
            ))),
            stmt matches Stmt::Let { value: Expr::Identifier(x, sp, _), .. } ==> (moved_owning(
                scopes_lookup(old(self).sc(), *x),
            ) ==> crate::typechecker::has_custom(final(self).errs(), "tasinmis deger tekrar kullanildi"@, *sp)),
        decreases stmt, 0nat,
    {
        match stmt {
            Stmt::Let { name, value, .. } => {
                let ghost s0 = *self;
                self.consume_expr(value);
                let ghost s1 = *self;
                proof {
                    if self.copy_world() {
                        self.lemma_world_copy_type(expr_id(value));
                    }
                }
                let vt = match self.types.get(&value.id()) {
                    Some(t) => Some(t.dup()),
                    None => None,
                };
                match &vt {
                    Some(t) => self.bind(*name, Some(t)),
                    None => self.bind(*name, None),
                }
                proof {
                    match value {
                        Expr::Identifier(x, sp, _) => {
                            if *name != *x {
                                let b = scopes_lookup(self.sc(), *name)->0;
                                lemma_lookup_put_other(s1.sc(), self.sc(), *name, b, *x);
                            }
                            if moved_owning(scopes_lookup(s0.sc(), *x)) {
                                let (p, st) = choose|p: Seq<Seq<u32>>, st: Seq<MoveState>|
                                    p.len() > 0 && p.len() == st.len() && scopes_lookup(s0.sc(), *x) == Some(
                                        mark_spec(BindV::Owning(p, st), Seq::empty(), MoveState::Moved),
                                    );
                                lemma_second_use_reported(p, st);
                                let k = s1.errs().len() - 1;
                                assert(crate::typechecker::is_custom(
                                    self.errs()[k],
                                    "tasinmis deger tekrar kullanildi"@,
                                    *sp,
                                ));
                            }
                        },
                        _ => {},
                    }
                }
            },
            Stmt::Assign { name, value, .. } => {
                self.consume_expr(value);
                let empty: Vec<u32> = Vec::new();
                self.mark_path_live(*name, &empty);
            },
            Stmt::Return(e, _) => self.consume_expr(e),
            Stmt::Expr(e, span) => {
                proof {
                    if self.copy_world() {
                        self.lemma_world_type(expr_id(e), DEPTH_LIMIT as nat);
                    }
                }
                if self.expr_is_owning(e) {
                    self.report("owning deger bir degiskene baglanmali (sahipsiz kalamaz)", *span);
                }
                self.consume_expr(e);
            },
            Stmt::While { condition, body, span } => {
                self.consume_expr(condition);
                self.check_loop(body, *span, None);
            },
            Stmt::For { var, from, to, body, span } => {
                self.consume_expr(from);
                self.consume_expr(to);
                self.check_loop(body, *span, Some(*var));
            },
            Stmt::AssignPlace { target, value, span } => {
                let place = self.place_path(target);
                proof {
                    if self.copy_world() {
                        match place {
                            Some((sym, _)) => self.lemma_world_lookup(sym),
                            None => {},
                        }
                    }
                }
                let owning_place = match &place {
                    Some((sym, _)) => self.binding_is_owning(*sym),
                    None => false,
                };
                if owning_place {
                    let (sym, path) = place.unwrap();
                    self.check_assign_target(sym, &path, *span);
                    self.consume_expr(value);
                    self.mark_path_live(sym, &path);
                } else {
                    self.read_place(target);
                    self.consume_expr(value);
                }
            },
            Stmt::Error(_) => {},
        }
    }

    /// A loop body may run any number of times, so it must not move an
    /// owning value that lives outside it. The bindings outside are left as
    /// they were.
    fn check_loop(&mut self, body: &Block, span: Span, loop_var: Option<Symbol>)
        requires
            scopes_wf(old(self).sc()),
        ensures
            mc_steps(old(self), final(self)),
            final(self).sc() == old(self).sc(),
            stays_quiet(old(self), final(self)),
        decreases body, 1nat,
    {
        let entry = dup_scopes(&self.scopes);
        proof {
            if old(self).copy_world() {
                old(self).lemma_world_scopes();
            }
        }
        self.enter();
        match loop_var {
            Some(v) => self.bind(v, None),
            None => {},
        }
        self.check_block_body(body);
        self.exit();
        let mut moved_outer = false;
        let mut i: usize = 0;
        while i < entry.len()
            invariant
                old(self).copy_world() ==> copy_scopes(scopes_view(entry@)) && !moved_outer,
            decreases entry@.len() - i,
        {
            let scope = &entry[i];
            proof {
                if old(self).copy_world() {
                    assert(copy_scope(scopes_view(entry@)[i as int]));
                }
            }
            let mut j: usize = 0;
            while j < scope.len()
                invariant
                    old(self).copy_world() ==> copy_scopes(scopes_view(entry@)) && !moved_outer,
                    scope == &entry@[i as int],
                    i < entry@.len(),
                decreases scope@.len() - j,
            {
                proof {
                    if old(self).copy_world() {
                        assert(copy_scope(scopes_view(entry@)[i as int]));
                        assert(scopes_view(entry@)[i as int][j as int].1 is Copy);
                    }
                }
                match &scope[j].1 {
                    BindState::Owning { states, .. } => {
                        if all_owned_states(states) && i < self.scopes.len() {
                            match scope_pos(&self.scopes[i], scope[j].0) {
                                Some(q) => match &self.scopes[i][q].1 {
                                    BindState::Owning { states: s2, .. } => {
                                        if !all_owned_states(s2) {
                                            moved_outer = true;
                                        }
                                    },
                                    BindState::Copy => {},
                                },
                                None => {},
                            }
                        }
                    },
                    BindState::Copy => {},
                }
                j = j + 1;
            }
            i = i + 1;
        }
        if moved_outer {
            self.report("dongu govdesinde owning deger disari tasinamaz", span);
        }
        let ghost st = *self;
        self.scopes = entry;
        proof {
            if old(self).copy_world() {
                st.lemma_world_keeps(&*self);
            }
        }
    }

    /// Checks one function body, its parameters bound in a scope of their own.
    fn check_function(&mut self, func: &Function)
        requires
            old(self).sc().len() == 0,
        ensures
            mc_steps(old(self), final(self)),
            final(self).sc() == old(self).sc(),
            old(self).copy_world() && copy_params(func) ==> final(self).copy_world() && final(self).errs()
                == old(self).errs() && final(self).moved() == old(self).moved(),
            moves_param_twice(func) ==> crate::typechecker::has_custom(
                final(self).errs(),
                "tasinmis deger tekrar kullanildi"@,
                dl_span(func.body.stmts@),
            ),
    {
        self.enter();
        let ghost x = dl_var(func.body.stmts@);
        let mut i: usize = 0;
        while i < func.params.len()
            invariant
                owning_param_upto(func, x, i as int) ==> fresh_owning(scopes_lookup(self.sc(), x)),
                i <= func.params@.len(),
                mc_steps(old(self), self),
                self.sc().len() == old(self).sc().len() + 1,
                self.sc().drop_last() == old(self).sc(),
                scopes_wf(self.sc()),
                old(self).copy_world() && copy_params(func) ==> self.copy_world() && self.errs() == old(self).errs()
                    && self.moved() == old(self).moved(),
            decreases func.params@.len() - i,
        {
            let ghost sc0 = self.sc();
            self.bind(func.params[i].0, Some(&func.params[i].1));
            proof {
                let n = i as int;
                if func.params@[n].0 == x {
                    lemma_lookup_wf(self.sc(), x);
                    if owning_param_upto(func, x, n + 1) {
                        let pi = choose|pi: int|
                            0 <= pi < n + 1 && (#[trigger] func.params@[pi]).0 == x && (func.params@[pi].1@ is String
                                || func.params@[pi].1@ is Box) && forall|q: int|
                                pi < q < n + 1 ==> (#[trigger] func.params@[q]).0 != x;
                        if pi < n {
                            assert(func.params@[n].0 != x);
                        }
                    }
                } else {
                    let b = scopes_lookup(self.sc(), func.params@[n].0)->0;
                    lemma_lookup_put_other(sc0, self.sc(), func.params@[n].0, b, x);
                    if owning_param_upto(func, x, n + 1) {
                        let pi = choose|pi: int|
                            0 <= pi < n + 1 && (#[trigger] func.params@[pi]).0 == x && (func.params@[pi].1@ is String
                                || func.params@[pi].1@ is Box) && forall|q: int|
                                pi < q < n + 1 ==> (#[trigger] func.params@[q]).0 != x;
                        assert(pi < n);
                        assert forall|q: int| pi < q < n implies (#[trigger] func.params@[q]).0 != x by {}
                        assert(owning_param_upto(func, x, n));
                    }
                }
            }
            i = i + 1;
        }
        self.check_block_body(&func.body);
        self.exit();
        assert(self.sc() =~= old(self).sc());
    }
}

fn all_owned_states(states: &Vec<MoveState>) -> (r: bool)
    ensures
        r == forall|i: int| 0 <= i < states@.len() ==> states@[i] == MoveState::Owned,
{
    let mut i: usize = 0;
    while i < states.len()
        invariant
            i <= states@.len(),
            forall|j: int| 0 <= j < i ==> states@[j] == MoveState::Owned,
        decreases states@.len() - i,
    {
        if states[i] != MoveState::Owned {
            return false;
        }
        i = i + 1;
    }
    true
}

// ---------------------------------------------------------------------------
// The variable names an expression, block or statement mentions.
// ---------------------------------------------------------------------------
pub open spec fn expr_names<'a>(e: &Expr<'a>) -> Set<Symbol>
    decreases e, 0nat,
{
    match e {
        Expr::Identifier(sym, _, _) => set![*sym],
        Expr::BinaryOp { left, right, .. } => expr_names(&**left) + expr_names(&**right),
        Expr::UnaryOp { operand, .. } => expr_names(&**operand),
        Expr::Cast { expr, .. } => expr_names(&**expr),
        Expr::Box { value, .. } => expr_names(&**value),
        Expr::Deref { target, .. } => expr_names(&**target),
        Expr::Try { expr, .. } => expr_names(&**expr),
        Expr::FieldAccess { object, .. } => expr_names(&**object),
        Expr::Index { array, index, .. } => expr_names(&**array) + expr_names(&**index),
        Expr::Call { args, .. } => exprs_names(args@),
        Expr::EnumVariant { args, .. } => exprs_names(args@),
        Expr::ArrayLiteral(elems, _, _) => exprs_names(elems@),
        Expr::StructLiteral { fields, .. } => fields_names(fields@),
        Expr::Match { scrutinee, arms, .. } => expr_names(&**scrutinee) + arms_names(arms@),
        Expr::If { condition, then_body, else_body, .. } => expr_names(&**condition) + block_names(&**then_body)
            + match else_body {
            Some(b) => block_names(&**b),
            None => Set::empty(),
        },
        _ => Set::empty(),
    }
}

pub open spec fn exprs_names<'a>(es: Seq<Expr<'a>>) -> Set<Symbol>
    decreases es, 0nat,
{
    if es.len() == 0 {
        Set::empty()
    } else {
        exprs_names(es.drop_last()) + expr_names(&es.last())
    }
}

pub open spec fn fields_names<'a>(fs: Seq<(Symbol, Expr<'a>)>) -> Set<Symbol>
    decreases fs, 0nat,
{
    if fs.len() == 0 {
        Set::empty()
    } else {
        fields_names(fs.drop_last()) + expr_names(&fs.last().1)
    }
}

pub open spec fn arms_names<'a>(arms: Seq<(Pattern, Block<'a>)>) -> Set<Symbol>
    decreases arms, 0nat,
{
    if arms.len() == 0 {
        Set::empty()
    } else {
        arms_names(arms.drop_last()) + block_names(&arms.last().1)
    }
}

pub open spec fn block_names<'a>(b: &Block<'a>) -> Set<Symbol>
    decreases b, 0nat,
{
    stmts_names(b.stmts@) + match b.tail {
        Some(t) => expr_names(&*t),
        None => Set::empty(),
    }
}

pub open spec fn stmts_names<'a>(ss: Seq<Stmt<'a>>) -> Set<Symbol>
    decreases ss, 0nat,
{
    if ss.len() == 0 {
        Set::empty()
    } else {
        stmts_names(ss.drop_last()) + stmt_names(&ss.last())
    }
}

pub open spec fn stmt_names<'a>(s: &Stmt<'a>) -> Set<Symbol>
    decreases s, 0nat,
{
    match s {
        Stmt::Let { value, .. } => expr_names(value),
        Stmt::Return(e, _) => expr_names(e),
        Stmt::Expr(e, _) => expr_names(e),
        Stmt::Assign { value, .. } => expr_names(value),
        Stmt::AssignPlace { target, value, .. } => expr_names(target) + expr_names(value),
        Stmt::While { condition, body, .. } => expr_names(condition) + block_names(body),
        Stmt::For { from, to, body, .. } => expr_names(from) + expr_names(to) + block_names(body),
        Stmt::Error(_) => Set::empty(),
    }
}

/// `b` holds what `a` holds and the names of `s`, and nothing else.
pub open spec fn adds(a: Seq<Symbol>, b: Seq<Symbol>, s: Set<Symbol>) -> bool {
    forall|q: Symbol|
        #![trigger b.contains(q)]
        #![trigger a.contains(q)]
        #![trigger s.contains(q)]
        b.contains(q) <==> (a.contains(q) || s.contains(q))
}

proof fn lemma_adds_chain(a: Seq<Symbol>, b: Seq<Symbol>, c: Seq<Symbol>, s: Set<Symbol>, t: Set<Symbol>)
    requires
        adds(a, b, s),
        adds(b, c, t),
    ensures
        adds(a, c, s + t),
{
    assert forall|q: Symbol| c.contains(q) <==> (a.contains(q) || (s + t).contains(q)) by {
        if c.contains(q) {
            assert(b.contains(q) || t.contains(q));
        }
        if a.contains(q) || s.contains(q) {
            assert(b.contains(q));
        }
    }
}

proof fn lemma_adds_refl(a: Seq<Symbol>)
    ensures
        adds(a, a, Set::empty()),
{
}

proof fn lemma_adds_same(a: Seq<Symbol>, b: Seq<Symbol>, s: Set<Symbol>, t: Set<Symbol>)
    requires
        adds(a, b, s),
        s =~= t,
    ensures
        adds(a, b, t),
{
}

/// Adds `s` to `out` unless it is there already.
fn add_sym(out: &mut Vec<Symbol>, s: Symbol)
    ensures
        grows(old(out)@, final(out)@),
        old(out)@.no_duplicates() ==> final(out)@.no_duplicates(),
        final(out)@.contains(s),
        adds(old(out)@, final(out)@, set![s]),
{
    if !crate::typechecker::contains_sym(out, s) {
        out.push(s);
        proof {
            crate::typechecker::lemma_grows_push(old(out)@, s);
            assert(out@[out@.len() - 1] == s);
            assert forall|q: Symbol| out@.contains(q) <==> (old(out)@.contains(q) || set![s].contains(q)) by {
                if out@.contains(q) {
                    let k = choose|k: int| 0 <= k < out@.len() && out@[k] == q;
                    if k < old(out)@.len() {
                        assert(old(out)@[k] == q);
                    }
                }
                if old(out)@.contains(q) {
                    let k = choose|k: int| 0 <= k < old(out)@.len() && old(out)@[k] == q;
                    assert(out@[k] == q);
                }
            }
        }
    } else {
        proof {
            crate::typechecker::lemma_grows_refl(out@);
        }
    }
}

/// Adds to `out` each variable name that `expr` mentions, once.
fn collect_idents(expr: &Expr, out: &mut Vec<Symbol>)
    ensures
        grows(old(out)@, final(out)@),
        old(out)@.no_duplicates() ==> final(out)@.no_duplicates(),
        expr matches Expr::Identifier(sym, _, _) ==> final(out)@.contains(*sym),
        adds(old(out)@, final(out)@, expr_names(expr)),
    decreases expr, 1nat,
{
    proof {
        crate::typechecker::lemma_grows_refl(out@);
    }
    let ghost o0 = out@;
    match expr {
        Expr::Identifier(sym, _, _) => add_sym(out, *sym),
        Expr::BinaryOp { left, right, .. } => {
            collect_idents(&**left, out);
            let ghost o1 = out@;
            collect_idents(&**right, out);
            proof {
                crate::typechecker::lemma_grows_trans(o0, o1, out@);
                lemma_adds_chain(o0, o1, out@, expr_names(&**left), expr_names(&**right));
            }
        },
        Expr::UnaryOp { operand, .. } => collect_idents(&**operand, out),
        Expr::Cast { expr: inner, .. } => collect_idents(&**inner, out),
        Expr::Box { value, .. } => collect_idents(&**value, out),
        Expr::Deref { target, .. } => collect_idents(&**target, out),
        Expr::Try { expr: inner, .. } => collect_idents(&**inner, out),
        Expr::FieldAccess { object, .. } => collect_idents(&**object, out),
        Expr::Index { array, index, .. } => {
            collect_idents(&**array, out);
            let ghost o1 = out@;
            collect_idents(&**index, out);
            proof {
                crate::typechecker::lemma_grows_trans(o0, o1, out@);
                lemma_adds_chain(o0, o1, out@, expr_names(&**array), expr_names(&**index));
            }
        },
        Expr::Call { args, .. } => collect_list(args, out),
        Expr::EnumVariant { args, .. } => collect_list(args, out),
        Expr::ArrayLiteral(elems, _, _) => collect_list(elems, out),
        Expr::StructLiteral { fields, .. } => collect_field_list(fields, out),
        Expr::Match { scrutinee, arms, .. } => {
            collect_idents(&**scrutinee, out);
            let ghost o1 = out@;
            collect_arm_blocks(arms, out);
            proof {
                crate::typechecker::lemma_grows_trans(o0, o1, out@);
                lemma_adds_chain(o0, o1, out@, expr_names(&**scrutinee), arms_names(arms@));
            }
        },
        Expr::If { condition, then_body, else_body, .. } => {
            collect_idents(&**condition, out);
            let ghost o1 = out@;
            collect_block_idents(&**then_body, out);
            let ghost o2 = out@;
            proof {
                crate::typechecker::lemma_grows_trans(o0, o1, o2);
                lemma_adds_chain(o0, o1, o2, expr_names(&**condition), block_names(&**then_body));
            }
            match else_body {
                Some(eb) => {
                    collect_block_idents(&**eb, out);
                    proof {
                        crate::typechecker::lemma_grows_trans(o0, o2, out@);
                        lemma_adds_chain(
                            o0,
                            o2,
                            out@,
                            expr_names(&**condition) + block_names(&**then_body),
                            block_names(&**eb),
                        );
                    }
                },
                None => {
                    proof {
                        lemma_adds_same(
                            o0,
                            out@,
                            expr_names(&**condition) + block_names(&**then_body),
                            expr_names(expr),
                        );
                    }
                },
            }
        },
        Expr::Integer(..) | Expr::Bool(..) | Expr::StringLiteral(..) | Expr::Error(..) => {},
    }
}

fn collect_list(es: &Vec<Expr>, out: &mut Vec<Symbol>)
    ensures
        grows(old(out)@, final(out)@),
        old(out)@.no_duplicates() ==> final(out)@.no_duplicates(),
        adds(old(out)@, final(out)@, exprs_names(es@)),
    decreases es, 0nat,
{
    let mut i: usize = 0;
    while i < es.len()
        invariant
            grows(old(out)@, out@),
            old(out)@.no_duplicates() ==> out@.no_duplicates(),
            i <= es@.len(),
            adds(old(out)@, out@, exprs_names(es@.take(i as int))),
        decreases es@.len() - i,
    {
        let ghost o1 = out@;
        collect_idents(&es[i], out);
        proof {
            crate::typechecker::lemma_grows_trans(old(out)@, o1, out@);
            lemma_adds_chain(old(out)@, o1, out@, exprs_names(es@.take(i as int)), expr_names(&es@[i as int]));
            assert(es@.take(i + 1).drop_last() =~= es@.take(i as int));
            lemma_adds_same(
                old(out)@,
                out@,
                exprs_names(es@.take(i as int)) + expr_names(&es@[i as int]),
                exprs_names(es@.take(i + 1)),
            );
        }
        i = i + 1;
    }
    assert(es@.take(es@.len() as int) =~= es@);
}

fn collect_field_list(fields: &Vec<(Symbol, Expr)>, out: &mut Vec<Symbol>)
    ensures
        grows(old(out)@, final(out)@),
        old(out)@.no_duplicates() ==> final(out)@.no_duplicates(),
        adds(old(out)@, final(out)@, fields_names(fields@)),
    decreases fields, 0nat,
{
    let mut i: usize = 0;
    while i < fields.len()
        invariant
            grows(old(out)@, out@),
            old(out)@.no_duplicates() ==> out@.no_duplicates(),
            i <= fields@.len(),
            adds(old(out)@, out@, fields_names(fields@.take(i as int))),
        decreases fields@.len() - i,
    {
        let ghost o1 = out@;
        collect_idents(&fields[i].1, out);
        proof {
            crate::typechecker::lemma_grows_trans(old(out)@, o1, out@);
            lemma_adds_chain(old(out)@, o1, out@, fields_names(fields@.take(i as int)), expr_names(&fields@[i as int].1));
            assert(fields@.take(i + 1).drop_last() =~= fields@.take(i as int));
            lemma_adds_same(
                old(out)@,
                out@,
                fields_names(fields@.take(i as int)) + expr_names(&fields@[i as int].1),
                fields_names(fields@.take(i + 1)),
            );
        }
        i = i + 1;
    }
    assert(fields@.take(fields@.len() as int) =~= fields@);
}

fn collect_arm_blocks(arms: &Vec<(Pattern, Block)>, out: &mut Vec<Symbol>)
    ensures
        grows(old(out)@, final(out)@),
        old(out)@.no_duplicates() ==> final(out)@.no_duplicates(),
        adds(old(out)@, final(out)@, arms_names(arms@)),
    decreases arms, 0nat,
{
    let mut i: usize = 0;
    while i < arms.len()
        invariant
            grows(old(out)@, out@),
            old(out)@.no_duplicates() ==> out@.no_duplicates(),
            i <= arms@.len(),
            adds(old(out)@, out@, arms_names(arms@.take(i as int))),
        decreases arms@.len() - i,
    {
        let ghost o1 = out@;
        collect_block_idents(&arms[i].1, out);
        proof {
            crate::typechecker::lemma_grows_trans(old(out)@, o1, out@);
            lemma_adds_chain(old(out)@, o1, out@, arms_names(arms@.take(i as int)), block_names(&arms@[i as int].1));
            assert(arms@.take(i + 1).drop_last() =~= arms@.take(i as int));
            lemma_adds_same(
                old(out)@,
                out@,
                arms_names(arms@.take(i as int)) + block_names(&arms@[i as int].1),
                arms_names(arms@.take(i + 1)),
            );
        }
        i = i + 1;
    }
    assert(arms@.take(arms@.len() as int) =~= arms@);
}

/// Adds to `out` each variable name that the statements and tail of `block` mention.
fn collect_block_idents(block: &Block, out: &mut Vec<Symbol>)
    ensures
        grows(old(out)@, final(out)@),
        old(out)@.no_duplicates() ==> final(out)@.no_duplicates(),
        adds(old(out)@, final(out)@, block_names(block)),
    decreases block, 0nat,
{
    let mut i: usize = 0;
    proof {
        crate::typechecker::lemma_grows_refl(out@);
    }
    while i < block.stmts.len()
        invariant
            grows(old(out)@, out@),
            old(out)@.no_duplicates() ==> out@.no_duplicates(),
            i <= block.stmts@.len(),
            adds(old(out)@, out@, stmts_names(block.stmts@.take(i as int))),
        decreases block.stmts@.len() - i,
    {
        let ghost o1 = out@;
        match &block.stmts[i] {
            Stmt::Let { value, .. } | Stmt::Return(value, _) | Stmt::Expr(value, _) | Stmt::Assign {
                value,
                ..
            } => collect_idents(value, out),
            Stmt::AssignPlace { target, value, .. } => {
                collect_idents(target, out);
                let ghost o2 = out@;
                collect_idents(value, out);
                proof {
                    crate::typechecker::lemma_grows_trans(o1, o2, out@);
                    lemma_adds_chain(o1, o2, out@, expr_names(target), expr_names(value));
                }
            },
            Stmt::While { condition, body, .. } => {
                collect_idents(condition, out);
                let ghost o2 = out@;
                collect_block_idents(body, out);
                proof {
                    crate::typechecker::lemma_grows_trans(o1, o2, out@);
                    lemma_adds_chain(o1, o2, out@, expr_names(condition), block_names(body));
                }
            },
            Stmt::For { from, to, body, .. } => {
                collect_idents(from, out);
                let ghost o2 = out@;
                collect_idents(to, out);
                let ghost o3 = out@;
                collect_block_idents(body, out);
                proof {
                    crate::typechecker::lemma_grows_trans(o1, o2, o3);
                    crate::typechecker::lemma_grows_trans(o1, o3, out@);
                    lemma_adds_chain(o1, o2, o3, expr_names(from), expr_names(to));
                    lemma_adds_chain(o1, o3, out@, expr_names(from) + expr_names(to), block_names(body));
                }
            },
            Stmt::Error(_) => {
                proof {
                    lemma_adds_same(o1, out@, Set::empty(), stmt_names(&block.stmts@[i as int]));
                }
            },
        }
        proof {
            crate::typechecker::lemma_grows_trans(old(out)@, o1, out@);
            lemma_adds_chain(
                old(out)@,
                o1,
                out@,
                stmts_names(block.stmts@.take(i as int)),
                stmt_names(&block.stmts@[i as int]),
            );
            assert(block.stmts@.take(i + 1).drop_last() =~= block.stmts@.take(i as int));
            lemma_adds_same(
                old(out)@,
                out@,
                stmts_names(block.stmts@.take(i as int)) + stmt_names(&block.stmts@[i as int]),
                stmts_names(block.stmts@.take(i + 1)),
            );
        }
        i = i + 1;
    }
    assert(block.stmts@.take(block.stmts@.len() as int) =~= block.stmts@);
    let ghost o4 = out@;
    match &block.tail {
        Some(t) => {
            collect_idents(&**t, out);
            proof {
                crate::typechecker::lemma_grows_trans(old(out)@, o4, out@);
                lemma_adds_chain(old(out)@, o4, out@, stmts_names(block.stmts@), expr_names(&**t));
            }
        },
        None => {
            proof {
                lemma_adds_same(old(out)@, out@, stmts_names(block.stmts@), block_names(block));
            }
        },
    }
}

impl<'a> MoveChecker<'a> {
    /// Checks every function of the program; returns the moves found (by
    /// the id of the expression that moves, with the field path moved) and
    /// the errors found, in order.
    ///
    /// Where the program declares no enum, the checker knows none, every
    /// recorded type is a copy type and every parameter has one, nothing is
    /// moved and nothing is reported.
    pub fn check(self, program: &Program) -> (r: (HashMap<ExprId, Vec<u32>>, Vec<LexoraError>))
        requires
            self.sc().len() == 0,
        ensures
            grows(self.errs(), r.1@),
            ({
                &&& program.enums@.len() == 0
                &&& self.enum_tbl().len() == 0
                &&& forall|id: ExprId| self.typ().contains_key(id) ==> copy_type(#[trigger] self.typ()[id]@)
                &&& forall|k: int| 0 <= k < program.functions@.len() ==> copy_params(#[trigger] &program.functions@[k])
            }) ==> r.1@ == self.errs() && r.0@ == self.moved(),
            forall|k: int|
                0 <= k < program.functions@.len() && moves_param_twice(#[trigger] &program.functions@[k])
                    ==> crate::typechecker::has_custom(
                    r.1@,
                    "tasinmis deger tekrar kullanildi"@,
                    dl_span(program.functions@[k].body.stmts@),
                ),
    {
        let mut me = self;
        let ghost e0 = me.errs();
        let ghost m0 = me.moved();
        let ghost hyp = {
            &&& program.enums@.len() == 0
            &&& self.enum_tbl().len() == 0
            &&& forall|id: ExprId| self.typ().contains_key(id) ==> copy_type(#[trigger] self.typ()[id]@)
            &&& forall|k: int| 0 <= k < program.functions@.len() ==> copy_params(#[trigger] &program.functions@[k])
        };
        let mut i: usize = 0;
        while i < program.enums.len()
            invariant
                me.errs() == e0,
                me.moved() == m0,
                me.sc().len() == 0,
                me.typ() == self.typ(),
                program.enums@.len() == 0 ==> me.enum_tbl() == self.enum_tbl(),
            decreases program.enums@.len() - i,
        {
            let e = &program.enums[i];
            let info = (crate::typechecker::dup_syms(&e.params), crate::typechecker::dup_variants(&e.variants));
            match find_key(&me.enums, e.name) {
                Some(k) => {
                    me.enums[k].1 = info;
                },
                None => {
                    me.enums.push((e.name, info));
                },
            }
            i = i + 1;
        }
        let mut i: usize = 0;
        while i < program.structs.len()
            invariant
                me.errs() == e0,
                me.moved() == m0,
                me.sc().len() == 0,
                me.typ() == self.typ(),
                program.enums@.len() == 0 ==> me.enum_tbl() == self.enum_tbl(),
            decreases program.structs@.len() - i,
        {
            let s = &program.structs[i];
            let fields = crate::typechecker::dup_fields(&s.fields);
            match find_key(&me.structs, s.name) {
                Some(k) => {
                    me.structs[k].1 = fields;
                },
                None => {
                    me.structs.push((s.name, fields));
                },
            }
            i = i + 1;
        }
        let mut i: usize = 0;
        proof {
            crate::typechecker::lemma_grows_refl(me.errs());
            if hyp {
                assert(me.sc() =~= Seq::<Seq<(Symbol, BindV)>>::empty());
                me.lemma_world_intro();
            }
        }
        while i < program.functions.len()
            invariant
                grows(e0, me.errs()),
                me.sc().len() == 0,
                hyp ==> forall|k: int| 0 <= k < program.functions@.len() ==> copy_params(#[trigger] &program.functions@[k]),
                hyp ==> me.copy_world() && me.errs() == e0 && me.moved() == m0,
                i <= program.functions@.len(),
                forall|k: int|
                    0 <= k < i && moves_param_twice(#[trigger] &program.functions@[k]) ==> crate::typechecker::has_custom(
                        me.errs(),
                        "tasinmis deger tekrar kullanildi"@,
                        dl_span(program.functions@[k].body.stmts@),
                    ),
            decreases program.functions@.len() - i,
        {
            let ghost e_i = me.errs();
            me.check_function(&program.functions[i]);
            proof {
                assert forall|k: int|
                    0 <= k < i + 1 && moves_param_twice(#[trigger] &program.functions@[k]) implies crate::typechecker::has_custom(
                    me.errs(),
                    "tasinmis deger tekrar kullanildi"@,
                    dl_span(program.functions@[k].body.stmts@),
                ) by {
                    if k < i {
                        crate::typechecker::lemma_has_custom_grows(
                            e_i,
                            me.errs(),
                            "tasinmis deger tekrar kullanildi"@,
                            dl_span(program.functions@[k].body.stmts@),
                        );
                    }
                }
            }
            i = i + 1;
        }
        (me.moves, me.errors)
    }
}

} // verus!
