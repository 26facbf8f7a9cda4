use vstd::prelude::*;
use crate::ast::{
    Block, Expr, Stmt, Type, TypeV, types_view, lemma_types_view, concrete, concrete_seq,
    lemma_concrete_seq_prefix, assoc_view,
};
use crate::symbol::{Interner, Symbol};
use crate::tables::has_key;
use crate::text::{push_str, push_u64, dec};

verus! {

/// Whether two types are compatible: equal, where the error type matches anything.
pub open spec fn tm(a: TypeV, b: TypeV) -> bool
    decreases a, 1nat,
{
    match (a, b) {
        (TypeV::Error, _) => true,
        (_, TypeV::Error) => true,
        (TypeV::I32, TypeV::I32) => true,
        (TypeV::I64, TypeV::I64) => true,
        (TypeV::Bool, TypeV::Bool) => true,
        (TypeV::Str, TypeV::Str) => true,
        (TypeV::Void, TypeV::Void) => true,
        (TypeV::Array(t1, n1), TypeV::Array(t2, n2)) => tm(*t1, *t2) && n1 == n2,
        (TypeV::Struct(s1), TypeV::Struct(s2)) => s1 == s2,
        (TypeV::Box(t1), TypeV::Box(t2)) => tm(*t1, *t2),
        (TypeV::String, TypeV::String) => true,
        (TypeV::Enum(s1, a1), TypeV::Enum(s2, a2)) => s1 == s2 && a1.len() == a2.len() && tm_seq(
            a1,
            a2,
        ),
        (TypeV::Param(p1), TypeV::Param(p2)) => p1 == p2,
        _ => false,
    }
}

/// Pairwise compatibility of two lists of the same length.
pub open spec fn tm_seq(a: Seq<TypeV>, b: Seq<TypeV>) -> bool
    decreases a, 0nat,
{
    if a.len() == 0 {
        true
    } else {
        b.len() > 0 && tm_seq(a.drop_last(), b.drop_last()) && tm(a.last(), b.last())
    }
}

/// No part of the type is the error type.
pub open spec fn error_free(t: TypeV) -> bool
    decreases t,
{
    match t {
        TypeV::Error => false,
        TypeV::Array(e, _) => error_free(*e),
        TypeV::Box(e) => error_free(*e),
        TypeV::Enum(_, args) => forall|i: int| 0 <= i < args.len() ==> error_free(#[trigger] args[i]),
        _ => true,
    }
}

/// Between types with no error part, compatibility is plain equality.
pub proof fn lemma_tm_is_equality(a: TypeV, b: TypeV)
    requires
        error_free(a),
        error_free(b),
    ensures
        tm(a, b) <==> a == b,
    decreases a,
{
    match (a, b) {
        (TypeV::Array(t1, n1), TypeV::Array(t2, n2)) => {
            lemma_tm_is_equality(*t1, *t2);
        },
        (TypeV::Box(t1), TypeV::Box(t2)) => {
            lemma_tm_is_equality(*t1, *t2);
        },
        (TypeV::Enum(s1, a1), TypeV::Enum(s2, a2)) => {
            if a1.len() == a2.len() {
                lemma_tm_seq(a1, a2);
                assert forall|i: int| 0 <= i < a1.len() implies (#[trigger] tm(a1[i], a2[i]) <==> a1[i] == a2[i]) by {
                    lemma_tm_is_equality(a1[i], a2[i]);
                }
                if tm_seq(a1, a2) {
                    assert forall|i: int| 0 <= i < a1.len() implies a1[i] == a2[i] by {
                        assert(tm(a1[i], a2[i]));
                    }
                    assert(a1 =~= a2);
                }
            }
        },
        _ => {},
    }
}

pub proof fn lemma_tm_seq(a: Seq<TypeV>, b: Seq<TypeV>)
    requires
        a.len() == b.len(),
    ensures
        tm_seq(a, b) <==> forall|i: int| 0 <= i < a.len() ==> #[trigger] tm(a[i], b[i]),
    decreases a.len(),
{
    if a.len() > 0 {
        lemma_tm_seq(a.drop_last(), b.drop_last());
        if tm_seq(a, b) {
            assert forall|i: int| 0 <= i < a.len() implies #[trigger] tm(a[i], b[i]) by {
                if i < a.len() - 1 {
                    assert(a.drop_last()[i] == a[i]);
                    assert(b.drop_last()[i] == b[i]);
                }
            }
        }
        if forall|i: int| 0 <= i < a.len() ==> #[trigger] tm(a[i], b[i]) {
            assert forall|i: int| 0 <= i < a.len() - 1 implies #[trigger] tm(
                a.drop_last()[i],
                b.drop_last()[i],
            ) by {
                assert(tm(a[i], b[i]));
            }
            assert(tm(a[a.len() - 1], b[b.len() - 1]));
        }
    }
}

/// Every type is compatible with itself.
pub proof fn lemma_tm_reflexive(t: TypeV)
    ensures
        tm(t, t),
    decreases t, 1nat,
{
    match t {
        TypeV::Array(e, _) => lemma_tm_reflexive(*e),
        TypeV::Box(i) => lemma_tm_reflexive(*i),
        TypeV::Enum(_, args) => lemma_tm_seq_reflexive(args),
        _ => {},
    }
}

pub proof fn lemma_tm_seq_reflexive(ts: Seq<TypeV>)
    ensures
        tm_seq(ts, ts),
    decreases ts, 0nat,
{
    if ts.len() > 0 {
        lemma_tm_seq_reflexive(ts.drop_last());
        lemma_tm_reflexive(ts.last());
    }
}

/// Compatibility does not depend on the order of the two types.
pub proof fn lemma_tm_symmetric(a: TypeV, b: TypeV)
    ensures
        tm(a, b) == tm(b, a),
    decreases a, 1nat,
{
    match (a, b) {
        (TypeV::Array(x, _), TypeV::Array(y, _)) => lemma_tm_symmetric(*x, *y),
        (TypeV::Box(x), TypeV::Box(y)) => lemma_tm_symmetric(*x, *y),
        (TypeV::Enum(_, x), TypeV::Enum(_, y)) => {
            if x.len() == y.len() {
                lemma_tm_seq_symmetric(x, y);
            }
        },
        _ => {},
    }
}

pub proof fn lemma_tm_seq_symmetric(a: Seq<TypeV>, b: Seq<TypeV>)
    requires
        a.len() == b.len(),
    ensures
        tm_seq(a, b) == tm_seq(b, a),
    decreases a, 0nat,
{
    if a.len() > 0 {
        lemma_tm_seq_symmetric(a.drop_last(), b.drop_last());
        lemma_tm_symmetric(a.last(), b.last());
    }
}

/// Whether two types are compatible (the error type is compatible with every type).
pub fn types_match(a: &Type, b: &Type) -> (r: bool)
    ensures
        r == tm(a@, b@),
    decreases a,
{
    match (a, b) {
        (Type::Error, _) => true,
        (_, Type::Error) => true,
        (Type::I32, Type::I32) => true,
        (Type::I64, Type::I64) => true,
        (Type::Bool, Type::Bool) => true,
        (Type::Str, Type::Str) => true,
        (Type::Void, Type::Void) => true,
        (Type::Array(t1, n1), Type::Array(t2, n2)) => types_match(&**t1, &**t2) && *n1 == *n2,
        (Type::Struct(s1), Type::Struct(s2)) => s1.0 == s2.0,
        (Type::Box(t1), Type::Box(t2)) => types_match(&**t1, &**t2),
        (Type::String, Type::String) => true,
        (Type::Enum(s1, a1), Type::Enum(s2, a2)) => {
            proof {
                lemma_types_view(a1@);
                lemma_types_view(a2@);
            }
            s1.0 == s2.0 && a1.len() == a2.len() && all_match(a1, a2)
        },
        (Type::Param(p1), Type::Param(p2)) => p1.0 == p2.0,
        _ => false,
    }
}

fn all_match(a: &Vec<Type>, b: &Vec<Type>) -> (r: bool)
    requires
        a@.len() == b@.len(),
    ensures
        r == tm_seq(types_view(a@), types_view(b@)),
    decreases a,
{
    proof {
        lemma_types_view(a@);
        lemma_types_view(b@);
        lemma_tm_seq(types_view(a@), types_view(b@));
    }
    let mut i: usize = 0;
    while i < a.len()
        invariant
            a@.len() == b@.len(),
            i <= a@.len(),
            forall|j: int| 0 <= j < i ==> #[trigger] tm(a@[j]@, b@[j]@),
        decreases a@.len() - i,
    {
        if !types_match(&a[i], &b[i]) {
            proof {
                lemma_types_view(a@);
                lemma_types_view(b@);
                lemma_tm_seq(types_view(a@), types_view(b@));
                assert(!tm(types_view(a@)[i as int], types_view(b@)[i as int]));
            }
            return false;
        }
        i = i + 1;
    }
    proof {
        lemma_types_view(a@);
        lemma_types_view(b@);
        lemma_tm_seq(types_view(a@), types_view(b@));
        assert forall|j: int| 0 <= j < a@.len() implies #[trigger] tm(
            types_view(a@)[j],
            types_view(b@)[j],
        ) by {
            assert(tm(a@[j]@, b@[j]@));
        }
    }
    true
}

/// Whether a type is a text type (`str` or `String`).
pub open spec fn stringy(t: TypeV) -> bool {
    t is Str || t is String
}

pub fn is_stringy(ty: &Type) -> (r: bool)
    ensures
        r == stringy(ty@),
{
    match ty {
        Type::Str | Type::String => true,
        _ => false,
    }
}

/// Whether every path through the block ends in a `return` (or the block yields a value).
pub open spec fn block_returns<'a>(b: &Block<'a>) -> bool
    decreases b, 0nat,
{
    b.tail is Some || stmts_return(b.stmts@)
}

pub open spec fn stmts_return<'a>(ss: Seq<Stmt<'a>>) -> bool
    decreases ss, 0nat,
{
    if ss.len() == 0 {
        false
    } else {
        stmts_return(ss.drop_last()) || stmt_returns(&ss.last())
    }
}

pub open spec fn stmt_returns<'a>(s: &Stmt<'a>) -> bool
    decreases s, 0nat,
{
    match s {
        Stmt::Return(..) => true,
        Stmt::Expr(e, _) => expr_returns(e),
        _ => false,
    }
}

pub open spec fn expr_returns<'a>(e: &Expr<'a>) -> bool
    decreases e, 0nat,
{
    match e {
        Expr::If { then_body, else_body: Some(eb), .. } => block_returns(&**then_body)
            && block_returns(&**eb),
        Expr::Match { arms, .. } => arms@.len() > 0 && arms_return(arms@),
        _ => false,
    }
}

pub open spec fn arms_return<'a>(arms: Seq<(crate::ast::Pattern, Block<'a>)>) -> bool
    decreases arms, 0nat,
{
    arms.len() == 0 || (arms_return(arms.drop_last()) && block_returns(&arms.last().1))
}

pub fn block_always_returns(block: &Block) -> (r: bool)
    ensures
        r == block_returns(block),
    decreases block,
{
    if block.tail.is_some() {
        return true;
    }
    let mut i: usize = 0;
    while i < block.stmts.len()
        invariant
            i <= block.stmts@.len(),
            !stmts_return(block.stmts@.take(i as int)),
        decreases block.stmts@.len() - i,
    {
        assert(block.stmts@.take(i + 1).drop_last() =~= block.stmts@.take(i as int));
        if stmt_always_returns(&block.stmts[i]) {
            proof {
                lemma_stmts_return_prefix(block.stmts@, i + 1);
            }
            return true;
        }
        i = i + 1;
    }
    assert(block.stmts@.take(block.stmts@.len() as int) =~= block.stmts@);
    false
}

/// A list returns once one of its prefixes does.
proof fn lemma_stmts_return_prefix<'a>(ss: Seq<Stmt<'a>>, k: int)
    requires
        0 <= k <= ss.len(),
        stmts_return(ss.take(k)),
    ensures
        stmts_return(ss),
    decreases ss.len() - k,
{
    if k < ss.len() {
        assert(ss.take(k + 1).drop_last() =~= ss.take(k));
        lemma_stmts_return_prefix(ss, k + 1);
    } else {
        assert(ss.take(k) =~= ss);
    }
}

pub fn stmt_always_returns(stmt: &Stmt) -> (r: bool)
    ensures
        r == stmt_returns(stmt),
    decreases stmt,
{
    match stmt {
        Stmt::Return(..) => true,
        Stmt::Expr(e, _) => expr_always_returns(e),
        _ => false,
    }
}

pub fn expr_always_returns(expr: &Expr) -> (r: bool)
    ensures
        r == expr_returns(expr),
    decreases expr,
{
    match expr {
        Expr::If { then_body, else_body: Some(eb), .. } => {
            block_always_returns(&**then_body) && block_always_returns(&**eb)
        },
        Expr::Match { arms, .. } => arms.len() > 0 && arms_always_return(arms),
        _ => false,
    }
}

fn arms_always_return(arms: &Vec<(crate::ast::Pattern, Block)>) -> (r: bool)
    ensures
        r == arms_return(arms@),
    decreases arms,
{
    let mut i: usize = 0;
    while i < arms.len()
        invariant
            i <= arms@.len(),
            arms_return(arms@.take(i as int)),
        decreases arms@.len() - i,
    {
        assert(arms@.take(i + 1).drop_last() =~= arms@.take(i as int));
        if !block_always_returns(&arms[i].1) {
            proof {
                lemma_arms_return_prefix(arms@, i + 1);
            }
            return false;
        }
        i = i + 1;
    }
    assert(arms@.take(arms@.len() as int) =~= arms@);
    true
}

/// A list of arms that fails on a prefix fails.
proof fn lemma_arms_return_prefix<'a>(arms: Seq<(crate::ast::Pattern, Block<'a>)>, k: int)
    requires
        0 <= k <= arms.len(),
        !arms_return(arms.take(k)),
    ensures
        !arms_return(arms),
    decreases arms.len() - k,
{
    if k < arms.len() {
        assert(arms.take(k + 1).drop_last() =~= arms.take(k));
        lemma_arms_return_prefix(arms, k + 1);
    } else {
        assert(arms.take(k) =~= arms);
    }
}

/// Whether the type holds no type parameter.
pub fn type_is_concrete(ty: &Type) -> (r: bool)
    ensures
        r == concrete(ty@),
    decreases ty,
{
    match ty {
        Type::Param(_) => false,
        Type::Array(elem, _) => type_is_concrete(&**elem),
        Type::Box(inner) => type_is_concrete(&**inner),
        Type::Enum(_, args) => all_concrete(args),
        _ => true,
    }
}

fn all_concrete(ts: &Vec<Type>) -> (r: bool)
    ensures
        r == concrete_seq(types_view(ts@)),
    decreases ts,
{
    let mut i: usize = 0;
    while i < ts.len()
        invariant
            i <= ts@.len(),
            concrete_seq(types_view(ts@.take(i as int))),
        decreases ts@.len() - i,
    {
        let pre = Ghost(ts@.take(i as int));
        let next = Ghost(ts@.take(i + 1));
        proof {
            assert(next@.drop_last() =~= pre@);
            assert(types_view(next@) == types_view(pre@).push(ts@[i as int]@));
            assert(types_view(next@).drop_last() =~= types_view(pre@));
        }
        if !type_is_concrete(&ts[i]) {
            proof {
                lemma_concrete_seq_prefix(ts@, i as int);
            }
            return false;
        }
        i = i + 1;
    }
    assert(ts@.take(ts@.len() as int) =~= ts@);
    true
}

/// `m` after `unify_spec` records the bindings that matching the declared type `d`
/// against the actual type `c` reveals; an existing binding is never replaced.
pub open spec fn unify_spec(d: TypeV, c: TypeV, m: Seq<(Symbol, TypeV)>) -> Seq<(Symbol, TypeV)>
    decreases d, 1nat, 0nat,
{
    match (d, c) {
        (TypeV::Param(p), t) => if !(t is Error) && !has_key(m, p) {
            m.push((p, t))
        } else {
            m
        },
        (TypeV::Array(a, _), TypeV::Array(b, _)) => unify_spec(*a, *b, m),
        (TypeV::Box(a), TypeV::Box(b)) => unify_spec(*a, *b, m),
        (TypeV::Enum(s1, a1), TypeV::Enum(s2, a2)) => if s1 == s2 {
            unify_pairs(a1, a2, min_len(a1.len(), a2.len()), m)
        } else {
            m
        },
        _ => m,
    }
}

pub open spec fn min_len(x: nat, y: nat) -> nat {
    if x <= y {
        x
    } else {
        y
    }
}

/// Unification of the first `n` pairs of two argument lists, in order.
pub open spec fn unify_pairs(a: Seq<TypeV>, b: Seq<TypeV>, n: nat, m: Seq<(Symbol, TypeV)>) -> Seq<
    (Symbol, TypeV),
>
    decreases a, 0nat, n,
{
    if n == 0 || n > a.len() || n > b.len() {
        m
    } else {
        unify_spec(a[n - 1], b[n - 1], unify_pairs(a, b, (n - 1) as nat, m))
    }
}

proof fn lemma_assoc_view_keys(m: Seq<(Symbol, Type)>, p: Symbol)
    ensures
        has_key(assoc_view(m), p) == has_key(m, p),
{
    let v = assoc_view(m);
    if has_key(m, p) {
        let w = choose|w: int| 0 <= w < m.len() && (#[trigger] m[w]).0 == p;
        assert(v[w].0 == p);
    }
    if has_key(v, p) {
        let w = choose|w: int| 0 <= w < v.len() && (#[trigger] v[w]).0 == p;
        assert(m[w].0 == p);
    }
}

/// Records in `map` the type parameters of `def_ty` that `concrete` fixes.
pub fn unify(def_ty: &Type, concrete: &Type, map: &mut Vec<(Symbol, Type)>)
    ensures
        assoc_view(final(map)@) == unify_spec(def_ty@, concrete@, assoc_view(old(map)@)),
    decreases def_ty,
{
    match (def_ty, concrete) {
        (Type::Param(p), t) => {
            let is_err = match t {
                Type::Error => true,
                _ => false,
            };
            proof {
                lemma_assoc_view_keys(map@, *p);
            }
            if !is_err && crate::tables::find_key(map, *p).is_none() {
                let v = t.dup();
                map.push((*p, v));
                assert(assoc_view(map@) =~= assoc_view(old(map)@).push((*p, t@)));
            }
        },
        (Type::Array(a, _), Type::Array(b, _)) => unify(&**a, &**b, map),
        (Type::Box(a), Type::Box(b)) => unify(&**a, &**b, map),
        (Type::Enum(s1, a1), Type::Enum(s2, a2)) => {
            proof {
                lemma_types_view(a1@);
                lemma_types_view(a2@);
            }
            if s1.0 == s2.0 {
                unify_all(a1, a2, map);
            }
        },
        _ => {},
    }
}

fn unify_all(a: &Vec<Type>, b: &Vec<Type>, map: &mut Vec<(Symbol, Type)>)
    ensures
        assoc_view(final(map)@) == unify_pairs(
            types_view(a@),
            types_view(b@),
            min_len(a@.len(), b@.len()),
            assoc_view(old(map)@),
        ),
    decreases a,
{
    let ghost m0 = assoc_view(map@);
    proof {
        lemma_types_view(a@);
        lemma_types_view(b@);
    }
    let n = if a.len() <= b.len() {
        a.len()
    } else {
        b.len()
    };
    let mut i: usize = 0;
    while i < n
        invariant
            n == min_len(a@.len(), b@.len()),
            i <= n,
            types_view(a@).len() == a@.len(),
            types_view(b@).len() == b@.len(),
            forall|j: int| 0 <= j < a@.len() ==> #[trigger] types_view(a@)[j] == a@[j]@,
            forall|j: int| 0 <= j < b@.len() ==> #[trigger] types_view(b@)[j] == b@[j]@,
            assoc_view(map@) == unify_pairs(types_view(a@), types_view(b@), i as nat, m0),
        decreases n - i,
    {
        unify(&a[i], &b[i], map);
        assert(types_view(a@)[i as int] == a@[i as int]@);
        assert(types_view(b@)[i as int] == b@[i as int]@);
        i = i + 1;
    }
}

/// The text of a name, or nothing when the interner does not know the symbol.
pub open spec fn name_text(names: Seq<Seq<char>>, s: Symbol) -> Seq<char> {
    if (s.0 as int) < names.len() {
        names[s.0 as int]
    } else {
        Seq::empty()
    }
}

/// How a type is written in messages.
pub open spec fn type_text(t: TypeV, names: Seq<Seq<char>>) -> Seq<char>
    decreases t, 1nat,
{
    match t {
        TypeV::I32 => "i32"@,
        TypeV::I64 => "i64"@,
        TypeV::Bool => "bool"@,
        TypeV::Void => "void"@,
        TypeV::Str => "str"@,
        TypeV::Array(elem, n) => "["@ + type_text(*elem, names) + "; "@ + dec(n as nat) + "]"@,
        TypeV::Struct(s) => name_text(names, s),
        TypeV::Box(inner) => "Box<"@ + type_text(*inner, names) + ">"@,
        TypeV::String => "String"@,
        TypeV::Enum(s, args) => if args.len() == 0 {
            name_text(names, s)
        } else {
            name_text(names, s) + "<"@ + args_text(args, names) + ">"@
        },
        TypeV::Param(p) => name_text(names, p),
        TypeV::Error => "<hata>"@,
    }
}

/// Type arguments, separated by `, `.
pub open spec fn args_text(ts: Seq<TypeV>, names: Seq<Seq<char>>) -> Seq<char>
    decreases ts, 0nat,
{
    if ts.len() == 0 {
        Seq::empty()
    } else if ts.len() == 1 {
        type_text(ts[0], names)
    } else {
        args_text(ts.drop_last(), names) + ", "@ + type_text(ts.last(), names)
    }
}

pub fn push_name(out: &mut String, s: Symbol, names: &Interner)
    ensures
        final(out)@ == old(out)@ + name_text(names@, s),
{
    if (s.0 as usize) < names.len() {
        push_str(out, names.resolve(s));
    } else {
        assert(old(out)@ =~= old(out)@ + Seq::<char>::empty());
    }
}

/// Appends the text of `ty` to `out`.
pub fn write_type(out: &mut String, ty: &Type, names: &Interner)
    ensures
        final(out)@ == old(out)@ + type_text(ty@, names@),
    decreases ty,
{
    match ty {
        Type::I32 => push_str(out, "i32"),
        Type::I64 => push_str(out, "i64"),
        Type::Bool => push_str(out, "bool"),
        Type::Void => push_str(out, "void"),
        Type::Str => push_str(out, "str"),
        Type::Array(elem, n) => {
            push_str(out, "[");
            write_type(out, &**elem, names);
            push_str(out, "; ");
            push_u64(out, *n as u64);
            push_str(out, "]");
            assert(final(out)@ =~= old(out)@ + type_text(ty@, names@));
        },
        Type::Struct(s) => push_name(out, *s, names),
        Type::Box(inner) => {
            push_str(out, "Box<");
            write_type(out, &**inner, names);
            push_str(out, ">");
            assert(final(out)@ =~= old(out)@ + type_text(ty@, names@));
        },
        Type::String => push_str(out, "String"),
        Type::Enum(s, args) => {
            push_name(out, *s, names);
            proof {
                lemma_types_view(args@);
            }
            if args.len() > 0 {
                push_str(out, "<");
                write_args(out, args, names);
                push_str(out, ">");
                assert(final(out)@ =~= old(out)@ + type_text(ty@, names@));
            }
        },
        Type::Param(p) => push_name(out, *p, names),
        Type::Error => push_str(out, "<hata>"),
    }
}

fn write_args(out: &mut String, ts: &Vec<Type>, names: &Interner)
    ensures
        final(out)@ == old(out)@ + args_text(types_view(ts@), names@),
    decreases ts,
{
    let ghost base = out@;
    let mut i: usize = 0;
    assert(types_view(ts@.take(0)) =~= Seq::<TypeV>::empty());
    while i < ts.len()
        invariant
            i <= ts@.len(),
            out@ == base + args_text(types_view(ts@.take(i as int)), names@),
        decreases ts@.len() - i,
    {
        let ghost pre = ts@.take(i as int);
        let ghost next = ts@.take(i + 1);
        proof {
            assert(next.drop_last() =~= pre);
            assert(types_view(next) == types_view(pre).push(ts@[i as int]@));
            lemma_types_view(pre);
            assert(types_view(next).drop_last() =~= types_view(pre));
        }
        if i > 0 {
            push_str(out, ", ");
        }
        write_type(out, &ts[i], names);
        proof {
            if i == 0 {
                assert(types_view(next)[0] == ts@[0]@);
            }
            assert(out@ =~= base + args_text(types_view(next), names@));
        }
        i = i + 1;
    }
    assert(ts@.take(ts@.len() as int) =~= ts@);
}

} // verus!
