use vstd::prelude::*;
use std::collections::HashMap;
use crate::ast::{
    Block, BinaryOperator, EnumDef, Expr, ExprId, Function, Pattern, Program, Stmt, StructDef,
    Type, TypeV, UnaryOperator, assoc_view, concrete, concrete_seq, expr_id, expr_span,
    lemma_types_view, subst_seq, substitute_types, types_view,
};
use crate::error::LexoraError;
use crate::span::Span;
use crate::suggest::{nearest, lev, threshold};
use crate::symbol::{Interner, Symbol};
use crate::tables::{
    SymbolTable, find_key, first_index, has_key, keys_distinct, lemma_first_index, lemma_tbl_push,
    scope_find, scopes_lookup, scopes_names, tbl_get,
};
use crate::text::{push_str, push_u64, str_eq, to_string};
use crate::parser::{arms_ids, block_ids, expr_ids, exprs_ids, fields_ids, functions_ids, program_ids, stmt_ids, stmts_ids};
use crate::typing::{
    block_always_returns, is_stringy, name_text, push_name, stringy, tm, type_is_concrete,
    type_text, types_match, unify, write_type,
};

verus! {

broadcast use vstd::std_specs::hash::group_hash_axioms;

/// A function's parameter types and return type.
pub type FnSig = (Vec<Type>, Type);

/// An enum's type parameters and variants.
pub type EnumInfo = (Vec<Symbol>, Vec<(Symbol, Vec<Type>)>);

/// A concrete instantiation of a generic enum and its substituted variants.
pub type Instance = ((Symbol, Vec<Type>), Vec<(Symbol, Vec<Type>)>);

/// The static checker: names, types, returns and generic instantiations.
pub struct TypeChecker<'i> {
    variables: SymbolTable<Type>,
    functions: Vec<(Symbol, FnSig)>,
    structs: Vec<(Symbol, Vec<(Symbol, Type)>)>,
    interner: &'i Interner,
    /// The type found for each expression, by its id.
    pub types: HashMap<ExprId, Type>,
    enums: Vec<(Symbol, EnumInfo)>,
    /// Every concrete generic enum type the program uses, with its variants.
    pub instances: Vec<Instance>,
    errors: Vec<LexoraError>,
    loop_vars: Vec<Symbol>,
    cur_ret: Type,
}

/// The variants of an enum, by value.
pub open spec fn variants_view(v: Seq<(Symbol, Vec<Type>)>) -> Seq<(Symbol, Seq<TypeV>)> {
    v.map_values(|p: (Symbol, Vec<Type>)| (p.0, types_view(p.1@)))
}

/// Type parameters paired with type arguments, as far as both go.
pub open spec fn zip_params(params: Seq<Symbol>, args: Seq<TypeV>) -> Seq<(Symbol, TypeV)> {
    Seq::new(
        if params.len() <= args.len() {
            params.len()
        } else {
            args.len()
        },
        |i: int| (params[i], args[i]),
    )
}

/// Variants with the type parameters replaced through `m`.
pub open spec fn subst_variants(v: Seq<(Symbol, Seq<TypeV>)>, m: Seq<(Symbol, TypeV)>) -> Seq<
    (Symbol, Seq<TypeV>),
> {
    v.map_values(|p: (Symbol, Seq<TypeV>)| (p.0, subst_seq(p.1, m)))
}

/// The variants of enum `sym` instantiated with `args`; a non-generic enum,
/// or one used without arguments, keeps its declared variants.
pub open spec fn variants_for(enums: Seq<(Symbol, EnumInfo)>, sym: Symbol, args: Seq<TypeV>) -> Option<
    Seq<(Symbol, Seq<TypeV>)>,
> {
    match tbl_get(enums, sym) {
        None => None,
        Some(info) => if info.0@.len() == 0 || args.len() == 0 {
            Some(variants_view(info.1@))
        } else {
            Some(subst_variants(variants_view(info.1@), zip_params(info.0@, args)))
        },
    }
}

/// The first variant whose name reads `text`.
pub open spec fn named_variant(
    vs: Seq<(Symbol, Seq<TypeV>)>,
    names: Seq<Seq<char>>,
    text: Seq<char>,
) -> Option<Seq<TypeV>>
    decreases vs.len(),
{
    if vs.len() == 0 {
        None
    } else if name_text(names, vs[0].0) == text {
        Some(vs[0].1)
    } else {
        named_variant(vs.drop_first(), names, text)
    }
}

/// The payload types of `Ok` and `Err` when `sym<args>` is a two-variant
/// enum with one-field variants named `Ok` and `Err`.
pub open spec fn result_parts_spec(
    enums: Seq<(Symbol, EnumInfo)>,
    names: Seq<Seq<char>>,
    sym: Symbol,
    args: Seq<TypeV>,
) -> Option<(TypeV, TypeV)> {
    match variants_for(enums, sym, args) {
        None => None,
        Some(vs) => if vs.len() != 2 {
            None
        } else {
            match (named_variant(vs, names, "Ok"@), named_variant(vs, names, "Err"@)) {
                (Some(ok), Some(err)) => if ok.len() == 1 && err.len() == 1 {
                    Some((ok[0], err[0]))
                } else {
                    None
                },
                _ => None,
            }
        },
    }
}

/// Whether `cand` may be suggested for `target`: another name within the
/// edit-distance threshold.
pub open spec fn near_text(target: Seq<char>, cand: Seq<char>) -> bool {
    cand != target && lev(target, cand) <= threshold(target)
}

/// `r` is no suggestion exactly when no candidate is near `target`, and
/// otherwise the text of a candidate that is.
pub open spec fn suggestion_from(r: Option<String>, target: Seq<char>, cands: Seq<Seq<char>>) -> bool {
    &&& (r is None <==> forall|k: int| 0 <= k < cands.len() ==> !near_text(target, #[trigger] cands[k]))
    &&& (r matches Some(s) ==> exists|k: int|
        0 <= k < cands.len() && near_text(target, #[trigger] cands[k]) && s@ == cands[k])
}

proof fn lemma_suggestion(r: Option<String>, target: Seq<char>, strs: Seq<&str>, texts: Seq<Seq<char>>)
    requires
        strs.len() == texts.len(),
        forall|j: int| 0 <= j < strs.len() ==> (#[trigger] strs[j])@ == texts[j],
        r is None <==> forall|k: int| 0 <= k < strs.len() ==> !crate::suggest::eligible(target, #[trigger] strs[k]),
        r matches Some(s) ==> exists|k: int|
            0 <= k < strs.len() && crate::suggest::eligible(target, #[trigger] strs[k]) && s@ == strs[k]@,
    ensures
        suggestion_from(r, target, texts),
{
    assert forall|k: int| 0 <= k < strs.len() implies (crate::suggest::eligible(target, strs[k]) <==> near_text(
        target,
        #[trigger] texts[k],
    )) by {
        assert(strs[k]@ == texts[k]);
    }
    if r is None {
        assert forall|k: int| 0 <= k < texts.len() implies !near_text(target, #[trigger] texts[k]) by {
            assert(!crate::suggest::eligible(target, strs[k]));
        }
    } else {
        let k = choose|k: int| 0 <= k < strs.len() && crate::suggest::eligible(target, #[trigger] strs[k]) && r->Some_0@ == strs[k]@;
        assert(near_text(target, texts[k]));
        if forall|k2: int| 0 <= k2 < texts.len() ==> !near_text(target, #[trigger] texts[k2]) {
            assert(!near_text(target, texts[k]));
        }
    }
}

/// `b` begins with all of `a`: a log that only ever grows.
pub open spec fn grows<T>(a: Seq<T>, b: Seq<T>) -> bool {
    a.len() <= b.len() && forall|i: int| 0 <= i < a.len() ==> #[trigger] b[i] == a[i]
}

pub proof fn lemma_grows_trans<T>(a: Seq<T>, b: Seq<T>, c: Seq<T>)
    requires
        grows(a, b),
        grows(b, c),
    ensures
        grows(a, c),
{
}

pub proof fn lemma_grows_refl<T>(a: Seq<T>)
    ensures
        grows(a, a),
{
}

pub proof fn lemma_grows_push<T>(a: Seq<T>, x: T)
    ensures
        grows(a, a.push(x)),
{
    assert forall|i: int| 0 <= i < a.len() implies #[trigger] a.push(x)[i] == a[i] by {}
}

/// Whether `sym<args>` is recorded as an instance.
pub open spec fn has_instance(insts: Seq<Instance>, sym: Symbol, args: Seq<TypeV>) -> bool {
    exists|i: int|
        0 <= i < insts.len() && (#[trigger] insts[i]).0.0 == sym && types_view(insts[i].0.1@)
            == args
}

/// The recorded instances are a prefix of `b`'s.
pub open spec fn insts_grow(a: Seq<Instance>, b: Seq<Instance>) -> bool {
    grows(a, b)
}

impl<'i> TypeChecker<'i> {
    pub closed spec fn errs(&self) -> Seq<LexoraError> {
        self.errors@
    }

    pub closed spec fn vars(&self) -> Seq<Seq<(Symbol, Type)>> {
        self.variables@
    }

    pub closed spec fn fns(&self) -> Seq<(Symbol, FnSig)> {
        self.functions@
    }

    pub closed spec fn strs(&self) -> Seq<(Symbol, Vec<(Symbol, Type)>)> {
        self.structs@
    }

    pub closed spec fn enum_tbl(&self) -> Seq<(Symbol, EnumInfo)> {
        self.enums@
    }

    pub closed spec fn names(&self) -> Seq<Seq<char>> {
        self.interner@
    }

    pub closed spec fn loops(&self) -> Seq<Symbol> {
        self.loop_vars@
    }

    pub closed spec fn ret_ty(&self) -> TypeV {
        self.cur_ret@
    }

    /// The contents of `types`: the type found for each expression id.
    pub closed spec fn recorded(&self) -> Map<ExprId, Type> {
        self.types@
    }


    pub closed spec fn insts(&self) -> Seq<Instance> {
        self.instances@
    }

    /// The tables that checking only reads.
    pub closed spec fn same_tables(&self, other: &TypeChecker) -> bool {
        &&& self.functions@ == other.functions@
        &&& self.structs@ == other.structs@
        &&& self.enums@ == other.enums@
        &&& self.interner@ == other.interner@
    }

    /// The enclosing function's return type and loop variables are the same.
    pub closed spec fn same_context(&self, other: &TypeChecker) -> bool {
        &&& self.loop_vars@ == other.loop_vars@
        &&& self.cur_ret@ == other.cur_ret@
    }

    /// The type found for each expression, by its id.
    pub fn types_map(&self) -> (r: &HashMap<ExprId, Type>)
        ensures
            r@ == self.recorded(),
    {
        &self.types
    }

    pub fn new(interner: &'i Interner) -> (r: Self)
        ensures
            r.errs() == Seq::<LexoraError>::empty(),
            r.vars() == Seq::<Seq<(Symbol, Type)>>::empty(),
            r.fns() == Seq::<(Symbol, FnSig)>::empty(),
            r.strs() == Seq::<(Symbol, Vec<(Symbol, Type)>)>::empty(),
            r.enum_tbl() == Seq::<(Symbol, EnumInfo)>::empty(),
            r.insts() == Seq::<Instance>::empty(),
            r.names() == interner@,
            r.recorded() == Map::<ExprId, Type>::empty(),
            r.loops() == Seq::<Symbol>::empty(),
            r.ret_ty() == TypeV::Void,
    {
        TypeChecker {
            variables: SymbolTable::new(),
            functions: Vec::new(),
            structs: Vec::new(),
            interner,
            types: HashMap::new(),
            enums: Vec::new(),
            instances: Vec::new(),
            errors: Vec::new(),
            loop_vars: Vec::new(),
            cur_ret: Type::Void,
        }
    }

    /// The text of a symbol (empty when the interner does not know it).
    fn name_str(&self, sym: Symbol) -> (r: &'i str)
        ensures
            r@ == name_text(self.names(), sym),
    {
        if (sym.0 as usize) < self.interner.len() {
            self.interner.resolve(sym)
        } else {
            proof {
                reveal_strlit("");
            }
            ""
        }
    }

    fn resolve(&self, sym: Symbol) -> (r: String)
        ensures
            r@ == name_text(self.names(), sym),
    {
        to_string(self.name_str(sym))
    }

    /// How `ty` is written in messages.
    fn format_type(&self, ty: &Type) -> (r: String)
        ensures
            r@ == type_text(ty@, self.names()),
    {
        let mut s = String::new();
        write_type(&mut s, ty, self.interner);
        assert(s@ =~= type_text(ty@, self.names()));
        s
    }

    /// A variable in scope whose name is close to `target`'s.
    fn nearest_var(&self, target: Symbol) -> (r: Option<String>)
        ensures
            suggestion_from(
                r,
                name_text(self.names(), target),
                scopes_names(self.vars()).map_values(|q: Symbol| name_text(self.names(), q)),
            ),
    {
        let name = self.name_str(target);
        let syms = self.variables.names();
        let ghost texts = syms@.map_values(|q: Symbol| name_text(self.names(), q));
        let mut cands: Vec<&str> = Vec::new();
        let mut i: usize = 0;
        while i < syms.len()
            invariant
                i <= syms@.len(),
                cands@.len() == i,
                texts == syms@.map_values(|q: Symbol| name_text(self.names(), q)),
                forall|j: int| 0 <= j < i ==> (#[trigger] cands@[j])@ == texts[j],
            decreases syms@.len() - i,
        {
            cands.push(self.name_str(syms[i]));
            i = i + 1;
        }
        let r = nearest(name, cands.as_slice());
        proof {
            lemma_suggestion(r, name@, cands@, texts);
        }
        r
    }

    /// A function, user-defined or built in, whose name is close to `target`'s.
    fn nearest_fn(&self, target: Symbol) -> (r: Option<String>)
        ensures
            suggestion_from(
                r,
                name_text(self.names(), target),
                self.fns().map_values(|p: (Symbol, FnSig)| name_text(self.names(), p.0)) + seq![
                    "print"@,
                    "string"@,
                    "len"@,
                ],
            ),
    {
        let name = self.name_str(target);
        let ghost texts = self.fns().map_values(|p: (Symbol, FnSig)| name_text(self.names(), p.0)) + seq![
            "print"@,
            "string"@,
            "len"@,
        ];
        let mut cands: Vec<&str> = Vec::new();
        let mut i: usize = 0;
        while i < self.functions.len()
            invariant
                i <= self.fns().len(),
                cands@.len() == i,
                texts == self.fns().map_values(|p: (Symbol, FnSig)| name_text(self.names(), p.0)) + seq![
                    "print"@,
                    "string"@,
                    "len"@,
                ],
                forall|j: int| 0 <= j < i ==> (#[trigger] cands@[j])@ == texts[j],
            decreases self.functions@.len() - i,
        {
            assert(self.fns()[i as int] == self.functions@[i as int]);
            cands.push(self.name_str(self.functions[i].0));
            i = i + 1;
        }
        cands.push("print");
        cands.push("string");
        cands.push("len");
        let r = nearest(name, cands.as_slice());
        proof {
            let n: int = self.fns().len() as int;
            assert(texts[n] == "print"@);
            assert(texts[n + 1] == "string"@);
            assert(texts[n + 2] == "len"@);
            assert forall|j: int| 0 <= j < cands@.len() implies (#[trigger] cands@[j])@ == texts[j] by {
                if j < n {
                } else if j == n {
                } else if j == n + 1 {
                } else {
                }
            }
            lemma_suggestion(r, name@, cands@, texts);
        }
        r
    }

    /// A field of the struct whose name is close to `target`'s.
    fn nearest_field(&self, target: Symbol, fields: &Vec<(Symbol, Type)>) -> (r: Option<String>)
        ensures
            suggestion_from(
                r,
                name_text(self.names(), target),
                fields@.map_values(|p: (Symbol, Type)| name_text(self.names(), p.0)),
            ),
    {
        let name = self.name_str(target);
        let ghost texts = fields@.map_values(|p: (Symbol, Type)| name_text(self.names(), p.0));
        let mut cands: Vec<&str> = Vec::new();
        let mut i: usize = 0;
        while i < fields.len()
            invariant
                i <= fields@.len(),
                cands@.len() == i,
                texts == fields@.map_values(|p: (Symbol, Type)| name_text(self.names(), p.0)),
                forall|j: int| 0 <= j < i ==> (#[trigger] cands@[j])@ == texts[j],
            decreases fields@.len() - i,
        {
            cands.push(self.name_str(fields[i].0));
            i = i + 1;
        }
        let r = nearest(name, cands.as_slice());
        proof {
            lemma_suggestion(r, name@, cands@, texts);
        }
        r
    }

    /// The variants of `sym` instantiated with `args`.
    fn enum_variants_for(&self, sym: Symbol, args: &Vec<Type>) -> (r: Option<
        Vec<(Symbol, Vec<Type>)>,
    >)
        ensures
            match r {
                Some(v) => variants_for(self.enum_tbl(), sym, types_view(args@)) == Some(
                    variants_view(v@),
                ),
                None => variants_for(self.enum_tbl(), sym, types_view(args@)) is None,
            },
    {
        lookup_variants(&self.enums, sym, args)
    }
}

/// The variants of enum `sym` of the table, instantiated with `args`.
pub fn lookup_variants(enums: &Vec<(Symbol, EnumInfo)>, sym: Symbol, args: &Vec<Type>) -> (r: Option<
    Vec<(Symbol, Vec<Type>)>,
>)
    ensures
        match r {
            Some(v) => variants_for(enums@, sym, types_view(args@)) == Some(variants_view(v@)),
            None => variants_for(enums@, sym, types_view(args@)) is None,
        },
{
    proof {
        lemma_types_view(args@);
    }
    let k = match find_key(enums, sym) {
        Some(k) => k,
        None => {
            return None;
        },
    };
    let params = &enums[k].1.0;
    let variants = &enums[k].1.1;
    if params.len() == 0 || args.len() == 0 {
        return Some(dup_variants(variants));
    }
    let mut map: Vec<(Symbol, Type)> = Vec::new();
    let n = if params.len() <= args.len() {
        params.len()
    } else {
        args.len()
    };
    let mut i: usize = 0;
    while i < n
        invariant
            i <= n,
            n <= params@.len(),
            n <= args@.len(),
            types_view(args@).len() == args@.len(),
            forall|j: int| 0 <= j < args@.len() ==> #[trigger] types_view(args@)[j] == args@[j]@,
            map@.len() == i,
            assoc_view(map@) == zip_params(params@, types_view(args@)).take(i as int),
        decreases n - i,
    {
        let ghost before = map@;
        let t = args[i].dup();
        map.push((params[i], t));
        proof {
            let z = zip_params(params@, types_view(args@));
            assert(assoc_view(map@).len() == i + 1);
            assert forall|k: int| 0 <= k < i + 1 implies #[trigger] assoc_view(map@)[k] == z.take(
                i + 1,
            )[k] by {
                if k < i {
                    assert(map@[k] == before[k]);
                    assert(assoc_view(before)[k] == z.take(i as int)[k]);
                } else {
                    assert(map@[k] == (params@[i as int], t));
                    assert(types_view(args@)[i as int] == args@[i as int]@);
                }
            }
            assert(assoc_view(map@) =~= z.take(i + 1));
        }
        i = i + 1;
    }
    assert(zip_params(params@, types_view(args@)).take(n as int) =~= zip_params(
        params@,
        types_view(args@),
    ));
    let mut out: Vec<(Symbol, Vec<Type>)> = Vec::new();
    let ghost m = assoc_view(map@);
    let mut j: usize = 0;
    while j < variants.len()
        invariant
            j <= variants@.len(),
            m == assoc_view(map@),
            out@.len() == j,
            variants_view(out@) == subst_variants(variants_view(variants@), m).take(j as int),
        decreases variants@.len() - j,
    {
        let ftys = substitute_types(&variants[j].1, &map);
        let ghost before = out@;
        out.push((variants[j].0, ftys));
        proof {
            let z = subst_variants(variants_view(variants@), m);
            assert forall|k: int| 0 <= k < j + 1 implies #[trigger] variants_view(out@)[k]
                == z.take(j + 1)[k] by {
                if k < j {
                    assert(out@[k] == before[k]);
                    assert(variants_view(before)[k] == z.take(j as int)[k]);
                }
            }
            assert(variants_view(out@) =~= z.take(j + 1));
        }
        j = j + 1;
    }
    assert(subst_variants(variants_view(variants@), m).take(variants@.len() as int)
        =~= subst_variants(variants_view(variants@), m));
    Some(out)
}

/// A copy of a list of variants.
pub fn dup_variants(v: &Vec<(Symbol, Vec<Type>)>) -> (r: Vec<(Symbol, Vec<Type>)>)
    ensures
        variants_view(r@) == variants_view(v@),
{
    let mut out: Vec<(Symbol, Vec<Type>)> = Vec::new();
    let mut i: usize = 0;
    while i < v.len()
        invariant
            i <= v@.len(),
            out@.len() == i,
            variants_view(out@) == variants_view(v@).take(i as int),
        decreases v@.len() - i,
    {
        let ghost before = out@;
        out.push((v[i].0, crate::ast::dup_types(&v[i].1)));
        proof {
            assert forall|k: int| 0 <= k < i + 1 implies #[trigger] variants_view(out@)[k]
                == variants_view(v@).take(i + 1)[k] by {
                if k < i {
                    assert(out@[k] == before[k]);
                    assert(variants_view(before)[k] == variants_view(v@).take(i as int)[k]);
                }
            }
            assert(variants_view(out@) =~= variants_view(v@).take(i + 1));
        }
        i = i + 1;
    }
    assert(variants_view(v@).take(v@.len() as int) =~= variants_view(v@));
    out
}

/// Whether a chain of struct fields (looking through arrays, at most `n`
/// structs deep) leads from a value of type `t` back to struct `root`.
pub open spec fn leads_to(
    strs: Seq<(Symbol, Vec<(Symbol, Type)>)>,
    t: TypeV,
    root: Symbol,
    n: nat,
) -> bool
    decreases n, t,
{
    match t {
        TypeV::Struct(s) => s == root || (n > 0 && match tbl_get(strs, s) {
            Some(fields) => exists|i: int|
                0 <= i < fields@.len() && leads_to(strs, (#[trigger] fields@[i]).1@, root, (n - 1) as nat),
            None => false,
        }),
        TypeV::Array(e, _) => leads_to(strs, *e, root, n),
        _ => false,
    }
}

/// Whether a value of type `t` holds a `root` in place: `root` itself or
/// an array of it, at any depth.
pub open spec fn holds_directly(t: TypeV, root: Symbol) -> bool
    decreases t,
{
    match t {
        TypeV::Struct(s) => s == root,
        TypeV::Array(e, _) => holds_directly(*e, root),
        _ => false,
    }
}

/// A struct leads to `root` when one of its fields does, one level shallower.
proof fn lemma_leads_through_field(
    strs: Seq<(Symbol, Vec<(Symbol, Type)>)>,
    s: Symbol,
    root: Symbol,
    n: nat,
    fields: Vec<(Symbol, Type)>,
    j: int,
)
    requires
        n > 0,
        tbl_get(strs, s) == Some(fields),
        0 <= j < fields@.len(),
        leads_to(strs, fields@[j].1@, root, (n - 1) as nat),
    ensures
        leads_to(strs, TypeV::Struct(s), root, n),
{
    let m = (n - 1) as nat;
    assert(exists|i: int| 0 <= i < fields@.len() && leads_to(strs, (#[trigger] fields@[i]).1@, root, m));
    let g = tbl_get(strs, s);
    assert(g is Some);
    assert(g->0 == fields);
    assert(g->0@ == fields@);
    assert(exists|i: int| 0 <= i < g->0@.len() && leads_to(strs, (#[trigger] g->0@[i]).1@, root, m));
    assert(n > 0 && match tbl_get(strs, s) {
        Some(fs) => exists|i: int| 0 <= i < fs@.len() && leads_to(strs, (#[trigger] fs@[i]).1@, root, m),
        None => false,
    });
}

/// Whether `t` is a concrete instantiation, with the declared number of
/// arguments, of a generic enum.
pub open spec fn wants_instance(enums: Seq<(Symbol, EnumInfo)>, t: TypeV, fuel: nat) -> bool {
    match t {
        TypeV::Enum(sym, args) => args.len() > 0 && concrete_seq(args) && fuel > 0 && match tbl_get(
            enums,
            sym,
        ) {
            Some(info) => info.0@.len() == args.len(),
            None => false,
        },
        _ => false,
    }
}

pub proof fn lemma_has_instance_grows(a: Seq<Instance>, b: Seq<Instance>, sym: Symbol, args: Seq<TypeV>)
    requires
        grows(a, b),
        has_instance(a, sym, args),
    ensures
        has_instance(b, sym, args),
{
    let i = choose|i: int|
        0 <= i < a.len() && (#[trigger] a[i]).0.0 == sym && types_view(a[i].0.1@) == args;
    assert(b[i] == a[i]);
}

impl<'i> TypeChecker<'i> {
    /// The position of the variant named `text` in `vs`.
    fn find_variant(&self, vs: &Vec<(Symbol, Vec<Type>)>, text: &str) -> (r: Option<usize>)
        ensures
            match r {
                Some(i) => i < vs@.len() && named_variant(variants_view(vs@), self.names(), text@)
                    == Some(types_view(vs@[i as int].1@)),
                None => named_variant(variants_view(vs@), self.names(), text@) is None,
            },
    {
        let ghost vv = variants_view(vs@);
        let mut i: usize = 0;
        assert(vv.skip(0) =~= vv);
        while i < vs.len()
            invariant
                i <= vs@.len(),
                vv == variants_view(vs@),
                named_variant(vv, self.names(), text@) == named_variant(vv.skip(i as int), self.names(), text@),
            decreases vs@.len() - i,
        {
            assert(vv.skip(i as int)[0] == vv[i as int]);
            assert(vv.skip(i as int).drop_first() =~= vv.skip(i + 1));
            if str_eq(self.name_str(vs[i].0), text) {
                return Some(i);
            }
            i = i + 1;
        }
        None
    }

    /// The `Ok` and `Err` payload types of a `Result`-shaped enum.
    fn result_parts(&self, sym: Symbol, args: &Vec<Type>) -> (r: Option<(Type, Type)>)
        ensures
            match r {
                Some(p) => result_parts_spec(self.enum_tbl(), self.names(), sym, types_view(args@))
                    == Some((p.0@, p.1@)),
                None => result_parts_spec(self.enum_tbl(), self.names(), sym, types_view(args@)) is None,
            },
    {
        let variants = match self.enum_variants_for(sym, args) {
            Some(v) => v,
            None => {
                return None;
            },
        };
        if variants.len() != 2 {
            return None;
        }
        let ok = match self.find_variant(&variants, "Ok") {
            Some(i) => i,
            None => {
                return None;
            },
        };
        let err = match self.find_variant(&variants, "Err") {
            Some(i) => i,
            None => {
                return None;
            },
        };
        proof {
            lemma_types_view(variants@[ok as int].1@);
            lemma_types_view(variants@[err as int].1@);
        }
        if variants[ok].1.len() != 1 || variants[err].1.len() != 1 {
            return None;
        }
        Some((variants[ok].1[0].dup(), variants[err].1[0].dup()))
    }

    /// Whether a field of type `ty` makes struct `root` contain itself.
    /// `seen` holds the structs already explored; `fuel` bounds the depth.
    fn struct_cycle(&self, root: Symbol, ty: &Type, seen: &mut Vec<Symbol>, fuel: u32) -> (r: bool)
        ensures
            r ==> leads_to(self.strs(), ty@, root, fuel as nat),
            holds_directly(ty@, root) ==> r,
        decreases fuel, ty,
    {
        match ty {
            Type::Struct(s) => {
                if s.0 == root.0 {
                    return true;
                }
                let mut i: usize = 0;
                while i < seen.len()
                    invariant
                        !holds_directly(ty@, root),
                    decreases seen@.len() - i,
                {
                    if seen[i].0 == s.0 {
                        return false;
                    }
                    i = i + 1;
                }
                seen.push(*s);
                if fuel == 0 {
                    return false;
                }
                match find_key(&self.structs, *s) {
                    Some(k) => {
                        let fields = &self.structs[k].1;
                        let mut j: usize = 0;
                        while j < fields.len()
                            invariant
                                fuel > 0,
                                j <= fields@.len(),
                                ty@ == TypeV::Struct(*s),
                                tbl_get(self.strs(), *s) == Some(*fields),
                            decreases fields@.len() - j,
                        {
                            if self.struct_cycle(root, &fields[j].1, seen, fuel - 1) {
                                proof {
                                    lemma_leads_through_field(self.strs(), *s, root, fuel as nat, *fields, j as int);
                                }
                                return true;
                            }
                            j = j + 1;
                        }
                        false
                    },
                    None => false,
                }
            },
            Type::Array(elem, _) => self.struct_cycle(root, &**elem, seen, fuel),
            _ => false,
        }
    }

    /// Checks the enum types inside `ty`: arity, and the variants of each
    /// concrete instantiation. `fuel` bounds the nesting of instantiations.
    fn validate_type(&mut self, ty: &Type, span: Span, fuel: u32)
        ensures
            grows(old(self).errs(), final(self).errs()),
            insts_grow(old(self).insts(), final(self).insts()),
            final(self).same_tables(old(self)),
            final(self).same_context(old(self)),
            final(self).vars() == old(self).vars(),
            final(self).recorded() == old(self).recorded(),
            final(self).names() == old(self).names(),
            wants_instance(old(self).enum_tbl(), ty@, fuel as nat) ==> has_instance(
                final(self).insts(),
                ty@->Enum_0,
                ty@->Enum_1,
            ),
        decreases fuel, 1nat, ty,
    {
        proof {
            lemma_grows_refl(self.errs());
            lemma_grows_refl(self.insts());
        }
        match ty {
            Type::Array(elem, _) => self.validate_type(&**elem, span, fuel),
            Type::Box(inner) => self.validate_type(&**inner, span, fuel),
            Type::Enum(sym, args) => {
                self.validate_all(args, span, fuel);
                let ghost e1 = self.errs();
                let ghost n1 = self.insts();
                let params_len = match find_key(&self.enums, *sym) {
                    Some(k) => self.enums[k].1.0.len(),
                    None => {
                        return;
                    },
                };
                proof {
                    lemma_types_view(args@);
                }
                if args.len() != params_len {
                    let name = self.resolve(*sym);
                    let mut msg = String::new();
                    push_str(&mut msg, "'");
                    push_str(&mut msg, name.as_str());
                    push_str(&mut msg, "' ");
                    push_u64(&mut msg, params_len as u64);
                    push_str(&mut msg, " tip parametresi bekliyor, ");
                    push_u64(&mut msg, args.len() as u64);
                    push_str(&mut msg, " verildi");
                    self.errors.push(LexoraError::Custom { message: msg, span });
                    proof {
                        lemma_grows_push(e1, self.errors@.last());
                        lemma_grows_trans(old(self).errs(), e1, self.errs());
                    }
                    return;
                }
                if args.len() > 0 && all_concrete_types(args) {
                    self.check_instantiation(*sym, args, span, fuel);
                    proof {
                        lemma_grows_trans(old(self).errs(), e1, self.errs());
                        lemma_grows_trans(old(self).insts(), n1, self.insts());
                    }
                }
            },
            _ => {},
        }
    }

    fn validate_all(&mut self, ts: &Vec<Type>, span: Span, fuel: u32)
        ensures
            grows(old(self).errs(), final(self).errs()),
            insts_grow(old(self).insts(), final(self).insts()),
            final(self).same_tables(old(self)),
            final(self).same_context(old(self)),
            final(self).vars() == old(self).vars(),
            final(self).recorded() == old(self).recorded(),
            final(self).names() == old(self).names(),
            forall|i: int|
                0 <= i < ts@.len() && wants_instance(old(self).enum_tbl(), (#[trigger] ts@[i])@, fuel as nat)
                    ==> has_instance(final(self).insts(), ts@[i]@->Enum_0, ts@[i]@->Enum_1),
        decreases fuel, 1nat, ts,
    {
        let mut i: usize = 0;
        proof {
            lemma_grows_refl(self.errs());
            lemma_grows_refl(self.insts());
        }
        while i < ts.len()
            invariant
                i <= ts@.len(),
                grows(old(self).errs(), self.errs()),
                insts_grow(old(self).insts(), self.insts()),
                self.same_tables(old(self)),
                self.same_context(old(self)),
                self.vars() == old(self).vars(),
                self.recorded() == old(self).recorded(),
                self.names() == old(self).names(),
                forall|j: int|
                    0 <= j < i && wants_instance(old(self).enum_tbl(), (#[trigger] ts@[j])@, fuel as nat)
                        ==> has_instance(self.insts(), ts@[j]@->Enum_0, ts@[j]@->Enum_1),
            decreases ts@.len() - i,
        {
            let ghost e0 = self.errs();
            let ghost n0 = self.insts();
            self.validate_type(&ts[i], span, fuel);
            proof {
                lemma_grows_trans(old(self).errs(), e0, self.errs());
                lemma_grows_trans(old(self).insts(), n0, self.insts());
                assert forall|j: int|
                    0 <= j < i + 1 && wants_instance(old(self).enum_tbl(), (#[trigger] ts@[j])@, fuel as nat)
                        implies has_instance(self.insts(), ts@[j]@->Enum_0, ts@[j]@->Enum_1) by {
                    if j < i {
                        lemma_has_instance_grows(n0, self.insts(), ts@[j]@->Enum_0, ts@[j]@->Enum_1);
                    }
                }
            }
            i = i + 1;
        }
    }

    /// The position of the recorded instance `sym<args>`.
    fn find_instance(&self, sym: Symbol, args: &Vec<Type>) -> (r: Option<usize>)
        ensures
            r is Some <==> has_instance(self.insts(), sym, types_view(args@)),
            r matches Some(i) ==> i < self.insts().len() && self.insts()[i as int].0.0 == sym && types_view(
                self.insts()[i as int].0.1@,
            ) == types_view(args@) && forall|j: int|
                0 <= j < i ==> !((#[trigger] self.insts()[j]).0.0 == sym && types_view(self.insts()[j].0.1@)
                    == types_view(args@)),
    {
        let mut i: usize = 0;
        while i < self.instances.len()
            invariant
                i <= self.insts().len(),
                forall|j: int|
                    0 <= j < i ==> !((#[trigger] self.insts()[j]).0.0 == sym && types_view(self.insts()[j].0.1@)
                        == types_view(args@)),
            decreases self.instances@.len() - i,
        {
            assert(self.insts()[i as int] == self.instances@[i as int]);
            if self.instances[i].0.0.0 == sym.0 && crate::ast::same_types(&self.instances[i].0.1, args) {
                return Some(i);
            }
            i = i + 1;
        }
        None
    }

    /// Records the concrete instantiation `sym<args>` and checks its variants.
    fn check_instantiation(&mut self, sym: Symbol, args: &Vec<Type>, span: Span, fuel: u32)
        ensures
            grows(old(self).errs(), final(self).errs()),
            insts_grow(old(self).insts(), final(self).insts()),
            final(self).same_tables(old(self)),
            final(self).same_context(old(self)),
            final(self).vars() == old(self).vars(),
            final(self).recorded() == old(self).recorded(),
            final(self).names() == old(self).names(),
            (fuel > 0 && tbl_get(old(self).enum_tbl(), sym) is Some) ==> has_instance(
                final(self).insts(),
                sym,
                types_view(args@),
            ),
        decreases fuel, 0nat, args,
    {
        proof {
            lemma_grows_refl(self.errs());
            lemma_grows_refl(self.insts());
        }
        if fuel == 0 {
            return;
        }
        if self.find_instance(sym, args).is_some() {
            return;
        }
        let variants = match self.enum_variants_for(sym, args) {
            Some(v) => v,
            None => {
                return;
            },
        };
        let key_args = crate::ast::dup_types(args);
        let copy = dup_variants(&variants);
        self.instances.push(((sym, key_args), copy));
        proof {
            lemma_grows_push(old(self).insts(), self.instances@.last());
            let last = self.instances@.len() - 1;
            assert(self.insts()[last].0.0 == sym);
            assert(has_instance(self.insts(), sym, types_view(args@)));
        }
        let ghost mid_insts = self.insts();
        proof {
            lemma_grows_refl(mid_insts);
        }
        let inst_ty = Type::Enum(sym, crate::ast::dup_types(args));
        let inst_name = self.format_type(&inst_ty);
        let mut i: usize = 0;
        while i < variants.len()
            invariant
                fuel > 0,
                i <= variants@.len(),
                grows(old(self).errs(), self.errs()),
                insts_grow(mid_insts, self.insts()),
                insts_grow(old(self).insts(), mid_insts),
                has_instance(mid_insts, sym, types_view(args@)),
                self.same_tables(old(self)),
                self.same_context(old(self)),
                self.vars() == old(self).vars(),
                self.recorded() == old(self).recorded(),
                self.names() == old(self).names(),
            decreases variants@.len() - i,
        {
            let ftys = &variants[i].1;
            let mut j: usize = 0;
            while j < ftys.len()
                invariant
                    fuel > 0,
                    i < variants@.len(),
                    *ftys == variants@[i as int].1,
                    j <= ftys@.len(),
                    grows(old(self).errs(), self.errs()),
                    insts_grow(mid_insts, self.insts()),
                    self.same_tables(old(self)),
                    self.same_context(old(self)),
                    self.vars() == old(self).vars(),
                    self.recorded() == old(self).recorded(),
                    self.names() == old(self).names(),
                decreases ftys@.len() - j,
            {
                let t = &ftys[j];
                let ok = match t {
                    Type::I32 | Type::I64 | Type::Bool | Type::Str | Type::String | Type::Box(_) => true,
                    _ => false,
                };
                if !ok {
                    let vname = self.resolve(variants[i].0);
                    let tname = self.format_type(t);
                    let mut msg = String::new();
                    push_str(&mut msg, "'");
                    push_str(&mut msg, inst_name.as_str());
                    push_str(&mut msg, "::");
                    push_str(&mut msg, vname.as_str());
                    push_str(&mut msg, "' alani icin desteklenmeyen tip: ");
                    push_str(&mut msg, tname.as_str());
                    push_str(
                        &mut msg,
                        " \u{2014} enum alani skaler (i32/i64/bool/str/String) veya Box<T> olabilir",
                    );
                    let ghost e0 = self.errs();
                    self.errors.push(LexoraError::Custom { message: msg, span });
                    proof {
                        lemma_grows_push(e0, self.errors@.last());
                        lemma_grows_trans(old(self).errs(), e0, self.errs());
                    }
                }
                let ghost e1 = self.errs();
                let ghost n1 = self.insts();
                self.validate_type(t, span, fuel - 1);
                proof {
                    lemma_grows_trans(old(self).errs(), e1, self.errs());
                    lemma_grows_trans(mid_insts, n1, self.insts());
                }
                j = j + 1;
            }
            i = i + 1;
        }
        proof {
            lemma_grows_trans(old(self).insts(), mid_insts, self.insts());
            lemma_has_instance_grows(mid_insts, self.insts(), sym, types_view(args@));
        }
    }
}

/// Whether every type of the list holds no type parameter.
fn all_concrete_types(ts: &Vec<Type>) -> (r: bool)
    ensures
        r == concrete_seq(types_view(ts@)),
{
    let mut i: usize = 0;
    while i < ts.len()
        invariant
            i <= ts@.len(),
            concrete_seq(types_view(ts@.take(i as int))),
        decreases ts@.len() - i,
    {
        let ghost pre = ts@.take(i as int);
        let ghost next = ts@.take(i + 1);
        proof {
            assert(next.drop_last() =~= pre);
            assert(types_view(next) == types_view(pre).push(ts@[i as int]@));
            assert(types_view(next).drop_last() =~= types_view(pre));
        }
        if !type_is_concrete(&ts[i]) {
            proof {
                crate::ast::lemma_concrete_seq_prefix(ts@, i as int);
            }
            return false;
        }
        i = i + 1;
    }
    assert(ts@.take(ts@.len() as int) =~= ts@);
    true
}

/// Checking moved only forward: errors, instances and recorded types were
/// only added, and the declaration tables are untouched.
pub open spec fn steps<'i>(a: &TypeChecker<'i>, b: &TypeChecker<'i>) -> bool {
    &&& grows(a.errs(), b.errs())
    &&& grows(a.insts(), b.insts())
    &&& b.same_tables(a)
    &&& a.recorded().dom().subset_of(b.recorded().dom())
}

/// Every id of `ids` has a recorded type in `m`.
pub open spec fn covers(m: Map<ExprId, Type>, ids: Seq<ExprId>) -> bool {
    forall|k: int| 0 <= k < ids.len() ==> m.contains_key(#[trigger] ids[k])
}

pub(crate) proof fn lemma_covers_mono(m1: Map<ExprId, Type>, m2: Map<ExprId, Type>, s: Seq<ExprId>)
    requires
        covers(m1, s),
        m1.dom().subset_of(m2.dom()),
    ensures
        covers(m2, s),
{
    assert forall|k: int| 0 <= k < s.len() implies m2.contains_key(#[trigger] s[k]) by {
        assert(m1.dom().contains(s[k]));
    }
}

/// Two pieces covered in maps that `m` extends are covered together in `m`.
pub(crate) proof fn lemma_covers_join(
    ma: Map<ExprId, Type>,
    mb: Map<ExprId, Type>,
    m: Map<ExprId, Type>,
    a: Seq<ExprId>,
    b: Seq<ExprId>,
)
    requires
        covers(ma, a),
        covers(mb, b),
        ma.dom().subset_of(m.dom()),
        mb.dom().subset_of(m.dom()),
    ensures
        covers(m, a + b),
{
    lemma_covers_mono(ma, m, a);
    lemma_covers_mono(mb, m, b);
    assert forall|k: int| 0 <= k < (a + b).len() implies m.contains_key(#[trigger] (a + b)[k]) by {
        if k < a.len() {
            assert((a + b)[k] == a[k]);
        } else {
            assert((a + b)[k] == b[k - a.len()]);
        }
    }
}

pub(crate) proof fn lemma_expr_ids_last<'a>(e: &Expr<'a>)
    ensures
        expr_ids(e).len() > 0,
        expr_ids(e).last() == expr_id(e),
        expr_ids(e) == expr_ids(e).drop_last().push(expr_id(e)),
{
    assert(expr_ids(e) =~= expr_ids(e).drop_last().push(expr_ids(e).last()));
}

/// A covered concatenation covers both parts.
pub(crate) proof fn lemma_covers_split(m: Map<ExprId, Type>, a: Seq<ExprId>, b: Seq<ExprId>)
    requires
        covers(m, a + b),
    ensures
        covers(m, a),
        covers(m, b),
{
    assert forall|k: int| 0 <= k < a.len() implies m.contains_key(#[trigger] a[k]) by {
        assert((a + b)[k] == a[k]);
    }
    assert forall|k: int| 0 <= k < b.len() implies m.contains_key(#[trigger] b[k]) by {
        assert((a + b)[a.len() + k] == b[k]);
    }
}

/// `b` holds, unchanged, every entry of `a` whose id is not among `ids`.
pub open spec fn keeps_outside(a: Map<ExprId, Type>, b: Map<ExprId, Type>, ids: Seq<ExprId>) -> bool {
    forall|k: ExprId|
        #![trigger a.contains_key(k)]
        #![trigger b[k]]
        a.contains_key(k) && !ids.contains(k) ==> b.contains_key(k) && b[k] == a[k]
}

/// Every id of `x` occurs in `z`.
pub open spec fn within(x: Seq<ExprId>, z: Seq<ExprId>) -> bool {
    forall|i: int| 0 <= i < x.len() ==> z.contains(#[trigger] x[i])
}

pub(crate) proof fn lemma_keeps_refl(m: Map<ExprId, Type>, ids: Seq<ExprId>)
    ensures
        keeps_outside(m, m, ids),
{
}

/// Two steps that each keep what lies outside a part of `z` keep what lies outside `z`.
pub(crate) proof fn lemma_keeps_chain(
    a: Map<ExprId, Type>,
    b: Map<ExprId, Type>,
    c: Map<ExprId, Type>,
    x: Seq<ExprId>,
    y: Seq<ExprId>,
    z: Seq<ExprId>,
)
    requires
        keeps_outside(a, b, x),
        keeps_outside(b, c, y),
        within(x, z),
        within(y, z),
    ensures
        keeps_outside(a, c, z),
{
    assert forall|k: ExprId| a.contains_key(k) && !z.contains(k) implies c.contains_key(k) && c[k] == a[k] by {
        if x.contains(k) {
            let i = choose|i: int| 0 <= i < x.len() && x[i] == k;
            assert(z.contains(x[i]));
        }
        if y.contains(k) {
            let i = choose|i: int| 0 <= i < y.len() && y[i] == k;
            assert(z.contains(y[i]));
        }
        assert(b.contains_key(k) && b[k] == a[k]);
    }
}

pub(crate) proof fn lemma_keeps_widen(a: Map<ExprId, Type>, b: Map<ExprId, Type>, x: Seq<ExprId>, z: Seq<ExprId>)
    requires
        keeps_outside(a, b, x),
        within(x, z),
    ensures
        keeps_outside(a, b, z),
{
    lemma_keeps_chain(a, b, b, x, Seq::empty(), z);
}

pub(crate) proof fn lemma_within_cat(a: Seq<ExprId>, b: Seq<ExprId>)
    ensures
        within(a, a + b),
        within(b, a + b),
{
    assert forall|i: int| 0 <= i < a.len() implies (a + b).contains(#[trigger] a[i]) by {
        assert((a + b)[i] == a[i]);
    }
    assert forall|i: int| 0 <= i < b.len() implies (a + b).contains(#[trigger] b[i]) by {
        assert((a + b)[a.len() + i] == b[i]);
    }
}

pub(crate) proof fn lemma_within_refl(a: Seq<ExprId>)
    ensures
        within(a, a),
{
    assert forall|i: int| 0 <= i < a.len() implies a.contains(#[trigger] a[i]) by {}
}

pub(crate) proof fn lemma_within_trans(x: Seq<ExprId>, y: Seq<ExprId>, z: Seq<ExprId>)
    requires
        within(x, y),
        within(y, z),
    ensures
        within(x, z),
{
    assert forall|i: int| 0 <= i < x.len() implies z.contains(#[trigger] x[i]) by {
        assert(y.contains(x[i]));
        let j = choose|j: int| 0 <= j < y.len() && y[j] == x[i];
        assert(z.contains(y[j]));
    }
}

/// In a list without repeats, what one part holds the other does not.
pub(crate) proof fn lemma_nodup_apart(a: Seq<ExprId>, b: Seq<ExprId>)
    requires
        (a + b).no_duplicates(),
    ensures
        a.no_duplicates(),
        b.no_duplicates(),
        forall|k: ExprId| a.contains(k) ==> !b.contains(k),
{
    let c = a + b;
    assert forall|i: int, j: int| 0 <= i < a.len() && 0 <= j < a.len() && i != j implies a[i] != a[j] by {
        assert(c[i] == a[i] && c[j] == a[j]);
    }
    assert forall|i: int, j: int| 0 <= i < b.len() && 0 <= j < b.len() && i != j implies b[i] != b[j] by {
        assert(c[a.len() + i] == b[i] && c[a.len() + j] == b[j]);
    }
    assert forall|k: ExprId| a.contains(k) implies !b.contains(k) by {
        let i = choose|i: int| 0 <= i < a.len() && a[i] == k;
        if b.contains(k) {
            let j = choose|j: int| 0 <= j < b.len() && b[j] == k;
            assert(c[i] == k && c[a.len() + j] == k);
        }
    }
}

pub(crate) proof fn lemma_within_contains(x: Seq<ExprId>, z: Seq<ExprId>, k: ExprId)
    requires
        within(x, z),
        x.contains(k),
    ensures
        z.contains(k),
{
    let i = choose|i: int| 0 <= i < x.len() && x[i] == k;
    assert(z.contains(x[i]));
}

/// The rule of a node still holds after an entry is set at an id that is
/// not among its operands' ids.
proof fn lemma_node_rule_insert<'a>(e: &Expr<'a>, r: TypeV, m: Map<ExprId, Type>, id: ExprId, t: Type)
    requires
        node_rule(e, r, m),
        !expr_ids(e).drop_last().contains(id),
    ensures
        node_rule(e, r, m.insert(id, t)),
{
    lemma_expr_ids_last(e);
    let kids = expr_ids(e).drop_last();
    match e {
        Expr::BinaryOp { left, right, .. } => {
            assert(kids =~= expr_ids(&**left) + expr_ids(&**right));
            lemma_within_cat(expr_ids(&**left), expr_ids(&**right));
            lemma_own_id(&**left);
            lemma_own_id(&**right);
            lemma_within_contains(expr_ids(&**left), kids, expr_id(&**left));
            lemma_within_contains(expr_ids(&**right), kids, expr_id(&**right));
        },
        Expr::Index { array, index, .. } => {
            assert(kids =~= expr_ids(&**array) + expr_ids(&**index));
            lemma_within_cat(expr_ids(&**array), expr_ids(&**index));
            lemma_own_id(&**array);
            lemma_within_contains(expr_ids(&**array), kids, expr_id(&**array));
        },
        Expr::UnaryOp { operand, .. } => {
            assert(kids =~= expr_ids(&**operand));
            lemma_own_id(&**operand);
        },
        Expr::Cast { expr, .. } => {
            assert(kids =~= expr_ids(&**expr));
            lemma_own_id(&**expr);
        },
        Expr::Box { value, .. } => {
            assert(kids =~= expr_ids(&**value));
            lemma_own_id(&**value);
        },
        Expr::Deref { target, .. } => {
            assert(kids =~= expr_ids(&**target));
            lemma_own_id(&**target);
        },
        _ => {},
    }
}

/// The ids of a prefix of a list lie among the list's ids.
pub(crate) proof fn lemma_exprs_prefix<'a>(es: Seq<Expr<'a>>, i: int)
    requires
        0 <= i <= es.len(),
    ensures
        within(exprs_ids(es.take(i)), exprs_ids(es)),
    decreases es.len(),
{
    if i == es.len() {
        assert(es.take(i) =~= es);
        lemma_within_refl(exprs_ids(es));
    } else {
        let dl = es.drop_last();
        assert(dl.take(i) =~= es.take(i));
        lemma_exprs_prefix(dl, i);
        lemma_within_cat(exprs_ids(dl), expr_ids(&es.last()));
        lemma_within_trans(exprs_ids(es.take(i)), exprs_ids(dl), exprs_ids(es));
    }
}

/// An expression's own id is the last of its ids.
pub(crate) proof fn lemma_own_id<'a>(e: &Expr<'a>)
    ensures
        expr_ids(e).contains(expr_id(e)),
{
    lemma_expr_ids_last(e);
    assert(expr_ids(e)[expr_ids(e).len() - 1] == expr_id(e));
}

/// Keeping what lies outside the first `i` expressions of a list and then
/// outside the next one keeps what lies outside the first `i + 1`.
proof fn lemma_exprs_keep<'a>(
    m0: Map<ExprId, Type>,
    m1: Map<ExprId, Type>,
    m2: Map<ExprId, Type>,
    es: Seq<Expr<'a>>,
    i: int,
)
    requires
        0 <= i < es.len(),
        keeps_outside(m0, m1, exprs_ids(es.take(i))),
        keeps_outside(m1, m2, expr_ids(&es[i])),
    ensures
        keeps_outside(m0, m2, exprs_ids(es.take(i + 1))),
{
    assert(es.take(i + 1).drop_last() =~= es.take(i));
    assert(exprs_ids(es.take(i + 1)) == exprs_ids(es.take(i)) + expr_ids(&es[i]));
    lemma_within_cat(exprs_ids(es.take(i)), expr_ids(&es[i]));
    lemma_keeps_chain(m0, m1, m2, exprs_ids(es.take(i)), expr_ids(&es[i]), exprs_ids(es.take(i + 1)));
}

proof fn lemma_fields_keep<'a>(
    m0: Map<ExprId, Type>,
    m1: Map<ExprId, Type>,
    m2: Map<ExprId, Type>,
    fs: Seq<(Symbol, Expr<'a>)>,
    i: int,
)
    requires
        0 <= i < fs.len(),
        keeps_outside(m0, m1, fields_ids(fs.take(i))),
        keeps_outside(m1, m2, expr_ids(&fs[i].1)),
    ensures
        keeps_outside(m0, m2, fields_ids(fs.take(i + 1))),
{
    assert(fs.take(i + 1).drop_last() =~= fs.take(i));
    assert(fields_ids(fs.take(i + 1)) == fields_ids(fs.take(i)) + expr_ids(&fs[i].1));
    lemma_within_cat(fields_ids(fs.take(i)), expr_ids(&fs[i].1));
    lemma_keeps_chain(m0, m1, m2, fields_ids(fs.take(i)), expr_ids(&fs[i].1), fields_ids(fs.take(i + 1)));
}

proof fn lemma_stmts_keep<'a>(
    m0: Map<ExprId, Type>,
    m1: Map<ExprId, Type>,
    m2: Map<ExprId, Type>,
    ss: Seq<Stmt<'a>>,
    i: int,
)
    requires
        0 <= i < ss.len(),
        keeps_outside(m0, m1, stmts_ids(ss.take(i))),
        keeps_outside(m1, m2, stmt_ids(&ss[i])),
    ensures
        keeps_outside(m0, m2, stmts_ids(ss.take(i + 1))),
{
    assert(ss.take(i + 1).drop_last() =~= ss.take(i));
    assert(stmts_ids(ss.take(i + 1)) == stmts_ids(ss.take(i)) + stmt_ids(&ss[i]));
    lemma_within_cat(stmts_ids(ss.take(i)), stmt_ids(&ss[i]));
    lemma_keeps_chain(m0, m1, m2, stmts_ids(ss.take(i)), stmt_ids(&ss[i]), stmts_ids(ss.take(i + 1)));
}

proof fn lemma_arms_keep<'a>(
    m0: Map<ExprId, Type>,
    m1: Map<ExprId, Type>,
    m2: Map<ExprId, Type>,
    arms: Seq<(Pattern, Block<'a>)>,
    i: int,
)
    requires
        0 <= i < arms.len(),
        keeps_outside(m0, m1, arms_ids(arms.take(i))),
        keeps_outside(m1, m2, block_ids(&arms[i].1)),
    ensures
        keeps_outside(m0, m2, arms_ids(arms.take(i + 1))),
{
    assert(arms.take(i + 1).drop_last() =~= arms.take(i));
    assert(arms_ids(arms.take(i + 1)) == arms_ids(arms.take(i)) + block_ids(&arms[i].1));
    lemma_within_cat(arms_ids(arms.take(i)), block_ids(&arms[i].1));
    lemma_keeps_chain(m0, m1, m2, arms_ids(arms.take(i)), block_ids(&arms[i].1), arms_ids(arms.take(i + 1)));
}

/// Keeping what lies outside a block's statements and then outside its tail
/// keeps what lies outside the block.
proof fn lemma_block_keep<'a>(m0: Map<ExprId, Type>, m1: Map<ExprId, Type>, m2: Map<ExprId, Type>, b: &Block<'a>)
    requires
        keeps_outside(m0, m1, stmts_ids(b.stmts@)),
        b.tail matches Some(t) ==> keeps_outside(m1, m2, expr_ids(&*t)),
        b.tail is None ==> m2 == m1,
    ensures
        keeps_outside(m0, m2, block_ids(b)),
{
    match b.tail {
        Some(t) => {
            lemma_within_cat(stmts_ids(b.stmts@), expr_ids(&*t));
            lemma_keeps_chain(m0, m1, m2, stmts_ids(b.stmts@), expr_ids(&*t), block_ids(b));
        },
        None => {
            assert(block_ids(b) =~= stmts_ids(b.stmts@));
        },
    }
}

/// Each element of a covered list is covered.
pub(crate) proof fn lemma_exprs_elem<'a>(m: Map<ExprId, Type>, es: Seq<Expr<'a>>, i: int)
    requires
        covers(m, exprs_ids(es)),
        0 <= i < es.len(),
    ensures
        covers(m, expr_ids(&es[i])),
    decreases es.len(),
{
    lemma_covers_split(m, exprs_ids(es.drop_last()), expr_ids(&es.last()));
    if i < es.len() - 1 {
        lemma_exprs_elem(m, es.drop_last(), i);
    }
}

pub(crate) proof fn lemma_fields_elem<'a>(m: Map<ExprId, Type>, fs: Seq<(Symbol, Expr<'a>)>, i: int)
    requires
        covers(m, fields_ids(fs)),
        0 <= i < fs.len(),
    ensures
        covers(m, expr_ids(&fs[i].1)),
    decreases fs.len(),
{
    lemma_covers_split(m, fields_ids(fs.drop_last()), expr_ids(&fs.last().1));
    if i < fs.len() - 1 {
        lemma_fields_elem(m, fs.drop_last(), i);
    }
}

pub(crate) proof fn lemma_stmts_elem<'a>(m: Map<ExprId, Type>, ss: Seq<Stmt<'a>>, i: int)
    requires
        covers(m, stmts_ids(ss)),
        0 <= i < ss.len(),
    ensures
        covers(m, stmt_ids(&ss[i])),
    decreases ss.len(),
{
    lemma_covers_split(m, stmts_ids(ss.drop_last()), stmt_ids(&ss.last()));
    if i < ss.len() - 1 {
        lemma_stmts_elem(m, ss.drop_last(), i);
    }
}

pub(crate) proof fn lemma_functions_elem<'a>(m: Map<ExprId, Type>, fs: Seq<Function<'a>>, i: int)
    requires
        covers(m, functions_ids(fs)),
        0 <= i < fs.len(),
    ensures
        covers(m, block_ids(&fs[i].body)),
    decreases fs.len(),
{
    lemma_covers_split(m, functions_ids(fs.drop_last()), block_ids(&fs.last().body));
    if i < fs.len() - 1 {
        lemma_functions_elem(m, fs.drop_last(), i);
    }
}

/// A covered expression has a recorded type itself.
pub(crate) proof fn lemma_node_covered<'a>(m: Map<ExprId, Type>, e: &Expr<'a>)
    requires
        covers(m, expr_ids(e)),
    ensures
        m.contains_key(expr_id(e)),
{
    lemma_expr_ids_last(e);
    assert(expr_ids(e)[expr_ids(e).len() - 1] == expr_id(e));
}

/// The parts of a covered block are covered.
pub(crate) proof fn lemma_block_parts<'a>(m: Map<ExprId, Type>, b: &Block<'a>)
    requires
        covers(m, block_ids(b)),
    ensures
        covers(m, stmts_ids(b.stmts@)),
        b.tail matches Some(t) ==> covers(m, expr_ids(&*t)),
{
    match b.tail {
        Some(t) => lemma_covers_split(m, stmts_ids(b.stmts@), expr_ids(&*t)),
        None => assert(block_ids(b) =~= stmts_ids(b.stmts@)),
    }
}

/// The parts of a covered statement are covered.
pub(crate) proof fn lemma_stmt_parts<'a>(m: Map<ExprId, Type>, s: &Stmt<'a>)
    requires
        covers(m, stmt_ids(s)),
    ensures
        match s {
            Stmt::Let { value, .. } => covers(m, expr_ids(value)) && m.contains_key(expr_id(value)),
            Stmt::Assign { value, .. } => covers(m, expr_ids(value)) && m.contains_key(expr_id(value)),
            Stmt::Return(value, _) => covers(m, expr_ids(value)) && m.contains_key(expr_id(value)),
            Stmt::Expr(value, _) => covers(m, expr_ids(value)) && m.contains_key(expr_id(value)),
            Stmt::While { condition, body, .. } => covers(m, expr_ids(condition)) && covers(m, block_ids(body)),
            Stmt::For { from, to, body, .. } => covers(m, expr_ids(from)) && covers(m, expr_ids(to)) && covers(
                m,
                block_ids(body),
            ),
            Stmt::AssignPlace { target, value, .. } => covers(m, expr_ids(target)) && covers(m, expr_ids(value))
                && m.contains_key(expr_id(target)) && m.contains_key(expr_id(value)),
            Stmt::Error(_) => true,
        },
{
    match s {
        Stmt::Let { value, .. } => lemma_node_covered(m, value),
        Stmt::Assign { value, .. } => lemma_node_covered(m, value),
        Stmt::Return(value, _) => lemma_node_covered(m, value),
        Stmt::Expr(value, _) => lemma_node_covered(m, value),
        Stmt::While { condition, body, .. } => lemma_covers_split(m, expr_ids(condition), block_ids(body)),
        Stmt::For { from, to, body, .. } => {
            lemma_covers_split(m, expr_ids(from) + expr_ids(to), block_ids(body));
            lemma_covers_split(m, expr_ids(from), expr_ids(to));
        },
        Stmt::AssignPlace { target, value, .. } => {
            lemma_covers_split(m, expr_ids(target), expr_ids(value));
            lemma_node_covered(m, target);
            lemma_node_covered(m, value);
        },
        Stmt::Error(_) => {},
    }
}

/// The node and the parts of a covered expression are covered.
pub(crate) proof fn lemma_expr_parts<'a>(m: Map<ExprId, Type>, e: &Expr<'a>)
    requires
        covers(m, expr_ids(e)),
    ensures
        m.contains_key(expr_id(e)),
        match e {
            Expr::BinaryOp { left, right, .. } => covers(m, expr_ids(&**left)) && covers(m, expr_ids(&**right))
                && m.contains_key(expr_id(&**left)) && m.contains_key(expr_id(&**right)),
            Expr::UnaryOp { operand, .. } => covers(m, expr_ids(&**operand)) && m.contains_key(expr_id(&**operand)),
            Expr::Call { args, .. } => covers(m, exprs_ids(args@)),
            Expr::Cast { expr, .. } => covers(m, expr_ids(&**expr)) && m.contains_key(expr_id(&**expr)),
            Expr::ArrayLiteral(elems, _, _) => covers(m, exprs_ids(elems@)),
            Expr::Index { array, index, .. } => covers(m, expr_ids(&**array)) && covers(m, expr_ids(&**index))
                && m.contains_key(expr_id(&**array)) && m.contains_key(expr_id(&**index)),
            Expr::StructLiteral { fields, .. } => covers(m, fields_ids(fields@)),
            Expr::FieldAccess { object, .. } => covers(m, expr_ids(&**object)) && m.contains_key(expr_id(&**object)),
            Expr::Box { value, .. } => covers(m, expr_ids(&**value)) && m.contains_key(expr_id(&**value)),
            Expr::Deref { target, .. } => covers(m, expr_ids(&**target)) && m.contains_key(expr_id(&**target)),
            Expr::Try { expr, .. } => covers(m, expr_ids(&**expr)) && m.contains_key(expr_id(&**expr)),
            Expr::EnumVariant { args, .. } => covers(m, exprs_ids(args@)),
            Expr::Match { scrutinee, arms, .. } => covers(m, expr_ids(&**scrutinee)) && covers(m, arms_ids(arms@)),
            Expr::If { condition, then_body, else_body, .. } => covers(m, expr_ids(&**condition)) && covers(
                m,
                block_ids(&**then_body),
            ) && (else_body matches Some(b) ==> covers(m, block_ids(&*b))),
            _ => true,
        },
{
    lemma_expr_ids_last(e);
    let kids = expr_ids(e).drop_last();
    lemma_covers_split(m, kids, seq![expr_id(e)]);
    assert(expr_ids(e) =~= kids + seq![expr_id(e)]);
    assert(seq![expr_id(e)][0] == expr_id(e));
    match e {
        Expr::BinaryOp { left, right, .. } => {
            assert(kids =~= expr_ids(&**left) + expr_ids(&**right));
            lemma_covers_split(m, expr_ids(&**left), expr_ids(&**right));
            lemma_node_covered(m, &**left);
            lemma_node_covered(m, &**right);
        },
        Expr::Index { array, index, .. } => {
            assert(kids =~= expr_ids(&**array) + expr_ids(&**index));
            lemma_covers_split(m, expr_ids(&**array), expr_ids(&**index));
            lemma_node_covered(m, &**array);
            lemma_node_covered(m, &**index);
        },
        Expr::Match { scrutinee, arms, .. } => {
            assert(kids =~= expr_ids(&**scrutinee) + arms_ids(arms@));
            lemma_covers_split(m, expr_ids(&**scrutinee), arms_ids(arms@));
        },
        Expr::If { condition, then_body, else_body, .. } => {
            let rest = match else_body {
                Some(b) => block_ids(&**b),
                None => Seq::empty(),
            };
            assert(kids =~= (expr_ids(&**condition) + block_ids(&**then_body)) + rest);
            lemma_covers_split(m, expr_ids(&**condition) + block_ids(&**then_body), rest);
            lemma_covers_split(m, expr_ids(&**condition), block_ids(&**then_body));
        },
        Expr::UnaryOp { operand, .. } => {
            assert(kids =~= expr_ids(&**operand));
            lemma_node_covered(m, &**operand);
        },
        Expr::Call { args, .. } => assert(kids =~= exprs_ids(args@)),
        Expr::Cast { expr, .. } => {
            assert(kids =~= expr_ids(&**expr));
            lemma_node_covered(m, &**expr);
        },
        Expr::ArrayLiteral(elems, _, _) => assert(kids =~= exprs_ids(elems@)),
        Expr::StructLiteral { fields, .. } => assert(kids =~= fields_ids(fields@)),
        Expr::FieldAccess { object, .. } => {
            assert(kids =~= expr_ids(&**object));
            lemma_node_covered(m, &**object);
        },
        Expr::Box { value, .. } => {
            assert(kids =~= expr_ids(&**value));
            lemma_node_covered(m, &**value);
        },
        Expr::Deref { target, .. } => {
            assert(kids =~= expr_ids(&**target));
            lemma_node_covered(m, &**target);
        },
        Expr::Try { expr, .. } => {
            assert(kids =~= expr_ids(&**expr));
            lemma_node_covered(m, &**expr);
        },
        Expr::EnumVariant { args, .. } => assert(kids =~= exprs_ids(args@)),
        _ => {},
    }
}

/// Covering the first `i` expressions of a list and then the next one covers
/// the first `i + 1`.
proof fn lemma_exprs_step<'a>(
    m0: Map<ExprId, Type>,
    m1: Map<ExprId, Type>,
    es: Seq<Expr<'a>>,
    i: int,
)
    requires
        0 <= i < es.len(),
        covers(m0, exprs_ids(es.take(i))),
        covers(m1, expr_ids(&es[i])),
        m0.dom().subset_of(m1.dom()),
    ensures
        covers(m1, exprs_ids(es.take(i + 1))),
{
    assert(es.take(i + 1).drop_last() =~= es.take(i));
    lemma_covers_join(m0, m1, m1, exprs_ids(es.take(i)), expr_ids(&es[i]));
}

proof fn lemma_fields_step<'a>(
    m0: Map<ExprId, Type>,
    m1: Map<ExprId, Type>,
    fs: Seq<(Symbol, Expr<'a>)>,
    i: int,
)
    requires
        0 <= i < fs.len(),
        covers(m0, fields_ids(fs.take(i))),
        covers(m1, expr_ids(&fs[i].1)),
        m0.dom().subset_of(m1.dom()),
    ensures
        covers(m1, fields_ids(fs.take(i + 1))),
{
    assert(fs.take(i + 1).drop_last() =~= fs.take(i));
    lemma_covers_join(m0, m1, m1, fields_ids(fs.take(i)), expr_ids(&fs[i].1));
}

proof fn lemma_stmts_step<'a>(
    m0: Map<ExprId, Type>,
    m1: Map<ExprId, Type>,
    ss: Seq<Stmt<'a>>,
    i: int,
)
    requires
        0 <= i < ss.len(),
        covers(m0, stmts_ids(ss.take(i))),
        covers(m1, stmt_ids(&ss[i])),
        m0.dom().subset_of(m1.dom()),
    ensures
        covers(m1, stmts_ids(ss.take(i + 1))),
{
    assert(ss.take(i + 1).drop_last() =~= ss.take(i));
    lemma_covers_join(m0, m1, m1, stmts_ids(ss.take(i)), stmt_ids(&ss[i]));
}

proof fn lemma_arms_step<'a>(
    m0: Map<ExprId, Type>,
    m1: Map<ExprId, Type>,
    arms: Seq<(Pattern, Block<'a>)>,
    i: int,
)
    requires
        0 <= i < arms.len(),
        covers(m0, arms_ids(arms.take(i))),
        covers(m1, block_ids(&arms[i].1)),
        m0.dom().subset_of(m1.dom()),
    ensures
        covers(m1, arms_ids(arms.take(i + 1))),
{
    assert(arms.take(i + 1).drop_last() =~= arms.take(i));
    lemma_covers_join(m0, m1, m1, arms_ids(arms.take(i)), block_ids(&arms[i].1));
}

proof fn lemma_functions_step<'a>(
    m0: Map<ExprId, Type>,
    m1: Map<ExprId, Type>,
    fs: Seq<Function<'a>>,
    i: int,
)
    requires
        0 <= i < fs.len(),
        covers(m0, functions_ids(fs.take(i))),
        covers(m1, block_ids(&fs[i].body)),
        m0.dom().subset_of(m1.dom()),
    ensures
        covers(m1, functions_ids(fs.take(i + 1))),
{
    assert(fs.take(i + 1).drop_last() =~= fs.take(i));
    lemma_covers_join(m0, m1, m1, functions_ids(fs.take(i)), block_ids(&fs[i].body));
}

/// A block is covered once its statements are, and then its tail.
proof fn lemma_tail_cover<'a>(m0: Map<ExprId, Type>, m1: Map<ExprId, Type>, b: &Block<'a>)
    requires
        covers(m0, stmts_ids(b.stmts@)),
        m0.dom().subset_of(m1.dom()),
        b.tail matches Some(t) ==> covers(m1, expr_ids(&*t)),
    ensures
        covers(m1, block_ids(b)),
{
    match b.tail {
        Some(t) => lemma_covers_join(m0, m1, m1, stmts_ids(b.stmts@), expr_ids(&*t)),
        None => {
            lemma_covers_mono(m0, m1, stmts_ids(b.stmts@));
            assert(block_ids(b) =~= stmts_ids(b.stmts@));
        },
    }
}

/// Whether an integer literal fits in `i32`.
pub open spec fn fits_i32(n: i64) -> bool {
    -2147483648 <= n <= 2147483647
}

/// The result type of the built-in function called `name`.
pub open spec fn builtin_type(name: Seq<char>) -> TypeV {
    if name == "print"@ {
        TypeV::Void
    } else if name == "string"@ {
        TypeV::String
    } else if name == "len"@ {
        TypeV::I32
    } else {
        TypeV::Error
    }
}

/// What the type found for `e` is, as far as the node itself and the
/// declaration tables fix it.
pub open spec fn result_ok<'a>(
    e: &Expr<'a>,
    r: TypeV,
    vars: Seq<Seq<(Symbol, Type)>>,
    fns: Seq<(Symbol, FnSig)>,
    strs: Seq<(Symbol, Vec<(Symbol, Type)>)>,
    names: Seq<Seq<char>>,
) -> bool {
    match e {
        Expr::Integer(n, _, _) => r == (if fits_i32(*n) {
            TypeV::I32
        } else {
            TypeV::I64
        }),
        Expr::Bool(..) => r == TypeV::Bool,
        Expr::StringLiteral(..) => r == TypeV::Str,
        Expr::Error(..) => r == TypeV::Error,
        Expr::Identifier(sym, _, _) => r == match scopes_lookup(vars, *sym) {
            Some(t) => t@,
            None => TypeV::Error,
        },
        Expr::BinaryOp { op, .. } => match op {
            BinaryOperator::Add => r is I32 || r is I64 || r is String || r is Error,
            BinaryOperator::Sub | BinaryOperator::Mul | BinaryOperator::Div => r is I32 || r is I64
                || r is Error,
            _ => r is Bool || r is Error,
        },
        Expr::UnaryOp { op, .. } => match op {
            UnaryOperator::Not => r is Bool || r is Error,
            UnaryOperator::Neg => r is I32 || r is I64 || r is Error,
        },
        Expr::Cast { target_type, .. } => r is Error || (r == target_type@ && (r is I32 || r is I64)),
        Expr::Call { name, .. } => match tbl_get(fns, *name) {
            Some(sig) => r == sig.1@,
            None => r == builtin_type(name_text(names, *name)),
        },
        Expr::ArrayLiteral(elems, _, _) => if elems@.len() == 0 {
            r is Error
        } else {
            r is Array && r->Array_1 == elems@.len()
        },
        Expr::StructLiteral { name, .. } => r == if has_key(strs, *name) {
            TypeV::Struct(*name)
        } else {
            TypeV::Error
        },
        Expr::Box { .. } => r is Box,
        Expr::EnumVariant { enum_name, .. } => r is Error || (r is Enum && r->Enum_0 == *enum_name),
        Expr::If { else_body: None, .. } => r is Void || r is Error,
        _ => true,
    }
}

/// The type of a unary operation on an operand of type `t`.
pub open spec fn unary_type(op: UnaryOperator, t: TypeV) -> TypeV {
    match op {
        UnaryOperator::Not => if tm(t, TypeV::Bool) {
            TypeV::Bool
        } else {
            TypeV::Error
        },
        UnaryOperator::Neg => if tm(t, TypeV::I32) || tm(t, TypeV::I64) {
            t
        } else {
            TypeV::Error
        },
    }
}

/// The type of a cast of a value of type `from` to `to`: only between the
/// two integer types.
pub open spec fn cast_type(from: TypeV, to: TypeV) -> TypeV {
    match (from, to) {
        (TypeV::I32, TypeV::I64) => TypeV::I64,
        (TypeV::I64, TypeV::I32) => TypeV::I32,
        _ => TypeV::Error,
    }
}

/// A cast that reports an error: from a type that is not the error type, to
/// anything but the other integer type.
pub open spec fn cast_rejected(from: TypeV, to: TypeV) -> bool {
    !(from is Error) && cast_type(from, to) is Error
}

/// The element type of an indexed value of type `t`.
pub open spec fn index_type(t: TypeV) -> TypeV {
    match t {
        TypeV::Array(elem, _) => *elem,
        _ => TypeV::Error,
    }
}

/// The type behind a dereferenced value of type `t`.
pub open spec fn deref_type(t: TypeV) -> TypeV {
    match t {
        TypeV::Box(inner) => *inner,
        _ => TypeV::Error,
    }
}

/// How the type found for `e` follows from the types recorded in `m` for
/// its operands.
pub open spec fn node_rule<'a>(e: &Expr<'a>, r: TypeV, m: Map<ExprId, Type>) -> bool {
    match e {
        Expr::BinaryOp { left, op, right, .. } => r == binary_type(
            *op,
            m[expr_id(&**left)]@,
            m[expr_id(&**right)]@,
        ),
        Expr::UnaryOp { op, operand, .. } => r == unary_type(*op, m[expr_id(&**operand)]@),
        Expr::Cast { expr, target_type, .. } => r == cast_type(m[expr_id(&**expr)]@, target_type@),
        Expr::Index { array, .. } => r == index_type(m[expr_id(&**array)]@),
        Expr::Box { value, .. } => r == TypeV::Box(Box::new(m[expr_id(&**value)]@)),
        Expr::Deref { target, .. } => r == deref_type(m[expr_id(&**target)]@),
        _ => true,
    }
}

/// The depth bound handed to the recursive checks; no real program comes near it.
pub const NEST_LIMIT: u32 = 4294967295;

/// The texts of `parts` one after another.
pub open spec fn cat_text(parts: Seq<&str>) -> Seq<char>
    decreases parts.len(),
{
    if parts.len() == 0 {
        Seq::empty()
    } else {
        cat_text(parts.drop_last()) + parts.last()@
    }
}

/// Concatenation of message parts.
fn cat(parts: &[&str]) -> (r: String)
    ensures
        r@ == cat_text(parts@),
{
    let mut s = String::new();
    let mut i: usize = 0;
    while i < parts.len()
        invariant
            i <= parts@.len(),
            s@ == cat_text(parts@.take(i as int)),
        decreases parts@.len() - i,
    {
        push_str(&mut s, parts[i]);
        proof {
            assert(parts@.take(i + 1).drop_last() =~= parts@.take(i as int));
        }
        i = i + 1;
    }
    assert(parts@.take(parts@.len() as int) =~= parts@);
    s
}

/// The decimal text of `n`.
fn num(n: usize) -> (r: String)
    ensures
        r@ == crate::text::dec(n as nat),
{
    let mut s = String::new();
    push_u64(&mut s, n as u64);
    assert(s@ =~= crate::text::dec(n as nat));
    s
}

impl<'i> TypeChecker<'i> {
    /// Records an error.
    fn report(&mut self, e: LexoraError)
        ensures
            final(self).errs() == old(self).errs().push(e),
            steps(old(self), final(self)),
            final(self).same_context(old(self)),
            final(self).vars() == old(self).vars(),
            final(self).recorded() == old(self).recorded(),
    {
        self.errors.push(e);
        proof {
            lemma_grows_push(old(self).errs(), e);
        }
    }

    fn mismatch(&mut self, expected: &Type, found: &Type, span: Span)
        ensures
            final(self).errs().len() == old(self).errs().len() + 1,
            final(self).errs() == old(self).errs().push(final(self).errs().last()),
            is_mismatch(
                final(self).errs().last(),
                type_text(expected@, old(self).names()),
                type_text(found@, old(self).names()),
                span,
            ),
            steps(old(self), final(self)),
            final(self).same_context(old(self)),
            final(self).vars() == old(self).vars(),
            final(self).recorded() == old(self).recorded(),
    {
        let e = self.format_type(expected);
        let f = self.format_type(found);
        self.report(LexoraError::TypeMismatch { expected: e, found: f, span });
    }

    fn custom(&mut self, message: String, span: Span)
        ensures
            final(self).errs() == old(self).errs().push(LexoraError::Custom { message, span }),
            steps(old(self), final(self)),
            final(self).same_context(old(self)),
            final(self).vars() == old(self).vars(),
            final(self).recorded() == old(self).recorded(),
    {
        self.report(LexoraError::Custom { message, span });
    }

    /// Checks `expr`, records its type under its id and returns it.
    fn check_expr(&mut self, expr: &Expr) -> (r: Type)
        ensures
            steps(old(self), final(self)),
            final(self).same_context(old(self)),
            final(self).vars() == old(self).vars(),
            final(self).recorded().contains_key(expr_id(expr)),
            final(self).recorded()[expr_id(expr)]@ == r@,
            result_ok(expr, r@, old(self).vars(), old(self).fns(), old(self).strs(), old(self).names()),
            final(self).errs().len() == old(self).errs().len() ==> covers(final(self).recorded(), expr_ids(expr)),
            keeps_outside(old(self).recorded(), final(self).recorded(), expr_ids(expr)),
            expr_ids(expr).no_duplicates() ==> node_rule(expr, r@, final(self).recorded()),
        decreases expr, 2nat,
    {
        let ty = self.check_expr_inner(expr);
        let ghost inner = self.recorded();
        let id = expr.id();
        let copy = ty.dup();
        self.types.insert(id, copy);
        proof {
            lemma_expr_ids_last(expr);
            let kids = expr_ids(expr).drop_last();
            assert(expr_ids(expr) =~= kids + seq![id]);
            if self.errs().len() == old(self).errs().len() {
                assert(covers(self.recorded(), seq![id]));
                lemma_covers_join(inner, self.recorded(), self.recorded(), kids, seq![id]);
            }
            assert(keeps_outside(inner, self.recorded(), seq![id])) by {
                assert forall|k: ExprId| inner.contains_key(k) && !seq![id].contains(k) implies self.recorded().contains_key(k)
                    && self.recorded()[k] == inner[k] by {
                    if k == id {
                        assert(seq![id][0] == id);
                    }
                }
            }
            lemma_within_cat(kids, seq![id]);
            lemma_keeps_chain(old(self).recorded(), inner, self.recorded(), kids, seq![id], expr_ids(expr));
            if expr_ids(expr).no_duplicates() {
                lemma_nodup_apart(kids, seq![id]);
                assert(seq![id].contains(id)) by {
                    assert(seq![id][0] == id);
                }
                assert(!kids.contains(id));
                lemma_node_rule_insert(expr, ty@, inner, id, copy);
            }
        }
        ty
    }

    /// Checks each expression of a list, in order.
    fn check_each(&mut self, es: &Vec<Expr>)
        ensures
            steps(old(self), final(self)),
            final(self).same_context(old(self)),
            final(self).vars() == old(self).vars(),
            final(self).errs().len() == old(self).errs().len() ==> covers(final(self).recorded(), exprs_ids(es@)),
            keeps_outside(old(self).recorded(), final(self).recorded(), exprs_ids(es@)),
        decreases es, 0nat,
    {
        let mut i: usize = 0;
        while i < es.len()
            invariant
                i <= es@.len(),
                steps(old(self), self),
                self.same_context(old(self)),
                self.vars() == old(self).vars(),
                self.errs().len() == old(self).errs().len() ==> covers(self.recorded(), exprs_ids(es@.take(i as int))),
                keeps_outside(old(self).recorded(), self.recorded(), exprs_ids(es@.take(i as int))),
            decreases es@.len() - i,
        {
            let ghost m0 = self.recorded();
            self.check_expr(&es[i]);
            proof {
                if self.errs().len() == old(self).errs().len() {
                    lemma_exprs_step(m0, self.recorded(), es@, i as int);
                }
                lemma_exprs_keep(old(self).recorded(), m0, self.recorded(), es@, i as int);
            }
            i = i + 1;
        }
        assert(es@.take(es@.len() as int) =~= es@);
    }

    /// Checks a list of statements in the current scope.
    fn check_stmts(&mut self, stmts: &Vec<Stmt>, ret_ty: &Type)
        requires
            old(self).vars().len() > 0,
        ensures
            steps(old(self), final(self)),
            final(self).same_context(old(self)),
            final(self).vars().len() == old(self).vars().len(),
            final(self).vars().drop_last() == old(self).vars().drop_last(),
            final(self).errs().len() == old(self).errs().len() ==> covers(final(self).recorded(), stmts_ids(stmts@)),
            keeps_outside(old(self).recorded(), final(self).recorded(), stmts_ids(stmts@)),
            (exists|j: int| 0 <= j < stmts@.len() && let_lit_mismatch(#[trigger] &stmts@[j]))
                ==> final(self).errs().len() > old(self).errs().len(),
            forall|j: int|
                0 <= j < stmts@.len() && let_lit_mismatch(#[trigger] &stmts@[j]) ==> lit_mismatch_listed(
                    final(self).errs(),
                    &stmts@[j],
                    old(self).names(),
                ),
            forall|j: int|
                0 <= j < stmts@.len() && ret_lit_mismatch(#[trigger] &stmts@[j], ret_ty@) ==> ret_mismatch_listed(
                    final(self).errs(),
                    &stmts@[j],
                    ret_ty@,
                    old(self).names(),
                ),
        decreases stmts, 0nat,
    {
        let mut i: usize = 0;
        while i < stmts.len()
            invariant
                i <= stmts@.len(),
                old(self).vars().len() > 0,
                steps(old(self), self),
                self.same_context(old(self)),
                self.vars().len() == old(self).vars().len(),
                self.vars().drop_last() == old(self).vars().drop_last(),
                self.errs().len() == old(self).errs().len() ==> covers(self.recorded(), stmts_ids(stmts@.take(i as int))),
                keeps_outside(old(self).recorded(), self.recorded(), stmts_ids(stmts@.take(i as int))),
                (exists|j: int| 0 <= j < i && let_lit_mismatch(#[trigger] &stmts@[j]))
                    ==> self.errs().len() > old(self).errs().len(),
                self.names() == old(self).names(),
                forall|j: int|
                    0 <= j < i && let_lit_mismatch(#[trigger] &stmts@[j]) ==> lit_mismatch_listed(
                        self.errs(),
                        &stmts@[j],
                        old(self).names(),
                    ),
                forall|j: int|
                    0 <= j < i && ret_lit_mismatch(#[trigger] &stmts@[j], ret_ty@) ==> ret_mismatch_listed(
                        self.errs(),
                        &stmts@[j],
                        ret_ty@,
                        old(self).names(),
                    ),
            decreases stmts@.len() - i,
        {
            let ghost m0 = self.recorded();
            let ghost e0 = self.errs();
            self.check_statement(&stmts[i], ret_ty);
            proof {
                assert forall|j: int|
                    0 <= j < i + 1 && let_lit_mismatch(#[trigger] &stmts@[j]) implies lit_mismatch_listed(
                    self.errs(),
                    &stmts@[j],
                    old(self).names(),
                ) by {
                    if j < i {
                        lemma_listed_grows(e0, self.errs(), &stmts@[j], old(self).names());
                    }
                }
                assert forall|j: int|
                    0 <= j < i + 1 && ret_lit_mismatch(#[trigger] &stmts@[j], ret_ty@) implies ret_mismatch_listed(
                    self.errs(),
                    &stmts@[j],
                    ret_ty@,
                    old(self).names(),
                ) by {
                    if j < i {
                        lemma_ret_listed_grows(e0, self.errs(), &stmts@[j], ret_ty@, old(self).names());
                    }
                }
                if self.errs().len() == old(self).errs().len() {
                    lemma_stmts_step(m0, self.recorded(), stmts@, i as int);
                }
                lemma_stmts_keep(old(self).recorded(), m0, self.recorded(), stmts@, i as int);
            }
            i = i + 1;
        }
        assert(stmts@.take(stmts@.len() as int) =~= stmts@);
    }

    /// Checks a block in a scope of its own and returns the type of its tail.
    fn check_block(&mut self, block: &Block, ret_ty: &Type) -> (r: Type)
        ensures
            steps(old(self), final(self)),
            final(self).same_context(old(self)),
            final(self).vars() == old(self).vars(),
            block.tail is None ==> r@ == TypeV::Void,
            final(self).errs().len() == old(self).errs().len() ==> covers(final(self).recorded(), block_ids(block)),
            keeps_outside(old(self).recorded(), final(self).recorded(), block_ids(block)),
        decreases block, 0nat,
    {
        self.variables.enter_scope();
        let ghost m_in = self.recorded();
        self.check_stmts(&block.stmts, ret_ty);
        let ghost m0 = self.recorded();
        let t = match &block.tail {
            Some(t) => self.check_expr(&**t),
            None => Type::Void,
        };
        self.variables.exit_scope();
        proof {
            if self.errs().len() == old(self).errs().len() {
                lemma_tail_cover(m0, self.recorded(), block);
            }
            lemma_block_keep(m_in, m0, self.recorded(), block);
        }
        t
    }

    /// A loop body must not produce a value.
    fn check_loop_body(&mut self, body: &Block, ret_ty: &Type)
        requires
            old(self).vars().len() > 0,
        ensures
            steps(old(self), final(self)),
            final(self).same_context(old(self)),
            final(self).vars().len() == old(self).vars().len(),
            final(self).vars().drop_last() == old(self).vars().drop_last(),
            final(self).errs().len() == old(self).errs().len() ==> covers(final(self).recorded(), block_ids(body)),
            keeps_outside(old(self).recorded(), final(self).recorded(), block_ids(body)),
        decreases body, 0nat,
    {
        self.check_stmts(&body.stmts, ret_ty);
        let ghost m0 = self.recorded();
        match &body.tail {
            Some(t) => {
                let tail_ty = self.check_expr(&**t);
                if !types_match(&tail_ty, &Type::Void) {
                    let f = self.format_type(&tail_ty);
                    let msg = cat(&["dongu govdesi deger uretemez (bulunan ", f.as_str(), ")"]);
                    self.custom(msg, t.span());
                }
            },
            None => {},
        }
        proof {
            if self.errs().len() == old(self).errs().len() {
                lemma_tail_cover(m0, self.recorded(), body);
            }
            lemma_block_keep(old(self).recorded(), m0, self.recorded(), body);
        }
    }

    /// Checks one statement against the enclosing function's return type.
    fn check_statement(&mut self, stmt: &Stmt, ret_ty: &Type)
        requires
            old(self).vars().len() > 0,
        ensures
            steps(old(self), final(self)),
            final(self).same_context(old(self)),
            final(self).vars().len() == old(self).vars().len(),
            final(self).vars().drop_last() == old(self).vars().drop_last(),
            !(stmt is Let) ==> final(self).vars() == old(self).vars(),
            final(self).errs().len() == old(self).errs().len() ==> covers(final(self).recorded(), stmt_ids(stmt)),
            keeps_outside(old(self).recorded(), final(self).recorded(), stmt_ids(stmt)),
            stmt matches Stmt::Let { name, ty, value, .. } ==> (scope_find(old(self).vars().last(), *name) is None
                ==> (final(self).vars().last().len() == old(self).vars().last().len() + 1 && final(self).vars().last().last().0
                == *name && final(self).vars().last().last().1@ == let_type(*ty, final(self).recorded()[expr_id(value)]@))),
            let_lit_mismatch(stmt) ==> final(self).errs().len() > old(self).errs().len(),
            ret_lit_mismatch(stmt, ret_ty@) ==> ret_mismatch_listed(final(self).errs(), stmt, ret_ty@, old(self).names()),
            stmt matches Stmt::Assign { name, value, span } ==> (scopes_lookup(old(self).vars(), *name) matches Some(t)
                ==> (!tm(t@, final(self).recorded()[expr_id(value)]@) ==> has_mismatch(
                final(self).errs(),
                type_text(t@, old(self).names()),
                type_text(final(self).recorded()[expr_id(value)]@, old(self).names()),
                *span,
            ))),
            stmt matches Stmt::Return(e, span) ==> (!tm(ret_ty@, final(self).recorded()[expr_id(e)]@) ==> has_mismatch(
                final(self).errs(),
                type_text(ret_ty@, old(self).names()),
                type_text(final(self).recorded()[expr_id(e)]@, old(self).names()),
                *span,
            )),
            stmt_ids(stmt).no_duplicates() ==> (stmt matches Stmt::While { condition, span, .. } ==> (!tm(
                final(self).recorded()[expr_id(condition)]@,
                TypeV::Bool,
            ) ==> has_mismatch(
                final(self).errs(),
                "bool"@,
                type_text(final(self).recorded()[expr_id(condition)]@, old(self).names()),
                *span,
            ))),
            stmt_ids(stmt).no_duplicates() ==> (stmt matches Stmt::For { from, to, span, .. } ==> ((!tm(
                final(self).recorded()[expr_id(from)]@,
                TypeV::I32,
            ) ==> has_mismatch(
                final(self).errs(),
                "i32"@,
                type_text(final(self).recorded()[expr_id(from)]@, old(self).names()),
                *span,
            )) && (!tm(final(self).recorded()[expr_id(to)]@, TypeV::I32) ==> has_mismatch(
                final(self).errs(),
                "i32"@,
                type_text(final(self).recorded()[expr_id(to)]@, old(self).names()),
                *span,
            )))),
            stmt_ids(stmt).no_duplicates() ==> (stmt matches Stmt::AssignPlace { target, value, span } ==> (!tm(
                final(self).recorded()[expr_id(target)]@,
                final(self).recorded()[expr_id(value)]@,
            ) ==> has_mismatch(
                final(self).errs(),
                type_text(final(self).recorded()[expr_id(target)]@, old(self).names()),
                type_text(final(self).recorded()[expr_id(value)]@, old(self).names()),
                *span,
            ))),
            let_lit_mismatch(stmt) ==> lit_mismatch_listed(final(self).errs(), stmt, old(self).names()),
            stmt matches Stmt::Let { ty: Some(d), value, span, .. } ==> (!tm(d@, final(self).recorded()[expr_id(value)]@)
                ==> has_mismatch(
                final(self).errs(),
                type_text(d@, old(self).names()),
                type_text(final(self).recorded()[expr_id(value)]@, old(self).names()),
                *span,
            )),
        decreases stmt, 0nat,
    {
        match stmt {
            Stmt::Let { name, ty, value, span } => {
                let val_ty = self.check_expr(value);
                let ghost m1 = self.recorded();
                let ghost mut e_m: Seq<LexoraError> = Seq::empty();
                let var_ty = match ty {
                    Some(declared) => {
                        self.validate_type(declared, *span, NEST_LIMIT);
                        if !types_match(declared, &val_ty) {
                            self.mismatch(declared, &val_ty, *span);
                            proof {
                                e_m = self.errs();
                            }
                        }
                        declared.dup()
                    },
                    None => {
                        self.validate_type(&val_ty, *span, NEST_LIMIT);
                        val_ty
                    },
                };
                let is_void = match var_ty {
                    Type::Void => true,
                    _ => false,
                };
                if is_void {
                    let n = self.resolve(*name);
                    let msg = cat(
                        &["'", n.as_str(), "' void deger ile baglanamaz; void bir deger tipi degil"],
                    );
                    self.custom(msg, *span);
                }
                let ghost vt = var_ty@;
                let ghost e_d = self.errs();
                let ghost v_d = self.vars();
                if !self.variables.define(*name, var_ty) {
                    let n = self.resolve(*name);
                    self.report(LexoraError::AlreadyDefined { name: n, span: *span });
                }
                proof {
                    if self.errs().len() == old(self).errs().len() {
                        lemma_covers_mono(m1, self.recorded(), expr_ids(value));
                    }
                    assert(vt == let_type(*ty, self.recorded()[expr_id(value)]@));
                    if ty is Some && !tm(ty->0@, self.recorded()[expr_id(value)]@) {
                        assert(e_m.len() > 0);
                        lemma_kept_at(e_m, e_d, e_m.len() - 1);
                        lemma_kept_at(e_d, self.errs(), e_m.len() - 1);
                        assert(is_mismatch(
                            self.errs()[e_m.len() - 1],
                            type_text(ty->0@, old(self).names()),
                            type_text(self.recorded()[expr_id(value)]@, old(self).names()),
                            *span,
                        ));
                    }
                }
            },
            Stmt::Assign { name, value, span } => {
                let mut is_loop_var = false;
                let mut i: usize = 0;
                while i < self.loop_vars.len()
                    decreases self.loop_vars@.len() - i,
                {
                    if self.loop_vars[i].0 == name.0 {
                        is_loop_var = true;
                    }
                    i = i + 1;
                }
                if is_loop_var {
                    let n = self.resolve(*name);
                    let msg = cat(&["dongu degiskeni '", n.as_str(), "' degistirilemez"]);
                    self.custom(msg, *span);
                }
                let found = match self.variables.lookup(*name) {
                    Some(t) => Some(t.dup()),
                    None => None,
                };
                let var_ty = match found {
                    Some(t) => t,
                    None => {
                        let n = self.resolve(*name);
                        let suggestion = self.nearest_var(*name);
                        self.report(LexoraError::UndefinedVariable { name: n, suggestion, span: *span });
                        Type::Error
                    },
                };
                let val_ty = self.check_expr(value);
                if !types_match(&var_ty, &val_ty) {
                    self.mismatch(&var_ty, &val_ty, *span);
                    proof {
                        assert(is_mismatch(
                            self.errs()[self.errs().len() - 1],
                            type_text(var_ty@, old(self).names()),
                            type_text(self.recorded()[expr_id(value)]@, old(self).names()),
                            *span,
                        ));
                    }
                }
                proof {
                    if self.errs().len() == old(self).errs().len() {
                        assert(stmt_ids(stmt) == expr_ids(value));
                    }
                }
            },
            Stmt::Return(expr, span) => {
                let expr_ty = self.check_expr(expr);
                if !types_match(ret_ty, &expr_ty) {
                    self.mismatch(ret_ty, &expr_ty, *span);
                    proof {
                        assert(is_mismatch(
                            self.errs()[self.errs().len() - 1],
                            type_text(ret_ty@, old(self).names()),
                            type_text(self.recorded()[expr_id(expr)]@, old(self).names()),
                            *span,
                        ));
                    }
                }
            },
            Stmt::Expr(expr, _) => {
                self.check_expr(expr);
            },
            Stmt::While { condition, body, span } => {
                let cond_ty = self.check_expr(condition);
                let ghost m1 = self.recorded();
                let ghost e_c = self.errs();
                if !types_match(&cond_ty, &Type::Bool) {
                    let f = self.format_type(&cond_ty);
                    self.report(
                        LexoraError::TypeMismatch { expected: to_string("bool"), found: f, span: *span },
                    );
                }
                let ghost e_r = self.errs();
                self.variables.enter_scope();
                self.check_loop_body(body, ret_ty);
                self.variables.exit_scope();
                proof {
                    if stmt_ids(stmt).no_duplicates() {
                        assert(stmt_ids(stmt) == expr_ids(condition) + block_ids(body));
                        lemma_nodup_apart(expr_ids(condition), block_ids(body));
                        lemma_own_id(condition);
                        assert(self.recorded()[expr_id(condition)] == m1[expr_id(condition)]);
                    }
                    if stmt_ids(stmt).no_duplicates() && !tm(cond_ty@, TypeV::Bool) {
                        assert(is_mismatch(
                            e_r[e_r.len() - 1],
                            "bool"@,
                            type_text(cond_ty@, old(self).names()),
                            *span,
                        ));
                        lemma_kept_at(e_r, self.errs(), e_r.len() - 1);
                        assert(m1[expr_id(condition)]@ == cond_ty@);
                        assert(is_mismatch(
                            self.errs()[e_r.len() - 1],
                            "bool"@,
                            type_text(self.recorded()[expr_id(condition)]@, old(self).names()),
                            *span,
                        ));
                    }
                    if self.errs().len() == old(self).errs().len() {
                        lemma_covers_join(m1, self.recorded(), self.recorded(), expr_ids(condition), block_ids(body));
                    }
                    assert(stmt_ids(stmt) == expr_ids(condition) + block_ids(body));
                    lemma_within_cat(expr_ids(condition), block_ids(body));
                    lemma_keeps_chain(
                        old(self).recorded(),
                        m1,
                        self.recorded(),
                        expr_ids(condition),
                        block_ids(body),
                        stmt_ids(stmt),
                    );
                }
            },
            Stmt::For { var, from, to, body, span } => {
                let from_ty = self.check_expr(from);
                let ghost m1 = self.recorded();
                if !types_match(&from_ty, &Type::I32) {
                    let f = self.format_type(&from_ty);
                    self.report(
                        LexoraError::TypeMismatch { expected: to_string("i32"), found: f, span: *span },
                    );
                }
                let ghost e_f = self.errs();
                let to_ty = self.check_expr(to);
                let ghost m2 = self.recorded();
                if !types_match(&to_ty, &Type::I32) {
                    let f = self.format_type(&to_ty);
                    self.report(
                        LexoraError::TypeMismatch { expected: to_string("i32"), found: f, span: *span },
                    );
                }
                let ghost e_t = self.errs();
                self.variables.enter_scope();
                if !self.variables.define(*var, Type::I32) {
                    let n = self.resolve(*var);
                    self.report(LexoraError::AlreadyDefined { name: n, span: *span });
                }
                self.loop_vars.push(*var);
                self.check_loop_body(body, ret_ty);
                let _ = self.loop_vars.pop();
                assert(self.loop_vars@ =~= old(self).loop_vars@);
                self.variables.exit_scope();
                proof {
                    if self.errs().len() == old(self).errs().len() {
                        lemma_covers_join(m1, m2, m2, expr_ids(from), expr_ids(to));
                        lemma_covers_join(m2, self.recorded(), self.recorded(), expr_ids(from) + expr_ids(to), block_ids(body));
                    }
                    assert(stmt_ids(stmt) == expr_ids(from) + expr_ids(to) + block_ids(body));
                    if stmt_ids(stmt).no_duplicates() {
                        lemma_nodup_apart(expr_ids(from) + expr_ids(to), block_ids(body));
                        lemma_nodup_apart(expr_ids(from), expr_ids(to));
                        lemma_own_id(from);
                        lemma_own_id(to);
                        assert((expr_ids(from) + expr_ids(to)).contains(expr_id(from))) by {
                            let k = choose|k: int| 0 <= k < expr_ids(from).len() && expr_ids(from)[k] == expr_id(from);
                            assert((expr_ids(from) + expr_ids(to))[k] == expr_id(from));
                        }
                        assert((expr_ids(from) + expr_ids(to)).contains(expr_id(to))) by {
                            let k = choose|k: int| 0 <= k < expr_ids(to).len() && expr_ids(to)[k] == expr_id(to);
                            assert((expr_ids(from) + expr_ids(to))[expr_ids(from).len() + k] == expr_id(to));
                        }
                        assert(m2[expr_id(from)] == m1[expr_id(from)]);
                        assert(self.recorded()[expr_id(from)] == m2[expr_id(from)]);
                        assert(self.recorded()[expr_id(to)] == m2[expr_id(to)]);
                        if !tm(from_ty@, TypeV::I32) {
                            let k = e_f.len() - 1;
                            assert(is_mismatch(e_f[k], "i32"@, type_text(from_ty@, old(self).names()), *span));
                            lemma_kept_at(e_f, e_t, k);
                            lemma_kept_at(e_t, self.errs(), k);
                            assert(is_mismatch(
                                self.errs()[k],
                                "i32"@,
                                type_text(self.recorded()[expr_id(from)]@, old(self).names()),
                                *span,
                            ));
                        }
                        if !tm(to_ty@, TypeV::I32) {
                            let k = e_t.len() - 1;
                            assert(is_mismatch(e_t[k], "i32"@, type_text(to_ty@, old(self).names()), *span));
                            lemma_kept_at(e_t, self.errs(), k);
                            assert(is_mismatch(
                                self.errs()[k],
                                "i32"@,
                                type_text(self.recorded()[expr_id(to)]@, old(self).names()),
                                *span,
                            ));
                        }
                    }
                    lemma_within_cat(expr_ids(from), expr_ids(to));
                    lemma_keeps_chain(
                        old(self).recorded(),
                        m1,
                        m2,
                        expr_ids(from),
                        expr_ids(to),
                        expr_ids(from) + expr_ids(to),
                    );
                    lemma_within_cat(expr_ids(from) + expr_ids(to), block_ids(body));
                    lemma_keeps_chain(
                        old(self).recorded(),
                        m2,
                        self.recorded(),
                        expr_ids(from) + expr_ids(to),
                        block_ids(body),
                        stmt_ids(stmt),
                    );
                }
            },
            Stmt::AssignPlace { target, value, span } => {
                let target_ty = self.check_expr(target);
                let ghost m1 = self.recorded();
                let val_ty = self.check_expr(value);
                let ghost m2 = self.recorded();
                if !types_match(&target_ty, &val_ty) {
                    self.mismatch(&target_ty, &val_ty, *span);
                }
                proof {
                    if self.errs().len() == old(self).errs().len() {
                        lemma_covers_join(m1, self.recorded(), self.recorded(), expr_ids(target), expr_ids(value));
                    }
                    if stmt_ids(stmt).no_duplicates() {
                        assert(stmt_ids(stmt) == expr_ids(target) + expr_ids(value));
                        lemma_nodup_apart(expr_ids(target), expr_ids(value));
                        lemma_own_id(target);
                        assert(self.recorded()[expr_id(target)] == m1[expr_id(target)]);
                        if !tm(target_ty@, val_ty@) {
                            assert(is_mismatch(
                                self.errs()[self.errs().len() - 1],
                                type_text(target_ty@, old(self).names()),
                                type_text(val_ty@, old(self).names()),
                                *span,
                            ));
                        }
                    }
                    assert(stmt_ids(stmt) == expr_ids(target) + expr_ids(value));
                    lemma_within_cat(expr_ids(target), expr_ids(value));
                    lemma_keeps_chain(
                        old(self).recorded(),
                        m1,
                        self.recorded(),
                        expr_ids(target),
                        expr_ids(value),
                        stmt_ids(stmt),
                    );
                }
            },
            Stmt::Error(_) => {},
        }
    }
}

impl<'i> TypeChecker<'i> {
    fn check_expr_inner(&mut self, expr: &Expr) -> (r: Type)
        ensures
            steps(old(self), final(self)),
            final(self).same_context(old(self)),
            final(self).vars() == old(self).vars(),
            result_ok(expr, r@, old(self).vars(), old(self).fns(), old(self).strs(), old(self).names()),
            final(self).errs().len() == old(self).errs().len() ==> covers(final(self).recorded(), expr_ids(expr).drop_last()),
            keeps_outside(old(self).recorded(), final(self).recorded(), expr_ids(expr).drop_last()),
            expr_ids(expr).no_duplicates() ==> node_rule(expr, r@, final(self).recorded()),
            (expr is Integer || expr is Bool || expr is StringLiteral || expr is Error) ==> final(self).errs()
                == old(self).errs(),
            expr matches Expr::Identifier(sym, span, _) ==> (if scopes_lookup(old(self).vars(), *sym) is Some {
                final(self).errs() == old(self).errs()
            } else {
                &&& final(self).errs().len() == old(self).errs().len() + 1
                &&& (final(self).errs().last() matches LexoraError::UndefinedVariable { name, span: sp, .. }
                    && name@ == name_text(old(self).names(), *sym) && sp == *span)
            }),
            expr matches Expr::Try { expr: inner, span, .. } ==> try_rule(
                final(self).recorded()[expr_id(&**inner)]@,
                old(self).ret_ty(),
                old(self).enum_tbl(),
                old(self).names(),
                *span,
                final(self).errs(),
                r@,
            ),
            expr_ids(expr).no_duplicates() ==> (expr matches Expr::Match { scrutinee, arms, span, .. } ==> (
            forall|k: int|
                #[trigger] unmatched(
                    final(self).recorded()[expr_id(&**scrutinee)]@,
                    old(self).enum_tbl(),
                    arms@,
                    k,
                ) ==> has_custom(
                    final(self).errs(),
                    unmatched_text(old(self).names(), final(self).recorded()[expr_id(&**scrutinee)]@, old(self).enum_tbl(), k),
                    *span,
                ))),
            expr_ids(expr).no_duplicates() ==> (expr matches Expr::BinaryOp { left, op, right, span, .. }
                ==> binary_errs(
                old(self).errs(),
                final(self).errs(),
                *op,
                final(self).recorded()[expr_id(&**left)]@,
                final(self).recorded()[expr_id(&**right)]@,
                *span,
            )),
            expr_ids(expr).no_duplicates() ==> (expr matches Expr::Cast { expr: inner, target_type, span, .. } ==> (
            cast_rejected(final(self).recorded()[expr_id(&**inner)]@, target_type@) ==> (final(self).errs().len() > 0
                && (final(self).errs().last() matches LexoraError::InvalidCast { from, to, span: sp }
                && from@ == type_text(final(self).recorded()[expr_id(&**inner)]@, old(self).names())
                && to@ == type_text(target_type@, old(self).names()) && sp == *span)))),
        decreases expr, 1nat,
    {
        proof {
            lemma_expr_ids_last(expr);
            assert(expr_ids(expr) =~= expr_ids(expr).drop_last() + seq![expr_id(expr)]);
            if expr_ids(expr).no_duplicates() {
                lemma_nodup_apart(expr_ids(expr).drop_last(), seq![expr_id(expr)]);
            }
        }
        match expr {
            Expr::Integer(n, _, _) => {
                if *n >= -2147483648i64 && *n <= 2147483647i64 {
                    Type::I32
                } else {
                    Type::I64
                }
            },
            Expr::Bool(_, _, _) => Type::Bool,
            Expr::StringLiteral(_, _, _) => Type::Str,
            Expr::Identifier(sym, span, _) => {
                let found = match self.variables.lookup(*sym) {
                    Some(t) => Some(t.dup()),
                    None => None,
                };
                match found {
                    Some(t) => t,
                    None => {
                        let n = self.resolve(*sym);
                        let suggestion = self.nearest_var(*sym);
                        self.report(LexoraError::UndefinedVariable { name: n, suggestion, span: *span });
                        Type::Error
                    },
                }
            },
            Expr::BinaryOp { left, op, right, span, .. } => {
                let lt = self.check_expr(&**left);
                let ghost m1 = self.recorded();
                let rt = self.check_expr(&**right);
                proof {
                    if self.errs().len() == old(self).errs().len() {
                        lemma_covers_join(m1, self.recorded(), self.recorded(), expr_ids(&**left), expr_ids(&**right));
                    }
                    assert(expr_ids(expr).drop_last() =~= expr_ids(&**left) + expr_ids(&**right));
                    lemma_within_cat(expr_ids(&**left), expr_ids(&**right));
                    lemma_keeps_chain(
                        old(self).recorded(),
                        m1,
                        self.recorded(),
                        expr_ids(&**left),
                        expr_ids(&**right),
                        expr_ids(expr).drop_last(),
                    );
                    if expr_ids(expr).no_duplicates() {
                        lemma_nodup_apart(expr_ids(&**left), expr_ids(&**right));
                        lemma_own_id(&**left);
                        assert(m1.contains_key(expr_id(&**left)));
                    }
                }
                let ghost mid = self.errs();
                let ghost glt = lt@;
                let ghost grt = rt@;
                let r = self.binary_result(*op, lt, rt, *span);
                proof {
                    assert(grows(mid, self.errs()));
                    assert(self.errs().len() == mid.len() + (if binary_complaint(*op, glt, grt) {
                        1int
                    } else {
                        0int
                    }));
                }
                r
            },
            Expr::UnaryOp { op, operand, span, .. } => {
                let ty = self.check_expr(&**operand);
                proof {
                    assert(expr_ids(expr).drop_last() =~= expr_ids(&**operand));
                }
                let ghost m1 = self.recorded();
                match op {
                    UnaryOperator::Not => {
                        if !types_match(&ty, &Type::Bool) {
                            let f = self.format_type(&ty);
                            self.report(
                                LexoraError::TypeMismatch {
                                    expected: to_string("bool"),
                                    found: f,
                                    span: *span,
                                },
                            );
                            return Type::Error;
                        }
                        Type::Bool
                    },
                    UnaryOperator::Neg => {
                        if !types_match(&ty, &Type::I32) && !types_match(&ty, &Type::I64) {
                            let f = self.format_type(&ty);
                            self.report(
                                LexoraError::TypeMismatch {
                                    expected: to_string("i32 veya i64"),
                                    found: f,
                                    span: *span,
                                },
                            );
                            return Type::Error;
                        }
                        ty
                    },
                }
            },
            Expr::Cast { expr: inner, target_type, span, .. } => {
                self.validate_type(target_type, *span, NEST_LIMIT);
                let ghost m0 = self.recorded();
                let from_ty = self.check_expr(&**inner);
                proof {
                    assert(expr_ids(expr).drop_last() =~= expr_ids(&**inner));
                }
                match (&from_ty, target_type) {
                    (Type::Error, _) => Type::Error,
                    (Type::I32, Type::I64) | (Type::I64, Type::I32) => target_type.dup(),
                    _ => {
                        let f = self.format_type(&from_ty);
                        let t = self.format_type(target_type);
                        self.report(LexoraError::InvalidCast { from: f, to: t, span: *span });
                        Type::Error
                    },
                }
            },
            Expr::Call { .. } => self.check_call(expr),
            Expr::ArrayLiteral(elems, span, _) => {
                if elems.len() == 0 {
                    self.custom(to_string("bos dizi literal tan\u{131}mlamaz"), *span);
                    return Type::Error;
                }
                let elem_ty = self.check_expr(&elems[0]);
                let ghost m1 = self.recorded();
                proof {
                    if self.errs().len() == old(self).errs().len() {
                        assert(elems@.take(0) =~= Seq::<Expr>::empty());
                        lemma_exprs_step(self.recorded(), self.recorded(), elems@, 0);
                    }
                }
                self.check_array_rest(elems, &elem_ty, *span);
                proof {
                    assert(expr_ids(expr).drop_last() =~= exprs_ids(elems@));
                    assert(elems@.take(1).drop_last() =~= Seq::<Expr>::empty());
                    assert(elems@.take(1).last() == elems@[0]);
                    assert(exprs_ids(elems@.take(1).drop_last()) =~= Seq::<ExprId>::empty());
                    assert(exprs_ids(elems@.take(1)) =~= expr_ids(&elems@[0]));
                    lemma_exprs_prefix(elems@, 1);
                    lemma_within_refl(exprs_ids(elems@));
                    lemma_keeps_chain(
                        old(self).recorded(),
                        m1,
                        self.recorded(),
                        expr_ids(&elems@[0]),
                        exprs_ids(elems@),
                        exprs_ids(elems@),
                    );
                }
                Type::Array(Box::new(elem_ty), elems.len())
            },
            Expr::Index { array, index, span, .. } => {
                let arr_ty = self.check_expr(&**array);
                let ghost m1 = self.recorded();
                let idx_ty = self.check_expr(&**index);
                proof {
                    if self.errs().len() == old(self).errs().len() {
                        lemma_covers_join(m1, self.recorded(), self.recorded(), expr_ids(&**array), expr_ids(&**index));
                    }
                    assert(expr_ids(expr).drop_last() =~= expr_ids(&**array) + expr_ids(&**index));
                    lemma_within_cat(expr_ids(&**array), expr_ids(&**index));
                    lemma_keeps_chain(
                        old(self).recorded(),
                        m1,
                        self.recorded(),
                        expr_ids(&**array),
                        expr_ids(&**index),
                        expr_ids(expr).drop_last(),
                    );
                    if expr_ids(expr).no_duplicates() {
                        lemma_nodup_apart(expr_ids(&**array), expr_ids(&**index));
                        lemma_own_id(&**array);
                        assert(m1.contains_key(expr_id(&**array)));
                    }
                }
                if !types_match(&idx_ty, &Type::I32) {
                    let f = self.format_type(&idx_ty);
                    self.report(
                        LexoraError::TypeMismatch { expected: to_string("i32"), found: f, span: *span },
                    );
                }
                match arr_ty {
                    Type::Error => Type::Error,
                    Type::Array(elem, _) => *elem,
                    _ => {
                        self.custom(
                            to_string("dizi olmayan de\u{11f}ere index uygulanamaz"),
                            *span,
                        );
                        Type::Error
                    },
                }
            },
            Expr::StructLiteral { .. } => self.check_struct_literal(expr),
            Expr::FieldAccess { .. } => self.check_field_access(expr),
            Expr::Box { value, .. } => {
                let inner = self.check_expr(&**value);
                proof {
                    assert(expr_ids(expr).drop_last() =~= expr_ids(&**value));
                }
                Type::Box(Box::new(inner))
            },
            Expr::Deref { target, span, .. } => {
                let target_ty = self.check_expr(&**target);
                proof {
                    assert(expr_ids(expr).drop_last() =~= expr_ids(&**target));
                }
                match target_ty {
                    Type::Error => Type::Error,
                    Type::Box(inner) => *inner,
                    _ => {
                        let f = self.format_type(&target_ty);
                        let msg = cat(&["Box olmayan deger deref edilemez: ", f.as_str()]);
                        self.custom(msg, *span);
                        Type::Error
                    },
                }
            },
            Expr::EnumVariant { .. } => self.check_enum_variant(expr),
            Expr::Match { .. } => self.check_match(expr),
            Expr::If { .. } => self.check_if(expr),
            Expr::Try { .. } => self.check_try(expr),
            Expr::Error(_, _) => Type::Error,
        }
    }

    /// The type of `left op right` from the operand types, reporting misuse.
    fn binary_result(&mut self, op: BinaryOperator, lt: Type, rt: Type, span: Span) -> (r: Type)
        ensures
            steps(old(self), final(self)),
            final(self).same_context(old(self)),
            final(self).vars() == old(self).vars(),
            final(self).recorded() == old(self).recorded(),
            r@ == binary_type(op, lt@, rt@),
            final(self).errs().len() == old(self).errs().len() + if binary_complaint(op, lt@, rt@) {
                1int
            } else {
                0int
            },
            (op is Add && lt@ == TypeV::Str && rt@ == TypeV::Str) ==> is_custom(
                final(self).errs().last(),
                str_concat_text(),
                span,
            ),
    {
        match op {
            BinaryOperator::And | BinaryOperator::Or => {
                let lb = types_match(&lt, &Type::Bool);
                let rb = types_match(&rt, &Type::Bool);
                if !lb || !rb {
                    let f = if !lb {
                        self.format_type(&lt)
                    } else {
                        self.format_type(&rt)
                    };
                    self.report(LexoraError::TypeMismatch { expected: to_string("bool"), found: f, span });
                    return Type::Error;
                }
                Type::Bool
            },
            BinaryOperator::Eq | BinaryOperator::NotEq | BinaryOperator::Less
            | BinaryOperator::Greater | BinaryOperator::LessEq | BinaryOperator::GreaterEq => {
                if is_error(&lt) || is_error(&rt) {
                    return Type::Error;
                }
                if is_stringy(&lt) && is_stringy(&rt) {
                    return Type::Bool;
                }
                if !types_match(&lt, &rt) {
                    self.mismatch(&lt, &rt, span);
                    return Type::Error;
                }
                let is_eq = match op {
                    BinaryOperator::Eq | BinaryOperator::NotEq => true,
                    _ => false,
                };
                let ok = match lt {
                    Type::I32 | Type::I64 => true,
                    Type::Bool => is_eq,
                    _ => false,
                };
                if !ok {
                    let f = self.format_type(&lt);
                    let msg = if is_eq {
                        cat(
                            &[
                                "'==' / '!=' bu tipte kullanilamaz: ",
                                f.as_str(),
                                " \u{2014} esitlik sayisal, bool veya string tiplerinde olur",
                            ],
                        )
                    } else {
                        cat(
                            &[
                                "siralama karsilastirmasi sayisal veya string tip gerektirir, bulunan ",
                                f.as_str(),
                            ],
                        )
                    };
                    self.custom(msg, span);
                    return Type::Error;
                }
                Type::Bool
            },
            _ => {
                if is_error(&lt) || is_error(&rt) {
                    return Type::Error;
                }
                let is_add = match op {
                    BinaryOperator::Add => true,
                    _ => false,
                };
                if is_add {
                    match (&lt, &rt) {
                        (Type::String, Type::String) | (Type::String, Type::Str) | (
                            Type::Str,
                            Type::String,
                        ) => {
                            return Type::String;
                        },
                        (Type::Str, Type::Str) => {
                            self.custom(
                                to_string(
                                    "iki str sabiti '+' ile birlestirilemez; once string() ile String'e cevirin",
                                ),
                                span,
                            );
                            return Type::Error;
                        },
                        _ => {},
                    }
                }
                if !types_match(&lt, &rt) {
                    self.mismatch(&lt, &rt, span);
                    return Type::Error;
                }
                match lt {
                    Type::I32 | Type::I64 => lt,
                    _ => {
                        let f = self.format_type(&lt);
                        let msg = cat(
                            &[
                                "aritmetik islem sayisal tip gerektirir (i32/i64), bulunan ",
                                f.as_str(),
                            ],
                        );
                        self.custom(msg, span);
                        Type::Error
                    },
                }
            },
        }
    }

    /// Checks the elements after the first against the first one's type.
    fn check_array_rest(&mut self, elems: &Vec<Expr>, elem_ty: &Type, span: Span)
        requires
            elems@.len() > 0,
        ensures
            steps(old(self), final(self)),
            final(self).same_context(old(self)),
            final(self).vars() == old(self).vars(),
            final(self).errs().len() == old(self).errs().len() && covers(
                old(self).recorded(),
                exprs_ids(elems@.take(1)),
            ) ==> covers(final(self).recorded(), exprs_ids(elems@)),
            keeps_outside(old(self).recorded(), final(self).recorded(), exprs_ids(elems@)),
        decreases elems, 0nat,
    {
        let mut i: usize = 1;
        while i < elems.len()
            invariant
                1 <= i <= elems@.len(),
                steps(old(self), self),
                self.same_context(old(self)),
                self.vars() == old(self).vars(),
                self.errs().len() == old(self).errs().len() && covers(
                    old(self).recorded(),
                    exprs_ids(elems@.take(1)),
                ) ==> covers(self.recorded(), exprs_ids(elems@.take(i as int))),
                keeps_outside(old(self).recorded(), self.recorded(), exprs_ids(elems@.take(i as int))),
            decreases elems@.len() - i,
        {
            let ghost m0 = self.recorded();
            let t = self.check_expr(&elems[i]);
            if !types_match(elem_ty, &t) {
                self.mismatch(elem_ty, &t, span);
            }
            proof {
                if self.errs().len() == old(self).errs().len() && covers(
                    old(self).recorded(),
                    exprs_ids(elems@.take(1)),
                ) {
                    lemma_exprs_step(m0, self.recorded(), elems@, i as int);
                }
                lemma_exprs_keep(old(self).recorded(), m0, self.recorded(), elems@, i as int);
            }
            i = i + 1;
        }
        proof {
            if self.errs().len() == old(self).errs().len() && covers(
                old(self).recorded(),
                exprs_ids(elems@.take(1)),
            ) {
                lemma_covers_mono(old(self).recorded(), self.recorded(), exprs_ids(elems@.take(1)));
            }
        }
        assert(elems@.take(elems@.len() as int) =~= elems@);
    }
}

fn is_error(t: &Type) -> (r: bool)
    ensures
        r == (t@ is Error),
{
    match t {
        Type::Error => true,
        _ => false,
    }
}

/// The type of a binary operation on operands of types `lt` and `rt`.
pub open spec fn binary_type(op: BinaryOperator, lt: TypeV, rt: TypeV) -> TypeV {
    match op {
        BinaryOperator::And | BinaryOperator::Or => if tm(lt, TypeV::Bool) && tm(rt, TypeV::Bool) {
            TypeV::Bool
        } else {
            TypeV::Error
        },
        BinaryOperator::Eq | BinaryOperator::NotEq => if lt is Error || rt is Error {
            TypeV::Error
        } else if stringy(lt) && stringy(rt) {
            TypeV::Bool
        } else if tm(lt, rt) && (lt is I32 || lt is I64 || lt is Bool) {
            TypeV::Bool
        } else {
            TypeV::Error
        },
        BinaryOperator::Less | BinaryOperator::Greater | BinaryOperator::LessEq
        | BinaryOperator::GreaterEq => if lt is Error || rt is Error {
            TypeV::Error
        } else if stringy(lt) && stringy(rt) {
            TypeV::Bool
        } else if tm(lt, rt) && (lt is I32 || lt is I64) {
            TypeV::Bool
        } else {
            TypeV::Error
        },
        _ => if lt is Error || rt is Error {
            TypeV::Error
        } else if op is Add && ((lt is String && stringy(rt)) || (lt is Str && rt is String)) {
            TypeV::String
        } else if tm(lt, rt) && (lt is I32 || lt is I64) {
            lt
        } else {
            TypeV::Error
        },
    }
}

/// Whether a binary operation on these operand types is reported as an error
/// (an operand that is already in error is not reported again).
pub open spec fn binary_complaint(op: BinaryOperator, lt: TypeV, rt: TypeV) -> bool {
    match op {
        BinaryOperator::And | BinaryOperator::Or => !(tm(lt, TypeV::Bool) && tm(rt, TypeV::Bool)),
        _ => !(lt is Error || rt is Error) && binary_type(op, lt, rt) is Error,
    }
}

/// A copy of a list of symbols.
pub(crate) fn dup_syms(v: &Vec<Symbol>) -> (r: Vec<Symbol>)
    ensures
        r@ == v@,
{
    let mut out: Vec<Symbol> = Vec::new();
    let mut i: usize = 0;
    while i < v.len()
        invariant
            i <= v@.len(),
            out@ == v@.take(i as int),
        decreases v@.len() - i,
    {
        out.push(v[i]);
        i = i + 1;
        assert(out@ =~= v@.take(i as int));
    }
    assert(v@.take(v@.len() as int) =~= v@);
    out
}

/// A copy of a list of named types.
pub(crate) fn dup_fields(v: &Vec<(Symbol, Type)>) -> (r: Vec<(Symbol, Type)>)
    ensures
        assoc_view(r@) == assoc_view(v@),
        r@.len() == v@.len(),
        forall|i: int| 0 <= i < v@.len() ==> (#[trigger] r@[i]).0 == v@[i].0,
{
    let mut out: Vec<(Symbol, Type)> = Vec::new();
    let mut i: usize = 0;
    while i < v.len()
        invariant
            i <= v@.len(),
            out@.len() == i,
            forall|j: int| 0 <= j < i ==> (#[trigger] out@[j]).0 == v@[j].0 && out@[j].1@ == v@[j].1@,
        decreases v@.len() - i,
    {
        out.push((v[i].0, v[i].1.dup()));
        i = i + 1;
    }
    assert(assoc_view(out@) =~= assoc_view(v@));
    out
}

impl<'i> TypeChecker<'i> {
    /// Checks each expression of a list and returns their types.
    fn check_exprs(&mut self, es: &Vec<Expr>) -> (r: Vec<Type>)
        ensures
            steps(old(self), final(self)),
            final(self).same_context(old(self)),
            final(self).vars() == old(self).vars(),
            r@.len() == es@.len(),
            final(self).errs().len() == old(self).errs().len() ==> covers(final(self).recorded(), exprs_ids(es@)),
            keeps_outside(old(self).recorded(), final(self).recorded(), exprs_ids(es@)),
        decreases es, 0nat,
    {
        let mut out: Vec<Type> = Vec::new();
        let mut i: usize = 0;
        while i < es.len()
            invariant
                i <= es@.len(),
                out@.len() == i,
                steps(old(self), self),
                self.same_context(old(self)),
                self.vars() == old(self).vars(),
                self.errs().len() == old(self).errs().len() ==> covers(self.recorded(), exprs_ids(es@.take(i as int))),
                keeps_outside(old(self).recorded(), self.recorded(), exprs_ids(es@.take(i as int))),
            decreases es@.len() - i,
        {
            let ghost m0 = self.recorded();
            let t = self.check_expr(&es[i]);
            proof {
                if self.errs().len() == old(self).errs().len() {
                    lemma_exprs_step(m0, self.recorded(), es@, i as int);
                }
                lemma_exprs_keep(old(self).recorded(), m0, self.recorded(), es@, i as int);
            }
            out.push(t);
            i = i + 1;
        }
        assert(es@.take(es@.len() as int) =~= es@);
        out
    }

    /// Checks call arguments against the parameter types.
    fn check_call_args(&mut self, args: &Vec<Expr>, params: &Vec<Type>, span: Span)
        requires
            args@.len() == params@.len(),
        ensures
            steps(old(self), final(self)),
            final(self).same_context(old(self)),
            final(self).vars() == old(self).vars(),
            final(self).errs().len() == old(self).errs().len() ==> covers(final(self).recorded(), exprs_ids(args@)),
            keeps_outside(old(self).recorded(), final(self).recorded(), exprs_ids(args@)),
        decreases args, 0nat,
    {
        let mut i: usize = 0;
        while i < args.len()
            invariant
                args@.len() == params@.len(),
                i <= args@.len(),
                steps(old(self), self),
                self.same_context(old(self)),
                self.vars() == old(self).vars(),
                self.errs().len() == old(self).errs().len() ==> covers(self.recorded(), exprs_ids(args@.take(i as int))),
                keeps_outside(old(self).recorded(), self.recorded(), exprs_ids(args@.take(i as int))),
            decreases args@.len() - i,
        {
            let ghost m0 = self.recorded();
            let arg_ty = self.check_expr(&args[i]);
            if !types_match(&arg_ty, &params[i]) {
                self.mismatch(&params[i], &arg_ty, span);
            }
            proof {
                if self.errs().len() == old(self).errs().len() {
                    lemma_exprs_step(m0, self.recorded(), args@, i as int);
                }
                lemma_exprs_keep(old(self).recorded(), m0, self.recorded(), args@, i as int);
            }
            i = i + 1;
        }
        assert(args@.take(args@.len() as int) =~= args@);
    }

    /// Checks the arguments of `print`: each must be printable.
    fn check_print_args(&mut self, args: &Vec<Expr>)
        ensures
            steps(old(self), final(self)),
            final(self).same_context(old(self)),
            final(self).vars() == old(self).vars(),
            final(self).errs().len() == old(self).errs().len() ==> covers(final(self).recorded(), exprs_ids(args@)),
            keeps_outside(old(self).recorded(), final(self).recorded(), exprs_ids(args@)),
        decreases args, 0nat,
    {
        let mut i: usize = 0;
        while i < args.len()
            invariant
                i <= args@.len(),
                steps(old(self), self),
                self.same_context(old(self)),
                self.vars() == old(self).vars(),
                self.errs().len() == old(self).errs().len() ==> covers(self.recorded(), exprs_ids(args@.take(i as int))),
                keeps_outside(old(self).recorded(), self.recorded(), exprs_ids(args@.take(i as int))),
            decreases args@.len() - i,
        {
            let ghost m0 = self.recorded();
            let aty = self.check_expr(&args[i]);
            let printable = match aty {
                Type::Error | Type::I32 | Type::I64 | Type::Bool | Type::Str | Type::String => true,
                _ => false,
            };
            if !printable {
                let f = self.format_type(&aty);
                let msg = cat(
                    &[
                        "print bu tipi yazdiramaz: ",
                        f.as_str(),
                        " \u{2014} yazdirilabilir tipler i32/i64/bool/str/String",
                    ],
                );
                self.custom(msg, args[i].span());
            }
            proof {
                if self.errs().len() == old(self).errs().len() {
                    lemma_exprs_step(m0, self.recorded(), args@, i as int);
                }
                lemma_exprs_keep(old(self).recorded(), m0, self.recorded(), args@, i as int);
            }
            i = i + 1;
        }
        assert(args@.take(args@.len() as int) =~= args@);
    }

    fn check_call(&mut self, expr: &Expr) -> (r: Type)
        requires
            expr is Call,
        ensures
            steps(old(self), final(self)),
            final(self).same_context(old(self)),
            final(self).vars() == old(self).vars(),
            result_ok(expr, r@, old(self).vars(), old(self).fns(), old(self).strs(), old(self).names()),
            final(self).errs().len() == old(self).errs().len() ==> covers(final(self).recorded(), expr_ids(expr).drop_last()),
            keeps_outside(old(self).recorded(), final(self).recorded(), expr_ids(expr).drop_last()),
        decreases expr, 0nat,
    {
        match expr {
            Expr::Call { name, args, span, .. } => {
                proof {
                    assert(expr_ids(expr).drop_last() =~= exprs_ids(args@));
                }
                match find_key(&self.functions, *name) {
                    Some(k) => {
                        let param_types = crate::ast::dup_types(&self.functions[k].1.0);
                        let ret_ty = self.functions[k].1.1.dup();
                        if args.len() != param_types.len() {
                            let n = self.resolve(*name);
                            let a = num(param_types.len());
                            let b = num(args.len());
                            let msg = cat(
                                &["'", n.as_str(), "' ", a.as_str(), " arg\u{fc}man bekliyor, ", b.as_str(), " verildi"],
                            );
                            self.custom(msg, *span);
                            self.check_each(args);
                            return ret_ty;
                        }
                        self.check_call_args(args, &param_types, *span);
                        ret_ty
                    },
                    None => {
                        let name_str = self.name_str(*name);
                        proof {
                            reveal_strlit("print");
                            reveal_strlit("string");
                            reveal_strlit("len");
                        }
                        if str_eq(name_str, "print") {
                            if args.len() != 1 {
                                self.custom(to_string("print bir arguman alir"), *span);
                            }
                            self.check_print_args(args);
                            Type::Void
                        } else if str_eq(name_str, "string") {
                            if args.len() != 1 {
                                self.custom(to_string("string bir str arguman alir"), *span);
                                self.check_each(args);
                                return Type::String;
                            }
                            let arg_ty = self.check_expr(&args[0]);
                            proof {
                                if self.errs().len() == old(self).errs().len() {
                                    assert(args@.take(0) =~= Seq::<Expr>::empty());
                                    assert(args@.take(1) =~= args@);
                                    lemma_exprs_step(old(self).recorded(), self.recorded(), args@, 0);
                                }
                                assert(args@.take(0) =~= Seq::<Expr>::empty());
                                assert(args@.take(1) =~= args@);
                                lemma_exprs_keep(old(self).recorded(), old(self).recorded(), self.recorded(), args@, 0);
                            }
                            if !is_error(&arg_ty) && !types_match(&arg_ty, &Type::Str) {
                                let f = self.format_type(&arg_ty);
                                self.report(
                                    LexoraError::TypeMismatch {
                                        expected: to_string("str"),
                                        found: f,
                                        span: args[0].span(),
                                    },
                                );
                            }
                            Type::String
                        } else if str_eq(name_str, "len") {
                            if args.len() != 1 {
                                self.custom(to_string("len bir str veya String arguman alir"), *span);
                                self.check_each(args);
                                return Type::I32;
                            }
                            let arg_ty = self.check_expr(&args[0]);
                            proof {
                                if self.errs().len() == old(self).errs().len() {
                                    assert(args@.take(0) =~= Seq::<Expr>::empty());
                                    assert(args@.take(1) =~= args@);
                                    lemma_exprs_step(old(self).recorded(), self.recorded(), args@, 0);
                                }
                                assert(args@.take(0) =~= Seq::<Expr>::empty());
                                assert(args@.take(1) =~= args@);
                                lemma_exprs_keep(old(self).recorded(), old(self).recorded(), self.recorded(), args@, 0);
                            }
                            if !is_error(&arg_ty) && !is_stringy(&arg_ty) {
                                let f = self.format_type(&arg_ty);
                                self.report(
                                    LexoraError::TypeMismatch {
                                        expected: to_string("String veya str"),
                                        found: f,
                                        span: args[0].span(),
                                    },
                                );
                            }
                            Type::I32
                        } else {
                            let suggestion = self.nearest_fn(*name);
                            self.report(
                                LexoraError::UndefinedFunction {
                                    name: to_string(name_str),
                                    suggestion,
                                    span: *span,
                                },
                            );
                            self.check_each(args);
                            Type::Error
                        }
                    },
                }
            },
            _ => Type::Error,
        }
    }

    /// Checks the values of a struct literal against the declared fields.
    fn check_struct_fields(
        &mut self,
        fields: &Vec<(Symbol, Expr)>,
        struct_fields: &Vec<(Symbol, Type)>,
        span: Span,
    )
        ensures
            steps(old(self), final(self)),
            final(self).same_context(old(self)),
            final(self).vars() == old(self).vars(),
            final(self).errs().len() == old(self).errs().len() ==> covers(final(self).recorded(), fields_ids(fields@)),
            keeps_outside(old(self).recorded(), final(self).recorded(), fields_ids(fields@)),
        decreases fields, 0nat,
    {
        let mut i: usize = 0;
        while i < fields.len()
            invariant
                i <= fields@.len(),
                steps(old(self), self),
                self.same_context(old(self)),
                self.vars() == old(self).vars(),
                self.errs().len() == old(self).errs().len() ==> covers(self.recorded(), fields_ids(fields@.take(i as int))),
                keeps_outside(old(self).recorded(), self.recorded(), fields_ids(fields@.take(i as int))),
            decreases fields@.len() - i,
        {
            let ghost m0 = self.recorded();
            let field_name = fields[i].0;
            let actual_ty = self.check_expr(&fields[i].1);
            match find_key(struct_fields, field_name) {
                Some(j) => {
                    if !types_match(&struct_fields[j].1, &actual_ty) {
                        self.mismatch(&struct_fields[j].1, &actual_ty, span);
                    }
                },
                None => {
                    let n = self.resolve(field_name);
                    let suggestion = self.nearest_field(field_name, struct_fields);
                    self.report(LexoraError::UndefinedVariable { name: n, suggestion, span });
                },
            }
            proof {
                if self.errs().len() == old(self).errs().len() {
                    lemma_fields_step(m0, self.recorded(), fields@, i as int);
                }
                lemma_fields_keep(old(self).recorded(), m0, self.recorded(), fields@, i as int);
            }
            i = i + 1;
        }
        assert(fields@.take(fields@.len() as int) =~= fields@);
    }

    /// Checks the values of a struct literal whose struct is unknown.
    fn check_field_values(&mut self, fields: &Vec<(Symbol, Expr)>)
        ensures
            steps(old(self), final(self)),
            final(self).same_context(old(self)),
            final(self).vars() == old(self).vars(),
            final(self).errs().len() == old(self).errs().len() ==> covers(final(self).recorded(), fields_ids(fields@)),
            keeps_outside(old(self).recorded(), final(self).recorded(), fields_ids(fields@)),
        decreases fields, 0nat,
    {
        let mut i: usize = 0;
        while i < fields.len()
            invariant
                i <= fields@.len(),
                steps(old(self), self),
                self.same_context(old(self)),
                self.vars() == old(self).vars(),
                self.errs().len() == old(self).errs().len() ==> covers(self.recorded(), fields_ids(fields@.take(i as int))),
                keeps_outside(old(self).recorded(), self.recorded(), fields_ids(fields@.take(i as int))),
            decreases fields@.len() - i,
        {
            let ghost m0 = self.recorded();
            self.check_expr(&fields[i].1);
            proof {
                if self.errs().len() == old(self).errs().len() {
                    lemma_fields_step(m0, self.recorded(), fields@, i as int);
                }
                lemma_fields_keep(old(self).recorded(), m0, self.recorded(), fields@, i as int);
            }
            i = i + 1;
        }
        assert(fields@.take(fields@.len() as int) =~= fields@);
    }

    fn check_struct_literal(&mut self, expr: &Expr) -> (r: Type)
        requires
            expr is StructLiteral,
        ensures
            steps(old(self), final(self)),
            final(self).same_context(old(self)),
            final(self).vars() == old(self).vars(),
            result_ok(expr, r@, old(self).vars(), old(self).fns(), old(self).strs(), old(self).names()),
            final(self).errs().len() == old(self).errs().len() ==> covers(final(self).recorded(), expr_ids(expr).drop_last()),
            keeps_outside(old(self).recorded(), final(self).recorded(), expr_ids(expr).drop_last()),
        decreases expr, 0nat,
    {
        match expr {
            Expr::StructLiteral { name, fields, span, .. } => {
                proof {
                    assert(expr_ids(expr).drop_last() =~= fields_ids(fields@));
                }
                let struct_fields = match find_key(&self.structs, *name) {
                    Some(k) => dup_fields(&self.structs[k].1),
                    None => {
                        let n = self.resolve(*name);
                        let msg = cat(&["tanimsiz struct '", n.as_str(), "'"]);
                        self.custom(msg, *span);
                        self.check_field_values(fields);
                        return Type::Error;
                    },
                };
                self.check_struct_fields(fields, &struct_fields, *span);
                Type::Struct(*name)
            },
            _ => Type::Error,
        }
    }

    fn check_field_access(&mut self, expr: &Expr) -> (r: Type)
        requires
            expr is FieldAccess,
        ensures
            steps(old(self), final(self)),
            final(self).same_context(old(self)),
            final(self).vars() == old(self).vars(),
            final(self).errs().len() == old(self).errs().len() ==> covers(final(self).recorded(), expr_ids(expr).drop_last()),
            keeps_outside(old(self).recorded(), final(self).recorded(), expr_ids(expr).drop_last()),
        decreases expr, 0nat,
    {
        match expr {
            Expr::FieldAccess { object, field, span, .. } => {
                let obj_ty = self.check_expr(&**object);
                proof {
                    assert(expr_ids(expr).drop_last() =~= expr_ids(&**object));
                }
                let struct_sym = match &obj_ty {
                    Type::Error => {
                        return Type::Error;
                    },
                    Type::Struct(s) => *s,
                    _ => {
                        self.custom(to_string("alan eri\u{15f}imi i\u{e7}in struct gerekli"), *span);
                        return Type::Error;
                    },
                };
                let fields = match find_key(&self.structs, struct_sym) {
                    Some(k) => dup_fields(&self.structs[k].1),
                    None => {
                        let n = self.resolve(struct_sym);
                        let msg = cat(&["tan\u{131}ms\u{131}z struct '", n.as_str(), "'"]);
                        self.custom(msg, *span);
                        return Type::Error;
                    },
                };
                match find_key(&fields, *field) {
                    Some(j) => fields[j].1.dup(),
                    None => {
                        let n = self.resolve(*field);
                        let suggestion = self.nearest_field(*field, &fields);
                        self.report(LexoraError::UndefinedVariable { name: n, suggestion, span: *span });
                        Type::Error
                    },
                }
            },
            _ => Type::Error,
        }
    }

    fn check_if(&mut self, expr: &Expr) -> (r: Type)
        requires
            expr is If,
        ensures
            steps(old(self), final(self)),
            final(self).same_context(old(self)),
            final(self).vars() == old(self).vars(),
            result_ok(expr, r@, old(self).vars(), old(self).fns(), old(self).strs(), old(self).names()),
            final(self).errs().len() == old(self).errs().len() ==> covers(final(self).recorded(), expr_ids(expr).drop_last()),
            keeps_outside(old(self).recorded(), final(self).recorded(), expr_ids(expr).drop_last()),
        decreases expr, 0nat,
    {
        match expr {
            Expr::If { condition, then_body, else_body, span, .. } => {
                let cond_ty = self.check_expr(&**condition);
                if !types_match(&cond_ty, &Type::Bool) {
                    let f = self.format_type(&cond_ty);
                    self.report(
                        LexoraError::TypeMismatch {
                            expected: to_string("bool"),
                            found: f,
                            span: condition.span(),
                        },
                    );
                }
                let ghost m1 = self.recorded();
                let ret = self.cur_ret.dup();
                let then_ty = self.check_block(&**then_body, &ret);
                let ghost m2 = self.recorded();
                proof {
                    if self.errs().len() == old(self).errs().len() {
                        lemma_covers_join(m1, m2, m2, expr_ids(&**condition), block_ids(&**then_body));
                    }
                    lemma_within_cat(expr_ids(&**condition), block_ids(&**then_body));
                    lemma_keeps_chain(
                        old(self).recorded(),
                        m1,
                        m2,
                        expr_ids(&**condition),
                        block_ids(&**then_body),
                        expr_ids(&**condition) + block_ids(&**then_body),
                    );
                }
                match else_body {
                    Some(eb) => {
                        let else_ty = self.check_block(&**eb, &ret);
                        if !types_match(&then_ty, &else_ty) {
                            self.mismatch(&then_ty, &else_ty, eb.span);
                        }
                        proof {
                            if self.errs().len() == old(self).errs().len() {
                                lemma_covers_join(
                                    m2,
                                    self.recorded(),
                                    self.recorded(),
                                    expr_ids(&**condition) + block_ids(&**then_body),
                                    block_ids(&**eb),
                                );
                            }
                            assert(expr_ids(expr).drop_last() =~= expr_ids(&**condition) + block_ids(&**then_body)
                                + block_ids(&**eb));
                            lemma_within_cat(expr_ids(&**condition) + block_ids(&**then_body), block_ids(&**eb));
                            lemma_keeps_chain(
                                old(self).recorded(),
                                m2,
                                self.recorded(),
                                expr_ids(&**condition) + block_ids(&**then_body),
                                block_ids(&**eb),
                                expr_ids(expr).drop_last(),
                            );
                        }
                        then_ty
                    },
                    None => {
                        proof {
                            assert(expr_ids(expr).drop_last() =~= expr_ids(&**condition) + block_ids(&**then_body));
                        }
                        if !types_match(&then_ty, &Type::Void) {
                            let f = self.format_type(&then_ty);
                            let msg = cat(
                                &["else'siz if deger uretemez (then kolu ", f.as_str(), " uretiyor)"],
                            );
                            self.custom(msg, *span);
                            return Type::Error;
                        }
                        Type::Void
                    },
                }
            },
            _ => Type::Error,
        }
    }

    fn check_try(&mut self, expr: &Expr) -> (r: Type)
        requires
            expr is Try,
        ensures
            steps(old(self), final(self)),
            final(self).same_context(old(self)),
            final(self).vars() == old(self).vars(),
            final(self).errs().len() == old(self).errs().len() ==> covers(final(self).recorded(), expr_ids(expr).drop_last()),
            keeps_outside(old(self).recorded(), final(self).recorded(), expr_ids(expr).drop_last()),
            expr matches Expr::Try { expr: inner, span, .. } ==> try_rule(
                final(self).recorded()[expr_id(&**inner)]@,
                old(self).ret_ty(),
                old(self).enum_tbl(),
                old(self).names(),
                *span,
                final(self).errs(),
                r@,
            ),
        decreases expr, 0nat,
    {
        match expr {
            Expr::Try { expr: inner, span, .. } => {
                let inner_ty = self.check_expr(&**inner);
                proof {
                    assert(expr_ids(expr).drop_last() =~= expr_ids(&**inner));
                }
                if is_error(&inner_ty) {
                    return Type::Error;
                }
                let is_result = match &inner_ty {
                    Type::Enum(s, _) => str_eq(self.name_str(*s), "Result"),
                    _ => false,
                };
                if !is_result {
                    let f = self.format_type(&inner_ty);
                    let msg = cat(&["'?' yalnizca Result uzerinde kullanilabilir, bulunan ", f.as_str()]);
                    self.custom(msg, *span);
                    return Type::Error;
                }
                let (sym, args) = match &inner_ty {
                    Type::Enum(s, a) => (*s, crate::ast::dup_types(a)),
                    _ => {
                        return Type::Error;
                    },
                };
                let (ok_ty, err_ty) = match self.result_parts(sym, &args) {
                    Some(p) => p,
                    None => {
                        self.custom(
                            to_string("'?' icin Result iki varyantli olmali: Ok(T) ve Err(E)"),
                            *span,
                        );
                        return Type::Error;
                    },
                };
                let ret_args = match &self.cur_ret {
                    Type::Enum(rs, ra) => if rs.0 == sym.0 {
                        Some(crate::ast::dup_types(ra))
                    } else {
                        None
                    },
                    _ => None,
                };
                let ret_err = match ret_args {
                    Some(ra) => match self.result_parts(sym, &ra) {
                        Some(p) => Some(p.1),
                        None => None,
                    },
                    None => None,
                };
                match ret_err {
                    Some(re) => {
                        if !types_match(&err_ty, &re) {
                            self.mismatch(&re, &err_ty, *span);
                            return Type::Error;
                        }
                        ok_ty
                    },
                    None => {
                        let ret_s = self.format_type(&self.cur_ret);
                        let msg = cat(
                            &[
                                "'?' yalnizca Result donduren fonksiyonda kullanilabilir (donus tipi ",
                                ret_s.as_str(),
                                ")",
                            ],
                        );
                        self.custom(msg, *span);
                        Type::Error
                    },
                }
            },
            _ => Type::Error,
        }
    }
}

/// The smallest of three numbers.
pub open spec fn min3(a: int, b: int, c: int) -> int {
    if a <= b && a <= c {
        a
    } else if b <= c {
        b
    } else {
        c
    }
}

/// How many of the first `n` positions hold types that do not match.
pub open spec fn mismatches(a: Seq<Type>, f: Seq<Type>, n: int) -> int
    decreases n,
{
    if n <= 0 {
        0
    } else {
        mismatches(a, f, n - 1) + if tm(a[n - 1]@, f[n - 1]@) {
            0int
        } else {
            1int
        }
    }
}

/// Whether some type of the list is the error type.
fn any_error(ts: &Vec<Type>) -> (r: bool)
    ensures
        r == exists|i: int| 0 <= i < ts@.len() && (#[trigger] ts@[i])@ is Error,
{
    let mut i: usize = 0;
    while i < ts.len()
        invariant
            i <= ts@.len(),
            forall|j: int| 0 <= j < i ==> !((#[trigger] ts@[j])@ is Error),
        decreases ts@.len() - i,
    {
        if is_error(&ts[i]) {
            return true;
        }
        i = i + 1;
    }
    false
}

/// Whether `s` occurs in `v`.
pub(crate) fn contains_sym(v: &Vec<Symbol>, s: Symbol) -> (r: bool)
    ensures
        r == v@.contains(s),
{
    let mut i: usize = 0;
    while i < v.len()
        invariant
            i <= v@.len(),
            forall|j: int| 0 <= j < i ==> v@[j] != s,
        decreases v@.len() - i,
    {
        if v[i].0 == s.0 {
            assert(v@[i as int] == s);
            return true;
        }
        i = i + 1;
    }
    false
}

impl<'i> TypeChecker<'i> {
    fn check_enum_variant(&mut self, expr: &Expr) -> (r: Type)
        requires
            expr is EnumVariant,
        ensures
            steps(old(self), final(self)),
            final(self).same_context(old(self)),
            final(self).vars() == old(self).vars(),
            result_ok(expr, r@, old(self).vars(), old(self).fns(), old(self).strs(), old(self).names()),
            final(self).errs().len() == old(self).errs().len() ==> covers(final(self).recorded(), expr_ids(expr).drop_last()),
            keeps_outside(old(self).recorded(), final(self).recorded(), expr_ids(expr).drop_last()),
        decreases expr, 0nat,
    {
        match expr {
            Expr::EnumVariant { enum_name, variant, args, type_args, span, .. } => {
                proof {
                    assert(expr_ids(expr).drop_last() =~= exprs_ids(args@));
                }
                let (params, variants) = match find_key(&self.enums, *enum_name) {
                    Some(k) => (dup_syms(&self.enums[k].1.0), dup_variants(&self.enums[k].1.1)),
                    None => {
                        let n = self.resolve(*enum_name);
                        let msg = cat(&["tanimsiz enum '", n.as_str(), "'"]);
                        self.custom(msg, *span);
                        self.check_each(args);
                        return Type::Error;
                    },
                };
                let def_field_tys = match find_key(&variants, *variant) {
                    Some(j) => crate::ast::dup_types(&variants[j].1),
                    None => {
                        let n = self.resolve(*enum_name);
                        let v = self.resolve(*variant);
                        let msg = cat(&["'", n.as_str(), "' enum'unda '", v.as_str(), "' varyanti yok"]);
                        self.custom(msg, *span);
                        self.check_each(args);
                        return Type::Error;
                    },
                };
                if params.len() == 0 && type_args.len() > 0 {
                    let n = self.resolve(*enum_name);
                    let msg = cat(&["'", n.as_str(), "' generic degil, tip argumani almaz"]);
                    self.custom(msg, *span);
                }
                if params.len() > 0 && type_args.len() > 0 && type_args.len() != params.len() {
                    let n = self.resolve(*enum_name);
                    let a = num(params.len());
                    let b = num(type_args.len());
                    let msg = cat(
                        &["'", n.as_str(), "' ", a.as_str(), " tip parametresi bekliyor, ", b.as_str(), " verildi"],
                    );
                    self.custom(msg, *span);
                    self.check_each(args);
                    return Type::Error;
                }
                if args.len() != def_field_tys.len() {
                    let n = self.resolve(*enum_name);
                    let v = self.resolve(*variant);
                    let a = num(def_field_tys.len());
                    let b = num(args.len());
                    let msg = cat(
                        &[
                            "'",
                            n.as_str(),
                            "::",
                            v.as_str(),
                            "' ",
                            a.as_str(),
                            " alan bekliyor, ",
                            b.as_str(),
                            " verildi",
                        ],
                    );
                    self.custom(msg, *span);
                }
                let arg_tys = self.check_exprs(args);
                let ghost m_args = self.recorded();
                let ghost n_args = self.errs().len();
                let targs: Vec<Type> = if params.len() == 0 {
                    Vec::new()
                } else if type_args.len() > 0 {
                    crate::ast::dup_types(type_args)
                } else {
                    let mut map: Vec<(Symbol, Type)> = Vec::new();
                    let n = if def_field_tys.len() <= arg_tys.len() {
                        def_field_tys.len()
                    } else {
                        arg_tys.len()
                    };
                    let mut i: usize = 0;
                    while i < n
                        invariant
                            n <= def_field_tys@.len(),
                            n <= arg_tys@.len(),
                        decreases n - i,
                    {
                        unify(&def_field_tys[i], &arg_tys[i], &mut map);
                        i = i + 1;
                    }
                    let mut resolved: Vec<Type> = Vec::new();
                    let mut j: usize = 0;
                    while j < params.len()
                        invariant
                            result_ok(
                                expr,
                                TypeV::Error,
                                old(self).vars(),
                                old(self).fns(),
                                old(self).strs(),
                                old(self).names(),
                            ),
                            steps(old(self), self),
                            self.same_context(old(self)),
                            self.vars() == old(self).vars(),
                            self.recorded() == m_args,
                            keeps_outside(old(self).recorded(), m_args, expr_ids(expr).drop_last()),
                            self.errs().len() == n_args,
                            self.errs().len() == old(self).errs().len() ==> covers(
                                self.recorded(),
                                expr_ids(expr).drop_last(),
                            ),
                        decreases params@.len() - j,
                    {
                        match find_key(&map, params[j]) {
                            Some(k) => {
                                resolved.push(map[k].1.dup());
                            },
                            None => {
                                if any_error(&arg_tys) {
                                    return Type::Error;
                                }
                                let n = self.resolve(*enum_name);
                                let v = self.resolve(*variant);
                                let msg = if args.len() == 0 {
                                    cat(
                                        &[
                                            "'",
                                            n.as_str(),
                                            "::",
                                            v.as_str(),
                                            "' icin tip cikarimi yapacak arguman yok; turbofish kullanin: ",
                                            n.as_str(),
                                            "::<T>::",
                                            v.as_str(),
                                        ],
                                    )
                                } else {
                                    let p = self.resolve(params[j]);
                                    cat(
                                        &[
                                            "'",
                                            n.as_str(),
                                            "::",
                                            v.as_str(),
                                            "' icin '",
                                            p.as_str(),
                                            "' tip parametresi cikarilamiyor; turbofish kullanin",
                                        ],
                                    )
                                };
                                self.custom(msg, *span);
                                return Type::Error;
                            },
                        }
                        j = j + 1;
                    }
                    resolved
                };
                let concrete_ftys: Vec<Type> = if targs.len() == 0 {
                    def_field_tys
                } else {
                    let mut map: Vec<(Symbol, Type)> = Vec::new();
                    let n = if params.len() <= targs.len() {
                        params.len()
                    } else {
                        targs.len()
                    };
                    let mut i: usize = 0;
                    while i < n
                        invariant
                            n <= params@.len(),
                            n <= targs@.len(),
                        decreases n - i,
                    {
                        map.push((params[i], targs[i].dup()));
                        i = i + 1;
                    }
                    substitute_types(&def_field_tys, &map)
                };
                self.check_variant_args(args, &arg_tys, &concrete_ftys);
                let result = Type::Enum(*enum_name, targs);
                self.validate_type(&result, *span, NEST_LIMIT);
                result
            },
            _ => Type::Error,
        }
    }

    /// Compares the argument types of a variant constructor with its field types;
/// one mismatch error for each position where they differ.
    fn check_variant_args(&mut self, args: &Vec<Expr>, arg_tys: &Vec<Type>, ftys: &Vec<Type>)
        ensures
            steps(old(self), final(self)),
            final(self).same_context(old(self)),
            final(self).vars() == old(self).vars(),
            final(self).recorded() == old(self).recorded(),
            final(self).errs().len() == old(self).errs().len() + mismatches(
                arg_tys@,
                ftys@,
                min3(args@.len() as int, arg_tys@.len() as int, ftys@.len() as int),
            ),
    {
        let mut i: usize = 0;
        while i < args.len() && i < arg_tys.len() && i < ftys.len()
            invariant
                steps(old(self), self),
                self.same_context(old(self)),
                self.vars() == old(self).vars(),
                self.recorded() == old(self).recorded(),
                i <= min3(args@.len() as int, arg_tys@.len() as int, ftys@.len() as int),
                self.errs().len() == old(self).errs().len() + mismatches(arg_tys@, ftys@, i as int),
            decreases args@.len() - i,
        {
            if !types_match(&arg_tys[i], &ftys[i]) {
                let e = self.format_type(&ftys[i]);
                let f = self.format_type(&arg_tys[i]);
                self.report(LexoraError::TypeMismatch { expected: e, found: f, span: args[i].span() });
            }
            i = i + 1;
        }
    }

    fn check_match(&mut self, expr: &Expr) -> (r: Type)
        requires
            expr is Match,
        ensures
            steps(old(self), final(self)),
            final(self).same_context(old(self)),
            final(self).vars() == old(self).vars(),
            final(self).errs().len() == old(self).errs().len() ==> covers(final(self).recorded(), expr_ids(expr).drop_last()),
            keeps_outside(old(self).recorded(), final(self).recorded(), expr_ids(expr).drop_last()),
            expr_ids(expr).drop_last().no_duplicates() ==> (expr matches Expr::Match { scrutinee, arms, span, .. } ==> (
            forall|k: int|
                #[trigger] unmatched(
                    final(self).recorded()[expr_id(&**scrutinee)]@,
                    old(self).enum_tbl(),
                    arms@,
                    k,
                ) ==> has_custom(
                    final(self).errs(),
                    unmatched_text(old(self).names(), final(self).recorded()[expr_id(&**scrutinee)]@, old(self).enum_tbl(), k),
                    *span,
                ))),
        decreases expr, 0nat,
    {
        match expr {
            Expr::Match { scrutinee, arms, span, .. } => {
                let scrut_ty = self.check_expr(&**scrutinee);
                let ghost m1 = self.recorded();
                let (enum_sym, enum_args): (Option<Symbol>, Vec<Type>) = match &scrut_ty {
                    Type::Error => (None, Vec::new()),
                    Type::Enum(s, a) => (Some(*s), crate::ast::dup_types(a)),
                    _ => {
                        let f = self.format_type(&scrut_ty);
                        let msg = cat(&["match yalnizca enum uzerinde olur, bulunan ", f.as_str()]);
                        self.custom(msg, *span);
                        (None, Vec::new())
                    },
                };
                let all_variants = match enum_sym {
                    Some(e) => self.enum_variants_for(e, &enum_args),
                    None => None,
                };
                let ret = self.cur_ret.dup();
                let (covered, has_wildcard, match_ty) = self.check_arms(
                    arms,
                    enum_sym,
                    &all_variants,
                    *span,
                    &ret,
                );
                proof {
                    if self.errs().len() == old(self).errs().len() {
                        lemma_covers_join(m1, self.recorded(), self.recorded(), expr_ids(&**scrutinee), arms_ids(arms@));
                    }
                    assert(expr_ids(expr).drop_last() =~= expr_ids(&**scrutinee) + arms_ids(arms@));
                    lemma_within_cat(expr_ids(&**scrutinee), arms_ids(arms@));
                    lemma_keeps_chain(
                        old(self).recorded(),
                        m1,
                        self.recorded(),
                        expr_ids(&**scrutinee),
                        arms_ids(arms@),
                        expr_ids(expr).drop_last(),
                    );
                }
                let ghost m2 = self.recorded();
                match (&all_variants, enum_sym) {
                    (Some(vars), Some(e)) => {
                        if !has_wildcard {
                            let mut i: usize = 0;
                            while i < vars.len()
                                invariant
                                    steps(old(self), self),
                                    self.same_context(old(self)),
                                    self.vars() == old(self).vars(),
                                    self.recorded() == m2,
                                    keeps_outside(old(self).recorded(), m2, expr_ids(expr).drop_last()),
                                    self.errs().len() == old(self).errs().len() ==> covers(
                                        self.recorded(),
                                        expr_ids(expr).drop_last(),
                                    ),
                                    i <= vars@.len(),
                                    self.names() == old(self).names(),
                                    forall|j: int|
                                        0 <= j < i && !covered@.contains(#[trigger] vars@[j].0) ==> has_custom(
                                            self.errs(),
                                            missing_arm_text(old(self).names(), e, vars@[j].0),
                                            *span,
                                        ),
                                decreases vars@.len() - i,
                            {
                                let ghost e_i = self.errs();
                                if !contains_sym(&covered, vars[i].0) {
                                    let n = self.resolve(e);
                                    let v = self.resolve(vars[i].0);
                                    let mut msg = to_string("eksik match: '");
                                    push_str(&mut msg, n.as_str());
                                    push_str(&mut msg, "::");
                                    push_str(&mut msg, v.as_str());
                                    push_str(&mut msg, "' kapsanmadi");
                                    self.custom(msg, *span);
                                    proof {
                                        assert(is_custom(
                                            self.errs()[self.errs().len() - 1],
                                            missing_arm_text(old(self).names(), e, vars@[i as int].0),
                                            *span,
                                        ));
                                    }
                                }
                                proof {
                                    assert forall|j: int|
                                        0 <= j <= i && !covered@.contains(#[trigger] vars@[j].0) implies has_custom(
                                        self.errs(),
                                        missing_arm_text(old(self).names(), e, vars@[j].0),
                                        *span,
                                    ) by {
                                        if j < i {
                                            let kk = choose|kk: int|
                                                0 <= kk < e_i.len() && is_custom(
                                                    #[trigger] e_i[kk],
                                                    missing_arm_text(old(self).names(), e, vars@[j].0),
                                                    *span,
                                                );
                                            lemma_kept_at(e_i, self.errs(), kk);
                                        }
                                    }
                                }
                                i = i + 1;
                            }
                            proof {
                                if expr_ids(expr).drop_last().no_duplicates() {
                                    assert(expr_ids(expr).drop_last() =~= expr_ids(&**scrutinee) + arms_ids(arms@));
                                    lemma_nodup_apart(expr_ids(&**scrutinee), arms_ids(arms@));
                                    lemma_own_id(&**scrutinee);
                                    assert(self.recorded()[expr_id(&**scrutinee)] == m1[expr_id(&**scrutinee)]);
                                    assert forall|k: int|
                                        #[trigger] unmatched(
                                            self.recorded()[expr_id(&**scrutinee)]@,
                                            old(self).enum_tbl(),
                                            arms@,
                                            k,
                                        ) implies has_custom(
                                        self.errs(),
                                        unmatched_text(
                                            old(self).names(),
                                            self.recorded()[expr_id(&**scrutinee)]@,
                                            old(self).enum_tbl(),
                                            k,
                                        ),
                                        *span,
                                    ) by {
                                        assert(vars@[k].0 == variants_view(vars@)[k].0);
                                        assert(!covered@.contains(vars@[k].0));
                                    }
                                }
                            }
                        }
                    },
                    _ => {},
                }
                proof {
                    if expr_ids(expr).drop_last().no_duplicates() && (has_wildcard || all_variants is None
                        || enum_sym is None) {
                        assert(expr_ids(expr).drop_last() =~= expr_ids(&**scrutinee) + arms_ids(arms@));
                        lemma_nodup_apart(expr_ids(&**scrutinee), arms_ids(arms@));
                        lemma_own_id(&**scrutinee);
                        assert(self.recorded()[expr_id(&**scrutinee)] == m1[expr_id(&**scrutinee)]);
                        assert forall|k: int|
                            #[trigger] unmatched(
                                self.recorded()[expr_id(&**scrutinee)]@,
                                old(self).enum_tbl(),
                                arms@,
                                k,
                            ) implies false by {}
                    }
                }
                match match_ty {
                    Some(t) => t,
                    None => Type::Void,
                }
            },
            _ => Type::Error,
        }
    }

    /// Checks the arms of a match; returns the variants covered, whether a
    /// wildcard arm occurred, and the type of the first arm.
    fn check_arms(
        &mut self,
        arms: &Vec<(Pattern, Block)>,
        enum_sym: Option<Symbol>,
        all_variants: &Option<Vec<(Symbol, Vec<Type>)>>,
        span: Span,
        ret: &Type,
    ) -> (r: (Vec<Symbol>, bool, Option<Type>))
        ensures
            steps(old(self), final(self)),
            final(self).same_context(old(self)),
            final(self).vars() == old(self).vars(),
            arms@.len() > 0 ==> r.2 is Some,
            final(self).errs().len() == old(self).errs().len() ==> covers(final(self).recorded(), arms_ids(arms@)),
            keeps_outside(old(self).recorded(), final(self).recorded(), arms_ids(arms@)),
            r.1 ==> has_wildcard_arm(arms@),
            forall|v: Symbol| r.0@.contains(v) ==> names_variant(arms@, v),
        decreases arms, 0nat,
    {
        let mut covered: Vec<Symbol> = Vec::new();
        let mut has_wildcard = false;
        let mut match_ty: Option<Type> = None;
        let mut i: usize = 0;
        while i < arms.len()
            invariant
                i <= arms@.len(),
                steps(old(self), self),
                self.same_context(old(self)),
                self.vars() == old(self).vars(),
                i > 0 ==> match_ty is Some,
                has_wildcard ==> has_wildcard_arm(arms@),
                forall|v: Symbol| covered@.contains(v) ==> names_variant(arms@, v),
                self.errs().len() == old(self).errs().len() ==> covers(self.recorded(), arms_ids(arms@.take(i as int))),
                keeps_outside(old(self).recorded(), self.recorded(), arms_ids(arms@.take(i as int))),
            decreases arms@.len() - i,
        {
            let ghost m0 = self.recorded();
            let pat = &arms[i].0;
            let body = &arms[i].1;
            if has_wildcard {
                self.custom(
                    to_string("bu kol asla eslesmez: onceki '_' tum durumlari kapsiyor"),
                    body.span,
                );
            }
            let mut binds: Vec<(Symbol, Type)> = Vec::new();
            match pat {
                Pattern::Wildcard => {
                    has_wildcard = true;
                    proof {
                        assert(arms@[i as int].0 is Wildcard);
                    }
                },
                Pattern::Variant { enum_name, variant, bindings } => {
                    match (enum_sym, all_variants) {
                        (Some(e), Some(vars)) => {
                            if enum_name.0 != e.0 {
                                let a = self.resolve(*enum_name);
                                let b = self.resolve(e);
                                let msg = cat(
                                    &[
                                        "desen enum'u '",
                                        a.as_str(),
                                        "', scrutinee enum'u '",
                                        b.as_str(),
                                        "' ile uyusmuyor",
                                    ],
                                );
                                self.custom(msg, span);
                            } else {
                                match find_key(vars, *variant) {
                                    Some(j) => {
                                        let ftys = &vars[j].1;
                                        if contains_sym(&covered, *variant) {
                                            let a = self.resolve(e);
                                            let b = self.resolve(*variant);
                                            let msg = cat(
                                                &["'", a.as_str(), "::", b.as_str(), "' zaten onceki bir kolda kapsandi"],
                                            );
                                            self.custom(msg, body.span);
                                        }
                                        let ghost cov0 = covered@;
                                        covered.push(*variant);
                                        proof {
                                            assert(names_variant(arms@, *variant)) by {
                                                assert(arms@[i as int].0 == *pat);
                                            }
                                            assert forall|v: Symbol| covered@.contains(v) implies names_variant(arms@, v) by {
                                                if v != *variant {
                                                    assert(cov0.contains(v)) by {
                                                        let j = choose|j: int| 0 <= j < covered@.len() && covered@[j] == v;
                                                        assert(j < cov0.len());
                                                        assert(cov0[j] == v);
                                                    }
                                                }
                                            }
                                        }
                                        if bindings.len() != ftys.len() {
                                            let a = self.resolve(e);
                                            let b = self.resolve(*variant);
                                            let c = num(ftys.len());
                                            let d = num(bindings.len());
                                            let msg = cat(
                                                &[
                                                    "'",
                                                    a.as_str(),
                                                    "::",
                                                    b.as_str(),
                                                    "' ",
                                                    c.as_str(),
                                                    " alan baglar, ",
                                                    d.as_str(),
                                                    " desen verildi",
                                                ],
                                            );
                                            self.custom(msg, span);
                                        }
                                        let mut k: usize = 0;
                                        while k < bindings.len() && k < ftys.len()
                                            decreases bindings@.len() - k,
                                        {
                                            binds.push((bindings[k], ftys[k].dup()));
                                            k = k + 1;
                                        }
                                    },
                                    None => {
                                        let a = self.resolve(e);
                                        let b = self.resolve(*variant);
                                        let msg = cat(&["'", a.as_str(), "' enum'unda '", b.as_str(), "' varyanti yok"]);
                                        self.custom(msg, span);
                                    },
                                }
                            }
                        },
                        _ => {},
                    }
                },
            }
            self.variables.enter_scope();
            let ghost e_b = self.errs();
            let ghost m_b = self.recorded();
            let mut k: usize = 0;
            while k < binds.len()
                invariant
                    self.vars().len() == old(self).vars().len() + 1,
                    self.vars().drop_last() == old(self).vars(),
                    steps(old(self), self),
                    self.same_context(old(self)),
                    self.errs() == e_b,
                    self.recorded() == m_b,
                decreases binds@.len() - k,
            {
                let _ = self.variables.define(binds[k].0, binds[k].1.dup());
                k = k + 1;
            }
            self.check_stmts(&body.stmts, ret);
            let ghost m_s = self.recorded();
            let arm_ty = match &body.tail {
                Some(t) => self.check_expr(&**t),
                None => Type::Void,
            };
            self.variables.exit_scope();
            match &match_ty {
                None => {
                    match_ty = Some(arm_ty);
                },
                Some(prev) => {
                    if !types_match(prev, &arm_ty) {
                        self.mismatch(prev, &arm_ty, body.span);
                    }
                },
            }
            proof {
                if self.errs().len() == old(self).errs().len() {
                    lemma_tail_cover(m_s, self.recorded(), body);
                    lemma_arms_step(m0, self.recorded(), arms@, i as int);
                }
                lemma_block_keep(m_b, m_s, self.recorded(), body);
                lemma_arms_keep(old(self).recorded(), m0, self.recorded(), arms@, i as int);
            }
            i = i + 1;
        }
        assert(arms@.take(arms@.len() as int) =~= arms@);
        (covered, has_wildcard, match_ty)
    }
}

/// Whether two type declarations (structs and enums together) share a name.
/// The names of the program's structs, then of its enums.
pub open spec fn type_decl_names<'a>(p: &Program<'a>) -> Seq<Symbol> {
    p.structs@.map_values(|s: StructDef| s.name) + p.enums@.map_values(|e: EnumDef| e.name)
}

/// Where those declarations stand, in the same order.
pub open spec fn type_decl_spans<'a>(p: &Program<'a>) -> Seq<Span> {
    p.structs@.map_values(|s: StructDef| s.span) + p.enums@.map_values(|e: EnumDef| e.span)
}

/// The `j`-th type declaration bears the name of an earlier one.
pub open spec fn repeats_type<'a>(p: &Program<'a>, j: int) -> bool {
    0 <= j < type_decl_names(p).len() && type_decl_names(p).take(j).contains(type_decl_names(p)[j])
}

pub open spec fn dup_type_names<'a>(p: &Program<'a>) -> bool {
    let names = p.structs@.map_values(|s: StructDef| s.name) + p.enums@.map_values(|e: EnumDef| e.name);
    exists|i: int, j: int| 0 <= i < j < names.len() && names[i] == names[j]
}

/// Whether an enum field may have type `t`: a scalar, a string, a box or,
/// in a generic enum, a type parameter.
pub open spec fn enum_field_ok(t: TypeV, generic: bool) -> bool {
    match t {
        TypeV::I32 => true,
        TypeV::I64 => true,
        TypeV::Bool => true,
        TypeV::Str => true,
        TypeV::String => true,
        TypeV::Box(_) => true,
        TypeV::Param(_) => generic,
        _ => false,
    }
}

/// An enum that repeats a variant name, or has a field of a type enums may not hold.
pub open spec fn enum_flawed(e: EnumDef) -> bool {
    ||| exists|a: int, b: int|
        0 <= a < b < e.variants@.len() && (#[trigger] e.variants@[a]).0 == (#[trigger] e.variants@[b]).0
    ||| exists|a: int, k: int|
        0 <= a < e.variants@.len() && 0 <= k < e.variants@[a].1@.len() && !enum_field_ok(
            (#[trigger] e.variants@[a].1@[k])@,
            e.params@.len() > 0,
        )
}

/// Whether the list has a repeated symbol.
pub open spec fn has_dup(v: Seq<Symbol>) -> bool {
    exists|i: int, j: int| 0 <= i < j < v.len() && v[i] == v[j]
}

impl<'i> TypeChecker<'i> {
    /// Reports each name of `syms` that repeats an earlier one.
    fn report_repeats(&mut self, syms: &Vec<Symbol>, spans: &Vec<Span>)
        requires
            syms@.len() == spans@.len(),
        ensures
            grows(old(self).errs(), final(self).errs()),
            has_dup(syms@) ==> final(self).errs().len() > old(self).errs().len(),
            steps(old(self), final(self)),
            final(self).same_context(old(self)),
            final(self).vars() == old(self).vars(),
            forall|j: int|
                0 <= j < syms@.len() && (#[trigger] syms@.take(j)).contains(syms@[j]) ==> has_already(
                    final(self).errs(),
                    name_text(old(self).names(), syms@[j]),
                    spans@[j],
                ),
    {
        let mut seen: Vec<Symbol> = Vec::new();
        let mut i: usize = 0;
        while i < syms.len()
            invariant
                i <= syms@.len(),
                syms@.len() == spans@.len(),
                seen@ == syms@.take(i as int),
                steps(old(self), self),
                self.same_context(old(self)),
                self.vars() == old(self).vars(),
                has_dup(syms@.take(i as int)) ==> self.errs().len() > old(self).errs().len(),
                forall|j: int|
                    0 <= j < i && (#[trigger] syms@.take(j)).contains(syms@[j]) ==> has_already(
                        self.errs(),
                        name_text(old(self).names(), syms@[j]),
                        spans@[j],
                    ),
            decreases syms@.len() - i,
        {
            let ghost pre = syms@.take(i as int);
            let ghost next = syms@.take(i + 1);
            let ghost e_i = self.errs();
            let repeated = contains_sym(&seen, syms[i]);
            if repeated {
                let n = self.resolve(syms[i]);
                self.report(LexoraError::AlreadyDefined { name: n, span: spans[i] });
                proof {
                    assert(is_already(
                        self.errs()[self.errs().len() - 1],
                        name_text(old(self).names(), syms@[i as int]),
                        spans@[i as int],
                    ));
                }
            }
            proof {
                assert forall|j: int|
                    0 <= j <= i && (#[trigger] syms@.take(j)).contains(syms@[j]) implies has_already(
                    self.errs(),
                    name_text(old(self).names(), syms@[j]),
                    spans@[j],
                ) by {
                    if j < i {
                        let kk = choose|kk: int|
                            0 <= kk < e_i.len() && is_already(
                                #[trigger] e_i[kk],
                                name_text(old(self).names(), syms@[j]),
                                spans@[j],
                            );
                        lemma_kept_at(e_i, self.errs(), kk);
                    } else {
                        assert(syms@.take(j) =~= seen@);
                    }
                }
                if has_dup(next) {
                    let (a, b) = choose|a: int, b: int| 0 <= a < b < next.len() && next[a] == next[b];
                    if b < i {
                        assert(pre[a] == next[a] && pre[b] == next[b]);
                        assert(has_dup(pre));
                    } else {
                        assert(seen@[a] == syms@[i as int]);
                        assert(seen@.contains(syms@[i as int]));
                    }
                }
            }
            seen.push(syms[i]);
            i = i + 1;
            assert(seen@ =~= syms@.take(i as int));
        }
        assert(syms@.take(syms@.len() as int) =~= syms@);
    }

    /// Reports struct and enum names that are declared twice.
    fn check_type_names(&mut self, program: &Program)
        ensures
            grows(old(self).errs(), final(self).errs()),
            dup_type_names(program) ==> final(self).errs().len() > old(self).errs().len(),
            steps(old(self), final(self)),
            final(self).same_context(old(self)),
            final(self).vars() == old(self).vars(),
            forall|j: int|
                #[trigger] repeats_type(program, j) ==> has_already(
                    final(self).errs(),
                    name_text(old(self).names(), type_decl_names(program)[j]),
                    type_decl_spans(program)[j],
                ),
    {
        let mut syms: Vec<Symbol> = Vec::new();
        let mut spans: Vec<Span> = Vec::new();
        let ghost all = program.structs@.map_values(|s: StructDef| s.name) + program.enums@.map_values(
            |e: EnumDef| e.name,
        );
        let mut i: usize = 0;
        while i < program.structs.len()
            invariant
                i <= program.structs@.len(),
                syms@.len() == i,
                spans@.len() == i,
                forall|j: int| 0 <= j < i ==> #[trigger] syms@[j] == program.structs@[j].name,
                forall|j: int| 0 <= j < i ==> #[trigger] spans@[j] == program.structs@[j].span,
            decreases program.structs@.len() - i,
        {
            syms.push(program.structs[i].name);
            spans.push(program.structs[i].span);
            i = i + 1;
        }
        let ns = program.structs.len();
        let mut k: usize = 0;
        while k < program.enums.len()
            invariant
                ns == program.structs@.len(),
                k <= program.enums@.len(),
                syms@.len() == ns + k,
                spans@.len() == ns + k,
                forall|j: int| 0 <= j < ns ==> #[trigger] syms@[j] == program.structs@[j].name,
                forall|j: int| 0 <= j < k ==> #[trigger] syms@[ns + j] == program.enums@[j].name,
                forall|j: int| 0 <= j < ns ==> #[trigger] spans@[j] == program.structs@[j].span,
                forall|j: int| 0 <= j < k ==> #[trigger] spans@[ns + j] == program.enums@[j].span,
            decreases program.enums@.len() - k,
        {
            syms.push(program.enums[k].name);
            spans.push(program.enums[k].span);
            k = k + 1;
        }
        assert forall|j: int| 0 <= j < all.len() implies #[trigger] syms@[j] == all[j] by {
            if j < ns {
                assert(syms@[j] == program.structs@[j].name);
            } else {
                assert(syms@[ns + (j - ns)] == program.enums@[j - ns].name);
            }
        }
        assert(syms@ =~= all);
        let ghost all_spans = type_decl_spans(program);
        assert forall|j: int| 0 <= j < all_spans.len() implies #[trigger] spans@[j] == all_spans[j] by {
            if j < ns {
                assert(spans@[j] == program.structs@[j].span);
            } else {
                assert(spans@[ns + (j - ns)] == program.enums@[j - ns].span);
            }
        }
        assert(spans@ =~= all_spans);
        self.report_repeats(&syms, &spans);
        proof {
            assert forall|j: int| #[trigger] repeats_type(program, j) implies has_already(
                self.errs(),
                name_text(old(self).names(), type_decl_names(program)[j]),
                type_decl_spans(program)[j],
            ) by {
                assert(type_decl_names(program) == syms@);
                assert(syms@.take(j).contains(syms@[j]));
            }
        }
    }

    /// Reports functions that are declared twice.
    fn check_fn_names(&mut self, program: &Program)
        ensures
            grows(old(self).errs(), final(self).errs()),
            dup_fn_names(program.functions@) ==> final(self).errs().len() > old(self).errs().len(),
            steps(old(self), final(self)),
            final(self).same_context(old(self)),
            final(self).vars() == old(self).vars(),
            forall|j: int|
                #[trigger] repeats_fn(program.functions@, j) ==> has_already(
                    final(self).errs(),
                    name_text(old(self).names(), program.functions@[j].name),
                    program.functions@[j].span,
                ),
    {
        let mut syms: Vec<Symbol> = Vec::new();
        let mut spans: Vec<Span> = Vec::new();
        let mut i: usize = 0;
        while i < program.functions.len()
            invariant
                i <= program.functions@.len(),
                syms@.len() == i,
                spans@.len() == i,
                forall|j: int| 0 <= j < i ==> #[trigger] syms@[j] == program.functions@[j].name,
                forall|j: int| 0 <= j < i ==> #[trigger] spans@[j] == program.functions@[j].span,
            decreases program.functions@.len() - i,
        {
            syms.push(program.functions[i].name);
            spans.push(program.functions[i].span);
            i = i + 1;
        }
        proof {
            if dup_fn_names(program.functions@) {
                let (a, b) = choose|a: int, b: int|
                    0 <= a < b < program.functions@.len() && (#[trigger] program.functions@[a]).name
                        == (#[trigger] program.functions@[b]).name;
                assert(syms@[a] == syms@[b]);
                assert(has_dup(syms@));
            }
        }
        self.report_repeats(&syms, &spans);
        proof {
            assert forall|j: int| #[trigger] repeats_fn(program.functions@, j) implies has_already(
                self.errs(),
                name_text(old(self).names(), program.functions@[j].name),
                program.functions@[j].span,
            ) by {
                let a = choose|a: int| 0 <= a < j && (#[trigger] program.functions@[a]).name == program.functions@[j].name;
                assert(syms@[a] == program.functions@[a].name);
                assert(syms@[j] == program.functions@[j].name);
                assert(spans@[j] == program.functions@[j].span);
                assert(syms@.take(j)[a] == syms@[a]);
                assert(syms@.take(j).contains(syms@[j]));
            }
        }
    }

    /// The entry point must exist and read `fn main() -> i32`.
    fn check_main(&mut self, program: &Program)
        ensures
            grows(old(self).errs(), final(self).errs()),
            !has_main(program.functions@, old(self).names()) ==> final(self).errs().len() > old(
                self,
            ).errs().len(),
            !has_main(program.functions@, old(self).names()) ==> final(self).errs() == old(self).errs().push(
                final(self).errs().last(),
            ) && is_custom(final(self).errs().last(), main_missing_text(), Span { start: 0, end: 0 }),
            forall|i: int|
                first_main(program.functions@, old(self).names(), i) ==> if main_sig_ok(
                    #[trigger] program.functions@[i],
                ) {
                    final(self).errs() == old(self).errs()
                } else {
                    final(self).errs() == old(self).errs().push(final(self).errs().last()) && is_custom(
                        final(self).errs().last(),
                        main_sig_text(),
                        program.functions@[i].span,
                    )
                },
            steps(old(self), final(self)),
            final(self).same_context(old(self)),
            final(self).vars() == old(self).vars(),
    {
        proof {
            reveal_strlit("main");
        }
        let mut i: usize = 0;
        while i < program.functions.len()
            invariant
                i <= program.functions@.len(),
                self == old(self),
                forall|j: int|
                    0 <= j < i ==> name_text(self.names(), (#[trigger] program.functions@[j]).name)
                        != "main"@,
            decreases program.functions@.len() - i,
        {
            if str_eq(self.name_str(program.functions[i].name), "main") {
                let m = &program.functions[i];
                let is_i32 = match m.return_type {
                    Type::I32 => true,
                    _ => false,
                };
                if m.params.len() > 0 || !is_i32 {
                    self.custom(to_string("'main' imzasi 'fn main() -> i32' olmali"), m.span);
                }
                proof {
                    lemma_grows_refl(old(self).errs());
                }
                return;
            }
            i = i + 1;
        }
        self.custom(
            to_string("'main' fonksiyonu bulunamadi; giris noktasi 'fn main() -> i32' olmali"),
            Span::default(),
        );
    }

    /// Enters each enum into the table; the first declaration of a name wins.
    fn declare_enums(&mut self, program: &Program)
        ensures
            final(self).errs() == old(self).errs(),
            final(self).insts() == old(self).insts(),
            final(self).fns() == old(self).fns(),
            final(self).strs() == old(self).strs(),
            final(self).names() == old(self).names(),
            final(self).same_context(old(self)),
            final(self).vars() == old(self).vars(),
            forall|k: Symbol| has_key(old(self).enum_tbl(), k) ==> has_key(final(self).enum_tbl(), k),
            forall|i: int|
                0 <= i < program.enums@.len() ==> has_key(
                    final(self).enum_tbl(),
                    (#[trigger] program.enums@[i]).name,
                ),
    {
        let mut i: usize = 0;
        while i < program.enums.len()
            invariant
                i <= program.enums@.len(),
                self.errs() == old(self).errs(),
                self.insts() == old(self).insts(),
                self.fns() == old(self).fns(),
                self.strs() == old(self).strs(),
                self.names() == old(self).names(),
                self.same_context(old(self)),
                self.vars() == old(self).vars(),
                forall|k: Symbol| has_key(old(self).enum_tbl(), k) ==> has_key(self.enum_tbl(), k),
                forall|j: int|
                    0 <= j < i ==> has_key(self.enum_tbl(), (#[trigger] program.enums@[j]).name),
            decreases program.enums@.len() - i,
        {
            let e = &program.enums[i];
            if find_key(&self.enums, e.name).is_none() {
                let info = (dup_syms(&e.params), dup_variants(&e.variants));
                let ghost before = self.enums@;
                self.enums.push((e.name, info));
                proof {
                    assert forall|k: Symbol| has_key(before, k) implies has_key(self.enums@, k) by {
                        let w = choose|w: int| 0 <= w < before.len() && (#[trigger] before[w]).0 == k;
                        assert(self.enums@[w] == before[w]);
                    }
                    assert(self.enums@[before.len() as int].0 == e.name);
                }
            }
            i = i + 1;
        }
    }

    /// Checks enum declarations: repeated variants and the types of fields.
    fn check_enums(&mut self, program: &Program)
        ensures
            steps(old(self), final(self)),
            final(self).same_context(old(self)),
            final(self).vars() == old(self).vars(),
            (exists|q: int| 0 <= q < program.enums@.len() && enum_flawed(#[trigger] program.enums@[q]))
                ==> final(self).errs().len() > old(self).errs().len(),
    {
        let mut i: usize = 0;
        while i < program.enums.len()
            invariant
                steps(old(self), self),
                self.same_context(old(self)),
                self.vars() == old(self).vars(),
                i <= program.enums@.len(),
                (exists|q: int| 0 <= q < i && enum_flawed(#[trigger] program.enums@[q])) ==> self.errs().len()
                    > old(self).errs().len(),
            decreases program.enums@.len() - i,
        {
            let e = &program.enums[i];
            let ghost b0 = self.errs().len();
            let generic = e.params.len() > 0;
            let mut vsyms: Vec<Symbol> = Vec::new();
            let mut vspans: Vec<Span> = Vec::new();
            let mut j: usize = 0;
            while j < e.variants.len()
                invariant
                    vsyms@.len() == vspans@.len(),
                decreases e.variants@.len() - j,
            {
                vsyms.push(e.variants[j].0);
                vspans.push(e.span);
                j = j + 1;
            }
            let mut seen: Vec<Symbol> = Vec::new();
            let mut j: usize = 0;
            while j < e.variants.len()
                invariant
                    steps(old(self), self),
                    self.same_context(old(self)),
                    self.vars() == old(self).vars(),
                    e == &program.enums@[i as int],
                    i < program.enums@.len(),
                    j <= e.variants@.len(),
                    self.errs().len() >= b0,
                    b0 >= old(self).errs().len(),
                    (exists|q: int| 0 <= q < i && enum_flawed(#[trigger] program.enums@[q])) ==> b0
                        > old(self).errs().len(),
                    forall|q: int| 0 <= q < j ==> seen@.contains(#[trigger] e.variants@[q].0),
                    (exists|a: int, b: int|
                        0 <= a < b < j && (#[trigger] e.variants@[a]).0 == (#[trigger] e.variants@[b]).0)
                        ==> self.errs().len() > b0,
                decreases e.variants@.len() - j,
            {
                let ghost e1 = self.errs().len();
                let ghost s0 = seen@;
                let v = e.variants[j].0;
                let dup = contains_sym(&seen, v);
                if dup {
                    let a = self.resolve(e.name);
                    let b = self.resolve(v);
                    let n = cat(&[a.as_str(), "::", b.as_str()]);
                    self.report(LexoraError::AlreadyDefined { name: n, span: e.span });
                }
                seen.push(v);
                proof {
                    assert(self.errs().len() >= e1);
                    assert(dup ==> self.errs().len() > e1);
                    assert forall|a: int, b: int|
                        0 <= a < b < j + 1 && (#[trigger] e.variants@[a]).0 == (#[trigger] e.variants@[b]).0
                        implies self.errs().len() > b0 by {
                        if b == j {
                            assert(s0.contains(e.variants@[a].0));
                        }
                    }
                    assert forall|q: int| 0 <= q < j + 1 implies seen@.contains(#[trigger] e.variants@[q].0) by {
                        if q < j {
                            let w = choose|w: int| 0 <= w < s0.len() && s0[w] == e.variants@[q].0;
                            assert(seen@[w] == s0[w]);
                        } else {
                            assert(seen@[s0.len() as int] == v);
                        }
                    }
                }
                j = j + 1;
            }
            let ghost b1 = self.errs().len();
            let mut j: usize = 0;
            while j < e.variants.len()
                invariant
                    steps(old(self), self),
                    self.same_context(old(self)),
                    self.vars() == old(self).vars(),
                    e == &program.enums@[i as int],
                    i < program.enums@.len(),
                    j <= e.variants@.len(),
                    generic == (e.params@.len() > 0),
                    self.errs().len() >= b1,
                    b1 >= b0,
                    b0 >= old(self).errs().len(),
                    (exists|q: int| 0 <= q < i && enum_flawed(#[trigger] program.enums@[q])) ==> b0
                        > old(self).errs().len(),
                    (exists|a: int, b: int|
                        0 <= a < b < e.variants@.len() && (#[trigger] e.variants@[a]).0 == (#[trigger] e.variants@[b]).0)
                        ==> b1 > b0,
                    (exists|a: int, k: int|
                        0 <= a < j && 0 <= k < e.variants@[a].1@.len() && !enum_field_ok(
                            (#[trigger] e.variants@[a].1@[k])@,
                            generic,
                        )) ==> self.errs().len() > b1,
                decreases e.variants@.len() - j,
            {
                let v = e.variants[j].0;
                let ftys = &e.variants[j].1;
                let ghost e2 = self.errs().len();
                let mut k: usize = 0;
                while k < ftys.len()
                    invariant
                        steps(old(self), self),
                        self.same_context(old(self)),
                        self.vars() == old(self).vars(),
                        ftys == &e.variants@[j as int].1,
                        j < e.variants@.len(),
                        k <= ftys@.len(),
                        self.errs().len() >= e2,
                        (exists|k2: int| 0 <= k2 < k && !enum_field_ok((#[trigger] ftys@[k2])@, generic))
                            ==> self.errs().len() > e2,
                    decreases ftys@.len() - k,
                {
                    let ghost e3 = self.errs().len();
                    let t = &ftys[k];
                    self.validate_type(t, e.span, NEST_LIMIT);
                    let ok = match t {
                        Type::I32 | Type::I64 | Type::Bool | Type::Str | Type::String | Type::Box(_) => true,
                        Type::Param(_) => generic,
                        _ => false,
                    };
                    if !ok {
                        let a = self.resolve(e.name);
                        let b = self.resolve(v);
                        let f = self.format_type(t);
                        let msg = cat(
                            &[
                                "'",
                                a.as_str(),
                                "::",
                                b.as_str(),
                                "' alani icin desteklenmeyen tip: ",
                                f.as_str(),
                                " \u{2014} enum alani skaler (i32/i64/bool/str/String) veya Box<T> olabilir",
                            ],
                        );
                        self.custom(msg, e.span);
                    }
                    proof {
                        assert(ok == enum_field_ok(t@, generic));
                        assert forall|k2: int| 0 <= k2 < k + 1 && !enum_field_ok((#[trigger] ftys@[k2])@, generic)
                            implies self.errs().len() > e2 by {
                            if k2 == k as int {
                                assert(self.errs().len() > e3);
                            }
                        }
                    }
                    k = k + 1;
                }
                proof {
                    assert forall|a: int, k2: int|
                        0 <= a < j + 1 && 0 <= k2 < e.variants@[a].1@.len() && !enum_field_ok(
                            (#[trigger] e.variants@[a].1@[k2])@,
                            generic,
                        ) implies self.errs().len() > b1 by {
                        if a == j as int {
                            assert(!enum_field_ok(ftys@[k2]@, generic));
                        }
                    }
                }
                j = j + 1;
            }
            proof {
                if enum_flawed(program.enums@[i as int]) {
                    assert(self.errs().len() > b0);
                }
                assert forall|q: int| 0 <= q < i + 1 && enum_flawed(#[trigger] program.enums@[q]) implies self.errs().len()
                    > old(self).errs().len() by {
                }
            }
            i = i + 1;
        }
    }

    /// Checks struct declarations and enters them into the table; the first
    /// declaration of a name wins.
    fn declare_structs(&mut self, program: &Program)
        ensures
            grows(old(self).errs(), final(self).errs()),
            grows(old(self).insts(), final(self).insts()),
            final(self).fns() == old(self).fns(),
            final(self).enum_tbl() == old(self).enum_tbl(),
            final(self).names() == old(self).names(),
            final(self).same_context(old(self)),
            final(self).vars() == old(self).vars(),
            forall|k: Symbol| has_key(old(self).strs(), k) ==> has_key(final(self).strs(), k),
            forall|i: int|
                0 <= i < program.structs@.len() ==> has_key(
                    final(self).strs(),
                    (#[trigger] program.structs@[i]).name,
                ),
    {
        let mut i: usize = 0;
        while i < program.structs.len()
            invariant
                i <= program.structs@.len(),
                grows(old(self).errs(), self.errs()),
                grows(old(self).insts(), self.insts()),
                self.fns() == old(self).fns(),
                self.enum_tbl() == old(self).enum_tbl(),
                self.names() == old(self).names(),
                self.same_context(old(self)),
                self.vars() == old(self).vars(),
                forall|k: Symbol| has_key(old(self).strs(), k) ==> has_key(self.strs(), k),
                forall|j: int|
                    0 <= j < i ==> has_key(self.strs(), (#[trigger] program.structs@[j]).name),
            decreases program.structs@.len() - i,
        {
            let s = &program.structs[i];
            let mut seen: Vec<Symbol> = Vec::new();
            let mut j: usize = 0;
            while j < s.fields.len()
                invariant
                    grows(old(self).errs(), self.errs()),
                    grows(old(self).insts(), self.insts()),
                    self.fns() == old(self).fns(),
                    self.strs() == self.strs(),
                    self.enum_tbl() == old(self).enum_tbl(),
                    self.names() == old(self).names(),
                    self.same_context(old(self)),
                    self.vars() == old(self).vars(),
                    forall|k: Symbol| has_key(old(self).strs(), k) ==> has_key(self.strs(), k),
                    forall|q: int|
                        0 <= q < i ==> has_key(self.strs(), (#[trigger] program.structs@[q]).name),
                decreases s.fields@.len() - j,
            {
                let f = s.fields[j].0;
                if contains_sym(&seen, f) {
                    let a = self.resolve(s.name);
                    let b = self.resolve(f);
                    let n = cat(&[a.as_str(), ".", b.as_str()]);
                    self.report(LexoraError::AlreadyDefined { name: n, span: s.span });
                }
                seen.push(f);
                j = j + 1;
            }
            let mut j: usize = 0;
            while j < s.fields.len()
                invariant
                    grows(old(self).errs(), self.errs()),
                    grows(old(self).insts(), self.insts()),
                    self.fns() == old(self).fns(),
                    self.enum_tbl() == old(self).enum_tbl(),
                    self.names() == old(self).names(),
                    self.same_context(old(self)),
                    self.vars() == old(self).vars(),
                    forall|k: Symbol| has_key(old(self).strs(), k) ==> has_key(self.strs(), k),
                    forall|q: int|
                        0 <= q < i ==> has_key(self.strs(), (#[trigger] program.structs@[q]).name),
                decreases s.fields@.len() - j,
            {
                self.validate_type(&s.fields[j].1, s.span, NEST_LIMIT);
                j = j + 1;
            }
            if find_key(&self.structs, s.name).is_none() {
                let fields = dup_fields(&s.fields);
                let ghost before = self.structs@;
                self.structs.push((s.name, fields));
                proof {
                    assert forall|k: Symbol| has_key(before, k) implies has_key(self.structs@, k) by {
                        let w = choose|w: int| 0 <= w < before.len() && (#[trigger] before[w]).0 == k;
                        assert(self.structs@[w] == before[w]);
                    }
                    assert(self.structs@[before.len() as int].0 == s.name);
                }
            }
            i = i + 1;
        }
    }

    /// Reports struct fields that make their struct contain itself.
    fn check_struct_cycles(&mut self, program: &Program)
        ensures
            steps(old(self), final(self)),
            final(self).same_context(old(self)),
            final(self).vars() == old(self).vars(),
            (exists|a: int, b: int|
                0 <= a < program.structs@.len() && 0 <= b < program.structs@[a].fields@.len() && holds_directly(
                    (#[trigger] program.structs@[a].fields@[b]).1@,
                    program.structs@[a].name,
                )) ==> final(self).errs().len() > old(self).errs().len(),
            forall|a: int, b: int|
                #[trigger] self_field(program, a, b) ==> has_custom(
                    final(self).errs(),
                    cycle_text(old(self).names(), program.structs@[a].name, program.structs@[a].fields@[b].0),
                    program.structs@[a].span,
                ),
    {
        let mut i: usize = 0;
        while i < program.structs.len()
            invariant
                forall|a: int, b: int|
                    a < i && #[trigger] self_field(program, a, b) ==> has_custom(
                        self.errs(),
                        cycle_text(old(self).names(), program.structs@[a].name, program.structs@[a].fields@[b].0),
                        program.structs@[a].span,
                    ),
                steps(old(self), self),
                self.same_context(old(self)),
                self.vars() == old(self).vars(),
                i <= program.structs@.len(),
                (exists|a: int, b: int|
                    0 <= a < i && 0 <= b < program.structs@[a].fields@.len() && holds_directly(
                        (#[trigger] program.structs@[a].fields@[b]).1@,
                        program.structs@[a].name,
                    )) ==> self.errs().len() > old(self).errs().len(),
            decreases program.structs@.len() - i,
        {
            let s = &program.structs[i];
            let ghost b0 = self.errs().len();
            let ghost e_i = self.errs();
            let mut j: usize = 0;
            while j < s.fields.len()
                invariant
                    grows(e_i, self.errs()),
                    self.names() == old(self).names(),
                    forall|b: int|
                        0 <= b < j && holds_directly((#[trigger] s.fields@[b]).1@, s.name) ==> has_custom(
                            self.errs(),
                            cycle_text(old(self).names(), s.name, s.fields@[b].0),
                            s.span,
                        ),
                    steps(old(self), self),
                    self.same_context(old(self)),
                    self.vars() == old(self).vars(),
                    s == &program.structs@[i as int],
                    i < program.structs@.len(),
                    j <= s.fields@.len(),
                    self.errs().len() >= b0,
                    b0 >= old(self).errs().len(),
                    (exists|a: int, b: int|
                        0 <= a < i && 0 <= b < program.structs@[a].fields@.len() && holds_directly(
                            (#[trigger] program.structs@[a].fields@[b]).1@,
                            program.structs@[a].name,
                        )) ==> b0 > old(self).errs().len(),
                    (exists|b: int| 0 <= b < j && holds_directly((#[trigger] s.fields@[b]).1@, s.name))
                        ==> self.errs().len() > b0,
                decreases s.fields@.len() - j,
            {
                let ghost e1 = self.errs().len();
                let ghost e_j = self.errs();
                let mut seen: Vec<Symbol> = Vec::new();
                seen.push(s.name);
                if self.struct_cycle(s.name, &s.fields[j].1, &mut seen, NEST_LIMIT) {
                    let a = self.resolve(s.name);
                    let b = self.resolve(s.fields[j].0);
                    let mut msg = to_string("'");
                    push_str(&mut msg, a.as_str());
                    push_str(&mut msg, ".");
                    push_str(&mut msg, b.as_str());
                    push_str(&mut msg, "' alani struct'i kendine dahil ediyor (sonsuz boyut); dolayim icin Box<");
                    push_str(&mut msg, a.as_str());
                    push_str(&mut msg, "> kullanin");
                    self.custom(msg, s.span);
                    proof {
                        assert(is_custom(
                            self.errs()[self.errs().len() - 1],
                            cycle_text(old(self).names(), s.name, s.fields@[j as int].0),
                            s.span,
                        ));
                    }
                }
                proof {
                    assert(grows(e_j, self.errs()));
                    lemma_grows_trans(e_i, e_j, self.errs());
                    assert forall|b: int|
                        0 <= b < j + 1 && holds_directly((#[trigger] s.fields@[b]).1@, s.name) implies has_custom(
                        self.errs(),
                        cycle_text(old(self).names(), s.name, s.fields@[b].0),
                        s.span,
                    ) by {
                        if b < j {
                            lemma_has_custom_grows(
                                e_j,
                                self.errs(),
                                cycle_text(old(self).names(), s.name, s.fields@[b].0),
                                s.span,
                            );
                        } else {
                            assert(self.errs().len() > e1);
                            assert(self.errs() == e_j.push(self.errs().last()));
                        }
                    }
                }
                proof {
                    assert(self.errs().len() >= e1);
                    assert forall|b: int| 0 <= b < j + 1 && holds_directly((#[trigger] s.fields@[b]).1@, s.name)
                        implies self.errs().len() > b0 by {
                        if b == j as int {
                            assert(self.errs().len() > e1);
                        }
                    }
                }
                j = j + 1;
            }
            proof {
                assert forall|a: int, b: int|
                    0 <= a < i + 1 && 0 <= b < program.structs@[a].fields@.len() && holds_directly(
                        (#[trigger] program.structs@[a].fields@[b]).1@,
                        program.structs@[a].name,
                    ) implies self.errs().len() > old(self).errs().len() by {
                    if a == i as int {
                        assert(holds_directly(s.fields@[b].1@, s.name));
                    }
                }
                assert forall|a: int, b: int|
                    a < i + 1 && #[trigger] self_field(program, a, b) implies has_custom(
                    self.errs(),
                    cycle_text(old(self).names(), program.structs@[a].name, program.structs@[a].fields@[b].0),
                    program.structs@[a].span,
                ) by {
                    if a < i {
                        lemma_has_custom_grows(
                            e_i,
                            self.errs(),
                            cycle_text(old(self).names(), program.structs@[a].name, program.structs@[a].fields@[b].0),
                            program.structs@[a].span,
                        );
                    } else {
                        assert(holds_directly(s.fields@[b].1@, s.name));
                    }
                }
            }
            i = i + 1;
        }
    }

    /// Checks function signatures and enters them into the table; the first
    /// declaration of a name wins.
    fn declare_functions(&mut self, program: &Program)
        ensures
            grows(old(self).errs(), final(self).errs()),
            grows(old(self).insts(), final(self).insts()),
            final(self).strs() == old(self).strs(),
            final(self).enum_tbl() == old(self).enum_tbl(),
            final(self).names() == old(self).names(),
            final(self).same_context(old(self)),
            final(self).vars() == old(self).vars(),
            forall|i: int|
                0 <= i < program.functions@.len() ==> has_key(
                    final(self).fns(),
                    (#[trigger] program.functions@[i]).name,
                ),
            forall|i: int|
                0 <= i < program.functions@.len() && is_builtin_fn(
                    name_text(old(self).names(), (#[trigger] program.functions@[i]).name),
                ) ==> has_custom(
                    final(self).errs(),
                    builtin_clash_text(name_text(old(self).names(), program.functions@[i].name)),
                    program.functions@[i].span,
                ),
    {
        let mut i: usize = 0;
        while i < program.functions.len()
            invariant
                i <= program.functions@.len(),
                forall|q: int|
                    0 <= q < i && is_builtin_fn(name_text(old(self).names(), (#[trigger] program.functions@[q]).name))
                        ==> has_custom(
                        self.errs(),
                        builtin_clash_text(name_text(old(self).names(), program.functions@[q].name)),
                        program.functions@[q].span,
                    ),
                grows(old(self).errs(), self.errs()),
                grows(old(self).insts(), self.insts()),
                self.strs() == old(self).strs(),
                self.enum_tbl() == old(self).enum_tbl(),
                self.names() == old(self).names(),
                self.same_context(old(self)),
                self.vars() == old(self).vars(),
                forall|j: int|
                    0 <= j < i ==> has_key(self.fns(), (#[trigger] program.functions@[j]).name),
            decreases program.functions@.len() - i,
        {
            let func = &program.functions[i];
            let fname = self.name_str(func.name);
            let ghost e_start = self.errs();
            if str_eq(fname, "print") || str_eq(fname, "string") || str_eq(fname, "len") {
                let mut msg = to_string("'");
                push_str(&mut msg, fname);
                push_str(&mut msg, "' yerlesik bir fonksiyon; ayni isimde tanim yapilamaz");
                self.custom(msg, func.span);
                proof {
                    assert(is_custom(
                        self.errs()[self.errs().len() - 1],
                        builtin_clash_text(name_text(old(self).names(), func.name)),
                        func.span,
                    ));
                }
            }
            let ghost e_named = self.errs();
            let mut j: usize = 0;
            while j < func.params.len()
                invariant
                    grows(old(self).errs(), self.errs()),
                    grows(old(self).insts(), self.insts()),
                    self.strs() == old(self).strs(),
                    self.enum_tbl() == old(self).enum_tbl(),
                    self.names() == old(self).names(),
                    self.same_context(old(self)),
                    self.vars() == old(self).vars(),
                    forall|q: int|
                        0 <= q < i ==> has_key(self.fns(), (#[trigger] program.functions@[q]).name),
                    grows(e_named, self.errs()),
                decreases func.params@.len() - j,
            {
                let ghost e_j = self.errs();
                self.validate_type(&func.params[j].1, func.span, NEST_LIMIT);
                proof {
                    lemma_grows_trans(e_named, e_j, self.errs());
                }
                j = j + 1;
            }
            let ghost e_v = self.errs();
            self.validate_type(&func.return_type, func.span, NEST_LIMIT);
            proof {
                lemma_grows_trans(e_named, e_v, self.errs());
            }
            if find_key(&self.functions, func.name).is_none() {
                let mut ptys: Vec<Type> = Vec::new();
                let mut j: usize = 0;
                while j < func.params.len()
                    decreases func.params@.len() - j,
                {
                    ptys.push(func.params[j].1.dup());
                    j = j + 1;
                }
                let sig = (ptys, func.return_type.dup());
                let ghost before = self.functions@;
                self.functions.push((func.name, sig));
                proof {
                    assert forall|q: int|
                        0 <= q < i + 1 implies has_key(
                        self.fns(),
                        (#[trigger] program.functions@[q]).name,
                    ) by {
                        if q < i {
                            let w = choose|w: int|
                                0 <= w < before.len() && (#[trigger] before[w]).0
                                    == program.functions@[q].name;
                            assert(self.functions@[w] == before[w]);
                        } else {
                            assert(self.functions@[before.len() as int].0 == func.name);
                        }
                    }
                }
            } else {
                proof {
                    assert(has_key(self.fns(), func.name));
                }
            }
            proof {
                assert forall|q: int|
                    0 <= q < i + 1 && is_builtin_fn(
                        name_text(old(self).names(), (#[trigger] program.functions@[q]).name),
                    ) implies has_custom(
                    self.errs(),
                    builtin_clash_text(name_text(old(self).names(), program.functions@[q].name)),
                    program.functions@[q].span,
                ) by {
                    lemma_grows_trans(e_start, e_named, self.errs());
                    if q < i {
                        lemma_has_custom_grows(
                            e_start,
                            self.errs(),
                            builtin_clash_text(name_text(old(self).names(), program.functions@[q].name)),
                            program.functions@[q].span,
                        );
                    } else {
                        assert(has_custom(
                            e_named,
                            builtin_clash_text(name_text(old(self).names(), program.functions@[q].name)),
                            program.functions@[q].span,
                        ));
                        lemma_has_custom_grows(
                            e_named,
                            self.errs(),
                            builtin_clash_text(name_text(old(self).names(), program.functions@[q].name)),
                            program.functions@[q].span,
                        );
                    }
                }
            }
            i = i + 1;
        }
    }
}

/// The error text for `+` on two string literals.
pub open spec fn str_concat_text() -> Seq<char> {
    "iki str sabiti '+' ile birlestirilemez; once string() ile String'e cevirin"@
}

/// The errors of a binary node: those its operands left, then its own
/// complaint, if it has one, last; `+` on two `str` values complains with
/// its own text.
pub open spec fn binary_errs(
    before: Seq<LexoraError>,
    after: Seq<LexoraError>,
    op: BinaryOperator,
    lt: TypeV,
    rt: TypeV,
    span: Span,
) -> bool {
    &&& exists|mid: Seq<LexoraError>|
        grows(before, mid) && #[trigger] after.len() == mid.len() + (if binary_complaint(op, lt, rt) {
            1int
        } else {
            0int
        }) && grows(mid, after)
    &&& (op is Add && lt == TypeV::Str && rt == TypeV::Str) ==> is_custom(after.last(), str_concat_text(), span)
}

/// An entry of a log that only grows stays where it is.
pub proof fn lemma_kept_at<T>(a: Seq<T>, b: Seq<T>, k: int)
    requires
        grows(a, b),
        0 <= k < a.len(),
    ensures
        0 <= k < b.len(),
        b[k] == a[k],
{
}

/// `e` is a type mismatch with exactly these texts and span.
pub open spec fn is_mismatch(e: LexoraError, expected: Seq<char>, found: Seq<char>, sp: Span) -> bool {
    e matches LexoraError::TypeMismatch { expected: x, found: y, span } && x@ == expected && y@ == found
        && span == sp
}

/// Some error of the list is this type mismatch.
pub open spec fn has_mismatch(errs: Seq<LexoraError>, expected: Seq<char>, found: Seq<char>, sp: Span) -> bool {
    exists|k: int| 0 <= k < errs.len() && is_mismatch(#[trigger] errs[k], expected, found, sp)
}

/// The type a `let` gives its name: the declared one, else the value's.
pub open spec fn let_type(declared: Option<Type>, value: TypeV) -> TypeV {
    match declared {
        Some(d) => d@,
        None => value,
    }
}

/// Some arm of the match is the wildcard `_`.
pub open spec fn has_wildcard_arm<'a>(arms: Seq<(Pattern, Block<'a>)>) -> bool {
    exists|k: int| 0 <= k < arms.len() && (#[trigger] arms[k]).0 is Wildcard
}

/// Some arm of the match names variant `v`.
pub open spec fn names_variant<'a>(arms: Seq<(Pattern, Block<'a>)>, v: Symbol) -> bool {
    exists|k: int| 0 <= k < arms.len() && ((#[trigger] arms[k]).0 matches Pattern::Variant { variant, .. } && variant == v)
}

/// The error text for a variant that no arm of a match covers.
pub open spec fn missing_arm_text(names: Seq<Seq<char>>, e: Symbol, v: Symbol) -> Seq<char> {
    "eksik match: '"@ + name_text(names, e) + "::"@ + name_text(names, v) + "' kapsanmadi"@
}

/// The scrutinee has enum type, and its `k`-th variant is named by no arm
/// while no arm is the wildcard.
pub open spec fn unmatched<'a>(
    scrut: TypeV,
    enums: Seq<(Symbol, EnumInfo)>,
    arms: Seq<(Pattern, Block<'a>)>,
    k: int,
) -> bool {
    scrut matches TypeV::Enum(e, a) && variants_for(enums, e, a) matches Some(vs) && 0 <= k < vs.len()
        && !has_wildcard_arm(arms) && !names_variant(arms, vs[k].0)
}

/// The error text for the `k`-th variant of the scrutinee's enum.
pub open spec fn unmatched_text(names: Seq<Seq<char>>, scrut: TypeV, enums: Seq<(Symbol, EnumInfo)>, k: int) -> Seq<
    char,
> {
    match scrut {
        TypeV::Enum(e, a) => match variants_for(enums, e, a) {
            Some(vs) => missing_arm_text(names, e, vs[k].0),
            None => Seq::empty(),
        },
        _ => Seq::empty(),
    }
}

/// The parts `?` needs: the `Ok` type `T` and `Err` type `E` of the
/// operand's `Result`, and the `Err` type `E2` of the enclosing function's
/// result, which must be the same `Result` enum.
pub open spec fn try_parts(
    inner: TypeV,
    ret: TypeV,
    enums: Seq<(Symbol, EnumInfo)>,
    names: Seq<Seq<char>>,
) -> Option<(TypeV, TypeV, TypeV)> {
    match inner {
        TypeV::Enum(rs, a) => if name_text(names, rs) == "Result"@ {
            match result_parts_spec(enums, names, rs, a) {
                Some(p) => match ret {
                    TypeV::Enum(rs2, b) => if rs2 == rs {
                        match result_parts_spec(enums, names, rs, b) {
                            Some(q) => Some((p.0, p.1, q.1)),
                            None => None,
                        }
                    } else {
                        None
                    },
                    _ => None,
                },
                None => None,
            }
        } else {
            None
        },
        _ => None,
    }
}

/// The rule of `?`: a poisoned operand gives the error type; matching error
/// types give the `Ok` type; differing ones report a mismatch (expected the
/// function's error type); anything else reports a free-form error.
pub open spec fn try_rule(
    inner: TypeV,
    ret: TypeV,
    enums: Seq<(Symbol, EnumInfo)>,
    names: Seq<Seq<char>>,
    span: Span,
    errs: Seq<LexoraError>,
    r: TypeV,
) -> bool {
    if inner is Error {
        r is Error
    } else {
        match try_parts(inner, ret, enums, names) {
            Some(p) => if tm(p.1, p.2) {
                r == p.0
            } else {
                r is Error && errs.len() > 0 && is_mismatch(
                    errs.last(),
                    type_text(p.2, names),
                    type_text(p.1, names),
                    span,
                )
            },
            None => r is Error && errs.len() > 0 && (errs.last() matches LexoraError::Custom { span: sp, .. }
                && sp == span),
        }
    }
}

/// `e` says that the name with this text is defined twice, at this place.
pub open spec fn is_already(e: LexoraError, text: Seq<char>, sp: Span) -> bool {
    e matches LexoraError::AlreadyDefined { name, span } && name@ == text && span == sp
}

/// Some error of the list says that this name is defined twice, here.
pub open spec fn has_already(errs: Seq<LexoraError>, text: Seq<char>, sp: Span) -> bool {
    exists|k: int| 0 <= k < errs.len() && is_already(#[trigger] errs[k], text, sp)
}

/// What a log that only grows held stays in it.
pub proof fn lemma_has_already_grows(a: Seq<LexoraError>, b: Seq<LexoraError>, text: Seq<char>, sp: Span)
    requires
        grows(a, b),
        has_already(a, text, sp),
    ensures
        has_already(b, text, sp),
{
    let k = choose|k: int| 0 <= k < a.len() && is_already(#[trigger] a[k], text, sp);
    lemma_kept_at(a, b, k);
}

/// A later function of the list bears the name of an earlier one.
pub open spec fn repeats_fn<'a>(fs: Seq<Function<'a>>, j: int) -> bool {
    0 <= j < fs.len() && exists|i: int| 0 <= i < j && (#[trigger] fs[i]).name == fs[j].name
}

/// The type of a literal, read off the literal itself.
pub open spec fn lit_type<'a>(e: &Expr<'a>) -> Option<TypeV> {
    match e {
        Expr::Integer(n, _, _) => Some(
            if fits_i32(*n) {
                TypeV::I32
            } else {
                TypeV::I64
            },
        ),
        Expr::Bool(..) => Some(TypeV::Bool),
        Expr::StringLiteral(..) => Some(TypeV::Str),
        _ => None,
    }
}

/// A `let` that declares a type and binds a literal of another type.
pub open spec fn let_lit_mismatch<'a>(s: &Stmt<'a>) -> bool {
    s matches Stmt::Let { ty: Some(d), value, .. } && (lit_type(value) matches Some(t) && !tm(d@, t))
}

/// The mismatch such a `let` causes is in the list: the declared type
/// expected, the literal's type found, at the statement.
pub open spec fn lit_mismatch_listed<'a>(errs: Seq<LexoraError>, s: &Stmt<'a>, names: Seq<Seq<char>>) -> bool {
    match s {
        Stmt::Let { ty: Some(d), value, span, .. } => match lit_type(value) {
            Some(t) => has_mismatch(errs, type_text(d@, names), type_text(t, names), *span),
            None => true,
        },
        _ => true,
    }
}

/// What a log that only grows lists, it keeps listing.
pub proof fn lemma_listed_grows<'a>(a: Seq<LexoraError>, b: Seq<LexoraError>, s: &Stmt<'a>, names: Seq<Seq<char>>)
    requires
        grows(a, b),
        lit_mismatch_listed(a, s, names),
    ensures
        lit_mismatch_listed(b, s, names),
{
    match s {
        Stmt::Let { ty: Some(d), value, span, .. } => match lit_type(value) {
            Some(t) => {
                let k = choose|k: int|
                    0 <= k < a.len() && is_mismatch(#[trigger] a[k], type_text(d@, names), type_text(t, names), *span);
                lemma_kept_at(a, b, k);
            },
            None => {},
        },
        _ => {},
    }
}

/// A `return` of a literal whose type is not the declared result type.
pub open spec fn ret_lit_mismatch<'a>(s: &Stmt<'a>, ret: TypeV) -> bool {
    s matches Stmt::Return(e, _) && (lit_type(&e) matches Some(t) && !tm(ret, t))
}

/// The mismatch such a `return` causes is in the list: the declared result
/// type expected, the literal's type found, at the statement.
pub open spec fn ret_mismatch_listed<'a>(errs: Seq<LexoraError>, s: &Stmt<'a>, ret: TypeV, names: Seq<Seq<char>>) -> bool {
    match s {
        Stmt::Return(e, span) => match lit_type(e) {
            Some(t) => has_mismatch(errs, type_text(ret, names), type_text(t, names), *span),
            None => true,
        },
        _ => true,
    }
}

/// What a log that only grows lists, it keeps listing.
pub proof fn lemma_ret_listed_grows<'a>(
    a: Seq<LexoraError>,
    b: Seq<LexoraError>,
    s: &Stmt<'a>,
    ret: TypeV,
    names: Seq<Seq<char>>,
)
    requires
        grows(a, b),
        ret_mismatch_listed(a, s, ret, names),
    ensures
        ret_mismatch_listed(b, s, ret, names),
{
    match s {
        Stmt::Return(e, span) => match lit_type(e) {
            Some(t) => {
                let k = choose|k: int|
                    0 <= k < a.len() && is_mismatch(#[trigger] a[k], type_text(ret, names), type_text(t, names), *span);
                lemma_kept_at(a, b, k);
            },
            None => {},
        },
        _ => {},
    }
}

/// Some function body of the list holds such a `let` among its statements.
pub open spec fn body_lit_mismatch<'a>(fs: Seq<Function<'a>>) -> bool {
    exists|k: int, j: int|
        0 <= k < fs.len() && 0 <= j < fs[k].body.stmts@.len() && let_lit_mismatch(
            #[trigger] &fs[k].body.stmts@[j],
        )
}

/// A name the language keeps for its own functions.
pub open spec fn is_builtin_fn(name: Seq<char>) -> bool {
    name == "print"@ || name == "string"@ || name == "len"@
}

/// The error text for a function that takes a builtin's name.
pub open spec fn builtin_clash_text(name: Seq<char>) -> Seq<char> {
    "'"@ + name + "' yerlesik bir fonksiyon; ayni isimde tanim yapilamaz"@
}

/// A free-form error that a log held stays in it as it grows.
pub proof fn lemma_has_custom_grows(a: Seq<LexoraError>, b: Seq<LexoraError>, text: Seq<char>, sp: Span)
    requires
        grows(a, b),
        has_custom(a, text, sp),
    ensures
        has_custom(b, text, sp),
{
    let k = choose|k: int| 0 <= k < a.len() && is_custom(#[trigger] a[k], text, sp);
    lemma_kept_at(a, b, k);
}

/// The error text for a field through which a struct holds itself.
pub open spec fn cycle_text(names: Seq<Seq<char>>, s: Symbol, f: Symbol) -> Seq<char> {
    "'"@ + name_text(names, s) + "."@ + name_text(names, f)
        + "' alani struct'i kendine dahil ediyor (sonsuz boyut); dolayim icin Box<"@ + name_text(names, s)
        + "> kullanin"@
}

/// Field `b` of struct `a` holds the struct itself, directly or in arrays.
pub open spec fn self_field<'a>(p: &Program<'a>, a: int, b: int) -> bool {
    0 <= a < p.structs@.len() && 0 <= b < p.structs@[a].fields@.len() && holds_directly(
        p.structs@[a].fields@[b].1@,
        p.structs@[a].name,
    )
}

/// The error text for a program without an entry point.
pub open spec fn main_missing_text() -> Seq<char> {
    "'main' fonksiyonu bulunamadi; giris noktasi 'fn main() -> i32' olmali"@
}

/// The error text for an entry point with the wrong signature.
pub open spec fn main_sig_text() -> Seq<char> {
    "'main' imzasi 'fn main() -> i32' olmali"@
}

/// `e` is a free-form error with exactly this text and span.
pub open spec fn is_custom(e: LexoraError, text: Seq<char>, sp: Span) -> bool {
    e matches LexoraError::Custom { message, span } && message@ == text && span == sp
}

/// Some error of the list is a free-form error with this text and span.
pub open spec fn has_custom(errs: Seq<LexoraError>, text: Seq<char>, sp: Span) -> bool {
    exists|k: int| 0 <= k < errs.len() && is_custom(#[trigger] errs[k], text, sp)
}

/// `fs[i]` is the first function called `main`, and its signature is wrong.
pub open spec fn bad_main<'a>(fs: Seq<Function<'a>>, names: Seq<Seq<char>>, i: int) -> bool {
    first_main(fs, names, i) && !main_sig_ok(fs[i])
}

/// `fs[i]` is the first function called `main`.
pub open spec fn first_main<'a>(fs: Seq<Function<'a>>, names: Seq<Seq<char>>, i: int) -> bool {
    &&& 0 <= i < fs.len()
    &&& name_text(names, fs[i].name) == "main"@
    &&& forall|j: int| 0 <= j < i ==> name_text(names, (#[trigger] fs[j]).name) != "main"@
}

/// `fn main() -> i32`: no parameters and an `i32` result.
pub open spec fn main_sig_ok<'a>(f: Function<'a>) -> bool {
    f.params@.len() == 0 && f.return_type is I32
}

/// Whether some function of the program is called `main`.
pub open spec fn has_main<'a>(fs: Seq<Function<'a>>, names: Seq<Seq<char>>) -> bool {
    exists|i: int| 0 <= i < fs.len() && name_text(names, (#[trigger] fs[i]).name) == "main"@
}

/// Whether two functions of the program share a name.
pub open spec fn dup_fn_names<'a>(fs: Seq<Function<'a>>) -> bool {
    exists|i: int, j: int| 0 <= i < j < fs.len() && (#[trigger] fs[i]).name == (#[trigger] fs[j]).name
}

impl<'i> TypeChecker<'i> {
    /// Checks one function body against its signature.
    fn check_function(&mut self, func: &Function)
        ensures
            steps(old(self), final(self)),
            final(self).loops() == old(self).loops(),
            final(self).vars() == old(self).vars(),
            final(self).errs().len() == old(self).errs().len() ==> covers(final(self).recorded(), block_ids(&func.body)),
            (exists|j: int| 0 <= j < func.body.stmts@.len() && let_lit_mismatch(#[trigger] &func.body.stmts@[j]))
                ==> final(self).errs().len() > old(self).errs().len(),
            forall|j: int|
                0 <= j < func.body.stmts@.len() && let_lit_mismatch(#[trigger] &func.body.stmts@[j])
                    ==> lit_mismatch_listed(final(self).errs(), &func.body.stmts@[j], old(self).names()),
            forall|j: int|
                0 <= j < func.body.stmts@.len() && ret_lit_mismatch(#[trigger] &func.body.stmts@[j], func.return_type@)
                    ==> ret_mismatch_listed(
                    final(self).errs(),
                    &func.body.stmts@[j],
                    func.return_type@,
                    old(self).names(),
                ),
    {
        self.cur_ret = func.return_type.dup();
        self.variables.enter_scope();
        let ghost start = *self;
        let mut i: usize = 0;
        while i < func.params.len()
            invariant
                steps(old(self), self),
                self.loops() == old(self).loops(),
                self.vars().len() == old(self).vars().len() + 1,
                self.vars().drop_last() == old(self).vars(),
            decreases func.params@.len() - i,
        {
            let sym = func.params[i].0;
            let ty = func.params[i].1.dup();
            if !self.variables.define(sym, ty) {
                let n = self.resolve(sym);
                self.report(LexoraError::AlreadyDefined { name: n, span: func.span });
            }
            i = i + 1;
        }
        self.check_stmts(&func.body.stmts, &func.return_type);
        let ghost m_s = self.recorded();
        let ghost e_s = self.errs();
        match &func.body.tail {
            Some(tail) => {
                let tail_ty = self.check_expr(&**tail);
                if !types_match(&func.return_type, &tail_ty) {
                    let e = self.format_type(&func.return_type);
                    let f = self.format_type(&tail_ty);
                    self.report(LexoraError::TypeMismatch { expected: e, found: f, span: tail.span() });
                }
            },
            None => {},
        }
        let is_void = match func.return_type {
            Type::Void => true,
            _ => false,
        };
        if !is_void && !block_always_returns(&func.body) {
            let n = self.resolve(func.name);
            let t = self.format_type(&func.return_type);
            let msg = cat(
                &[
                    "'",
                    n.as_str(),
                    "' fonksiyonu ",
                    t.as_str(),
                    " donduruyor ama tum yollar deger dondurmuyor",
                ],
            );
            self.custom(msg, func.span);
        }
        self.variables.exit_scope();
        proof {
            if self.errs().len() == old(self).errs().len() {
                lemma_tail_cover(m_s, self.recorded(), &func.body);
            }
            assert(grows(e_s, self.errs()));
            assert forall|j: int|
                0 <= j < func.body.stmts@.len() && let_lit_mismatch(#[trigger] &func.body.stmts@[j])
                    implies lit_mismatch_listed(self.errs(), &func.body.stmts@[j], old(self).names()) by {
                lemma_listed_grows(e_s, self.errs(), &func.body.stmts@[j], old(self).names());
            }
            assert forall|j: int|
                0 <= j < func.body.stmts@.len() && ret_lit_mismatch(#[trigger] &func.body.stmts@[j], func.return_type@)
                    implies ret_mismatch_listed(
                self.errs(),
                &func.body.stmts@[j],
                func.return_type@,
                old(self).names(),
            ) by {
                lemma_ret_listed_grows(e_s, self.errs(), &func.body.stmts@[j], func.return_type@, old(self).names());
            }
        }
    }

    /// Checks a whole program. Succeeds when no error was found; otherwise
    /// hands back every error, in the order found.
    #[verifier::rlimit(50)]
    #[verifier::spinoff_prover]
    pub fn check_program(&mut self, program: &Program) -> (r: Result<(), Vec<LexoraError>>)
        ensures
            match r {
                Ok(()) => old(self).errs().len() == 0 && final(self).errs().len() == 0,
                Err(v) => v@.len() > 0 && grows(old(self).errs(), v@) && final(self).errs().len()
                    == 0,
            },
            !has_main(program.functions@, old(self).names()) ==> r is Err,
            !has_main(program.functions@, old(self).names()) ==> (r matches Err(v) && has_custom(
                v@,
                main_missing_text(),
                Span { start: 0, end: 0 },
            )),
            forall|i: int|
                #[trigger] bad_main(program.functions@, old(self).names(), i) ==> (r matches Err(v) && has_custom(
                    v@,
                    main_sig_text(),
                    program.functions@[i].span,
                )),
            dup_fn_names(program.functions@) ==> r is Err,
            body_lit_mismatch(program.functions@) ==> r is Err,
            forall|k: int, j: int|
                0 <= k < program.functions@.len() && 0 <= j < program.functions@[k].body.stmts@.len()
                    && ret_lit_mismatch(#[trigger] &program.functions@[k].body.stmts@[j], program.functions@[k].return_type@)
                    ==> (r matches Err(v) && ret_mismatch_listed(
                    v@,
                    &program.functions@[k].body.stmts@[j],
                    program.functions@[k].return_type@,
                    old(self).names(),
                )),
            forall|k: int, j: int|
                0 <= k < program.functions@.len() && 0 <= j < program.functions@[k].body.stmts@.len()
                    && let_lit_mismatch(#[trigger] &program.functions@[k].body.stmts@[j]) ==> (r matches Err(v)
                    && lit_mismatch_listed(v@, &program.functions@[k].body.stmts@[j], old(self).names())),
            forall|a: int, b: int|
                #[trigger] self_field(program, a, b) ==> (r matches Err(v) && has_custom(
                    v@,
                    cycle_text(old(self).names(), program.structs@[a].name, program.structs@[a].fields@[b].0),
                    program.structs@[a].span,
                )),
            forall|i: int|
                0 <= i < program.functions@.len() && is_builtin_fn(
                    name_text(old(self).names(), (#[trigger] program.functions@[i]).name),
                ) ==> (r matches Err(v) && has_custom(
                    v@,
                    builtin_clash_text(name_text(old(self).names(), program.functions@[i].name)),
                    program.functions@[i].span,
                )),
            forall|j: int|
                #[trigger] repeats_type(program, j) ==> (r matches Err(v) && has_already(
                    v@,
                    name_text(old(self).names(), type_decl_names(program)[j]),
                    type_decl_spans(program)[j],
                )),
            forall|j: int|
                #[trigger] repeats_fn(program.functions@, j) ==> (r matches Err(v) && has_already(
                    v@,
                    name_text(old(self).names(), program.functions@[j].name),
                    program.functions@[j].span,
                )),
            dup_type_names(program) ==> r is Err,
            forall|i: int|
                0 <= i < program.functions@.len() ==> has_key(
                    final(self).fns(),
                    (#[trigger] program.functions@[i]).name,
                ),
            forall|i: int|
                0 <= i < program.structs@.len() ==> has_key(
                    final(self).strs(),
                    (#[trigger] program.structs@[i]).name,
                ),
            forall|i: int|
                0 <= i < program.enums@.len() ==> has_key(
                    final(self).enum_tbl(),
                    (#[trigger] program.enums@[i]).name,
                ),
            r is Ok ==> covers(final(self).recorded(), program_ids(program)),
    {
        let ghost e0 = self.errs();
        self.check_type_names(program);
        let ghost e_ty = self.errs();
        self.check_fn_names(program);
        let ghost e_fn = self.errs();
        let ghost names0 = self.names();
        let ghost e_pre_main = self.errs();
        self.check_main(program);
        proof {
            lemma_grows_trans(e0, e0, self.errs());
        }
        let ghost e_decl = self.errs();
        self.declare_enums(program);
        self.check_enums(program);
        self.declare_structs(program);
        self.check_struct_cycles(program);
        let ghost e_cyc = self.errs();
        self.declare_functions(program);
        let ghost e_df = self.errs();
        let mut i: usize = 0;
        while i < program.functions.len()
            invariant
                grows(e_decl, self.errs()),
                grows(e_df, self.errs()),
                grows(e0, e_decl),
                !has_main(program.functions@, old(self).names()) ==> self.errs().len() > e0.len(),
                dup_fn_names(program.functions@) ==> self.errs().len() > e0.len(),
                dup_type_names(program) ==> self.errs().len() > e0.len(),
                self.names() == old(self).names(),
                forall|j: int|
                    0 <= j < program.functions@.len() ==> has_key(
                        self.fns(),
                        (#[trigger] program.functions@[j]).name,
                    ),
                forall|j: int|
                    0 <= j < program.structs@.len() ==> has_key(
                        self.strs(),
                        (#[trigger] program.structs@[j]).name,
                    ),
                forall|j: int|
                    0 <= j < program.enums@.len() ==> has_key(
                        self.enum_tbl(),
                        (#[trigger] program.enums@[j]).name,
                    ),
                i <= program.functions@.len(),
                (exists|k: int, j: int|
                    0 <= k < i && 0 <= j < program.functions@[k].body.stmts@.len() && let_lit_mismatch(
                        #[trigger] &program.functions@[k].body.stmts@[j],
                    )) ==> self.errs().len() > e_decl.len(),
                forall|k: int, j: int|
                    0 <= k < i && 0 <= j < program.functions@[k].body.stmts@.len() && let_lit_mismatch(
                        #[trigger] &program.functions@[k].body.stmts@[j],
                    ) ==> lit_mismatch_listed(self.errs(), &program.functions@[k].body.stmts@[j], old(self).names()),
                forall|k: int, j: int|
                    0 <= k < i && 0 <= j < program.functions@[k].body.stmts@.len() && ret_lit_mismatch(
                        #[trigger] &program.functions@[k].body.stmts@[j],
                        program.functions@[k].return_type@,
                    ) ==> ret_mismatch_listed(
                        self.errs(),
                        &program.functions@[k].body.stmts@[j],
                        program.functions@[k].return_type@,
                        old(self).names(),
                    ),
                self.errs().len() == e_decl.len() ==> covers(
                    self.recorded(),
                    functions_ids(program.functions@.take(i as int)),
                ),
            decreases program.functions@.len() - i,
        {
            let ghost before = self.errs();
            let ghost m0 = self.recorded();
            self.check_function(&program.functions[i]);
            proof {
                lemma_grows_trans(e_decl, before, self.errs());
                lemma_grows_trans(e_df, before, self.errs());
                assert forall|k: int, j: int|
                    0 <= k < i + 1 && 0 <= j < program.functions@[k].body.stmts@.len() && let_lit_mismatch(
                        #[trigger] &program.functions@[k].body.stmts@[j],
                    ) implies lit_mismatch_listed(self.errs(), &program.functions@[k].body.stmts@[j], old(self).names()) by {
                    if k < i {
                        lemma_listed_grows(before, self.errs(), &program.functions@[k].body.stmts@[j], old(self).names());
                    }
                }
                assert forall|k: int, j: int|
                    0 <= k < i + 1 && 0 <= j < program.functions@[k].body.stmts@.len() && ret_lit_mismatch(
                        #[trigger] &program.functions@[k].body.stmts@[j],
                        program.functions@[k].return_type@,
                    ) implies ret_mismatch_listed(
                    self.errs(),
                    &program.functions@[k].body.stmts@[j],
                    program.functions@[k].return_type@,
                    old(self).names(),
                ) by {
                    if k < i {
                        lemma_ret_listed_grows(
                            before,
                            self.errs(),
                            &program.functions@[k].body.stmts@[j],
                            program.functions@[k].return_type@,
                            old(self).names(),
                        );
                    }
                }
                if self.errs().len() == e_decl.len() {
                    lemma_functions_step(m0, self.recorded(), program.functions@, i as int);
                }
            }
            i = i + 1;
        }
        assert(program.functions@.take(program.functions@.len() as int) =~= program.functions@);
        proof {
            assert(self.names() == old(self).names());
        }
        if self.errors.len() == 0 {
            proof {
                if !has_main(program.functions@, old(self).names()) {
                    assert(self.errs().len() > e0.len());
                }
                assert forall|k: int, j: int|
                    0 <= k < program.functions@.len() && 0 <= j < program.functions@[k].body.stmts@.len()
                        && let_lit_mismatch(#[trigger] &program.functions@[k].body.stmts@[j]) implies false by {
                    assert(self.errs().len() > e_decl.len());
                }
                assert forall|k: int, j: int|
                    0 <= k < program.functions@.len() && 0 <= j < program.functions@[k].body.stmts@.len()
                        && ret_lit_mismatch(
                        #[trigger] &program.functions@[k].body.stmts@[j],
                        program.functions@[k].return_type@,
                    ) implies false by {
                    assert(ret_mismatch_listed(
                        self.errs(),
                        &program.functions@[k].body.stmts@[j],
                        program.functions@[k].return_type@,
                        old(self).names(),
                    ));
                }
                assert forall|a: int, b: int| #[trigger] self_field(program, a, b) implies false by {
                    let kk = choose|kk: int|
                        0 <= kk < e_cyc.len() && is_custom(
                            #[trigger] e_cyc[kk],
                            cycle_text(old(self).names(), program.structs@[a].name, program.structs@[a].fields@[b].0),
                            program.structs@[a].span,
                        );
                    lemma_grows_trans(e_cyc, e_df, self.errs());
                    lemma_kept_at(e_cyc, self.errs(), kk);
                }
                assert forall|q: int|
                    0 <= q < program.functions@.len() && is_builtin_fn(
                        name_text(old(self).names(), (#[trigger] program.functions@[q]).name),
                    ) implies false by {
                    let kk = choose|kk: int|
                        0 <= kk < e_df.len() && is_custom(
                            #[trigger] e_df[kk],
                            builtin_clash_text(name_text(old(self).names(), program.functions@[q].name)),
                            program.functions@[q].span,
                        );
                    lemma_kept_at(e_df, self.errs(), kk);
                }
                assert forall|j: int| #[trigger] repeats_type(program, j) implies false by {
                    let kk = choose|kk: int|
                        0 <= kk < e_ty.len() && is_already(
                            #[trigger] e_ty[kk],
                            name_text(old(self).names(), type_decl_names(program)[j]),
                            type_decl_spans(program)[j],
                        );
                    lemma_grows_trans(e_ty, e_fn, e_decl);
                    lemma_grows_trans(e_ty, e_decl, self.errs());
                    lemma_kept_at(e_ty, self.errs(), kk);
                }
                assert forall|j: int| #[trigger] repeats_fn(program.functions@, j) implies false by {
                    let kk = choose|kk: int|
                        0 <= kk < e_fn.len() && is_already(
                            #[trigger] e_fn[kk],
                            name_text(old(self).names(), program.functions@[j].name),
                            program.functions@[j].span,
                        );
                    lemma_grows_trans(e_fn, e_decl, self.errs());
                    lemma_kept_at(e_fn, self.errs(), kk);
                }
                assert forall|i: int| #[trigger] bad_main(program.functions@, old(self).names(), i) implies false by {
                    assert(main_sig_ok(program.functions@[i]) == false);
                    assert(e_decl.len() == e_pre_main.len() + 1);
                }
            }
            Ok(())
        } else {
            let ghost before = self.errs();
            let mut taken: Vec<LexoraError> = Vec::new();
            std::mem::swap(&mut taken, &mut self.errors);
            proof {
                assert(taken@ == before);
                assert forall|a: int, b: int| #[trigger] self_field(program, a, b) implies has_custom(
                    taken@,
                    cycle_text(old(self).names(), program.structs@[a].name, program.structs@[a].fields@[b].0),
                    program.structs@[a].span,
                ) by {
                    lemma_grows_trans(e_cyc, e_df, taken@);
                    lemma_has_custom_grows(
                        e_cyc,
                        taken@,
                        cycle_text(old(self).names(), program.structs@[a].name, program.structs@[a].fields@[b].0),
                        program.structs@[a].span,
                    );
                }
                assert forall|q: int|
                    0 <= q < program.functions@.len() && is_builtin_fn(
                        name_text(old(self).names(), (#[trigger] program.functions@[q]).name),
                    ) implies has_custom(
                    taken@,
                    builtin_clash_text(name_text(old(self).names(), program.functions@[q].name)),
                    program.functions@[q].span,
                ) by {
                    lemma_has_custom_grows(
                        e_df,
                        taken@,
                        builtin_clash_text(name_text(old(self).names(), program.functions@[q].name)),
                        program.functions@[q].span,
                    );
                }
                assert forall|j: int| #[trigger] repeats_type(program, j) implies has_already(
                    taken@,
                    name_text(old(self).names(), type_decl_names(program)[j]),
                    type_decl_spans(program)[j],
                ) by {
                    lemma_grows_trans(e_ty, e_fn, e_decl);
                    lemma_grows_trans(e_ty, e_decl, taken@);
                    lemma_has_already_grows(
                        e_ty,
                        taken@,
                        name_text(old(self).names(), type_decl_names(program)[j]),
                        type_decl_spans(program)[j],
                    );
                }
                assert forall|j: int| #[trigger] repeats_fn(program.functions@, j) implies has_already(
                    taken@,
                    name_text(old(self).names(), program.functions@[j].name),
                    program.functions@[j].span,
                ) by {
                    lemma_grows_trans(e_fn, e_decl, taken@);
                    lemma_has_already_grows(
                        e_fn,
                        taken@,
                        name_text(old(self).names(), program.functions@[j].name),
                        program.functions@[j].span,
                    );
                }
                let k = e_decl.len() - 1;
                if !has_main(program.functions@, old(self).names()) {
                    assert(e_decl.len() == e_pre_main.len() + 1);
                    lemma_kept_at(e_decl, taken@, k);
                    assert(is_custom(taken@[k], main_missing_text(), Span { start: 0, end: 0 }));
                }
                assert forall|i: int| #[trigger] bad_main(program.functions@, old(self).names(), i) implies has_custom(
                    taken@,
                    main_sig_text(),
                    program.functions@[i].span,
                ) by {
                    assert(main_sig_ok(program.functions@[i]) == false);
                    assert(e_decl.len() == e_pre_main.len() + 1);
                    lemma_kept_at(e_decl, taken@, k);
                    assert(is_custom(taken@[k], main_sig_text(), program.functions@[i].span));
                }
            }
            Err(taken)
        }
    }
}

} // verus!
