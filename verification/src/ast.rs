use vstd::prelude::*;
use crate::span::Span;
use crate::symbol::Symbol;
use crate::text::{push_str, push_u64, dec};

verus! {

/// Identifies an expression node; the type checker keys its side table by it.
pub type ExprId = u32;

#[derive(Debug)]
pub enum Expr<'a> {
    Integer(i64, Span, ExprId),
    Bool(bool, Span, ExprId),
    StringLiteral(&'a str, Span, ExprId),
    Identifier(Symbol, Span, ExprId),
    BinaryOp { left: Box<Expr<'a>>, op: BinaryOperator, right: Box<Expr<'a>>, span: Span, id: ExprId },
    UnaryOp { op: UnaryOperator, operand: Box<Expr<'a>>, span: Span, id: ExprId },
    Call { name: Symbol, args: Vec<Expr<'a>>, span: Span, id: ExprId },
    Cast { expr: Box<Expr<'a>>, target_type: Type, span: Span, id: ExprId },
    ArrayLiteral(Vec<Expr<'a>>, Span, ExprId),
    Index { array: Box<Expr<'a>>, index: Box<Expr<'a>>, span: Span, id: ExprId },
    StructLiteral { name: Symbol, fields: Vec<(Symbol, Expr<'a>)>, span: Span, id: ExprId },
    FieldAccess { object: Box<Expr<'a>>, field: Symbol, span: Span, id: ExprId },
    Box { value: Box<Expr<'a>>, span: Span, id: ExprId },
    Deref { target: Box<Expr<'a>>, span: Span, id: ExprId },
    Try { expr: Box<Expr<'a>>, span: Span, id: ExprId },
    EnumVariant {
        enum_name: Symbol,
        variant: Symbol,
        args: Vec<Expr<'a>>,
        type_args: Vec<Type>,
        span: Span,
        id: ExprId,
    },
    Match { scrutinee: Box<Expr<'a>>, arms: Vec<(Pattern, Block<'a>)>, span: Span, id: ExprId },
    If {
        condition: Box<Expr<'a>>,
        then_body: Box<Block<'a>>,
        else_body: Option<Box<Block<'a>>>,
        span: Span,
        id: ExprId,
    },
    Error(Span, ExprId),
}

#[derive(Debug, Clone, Copy, PartialEq, Eq, Structural)]
pub enum BinaryOperator {
    Add,
    Sub,
    Mul,
    Div,
    Eq,
    NotEq,
    Less,
    Greater,
    LessEq,
    GreaterEq,
    And,
    Or,
}

#[derive(Debug, Clone, Copy, PartialEq, Eq, Structural)]
pub enum UnaryOperator {
    Not,
    Neg,
}

#[derive(Debug)]
pub enum Stmt<'a> {
    Let { name: Symbol, ty: Option<Type>, value: Expr<'a>, span: Span },
    Return(Expr<'a>, Span),
    Expr(Expr<'a>, Span),
    Assign { name: Symbol, value: Expr<'a>, span: Span },
    While { condition: Expr<'a>, body: Block<'a>, span: Span },
    For { var: Symbol, from: Expr<'a>, to: Expr<'a>, body: Block<'a>, span: Span },
    /// Assignment to a place: a field, an element, a dereference or a chain of them.
    AssignPlace { target: Expr<'a>, value: Expr<'a>, span: Span },
    Error(Span),
}

#[derive(Debug, PartialEq, Eq, Hash)]
pub enum Type {
    I32,
    I64,
    Bool,
    Void,
    Str,
    Array(Box<Type>, usize),
    Struct(Symbol),
    Box(Box<Type>),
    String,
    Error,
    Enum(Symbol, Vec<Type>),
    Param(Symbol),
}

#[derive(Debug)]
pub struct Block<'a> {
    pub stmts: Vec<Stmt<'a>>,
    pub tail: Option<Box<Expr<'a>>>,
    pub span: Span,
}

#[derive(Debug)]
pub struct Function<'a> {
    pub name: Symbol,
    pub params: Vec<(Symbol, Type)>,
    pub return_type: Type,
    pub body: Block<'a>,
    pub span: Span,
}

#[derive(Debug)]
pub struct StructDef {
    pub name: Symbol,
    pub fields: Vec<(Symbol, Type)>,
    pub span: Span,
}

#[derive(Debug)]
pub struct EnumDef {
    pub name: Symbol,
    pub params: Vec<Symbol>,
    pub variants: Vec<(Symbol, Vec<Type>)>,
    pub span: Span,
}

#[derive(Debug)]
pub enum Pattern {
    Variant { enum_name: Symbol, variant: Symbol, bindings: Vec<Symbol> },
    Wildcard,
}

#[derive(Debug)]
pub struct Program<'a> {
    pub functions: Vec<Function<'a>>,
    pub structs: Vec<StructDef>,
    pub imports: Vec<&'a str>,
    pub enums: Vec<EnumDef>,
}

/// The source range of an expression.
pub open spec fn expr_span(e: &Expr) -> Span {
    match e {
        Expr::Integer(_, s, _) => *s,
        Expr::Bool(_, s, _) => *s,
        Expr::StringLiteral(_, s, _) => *s,
        Expr::Identifier(_, s, _) => *s,
        Expr::ArrayLiteral(_, s, _) => *s,
        Expr::Error(s, _) => *s,
        Expr::BinaryOp { span, .. } => *span,
        Expr::UnaryOp { span, .. } => *span,
        Expr::Call { span, .. } => *span,
        Expr::Cast { span, .. } => *span,
        Expr::Index { span, .. } => *span,
        Expr::StructLiteral { span, .. } => *span,
        Expr::FieldAccess { span, .. } => *span,
        Expr::Box { span, .. } => *span,
        Expr::Deref { span, .. } => *span,
        Expr::Try { span, .. } => *span,
        Expr::EnumVariant { span, .. } => *span,
        Expr::Match { span, .. } => *span,
        Expr::If { span, .. } => *span,
    }
}

/// The identity of an expression node.
pub open spec fn expr_id(e: &Expr) -> ExprId {
    match e {
        Expr::Integer(_, _, id) => *id,
        Expr::Bool(_, _, id) => *id,
        Expr::StringLiteral(_, _, id) => *id,
        Expr::Identifier(_, _, id) => *id,
        Expr::ArrayLiteral(_, _, id) => *id,
        Expr::Error(_, id) => *id,
        Expr::BinaryOp { id, .. } => *id,
        Expr::UnaryOp { id, .. } => *id,
        Expr::Call { id, .. } => *id,
        Expr::Cast { id, .. } => *id,
        Expr::Index { id, .. } => *id,
        Expr::StructLiteral { id, .. } => *id,
        Expr::FieldAccess { id, .. } => *id,
        Expr::Box { id, .. } => *id,
        Expr::Deref { id, .. } => *id,
        Expr::Try { id, .. } => *id,
        Expr::EnumVariant { id, .. } => *id,
        Expr::Match { id, .. } => *id,
        Expr::If { id, .. } => *id,
    }
}

/// The source range of a statement.
pub open spec fn stmt_span(s: &Stmt) -> Span {
    match s {
        Stmt::Let { span, .. } => *span,
        Stmt::Return(_, span) => *span,
        Stmt::Expr(_, span) => *span,
        Stmt::Assign { span, .. } => *span,
        Stmt::While { span, .. } => *span,
        Stmt::For { span, .. } => *span,
        Stmt::AssignPlace { span, .. } => *span,
        Stmt::Error(span) => *span,
    }
}

impl<'a> Expr<'a> {
    pub fn span(&self) -> (r: Span)
        ensures
            r == expr_span(self),
    {
        match self {
            Expr::Integer(_, s, _) => *s,
            Expr::Bool(_, s, _) => *s,
            Expr::StringLiteral(_, s, _) => *s,
            Expr::Identifier(_, s, _) => *s,
            Expr::ArrayLiteral(_, s, _) => *s,
            Expr::Error(s, _) => *s,
            Expr::BinaryOp { span, .. } => *span,
            Expr::UnaryOp { span, .. } => *span,
            Expr::Call { span, .. } => *span,
            Expr::Cast { span, .. } => *span,
            Expr::Index { span, .. } => *span,
            Expr::StructLiteral { span, .. } => *span,
            Expr::FieldAccess { span, .. } => *span,
            Expr::Box { span, .. } => *span,
            Expr::Deref { span, .. } => *span,
            Expr::Try { span, .. } => *span,
            Expr::EnumVariant { span, .. } => *span,
            Expr::Match { span, .. } => *span,
            Expr::If { span, .. } => *span,
        }
    }

    pub fn id(&self) -> (r: ExprId)
        ensures
            r == expr_id(self),
    {
        match self {
            Expr::Integer(_, _, id) => *id,
            Expr::Bool(_, _, id) => *id,
            Expr::StringLiteral(_, _, id) => *id,
            Expr::Identifier(_, _, id) => *id,
            Expr::ArrayLiteral(_, _, id) => *id,
            Expr::Error(_, id) => *id,
            Expr::BinaryOp { id, .. } => *id,
            Expr::UnaryOp { id, .. } => *id,
            Expr::Call { id, .. } => *id,
            Expr::Cast { id, .. } => *id,
            Expr::Index { id, .. } => *id,
            Expr::StructLiteral { id, .. } => *id,
            Expr::FieldAccess { id, .. } => *id,
            Expr::Box { id, .. } => *id,
            Expr::Deref { id, .. } => *id,
            Expr::Try { id, .. } => *id,
            Expr::EnumVariant { id, .. } => *id,
            Expr::Match { id, .. } => *id,
            Expr::If { id, .. } => *id,
        }
    }
}

/// Whether an expression names a place: a variable, or a field, element or
/// dereference reached from some base.
pub open spec fn is_place_spec(e: &Expr) -> bool {
    e is Identifier || e is FieldAccess || e is Index || e is Deref
}

impl<'a> Expr<'a> {
    pub fn is_place(&self) -> (r: bool)
        ensures
            r == is_place_spec(self),
    {
        match self {
            Expr::Identifier(..) | Expr::FieldAccess { .. } | Expr::Index { .. } | Expr::Deref { .. } => true,
            _ => false,
        }
    }
}

impl<'a> Stmt<'a> {
    pub fn span(&self) -> (r: Span)
        ensures
            r == stmt_span(self),
    {
        match self {
            Stmt::Let { span, .. } => *span,
            Stmt::Return(_, span) => *span,
            Stmt::Expr(_, span) => *span,
            Stmt::Assign { span, .. } => *span,
            Stmt::While { span, .. } => *span,
            Stmt::For { span, .. } => *span,
            Stmt::AssignPlace { span, .. } => *span,
            Stmt::Error(span) => *span,
        }
    }
}

/// The mathematical value of a type: the same tree, with lists as sequences.
pub enum TypeV {
    I32,
    I64,
    Bool,
    Void,
    Str,
    Array(Box<TypeV>, usize),
    Struct(Symbol),
    Box(Box<TypeV>),
    String,
    Error,
    Enum(Symbol, Seq<TypeV>),
    Param(Symbol),
}

impl View for Type {
    type V = TypeV;

    open spec fn view(&self) -> TypeV
        decreases self, 1nat,
    {
        match self {
            Type::I32 => TypeV::I32,
            Type::I64 => TypeV::I64,
            Type::Bool => TypeV::Bool,
            Type::Void => TypeV::Void,
            Type::Str => TypeV::Str,
            Type::Array(elem, n) => TypeV::Array(Box::new((**elem).view()), *n),
            Type::Struct(s) => TypeV::Struct(*s),
            Type::Box(inner) => TypeV::Box(Box::new((**inner).view())),
            Type::String => TypeV::String,
            Type::Error => TypeV::Error,
            Type::Enum(s, args) => TypeV::Enum(*s, types_view(args@)),
            Type::Param(p) => TypeV::Param(*p),
        }
    }
}

/// The values of a list of types.
pub open spec fn types_view(ts: Seq<Type>) -> Seq<TypeV>
    decreases ts, 0nat,
{
    if ts.len() == 0 {
        Seq::empty()
    } else {
        types_view(ts.drop_last()).push(ts.last().view())
    }
}

pub proof fn lemma_types_view(ts: Seq<Type>)
    ensures
        types_view(ts).len() == ts.len(),
        forall|i: int| 0 <= i < ts.len() ==> #[trigger] types_view(ts)[i] == ts[i]@,
    decreases ts.len(),
{
    if ts.len() > 0 {
        lemma_types_view(ts.drop_last());
        assert(types_view(ts) == types_view(ts.drop_last()).push(ts.last().view()));
    } else {
        assert(types_view(ts) == Seq::<TypeV>::empty());
    }
}

pub proof fn lemma_types_view_ext(a: Seq<Type>, b: Seq<Type>)
    requires
        a.len() == b.len(),
        forall|i: int| 0 <= i < a.len() ==> #[trigger] a[i]@ == b[i]@,
    ensures
        types_view(a) == types_view(b),
{
    lemma_types_view(a);
    lemma_types_view(b);
    assert(types_view(a) =~= types_view(b));
}

/// The binding of `k` in an association list; as in a map built from the
/// list, a later pair overrides an earlier one.
pub open spec fn assoc_get(m: Seq<(Symbol, TypeV)>, k: Symbol) -> Option<TypeV>
    decreases m.len(),
{
    if m.len() == 0 {
        None
    } else if m.last().0 == k {
        Some(m.last().1)
    } else {
        assoc_get(m.drop_last(), k)
    }
}

/// The value of an association list of types.
pub open spec fn assoc_view(m: Seq<(Symbol, Type)>) -> Seq<(Symbol, TypeV)> {
    m.map_values(|p: (Symbol, Type)| (p.0, p.1@))
}

/// `t` with every type parameter that `m` binds replaced by its binding.
pub open spec fn subst(t: TypeV, m: Seq<(Symbol, TypeV)>) -> TypeV
    decreases t, 1nat,
{
    match t {
        TypeV::Param(p) => match assoc_get(m, p) {
            Some(u) => u,
            None => t,
        },
        TypeV::Array(elem, n) => TypeV::Array(Box::new(subst(*elem, m)), n),
        TypeV::Box(inner) => TypeV::Box(Box::new(subst(*inner, m))),
        TypeV::Enum(s, args) => TypeV::Enum(s, subst_seq(args, m)),
        _ => t,
    }
}

pub open spec fn subst_seq(ts: Seq<TypeV>, m: Seq<(Symbol, TypeV)>) -> Seq<TypeV>
    decreases ts, 0nat,
{
    if ts.len() == 0 {
        Seq::empty()
    } else {
        subst_seq(ts.drop_last(), m).push(subst(ts.last(), m))
    }
}

/// Whether a type holds no type parameter and no error type anywhere.
pub open spec fn mangleable(t: TypeV) -> bool
    decreases t, 1nat,
{
    match t {
        TypeV::Param(_) | TypeV::Error => false,
        TypeV::Array(elem, _) => mangleable(*elem),
        TypeV::Box(inner) => mangleable(*inner),
        TypeV::Enum(_, args) => mangleable_seq(args),
        _ => true,
    }
}

pub open spec fn mangleable_seq(ts: Seq<TypeV>) -> bool
    decreases ts, 0nat,
{
    ts.len() == 0 || (mangleable_seq(ts.drop_last()) && mangleable(ts.last()))
}

/// The name under which a concrete type's instantiation is emitted.
pub open spec fn mangle_spec(t: TypeV) -> Seq<char>
    decreases t, 1nat,
{
    match t {
        TypeV::I32 => "i32"@,
        TypeV::I64 => "i64"@,
        TypeV::Bool => "bool"@,
        TypeV::Str => "str"@,
        TypeV::Void => "void"@,
        TypeV::String => "string"@,
        TypeV::Box(inner) => "box."@ + mangle_spec(*inner),
        TypeV::Array(elem, n) => "arr"@ + crate::text::dec(n as nat) + "."@ + mangle_spec(*elem),
        TypeV::Struct(s) => "s"@ + crate::text::dec(s.0 as nat),
        TypeV::Enum(s, args) => "e"@ + crate::text::dec(s.0 as nat) + mangle_args(args),
        _ => Seq::empty(),
    }
}

/// Each argument's mangled name, after a `.`.
pub open spec fn mangle_args(ts: Seq<TypeV>) -> Seq<char>
    decreases ts, 0nat,
{
    if ts.len() == 0 {
        Seq::empty()
    } else {
        mangle_args(ts.drop_last()) + "."@ + mangle_spec(ts.last())
    }
}

/// Whether a type holds no type parameter.
pub open spec fn concrete(t: TypeV) -> bool
    decreases t, 1nat,
{
    match t {
        TypeV::Param(_) => false,
        TypeV::Array(elem, _) => concrete(*elem),
        TypeV::Box(inner) => concrete(*inner),
        TypeV::Enum(_, args) => concrete_seq(args),
        _ => true,
    }
}

pub open spec fn concrete_seq(ts: Seq<TypeV>) -> bool
    decreases ts, 0nat,
{
    ts.len() == 0 || (concrete_seq(ts.drop_last()) && concrete(ts.last()))
}

impl Type {
    /// A copy of the type.
    pub fn dup(&self) -> (r: Type)
        ensures
            r@ == self@,
        decreases self,
    {
        match self {
            Type::I32 => Type::I32,
            Type::I64 => Type::I64,
            Type::Bool => Type::Bool,
            Type::Void => Type::Void,
            Type::Str => Type::Str,
            Type::Array(elem, n) => Type::Array(Box::new((**elem).dup()), *n),
            Type::Struct(s) => Type::Struct(*s),
            Type::Box(inner) => Type::Box(Box::new((**inner).dup())),
            Type::String => Type::String,
            Type::Error => Type::Error,
            Type::Enum(s, args) => Type::Enum(*s, dup_types(args)),
            Type::Param(p) => Type::Param(*p),
        }
    }

    /// Whether two types are the same type.
    pub fn same(&self, other: &Type) -> (r: bool)
        ensures
            r == (self@ == other@),
        decreases self,
    {
        match (self, other) {
            (Type::I32, Type::I32) => true,
            (Type::I64, Type::I64) => true,
            (Type::Bool, Type::Bool) => true,
            (Type::Void, Type::Void) => true,
            (Type::Str, Type::Str) => true,
            (Type::Array(a, n), Type::Array(b, m)) => *n == *m && (**a).same(&**b),
            (Type::Struct(a), Type::Struct(b)) => a.0 == b.0,
            (Type::Box(a), Type::Box(b)) => (**a).same(&**b),
            (Type::String, Type::String) => true,
            (Type::Error, Type::Error) => true,
            (Type::Enum(s, a), Type::Enum(t, b)) => s.0 == t.0 && same_types(a, b),
            (Type::Param(p), Type::Param(q)) => p.0 == q.0,
            _ => false,
        }
    }

    /// The type with the type parameters that `map` binds replaced.
    pub fn substitute(&self, map: &Vec<(Symbol, Type)>) -> (r: Type)
        ensures
            r@ == subst(self@, assoc_view(map@)),
        decreases self,
    {
        match self {
            Type::Param(p) => {
                let mut found: Option<usize> = None;
                let mut i: usize = 0;
                while i < map.len()
                    invariant
                        i <= map@.len(),
                        found matches Some(k) ==> k < i && map@[k as int].0 == *p && forall|
                            j: int,
                        |
                            k < j < i ==> (#[trigger] map@[j]).0 != *p,
                        found is None ==> forall|j: int| 0 <= j < i ==> (#[trigger] map@[j]).0 != *p,
                    decreases map@.len() - i,
                {
                    if map[i].0.0 == p.0 {
                        found = Some(i);
                    }
                    i = i + 1;
                }
                proof {
                    lemma_assoc_get(map@, *p, found);
                }
                match found {
                    Some(k) => map[k].1.dup(),
                    None => Type::Param(*p),
                }
            },
            Type::Array(elem, n) => Type::Array(Box::new((**elem).substitute(map)), *n),
            Type::Box(inner) => Type::Box(Box::new((**inner).substitute(map))),
            Type::Enum(s, args) => Type::Enum(*s, substitute_types(args, map)),
            Type::I32 => Type::I32,
            Type::I64 => Type::I64,
            Type::Bool => Type::Bool,
            Type::Void => Type::Void,
            Type::Str => Type::Str,
            Type::Struct(s) => Type::Struct(*s),
            Type::String => Type::String,
            Type::Error => Type::Error,
        }
    }

    /// The name under which a concrete type's instantiation is emitted.
    pub fn mangle(&self) -> (r: String)
        requires
            mangleable(self@),
        ensures
            r@ == mangle_spec(self@),
    {
        let mut out = String::new();
        self.push_mangled(&mut out);
        assert(out@ =~= mangle_spec(self@));
        out
    }

    fn push_mangled(&self, out: &mut String)
        requires
            mangleable(self@),
        ensures
            final(out)@ == old(out)@ + mangle_spec(self@),
        decreases self,
    {
        match self {
            Type::I32 => push_str(out, "i32"),
            Type::I64 => push_str(out, "i64"),
            Type::Bool => push_str(out, "bool"),
            Type::Str => push_str(out, "str"),
            Type::Void => push_str(out, "void"),
            Type::String => push_str(out, "string"),
            Type::Box(inner) => {
                push_str(out, "box.");
                (**inner).push_mangled(out);
                assert(final(out)@ =~= old(out)@ + mangle_spec(self@));
            },
            Type::Array(elem, n) => {
                push_str(out, "arr");
                push_u64(out, *n as u64);
                push_str(out, ".");
                (**elem).push_mangled(out);
                assert(final(out)@ =~= old(out)@ + mangle_spec(self@));
            },
            Type::Struct(s) => {
                push_str(out, "s");
                push_u64(out, s.0 as u64);
                assert(final(out)@ =~= old(out)@ + mangle_spec(self@));
            },
            Type::Enum(s, args) => {
                push_str(out, "e");
                push_u64(out, s.0 as u64);
                push_mangled_types(args, out);
                assert(final(out)@ =~= old(out)@ + mangle_spec(self@));
            },
            Type::Param(_) | Type::Error => {},
        }
    }

}

/// A prefix of a concrete list is concrete, so one non-concrete element spoils the list.
pub proof fn lemma_concrete_seq_prefix(ts: Seq<Type>, i: int)
    requires
        0 <= i < ts.len(),
        !concrete(ts[i]@),
    ensures
        !concrete_seq(types_view(ts)),
    decreases ts.len(),
{
    assert(types_view(ts) == types_view(ts.drop_last()).push(ts.last()@));
    assert(types_view(ts).drop_last() =~= types_view(ts.drop_last()));
    assert(types_view(ts).last() == ts.last()@);
    if i < ts.len() - 1 {
        assert(ts.drop_last()[i] == ts[i]);
        lemma_concrete_seq_prefix(ts.drop_last(), i);
    }
}

pub proof fn lemma_mangleable_seq(ts: Seq<TypeV>, i: int)
    requires
        0 <= i < ts.len(),
        mangleable_seq(ts),
    ensures
        mangleable(ts[i]),
    decreases ts.len(),
{
    if i < ts.len() - 1 {
        assert(ts.drop_last()[i] == ts[i]);
        lemma_mangleable_seq(ts.drop_last(), i);
    }
}

proof fn lemma_assoc_get(m: Seq<(Symbol, Type)>, p: Symbol, found: Option<usize>)
    requires
        found matches Some(k) ==> k < m.len() && m[k as int].0 == p && forall|j: int|
            k < j < m.len() ==> (#[trigger] m[j]).0 != p,
        found is None ==> forall|j: int| 0 <= j < m.len() ==> (#[trigger] m[j]).0 != p,
    ensures
        assoc_get(assoc_view(m), p) == match found {
            Some(k) => Some(m[k as int].1@),
            None => None::<TypeV>,
        },
    decreases m.len(),
{
    if m.len() > 0 {
        let v = assoc_view(m);
        assert(v.drop_last() =~= assoc_view(m.drop_last()));
        assert(v.last() == (m.last().0, m.last().1@));
        let last_hit = match found {
            Some(k) => k == m.len() - 1,
            None => false,
        };
        if !last_hit {
            assert(m[m.len() - 1].0 != p);
            assert forall|j: int| 0 <= j < m.len() - 1 implies #[trigger] m.drop_last()[j] == m[j] by {}
            lemma_assoc_get(m.drop_last(), p, found);
        }
    }
}

pub fn dup_types(ts: &Vec<Type>) -> (r: Vec<Type>)
    ensures
        types_view(r@) == types_view(ts@),
    decreases ts,
{
    let mut out: Vec<Type> = Vec::new();
    let mut i: usize = 0;
    while i < ts.len()
        invariant
            i <= ts@.len(),
            out@.len() == i,
            forall|j: int| 0 <= j < i ==> #[trigger] out@[j]@ == ts@[j]@,
        decreases ts@.len() - i,
    {
        out.push(ts[i].dup());
        i = i + 1;
    }
    proof {
        lemma_types_view_ext(out@, ts@);
    }
    out
}

pub fn same_types(a: &Vec<Type>, b: &Vec<Type>) -> (r: bool)
    ensures
        r == (types_view(a@) == types_view(b@)),
    decreases a,
{
    proof {
        lemma_types_view(a@);
        lemma_types_view(b@);
    }
    if a.len() != b.len() {
        return false;
    }
    let mut i: usize = 0;
    while i < a.len()
        invariant
            a@.len() == b@.len(),
            i <= a@.len(),
            forall|j: int| 0 <= j < i ==> #[trigger] a@[j]@ == b@[j]@,
            types_view(a@).len() == a@.len(),
            types_view(b@).len() == b@.len(),
            forall|j: int| 0 <= j < a@.len() ==> #[trigger] types_view(a@)[j] == a@[j]@,
            forall|j: int| 0 <= j < b@.len() ==> #[trigger] types_view(b@)[j] == b@[j]@,
        decreases a@.len() - i,
    {
        if !a[i].same(&b[i]) {
            assert(types_view(a@)[i as int] != types_view(b@)[i as int]);
            return false;
        }
        i = i + 1;
    }
    proof {
        lemma_types_view_ext(a@, b@);
    }
    true
}

pub fn substitute_types(ts: &Vec<Type>, map: &Vec<(Symbol, Type)>) -> (r: Vec<Type>)
    ensures
        types_view(r@) == subst_seq(types_view(ts@), assoc_view(map@)),
    decreases ts,
{
    let mut out: Vec<Type> = Vec::new();
    let mut i: usize = 0;
    while i < ts.len()
        invariant
            i <= ts@.len(),
            types_view(out@) == subst_seq(types_view(ts@.take(i as int)), assoc_view(map@)),
        decreases ts@.len() - i,
    {
        let t = ts[i].substitute(map);
        proof {
            let pre = ts@.take(i as int);
            let next = ts@.take(i + 1);
            assert(next.drop_last() =~= pre);
            assert(types_view(next) == types_view(pre).push(ts@[i as int]@));
            assert(out@.push(t).drop_last() =~= out@);
            assert(types_view(out@.push(t)) == types_view(out@).push(t@));
            assert(types_view(next).drop_last() =~= types_view(pre));
        }
        out.push(t);
        i = i + 1;
    }
    assert(ts@.take(ts@.len() as int) =~= ts@);
    out
}

fn push_mangled_types(ts: &Vec<Type>, out: &mut String)
    requires
        mangleable_seq(types_view(ts@)),
    ensures
        final(out)@ == old(out)@ + mangle_args(types_view(ts@)),
    decreases ts,
{
    let ghost start = out@;
    let mut i: usize = 0;
    while i < ts.len()
        invariant
            i <= ts@.len(),
            mangleable_seq(types_view(ts@)),
            out@ == start + mangle_args(types_view(ts@.take(i as int))),
        decreases ts@.len() - i,
    {
        let ghost before = out@;
        proof {
            lemma_types_view(ts@);
            lemma_mangleable_seq(types_view(ts@), i as int);
        }
        push_str(out, ".");
        ts[i].push_mangled(out);
        proof {
            let pre = ts@.take(i as int);
            let next = ts@.take(i + 1);
            assert(next.drop_last() =~= pre);
            assert(types_view(next) == types_view(pre).push(ts@[i as int]@));
            assert(types_view(next).drop_last() =~= types_view(pre));
            assert(mangle_args(types_view(next)) == mangle_args(types_view(pre)) + "."@
                + mangle_spec(ts@[i as int]@));
            assert(out@ =~= start + mangle_args(types_view(next)));
        }
        i = i + 1;
    }
    assert(ts@.take(ts@.len() as int) =~= ts@);
}

} // verus!
