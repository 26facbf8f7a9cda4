use vstd::prelude::*;
use std::collections::HashMap;
use super::builder::{IrBuilder, extends, params_text, tmp, label_line, checked_arith_text, checked_sdiv_text, binop_line, compare_op, temp_after, range_test_text, range_step_text};
use super::types::{LlvmType, llvm_text};
use super::value::{Value, value_text};
use crate::ast::{Expr, Stmt, Block, Function, Program, Type, TypeV, ExprId, BinaryOperator, UnaryOperator};
use crate::error::LexoraError;
use crate::move_check::is_comparison;
use crate::parser::{
    block_ids, clean_block, clean_expr, clean_exprs, clean_fields, clean_program, clean_stmt, clean_stmts, expr_ids,
    exprs_ids, fields_ids, lemma_clean_exprs_elem, lemma_clean_fields_elem, lemma_clean_functions_elem,
    lemma_clean_stmts_elem, program_ids, stmt_ids, stmts_ids,
};
use crate::typechecker::{covers, lemma_block_parts, lemma_expr_parts, lemma_node_covered, lemma_exprs_elem, lemma_fields_elem, lemma_functions_elem, lemma_stmt_parts, lemma_stmts_elem};
use crate::symbol::Symbol;
use crate::tables::{SymbolTable, find_key};
use crate::text::{push_str, push_u64, to_string, str_eq};

verus! {

/// How many ids, blocks and globals one step of generation may use before
/// the counters are checked again.
pub const ROOM: u32 = 64;

/// How deeply struct fields are followed when looking for owned parts.
pub const FIELD_DEPTH: u32 = 4294967295;

/// The scopes of local variables: each name with its IR type and its slot.
struct VarTable {
    table: SymbolTable<(LlvmType, Value)>,
}

impl VarTable {
    closed spec fn depth_v(&self) -> nat {
        self.table@.len()
    }

    fn new() -> (r: VarTable)
        ensures
            r.depth_v() == 0,
    {
        VarTable { table: SymbolTable::new() }
    }

    fn enter(&mut self)
        ensures
            final(self).depth_v() == old(self).depth_v() + 1,
    {
        self.table.enter_scope();
    }

    fn exit(&mut self)
        ensures
            old(self).depth_v() > 0 ==> final(self).depth_v() == old(self).depth_v() - 1,
            old(self).depth_v() == 0 ==> final(self).depth_v() == 0,
    {
        self.table.exit_scope();
    }

    /// The scopes, innermost last.
    closed spec fn scopes_v(&self) -> Seq<Seq<(Symbol, (LlvmType, Value))>> {
        self.table@
    }

    fn insert(&mut self, sym: Symbol, val: (LlvmType, Value))
        requires
            old(self).depth_v() > 0,
        ensures
            final(self).depth_v() == old(self).depth_v(),
            final(self).scopes_v() == old(self).scopes_v().update(
                old(self).scopes_v().len() - 1,
                old(self).scopes_v().last().push((sym, val)),
            ),
            crate::tables::scopes_lookup(final(self).scopes_v(), sym) == Some(val),
    {
        self.table.bind(sym, val);
        proof {
            let sc = self.table@;
            assert(sc.last() == old(self).table@.last().push((sym, val)));
            assert(crate::tables::scope_find(sc.last(), sym) == Some(val));
        }
    }

    fn get(&self, sym: Symbol) -> (r: Option<(LlvmType, Value)>)
        ensures
            r is Some <==> crate::tables::scopes_lookup(self.table@, sym) is Some,
    {
        match self.table.lookup(sym) {
            Some(v) => Some((v.0.dup(), v.1.dup())),
            None => None,
        }
    }
}

/// A local that owns heap memory: its slot, and the flag that says whether
/// it still holds a value to free.
struct DropLocal {
    sym: Symbol,
    slot: Value,
    flag: Value,
    pointee: Type,
}

impl DropLocal {
    fn dup(&self) -> (r: DropLocal)
        ensures
            r.sym == self.sym,
    {
        DropLocal { sym: self.sym, slot: self.slot.dup(), flag: self.flag.dup(), pointee: self.pointee.dup() }
    }
}


/// `t` stands in `s` from position `p` on.
pub open spec fn occurs_at(s: Seq<char>, t: Seq<char>, p: int) -> bool {
    0 <= p && p + t.len() <= s.len() && s.subrange(p, p + t.len()) == t
}

/// `t` stands somewhere in `s`.
pub open spec fn occurs(s: Seq<char>, t: Seq<char>) -> bool {
    exists|p: int| occurs_at(s, t, p)
}

proof fn lemma_extends_cat(a: Seq<char>, t: Seq<char>)
    ensures
        extends(a, a + t),
{
    assert forall|i: int| 0 <= i < a.len() implies (a + t)[i] == a[i] by {}
}

proof fn lemma_extends_trans(a: Seq<char>, b: Seq<char>, c: Seq<char>)
    requires
        extends(a, b),
        extends(b, c),
    ensures
        extends(a, c),
{
}

/// The line that frees a heap block.
pub open spec fn free_line(ptr: Value) -> Seq<char> {
    "  call void @"@ + "lexora_free"@ + "("@ + ("ptr "@ + value_text(ptr)) + ")\n"@
}

proof fn lemma_occurs_extends(a: Seq<char>, b: Seq<char>, t: Seq<char>)
    requires
        occurs(a, t),
        extends(a, b),
    ensures
        occurs(b, t),
{
    let p = choose|p: int| occurs_at(a, t, p);
    assert(b.subrange(p, p + t.len()) =~= a.subrange(p, p + t.len()));
    assert(occurs_at(b, t, p));
}

proof fn lemma_occurs_after(h: Seq<char>, b: Seq<char>, t: Seq<char>)
    requires
        occurs(b, t),
    ensures
        occurs(h + b, t),
{
    let p = choose|p: int| occurs_at(b, t, p);
    assert((h + b).subrange(h.len() + p, h.len() + p + t.len()) =~= b.subrange(p, p + t.len()));
    assert(occurs_at(h + b, t, h.len() + p));
}

/// The IR parameters of a function: each name with the IR type of its type.
pub open spec fn ir_params(f: &Function) -> Seq<(Symbol, LlvmType)> {
    Seq::new(f.params@.len(), |j: int| (f.params@[j].0, llvm_of(f.params@[j].1@)->0))
}

/// The line that opens the definition of `f` in the module.
pub open spec fn signature_line(f: &Function, names: Seq<Seq<char>>) -> Seq<char> {
    "define "@ + llvm_text(llvm_of(f.return_type@)->0) + " @"@ + names[f.name.0 as int] + "("@
        + params_text(ir_params(f), names) + ") {\n"@
}

/// The IR type of a source type; enums, and the placeholder types of the
/// front end, have none here.
pub open spec fn llvm_of(t: TypeV) -> Option<LlvmType>
    decreases t,
{
    match t {
        TypeV::I32 => Some(LlvmType::I32),
        TypeV::I64 => Some(LlvmType::I64),
        TypeV::Bool => Some(LlvmType::I1),
        TypeV::Void => Some(LlvmType::Void),
        TypeV::Str => Some(LlvmType::Ptr),
        TypeV::String => Some(LlvmType::Ptr),
        TypeV::Box(_) => Some(LlvmType::Ptr),
        TypeV::Struct(s) => Some(LlvmType::Struct(s)),
        TypeV::Array(e, n) => match llvm_of(*e) {
            Some(l) => Some(LlvmType::Array(Box::new(l), n)),
            None => None,
        },
        _ => None,
    }
}

pub open spec fn codegen_error_is(e: LexoraError, msg: Seq<char>) -> bool {
    e matches LexoraError::Codegen { message } && message@ == msg
}

fn codegen_error(msg: &str) -> (e: LexoraError)
    ensures
        codegen_error_is(e, msg@),
{
    LexoraError::Codegen { message: to_string(msg) }
}

/// `r` is the error of looking up the type of an expression that has none.
pub open spec fn type_missing<T>(r: Result<T, LexoraError>) -> bool {
    r matches Err(e) && codegen_error_is(e, "tip bilgisi yok"@)
}

/// `r` is the error of meeting a placeholder that the parser left where it
/// found an error.
pub open spec fn poisoned<T>(r: Result<T, LexoraError>) -> bool {
    r matches Err(e) && (codegen_error_is(e, "poison expression codegene ulasti"@) || codegen_error_is(
        e,
        "poison statement codegen'e ulasti"@,
    ))
}

/// The placeholder errors differ from the generator's other errors.
proof fn lemma_poison_messages()
    ensures
        "ic sayac siniri asildi"@ != "poison expression codegene ulasti"@,
        "ic sayac siniri asildi"@ != "poison statement codegen'e ulasti"@,
        "enum kod uretimi desteklenmiyor"@ != "poison expression codegene ulasti"@,
        "enum kod uretimi desteklenmiyor"@ != "poison statement codegen'e ulasti"@,
        "Type::Error codegen'e ulasti (errors bos degilse codegen yok)"@ != "poison expression codegene ulasti"@,
        "Type::Error codegen'e ulasti (errors bos degilse codegen yok)"@ != "poison statement codegen'e ulasti"@,
        "Type::Param codegen'e ulasti (generic enum TC'de reddedilir)"@ != "poison expression codegene ulasti"@,
        "Type::Param codegen'e ulasti (generic enum TC'de reddedilir)"@ != "poison statement codegen'e ulasti"@,
        "alan degeri yok"@ != "poison expression codegene ulasti"@,
        "alan degeri yok"@ != "poison statement codegen'e ulasti"@,
        "alan tanimi yok"@ != "poison expression codegene ulasti"@,
        "alan tanimi yok"@ != "poison statement codegen'e ulasti"@,
        "bilinmeyen sembol"@ != "poison expression codegene ulasti"@,
        "bilinmeyen sembol"@ != "poison statement codegen'e ulasti"@,
        "cagri degil"@ != "poison expression codegene ulasti"@,
        "cagri degil"@ != "poison statement codegen'e ulasti"@,
        "dizi literalinin tipi dizi degil"@ != "poison expression codegene ulasti"@,
        "dizi literalinin tipi dizi degil"@ != "poison statement codegen'e ulasti"@,
        "eksik arguman"@ != "poison expression codegene ulasti"@,
        "eksik arguman"@ != "poison statement codegen'e ulasti"@,
        "if degil"@ != "poison expression codegene ulasti"@,
        "if degil"@ != "poison statement codegen'e ulasti"@,
        "ikili islem degil"@ != "poison expression codegene ulasti"@,
        "ikili islem degil"@ != "poison statement codegen'e ulasti"@,
        "string cok uzun"@ != "poison expression codegene ulasti"@,
        "string cok uzun"@ != "poison statement codegen'e ulasti"@,
        "struct tanimi yok"@ != "poison expression codegene ulasti"@,
        "struct tanimi yok"@ != "poison statement codegen'e ulasti"@,
        "tip bilgisi yok"@ != "poison expression codegene ulasti"@,
        "tip bilgisi yok"@ != "poison statement codegen'e ulasti"@,
{
    reveal_strlit("poison expression codegene ulasti");
    reveal_strlit("poison statement codegen'e ulasti");
    reveal_strlit("ic sayac siniri asildi");
    assert("ic sayac siniri asildi"@[0] != 'p');
    reveal_strlit("enum kod uretimi desteklenmiyor");
    assert("enum kod uretimi desteklenmiyor"@[0] != 'p');
    reveal_strlit("Type::Error codegen'e ulasti (errors bos degilse codegen yok)");
    assert("Type::Error codegen'e ulasti (errors bos degilse codegen yok)"@[0] != 'p');
    reveal_strlit("Type::Param codegen'e ulasti (generic enum TC'de reddedilir)");
    assert("Type::Param codegen'e ulasti (generic enum TC'de reddedilir)"@[0] != 'p');
    reveal_strlit("alan degeri yok");
    assert("alan degeri yok"@[0] != 'p');
    reveal_strlit("alan tanimi yok");
    assert("alan tanimi yok"@[0] != 'p');
    reveal_strlit("bilinmeyen sembol");
    assert("bilinmeyen sembol"@[0] != 'p');
    reveal_strlit("cagri degil");
    assert("cagri degil"@[0] != 'p');
    reveal_strlit("dizi literalinin tipi dizi degil");
    assert("dizi literalinin tipi dizi degil"@[0] != 'p');
    reveal_strlit("eksik arguman");
    assert("eksik arguman"@[0] != 'p');
    reveal_strlit("if degil");
    assert("if degil"@[0] != 'p');
    reveal_strlit("ikili islem degil");
    assert("ikili islem degil"@[0] != 'p');
    reveal_strlit("string cok uzun");
    assert("string cok uzun"@[0] != 'p');
    reveal_strlit("struct tanimi yok");
    assert("struct tanimi yok"@[0] != 'p');
    reveal_strlit("tip bilgisi yok");
    assert("tip bilgisi yok"@[0] != 'p');
    assert("poison expression codegene ulasti"@[0] == 'p');
    assert("poison statement codegen'e ulasti"@[0] == 'p');
}

/// The generator's internal errors differ from one another.
proof fn lemma_messages()
    ensures
        "ic sayac siniri asildi"@ != "tip bilgisi yok"@,
        "enum kod uretimi desteklenmiyor"@ != "tip bilgisi yok"@,
        "Type::Error codegen'e ulasti (errors bos degilse codegen yok)"@ != "tip bilgisi yok"@,
        "Type::Param codegen'e ulasti (generic enum TC'de reddedilir)"@ != "tip bilgisi yok"@,
        "alan degeri yok"@ != "tip bilgisi yok"@,
        "alan tanimi yok"@ != "tip bilgisi yok"@,
        "bilinmeyen sembol"@ != "tip bilgisi yok"@,
        "cagri degil"@ != "tip bilgisi yok"@,
        "dizi literalinin tipi dizi degil"@ != "tip bilgisi yok"@,
        "eksik arguman"@ != "tip bilgisi yok"@,
        "if degil"@ != "tip bilgisi yok"@,
        "ikili islem degil"@ != "tip bilgisi yok"@,
        "poison expression codegene ulasti"@ != "tip bilgisi yok"@,
        "poison statement codegen'e ulasti"@ != "tip bilgisi yok"@,
        "string cok uzun"@ != "tip bilgisi yok"@,
        "struct tanimi yok"@ != "tip bilgisi yok"@,
        "ic sayac siniri asildi"@ != "poison expression codegene ulasti"@,
        "ic sayac siniri asildi"@ != "poison statement codegen'e ulasti"@,
        "enum kod uretimi desteklenmiyor"@ != "poison expression codegene ulasti"@,
        "enum kod uretimi desteklenmiyor"@ != "poison statement codegen'e ulasti"@,
        "Type::Error codegen'e ulasti (errors bos degilse codegen yok)"@ != "poison expression codegene ulasti"@,
        "Type::Error codegen'e ulasti (errors bos degilse codegen yok)"@ != "poison statement codegen'e ulasti"@,
        "Type::Param codegen'e ulasti (generic enum TC'de reddedilir)"@ != "poison expression codegene ulasti"@,
        "Type::Param codegen'e ulasti (generic enum TC'de reddedilir)"@ != "poison statement codegen'e ulasti"@,
        "alan degeri yok"@ != "poison expression codegene ulasti"@,
        "alan degeri yok"@ != "poison statement codegen'e ulasti"@,
        "alan tanimi yok"@ != "poison expression codegene ulasti"@,
        "alan tanimi yok"@ != "poison statement codegen'e ulasti"@,
        "bilinmeyen sembol"@ != "poison expression codegene ulasti"@,
        "bilinmeyen sembol"@ != "poison statement codegen'e ulasti"@,
        "cagri degil"@ != "poison expression codegene ulasti"@,
        "cagri degil"@ != "poison statement codegen'e ulasti"@,
        "dizi literalinin tipi dizi degil"@ != "poison expression codegene ulasti"@,
        "dizi literalinin tipi dizi degil"@ != "poison statement codegen'e ulasti"@,
        "eksik arguman"@ != "poison expression codegene ulasti"@,
        "eksik arguman"@ != "poison statement codegen'e ulasti"@,
        "if degil"@ != "poison expression codegene ulasti"@,
        "if degil"@ != "poison statement codegen'e ulasti"@,
        "ikili islem degil"@ != "poison expression codegene ulasti"@,
        "ikili islem degil"@ != "poison statement codegen'e ulasti"@,
        "string cok uzun"@ != "poison expression codegene ulasti"@,
        "string cok uzun"@ != "poison statement codegen'e ulasti"@,
        "struct tanimi yok"@ != "poison expression codegene ulasti"@,
        "struct tanimi yok"@ != "poison statement codegen'e ulasti"@,
        "tip bilgisi yok"@ != "poison expression codegene ulasti"@,
        "tip bilgisi yok"@ != "poison statement codegen'e ulasti"@,
{
    lemma_poison_messages();
    reveal_strlit("tip bilgisi yok");
    reveal_strlit("ic sayac siniri asildi");
    reveal_strlit("enum kod uretimi desteklenmiyor");
    reveal_strlit("Type::Error codegen'e ulasti (errors bos degilse codegen yok)");
    reveal_strlit("Type::Param codegen'e ulasti (generic enum TC'de reddedilir)");
    reveal_strlit("alan degeri yok");
    reveal_strlit("alan tanimi yok");
    reveal_strlit("bilinmeyen sembol");
    reveal_strlit("cagri degil");
    reveal_strlit("dizi literalinin tipi dizi degil");
    reveal_strlit("eksik arguman");
    reveal_strlit("if degil");
    reveal_strlit("ikili islem degil");
    reveal_strlit("poison expression codegene ulasti");
    reveal_strlit("poison statement codegen'e ulasti");
    reveal_strlit("string cok uzun");
    reveal_strlit("struct tanimi yok");
    assert("alan degeri yok"@[0] != "tip bilgisi yok"@[0]);
    assert("alan tanimi yok"@[0] != "tip bilgisi yok"@[0]);
}

/// `sym#<n>`: how the generator names a symbol it cannot find.
fn sym_text(sym: Symbol) -> (r: String)
    ensures
        r@ == "sym#"@ + crate::text::dec(sym.0 as nat),
{
    let mut s = to_string("sym#");
    push_u64(&mut s, sym.0 as u64);
    s
}

/// Emits the text of an LLVM module for a checked program.
pub struct CodeGen<'i> {
    builder: IrBuilder<'i>,
    locals: VarTable,
    functions: Vec<(Symbol, (Vec<LlvmType>, LlvmType))>,
    structs: Vec<(Symbol, Vec<(Symbol, LlvmType)>)>,
    struct_fields_ast: Vec<(Symbol, Vec<(Symbol, Type)>)>,
    current_ret_ty: LlvmType,
    types: &'i HashMap<ExprId, Type>,
    moves: &'i HashMap<ExprId, Vec<u32>>,
    drop_scopes: Vec<Vec<DropLocal>>,
}

impl<'i> CodeGen<'i> {
    pub closed spec fn lv(&self) -> nat {
        self.locals.depth_v()
    }

    pub closed spec fn dv(&self) -> nat {
        self.drop_scopes@.len()
    }

    /// Inside a function: a scope of locals and of owned locals is open.
    pub closed spec fn wf(&self) -> bool {
        self.lv() > 0 && self.dv() > 0
    }

    /// The counters have room for `k` more of each.
    pub closed spec fn room(&self, k: int) -> bool {
        &&& self.builder.temps() + k <= u32::MAX
        &&& self.builder.blocks() + k <= u32::MAX
        &&& self.builder.nglobals() + k <= u32::MAX
    }

    /// A generation step: the declaration tables are untouched, no scope is
    /// left closed, and on success every scope opened was closed again.
    pub closed spec fn frame(a: &CodeGen<'i>, b: &CodeGen<'i>, ok: bool) -> bool {
        &&& b.lv() >= a.lv()
        &&& b.dv() >= a.dv()
        &&& (ok ==> b.lv() == a.lv() && b.dv() == a.dv())
        &&& b.functions == a.functions
        &&& b.structs == a.structs
        &&& b.struct_fields_ast == a.struct_fields_ast
        &&& b.types == a.types
        &&& b.moves == a.moves
        &&& b.builder.names() == a.builder.names()
        &&& extends(a.builder.glob(), b.builder.glob())
        &&& extends(a.builder.out(), b.builder.out())
        &&& b.builder.settled() == a.builder.settled()
        &&& b.builder.entry_pos() == a.builder.entry_pos()
        &&& (a.builder.sound() ==> b.builder.sound())
    }

    /// The global declarations emitted so far.
    pub closed spec fn module_globals(&self) -> Seq<char> {
        self.builder.glob()
    }

    /// The texts of the symbols.
    pub closed spec fn names(&self) -> Seq<Seq<char>> {
        self.builder.names()
    }

    /// The type of each expression, by its id, as the checker found it.
    pub closed spec fn typed(&self) -> Map<ExprId, Type> {
        self.types@
    }

    pub fn new(
        builder: IrBuilder<'i>,
        types: &'i HashMap<ExprId, Type>,
        moves: &'i HashMap<ExprId, Vec<u32>>,
    ) -> (r: Self)
        ensures
            r.lv() == 0,
            r.dv() == 0,
            r.module_globals() == builder.glob(),
            r.names() == builder.names(),
            r.typed() == types@,
    {
        CodeGen {
            builder,
            locals: VarTable::new(),
            functions: Vec::new(),
            structs: Vec::new(),
            struct_fields_ast: Vec::new(),
            current_ret_ty: LlvmType::Void,
            types,
            moves,
            drop_scopes: Vec::new(),
        }
    }

    /// Stops generation when the counters come near their limit.
    fn ensure_room(&self) -> (r: Result<(), LexoraError>)
        ensures
            !poisoned(r),
            !type_missing(r),
            r is Ok ==> self.room(ROOM as int),
    {
        proof {
            lemma_messages();
        }
        let (t, b, g) = self.builder.counters();
        if t <= u32::MAX - ROOM && b <= u32::MAX - ROOM && g <= u32::MAX - ROOM {
            Ok(())
        } else {
            Err(codegen_error("ic sayac siniri asildi"))
        }
    }

    /// The type the checker found for `expr`.
    fn expr_type(&self, expr: &Expr) -> (r: Result<Type, LexoraError>)
        ensures
            !poisoned(r),
            self.types@.contains_key(crate::ast::expr_id(expr)) ==> r is Ok,
            r matches Ok(t) ==> self.types@.contains_key(crate::ast::expr_id(expr)) && t@
                == self.types@[crate::ast::expr_id(expr)]@,
    {
        proof {
            lemma_messages();
        }
        match self.types.get(&expr.id()) {
            Some(t) => Ok(t.dup()),
            None => Err(codegen_error("tip bilgisi yok")),
        }
    }

    /// The IR type of a source type.
    fn ast_type_to_llvm(&self, ty: &Type) -> (r: Result<LlvmType, LexoraError>)
        ensures
            !poisoned(r),
            !type_missing(r),
            r matches Ok(l) ==> llvm_of(ty@) == Some(l),
            r is Err <==> llvm_of(ty@) is None,
        decreases ty,
    {
        proof {
            lemma_messages();
        }
        match ty {
            Type::I32 => Ok(LlvmType::I32),
            Type::I64 => Ok(LlvmType::I64),
            Type::Bool => Ok(LlvmType::I1),
            Type::Void => Ok(LlvmType::Void),
            Type::Str => Ok(LlvmType::Ptr),
            Type::Array(t, n) => {
                let inner = self.ast_type_to_llvm(&**t)?;
                Ok(LlvmType::Array(Box::new(inner), *n))
            },
            Type::String => Ok(LlvmType::Ptr),
            Type::Struct(s) => Ok(LlvmType::Struct(*s)),
            Type::Box(_) => Ok(LlvmType::Ptr),
            Type::Enum(..) => Err(codegen_error("enum kod uretimi desteklenmiyor")),
            Type::Error => Err(codegen_error("Type::Error codegen'e ulasti (errors bos degilse codegen yok)")),
            Type::Param(_) => Err(codegen_error("Type::Param codegen'e ulasti (generic enum TC'de reddedilir)")),
        }
    }

    fn expr_llvm_type(&self, expr: &Expr) -> (r: Result<LlvmType, LexoraError>)
        ensures
            !poisoned(r),
            self.types@.contains_key(crate::ast::expr_id(expr)) ==> !type_missing(r),
            r matches Ok(l) ==> self.types@.contains_key(crate::ast::expr_id(expr)) && llvm_of(
                self.types@[crate::ast::expr_id(expr)]@,
            ) == Some(l),
    {
        proof {
            lemma_messages();
        }
        let t = self.expr_type(expr)?;
        self.ast_type_to_llvm(&t)
    }

    /// Whether values of the type own heap memory: boxes, strings, and
    /// arrays and structs holding such values.
    fn is_owning_type(&self, ty: &Type, fuel: u32) -> (r: bool)
        ensures
            r == owning_type(self.struct_fields_ast@, ty@, fuel as nat),
        decreases fuel, ty,
    {
        match ty {
            Type::Box(_) => true,
            Type::String => true,
            Type::Array(elem, _) => self.is_owning_type(&**elem, fuel),
            Type::Struct(s) => {
                if fuel == 0 {
                    return false;
                }
                match find_key(&self.struct_fields_ast, *s) {
                    Some(k) => {
                        let fields = &self.struct_fields_ast[k].1;
                        let mut i: usize = 0;
                        while i < fields.len()
                            invariant
                                i <= fields@.len(),
                                fuel > 0,
                                ty@ == TypeV::Struct(*s),
                                k < self.struct_fields_ast@.len(),
                                fields == &self.struct_fields_ast@[k as int].1,
                                crate::tables::tbl_get(self.struct_fields_ast@, *s) == Some(
                                    self.struct_fields_ast@[k as int].1,
                                ),
                                !owning_fields(self.struct_fields_ast@, fields@.take(i as int), (fuel - 1) as nat),
                            decreases fields@.len() - i,
                        {
                            proof {
                                assert(fields@.take(i + 1).drop_last() =~= fields@.take(i as int));
                                assert(fields@.take(i + 1).last() == fields@[i as int]);
                            }
                            if self.is_owning_type(&fields[i].1, fuel - 1) {
                                proof {
                                    assert(fields@.take(i + 1).last().1@ == fields@[i as int].1@);
                                    assert(owning_fields(
                                        self.struct_fields_ast@,
                                        fields@.take(i + 1),
                                        (fuel - 1) as nat,
                                    ));
                                    lemma_owning_fields_prefix(
                                        self.struct_fields_ast@,
                                        fields@,
                                        i + 1,
                                        (fuel - 1) as nat,
                                    );
                                }
                                return true;
                            }
                            i = i + 1;
                        }
                        proof {
                            assert(fields@.take(fields@.len() as int) =~= fields@);
                        }
                        false
                    },
                    None => false,
                }
            },
            _ => false,
        }
    }
}

impl<'i> CodeGen<'i> {
    /// Only the builder changed.
    pub closed spec fn only_builder(a: &CodeGen<'i>, b: &CodeGen<'i>) -> bool {
        &&& b.locals == a.locals
        &&& b.drop_scopes == a.drop_scopes
        &&& b.functions == a.functions
        &&& b.structs == a.structs
        &&& b.struct_fields_ast == a.struct_fields_ast
        &&& b.types == a.types
        &&& b.moves == a.moves
        &&& b.current_ret_ty == a.current_ret_ty
        &&& b.builder.names() == a.builder.names()
        &&& extends(a.builder.glob(), b.builder.glob())
        &&& extends(a.builder.out(), b.builder.out())
        &&& b.builder.settled() == a.builder.settled()
        &&& b.builder.entry_pos() == a.builder.entry_pos()
        &&& (a.builder.sound() ==> b.builder.sound())
    }

    fn drop_enter(&mut self)
        ensures
            final(self).dv() == old(self).dv() + 1,
            final(self).lv() == old(self).lv(),
            final(self).functions == old(self).functions,
            final(self).structs == old(self).structs,
            final(self).struct_fields_ast == old(self).struct_fields_ast,
            final(self).types == old(self).types,
            final(self).moves == old(self).moves,
            final(self).builder.names() == old(self).builder.names(),
            final(self).builder.glob() == old(self).builder.glob(),
            final(self).builder.out() == old(self).builder.out(),
            final(self).builder.settled() == old(self).builder.settled(),
            final(self).builder.entry_pos() == old(self).builder.entry_pos(),
            old(self).builder.sound() ==> final(self).builder.sound(),
    {
        self.drop_scopes.push(Vec::new());
    }

    /// Closes the innermost scope of owned locals, freeing what they still
    /// own unless the block already ended.
    fn drop_exit(&mut self) -> (r: Result<(), LexoraError>)
        ensures
            !poisoned(r),
            !type_missing(r),
            old(self).dv() > 0 ==> final(self).dv() == old(self).dv() - 1,
            old(self).dv() == 0 ==> final(self).dv() == 0,
            final(self).lv() == old(self).lv(),
            final(self).functions == old(self).functions,
            final(self).structs == old(self).structs,
            final(self).struct_fields_ast == old(self).struct_fields_ast,
            final(self).types == old(self).types,
            final(self).moves == old(self).moves,
            final(self).builder.names() == old(self).builder.names(),
            extends(old(self).builder.glob(), final(self).builder.glob()),
            extends(old(self).builder.out(), final(self).builder.out()),
            final(self).builder.settled() == old(self).builder.settled(),
            final(self).builder.entry_pos() == old(self).builder.entry_pos(),
            old(self).builder.sound() ==> final(self).builder.sound(),
    {
        proof {
            lemma_messages();
        }
        match self.drop_scopes.pop() {
            Some(scope) => {
                if !self.builder.terminated() {
                    let mut k: usize = scope.len();
                    while k > 0
                        invariant
                            k <= scope@.len(),
                            self.dv() == old(self).dv() - 1,
                            self.lv() == old(self).lv(),
                            self.functions == old(self).functions,
                            self.structs == old(self).structs,
                            self.struct_fields_ast == old(self).struct_fields_ast,
                            self.types == old(self).types,
                            self.moves == old(self).moves,
                            self.builder.names() == old(self).builder.names(),
                            extends(old(self).builder.glob(), self.builder.glob()),
                            extends(old(self).builder.out(), self.builder.out()),
                            self.builder.settled() == old(self).builder.settled(),
                            self.builder.entry_pos() == old(self).builder.entry_pos(),
                            old(self).builder.sound() ==> self.builder.sound(),
                        decreases k,
                    {
                        let d = &scope[k - 1];
                        self.gen_drop(d.slot.dup(), d.flag.dup(), &d.pointee)?;
                        k = k - 1;
                    }
                }
                Ok(())
            },
            None => Ok(()),
        }
    }

    /// Frees what every open scope's owned locals still own (before a return).
    fn free_all_live(&mut self) -> (r: Result<(), LexoraError>)
        ensures
            !poisoned(r),
            !type_missing(r),
            Self::only_builder(old(self), final(self)),
            r is Ok ==> extends(old(self).builder.out(), final(self).builder.out()),
            r is Ok && !(forall|a: int|
                0 <= a < old(self).drop_scopes@.len() ==> (#[trigger] old(self).drop_scopes@[a])@.len() == 0)
                ==> final(self).builder.out().len() > old(self).builder.out().len(),
    {
        proof {
            lemma_messages();
        }
        let mut scopes: Vec<Vec<DropLocal>> = Vec::new();
        let mut i: usize = 0;
        while i < self.drop_scopes.len()
            invariant
                i <= self.drop_scopes@.len(),
                *self == *old(self),
                scopes@.len() == i,
                forall|a: int| 0 <= a < i ==> (#[trigger] scopes@[a])@.len() == self.drop_scopes@[a]@.len(),
            decreases self.drop_scopes@.len() - i,
        {
            let src = &self.drop_scopes[i];
            let mut copy: Vec<DropLocal> = Vec::new();
            let mut j: usize = 0;
            while j < src.len()
                invariant
                    j <= src@.len(),
                    copy@.len() == j,
                decreases src@.len() - j,
            {
                copy.push(src[j].dup());
                j = j + 1;
            }
            proof {
                assert(src@.len() == self.drop_scopes@[i as int]@.len());
            }
            scopes.push(copy);
            i = i + 1;
        }
        let mut a: usize = scopes.len();
        let ghost mut any = false;
        proof {
            assert(extends(old(self).builder.out(), self.builder.out()));
        }
        while a > 0
            invariant
                a <= scopes@.len(),
                Self::only_builder(old(self), self),
                extends(old(self).builder.out(), self.builder.out()),
                any ==> self.builder.out().len() > old(self).builder.out().len(),
                any || forall|a2: int| a <= a2 < scopes@.len() ==> (#[trigger] scopes@[a2])@.len() == 0,
                scopes@.len() == old(self).drop_scopes@.len(),
                forall|a2: int| 0 <= a2 < scopes@.len() ==> (#[trigger] scopes@[a2])@.len() == old(self).drop_scopes@[a2]@.len(),
            decreases a,
        {
            let scope = &scopes[a - 1];
            let mut b: usize = scope.len();
            while b > 0
                invariant
                    0 < a <= scopes@.len(),
                    scope == &scopes@[a - 1],
                    b <= scope@.len(),
                    Self::only_builder(old(self), self),
                    extends(old(self).builder.out(), self.builder.out()),
                    any ==> self.builder.out().len() > old(self).builder.out().len(),
                    any || (b == scope@.len() && forall|a2: int|
                        a <= a2 < scopes@.len() ==> (#[trigger] scopes@[a2])@.len() == 0),
                    scopes@.len() == old(self).drop_scopes@.len(),
                    forall|a2: int| 0 <= a2 < scopes@.len() ==> (#[trigger] scopes@[a2])@.len() == old(self).drop_scopes@[a2]@.len(),
                decreases b,
            {
                let d = &scope[b - 1];
                let ghost o0 = self.builder.out();
                self.gen_drop(d.slot.dup(), d.flag.dup(), &d.pointee)?;
                proof {
                    lemma_extends_trans(old(self).builder.out(), o0, self.builder.out());
                    any = true;
                }
                b = b - 1;
            }
            a = a - 1;
        }
        proof {
            if !any {
                assert forall|a2: int| 0 <= a2 < old(self).drop_scopes@.len() implies (#[trigger] old(
                    self,
                ).drop_scopes@[a2])@.len() == 0 by {
                    assert(scopes@[a2]@.len() == 0);
                }
            }
        }
        Ok(())
    }

    /// Frees what `slot` owns if its flag says it still owns it, then clears the flag.
    fn gen_drop(&mut self, slot: Value, flag: Value, ty: &Type) -> (r: Result<(), LexoraError>)
        ensures
            !poisoned(r),
            !type_missing(r),
            Self::only_builder(old(self), final(self)),
            r is Ok ==> extends(
                old(self).builder.out() + "  "@ + tmp(old(self).builder.temps()) + (" = load "@ + llvm_text(
                    LlvmType::I1,
                ) + ", ptr "@ + value_text(flag) + "\n"@),
                final(self).builder.out(),
            ),
            r is Ok ==> extends(old(self).builder.out(), final(self).builder.out()) && final(self).builder.out().len()
                > old(self).builder.out().len(),
            r is Ok ==> exists|p: Seq<char>, skip: Seq<char>, b: Seq<char>|
                (b == Seq::<char>::empty() || b == "  br label %"@ + skip + "\n"@) && final(self).builder.out() == p
                    + ("  store "@ + llvm_text(LlvmType::I1) + " "@ + value_text(Value::Const(0)) + ", ptr "@
                    + value_text(flag) + "\n"@) + b + label_line(skip),
    {
        proof {
            lemma_messages();
        }
        self.ensure_room()?;
        let ghost fv = flag;
        let ghost o0 = self.builder.out();
        let f = self.builder.build_load(&LlvmType::I1, flag.dup());
        let ghost o1 = self.builder.out();
        let do_label = self.builder.fresh_block("do_drop");
        let skip_label = self.builder.fresh_block("drop_skip");
        self.builder.build_cond_br(f, do_label.as_str(), skip_label.as_str());
        let ghost o2 = self.builder.out();
        self.builder.emit_label(do_label.as_str());
        let ghost o3 = self.builder.out();
        proof {
            lemma_extends_cat(o1, o2.subrange(o1.len() as int, o2.len() as int));
            assert(o2 =~= o1 + o2.subrange(o1.len() as int, o2.len() as int));
            lemma_extends_cat(o2, label_line(do_label@));
            lemma_extends_trans(o1, o2, o3);
        }
        self.drop_in_place(slot, ty, FIELD_DEPTH)?;
        self.ensure_room()?;
        let ghost o4 = self.builder.out();
        proof {
            lemma_extends_trans(o1, o3, o4);
        }
        self.builder.build_store(&LlvmType::I1, Value::Const(0), flag);
        let ghost o5 = self.builder.out();
        self.builder.build_br(skip_label.as_str());
        let ghost o6 = self.builder.out();
        self.builder.emit_label(skip_label.as_str());
        proof {
            let st = "  store "@ + llvm_text(LlvmType::I1) + " "@ + value_text(Value::Const(0)) + ", ptr "@
                + value_text(fv) + "\n"@;
            let b = o6.subrange(o5.len() as int, o6.len() as int);
            assert(o6 =~= o5 + b);
            assert(b == Seq::<char>::empty() || b == "  br label %"@ + skip_label@ + "\n"@);
            assert(self.builder.out() == o4 + st + b + label_line(skip_label@));
            lemma_extends_cat(o4, self.builder.out().subrange(o4.len() as int, self.builder.out().len() as int));
            assert(self.builder.out() =~= o4 + self.builder.out().subrange(o4.len() as int, self.builder.out().len() as int));
            lemma_extends_trans(o1, o4, self.builder.out());
            assert(o1 =~= o0 + o1.subrange(o0.len() as int, o1.len() as int));
            lemma_extends_cat(o0, o1.subrange(o0.len() as int, o1.len() as int));
            lemma_extends_trans(o0, o1, self.builder.out());
        }
        Ok(())
    }

    /// Frees what the value of type `ty` stored at `ptr` owns.
    fn drop_in_place(&mut self, ptr: Value, ty: &Type, fuel: u32) -> (r: Result<(), LexoraError>)
        ensures
            !poisoned(r),
            !type_missing(r),
            Self::only_builder(old(self), final(self)),
            r is Ok ==> extends(old(self).builder.out(), final(self).builder.out()),
            *ty is Enum ==> r is Err,
            (*ty is I32 || *ty is I64 || *ty is Bool || *ty is Str || *ty is Void || *ty is Error || *ty is Param)
                ==> r is Ok && final(self).builder.out() == old(self).builder.out(),
            *ty is String && r is Ok ==> final(self).builder.out() == old(self).builder.out() + "  "@ + tmp(
                old(self).builder.temps(),
            ) + (" = load "@ + llvm_text(LlvmType::Ptr) + ", ptr "@ + value_text(ptr) + "\n"@) + ("  call void @"@
                + "lexora_str_free"@ + "("@ + ("ptr "@ + value_text(Value::Temp(old(self).builder.temps())))
                + ")\n"@),
            *ty is Box && r is Ok ==> exists|p: Seq<char>|
                extends(old(self).builder.out(), p) && final(self).builder.out() == p + free_line(
                    Value::Temp(old(self).builder.temps()),
                ),
        decreases fuel, ty, 1nat,
    {
        proof {
            lemma_messages();
        }
        match ty {
            Type::Box(inner) => {
                self.ensure_room()?;
                let ghost o0 = self.builder.out();
                let p = self.builder.build_load(&LlvmType::Ptr, ptr);
                let ghost o1 = self.builder.out();
                proof {
                    assert(o1 =~= o0 + o1.subrange(o0.len() as int, o1.len() as int));
                    lemma_extends_cat(o0, o1.subrange(o0.len() as int, o1.len() as int));
                }
                let ghost t0 = old(self).builder.temps();
                let res = self.emit_drop_glue(p, &**inner, fuel);
                proof {
                    if res is Ok {
                        lemma_extends_trans(o0, o1, self.builder.out());
                        let q = choose|q: Seq<char>|
                            extends(o1, q) && self.builder.out() == q + free_line(Value::Temp(t0));
                        lemma_extends_trans(o0, o1, q);
                    }
                }
                res
            },
            Type::String => {
                self.ensure_room()?;
                let ghost o0 = self.builder.out();
                let p = self.builder.build_load(&LlvmType::Ptr, ptr);
                let ghost o1 = self.builder.out();
                self.builder.build_call_str_free(p);
                proof {
                    lemma_extends_cat(o0, o1.subrange(o0.len() as int, o1.len() as int));
                    assert(o1 =~= o0 + o1.subrange(o0.len() as int, o1.len() as int));
                    lemma_extends_cat(o1, self.builder.out().subrange(o1.len() as int, self.builder.out().len() as int));
                    assert(self.builder.out() =~= o1 + self.builder.out().subrange(o1.len() as int, self.builder.out().len() as int));
                    lemma_extends_trans(o0, o1, self.builder.out());
                }
                Ok(())
            },
            Type::Enum(..) => Err(codegen_error("enum kod uretimi desteklenmiyor")),
            Type::Struct(s) => {
                if fuel == 0 {
                    return Ok(());
                }
                let k = match find_key(&self.struct_fields_ast, *s) {
                    Some(k) => k,
                    None => {
                        return Ok(());
                    },
                };
                let n = self.struct_fields_ast[k].1.len();
                let mut i: usize = 0;
                while i < n
                    invariant
                        Self::only_builder(old(self), self),
                        extends(old(self).builder.out(), self.builder.out()),
                        *ty is Struct,
                        k < self.struct_fields_ast@.len(),
                        n == self.struct_fields_ast@[k as int].1@.len(),
                        fuel > 0,
                    decreases n - i,
                {
                    let fty = self.struct_fields_ast[k].1[i].1.dup();
                    if self.is_owning_type(&fty, FIELD_DEPTH) {
                        self.ensure_room()?;
                        let idx = #[verifier::truncate] (i as u32);
                        let ghost o0 = self.builder.out();
                        let fptr = self.builder.build_gep_struct(*s, ptr.dup(), idx);
                        let ghost o1 = self.builder.out();
                        proof {
                            assert(o1 =~= o0 + o1.subrange(o0.len() as int, o1.len() as int));
                            lemma_extends_cat(o0, o1.subrange(o0.len() as int, o1.len() as int));
                            lemma_extends_trans(old(self).builder.out(), o0, o1);
                        }
                        self.drop_in_place(fptr, &fty, fuel - 1)?;
                        proof {
                            lemma_extends_trans(old(self).builder.out(), o1, self.builder.out());
                        }
                    }
                    i = i + 1;
                }
                Ok(())
            },
            Type::Array(elem, n) => {
                if !self.is_owning_type(&**elem, FIELD_DEPTH) {
                    return Ok(());
                }
                self.drop_array(ptr, &**elem, *n, fuel)
            },
            _ => Ok(()),
        }
    }

    /// Frees what each of the `n` elements of the array at `ptr` owns.
    fn drop_array(&mut self, ptr: Value, elem: &Type, n: usize, fuel: u32) -> (r: Result<(), LexoraError>)
        ensures
            !poisoned(r),
            !type_missing(r),
            Self::only_builder(old(self), final(self)),
            r is Ok ==> extends(old(self).builder.out(), final(self).builder.out()),
        decreases fuel, elem, 3nat,
    {
        proof {
            lemma_messages();
        }
        let ety = self.ast_type_to_llvm(elem)?;
        let mut i: usize = 0;
        proof {
            assert(extends(old(self).builder.out(), self.builder.out()));
        }
        while i < n
            invariant
                Self::only_builder(old(self), self),
                extends(old(self).builder.out(), self.builder.out()),
            decreases n - i,
        {
            self.ensure_room()?;
            let c = #[verifier::truncate] (i as i64);
            let ghost o0 = self.builder.out();
            let eptr = self.builder.build_gep_array(&ety, n, ptr.dup(), Value::Const(c));
            let ghost o1 = self.builder.out();
            proof {
                assert(o1 =~= o0 + o1.subrange(o0.len() as int, o1.len() as int));
                lemma_extends_cat(o0, o1.subrange(o0.len() as int, o1.len() as int));
                lemma_extends_trans(old(self).builder.out(), o0, o1);
            }
            self.drop_in_place(eptr, elem, fuel)?;
            proof {
                lemma_extends_trans(old(self).builder.out(), o1, self.builder.out());
            }
            i = i + 1;
        }
        Ok(())
    }

    /// Frees what the box at `ptr` points to, then the box itself.
    fn emit_drop_glue(&mut self, ptr: Value, pointee: &Type, fuel: u32) -> (r: Result<(), LexoraError>)
        ensures
            !poisoned(r),
            !type_missing(r),
            Self::only_builder(old(self), final(self)),
            r is Ok ==> extends(old(self).builder.out(), final(self).builder.out()),
            r is Ok ==> exists|p: Seq<char>|
                extends(old(self).builder.out(), p) && final(self).builder.out() == p + free_line(ptr),
        decreases fuel, pointee, 2nat,
    {
        proof {
            lemma_messages();
        }
        self.drop_in_place(ptr.dup(), pointee, fuel)?;
        let ghost o1 = self.builder.out();
        let ghost pv = ptr;
        self.builder.build_free(ptr);
        proof {
            assert(self.builder.out() == o1 + free_line(pv));
            lemma_extends_cat(o1, free_line(pv));
            lemma_extends_trans(old(self).builder.out(), o1, self.builder.out());
        }
        Ok(())
    }

    /// The drop flag of the innermost owned local named `sym`.
    fn find_flag(&self, sym: Symbol) -> (r: Option<Value>)
        ensures
            r is None <==> !has_flag(self.drop_scopes@, sym),
            r matches Some(f) ==> innermost_flag(self.drop_scopes@, sym, f),
    {
        let mut a: usize = self.drop_scopes.len();
        while a > 0
            invariant
                a <= self.drop_scopes@.len(),
                forall|a2: int, b2: int|
                    a <= a2 < self.drop_scopes@.len() && 0 <= b2 < self.drop_scopes@[a2]@.len()
                        ==> (#[trigger] self.drop_scopes@[a2]@[b2]).sym != sym,
            decreases a,
        {
            let scope = &self.drop_scopes[a - 1];
            let mut b: usize = scope.len();
            while b > 0
                invariant
                    0 < a <= self.drop_scopes@.len(),
                    scope == &self.drop_scopes@[a - 1],
                    b <= scope@.len(),
                    forall|a2: int, b2: int|
                        a <= a2 < self.drop_scopes@.len() && 0 <= b2 < self.drop_scopes@[a2]@.len()
                            ==> (#[trigger] self.drop_scopes@[a2]@[b2]).sym != sym,
                    forall|b2: int| b <= b2 < scope@.len() ==> (#[trigger] scope@[b2]).sym != sym,
                decreases b,
            {
                if scope[b - 1].sym.0 == sym.0 {
                    let f = scope[b - 1].flag.dup();
                    proof {
                        assert(self.drop_scopes@[a - 1]@[b - 1].sym == sym);
                    }
                    return Some(f);
                }
                b = b - 1;
            }
            a = a - 1;
        }
        None
    }

    /// After the expression `id` moved `sym` out, its slot no longer owns anything.
    fn clear_flag_on_move(&mut self, id: ExprId, sym: Symbol) -> (r: Result<(), LexoraError>)
        ensures
            !poisoned(r),
            !type_missing(r),
            Self::only_builder(old(self), final(self)),
            r is Ok && old(self).moves@.contains_key(id) && has_flag(old(self).drop_scopes@, sym) ==> exists|f: Value|
                innermost_flag(old(self).drop_scopes@, sym, f) && final(self).builder.out() == old(
                    self,
                ).builder.out() + ("  store "@ + llvm_text(LlvmType::I1) + " "@ + value_text(Value::Const(0))
                    + ", ptr "@ + value_text(f) + "\n"@),
            r is Ok && !(old(self).moves@.contains_key(id) && has_flag(old(self).drop_scopes@, sym))
                ==> final(self).builder.out() == old(self).builder.out(),
    {
        proof {
            lemma_messages();
        }
        if self.moves.contains_key(&id) {
            match self.find_flag(sym) {
                Some(flag) => {
                    self.ensure_room()?;
                    self.builder.build_store(&LlvmType::I1, Value::Const(0), flag);
                },
                None => {},
            }
        }
        Ok(())
    }
}

/// Whether values of type `t` own heap memory, following struct fields
/// at most `fuel` levels deep.
/// The nesting depth of arrays around a type.
pub open spec fn array_depth(t: TypeV) -> nat
    decreases t,
{
    match t {
        TypeV::Array(elem, _) => 1 + array_depth(*elem),
        _ => 0,
    }
}

pub open spec fn owning_type(sf: Seq<(Symbol, Vec<(Symbol, Type)>)>, t: TypeV, fuel: nat) -> bool
    decreases fuel, 0int, array_depth(t),
{
    match t {
        TypeV::Box(_) => true,
        TypeV::String => true,
        TypeV::Array(elem, _) => owning_type(sf, *elem, fuel),
        TypeV::Struct(s) => fuel > 0 && match crate::tables::tbl_get(sf, s) {
            Some(fields) => owning_fields(sf, fields@, (fuel - 1) as nat),
            None => false,
        },
        _ => false,
    }
}

/// Whether some field of the list has an owning type.
pub open spec fn owning_fields(sf: Seq<(Symbol, Vec<(Symbol, Type)>)>, fs: Seq<(Symbol, Type)>, fuel: nat) -> bool
    decreases fuel, 1int, fs.len(),
{
    if fs.len() == 0 {
        false
    } else {
        owning_fields(sf, fs.drop_last(), fuel) || owning_type(sf, fs.last().1@, fuel)
    }
}

/// A prefix with an owning field makes the whole list own one.
proof fn lemma_owning_fields_prefix(
    sf: Seq<(Symbol, Vec<(Symbol, Type)>)>,
    fs: Seq<(Symbol, Type)>,
    i: int,
    fuel: nat,
)
    requires
        0 <= i <= fs.len(),
        owning_fields(sf, fs.take(i), fuel),
    ensures
        owning_fields(sf, fs, fuel),
    decreases fs.len(),
{
    if i < fs.len() {
        assert(fs.drop_last().take(i) =~= fs.take(i));
        lemma_owning_fields_prefix(sf, fs.drop_last(), i, fuel);
    } else {
        assert(fs.take(i) =~= fs);
    }
}

/// Some owned local named `sym` has a drop flag.
spec fn has_flag(ds: Seq<Vec<DropLocal>>, sym: Symbol) -> bool {
    exists|a: int, b: int| 0 <= a < ds.len() && 0 <= b < ds[a]@.len() && (#[trigger] ds[a]@[b]).sym == sym
}

/// `f` reads as the flag of the innermost owned local named `sym`.
spec fn innermost_flag(ds: Seq<Vec<DropLocal>>, sym: Symbol, f: Value) -> bool {
    exists|a: int, b: int|
        0 <= a < ds.len() && 0 <= b < ds[a]@.len() && (#[trigger] ds[a]@[b]).sym == sym && value_text(f)
            == value_text(ds[a]@[b].flag) && forall|a2: int, b2: int|
            0 <= a2 < ds.len() && 0 <= b2 < ds[a2]@.len() && (a < a2 || (a == a2 && b < b2))
                ==> (#[trigger] ds[a2]@[b2]).sym != sym
}

/// An array or struct literal, which is built in place.
pub open spec fn aggregate(e: &Expr) -> bool {
    e is ArrayLiteral || e is StructLiteral
}

fn is_aggregate_literal(e: &Expr) -> (r: bool)
    ensures
        r == aggregate(e),
{
    matches!(e, Expr::ArrayLiteral(..) | Expr::StructLiteral { .. })
}

/// The order in which the generators of one expression call each other.
pub open spec fn expr_rank(e: &Expr) -> nat {
    if e is Index || e is FieldAccess {
        3
    } else {
        1
    }
}

pub open spec fn into_rank(e: &Expr) -> nat {
    if aggregate(e) {
        0
    } else {
        4
    }
}

/// The overflow-checked intrinsic behind an integer arithmetic operator.
pub open spec fn arith_intrinsic(op: BinaryOperator) -> Option<Seq<char>> {
    match op {
        BinaryOperator::Add => Some("sadd"@),
        BinaryOperator::Sub => Some("ssub"@),
        BinaryOperator::Mul => Some("smul"@),
        _ => None,
    }
}

/// The `icmp` predicate behind an integer comparison.
pub open spec fn icmp_pred(op: BinaryOperator) -> Option<Seq<char>> {
    match op {
        BinaryOperator::Eq => Some("eq"@),
        BinaryOperator::NotEq => Some("ne"@),
        BinaryOperator::Less => Some("slt"@),
        BinaryOperator::Greater => Some("sgt"@),
        BinaryOperator::LessEq => Some("sle"@),
        BinaryOperator::GreaterEq => Some("sge"@),
        _ => None,
    }
}

/// The type recorded for `e` is one of the two string types.
pub open spec fn stringy(types: Map<ExprId, Type>, e: &Expr) -> bool {
    types.contains_key(crate::ast::expr_id(e)) && (types[crate::ast::expr_id(e)]@ == TypeV::Str
        || types[crate::ast::expr_id(e)]@ == TypeV::String)
}

/// An arithmetic operator on integers ends the output with its checked
/// instruction and gives the value it computes (division checks for a zero
/// divisor first); a comparison of integers ends it with its `icmp`; `&&`
/// and `||` end it with an `and` or an `or` of the two truth values.
pub open spec fn binary_emitted(e: &Expr, types: Map<ExprId, Type>, out: Seq<char>, r: Result<Value, LexoraError>) -> bool {
    match e {
        Expr::BinaryOp { op, left, .. } => {
            &&& (arith_intrinsic(*op) is Some && r is Ok && !(*op is Add && types.contains_key(
                crate::ast::expr_id(e),
            ) && types[crate::ast::expr_id(e)]@ == TypeV::String)) ==> exists|
                pre: Seq<char>,
                t: u32,
                b: u32,
                term: bool,
                ty: LlvmType,
                lv: Value,
                rv: Value,
            |
                out == pre + checked_arith_text(t, b, term, arith_intrinsic(*op)->0, ty, lv, rv) && r
                    == Ok::<Value, LexoraError>(temp_after(t, 1))
            &&& (*op is And && r is Ok) ==> exists|pre: Seq<char>, t: u32, lv: Value, rv: Value|
                out == pre + "  "@ + tmp(t) + (" = "@ + "and"@ + " i1 "@ + value_text(lv) + ", "@ + value_text(rv)
                    + "\n"@) && r == Ok::<Value, LexoraError>(Value::Temp(t))
            &&& (*op is Or && r is Ok) ==> exists|pre: Seq<char>, t: u32, lv: Value, rv: Value|
                out == pre + "  "@ + tmp(t) + (" = "@ + "or"@ + " i1 "@ + value_text(lv) + ", "@ + value_text(rv)
                    + "\n"@) && r == Ok::<Value, LexoraError>(Value::Temp(t))
            &&& (*op is Div && r is Ok) ==> exists|
                pre: Seq<char>,
                t: u32,
                b: u32,
                term: bool,
                ty: LlvmType,
                lv: Value,
                rv: Value,
            |
                out == pre + checked_sdiv_text(t, b, term, ty, lv, rv) && r == Ok::<Value, LexoraError>(
                    temp_after(t, 4),
                )
            &&& (icmp_pred(*op) is Some && r is Ok && !stringy(types, &**left)) ==> exists|
                pre: Seq<char>,
                t: u32,
                ty: LlvmType,
                lv: Value,
                rv: Value,
            | out == pre + binop_line(t, compare_op(icmp_pred(*op)->0), ty, lv, rv)
        },
        _ => true,
    }
}

/// The output ends with the label of a block named by `prefix` and a number:
/// where the code after a loop continues.
pub open spec fn ends_with_label(out: Seq<char>, prefix: Seq<char>) -> bool {
    exists|pre: Seq<char>, n: u32| out == pre + label_line(block_name(prefix, n))
}

/// The output holds the head test of a counting loop whose blocks are
/// numbered from `b`: the loop variable behind `ivar` is compared with the
/// bound behind `bound` by a signed `<`, and only while it is below the
/// bound does the body run.
pub open spec fn range_test_in(out: Seq<char>, t: u32, b: u32, ivar: Value, bound: Value) -> bool {
    occurs(
        out,
        range_test_text(
            t,
            block_name("for_cond"@, b),
            ivar,
            bound,
            block_name("for_body"@, (b + 1) as u32),
            block_name("for_end"@, (b + 2) as u32),
        ),
    )
}

/// The output ends with the foot of the counting loop whose blocks are
/// numbered from `b`: the variable behind `ivar` goes up by exactly one,
/// control goes back to that loop's test, and the block after the loop
/// opens.
pub open spec fn range_step_at_end(out: Seq<char>, t: u32, term: bool, ivar: Value, b: u32) -> bool {
    let text = range_step_text(t, term, ivar, block_name("for_cond"@, b), block_name("for_end"@, (b + 2) as u32));
    text.len() <= out.len() && out.subrange(out.len() - text.len(), out.len() as int) == text
}

/// The name of block number `n` with this prefix.
pub open spec fn block_name(prefix: Seq<char>, n: u32) -> Seq<char> {
    prefix + crate::text::dec(n as nat)
}

/// What generating an expression gives for a literal, and for the
/// placeholder of a parse error.
pub open spec fn expr_result_ok(e: &Expr, r: Result<Value, LexoraError>) -> bool {
    match e {
        Expr::Integer(n, _, _) => r == Ok::<Value, LexoraError>(Value::Const(*n)),
        Expr::Bool(b, _, _) => r == Ok::<Value, LexoraError>(Value::Const(if *b {
            1
        } else {
            0
        })),
        Expr::Error(..) => r matches Err(e) && codegen_error_is(e, "poison expression codegene ulasti"@),
        _ => true,
    }
}

impl<'i> CodeGen<'i> {
    /// The length in bytes of the string value `val` of `expr`: read from the
    /// block header of an owned string, counted for a literal.
    fn str_len_of(&mut self, expr: &Expr, val: Value) -> (r: Result<Value, LexoraError>)
        ensures
            !poisoned(r),
            old(self).types@.contains_key(crate::ast::expr_id(expr)) ==> !type_missing(r),
            Self::only_builder(old(self), final(self)),
            r matches Ok(v) ==> old(self).types@.contains_key(crate::ast::expr_id(expr)) && if old(
                self,
            ).types@[crate::ast::expr_id(expr)]@ == TypeV::String {
                v == Value::Temp((old(self).builder.temps() + 1) as u32) && final(self).builder.out() == old(
                    self,
                ).builder.out() + "  "@ + tmp(old(self).builder.temps()) + (" = getelementptr i8, ptr "@
                    + value_text(val) + ", i64 "@ + crate::text::dec_int(-8) + "\n"@) + "  "@ + tmp(
                    (old(self).builder.temps() + 1) as u32,
                ) + (" = load "@ + llvm_text(LlvmType::I64) + ", ptr "@ + value_text(
                    Value::Temp(old(self).builder.temps()),
                ) + "\n"@)
            } else {
                v == Value::Temp(old(self).builder.temps()) && final(self).builder.out() == old(
                    self,
                ).builder.out() + "  "@ + tmp(old(self).builder.temps()) + (" = call "@ + "i64"@ + " @"@
                    + "strlen"@ + "("@ + ("ptr "@ + value_text(val)) + ")\n"@)
            },
    {
        proof {
            lemma_messages();
        }
        let t = self.expr_type(expr)?;
        self.ensure_room()?;
        match t {
            Type::String => {
                let blk = self.builder.build_gep_i8(val, -8);
                Ok(self.builder.build_load(&LlvmType::I64, blk))
            },
            _ => Ok(self.builder.build_call_strlen(val)),
        }
    }

    /// Frees a string value that no variable holds.
    fn str_temp_free(&mut self, expr: &Expr, val: Value) -> (r: Result<(), LexoraError>)
        ensures
            !poisoned(r),
            old(self).types@.contains_key(crate::ast::expr_id(expr)) ==> !type_missing(r),
            Self::only_builder(old(self), final(self)),
            r is Ok ==> old(self).types@.contains_key(crate::ast::expr_id(expr)) && if old(self).types@[crate::ast::expr_id(
                expr,
            )]@ == TypeV::String && !crate::ast::is_place_spec(expr) {
                final(self).builder.out() == old(self).builder.out() + ("  call void @"@ + "lexora_str_free"@ + "("@
                    + ("ptr "@ + value_text(val)) + ")\n"@)
            } else {
                final(self).builder.out() == old(self).builder.out()
            },
    {
        proof {
            lemma_messages();
        }
        let t = self.expr_type(expr)?;
        if matches!(t, Type::String) && !expr.is_place() {
            self.ensure_room()?;
            self.builder.build_call_str_free(val);
        }
        Ok(())
    }

    /// `left + right` on strings: a new string, freeing owned operands.
    #[verifier::rlimit(60)]
    #[verifier::spinoff_prover]
    fn gen_str_concat(&mut self, expr: &Expr) -> (r: Result<Value, LexoraError>)
        requires
            old(self).wf(),
            expr is BinaryOp,
        ensures
            clean_expr(expr) ==> !poisoned(r),
            covers(old(self).types@, expr_ids(expr)) ==> !type_missing(r),
            Self::frame(old(self), final(self), r is Ok),
        decreases expr, 0nat,
    {
        proof {
            lemma_messages();
            if covers(self.types@, expr_ids(expr)) {
                lemma_expr_parts(self.types@, expr);
            }
        }
        match expr {
            Expr::BinaryOp { left, right, .. } => {
                let lv = self.gen_expr(&**left)?;
                let llen = self.str_len_of(&**left, lv.dup())?;
                let rv = self.gen_expr(&**right)?;
                let rlen = self.str_len_of(&**right, rv.dup())?;
                self.ensure_room()?;
                let res = self.builder.build_call_str_concat(lv.dup(), llen, rv.dup(), rlen);
                let lt = self.expr_type(&**left)?;
                if matches!(lt, Type::String) {
                    self.builder.build_call_str_free(lv);
                }
                let rt = self.expr_type(&**right)?;
                if matches!(rt, Type::String) {
                    self.builder.build_call_str_free(rv);
                }
                Ok(res)
            },
            _ => Err(codegen_error("ikili islem degil")),
        }
    }

    /// A comparison of two strings: by content for `==` and `!=`, by
    /// `strcmp` for the orderings; operands that no variable holds are freed.
    fn gen_str_cmp(&mut self, expr: &Expr) -> (r: Result<Value, LexoraError>)
        requires
            old(self).wf(),
            expr is BinaryOp,
        ensures
            clean_expr(expr) ==> !poisoned(r),
            covers(old(self).types@, expr_ids(expr)) ==> !type_missing(r),
            Self::frame(old(self), final(self), r is Ok),
        decreases expr, 0nat,
    {
        proof {
            lemma_messages();
            if covers(self.types@, expr_ids(expr)) {
                lemma_expr_parts(self.types@, expr);
            }
        }
        match expr {
            Expr::BinaryOp { left, op, right, .. } => {
                let lv = self.gen_expr(&**left)?;
                let rv = self.gen_expr(&**right)?;
                let res = if matches!(op, BinaryOperator::Eq | BinaryOperator::NotEq) {
                    let llen = self.str_len_of(&**left, lv.dup())?;
                    let rlen = self.str_len_of(&**right, rv.dup())?;
                    self.ensure_room()?;
                    let eq = self.builder.build_call_str_eq(lv.dup(), llen, rv.dup(), rlen);
                    if matches!(op, BinaryOperator::Eq) {
                        eq
                    } else {
                        self.builder.build_not(eq)
                    }
                } else {
                    self.ensure_room()?;
                    let c = self.builder.build_call_strcmp(lv.dup(), rv.dup());
                    let pred = match op {
                        BinaryOperator::Less => "slt",
                        BinaryOperator::Greater => "sgt",
                        BinaryOperator::LessEq => "sle",
                        _ => "sge",
                    };
                    self.builder.build_icmp(pred, &LlvmType::I32, c, Value::Const(0))
                };
                self.str_temp_free(&**left, lv)?;
                self.str_temp_free(&**right, rv)?;
                Ok(res)
            },
            _ => Err(codegen_error("ikili islem degil")),
        }
    }

    /// The position of `field` among the fields of struct `s`.
    fn field_index(&self, s: Symbol, field: Symbol) -> (r: Option<usize>)
        ensures
            match crate::tables::tbl_get(self.structs@, s) {
                None => r is None,
                Some(defs) => match r {
                    Some(i) => i < defs@.len() && defs@[i as int].0 == field && forall|j: int|
                        0 <= j < i ==> (#[trigger] defs@[j]).0 != field,
                    None => forall|j: int| 0 <= j < defs@.len() ==> (#[trigger] defs@[j]).0 != field,
                },
            },
    {
        match find_key(&self.structs, s) {
            Some(k) => {
                let defs = &self.structs[k].1;
                let mut i: usize = 0;
                while i < defs.len()
                    invariant
                        i <= defs@.len(),
                        k < self.structs@.len(),
                        defs == &self.structs@[k as int].1,
                        crate::tables::tbl_get(self.structs@, s) == Some(self.structs@[k as int].1),
                        forall|j: int| 0 <= j < i ==> (#[trigger] defs@[j]).0 != field,
                    decreases defs@.len() - i,
                {
                    if defs[i].0.0 == field.0 {
                        assert(defs@[i as int].0 == field);
                        return Some(i);
                    }
                    i = i + 1;
                }
                None
            },
            None => None,
        }
    }

    /// The address of a place: a variable's slot, a field or element of a
    /// place, the target of a pointer; any other value is stored in a fresh
    /// slot first.
    fn gen_place(&mut self, expr: &Expr) -> (r: Result<Value, LexoraError>)
        requires
            old(self).wf(),
        ensures
            clean_expr(expr) ==> !poisoned(r),
            covers(old(self).types@, expr_ids(expr)) ==> !type_missing(r),
            Self::frame(old(self), final(self), r is Ok),
        decreases expr, 2nat,
    {
        proof {
            lemma_messages();
            if covers(self.types@, expr_ids(expr)) {
                lemma_expr_parts(self.types@, expr);
            }
        }
        match expr {
            Expr::Identifier(sym, span, _) => match self.locals.get(*sym) {
                Some((_, ptr)) => Ok(ptr),
                None => Err(
                    LexoraError::UndefinedVariable { name: sym_text(*sym), suggestion: None, span: *span },
                ),
            },
            Expr::FieldAccess { object, field, span, .. } => {
                let base = self.gen_place(&**object)?;
                let ot = self.expr_type(&**object)?;
                let struct_sym = match ot {
                    Type::Struct(s) => s,
                    _ => {
                        return Err(
                            LexoraError::Custom {
                                message: to_string("alan erisimi: struct degil"),
                                span: *span,
                            },
                        );
                    },
                };
                let idx = match self.field_index(struct_sym, *field) {
                    Some(i) => i,
                    None => {
                        return Err(codegen_error("alan tanimi yok"));
                    },
                };
                self.ensure_room()?;
                let i32x = #[verifier::truncate] (idx as u32);
                Ok(self.builder.build_gep_struct(struct_sym, base, i32x))
            },
            Expr::Index { array, index, span, .. } => {
                let base = self.gen_place(&**array)?;
                let at = self.expr_type(&**array)?;
                let (elem_ty, size) = match at {
                    Type::Array(elem, n) => (self.ast_type_to_llvm(&*elem)?, n),
                    _ => {
                        return Err(
                            LexoraError::Custom { message: to_string("index: dizi degil"), span: *span },
                        );
                    },
                };
                let idx_val = self.gen_expr(&**index)?;
                self.ensure_room()?;
                Ok(self.builder.build_checked_gep_array(&elem_ty, size, base, idx_val))
            },
            Expr::Deref { target, .. } => self.gen_expr(&**target),
            other => {
                let ty = self.expr_llvm_type(other)?;
                self.ensure_room()?;
                let tmp = self.builder.build_entry_alloca(&ty);
                if is_aggregate_literal(other) {
                    self.gen_into(other, tmp.dup())?;
                } else {
                    let val = self.gen_expr(other)?;
                    self.ensure_room()?;
                    self.builder.build_store(&ty, val, tmp.dup());
                }
                Ok(tmp)
            },
        }
    }

    /// Stores the value of `expr` at `ptr`, building array and struct
    /// literals element by element in place.
    fn gen_into(&mut self, expr: &Expr, ptr: Value) -> (r: Result<(), LexoraError>)
        requires
            old(self).wf(),
        ensures
            clean_expr(expr) ==> !poisoned(r),
            covers(old(self).types@, expr_ids(expr)) ==> !type_missing(r),
            Self::frame(old(self), final(self), r is Ok),
        decreases expr, into_rank(expr),
    {
        proof {
            lemma_messages();
            if covers(self.types@, expr_ids(expr)) {
                lemma_expr_parts(self.types@, expr);
            }
        }
        match expr {
            Expr::ArrayLiteral(elems, _, _) => {
                let t = self.expr_type(expr)?;
                let elem_ty = match t {
                    Type::Array(elem, _) => self.ast_type_to_llvm(&*elem)?,
                    _ => {
                        return Err(codegen_error("dizi literalinin tipi dizi degil"));
                    },
                };
                self.gen_into_elems(elems, &elem_ty, ptr)
            },
            Expr::StructLiteral { name, fields, .. } => self.gen_into_fields(*name, fields, ptr),
            other => {
                let ty = self.expr_llvm_type(other)?;
                let val = self.gen_expr(other)?;
                self.ensure_room()?;
                self.builder.build_store(&ty, val, ptr);
                Ok(())
            },
        }
    }

    fn gen_into_elems(&mut self, elems: &Vec<Expr>, elem_ty: &LlvmType, ptr: Value) -> (r: Result<(), LexoraError>)
        requires
            old(self).wf(),
        ensures
            clean_exprs(elems@) ==> !poisoned(r),
            covers(old(self).types@, exprs_ids(elems@)) ==> !type_missing(r),
            Self::frame(old(self), final(self), r is Ok),
        decreases elems, 0nat,
    {
        proof {
            lemma_messages();
        }
        let mut i: usize = 0;
        while i < elems.len()
            invariant
                i <= elems@.len(),
                self.wf(),
                Self::frame(old(self), self, true),
            decreases elems@.len() - i,
        {
            proof {
                lemma_messages();
                if covers(self.types@, exprs_ids(elems@)) {
                    lemma_exprs_elem(self.types@, elems@, i as int);
                }
                if clean_exprs(elems@) {
                    lemma_clean_exprs_elem(elems@, i as int);
                }
            }
            let c = #[verifier::truncate] (i as i64);
            if is_aggregate_literal(&elems[i]) {
                self.ensure_room()?;
                let eptr = self.builder.build_gep_array(elem_ty, elems.len(), ptr.dup(), Value::Const(c));
                self.gen_into(&elems[i], eptr)?;
            } else {
                let val = self.gen_expr(&elems[i])?;
                self.ensure_room()?;
                let eptr = self.builder.build_gep_array(elem_ty, elems.len(), ptr.dup(), Value::Const(c));
                self.builder.build_store(elem_ty, val, eptr);
            }
            i = i + 1;
        }
        Ok(())
    }

    fn gen_into_fields(&mut self, name: Symbol, fields: &Vec<(Symbol, Expr)>, ptr: Value) -> (r: Result<
        (),
        LexoraError,
    >)
        requires
            old(self).wf(),
        ensures
            clean_fields(fields@) ==> !poisoned(r),
            covers(old(self).types@, fields_ids(fields@)) ==> !type_missing(r),
            Self::frame(old(self), final(self), r is Ok),
        decreases fields, 0nat,
    {
        proof {
            lemma_messages();
        }
        let k = match find_key(&self.structs, name) {
            Some(k) => k,
            None => {
                return Err(codegen_error("struct tanimi yok"));
            },
        };
        let n = self.structs[k].1.len();
        let mut i: usize = 0;
        while i < n
            invariant
                i <= n,
                k < self.structs@.len(),
                n == self.structs@[k as int].1@.len(),
                self.wf(),
                Self::frame(old(self), self, true),
            decreases n - i,
        {
            proof {
                lemma_messages();
            }
            let fsym = self.structs[k].1[i].0;
            let fty = self.structs[k].1[i].1.dup();
            let j = match find_key(fields, fsym) {
                Some(j) => j,
                None => {
                    return Err(codegen_error("alan degeri yok"));
                },
            };
            proof {
                if covers(self.types@, fields_ids(fields@)) {
                    lemma_fields_elem(self.types@, fields@, j as int);
                }
                if clean_fields(fields@) {
                    lemma_clean_fields_elem(fields@, j as int);
                }
            }
            let idx = #[verifier::truncate] (i as u32);
            if is_aggregate_literal(&fields[j].1) {
                self.ensure_room()?;
                let fptr = self.builder.build_gep_struct(name, ptr.dup(), idx);
                self.gen_into(&fields[j].1, fptr)?;
            } else {
                let val = self.gen_expr(&fields[j].1)?;
                self.ensure_room()?;
                let fptr = self.builder.build_gep_struct(name, ptr.dup(), idx);
                self.builder.build_store(&fty, val, fptr);
            }
            i = i + 1;
        }
        Ok(())
    }
}

impl<'i> CodeGen<'i> {
    /// The value of an expression, emitting the instructions that compute it.
    fn gen_expr(&mut self, expr: &Expr) -> (r: Result<Value, LexoraError>)
        requires
            old(self).wf(),
        ensures
            clean_expr(expr) ==> !poisoned(r),
            covers(old(self).types@, expr_ids(expr)) ==> !type_missing(r),
            Self::frame(old(self), final(self), r is Ok),
            expr_result_ok(expr, r),
            binary_emitted(expr, old(self).types@, final(self).builder.out(), r),
        decreases expr, expr_rank(expr),
    {
        proof {
            lemma_messages();
            if covers(self.types@, expr_ids(expr)) {
                lemma_expr_parts(self.types@, expr);
            }
        }
        match expr {
            Expr::Integer(n, _, _) => Ok(Value::Const(*n)),
            Expr::Bool(b, _, _) => Ok(Value::Const(
                if *b {
                    1
                } else {
                    0
                },
            )),
            Expr::StringLiteral(text, _, _) => {
                let text: &str = *text;
                if text.as_bytes().len() == usize::MAX {
                    return Err(codegen_error("string cok uzun"));
                }
                self.ensure_room()?;
                let (ptr, _) = self.builder.add_string_global(text);
                Ok(ptr)
            },
            Expr::Identifier(sym, span, id) => match self.locals.get(*sym) {
                Some((ty, ptr)) => {
                    self.ensure_room()?;
                    let loaded = self.builder.build_load(&ty, ptr);
                    self.clear_flag_on_move(*id, *sym)?;
                    Ok(loaded)
                },
                None => Err(
                    LexoraError::UndefinedVariable { name: sym_text(*sym), suggestion: None, span: *span },
                ),
            },
            Expr::BinaryOp { left, op, right, .. } => {
                if matches!(op, BinaryOperator::Add) {
                    let et = self.expr_type(expr)?;
                    if matches!(et, Type::String) {
                        return self.gen_str_concat(expr);
                    }
                }
                if is_comparison(op) {
                    let lt0 = self.expr_type(&**left)?;
                    if matches!(lt0, Type::Str | Type::String) {
                        return self.gen_str_cmp(expr);
                    }
                }
                let lv = self.gen_expr(&**left)?;
                let rv = self.gen_expr(&**right)?;
                let lt = self.expr_llvm_type(&**left)?;
                self.ensure_room()?;
                let ghost b0 = self.builder;
                let ghost glv = lv;
                let ghost grv = rv;
                let ghost glt = lt;
                let val = match op {
                    BinaryOperator::Add => self.builder.build_checked_arith("sadd", &lt, lv, rv),
                    BinaryOperator::Sub => self.builder.build_checked_arith("ssub", &lt, lv, rv),
                    BinaryOperator::Mul => self.builder.build_checked_arith("smul", &lt, lv, rv),
                    BinaryOperator::Div => self.builder.build_checked_sdiv(&lt, lv, rv),
                    BinaryOperator::Eq => self.builder.build_icmp("eq", &lt, lv, rv),
                    BinaryOperator::NotEq => self.builder.build_icmp("ne", &lt, lv, rv),
                    BinaryOperator::Less => self.builder.build_icmp("slt", &lt, lv, rv),
                    BinaryOperator::Greater => self.builder.build_icmp("sgt", &lt, lv, rv),
                    BinaryOperator::LessEq => self.builder.build_icmp("sle", &lt, lv, rv),
                    BinaryOperator::GreaterEq => self.builder.build_icmp("sge", &lt, lv, rv),
                    BinaryOperator::And => self.builder.build_and(lv, rv),
                    BinaryOperator::Or => self.builder.build_or(lv, rv),
                };
                proof {
                    if arith_intrinsic(*op) is Some {
                        assert(self.builder.out() == b0.out() + checked_arith_text(
                            b0.temps(),
                            b0.blocks(),
                            b0.term(),
                            arith_intrinsic(*op)->0,
                            glt,
                            glv,
                            grv,
                        ));
                    }
                    if *op is And || *op is Or {
                        assert(self.builder.out() == b0.out() + "  "@ + tmp(b0.temps()) + (" = "@ + (if *op is And {
                            "and"@
                        } else {
                            "or"@
                        }) + " i1 "@ + value_text(glv) + ", "@ + value_text(grv) + "\n"@));
                        assert(val == Value::Temp(b0.temps()));
                    }
                    if *op is Div {
                        assert(self.builder.out() == b0.out() + checked_sdiv_text(
                            b0.temps(),
                            b0.blocks(),
                            b0.term(),
                            glt,
                            glv,
                            grv,
                        ));
                    }
                    if icmp_pred(*op) is Some {
                        assert(self.builder.out() == b0.out() + binop_line(
                            b0.temps(),
                            compare_op(icmp_pred(*op)->0),
                            glt,
                            glv,
                            grv,
                        ));
                    }
                }
                Ok(val)
            },
            Expr::UnaryOp { op, operand, .. } => {
                let val = self.gen_expr(&**operand)?;
                let ty = self.expr_llvm_type(&**operand)?;
                self.ensure_room()?;
                match op {
                    UnaryOperator::Not => Ok(self.builder.build_not(val)),
                    UnaryOperator::Neg => Ok(self.builder.build_neg(&ty, val)),
                }
            },
            Expr::Cast { expr: inner, target_type, .. } => {
                let val = self.gen_expr(&**inner)?;
                let from_ty = self.expr_llvm_type(&**inner)?;
                let to_ty = self.ast_type_to_llvm(target_type)?;
                self.ensure_room()?;
                if matches!(from_ty, LlvmType::I32) && matches!(to_ty, LlvmType::I64) {
                    Ok(self.builder.build_sext(val, &from_ty, &to_ty))
                } else if matches!(from_ty, LlvmType::I64) && matches!(to_ty, LlvmType::I32) {
                    Ok(self.builder.build_trunc(val, &from_ty, &to_ty))
                } else {
                    Ok(val)
                }
            },
            Expr::Call { .. } => self.gen_call(expr),
            Expr::Index { .. } | Expr::FieldAccess { .. } => {
                let ptr = self.gen_place(expr)?;
                let ty = self.expr_llvm_type(expr)?;
                self.ensure_room()?;
                Ok(self.builder.build_load(&ty, ptr))
            },
            Expr::ArrayLiteral(..) | Expr::StructLiteral { .. } => {
                let ty = self.expr_llvm_type(expr)?;
                self.ensure_room()?;
                let tmp = self.builder.build_entry_alloca(&ty);
                self.gen_into(expr, tmp.dup())?;
                self.ensure_room()?;
                Ok(self.builder.build_load(&ty, tmp))
            },
            Expr::Box { value, .. } => {
                let pointee = self.expr_llvm_type(&**value)?;
                let val = self.gen_expr(&**value)?;
                self.ensure_room()?;
                Ok(self.builder.build_box(&pointee, val))
            },
            Expr::Deref { target, id, .. } => {
                let ptr = self.gen_expr(&**target)?;
                let t = self.expr_type(expr)?;
                let pointee = self.ast_type_to_llvm(&t)?;
                self.ensure_room()?;
                let val = self.builder.build_load(&pointee, ptr.dup());
                if self.moves.contains_key(id) {
                    self.builder.build_free(ptr);
                }
                Ok(val)
            },
            Expr::EnumVariant { .. } | Expr::Match { .. } | Expr::Try { .. } => Err(
                codegen_error("enum kod uretimi desteklenmiyor"),
            ),
            Expr::If { .. } => self.gen_if(expr),
            Expr::Error(..) => Err(codegen_error("poison expression codegene ulasti")),
        }
    }

    /// A call: of a builtin (`print`, `len`, `string`) or of a function of the program.
    fn gen_call(&mut self, expr: &Expr) -> (r: Result<Value, LexoraError>)
        requires
            old(self).wf(),
            expr is Call,
        ensures
            clean_expr(expr) ==> !poisoned(r),
            covers(old(self).types@, expr_ids(expr)) ==> !type_missing(r),
            Self::frame(old(self), final(self), r is Ok),
        decreases expr, 0nat,
    {
        proof {
            lemma_messages();
            if covers(self.types@, expr_ids(expr)) {
                lemma_expr_parts(self.types@, expr);
            }
        }
        match expr {
            Expr::Call { name, args, span, .. } => {
                if !self.builder.knows(*name) {
                    return Err(codegen_error("bilinmeyen sembol"));
                }
                let name_str = to_string(self.builder.resolve(*name));
                if str_eq(name_str.as_str(), "print") || str_eq(name_str.as_str(), "len") || str_eq(
                    name_str.as_str(),
                    "string",
                ) {
                    if args.len() == 0 {
                        return Err(codegen_error("eksik arguman"));
                    }
                    proof {
                        if covers(self.types@, exprs_ids(args@)) {
                            lemma_exprs_elem(self.types@, args@, 0);
                            lemma_node_covered(self.types@, &args@[0]);
                        }
                        if clean_exprs(args@) {
                            lemma_clean_exprs_elem(args@, 0);
                        }
                    }
                }
                if str_eq(name_str.as_str(), "print") {
                    let arg = &args[0];
                    let arg_ty = self.expr_llvm_type(arg)?;
                    let val = self.gen_expr(arg)?;
                    let fmt = match arg_ty {
                        LlvmType::I64 => "@.fmt64",
                        LlvmType::Ptr => "@.fmts",
                        _ => "@.fmt",
                    };
                    self.builder.emit_print_call(fmt, &arg_ty, &val);
                    self.str_temp_free(arg, val)?;
                    return Ok(Value::Void);
                }
                if str_eq(name_str.as_str(), "len") {
                    let arg = &args[0];
                    let val = self.gen_expr(arg)?;
                    let len64 = self.str_len_of(arg, val.dup())?;
                    self.str_temp_free(arg, val)?;
                    self.ensure_room()?;
                    return Ok(self.builder.build_trunc(len64, &LlvmType::I64, &LlvmType::I32));
                }
                if str_eq(name_str.as_str(), "string") {
                    let val = self.gen_expr(&args[0])?;
                    self.ensure_room()?;
                    return Ok(self.builder.build_call_str_new(val));
                }
                let k = match find_key(&self.functions, *name) {
                    Some(k) => k,
                    None => {
                        return Err(
                            LexoraError::UndefinedFunction { name: name_str, suggestion: None, span: *span },
                        );
                    },
                };
                let mut params_tys: Vec<LlvmType> = Vec::new();
                let np = self.functions[k].1.0.len();
                let mut i: usize = 0;
                while i < np
                    invariant
                        k < self.functions@.len(),
                        np == self.functions@[k as int].1.0@.len(),
                        i <= np,
                    decreases np - i,
                {
                    params_tys.push(self.functions[k].1.0[i].dup());
                    i = i + 1;
                }
                let ret_ty = self.functions[k].1.1.dup();
                let call_args = self.gen_call_args(args, &params_tys)?;
                self.ensure_room()?;
                Ok(self.builder.build_call(&ret_ty, *name, call_args.as_slice()))
            },
            _ => Err(codegen_error("cagri degil")),
        }
    }

    /// The arguments of a call, each with the type of its parameter.
    fn gen_call_args(&mut self, args: &Vec<Expr>, params: &Vec<LlvmType>) -> (r: Result<
        Vec<(LlvmType, Value)>,
        LexoraError,
    >)
        requires
            old(self).wf(),
        ensures
            clean_exprs(args@) ==> !poisoned(r),
            covers(old(self).types@, exprs_ids(args@)) ==> !type_missing(r),
            Self::frame(old(self), final(self), r is Ok),
            r matches Ok(v) ==> v@.len() == (if args@.len() <= params@.len() {
                args@.len()
            } else {
                params@.len()
            }) && forall|k: int| 0 <= k < v@.len() ==> (#[trigger] v@[k]).0 == params@[k],
        decreases args, 0nat,
    {
        proof {
            lemma_messages();
        }
        let mut out: Vec<(LlvmType, Value)> = Vec::new();
        let mut i: usize = 0;
        while i < args.len() && i < params.len()
            invariant
                i <= args@.len(),
                i <= params@.len(),
                out@.len() == i,
                forall|k: int| 0 <= k < i ==> (#[trigger] out@[k]).0 == params@[k],
                self.wf(),
                Self::frame(old(self), self, true),
            decreases args@.len() - i,
        {
            proof {
                if covers(self.types@, exprs_ids(args@)) {
                    lemma_exprs_elem(self.types@, args@, i as int);
                }
                if clean_exprs(args@) {
                    lemma_clean_exprs_elem(args@, i as int);
                }
            }
            let val = self.gen_expr(&args[i])?;
            out.push((params[i].dup(), val));
            i = i + 1;
        }
        Ok(out)
    }

    /// `if`: both branches join at a merge block; when the `if` has a value,
    /// each branch stores it in a slot read after the merge.
    #[verifier::rlimit(40)]
    #[verifier::spinoff_prover]
    fn gen_if(&mut self, expr: &Expr) -> (r: Result<Value, LexoraError>)
        requires
            old(self).wf(),
            expr is If,
        ensures
            clean_expr(expr) ==> !poisoned(r),
            covers(old(self).types@, expr_ids(expr)) ==> !type_missing(r),
            Self::frame(old(self), final(self), r is Ok),
        decreases expr, 0nat,
    {
        proof {
            lemma_messages();
            if covers(self.types@, expr_ids(expr)) {
                lemma_expr_parts(self.types@, expr);
            }
        }
        match expr {
            Expr::If { condition, then_body, else_body, .. } => {
                let if_ty = self.expr_type(expr)?;
                let result_slot: Option<(LlvmType, Value)> = if !matches!(if_ty, Type::Void) {
                    let lt = self.ast_type_to_llvm(&if_ty)?;
                    self.ensure_room()?;
                    let slot = self.builder.build_entry_alloca(&lt);
                    Some((lt, slot))
                } else {
                    None
                };
                let cond_val = self.gen_expr(&**condition)?;
                self.ensure_room()?;
                let then_label = self.builder.fresh_block("then");
                let merge_label = self.builder.fresh_block("merge");
                match else_body {
                    Some(eb) => {
                        let else_label = self.builder.fresh_block("else");
                        self.builder.build_cond_br(cond_val, then_label.as_str(), else_label.as_str());
                        self.builder.emit_label(then_label.as_str());
                        self.gen_branch(&**then_body, &result_slot)?;
                        self.ensure_room()?;
                        self.builder.build_br(merge_label.as_str());
                        self.builder.emit_label(else_label.as_str());
                        self.gen_branch(&**eb, &result_slot)?;
                        self.ensure_room()?;
                        self.builder.build_br(merge_label.as_str());
                    },
                    None => {
                        self.builder.build_cond_br(cond_val, then_label.as_str(), merge_label.as_str());
                        self.builder.emit_label(then_label.as_str());
                        self.gen_branch(&**then_body, &None)?;
                        self.ensure_room()?;
                        self.builder.build_br(merge_label.as_str());
                    },
                }
                self.builder.emit_label(merge_label.as_str());
                match result_slot {
                    Some((lt, slot)) => {
                        self.ensure_room()?;
                        Ok(self.builder.build_load(&lt, slot))
                    },
                    None => Ok(Value::Void),
                }
            },
            _ => Err(codegen_error("if degil")),
        }
    }

    /// One branch of an `if`, in its own scope; its value goes to the slot.
    fn gen_branch(&mut self, body: &Block, slot: &Option<(LlvmType, Value)>) -> (r: Result<(), LexoraError>)
        requires
            old(self).wf(),
        ensures
            clean_block(body) ==> !poisoned(r),
            covers(old(self).types@, block_ids(body)) ==> !type_missing(r),
            Self::frame(old(self), final(self), r is Ok),
        decreases body, 1nat,
    {
        proof {
            lemma_messages();
            if covers(self.types@, block_ids(body)) {
                lemma_block_parts(self.types@, body);
            }
        }
        self.locals.enter();
        self.drop_enter();
        let v = self.gen_body(body)?;
        match (v, slot) {
            (Some(val), Some((lt, s))) => {
                self.ensure_room()?;
                self.builder.build_store(lt, val, s.dup());
            },
            _ => {},
        }
        self.drop_exit()?;
        self.locals.exit();
        Ok(())
    }

    /// The statements of a block, then its final expression unless the block
    /// already ended; returns the value of that expression.
    fn gen_body(&mut self, body: &Block) -> (r: Result<Option<Value>, LexoraError>)
        requires
            old(self).wf(),
        ensures
            clean_block(body) ==> !poisoned(r),
            covers(old(self).types@, block_ids(body)) ==> !type_missing(r),
            Self::frame(old(self), final(self), r is Ok),
        decreases body, 0nat,
    {
        proof {
            lemma_messages();
            if covers(self.types@, block_ids(body)) {
                lemma_block_parts(self.types@, body);
            }
        }
        self.gen_stmts(&body.stmts)?;
        match &body.tail {
            Some(t) => {
                if !self.builder.terminated() {
                    let v = self.gen_expr(&**t)?;
                    Ok(Some(v))
                } else {
                    Ok(None)
                }
            },
            None => Ok(None),
        }
    }

    fn gen_stmts(&mut self, stmts: &Vec<Stmt>) -> (r: Result<(), LexoraError>)
        requires
            old(self).wf(),
        ensures
            clean_stmts(stmts@) ==> !poisoned(r),
            covers(old(self).types@, stmts_ids(stmts@)) ==> !type_missing(r),
            Self::frame(old(self), final(self), r is Ok),
        decreases stmts, 0nat,
    {
        proof {
            lemma_messages();
        }
        let mut i: usize = 0;
        while i < stmts.len()
            invariant
                i <= stmts@.len(),
                self.wf(),
                Self::frame(old(self), self, true),
            decreases stmts@.len() - i,
        {
            proof {
                if covers(self.types@, stmts_ids(stmts@)) {
                    lemma_stmts_elem(self.types@, stmts@, i as int);
                }
                if clean_stmts(stmts@) {
                    lemma_clean_stmts_elem(stmts@, i as int);
                }
            }
            self.gen_statement(&stmts[i])?;
            i = i + 1;
        }
        Ok(())
    }

    /// The instructions of a `while` loop.
    fn gen_while(&mut self, stmt: &Stmt) -> (r: Result<(), LexoraError>)
        requires
            old(self).wf(),
            stmt is While,
        ensures
            clean_stmt(stmt) ==> !poisoned(r),
            covers(old(self).types@, stmt_ids(stmt)) ==> !type_missing(r),
            Self::frame(old(self), final(self), r is Ok),
            r is Ok ==> ends_with_label(final(self).builder.out(), "while_end"@),
        decreases stmt, 0nat,
    {
        proof {
            lemma_messages();
            if covers(self.types@, stmt_ids(stmt)) {
                lemma_stmt_parts(self.types@, stmt);
            }
        }
        match stmt {
            Stmt::While { condition, body, .. } => {
                self.ensure_room()?;
                let cond_label = self.builder.fresh_block("while_cond");
                let body_label = self.builder.fresh_block("while_body");
                let ghost b_w = self.builder.blocks();
                let end_label = self.builder.fresh_block("while_end");
                self.builder.build_br(cond_label.as_str());
                self.builder.emit_label(cond_label.as_str());
                let cond_val = self.gen_expr(condition)?;
                self.builder.build_cond_br(cond_val, body_label.as_str(), end_label.as_str());
                self.builder.emit_label(body_label.as_str());
                self.locals.enter();
                self.drop_enter();
                self.gen_body(body)?;
                self.drop_exit()?;
                self.locals.exit();
                self.builder.build_br(cond_label.as_str());
                let ghost o_w = self.builder.out();
                self.builder.emit_label(end_label.as_str());
                proof {
                    assert(self.builder.out() == o_w + label_line(block_name("while_end"@, b_w)));
                }
                Ok(())
            },
            _ => Ok(()),
        }
    }

    /// The instructions of a `for` loop.
    #[verifier::rlimit(60)]
    #[verifier::spinoff_prover]
    fn gen_for(&mut self, stmt: &Stmt) -> (r: Result<(), LexoraError>)
        requires
            old(self).wf(),
            stmt is For,
        ensures
            clean_stmt(stmt) ==> !poisoned(r),
            covers(old(self).types@, stmt_ids(stmt)) ==> !type_missing(r),
            Self::frame(old(self), final(self), r is Ok),
            r is Ok ==> ends_with_label(final(self).builder.out(), "for_end"@),
            r is Ok ==> exists|t: u32, t2: u32, term: bool, ivar: Value, bound: Value|
                range_test_in(final(self).builder.out(), t, old(self).builder.blocks(), ivar, bound)
                    && range_step_at_end(final(self).builder.out(), t2, term, ivar, old(self).builder.blocks()),
        decreases stmt, 0nat,
    {
        proof {
            lemma_messages();
            if covers(self.types@, stmt_ids(stmt)) {
                lemma_stmt_parts(self.types@, stmt);
            }
        }
        match stmt {
            Stmt::For { var, from, to, body, .. } => {
                self.ensure_room()?;
                let ghost b_c = self.builder.blocks();
                let cond_label = self.builder.fresh_block("for_cond");
                let ghost b_b = self.builder.blocks();
                let body_label = self.builder.fresh_block("for_body");
                let ghost b_f = self.builder.blocks();
                let end_label = self.builder.fresh_block("for_end");
                self.locals.enter();
                let from_val = self.gen_expr(from)?;
                self.ensure_room()?;
                let ptr = self.builder.build_entry_alloca(&LlvmType::I32);
                self.builder.build_store(&LlvmType::I32, from_val, ptr.dup());
                self.locals.insert(*var, (LlvmType::I32, ptr.dup()));
                let to_val = self.gen_expr(to)?;
                self.ensure_room()?;
                let to_ptr = self.builder.build_entry_alloca(&LlvmType::I32);
                self.builder.build_store(&LlvmType::I32, to_val, to_ptr.dup());
                self.builder.build_br(cond_label.as_str());
                let ghost o_c = self.builder.out();
                let ghost t_c = self.builder.temps();
                let ghost iv = ptr;
                let ghost bv = to_ptr;
                self.builder.build_range_test(
                    cond_label.as_str(),
                    ptr.dup(),
                    to_ptr,
                    body_label.as_str(),
                    end_label.as_str(),
                );
                let ghost o_t = self.builder.out();
                let ghost test = range_test_text(t_c, cond_label@, iv, bv, body_label@, end_label@);
                proof {
                    assert(o_t.subrange(o_c.len() as int, (o_c.len() + test.len()) as int) =~= test);
                    assert(occurs_at(o_t, test, o_c.len() as int));
                    assert(cond_label@ == block_name("for_cond"@, b_c));
                    assert(body_label@ == block_name("for_body"@, b_b));
                    assert(end_label@ == block_name("for_end"@, b_f));
                }
                self.builder.emit_label(body_label.as_str());
                self.locals.enter();
                self.drop_enter();
                self.gen_body(body)?;
                self.drop_exit()?;
                self.locals.exit();
                self.ensure_room()?;
                let ghost o_f = self.builder.out();
                let ghost t_s = self.builder.temps();
                let ghost term_s = self.builder.term();
                self.builder.build_range_step(ptr, cond_label.as_str(), end_label.as_str());
                proof {
                    assert(self.builder.out() == o_f + range_step_text(t_s, term_s, iv, cond_label@, end_label@));
                    assert(self.builder.out() == (o_f + super::builder::range_step_body(t_s, term_s, iv, cond_label@))
                        + label_line(block_name("for_end"@, b_f)));
                    assert(extends(o_t, self.builder.out()));
                    lemma_occurs_extends(o_t, self.builder.out(), test);
                    assert(range_test_in(self.builder.out(), t_c, b_c, iv, bv));
                    let step = range_step_text(t_s, term_s, iv, cond_label@, end_label@);
                    assert(self.builder.out().subrange(
                        self.builder.out().len() - step.len(),
                        self.builder.out().len() as int,
                    ) =~= step);
                    assert(range_step_at_end(self.builder.out(), t_s, term_s, iv, b_c));
                }
                let ghost o_end = self.builder.out();
                self.locals.exit();
                proof {
                    assert(b_c == old(self).builder.blocks());
                    assert(self.builder.out() == o_end);
                    assert(range_test_in(self.builder.out(), t_c, old(self).builder.blocks(), iv, bv));
                    assert(range_step_at_end(self.builder.out(), t_s, term_s, iv, old(self).builder.blocks()));
                }
                Ok(())
            },
            _ => Ok(()),
        }
    }

    /// The instructions of one statement.
    #[verifier::rlimit(40)]
    #[verifier::spinoff_prover]
    fn gen_statement(&mut self, stmt: &Stmt) -> (r: Result<(), LexoraError>)
        requires
            old(self).wf(),
        ensures
            clean_stmt(stmt) ==> !poisoned(r),
            covers(old(self).types@, stmt_ids(stmt)) ==> !type_missing(r),
            Self::frame(old(self), final(self), r is Ok),
            stmt is Error ==> (r matches Err(e) && codegen_error_is(e, "poison statement codegen'e ulasti"@)),
            stmt is Return ==> (r is Ok ==> final(self).builder.term()),
            stmt is While ==> (r is Ok ==> ends_with_label(final(self).builder.out(), "while_end"@)),
            stmt is For ==> (r is Ok ==> ends_with_label(final(self).builder.out(), "for_end"@)),
            stmt is For ==> (r is Ok ==> exists|t: u32, t2: u32, term: bool, ivar: Value, bound: Value|
                range_test_in(final(self).builder.out(), t, old(self).builder.blocks(), ivar, bound)
                    && range_step_at_end(final(self).builder.out(), t2, term, ivar, old(self).builder.blocks())),
        decreases stmt, 1nat,
    {
        proof {
            lemma_messages();
            if covers(self.types@, stmt_ids(stmt)) {
                lemma_stmt_parts(self.types@, stmt);
            }
        }
        match stmt {
            Stmt::Return(expr, _) => {
                let val = self.gen_expr(expr)?;
                self.free_all_live()?;
                let ty = self.current_ret_ty.dup();
                self.builder.build_ret(&ty, val);
                Ok(())
            },
            Stmt::Expr(expr, _) => {
                self.gen_expr(expr)?;
                Ok(())
            },
            Stmt::Let { name, value, .. } => {
                let vt = self.expr_type(value)?;
                let llvm_ty = self.ast_type_to_llvm(&vt)?;
                self.ensure_room()?;
                let ptr = self.builder.build_entry_alloca(&llvm_ty);
                self.gen_into(value, ptr.dup())?;
                self.locals.insert(*name, (llvm_ty, ptr.dup()));
                if self.is_owning_type(&vt, FIELD_DEPTH) {
                    self.ensure_room()?;
                    let flag = self.builder.build_entry_alloca(&LlvmType::I1);
                    self.builder.build_store(&LlvmType::I1, Value::Const(1), flag.dup());
                    let last = self.drop_scopes.len() - 1;
                    self.drop_scopes[last].push(DropLocal { sym: *name, slot: ptr, flag, pointee: vt });
                }
                Ok(())
            },
            Stmt::Assign { name, value, span } => {
                let (llvm_ty, ptr) = match self.locals.get(*name) {
                    Some(v) => v,
                    None => {
                        return Err(
                            LexoraError::UndefinedVariable {
                                name: sym_text(*name),
                                suggestion: None,
                                span: *span,
                            },
                        );
                    },
                };
                let val = self.gen_expr(value)?;
                self.builder.build_store(&llvm_ty, val, ptr);
                Ok(())
            },
            Stmt::While { .. } => self.gen_while(stmt),
            Stmt::For { .. } => self.gen_for(stmt),
            Stmt::AssignPlace { target, value, .. } => {
                let ptr = self.gen_place(target)?;
                let ty = self.expr_llvm_type(target)?;
                let val = self.gen_expr(value)?;
                self.builder.build_store(&ty, val, ptr);
                Ok(())
            },
            Stmt::Error(_) => Err(codegen_error("poison statement codegen'e ulasti")),
        }
    }
}

/// The declarations every module starts with: the print formats, the
/// overflow intrinsics, and the runtime's panic, allocation and string
/// functions.
pub open spec fn prelude_text() -> Seq<char> {
    "@.fmt   = private constant [4 x i8] c\"%d\\0A\\00\"\n\
                 @.fmt64 = private constant [6 x i8] c\"%lld\\0A\\00\"\n\
                 @.fmts  = private constant [4 x i8] c\"%s\\0A\\00\"\n\
                 declare i32 @printf(ptr, ...)\n\n"@ + "@.panicmsg_ovf = private unnamed_addr constant [25 x i8] c\"lexora: integer overflow\\00\"\n\
               declare {i32, i1} @llvm.sadd.with.overflow.i32(i32, i32)\n\
               declare {i32, i1} @llvm.ssub.with.overflow.i32(i32, i32)\n\
               declare {i32, i1} @llvm.smul.with.overflow.i32(i32, i32)\n\
               declare {i64, i1} @llvm.sadd.with.overflow.i64(i64, i64)\n\
               declare {i64, i1} @llvm.ssub.with.overflow.i64(i64, i64)\n\
               declare {i64, i1} @llvm.smul.with.overflow.i64(i64, i64)\n\n"@ + "declare void @exit(i32)\n\
       @.panicmsg_div = private unnamed_addr constant [25 x i8] c\"lexora: division by zero\\00\"\n\
       @.panicmsg_idx = private unnamed_addr constant [28 x i8] c\"lexora: index out of bounds\\00\"\n\
       define void @lexora_panic(ptr %msg) {\n\
       call i32 (ptr, ...) @printf(ptr @.fmts, ptr %msg)\n\
       call void @exit(i32 1)\n\
       unreachable\n\
       }\n\n"@ + "declare ptr @malloc(i64)\n\
       declare void @free(ptr)\n\
       @.panicmsg_oom = private unnamed_addr constant [22 x i8] c\"lexora: out of memory\\00\"\n\
       define ptr @lexora_alloc(i64 %size) {\n\
       %p = call ptr @malloc(i64 %size)\n\
       %isnull = icmp eq ptr %p, null\n\
       br i1 %isnull, label %oom, label %allocok\n\
       oom:\n\
       call void @lexora_panic(ptr @.panicmsg_oom)\n\
       unreachable\n\
       allocok:\n\
       ret ptr %p\n\
       }\n\
       define void @lexora_free(ptr %p) {\n\
       call void @free(ptr %p)\n\
       ret void\n\
       }\n\n"@ + "declare i64 @strlen(ptr)\n\
       declare ptr @strcpy(ptr, ptr)\n\
       define ptr @lexora_str_new(ptr %src) {\n\
       %len = call i64 @strlen(ptr %src)\n\
       %total = add i64 %len, 9\n\
       %blk = call ptr @lexora_alloc(i64 %total)\n\
       store i64 %len, ptr %blk\n\
       %data = getelementptr i8, ptr %blk, i64 8\n\
       %copy = call ptr @strcpy(ptr %data, ptr %src)\n\
       ret ptr %data\n\
       }\n\
       define void @lexora_str_free(ptr %s) {\n\
       %blk = getelementptr i8, ptr %s, i64 -8\n\
       call void @lexora_free(ptr %blk)\n\
       ret void\n\
       }\n\n"@ + "define ptr @lexora_str_concat(ptr %a, i64 %alen, ptr %b, i64 %blen) {\n\
       %len = add i64 %alen, %blen\n\
       %total = add i64 %len, 9\n\
       %blk = call ptr @lexora_alloc(i64 %total)\n\
       store i64 %len, ptr %blk\n\
       %data = getelementptr i8, ptr %blk, i64 8\n\
       %c1 = call ptr @strcpy(ptr %data, ptr %a)\n\
       %dst = getelementptr i8, ptr %data, i64 %alen\n\
       %c2 = call ptr @strcpy(ptr %dst, ptr %b)\n\
       ret ptr %data\n\
       }\n\n"@ + "declare i32 @strcmp(ptr, ptr)\n\
       define i1 @lexora_str_eq(ptr %a, i64 %alen, ptr %b, i64 %blen) {\n\
       %nelen = icmp ne i64 %alen, %blen\n\
       br i1 %nelen, label %diff, label %same\n\
       diff:\n\
       ret i1 0\n\
       same:\n\
       %c = call i32 @strcmp(ptr %a, ptr %b)\n\
       %eq = icmp eq i32 %c, 0\n\
       ret i1 %eq\n\
       }\n\n"@
}

impl<'i> CodeGen<'i> {
    /// One function: its parameters stored in slots, its body, and a final
    /// return or `unreachable`.
    fn gen_function(&mut self, func: &Function) -> (r: Result<(), LexoraError>)
        ensures
            clean_block(&func.body) ==> !poisoned(r),
            covers(old(self).types@, block_ids(&func.body)) ==> !type_missing(r),
            final(self).functions == old(self).functions,
            final(self).structs == old(self).structs,
            final(self).struct_fields_ast == old(self).struct_fields_ast,
            final(self).types == old(self).types,
            final(self).moves == old(self).moves,
            final(self).builder.names() == old(self).builder.names(),
            extends(old(self).builder.glob(), final(self).builder.glob()),
            r is Ok && old(self).builder.sound() ==> final(self).builder.sound() && extends(
                old(self).builder.settled(),
                final(self).builder.settled(),
            ) && occurs(final(self).builder.settled(), signature_line(func, old(self).builder.names())),
    {
        proof {
            lemma_messages();
            if covers(self.types@, block_ids(&func.body)) {
                lemma_block_parts(self.types@, &func.body);
            }
        }
        self.locals = VarTable::new();
        self.locals.enter();
        self.drop_enter();
        self.current_ret_ty = self.ast_type_to_llvm(&func.return_type)?;
        if !self.builder.knows(func.name) {
            return Err(codegen_error("bilinmeyen sembol"));
        }
        let mut params_ir: Vec<(Symbol, LlvmType)> = Vec::new();
        let mut i: usize = 0;
        while i < func.params.len()
            invariant
                i <= func.params@.len(),
                params_ir@.len() == i,
                forall|j: int| 0 <= j < i ==> ((#[trigger] params_ir@[j]).0.0 as int) < self.builder.names().len()
                    && params_ir@[j].0 == func.params@[j].0,
                forall|j: int| 0 <= j < i ==> #[trigger] params_ir@[j] == ir_params(func)[j],
                llvm_of(func.return_type@) == Some(self.current_ret_ty),
                self.builder.settled() == old(self).builder.settled(),
                old(self).builder.sound() ==> self.builder.sound(),
                self.functions == old(self).functions,
                self.structs == old(self).structs,
                self.struct_fields_ast == old(self).struct_fields_ast,
                self.types == old(self).types,
                self.moves == old(self).moves,
                self.builder.names() == old(self).builder.names(),
                self.builder.glob() == old(self).builder.glob(),
                self.lv() > 0,
                self.dv() > 0,
            decreases func.params@.len() - i,
        {
            proof {
                lemma_messages();
            }
            let sym = func.params[i].0;
            if !self.builder.knows(sym) {
                return Err(codegen_error("bilinmeyen sembol"));
            }
            let ty = self.ast_type_to_llvm(&func.params[i].1)?;
            params_ir.push((sym, ty));
            i = i + 1;
        }
        let ret = self.current_ret_ty.dup();
        let ghost before = self.builder.out();
        let ghost sound_before = self.builder.sound();
        let ghost settled_before = self.builder.settled();
        self.builder.emit_function_begin(func.name, params_ir.as_slice(), &ret);
        proof {
            assert(params_ir@ =~= ir_params(func));
        }
        let ghost line = signature_line(func, old(self).builder.names());
        assert(self.builder.out() == before + line);
        self.builder.settle();
        proof {
            assert(self.builder.settled().subrange(before.len() as int, (before.len() + line.len()) as int) =~= line);
            assert(occurs_at(self.builder.settled(), line, before.len() as int));
        }
        let ghost settled_fn = self.builder.settled();
        self.builder.emit_entry();
        let ghost entry = self.builder.entry_pos();
        assert(settled_fn.len() <= entry);
        let mut i: usize = 0;
        while i < func.params.len()
            invariant
                i <= func.params@.len(),
                params_ir@.len() == func.params@.len(),
                self.builder.settled() == settled_fn,
                self.builder.entry_pos() == entry,
                settled_fn.len() <= entry,
                self.builder.sound(),
                forall|j: int| 0 <= j < func.params@.len() ==> ((#[trigger] params_ir@[j]).0.0 as int) < self.builder.names().len()
                    && params_ir@[j].0 == func.params@[j].0,
                self.functions == old(self).functions,
                self.structs == old(self).structs,
                self.struct_fields_ast == old(self).struct_fields_ast,
                self.types == old(self).types,
                self.moves == old(self).moves,
                self.builder.names() == old(self).builder.names(),
                extends(old(self).builder.glob(), self.builder.glob()),
                self.lv() > 0,
                self.dv() > 0,
            decreases func.params@.len() - i,
        {
            let sym = func.params[i].0;
            let ast_ty = func.params[i].1.dup();
            let llvm_ty = self.ast_type_to_llvm(&ast_ty)?;
            let mut pname = to_string("%");
            assert(params_ir@[i as int].0 == sym);
            push_str(&mut pname, self.builder.resolve(sym));
            let param_val = Value::Named(pname);
            self.ensure_room()?;
            let ptr = self.builder.build_entry_alloca(&llvm_ty);
            self.builder.build_store(&llvm_ty, param_val, ptr.dup());
            self.locals.insert(sym, (llvm_ty, ptr.dup()));
            if self.is_owning_type(&ast_ty, FIELD_DEPTH) {
                let flag = self.builder.build_entry_alloca(&LlvmType::I1);
                self.builder.build_store(&LlvmType::I1, Value::Const(1), flag.dup());
                let last = self.drop_scopes.len() - 1;
                self.drop_scopes[last].push(DropLocal { sym, slot: ptr, flag, pointee: ast_ty });
            }
            i = i + 1;
        }
        self.gen_stmts(&func.body.stmts)?;
        match &func.body.tail {
            Some(tail) => {
                if !self.builder.terminated() {
                    let val = self.gen_expr(&**tail)?;
                    self.free_all_live()?;
                    let ty = self.current_ret_ty.dup();
                    self.builder.build_ret(&ty, val);
                }
            },
            None => {},
        }
        self.drop_exit()?;
        if !self.builder.terminated() {
            if matches!(self.current_ret_ty, LlvmType::Void) {
                self.builder.build_ret(&LlvmType::Void, Value::Void);
            } else {
                self.builder.build_unreachable();
            }
        }
        self.locals.exit();
        self.builder.emit_function_end();
        proof {
            if sound_before {
                assert(extends(settled_before, settled_fn));
            }
        }
        Ok(())
    }

    /// The IR module of a checked program: the runtime declarations, the
    /// struct types, then every function.
    pub fn gen_program(&mut self, program: &Program) -> (r: Result<String, LexoraError>)
        requires
            old(self).module_globals().len() == 0,
        ensures
            clean_program(program) ==> !poisoned(r),
            r matches Ok(s) ==> extends(prelude_text(), s@),
            program.enums@.len() > 0 ==> (r matches Err(e) && codegen_error_is(e, "enum kod uretimi desteklenmiyor"@)),
            r matches Ok(s) ==> forall|j: int|
                0 <= j < program.functions@.len() ==> occurs(
                    s@,
                    #[trigger] signature_line(&program.functions@[j], old(self).names()),
                ),
            covers(old(self).typed(), program_ids(program)) ==> !type_missing(r),
    {
        proof {
            lemma_messages();
        }
        self.builder.settle();
        self.builder.add_global_text(
            "@.fmt   = private constant [4 x i8] c\"%d\\0A\\00\"\n\
                 @.fmt64 = private constant [6 x i8] c\"%lld\\0A\\00\"\n\
                 @.fmts  = private constant [4 x i8] c\"%s\\0A\\00\"\n\
                 declare i32 @printf(ptr, ...)\n\n",
        );
        self.builder.add_global_text(
            "@.panicmsg_ovf = private unnamed_addr constant [25 x i8] c\"lexora: integer overflow\\00\"\n\
               declare {i32, i1} @llvm.sadd.with.overflow.i32(i32, i32)\n\
               declare {i32, i1} @llvm.ssub.with.overflow.i32(i32, i32)\n\
               declare {i32, i1} @llvm.smul.with.overflow.i32(i32, i32)\n\
               declare {i64, i1} @llvm.sadd.with.overflow.i64(i64, i64)\n\
               declare {i64, i1} @llvm.ssub.with.overflow.i64(i64, i64)\n\
               declare {i64, i1} @llvm.smul.with.overflow.i64(i64, i64)\n\n",
        );
        self.builder.add_global_text(
            "declare void @exit(i32)\n\
       @.panicmsg_div = private unnamed_addr constant [25 x i8] c\"lexora: division by zero\\00\"\n\
       @.panicmsg_idx = private unnamed_addr constant [28 x i8] c\"lexora: index out of bounds\\00\"\n\
       define void @lexora_panic(ptr %msg) {\n\
       call i32 (ptr, ...) @printf(ptr @.fmts, ptr %msg)\n\
       call void @exit(i32 1)\n\
       unreachable\n\
       }\n\n",
        );
        self.builder.add_global_text(
            "declare ptr @malloc(i64)\n\
       declare void @free(ptr)\n\
       @.panicmsg_oom = private unnamed_addr constant [22 x i8] c\"lexora: out of memory\\00\"\n\
       define ptr @lexora_alloc(i64 %size) {\n\
       %p = call ptr @malloc(i64 %size)\n\
       %isnull = icmp eq ptr %p, null\n\
       br i1 %isnull, label %oom, label %allocok\n\
       oom:\n\
       call void @lexora_panic(ptr @.panicmsg_oom)\n\
       unreachable\n\
       allocok:\n\
       ret ptr %p\n\
       }\n\
       define void @lexora_free(ptr %p) {\n\
       call void @free(ptr %p)\n\
       ret void\n\
       }\n\n",
        );
        self.builder.add_global_text(
            "declare i64 @strlen(ptr)\n\
       declare ptr @strcpy(ptr, ptr)\n\
       define ptr @lexora_str_new(ptr %src) {\n\
       %len = call i64 @strlen(ptr %src)\n\
       %total = add i64 %len, 9\n\
       %blk = call ptr @lexora_alloc(i64 %total)\n\
       store i64 %len, ptr %blk\n\
       %data = getelementptr i8, ptr %blk, i64 8\n\
       %copy = call ptr @strcpy(ptr %data, ptr %src)\n\
       ret ptr %data\n\
       }\n\
       define void @lexora_str_free(ptr %s) {\n\
       %blk = getelementptr i8, ptr %s, i64 -8\n\
       call void @lexora_free(ptr %blk)\n\
       ret void\n\
       }\n\n",
        );
        self.builder.add_global_text(
            "define ptr @lexora_str_concat(ptr %a, i64 %alen, ptr %b, i64 %blen) {\n\
       %len = add i64 %alen, %blen\n\
       %total = add i64 %len, 9\n\
       %blk = call ptr @lexora_alloc(i64 %total)\n\
       store i64 %len, ptr %blk\n\
       %data = getelementptr i8, ptr %blk, i64 8\n\
       %c1 = call ptr @strcpy(ptr %data, ptr %a)\n\
       %dst = getelementptr i8, ptr %data, i64 %alen\n\
       %c2 = call ptr @strcpy(ptr %dst, ptr %b)\n\
       ret ptr %data\n\
       }\n\n",
        );
        self.builder.add_global_text(
            "declare i32 @strcmp(ptr, ptr)\n\
       define i1 @lexora_str_eq(ptr %a, i64 %alen, ptr %b, i64 %blen) {\n\
       %nelen = icmp ne i64 %alen, %blen\n\
       br i1 %nelen, label %diff, label %same\n\
       diff:\n\
       ret i1 0\n\
       same:\n\
       %c = call i32 @strcmp(ptr %a, ptr %b)\n\
       %eq = icmp eq i32 %c, 0\n\
       ret i1 %eq\n\
       }\n\n",
        );
        assert(self.builder.glob() =~= prelude_text());
        if program.enums.len() > 0 {
            return Err(codegen_error("enum kod uretimi desteklenmiyor"));
        }
        let mut si: usize = 0;
        while si < program.structs.len()
            invariant
                si <= program.structs@.len(),
                extends(prelude_text(), self.builder.glob()),
                program.enums@.len() == 0,
                self.builder.sound(),
                self.builder.names() == old(self).builder.names(),
                self.types == old(self).types,
            decreases program.structs@.len() - si,
        {
            let sd = &program.structs[si];
            let mut field_llvm: Vec<(Symbol, LlvmType)> = Vec::new();
            let mut llvm_tys: Vec<LlvmType> = Vec::new();
            let mut fields_ast: Vec<(Symbol, Type)> = Vec::new();
            let mut j: usize = 0;
            while j < sd.fields.len()
                invariant
                    j <= sd.fields@.len(),
                    extends(prelude_text(), self.builder.glob()),
                    program.enums@.len() == 0,
                    self.builder.sound(),
                    self.builder.names() == old(self).builder.names(),
                    self.types == old(self).types,
                decreases sd.fields@.len() - j,
            {
                let t = self.ast_type_to_llvm(&sd.fields[j].1)?;
                llvm_tys.push(t.dup());
                field_llvm.push((sd.fields[j].0, t));
                fields_ast.push((sd.fields[j].0, sd.fields[j].1.dup()));
                j = j + 1;
            }
            self.builder.emit_struct_type(sd.name, llvm_tys.as_slice());
            self.structs.push((sd.name, field_llvm));
            self.struct_fields_ast.push((sd.name, fields_ast));
            si = si + 1;
        }
        let mut fi: usize = 0;
        while fi < program.functions.len()
            invariant
                fi <= program.functions@.len(),
                extends(prelude_text(), self.builder.glob()),
                program.enums@.len() == 0,
                self.builder.sound(),
                self.builder.names() == old(self).builder.names(),
                self.types == old(self).types,
            decreases program.functions@.len() - fi,
        {
            let f = &program.functions[fi];
            let mut param_tys: Vec<LlvmType> = Vec::new();
            let mut j: usize = 0;
            while j < f.params.len()
                invariant
                    j <= f.params@.len(),
                    extends(prelude_text(), self.builder.glob()),
                    program.enums@.len() == 0,
                    self.builder.sound(),
                    self.builder.names() == old(self).builder.names(),
                    self.types == old(self).types,
                decreases f.params@.len() - j,
            {
                param_tys.push(self.ast_type_to_llvm(&f.params[j].1)?);
                j = j + 1;
            }
            let ret_ty = self.ast_type_to_llvm(&f.return_type)?;
            self.functions.push((f.name, (param_tys, ret_ty)));
            fi = fi + 1;
        }
        let mut fi: usize = 0;
        while fi < program.functions.len()
            invariant
                fi <= program.functions@.len(),
                extends(prelude_text(), self.builder.glob()),
                program.enums@.len() == 0,
                self.builder.sound(),
                self.builder.names() == old(self).builder.names(),
                forall|j: int|
                    0 <= j < fi ==> occurs(
                        self.builder.settled(),
                        #[trigger] signature_line(&program.functions@[j], old(self).builder.names()),
                    ),
                self.types == old(self).types,
            decreases program.functions@.len() - fi,
        {
            proof {
                if covers(self.types@, program_ids(program)) {
                    lemma_functions_elem(self.types@, program.functions@, fi as int);
                }
                if clean_program(program) {
                    lemma_clean_functions_elem(program.functions@, fi as int);
                }
            }
            let ghost st0 = self.builder.settled();
            self.gen_function(&program.functions[fi])?;
            proof {
                assert forall|j: int| 0 <= j < fi + 1 implies occurs(
                    self.builder.settled(),
                    #[trigger] signature_line(&program.functions@[j], old(self).builder.names()),
                ) by {
                    if j < fi {
                        lemma_occurs_extends(st0, self.builder.settled(), signature_line(&program.functions@[j], old(self).builder.names()));
                    }
                }
            }
            fi = fi + 1;
        }
        let out = self.builder.finish();
        proof {
            self.builder.lemma_sound();
            assert forall|j: int| 0 <= j < program.functions@.len() implies occurs(
                out@,
                #[trigger] signature_line(&program.functions@[j], old(self).names()),
            ) by {
                let l = signature_line(&program.functions@[j], old(self).names());
                lemma_occurs_extends(self.builder.settled(), self.builder.out(), l);
                lemma_occurs_after(self.builder.glob() + "\n"@, self.builder.out(), l);
            }
        }
        Ok(out)
    }
}

} // verus!
