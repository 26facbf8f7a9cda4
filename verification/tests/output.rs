use lexora::backend::string_ir::builder::IrBuilder;
use lexora::backend::string_ir::types::LlvmType;
use lexora::backend::string_ir::value::Value;
use lexora::symbol::{Interner, Symbol};

#[test]
fn llvm_type_texts() {
    assert_eq!(LlvmType::I1.to_ir_str(), "i1");
    assert_eq!(LlvmType::Array(Box::new(LlvmType::I32), 4).to_ir_str(), "[4 x i32]");
    assert_eq!(LlvmType::Struct(Symbol(3)).to_ir_str(), "%struct.3");
    assert_eq!(LlvmType::Enum(Symbol(0)).to_ir_str(), "%enum.0");
}

#[test]
fn value_texts() {
    assert_eq!(Value::Const(-5).to_ir_str(), "-5");
    assert_eq!(Value::FConst(1.5f64.to_bits()).to_ir_str(), "0x3FF8000000000000");
    assert_eq!(Value::Temp(7).to_ir_str(), "%t7");
    assert_eq!(Value::Global(Symbol(2)).to_ir_str(), "@g2");
    assert_eq!(Value::Named("@str0".to_string()).to_ir_str(), "@str0");
}

#[test]
fn builder_numbers_temporaries() {
    let interner = Interner::new();
    let mut b = IrBuilder::new(&interner);
    let t0 = b.build_add(&LlvmType::I32, Value::Const(1), Value::Const(2));
    let t1 = b.build_mul(&LlvmType::I64, t0, Value::Const(3));
    assert_eq!(t1.to_ir_str(), "%t1");
    assert_eq!(b.finish(), "\n  %t0 = add i32 1, 2\n  %t1 = mul i64 %t0, 3\n");
}

#[test]
fn builder_labels_and_branches() {
    let interner = Interner::new();
    let mut b = IrBuilder::new(&interner);
    let l = b.fresh_block("then");
    assert_eq!(l, "then0");
    b.emit_label(&l);
    b.build_br("end1");
    assert!(b.is_terminated());
    b.build_br("ignored");
    assert_eq!(b.finish(), "\nthen0:\n  br label %end1\n");
}

#[test]
fn builder_escapes_string_globals() {
    let interner = Interner::new();
    let mut b = IrBuilder::new(&interner);
    let (v, len) = b.add_string_global("a\"b\n");
    assert_eq!(v.to_ir_str(), "@str0");
    assert_eq!(len, 5);
    assert_eq!(
        b.finish(),
        "@str0 = private unnamed_addr constant [5 x i8] c\"a\\22b\\0A\\00\"\n\n"
    );
}

#[test]
fn builder_checked_division_guards() {
    let interner = Interner::new();
    let mut b = IrBuilder::new(&interner);
    let r = b.build_checked_sdiv(&LlvmType::I32, Value::Temp(9), Value::Const(2));
    assert_eq!(r.to_ir_str(), "%t4");
    let text = b.finish();
    assert!(text.contains("  %t0 = icmp eq i32 2, 0\n"));
    assert!(text.contains("  br i1 %t0, label %div_panic0, label %div_ok1\n"));
    assert!(text.contains("  call void @lexora_panic(ptr @.panicmsg_div)\n"));
    assert!(text.contains("  %t1 = icmp eq i32 %t9, -2147483648\n"));
    assert!(text.ends_with("  %t4 = sdiv i32 %t9, 2\n"));
}

use lexora::backend::string_ir::codegen::CodeGen;
use lexora::error::LexoraError;
use lexora::lexer::Lexer;
use lexora::move_check::MoveChecker;
use lexora::parser::Parser;
use lexora::typechecker::TypeChecker;

fn compile(src: &str) -> Result<String, LexoraError> {
    let mut parser = Parser::new(Lexer::new(src, 0));
    let program = parser.parse_program();
    assert!(parser.take_errors().is_empty());
    let interner = parser.interner;
    let mut checker = TypeChecker::new(&interner);
    assert!(checker.check_program(&program).is_ok());
    let (moves, errs) = MoveChecker::new(&checker.types, &interner).check(&program);
    assert!(errs.is_empty());
    let mut cg = CodeGen::new(IrBuilder::new(&interner), checker.types_map(), &moves);
    cg.gen_program(&program)
}

#[test]
fn codegen_emits_prelude_function_and_checked_add() {
    let ir = compile("fn main() -> i32 { let x: i32 = 2 + 3; print(x); return x; }").expect("compiles");
    assert!(ir.starts_with("@.fmt   = private constant [4 x i8] c\"%d\\0A\\00\"\n@.fmt64 = "));
    assert!(ir.contains("declare {i32, i1} @llvm.sadd.with.overflow.i32(i32, i32)\n"));
    assert!(ir.contains(
        "define i32 @main() {\nentry:\n  %t0 = alloca  i32\n  %t1 = call {i32, i1} @llvm.sadd.with.overflow.i32(i32 2, i32 3)\n"
    ));
    assert!(ir.contains("  call i32 (ptr, ...) @printf(ptr @.fmt, i32 %t4)\n"));
    assert!(ir.ends_with("  ret i32 %t5\n}\n\n"));
}

#[test]
fn codegen_calls_functions_with_parameter_slots() {
    let ir = compile("fn twice(n: i64) -> i64 { return n + n; } fn main() -> i32 { let y: i64 = twice(4 as i64); return 0; }")
        .expect("compiles");
    assert!(ir.contains("define i64 @twice(i64 %n) {\nentry:\n  %t0 = alloca  i64\n  store i64 %n, ptr %t0\n"));
    assert!(ir.contains("@llvm.sadd.with.overflow.i64(i64 %t"));
    assert!(ir.contains("sext i32 4 to i64"));
    assert!(ir.contains("call i64 @twice(i64 "));
}

#[test]
fn codegen_frees_owned_strings_at_scope_end() {
    let ir = compile("fn main() -> i32 { let s: String = string(\"hi\"); print(s); return 0; }").expect("compiles");
    assert!(ir.contains("@str0 = private unnamed_addr constant [3 x i8] c\"hi\\00\"\n"));
    assert!(ir.contains("call ptr @lexora_str_new(ptr @str0)"));
    assert!(ir.contains("call i32 (ptr, ...) @printf(ptr @.fmts, ptr "));
    assert!(ir.contains("do_drop"));
    assert!(ir.contains("call void @lexora_str_free(ptr "));
}

#[test]
fn codegen_defines_every_function_with_its_signature() {
    let ir = compile(
        "fn pick(a: i32, b: bool) -> i32 { if b { return a; } return 0; } fn show(x: i64) -> void { print(x); } fn main() -> i32 { show(1 as i64); return pick(3, true); }",
    )
    .expect("compiles");
    assert!(ir.contains("define i32 @pick(i32 %a, i1 %b) {\n"));
    assert!(ir.contains("define void @show(i64 %x) {\n"));
    assert!(ir.contains("define i32 @main() {\n"));
}

#[test]
fn codegen_reports_an_expression_without_a_type() {
    let mut parser = Parser::new(Lexer::new("fn main() -> i32 { return 1 + 2; }", 0));
    let program = parser.parse_program();
    assert!(parser.take_errors().is_empty());
    let interner = parser.interner;
    let types = std::collections::HashMap::new();
    let moves = std::collections::HashMap::new();
    let mut cg = CodeGen::new(IrBuilder::new(&interner), &types, &moves);
    match cg.gen_program(&program) {
        Err(e) => assert_eq!(e.to_string(), "ic derleyici hatasi (codegen): tip bilgisi yok"),
        Ok(_) => panic!("expected an error"),
    }
}

#[test]
fn codegen_picks_the_instruction_of_each_operator() {
    let ir = compile("fn main() -> i32 { let a: i32 = 7; let b: i32 = a - 2; let c: i32 = b * 3; let d: bool = c < a; return c; }")
        .expect("compiles");
    assert!(ir.contains("@llvm.ssub.with.overflow.i32(i32 %t"));
    assert!(ir.contains("@llvm.smul.with.overflow.i32(i32 %t"));
    assert!(ir.contains(" = icmp slt i32 %t"));
    assert!(!ir.contains("@llvm.sadd.with.overflow.i32(i32 %t"));
}
