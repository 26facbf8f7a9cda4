use lexora::ast::{Expr, Program, Stmt, Type};
use lexora::error::LexoraError;
use lexora::lexer::{Lexer, Token};
use lexora::move_check::{join_state, BindState, MoveChecker, MoveState};
use lexora::parser::{scan_declarations, Parser};
use lexora::symbol::Interner;
use lexora::typechecker::TypeChecker;

fn parse(src: &str) -> (Program<'_>, Interner, Vec<LexoraError>, u32) {
    let lexer = Lexer::new(src, 0);
    let mut parser = Parser::new(lexer);
    let program = parser.parse_program();
    let errors = parser.take_errors();
    let next = parser.next_expr_id;
    (program, parser.interner, errors, next)
}

fn all_tokens(src: &str) -> Vec<Token<'_>> {
    let mut lexer = Lexer::new(src, 0);
    let mut out = Vec::new();
    loop {
        let t = lexer.next_token().expect("lexes");
        let eof = matches!(t.token, Token::Eof);
        out.push(t.token);
        if eof {
            return out;
        }
    }
}

fn collect_ids(e: &Expr, out: &mut Vec<u32>) {
    match e {
        Expr::BinaryOp { left, right, .. } => {
            collect_ids(left, out);
            collect_ids(right, out);
        }
        Expr::UnaryOp { operand, .. } => collect_ids(operand, out),
        Expr::Call { args, .. } | Expr::ArrayLiteral(args, _, _) => {
            for a in args {
                collect_ids(a, out);
            }
        }
        Expr::Cast { expr, .. } => collect_ids(expr, out),
        Expr::Index { array, index, .. } => {
            collect_ids(array, out);
            collect_ids(index, out);
        }
        Expr::FieldAccess { object, .. } => collect_ids(object, out),
        Expr::StructLiteral { fields, .. } => {
            for (_, v) in fields {
                collect_ids(v, out);
            }
        }
        _ => {}
    }
    out.push(e.id());
}

#[test]
fn lexer_reads_keywords_operators_and_literals() {
    let toks = all_tokens("let x: i32 = 42 -> a..b != \"hi\" <= >=");
    assert!(matches!(toks[0], Token::Let));
    assert!(matches!(toks[1], Token::Identifier("x")));
    assert!(matches!(toks[2], Token::Colon));
    assert!(matches!(toks[3], Token::I32));
    assert!(matches!(toks[4], Token::Equals));
    assert!(matches!(toks[5], Token::Integer(42)));
    assert!(matches!(toks[6], Token::Arrow));
    assert!(matches!(toks[7], Token::Identifier("a")));
    assert!(matches!(toks[8], Token::DotDot));
    assert!(matches!(toks[9], Token::Identifier("b")));
    assert!(matches!(toks[10], Token::BangEquals));
    assert!(matches!(toks[11], Token::StringLiteral("hi")));
    assert!(matches!(toks[12], Token::LessEq));
    assert!(matches!(toks[13], Token::GreaterEq));
    assert!(matches!(toks[14], Token::Eof));
    assert_eq!(toks.len(), 15);
}

#[test]
fn lexer_spans_are_global_offsets() {
    let mut lexer = Lexer::new("  foo", 10);
    let t = lexer.next_token().expect("lexes");
    assert!(matches!(t.token, Token::Identifier("foo")));
    assert_eq!(t.span.start, 12);
    assert_eq!(t.span.end, 15);
}

#[test]
fn lexer_reports_unexpected_character() {
    let mut lexer = Lexer::new("@", 0);
    match lexer.next_token() {
        Err(e) => assert_eq!(e.to_string(), "Beklenmedik karakter: '@'"),
        Ok(_) => panic!("expected an error"),
    }
}

#[test]
fn lexer_reports_unterminated_string() {
    let mut lexer = Lexer::new("\"abc", 0);
    match lexer.next_token() {
        Err(e) => assert_eq!(e.to_string(), "Kapatilmamis string"),
        Ok(_) => panic!("expected an error"),
    }
}

#[test]
fn lexer_reports_an_overlong_literal_and_goes_on() {
    let mut lexer = Lexer::new("99999999999999999999 7", 0);
    match lexer.next_token() {
        Err(e) => assert_eq!(e.to_string(), "tamsayi literali i64 sinirini asiyor"),
        Ok(_) => panic!("expected an error"),
    }
    let t = lexer.next_token().expect("lexes");
    assert!(matches!(t.token, Token::Integer(7)));
    let mut lexer = Lexer::new("9223372036854775807", 0);
    let t = lexer.next_token().expect("lexes");
    assert!(matches!(t.token, Token::Integer(9223372036854775807)));
}

#[test]
fn lexer_recovers_after_a_bad_character() {
    let mut lexer = Lexer::new("@ b", 0);
    match lexer.next_token() {
        Err(LexoraError::Custom { message, span }) => {
            assert_eq!(message, "Beklenmedik karakter: '@'");
            assert_eq!((span.start, span.end), (0, 1));
        }
        other => panic!("unexpected result: {:?}", other),
    }
    let t = lexer.next_token().expect("lexes");
    assert!(matches!(t.token, Token::Identifier("b")));
    assert_eq!((t.span.start, t.span.end), (2, 3));
}

#[test]
fn lexer_skips_line_comments() {
    let mut lexer = Lexer::new("// c\n7", 0);
    let t = lexer.next_token().expect("lexes");
    assert!(matches!(t.token, Token::Integer(7)));
    assert_eq!((t.span.start, t.span.end), (5, 6));
    let mut lexer = Lexer::new("1 / 2 // done", 0);
    let toks: Vec<_> = (0..4).map(|_| lexer.next_token().expect("lexes").token).collect();
    assert!(matches!(toks[1], Token::Slash));
    assert!(matches!(toks[3], Token::Eof));
}

#[test]
fn parser_goes_on_after_a_lexical_error() {
    let (program, _, errors, _) = parse("fn main() -> i32 { let x: i32 = 1 @ ; return 0; } fn g() -> i32 { return 1; }");
    assert!(!errors.is_empty());
    assert_eq!(program.functions.len(), 2);
}

#[test]
fn parser_reads_a_function() {
    let src = "fn main() -> i32 { let x: i32 = 1 + 2 * 3; return x; }";
    let (program, interner, errors, _) = parse(src);
    assert!(errors.is_empty());
    assert_eq!(program.functions.len(), 1);
    let f = &program.functions[0];
    assert_eq!(interner.resolve(f.name), "main");
    assert_eq!(f.body.stmts.len(), 2);
    match &f.body.stmts[0] {
        Stmt::Let { ty: Some(Type::I32), value: Expr::BinaryOp { right, .. }, .. } => {
            assert!(matches!(**right, Expr::BinaryOp { .. }));
        }
        _ => panic!("expected a let with a sum"),
    }
    assert!(matches!(f.body.stmts[1], Stmt::Return(Expr::Identifier(..), _)));
}

#[test]
fn parser_gives_every_expression_its_own_id() {
    let src = "struct P { x: i32, y: i32 }\n\
               fn f(a: i32) -> i32 { return a * 2; }\n\
               fn main() -> i32 { let p: P = P { x: 1, y: f(2) }; let v: [i32; 3] = [1, 2, 3]; \
               if p.x < v[0] { return 1; } else { return (p.y + 4) as i32; } }";
    let (program, _, errors, next) = parse(src);
    assert!(errors.is_empty());
    assert_eq!(program.structs.len(), 1);
    assert_eq!(program.functions.len(), 2);
    let mut ids = Vec::new();
    for f in &program.functions {
        for s in &f.body.stmts {
            match s {
                Stmt::Let { value, .. } | Stmt::Return(value, _) | Stmt::Expr(value, _) => {
                    collect_ids(value, &mut ids)
                }
                _ => {}
            }
        }
    }
    let mut sorted = ids.clone();
    sorted.sort();
    sorted.dedup();
    assert_eq!(sorted.len(), ids.len());
    assert!(ids.iter().all(|i| *i < next));
}

#[test]
fn parser_recovers_and_reports_in_order() {
    let src = "fn main( -> i32 { }\nstruct 5 { }\nfn g() -> i32 { return 1; }";
    let (program, _, errors, _) = parse(src);
    assert_eq!(program.functions.len(), 1);
    let texts: Vec<String> = errors.iter().map(|e| e.to_string()).collect();
    assert_eq!(
        texts,
        vec![
            "beklenen: identifier, bulunan: Arrow".to_string(),
            "beklenen: struct, fn, enum, impl, import, bulunan: RightBrace".to_string(),
            "beklenen: identifier, bulunan: Integer(5)".to_string(),
            "beklenen: struct, fn, enum, impl, import, bulunan: RightBrace".to_string(),
        ]
    );
}

#[test]
fn parser_quotes_string_tokens_in_messages() {
    let src = "fn main() -> i32 { let \"a\" = 1; return 0; }";
    let (_, _, errors, _) = parse(src);
    assert_eq!(errors.len(), 1);
    assert_eq!(errors[0].to_string(), "beklenen: identifier, bulunan: StringLiteral(\"a\")");
}

#[test]
fn parser_keeps_lexer_error_last() {
    let src = "fn main() -> i32 { return ; } @";
    let (_, _, errors, _) = parse(src);
    assert_eq!(errors.len(), 2);
    assert_eq!(errors[0].to_string(), "beklenen: expression, bulunan: Semicolon");
    assert_eq!(errors[1].to_string(), "Beklenmedik karakter: '@'");
}

#[test]
fn parser_limits_nesting_depth() {
    let mut src = String::from("fn main() -> i32 { return ");
    for _ in 0..200 {
        src.push('(');
    }
    src.push('1');
    for _ in 0..200 {
        src.push(')');
    }
    src.push_str("; }");
    let (_, _, errors, _) = parse(&src);
    assert!(!errors.is_empty());
    assert_eq!(errors[0].to_string(), "ifade cok derin ic ice (sinir 128)");
}

#[test]
fn parser_rejects_bad_assignment_target() {
    let src = "fn main() -> i32 { 1 = 2; return 0; }";
    let (_, _, errors, _) = parse(src);
    assert_eq!(errors.len(), 1);
    assert_eq!(errors[0].to_string(), "gecersiz atama hedefi");
}

#[test]
fn parser_block_tail_and_if_else_chain() {
    let src = "fn main() -> i32 { if true { 1 } else if false { 2 } else { 3 } }";
    let (program, _, errors, _) = parse(src);
    assert!(errors.is_empty());
    let body = &program.functions[0].body;
    assert!(body.stmts.is_empty());
    match &body.tail {
        Some(t) => match &**t {
            Expr::If { else_body: Some(eb), .. } => {
                assert!(matches!(eb.tail.as_deref(), Some(Expr::If { .. })));
            }
            _ => panic!("expected if"),
        },
        None => panic!("expected a tail"),
    }
}

fn check(src: &str) -> Result<(), Vec<LexoraError>> {
    let (program, interner, errors, _) = parse(src);
    assert!(errors.is_empty(), "parse errors");
    let mut checker = TypeChecker::new(&interner);
    checker.check_program(&program)
}

#[test]
fn typechecker_accepts_a_simple_program() {
    let r = check("fn add(a: i32, b: i32) -> i32 { return a + b; } fn main() -> i32 { return add(1, 2); }");
    assert!(r.is_ok());
}

#[test]
fn typechecker_requires_main() {
    let r = check("fn f() -> i32 { return 1; }");
    let errs = r.expect_err("no main");
    assert!(errs
        .iter()
        .any(|e| e.to_string() == "'main' fonksiyonu bulunamadi; giris noktasi 'fn main() -> i32' olmali"));
}

#[test]
fn typechecker_reports_undefined_variable() {
    let r = check("fn main() -> i32 { let counter: i32 = 1; return countr; }");
    let errs = r.expect_err("undefined");
    match &errs[0] {
        LexoraError::UndefinedVariable { name, suggestion, .. } => {
            assert_eq!(name, "countr");
            assert_eq!(suggestion.as_deref(), Some("counter"));
        }
        other => panic!("unexpected {:?}", other),
    }
}

#[test]
fn typechecker_reports_type_mismatch() {
    let r = check("fn main() -> i32 { let b: bool = 1; return 0; }");
    let errs = r.expect_err("mismatch");
    assert!(matches!(errs[0], LexoraError::TypeMismatch { .. }));
}

#[test]
fn typechecker_reports_duplicate_function() {
    let r = check("fn main() -> i32 { return 0; } fn main() -> i32 { return 1; }");
    assert!(r.is_err());
}

fn move_errors(src: &str) -> Vec<String> {
    let (program, interner, errors, _) = parse(src);
    assert!(errors.is_empty());
    let mut checker = TypeChecker::new(&interner);
    assert!(checker.check_program(&program).is_ok());
    let (_, errs) = MoveChecker::new(&checker.types, &interner).check(&program);
    errs.iter().map(|e| e.to_string()).collect()
}

#[test]
fn move_checker_reports_use_after_move() {
    let errs = move_errors(
        "fn main() -> i32 { let s: String = string(\"a\"); let t: String = s; let u: String = s; return 0; }",
    );
    assert_eq!(errs, vec!["tasinmis deger tekrar kullanildi".to_string()]);
}

#[test]
fn move_checker_accepts_single_move() {
    let errs = move_errors(
        "fn main() -> i32 { let s: String = string(\"a\"); let t: String = s; return 0; }",
    );
    assert!(errs.is_empty());
}

#[test]
fn typechecker_records_a_type_for_every_expression() {
    let src = "fn main() -> i32 { let x: i32 = (1 + 2) * 3; let y: bool = -x < 10; return x; }";
    let (program, interner, errors, _) = parse(src);
    assert!(errors.is_empty());
    let mut checker = TypeChecker::new(&interner);
    assert!(checker.check_program(&program).is_ok());
    let mut ids = Vec::new();
    for stmt in program.functions[0].body.stmts.iter() {
        match stmt {
            Stmt::Let { value, .. } => collect_ids(value, &mut ids),
            Stmt::Return(e, _) => collect_ids(e, &mut ids),
            _ => panic!("unexpected statement"),
        }
    }
    assert_eq!(ids.len(), 10);
    for id in ids {
        assert!(checker.types.contains_key(&id), "no type for expression {}", id);
    }
}

fn stmt_has_placeholder(s: &Stmt) -> bool {
    match s {
        Stmt::Error(_) => true,
        Stmt::Let { value, .. } | Stmt::Return(value, _) | Stmt::Expr(value, _) | Stmt::Assign { value, .. } => {
            matches!(value, Expr::Error(..))
        }
        _ => false,
    }
}

#[test]
fn parser_recovers_with_placeholders_only_after_errors() {
    let (program, _, errors, _) = parse("fn main() -> i32 { let x: i32 = ; return x; }");
    assert!(!errors.is_empty());
    assert!(program.functions[0].body.stmts.iter().any(stmt_has_placeholder));

    let (program, _, errors, _) = parse("fn main() -> i32 { let x: i32 = 1; x = x + 2; return x; }");
    assert!(errors.is_empty());
    assert!(!program.functions[0].body.stmts.iter().any(stmt_has_placeholder));
}

#[test]
fn move_checker_reports_move_in_one_branch() {
    let errs = move_errors(
        "fn main() -> i32 { let s: String = string(\"a\"); if true { let t: String = s; } let u: String = s; return 0; }",
    );
    assert_eq!(errs, vec!["kosullu tasinmis olabilecek deger kullanildi".to_string()]);
}

#[test]
fn move_checker_rejects_move_out_of_loop() {
    let errs = move_errors(
        "fn main() -> i32 { let s: String = string(\"a\"); while true { let t: String = s; } return 0; }",
    );
    assert_eq!(errs, vec!["dongu govdesinde owning deger disari tasinamaz".to_string()]);
}

#[test]
fn move_checker_lets_copies_be_used_twice() {
    let errs = move_errors("fn main() -> i32 { let a: i32 = 1; let b: i32 = a; let c: i32 = a; return b + c; }");
    assert!(errs.is_empty());
}

#[test]
fn typechecker_reports_undefined_function_with_suggestion() {
    let r = check("fn helper() -> i32 { return 1; } fn main() -> i32 { return helpr(); }");
    let errs = r.expect_err("undefined function");
    match &errs[0] {
        LexoraError::UndefinedFunction { name, suggestion, .. } => {
            assert_eq!(name, "helpr");
            assert_eq!(suggestion.as_deref(), Some("helper"));
        }
        other => panic!("unexpected {:?}", other),
    }
}

#[test]
fn typechecker_reports_invalid_cast() {
    let r = check("fn main() -> i32 { let b: bool = true; let x: i32 = b as i32; return x; }");
    let errs = r.expect_err("invalid cast");
    assert!(matches!(errs[0], LexoraError::InvalidCast { .. }));
    assert_eq!(errs[0].to_string(), "Gecersiz cast: bool -> i32");
}

#[test]
fn typechecker_reports_redefinition_in_one_scope() {
    let r = check("fn main() -> i32 { let x: i32 = 1; let x: i32 = 2; return x; }");
    let errs = r.expect_err("redefinition");
    assert!(matches!(errs[0], LexoraError::AlreadyDefined { .. }));
    assert_eq!(errs[0].to_string(), "Zaten tan\u{131}mli 'x'");
}

#[test]
fn typechecker_widens_large_literals_to_i64() {
    assert!(check("fn main() -> i32 { let big: i64 = 3000000000; return 0; }").is_ok());
    assert!(check("fn main() -> i32 { let small: i64 = 3; return 0; }").is_err());
}

fn states_of(b: &BindState) -> Vec<MoveState> {
    match b {
        BindState::Owning { states, .. } => states.clone(),
        BindState::Copy => Vec::new(),
    }
}

#[test]
fn join_of_branch_states() {
    let a = BindState::Owning {
        paths: vec![vec![0], vec![1]],
        states: vec![MoveState::Owned, MoveState::Moved],
    };
    let b = BindState::Owning {
        paths: vec![vec![0], vec![1]],
        states: vec![MoveState::Moved, MoveState::Moved],
    };
    let ab = join_state(&a, &b);
    let ba = join_state(&b, &a);
    assert_eq!(states_of(&ab), vec![MoveState::MaybeMoved, MoveState::Moved]);
    assert_eq!(states_of(&ab), states_of(&ba));
    let aa = join_state(&a, &a);
    assert_eq!(states_of(&aa), states_of(&a));
}

#[test]
fn typechecker_types_operators_from_their_operands() {
    let src = "fn main() -> i32 { let a: i64 = 5 as i64; let b: bool = a < 7 as i64; let c: i64 = a + a; return 0; }";
    let (program, interner, errors, _) = parse(src);
    assert!(errors.is_empty());
    let mut checker = TypeChecker::new(&interner);
    assert!(checker.check_program(&program).is_ok());
    let value = |k: usize| match &program.functions[0].body.stmts[k] {
        Stmt::Let { value, .. } => value,
        _ => panic!("unexpected statement"),
    };
    match value(0) {
        Expr::Cast { expr, id, .. } => {
            assert_eq!(checker.types[&expr.id()], Type::I32);
            assert_eq!(checker.types[id], Type::I64);
        }
        _ => panic!("expected a cast"),
    }
    match value(1) {
        Expr::BinaryOp { left, right, id, .. } => {
            assert_eq!(checker.types[&left.id()], Type::I64);
            assert_eq!(checker.types[&right.id()], Type::I64);
            assert_eq!(checker.types[id], Type::Bool);
        }
        _ => panic!("expected a comparison"),
    }
    match value(2) {
        Expr::BinaryOp { id, .. } => assert_eq!(checker.types[id], Type::I64),
        _ => panic!("expected an addition"),
    }
}

#[test]
fn parser_reads_a_lone_literal_as_that_literal() {
    let mut parser = Parser::new(Lexer::new("42;", 0));
    match parser.parse_expr() {
        Ok(Expr::Integer(n, _, _)) => assert_eq!(n, 42),
        other => panic!("unexpected result: {:?}", other),
    }
    let mut parser = Parser::new(Lexer::new("\"hi\")", 0));
    match parser.parse_expr() {
        Ok(Expr::StringLiteral(s, _, _)) => assert_eq!(s, "hi"),
        other => panic!("unexpected result: {:?}", other),
    }
}

#[test]
fn typechecker_reports_an_enum_field_of_struct_type() {
    let (mut program, mut interner, errors, _) = parse("struct P { x: i32 } fn main() -> i32 { return 0; }");
    assert!(errors.is_empty());
    let e = interner.intern("E");
    let v = interner.intern("V");
    let p = program.structs[0].name;
    program.enums.push(lexora::ast::EnumDef {
        name: e,
        params: Vec::new(),
        variants: vec![(v, vec![Type::Struct(p)])],
        span: program.structs[0].span,
    });
    let mut checker = TypeChecker::new(&interner);
    assert!(checker.check_program(&program).is_err());
}

fn check_source(source: &str) -> Result<(), String> {
    let (program, interner, errors, _) = parse(source);
    if let Some(e) = errors.first() {
        return Err(e.to_string());
    }
    let mut checker = TypeChecker::new(&interner);
    checker
        .check_program(&program)
        .map_err(|v| v.iter().map(|e| e.to_string()).collect::<Vec<_>>().join("\n"))
}

#[test]
fn test_arithmetic() {
    let src = "// arithmetic\nfn add(a: i32, b: i32) -> i32 { return a + b; }\nfn main() -> i32 {\n    let x: i32 = 10;\n    let y: i32 = add(x, 5) * 2 - 3 / 1;\n    let z: i64 = y as i64 + 1 as i64;\n    print(y);\n    return -y;\n}\n";
    assert!(check_source(src).is_ok(), "{:?}", check_source(src));
}

#[test]
fn test_structs() {
    let src = "struct Point { x: i32, y: i32 }\nfn norm1(p: Point) -> i32 { return p.x + p.y; }\nfn main() -> i32 {\n    let p: Point = Point { x: 1, y: 2 };\n    p.x = 3;\n    return norm1(p);\n}\n";
    assert!(check_source(src).is_ok(), "{:?}", check_source(src));
}

#[test]
fn test_loops() {
    let src = "fn main() -> i32 {\n    let total: i32 = 0;\n    for i in 0..10 { total = total + i; }\n    let n: i32 = 0;\n    while n < 5 { n = n + 1; }\n    return total + n;\n}\n";
    assert!(check_source(src).is_ok(), "{:?}", check_source(src));
}

#[test]
fn test_type_error() {
    let result = check_source("fn main() -> i32 { let x: i32 = true; return x; }");
    assert!(result.is_err());
    assert!(result.unwrap_err().contains("beklenen"));
}

#[test]
fn parser_reads_enums_and_match() {
    let src = "enum Shape { Circle(i32), Rect(i32, i32), Empty }\nenum Option<T> { Some(T), None }\nfn area(s: Shape) -> i32 {\n    return match s { Shape::Circle(r) => r * r * 3, Shape::Rect(w, h) => { w * h }, _ => 0 };\n}\nfn main() -> i32 { let o: Option<i32> = Option::Some(1); return area(Shape::Rect(2, 3)); }\n";
    let (program, interner, errors, _) = parse(src);
    assert!(errors.is_empty(), "{:?}", errors);
    assert_eq!(program.enums.len(), 2);
    assert_eq!(program.enums[0].variants.len(), 3);
    assert_eq!(program.enums[1].params.len(), 1);
    assert!(matches!(program.enums[1].variants[0].1[0], Type::Param(_)));
    match &program.functions[0].body.stmts[0] {
        Stmt::Return(Expr::Match { arms, .. }, _) => assert_eq!(arms.len(), 3),
        other => panic!("unexpected statement: {:?}", other),
    }
    let mut checker = TypeChecker::new(&interner);
    assert!(checker.check_program(&program).is_ok());
}

#[test]
fn typechecker_reports_a_non_exhaustive_match() {
    let src = "enum Color { Red, Green, Blue }\nfn f(c: Color) -> i32 { return match c { Color::Red => 1, Color::Green => 2 }; }\nfn main() -> i32 { return f(Color::Blue); }\n";
    let (program, interner, errors, _) = parse(src);
    assert!(errors.is_empty(), "{:?}", errors);
    let mut checker = TypeChecker::new(&interner);
    let errs = checker.check_program(&program).unwrap_err();
    assert!(errs.iter().any(|e| e.to_string().contains("eksik match")));
}

fn checker_errors(src: &str) -> Vec<LexoraError> {
    let (program, interner, errors, _) = parse(src);
    assert!(errors.is_empty(), "{:?}", errors);
    let mut checker = TypeChecker::new(&interner);
    match checker.check_program(&program) {
        Ok(()) => Vec::new(),
        Err(v) => v,
    }
}

#[test]
fn typechecker_reports_a_missing_main() {
    let errs = checker_errors("fn helper() -> i32 { return 1; }");
    assert!(errs.iter().any(|e| matches!(e, LexoraError::Custom { message, span }
        if message == "'main' fonksiyonu bulunamadi; giris noktasi 'fn main() -> i32' olmali"
            && span.start == 0 && span.end == 0)), "{:?}", errs);
}

#[test]
fn typechecker_reports_a_main_with_the_wrong_signature() {
    let errs = checker_errors("fn main(x: i32) -> i32 { return x; }");
    assert!(errs.iter().any(|e| matches!(e, LexoraError::Custom { message, .. }
        if message == "'main' imzasi 'fn main() -> i32' olmali")), "{:?}", errs);
}

#[test]
fn typechecker_rejects_an_invalid_cast() {
    let errs = checker_errors("fn main() -> i32 { let b: bool = true; let y: i64 = b as i64; return 0; }");
    assert_eq!(errs.len(), 1, "{:?}", errs);
    assert!(matches!(&errs[0], LexoraError::InvalidCast { from, to, .. } if from == "bool" && to == "i64"), "{:?}", errs);
}

#[test]
fn typechecker_rejects_adding_two_str_literals() {
    let errs = checker_errors("fn main() -> i32 { let s = \"a\" + \"b\"; return 0; }");
    assert_eq!(errs.len(), 1, "{:?}", errs);
    assert!(matches!(&errs[0], LexoraError::Custom { message, .. }
        if message == "iki str sabiti '+' ile birlestirilemez; once string() ile String'e cevirin"), "{:?}", errs);
}

#[test]
fn typechecker_adds_no_error_after_a_poisoned_operand() {
    let errs = checker_errors("fn main() -> i32 { let y: i32 = missing + 1; return 0; }");
    assert_eq!(errs.len(), 1, "{:?}", errs);
    assert!(matches!(&errs[0], LexoraError::UndefinedVariable { name, .. } if name == "missing"), "{:?}", errs);
}

#[test]
fn typechecker_reports_a_let_mismatch() {
    let errs = checker_errors("fn main() -> i32 { let x: i64 = true; return 0; }");
    assert_eq!(errs.len(), 1, "{:?}", errs);
    assert!(matches!(&errs[0], LexoraError::TypeMismatch { expected, found, .. } if expected == "i64" && found == "bool"), "{:?}", errs);
}

#[test]
fn parser_keeps_one_item_per_item_read() {
    let (program, _, errors, _) = parse("struct P { x: i32 }\nenum E { A, B }\nfn main() -> i32 { return 0; }\nfn g() -> i32 { return 1; }\n");
    assert!(errors.is_empty(), "{:?}", errors);
    assert_eq!(program.structs.len(), 1);
    assert_eq!(program.enums.len(), 1);
    assert_eq!(program.functions.len(), 2);
}

#[test]
fn typechecker_reports_a_function_defined_twice() {
    let errs = checker_errors("fn f() -> i32 { return 1; }\nfn f() -> i32 { return 2; }\nfn main() -> i32 { return 0; }");
    assert!(errs.iter().any(|e| matches!(e, LexoraError::AlreadyDefined { name, span } if name == "f" && span.start > 0)), "{:?}", errs);
}

#[test]
fn scanner_finds_enum_names_and_imports_before_parsing() {
    let src = "import \"shapes.lx\";\nenum Color { Red, Green }\nfn f(c: Color) -> i32 { return 0; }\nenum Shape { Dot }\n@";
    let mut lexer = Lexer::new(src, 0);
    let mut interner = Interner::new();
    let (names, imports) = scan_declarations(&mut lexer, &mut interner);
    let texts: Vec<&str> = names.iter().map(|s| interner.resolve(*s)).collect();
    assert_eq!(texts, vec!["Color", "Shape"]);
    assert_eq!(imports, vec!["shapes.lx"]);
}

#[test]
fn typechecker_reports_a_type_declared_twice() {
    let errs = checker_errors("struct P { x: i32 }\nenum P { A }\nfn main() -> i32 { return 0; }");
    assert!(errs.iter().any(|e| matches!(e, LexoraError::AlreadyDefined { name, span } if name == "P" && span.start > 0)), "{:?}", errs);
}

#[test]
fn typechecker_reports_a_function_named_like_a_builtin() {
    let errs = checker_errors("fn len(x: i32) -> i32 { return x; }\nfn main() -> i32 { return 0; }");
    assert!(errs.iter().any(|e| matches!(e, LexoraError::Custom { message, .. }
        if message == "'len' yerlesik bir fonksiyon; ayni isimde tanim yapilamaz")), "{:?}", errs);
}

#[test]
fn typechecker_reports_a_struct_that_holds_itself() {
    let errs = checker_errors("struct N { v: i32, next: [N; 2] }\nfn main() -> i32 { return 0; }");
    assert!(errs.iter().any(|e| matches!(e, LexoraError::Custom { message, .. }
        if message == "'N.next' alani struct'i kendine dahil ediyor (sonsuz boyut); dolayim icin Box<N> kullanin")), "{:?}", errs);
}

#[test]
fn typechecker_goes_on_past_the_first_error() {
    let errs = checker_errors("fn f() -> i32 { let a: bool = 1; return 0; }\nfn main() -> i32 { let b: i32 = \"s\"; return 0; }");
    assert!(errs.iter().any(|e| matches!(e, LexoraError::TypeMismatch { expected, found, .. } if expected == "bool" && found == "i32")), "{:?}", errs);
    assert!(errs.iter().any(|e| matches!(e, LexoraError::TypeMismatch { expected, found, .. } if expected == "i32" && found == "str")), "{:?}", errs);
}

#[test]
fn move_checker_reports_a_parameter_moved_twice() {
    let errs = move_errors(
        "fn take(s: String) -> i32 { let a: String = s; let b: String = s; return 0; }\nfn main() -> i32 { return take(string(\"x\")); }",
    );
    assert_eq!(errs, vec!["tasinmis deger tekrar kullanildi".to_string()]);
}
