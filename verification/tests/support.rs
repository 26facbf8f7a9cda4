use lexora::ast::Type;
use lexora::typing::types_match;
use lexora::diagnostic::{render, render_summary, to_diagnostic, Level, NoteKind};
use lexora::error::LexoraError;
use lexora::source_map::SourceMap;
use lexora::span::Span;
use lexora::suggest::{levenshtein, nearest};
use lexora::symbol::{Interner, Symbol};
use lexora::tables::SymbolTable;
use lexora::text::{push_i64, push_repeat, str_eq, u64_to_string};

#[test]
fn decimal_text_of_numbers() {
    assert_eq!(u64_to_string(0), "0");
    assert_eq!(u64_to_string(1234567890), "1234567890");
    let mut s = String::from("x=");
    push_i64(&mut s, -42);
    assert_eq!(s, "x=-42");
    let mut t = String::new();
    push_repeat(&mut t, '^', 3);
    assert_eq!(t, "^^^");
    assert!(str_eq("abc", "abc"));
    assert!(!str_eq("abc", "abd"));
}

#[test]
fn interner_gives_one_symbol_per_text() {
    let mut i = Interner::new();
    let a = i.intern("alpha");
    let b = i.intern("beta");
    let a2 = i.intern("alpha");
    assert_eq!(a, a2);
    assert_ne!(a, b);
    assert_eq!(a, Symbol(0));
    assert_eq!(b, Symbol(1));
    assert_eq!(i.resolve(b), "beta");
    assert_eq!(i.len(), 2);
}

#[test]
fn edit_distance_counts_characters() {
    assert_eq!(levenshtein("kitten", "sitting"), 3);
    assert_eq!(levenshtein("", "abc"), 3);
    assert_eq!(levenshtein("ğü", "gu"), 2);
    assert_eq!(levenshtein("same", "same"), 0);
}

#[test]
fn nearest_picks_closest_then_smallest() {
    assert_eq!(nearest("cout", &["count", "coat", "main"]), Some("coat".to_string()));
    assert_eq!(nearest("x", &["x"]), None);
    assert_eq!(nearest("abc", &["xyz"]), None);
    assert_eq!(nearest("counter", &["countr", "counter"]), Some("countr".to_string()));
}

#[test]
fn symbol_table_last_definition_wins() {
    let mut t: SymbolTable<i32> = SymbolTable::new();
    t.enter_scope();
    assert!(t.define(Symbol(1), 10));
    t.enter_scope();
    assert!(t.define(Symbol(1), 20));
    assert_eq!(t.lookup(Symbol(1)), Some(&20));
    t.exit_scope();
    assert_eq!(t.lookup(Symbol(1)), Some(&10));
    assert_eq!(t.lookup(Symbol(2)), None);
}

#[test]
fn span_merge_covers_both() {
    let a = Span::new(5, 9);
    let b = Span::new(2, 7);
    let m = a.merge(b);
    assert_eq!((m.start, m.end), (2, 9));
}

#[test]
fn error_texts() {
    let e = LexoraError::InvalidCast { from: "bool".into(), to: "i32".into(), span: Span::new(0, 1) };
    assert_eq!(e.to_string(), "Gecersiz cast: bool -> i32");
    assert_eq!(e.span().map(|s| s.end), Some(1));
    let c = LexoraError::Codegen { message: "x".into() };
    assert_eq!(c.to_string(), "ic derleyici hatasi (codegen): x");
    assert!(c.span().is_none());
}

const SRC: &str = "fn main() -> i32 {\n    return x;\n}\n";

#[test]
fn source_map_resolves_line_and_column() {
    let mut m = SourceMap::new();
    let base = m.add("a.lx".to_string(), SRC);
    assert_eq!(base, 0);
    let second = m.add("b.lx".to_string(), "x");
    assert_eq!(second, SRC.len() as u32 + 1);
    let r = m.resolve(Span::new(30, 31)).expect("resolves");
    assert_eq!(r.name, "a.lx");
    assert_eq!((r.line, r.col), (2, 12));
    assert_eq!(r.lines, vec![(2, "    return x;")]);
    assert_eq!((r.start_char, r.end_char), (11, 12));
    let r2 = m.resolve(Span::new(second, second + 1)).expect("resolves");
    assert_eq!(r2.name, "b.lx");
    assert_eq!(m.entry_name(), "a.lx");
}

#[test]
fn diagnostic_from_error() {
    let e = LexoraError::TypeMismatch { expected: "i32".into(), found: "bool".into(), span: Span::new(1, 2) };
    let d = to_diagnostic(&e);
    assert!(d.level == Level::Error);
    assert_eq!(d.message, "tip uyusmazligi: beklenen i32, bulunan bool");
    assert_eq!(d.label.as_deref(), Some("bu ifade `bool` tipinde"));
    assert_eq!(d.notes.len(), 1);
    assert!(d.notes[0].0 == NoteKind::Help);
    assert_eq!(d.notes[0].1, "beklenen tip: `i32`");
    assert_eq!(d.primary.map(|s| s.start), Some(1));
}

#[test]
fn render_single_line_span() {
    let mut m = SourceMap::new();
    m.add("a.lx".to_string(), SRC);
    let e = LexoraError::UndefinedVariable {
        name: "x".into(),
        suggestion: Some("y".into()),
        span: Span::new(30, 31),
    };
    let out = render(&m, &to_diagnostic(&e), false);
    assert_eq!(
        out,
        "error: tanimsiz degisken: x\n --> a.lx:2:12\n  |\n2 |     return x;\n  |            ^ bu kapsamda tanimli degil\n  |\n  = help: bunu mu demek istediniz: `y`?\n"
    );
}

#[test]
fn render_multi_line_span() {
    let mut m = SourceMap::new();
    m.add("a.lx".to_string(), SRC);
    let e = LexoraError::Custom { message: "m".into(), span: Span::new(17, 34) };
    let out = render(&m, &to_diagnostic(&e), false);
    assert_eq!(
        out,
        "error: m\n --> a.lx:1:18\n  |\n1 |   fn main() -> i32 {\n  | ___________________^\n2 | |     return x;\n3 | | }\n  | |_^\n"
    );
}

#[test]
fn render_without_location_and_colored() {
    let m = SourceMap::new();
    let e = LexoraError::Codegen { message: "boom".into() };
    assert_eq!(render(&m, &to_diagnostic(&e), false), "error: ic derleyici hatasi (codegen): boom\n");
    assert_eq!(
        render(&m, &to_diagnostic(&e), true),
        "\x1b[1m\x1b[31merror\x1b[0m\x1b[1m: ic derleyici hatasi (codegen): boom\x1b[0m\n"
    );
}

#[test]
fn summary_line() {
    assert_eq!(render_summary(3, false), "error: 3 hata yuzunden durduruldu\n");
    assert_eq!(
        render_summary(1, true),
        "\x1b[1m\x1b[31merror\x1b[0m\x1b[1m: 1 hata yuzunden durduruldu\x1b[0m\n"
    );
}

#[test]
fn levenshtein_is_symmetric_and_bounded_by_lengths() {
    let pairs = [("kitten", "sitting"), ("flaw", "lawn"), ("", "abc"), ("toplam", "topla")];
    for (a, b) in pairs.iter() {
        let d = levenshtein(a, b);
        assert_eq!(d, levenshtein(b, a));
        let (la, lb) = (a.chars().count(), b.chars().count());
        assert!(d >= la.max(lb) - la.min(lb));
        assert!(d <= la.max(lb));
        assert_eq!(d == 0, a == b);
    }
}

#[test]
fn types_match_is_equality_without_the_error_type() {
    let arr = |t: Type, n: usize| Type::Array(Box::new(t), n);
    assert!(types_match(&arr(Type::I32, 3), &arr(Type::I32, 3)));
    assert!(!types_match(&arr(Type::I32, 3), &arr(Type::I32, 4)));
    assert!(!types_match(&Type::I32, &Type::I64));
    assert!(types_match(&Type::Box(Box::new(Type::Bool)), &Type::Box(Box::new(Type::Bool))));
    assert!(types_match(&Type::Error, &Type::I64));
}
