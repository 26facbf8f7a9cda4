use vstd::prelude::*;
use crate::ast::{Expr, Stmt, Block, Function, StructDef, EnumDef, Program, Pattern, Type, TypeV, ExprId, BinaryOperator, UnaryOperator};
use crate::error::LexoraError;
use crate::lexer::{Lexer, SpannedToken, Token, skip_ws, lemma_next_token_progress};
use crate::span::Span;
use crate::symbol::{Interner, Symbol};
use crate::text::{push_str, push_i64, to_string, str_eq, dec_int};
use crate::typechecker::contains_sym;

verus! {

/// How deeply expressions, blocks and types may nest.
pub const MAX_EXPR_DEPTH: u32 = 128;

// ---------------------------------------------------------------------------
// The expression ids of a tree, in the order the parser hands them out:
// children first, then the node itself.
// ---------------------------------------------------------------------------
pub open spec fn expr_ids<'a>(e: &Expr<'a>) -> Seq<ExprId>
    decreases e, 0nat,
{
    match e {
        Expr::Integer(_, _, id) => seq![*id],
        Expr::Bool(_, _, id) => seq![*id],
        Expr::StringLiteral(_, _, id) => seq![*id],
        Expr::Identifier(_, _, id) => seq![*id],
        Expr::Error(_, id) => seq![*id],
        Expr::BinaryOp { left, right, id, .. } => expr_ids(&**left) + expr_ids(&**right) + seq![*id],
        Expr::UnaryOp { operand, id, .. } => expr_ids(&**operand) + seq![*id],
        Expr::Call { args, id, .. } => exprs_ids(args@) + seq![*id],
        Expr::Cast { expr, id, .. } => expr_ids(&**expr) + seq![*id],
        Expr::ArrayLiteral(elems, _, id) => exprs_ids(elems@) + seq![*id],
        Expr::Index { array, index, id, .. } => expr_ids(&**array) + expr_ids(&**index) + seq![*id],
        Expr::StructLiteral { fields, id, .. } => fields_ids(fields@) + seq![*id],
        Expr::FieldAccess { object, id, .. } => expr_ids(&**object) + seq![*id],
        Expr::Box { value, id, .. } => expr_ids(&**value) + seq![*id],
        Expr::Deref { target, id, .. } => expr_ids(&**target) + seq![*id],
        Expr::Try { expr, id, .. } => expr_ids(&**expr) + seq![*id],
        Expr::EnumVariant { args, id, .. } => exprs_ids(args@) + seq![*id],
        Expr::Match { scrutinee, arms, id, .. } => expr_ids(&**scrutinee) + arms_ids(arms@) + seq![*id],
        Expr::If { condition, then_body, else_body, id, .. } => expr_ids(&**condition) + block_ids(
            &**then_body,
        ) + match else_body {
            Some(b) => block_ids(&**b),
            None => Seq::empty(),
        } + seq![*id],
    }
}

pub open spec fn exprs_ids<'a>(es: Seq<Expr<'a>>) -> Seq<ExprId>
    decreases es, 0nat,
{
    if es.len() == 0 {
        Seq::empty()
    } else {
        exprs_ids(es.drop_last()) + expr_ids(&es.last())
    }
}

pub open spec fn fields_ids<'a>(fs: Seq<(Symbol, Expr<'a>)>) -> Seq<ExprId>
    decreases fs, 0nat,
{
    if fs.len() == 0 {
        Seq::empty()
    } else {
        fields_ids(fs.drop_last()) + expr_ids(&fs.last().1)
    }
}

pub open spec fn arms_ids<'a>(arms: Seq<(Pattern, Block<'a>)>) -> Seq<ExprId>
    decreases arms, 0nat,
{
    if arms.len() == 0 {
        Seq::empty()
    } else {
        arms_ids(arms.drop_last()) + block_ids(&arms.last().1)
    }
}

pub open spec fn block_ids<'a>(b: &Block<'a>) -> Seq<ExprId>
    decreases b, 0nat,
{
    stmts_ids(b.stmts@) + match b.tail {
        Some(t) => expr_ids(&*t),
        None => Seq::empty(),
    }
}

pub open spec fn stmts_ids<'a>(ss: Seq<Stmt<'a>>) -> Seq<ExprId>
    decreases ss, 0nat,
{
    if ss.len() == 0 {
        Seq::empty()
    } else {
        stmts_ids(ss.drop_last()) + stmt_ids(&ss.last())
    }
}

pub open spec fn stmt_ids<'a>(s: &Stmt<'a>) -> Seq<ExprId>
    decreases s, 0nat,
{
    match s {
        Stmt::Let { value, .. } => expr_ids(value),
        Stmt::Return(e, _) => expr_ids(e),
        Stmt::Expr(e, _) => expr_ids(e),
        Stmt::Assign { value, .. } => expr_ids(value),
        Stmt::While { condition, body, .. } => expr_ids(condition) + block_ids(body),
        Stmt::For { from, to, body, .. } => expr_ids(from) + expr_ids(to) + block_ids(body),
        Stmt::AssignPlace { target, value, .. } => expr_ids(target) + expr_ids(value),
        Stmt::Error(_) => Seq::empty(),
    }
}

pub open spec fn functions_ids<'a>(fs: Seq<Function<'a>>) -> Seq<ExprId>
    decreases fs.len(),
{
    if fs.len() == 0 {
        Seq::empty()
    } else {
        functions_ids(fs.drop_last()) + block_ids(&fs.last().body)
    }
}

// ---------------------------------------------------------------------------
// Trees without the placeholders that stand where a parse error was.
// ---------------------------------------------------------------------------
pub open spec fn clean_expr<'a>(e: &Expr<'a>) -> bool
    decreases e, 0nat,
{
    match e {
        Expr::Error(..) => false,
        Expr::BinaryOp { left, right, .. } => clean_expr(&**left) && clean_expr(&**right),
        Expr::UnaryOp { operand, .. } => clean_expr(&**operand),
        Expr::Call { args, .. } => clean_exprs(args@),
        Expr::Cast { expr, .. } => clean_expr(&**expr),
        Expr::ArrayLiteral(elems, _, _) => clean_exprs(elems@),
        Expr::Index { array, index, .. } => clean_expr(&**array) && clean_expr(&**index),
        Expr::StructLiteral { fields, .. } => clean_fields(fields@),
        Expr::FieldAccess { object, .. } => clean_expr(&**object),
        Expr::Box { value, .. } => clean_expr(&**value),
        Expr::Deref { target, .. } => clean_expr(&**target),
        Expr::Try { expr, .. } => clean_expr(&**expr),
        Expr::EnumVariant { args, .. } => clean_exprs(args@),
        Expr::Match { scrutinee, arms, .. } => clean_expr(&**scrutinee) && clean_arms(arms@),
        Expr::If { condition, then_body, else_body, .. } => clean_expr(&**condition) && clean_block(&**then_body)
            && match else_body {
            Some(b) => clean_block(&**b),
            None => true,
        },
        _ => true,
    }
}

pub open spec fn clean_exprs<'a>(es: Seq<Expr<'a>>) -> bool
    decreases es, 0nat,
{
    if es.len() == 0 {
        true
    } else {
        clean_exprs(es.drop_last()) && clean_expr(&es.last())
    }
}

pub open spec fn clean_fields<'a>(fs: Seq<(Symbol, Expr<'a>)>) -> bool
    decreases fs, 0nat,
{
    if fs.len() == 0 {
        true
    } else {
        clean_fields(fs.drop_last()) && clean_expr(&fs.last().1)
    }
}

pub open spec fn clean_arms<'a>(arms: Seq<(Pattern, Block<'a>)>) -> bool
    decreases arms, 0nat,
{
    if arms.len() == 0 {
        true
    } else {
        clean_arms(arms.drop_last()) && clean_block(&arms.last().1)
    }
}

pub open spec fn clean_block<'a>(b: &Block<'a>) -> bool
    decreases b, 0nat,
{
    clean_stmts(b.stmts@) && match b.tail {
        Some(t) => clean_expr(&*t),
        None => true,
    }
}

pub open spec fn clean_stmts<'a>(ss: Seq<Stmt<'a>>) -> bool
    decreases ss, 0nat,
{
    if ss.len() == 0 {
        true
    } else {
        clean_stmts(ss.drop_last()) && clean_stmt(&ss.last())
    }
}

pub open spec fn clean_stmt<'a>(s: &Stmt<'a>) -> bool
    decreases s, 0nat,
{
    match s {
        Stmt::Let { value, .. } => clean_expr(value),
        Stmt::Return(e, _) => clean_expr(e),
        Stmt::Expr(e, _) => clean_expr(e),
        Stmt::Assign { value, .. } => clean_expr(value),
        Stmt::While { condition, body, .. } => clean_expr(condition) && clean_block(body),
        Stmt::For { from, to, body, .. } => clean_expr(from) && clean_expr(to) && clean_block(body),
        Stmt::AssignPlace { target, value, .. } => clean_expr(target) && clean_expr(value),
        Stmt::Error(_) => false,
    }
}

pub open spec fn clean_functions<'a>(fs: Seq<Function<'a>>) -> bool
    decreases fs.len(),
{
    if fs.len() == 0 {
        true
    } else {
        clean_functions(fs.drop_last()) && clean_block(&fs.last().body)
    }
}

pub(crate) proof fn lemma_clean_exprs_elem<'a>(es: Seq<Expr<'a>>, i: int)
    requires
        clean_exprs(es),
        0 <= i < es.len(),
    ensures
        clean_expr(&es[i]),
    decreases es.len(),
{
    if i < es.len() - 1 {
        lemma_clean_exprs_elem(es.drop_last(), i);
    }
}

pub(crate) proof fn lemma_clean_fields_elem<'a>(fs: Seq<(Symbol, Expr<'a>)>, i: int)
    requires
        clean_fields(fs),
        0 <= i < fs.len(),
    ensures
        clean_expr(&fs[i].1),
    decreases fs.len(),
{
    if i < fs.len() - 1 {
        lemma_clean_fields_elem(fs.drop_last(), i);
    }
}

pub(crate) proof fn lemma_clean_stmts_elem<'a>(ss: Seq<Stmt<'a>>, i: int)
    requires
        clean_stmts(ss),
        0 <= i < ss.len(),
    ensures
        clean_stmt(&ss[i]),
    decreases ss.len(),
{
    if i < ss.len() - 1 {
        lemma_clean_stmts_elem(ss.drop_last(), i);
    }
}

pub(crate) proof fn lemma_clean_functions_elem<'a>(fs: Seq<Function<'a>>, i: int)
    requires
        clean_functions(fs),
        0 <= i < fs.len(),
    ensures
        clean_block(&fs[i].body),
    decreases fs.len(),
{
    if i < fs.len() - 1 {
        lemma_clean_functions_elem(fs.drop_last(), i);
    }
}

/// No function of the program holds a parse-error placeholder.
pub open spec fn clean_program<'a>(p: &Program<'a>) -> bool {
    clean_functions(p.functions@)
}

/// Every id of `s` lies in `[lo, hi)`, and the ids strictly increase.
pub open spec fn ids_in(s: Seq<ExprId>, lo: int, hi: int) -> bool {
    &&& forall|i: int| 0 <= i < s.len() ==> lo <= #[trigger] s[i] < hi
    &&& forall|i: int, j: int| 0 <= i < j < s.len() ==> #[trigger] s[i] < #[trigger] s[j]
}

pub proof fn lemma_ids_cat(a: Seq<ExprId>, b: Seq<ExprId>, lo: int, mid: int, hi: int)
    requires
        ids_in(a, lo, mid),
        ids_in(b, mid, hi),
        lo <= mid <= hi,
    ensures
        ids_in(a + b, lo, hi),
{
    let c = a + b;
    assert forall|i: int, j: int| 0 <= i < j < c.len() implies #[trigger] c[i] < #[trigger] c[j] by {
        if j < a.len() {
            assert(c[i] == a[i] && c[j] == a[j]);
        } else if i >= a.len() {
            assert(c[i] == b[i - a.len()] && c[j] == b[j - a.len()]);
        } else {
            assert(c[i] == a[i] && c[j] == b[j - a.len()]);
        }
    }
    assert forall|i: int| 0 <= i < c.len() implies lo <= #[trigger] c[i] < hi by {
        if i < a.len() {
            assert(c[i] == a[i]);
        } else {
            assert(c[i] == b[i - a.len()]);
        }
    }
}

/// A node made after its children: the children's ids in `[lo, id)`, then `id`.
pub proof fn lemma_ids_node(a: Seq<ExprId>, id: ExprId, lo: int)
    requires
        ids_in(a, lo, id as int),
        lo <= id,
    ensures
        ids_in(a + seq![id], lo, id + 1),
{
    lemma_ids_cat(a, seq![id], lo, id as int, id + 1);
}

/// Ids that strictly increase are pairwise distinct.
pub proof fn lemma_ids_distinct(s: Seq<ExprId>, lo: int, hi: int)
    requires
        ids_in(s, lo, hi),
    ensures
        s.no_duplicates(),
{
    assert forall|i: int, j: int| 0 <= i < s.len() && 0 <= j < s.len() && i != j implies s[i] != s[j] by {
        if i < j {
            assert(s[i] < s[j]);
        } else {
            assert(s[j] < s[i]);
        }
    }
}

// ---------------------------------------------------------------------------
// Tokens
// ---------------------------------------------------------------------------
/// `format!("{:?}", s)` on a string slice: the text quoted, with std's escapes.
pub uninterp spec fn str_debug(s: Seq<char>) -> Seq<char>;

/// The text quoted and escaped as std's `Debug` does for `str`.
#[verifier::external_body]
fn debug_str(s: &str) -> (r: String)
    ensures
        r@ == str_debug(s@),
{
    format!("{:?}", s)
}

/// How a token prints in messages: its variant name, with the payload of a
/// literal or identifier in brackets.
pub open spec fn token_text(t: Token) -> Seq<char> {
    match t {
        Token::Integer(n) => "Integer("@ + dec_int(n as int) + ")"@,
        Token::Identifier(s) => "Identifier("@ + str_debug(s@) + ")"@,
        Token::StringLiteral(s) => "StringLiteral("@ + str_debug(s@) + ")"@,
        Token::Let => "Let"@,
        Token::Fn => "Fn"@,
        Token::Return => "Return"@,
        Token::If => "If"@,
        Token::Else => "Else"@,
        Token::True => "True"@,
        Token::False => "False"@,
        Token::While => "While"@,
        Token::For => "For"@,
        Token::In => "In"@,
        Token::And => "And"@,
        Token::Or => "Or"@,
        Token::Not => "Not"@,
        Token::As => "As"@,
        Token::Import => "Import"@,
        Token::Struct => "Struct"@,
        Token::Enum => "Enum"@,
        Token::Match => "Match"@,
        Token::I32 => "I32"@,
        Token::I64 => "I64"@,
        Token::Bool => "Bool"@,
        Token::Void => "Void"@,
        Token::Str => "Str"@,
        Token::Plus => "Plus"@,
        Token::Minus => "Minus"@,
        Token::Star => "Star"@,
        Token::Slash => "Slash"@,
        Token::Equals => "Equals"@,
        Token::EqualsEquals => "EqualsEquals"@,
        Token::Bang => "Bang"@,
        Token::BangEquals => "BangEquals"@,
        Token::Less => "Less"@,
        Token::Greater => "Greater"@,
        Token::LessEq => "LessEq"@,
        Token::GreaterEq => "GreaterEq"@,
        Token::Semicolon => "Semicolon"@,
        Token::Colon => "Colon"@,
        Token::ColonColon => "ColonColon"@,
        Token::FatArrow => "FatArrow"@,
        Token::Comma => "Comma"@,
        Token::Arrow => "Arrow"@,
        Token::Dot => "Dot"@,
        Token::DotDot => "DotDot"@,
        Token::LeftParen => "LeftParen"@,
        Token::RightParen => "RightParen"@,
        Token::LeftBrace => "LeftBrace"@,
        Token::RightBrace => "RightBrace"@,
        Token::LeftBracket => "LeftBracket"@,
        Token::RightBracket => "RightBracket"@,
        Token::Eof => "Eof"@,
    }
}

fn wrap_text(head: &str, inner: String) -> (r: String)
    ensures
        r@ == head@ + inner@ + ")"@,
{
    let mut s = String::new();
    push_str(&mut s, head);
    push_str(&mut s, inner.as_str());
    push_str(&mut s, ")");
    assert(s@ =~= head@ + inner@ + ")"@);
    s
}

/// The text of a token as messages show it.
pub fn token_debug(t: &Token) -> (r: String)
    ensures
        r@ == token_text(*t),
{
    match t {
        Token::Integer(n) => {
            let mut s = String::new();
            push_str(&mut s, "Integer(");
            push_i64(&mut s, *n);
            push_str(&mut s, ")");
            assert(s@ =~= token_text(*t));
            s
        },
        Token::Identifier(x) => wrap_text("Identifier(", debug_str(x)),
        Token::StringLiteral(x) => wrap_text("StringLiteral(", debug_str(x)),
        Token::Let => to_string("Let"),
        Token::Fn => to_string("Fn"),
        Token::Return => to_string("Return"),
        Token::If => to_string("If"),
        Token::Else => to_string("Else"),
        Token::True => to_string("True"),
        Token::False => to_string("False"),
        Token::While => to_string("While"),
        Token::For => to_string("For"),
        Token::In => to_string("In"),
        Token::And => to_string("And"),
        Token::Or => to_string("Or"),
        Token::Not => to_string("Not"),
        Token::As => to_string("As"),
        Token::Import => to_string("Import"),
        Token::Struct => to_string("Struct"),
        Token::Enum => to_string("Enum"),
        Token::Match => to_string("Match"),
        Token::I32 => to_string("I32"),
        Token::I64 => to_string("I64"),
        Token::Bool => to_string("Bool"),
        Token::Void => to_string("Void"),
        Token::Str => to_string("Str"),
        Token::Plus => to_string("Plus"),
        Token::Minus => to_string("Minus"),
        Token::Star => to_string("Star"),
        Token::Slash => to_string("Slash"),
        Token::Equals => to_string("Equals"),
        Token::EqualsEquals => to_string("EqualsEquals"),
        Token::Bang => to_string("Bang"),
        Token::BangEquals => to_string("BangEquals"),
        Token::Less => to_string("Less"),
        Token::Greater => to_string("Greater"),
        Token::LessEq => to_string("LessEq"),
        Token::GreaterEq => to_string("GreaterEq"),
        Token::Semicolon => to_string("Semicolon"),
        Token::Colon => to_string("Colon"),
        Token::ColonColon => to_string("ColonColon"),
        Token::FatArrow => to_string("FatArrow"),
        Token::Comma => to_string("Comma"),
        Token::Arrow => to_string("Arrow"),
        Token::Dot => to_string("Dot"),
        Token::DotDot => to_string("DotDot"),
        Token::LeftParen => to_string("LeftParen"),
        Token::RightParen => to_string("RightParen"),
        Token::LeftBrace => to_string("LeftBrace"),
        Token::RightBrace => to_string("RightBrace"),
        Token::LeftBracket => to_string("LeftBracket"),
        Token::RightBracket => to_string("RightBracket"),
        Token::Eof => to_string("Eof"),
    }
}

/// The type a one-token type name stands for.
pub open spec fn prim_type(t: Token) -> Option<TypeV> {
    match t {
        Token::I32 => Some(TypeV::I32),
        Token::I64 => Some(TypeV::I64),
        Token::Bool => Some(TypeV::Bool),
        Token::Str => Some(TypeV::Str),
        Token::Void => Some(TypeV::Void),
        _ => None,
    }
}

/// Tokens at which a type can start.
pub open spec fn type_start(t: Token) -> bool {
    prim_type(t) is Some || t is LeftBracket || t is Identifier
}

/// The identifier `_`.
pub open spec fn is_underscore(t: Token) -> bool {
    t matches Token::Identifier(x) && x@ == "_"@
}

/// Tokens at which a primary expression needs more than the token itself.
pub open spec fn primary_compound(t: Token) -> bool {
    t is LeftParen || t is LeftBracket || t is If || t is Identifier || t is Match
}

/// `e` is the literal that token `t` spells.
pub open spec fn literal_for<'a>(e: Expr<'a>, t: Token<'a>) -> bool {
    match t {
        Token::Integer(n) => (e matches Expr::Integer(m, _, _) && m == n),
        Token::True => (e matches Expr::Bool(b, _, _) && b),
        Token::False => (e matches Expr::Bool(b, _, _) && !b),
        Token::StringLiteral(x) => (e matches Expr::StringLiteral(y, _, _) && y == x),
        _ => false,
    }
}

/// Tokens that close an argument list (or the input).
pub open spec fn is_arg_stopper(t: Token) -> bool {
    t is Semicolon || t is RightBrace || t is RightParen || t is RightBracket || t is Eof
}

/// Tokens at which no expression can start and none is skipped.
pub open spec fn is_expr_stopper(t: Token) -> bool {
    t is Comma || is_arg_stopper(t)
}

fn arg_list_stopper(tok: &Token) -> (r: bool)
    ensures
        r == is_arg_stopper(*tok),
{
    matches!(tok, Token::Semicolon | Token::RightBrace | Token::RightParen | Token::RightBracket | Token::Eof)
}

fn expr_stopper(tok: &Token) -> (r: bool)
    ensures
        r == is_expr_stopper(*tok),
{
    matches!(tok, Token::Comma) || arg_list_stopper(tok)
}

/// A token that carries no payload.
pub open spec fn is_plain(t: Token) -> bool {
    !(t is Integer) && !(t is Identifier) && !(t is StringLiteral)
}

/// Whether `a` is the payload-free token `b`.
fn same_token(a: &Token, b: &Token) -> (r: bool)
    requires
        is_plain(*b),
    ensures
        r == (*a == *b),
{
    match (a, b) {
        (Token::Let, Token::Let) => true,
        (Token::Fn, Token::Fn) => true,
        (Token::Return, Token::Return) => true,
        (Token::If, Token::If) => true,
        (Token::Else, Token::Else) => true,
        (Token::True, Token::True) => true,
        (Token::False, Token::False) => true,
        (Token::While, Token::While) => true,
        (Token::For, Token::For) => true,
        (Token::In, Token::In) => true,
        (Token::And, Token::And) => true,
        (Token::Or, Token::Or) => true,
        (Token::Not, Token::Not) => true,
        (Token::As, Token::As) => true,
        (Token::Import, Token::Import) => true,
        (Token::Struct, Token::Struct) => true,
        (Token::I32, Token::I32) => true,
        (Token::I64, Token::I64) => true,
        (Token::Bool, Token::Bool) => true,
        (Token::Void, Token::Void) => true,
        (Token::Str, Token::Str) => true,
        (Token::Plus, Token::Plus) => true,
        (Token::Minus, Token::Minus) => true,
        (Token::Star, Token::Star) => true,
        (Token::Slash, Token::Slash) => true,
        (Token::Equals, Token::Equals) => true,
        (Token::EqualsEquals, Token::EqualsEquals) => true,
        (Token::Bang, Token::Bang) => true,
        (Token::BangEquals, Token::BangEquals) => true,
        (Token::Less, Token::Less) => true,
        (Token::Greater, Token::Greater) => true,
        (Token::LessEq, Token::LessEq) => true,
        (Token::GreaterEq, Token::GreaterEq) => true,
        (Token::Semicolon, Token::Semicolon) => true,
        (Token::Colon, Token::Colon) => true,
        (Token::ColonColon, Token::ColonColon) => true,
        (Token::FatArrow, Token::FatArrow) => true,
        (Token::Enum, Token::Enum) => true,
        (Token::Match, Token::Match) => true,
        (Token::Comma, Token::Comma) => true,
        (Token::Arrow, Token::Arrow) => true,
        (Token::Dot, Token::Dot) => true,
        (Token::DotDot, Token::DotDot) => true,
        (Token::LeftParen, Token::LeftParen) => true,
        (Token::RightParen, Token::RightParen) => true,
        (Token::LeftBrace, Token::LeftBrace) => true,
        (Token::RightBrace, Token::RightBrace) => true,
        (Token::LeftBracket, Token::LeftBracket) => true,
        (Token::RightBracket, Token::RightBracket) => true,
        (Token::Eof, Token::Eof) => true,
        _ => false,
    }
}

// ---------------------------------------------------------------------------
// The parser's state
// ---------------------------------------------------------------------------
/// A recursive-descent parser over one file's tokens. It keeps going after an
/// error: the error is recorded and parsing resumes at the next item or
/// statement.
pub struct Parser<'src> {
    lexer: Lexer<'src>,
    current: SpannedToken<'src>,
    peek: SpannedToken<'src>,
    pub interner: Interner,
    allow_struct_literal: bool,
    pub next_expr_id: ExprId,
    enum_names: Vec<Symbol>,
    /// The type parameters of the enum being read.
    type_params: Vec<Symbol>,
    depth: u32,
    last_span: Span,
    errors: Vec<LexoraError>,
    lex_errors: Vec<LexoraError>,
    /// An error expression has been made at the current token, which no
    /// expression can start.
    charged: Ghost<bool>,
}

impl<'src> Parser<'src> {
    /// What is left to read: the unread bytes and the two buffered tokens.
    pub closed spec fn measure(&self) -> int {
        (self.lexer.bytes().len() - self.lexer.pos()) + (if self.current.token is Eof {
            0int
        } else {
            1int
        }) + (if self.peek.token is Eof {
            0int
        } else {
            1int
        })
    }

    /// No token is left: the lexer stopped at an error or only whitespace remains.
    pub closed spec fn ended(&self) -> bool {
        skip_ws(self.lexer.bytes(), self.lexer.pos()) >= self.lexer.bytes().len()
    }

    /// Ids handed out so far, plus twice what is left to read, plus one
    /// unless an error expression already stands at the current token; it
    /// never grows, which keeps ids below the limit.
    pub closed spec fn phi(&self) -> int {
        self.next_expr_id + 2 * self.measure() + if self.charged@ {
            0int
        } else {
            1int
        }
    }

    pub closed spec fn wf(&self) -> bool {
        &&& self.lexer.wf()
        &&& (self.peek.token is Eof ==> self.ended())
        &&& (self.current.token is Eof ==> self.peek.token is Eof)
        &&& self.depth <= MAX_EXPR_DEPTH
        &&& self.interner.wf()
        &&& self.interner@.len() + self.measure() < u32::MAX
        &&& self.phi() <= u32::MAX
        &&& (self.charged@ ==> is_expr_stopper(self.current.token))
    }

    /// The token after the current one.
    pub closed spec fn peek_tok(&self) -> Token<'src> {
        self.peek.token
    }

    /// The current token is a literal and the next one ends the expression.
    pub closed spec fn lone_literal(&self) -> bool {
        &&& (self.current.token is Integer || self.current.token is True || self.current.token is False
            || self.current.token is StringLiteral)
        &&& is_expr_stopper(self.peek.token)
    }

    /// The token under the cursor.
    pub closed spec fn cur(&self) -> Token<'src> {
        self.current.token
    }

    pub closed spec fn is_charged(&self) -> bool {
        self.charged@
    }

    /// The errors recorded so far.
    pub closed spec fn errs(&self) -> Seq<LexoraError> {
        self.errors@
    }

    /// The texts interned so far.
    pub closed spec fn names(&self) -> Seq<Seq<char>> {
        self.interner@
    }

    pub closed spec fn depth_v(&self) -> int {
        self.depth as int
    }

    /// Where the current token stands.
    pub closed spec fn cur_span(&self) -> Span {
        self.current.span
    }

    /// A parsing step: the state stays well formed, the nesting depth, the
    /// struct-literal switch and the known enum names come back as they were,
    /// nothing already read comes back, and ids and errors only grow.
    pub closed spec fn steps(a: &Parser<'src>, b: &Parser<'src>) -> bool {
        &&& b.wf()
        &&& b.depth == a.depth
        &&& b.allow_struct_literal == a.allow_struct_literal
        &&& b.enum_names == a.enum_names
        &&& b.lexer.bytes() == a.lexer.bytes()
        &&& b.measure() <= a.measure()
        &&& b.phi() <= a.phi()
        &&& a.next_expr_id <= b.next_expr_id
        &&& a.lexer.pos() <= b.lexer.pos()
        &&& (b.measure() == a.measure() ==> b.current.token == a.current.token)
        &&& a.errors@.len() <= b.errors@.len()
    }

    /// Consumed at least one token; the potential dropped by two, or by one
    /// when an error expression stood at the old token.
    pub closed spec fn moved(a: &Parser<'src>, b: &Parser<'src>) -> bool {
        &&& b.measure() < a.measure()
        &&& b.phi() + (if a.charged@ {
            1int
        } else {
            2int
        }) <= a.phi()
        &&& !b.charged@
    }

    /// Read something and paid for every id it handed out.
    pub closed spec fn progressed(a: &Parser<'src>, b: &Parser<'src>) -> bool {
        &&& b.measure() < a.measure()
        &&& b.phi() < a.phi()
    }

    pub closed spec fn next_id_v(&self) -> int {
        self.next_expr_id as int
    }

    /// Reads the next token from the lexer. After a lexical error the lexer
    /// is not read again: the error is kept and the input counts as ended.
    fn pull(&mut self) -> (r: SpannedToken<'src>)
        requires
            old(self).lexer.wf(),
        ensures
            final(self).lexer.wf(),
            final(self).lexer.bytes() == old(self).lexer.bytes(),
            old(self).lexer.pos() <= final(self).lexer.pos(),
            !(r.token is Eof) ==> old(self).lexer.pos() < final(self).lexer.pos(),
            r.token is Eof ==> final(self).ended(),
            old(self).ended() ==> r.token is Eof,
            final(self).current == old(self).current,
            final(self).peek == old(self).peek,
            final(self).interner == old(self).interner,
            final(self).allow_struct_literal == old(self).allow_struct_literal,
            final(self).next_expr_id == old(self).next_expr_id,
            final(self).enum_names == old(self).enum_names,
            final(self).depth == old(self).depth,
            final(self).last_span == old(self).last_span,
            final(self).errors == old(self).errors,
            final(self).charged == old(self).charged,
    {
        loop
            invariant
                self.lexer.wf(),
                self.lexer.bytes() == old(self).lexer.bytes(),
                self.lexer.base() == old(self).lexer.base(),
                old(self).lexer.pos() <= self.lexer.pos(),
                old(self).ended() ==> self.lexer.pos() == old(self).lexer.pos(),
                self.current == old(self).current,
                self.peek == old(self).peek,
                self.interner == old(self).interner,
                self.allow_struct_literal == old(self).allow_struct_literal,
                self.next_expr_id == old(self).next_expr_id,
                self.enum_names == old(self).enum_names,
                self.depth == old(self).depth,
                self.last_span == old(self).last_span,
                self.errors == old(self).errors,
                self.charged == old(self).charged,
            decreases self.lexer.bytes().len() - self.lexer.pos(),
        {
            let ghost b = self.lexer.bytes();
            let ghost pos0 = self.lexer.pos();
            let r = self.lexer.next_token();
            proof {
                lemma_next_token_progress(b, old(self).lexer.base(), pos0, self.lexer.pos(), r);
            }
            match r {
                Ok(t) => {
                    return t;
                },
                Err(e) => {
                    self.lex_errors.push(e);
                },
            }
        }
    }

    /// Moves to the next token and returns the one that was current.
    fn advance(&mut self) -> (r: SpannedToken<'src>)
        requires
            old(self).wf(),
        ensures
            Self::steps(old(self), final(self)),
            r == old(self).current,
            final(self).current == old(self).peek,
            final(self).last_span == old(self).current.span,
            final(self).interner == old(self).interner,
            final(self).next_expr_id == old(self).next_expr_id,
            final(self).errors == old(self).errors,
            !(old(self).current.token is Eof) ==> Self::moved(old(self), final(self)),
            old(self).current.token is Eof ==> final(self).charged == old(self).charged,
    {
        let ghost was_eof = self.current.token is Eof;
        let mut next = self.pull();
        std::mem::swap(&mut self.peek, &mut next);
        std::mem::swap(&mut self.current, &mut next);
        self.last_span = next.span;
        if !matches!(next.token, Token::Eof) {
            self.charged = Ghost(false);
        }
        next
    }
}

/// `e` reports that `expected` was wanted where `found` stands at `span`.
pub open spec fn unexpected_is(e: LexoraError, expected: Seq<char>, found: Token, span: Span) -> bool {
    e matches LexoraError::UnexpectedToken { expected: x, found: f, span: s } && x@ == expected && f@
        == token_text(found) && s == span
}

/// The error for an expression, block or type nested too deeply.
pub open spec fn too_deep_is(e: LexoraError, what: Seq<char>, span: Span) -> bool {
    e matches LexoraError::Custom { message: m, span: s } && m@ == what + " cok derin ic ice (sinir 128)"@
        && s == span
}

impl<'src> Parser<'src> {
    /// All fields but the id counter are as they were.
    pub closed spec fn same_but_id(a: &Parser<'src>, b: &Parser<'src>) -> bool {
        &&& b.lexer == a.lexer
        &&& b.current == a.current
        &&& b.peek == a.peek
        &&& b.interner == a.interner
        &&& b.allow_struct_literal == a.allow_struct_literal
        &&& b.enum_names == a.enum_names
        &&& b.depth == a.depth
        &&& b.last_span == a.last_span
        &&& b.errors == a.errors
    }

    /// A parser for `lexer`'s tokens that interns into `interner` and numbers
    /// expressions from `start_id`.
    pub fn with_interner(lexer: Lexer<'src>, interner: Interner, start_id: ExprId) -> (r: Parser<'src>)
        requires
            lexer.wf(),
            interner.wf(),
            interner@.len() + (lexer.bytes().len() - lexer.pos()) + 2 < u32::MAX,
            start_id + 2 * (lexer.bytes().len() - lexer.pos()) + 5 <= u32::MAX,
        ensures
            r.wf(),
            !r.is_charged(),
            r.depth_v() == 0,
            r.next_id_v() == start_id,
            r.errs().len() == 0,
            r.names() == interner@,
    {
        let o = lexer.offset();
        let mut parser = Parser {
            lexer,
            current: SpannedToken { token: Token::Eof, span: Span::new(o, o) },
            peek: SpannedToken { token: Token::Eof, span: Span::new(o, o) },
            interner,
            allow_struct_literal: true,
            next_expr_id: start_id,
            enum_names: Vec::new(),
            type_params: Vec::new(),
            depth: 0,
            last_span: Span::default(),
            errors: Vec::new(),
            lex_errors: Vec::new(),
            charged: Ghost(false),
        };
        let ghost pos0 = parser.lexer.pos();
        let c = parser.pull();
        parser.current = c;
        let ghost pos1 = parser.lexer.pos();
        let k = parser.pull();
        parser.peek = k;
        parser
    }

    pub fn new(lexer: Lexer<'src>) -> (r: Parser<'src>)
        requires
            lexer.wf(),
            (lexer.bytes().len() - lexer.pos()) + 2 < u32::MAX,
            2 * (lexer.bytes().len() - lexer.pos()) + 5 <= u32::MAX,
        ensures
            r.wf(),
            !r.is_charged(),
            r.depth_v() == 0,
            r.next_id_v() == 0,
            r.errs().len() == 0,
            r.names() == Seq::<Seq<char>>::empty(),
    {
        Self::with_interner(lexer, Interner::new(), 0)
    }

    /// Hands out the next expression id.
    fn next_id(&mut self) -> (id: ExprId)
        requires
            old(self).next_expr_id < u32::MAX,
        ensures
            id == old(self).next_expr_id,
            final(self).next_expr_id == id + 1,
            Self::same_but_id(old(self), final(self)),
            final(self).charged == old(self).charged,
            final(self).phi() == old(self).phi() + 1,
            final(self).measure() == old(self).measure(),
            old(self).wf() && old(self).phi() + 1 <= u32::MAX ==> final(self).wf(),
    {
        let id = self.next_expr_id;
        self.next_expr_id = id + 1;
        id
    }

    /// Hands out the id of an error expression made at a token where no
    /// expression starts; the token is marked so that this happens once.
    fn charge_id(&mut self) -> (id: ExprId)
        requires
            old(self).wf(),
            !old(self).charged@,
            is_expr_stopper(old(self).current.token),
        ensures
            id == old(self).next_expr_id,
            final(self).next_expr_id == id + 1,
            Self::same_but_id(old(self), final(self)),
            final(self).charged@,
            final(self).phi() == old(self).phi(),
            final(self).wf(),
    {
        let id = self.next_expr_id;
        self.next_expr_id = id + 1;
        self.charged = Ghost(true);
        id
    }

    /// The identifier under the cursor, if any.
    fn cur_ident(&self) -> (r: Option<&'src str>)
        ensures
            match self.current.token {
                Token::Identifier(x) => r == Some(x),
                _ => r is None,
            },
    {
        match &self.current.token {
            Token::Identifier(x) => Some(*x),
            _ => None,
        }
    }

    /// The error for wanting `expected` at the current token.
    fn unexpected(&self, expected: String) -> (e: LexoraError)
        ensures
            unexpected_is(e, expected@, self.current.token, self.current.span),
    {
        LexoraError::UnexpectedToken {
            expected,
            found: token_debug(&self.current.token),
            span: self.current.span,
        }
    }

    /// Consumes the current token if it is `expected`.
    fn expect(&mut self, expected: Token<'src>) -> (r: Result<SpannedToken<'src>, LexoraError>)
        requires
            old(self).wf(),
            is_plain(expected),
            !(expected is Eof),
        ensures
            r is Ok <==> old(self).current.token == expected,
            r is Ok ==> final(self).cur() == old(self).peek_tok(),
            r is Ok ==> Self::steps(old(self), final(self)) && Self::moved(old(self), final(self))
                && final(self).next_expr_id == old(self).next_expr_id && final(self).interner
                == old(self).interner && final(self).errors == old(self).errors,
            r is Err ==> *final(self) == *old(self),
            r matches Err(e) ==> unexpected_is(
                e,
                token_text(expected),
                old(self).current.token,
                old(self).current.span,
            ),
    {
        if same_token(&self.current.token, &expected) {
            Ok(self.advance())
        } else {
            Err(self.unexpected(token_debug(&expected)))
        }
    }

    /// Enters one more level of nesting, or reports that there are too many.
    fn depth_bump(&mut self, what: &str) -> (r: Result<(), LexoraError>)
        requires
            old(self).wf(),
        ensures
            r is Ok <==> old(self).depth < MAX_EXPR_DEPTH,
            r is Ok ==> final(self).depth == old(self).depth + 1 && final(self).wf() && Self::same_but_depth(
                old(self),
                final(self),
            ),
            r is Err ==> *final(self) == *old(self),
            r matches Err(e) ==> too_deep_is(e, what@, old(self).current.span),
    {
        if self.depth >= MAX_EXPR_DEPTH {
            let mut message = String::new();
            push_str(&mut message, what);
            push_str(&mut message, " cok derin ic ice (sinir 128)");
            return Err(LexoraError::Custom { message, span: self.current.span });
        }
        self.depth = self.depth + 1;
        Ok(())
    }

    /// All fields but the depth are as they were.
    pub closed spec fn same_but_depth(a: &Parser<'src>, b: &Parser<'src>) -> bool {
        &&& b.lexer == a.lexer
        &&& b.current == a.current
        &&& b.peek == a.peek
        &&& b.interner == a.interner
        &&& b.allow_struct_literal == a.allow_struct_literal
        &&& b.enum_names == a.enum_names
        &&& b.next_expr_id == a.next_expr_id
        &&& b.last_span == a.last_span
        &&& b.errors == a.errors
        &&& b.charged == a.charged
    }

    /// Skips to where parsing can resume: past the next `;`, or up to the next
    /// item keyword or `}`.
    fn synchronize(&mut self)
        requires
            old(self).wf(),
        ensures
            Self::steps(old(self), final(self)),
            !(old(self).current.token is Eof) ==> Self::moved(old(self), final(self)),
            old(self).current.token is Eof ==> final(self).charged == old(self).charged
                && final(self).current.token is Eof,
            final(self).next_expr_id == old(self).next_expr_id,
            final(self).interner == old(self).interner,
            final(self).errors == old(self).errors,
    {
        let was_semi = matches!(self.current.token, Token::Semicolon);
        self.advance();
        if was_semi {
            return;
        }
        while !matches!(self.current.token, Token::Eof)
            invariant
                Self::steps(old(self), self),
                !(old(self).current.token is Eof) ==> Self::moved(old(self), self),
                old(self).current.token is Eof ==> self.charged == old(self).charged
                    && self.current.token is Eof,
                self.next_expr_id == old(self).next_expr_id,
                self.interner == old(self).interner,
                self.errors == old(self).errors,
            decreases self.measure(),
        {
            if matches!(self.current.token, Token::Fn | Token::Struct | Token::Enum | Token::Import | Token::RightBrace) {
                return;
            }
            if matches!(self.current.token, Token::Semicolon) {
                self.advance();
                return;
            }
            self.advance();
        }
    }

    /// Reads an identifier and interns it.
    fn parse_symbol(&mut self) -> (r: Result<Symbol, LexoraError>)
        requires
            old(self).wf(),
        ensures
            r is Ok <==> old(self).current.token is Identifier,
            r is Ok ==> final(self).cur() == old(self).peek_tok(),
            r is Ok ==> Self::steps(old(self), final(self)) && Self::moved(old(self), final(self))
                && final(self).next_expr_id == old(self).next_expr_id && final(self).errors
                == old(self).errors,
            r is Err ==> *final(self) == *old(self),
            r matches Err(e) ==> unexpected_is(
                e,
                "identifier"@,
                old(self).current.token,
                old(self).current.span,
            ),
    {
        match self.cur_ident() {
            Some(x) => {
                self.advance();
                let sym = self.interner.intern(x);
                Ok(sym)
            },
            None => Err(self.unexpected(to_string("identifier"))),
        }
    }

    /// The errors recorded so far, leaving none behind.
    pub fn take_errors(&mut self) -> (r: Vec<LexoraError>)
        ensures
            r@ == old(self).errs(),
            final(self).errs().len() == 0,
    {
        let mut out: Vec<LexoraError> = Vec::new();
        std::mem::swap(&mut out, &mut self.errors);
        out
    }

    /// Makes `names` known as enum names, so that `Name<..>` and `Name` in
    /// types read as enums.
    pub fn seed_enum_names(&mut self, names: Vec<Symbol>)
        requires
            old(self).wf(),
        ensures
            final(self).wf(),
            final(self).cur() == old(self).cur(),
            final(self).is_charged() == old(self).is_charged(),
            final(self).depth_v() == old(self).depth_v(),
            final(self).next_id_v() == old(self).next_id_v(),
            final(self).errs() == old(self).errs(),
            final(self).known_enums() == old(self).known_enums() + names@,
    {
        let mut names = names;
        self.enum_names.append(&mut names);
    }

    /// The names known to be enums.
    pub closed spec fn known_enums(&self) -> Seq<Symbol> {
        self.enum_names@
    }
}

/// What a type-parsing step keeps: ids and recorded errors.
impl<'src> Parser<'src> {
    pub closed spec fn keeps_ids(a: &Parser<'src>, b: &Parser<'src>) -> bool {
        &&& b.next_expr_id == a.next_expr_id
        &&& b.errors == a.errors
    }


    /// A type, one level of nesting deeper.
    fn parse_type(&mut self) -> (r: Result<Type, LexoraError>)
        requires
            old(self).wf(),
        ensures
            Self::steps(old(self), final(self)),
            Self::keeps_ids(old(self), final(self)),
            r is Ok ==> Self::moved(old(self), final(self)),
            !old(self).charged@ ==> !final(self).charged@,
            old(self).depth_v() >= MAX_EXPR_DEPTH ==> r is Err,
            old(self).depth_v() < MAX_EXPR_DEPTH && prim_type(old(self).cur()) is Some ==> (r matches Ok(t) && Some(t@)
                == prim_type(old(self).cur())),
            !type_start(old(self).cur()) ==> r is Err,
        decreases MAX_EXPR_DEPTH + 1 - old(self).depth_v(), old(self).measure(), 3int,
    {
        let prev = self.depth;
        match self.depth_bump("tip") {
            Err(e) => {
                return Err(e);
            },
            Ok(()) => {},
        }
        let out = self.parse_type_inner();
        self.depth = prev;
        out
    }

    fn parse_type_inner(&mut self) -> (r: Result<Type, LexoraError>)
        requires
            old(self).wf(),
        ensures
            Self::steps(old(self), final(self)),
            Self::keeps_ids(old(self), final(self)),
            r is Ok ==> Self::moved(old(self), final(self)),
            !old(self).charged@ ==> !final(self).charged@,
            prim_type(old(self).cur()) is Some ==> (r matches Ok(t) && Some(t@) == prim_type(old(self).cur())),
            (old(self).cur() matches Token::Identifier(x) && x@ == "String"@) ==> (r matches Ok(t) && t@ == TypeV::String),
            old(self).cur() is LeftBracket ==> (r matches Ok(t) ==> t@ is Array),
            (old(self).cur() matches Token::Identifier(x) && x@ == "Box"@) ==> (r matches Ok(t) ==> t@ is Box),
            (old(self).cur() matches Token::Identifier(x) && x@ != "Box"@ && x@ != "String"@) ==> (r matches Ok(t) ==> (
            t@ is Struct || t@ is Enum || t@ is Param)),
            !type_start(old(self).cur()) ==> r is Err && *final(self) == *old(self),
        decreases MAX_EXPR_DEPTH + 1 - old(self).depth_v(), old(self).measure(), 2int,
    {
        if matches!(self.current.token, Token::I32) {
            self.advance();
            return Ok(Type::I32);
        }
        if matches!(self.current.token, Token::I64) {
            self.advance();
            return Ok(Type::I64);
        }
        if matches!(self.current.token, Token::Bool) {
            self.advance();
            return Ok(Type::Bool);
        }
        if matches!(self.current.token, Token::Str) {
            self.advance();
            return Ok(Type::Str);
        }
        if matches!(self.current.token, Token::Void) {
            self.advance();
            return Ok(Type::Void);
        }
        if matches!(self.current.token, Token::LeftBracket) {
            self.advance();
            let elem_ty = self.parse_type()?;
            self.expect(Token::Semicolon)?;
            let size = match self.current.token {
                Token::Integer(n) => {
                    let s = #[verifier::truncate] (n as usize);
                    self.advance();
                    s
                },
                _ => {
                    return Err(self.unexpected(to_string("array boyutu")));
                },
            };
            self.expect(Token::RightBracket)?;
            return Ok(Type::Array(Box::new(elem_ty), size));
        }
        match self.cur_ident() {
            Some(x) => {
                proof {
                    reveal_strlit("Box");
                    reveal_strlit("String");
                    assert("Box"@.len() != "String"@.len());
                }
                if str_eq(x, "Box") {
                    self.advance();
                    self.expect(Token::Less)?;
                    let inner = self.parse_type()?;
                    self.expect(Token::Greater)?;
                    return Ok(Type::Box(Box::new(inner)));
                }
                if str_eq(x, "String") {
                    self.advance();
                    return Ok(Type::String);
                }
                let sym = self.parse_symbol()?;
                if contains_sym(&self.type_params, sym) {
                    Ok(Type::Param(sym))
                } else if contains_sym(&self.enum_names, sym) || matches!(self.current.token, Token::Less) {
                    let args = self.parse_type_args()?;
                    Ok(Type::Enum(sym, args))
                } else {
                    Ok(Type::Struct(sym))
                }
            },
            None => Err(
                self.unexpected(
                    to_string("tip (i32, i64, f32, f64, bool, void, str, [T;N], Struct, Enum)"),
                ),
            ),
        }
    }

    /// `<T, U, ..>` after an enum name, or nothing.
    fn parse_type_args(&mut self) -> (r: Result<Vec<Type>, LexoraError>)
        requires
            old(self).wf(),
        ensures
            Self::steps(old(self), final(self)),
            Self::keeps_ids(old(self), final(self)),
            !old(self).charged@ ==> !final(self).charged@,
            !(old(self).cur() is Less) ==> (r matches Ok(v) && v@.len() == 0 && *final(self) == *old(self)),
        decreases MAX_EXPR_DEPTH + 1 - old(self).depth_v(), old(self).measure(), 1int,
    {
        let mut args: Vec<Type> = Vec::new();
        if !matches!(self.current.token, Token::Less) {
            return Ok(args);
        }
        self.advance();
        while !matches!(self.current.token, Token::Greater)
            invariant
                Self::steps(old(self), self),
                Self::keeps_ids(old(self), self),
                Self::moved(old(self), self),
                old(self).cur() is Less,
            decreases self.measure(),
        {
            let t = self.parse_type()?;
            args.push(t);
            if matches!(self.current.token, Token::Comma) {
                self.advance();
            }
        }
        self.expect(Token::Greater)?;
        Ok(args)
    }
}

impl<'src> Parser<'src> {
    /// Like `steps`, except that the nesting depth may have grown.
    pub closed spec fn grows(a: &Parser<'src>, b: &Parser<'src>) -> bool {
        &&& b.wf()
        &&& b.depth >= a.depth
        &&& b.allow_struct_literal == a.allow_struct_literal
        &&& b.enum_names == a.enum_names
        &&& b.lexer.bytes() == a.lexer.bytes()
        &&& b.measure() <= a.measure()
        &&& b.phi() <= a.phi()
        &&& a.next_expr_id <= b.next_expr_id
        &&& a.lexer.pos() <= b.lexer.pos()
        &&& (b.measure() == a.measure() ==> b.current.token == a.current.token)
        &&& a.errors@.len() <= b.errors@.len()
    }

    /// What parsing an expression promises: the ids of the result are fresh
    /// and increasing; starting at a token where expressions can start, it
    /// reads something; starting at one where none can, it reads nothing.
    pub closed spec fn expr_ok(a: &Parser<'src>, b: &Parser<'src>, r: &Result<Expr<'src>, LexoraError>) -> bool {
        &&& match r {
            Ok(e) => ids_in(expr_ids(e), a.next_expr_id as int, b.next_expr_id as int),
            Err(_) => true,
        }
        &&& (r is Ok && !is_expr_stopper(a.current.token) ==> Self::progressed(a, b))
        &&& (r is Ok && is_expr_stopper(a.current.token) ==> b.measure() == a.measure())
        &&& match r {
            Ok(e) => (is_expr_stopper(a.current.token) ==> e is Error) && ((e is If || e is Match)
                ==> !b.charged@),
            Err(_) => true,
        }
        &&& match r {
            Ok(e) => b.errors@.len() == a.errors@.len() ==> clean_expr(e),
            Err(_) => true,
        }
    }

    /// An expression, one level of nesting deeper.
    pub fn parse_expr(&mut self) -> (r: Result<Expr<'src>, LexoraError>)
        requires
            old(self).wf(),
            !old(self).is_charged(),
        ensures
            Self::steps(old(self), final(self)),
            Self::expr_ok(old(self), final(self), &r),
            old(self).lone_literal() && old(self).depth_v() < MAX_EXPR_DEPTH ==> (r matches Ok(e) && literal_for(
                e,
                old(self).cur(),
            ) && final(self).cur() == old(self).peek_tok()),
            old(self).depth_v() >= MAX_EXPR_DEPTH ==> (r matches Err(e) && too_deep_is(
                e,
                "ifade"@,
                old(self).cur_span(),
            )),
        decreases MAX_EXPR_DEPTH + 1 - old(self).depth_v(), old(self).measure(), 40int,
    {
        let prev = self.depth;
        match self.depth_bump("ifade") {
            Err(e) => {
                return Err(e);
            },
            Ok(()) => {},
        }
        let out = self.parse_or();
        self.depth = prev;
        out
    }

    fn parse_or(&mut self) -> (r: Result<Expr<'src>, LexoraError>)
        requires
            old(self).wf(),
            !old(self).charged@,
        ensures
            Self::steps(old(self), final(self)),
            Self::expr_ok(old(self), final(self), &r),
            old(self).lone_literal() ==> (r matches Ok(e) && literal_for(e, old(self).cur()) && final(self).cur()
                == old(self).peek_tok()),
        decreases MAX_EXPR_DEPTH + 1 - old(self).depth_v(), old(self).measure(), 39int,
    {
        let prev = self.depth;
        let out = self.parse_or_body();
        self.depth = prev;
        out
    }

    fn parse_or_body(&mut self) -> (r: Result<Expr<'src>, LexoraError>)
        requires
            old(self).wf(),
            !old(self).charged@,
        ensures
            Self::grows(old(self), final(self)),
            Self::expr_ok(old(self), final(self), &r),
            old(self).lone_literal() ==> (r matches Ok(e) && literal_for(e, old(self).cur()) && final(self).cur()
                == old(self).peek_tok()),
        decreases MAX_EXPR_DEPTH + 1 - old(self).depth_v(), old(self).measure(), 38int,
    {
        let start = self.current.span;
        let mut left = self.parse_and()?;
        while matches!(self.current.token, Token::Or)
            invariant
                Self::grows(old(self), self),
                old(self).lone_literal() ==> literal_for(left, old(self).cur()) && self.cur() == old(self).peek_tok(),
                ids_in(expr_ids(&left), old(self).next_expr_id as int, self.next_expr_id as int),
                self.errors@.len() == old(self).errors@.len() ==> clean_expr(&left),
                is_expr_stopper(old(self).current.token) ==> left is Error,
                (left is If || left is Match) ==> !self.charged@,
                !is_expr_stopper(old(self).current.token) ==> Self::progressed(old(self), self),
                is_expr_stopper(old(self).current.token) ==> self.measure() == old(self).measure(),
            decreases self.measure(),
        {
            self.advance();
            self.depth_bump("ifade")?;
            let ghost n1 = self.next_expr_id;
            let right = self.parse_and()?;
            let span = start.merge(right.span());
            let ghost n2 = self.next_expr_id;
            let id = self.next_id();
            proof {
                lemma_ids_cat(expr_ids(&left), expr_ids(&right), old(self).next_expr_id as int, n1 as int, n2 as int);
                lemma_ids_node(expr_ids(&left) + expr_ids(&right), id, old(self).next_expr_id as int);
            }
            left = Expr::BinaryOp {
                left: Box::new(left),
                op: BinaryOperator::Or,
                right: Box::new(right),
                span,
                id,
            };
        }
        Ok(left)
    }

    fn parse_and(&mut self) -> (r: Result<Expr<'src>, LexoraError>)
        requires
            old(self).wf(),
            !old(self).charged@,
        ensures
            Self::steps(old(self), final(self)),
            Self::expr_ok(old(self), final(self), &r),
            old(self).lone_literal() ==> (r matches Ok(e) && literal_for(e, old(self).cur()) && final(self).cur()
                == old(self).peek_tok()),
        decreases MAX_EXPR_DEPTH + 1 - old(self).depth_v(), old(self).measure(), 37int,
    {
        let prev = self.depth;
        let out = self.parse_and_body();
        self.depth = prev;
        out
    }

    fn parse_and_body(&mut self) -> (r: Result<Expr<'src>, LexoraError>)
        requires
            old(self).wf(),
            !old(self).charged@,
        ensures
            Self::grows(old(self), final(self)),
            Self::expr_ok(old(self), final(self), &r),
            old(self).lone_literal() ==> (r matches Ok(e) && literal_for(e, old(self).cur()) && final(self).cur()
                == old(self).peek_tok()),
        decreases MAX_EXPR_DEPTH + 1 - old(self).depth_v(), old(self).measure(), 36int,
    {
        let start = self.current.span;
        let mut left = self.parse_comparison()?;
        while matches!(self.current.token, Token::And)
            invariant
                Self::grows(old(self), self),
                old(self).lone_literal() ==> literal_for(left, old(self).cur()) && self.cur() == old(self).peek_tok(),
                ids_in(expr_ids(&left), old(self).next_expr_id as int, self.next_expr_id as int),
                self.errors@.len() == old(self).errors@.len() ==> clean_expr(&left),
                is_expr_stopper(old(self).current.token) ==> left is Error,
                (left is If || left is Match) ==> !self.charged@,
                !is_expr_stopper(old(self).current.token) ==> Self::progressed(old(self), self),
                is_expr_stopper(old(self).current.token) ==> self.measure() == old(self).measure(),
            decreases self.measure(),
        {
            self.advance();
            self.depth_bump("ifade")?;
            let ghost n1 = self.next_expr_id;
            let right = self.parse_comparison()?;
            let span = start.merge(right.span());
            let ghost n2 = self.next_expr_id;
            let id = self.next_id();
            proof {
                lemma_ids_cat(expr_ids(&left), expr_ids(&right), old(self).next_expr_id as int, n1 as int, n2 as int);
                lemma_ids_node(expr_ids(&left) + expr_ids(&right), id, old(self).next_expr_id as int);
            }
            left = Expr::BinaryOp {
                left: Box::new(left),
                op: BinaryOperator::And,
                right: Box::new(right),
                span,
                id,
            };
        }
        Ok(left)
    }

    fn comparison_op(&self) -> (r: Option<BinaryOperator>)
        ensures
            r is Some <==> (self.current.token is EqualsEquals || self.current.token is BangEquals
                || self.current.token is Less || self.current.token is Greater || self.current.token is LessEq
                || self.current.token is GreaterEq),
            self.current.token is EqualsEquals ==> r == Some(BinaryOperator::Eq),
            self.current.token is BangEquals ==> r == Some(BinaryOperator::NotEq),
            self.current.token is Less ==> r == Some(BinaryOperator::Less),
            self.current.token is Greater ==> r == Some(BinaryOperator::Greater),
            self.current.token is LessEq ==> r == Some(BinaryOperator::LessEq),
            self.current.token is GreaterEq ==> r == Some(BinaryOperator::GreaterEq),
    {
        match self.current.token {
            Token::EqualsEquals => Some(BinaryOperator::Eq),
            Token::BangEquals => Some(BinaryOperator::NotEq),
            Token::Less => Some(BinaryOperator::Less),
            Token::Greater => Some(BinaryOperator::Greater),
            Token::LessEq => Some(BinaryOperator::LessEq),
            Token::GreaterEq => Some(BinaryOperator::GreaterEq),
            _ => None,
        }
    }

    fn parse_comparison(&mut self) -> (r: Result<Expr<'src>, LexoraError>)
        requires
            old(self).wf(),
            !old(self).charged@,
        ensures
            Self::steps(old(self), final(self)),
            Self::expr_ok(old(self), final(self), &r),
            old(self).lone_literal() ==> (r matches Ok(e) && literal_for(e, old(self).cur()) && final(self).cur()
                == old(self).peek_tok()),
        decreases MAX_EXPR_DEPTH + 1 - old(self).depth_v(), old(self).measure(), 35int,
    {
        let start = self.current.span;
        let left = self.parse_additive()?;
        let op = match self.comparison_op() {
            Some(op) => op,
            None => {
                return Ok(left);
            },
        };
        self.advance();
        let ghost n1 = self.next_expr_id;
        let right = self.parse_additive()?;
        let span = start.merge(right.span());
        let ghost n2 = self.next_expr_id;
        let id = self.next_id();
        proof {
            lemma_ids_cat(expr_ids(&left), expr_ids(&right), old(self).next_expr_id as int, n1 as int, n2 as int);
            lemma_ids_node(expr_ids(&left) + expr_ids(&right), id, old(self).next_expr_id as int);
        }
        Ok(Expr::BinaryOp { left: Box::new(left), op, right: Box::new(right), span, id })
    }

    fn additive_op(&self) -> (r: Option<BinaryOperator>)
        ensures
            r is Some <==> (self.current.token is Plus || self.current.token is Minus),
            self.current.token is Plus ==> r == Some(BinaryOperator::Add),
            self.current.token is Minus ==> r == Some(BinaryOperator::Sub),
    {
        match self.current.token {
            Token::Plus => Some(BinaryOperator::Add),
            Token::Minus => Some(BinaryOperator::Sub),
            _ => None,
        }
    }

    fn parse_additive(&mut self) -> (r: Result<Expr<'src>, LexoraError>)
        requires
            old(self).wf(),
            !old(self).charged@,
        ensures
            Self::steps(old(self), final(self)),
            Self::expr_ok(old(self), final(self), &r),
            old(self).lone_literal() ==> (r matches Ok(e) && literal_for(e, old(self).cur()) && final(self).cur()
                == old(self).peek_tok()),
        decreases MAX_EXPR_DEPTH + 1 - old(self).depth_v(), old(self).measure(), 34int,
    {
        let prev = self.depth;
        let out = self.parse_additive_body();
        self.depth = prev;
        out
    }

    fn parse_additive_body(&mut self) -> (r: Result<Expr<'src>, LexoraError>)
        requires
            old(self).wf(),
            !old(self).charged@,
        ensures
            Self::grows(old(self), final(self)),
            Self::expr_ok(old(self), final(self), &r),
            old(self).lone_literal() ==> (r matches Ok(e) && literal_for(e, old(self).cur()) && final(self).cur()
                == old(self).peek_tok()),
        decreases MAX_EXPR_DEPTH + 1 - old(self).depth_v(), old(self).measure(), 33int,
    {
        let start = self.current.span;
        let mut left = self.parse_multiplicative()?;
        loop
            invariant
                Self::grows(old(self), self),
                old(self).lone_literal() ==> literal_for(left, old(self).cur()) && self.cur() == old(self).peek_tok(),
                ids_in(expr_ids(&left), old(self).next_expr_id as int, self.next_expr_id as int),
                self.errors@.len() == old(self).errors@.len() ==> clean_expr(&left),
                is_expr_stopper(old(self).current.token) ==> left is Error,
                (left is If || left is Match) ==> !self.charged@,
                !is_expr_stopper(old(self).current.token) ==> Self::progressed(old(self), self),
                is_expr_stopper(old(self).current.token) ==> self.measure() == old(self).measure(),
            decreases self.measure(),
        {
            let op = match self.additive_op() {
                Some(op) => op,
                None => {
                    break;
                },
            };
            self.advance();
            self.depth_bump("ifade")?;
            let ghost n1 = self.next_expr_id;
            let right = self.parse_multiplicative()?;
            let span = start.merge(right.span());
            let ghost n2 = self.next_expr_id;
            let id = self.next_id();
            proof {
                lemma_ids_cat(expr_ids(&left), expr_ids(&right), old(self).next_expr_id as int, n1 as int, n2 as int);
                lemma_ids_node(expr_ids(&left) + expr_ids(&right), id, old(self).next_expr_id as int);
            }
            left = Expr::BinaryOp { left: Box::new(left), op, right: Box::new(right), span, id };
        }
        Ok(left)
    }

    fn multiplicative_op(&self) -> (r: Option<BinaryOperator>)
        ensures
            r is Some <==> (self.current.token is Star || self.current.token is Slash),
            self.current.token is Star ==> r == Some(BinaryOperator::Mul),
            self.current.token is Slash ==> r == Some(BinaryOperator::Div),
    {
        match self.current.token {
            Token::Star => Some(BinaryOperator::Mul),
            Token::Slash => Some(BinaryOperator::Div),
            _ => None,
        }
    }

    fn parse_multiplicative(&mut self) -> (r: Result<Expr<'src>, LexoraError>)
        requires
            old(self).wf(),
            !old(self).charged@,
        ensures
            Self::steps(old(self), final(self)),
            Self::expr_ok(old(self), final(self), &r),
            old(self).lone_literal() ==> (r matches Ok(e) && literal_for(e, old(self).cur()) && final(self).cur()
                == old(self).peek_tok()),
        decreases MAX_EXPR_DEPTH + 1 - old(self).depth_v(), old(self).measure(), 32int,
    {
        let prev = self.depth;
        let out = self.parse_multiplicative_body();
        self.depth = prev;
        out
    }

    fn parse_multiplicative_body(&mut self) -> (r: Result<Expr<'src>, LexoraError>)
        requires
            old(self).wf(),
            !old(self).charged@,
        ensures
            Self::grows(old(self), final(self)),
            Self::expr_ok(old(self), final(self), &r),
            old(self).lone_literal() ==> (r matches Ok(e) && literal_for(e, old(self).cur()) && final(self).cur()
                == old(self).peek_tok()),
        decreases MAX_EXPR_DEPTH + 1 - old(self).depth_v(), old(self).measure(), 31int,
    {
        let start = self.current.span;
        let mut left = self.parse_cast()?;
        loop
            invariant
                Self::grows(old(self), self),
                old(self).lone_literal() ==> literal_for(left, old(self).cur()) && self.cur() == old(self).peek_tok(),
                ids_in(expr_ids(&left), old(self).next_expr_id as int, self.next_expr_id as int),
                self.errors@.len() == old(self).errors@.len() ==> clean_expr(&left),
                is_expr_stopper(old(self).current.token) ==> left is Error,
                (left is If || left is Match) ==> !self.charged@,
                !is_expr_stopper(old(self).current.token) ==> Self::progressed(old(self), self),
                is_expr_stopper(old(self).current.token) ==> self.measure() == old(self).measure(),
            decreases self.measure(),
        {
            let op = match self.multiplicative_op() {
                Some(op) => op,
                None => {
                    break;
                },
            };
            self.advance();
            self.depth_bump("ifade")?;
            let ghost n1 = self.next_expr_id;
            let right = self.parse_cast()?;
            let span = start.merge(right.span());
            let ghost n2 = self.next_expr_id;
            let id = self.next_id();
            proof {
                lemma_ids_cat(expr_ids(&left), expr_ids(&right), old(self).next_expr_id as int, n1 as int, n2 as int);
                lemma_ids_node(expr_ids(&left) + expr_ids(&right), id, old(self).next_expr_id as int);
            }
            left = Expr::BinaryOp { left: Box::new(left), op, right: Box::new(right), span, id };
        }
        Ok(left)
    }

    fn parse_cast(&mut self) -> (r: Result<Expr<'src>, LexoraError>)
        requires
            old(self).wf(),
            !old(self).charged@,
        ensures
            Self::steps(old(self), final(self)),
            Self::expr_ok(old(self), final(self), &r),
            old(self).lone_literal() ==> (r matches Ok(e) && literal_for(e, old(self).cur()) && final(self).cur()
                == old(self).peek_tok()),
        decreases MAX_EXPR_DEPTH + 1 - old(self).depth_v(), old(self).measure(), 30int,
    {
        let prev = self.depth;
        let out = self.parse_cast_body();
        self.depth = prev;
        out
    }

    fn parse_cast_body(&mut self) -> (r: Result<Expr<'src>, LexoraError>)
        requires
            old(self).wf(),
            !old(self).charged@,
        ensures
            Self::grows(old(self), final(self)),
            Self::expr_ok(old(self), final(self), &r),
            old(self).lone_literal() ==> (r matches Ok(e) && literal_for(e, old(self).cur()) && final(self).cur()
                == old(self).peek_tok()),
        decreases MAX_EXPR_DEPTH + 1 - old(self).depth_v(), old(self).measure(), 29int,
    {
        let mut expr = self.parse_unary()?;
        while matches!(self.current.token, Token::As)
            invariant
                Self::grows(old(self), self),
                old(self).lone_literal() ==> literal_for(expr, old(self).cur()) && self.cur() == old(self).peek_tok(),
                ids_in(expr_ids(&expr), old(self).next_expr_id as int, self.next_expr_id as int),
                self.errors@.len() == old(self).errors@.len() ==> clean_expr(&expr),
                is_expr_stopper(old(self).current.token) ==> expr is Error,
                (expr is If || expr is Match) ==> !self.charged@,
                !is_expr_stopper(old(self).current.token) ==> Self::progressed(old(self), self),
                is_expr_stopper(old(self).current.token) ==> self.measure() == old(self).measure(),
            decreases self.measure(),
        {
            self.depth_bump("ifade")?;
            let start = expr.span();
            self.advance();
            let ty_span = self.current.span;
            let target_type = self.parse_type()?;
            let id = self.next_id();
            proof {
                lemma_ids_node(expr_ids(&expr), id, old(self).next_expr_id as int);
            }
            expr = Expr::Cast { expr: Box::new(expr), target_type, span: start.merge(ty_span), id };
        }
        Ok(expr)
    }
}

impl<'src> Parser<'src> {
    fn parse_unary(&mut self) -> (r: Result<Expr<'src>, LexoraError>)
        requires
            old(self).wf(),
            !old(self).charged@,
        ensures
            Self::steps(old(self), final(self)),
            Self::expr_ok(old(self), final(self), &r),
            old(self).lone_literal() ==> (r matches Ok(e) && literal_for(e, old(self).cur()) && final(self).cur()
                == old(self).peek_tok()),
            old(self).cur() is Not ==> (r matches Ok(e) ==> e matches Expr::UnaryOp { op: UnaryOperator::Not, .. }),
            old(self).cur() is Minus ==> (r matches Ok(e) ==> e matches Expr::UnaryOp { op: UnaryOperator::Neg, .. }),
            old(self).cur() is Star ==> (r matches Ok(e) ==> e is Deref),
        decreases MAX_EXPR_DEPTH + 1 - old(self).depth_v(), old(self).measure(), 28int,
    {
        if !matches!(self.current.token, Token::Not | Token::Minus | Token::Star) {
            return self.parse_postfix();
        }
        let prev = self.depth;
        match self.depth_bump("ifade") {
            Err(e) => {
                return Err(e);
            },
            Ok(()) => {},
        }
        let out = self.parse_prefix();
        self.depth = prev;
        out
    }

    fn parse_prefix(&mut self) -> (r: Result<Expr<'src>, LexoraError>)
        requires
            old(self).wf(),
            !old(self).charged@,
        ensures
            Self::steps(old(self), final(self)),
            Self::expr_ok(old(self), final(self), &r),
            old(self).lone_literal() ==> (r matches Ok(e) && literal_for(e, old(self).cur()) && final(self).cur()
                == old(self).peek_tok()),
            old(self).cur() is Not ==> (r matches Ok(e) ==> e matches Expr::UnaryOp { op: UnaryOperator::Not, .. }),
            old(self).cur() is Minus ==> (r matches Ok(e) ==> e matches Expr::UnaryOp { op: UnaryOperator::Neg, .. }),
            old(self).cur() is Star ==> (r matches Ok(e) ==> e is Deref),
        decreases MAX_EXPR_DEPTH + 1 - old(self).depth_v(), old(self).measure(), 27int,
    {
        let start = self.current.span;
        if matches!(self.current.token, Token::Not | Token::Minus) {
            let is_not = matches!(self.current.token, Token::Not);
            self.advance();
            let operand = self.parse_unary()?;
            let span = start.merge(operand.span());
            let id = self.next_id();
            proof {
                lemma_ids_node(expr_ids(&operand), id, old(self).next_expr_id as int);
            }
            let op = if is_not {
                UnaryOperator::Not
            } else {
                UnaryOperator::Neg
            };
            return Ok(Expr::UnaryOp { op, operand: Box::new(operand), span, id });
        }
        if matches!(self.current.token, Token::Star) {
            self.advance();
            let target = self.parse_unary()?;
            let span = start.merge(target.span());
            let id = self.next_id();
            proof {
                lemma_ids_node(expr_ids(&target), id, old(self).next_expr_id as int);
            }
            return Ok(Expr::Deref { target: Box::new(target), span, id });
        }
        self.parse_postfix()
    }

    fn parse_postfix(&mut self) -> (r: Result<Expr<'src>, LexoraError>)
        requires
            old(self).wf(),
            !old(self).charged@,
        ensures
            Self::steps(old(self), final(self)),
            Self::expr_ok(old(self), final(self), &r),
            old(self).lone_literal() ==> (r matches Ok(e) && literal_for(e, old(self).cur()) && final(self).cur()
                == old(self).peek_tok()),
        decreases MAX_EXPR_DEPTH + 1 - old(self).depth_v(), old(self).measure(), 26int,
    {
        let prev = self.depth;
        let out = self.parse_postfix_body();
        self.depth = prev;
        out
    }

    fn parse_postfix_body(&mut self) -> (r: Result<Expr<'src>, LexoraError>)
        requires
            old(self).wf(),
            !old(self).charged@,
        ensures
            Self::grows(old(self), final(self)),
            Self::expr_ok(old(self), final(self), &r),
            old(self).lone_literal() ==> (r matches Ok(e) && literal_for(e, old(self).cur()) && final(self).cur()
                == old(self).peek_tok()),
        decreases MAX_EXPR_DEPTH + 1 - old(self).depth_v(), old(self).measure(), 25int,
    {
        let mut expr = self.parse_primary()?;
        while matches!(self.current.token, Token::LeftBracket | Token::Dot)
            invariant
                Self::grows(old(self), self),
                old(self).lone_literal() ==> literal_for(expr, old(self).cur()) && self.cur() == old(self).peek_tok(),
                ids_in(expr_ids(&expr), old(self).next_expr_id as int, self.next_expr_id as int),
                self.errors@.len() == old(self).errors@.len() ==> clean_expr(&expr),
                is_expr_stopper(old(self).current.token) ==> expr is Error,
                (expr is If || expr is Match) ==> !self.charged@,
                !is_expr_stopper(old(self).current.token) ==> Self::progressed(old(self), self),
                is_expr_stopper(old(self).current.token) ==> self.measure() == old(self).measure(),
            decreases self.measure(),
        {
            self.depth_bump("ifade")?;
            let start = expr.span();
            if matches!(self.current.token, Token::LeftBracket) {
                self.advance();
                let prev_allow = self.allow_struct_literal;
                self.allow_struct_literal = true;
                let ghost n1 = self.next_expr_id;
                let index = self.parse_expr();
                self.allow_struct_literal = prev_allow;
                let index = index?;
                let end = self.current.span;
                self.expect(Token::RightBracket)?;
                let ghost n2 = self.next_expr_id;
                let id = self.next_id();
                proof {
                    lemma_ids_cat(expr_ids(&expr), expr_ids(&index), old(self).next_expr_id as int, n1 as int, n2 as int);
                    lemma_ids_node(expr_ids(&expr) + expr_ids(&index), id, old(self).next_expr_id as int);
                }
                expr = Expr::Index { array: Box::new(expr), index: Box::new(index), span: start.merge(end), id };
            } else {
                self.advance();
                let end = self.current.span;
                let field = self.parse_symbol()?;
                let id = self.next_id();
                proof {
                    lemma_ids_node(expr_ids(&expr), id, old(self).next_expr_id as int);
                }
                expr = Expr::FieldAccess { object: Box::new(expr), field, span: start.merge(end), id };
            }
        }
        Ok(expr)
    }

    /// The integer under the cursor, if any.
    fn cur_int(&self) -> (r: Option<i64>)
        ensures
            match self.current.token {
                Token::Integer(n) => r == Some(n),
                _ => r is None,
            },
    {
        match &self.current.token {
            Token::Integer(n) => Some(*n),
            _ => None,
        }
    }

    /// The string literal under the cursor, if any.
    fn cur_string(&self) -> (r: Option<&'src str>)
        ensures
            match self.current.token {
                Token::StringLiteral(x) => r == Some(x),
                _ => r is None,
            },
    {
        match &self.current.token {
            Token::StringLiteral(x) => Some(*x),
            _ => None,
        }
    }

    #[verifier::rlimit(30)]
    fn parse_primary(&mut self) -> (r: Result<Expr<'src>, LexoraError>)
        requires
            old(self).wf(),
            !old(self).charged@,
        ensures
            Self::steps(old(self), final(self)),
            Self::expr_ok(old(self), final(self), &r),
            old(self).lone_literal() ==> (r matches Ok(e) && literal_for(e, old(self).cur()) && final(self).cur()
                == old(self).peek_tok()),
            old(self).cur() matches Token::Integer(n) ==> (r matches Ok(Expr::Integer(m, _, _)) && m == n),
            old(self).cur() is True ==> (r matches Ok(Expr::Bool(b, _, _)) && b),
            old(self).cur() is False ==> (r matches Ok(Expr::Bool(b, _, _)) && !b),
            old(self).cur() is Identifier ==> (r matches Ok(e) ==> (e is Identifier || e is Call || e is StructLiteral
                || e is EnumVariant)),
            old(self).cur() is Identifier && !(old(self).peek_tok() is LeftParen) && !(old(self).peek_tok() is ColonColon)
                && !(old(self).peek_tok() is LeftBrace) ==> (r matches Ok(e) && e is Identifier),
            old(self).cur() is Identifier && old(self).peek_tok() is LeftParen ==> (r matches Ok(e) ==> e is Call),
            old(self).cur() matches Token::StringLiteral(x) ==> (r matches Ok(Expr::StringLiteral(y, _, _)) && y == x),
            !primary_compound(old(self).cur()) && !(old(self).cur() is Integer) && !(old(self).cur() is True)
                && !(old(self).cur() is False) && !(old(self).cur() is StringLiteral) ==> (r matches Ok(
                Expr::Error(..),
            ) && final(self).errs().len() == old(self).errs().len() + 1),
        decreases MAX_EXPR_DEPTH + 1 - old(self).depth_v(), old(self).measure(), 24int,
    {
        let start = self.current.span;
        if let Some(n) = self.cur_int() {
            self.advance();
            let id = self.next_id();
            return Ok(Expr::Integer(n, start, id));
        }
        if matches!(self.current.token, Token::True | Token::False) {
            let b = matches!(self.current.token, Token::True);
            self.advance();
            let id = self.next_id();
            return Ok(Expr::Bool(b, start, id));
        }
        if let Some(x) = self.cur_string() {
            self.advance();
            let id = self.next_id();
            return Ok(Expr::StringLiteral(x, start, id));
        }
        if matches!(self.current.token, Token::LeftParen) {
            self.advance();
            let prev_allow = self.allow_struct_literal;
            self.allow_struct_literal = true;
            let inner = self.parse_expr();
            self.allow_struct_literal = prev_allow;
            let expr = inner?;
            self.expect(Token::RightParen)?;
            return Ok(expr);
        }
        if matches!(self.current.token, Token::LeftBracket) {
            let (elems, end) = self.parse_list(Token::RightBracket)?;
            let id = self.next_id();
            proof {
                lemma_ids_node(exprs_ids(elems@), id, old(self).next_expr_id as int);
            }
            return Ok(Expr::ArrayLiteral(elems, start.merge(end), id));
        }
        if matches!(self.current.token, Token::If) {
            return self.parse_if_expr();
        }
        if matches!(self.current.token, Token::Match) {
            return self.parse_match_expr();
        }
        if matches!(self.current.token, Token::Identifier(_)) {
            let name = self.parse_symbol()?;
            if matches!(self.current.token, Token::ColonColon) {
                return self.parse_variant_tail(name, start);
            }
            if matches!(self.current.token, Token::LeftParen) {
                let (args, end) = self.parse_list(Token::RightParen)?;
                let id = self.next_id();
                proof {
                    lemma_ids_node(exprs_ids(args@), id, old(self).next_expr_id as int);
                }
                return Ok(Expr::Call { name, args, span: start.merge(end), id });
            } else if self.allow_struct_literal && matches!(self.current.token, Token::LeftBrace) {
                let (fields, end) = self.parse_struct_fields()?;
                let id = self.next_id();
                proof {
                    lemma_ids_node(fields_ids(fields@), id, old(self).next_expr_id as int);
                }
                return Ok(Expr::StructLiteral { name, fields, span: start.merge(end), id });
            } else {
                let id = self.next_id();
                return Ok(Expr::Identifier(name, start, id));
            }
        }
        let err = self.unexpected(to_string("expression"));
        self.errors.push(err);
        if !expr_stopper(&self.current.token) {
            self.advance();
            let id = self.next_id();
            Ok(Expr::Error(start, id))
        } else {
            let id = self.charge_id();
            Ok(Expr::Error(start, id))
        }
    }

    /// The rest of `Enum::Variant(args)` or `Enum::<T, ..>::Variant(args)`
    /// once `Enum` has been read.
    fn parse_variant_tail(&mut self, name: Symbol, start: Span) -> (r: Result<Expr<'src>, LexoraError>)
        requires
            old(self).wf(),
            !old(self).charged@,
            old(self).current.token is ColonColon,
        ensures
            Self::steps(old(self), final(self)),
            r matches Ok(e) ==> e is EnumVariant && ids_in(expr_ids(&e), old(self).next_expr_id as int, final(self).next_expr_id as int)
                && Self::progressed(old(self), final(self)) && !final(self).charged@ && (final(self).errors@.len()
                == old(self).errors@.len() ==> clean_expr(&e)),
        decreases MAX_EXPR_DEPTH + 1 - old(self).depth_v(), old(self).measure(), 23int,
    {
        self.advance();
        let type_args = if matches!(self.current.token, Token::Less) {
            self.parse_type_args()?
        } else {
            Vec::new()
        };
        if type_args.len() > 0 {
            self.expect(Token::ColonColon)?;
        }
        let mut end = self.current.span;
        let variant = self.parse_symbol()?;
        let ghost e1 = self.errors@.len();
        assert(old(self).errors@.len() <= e1);
        let args = if matches!(self.current.token, Token::LeftParen) {
            let (a, e) = self.parse_list(Token::RightParen)?;
            end = e;
            a
        } else {
            let v: Vec<Expr<'src>> = Vec::new();
            assert(clean_exprs(v@)) by {
                assert(v@.len() == 0);
            }
            v
        };
        proof {
            assert(self.errors@.len() == old(self).errors@.len() ==> clean_exprs(args@));
        }
        let id = self.next_id();
        proof {
            lemma_ids_node(exprs_ids(args@), id, old(self).next_expr_id as int);
        }
        Ok(Expr::EnumVariant { enum_name: name, variant, args, type_args, span: start.merge(end), id })
    }

    /// `[a, b, ..]` or `(a, b, ..)`: reads the opening token, the elements up
    /// to `close` (or to a token that ends the list), then `close`.
    fn parse_list(&mut self, close: Token<'src>) -> (r: Result<(Vec<Expr<'src>>, Span), LexoraError>)
        requires
            old(self).wf(),
            !old(self).charged@,
            !is_expr_stopper(old(self).current.token),
            close is RightParen || close is RightBracket,
        ensures
            Self::steps(old(self), final(self)),
            Self::progressed(old(self), final(self)),
            r is Ok ==> final(self).phi() + 1 < old(self).phi(),
            r matches Ok((v, _)) ==> ids_in(exprs_ids(v@), old(self).next_expr_id as int, final(self).next_expr_id as int),
            r is Ok ==> !final(self).charged@,
            r matches Ok((v, _)) ==> (final(self).errors@.len() == old(self).errors@.len() ==> clean_exprs(v@)),
        decreases MAX_EXPR_DEPTH + 1 - old(self).depth_v(), old(self).measure(), 22int,
    {
        self.advance();
        let mut elems: Vec<Expr<'src>> = Vec::new();
        while !same_token(&self.current.token, &close)
            invariant
                Self::steps(old(self), self),
                Self::progressed(old(self), self),
                self.phi() + 1 < old(self).phi(),
                ids_in(exprs_ids(elems@), old(self).next_expr_id as int, self.next_expr_id as int),
                self.errors@.len() == old(self).errors@.len() ==> clean_exprs(elems@),
                self.charged@ ==> is_arg_stopper(self.current.token),
                close is RightParen || close is RightBracket,
            decreases self.measure(),
        {
            if arg_list_stopper(&self.current.token) {
                break;
            }
            let prev_allow = self.allow_struct_literal;
            self.allow_struct_literal = true;
            let ghost n1 = self.next_expr_id;
            let e = self.parse_expr();
            self.allow_struct_literal = prev_allow;
            let e = e?;
            proof {
                lemma_ids_cat(exprs_ids(elems@), expr_ids(&e), old(self).next_expr_id as int, n1 as int, self.next_expr_id as int);
                assert(elems@.push(e).drop_last() =~= elems@);
            }
            elems.push(e);
            if matches!(self.current.token, Token::Comma) {
                self.advance();
            }
        }
        let end = self.current.span;
        self.expect(close)?;
        Ok((elems, end))
    }

    /// `{ field: value, .. }` after a struct name.
    fn parse_struct_fields(&mut self) -> (r: Result<(Vec<(Symbol, Expr<'src>)>, Span), LexoraError>)
        requires
            old(self).wf(),
            !old(self).charged@,
            old(self).current.token is LeftBrace,
        ensures
            Self::steps(old(self), final(self)),
            Self::progressed(old(self), final(self)),
            r is Ok ==> final(self).phi() + 1 < old(self).phi(),
            r matches Ok((v, _)) ==> ids_in(fields_ids(v@), old(self).next_expr_id as int, final(self).next_expr_id as int),
            r is Ok ==> !final(self).charged@,
            r matches Ok((v, _)) ==> (final(self).errors@.len() == old(self).errors@.len() ==> clean_fields(v@)),
        decreases MAX_EXPR_DEPTH + 1 - old(self).depth_v(), old(self).measure(), 21int,
    {
        self.advance();
        let mut fields: Vec<(Symbol, Expr<'src>)> = Vec::new();
        while !matches!(self.current.token, Token::RightBrace)
            invariant
                Self::steps(old(self), self),
                Self::progressed(old(self), self),
                self.phi() + 1 < old(self).phi(),
                ids_in(fields_ids(fields@), old(self).next_expr_id as int, self.next_expr_id as int),
                self.errors@.len() == old(self).errors@.len() ==> clean_fields(fields@),
            decreases self.measure(),
        {
            let field_name = self.parse_symbol()?;
            self.expect(Token::Colon)?;
            let ghost n1 = self.next_expr_id;
            let field_val = self.parse_expr()?;
            proof {
                lemma_ids_cat(fields_ids(fields@), expr_ids(&field_val), old(self).next_expr_id as int, n1 as int, self.next_expr_id as int);
                assert(fields@.push((field_name, field_val)).drop_last() =~= fields@);
            }
            fields.push((field_name, field_val));
            if matches!(self.current.token, Token::Comma) {
                self.advance();
            }
        }
        let end = self.current.span;
        self.expect(Token::RightBrace)?;
        Ok((fields, end))
    }

    #[verifier::rlimit(30)]
    /// A `match` pattern: `_`, or `Enum::Variant` with optional bindings.
    fn parse_pattern(&mut self) -> (r: Result<Pattern, LexoraError>)
        requires
            old(self).wf(),
        ensures
            Self::steps(old(self), final(self)),
            Self::keeps_ids(old(self), final(self)),
            r is Ok ==> Self::moved(old(self), final(self)),
            is_underscore(old(self).cur()) ==> (r matches Ok(p) && p is Wildcard),
    {
        match self.cur_ident() {
            Some(x) => {
                proof {
                    reveal_strlit("_");
                }
                if str_eq(x, "_") {
                    self.advance();
                    return Ok(Pattern::Wildcard);
                }
            },
            None => {},
        }
        let enum_name = self.parse_symbol()?;
        self.expect(Token::ColonColon)?;
        let variant = self.parse_symbol()?;
        let mut bindings: Vec<Symbol> = Vec::new();
        if matches!(self.current.token, Token::LeftParen) {
            self.advance();
            while !matches!(self.current.token, Token::RightParen)
                invariant
                    Self::steps(old(self), self),
                    Self::keeps_ids(old(self), self),
                    Self::moved(old(self), self),
                    !is_underscore(old(self).cur()),
                decreases self.measure(),
            {
                let b = self.parse_symbol()?;
                bindings.push(b);
                if matches!(self.current.token, Token::Comma) {
                    self.advance();
                }
            }
            self.expect(Token::RightParen)?;
        }
        Ok(Pattern::Variant { enum_name, variant, bindings })
    }

    /// `match e { pattern => expr or block, .. }`.
    fn parse_match_expr(&mut self) -> (r: Result<Expr<'src>, LexoraError>)
        requires
            old(self).wf(),
            !old(self).charged@,
            old(self).current.token is Match,
        ensures
            Self::steps(old(self), final(self)),
            Self::expr_ok(old(self), final(self), &r),
            r is Ok ==> !final(self).charged@,
            r matches Ok(e) ==> e is Match,
        decreases MAX_EXPR_DEPTH + 1 - old(self).depth_v(), old(self).measure(), 23int,
    {
        let start = self.current.span;
        self.expect(Token::Match)?;
        let prev_allow = self.allow_struct_literal;
        self.allow_struct_literal = false;
        let ghost n1 = self.next_expr_id;
        let sc = self.parse_expr();
        self.allow_struct_literal = prev_allow;
        let scrutinee = sc?;
        let ghost n2 = self.next_expr_id;
        self.expect(Token::LeftBrace)?;
        let mut arms: Vec<(Pattern, Block<'src>)> = Vec::new();
        while !matches!(self.current.token, Token::RightBrace | Token::Eof)
            invariant
                Self::steps(old(self), self),
                self.measure() < old(self).measure(),
                self.phi() + 2 <= old(self).phi(),
                n1 == old(self).next_expr_id,
                n2 <= self.next_expr_id,
                ids_in(expr_ids(&scrutinee), n1 as int, n2 as int),
                ids_in(arms_ids(arms@), n2 as int, self.next_expr_id as int),
                self.errors@.len() == old(self).errors@.len() ==> clean_expr(&scrutinee) && clean_arms(arms@),
            decreases self.measure(),
        {
            let ghost n3 = self.next_expr_id;
            let ghost e3 = self.errors@.len();
            let pat = self.parse_pattern()?;
            self.expect(Token::FatArrow)?;
            let body = if matches!(self.current.token, Token::LeftBrace) {
                self.parse_value_block()?
            } else {
                let e = self.parse_expr()?;
                let espan = e.span();
                let b = Block { stmts: Vec::new(), tail: Some(Box::new(e)), span: espan };
                assert(block_ids(&b) =~= expr_ids(&e));
                assert(clean_expr(&e) ==> clean_block(&b)) by {
                    assert(b.stmts@ =~= Seq::<Stmt>::empty());
                }
                b
            };
            proof {
                lemma_ids_cat(arms_ids(arms@), block_ids(&body), n2 as int, n3 as int, self.next_expr_id as int);
                assert(arms@.push((pat, body)).drop_last() =~= arms@);
            }
            arms.push((pat, body));
            if matches!(self.current.token, Token::Comma) {
                self.advance();
            }
        }
        let end = self.current.span;
        self.expect(Token::RightBrace)?;
        let ghost n4 = self.next_expr_id;
        let id = self.next_id();
        proof {
            lemma_ids_cat(expr_ids(&scrutinee), arms_ids(arms@), n1 as int, n2 as int, n4 as int);
            lemma_ids_node(expr_ids(&scrutinee) + arms_ids(arms@), id, n1 as int);
        }
        Ok(Expr::Match { scrutinee: Box::new(scrutinee), arms, span: start.merge(end), id })
    }

    fn parse_if_expr(&mut self) -> (r: Result<Expr<'src>, LexoraError>)
        requires
            old(self).wf(),
            !old(self).charged@,
            old(self).current.token is If,
        ensures
            Self::steps(old(self), final(self)),
            Self::expr_ok(old(self), final(self), &r),
            r is Ok ==> !final(self).charged@,
        decreases MAX_EXPR_DEPTH + 1 - old(self).depth_v(), old(self).measure(), 23int,
    {
        let start = self.current.span;
        self.expect(Token::If)?;
        let prev_allow = self.allow_struct_literal;
        self.allow_struct_literal = false;
        let ghost n1 = self.next_expr_id;
        let cond = self.parse_expr();
        self.allow_struct_literal = prev_allow;
        let condition = cond?;
        let ghost n2 = self.next_expr_id;
        let then_body = self.parse_value_block()?;
        let ghost n3 = self.next_expr_id;
        let mut end = then_body.span;
        let else_body = if matches!(self.current.token, Token::Else) {
            self.advance();
            let blk = if matches!(self.current.token, Token::If) {
                let else_if = self.parse_if_expr()?;
                let espan = else_if.span();
                let b = Block { stmts: Vec::new(), tail: Some(Box::new(else_if)), span: espan };
                assert(block_ids(&b) =~= expr_ids(&else_if));
                assert(clean_expr(&else_if) ==> clean_block(&b)) by {
                    assert(b.stmts@ =~= Seq::<Stmt>::empty());
                }
                b
            } else {
                self.parse_value_block()?
            };
            end = blk.span;
            Some(Box::new(blk))
        } else {
            None
        };
        let ghost n4 = self.next_expr_id;
        let id = self.next_id();
        let ghost else_ids = match &else_body {
            Some(b) => block_ids(&**b),
            None => Seq::<ExprId>::empty(),
        };
        proof {
            lemma_ids_cat(expr_ids(&condition), block_ids(&then_body), n1 as int, n2 as int, n3 as int);
            lemma_ids_cat(expr_ids(&condition) + block_ids(&then_body), else_ids, n1 as int, n3 as int, n4 as int);
            lemma_ids_node(expr_ids(&condition) + block_ids(&then_body) + else_ids, id, n1 as int);
        }
        Ok(
            Expr::If {
                condition: Box::new(condition),
                then_body: Box::new(then_body),
                else_body,
                span: start.merge(end),
                id,
            },
        )
    }

    /// What parsing a block promises.
    pub closed spec fn block_ok(a: &Parser<'src>, b: &Parser<'src>, r: &Result<Block<'src>, LexoraError>) -> bool {
        &&& match r {
            Ok(blk) => ids_in(block_ids(blk), a.next_expr_id as int, b.next_expr_id as int),
            Err(_) => true,
        }
        &&& (r is Ok ==> Self::progressed(a, b) && !b.charged@)
        &&& match r {
            Ok(blk) => b.errors@.len() == a.errors@.len() ==> clean_block(blk),
            Err(_) => true,
        }
    }

    /// A block `{ .. }`, one level of nesting deeper; inside it struct
    /// literals are allowed again.
    fn parse_value_block(&mut self) -> (r: Result<Block<'src>, LexoraError>)
        requires
            old(self).wf(),
        ensures
            Self::steps(old(self), final(self)),
            Self::block_ok(old(self), final(self), &r),
            old(self).depth_v() < MAX_EXPR_DEPTH && old(self).cur() is LeftBrace && old(self).peek_tok() is RightBrace
                ==> (r matches Ok(b) && b.stmts@.len() == 0 && b.tail is None),
            !(old(self).cur() is LeftBrace) ==> r is Err,
        decreases MAX_EXPR_DEPTH + 1 - old(self).depth_v(), old(self).measure(), 50int,
    {
        let prev = self.depth;
        match self.depth_bump("blok") {
            Err(e) => {
                return Err(e);
            },
            Ok(()) => {},
        }
        let prev_allow = self.allow_struct_literal;
        self.allow_struct_literal = true;
        let out = self.parse_value_block_inner();
        self.allow_struct_literal = prev_allow;
        self.depth = prev;
        out
    }
}

/// Whether an expression yields no value: an `if` without `else`, or an
/// `if`/`match` whose branches yield none.
pub open spec fn valueless_expr<'a>(e: &Expr<'a>) -> bool
    decreases e, 0nat,
{
    match e {
        Expr::Match { arms, .. } => arms_valueless(arms@),
        Expr::If { then_body, else_body, .. } => match else_body {
            None => true,
            Some(eb) => valueless_block(&**then_body) && valueless_block(&**eb),
        },
        _ => false,
    }
}

pub open spec fn valueless_block<'a>(b: &Block<'a>) -> bool
    decreases b, 0nat,
{
    match b.tail {
        None => true,
        Some(t) => valueless_expr(&*t),
    }
}

pub open spec fn arms_valueless<'a>(arms: Seq<(Pattern, Block<'a>)>) -> bool
    decreases arms, 0nat,
{
    arms.len() == 0 || (arms_valueless(arms.drop_last()) && valueless_block(&arms.last().1))
}

fn expr_is_valueless(expr: &Expr) -> (r: bool)
    ensures
        r == valueless_expr(expr),
    decreases expr,
{
    match expr {
        Expr::Match { arms, .. } => arms_are_valueless(arms),
        Expr::If { then_body, else_body, .. } => match else_body {
            None => true,
            Some(eb) => block_is_valueless(&**then_body) && block_is_valueless(&**eb),
        },
        _ => false,
    }
}

fn block_is_valueless(block: &Block) -> (r: bool)
    ensures
        r == valueless_block(block),
    decreases block,
{
    match &block.tail {
        None => true,
        Some(t) => expr_is_valueless(&**t),
    }
}

fn arms_are_valueless(arms: &Vec<(Pattern, Block)>) -> (r: bool)
    ensures
        r == arms_valueless(arms@),
    decreases arms,
{
    let mut i: usize = 0;
    while i < arms.len()
        invariant
            i <= arms@.len(),
            arms_valueless(arms@.take(i as int)),
        decreases arms@.len() - i,
    {
        assert(arms@.take(i + 1).drop_last() =~= arms@.take(i as int));
        if !block_is_valueless(&arms[i].1) {
            proof {
                lemma_arms_valueless_prefix(arms@, i + 1);
            }
            return false;
        }
        i = i + 1;
    }
    assert(arms@.take(arms@.len() as int) =~= arms@);
    true
}

proof fn lemma_arms_valueless_prefix<'a>(arms: Seq<(Pattern, Block<'a>)>, k: int)
    requires
        0 <= k <= arms.len(),
        !arms_valueless(arms.take(k)),
    ensures
        !arms_valueless(arms),
    decreases arms.len() - k,
{
    if k < arms.len() {
        assert(arms.take(k + 1).drop_last() =~= arms.take(k));
        lemma_arms_valueless_prefix(arms, k + 1);
    } else {
        assert(arms.take(k) =~= arms);
    }
}

/// One item of a block: a statement, or the expression that ends it.
enum BlockItem<'a> {
    Stmt(Stmt<'a>),
    Tail(Expr<'a>),
}

pub open spec fn tail_ids<'a>(t: Option<Box<Expr<'a>>>) -> Seq<ExprId> {
    match t {
        Some(e) => expr_ids(&*e),
        None => Seq::empty(),
    }
}

/// Turns `target = value;` into an assignment: to a variable, or to a place.
fn assign_stmt<'a>(target: Expr<'a>, value: Expr<'a>, span: Span) -> (r: Result<Stmt<'a>, LexoraError>)
    ensures
        r matches Ok(s) ==> (stmt_ids(&s) == expr_ids(&target) + expr_ids(&value) || stmt_ids(&s)
            == expr_ids(&value)),
        r matches Ok(s) ==> (clean_expr(&target) && clean_expr(&value) ==> clean_stmt(&s)),
        r is Err <==> !is_place_target(&target),
        r matches Err(e) ==> e matches LexoraError::Custom { message, span: sp } && message@
            == "gecersiz atama hedefi"@ && sp == crate::ast::expr_span(&target),
{
    match target {
        Expr::Identifier(name, _, _) => Ok(Stmt::Assign { name, value, span }),
        Expr::Index { .. } | Expr::FieldAccess { .. } | Expr::Deref { .. } => {
            Ok(Stmt::AssignPlace { target, value, span })
        },
        other => {
            let sp = other.span();
            Err(LexoraError::Custom { message: to_string("gecersiz atama hedefi"), span: sp })
        },
    }
}

/// What can stand left of `=`: a variable, an element, a field or a dereference.
pub open spec fn is_place_target(e: &Expr) -> bool {
    e is Identifier || e is Index || e is FieldAccess || e is Deref
}

impl<'src> Parser<'src> {
    fn parse_value_block_inner(&mut self) -> (r: Result<Block<'src>, LexoraError>)
        requires
            old(self).wf(),
        ensures
            Self::steps(old(self), final(self)),
            Self::block_ok(old(self), final(self), &r),
            old(self).cur() is LeftBrace && old(self).peek_tok() is RightBrace ==> (r matches Ok(b) && b.stmts@.len()
                == 0 && b.tail is None),
            !(old(self).cur() is LeftBrace) ==> r is Err,
        decreases MAX_EXPR_DEPTH + 1 - old(self).depth_v(), old(self).measure(), 49int,
    {
        let start = self.current.span;
        self.expect(Token::LeftBrace)?;
        let mut stmts: Vec<Stmt<'src>> = Vec::new();
        let mut tail: Option<Box<Expr<'src>>> = None;
        while !matches!(
            self.current.token,
            Token::RightBrace | Token::Eof | Token::Fn | Token::Struct | Token::Import
        )
            invariant
                Self::steps(old(self), self),
                Self::progressed(old(self), self),
                ids_in(stmts_ids(stmts@) + tail_ids(tail), old(self).next_expr_id as int, self.next_expr_id as int),
                self.errors@.len() == old(self).errors@.len() ==> clean_stmts(stmts@) && match tail {
                    Some(t) => clean_expr(&*t),
                    None => true,
                },
                tail is Some ==> self.current.token is RightBrace,
                self.charged@ ==> self.current.token is RightBrace || self.current.token is Eof,
                old(self).cur() is LeftBrace && old(self).peek_tok() is RightBrace ==> stmts@.len() == 0 && tail is None
                    && self.current.token is RightBrace,
            decreases self.measure(),
        {
            let ghost n0 = self.next_expr_id;
            let ghost head = *self;
            let item = self.parse_block_item();
            match item {
                Ok(BlockItem::Stmt(st)) => {
                    proof {
                        lemma_ids_cat(stmts_ids(stmts@), stmt_ids(&st), old(self).next_expr_id as int, n0 as int, self.next_expr_id as int);
                        assert(stmts@.push(st).drop_last() =~= stmts@);
                    }
                    stmts.push(st);
                },
                Ok(BlockItem::Tail(e)) => {
                    proof {
                        lemma_ids_cat(stmts_ids(stmts@), expr_ids(&e), old(self).next_expr_id as int, n0 as int, self.next_expr_id as int);
                    }
                    tail = Some(Box::new(e));
                },
                Err(e) => {
                    let span = match e.span() {
                        Some(s) => s,
                        None => self.current.span,
                    };
                    self.errors.push(e);
                    self.synchronize();
                    let st = Stmt::Error(span);
                    proof {
                        assert(stmts@.push(st).drop_last() =~= stmts@);
                        assert(stmt_ids(&st) =~= Seq::<ExprId>::empty());
                        assert(stmts_ids(stmts@.push(st)) == stmts_ids(stmts@) + stmt_ids(&st));
                        assert(stmts_ids(stmts@.push(st)) =~= stmts_ids(stmts@));
                    }
                    stmts.push(st);
                },
            }
        }
        let end = self.current.span;
        self.expect(Token::RightBrace)?;
        let blk = Block { stmts, tail, span: start.merge(end) };
        Ok(blk)
    }

    /// One statement, or the expression that ends the block.
    fn parse_block_item(&mut self) -> (r: Result<BlockItem<'src>, LexoraError>)
        requires
            old(self).wf(),
            !old(self).charged@,
            !(old(self).current.token is RightBrace),
            !(old(self).current.token is Eof),
        ensures
            Self::steps(old(self), final(self)),
            r is Ok ==> Self::progressed(old(self), final(self)),
            r is Ok ==> (final(self).charged@ ==> final(self).current.token is RightBrace),
            r matches Ok(BlockItem::Stmt(s)) ==> ids_in(stmt_ids(&s), old(self).next_expr_id as int, final(self).next_expr_id as int),
            r matches Ok(BlockItem::Tail(e)) ==> ids_in(expr_ids(&e), old(self).next_expr_id as int, final(self).next_expr_id as int)
                && final(self).current.token is RightBrace,
            r matches Ok(BlockItem::Stmt(s)) ==> (final(self).errors@.len() == old(self).errors@.len() ==> clean_stmt(&s)),
            r matches Ok(BlockItem::Tail(e)) ==> (final(self).errors@.len() == old(self).errors@.len() ==> clean_expr(&e)),
        decreases MAX_EXPR_DEPTH + 1 - old(self).depth_v(), old(self).measure(), 48int,
    {
        if matches!(self.current.token, Token::Let | Token::Return | Token::While | Token::For) {
            let st = self.parse_statement()?;
            return Ok(BlockItem::Stmt(st));
        }
        let stmt_start = self.current.span;
        let ghost n0 = self.next_expr_id;
        let expr = self.parse_expr()?;
        if matches!(self.current.token, Token::Equals) {
            self.advance();
            let ghost n1 = self.next_expr_id;
            let value = self.parse_expr()?;
            let end = self.current.span;
            self.expect(Token::Semicolon)?;
            proof {
                lemma_ids_cat(expr_ids(&expr), expr_ids(&value), n0 as int, n1 as int, self.next_expr_id as int);
            }
            let ghost te = expr_ids(&expr);
            let ghost tv = expr_ids(&value);
            let st = assign_stmt(expr, value, stmt_start.merge(end))?;
            return Ok(BlockItem::Stmt(st));
        }
        if matches!(self.current.token, Token::RightBrace) {
            if expr_is_valueless(&expr) {
                let end = expr.span();
                return Ok(BlockItem::Stmt(Stmt::Expr(expr, stmt_start.merge(end))));
            }
            return Ok(BlockItem::Tail(expr));
        }
        if matches!(expr, Expr::Match { .. } | Expr::If { .. }) {
            let end = expr.span();
            if matches!(self.current.token, Token::Semicolon) {
                self.advance();
            }
            return Ok(BlockItem::Stmt(Stmt::Expr(expr, stmt_start.merge(end))));
        }
        let end = self.current.span;
        self.expect(Token::Semicolon)?;
        Ok(BlockItem::Stmt(Stmt::Expr(expr, stmt_start.merge(end))))
    }

    /// What parsing a statement promises.
    pub closed spec fn stmt_ok(a: &Parser<'src>, b: &Parser<'src>, r: &Result<Stmt<'src>, LexoraError>) -> bool {
        &&& match r {
            Ok(s) => ids_in(stmt_ids(s), a.next_expr_id as int, b.next_expr_id as int),
            Err(_) => true,
        }
        &&& (r is Ok ==> Self::progressed(a, b) && !b.charged@)
        &&& match r {
            Ok(s) => b.errors@.len() == a.errors@.len() ==> clean_stmt(s),
            Err(_) => true,
        }
    }

    fn parse_statement(&mut self) -> (r: Result<Stmt<'src>, LexoraError>)
        requires
            old(self).wf(),
            !old(self).charged@,
        ensures
            Self::steps(old(self), final(self)),
            Self::stmt_ok(old(self), final(self), &r),
            old(self).cur() is Let ==> (r matches Ok(st) ==> st is Let),
            old(self).cur() is Return ==> (r matches Ok(st) ==> st is Return),
            old(self).cur() is While ==> (r matches Ok(st) ==> st is While),
            old(self).cur() is For ==> (r matches Ok(st) ==> st is For),
            !(old(self).cur() is Let || old(self).cur() is Return || old(self).cur() is While
                || old(self).cur() is For) ==> r is Err,
        decreases MAX_EXPR_DEPTH + 1 - old(self).depth_v(), old(self).measure(), 47int,
    {
        let start = self.current.span;
        if matches!(self.current.token, Token::Let) {
            self.advance();
            let name = self.parse_symbol()?;
            let ty = if matches!(self.current.token, Token::Colon) {
                self.advance();
                Some(self.parse_type()?)
            } else {
                None
            };
            self.expect(Token::Equals)?;
            let value = self.parse_expr()?;
            let end = self.current.span;
            self.expect(Token::Semicolon)?;
            return Ok(Stmt::Let { name, ty, value, span: start.merge(end) });
        }
        if matches!(self.current.token, Token::Return) {
            self.advance();
            let value = self.parse_expr()?;
            let end = self.current.span;
            self.expect(Token::Semicolon)?;
            return Ok(Stmt::Return(value, start.merge(end)));
        }
        if matches!(self.current.token, Token::While) {
            return self.parse_while();
        }
        if matches!(self.current.token, Token::For) {
            return self.parse_for();
        }
        Err(self.unexpected(to_string("statement")))
    }

    fn parse_while(&mut self) -> (r: Result<Stmt<'src>, LexoraError>)
        requires
            old(self).wf(),
            !old(self).charged@,
        ensures
            Self::steps(old(self), final(self)),
            Self::stmt_ok(old(self), final(self), &r),
            r matches Ok(st) ==> st is While,
        decreases MAX_EXPR_DEPTH + 1 - old(self).depth_v(), old(self).measure(), 46int,
    {
        let start = self.current.span;
        self.expect(Token::While)?;
        let prev_allow = self.allow_struct_literal;
        self.allow_struct_literal = false;
        let ghost n1 = self.next_expr_id;
        let cond = self.parse_expr();
        self.allow_struct_literal = prev_allow;
        let condition = cond?;
        let ghost n2 = self.next_expr_id;
        let body = self.parse_value_block()?;
        proof {
            lemma_ids_cat(expr_ids(&condition), block_ids(&body), n1 as int, n2 as int, self.next_expr_id as int);
        }
        let span = start.merge(body.span);
        Ok(Stmt::While { condition, body, span })
    }

    fn parse_for(&mut self) -> (r: Result<Stmt<'src>, LexoraError>)
        requires
            old(self).wf(),
            !old(self).charged@,
        ensures
            Self::steps(old(self), final(self)),
            Self::stmt_ok(old(self), final(self), &r),
            r matches Ok(st) ==> st is For,
        decreases MAX_EXPR_DEPTH + 1 - old(self).depth_v(), old(self).measure(), 46int,
    {
        let start = self.current.span;
        self.expect(Token::For)?;
        let var = self.parse_symbol()?;
        self.expect(Token::In)?;
        let prev_allow = self.allow_struct_literal;
        self.allow_struct_literal = false;
        let ghost n1 = self.next_expr_id;
        let f = self.parse_expr();
        self.allow_struct_literal = prev_allow;
        let from = f?;
        self.expect(Token::DotDot)?;
        self.allow_struct_literal = false;
        let ghost n2 = self.next_expr_id;
        let t = self.parse_expr();
        self.allow_struct_literal = prev_allow;
        let to = t?;
        let ghost n3 = self.next_expr_id;
        let body = self.parse_value_block()?;
        proof {
            lemma_ids_cat(expr_ids(&from), expr_ids(&to), n1 as int, n2 as int, n3 as int);
            lemma_ids_cat(expr_ids(&from) + expr_ids(&to), block_ids(&body), n1 as int, n3 as int, self.next_expr_id as int);
        }
        let span = start.merge(body.span);
        Ok(Stmt::For { var, from, to, body, span })
    }
}

/// The ids of the functions of a program.
pub open spec fn program_ids<'a>(p: &Program<'a>) -> Seq<ExprId> {
    functions_ids(p.functions@)
}

impl<'src> Parser<'src> {
    /// What parsing an item promises: starting at its keyword it reads at
    /// least that keyword, whatever happens after.
    pub closed spec fn item_ok(a: &Parser<'src>, b: &Parser<'src>) -> bool {
        &&& Self::steps(a, b)
        &&& b.measure() < a.measure()
    }

    /// Like `item_ok`, except that the enum names known may have grown.
    pub closed spec fn enum_item_ok(a: &Parser<'src>, b: &Parser<'src>) -> bool {
        &&& b.wf()
        &&& b.depth == a.depth
        &&& b.allow_struct_literal == a.allow_struct_literal
        &&& b.lexer.bytes() == a.lexer.bytes()
        &&& b.measure() < a.measure()
        &&& b.phi() <= a.phi()
        &&& a.next_expr_id == b.next_expr_id
        &&& a.lexer.pos() <= b.lexer.pos()
        &&& a.errors@.len() <= b.errors@.len()
    }

    /// `enum Name<T, ..> { Variant, Variant(T, ..), .. }`. The name is known
    /// as an enum from here on, so that the variants may refer to it.
    fn parse_enum(&mut self) -> (r: Result<EnumDef, LexoraError>)
        requires
            old(self).wf(),
            old(self).current.token is Enum,
        ensures
            Self::enum_item_ok(old(self), final(self)),
            r matches Ok(d) ==> final(self).known_enums() == old(self).known_enums().push(d.name),
            r is Err ==> final(self).known_enums() == old(self).known_enums() || exists|n: Symbol|
                final(self).known_enums() == old(self).known_enums().push(n),
    {
        let start = self.current.span;
        self.advance();
        let name = self.parse_symbol()?;
        self.enum_names.push(name);
        let ghost mid = *self;
        let mut params: Vec<Symbol> = Vec::new();
        if matches!(self.current.token, Token::Less) {
            self.advance();
            while !matches!(self.current.token, Token::Greater)
                invariant
                    Self::steps(&mid, self),
                    Self::enum_item_ok(old(self), &mid),
                    self.measure() < old(self).measure(),
                    self.next_expr_id == old(self).next_expr_id,
                    self.enum_names@ == old(self).enum_names@.push(name),
                decreases self.measure(),
            {
                let p = self.parse_symbol()?;
                params.push(p);
                if matches!(self.current.token, Token::Comma) {
                    self.advance();
                }
            }
            self.expect(Token::Greater)?;
        }
        let mut tps: Vec<Symbol> = crate::typechecker::dup_syms(&params);
        std::mem::swap(&mut self.type_params, &mut tps);
        self.expect(Token::LeftBrace)?;
        let mut variants: Vec<(Symbol, Vec<Type>)> = Vec::new();
        while !matches!(self.current.token, Token::RightBrace)
            invariant
                Self::steps(&mid, self),
                Self::enum_item_ok(old(self), &mid),
                self.measure() < old(self).measure(),
                self.next_expr_id == old(self).next_expr_id,
                self.enum_names@ == old(self).enum_names@.push(name),
            decreases self.measure(),
        {
            let ghost m0 = self.measure();
            let v = self.parse_symbol()?;
            let ghost mv = self.measure();
            let mut fields: Vec<Type> = Vec::new();
            if matches!(self.current.token, Token::LeftParen) {
                self.advance();
                while !matches!(self.current.token, Token::RightParen)
                    invariant
                        Self::steps(&mid, self),
                        Self::enum_item_ok(old(self), &mid),
                        self.measure() < old(self).measure(),
                        self.measure() <= mv,
                        self.next_expr_id == old(self).next_expr_id,
                        self.enum_names@ == old(self).enum_names@.push(name),
                    decreases self.measure(),
                {
                    let t = self.parse_type()?;
                    fields.push(t);
                    if matches!(self.current.token, Token::Comma) {
                        self.advance();
                    }
                }
                self.expect(Token::RightParen)?;
            }
            variants.push((v, fields));
            if matches!(self.current.token, Token::Comma) {
                self.advance();
            }
        }
        let end = self.current.span;
        self.expect(Token::RightBrace)?;
        self.type_params = Vec::new();
        Ok(EnumDef { name, params, variants, span: start.merge(end) })
    }

    fn parse_struct(&mut self) -> (r: Result<StructDef, LexoraError>)
        requires
            old(self).wf(),
            old(self).current.token is Struct,
        ensures
            Self::item_ok(old(self), final(self)),
            final(self).next_expr_id == old(self).next_expr_id,
    {
        let start = self.current.span;
        self.advance();
        let name = self.parse_symbol()?;
        self.expect(Token::LeftBrace)?;
        let mut fields: Vec<(Symbol, Type)> = Vec::new();
        while !matches!(self.current.token, Token::RightBrace)
            invariant
                Self::steps(old(self), self),
                self.measure() < old(self).measure(),
                self.next_expr_id == old(self).next_expr_id,
            decreases self.measure(),
        {
            let field_name = self.parse_symbol()?;
            self.expect(Token::Colon)?;
            let field_type = self.parse_type()?;
            fields.push((field_name, field_type));
            if matches!(self.current.token, Token::Comma) {
                self.advance();
            }
        }
        let end = self.current.span;
        self.expect(Token::RightBrace)?;
        Ok(StructDef { name, fields, span: start.merge(end) })
    }

    fn parse_import(&mut self) -> (r: Result<&'src str, LexoraError>)
        requires
            old(self).wf(),
            old(self).current.token is Import,
        ensures
            Self::item_ok(old(self), final(self)),
            final(self).next_expr_id == old(self).next_expr_id,
    {
        self.advance();
        let path = match self.cur_string() {
            Some(x) => {
                self.advance();
                x
            },
            None => {
                return Err(self.unexpected(to_string("dosya yolu")));
            },
        };
        self.expect(Token::Semicolon)?;
        Ok(path)
    }

    fn parse_function(&mut self) -> (r: Result<Function<'src>, LexoraError>)
        requires
            old(self).wf(),
            old(self).current.token is Fn,
        ensures
            Self::item_ok(old(self), final(self)),
            r matches Ok(f) ==> ids_in(block_ids(&f.body), old(self).next_expr_id as int, final(self).next_expr_id as int),
            r matches Ok(f) ==> (final(self).errors@.len() == old(self).errors@.len() ==> clean_block(&f.body)),
    {
        let start = self.current.span;
        self.advance();
        let name = self.parse_symbol()?;
        self.expect(Token::LeftParen)?;
        let mut params: Vec<(Symbol, Type)> = Vec::new();
        while !matches!(self.current.token, Token::RightParen)
            invariant
                Self::steps(old(self), self),
                self.measure() < old(self).measure(),
                self.next_expr_id == old(self).next_expr_id,
            decreases self.measure(),
        {
            let param_name = self.parse_symbol()?;
            self.expect(Token::Colon)?;
            let param_type = self.parse_type()?;
            params.push((param_name, param_type));
            if matches!(self.current.token, Token::Comma) {
                self.advance();
            }
        }
        self.expect(Token::RightParen)?;
        self.expect(Token::Arrow)?;
        let return_type = self.parse_type()?;
        let body = self.parse_value_block()?;
        let span = start.merge(body.span);
        Ok(Function { name, params, return_type, body, span })
    }

    /// Parses the whole file: functions, structs and imports. An item that
    /// fails to parse is recorded as an error and skipped; the lexer's error,
    /// if any, comes last. Every expression of the result has its own id,
    /// and when no error was recorded no placeholder of an error remains.
    pub fn parse_program(&mut self) -> (p: Program<'src>)
        requires
            old(self).wf(),
        ensures
            final(self).wf(),
            final(self).cur() is Eof,
            old(self).next_id_v() <= final(self).next_id_v(),
            ids_in(program_ids(&p), old(self).next_id_v(), final(self).next_id_v()),
            final(self).errs().len() == old(self).errs().len() ==> clean_program(&p),
            final(self).errs().len() == old(self).errs().len() ==> ((old(self).cur() is Fn ==> p.functions@.len() >= 1)
                && (old(self).cur() is Struct ==> p.structs@.len() >= 1) && (old(self).cur() is Enum
                ==> p.enums@.len() >= 1) && (old(self).cur() is Import ==> p.imports@.len() >= 1)),
    {
        let mut functions: Vec<Function<'src>> = Vec::new();
        let mut structs: Vec<StructDef> = Vec::new();
        let mut imports: Vec<&'src str> = Vec::new();
        let mut enums: Vec<EnumDef> = Vec::new();
        while !matches!(self.current.token, Token::Eof)
            invariant
                self.wf(),
                old(self).next_expr_id <= self.next_expr_id,
                ids_in(functions_ids(functions@), old(self).next_expr_id as int, self.next_expr_id as int),
                old(self).errors@.len() <= self.errors@.len(),
                self.errors@.len() == old(self).errors@.len() ==> clean_functions(functions@),
                old(self).cur() is Fn ==> (functions@.len() >= 1 || self.errors@.len() > old(self).errors@.len()
                    || self.cur() is Fn),
                old(self).cur() is Struct ==> (structs@.len() >= 1 || self.errors@.len() > old(self).errors@.len()
                    || self.cur() is Struct),
                old(self).cur() is Enum ==> (enums@.len() >= 1 || self.errors@.len() > old(self).errors@.len()
                    || self.cur() is Enum),
                old(self).cur() is Import ==> (imports@.len() >= 1 || self.errors@.len() > old(self).errors@.len()
                    || self.cur() is Import),
            decreases self.measure(),
        {
            let ghost head = *self;
            let ghost n0 = self.next_expr_id;
            self.type_params = Vec::new();
            let result: Result<(), LexoraError> = if matches!(self.current.token, Token::Enum) {
                match self.parse_enum() {
                    Ok(ed) => {
                        enums.push(ed);
                        Ok(())
                    },
                    Err(e) => Err(e),
                }
            } else if matches!(self.current.token, Token::Struct) {
                match self.parse_struct() {
                    Ok(sd) => {
                        structs.push(sd);
                        Ok(())
                    },
                    Err(e) => Err(e),
                }
            } else if matches!(self.current.token, Token::Import) {
                match self.parse_import() {
                    Ok(path) => {
                        imports.push(path);
                        Ok(())
                    },
                    Err(e) => Err(e),
                }
            } else if matches!(self.current.token, Token::Fn) {
                match self.parse_function() {
                    Ok(f) => {
                        proof {
                            lemma_ids_cat(functions_ids(functions@), block_ids(&f.body), old(self).next_expr_id as int, n0 as int, self.next_expr_id as int);
                            assert(functions@.push(f).drop_last() =~= functions@);
                        }
                        functions.push(f);
                        Ok(())
                    },
                    Err(e) => Err(e),
                }
            } else {
                Err(self.unexpected(to_string("struct, fn, enum, impl, import")))
            };
            if let Err(e) = result {
                self.errors.push(e);
                self.synchronize();
            }
        }
        self.errors.append(&mut self.lex_errors);
        Program { functions, structs, imports, enums }
    }
}

/// Reads `lexer` to its end and collects what must be known before any file
/// is parsed: the name right after each `enum` keyword, interned, and the
/// path right after each `import` keyword. Lexical errors are skipped.
pub fn scan_declarations<'s>(lexer: &mut Lexer<'s>, interner: &mut Interner) -> (r: (Vec<Symbol>, Vec<&'s str>))
    requires
        old(lexer).wf(),
        old(interner).wf(),
        old(interner)@.len() + old(lexer).bytes().len() < u32::MAX,
    ensures
        final(lexer).wf(),
        final(lexer).bytes() == old(lexer).bytes(),
        final(lexer).pos() == old(lexer).bytes().len(),
        final(interner).wf(),
        crate::typechecker::grows(old(interner)@, final(interner)@),
        final(interner)@.len() <= old(interner)@.len() + old(lexer).bytes().len(),
        forall|i: int| 0 <= i < r.0@.len() ==> (#[trigger] r.0@[i]).0 < final(interner)@.len(),
{
    let mut names: Vec<Symbol> = Vec::new();
    let mut imports: Vec<&'s str> = Vec::new();
    let mut after_enum = false;
    let mut after_import = false;
    loop
        invariant
            lexer.wf(),
            lexer.bytes() == old(lexer).bytes(),
            lexer.base() == old(lexer).base(),
            old(lexer).pos() <= lexer.pos() <= lexer.bytes().len(),
            interner.wf(),
            crate::typechecker::grows(old(interner)@, interner@),
            interner@.len() <= old(interner)@.len() + lexer.pos(),
            old(interner)@.len() + lexer.bytes().len() < u32::MAX,
            forall|i: int| 0 <= i < names@.len() ==> (#[trigger] names@[i]).0 < interner@.len(),
        ensures
            lexer.pos() == lexer.bytes().len(),
        decreases lexer.bytes().len() - lexer.pos(),
    {
        let ghost b = lexer.bytes();
        let ghost pos0 = lexer.pos();
        let r = lexer.next_token();
        proof {
            lemma_next_token_progress(b, old(lexer).base(), pos0, lexer.pos(), r);
        }
        match r {
            Err(_) => {
                after_enum = false;
                after_import = false;
            },
            Ok(t) => match t.token {
                Token::Eof => {
                    break;
                },
                Token::Enum => {
                    after_enum = true;
                    after_import = false;
                },
                Token::Import => {
                    after_import = true;
                    after_enum = false;
                },
                Token::Identifier(text) => {
                    if after_enum {
                        let ghost before = interner@;
                        let sym = interner.intern(text);
                        names.push(sym);
                        proof {
                            assert forall|i: int| 0 <= i < before.len() implies #[trigger] interner@[i] == before[i] by {}
                        }
                    }
                    after_enum = false;
                    after_import = false;
                },
                Token::StringLiteral(text) => {
                    if after_import {
                        imports.push(text);
                    }
                    after_enum = false;
                    after_import = false;
                },
                _ => {
                    after_enum = false;
                    after_import = false;
                },
            },
        }
    }
    (names, imports)
}

/// The expression ids of a parsed program are pairwise distinct, and all
/// lie between where the parser's counter stood before and after.
pub proof fn lemma_program_ids_distinct<'a>(p: &Program<'a>, lo: int, hi: int)
    requires
        ids_in(program_ids(p), lo, hi),
    ensures
        program_ids(p).no_duplicates(),
        forall|i: int| 0 <= i < program_ids(p).len() ==> lo <= #[trigger] program_ids(p)[i] < hi,
{
    lemma_ids_distinct(program_ids(p), lo, hi);
}

} // verus!
