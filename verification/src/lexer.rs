use vstd::prelude::*;
use vstd::string::StringSliceAdditionalSpecFns;
use crate::span::Span;
use crate::error::LexoraError;
use crate::text::{push_char, push_str};
use crate::strslice::{substr, lemma_ascii_boundary};

verus! {

broadcast use vstd::utf8::encode_utf8_valid_utf8;

#[derive(Debug, Clone, PartialEq)]
pub enum Token<'src> {
    Integer(i64),
    Identifier(&'src str),
    StringLiteral(&'src str),
    Let,
    Fn,
    Return,
    If,
    Else,
    True,
    False,
    While,
    For,
    In,
    And,
    Or,
    Not,
    As,
    Import,
    Struct,
    Enum,
    Match,
    I32,
    I64,
    Bool,
    Void,
    Str,
    Plus,
    Minus,
    Star,
    Slash,
    Equals,
    EqualsEquals,
    Bang,
    BangEquals,
    Less,
    Greater,
    LessEq,
    GreaterEq,
    Semicolon,
    Colon,
    ColonColon,
    Comma,
    Arrow,
    FatArrow,
    Dot,
    DotDot,
    LeftParen,
    RightParen,
    LeftBrace,
    RightBrace,
    LeftBracket,
    RightBracket,
    Eof,
}

#[derive(Debug, Clone)]
pub struct SpannedToken<'src> {
    pub token: Token<'src>,
    pub span: Span,
}

/// Space, tab, carriage return or newline.
pub open spec fn is_ws(c: u8) -> bool {
    c == 32 || c == 9 || c == 13 || c == 10
}

pub open spec fn is_digit(c: u8) -> bool {
    48 <= c <= 57
}

/// A byte that may start an identifier: an ASCII letter or `_`.
pub open spec fn is_ident_start(c: u8) -> bool {
    (97 <= c <= 122) || (65 <= c <= 90) || c == 95
}

/// A byte that may continue an identifier: an ASCII letter, digit or `_`.
pub open spec fn is_ident_char(c: u8) -> bool {
    is_ident_start(c) || is_digit(c)
}

/// The position of the first newline at or after `p` (the length when there is none).
pub open spec fn line_end(b: Seq<u8>, p: int) -> int
    decreases b.len() - p,
{
    if 0 <= p < b.len() && b[p] != 10 {
        line_end(b, p + 1)
    } else {
        p
    }
}

/// Whether a `//` line comment starts at `p`.
pub open spec fn comment_at(b: Seq<u8>, p: int) -> bool {
    0 <= p && p + 1 < b.len() && b[p] == 47 && b[p + 1] == 47
}

/// The first position at or after `p` that is neither whitespace nor part
/// of a `//` line comment.
pub open spec fn skip_ws(b: Seq<u8>, p: int) -> int
    decreases b.len() - p,
{
    if 0 <= p < b.len() && is_ws(b[p]) {
        skip_ws(b, p + 1)
    } else if comment_at(b, p) {
        proof {
            lemma_line_end_bound(b, p + 2);
        }
        skip_ws(b, line_end(b, p + 2))
    } else {
        p
    }
}

pub proof fn lemma_line_end_bound(b: Seq<u8>, p: int)
    requires
        0 <= p <= b.len(),
    ensures
        p <= line_end(b, p) <= b.len(),
        line_end(b, p) < b.len() ==> b[line_end(b, p)] == 10,
    decreases b.len() - p,
{
    if p < b.len() && b[p] != 10 {
        lemma_line_end_bound(b, p + 1);
    }
}

/// The end of the run of digits that starts at `p`.
pub open spec fn digits_end(b: Seq<u8>, p: int) -> int
    decreases b.len() - p,
{
    if 0 <= p < b.len() && is_digit(b[p]) {
        digits_end(b, p + 1)
    } else {
        p
    }
}

/// The end of the run of identifier bytes that starts at `p`.
pub open spec fn ident_end(b: Seq<u8>, p: int) -> int
    decreases b.len() - p,
{
    if 0 <= p < b.len() && is_ident_char(b[p]) {
        ident_end(b, p + 1)
    } else {
        p
    }
}

/// The position of the first `"` at or after `p` (the length when there is none).
pub open spec fn quote_pos(b: Seq<u8>, p: int) -> int
    decreases b.len() - p,
{
    if 0 <= p < b.len() && b[p] != 34 {
        quote_pos(b, p + 1)
    } else {
        p
    }
}

/// The value of a run of decimal digits.
pub open spec fn digits_value(w: Seq<u8>) -> nat
    decreases w.len(),
{
    if w.len() == 0 {
        0
    } else {
        digits_value(w.drop_last()) * 10 + (w.last() - 48) as nat
    }
}

/// The number of newline bytes among the first `p` bytes.
pub open spec fn newlines(b: Seq<u8>, p: int) -> nat
    decreases p,
{
    if p <= 0 {
        0
    } else {
        newlines(b, p - 1) + if b[p - 1] == 10 {
            1nat
        } else {
            0nat
        }
    }
}

/// The keyword or type token that a word spells, if any.
pub open spec fn keyword<'a>(w: Seq<u8>) -> Option<Token<'a>> {
    if w == seq![108u8, 101, 116] {
        Some(Token::Let)
    } else if w == seq![102u8, 110] {
        Some(Token::Fn)
    } else if w == seq![114u8, 101, 116, 117, 114, 110] {
        Some(Token::Return)
    } else if w == seq![105u8, 102] {
        Some(Token::If)
    } else if w == seq![101u8, 108, 115, 101] {
        Some(Token::Else)
    } else if w == seq![116u8, 114, 117, 101] {
        Some(Token::True)
    } else if w == seq![102u8, 97, 108, 115, 101] {
        Some(Token::False)
    } else if w == seq![119u8, 104, 105, 108, 101] {
        Some(Token::While)
    } else if w == seq![102u8, 111, 114] {
        Some(Token::For)
    } else if w == seq![105u8, 110] {
        Some(Token::In)
    } else if w == seq![97u8, 110, 100] {
        Some(Token::And)
    } else if w == seq![111u8, 114] {
        Some(Token::Or)
    } else if w == seq![110u8, 111, 116] {
        Some(Token::Not)
    } else if w == seq![97u8, 115] {
        Some(Token::As)
    } else if w == seq![105u8, 109, 112, 111, 114, 116] {
        Some(Token::Import)
    } else if w == seq![115u8, 116, 114, 117, 99, 116] {
        Some(Token::Struct)
    } else if w == seq![101u8, 110, 117, 109] {
        Some(Token::Enum)
    } else if w == seq![109u8, 97, 116, 99, 104] {
        Some(Token::Match)
    } else if w == seq![105u8, 51, 50] {
        Some(Token::I32)
    } else if w == seq![105u8, 54, 52] {
        Some(Token::I64)
    } else if w == seq![98u8, 111, 111, 108] {
        Some(Token::Bool)
    } else if w == seq![118u8, 111, 105, 100] {
        Some(Token::Void)
    } else if w == seq![115u8, 116, 114] {
        Some(Token::Str)
    } else {
        None
    }
}

/// What the lexer finds at position `s` (after whitespace).
pub enum Lexeme<'a> {
    /// A token spelled by fixed bytes (operators and punctuation).
    Fixed(Token<'a>),
    Integer,
    Word,
    StringLit,
    Eof,
    BadChar(u8),
    Unterminated,
}

/// The byte at `p`, or 0 past the end.
pub open spec fn byte_at(b: Seq<u8>, p: int) -> u8 {
    if 0 <= p < b.len() {
        b[p]
    } else {
        0
    }
}

/// The lexeme that starts at `s` and the position just after it.
pub open spec fn lexeme_at<'a>(b: Seq<u8>, s: int) -> (Lexeme<'a>, int) {
    if s >= b.len() {
        (Lexeme::Eof, s)
    } else {
        let c = b[s];
        let n = byte_at(b, s + 1);
        if c == 43 {
            (Lexeme::Fixed(Token::Plus), s + 1)
        } else if c == 45 {
            if n == 62 {
                (Lexeme::Fixed(Token::Arrow), s + 2)
            } else {
                (Lexeme::Fixed(Token::Minus), s + 1)
            }
        } else if c == 42 {
            (Lexeme::Fixed(Token::Star), s + 1)
        } else if c == 47 {
            (Lexeme::Fixed(Token::Slash), s + 1)
        } else if c == 59 {
            (Lexeme::Fixed(Token::Semicolon), s + 1)
        } else if c == 58 {
            if n == 58 {
                (Lexeme::Fixed(Token::ColonColon), s + 2)
            } else {
                (Lexeme::Fixed(Token::Colon), s + 1)
            }
        } else if c == 44 {
            (Lexeme::Fixed(Token::Comma), s + 1)
        } else if c == 40 {
            (Lexeme::Fixed(Token::LeftParen), s + 1)
        } else if c == 41 {
            (Lexeme::Fixed(Token::RightParen), s + 1)
        } else if c == 123 {
            (Lexeme::Fixed(Token::LeftBrace), s + 1)
        } else if c == 125 {
            (Lexeme::Fixed(Token::RightBrace), s + 1)
        } else if c == 91 {
            (Lexeme::Fixed(Token::LeftBracket), s + 1)
        } else if c == 93 {
            (Lexeme::Fixed(Token::RightBracket), s + 1)
        } else if c == 46 {
            if n == 46 {
                (Lexeme::Fixed(Token::DotDot), s + 2)
            } else {
                (Lexeme::Fixed(Token::Dot), s + 1)
            }
        } else if c == 60 {
            if n == 61 {
                (Lexeme::Fixed(Token::LessEq), s + 2)
            } else {
                (Lexeme::Fixed(Token::Less), s + 1)
            }
        } else if c == 62 {
            if n == 61 {
                (Lexeme::Fixed(Token::GreaterEq), s + 2)
            } else {
                (Lexeme::Fixed(Token::Greater), s + 1)
            }
        } else if c == 61 {
            if n == 61 {
                (Lexeme::Fixed(Token::EqualsEquals), s + 2)
            } else if n == 62 {
                (Lexeme::Fixed(Token::FatArrow), s + 2)
            } else {
                (Lexeme::Fixed(Token::Equals), s + 1)
            }
        } else if c == 33 {
            if n == 61 {
                (Lexeme::Fixed(Token::BangEquals), s + 2)
            } else {
                (Lexeme::Fixed(Token::Bang), s + 1)
            }
        } else if is_digit(c) {
            (Lexeme::Integer, digits_end(b, s))
        } else if c == 34 {
            let q = quote_pos(b, s + 1);
            if q >= b.len() {
                (Lexeme::Unterminated, b.len() as int)
            } else {
                (Lexeme::StringLit, q + 1)
            }
        } else if is_ident_start(c) {
            (Lexeme::Word, ident_end(b, s))
        } else {
            (Lexeme::BadChar(c), s + 1)
        }
    }
}

fn is_ws_byte(c: u8) -> (r: bool)
    ensures
        r == is_ws(c),
{
    c == 32 || c == 9 || c == 13 || c == 10
}

/// Tokenizes one source file whose first byte has the global offset `base`.
pub struct Lexer<'src> {
    source: &'src str,
    pos: usize,
    pub line: usize,
    base: u32,
}

impl<'src> Lexer<'src> {
    /// The source bytes.
    pub closed spec fn bytes(&self) -> Seq<u8> {
        self.source.spec_bytes()
    }

    /// The position of the next unread byte.
    pub closed spec fn pos(&self) -> int {
        self.pos as int
    }

    /// The global offset of the first source byte.
    pub closed spec fn base(&self) -> int {
        self.base as int
    }

    /// The current line number (its public field `line`).
    pub closed spec fn line_no(&self) -> int {
        self.line as int
    }

    pub open spec fn wf(&self) -> bool {
        &&& 0 <= self.pos() <= self.bytes().len()
        &&& self.base() + self.bytes().len() < u32::MAX
        &&& self.line_no() == 1 + newlines(self.bytes(), self.pos())
    }

    pub fn new(source: &'src str, base: u32) -> (r: Lexer<'src>)
        requires
            base + source.spec_bytes().len() < u32::MAX,
        ensures
            r.wf(),
            r.bytes() == source.spec_bytes(),
            r.base() == base,
            r.pos() == 0,
    {
        Lexer { source, pos: 0, line: 1, base }
    }

    fn span(&self, start: u32, end: u32) -> (r: Span)
        requires
            self.base() + start <= u32::MAX,
            self.base() + end <= u32::MAX,
        ensures
            r.start == self.base() + start,
            r.end == self.base() + end,
    {
        Span::new(self.base + start, self.base + end)
    }

    fn current(&self) -> (c: u8)
        requires
            self.wf(),
        ensures
            c == byte_at(self.bytes(), self.pos()),
    {
        let b = self.source.as_bytes();
        if self.pos < b.len() {
            b[self.pos]
        } else {
            0
        }
    }

    fn peek(&self) -> (c: u8)
        requires
            self.wf(),
        ensures
            c == byte_at(self.bytes(), self.pos() + 1),
    {
        let b = self.source.as_bytes();
        assert(b@ == self.bytes());
        if self.pos < b.len() && self.pos + 1 < b.len() {
            b[self.pos + 1]
        } else {
            0
        }
    }

    proof fn lemma_newlines_step(b: Seq<u8>, p: int)
        requires
            0 <= p < b.len(),
        ensures
            newlines(b, p + 1) == newlines(b, p) + if b[p] == 10 {
                1nat
            } else {
                0nat
            },
    {
    }

    proof fn lemma_newlines_bound(b: Seq<u8>, p: int)
        requires
            0 <= p,
        ensures
            newlines(b, p) <= p,
        decreases p,
    {
        if p > 0 {
            Self::lemma_newlines_bound(b, p - 1);
        }
    }

    fn advance(&mut self)
        requires
            old(self).wf(),
        ensures
            final(self).wf(),
            final(self).bytes() == old(self).bytes(),
            final(self).base() == old(self).base(),
            final(self).pos() == if old(self).pos() < old(self).bytes().len() {
                old(self).pos() + 1
            } else {
                old(self).pos()
            },
    {
        let b = self.source.as_bytes();
        assert(b@ == self.bytes());
        if self.pos < b.len() {
            proof {
                Self::lemma_newlines_step(b@, self.pos as int);
                Self::lemma_newlines_bound(b@, self.pos as int);
            }
            if b[self.pos] == 10 {
                self.line = self.line + 1;
            }
            self.pos = self.pos + 1;
        }
    }

    fn skip_whitespace(&mut self)
        requires
            old(self).wf(),
        ensures
            final(self).wf(),
            final(self).bytes() == old(self).bytes(),
            final(self).base() == old(self).base(),
            final(self).pos() == skip_ws(old(self).bytes(), old(self).pos()),
    {
        let b = self.source.as_bytes();
        assert(b@ == self.bytes());
        let target = skip_pos(b, self.pos);
        proof {
            lemma_skip_ws_bound(b@, self.pos as int);
        }
        while self.pos < target
            invariant
                self.wf(),
                self.bytes() == old(self).bytes(),
                self.base() == old(self).base(),
                old(self).pos() <= self.pos() <= target,
                target == skip_ws(old(self).bytes(), old(self).pos()),
                target <= self.bytes().len(),
            decreases target - self.pos(),
        {
            self.advance();
        }
    }
}


/// A prefix of a run of digits is worth no more than the whole run.
pub proof fn lemma_digits_prefix(w: Seq<u8>, k: int)
    requires
        0 <= k <= w.len(),
        forall|i: int| 0 <= i < w.len() ==> is_digit(#[trigger] w[i]),
    ensures
        digits_value(w.take(k)) <= digits_value(w),
    decreases w.len(),
{
    if k < w.len() {
        assert(w.take(k) =~= w.drop_last().take(k));
        lemma_digits_prefix(w.drop_last(), k);
    } else {
        assert(w.take(k) =~= w);
    }
}

proof fn lemma_digits_end_bound(b: Seq<u8>, p: int)
    requires
        0 <= p <= b.len(),
    ensures
        p <= digits_end(b, p) <= b.len(),
        forall|i: int| p <= i < digits_end(b, p) ==> is_digit(#[trigger] b[i]),
        digits_end(b, p) < b.len() ==> !is_digit(b[digits_end(b, p)]),
    decreases b.len() - p,
{
    if p < b.len() && is_digit(b[p]) {
        lemma_digits_end_bound(b, p + 1);
    }
}

proof fn lemma_ident_end_bound(b: Seq<u8>, p: int)
    requires
        0 <= p <= b.len(),
    ensures
        p <= ident_end(b, p) <= b.len(),
        forall|i: int| p <= i < ident_end(b, p) ==> is_ident_char(#[trigger] b[i]),
    decreases b.len() - p,
{
    if p < b.len() && is_ident_char(b[p]) {
        lemma_ident_end_bound(b, p + 1);
    }
}

proof fn lemma_quote_pos_bound(b: Seq<u8>, p: int)
    requires
        0 <= p <= b.len(),
    ensures
        p <= quote_pos(b, p) <= b.len(),
        quote_pos(b, p) < b.len() ==> b[quote_pos(b, p)] == 34,
    decreases b.len() - p,
{
    if p < b.len() && b[p] != 34 {
        lemma_quote_pos_bound(b, p + 1);
    }
}

proof fn lemma_skip_ws_bound(b: Seq<u8>, p: int)
    requires
        0 <= p <= b.len(),
    ensures
        p <= skip_ws(b, p) <= b.len(),
        skip_ws(b, p) < b.len() ==> !is_ws(b[skip_ws(b, p)]) && !comment_at(b, skip_ws(b, p)),
    decreases b.len() - p,
{
    if p < b.len() && is_ws(b[p]) {
        lemma_skip_ws_bound(b, p + 1);
    } else if comment_at(b, p) {
        lemma_line_end_bound(b, p + 2);
        lemma_skip_ws_bound(b, line_end(b, p + 2));
    }
}

/// Where the whitespace and comments starting at `p` end.
fn skip_pos(b: &[u8], p: usize) -> (r: usize)
    requires
        p <= b@.len(),
    ensures
        r == skip_ws(b@, p as int),
{
    let mut q = p;
    while q < b.len()
        invariant
            p <= q <= b@.len(),
            skip_ws(b@, q as int) == skip_ws(b@, p as int),
        decreases b@.len() - q,
    {
        if is_ws_byte(b[q]) {
            q = q + 1;
        } else if b[q] == 47u8 && q + 1 < b.len() && b[q + 1] == 47u8 {
            let ghost c = q as int;
            proof {
                lemma_line_end_bound(b@, c + 2);
            }
            q = q + 2;
            while q < b.len() && b[q] != 10u8
                invariant
                    c + 2 <= q <= b@.len(),
                    line_end(b@, q as int) == line_end(b@, c + 2),
                    skip_ws(b@, c) == skip_ws(b@, p as int),
                    comment_at(b@, c),
                    !is_ws(b@[c]),
                decreases b@.len() - q,
            {
                q = q + 1;
            }
            assert(line_end(b@, q as int) == q);
            assert(skip_ws(b@, c) == skip_ws(b@, line_end(b@, c + 2)));
        } else {
            return q;
        }
    }
    q
}

/// Whether `b[start..end]` spells exactly `w`.
fn word_is(b: &[u8], start: usize, end: usize, w: &[u8]) -> (r: bool)
    requires
        start <= end <= b@.len(),
    ensures
        r == (b@.subrange(start as int, end as int) == w@),
{
    if end - start != w.len() {
        return false;
    }
    let mut i: usize = 0;
    while i < w.len()
        invariant
            start <= end <= b@.len(),
            end - start == w@.len(),
            i <= w@.len(),
            forall|j: int| 0 <= j < i ==> b@[start + j] == w@[j],
        decreases w@.len() - i,
    {
        if b[start + i] != w[i] {
            assert(b@.subrange(start as int, end as int)[i as int] != w@[i as int]);
            return false;
        }
        i = i + 1;
    }
    assert(b@.subrange(start as int, end as int) =~= w@);
    true
}

/// The keyword token spelled by `b[start..end]`, if any.
fn keyword_at<'a>(b: &[u8], start: usize, end: usize) -> (r: Option<Token<'a>>)
    requires
        start <= end <= b@.len(),
    ensures
        r == keyword::<'a>(b@.subrange(start as int, end as int)),
{
    let ghost w = b@.subrange(start as int, end as int);
    if word_is(b, start, end, &[108u8, 101, 116]) {
        assert(w == seq![108u8, 101, 116]);
        return Some(Token::Let);
    }
    if word_is(b, start, end, &[102u8, 110]) {
        return Some(Token::Fn);
    }
    if word_is(b, start, end, &[114u8, 101, 116, 117, 114, 110]) {
        return Some(Token::Return);
    }
    if word_is(b, start, end, &[105u8, 102]) {
        return Some(Token::If);
    }
    if word_is(b, start, end, &[101u8, 108, 115, 101]) {
        return Some(Token::Else);
    }
    if word_is(b, start, end, &[116u8, 114, 117, 101]) {
        return Some(Token::True);
    }
    if word_is(b, start, end, &[102u8, 97, 108, 115, 101]) {
        return Some(Token::False);
    }
    if word_is(b, start, end, &[119u8, 104, 105, 108, 101]) {
        return Some(Token::While);
    }
    if word_is(b, start, end, &[102u8, 111, 114]) {
        return Some(Token::For);
    }
    if word_is(b, start, end, &[105u8, 110]) {
        return Some(Token::In);
    }
    if word_is(b, start, end, &[97u8, 110, 100]) {
        return Some(Token::And);
    }
    if word_is(b, start, end, &[111u8, 114]) {
        return Some(Token::Or);
    }
    if word_is(b, start, end, &[110u8, 111, 116]) {
        return Some(Token::Not);
    }
    if word_is(b, start, end, &[97u8, 115]) {
        return Some(Token::As);
    }
    if word_is(b, start, end, &[105u8, 109, 112, 111, 114, 116]) {
        return Some(Token::Import);
    }
    if word_is(b, start, end, &[115u8, 116, 114, 117, 99, 116]) {
        return Some(Token::Struct);
    }
    if word_is(b, start, end, &[101u8, 110, 117, 109]) {
        return Some(Token::Enum);
    }
    if word_is(b, start, end, &[109u8, 97, 116, 99, 104]) {
        return Some(Token::Match);
    }
    if word_is(b, start, end, &[105u8, 51, 50]) {
        return Some(Token::I32);
    }
    if word_is(b, start, end, &[105u8, 54, 52]) {
        return Some(Token::I64);
    }
    if word_is(b, start, end, &[98u8, 111, 111, 108]) {
        return Some(Token::Bool);
    }
    if word_is(b, start, end, &[118u8, 111, 105, 100]) {
        return Some(Token::Void);
    }
    if word_is(b, start, end, &[115u8, 116, 114]) {
        return Some(Token::Str);
    }
    None
}


impl<'src> Lexer<'src> {
    fn read_integer(&mut self) -> (t: Token<'src>)
        requires
            old(self).wf(),
            old(self).pos() < old(self).bytes().len(),
            is_digit(old(self).bytes()[old(self).pos()]),
            digits_value(
                old(self).bytes().subrange(
                    old(self).pos(),
                    digits_end(old(self).bytes(), old(self).pos()),
                ),
            ) <= i64::MAX,
        ensures
            final(self).wf(),
            final(self).bytes() == old(self).bytes(),
            final(self).base() == old(self).base(),
            final(self).pos() == digits_end(old(self).bytes(), old(self).pos()),
            t == Token::<'src>::Integer(
                digits_value(old(self).bytes().subrange(old(self).pos(), final(self).pos())) as i64,
            ),
    {
        let ghost b = self.bytes();
        let start = self.pos;
        let ghost end = digits_end(b, start as int);
        proof {
            lemma_digits_end_bound(b, start as int);
        }
        let mut acc: i64 = 0;
        while self.pos < self.source.as_bytes().len() && is_digit_byte(self.current())
            invariant
                self.wf(),
                self.bytes() == b,
                self.base() == old(self).base(),
                start <= self.pos() <= end,
                end == digits_end(b, start as int),
                end <= b.len(),
                forall|i: int| start <= i < end ==> is_digit(#[trigger] b[i]),
                end < b.len() ==> !is_digit(b[end]),
                digits_value(b.subrange(start as int, end)) <= i64::MAX,
                acc == digits_value(b.subrange(start as int, self.pos())),
            decreases b.len() - self.pos(),
        {
            let c = self.current();
            proof {
                let w = b.subrange(start as int, end);
                let k = self.pos() + 1 - start;
                assert(w.take(k) =~= b.subrange(start as int, self.pos() + 1));
                assert(forall|i: int| 0 <= i < w.len() ==> is_digit(#[trigger] w[i]));
                lemma_digits_prefix(w, k);
                assert(b.subrange(start as int, self.pos() + 1).drop_last() =~= b.subrange(
                    start as int,
                    self.pos(),
                ));
            }
            acc = acc * 10 + (c - 48u8) as i64;
            self.advance();
        }
        Token::Integer(acc)
    }

    fn read_identifier(&mut self) -> (t: Token<'src>)
        requires
            old(self).wf(),
            old(self).pos() < old(self).bytes().len(),
            is_ident_start(old(self).bytes()[old(self).pos()]),
        ensures
            final(self).wf(),
            final(self).bytes() == old(self).bytes(),
            final(self).base() == old(self).base(),
            final(self).pos() == ident_end(old(self).bytes(), old(self).pos()),
            word_token(old(self).bytes().subrange(old(self).pos(), final(self).pos()), t),
    {
        let ghost b = self.bytes();
        let start = self.pos;
        proof {
            lemma_ident_end_bound(b, start as int);
        }
        while self.pos < self.source.as_bytes().len() && is_ident_byte(self.current())
            invariant
                self.wf(),
                self.bytes() == b,
                self.base() == old(self).base(),
                start <= self.pos() <= ident_end(b, start as int),
                ident_end(b, self.pos()) == ident_end(b, start as int),
            decreases b.len() - self.pos(),
        {
            proof {
                lemma_ident_end_bound(b, self.pos() + 1);
            }
            self.advance();
        }
        let end = self.pos;
        let bytes = self.source.as_bytes();
        match keyword_at(bytes, start, end) {
            Some(t) => t,
            None => {
                proof {
                    lemma_ascii_boundary(b, start as int);
                    lemma_ascii_boundary(b, end as int);
                }
                Token::Identifier(substr(self.source, start, end))
            },
        }
    }

    fn read_string(&mut self, start: u32) -> (r: Result<Token<'src>, LexoraError>)
        requires
            old(self).wf(),
            old(self).pos() < old(self).bytes().len(),
            old(self).bytes()[old(self).pos()] == 34,
            start == old(self).pos(),
        ensures
            final(self).wf(),
            final(self).bytes() == old(self).bytes(),
            final(self).base() == old(self).base(),
            ({
                let b = old(self).bytes();
                let q = quote_pos(b, start + 1);
                if q >= b.len() {
                    &&& final(self).pos() == b.len()
                    &&& r matches Err(LexoraError::Custom { message, span }) && message@
                        == "Kapatilmamis string"@ && span.start == old(self).base() + start
                        && span.end == old(self).base() + b.len()
                } else {
                    &&& final(self).pos() == q + 1
                    &&& r matches Ok(Token::StringLiteral(x)) && x.spec_bytes() == b.subrange(
                        start + 1,
                        q,
                    )
                }
            }),
    {
        let ghost b = self.bytes();
        self.advance();
        let content_start = self.pos;
        proof {
            lemma_quote_pos_bound(b, content_start as int);
        }
        while self.pos < self.source.as_bytes().len() && self.current() != 34u8
            invariant
                self.wf(),
                self.bytes() == b,
                self.base() == old(self).base(),
                content_start <= self.pos() <= quote_pos(b, content_start as int),
                quote_pos(b, self.pos()) == quote_pos(b, content_start as int),
            decreases b.len() - self.pos(),
        {
            proof {
                lemma_quote_pos_bound(b, self.pos() + 1);
            }
            self.advance();
        }
        if self.pos >= self.source.as_bytes().len() {
            return Err(
                LexoraError::Custom {
                    message: crate::text::to_string("Kapatilmamis string"),
                    span: self.span(start, self.pos as u32),
                },
            );
        }
        let end = self.pos;
        proof {
            lemma_ascii_boundary(b, content_start as int);
            lemma_ascii_boundary(b, end as int);
        }
        let content = substr(self.source, content_start, end);
        self.advance();
        Ok(Token::StringLiteral(content))
    }

    /// Reads the next token, skipping whitespace before it.
    pub fn next_token(&mut self) -> (r: Result<SpannedToken<'src>, LexoraError>)
        requires
            old(self).wf(),
        ensures
            final(self).wf(),
            final(self).bytes() == old(self).bytes(),
            final(self).base() == old(self).base(),
            lex_result(
                old(self).bytes(),
                old(self).base(),
                skip_ws(old(self).bytes(), old(self).pos()),
                final(self).pos(),
                r,
            ),
    {
        let ghost b = self.bytes();
        self.skip_whitespace();
        let ghost s = self.pos();
        proof {
            lemma_skip_ws_bound(b, old(self).pos());
        }
        let start = self.pos as u32;
        if self.pos >= self.source.as_bytes().len() {
            return Ok(SpannedToken { token: Token::Eof, span: self.span(start, start) });
        }
        let ch = self.current();
        let token = if ch == 43u8 {
            self.advance();
            Token::Plus
        } else if ch == 45u8 {
            self.advance();
            if self.current() == 62u8 {
                self.advance();
                Token::Arrow
            } else {
                Token::Minus
            }
        } else if ch == 42u8 {
            self.advance();
            Token::Star
        } else if ch == 47u8 {
            self.advance();
            Token::Slash
        } else if ch == 59u8 {
            self.advance();
            Token::Semicolon
        } else if ch == 58u8 {
            self.advance();
            if self.current() == 58u8 {
                self.advance();
                Token::ColonColon
            } else {
                Token::Colon
            }
        } else if ch == 44u8 {
            self.advance();
            Token::Comma
        } else if ch == 40u8 {
            self.advance();
            Token::LeftParen
        } else if ch == 41u8 {
            self.advance();
            Token::RightParen
        } else if ch == 123u8 {
            self.advance();
            Token::LeftBrace
        } else if ch == 125u8 {
            self.advance();
            Token::RightBrace
        } else if ch == 91u8 {
            self.advance();
            Token::LeftBracket
        } else if ch == 93u8 {
            self.advance();
            Token::RightBracket
        } else if ch == 46u8 {
            self.advance();
            if self.current() == 46u8 {
                self.advance();
                Token::DotDot
            } else {
                Token::Dot
            }
        } else if ch == 60u8 {
            self.advance();
            if self.current() == 61u8 {
                self.advance();
                Token::LessEq
            } else {
                Token::Less
            }
        } else if ch == 62u8 {
            self.advance();
            if self.current() == 61u8 {
                self.advance();
                Token::GreaterEq
            } else {
                Token::Greater
            }
        } else if ch == 61u8 {
            self.advance();
            if self.current() == 61u8 {
                self.advance();
                Token::EqualsEquals
            } else if self.current() == 62u8 {
                self.advance();
                Token::FatArrow
            } else {
                Token::Equals
            }
        } else if ch == 33u8 {
            self.advance();
            if self.current() == 61u8 {
                self.advance();
                Token::BangEquals
            } else {
                Token::Bang
            }
        } else if is_digit_byte(ch) {
            proof {
                lemma_digits_end_bound(b, s);
            }
            if !digits_fit(self.source.as_bytes(), self.pos) {
                let ghost e = digits_end(b, s);
                while self.pos < self.source.as_bytes().len() && is_digit_byte(self.current())
                    invariant
                        self.wf(),
                        self.bytes() == b,
                        self.base() == old(self).base(),
                        s <= self.pos() <= e,
                        e == digits_end(b, s),
                        digits_end(b, self.pos()) == e,
                    decreases b.len() - self.pos(),
                {
                    proof {
                        lemma_digits_end_bound(b, self.pos() + 1);
                    }
                    self.advance();
                }
                let end = self.pos as u32;
                return Err(
                    LexoraError::Custom {
                        message: crate::text::to_string("tamsayi literali i64 sinirini asiyor"),
                        span: self.span(start, end),
                    },
                );
            }
            self.read_integer()
        } else if ch == 34u8 {
            match self.read_string(start) {
                Ok(t) => t,
                Err(e) => {
                    return Err(e);
                },
            }
        } else if is_ident_start_byte(ch) {
            self.read_identifier()
        } else {
            let mut message = String::new();
            push_str(&mut message, "Beklenmedik karakter: '");
            push_char(&mut message, ch as char);
            push_str(&mut message, "'");
            assert(message@ =~= "Beklenmedik karakter: '"@ + seq![ch as char] + "'"@);
            let span = self.span(start, start + 1);
            self.advance();
            return Err(LexoraError::Custom { message, span });
        };
        let end = self.pos as u32;
        Ok(SpannedToken { token, span: self.span(start, end) })
    }

}

/// Whether the run of digits that starts at `s` spells a value that fits in `i64`.
fn digits_fit(b: &[u8], s: usize) -> (r: bool)
    requires
        s < b@.len(),
        is_digit(b@[s as int]),
    ensures
        r == (digits_value(b@.subrange(s as int, digits_end(b@, s as int))) <= i64::MAX),
{
    let ghost bs = b@;
    proof {
        lemma_digits_end_bound(bs, s as int);
    }
    let ghost end = digits_end(bs, s as int);
    let mut p = s;
    let mut acc: u64 = 0;
    while p < b.len() && is_digit_byte(b[p])
        invariant
            b@ == bs,
            s <= p <= end,
            end == digits_end(bs, s as int),
            end <= bs.len(),
            forall|i: int| s <= i < end ==> is_digit(#[trigger] bs[i]),
            end < bs.len() ==> !is_digit(bs[end]),
            acc == digits_value(bs.subrange(s as int, p as int)),
            acc <= i64::MAX,
        decreases bs.len() - p,
    {
        let d = (b[p] - 48u8) as u64;
        proof {
            assert(bs.subrange(s as int, p + 1).drop_last() =~= bs.subrange(s as int, p as int));
        }
        if acc > (9223372036854775807u64 - d) / 10 {
            proof {
                let m = 9223372036854775807u64 - d;
                assert(acc * 10 + d > 9223372036854775807u64) by (nonlinear_arith)
                    requires
                        acc > m / 10,
                        m == 9223372036854775807u64 - d,
                        d <= 9,
                ;
                let w = bs.subrange(s as int, end);
                let k = p + 1 - s;
                assert(w.take(k) =~= bs.subrange(s as int, p + 1));
                assert(forall|i: int| 0 <= i < w.len() ==> is_digit(#[trigger] w[i]));
                lemma_digits_prefix(w, k);
                let w1 = bs.subrange(s as int, p + 1);
                assert(w1.last() == bs[p as int]);
                assert(digits_value(w1) == acc * 10 + d);
            }
            return false;
        }
        acc = acc * 10 + d;
        p = p + 1;
    }
    true
}

fn is_digit_byte(c: u8) -> (r: bool)
    ensures
        r == is_digit(c),
{
    48u8 <= c && c <= 57u8
}

fn is_ident_start_byte(c: u8) -> (r: bool)
    ensures
        r == is_ident_start(c),
{
    (97u8 <= c && c <= 122u8) || (65u8 <= c && c <= 90u8) || c == 95u8
}

fn is_ident_byte(c: u8) -> (r: bool)
    ensures
        r == is_ident_char(c),
{
    is_ident_start_byte(c) || is_digit_byte(c)
}

/// `t` is the token that the word `w` reads as: its keyword, or an identifier
/// holding exactly `w`.
pub open spec fn word_token<'a>(w: Seq<u8>, t: Token<'a>) -> bool {
    match keyword::<'a>(w) {
        Some(k) => t == k,
        None => t matches Token::Identifier(x) && x.spec_bytes() == w,
    }
}

/// `r` is what `next_token` returns when the next token starts at `s`, and
/// `end` is where the lexer stands afterwards.
pub open spec fn lex_result<'a>(
    b: Seq<u8>,
    base: int,
    s: int,
    end: int,
    r: Result<SpannedToken<'a>, LexoraError>,
) -> bool {
    let (lx, e) = lexeme_at::<'a>(b, s);
    match lx {
        Lexeme::Eof => {
            &&& end == s
            &&& r matches Ok(t)
            &&& t.token == Token::<'a>::Eof
            &&& t.span.start == base + s
            &&& t.span.end == base + s
        },
        Lexeme::BadChar(c) => {
            &&& end == s + 1
            &&& r matches Err(LexoraError::Custom { message, span })
            &&& message@ == "Beklenmedik karakter: '"@ + seq![c as char] + "'"@
            &&& span.start == base + s
            &&& span.end == base + s + 1
        },
        Lexeme::Unterminated => {
            &&& end == b.len()
            &&& r matches Err(LexoraError::Custom { message, span })
            &&& message@ == "Kapatilmamis string"@
            &&& span.start == base + s
            &&& span.end == base + b.len()
        },
        Lexeme::Integer => {
            &&& end == e
            &&& if digits_value(b.subrange(s, e)) <= i64::MAX {
                &&& r matches Ok(t)
                &&& t.span.start == base + s
                &&& t.span.end == base + e
                &&& t.token == Token::<'a>::Integer(digits_value(b.subrange(s, e)) as i64)
            } else {
                &&& r matches Err(LexoraError::Custom { message, span })
                &&& message@ == "tamsayi literali i64 sinirini asiyor"@
                &&& span.start == base + s
                &&& span.end == base + e
            }
        },
        _ => {
            &&& end == e
            &&& r matches Ok(t)
            &&& t.span.start == base + s
            &&& t.span.end == base + e
            &&& match lx {
                Lexeme::Fixed(k) => t.token == k,
                Lexeme::Integer => t.token == Token::<'a>::Integer(
                    digits_value(b.subrange(s, e)) as i64,
                ),
                Lexeme::Word => word_token(b.subrange(s, e), t.token),
                Lexeme::StringLit => t.token matches Token::StringLiteral(x) && x.spec_bytes()
                    == b.subrange(s + 1, e - 1),
                _ => false,
            }
        },
    }
}

/// `next_token` never moves backwards; it returns the end-of-input token
/// exactly when only whitespace is left, and every other token it returns
/// covers at least one byte.
pub proof fn lemma_next_token_progress<'a>(
    b: Seq<u8>,
    base: int,
    pos: int,
    end: int,
    r: Result<SpannedToken<'a>, LexoraError>,
)
    requires
        0 <= pos <= b.len(),
        lex_result(b, base, skip_ws(b, pos), end, r),
    ensures
        pos <= end <= b.len(),
        r matches Ok(t) ==> (t.token is Eof <==> skip_ws(b, pos) >= b.len()),
        r matches Ok(t) && !(t.token is Eof) ==> end > pos,
        r matches Ok(t) && t.token is Eof ==> end >= b.len(),
        r is Err ==> end > pos,
{
    lemma_skip_ws_bound(b, pos);
    let s = skip_ws(b, pos);
    if s < b.len() {
        let c = b[s];
        if is_digit(c) {
            lemma_digits_end_bound(b, s + 1);
        } else if c == 34 {
            lemma_quote_pos_bound(b, s + 1);
        } else if is_ident_start(c) {
            lemma_ident_end_bound(b, s + 1);
        }
    }
}

impl<'src> Lexer<'src> {
    /// The global offset of the next unread byte.
    pub fn offset(&self) -> (r: u32)
        requires
            self.wf(),
        ensures
            r == self.base() + self.pos(),
    {
        self.base + self.pos as u32
    }
}

} // verus!
