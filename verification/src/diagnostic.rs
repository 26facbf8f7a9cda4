use vstd::prelude::*;
use crate::error::{LexoraError, error_span};
use crate::span::Span;
use vstd::string::StringSliceAdditionalSpecFns;
use vstd::seq_lib::lemma_concat_associative;
use crate::source_map::{SourceMap, Resolved, file_index, resolved_ok, lemma_resolved_shape, lemma_resolved_unique, lemma_file_index};
use crate::text::{push_str, push_char, push_repeat, push_u64, dec, repeat_char, chars_of};

verus! {

#[derive(Clone, Copy, Debug, PartialEq, Eq, Structural)]
pub enum Level {
    Error,
    Warning,
}

#[derive(Clone, Copy, Debug, PartialEq, Eq, Structural)]
pub enum NoteKind {
    Note,
    Help,
}

/// A report to show the user: a headline, the span it points at with a
/// label under it, and notes after it.
pub struct Diagnostic {
    pub level: Level,
    pub message: String,
    pub primary: Option<Span>,
    pub label: Option<String>,
    pub notes: Vec<(NoteKind, String)>,
}

/// The hint offered for a misspelt name.
pub open spec fn did_you_mean(s: Seq<char>) -> Seq<char> {
    "bunu mu demek istediniz: `"@ + s + "`?"@
}

/// The headline of the diagnostic for an error.
pub open spec fn diag_message(e: &LexoraError) -> Seq<char> {
    match e {
        LexoraError::UnexpectedToken { found, .. } => "beklenmeyen ifade: "@ + found@,
        LexoraError::UndefinedVariable { name, .. } => "tanimsiz degisken: "@ + name@,
        LexoraError::UndefinedFunction { name, .. } => "tanimsiz fonksiyon: "@ + name@,
        LexoraError::TypeMismatch { expected, found, .. } => "tip uyusmazligi: beklenen "@ + expected@
            + ", bulunan "@ + found@,
        LexoraError::AlreadyDefined { name, .. } => "zaten tanimli: "@ + name@,
        LexoraError::InvalidCast { from, to, .. } => "gecersiz cast: "@ + from@ + " -> "@ + to@,
        LexoraError::Custom { message, .. } => message@,
        LexoraError::Codegen { message } => "ic derleyici hatasi (codegen): "@ + message@,
    }
}

/// The label put under the span of the diagnostic for an error.
pub open spec fn diag_label(e: &LexoraError) -> Option<Seq<char>> {
    match e {
        LexoraError::UnexpectedToken { expected, .. } => Some("beklenen: "@ + expected@),
        LexoraError::UndefinedVariable { .. } => Some("bu kapsamda tanimli degil"@),
        LexoraError::UndefinedFunction { .. } => Some("bu isimde bir fonksiyon yok"@),
        LexoraError::TypeMismatch { found, .. } => Some("bu ifade `"@ + found@ + "` tipinde"@),
        LexoraError::AlreadyDefined { .. } => Some("yeniden tanimlandi"@),
        LexoraError::InvalidCast { from, to, .. } => Some("`"@ + from@ + "` -> `"@ + to@
            + "` desteklenmiyor"@),
        LexoraError::Custom { .. } => None,
        LexoraError::Codegen { .. } => None,
    }
}

/// The notes that follow the diagnostic for an error.
pub open spec fn diag_notes(e: &LexoraError) -> Seq<(NoteKind, Seq<char>)> {
    match e {
        LexoraError::UndefinedVariable { suggestion, .. } => match suggestion {
            Some(s) => seq![(NoteKind::Help, did_you_mean(s@))],
            None => Seq::empty(),
        },
        LexoraError::UndefinedFunction { suggestion, .. } => match suggestion {
            Some(s) => seq![(NoteKind::Help, did_you_mean(s@))],
            None => Seq::empty(),
        },
        LexoraError::TypeMismatch { expected, .. } => seq![
            (NoteKind::Help, "beklenen tip: `"@ + expected@ + "`"@),
        ],
        LexoraError::InvalidCast { .. } => seq![
            (NoteKind::Note, "gecerli cast'ler: i32 -> i64, i64 -> i32"@),
        ],
        _ => Seq::empty(),
    }
}

pub open spec fn opt_text(o: Option<String>) -> Option<Seq<char>> {
    match o {
        Some(s) => Some(s@),
        None => None,
    }
}

pub open spec fn notes_text(v: Seq<(NoteKind, String)>) -> Seq<(NoteKind, Seq<char>)> {
    Seq::new(v.len(), |i: int| (v[i].0, v[i].1@))
}

fn did_you_mean_note(s: &String) -> (r: (NoteKind, String))
    ensures
        r.0 == NoteKind::Help,
        r.1@ == did_you_mean(s@),
{
    let mut t = String::new();
    push_str(&mut t, "bunu mu demek istediniz: `");
    push_str(&mut t, s.as_str());
    push_str(&mut t, "`?");
    assert(t@ =~= did_you_mean(s@));
    (NoteKind::Help, t)
}

fn concat2(a: &str, b: &str) -> (r: String)
    ensures
        r@ == a@ + b@,
{
    let mut t = String::new();
    push_str(&mut t, a);
    push_str(&mut t, b);
    assert(t@ =~= a@ + b@);
    t
}

fn concat3(a: &str, b: &str, c: &str) -> (r: String)
    ensures
        r@ == a@ + b@ + c@,
{
    let mut t = String::new();
    push_str(&mut t, a);
    push_str(&mut t, b);
    push_str(&mut t, c);
    assert(t@ =~= a@ + b@ + c@);
    t
}

fn concat4(a: &str, b: &str, c: &str, d: &str) -> (r: String)
    ensures
        r@ == a@ + b@ + c@ + d@,
{
    let mut t = String::new();
    push_str(&mut t, a);
    push_str(&mut t, b);
    push_str(&mut t, c);
    push_str(&mut t, d);
    assert(t@ =~= a@ + b@ + c@ + d@);
    t
}

fn concat5(a: &str, b: &str, c: &str, d: &str, e: &str) -> (r: String)
    ensures
        r@ == a@ + b@ + c@ + d@ + e@,
{
    let mut t = concat4(a, b, c, d);
    push_str(&mut t, e);
    assert(t@ =~= a@ + b@ + c@ + d@ + e@);
    t
}

/// The diagnostic that reports an error: its headline, label and notes,
/// pointing at the error's span.
pub fn to_diagnostic(err: &LexoraError) -> (r: Diagnostic)
    ensures
        r.level == Level::Error,
        r.message@ == diag_message(err),
        r.primary == error_span(err),
        opt_text(r.label) == diag_label(err),
        notes_text(r.notes@) == diag_notes(err),
{
    let mut notes: Vec<(NoteKind, String)> = Vec::new();
    let (message, label) = match err {
        LexoraError::UnexpectedToken { expected, found, .. } => (
            concat2("beklenmeyen ifade: ", found.as_str()),
            Some(concat2("beklenen: ", expected.as_str())),
        ),
        LexoraError::UndefinedVariable { name, suggestion, .. } => {
            if let Some(s) = suggestion {
                notes.push(did_you_mean_note(s));
            }
            (
                concat2("tanimsiz degisken: ", name.as_str()),
                Some(crate::text::to_string("bu kapsamda tanimli degil")),
            )
        },
        LexoraError::UndefinedFunction { name, suggestion, .. } => {
            if let Some(s) = suggestion {
                notes.push(did_you_mean_note(s));
            }
            (
                concat2("tanimsiz fonksiyon: ", name.as_str()),
                Some(crate::text::to_string("bu isimde bir fonksiyon yok")),
            )
        },
        LexoraError::TypeMismatch { expected, found, .. } => {
            notes.push((NoteKind::Help, concat3("beklenen tip: `", expected.as_str(), "`")));
            (
                concat4("tip uyusmazligi: beklenen ", expected.as_str(), ", bulunan ", found.as_str()),
                Some(concat3("bu ifade `", found.as_str(), "` tipinde")),
            )
        },
        LexoraError::AlreadyDefined { name, .. } => (
            concat2("zaten tanimli: ", name.as_str()),
            Some(crate::text::to_string("yeniden tanimlandi")),
        ),
        LexoraError::InvalidCast { from, to, .. } => {
            notes.push(
                (NoteKind::Note, crate::text::to_string("gecerli cast'ler: i32 -> i64, i64 -> i32")),
            );
            (
                concat4("gecersiz cast: ", from.as_str(), " -> ", to.as_str()),
                Some(concat5("`", from.as_str(), "` -> `", to.as_str(), "` desteklenmiyor")),
            )
        },
        LexoraError::Custom { message, .. } => (crate::text::to_string(message.as_str()), None),
        LexoraError::Codegen { message } => (
            concat2("ic derleyici hatasi (codegen): ", message.as_str()),
            None,
        ),
    };
    assert(notes_text(notes@) =~= diag_notes(err));
    Diagnostic { level: Level::Error, message, primary: err.span(), label, notes }
}


/// `code` when colour is on, nothing otherwise.
pub open spec fn paint(color: bool, code: Seq<char>) -> Seq<char> {
    if color {
        code
    } else {
        Seq::empty()
    }
}

pub open spec fn red(color: bool) -> Seq<char> {
    paint(color, "\x1b[31m"@)
}

pub open spec fn yellow(color: bool) -> Seq<char> {
    paint(color, "\x1b[33m"@)
}

pub open spec fn bold(color: bool) -> Seq<char> {
    paint(color, "\x1b[1m"@)
}

pub open spec fn blue(color: bool) -> Seq<char> {
    paint(color, "\x1b[34m"@)
}

pub open spec fn reset(color: bool) -> Seq<char> {
    paint(color, "\x1b[0m"@)
}

pub open spec fn level_color(level: Level, color: bool) -> Seq<char> {
    match level {
        Level::Error => red(color),
        Level::Warning => yellow(color),
    }
}

pub open spec fn level_word(level: Level) -> Seq<char> {
    match level {
        Level::Error => "error"@,
        Level::Warning => "warning"@,
    }
}

pub open spec fn note_word(kind: NoteKind) -> Seq<char> {
    match kind {
        NoteKind::Note => "note"@,
        NoteKind::Help => "help"@,
    }
}

/// The first line of every rendered diagnostic.
pub open spec fn header_text(d: &Diagnostic, color: bool) -> Seq<char> {
    bold(color) + level_color(d.level, color) + level_word(d.level) + reset(color) + bold(color)
        + ": "@ + d.message@ + reset(color) + "\n"@
}

/// A line of source with each tab widened to four spaces.
pub open spec fn expand_tabs(s: Seq<char>) -> Seq<char>
    decreases s.len(),
{
    if s.len() == 0 {
        Seq::empty()
    } else {
        expand_tabs(s.drop_last()) + if s.last() == '\t' {
            "    "@
        } else {
            seq![s.last()]
        }
    }
}

/// The on-screen width of the first `n` characters of `s`, a tab counting
/// four columns.
pub open spec fn disp_width_spec(s: Seq<char>, n: int) -> int
    decreases n,
{
    if n <= 0 {
        0
    } else if n > s.len() {
        disp_width_spec(s, s.len() as int)
    } else {
        disp_width_spec(s, n - 1) + if s[n - 1] == '\t' {
            4int
        } else {
            1int
        }
    }
}

pub open spec fn spaces(n: int) -> Seq<char> {
    repeat_char(' ', n as nat)
}

pub open spec fn sat_sub(a: int, b: int) -> int {
    if a >= b {
        a - b
    } else {
        0
    }
}

/// The lines of a resolved span, each with its number and text.
pub open spec fn lines_text(loc: Resolved) -> Seq<(int, Seq<char>)> {
    Seq::new(loc.lines@.len(), |k: int| (loc.lines@[k].0 as int, loc.lines@[k].1@))
}

/// The width of the line-number gutter: the digits of the last line number.
pub open spec fn gutter(lines: Seq<(int, Seq<char>)>) -> int {
    dec(lines.last().0 as nat).len() as int
}

pub open spec fn label_suffix(d: &Diagnostic) -> Seq<char> {
    match d.label {
        Some(l) => " "@ + l@,
        None => Seq::empty(),
    }
}

/// The `-->` line with file, line and column, and the empty gutter line.
pub open spec fn location_text(loc: Resolved, g: int, color: bool) -> Seq<char> {
    blue(color) + spaces(g) + "--> "@ + reset(color) + loc.name@ + ":"@ + dec(loc.line as nat) + ":"@
        + dec(loc.col as nat) + "\n"@ + blue(color) + spaces(g) + " |"@ + reset(color) + "\n"@
}

/// The blue gutter of width `g` with its bar.
pub open spec fn gutter_bar(g: int, color: bool) -> Seq<char> {
    blue(color) + spaces(g) + " |"@ + reset(color)
}

/// A source line after its number.
pub open spec fn src_line(num: Seq<char>, text: Seq<char>, color: bool) -> Seq<char> {
    blue(color) + num + " |"@ + reset(color) + " "@ + expand_tabs(text) + "\n"@
}

/// The line of carets under a span on one line, with the label.
pub open spec fn caret_line(
    g: int,
    pad: int,
    lc: Seq<char>,
    carets: nat,
    d: &Diagnostic,
    color: bool,
) -> Seq<char> {
    gutter_bar(g, color) + " "@ + spaces(pad) + lc + repeat_char('^', carets) + label_suffix(d) + reset(
        color,
    ) + "\n"@
}

/// A span on one line: the line, then carets under the span and the label.
pub open spec fn single_text(loc: Resolved, d: &Diagnostic, g: int, color: bool) -> Seq<char> {
    let lines = lines_text(loc);
    let text = lines[0].1;
    let carets = if loc.end_char - loc.start_char >= 1 {
        (loc.end_char - loc.start_char) as nat
    } else {
        1nat
    };
    src_line(dec(lines[0].0 as nat), text, color) + caret_line(
        g,
        disp_width_spec(text, loc.start_char as int),
        level_color(d.level, color),
        carets,
        d,
        color,
    )
}

/// The number of a line of a span over several lines, padded to the gutter.
pub open spec fn num_head(num: Seq<char>, g: int, color: bool) -> Seq<char> {
    blue(color) + num + spaces(g - num.len()) + " |"@ + reset(color)
}

/// The line that points at where a span over several lines starts.
pub open spec fn start_marker(g: int, start_col: int, lc: Seq<char>, color: bool) -> Seq<char> {
    gutter_bar(g, color) + " "@ + lc + repeat_char('_', (start_col - 1) as nat) + "^"@ + reset(color)
        + "\n"@
}

/// The rest of the first line of a span over several lines, and the line
/// that points at where the span starts.
pub open spec fn first_rest(text: Seq<char>, g: int, start_col: int, lc: Seq<char>, color: bool) -> Seq<
    char,
> {
    "   "@ + expand_tabs(text) + "\n"@ + start_marker(g, start_col, lc, color)
}

/// The rest of a later line of a span over several lines.
pub open spec fn later_rest(text: Seq<char>, lc: Seq<char>, color: bool) -> Seq<char> {
    " "@ + lc + "|"@ + reset(color) + " "@ + expand_tabs(text) + "\n"@
}

/// Line `i` of a span over several lines, with the bar that joins them.
pub open spec fn multi_line(
    lines: Seq<(int, Seq<char>)>,
    i: int,
    g: int,
    start_col: int,
    lc: Seq<char>,
    color: bool,
) -> Seq<char> {
    num_head(dec(lines[i].0 as nat), g, color) + if i == 0 {
        first_rest(lines[i].1, g, start_col, lc, color)
    } else {
        later_rest(lines[i].1, lc, color)
    }
}

/// The first `k` lines of a span over several lines.
pub open spec fn multi_lines(
    lines: Seq<(int, Seq<char>)>,
    k: int,
    g: int,
    start_col: int,
    lc: Seq<char>,
    color: bool,
) -> Seq<char>
    decreases k,
{
    if k <= 0 {
        Seq::empty()
    } else {
        multi_lines(lines, k - 1, g, start_col, lc, color) + multi_line(lines, k - 1, g, start_col, lc, color)
    }
}

/// The bar that closes a span over several lines, pointing at where it ends.
pub open spec fn closing_line(g: int, lc: Seq<char>, unders: nat, d: &Diagnostic, color: bool) -> Seq<
    char,
> {
    gutter_bar(g, color) + " "@ + lc + "|"@ + repeat_char('_', unders) + "^"@ + label_suffix(d) + reset(
        color,
    ) + "\n"@
}

/// A span over several lines: each line, then the closing bar with the label.
pub open spec fn multi_text(loc: Resolved, d: &Diagnostic, g: int, color: bool) -> Seq<char> {
    let lines = lines_text(loc);
    let lc = level_color(d.level, color);
    let start_col = 3 + disp_width_spec(lines[0].1, loc.start_char as int);
    let end_col = 3 + sat_sub(disp_width_spec(lines.last().1, loc.end_char as int), 1);
    multi_lines(lines, lines.len() as int, g, start_col, lc, color) + closing_line(
        g,
        lc,
        sat_sub(end_col, 2) as nat,
        d,
        color,
    )
}

/// One note.
pub open spec fn note_line(g: int, kind: NoteKind, text: Seq<char>, color: bool) -> Seq<char> {
    blue(color) + spaces(g) + " = "@ + bold(color) + note_word(kind) + reset(color) + ": "@ + text + "\n"@
}

/// The first `k` notes.
pub open spec fn notes_part(notes: Seq<(NoteKind, String)>, k: int, g: int, color: bool) -> Seq<char>
    decreases k,
{
    if k <= 0 {
        Seq::empty()
    } else {
        notes_part(notes, k - 1, g, color) + note_line(g, notes[k - 1].0, notes[k - 1].1@, color)
    }
}

/// Everything after the headline, once the span has been found.
pub open spec fn body_text(loc: Resolved, d: &Diagnostic, color: bool) -> Seq<char> {
    let lines = lines_text(loc);
    let g = gutter(lines);
    location_text(loc, g, color) + (if lines.len() == 1 {
        single_text(loc, d, g, color)
    } else {
        multi_text(loc, d, g, color)
    }) + (if d.notes@.len() > 0 {
        gutter_bar(g, color) + "\n"@
    } else {
        Seq::empty()
    }) + notes_part(d.notes@, d.notes@.len() as int, g, color)
}

/// Every file is small enough that the columns of its lines, a tab counted
/// as four, fit in a `usize`.
pub open spec fn fits_screen(m: &SourceMap) -> bool {
    forall|i: int|
        0 <= i < m.files().len() ==> 4 * (#[trigger] m.files()[i]).src.spec_bytes().len() + 8 <= usize::MAX
}

proof fn lemma_chars_le_bytes(c: Seq<char>)
    ensures
        c.len() <= vstd::utf8::encode_utf8(c).len(),
    decreases c.len(),
{
    if c.len() > 0 {
        lemma_chars_le_bytes(c.drop_first());
    }
}

proof fn lemma_width_bound(s: Seq<char>, n: int)
    ensures
        0 <= disp_width_spec(s, n) <= 4 * s.len(),
        0 <= n <= s.len() ==> disp_width_spec(s, n) <= 4 * n,
    decreases n,
{
    if n > s.len() {
        lemma_width_bound(s, s.len() as int);
    } else if n > 0 {
        lemma_width_bound(s, n - 1);
    }
}

proof fn lemma_dec_len_mono(a: nat, b: nat)
    requires
        a <= b,
    ensures
        dec(a).len() <= dec(b).len(),
    decreases b,
{
    if b >= 10 && a >= 10 {
        lemma_dec_len_mono(a / 10, b / 10);
    }
}

/// Appends `code` when colour is on.
fn push_code(out: &mut String, color: bool, code: &str)
    ensures
        final(out)@ == old(out)@ + paint(color, code@),
{
    if color {
        push_str(out, code);
    } else {
        assert(out@ =~= old(out)@ + paint(color, code@));
    }
}

fn push_level_color(out: &mut String, level: Level, color: bool)
    ensures
        final(out)@ == old(out)@ + level_color(level, color),
{
    match level {
        Level::Error => push_code(out, color, "\x1b[31m"),
        Level::Warning => push_code(out, color, "\x1b[33m"),
    }
}

fn push_label(out: &mut String, d: &Diagnostic)
    ensures
        final(out)@ == old(out)@ + label_suffix(d),
{
    match &d.label {
        Some(l) => {
            push_str(out, " ");
            push_str(out, l.as_str());
            assert(out@ =~= old(out)@ + label_suffix(d));
        },
        None => {
            assert(out@ =~= old(out)@ + label_suffix(d));
        },
    }
}

/// The number of decimal digits of `n`.
fn dec_len(n: usize) -> (r: usize)
    ensures
        r == dec(n as nat).len(),
        r <= n + 1,
    decreases n,
{
    if n < 10 {
        1
    } else {
        let k = dec_len(n / 10);
        k + 1
    }
}

/// The on-screen width of the first `char_count` characters of `text`.
fn disp_width(text: &str, char_count: usize) -> (r: usize)
    requires
        4 * text@.len() <= usize::MAX,
    ensures
        r == disp_width_spec(text@, char_count as int),
{
    let cs = chars_of(text);
    let n = if char_count <= cs.len() {
        char_count
    } else {
        cs.len()
    };
    let mut sum: usize = 0;
    let mut i: usize = 0;
    while i < n
        invariant
            cs@ == text@,
            n <= cs@.len(),
            4 * cs@.len() <= usize::MAX,
            i <= n,
            sum == disp_width_spec(text@, i as int),
        decreases n - i,
    {
        proof {
            lemma_width_bound(text@, i as int);
        }
        if cs[i] == '\t' {
            sum = sum + 4;
        } else {
            sum = sum + 1;
        }
        i = i + 1;
    }
    sum
}

/// Appends `text` with each tab widened to four spaces.
fn push_expanded(out: &mut String, text: &str)
    ensures
        final(out)@ == old(out)@ + expand_tabs(text@),
{
    let cs = chars_of(text);
    let mut i: usize = 0;
    while i < cs.len()
        invariant
            cs@ == text@,
            i <= cs@.len(),
            out@ == old(out)@ + expand_tabs(text@.take(i as int)),
        decreases cs@.len() - i,
    {
        let ghost before = out@;
        if cs[i] == '\t' {
            push_str(out, "    ");
        } else {
            push_char(out, cs[i]);
        }
        proof {
            let t = text@.take(i + 1);
            assert(t.drop_last() =~= text@.take(i as int));
        }
        i = i + 1;
        assert(out@ =~= old(out)@ + expand_tabs(text@.take(i as int)));
    }
    assert(text@.take(cs@.len() as int) =~= text@);
}

fn push_header(out: &mut String, d: &Diagnostic, color: bool)
    ensures
        final(out)@ == old(out)@ + header_text(d, color),
{
    push_code(out, color, "\x1b[1m");
    push_level_color(out, d.level, color);
    match d.level {
        Level::Error => push_str(out, "error"),
        Level::Warning => push_str(out, "warning"),
    }
    push_code(out, color, "\x1b[0m");
    push_code(out, color, "\x1b[1m");
    push_str(out, ": ");
    push_str(out, d.message.as_str());
    push_code(out, color, "\x1b[0m");
    push_str(out, "\n");
    assert(out@ =~= old(out)@ + header_text(d, color));
}

/// Appends the blue gutter of width `g` followed by `sep`.
fn push_gutter(out: &mut String, g: usize, sep: &str, color: bool)
    ensures
        final(out)@ == old(out)@ + blue(color) + spaces(g as int) + sep@ + reset(color),
{
    push_code(out, color, "\x1b[34m");
    push_repeat(out, ' ', g);
    push_str(out, sep);
    push_code(out, color, "\x1b[0m");
    assert(out@ =~= old(out)@ + blue(color) + spaces(g as int) + sep@ + reset(color));
}

fn push_location(out: &mut String, loc: &Resolved, g: usize, color: bool)
    ensures
        final(out)@ == old(out)@ + location_text(*loc, g as int, color),
{
    push_gutter(out, g, "--> ", color);
    push_str(out, loc.name);
    push_str(out, ":");
    push_u64(out, loc.line as u64);
    push_str(out, ":");
    push_u64(out, loc.col as u64);
    push_str(out, "\n");
    push_gutter(out, g, " |", color);
    push_str(out, "\n");
    assert(out@ =~= old(out)@ + location_text(*loc, g as int, color));
}

fn push_src_line(out: &mut String, num: usize, text: &str, color: bool)
    ensures
        final(out)@ == old(out)@ + src_line(dec(num as nat), text@, color),
{
    push_code(out, color, "\x1b[34m");
    push_u64(out, num as u64);
    push_str(out, " |");
    push_code(out, color, "\x1b[0m");
    push_str(out, " ");
    push_expanded(out, text);
    push_str(out, "\n");
    assert(out@ =~= old(out)@ + src_line(dec(num as nat), text@, color));
}

fn push_caret_line(
    out: &mut String,
    g: usize,
    pad: usize,
    level: Level,
    carets: usize,
    d: &Diagnostic,
    color: bool,
)
    ensures
        final(out)@ == old(out)@ + caret_line(
            g as int,
            pad as int,
            level_color(level, color),
            carets as nat,
            d,
            color,
        ),
{
    push_gutter(out, g, " |", color);
    push_str(out, " ");
    push_repeat(out, ' ', pad);
    push_level_color(out, level, color);
    push_repeat(out, '^', carets);
    push_label(out, d);
    push_code(out, color, "\x1b[0m");
    push_str(out, "\n");
    assert(out@ =~= old(out)@ + caret_line(
        g as int,
        pad as int,
        level_color(level, color),
        carets as nat,
        d,
        color,
    ));
}

fn push_single(out: &mut String, loc: &Resolved, d: &Diagnostic, g: usize, color: bool)
    requires
        loc.lines@.len() >= 1,
        loc.start_char <= loc.end_char,
        4 * loc.lines@[0].1@.len() <= usize::MAX,
    ensures
        final(out)@ == old(out)@ + single_text(*loc, d, g as int, color),
{
    let num = loc.lines[0].0;
    let text = loc.lines[0].1;
    push_src_line(out, num, text, color);
    let ghost mid = out@;
    let w = disp_width(text, loc.start_char);
    let diff = loc.end_char - loc.start_char;
    let n = if diff >= 1 {
        diff
    } else {
        1
    };
    push_caret_line(out, g, w, d.level, n, d, color);
    proof {
        let lines = lines_text(*loc);
        assert(lines[0].1 == text@);
        assert(lines[0].0 == num as int);
        assert(out@ =~= old(out)@ + single_text(*loc, d, g as int, color));
    }
}

fn push_num_head(out: &mut String, num: usize, g: usize, color: bool)
    requires
        dec(num as nat).len() <= g,
    ensures
        final(out)@ == old(out)@ + num_head(dec(num as nat), g as int, color),
{
    push_code(out, color, "\x1b[34m");
    push_u64(out, num as u64);
    let nd = dec_len(num);
    push_repeat(out, ' ', g - nd);
    push_str(out, " |");
    push_code(out, color, "\x1b[0m");
    assert(out@ =~= old(out)@ + num_head(dec(num as nat), g as int, color));
}

fn push_start_marker(out: &mut String, g: usize, start_col: usize, level: Level, color: bool)
    requires
        start_col >= 1,
    ensures
        final(out)@ == old(out)@ + start_marker(g as int, start_col as int, level_color(level, color), color),
{
    push_gutter(out, g, " |", color);
    push_str(out, " ");
    push_level_color(out, level, color);
    push_repeat(out, '_', start_col - 1);
    push_str(out, "^");
    push_code(out, color, "\x1b[0m");
    push_str(out, "\n");
    assert(out@ =~= old(out)@ + start_marker(g as int, start_col as int, level_color(level, color), color));
}

fn push_first_rest(out: &mut String, text: &str, g: usize, start_col: usize, level: Level, color: bool)
    requires
        start_col >= 1,
    ensures
        final(out)@ == old(out)@ + first_rest(
            text@,
            g as int,
            start_col as int,
            level_color(level, color),
            color,
        ),
{
    push_str(out, "   ");
    push_expanded(out, text);
    push_str(out, "\n");
    push_start_marker(out, g, start_col, level, color);
    assert(out@ =~= old(out)@ + first_rest(
        text@,
        g as int,
        start_col as int,
        level_color(level, color),
        color,
    ));
}

fn push_later_rest(out: &mut String, text: &str, level: Level, color: bool)
    ensures
        final(out)@ == old(out)@ + later_rest(text@, level_color(level, color), color),
{
    push_str(out, " ");
    push_level_color(out, level, color);
    push_str(out, "|");
    push_code(out, color, "\x1b[0m");
    push_str(out, " ");
    push_expanded(out, text);
    push_str(out, "\n");
    assert(out@ =~= old(out)@ + later_rest(text@, level_color(level, color), color));
}

fn push_multi_line(
    out: &mut String,
    loc: &Resolved,
    i: usize,
    g: usize,
    start_col: usize,
    level: Level,
    color: bool,
)
    requires
        i < loc.lines@.len(),
        dec(loc.lines@[i as int].0 as nat).len() <= g,
        start_col >= 1,
    ensures
        final(out)@ == old(out)@ + multi_line(
            lines_text(*loc),
            i as int,
            g as int,
            start_col as int,
            level_color(level, color),
            color,
        ),
{
    let num = loc.lines[i].0;
    let text = loc.lines[i].1;
    push_num_head(out, num, g, color);
    if i == 0 {
        push_first_rest(out, text, g, start_col, level, color);
    } else {
        push_later_rest(out, text, level, color);
    }
    proof {
        let lines = lines_text(*loc);
        assert(lines[i as int].1 == text@);
        assert(lines[i as int].0 == num as int);
        assert(out@ =~= old(out)@ + multi_line(
            lines,
            i as int,
            g as int,
            start_col as int,
            level_color(level, color),
            color,
        ));
    }
}

fn push_closing_line(out: &mut String, g: usize, level: Level, unders: usize, d: &Diagnostic, color: bool)
    ensures
        final(out)@ == old(out)@ + closing_line(
            g as int,
            level_color(level, color),
            unders as nat,
            d,
            color,
        ),
{
    push_gutter(out, g, " |", color);
    push_str(out, " ");
    push_level_color(out, level, color);
    push_str(out, "|");
    push_repeat(out, '_', unders);
    push_str(out, "^");
    push_label(out, d);
    push_code(out, color, "\x1b[0m");
    push_str(out, "\n");
    assert(out@ =~= old(out)@ + closing_line(
        g as int,
        level_color(level, color),
        unders as nat,
        d,
        color,
    ));
}

fn push_multi(out: &mut String, loc: &Resolved, d: &Diagnostic, g: usize, color: bool)
    requires
        loc.lines@.len() >= 1,
        forall|k: int| 0 <= k < loc.lines@.len() ==> (#[trigger] loc.lines@[k]).0 == loc.line + k,
        g == gutter(lines_text(*loc)),
        4 * loc.lines@[0].1@.len() + 8 <= usize::MAX,
        4 * loc.lines@.last().1@.len() + 8 <= usize::MAX,
    ensures
        final(out)@ == old(out)@ + multi_text(*loc, d, g as int, color),
{
    let ghost lines = lines_text(*loc);
    let ghost lc = level_color(d.level, color);
    let first = loc.lines[0].1;
    proof {
        lemma_width_bound(first@, loc.start_char as int);
    }
    let start_col = 3 + disp_width(first, loc.start_char);
    let mut i: usize = 0;
    while i < loc.lines.len()
        invariant
            i <= loc.lines@.len(),
            loc.lines@.len() >= 1,
            forall|k: int| 0 <= k < loc.lines@.len() ==> (#[trigger] loc.lines@[k]).0 == loc.line + k,
            g == gutter(lines_text(*loc)),
            lines == lines_text(*loc),
            lc == level_color(d.level, color),
            start_col >= 1,
            out@ == old(out)@ + multi_lines(lines, i as int, g as int, start_col as int, lc, color),
        decreases loc.lines@.len() - i,
    {
        proof {
            let last = loc.lines@.len() - 1;
            assert(lines.last().0 == loc.lines@[last].0);
            lemma_dec_len_mono(loc.lines@[i as int].0 as nat, loc.lines@[last].0 as nat);
        }
        let ghost before = out@;
        push_multi_line(out, loc, i, g, start_col, d.level, color);
        proof {
            let piece = multi_line(lines, i as int, g as int, start_col as int, lc, color);
            let acc = multi_lines(lines, i as int, g as int, start_col as int, lc, color);
            assert(out@ =~= old(out)@ + (acc + piece));
        }
        i = i + 1;
    }
    let last = loc.lines.len() - 1;
    let lt = loc.lines[last].1;
    proof {
        lemma_width_bound(lt@, loc.end_char as int);
    }
    let w = disp_width(lt, loc.end_char);
    let end_col = 3 + w.saturating_sub(1);
    let unders = end_col.saturating_sub(2);
    let ghost mid = out@;
    push_closing_line(out, g, d.level, unders, d, color);
    proof {
        assert(lines[0].1 == first@);
        assert(lines.last().1 == lt@);
        let a = multi_lines(lines, lines.len() as int, g as int, start_col as int, lc, color);
        let b = closing_line(g as int, lc, unders as nat, d, color);
        assert(mid == old(out)@ + a);
        assert(out@ == mid + b);
        lemma_concat_associative(old(out)@, a, b);
        assert(multi_text(*loc, d, g as int, color) == a + b);
    }
}

fn push_note_line(out: &mut String, g: usize, kind: NoteKind, text: &str, color: bool)
    ensures
        final(out)@ == old(out)@ + note_line(g as int, kind, text@, color),
{
    push_code(out, color, "\x1b[34m");
    push_repeat(out, ' ', g);
    push_str(out, " = ");
    push_code(out, color, "\x1b[1m");
    match kind {
        NoteKind::Note => push_str(out, "note"),
        NoteKind::Help => push_str(out, "help"),
    }
    push_code(out, color, "\x1b[0m");
    push_str(out, ": ");
    push_str(out, text);
    push_str(out, "\n");
    assert(out@ =~= old(out)@ + note_line(g as int, kind, text@, color));
}

fn push_notes(out: &mut String, notes: &Vec<(NoteKind, String)>, g: usize, color: bool)
    ensures
        final(out)@ == old(out)@ + notes_part(notes@, notes@.len() as int, g as int, color),
{
    let mut i: usize = 0;
    while i < notes.len()
        invariant
            i <= notes@.len(),
            out@ == old(out)@ + notes_part(notes@, i as int, g as int, color),
        decreases notes@.len() - i,
    {
        push_note_line(out, g, notes[i].0, notes[i].1.as_str(), color);
        proof {
            let acc = notes_part(notes@, i as int, g as int, color);
            let piece = note_line(g as int, notes@[i as int].0, notes@[i as int].1@, color);
            assert(out@ =~= old(out)@ + (acc + piece));
        }
        i = i + 1;
    }
}

/// Appends everything after the headline for a resolved span.
fn push_body(out: &mut String, loc: &Resolved, diag: &Diagnostic, color: bool)
    requires
        loc.lines@.len() >= 1,
        loc.lines@.len() == 1 ==> loc.start_char <= loc.end_char,
        forall|k: int| 0 <= k < loc.lines@.len() ==> (#[trigger] loc.lines@[k]).0 == loc.line + k,
        4 * loc.lines@[0].1@.len() + 8 <= usize::MAX,
        4 * loc.lines@.last().1@.len() + 8 <= usize::MAX,
    ensures
        final(out)@ == old(out)@ + body_text(*loc, diag, color),
{
    let ghost head = old(out)@;
    let last = loc.lines.len() - 1;
    let g = dec_len(loc.lines[last].0);
    push_location(out, loc, g, color);
    let ghost after_loc = out@;
    if loc.lines.len() == 1 {
        push_single(out, loc, diag, g, color);
    } else {
        push_multi(out, loc, diag, g, color);
    }
    let ghost after_span = out@;
    if diag.notes.len() > 0 {
        push_gutter(out, g, " |", color);
        push_str(out, "\n");
    }
    let ghost after_sep = out@;
    push_notes(out, &diag.notes, g, color);
    proof {
        let lines = lines_text(*loc);
        assert(lines.last().0 == loc.lines@[last as int].0);
        assert(g == gutter(lines));
        let p1 = location_text(*loc, g as int, color);
        let p2 = if lines.len() == 1 {
            single_text(*loc, diag, g as int, color)
        } else {
            multi_text(*loc, diag, g as int, color)
        };
        let p3 = if diag.notes@.len() > 0 {
            gutter_bar(g as int, color) + "\n"@
        } else {
            Seq::empty()
        };
        let p4 = notes_part(diag.notes@, diag.notes@.len() as int, g as int, color);
        assert(after_loc == head + p1);
        assert(after_span == after_loc + p2);
        if diag.notes@.len() > 0 {
            lemma_concat_associative(after_span, gutter_bar(g as int, color), "\n"@);
        } else {
            assert(after_sep =~= after_span + p3);
        }
        assert(after_sep == after_span + p3);
        assert(out@ == after_sep + p4);
        lemma_concat_associative(head, p1, p2);
        lemma_concat_associative(head, p1 + p2, p3);
        lemma_concat_associative(head, p1 + p2 + p3, p4);
        assert(body_text(*loc, diag, color) == p1 + p2 + p3 + p4);
        assert(out@ == head + body_text(*loc, diag, color));
    }
}

/// The diagnostic as text for a terminal: the headline, then, when its span
/// lies in a known file, the location, the source lines with the span marked
/// and the label, and the notes.
pub fn render(sources: &SourceMap, diag: &Diagnostic, color: bool) -> (r: String)
    requires
        sources.wf(),
        fits_screen(sources),
        diag.primary matches Some(span) ==> (file_index(sources.files(), span.start) matches Some(i)
            ==> span.end >= sources.files()[i].base),
    ensures
        match diag.primary {
            None => r@ == header_text(diag, color),
            Some(span) => match file_index(sources.files(), span.start) {
                None => r@ == header_text(diag, color),
                Some(i) => forall|loc: Resolved|
                    resolved_ok(sources.files()[i], span, loc) ==> r@ == header_text(diag, color)
                        + body_text(loc, diag, color),
            },
        },
{
    let mut out = String::new();
    push_header(&mut out, diag, color);
    assert(out@ =~= header_text(diag, color));
    let span = match diag.primary {
        Some(s) => s,
        None => {
            assert(out@ =~= header_text(diag, color));
            return out;
        },
    };
    let loc = match sources.resolve(span) {
        Some(l) => l,
        None => {
            assert(out@ =~= header_text(diag, color));
            return out;
        },
    };
    let ghost fi = file_index(sources.files(), span.start)->0;
    let ghost f = sources.files()[fi];
    proof {
        lemma_file_index(sources.files(), span.start);
        lemma_resolved_shape(f, span, loc);
        assert(4 * f.src.spec_bytes().len() + 8 <= usize::MAX);
        let last = loc.lines@.len() - 1;
        lemma_chars_le_bytes(loc.lines@[0].1@);
        lemma_chars_le_bytes(loc.lines@[last].1@);
    }
    let ghost head = out@;
    push_body(&mut out, &loc, diag, color);
    assert(out@ == header_text(diag, color) + body_text(loc, diag, color));
    proof {
        assert forall|other: Resolved| resolved_ok(f, span, other) implies out@ == header_text(diag, color)
            + body_text(other, diag, color) by {
            lemma_resolved_unique(f, span, loc, other);
            assert(lines_text(loc) =~= lines_text(other));
        }
    }
    out
}

/// The closing line that counts the errors.
pub open spec fn summary_text(count: nat, color: bool) -> Seq<char> {
    bold(color) + red(color) + "error"@ + reset(color) + bold(color) + ": "@ + dec(count)
        + " hata yuzunden durduruldu"@ + reset(color) + "\n"@
}

pub fn render_summary(count: usize, color: bool) -> (r: String)
    ensures
        r@ == summary_text(count as nat, color),
{
    let mut out = String::new();
    push_code(&mut out, color, "\x1b[1m");
    push_code(&mut out, color, "\x1b[31m");
    push_str(&mut out, "error");
    push_code(&mut out, color, "\x1b[0m");
    push_code(&mut out, color, "\x1b[1m");
    push_str(&mut out, ": ");
    push_u64(&mut out, count as u64);
    push_str(&mut out, " hata yuzunden durduruldu");
    push_code(&mut out, color, "\x1b[0m");
    push_str(&mut out, "\n");
    assert(out@ =~= summary_text(count as nat, color));
    out
}

} // verus!
