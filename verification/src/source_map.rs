use vstd::prelude::*;
use vstd::string::StringSliceAdditionalSpecFns;
use vstd::utf8::valid_utf8;
use crate::span::Span;
use crate::strslice::{lemma_ascii_boundary, substr};

verus! {

broadcast use vstd::utf8::encode_utf8_valid_utf8;

/// One source file, placed at global offset `base`.
pub struct SourceFile<'a> {
    pub name: String,
    pub base: u32,
    pub src: &'a str,
}

/// A span resolved to its file, its first line and column, and the text of
/// the lines it covers.
pub struct Resolved<'a> {
    pub name: &'a str,
    pub line: usize,
    pub col: usize,
    pub lines: Vec<(usize, &'a str)>,
    pub start_char: usize,
    pub end_char: usize,
}

/// The files of a compilation, each at its own range of global offsets.
pub struct SourceMap<'a> {
    files: Vec<SourceFile<'a>>,
    next_base: u32,
}

/// The offset at which the line holding byte `k` starts: just after the
/// last newline before `k`, or 0.
pub open spec fn line_start(b: Seq<u8>, k: int) -> int
    decreases k,
{
    if k <= 0 {
        0
    } else if b[k - 1] == 10 {
        k
    } else {
        line_start(b, k - 1)
    }
}

/// The number of newlines among the first `k` bytes.
pub open spec fn count_nl(b: Seq<u8>, k: int) -> nat
    decreases k,
{
    if k <= 0 {
        0
    } else {
        count_nl(b, k - 1) + if b[k - 1] == 10 {
            1nat
        } else {
            0nat
        }
    }
}

/// The number of characters among bytes `i..j`: the bytes that start a
/// UTF-8 sequence.
pub open spec fn chars_between(b: Seq<u8>, i: int, j: int) -> nat
    decreases j - i,
{
    if j <= i {
        0
    } else {
        chars_between(b, i, j - 1) + if (b[j - 1] & 0xC0) != 0x80 {
            1nat
        } else {
            0nat
        }
    }
}

/// The offset of the first newline at or after `i`, or the end.
pub open spec fn line_end(b: Seq<u8>, i: int) -> int
    decreases b.len() - i,
{
    if i >= b.len() {
        b.len() as int
    } else if b[i] == 10 {
        i
    } else {
        line_end(b, i + 1)
    }
}

/// The byte ranges of the lines from the one starting at `ls` up to the one
/// starting at `stop`.
pub open spec fn line_ranges(b: Seq<u8>, ls: int, stop: int) -> Seq<(int, int)>
    decreases b.len() + 1 - ls,
{
    let le = line_end(b, ls);
    if ls >= stop || ls > b.len() || le + 1 <= ls || le > b.len() {
        seq![(ls, le)]
    } else {
        seq![(ls, le)] + line_ranges(b, le + 1, stop)
    }
}

/// The last file that starts at or before `offset`.
pub open spec fn file_index(files: Seq<SourceFile>, offset: u32) -> Option<int>
    decreases files.len(),
{
    if files.len() == 0 {
        None
    } else if offset >= files.last().base {
        Some(files.len() - 1)
    } else {
        file_index(files.drop_last(), offset)
    }
}

pub open spec fn min_int(a: int, b: int) -> int {
    if a <= b {
        a
    } else {
        b
    }
}

pub open spec fn max_int(a: int, b: int) -> int {
    if a >= b {
        a
    } else {
        b
    }
}

/// What `resolve` finds for `span` in file `f`.
pub open spec fn resolved_ok(f: SourceFile, span: Span, r: Resolved) -> bool {
    let b = f.src.spec_bytes();
    let start = min_int(span.start - f.base, b.len() as int);
    let end0 = max_int(min_int(span.end - f.base, b.len() as int), start);
    let end = if end0 > start && b[end0 - 1] == 10 {
        end0 - 1
    } else {
        end0
    };
    let l1 = line_start(b, start);
    let l2 = max_int(line_start(b, end), l1);
    let ranges = line_ranges(b, l1, l2);
    &&& r.name@ == f.name@
    &&& r.line == count_nl(b, l1) + 1
    &&& r.start_char == chars_between(b, l1, start)
    &&& r.col == r.start_char + 1
    &&& r.end_char == chars_between(b, l2, end)
    &&& r.lines@.len() == ranges.len()
    &&& forall|k: int|
        0 <= k < ranges.len() ==> (#[trigger] r.lines@[k]).0 == r.line + k && r.lines@[k].1.spec_bytes()
            == b.subrange(ranges[k].0, ranges[k].1)
}

proof fn lemma_line_start_bounds(b: Seq<u8>, k: int)
    requires
        0 <= k <= b.len(),
    ensures
        0 <= line_start(b, k) <= k,
        line_start(b, k) == 0 || b[line_start(b, k) - 1] == 10,
    decreases k,
{
    if k > 0 && b[k - 1] != 10 {
        lemma_line_start_bounds(b, k - 1);
    }
}

proof fn lemma_line_start_mono(b: Seq<u8>, j: int, k: int)
    requires
        0 <= j <= k <= b.len(),
    ensures
        line_start(b, j) <= line_start(b, k),
    decreases k - j,
{
    lemma_line_start_bounds(b, j);
    if j < k {
        lemma_line_start_mono(b, j, k - 1);
        lemma_line_start_bounds(b, k - 1);
    }
}

proof fn lemma_line_end_bounds(b: Seq<u8>, i: int)
    requires
        0 <= i <= b.len(),
    ensures
        i <= line_end(b, i) <= b.len(),
        line_end(b, i) == b.len() || b[line_end(b, i)] == 10,
        forall|q: int| i <= q < line_end(b, i) ==> b[q] != 10,
    decreases b.len() - i,
{
    if i < b.len() && b[i] != 10 {
        lemma_line_end_bounds(b, i + 1);
    }
}

/// A newline in `[ls, k)` makes the line starting at `ls` end before `k`.
proof fn lemma_line_end_before(b: Seq<u8>, ls: int, k: int)
    requires
        0 <= ls < k <= b.len(),
        b[k - 1] == 10,
    ensures
        line_end(b, ls) < k,
{
    lemma_line_end_bounds(b, ls);
}

impl<'a> SourceMap<'a> {
    pub closed spec fn files(&self) -> Seq<SourceFile<'a>> {
        self.files@
    }

    pub closed spec fn next(&self) -> u32 {
        self.next_base
    }

    /// Every file fits in the global offset space.
    pub open spec fn wf(&self) -> bool {
        forall|i: int| 0 <= i < self.files().len() ==> (#[trigger] self.files()[i]).src.spec_bytes().len() < u32::MAX
    }

    pub fn new() -> (r: Self)
        ensures
            r.files() == Seq::<SourceFile<'a>>::empty(),
            r.next() == 0,
            r.wf(),
    {
        SourceMap { files: Vec::new(), next_base: 0 }
    }

    /// Adds a file after the last one, one offset past its end, and returns
    /// its base offset.
    pub fn add(&mut self, name: String, src: &'a str) -> (r: u32)
        requires
            old(self).wf(),
            old(self).next() + src.spec_bytes().len() + 1 <= u32::MAX,
        ensures
            final(self).wf(),
            r == old(self).next(),
            final(self).next() == old(self).next() + src.spec_bytes().len() + 1,
            final(self).files().len() == old(self).files().len() + 1,
            final(self).files().drop_last() == old(self).files(),
            final(self).files().last().name == name,
            final(self).files().last().base == r,
            final(self).files().last().src == src,
    {
        let base = self.next_base;
        let len = src.len();
        self.next_base = base + len as u32 + 1;
        self.files.push(SourceFile { name, base, src });
        assert(self.files().drop_last() =~= old(self).files());
        base
    }

    /// The position of the file holding global offset `offset`.
    fn file_of(&self, offset: u32) -> (r: Option<usize>)
        ensures
            match r {
                Some(i) => file_index(self.files(), offset) == Some(i as int) && i < self.files().len()
                    && self.files()[i as int].base <= offset,
                None => file_index(self.files(), offset) is None,
            },
    {
        let mut k: usize = self.files.len();
        assert(self.files@.take(k as int) =~= self.files@);
        while k > 0
            invariant
                k <= self.files@.len(),
                file_index(self.files(), offset) == file_index(self.files@.take(k as int), offset),
            decreases k,
        {
            let ghost t = self.files@.take(k as int);
            assert(t.drop_last() =~= self.files@.take(k - 1));
            if offset >= self.files[k - 1].base {
                return Some(k - 1);
            }
            k = k - 1;
        }
        None
    }

    /// Where `span` lies: its file, first line and column, and the lines it covers.
    pub fn resolve(&self, span: Span) -> (r: Option<Resolved<'_>>)
        requires
            self.wf(),
            file_index(self.files(), span.start) matches Some(i) ==> span.end >= self.files()[i].base,
        ensures
            match file_index(self.files(), span.start) {
                None => r is None,
                Some(i) => r matches Some(res) && resolved_ok(self.files()[i], span, res),
            },
    {
        let fi = match self.file_of(span.start) {
            Some(i) => i,
            None => {
                return None;
            },
        };
        let file = &self.files[fi];
        let src = file.src;
        let bytes = src.as_bytes();
        let ghost b = src.spec_bytes();
        assert(valid_utf8(b));
        let len = bytes.len();
        assert(len < u32::MAX);
        let s0 = (span.start - file.base) as usize;
        let start = if s0 <= len {
            s0
        } else {
            len
        };
        let e0 = (span.end - file.base) as usize;
        let e1 = if e0 <= len {
            e0
        } else {
            len
        };
        let mut end = if e1 >= start {
            e1
        } else {
            start
        };
        let l1_start = line_start_of(bytes, start);
        let line = count_newlines(bytes, l1_start) + 1;
        let start_char = count_chars(bytes, l1_start, start);
        let col = start_char + 1;
        if end > start && bytes[end - 1] == 10u8 {
            end = end - 1;
        }
        let ls2 = line_start_of(bytes, end);
        let l2_start = if ls2 >= l1_start {
            ls2
        } else {
            l1_start
        };
        let end_char = count_chars(bytes, l2_start, end);
        proof {
            lemma_line_start_bounds(b, start as int);
            lemma_line_start_bounds(b, end as int);
        }
        let mut lines: Vec<(usize, &str)> = Vec::new();
        let mut ls = l1_start;
        let mut n = line;
        let ghost all = line_ranges(b, l1_start as int, l2_start as int);
        loop
            invariant_except_break
                bytes@ == b,
                b == src.spec_bytes(),
                valid_utf8(b),
                len == b.len(),
                l1_start <= ls <= l2_start <= len,
                l2_start == 0 || b[l2_start - 1] == 10,
                len < u32::MAX,
                ls == 0 || b[ls - 1] == 10,
                n == line + lines@.len(),
                line <= l1_start + 1,
                n <= line + (ls - l1_start),
                all == line_ranges(b, l1_start as int, l2_start as int),
                lines@.len() + line_ranges(b, ls as int, l2_start as int).len() == all.len(),
                forall|k: int| 0 <= k < lines@.len() ==> all[k] == line_ranges(b, l1_start as int, l2_start as int)[k],
                forall|k: int|
                    0 <= k < lines@.len() ==> (#[trigger] lines@[k]).0 == line + k && lines@[k].1.spec_bytes()
                        == b.subrange(all[k].0, all[k].1),
                line_ranges(b, ls as int, l2_start as int) == all.subrange(lines@.len() as int, all.len() as int),
            ensures
                lines@.len() == all.len(),
                forall|k: int|
                    0 <= k < lines@.len() ==> (#[trigger] lines@[k]).0 == line + k && lines@[k].1.spec_bytes()
                        == b.subrange(all[k].0, all[k].1),
            decreases len + 1 - ls,
        {
            let le = line_end_of(bytes, ls);
            proof {
                lemma_line_end_bounds(b, ls as int);
                lemma_ascii_boundary(b, ls as int);
                lemma_ascii_boundary(b, le as int);
            }
            let text = substr(src, ls, le);
            let ghost before = lines@;
            lines.push((n, text));
            proof {
                assert(line_ranges(b, ls as int, l2_start as int)[0] == (ls as int, le as int));
                assert(all[before.len() as int] == (ls as int, le as int));
            }
            if ls >= l2_start {
                proof {
                    assert(line_ranges(b, ls as int, l2_start as int).len() == 1);
                }
                break;
            }
            proof {
                lemma_line_end_before(b, ls as int, l2_start as int);
                let rest = line_ranges(b, (le + 1) as int, l2_start as int);
                let whole = line_ranges(b, ls as int, l2_start as int);
                assert(whole == seq![(ls as int, le as int)] + rest);
                assert(whole == all.subrange(before.len() as int, all.len() as int));
                assert forall|j: int| 0 <= j < rest.len() implies rest[j] == all.subrange(
                    lines@.len() as int,
                    all.len() as int,
                )[j] by {
                    assert(rest[j] == whole[j + 1]);
                }
                assert(rest =~= all.subrange(lines@.len() as int, all.len() as int));
                lemma_count_nl_step(b, ls as int, le as int, len as int);
            }
            ls = le + 1;
            n = n + 1;
        }
        Some(Resolved { name: file.name.as_str(), line, col, lines, start_char, end_char })
    }

    /// The name of the first file added.
    pub fn entry_name(&self) -> (r: &str)
        requires
            self.files().len() > 0,
        ensures
            r@ == self.files()[0].name@,
    {
        self.files[0].name.as_str()
    }
}

proof fn lemma_count_nl_step(b: Seq<u8>, ls: int, le: int, len: int)
    requires
        0 <= ls <= le < len,
        len == b.len(),
{
}

/// Where the line holding byte `k` starts.
fn line_start_of(bytes: &[u8], k: usize) -> (r: usize)
    requires
        k <= bytes@.len(),
    ensures
        r == line_start(bytes@, k as int),
        r <= k,
{
    proof {
        lemma_line_start_bounds(bytes@, k as int);
    }
    let mut i = k;
    while i > 0
        invariant
            i <= k <= bytes@.len(),
            line_start(bytes@, k as int) == line_start(bytes@, i as int),
        decreases i,
    {
        if bytes[i - 1] == 10u8 {
            return i;
        }
        i = i - 1;
    }
    0
}

/// Where the line starting at `i` ends.
fn line_end_of(bytes: &[u8], i: usize) -> (r: usize)
    requires
        i <= bytes@.len(),
    ensures
        r == line_end(bytes@, i as int),
{
    let mut j = i;
    while j < bytes.len()
        invariant
            i <= j <= bytes@.len(),
            line_end(bytes@, i as int) == line_end(bytes@, j as int),
        decreases bytes@.len() - j,
    {
        if bytes[j] == 10u8 {
            return j;
        }
        j = j + 1;
    }
    bytes.len()
}

/// The number of newlines among the first `k` bytes.
fn count_newlines(bytes: &[u8], k: usize) -> (r: usize)
    requires
        k <= bytes@.len(),
    ensures
        r == count_nl(bytes@, k as int),
        r <= k,
{
    let mut c: usize = 0;
    let mut i: usize = 0;
    while i < k
        invariant
            i <= k <= bytes@.len(),
            c == count_nl(bytes@, i as int),
            c <= i,
        decreases k - i,
    {
        if bytes[i] == 10u8 {
            c = c + 1;
        }
        i = i + 1;
    }
    c
}

/// The number of characters among bytes `i..j`.
fn count_chars(bytes: &[u8], i: usize, j: usize) -> (r: usize)
    requires
        i <= j <= bytes@.len(),
    ensures
        r == chars_between(bytes@, i as int, j as int),
        r <= j - i,
{
    let mut c: usize = 0;
    let mut k: usize = i;
    while k < j
        invariant
            i <= k <= j <= bytes@.len(),
            c == chars_between(bytes@, i as int, k as int),
            c <= k - i,
        decreases j - k,
    {
        if (bytes[k] & 0xC0u8) != 0x80u8 {
            c = c + 1;
        }
        k = k + 1;
    }
    c
}

/// Every line range that `line_ranges` yields from a position inside `b`
/// lies inside `b`.
proof fn lemma_ranges_inside(b: Seq<u8>, ls: int, stop: int)
    requires
        0 <= ls <= b.len(),
        0 <= stop <= b.len(),
        stop == 0 || b[stop - 1] == 10,
    ensures
        line_ranges(b, ls, stop).len() >= 1,
        forall|k: int|
            0 <= k < line_ranges(b, ls, stop).len() ==> 0 <= (#[trigger] line_ranges(b, ls, stop)[k]).0
                <= line_ranges(b, ls, stop)[k].1 <= b.len(),
    decreases b.len() + 1 - ls,
{
    lemma_line_end_bounds(b, ls);
    let le = line_end(b, ls);
    if !(ls >= stop || ls > b.len() || le + 1 <= ls || le > b.len()) {
        lemma_line_end_before(b, ls, stop);
        lemma_ranges_inside(b, le + 1, stop);
        let rest = line_ranges(b, le + 1, stop);
        assert forall|k: int|
            0 <= k < line_ranges(b, ls, stop).len() implies 0 <= (#[trigger] line_ranges(
            b,
            ls,
            stop,
        )[k]).0 <= line_ranges(b, ls, stop)[k].1 <= b.len() by {
            if k > 0 {
                assert(line_ranges(b, ls, stop)[k] == rest[k - 1]);
            }
        }
    }
}

proof fn lemma_chars_mono(b: Seq<u8>, i: int, j1: int, j2: int)
    requires
        i <= j1 <= j2,
    ensures
        chars_between(b, i, j1) <= chars_between(b, i, j2),
    decreases j2 - j1,
{
    if j1 < j2 {
        lemma_chars_mono(b, i, j1, j2 - 1);
    }
}

/// What a resolved span looks like: at least one line, each inside the
/// file, and on a single line the span does not end before it starts.
pub proof fn lemma_resolved_shape(f: SourceFile, span: Span, r: Resolved)
    requires
        resolved_ok(f, span, r),
        span.start >= f.base,
        span.end >= f.base,
    ensures
        r.lines@.len() >= 1,
        r.lines@.len() == 1 ==> r.start_char <= r.end_char,
        forall|k: int|
            0 <= k < r.lines@.len() ==> (#[trigger] r.lines@[k]).1.spec_bytes().len()
                <= f.src.spec_bytes().len(),
{
    let b = f.src.spec_bytes();
    let start = min_int(span.start - f.base, b.len() as int);
    let end0 = max_int(min_int(span.end - f.base, b.len() as int), start);
    let end = if end0 > start && b[end0 - 1] == 10 {
        end0 - 1
    } else {
        end0
    };
    let l1 = line_start(b, start);
    let l2 = max_int(line_start(b, end), l1);
    lemma_line_start_bounds(b, start);
    lemma_line_start_bounds(b, end);
    let ranges = line_ranges(b, l1, l2);
    lemma_ranges_inside(b, l1, l2);
    if r.lines@.len() == 1 {
        lemma_line_end_bounds(b, l1);
        if l1 < l2 {
            let le = line_end(b, l1);
            lemma_line_end_before(b, l1, l2);
            lemma_ranges_inside(b, le + 1, l2);
            assert(ranges.len() >= 2);
        }
        assert(l2 == l1);
        lemma_chars_mono(b, l1, start, end);
    }
    assert forall|k: int| 0 <= k < r.lines@.len() implies (#[trigger] r.lines@[k]).1.spec_bytes().len()
        <= f.src.spec_bytes().len() by {
        assert(0 <= ranges[k].0 <= ranges[k].1 <= b.len());
    }
}

/// A span resolves to one location: two results that both fit it agree on
/// every field, the text of each line included.
pub proof fn lemma_resolved_unique(f: SourceFile, span: Span, a: Resolved, b: Resolved)
    requires
        resolved_ok(f, span, a),
        resolved_ok(f, span, b),
    ensures
        a.name@ == b.name@,
        a.line == b.line,
        a.col == b.col,
        a.start_char == b.start_char,
        a.end_char == b.end_char,
        a.lines@.len() == b.lines@.len(),
        forall|k: int|
            0 <= k < a.lines@.len() ==> (#[trigger] a.lines@[k]).0 == b.lines@[k].0 && a.lines@[k].1@
                == b.lines@[k].1@,
{
    broadcast use vstd::utf8::encode_utf8_decode_utf8;

    assert forall|k: int| 0 <= k < a.lines@.len() implies (#[trigger] a.lines@[k]).0 == b.lines@[k].0
        && a.lines@[k].1@ == b.lines@[k].1@ by {
        let x = a.lines@[k].1;
        let y = b.lines@[k].1;
        assert(x.spec_bytes() == y.spec_bytes());
        assert(vstd::utf8::decode_utf8(vstd::utf8::encode_utf8(x@)) == x@);
        assert(vstd::utf8::decode_utf8(vstd::utf8::encode_utf8(y@)) == y@);
    }
}

/// The file found for an offset is one of the files, and starts at or
/// before the offset.
pub proof fn lemma_file_index(files: Seq<SourceFile>, offset: u32)
    ensures
        file_index(files, offset) matches Some(i) ==> 0 <= i < files.len() && files[i].base <= offset,
    decreases files.len(),
{
    if files.len() > 0 && offset < files.last().base {
        lemma_file_index(files.drop_last(), offset);
    }
}

} // verus!
