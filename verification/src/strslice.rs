use vstd::prelude::*;
use vstd::string::StringSliceAdditionalSpecFns;
use vstd::utf8::{
    is_char_boundary, is_continuation_byte, is_leading_byte_width_1, valid_utf8,
    length_of_first_scalar, pop_first_scalar,
};

verus! {

broadcast use {
    vstd::utf8::encode_utf8_valid_utf8,
    vstd::utf8::is_char_boundary_iff_not_is_continuation_byte,
    vstd::utf8::is_char_boundary_start_end_of_seq,
};

/// In valid UTF-8, the byte after a one-byte character starts a new character.
pub proof fn lemma_boundary_after_ascii(b: Seq<u8>, j: int)
    requires
        valid_utf8(b),
        0 <= j < b.len(),
        is_char_boundary(b, j),
        b[j] < 0x80,
    ensures
        is_char_boundary(b, j + 1),
    decreases b.len(),
{
    reveal_with_fuel(is_char_boundary, 2);
    let l = length_of_first_scalar(b);
    let rest = pop_first_scalar(b);
    if j == 0 {
        assert(is_leading_byte_width_1(b[0]));
        assert(l == 1);
    } else {
        assert(valid_utf8(rest));
        assert(is_char_boundary(rest, j - l));
        assert(l >= 1);
        assert(rest == b.subrange(l, b.len() as int));
        assert(rest[j - l] == b[j]);
        lemma_boundary_after_ascii(rest, j - l);
    }
}

/// A position in a string's bytes that holds or follows a one-byte character
/// lies between two characters.
pub proof fn lemma_ascii_boundary(b: Seq<u8>, i: int)
    requires
        valid_utf8(b),
        0 <= i <= b.len(),
        i == 0 || i == b.len() || b[i] < 0x80 || b[i - 1] < 0x80,
    ensures
        is_char_boundary(b, i),
{
    if i == 0 || i == b.len() {
    } else if b[i] < 0x80 {
        assert(!is_continuation_byte(b[i]));
    } else {
        assert(!is_continuation_byte(b[i - 1]));
        lemma_boundary_after_ascii(b, i - 1);
    }
}

/// The part of `s` between byte offsets `i` and `j`.
pub fn substr<'a>(s: &'a str, i: usize, j: usize) -> (r: &'a str)
    requires
        i <= j <= s.spec_bytes().len(),
        is_char_boundary(s.spec_bytes(), i as int),
        is_char_boundary(s.spec_bytes(), j as int),
    ensures
        r.spec_bytes() == s.spec_bytes().subrange(i as int, j as int),
{
    let ghost b = s.spec_bytes();
    let (_, post) = s.split_at(i);
    let ghost pb = post.spec_bytes();
    assert(pb == b.subrange(i as int, b.len() as int));
    assert(valid_utf8(pb));
    proof {
        if j < b.len() {
            assert(pb[j - i] == b[j as int]);
            assert(!is_continuation_byte(b[j as int]));
        }
    }
    let (mid, _) = post.split_at(j - i);
    assert(mid.spec_bytes() =~= b.subrange(i as int, j as int));
    mid
}

} // verus!
