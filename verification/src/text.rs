//! Cutting a string at byte offsets.

use vstd::prelude::*;
use vstd::string::*;
use vstd::utf8::*;

verus! {

/// In valid UTF-8 a character begins behind every ASCII byte.
pub proof fn lemma_boundary_after_ascii(bytes: Seq<u8>, i: int)
    requires
        valid_utf8(bytes),
        0 <= i < bytes.len(),
        bytes[i] <= 0x7f,
    ensures
        is_char_boundary(bytes, i),
        is_char_boundary(bytes, i + 1),
{
    is_char_boundary_iff_not_is_continuation_byte(bytes, i);
    if i + 1 == bytes.len() {
        is_char_boundary_start_end_of_seq(bytes);
    } else {
        valid_utf8_split(bytes, i);
        let tail = bytes.subrange(i, bytes.len() as int);
        reveal_with_fuel(valid_utf8, 3);
        let rest = pop_first_scalar(tail);
        assert(tail[0] == bytes[i]);
        assert(rest =~= tail.subrange(1, tail.len() as int));
        assert(rest[0] == bytes[i + 1]);
        assert(valid_first_scalar(rest));
        is_char_boundary_iff_not_is_continuation_byte(bytes, i + 1);
    }
}

/// A character boundary of a string behind another one is a boundary of what
/// follows the first.
pub proof fn lemma_boundary_in_tail(bytes: Seq<u8>, from: int, to: int)
    requires
        valid_utf8(bytes),
        0 <= from <= to <= bytes.len(),
        is_char_boundary(bytes, from),
        is_char_boundary(bytes, to),
    ensures
        valid_utf8(bytes.subrange(from, bytes.len() as int)),
        is_char_boundary(bytes.subrange(from, bytes.len() as int), to - from),
{
    valid_utf8_split(bytes, from);
    let tail = bytes.subrange(from, bytes.len() as int);
    if to == bytes.len() || to == from {
        is_char_boundary_start_end_of_seq(tail);
    } else {
        is_char_boundary_iff_not_is_continuation_byte(bytes, to);
        assert(tail[to - from] == bytes[to]);
        is_char_boundary_iff_not_is_continuation_byte(tail, to - from);
    }
}

/// The part of `text` between two character boundaries.
pub fn slice_str<'a>(text: &'a str, from: usize, to: usize) -> (part: &'a str)
    requires
        from <= to <= text.spec_bytes().len(),
        is_char_boundary(text.spec_bytes(), from as int),
        is_char_boundary(text.spec_bytes(), to as int),
    ensures
        part.spec_bytes() == text.spec_bytes().subrange(from as int, to as int),
        part@ == decode_utf8(text.spec_bytes().subrange(from as int, to as int)),
{
    broadcast use {encode_utf8_valid_utf8, encode_utf8_decode_utf8};

    let (_, tail) = text.split_at(from);
    proof {
        lemma_boundary_in_tail(text.spec_bytes(), from as int, to as int);
    }
    let (part, _) = tail.split_at(to - from);
    assert(part.spec_bytes() =~= text.spec_bytes().subrange(from as int, to as int));
    assert(decode_utf8(encode_utf8(part@)) == part@);
    part
}

} // verus!
