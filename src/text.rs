//! Copying text out of the source between character boundaries.
use vstd::prelude::*;
use vstd::string::StringSliceAdditionalSpecFns;
use vstd::utf8::*;

verus! {

/// `pos` starts a character of `bytes`, or is its end.
pub open spec fn at_boundary(bytes: Seq<u8>, pos: int) -> bool {
    pos == bytes.len() || (0 <= pos < bytes.len() && !is_continuation_byte(bytes[pos]))
}

/// The characters that the bytes `[start, end)` of `bytes` encode.
pub open spec fn chars_between(bytes: Seq<u8>, start: int, end: int) -> Seq<char> {
    decode_utf8(bytes.subrange(start, end))
}

/// In UTF-8 no continuation byte follows an ASCII byte.
pub proof fn lemma_after_ascii(bytes: Seq<u8>, i: int)
    requires
        valid_utf8(bytes),
        0 <= i < bytes.len(),
        bytes[i] < 0x80,
    ensures
        at_boundary(bytes, i + 1),
    decreases bytes.len(),
{
    let w = length_of_first_scalar(bytes);
    let rest = pop_first_scalar(bytes);
    assert(valid_first_scalar(bytes) && valid_utf8(rest));
    assert(1 <= w <= bytes.len());
    assert(rest.len() == bytes.len() - w);
    if i + 1 == bytes.len() {
    } else if i < w {
        assert(w == 1);
        assert(rest[0] == bytes[1]);
        assert(valid_first_scalar(rest));
    } else {
        assert(rest[i - w] == bytes[i]);
        lemma_after_ascii(rest, i - w);
        if i - w + 1 < rest.len() {
            assert(rest[i - w + 1] == bytes[i + 1]);
        }
    }
}

/// A position that is at a boundary is a character boundary in vstd's sense.
pub proof fn lemma_boundary_is_char_boundary(bytes: Seq<u8>, pos: int)
    requires
        valid_utf8(bytes),
        at_boundary(bytes, pos),
    ensures
        is_char_boundary(bytes, pos),
{
    if pos == bytes.len() {
        is_char_boundary_start_end_of_seq(bytes);
    } else {
        is_char_boundary_iff_not_is_continuation_byte(bytes, pos);
    }
}

/// Copies out the text between two character boundaries of `input`.
pub fn slice_text(input: &str, start: usize, end: usize) -> (r: String)
    requires
        start <= end <= input.spec_bytes().len(),
        at_boundary(input.spec_bytes(), start as int),
        at_boundary(input.spec_bytes(), end as int),
    ensures
        r@ == chars_between(input.spec_bytes(), start as int, end as int),
{
    let ghost bytes = input.spec_bytes();
    proof {
        encode_utf8_valid_utf8(input@);
        lemma_boundary_is_char_boundary(bytes, start as int);
    }
    let (_, rest) = input.split_at(start);
    proof {
        let rb = rest.spec_bytes();
        valid_utf8_split(bytes, start as int);
        assert(rb.len() == bytes.len() - start);
        if end < bytes.len() {
            assert(rb[end - start] == bytes[end as int]);
        }
        lemma_boundary_is_char_boundary(rb, end - start);
    }
    let (mid, _) = rest.split_at(end - start);
    proof {
        assert(mid.spec_bytes() =~= bytes.subrange(start as int, end as int));
        encode_utf8_decode_utf8(mid@);
    }
    mid.to_owned()
}

} // verus!
