//! Source text as bytes: character boundaries and decoded text.

use vstd::prelude::*;
use vstd::string::*;
use vstd::utf8::*;

verus! {

/// Whether `i` is a position between two characters of `src` (or at one of
/// its ends): it is in range and the byte there, if any, does not continue
/// a character.
pub open spec fn boundary(src: Seq<u8>, i: int) -> bool {
    0 <= i <= src.len() && (i < src.len() ==> !is_continuation_byte(src[i]))
}

/// The text that the bytes of `src` from `start` up to `end` encode.
pub open spec fn text(src: Seq<u8>, start: int, end: int) -> Seq<char> {
    decode_utf8(src.subrange(start, end))
}

/// The bytes of an ASCII text, one per character.
pub open spec fn ascii(chars: Seq<char>) -> Seq<u8> {
    Seq::new(chars.len(), |i: int| chars[i] as u8)
}

/// An ASCII text is encoded byte for character.
pub proof fn lemma_ascii_bytes(chars: Seq<char>)
    requires
        is_ascii_chars(chars),
    ensures
        encode_utf8(chars) == ascii(chars),
{
    is_ascii_chars_encode_utf8(chars);
    assert(encode_utf8(chars) =~= ascii(chars));
}

/// The encoding of two texts one after the other is the encoding of the
/// first followed by that of the second.
pub proof fn lemma_encode_concat(a: Seq<char>, b: Seq<char>)
    ensures
        encode_utf8(a + b) == encode_utf8(a) + encode_utf8(b),
    decreases a.len(),
{
    if a.len() == 0 {
        assert(a + b =~= b);
        assert(encode_utf8(a) + encode_utf8(b) =~= encode_utf8(b));
    } else {
        lemma_encode_concat(a.drop_first(), b);
        assert((a + b).drop_first() =~= a.drop_first() + b);
        assert((a + b)[0] == a[0]);
        assert(encode_utf8(a + b) =~= encode_utf8(a) + encode_utf8(b));
    }
}

/// An ASCII character is encoded as the one byte of its number; every byte
/// of the encoding of any other character lies above the ASCII range.
pub proof fn lemma_encode_scalar_bytes(c: u32)
    requires
        is_scalar(c),
    ensures
        c <= 0x7f ==> encode_scalar(c) == seq![c as u8],
        c > 0x7f ==> forall|j: int|
            0 <= j < encode_scalar(c).len() ==> #[trigger] encode_scalar(c)[j] >= 0x80,
{
    if c <= 0x7f {
        assert((c & 0x7F) as u8 == c as u8) by (bit_vector)
            requires
                c <= 0x7f,
        ;
    } else {
        assert(leading_byte_width_2(c) >= 0x80) by (bit_vector);
        assert(leading_byte_width_3(c) >= 0x80) by (bit_vector);
        assert(leading_byte_width_4(c) >= 0x80) by (bit_vector);
        assert(last_continuation_byte(c) >= 0x80) by (bit_vector);
        assert(second_last_continuation_byte(c) >= 0x80) by (bit_vector);
        assert(third_last_continuation_byte(c) >= 0x80) by (bit_vector);
    }
}

/// An ASCII character occurs in a text exactly if its byte occurs in the
/// encoding of the text.
pub proof fn lemma_ascii_occurs(chars: Seq<char>, c: char)
    requires
        c <= '\u{7f}',
    ensures
        chars.contains(c) <==> encode_utf8(chars).contains(c as u8),
    decreases chars.len(),
{
    let bytes = encode_utf8(chars);
    if chars.len() > 0 {
        let head = encode_scalar(chars[0] as u32);
        let rest = chars.drop_first();
        let tail = encode_utf8(rest);
        lemma_ascii_occurs(rest, c);
        char_is_scalar(chars[0]);
        lemma_encode_scalar_bytes(chars[0] as u32);
        assert(bytes == head + tail);
        if chars.contains(c) {
            let i = choose|i: int| 0 <= i < chars.len() && chars[i] == c;
            if i == 0 {
                assert(bytes[0] == c as u8);
            } else {
                assert(rest[i - 1] == c);
                let j = choose|j: int| 0 <= j < tail.len() && tail[j] == c as u8;
                assert(bytes[head.len() + j] == c as u8);
            }
        }
        if bytes.contains(c as u8) {
            let j = choose|j: int| 0 <= j < bytes.len() && bytes[j] == c as u8;
            if j < head.len() {
                assert(head[j] == c as u8);
                assert(chars[0] as u32 == c as u32);
                char_u32_cast(chars[0], chars[0] as u32);
                char_u32_cast(c, c as u32);
            } else {
                assert(tail[j - head.len()] == c as u8);
                let i = choose|i: int| 0 <= i < rest.len() && rest[i] == c;
                assert(chars[i + 1] == c);
            }
        }
    }
}

/// In valid UTF-8, `boundary` is exactly the notion of character boundary.
pub proof fn lemma_boundary_is_char_boundary(src: Seq<u8>, i: int)
    requires
        valid_utf8(src),
    ensures
        boundary(src, i) <==> is_char_boundary(src, i),
{
    if 0 <= i < src.len() {
        is_char_boundary_iff_not_is_continuation_byte(src, i);
    } else if i == src.len() {
        is_char_boundary_start_end_of_seq(src);
    } else if i < 0 {
        assert(!is_char_boundary(src, i));
    } else {
        assert(!is_char_boundary(src, i));
    }
}

/// The bytes between two character boundaries of valid UTF-8 are valid
/// UTF-8, and they encode the text that they decode to.
pub proof fn lemma_text_between(src: Seq<u8>, start: int, end: int)
    requires
        valid_utf8(src),
        start <= end,
        boundary(src, start),
        boundary(src, end),
    ensures
        valid_utf8(src.subrange(start, end)),
        encode_utf8(text(src, start, end)) == src.subrange(start, end),
{
    lemma_boundary_is_char_boundary(src, end);
    valid_utf8_split(src, end);
    let head = src.subrange(0, end);
    if start < end {
        assert(head[start] == src[start]);
    }
    lemma_boundary_is_char_boundary(head, start);
    valid_utf8_split(head, start);
    assert(head.subrange(start, head.len() as int) =~= src.subrange(start, end));
    decode_utf8_encode_utf8(src.subrange(start, end));
}

/// In valid UTF-8 the byte after an ASCII byte starts a character.
pub proof fn lemma_boundary_after_ascii(src: Seq<u8>, i: int)
    requires
        valid_utf8(src),
        0 <= i < src.len(),
        src[i] <= 0x7f,
    ensures
        boundary(src, i + 1),
    decreases src.len(),
{
    let width = length_of_first_scalar(src);
    let rest = pop_first_scalar(src);
    assert(valid_first_scalar(src) && valid_utf8(rest));
    if i + 1 < src.len() {
        if i == 0 {
            assert(width == 1);
            assert(rest[0] == src[1]);
            if rest.len() > 0 {
                assert(valid_first_scalar(rest));
            }
        } else if i < width {
            assert(is_continuation_byte(src[i]));
        } else {
            assert(rest[i - width] == src[i]);
            lemma_boundary_after_ascii(rest, i - width);
            assert(rest[i + 1 - width] == src[i + 1]);
        }
    }
}

/// The part of `source` from byte `start` up to byte `end`, both of which
/// lie between two characters.
pub fn slice<'a>(source: &'a str, start: usize, end: usize) -> (r: &'a str)
    requires
        start <= end,
        boundary(source.spec_bytes(), start as int),
        boundary(source.spec_bytes(), end as int),
    ensures
        r.spec_bytes() == source.spec_bytes().subrange(start as int, end as int),
        r@ == text(source.spec_bytes(), start as int, end as int),
{
    let ghost src = source.spec_bytes();
    proof {
        encode_utf8_valid_utf8(source@);
        lemma_boundary_is_char_boundary(src, end as int);
    }
    let (head, _) = source.split_at(end);
    proof {
        let h = head.spec_bytes();
        assert(h =~= src.subrange(0, end as int));
        if start < end {
            assert(h[start as int] == src[start as int]);
        }
        encode_utf8_valid_utf8(head@);
        lemma_boundary_is_char_boundary(h, start as int);
    }
    let (_, middle) = head.split_at(start);
    proof {
        assert(middle.spec_bytes() =~= src.subrange(start as int, end as int));
        encode_utf8_decode_utf8(middle@);
    }
    middle
}

/// Whether two texts are the same, character for character.
pub fn same_text(a: &str, b: &str) -> (r: bool)
    ensures
        r == (a@ == b@),
{
    let left = a.as_bytes();
    let right = b.as_bytes();
    proof {
        encode_utf8_decode_utf8(a@);
        encode_utf8_decode_utf8(b@);
    }
    if left.len() != right.len() {
        return false;
    }
    let mut i: usize = 0;
    while i < left.len()
        invariant
            i <= left.len() == right.len(),
            left@ == a.spec_bytes(),
            right@ == b.spec_bytes(),
            forall|j: int| 0 <= j < i ==> left@[j] == right@[j],
        decreases left.len() - i,
    {
        if left[i] != right[i] {
            return false;
        }
        i = i + 1;
    }
    assert(left@ =~= right@);
    true
}

} // verus!
