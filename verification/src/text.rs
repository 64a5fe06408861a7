//! Facts about text and its UTF-8 bytes that the wire format rests on.

use vstd::prelude::*;
use vstd::utf8::*;

verus! {

/// Is `c` an ASCII character?
pub open spec fn is_ascii_char(c: char) -> bool {
    c as u32 <= 0x7F
}

/// Two characters that differ have codes that differ.
pub proof fn lemma_codes_differ(c: char, d: char)
    requires
        c != d,
    ensures
        c as u32 != d as u32,
{
}

/// The bytes of two texts put together are the bytes of the first followed
/// by the bytes of the second.
pub proof fn lemma_encode_concat(a: Seq<char>, b: Seq<char>)
    ensures
        encode_utf8(a + b) == encode_utf8(a) + encode_utf8(b),
    decreases a.len(),
{
    if a.len() == 0 {
        assert(a + b =~= b);
        assert(encode_utf8(a) + encode_utf8(b) =~= encode_utf8(b));
    } else {
        let s = a + b;
        assert(s[0] == a[0]);
        assert(s.drop_first() =~= a.drop_first() + b);
        lemma_encode_concat(a.drop_first(), b);
        assert(encode_utf8(s) =~= encode_utf8(a) + encode_utf8(b));
    }
}

/// An ASCII character is encoded as the one byte that is its code.
pub proof fn lemma_encode_ascii(c: char)
    requires
        is_ascii_char(c),
    ensures
        encode_utf8(seq![c]) == seq![c as u8],
{
    reveal_with_fuel(encode_utf8, 2);
    let s = seq![c];
    assert(s.drop_first() =~= Seq::<char>::empty());
    lemma_encode_scalar_bytes(c);
    assert(encode_utf8(s) =~= seq![c as u8]);
}

/// Every byte of the encoding of a character that is not ASCII has its
/// high bit set, and an ASCII character is encoded as its code.
pub proof fn lemma_encode_scalar_bytes(c: char)
    ensures
        is_ascii_char(c) ==> encode_scalar(c as u32) == seq![c as u8],
        !is_ascii_char(c) ==> forall|i: int|
            0 <= i < encode_scalar(c as u32).len() ==> #[trigger] encode_scalar(c as u32)[i]
                >= 0x80,
{
    let v = c as u32;
    if v <= 0x7F {
        assert(leading_byte_width_1(v) == v as u8) by (bit_vector)
            requires
                v <= 0x7F,
        ;
    } else {
        assert(last_continuation_byte(v) >= 0x80) by (bit_vector);
        assert(second_last_continuation_byte(v) >= 0x80) by (bit_vector);
        assert(third_last_continuation_byte(v) >= 0x80) by (bit_vector);
        assert(leading_byte_width_2(v) >= 0x80) by (bit_vector);
        assert(leading_byte_width_3(v) >= 0x80) by (bit_vector);
        assert(leading_byte_width_4(v) >= 0x80) by (bit_vector);
    }
}

/// An ASCII byte stands in the encoding of no character but the one with
/// that code.
pub proof fn lemma_encode_scalar_avoids(c: char, b: u8)
    requires
        b <= 0x7F,
        c as u32 != b as u32,
    ensures
        forall|i: int|
            0 <= i < encode_scalar(c as u32).len() ==> #[trigger] encode_scalar(c as u32)[i] != b,
{
    lemma_encode_scalar_bytes(c);
    if is_ascii_char(c) {
        assert((c as u8) as u32 == c as u32);
    }
}

/// An ASCII byte stands in the encoding of a text only where the text
/// holds the character with that code.
pub proof fn lemma_encode_keeps_ascii_out(s: Seq<char>, b: u8)
    requires
        b <= 0x7F,
        forall|i: int| 0 <= i < s.len() ==> (#[trigger] s[i]) as u32 != b as u32,
    ensures
        forall|j: int| 0 <= j < encode_utf8(s).len() ==> #[trigger] encode_utf8(s)[j] != b,
    decreases s.len(),
{
    if s.len() > 0 {
        let head = encode_scalar(s[0] as u32);
        let tail = encode_utf8(s.drop_first());
        lemma_encode_scalar_avoids(s[0], b);
        assert forall|i: int| 0 <= i < s.drop_first().len() implies (#[trigger] s.drop_first()[i])
            as u32 != b as u32 by {
            assert(s.drop_first()[i] == s[i + 1]);
        }
        lemma_encode_keeps_ascii_out(s.drop_first(), b);
        assert forall|j: int| 0 <= j < encode_utf8(s).len() implies #[trigger] encode_utf8(s)[j]
            != b by {
            assert(encode_utf8(s) == head + tail);
            if j < head.len() {
                assert(encode_utf8(s)[j] == head[j]);
            } else {
                assert(encode_utf8(s)[j] == tail[j - head.len()]);
            }
        }
    }
}

} // verus!
