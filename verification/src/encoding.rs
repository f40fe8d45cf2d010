//! How ASCII characters stand in the bytes of a text.
use vstd::prelude::*;
use vstd::utf8::{
    char_is_scalar, char_u32_cast, decode_utf8, decode_utf8_encode_utf8, encode_scalar, encode_utf8,
    encode_utf8_first_scalar, has_width_1_encoding, is_ascii_chars, is_ascii_chars_encode_utf8,
    leading_byte_width_1, valid_utf8,
};

verus! {

/// The characters stand in the bytes at `j`, each as one byte.
pub open spec fn stands_at(bytes: Seq<u8>, j: int, run: Seq<char>) -> bool {
    0 <= j && j + run.len() <= bytes.len() && forall|k: int|
        0 <= k < run.len() ==> #[trigger] run[k] == bytes[j + k] as char
}

/// The text has its ASCII characters from the bytes: a run of them stands in the bytes too,
/// at the start or the end of the bytes where it is that of the text.
pub open spec fn ascii_from(bytes: Seq<u8>, text: Seq<char>) -> bool {
    forall|i: int, m: int|
        0 <= i < m <= text.len() && is_ascii_chars(#[trigger] text.subrange(i, m)) ==> exists|
            j: int,
        | #[trigger]
            stands_at(bytes, j, text.subrange(i, m)) && (i == 0 ==> j == 0) && (m == text.len()
                ==> j + (m - i) == bytes.len())
}

/// The bytes of two texts, one behind the other, are those of the whole.
pub proof fn law_encode_add(a: Seq<char>, b: Seq<char>)
    ensures
        encode_utf8(a + b) == encode_utf8(a) + encode_utf8(b),
    decreases a.len(),
{
    if a.len() == 0 {
        assert(a + b =~= b);
        assert(encode_utf8(a) + encode_utf8(b) =~= encode_utf8(b));
    } else {
        law_encode_add(a.drop_first(), b);
        assert((a + b).drop_first() =~= a.drop_first() + b);
        assert((a + b)[0] == a[0]);
        assert(encode_utf8(a + b) =~= encode_utf8(a) + encode_utf8(b));
    }
}

/// The text that bytes encode has its ASCII characters from them.
pub proof fn law_decoded_ascii(bytes: Seq<u8>)
    requires
        valid_utf8(bytes),
    ensures
        ascii_from(bytes, decode_utf8(bytes)),
{
    let text = decode_utf8(bytes);
    decode_utf8_encode_utf8(bytes);
    assert forall|i: int, m: int|
        0 <= i < m <= text.len() && is_ascii_chars(#[trigger] text.subrange(i, m)) implies exists|
        j: int,
    | #[trigger]
        stands_at(bytes, j, text.subrange(i, m)) && (i == 0 ==> j == 0) && (m == text.len() ==> j
            + (m - i) == bytes.len()) by {
        let run = text.subrange(i, m);
        let j = encode_utf8(text.take(i)).len() as int;
        assert(text =~= text.take(i) + run + text.skip(m));
        law_encode_add(text.take(i) + run, text.skip(m));
        law_encode_add(text.take(i), run);
        is_ascii_chars_encode_utf8(run);
        assert(stands_at(bytes, j, run)) by {
            assert forall|k: int| 0 <= k < run.len() implies #[trigger] run[k] == bytes[j
                + k] as char by {
                assert(run[k] as u8 == encode_utf8(run)[k]);
            }
        }
    }
}

proof fn lemma_first_byte(text: Seq<char>)
    requires
        text.len() > 0,
    ensures
        encode_utf8(text).len() >= encode_scalar(text[0] as u32).len() > 0,
        text[0] as u32 <= 0x7f ==> encode_scalar(text[0] as u32).len() == 1 && text[0]
            == encode_utf8(text)[0] as char,
        text[0] as u32 > 0x7f ==> forall|j: int|
            0 <= j < encode_scalar(text[0] as u32).len() ==> #[trigger] encode_utf8(text)[j]
                >= 0x80,
{
    let c = text[0] as u32;
    char_is_scalar(text[0]);
    encode_utf8_first_scalar(text);
    if c <= 0x7f {
        assert(c as u8 == leading_byte_width_1(c)) by (bit_vector)
            requires
                has_width_1_encoding(c),
        ;
        char_u32_cast(text[0], c);
    }
}

/// An ASCII byte of an encoded text is a character of the text, and so is one behind it.
pub proof fn law_encoded_ascii(text: Seq<char>, j: int)
    requires
        0 <= j < encode_utf8(text).len(),
        encode_utf8(text)[j] < 0x80,
    ensures
        exists|i: int|
            0 <= i < text.len() && #[trigger] text[i] == encode_utf8(text)[j] as char && (j + 1
                < encode_utf8(text).len() && encode_utf8(text)[j + 1] < 0x80 ==> i + 1 < text.len()
                && text[i + 1] == encode_utf8(text)[j + 1] as char),
    decreases text.len(),
{
    let bytes = encode_utf8(text);
    let rest = text.drop_first();
    let n = encode_scalar(text[0] as u32).len() as int;
    lemma_first_byte(text);
    assert(bytes == encode_scalar(text[0] as u32) + encode_utf8(rest));
    if j < n {
        assert(text[0] == bytes[j] as char);
        if j + 1 < bytes.len() {
            assert(rest.len() > 0);
            lemma_first_byte(rest);
            assert(bytes[j + 1] == encode_utf8(rest)[0]);
            assert(rest[0] == text[1]);
        }
    } else {
        assert(encode_utf8(rest)[j - n] == bytes[j]);
        if j + 1 < bytes.len() {
            assert(encode_utf8(rest)[j - n + 1] == bytes[j + 1]);
        }
        law_encoded_ascii(rest, j - n);
        let i = choose|i: int|
            0 <= i < rest.len() && #[trigger] rest[i] == encode_utf8(rest)[j - n] as char && (j - n
                + 1 < encode_utf8(rest).len() && encode_utf8(rest)[j - n + 1] < 0x80 ==> i + 1
                < rest.len() && rest[i + 1] == encode_utf8(rest)[j - n + 1] as char);
        assert(rest[i] == text[i + 1]);
        if i + 1 < rest.len() {
            assert(rest[i + 1] == text[i + 2]);
        }
    }
}

} // verus!
