//! UTF-8 text inside byte sequences.
//!
//! Validity and decoding are stated with the UTF-8 model of `vstd::utf8`. The
//! lemmas here are about text that is cut at ASCII delimiters, as the payloads
//! of commits and trees are.

use vstd::prelude::*;
use vstd::string::*;
use vstd::utf8::*;

verus! {

/// Reads `bytes` as text with `std::str::from_utf8`.
///
/// Trusted: the standard library accepts exactly the byte sequences that are
/// valid UTF-8, and the text it returns consists of the characters that the
/// bytes encode.
#[verifier::external_body]
pub(crate) fn utf8_text(bytes: &[u8]) -> (text: Option<&str>)
    ensures
        text is Some <==> valid_utf8(bytes@),
        text matches Some(s) ==> s@ == decode_utf8(bytes@),
{
    match std::str::from_utf8(bytes) {
        Ok(text) => Some(text),
        Err(_) => None,
    }
}

/// Appends `c` to `text` with `String::push` of the standard library.
///
/// Trusted: the text grows by that one character at its end.
#[verifier::external_body]
pub(crate) fn push_char(text: &mut String, c: char)
    ensures
        final(text)@ == old(text)@.push(c),
{
    text.push(c);
}

/// The characters of `text`, one by one.
pub fn chars_of(text: &str) -> (chars: Vec<char>)
    ensures
        chars@ == text@,
{
    let mut chars: Vec<char> = Vec::new();
    for c in it: text.chars()
        invariant
            chars@ == it.seq().take(it.index() as int),
            it.seq() == text@,
    {
        chars.push(c);
        assert(it.seq().take(it.index() + 1) =~= it.seq().take(it.index() as int).push(c));
    }
    assert(chars@ =~= text@);
    chars
}

/// The text made of the characters of `chars` from `start` up to `end`.
pub fn string_of(chars: &[char], start: usize, end: usize) -> (text: String)
    requires
        start <= end <= chars@.len(),
    ensures
        text@ == chars@.subrange(start as int, end as int),
{
    let mut text = String::new();
    let mut i: usize = start;
    while i < end
        invariant
            start <= i <= end <= chars@.len(),
            text@ == chars@.subrange(start as int, i as int),
        decreases end - i,
    {
        push_char(&mut text, chars[i]);
        assert(chars@.subrange(start as int, i + 1) =~= chars@.subrange(
            start as int,
            i as int,
        ).push(chars@[i as int]));
        i += 1;
    }
    text
}

/// The bytes that encode a character other than the ASCII character `b` are
/// all different from `b`.
proof fn lemma_scalar_lacks_ascii(scalar: u32, b: u8)
    by (bit_vector)
    requires
        b < 0x80,
        scalar != b as u32,
    ensures
        scalar <= 0x7F ==> (scalar & 0x7F) as u8 != b,
        0xC0 | ((scalar >> 6) & 0x1F) as u8 != b,
        0xE0 | ((scalar >> 12) & 0x0F) as u8 != b,
        0xF0 | ((scalar >> 18) & 0x7) as u8 != b,
        0x80 | (scalar & 0x3F) as u8 != b,
        0x80 | ((scalar >> 6) & 0x3F) as u8 != b,
        0x80 | ((scalar >> 12) & 0x3F) as u8 != b,
{
}

/// An ASCII byte stands in the UTF-8 encoding of a text only where the text
/// holds that character: a text without the character `c` is encoded without
/// the byte of `c`.
pub proof fn lemma_encoding_lacks_ascii(chars: Seq<char>, c: char)
    requires
        c <= '\u{7f}',
        forall|i: int| 0 <= i < chars.len() ==> chars[i] != c,
    ensures
        forall|i: int| 0 <= i < encode_utf8(chars).len() ==> encode_utf8(chars)[i] != c as u8,
    decreases chars.len(),
{
    if chars.len() > 0 {
        let scalar = chars[0] as u32;
        let head = encode_scalar(scalar);
        let rest = chars.drop_first();
        let tail = encode_utf8(rest);
        assert forall|i: int| 0 <= i < rest.len() implies rest[i] != c by {
            assert(rest[i] == chars[i + 1]);
        }
        lemma_encoding_lacks_ascii(rest, c);
        assert(scalar != (c as u8) as u32) by {
            assert(chars[0] != c);
            char_u32_cast(chars[0], scalar);
            char_u32_cast(c, c as u32);
        }
        lemma_scalar_lacks_ascii(scalar, c as u8);
        assert forall|i: int| 0 <= i < encode_utf8(chars).len() implies encode_utf8(chars)[i]
            != c as u8 by {
            if i < head.len() {
                assert(encode_utf8(chars)[i] == head[i]);
            } else {
                assert(encode_utf8(chars)[i] == tail[i - head.len()]);
            }
        }
    }
}

/// An ASCII character is encoded as the one byte that it is.
proof fn lemma_ascii_scalar(scalar: u32)
    by (bit_vector)
    requires
        scalar <= 0x7F,
    ensures
        (scalar & 0x7F) as u8 == scalar as u8,
{
}

/// Where a text holds an ASCII character, its UTF-8 encoding holds the byte
/// of that character.
pub proof fn lemma_encoding_holds_ascii(chars: Seq<char>, c: char, at: int)
    requires
        c <= '\u{7f}',
        0 <= at < chars.len(),
        chars[at] == c,
    ensures
        exists|i: int| 0 <= i < encode_utf8(chars).len() && encode_utf8(chars)[i] == c as u8,
    decreases chars.len(),
{
    let head = encode_scalar(chars[0] as u32);
    let rest = chars.drop_first();
    if at == 0 {
        lemma_ascii_scalar(c as u32);
        assert(encode_utf8(chars)[0] == head[0]);
    } else {
        assert(rest[at - 1] == c);
        lemma_encoding_holds_ascii(rest, c, at - 1);
        let i = choose|i: int| 0 <= i < encode_utf8(rest).len() && encode_utf8(rest)[i] == c as u8;
        assert(encode_utf8(chars)[head.len() + i] == encode_utf8(rest)[i]);
    }
}

/// Bytes without the byte of an ASCII character decode to a text without that
/// character.
pub proof fn lemma_decoding_lacks_ascii(bytes: Seq<u8>, c: char)
    requires
        c <= '\u{7f}',
        valid_utf8(bytes),
        forall|i: int| 0 <= i < bytes.len() ==> bytes[i] != c as u8,
    ensures
        forall|i: int| 0 <= i < decode_utf8(bytes).len() ==> decode_utf8(bytes)[i] != c,
{
    let chars = decode_utf8(bytes);
    decode_utf8_encode_utf8(bytes);
    assert forall|at: int| 0 <= at < chars.len() implies chars[at] != c by {
        if chars[at] == c {
            lemma_encoding_holds_ascii(chars, c, at);
        }
    }
}

/// Whether two texts consist of the same characters.
pub fn str_equals(a: &str, b: &str) -> (same: bool)
    ensures
        same == (a@ == b@),
{
    broadcast use encode_utf8_decode_utf8;

    let x = a.as_bytes();
    let y = b.as_bytes();
    assert(decode_utf8(x@) == a@ && decode_utf8(y@) == b@);
    if x.len() != y.len() {
        return false;
    }
    let mut i: usize = 0;
    while i < x.len()
        invariant
            0 <= i <= x@.len(),
            x@.len() == y@.len(),
            forall|j: int| 0 <= j < i ==> x@[j] == y@[j],
            a@ == b@ ==> x@ == y@,
        decreases x@.len() - i,
    {
        if x[i] != y[i] {
            return false;
        }
        i += 1;
    }
    assert(x@ =~= y@);
    true
}

} // verus!
