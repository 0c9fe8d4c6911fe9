//! The text of a chunk size field: UTF-8, surrounding white space, a number.
use vstd::prelude::*;
use vstd::utf8::{
    decode_utf8, encode_utf8, encode_utf8_decode_utf8, encode_utf8_valid_utf8, is_ascii_chars,
    is_ascii_chars_encode_utf8, valid_utf8,
};

use crate::number::{ascii_text, digit_value, hex, hex_number, lemma_hex_reads_back, parse_hex};

verus! {

/// `c` has the Unicode property `White_Space`.
pub open spec fn is_white_space(c: char) -> bool {
    ||| '\u{9}' <= c <= '\u{d}'
    ||| c == '\u{20}'
    ||| c == '\u{85}'
    ||| c == '\u{a0}'
    ||| c == '\u{1680}'
    ||| '\u{2000}' <= c <= '\u{200a}'
    ||| '\u{2028}' <= c <= '\u{2029}'
    ||| c == '\u{202f}'
    ||| c == '\u{205f}'
    ||| c == '\u{3000}'
}

/// `text` without the white space that it starts with.
pub open spec fn trim_start(text: Seq<char>) -> Seq<char>
    decreases text.len(),
{
    if text.len() > 0 && is_white_space(text.first()) {
        trim_start(text.drop_first())
    } else {
        text
    }
}

/// `text` without the white space that it ends with.
pub open spec fn trim_end(text: Seq<char>) -> Seq<char>
    decreases text.len(),
{
    if text.len() > 0 && is_white_space(text.last()) {
        trim_end(text.drop_last())
    } else {
        text
    }
}

/// `text` without the white space around it.
pub open spec fn trim(text: Seq<char>) -> Seq<char> {
    trim_end(trim_start(text))
}

/// The chunk size that a size field gives: the field is UTF-8 text that, but
/// for white space around it, is a hexadecimal number.
pub open spec fn size_field(field: Seq<u8>) -> Option<usize> {
    if valid_utf8(field) {
        hex_number(trim(decode_utf8(field)))
    } else {
        None
    }
}

/// Tells white space from other characters.
pub fn white_space(c: char) -> (r: bool)
    ensures
        r == is_white_space(c),
{
    ('\u{9}' <= c && c <= '\u{d}') || c == '\u{20}' || c == '\u{85}' || c == '\u{a0}' || c
        == '\u{1680}' || ('\u{2000}' <= c && c <= '\u{200a}') || ('\u{2028}' <= c && c
        <= '\u{2029}') || c == '\u{202f}' || c == '\u{205f}' || c == '\u{3000}'
}

/// Calls `String::from_utf8`, which gives a string exactly when the bytes are
/// valid UTF-8; the string then consists of these bytes.
#[verifier::external_body]
fn string_from_utf8(bytes: Vec<u8>) -> (r: Option<String>)
    ensures
        r is Some <==> valid_utf8(bytes@),
        r matches Some(s) ==> encode_utf8(s@) == bytes@,
{
    String::from_utf8(bytes).ok()
}

/// The characters of a string.
fn characters(s: &str) -> (r: Vec<char>)
    ensures
        r@ == s@,
{
    let mut r: Vec<char> = Vec::new();
    for c in iter: s.chars()
        invariant
            iter.seq() == s@,
            r@ == s@.take(iter.index()),
    {
        r.push(c);
    }
    r
}

/// Leaves out the white space around `text`.
pub fn trimmed(text: &[char]) -> (r: &[char])
    ensures
        r@ == trim(text@),
{
    let mut start: usize = 0;
    assert(text@.skip(0) =~= text@);
    while start < text.len() && white_space(text[start])
        invariant
            start <= text.len(),
            trim_start(text@) == trim_start(text@.skip(start as int)),
        decreases text.len() - start,
    {
        assert(text@.skip(start as int).drop_first() =~= text@.skip(start + 1));
        start = start + 1;
    }
    let mut end: usize = text.len();
    assert(text@.subrange(start as int, end as int) =~= text@.skip(start as int));
    while end > start && white_space(text[end - 1])
        invariant
            start <= end <= text.len(),
            trim(text@) == trim_end(text@.subrange(start as int, end as int)),
        decreases end,
    {
        assert(text@.subrange(start as int, end as int).drop_last() =~= text@.subrange(
            start as int,
            end - 1,
        ));
        end = end - 1;
    }
    vstd::slice::slice_subrange(text, start, end)
}

/// Reads the chunk size out of a size field.
pub fn parse_size(field: Vec<u8>) -> (r: Option<usize>)
    ensures
        r == size_field(field@),
{
    let ghost bytes = field@;
    match string_from_utf8(field) {
        None => None,
        Some(s) => {
            proof {
                encode_utf8_decode_utf8(s@);
            }
            let text = characters(s.as_str());
            parse_hex(trimmed(text.as_slice()))
        },
    }
}

/// A size field with a number in hexadecimal gives that number.
pub proof fn lemma_size_field_hex(n: usize)
    ensures
        size_field(hex(n as nat)) == Some(n),
{
    let bytes = hex(n as nat);
    let text = ascii_text(bytes);
    lemma_hex_reads_back(n as nat);
    assert(encode_utf8(text) == bytes) by {
        assert(is_ascii_chars(text)) by {
            assert forall|i: int| 0 <= i < text.len() implies '\0' <= #[trigger] text[i]
                <= '\u{7f}' by {
                assert(text[i] == bytes[i] as char);
            }
        }
        is_ascii_chars_encode_utf8(text);
        assert forall|i: int| 0 <= i < text.len() implies encode_utf8(text)[i] == bytes[i] by {
            assert(text[i] as u8 == encode_utf8(text)[i]);
        }
        assert(encode_utf8(text) =~= bytes);
    }
    encode_utf8_valid_utf8(text);
    encode_utf8_decode_utf8(text);
    assert(digit_value(text[0]) is Some);
    assert(digit_value(text[text.len() - 1]) is Some);
}

} // verus!
