//! Words in ASCII: the names, literals and numbers that the lexer reads and
//! the formatter prints, and their UTF-8 encoding.

use vstd::prelude::*;
use vstd::utf8::{decode_utf8, encode_utf8, encode_utf8_decode_utf8, is_continuation_byte};
use crate::color::{color_in_domain, literal_digits};
use crate::lexer::{is_hex_byte, is_ident_continue_byte, is_ident_start_byte};

verus! {

broadcast use vstd::seq::group_seq_axioms;

pub open spec fn ascii_char(c: char) -> bool {
    (c as u32) < 128
}

pub open spec fn ascii_text(s: Seq<char>) -> bool {
    forall|k: int| 0 <= k < s.len() ==> ascii_char(#[trigger] s[k])
}

pub open spec fn ascii_bytes(x: Seq<u8>) -> bool {
    forall|k: int| 0 <= k < x.len() ==> #[trigger] x[k] < 128
}

/// The byte of an ASCII character.
pub open spec fn byte_of(c: char) -> u8 {
    (c as u32) as u8
}

/// The bytes of an ASCII text, one per character.
pub open spec fn ascii_of(s: Seq<char>) -> Seq<u8> {
    s.map_values(|c: char| byte_of(c))
}

/// The characters of ASCII bytes, one per byte.
pub open spec fn chars_of_bytes(x: Seq<u8>) -> Seq<char> {
    x.map_values(|b: u8| b as char)
}

proof fn lemma_ascii_byte(v: u32)
    requires
        v < 128,
    ensures
        (v & 0x7F) == v,
{
    assert((v & 0x7F) == v) by (bit_vector)
        requires
            v < 128,
    ;
}

/// An ASCII text is encoded one byte per character.
pub proof fn lemma_encode_ascii(s: Seq<char>)
    requires
        ascii_text(s),
    ensures
        encode_utf8(s) == ascii_of(s),
    decreases s.len(),
{
    if s.len() > 0 {
        let c = s[0];
        lemma_ascii_byte(c as u32);
        let rest = s.drop_first();
        assert(ascii_text(rest)) by {
            assert forall|k: int| 0 <= k < rest.len() implies ascii_char(#[trigger] rest[k]) by {
                assert(rest[k] == s[k + 1]);
            }
        }
        lemma_encode_ascii(rest);
        let v = c as u32;
        assert(vstd::utf8::has_width_1_encoding(v));
        assert(vstd::utf8::encode_scalar(v) == seq![(v & 0x7F) as u8]);
        assert((v & 0x7F) as u8 == byte_of(c));
        assert(encode_utf8(s) == vstd::utf8::encode_scalar(v) + encode_utf8(rest));
        assert(encode_utf8(s) =~= ascii_of(s)) by {
            assert forall|k: int| 0 <= k < s.len() implies encode_utf8(s)[k] == ascii_of(s)[k] by {
                if k > 0 {
                    assert(s[k] == rest[k - 1]);
                }
            }
        }
    }
}

/// ASCII bytes decode to one character each.
pub proof fn lemma_decode_ascii(x: Seq<u8>)
    requires
        ascii_bytes(x),
    ensures
        decode_utf8(x) == chars_of_bytes(x),
        ascii_text(decode_utf8(x)),
        ascii_of(decode_utf8(x)) == x,
{
    let s = chars_of_bytes(x);
    assert forall|k: int| 0 <= k < s.len() implies ascii_char(#[trigger] s[k]) by {
        assert(x[k] < 128);
    }
    lemma_encode_ascii(s);
    assert(ascii_of(s) =~= x);
    encode_utf8_decode_utf8(s);
}

/// A name: a letter or `_`, then letters, digits, `_` and `-`.
pub open spec fn ident_word(s: Seq<char>) -> bool {
    &&& s.len() >= 1
    &&& ascii_text(s)
    &&& is_ident_start_byte(byte_of(s[0]))
    &&& forall|k: int| 1 <= k < s.len() ==> is_ident_continue_byte(byte_of(#[trigger] s[k]))
}

/// A `#` literal: `#` then hexadecimal digits.
pub open spec fn hex_word(s: Seq<char>) -> bool {
    &&& s.len() >= 1
    &&& ascii_text(s)
    &&& byte_of(s[0]) == 35
    &&& forall|k: int| 1 <= k < s.len() ==> is_hex_byte(byte_of(#[trigger] s[k]))
}

/// A color as the lexer gives it: a name or a `#` literal.
pub open spec fn color_word(s: Seq<char>) -> bool {
    ident_word(s) || hex_word(s)
}

/// A color word is read as a color literal without stopping.
pub proof fn lemma_word_in_domain(s: Seq<char>)
    requires
        color_word(s),
    ensures
        color_in_domain(s),
{
    lemma_encode_ascii(s);
    let b = encode_utf8(s);
    match literal_digits(s) {
        None => {},
        Some(h) => {
            if h.len() == 6 || h.len() == 8 {
                assert(h[2] == b[3] && h[4] == b[5]);
                assert(ascii_char(s[3]) && ascii_char(s[5]));
                assert(!is_continuation_byte(h[2]));
                assert(!is_continuation_byte(h[4]));
                if h.len() == 8 {
                    assert(h[6] == b[7]);
                    assert(ascii_char(s[7]));
                    assert(!is_continuation_byte(h[6]));
                }
            }
        },
    }
}

/// The text of ASCII bytes: one character per byte, and back.
pub proof fn lemma_token_text(b: Seq<u8>, i: int, j: int)
    requires
        0 <= i <= j <= b.len(),
        forall|k: int| i <= k < j ==> #[trigger] b[k] < 128,
    ensures
        decode_utf8(b.subrange(i, j)).len() == j - i,
        ascii_text(decode_utf8(b.subrange(i, j))),
        forall|k: int| 0 <= k < j - i ==> byte_of(#[trigger] decode_utf8(b.subrange(i, j))[k]) == b[i + k],
{
    let x = b.subrange(i, j);
    assert forall|k: int| 0 <= k < x.len() implies #[trigger] x[k] < 128 by {
        assert(x[k] == b[i + k]);
    }
    lemma_decode_ascii(x);
    let s = decode_utf8(x);
    assert forall|k: int| 0 <= k < j - i implies byte_of(#[trigger] s[k]) == b[i + k] by {
        assert(ascii_of(s)[k] == x[k]);
    }
}

} // verus!
