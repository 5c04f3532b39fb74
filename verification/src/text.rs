//! Small string helpers shared by the lexer, the formatter and the
//! diagnostics: building strings character by character, and the decimal
//! representation of integers.

use vstd::prelude::*;
use vstd::utf8::{
    decode_utf8, encode_utf8, encode_utf8_decode_utf8, encode_utf8_valid_utf8,
    is_char_boundary, is_char_boundary_iff_not_is_continuation_byte,
    is_char_boundary_start_end_of_seq, is_continuation_byte, pop_first_scalar, valid_utf8,
    valid_utf8_split,
};
use vstd::string::StringSliceAdditionalSpecFns;

verus! {

/// Calls std's `String::push`, which vstd gives no contract. Claimed, as its
/// documentation says: the string afterwards holds the characters it held
/// before, followed by `c`.
#[verifier::external_body]
pub(crate) fn push_char(s: &mut String, c: char)
    ensures
        final(s)@ == old(s)@.push(c),
{
    s.push(c);
}

/// The character whose code point equals the byte (Latin-1 reading of a byte).
pub open spec fn byte_char(b: u8) -> char {
    b as char
}

pub(crate) fn byte_to_char(b: u8) -> (c: char)
    ensures
        c == byte_char(b),
{
    b as char
}

/// In valid UTF-8, an ASCII byte starts a character, and so does whatever
/// follows it.
pub proof fn lemma_ascii_boundary(b: Seq<u8>, i: int)
    requires
        valid_utf8(b),
        0 <= i < b.len(),
        b[i] < 128,
    ensures
        is_char_boundary(b, i),
        is_char_boundary(b, i + 1),
{
    is_char_boundary_iff_not_is_continuation_byte(b, i);
    valid_utf8_split(b, i);
    let s = b.subrange(i, b.len() as int);
    assert(s[0] == b[i]);
    let t = pop_first_scalar(s);
    assert(valid_utf8(t));
    assert(t =~= b.subrange(i + 1, b.len() as int));
    if i + 1 < b.len() {
        assert(t[0] == b[i + 1]);
        assert(!is_continuation_byte(b[i + 1]));
        is_char_boundary_iff_not_is_continuation_byte(b, i + 1);
    } else {
        is_char_boundary_start_end_of_seq(b);
    }
}

/// Character boundaries after a boundary `a` stay boundaries of the suffix
/// that starts at `a`.
pub proof fn lemma_boundary_in_suffix(b: Seq<u8>, a: int, j: int)
    requires
        valid_utf8(b),
        0 <= a <= j <= b.len(),
        is_char_boundary(b, a),
        is_char_boundary(b, j),
    ensures
        valid_utf8(b.subrange(a, b.len() as int)),
        is_char_boundary(b.subrange(a, b.len() as int), j - a),
{
    valid_utf8_split(b, a);
    let s = b.subrange(a, b.len() as int);
    if j < b.len() {
        is_char_boundary_iff_not_is_continuation_byte(b, j);
        assert(s[j - a] == b[j]);
        is_char_boundary_iff_not_is_continuation_byte(s, j - a);
    } else {
        is_char_boundary_start_end_of_seq(s);
    }
}

/// The characters of `src` whose UTF-8 encoding is the bytes `a..j`.
pub(crate) fn slice_string(src: &str, a: usize, j: usize) -> (r: String)
    requires
        a <= j <= src.spec_bytes().len(),
        is_char_boundary(src.spec_bytes(), a as int),
        is_char_boundary(src.spec_bytes(), j as int),
    ensures
        r@ == decode_utf8(src.spec_bytes().subrange(a as int, j as int)),
{
    let ghost b = src.spec_bytes();
    proof {
        encode_utf8_valid_utf8(src@);
        lemma_boundary_in_suffix(b, a as int, j as int);
    }
    let (_, rest) = src.split_at(a);
    let (mid, _) = rest.split_at(j - a);
    proof {
        assert(mid.spec_bytes() =~= b.subrange(a as int, j as int));
        encode_utf8_decode_utf8(mid@);
    }
    mid.to_owned()
}

/// Each character takes at least one byte.
pub proof fn lemma_encode_len(s: Seq<char>)
    ensures
        encode_utf8(s).len() >= s.len(),
    decreases s.len(),
{
    if s.len() > 0 {
        lemma_encode_len(s.drop_first());
    }
}

/// The characters of `s`, one by one.
pub(crate) fn chars_of(s: &str) -> (v: Vec<char>)
    ensures
        v@ == s@,
{
    let n = s.unicode_len();
    let mut v: Vec<char> = Vec::new();
    let mut i: usize = 0;
    while i < n
        invariant
            n == s@.len(),
            0 <= i <= n,
            v@ == s@.take(i as int),
        decreases n - i,
    {
        v.push(s.get_char(i));
        proof {
            assert(s@.take(i + 1) =~= s@.take(i as int).push(s@[i as int]));
        }
        i = i + 1;
    }
    proof {
        assert(s@.take(n as int) =~= s@);
    }
    v
}

pub(crate) fn clone_string(s: &String) -> (r: String)
    ensures
        r@ == s@,
{
    s.clone()
}

/// Whether two strings hold the same characters (compared byte by byte).
pub(crate) fn str_eq(a: &str, b: &str) -> (r: bool)
    ensures
        r == (a@ == b@),
{
    let x = a.as_bytes();
    let y = b.as_bytes();
    proof {
        encode_utf8_decode_utf8(a@);
        encode_utf8_decode_utf8(b@);
    }
    if x.len() != y.len() {
        return false;
    }
    let mut i: usize = 0;
    while i < x.len()
        invariant
            x@.len() == y@.len(),
            x@ == a.spec_bytes(),
            y@ == b.spec_bytes(),
            0 <= i <= x@.len(),
            forall|k: int| 0 <= k < i ==> x@[k] == y@[k],
        decreases x@.len() - i,
    {
        if x[i] != y[i] {
            return false;
        }
        i = i + 1;
    }
    proof {
        assert(x@ =~= y@);
    }
    true
}

/// `prefix`, `name` and `suffix` joined.
pub(crate) fn message(prefix: &str, name: &str, suffix: &str) -> (m: String)
    ensures
        m@ == prefix@ + name@ + suffix@,
{
    let mut m = String::from_str(prefix);
    m.append(name);
    m.append(suffix);
    m
}

// ---------------------------------------------------------------------------
// Decimal numbers.

pub open spec fn digit_char(d: nat) -> char {
    byte_char((48 + d) as u8)
}

/// The decimal digits of `n`.
pub open spec fn nat_str(n: nat) -> Seq<char>
    decreases n,
{
    if n < 10 {
        seq![digit_char(n)]
    } else {
        nat_str(n / 10).push(digit_char(n % 10))
    }
}

/// The decimal representation of `n`, with `-` when it is negative.
pub open spec fn int_str(n: int) -> Seq<char> {
    if n < 0 {
        seq!['-'] + nat_str((-n) as nat)
    } else {
        nat_str(n as nat)
    }
}

pub(crate) fn push_nat(out: &mut String, m: u64)
    ensures
        final(out)@ == old(out)@ + nat_str(m as nat),
    decreases m,
{
    if m >= 10 {
        push_nat(out, m / 10);
    }
    let d = (m % 10) as u8;
    push_char(out, (48 + d) as char);
    proof {
        if m >= 10 {
            assert(final(out)@ =~= old(out)@ + nat_str(m as nat));
        } else {
            assert(final(out)@ =~= old(out)@ + nat_str(m as nat));
        }
    }
}

pub(crate) fn push_int(out: &mut String, n: i32)
    ensures
        final(out)@ == old(out)@ + int_str(n as int),
{
    if n < 0 {
        push_char(out, '-');
        let m = (0 - (n as i64)) as u64;
        push_nat(out, m);
        proof {
            assert(final(out)@ =~= old(out)@ + int_str(n as int));
        }
    } else {
        push_nat(out, n as u64);
    }
}

} // verus!
