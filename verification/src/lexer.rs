//! The lexer: turns the UTF-8 bytes of a `.pix` source into tokens, line by
//! line, with byte columns.

use vstd::prelude::*;
use vstd::utf8::*;
use crate::diagnostics::{diag, Diagnostic, DiagnosticModel, Span};
use crate::text::{byte_char, byte_to_char, lemma_ascii_boundary, push_char, slice_string};
use vstd::string::StringSliceAdditionalSpecFns;

verus! {

broadcast use vstd::seq::group_seq_axioms;

#[derive(Debug, Clone, PartialEq)]
pub enum TokenKind {
    Ident(String),
    Number(i32),
    String(String),
    Color(String),
    LBrace,
    RBrace,
    Eof,
}

#[derive(Debug, Clone)]
pub struct Token {
    pub kind: TokenKind,
    pub span: Span,
}

/// A token kind with its text as characters.
pub enum TokenKindModel {
    Ident(Seq<char>),
    Number(i32),
    Str(Seq<char>),
    Color(Seq<char>),
    LBrace,
    RBrace,
    Eof,
}

pub struct TokenModel {
    pub kind: TokenKindModel,
    pub span: Span,
}

impl View for TokenKind {
    type V = TokenKindModel;

    open spec fn view(&self) -> TokenKindModel {
        match self {
            TokenKind::Ident(s) => TokenKindModel::Ident(s@),
            TokenKind::Number(n) => TokenKindModel::Number(*n),
            TokenKind::String(s) => TokenKindModel::Str(s@),
            TokenKind::Color(s) => TokenKindModel::Color(s@),
            TokenKind::LBrace => TokenKindModel::LBrace,
            TokenKind::RBrace => TokenKindModel::RBrace,
            TokenKind::Eof => TokenKindModel::Eof,
        }
    }
}

impl View for Token {
    type V = TokenModel;

    open spec fn view(&self) -> TokenModel {
        TokenModel { kind: self.kind@, span: self.span }
    }
}

pub open spec fn tokens_view(v: Seq<Token>) -> Seq<TokenModel> {
    v.map_values(|t: Token| t@)
}

// ---------------------------------------------------------------------------
// Byte classes (a byte read as the character with the same code point).

/// `char::is_whitespace` on the characters U+0000..U+00FF.
pub open spec fn is_whitespace_byte(c: u8) -> bool {
    (9 <= c <= 13) || c == 32 || c == 0x85 || c == 0xa0
}

pub open spec fn is_digit_byte(c: u8) -> bool {
    48 <= c <= 57
}

pub open spec fn is_hex_byte(c: u8) -> bool {
    is_digit_byte(c) || (65 <= c <= 70) || (97 <= c <= 102)
}

pub open spec fn is_ident_start_byte(c: u8) -> bool {
    (65 <= c <= 90) || (97 <= c <= 122) || c == 95
}

pub open spec fn is_ident_continue_byte(c: u8) -> bool {
    is_ident_start_byte(c) || is_digit_byte(c) || c == 45
}

// ---------------------------------------------------------------------------
// Lines: `str::lines` on bytes. A line ends at `\n`; one `\r` right before
// that `\n` is dropped; a final line without `\n` is kept as it is.

/// The first index at or after `p` that holds `\n`, or the length.
pub open spec fn next_newline(b: Seq<u8>, p: int) -> int
    decreases b.len() - p,
{
    if p >= b.len() {
        b.len() as int
    } else if b[p] == 10 {
        p
    } else {
        next_newline(b, p + 1)
    }
}

pub proof fn lemma_next_newline(b: Seq<u8>, p: int)
    requires
        0 <= p <= b.len(),
    ensures
        p <= next_newline(b, p) <= b.len(),
        next_newline(b, p) < b.len() ==> b[next_newline(b, p)] == 10,
        forall|k: int| p <= k < next_newline(b, p) ==> b[k] != 10,
    decreases b.len() - p,
{
    if p < b.len() && b[p] != 10 {
        lemma_next_newline(b, p + 1);
    }
}

/// The end of the line that starts at `p` and whose `\n` (or the end of the
/// input) is at `k`.
pub open spec fn line_end(b: Seq<u8>, p: int, k: int) -> int {
    if k < b.len() && k > p && b[k - 1] == 13 {
        k - 1
    } else {
        k
    }
}

/// The byte ranges `[start, end)` of the lines that begin at `p`.
pub open spec fn lines_from(b: Seq<u8>, p: int) -> Seq<(int, int)>
    decreases b.len() - p
    via lines_from_decreases
{
    if p < 0 || p >= b.len() {
        seq![]
    } else {
        let k = next_newline(b, p);
        if k >= b.len() {
            seq![(p, k)]
        } else {
            seq![(p, line_end(b, p, k))] + lines_from(b, k + 1)
        }
    }
}

#[via_fn]
proof fn lines_from_decreases(b: Seq<u8>, p: int) {
    if 0 <= p < b.len() {
        lemma_next_newline(b, p);
    }
}

pub open spec fn lines(b: Seq<u8>) -> Seq<(int, int)> {
    lines_from(b, 0)
}

// ---------------------------------------------------------------------------
// Scanning inside a line that ends at `le`.

pub open spec fn scan_digits(b: Seq<u8>, i: int, le: int) -> int
    decreases le - i,
{
    if i < le && is_digit_byte(b[i]) {
        scan_digits(b, i + 1, le)
    } else {
        i
    }
}

pub open spec fn scan_hex(b: Seq<u8>, i: int, le: int) -> int
    decreases le - i,
{
    if i < le && is_hex_byte(b[i]) {
        scan_hex(b, i + 1, le)
    } else {
        i
    }
}

pub open spec fn scan_ident(b: Seq<u8>, i: int, le: int) -> int
    decreases le - i,
{
    if i < le && is_ident_continue_byte(b[i]) {
        scan_ident(b, i + 1, le)
    } else {
        i
    }
}

/// The index of the next `"` at or after `i`, or `le` when there is none.
pub open spec fn scan_quote(b: Seq<u8>, i: int, le: int) -> int
    decreases le - i,
{
    if i < le && b[i] != 34 {
        scan_quote(b, i + 1, le)
    } else {
        i
    }
}

pub proof fn lemma_scans(b: Seq<u8>, i: int, le: int)
    ensures
        i <= scan_digits(b, i, le),
        i <= scan_hex(b, i, le),
        i <= scan_ident(b, i, le),
        i <= scan_quote(b, i, le),
        i <= le ==> scan_digits(b, i, le) <= le,
        i <= le ==> scan_hex(b, i, le) <= le,
        i <= le ==> scan_ident(b, i, le) <= le,
        i <= le ==> scan_quote(b, i, le) <= le,
    decreases le - i,
{
    if i < le {
        lemma_scans(b, i + 1, le);
    }
}

// ---------------------------------------------------------------------------
// Numbers: `i32::from_str` on text of the form `-?[0-9]*`.

pub open spec fn digits_value(d: Seq<u8>) -> int
    decreases d.len(),
{
    if d.len() == 0 {
        0
    } else {
        digits_value(d.drop_last()) * 10 + (d.last() - 48)
    }
}

pub open spec fn number_value(s: Seq<u8>) -> Option<i32> {
    let neg = s.len() > 0 && s[0] == 45;
    let d = if neg { s.subrange(1, s.len() as int) } else { s };
    if d.len() == 0 {
        None
    } else {
        let v = if neg { -digits_value(d) } else { digits_value(d) };
        if i32::MIN <= v <= i32::MAX {
            Some(v as i32)
        } else {
            None
        }
    }
}

// ---------------------------------------------------------------------------
// Tokens of one line.

/// The characters whose UTF-8 encoding is `b[a..j]`.
pub open spec fn text(b: Seq<u8>, a: int, j: int) -> Seq<char> {
    decode_utf8(b.subrange(a, j))
}

pub open spec fn prepend(
    t: TokenModel,
    r: Result<Seq<TokenModel>, DiagnosticModel>,
) -> Result<Seq<TokenModel>, DiagnosticModel> {
    match r {
        Ok(ts) => Ok(seq![t] + ts),
        Err(e) => Err(e),
    }
}

pub open spec fn tok(kind: TokenKindModel, line: usize, col: int, len: int) -> TokenModel {
    TokenModel { kind, span: Span { line, column: col as usize, len: len as usize } }
}

/// The tokens of the line `b[ls..le]` from byte `i` on, or the first error.
pub open spec fn lex_line_from(b: Seq<u8>, ls: int, le: int, i: int, line: usize) -> Result<
    Seq<TokenModel>,
    DiagnosticModel,
>
    decreases le - i
    via lex_line_from_decreases
{
    if i >= le {
        Ok(seq![])
    } else {
        let c = b[i];
        let col = i - ls + 1;
        if is_whitespace_byte(c) {
            lex_line_from(b, ls, le, i + 1, line)
        } else if c == 47 && i + 1 < le && b[i + 1] == 47 {
            Ok(seq![])
        } else if c == 123 {
            prepend(tok(TokenKindModel::LBrace, line, col, 1), lex_line_from(b, ls, le, i + 1, line))
        } else if c == 125 {
            prepend(tok(TokenKindModel::RBrace, line, col, 1), lex_line_from(b, ls, le, i + 1, line))
        } else if c == 34 {
            let j = scan_quote(b, i + 1, le);
            if j >= le {
                Err(diag("E001"@, Span { line, column: col as usize, len: 1 }, "unterminated string"@))
            } else {
                prepend(
                    tok(TokenKindModel::Str(text(b, i + 1, j)), line, col, j - i + 1),
                    lex_line_from(b, ls, le, j + 1, line),
                )
            }
        } else if c == 35 {
            let j = scan_hex(b, i + 1, le);
            prepend(
                tok(TokenKindModel::Color(text(b, i, j)), line, col, j - i),
                lex_line_from(b, ls, le, j, line),
            )
        } else if c == 45 || is_digit_byte(c) {
            let k = if c == 45 { i + 1 } else { i };
            let j = scan_digits(b, k, le);
            match number_value(b.subrange(i, j)) {
                None => Err(diag("E002"@, Span { line, column: col as usize, len: (j - i) as usize },
                    "invalid number `"@ + text(b, i, j) + "`"@)),
                Some(n) => prepend(
                    tok(TokenKindModel::Number(n), line, col, j - i),
                    lex_line_from(b, ls, le, j, line),
                ),
            }
        } else if is_ident_start_byte(c) {
            let j = scan_ident(b, i + 1, le);
            prepend(
                tok(TokenKindModel::Ident(text(b, i, j)), line, col, j - i),
                lex_line_from(b, ls, le, j, line),
            )
        } else {
            Err(diag("E003"@, Span { line, column: col as usize, len: 1 },
                "unexpected character `"@ + seq![byte_char(c)] + "`"@))
        }
    }
}

proof fn lemma_scan_ident_stops(b: Seq<u8>, i: int, le: int, m: int)
    requires
        i <= m <= le,
        forall|k: int| i <= k < m ==> is_ident_continue_byte(#[trigger] b[k]),
        m == le || !is_ident_continue_byte(b[m]),
    ensures
        scan_ident(b, i, le) == m,
    decreases m - i,
{
    if i < m {
        lemma_scan_ident_stops(b, i + 1, le, m);
    }
}

/// Law: a name runs from a letter or `_` over every following letter, digit,
/// `_` and `-` of its line: it is read as one name token holding exactly those
/// bytes, and reading goes on right after them.
pub proof fn law_name_is_maximal(b: Seq<u8>, ls: int, le: int, i: int, m: int, line: usize)
    requires
        0 <= ls <= i < m <= le <= b.len(),
        (65 <= b[i] <= 90) || (97 <= b[i] <= 122) || b[i] == 95,
        forall|k: int|
            i < k < m ==> {
                let c = #[trigger] b[k];
                (65 <= c <= 90) || (97 <= c <= 122) || c == 95 || (48 <= c <= 57) || c == 45
            },
        m == le || !((65 <= b[m] <= 90) || (97 <= b[m] <= 122) || b[m] == 95 || (48 <= b[m] <= 57) || b[m] == 45),
    ensures
        lex_line_from(b, ls, le, i, line) == prepend(
            tok(TokenKindModel::Ident(text(b, i, m)), line, i - ls + 1, m - i),
            lex_line_from(b, ls, le, m, line),
        ),
{
    lemma_scan_ident_stops(b, i + 1, le, m);
}

proof fn lemma_scan_hex_stops(b: Seq<u8>, i: int, le: int, m: int)
    requires
        i <= m <= le,
        forall|k: int| i <= k < m ==> is_hex_byte(#[trigger] b[k]),
        m == le || !is_hex_byte(b[m]),
    ensures
        scan_hex(b, i, le) == m,
    decreases m - i,
{
    if i < m {
        lemma_scan_hex_stops(b, i + 1, le, m);
    }
}

/// Law: a color literal runs from `#` over every following hex digit
/// (`0-9`, `A-F`, `a-f`) of its line: it is read as one color token holding
/// the `#` and those digits, and reading goes on right after them.
pub proof fn law_color_literal_is_maximal(b: Seq<u8>, ls: int, le: int, i: int, m: int, line: usize)
    requires
        0 <= ls <= i < m <= le <= b.len(),
        b[i] == 35,
        forall|k: int|
            i < k < m ==> {
                let c = #[trigger] b[k];
                (48 <= c <= 57) || (65 <= c <= 70) || (97 <= c <= 102)
            },
        m == le || !((48 <= b[m] <= 57) || (65 <= b[m] <= 70) || (97 <= b[m] <= 102)),
    ensures
        lex_line_from(b, ls, le, i, line) == prepend(
            tok(TokenKindModel::Color(text(b, i, m)), line, i - ls + 1, m - i),
            lex_line_from(b, ls, le, m, line),
        ),
{
    lemma_scan_hex_stops(b, i + 1, le, m);
}

#[via_fn]
proof fn lex_line_from_decreases(b: Seq<u8>, ls: int, le: int, i: int, line: usize) {
    lemma_scans(b, i, le);
    lemma_scans(b, i + 1, le);
}

/// The tokens of the lines `ls[idx..]`, numbered from `idx + 1`.
pub open spec fn lex_lines(b: Seq<u8>, ls: Seq<(int, int)>, idx: int) -> Result<
    Seq<TokenModel>,
    DiagnosticModel,
>
    decreases ls.len() - idx,
{
    if idx < 0 || idx >= ls.len() {
        Ok(seq![])
    } else {
        match lex_line_from(b, ls[idx].0, ls[idx].1, ls[idx].0, (idx + 1) as usize) {
            Err(e) => Err(e),
            Ok(t) => match lex_lines(b, ls, idx + 1) {
                Err(e) => Err(e),
                Ok(r) => Ok(t + r),
            },
        }
    }
}

/// What `lex` gives for the UTF-8 bytes `b` of a source: the tokens of each
/// line in order followed by `Eof` on the line after the last, or the first
/// error.
pub open spec fn spec_lex(b: Seq<u8>) -> Result<Seq<TokenModel>, DiagnosticModel> {
    match lex_lines(b, lines(b), 0) {
        Err(e) => Err(e),
        Ok(t) => Ok(t.push(tok(TokenKindModel::Eof, (lines(b).len() + 1) as usize, 1, 0))),
    }
}


/// `prepend` for a whole prefix of tokens.
pub open spec fn glue(
    p: Seq<TokenModel>,
    r: Result<Seq<TokenModel>, DiagnosticModel>,
) -> Result<Seq<TokenModel>, DiagnosticModel> {
    match r {
        Ok(ts) => Ok(p + ts),
        Err(e) => Err(e),
    }
}

// ---------------------------------------------------------------------------
// Executable lexer.

fn is_whitespace(c: u8) -> (r: bool)
    ensures
        r == is_whitespace_byte(c),
{
    (9 <= c && c <= 13) || c == 32 || c == 0x85 || c == 0xa0
}

fn is_digit(c: u8) -> (r: bool)
    ensures
        r == is_digit_byte(c),
{
    48 <= c && c <= 57
}

fn is_hex(c: u8) -> (r: bool)
    ensures
        r == is_hex_byte(c),
{
    is_digit(c) || (65 <= c && c <= 70) || (97 <= c && c <= 102)
}

fn is_ident_start(c: u8) -> (r: bool)
    ensures
        r == is_ident_start_byte(c),
{
    (65 <= c && c <= 90) || (97 <= c && c <= 122) || c == 95
}

fn is_ident_continue(c: u8) -> (r: bool)
    ensures
        r == is_ident_continue_byte(c),
{
    is_ident_start(c) || is_digit(c) || c == 45
}

pub(crate) fn find_newline(b: &[u8], p: usize) -> (k: usize)
    requires
        p <= b@.len(),
    ensures
        k == next_newline(b@, p as int),
{
    let mut k = p;
    while k < b.len() && b[k] != 10
        invariant
            p <= k <= b@.len(),
            next_newline(b@, p as int) == next_newline(b@, k as int),
        decreases b@.len() - k,
    {
        k = k + 1;
    }
    k
}

fn scan_digits_exec(b: &[u8], i: usize, le: usize) -> (j: usize)
    requires
        i <= le <= b@.len(),
    ensures
        j == scan_digits(b@, i as int, le as int),
        i <= j <= le,
        forall|k: int| i <= k < j ==> is_digit_byte(#[trigger] b@[k]),
{
    let mut j = i;
    while j < le && is_digit(b[j])
        invariant
            i <= j <= le <= b@.len(),
            scan_digits(b@, i as int, le as int) == scan_digits(b@, j as int, le as int),
            forall|k: int| i <= k < j ==> is_digit_byte(#[trigger] b@[k]),
        decreases le - j,
    {
        j = j + 1;
    }
    j
}

fn scan_hex_exec(b: &[u8], i: usize, le: usize) -> (j: usize)
    requires
        i <= le <= b@.len(),
    ensures
        j == scan_hex(b@, i as int, le as int),
        i <= j <= le,
        forall|k: int| i <= k < j ==> is_hex_byte(#[trigger] b@[k]),
{
    let mut j = i;
    while j < le && is_hex(b[j])
        invariant
            i <= j <= le <= b@.len(),
            scan_hex(b@, i as int, le as int) == scan_hex(b@, j as int, le as int),
            forall|k: int| i <= k < j ==> is_hex_byte(#[trigger] b@[k]),
        decreases le - j,
    {
        j = j + 1;
    }
    j
}

fn scan_ident_exec(b: &[u8], i: usize, le: usize) -> (j: usize)
    requires
        i <= le <= b@.len(),
    ensures
        j == scan_ident(b@, i as int, le as int),
        i <= j <= le,
        forall|k: int| i <= k < j ==> is_ident_continue_byte(#[trigger] b@[k]),
{
    let mut j = i;
    while j < le && is_ident_continue(b[j])
        invariant
            i <= j <= le <= b@.len(),
            scan_ident(b@, i as int, le as int) == scan_ident(b@, j as int, le as int),
            forall|k: int| i <= k < j ==> is_ident_continue_byte(#[trigger] b@[k]),
        decreases le - j,
    {
        j = j + 1;
    }
    j
}

fn scan_quote_exec(b: &[u8], i: usize, le: usize) -> (j: usize)
    requires
        i <= le <= b@.len(),
    ensures
        j == scan_quote(b@, i as int, le as int),
        i <= j <= le,
        j < le ==> b@[j as int] == 34,
{
    let mut j = i;
    while j < le && b[j] != 34
        invariant
            i <= j <= le <= b@.len(),
            scan_quote(b@, i as int, le as int) == scan_quote(b@, j as int, le as int),
        decreases le - j,
    {
        j = j + 1;
    }
    j
}

/// `i32::from_str` on the bytes `b[i..j]`, which hold an optional `-` and
/// then digits.
fn parse_number(b: &[u8], i: usize, j: usize) -> (r: Option<i32>)
    requires
        i <= j <= b@.len(),
        forall|k: int| i <= k < j ==> (k == i && b@[k] == 45) || is_digit_byte(#[trigger] b@[k]),
    ensures
        r == number_value(b@.subrange(i as int, j as int)),
{
    let ghost s = b@.subrange(i as int, j as int);
    let neg = i < j && b[i] == 45;
    let start = if neg { i + 1 } else { i };
    proof {
        let d = if neg { s.subrange(1, s.len() as int) } else { s };
        assert(d =~= b@.subrange(start as int, j as int));
    }
    if start == j {
        return None;
    }
    let mut acc: u64 = 0;
    let mut over = false;
    let mut k = start;
    while k < j
        invariant
            i <= start <= k <= j <= b@.len(),
            start > i ==> b@[i as int] == 45,
            forall|m: int| start <= m < j ==> is_digit_byte(#[trigger] b@[m]),
            digits_value(b@.subrange(start as int, k as int)) >= 0,
            !over ==> acc == digits_value(b@.subrange(start as int, k as int)) && acc <= 2147483648,
            over ==> digits_value(b@.subrange(start as int, k as int)) > 2147483648,
        decreases j - k,
    {
        let ghost prev = b@.subrange(start as int, k as int);
        assert(b@.subrange(start as int, k + 1).drop_last() =~= prev);
        assert(is_digit_byte(b@[k as int]));
        let d = (b[k] - 48) as u64;
        if !over {
            let next = acc * 10 + d;
            if next > 2147483648 {
                over = true;
            } else {
                acc = next;
            }
        }
        k = k + 1;
    }
    if over {
        None
    } else if neg {
        Some((0 - (acc as i64)) as i32)
    } else if acc <= 2147483647 {
        Some(acc as i32)
    } else {
        None
    }
}

proof fn lemma_text_boundaries(b: Seq<u8>, a: int, j: int)
    requires
        valid_utf8(b),
        0 <= a < j <= b.len(),
        b[a] < 128,
        b[j - 1] < 128,
    ensures
        is_char_boundary(b, a),
        is_char_boundary(b, j),
{
    lemma_ascii_boundary(b, a);
    lemma_ascii_boundary(b, j - 1);
}

/// The token that starts at byte `i` of the line `b[ls..le]` (which is
/// neither whitespace nor the start of a comment) and the byte after it, or
/// the error found there.
fn lex_token(src: &str, b: &[u8], ls: usize, le: usize, i: usize, line: usize) -> (r: Result<
    (Token, usize),
    Diagnostic,
>)
    requires
        b@ == src.spec_bytes(),
        ls <= i < le <= b@.len(),
        !is_whitespace_byte(b@[i as int]),
        !(b@[i as int] == 47 && i + 1 < le && b@[i + 1] == 47),
    ensures
        match r {
            Ok((t, next)) => i < next <= le && lex_line_from(b@, ls as int, le as int, i as int, line)
                == prepend(t@, lex_line_from(b@, ls as int, le as int, next as int, line)),
            Err(d) => lex_line_from(b@, ls as int, le as int, i as int, line) == Err::<
                Seq<TokenModel>,
                DiagnosticModel,
            >(d@),
        },
{
    proof {
        encode_utf8_valid_utf8(src@);
    }
    let c = b[i];
    let col = i - ls + 1;
    if c == 123 {
        Ok((Token { kind: TokenKind::LBrace, span: Span::new(line, col, 1) }, i + 1))
    } else if c == 125 {
        Ok((Token { kind: TokenKind::RBrace, span: Span::new(line, col, 1) }, i + 1))
    } else if c == 34 {
        let j = scan_quote_exec(b, i + 1, le);
        if j >= le {
            return Err(Diagnostic::new("E001", Span::new(line, col, 1), "unterminated string"));
        }
        proof {
            lemma_ascii_boundary(b@, i as int);
            lemma_ascii_boundary(b@, j as int);
        }
        let t = Token {
            kind: TokenKind::String(slice_string(src, i + 1, j)),
            span: Span::new(line, col, j - i + 1),
        };
        Ok((t, j + 1))
    } else if c == 35 {
        let j = scan_hex_exec(b, i + 1, le);
        proof {
            lemma_text_boundaries(b@, i as int, j as int);
        }
        let t = Token { kind: TokenKind::Color(slice_string(src, i, j)), span: Span::new(line, col, j - i) };
        Ok((t, j))
    } else if c == 45 || is_digit(c) {
        let k = if c == 45 { i + 1 } else { i };
        let j = scan_digits_exec(b, k, le);
        proof {
            if c != 45 {
                lemma_scans(b@, i as int + 1, le as int);
            }
            assert(j > i);
            lemma_text_boundaries(b@, i as int, j as int);
        }
        match parse_number(b, i, j) {
            None => {
                let mut m = String::from_str("invalid number `");
                let s = slice_string(src, i, j);
                m.append(s.as_str());
                m.append("`");
                Err(Diagnostic::new("E002", Span::new(line, col, j - i), m.as_str()))
            },
            Some(n) => Ok((Token { kind: TokenKind::Number(n), span: Span::new(line, col, j - i) }, j)),
        }
    } else if is_ident_start(c) {
        let j = scan_ident_exec(b, i + 1, le);
        proof {
            lemma_text_boundaries(b@, i as int, j as int);
        }
        let t = Token { kind: TokenKind::Ident(slice_string(src, i, j)), span: Span::new(line, col, j - i) };
        Ok((t, j))
    } else {
        let mut m = String::from_str("unexpected character `");
        push_char(&mut m, byte_to_char(c));
        m.append("`");
        proof {
            assert(m@ =~= "unexpected character `"@ + seq![byte_char(c)] + "`"@);
        }
        Err(Diagnostic::new("E003", Span::new(line, col, 1), m.as_str()))
    }
}

/// Appends the tokens of the line `b[ls..le]` to `out`, or gives its first
/// error.
fn lex_line(src: &str, b: &[u8], ls: usize, le: usize, line: usize, out: &mut Vec<Token>) -> (r:
    Result<(), Diagnostic>)
    requires
        b@ == src.spec_bytes(),
        ls <= le <= b@.len(),
    ensures
        match lex_line_from(b@, ls as int, le as int, ls as int, line) {
            Ok(ts) => r is Ok && tokens_view(final(out)@) == tokens_view(old(out)@) + ts,
            Err(e) => r matches Err(d) && d@ == e,
        },
{
    let ghost old_len = out@.len();
    let mut i = ls;
    while i < le
        invariant_except_break
            lex_line_from(b@, ls as int, le as int, ls as int, line) == glue(
                tokens_view(out@).subrange(old_len as int, out@.len() as int),
                lex_line_from(b@, ls as int, le as int, i as int, line),
            ),
        invariant
            b@ == src.spec_bytes(),
            ls <= i <= le <= b@.len(),
            old_len <= out@.len(),
            tokens_view(out@).subrange(0, old_len as int) == tokens_view(old(out)@),
        ensures
            lex_line_from(b@, ls as int, le as int, ls as int, line) == glue(
                tokens_view(out@).subrange(old_len as int, out@.len() as int),
                Ok(seq![]),
            ),
        decreases le - i,
    {
        let ghost prefix = tokens_view(out@).subrange(old_len as int, out@.len() as int);
        let c = b[i];
        if is_whitespace(c) {
            i = i + 1;
            continue;
        }
        if c == 47 && i + 1 < le && b[i + 1] == 47 {
            break;
        }
        let (t, next) = lex_token(src, b, ls, le, i, line)?;
        out.push(t);
        proof {
            assert(tokens_view(out@).subrange(old_len as int, out@.len() as int) =~= prefix.push(t@));
            assert(tokens_view(out@).subrange(0, old_len as int) =~= tokens_view(old(out)@));
            match lex_line_from(b@, ls as int, le as int, next as int, line) {
                Ok(ts) => {
                    assert(prefix + (seq![t@] + ts) =~= prefix.push(t@) + ts);
                },
                Err(e) => {},
            }
        }
        i = next;
    }
    proof {
        let prefix = tokens_view(out@).subrange(old_len as int, out@.len() as int);
        assert(tokens_view(out@) =~= tokens_view(old(out)@) + prefix);
        assert(prefix + seq![] =~= prefix);
    }
    Ok(())
}


pub(crate) proof fn lemma_lines_step(b: Seq<u8>, p: int)
    requires
        0 <= p < b.len(),
    ensures
        ({
            let k = next_newline(b, p);
            &&& p <= k <= b.len()
            &&& k < b.len() ==> lines_from(b, p) == seq![(p, line_end(b, p, k))] + lines_from(b, k + 1)
            &&& k == b.len() ==> lines_from(b, p) == seq![(p, k)] && lines_from(b, k) == Seq::<
                (int, int),
            >::empty()
        }),
{
    lemma_next_newline(b, p);
}

/// The tokens of `src`, line by line, ending with `Eof` on the line after the
/// last one; or the first error.
pub fn lex(src: &str) -> (r: Result<Vec<Token>, Diagnostic>)
    requires
        src.spec_bytes().len() < usize::MAX,
    ensures
        match spec_lex(src.spec_bytes()) {
            Ok(ts) => r matches Ok(v) && tokens_view(v@) == ts,
            Err(e) => r matches Err(d) && d@ == e,
        },
{
    let b = src.as_bytes();
    let n = b.len();
    let ghost ls = lines(b@);
    let mut out: Vec<Token> = Vec::new();
    let mut p: usize = 0;
    let mut idx: usize = 0;
    while p < n
        invariant
            b@ == src.spec_bytes(),
            n == b@.len(),
            n < usize::MAX,
            ls == lines(b@),
            idx <= p <= n,
            idx <= ls.len(),
            lines_from(b@, p as int) == ls.subrange(idx as int, ls.len() as int),
            lex_lines(b@, ls, 0) == glue(tokens_view(out@), lex_lines(b@, ls, idx as int)),
        decreases n - p,
    {
        let k = find_newline(b, p);
        let e = if k < n && k > p && b[k - 1] == 13 { k - 1 } else { k };
        proof {
            lemma_lines_step(b@, p as int);
            let lf = lines_from(b@, p as int);
            assert(lf.len() > 0);
            assert(idx < ls.len());
            assert(lf[0] == ls.subrange(idx as int, ls.len() as int)[0]);
            let np: int = if k < n { k + 1 } else { n as int };
            assert(lines_from(b@, np) =~= lf.drop_first());
            assert(lf.drop_first() =~= ls.subrange(idx + 1, ls.len() as int));
            assert(ls[idx as int] == (p as int, e as int));
        }
        let ghost before = tokens_view(out@);
        lex_line(src, b, p, e, idx + 1, &mut out)?;
        proof {
            match lex_line_from(b@, p as int, e as int, p as int, (idx + 1) as usize) {
                Ok(t) => {
                    assert(tokens_view(out@) == before + t);
                    match lex_lines(b@, ls, idx + 1) {
                        Ok(r) => {
                            assert(before + (t + r) =~= (before + t) + r);
                        },
                        Err(_) => {},
                    }
                },
                Err(_) => {},
            }
        }
        idx = idx + 1;
        p = if k < n { k + 1 } else { n };
    }
    proof {
        assert(lines_from(b@, p as int) =~= Seq::<(int, int)>::empty());
        assert(idx == ls.len());
        assert(tokens_view(out@) + seq![] =~= tokens_view(out@));
    }
    let ghost before = tokens_view(out@);
    out.push(Token { kind: TokenKind::Eof, span: Span::new(idx + 1, 1, 0) });
    proof {
        assert(tokens_view(out@) =~= before.push(tok(TokenKindModel::Eof, (ls.len() + 1) as usize, 1, 0)));
    }
    Ok(out)
}

} // verus!