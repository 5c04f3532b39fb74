//! Source positions and the diagnostics that the lexer, the parser, the
//! validator and the renderer report.

use vstd::prelude::*;
use vstd::string::StringSliceAdditionalSpecFns;
use vstd::utf8::{decode_utf8, encode_utf8, encode_utf8_valid_utf8, is_char_boundary, is_char_boundary_start_end_of_seq};
use crate::lexer::{find_newline, lemma_lines_step, line_end, lines, lines_from, next_newline};
use crate::text::{lemma_ascii_boundary, nat_str, push_char, push_nat, slice_string};

verus! {

/// A position in the source: 1-based line and column (columns count bytes)
/// and the length of the marked text in bytes.
#[derive(Debug, Clone, Copy)]
pub struct Span {
    pub line: usize,
    pub column: usize,
    pub len: usize,
}

impl Span {
    pub fn new(line: usize, column: usize, len: usize) -> (s: Span)
        ensures
            s == (Span { line, column, len }),
    {
        Span { line, column, len }
    }
}

/// A located error with a stable code such as `E012`.
#[derive(Debug, Clone)]
pub struct Diagnostic {
    pub code: String,
    pub line: usize,
    pub column: usize,
    pub message: String,
    pub suggestion: Option<String>,
}

/// What a diagnostic says, as mathematical values.
pub struct DiagnosticModel {
    pub code: Seq<char>,
    pub line: usize,
    pub column: usize,
    pub message: Seq<char>,
    pub suggestion: Option<Seq<char>>,
}

pub open spec fn option_string_view(o: Option<String>) -> Option<Seq<char>> {
    match o {
        Some(s) => Some(s@),
        None => None,
    }
}

impl View for Diagnostic {
    type V = DiagnosticModel;

    open spec fn view(&self) -> DiagnosticModel {
        DiagnosticModel {
            code: self.code@,
            line: self.line,
            column: self.column,
            message: self.message@,
            suggestion: option_string_view(self.suggestion),
        }
    }
}

/// The diagnostic with the given code, position and message, and no suggestion.
pub open spec fn diag(code: Seq<char>, span: Span, message: Seq<char>) -> DiagnosticModel {
    DiagnosticModel { code, line: span.line, column: span.column, message, suggestion: None }
}

/// The views of a sequence of diagnostics.
pub open spec fn diags_view(v: Seq<Diagnostic>) -> Seq<DiagnosticModel> {
    v.map_values(|d: Diagnostic| d@)
}

impl Diagnostic {
    pub fn new(code: &str, span: Span, message: &str) -> (d: Diagnostic)
        ensures
            d@ == diag(code@, span, message@),
    {
        Diagnostic {
            code: code.to_owned(),
            line: span.line,
            column: span.column,
            message: message.to_owned(),
            suggestion: None,
        }
    }

    pub fn with_suggestion(self, suggestion: &str) -> (d: Diagnostic)
        ensures
            d@ == (DiagnosticModel { suggestion: Some(suggestion@), ..self@ }),
    {
        let mut d = self;
        d.suggestion = Some(suggestion.to_owned());
        d
    }
}

// ---------------------------------------------------------------------------
// The human-readable report.

/// The text of line `n` (from 0) of the source bytes `b`, as `str::lines`
/// gives it; empty past the last line.
pub open spec fn source_line(b: Seq<u8>, n: int) -> Seq<char> {
    let ls = lines(b);
    if 0 <= n < ls.len() {
        decode_utf8(b.subrange(ls[n].0, ls[n].1))
    } else {
        seq![]
    }
}

/// The first index at or after `i` that holds the byte `c`, or the length.
pub open spec fn find_byte(b: Seq<u8>, c: u8, i: int) -> int
    decreases b.len() - i,
{
    if i >= b.len() {
        b.len() as int
    } else if b[i] == c {
        i
    } else {
        find_byte(b, c, i + 1)
    }
}

/// The length of the caret line: the byte length of the text between the
/// first two backticks of the message (or from the first to the end), at
/// least 1; 1 when there is no backtick.
pub open spec fn caret_len(m: Seq<u8>) -> nat {
    let i = find_byte(m, 96, 0);
    if i >= m.len() {
        1
    } else {
        let k = find_byte(m, 96, i + 1) - i - 1;
        if k < 1 {
            1
        } else {
            k as nat
        }
    }
}

pub open spec fn repeat_char(c: char, n: nat) -> Seq<char> {
    Seq::new(n, |i: int| c)
}

/// `n - 1`, or 0 for 0.
pub open spec fn minus_one(n: usize) -> nat {
    if n == 0 {
        0
    } else {
        (n - 1) as nat
    }
}

/// The report of a diagnostic in `filename`: the error line, the location,
/// the source line with carets under the column, and the suggestion.
pub open spec fn human_text(d: DiagnosticModel, filename: Seq<char>, source: Seq<char>) -> Seq<char> {
    let text = "error["@ + d.code + "]: "@ + d.message + "\n --> "@ + filename + ":"@ + nat_str(d.line as nat) + ":"@
        + nat_str(d.column as nat) + "\n  |\n"@ + nat_str(d.line as nat) + " | "@ + source_line(
        encode_utf8(source),
        minus_one(d.line) as int,
    ) + "\n  | "@ + repeat_char(' ', minus_one(d.column)) + repeat_char('^', caret_len(encode_utf8(d.message))) + "\n"@;
    match d.suggestion {
        Some(s) => text + "  |\n  = help: did you mean `"@ + s + "`?\n"@,
        None => text,
    }
}

fn find_byte_exec(b: &[u8], c: u8, i: usize) -> (k: usize)
    requires
        i <= b@.len(),
    ensures
        k == find_byte(b@, c, i as int),
{
    let mut k = i;
    while k < b.len() && b[k] != c
        invariant
            i <= k <= b@.len(),
            find_byte(b@, c, i as int) == find_byte(b@, c, k as int),
        decreases b@.len() - k,
    {
        k = k + 1;
    }
    k
}

proof fn lemma_find_byte(b: Seq<u8>, c: u8, i: int)
    requires
        0 <= i <= b.len(),
    ensures
        i <= find_byte(b, c, i) <= b.len(),
    decreases b.len() - i,
{
    if i < b.len() && b[i] != c {
        lemma_find_byte(b, c, i + 1);
    }
}

fn caret_len_exec(m: &[u8]) -> (n: usize)
    ensures
        n == caret_len(m@),
{
    let i = find_byte_exec(m, 96, 0);
    if i >= m.len() {
        1
    } else {
        proof {
            lemma_find_byte(m@, 96, i + 1);
        }
        let j = find_byte_exec(m, 96, i + 1);
        if j - i - 1 < 1 {
            1
        } else {
            j - i - 1
        }
    }
}

fn push_repeat(out: &mut String, c: char, n: usize)
    ensures
        final(out)@ == old(out)@ + repeat_char(c, n as nat),
{
    let mut k: usize = 0;
    while k < n
        invariant
            0 <= k <= n,
            out@ == old(out)@ + repeat_char(c, k as nat),
        decreases n - k,
    {
        push_char(out, c);
        proof {
            assert(out@ =~= old(out)@ + repeat_char(c, (k + 1) as nat));
        }
        k = k + 1;
    }
}

/// The lines of valid UTF-8 start and end on character boundaries.
proof fn lemma_line_boundaries(b: Seq<u8>, p: int, k: int)
    requires
        vstd::utf8::valid_utf8(b),
        0 <= p <= b.len(),
        p == 0 || b[p - 1] == 10,
        p <= k <= b.len(),
        k < b.len() ==> b[k] == 10,
    ensures
        is_char_boundary(b, p),
        is_char_boundary(b, line_end(b, p, k)),
{
    is_char_boundary_start_end_of_seq(b);
    if p > 0 {
        lemma_ascii_boundary(b, p - 1);
    }
    if k < b.len() {
        lemma_ascii_boundary(b, k);
        if k > p && b[k - 1] == 13 {
            lemma_ascii_boundary(b, k - 1);
        }
    }
}

/// The text of line `n` (from 0) of `src`.
fn line_text(src: &str, n: usize) -> (r: String)
    ensures
        r@ == source_line(src.spec_bytes(), n as int),
{
    let b = src.as_bytes();
    let len = b.len();
    let ghost ls = lines(b@);
    proof {
        encode_utf8_valid_utf8(src@);
    }
    let mut p: usize = 0;
    let mut idx: usize = 0;
    while p < len
        invariant
            b@ == src.spec_bytes(),
            vstd::utf8::valid_utf8(b@),
            len == b@.len(),
            ls == lines(b@),
            idx <= p <= len,
            idx <= ls.len(),
            idx <= n,
            p < len ==> (p == 0 || b@[p - 1] == 10),
            lines_from(b@, p as int) == ls.subrange(idx as int, ls.len() as int),
        decreases len - p,
    {
        let k = find_newline(b, p);
        let e = if k < len && k > p && b[k - 1] == 13 {
            k - 1
        } else {
            k
        };
        proof {
            lemma_lines_step(b@, p as int);
            crate::lexer::lemma_next_newline(b@, p as int);
            let lf = lines_from(b@, p as int);
            assert(lf.len() > 0);
            assert(idx < ls.len());
            assert(lf[0] == ls.subrange(idx as int, ls.len() as int)[0]);
            assert(ls[idx as int] == (p as int, e as int));
            let np: int = if k < len { k + 1 } else { len as int };
            assert(lines_from(b@, np) =~= lf.drop_first());
            assert(lf.drop_first() =~= ls.subrange(idx + 1, ls.len() as int));
        }
        if idx == n {
            proof {
                lemma_line_boundaries(b@, p as int, k as int);
            }
            return slice_string(src, p, e);
        }
        idx = idx + 1;
        p = if k < len {
            k + 1
        } else {
            len
        };
    }
    proof {
        assert(lines_from(b@, p as int) =~= Seq::<(int, int)>::empty());
        assert(idx == ls.len());
    }
    String::new()
}

impl Diagnostic {
    /// The diagnostic as a human reads it, with the source line it points at.
    pub fn render_human(&self, filename: &str, source: &str) -> (out: String)
        ensures
            out@ == human_text(self@, filename@, source@),
    {
        let src_line = line_text(source, if self.line == 0 { 0 } else { self.line - 1 });
        let caret = caret_len_exec(self.message.as_str().as_bytes());
        let mut out = String::from_str("error[");
        out.append(self.code.as_str());
        out.append("]: ");
        out.append(self.message.as_str());
        out.append("\n --> ");
        out.append(filename);
        out.append(":");
        push_nat(&mut out, self.line as u64);
        out.append(":");
        push_nat(&mut out, self.column as u64);
        out.append("\n  |\n");
        push_nat(&mut out, self.line as u64);
        out.append(" | ");
        out.append(src_line.as_str());
        out.append("\n  | ");
        push_repeat(&mut out, ' ', if self.column == 0 { 0 } else { self.column - 1 });
        push_repeat(&mut out, '^', caret);
        out.append("\n");
        match &self.suggestion {
            Some(s) => {
                out.append("  |\n  = help: did you mean `");
                out.append(s.as_str());
                out.append("`?\n");
            },
            None => {},
        }
        proof {
            reveal_strlit("error[");
            assert(out@ =~= human_text(self@, filename@, source@));
        }
        out
    }
}

/// The machine-readable report of a check: whether the document is valid and
/// its errors.
pub struct JsonDiagnostics<'a> {
    pub valid: bool,
    pub errors: &'a [Diagnostic],
}

} // verus!
