//! Colors: RGBA values, color literals, palettes, and resolving the color
//! named by a color expression.

use vstd::prelude::*;
use vstd::utf8::{encode_utf8, is_continuation_byte};
use vstd::string::StringSliceAdditionalSpecFns;
use crate::ast::ColorExpr;
use crate::diagnostics::{diag, Diagnostic, DiagnosticModel, Span};
use crate::text::{chars_of, clone_string, lemma_encode_len, str_eq};

verus! {

broadcast use vstd::seq::group_seq_axioms;

#[derive(Debug, Clone, Copy, PartialEq, Eq, Structural)]
pub struct Rgba {
    pub r: u8,
    pub g: u8,
    pub b: u8,
    pub a: u8,
}

pub open spec fn transparent() -> Rgba {
    Rgba { r: 0, g: 0, b: 0, a: 0 }
}

impl Rgba {
    /// Fully transparent black.
    pub fn transparent() -> (c: Rgba)
        ensures
            c == transparent(),
    {
        Rgba { r: 0, g: 0, b: 0, a: 0 }
    }
}

// ---------------------------------------------------------------------------
// Color literals: `transparent`, `#RRGGBB`, `#RRGGBBAA`.

pub open spec fn is_hex_digit(c: u8) -> bool {
    (48 <= c <= 57) || (65 <= c <= 70) || (97 <= c <= 102)
}

pub open spec fn hex_value(c: u8) -> int {
    if 48 <= c <= 57 {
        c - 48
    } else if 65 <= c <= 70 {
        c - 55
    } else {
        c - 87
    }
}

/// The value of the two hex digits `h[k..k + 2]`, if both are hex digits.
pub open spec fn hex_pair(h: Seq<u8>, k: int) -> Option<u8> {
    if is_hex_digit(h[k]) && is_hex_digit(h[k + 1]) {
        Some((16 * hex_value(h[k]) + hex_value(h[k + 1])) as u8)
    } else {
        None
    }
}

/// Whether `h[k..k + 2]` reads as a number in base 16, as the reading of
/// each pair does: two hex digits, or `+` and one hex digit. The next pair is
/// only sliced after this one read.
pub open spec fn pair_reads(h: Seq<u8>, k: int) -> bool {
    hex_pair(h, k) is Some || (h[k] == 43 && is_hex_digit(h[k + 1]))
}

/// The digits of a `#` literal: the bytes after `#`, when there is a `#`.
pub open spec fn literal_digits(raw: Seq<char>) -> Option<Seq<u8>> {
    let b = encode_utf8(raw);
    if b.len() > 0 && b[0] == 35 {
        Some(b.subrange(1, b.len() as int))
    } else {
        None
    }
}

/// The color a literal denotes, if it is one.
pub open spec fn color_literal(raw: Seq<char>) -> Option<Rgba> {
    if raw == "transparent"@ {
        Some(transparent())
    } else {
        match literal_digits(raw) {
            None => None,
            Some(h) => if h.len() != 6 && h.len() != 8 {
                None
            } else {
                match (hex_pair(h, 0), hex_pair(h, 2), hex_pair(h, 4)) {
                    (Some(r), Some(g), Some(b)) => if h.len() == 8 {
                        match hex_pair(h, 6) {
                            Some(a) => Some(Rgba { r, g, b, a }),
                            None => None,
                        }
                    } else {
                        Some(Rgba { r, g, b, a: 255 })
                    },
                    _ => None,
                }
            },
        }
    }
}

/// The literals on which reading a color does not stop: each pair of digits
/// that is read ends on a character boundary.
pub open spec fn color_in_domain(raw: Seq<char>) -> bool {
    raw == "transparent"@ || match literal_digits(raw) {
        None => true,
        Some(h) => (h.len() != 6 && h.len() != 8) || {
            &&& !is_continuation_byte(h[2])
            &&& pair_reads(h, 0) ==> {
                &&& !is_continuation_byte(h[4])
                &&& pair_reads(h, 2) ==> (h.len() == 8 && pair_reads(h, 4) ==> !is_continuation_byte(h[6]))
            }
        },
    }
}

fn is_hex_digit_exec(c: u8) -> (r: bool)
    ensures
        r == is_hex_digit(c),
{
    (48 <= c && c <= 57) || (65 <= c && c <= 70) || (97 <= c && c <= 102)
}

fn hex_value_exec(c: u8) -> (r: u8)
    requires
        is_hex_digit(c),
    ensures
        r == hex_value(c),
        r < 16,
{
    if 48 <= c && c <= 57 {
        c - 48
    } else if 65 <= c && c <= 70 {
        c - 55
    } else {
        c - 87
    }
}

fn hex_pair_exec(h: &[u8], k: usize) -> (r: Option<u8>)
    requires
        k + 1 < h@.len(),
    ensures
        r == hex_pair(h@, k as int),
{
    if is_hex_digit_exec(h[k]) && is_hex_digit_exec(h[k + 1]) {
        Some(16 * hex_value_exec(h[k]) + hex_value_exec(h[k + 1]))
    } else {
        None
    }
}

fn pair_reads_exec(h: &[u8], k: usize) -> (r: bool)
    requires
        k + 1 < h@.len(),
    ensures
        r == pair_reads(h@, k as int),
{
    hex_pair_exec(h, k).is_some() || (h[k] == 43 && is_hex_digit_exec(h[k + 1]))
}

/// Reads a color literal: `transparent`, `#RRGGBB` or `#RRGGBBAA`.
pub fn parse_color_literal(raw: &str) -> (c: Option<Rgba>)
    requires
        color_in_domain(raw@),
    ensures
        c == color_literal(raw@),
{
    if str_eq(raw, "transparent") {
        return Some(Rgba::transparent());
    }
    let b = raw.as_bytes();
    if b.len() == 0 || b[0] != 35 {
        return None;
    }
    let n = b.len() - 1;
    if n != 6 && n != 8 {
        return None;
    }
    let ghost h = b@.subrange(1, b@.len() as int);
    let (_, digits) = b.split_at(1);
    proof {
        assert(digits@ =~= h);
    }
    let r = match hex_pair_exec(digits, 0) {
        Some(v) => v,
        None => return None,
    };
    let g = match hex_pair_exec(digits, 2) {
        Some(v) => v,
        None => return None,
    };
    let bl = match hex_pair_exec(digits, 4) {
        Some(v) => v,
        None => return None,
    };
    let a = if n == 8 {
        match hex_pair_exec(digits, 6) {
            Some(v) => v,
            None => return None,
        }
    } else {
        255
    };
    Some(Rgba { r, g, b: bl, a })
}


fn is_continuation_exec(c: u8) -> (r: bool)
    ensures
        r == is_continuation_byte(c),
{
    0x80 <= c && c <= 0xbf
}

/// Whether reading `raw` as a color literal goes through without stopping.
pub(crate) fn in_color_domain(raw: &str) -> (r: bool)
    ensures
        r == color_in_domain(raw@),
{
    if str_eq(raw, "transparent") {
        return true;
    }
    let b = raw.as_bytes();
    if b.len() == 0 || b[0] != 35 {
        return true;
    }
    let n = b.len() - 1;
    if n != 6 && n != 8 {
        return true;
    }
    let ghost h = b@.subrange(1, b@.len() as int);
    let (_, digits) = b.split_at(1);
    proof {
        assert(digits@ =~= h);
    }
    if is_continuation_exec(digits[2]) {
        return false;
    }
    if !pair_reads_exec(digits, 0) {
        return true;
    }
    if is_continuation_exec(digits[4]) {
        return false;
    }
    if !pair_reads_exec(digits, 2) {
        return true;
    }
    if n == 8 && pair_reads_exec(digits, 4) {
        return !is_continuation_exec(digits[6]);
    }
    true
}

// ---------------------------------------------------------------------------
// Palettes: named colors, in the order their names were first given.

/// A palette: each name at most once, in the order in which names were first
/// inserted.
#[derive(Debug)]
pub struct Palette {
    entries: Vec<(String, Rgba)>,
}

pub open spec fn entry_view(e: (String, Rgba)) -> (Seq<char>, Rgba) {
    (e.0@, e.1)
}

impl View for Palette {
    type V = Seq<(Seq<char>, Rgba)>;

    closed spec fn view(&self) -> Seq<(Seq<char>, Rgba)> {
        self.entries@.map_values(|e: (String, Rgba)| entry_view(e))
    }
}

/// The position of `name` in the palette at or after `i`, if it is there.
pub open spec fn palette_index_from(p: Seq<(Seq<char>, Rgba)>, name: Seq<char>, i: int) -> Option<int>
    decreases p.len() - i,
{
    if i < 0 || i >= p.len() {
        None
    } else if p[i].0 == name {
        Some(i)
    } else {
        palette_index_from(p, name, i + 1)
    }
}

/// The position of `name` in the palette, if it is there.
pub open spec fn palette_index(p: Seq<(Seq<char>, Rgba)>, name: Seq<char>) -> Option<int> {
    palette_index_from(p, name, 0)
}

pub open spec fn palette_get(p: Seq<(Seq<char>, Rgba)>, name: Seq<char>) -> Option<Rgba> {
    match palette_index(p, name) {
        Some(i) => Some(p[i].1),
        None => None,
    }
}

pub open spec fn palette_has_value(p: Seq<(Seq<char>, Rgba)>, c: Rgba) -> bool {
    exists|i: int| 0 <= i < p.len() && #[trigger] p[i].1 == c
}

/// Giving `name` the color `c`: a new name goes last; a known name keeps its
/// place and takes the new color.
pub open spec fn palette_insert(p: Seq<(Seq<char>, Rgba)>, name: Seq<char>, c: Rgba) -> Seq<
    (Seq<char>, Rgba),
> {
    match palette_index(p, name) {
        Some(i) => p.update(i, (name, c)),
        None => p.push((name, c)),
    }
}

pub proof fn lemma_palette_index_from(p: Seq<(Seq<char>, Rgba)>, name: Seq<char>, i: int)
    requires
        0 <= i,
    ensures
        match palette_index_from(p, name, i) {
            Some(k) => i <= k < p.len() && p[k].0 == name && forall|j: int|
                i <= j < k ==> p[j].0 != name,
            None => forall|j: int| i <= j < p.len() ==> p[j].0 != name,
        },
    decreases p.len() - i,
{
    if i < p.len() && p[i].0 != name {
        lemma_palette_index_from(p, name, i + 1);
    }
}

pub proof fn lemma_palette_index(p: Seq<(Seq<char>, Rgba)>, name: Seq<char>)
    ensures
        match palette_index(p, name) {
            Some(k) => 0 <= k < p.len() && p[k].0 == name && forall|j: int|
                0 <= j < k ==> p[j].0 != name,
            None => forall|j: int| 0 <= j < p.len() ==> p[j].0 != name,
        },
{
    lemma_palette_index_from(p, name, 0);
}

/// No name occurs twice.
pub open spec fn palette_names_unique(p: Seq<(Seq<char>, Rgba)>) -> bool {
    forall|i: int, j: int| 0 <= i < j < p.len() ==> (#[trigger] p[i]).0 != (#[trigger] p[j]).0
}

/// A palette reads back what was last given to a name, and giving one name
/// a color leaves what every other name reads.
pub proof fn law_palette_get_after_insert(p: Seq<(Seq<char>, Rgba)>, name: Seq<char>, other: Seq<char>, c: Rgba)
    ensures
        palette_get(palette_insert(p, name, c), name) == Some(c),
        other != name ==> palette_get(palette_insert(p, name, c), other) == palette_get(p, other),
{
    let q = palette_insert(p, name, c);
    lemma_palette_index(p, name);
    lemma_palette_index(q, name);
    lemma_palette_index(p, other);
    lemma_palette_index(q, other);
    match palette_index(p, name) {
        Some(i) => {
            assert(q[i] == (name, c));
            assert(forall|j: int| 0 <= j < p.len() && j != i ==> q[j] == p[j]);
        },
        None => {
            assert(q[p.len() as int] == (name, c));
            assert(forall|j: int| 0 <= j < p.len() ==> q[j] == p[j]);
        },
    }
    if other != name {
        match palette_index(p, other) {
            Some(k) => {
                assert(q[k] == p[k]);
            },
            None => {},
        }
    }
}

/// Giving a name a color keeps every name once.
pub proof fn law_palette_insert_keeps_names_unique(p: Seq<(Seq<char>, Rgba)>, name: Seq<char>, c: Rgba)
    requires
        palette_names_unique(p),
    ensures
        palette_names_unique(palette_insert(p, name, c)),
{
    lemma_palette_index(p, name);
}

impl Palette {
    pub fn new() -> (p: Palette)
        ensures
            p@ == Seq::<(Seq<char>, Rgba)>::empty(),
    {
        let p = Palette { entries: Vec::new() };
        proof {
            assert(p@ =~= Seq::<(Seq<char>, Rgba)>::empty());
        }
        p
    }

    pub fn len(&self) -> (n: usize)
        ensures
            n == self@.len(),
    {
        self.entries.len()
    }

    fn index_of(&self, name: &str) -> (r: Option<usize>)
        ensures
            self@.len() == self.entries@.len(),
            match r {
                Some(i) => palette_index(self@, name@) == Some(i as int) && i < self@.len(),
                None => palette_index(self@, name@) is None,
            },
    {
        let mut i: usize = 0;
        while i < self.entries.len()
            invariant
                0 <= i <= self@.len(),
                self@.len() == self.entries@.len(),
                palette_index(self@, name@) == palette_index_from(self@, name@, i as int),
            decreases self@.len() - i,
        {
            if str_eq(self.entries[i].0.as_str(), name) {
                return Some(i);
            }
            i = i + 1;
        }
        None
    }

    /// The color named `name`, if the palette has it.
    pub fn get(&self, name: &str) -> (r: Option<Rgba>)
        ensures
            r == palette_get(self@, name@),
    {
        match self.index_of(name) {
            Some(i) => Some(self.entries[i].1),
            None => None,
        }
    }

    /// Gives `name` the color `c`.
    pub fn insert(&mut self, name: String, c: Rgba)
        ensures
            final(self)@ == palette_insert(old(self)@, name@, c),
    {
        match self.index_of(name.as_str()) {
            Some(i) => {
                self.entries.set(i, (name, c));
                proof {
                    assert(self@ =~= palette_insert(old(self)@, name@, c));
                }
            },
            None => {
                self.entries.push((name, c));
                proof {
                    assert(self@ =~= palette_insert(old(self)@, name@, c));
                }
            },
        }
    }

    /// Whether some name has the color `c`.
    pub fn contains_color(&self, c: Rgba) -> (r: bool)
        ensures
            r == palette_has_value(self@, c),
    {
        let mut i: usize = 0;
        while i < self.entries.len()
            invariant
                0 <= i <= self@.len(),
                self@.len() == self.entries@.len(),
                forall|j: int| 0 <= j < i ==> self@[j].1 != c,
            decreases self@.len() - i,
        {
            if self.entries[i].1 == c {
                proof {
                    assert(self@[i as int].1 == c);
                }
                return true;
            }
            i = i + 1;
        }
        false
    }
}


// ---------------------------------------------------------------------------
// Suggestions for unknown color names.

pub open spec fn min3(a: nat, b: nat, c: nat) -> nat {
    if a <= b && a <= c {
        a
    } else if b <= c {
        b
    } else {
        c
    }
}

/// The edit distance (insertions, deletions, substitutions) between `s`
/// and `t`.
pub open spec fn edit_distance(s: Seq<char>, t: Seq<char>) -> nat
    decreases s.len() + t.len(),
{
    if s.len() == 0 {
        t.len()
    } else if t.len() == 0 {
        s.len()
    } else if s.last() == t.last() {
        edit_distance(s.drop_last(), t.drop_last())
    } else {
        1 + min3(
            edit_distance(s.drop_last(), t),
            edit_distance(s, t.drop_last()),
            edit_distance(s.drop_last(), t.drop_last()),
        )
    }
}

/// The distance the suggestion search uses between `a` and `b`: the edit
/// distance when `b` is ASCII; otherwise the number of bytes of `b` (the
/// table is sized in bytes and read at the last byte position).
pub open spec fn name_distance(a: Seq<char>, b: Seq<char>) -> nat {
    if encode_utf8(b).len() == b.len() {
        edit_distance(a, b)
    } else {
        encode_utf8(b).len()
    }
}

pub proof fn lemma_edit_distance_bound(s: Seq<char>, t: Seq<char>)
    ensures
        edit_distance(s, t) <= if s.len() >= t.len() { s.len() } else { t.len() },
    decreases s.len() + t.len(),
{
    if s.len() > 0 && t.len() > 0 {
        lemma_edit_distance_bound(s.drop_last(), t.drop_last());
        lemma_edit_distance_bound(s.drop_last(), t);
        lemma_edit_distance_bound(s, t.drop_last());
    }
}

fn levenshtein(a: &str, b: &str) -> (d: usize)
    ensures
        d == name_distance(a@, b@),
{
    let av = chars_of(a);
    let bv = chars_of(b);
    let nb = b.as_bytes().len();
    let la = av.len();
    let lb = bv.len();
    proof {
        lemma_encode_len(b@);
    }
    let ghost sa = av@;
    let ghost sb = bv@;
    let mut costs: Vec<usize> = Vec::new();
    let mut j: usize = 0;
    while j < nb
        invariant
            0 <= j <= nb,
            av@ == sa,
            bv@ == sb,
            sb.len() <= nb,
            costs@.len() == j,
            forall|k: int| 0 <= k < j ==> costs@[k] == k,
        decreases nb - j,
    {
        costs.push(j);
        j = j + 1;
    }
    costs.push(nb);
    proof {
        assert forall|k: int| 0 <= k <= sb.len() implies costs@[k] == edit_distance(sa.take(0), sb.take(k)) by {
            assert(sa.take(0).len() == 0);
            assert(sb.take(k).len() == k);
        }
    }
    let mut i: usize = 0;
    while i < av.len()
        invariant
            av@ == sa,
            bv@ == sb,
            sb.len() <= nb,
            la == sa.len(),
            lb == sb.len(),
            0 <= i <= sa.len(),
            costs@.len() == nb + 1,
            forall|k: int| 0 <= k <= sb.len() ==> costs@[k] == edit_distance(sa.take(i as int), sb.take(k)),
            forall|k: int| sb.len() < k <= nb ==> costs@[k] == k,
        decreases sa.len() - i,
    {
        let mut last = i;
        costs.set(0, i + 1);
        proof {
            assert(sa.take(i + 1).len() == i + 1);
            assert(sb.take(0).len() == 0);
        }
        let mut jj: usize = 0;
        while jj < bv.len()
            invariant
                av@ == sa,
                bv@ == sb,
                sb.len() <= nb,
                la == sa.len(),
                lb == sb.len(),
                0 <= i < sa.len(),
                0 <= jj <= sb.len(),
                costs@.len() == nb + 1,
                last == edit_distance(sa.take(i as int), sb.take(jj as int)),
                forall|k: int| 0 <= k <= jj ==> costs@[k] == edit_distance(sa.take(i + 1), sb.take(k)),
                forall|k: int| jj < k <= sb.len() ==> costs@[k] == edit_distance(sa.take(i as int), sb.take(k)),
                forall|k: int| sb.len() < k <= nb ==> costs@[k] == k,
            decreases sb.len() - jj,
        {
            let old = costs[jj + 1];
            proof {
                let s = sa.take(i + 1);
                let t = sb.take(jj + 1);
                assert(s.drop_last() =~= sa.take(i as int));
                assert(t.drop_last() =~= sb.take(jj as int));
                assert(s.last() == sa[i as int]);
                assert(t.last() == sb[jj as int]);
                lemma_edit_distance_bound(sa.take(i as int), sb.take(jj as int));
                assert(sa.take(i as int).len() == i);
                assert(sb.take(jj as int).len() == jj);
                assert(last <= i || last <= jj);
            }
            let v = if av[i] == bv[jj] {
                last
            } else {
                let m1 = if last <= costs[jj] { last } else { costs[jj] };
                let m = if m1 <= old { m1 } else { old };
                1 + m
            };
            costs.set(jj + 1, v);
            last = old;
            jj = jj + 1;
        }
        i = i + 1;
    }
    proof {
        assert(sa.take(sa.len() as int) =~= sa);
        assert(sb.take(sb.len() as int) =~= sb);
    }
    costs[nb]
}

/// The position, among the first `n` entries, of the first entry whose name
/// is closest to `raw`.
pub open spec fn closest_index(raw: Seq<char>, p: Seq<(Seq<char>, Rgba)>, n: int) -> int
    decreases n,
{
    if n <= 1 {
        0
    } else {
        let b = closest_index(raw, p, n - 1);
        if name_distance(raw, p[n - 1].0) < name_distance(raw, p[b].0) {
            n - 1
        } else {
            b
        }
    }
}

/// The palette name offered for the unknown color `raw`: the first of the
/// closest names, when it is within distance 2.
pub open spec fn suggestion(raw: Seq<char>, p: Seq<(Seq<char>, Rgba)>) -> Option<Seq<char>> {
    if p.len() == 0 {
        None
    } else {
        let k = closest_index(raw, p, p.len() as int);
        if name_distance(raw, p[k].0) <= 2 {
            Some(p[k].0)
        } else {
            None
        }
    }
}

pub proof fn lemma_closest_index(raw: Seq<char>, p: Seq<(Seq<char>, Rgba)>, n: int)
    requires
        1 <= n <= p.len(),
    ensures
        0 <= closest_index(raw, p, n) < n,
        forall|j: int|
            0 <= j < n ==> name_distance(raw, p[closest_index(raw, p, n)].0) <= name_distance(
                raw,
                #[trigger] p[j].0,
            ),
    decreases n,
{
    if n > 1 {
        lemma_closest_index(raw, p, n - 1);
    }
}

/// The suggestion is a closest palette name, within distance 2; there is
/// none exactly when every name is further away.
pub proof fn lemma_suggestion_is_closest(raw: Seq<char>, p: Seq<(Seq<char>, Rgba)>)
    ensures
        match suggestion(raw, p) {
            Some(s) => name_distance(raw, s) <= 2 && (exists|i: int| 0 <= i < p.len() && p[i].0 == s)
                && forall|j: int| 0 <= j < p.len() ==> name_distance(raw, s) <= name_distance(raw, #[trigger] p[j].0),
            None => forall|j: int| 0 <= j < p.len() ==> name_distance(raw, #[trigger] p[j].0) > 2,
        },
{
    if p.len() > 0 {
        lemma_closest_index(raw, p, p.len() as int);
        let k = closest_index(raw, p, p.len() as int);
        assert(p[k].0 == p[k].0);
    }
}

fn suggest(name: &str, palette: &Palette) -> (r: Option<String>)
    ensures
        option_view(r) == suggestion(name@, palette@),
{
    let n = palette.entries.len();
    if n == 0 {
        return None;
    }
    let mut best: usize = 0;
    let mut best_d = levenshtein(name, palette.entries[0].0.as_str());
    let mut i: usize = 1;
    while i < n
        invariant
            n == palette@.len(),
            n == palette.entries@.len(),
            1 <= i <= n,
            best as int == closest_index(name@, palette@, i as int),
            best < i,
            best_d == name_distance(name@, palette@[best as int].0),
        decreases n - i,
    {
        let d = levenshtein(name, palette.entries[i].0.as_str());
        if d < best_d {
            best = i;
            best_d = d;
        }
        i = i + 1;
    }
    if best_d <= 2 {
        Some(clone_string(&palette.entries[best].0))
    } else {
        None
    }
}

pub open spec fn option_view(o: Option<String>) -> Option<Seq<char>> {
    match o {
        Some(s) => Some(s@),
        None => None,
    }
}

// ---------------------------------------------------------------------------
// Resolving a color expression.

/// What a color expression denotes with the palette `p`: a palette name, or
/// else a literal (in strict mode only `transparent` or a color the palette
/// has); otherwise the error `E013` or `E012` with a suggestion.
pub open spec fn resolve(raw: Seq<char>, span: Span, p: Seq<(Seq<char>, Rgba)>, strict: bool) -> Result<
    Rgba,
    DiagnosticModel,
> {
    match palette_get(p, raw) {
        Some(c) => Ok(c),
        None => match color_literal(raw) {
            Some(c) => if strict && raw != "transparent"@ && !palette_has_value(p, c) {
                Err(diag("E013"@, span, "color `"@ + raw + "` is outside strict palette"@))
            } else {
                Ok(c)
            },
            None => Err(
                DiagnosticModel {
                    suggestion: suggestion(raw, p),
                    ..diag("E012"@, span, "unknown color `"@ + raw + "`"@)
                },
            ),
        },
    }
}

/// The colors on which `resolve_color` finishes: a palette name or a color
/// in the domain of `parse_color_literal`.
pub open spec fn resolvable(raw: Seq<char>, p: Seq<(Seq<char>, Rgba)>) -> bool {
    palette_get(p, raw) is Some || color_in_domain(raw)
}

pub fn resolve_color(expr: &ColorExpr, palette: &Palette, strict: bool) -> (r: Result<Rgba, Diagnostic>)
    requires
        resolvable(expr.raw@, palette@),
    ensures
        match resolve(expr.raw@, expr.span, palette@, strict) {
            Ok(c) => r == Ok::<Rgba, Diagnostic>(c),
            Err(e) => r matches Err(d) && d@ == e,
        },
{
    let raw = expr.raw.as_str();
    if let Some(c) = palette.get(raw) {
        return Ok(c);
    }
    if let Some(c) = parse_color_literal(raw) {
        if strict && !str_eq(raw, "transparent") && !palette.contains_color(c) {
            let mut m = String::from_str("color `");
            m.append(raw);
            m.append("` is outside strict palette");
            return Err(Diagnostic::new("E013", expr.span, m.as_str()));
        }
        return Ok(c);
    }
    let mut m = String::from_str("unknown color `");
    m.append(raw);
    m.append("`");
    let d = Diagnostic::new("E012", expr.span, m.as_str());
    match suggest(raw, palette) {
        Some(s) => Err(d.with_suggestion(s.as_str())),
        None => Err(d),
    }
}

} // verus!
