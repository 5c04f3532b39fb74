//! From source text to a validated document. Every document the parser
//! accepts can be validated: each color in it is a palette name or a literal
//! whose reading does not stop, since the lexer gives names and `#` literals
//! in ASCII only and the parser takes colors from those tokens alone.

use vstd::prelude::*;
use crate::words::{color_word, hex_word, ident_word, lemma_token_text, lemma_word_in_domain, byte_of};
use crate::ast::{ItemModel, PaletteEntryModel, SpannedModel, StmtModel};
use crate::color::{color_in_domain, Rgba};
use crate::parser::{
    at_block_end, left, p_bool, p_color, p_entries, p_frame_refs, p_group_body, p_ident, p_item, p_item_after_kw,
    p_item_block, p_items, p_lbrace, p_nums, p_number, p_rbrace, p_shape, p_stmt, p_stmt_after_kw, p_stmts,
    parse, parse_tokens, spec_parse, Parsed,
};
use crate::validate::{
    item_colors_ok, items_colors_ok, second_pass, setup, stmt_colors_ok, validatable, validate, validation_errors,
    ValidDocument,
};
use crate::diagnostics::{diags_view, Diagnostic};
use crate::fmt::{document_text, format_document, item_depth, items_depth, lemma_items_depth, nesting_fits, stmt_depth};
use vstd::string::StringSliceAdditionalSpecFns;
use crate::lexer::{
    is_hex_byte, is_ident_continue_byte, is_ident_start_byte, lex_line_from, lex_lines, line_end, lines,
    lines_from, next_newline, scan_hex, scan_ident, spec_lex, text, TokenKindModel, TokenModel,
};

verus! {

broadcast use vstd::seq::group_seq_axioms;

// ---------------------------------------------------------------------------
// The lexer.

/// Every name token is a name word, and every `#` token a literal word.
pub open spec fn readable_tokens(toks: Seq<TokenModel>) -> bool {
    forall|k: int|
        0 <= k < toks.len() ==> match (#[trigger] toks[k]).kind {
            TokenKindModel::Ident(s) => ident_word(s),
            TokenKindModel::Color(s) => hex_word(s),
            _ => true,
        }
}

proof fn lemma_readable_concat(a: Seq<TokenModel>, b: Seq<TokenModel>)
    requires
        readable_tokens(a),
        readable_tokens(b),
    ensures
        readable_tokens(a + b),
{
    assert forall|k: int| 0 <= k < (a + b).len() implies match (#[trigger] (a + b)[k]).kind {
        TokenKindModel::Ident(s) => ident_word(s),
        TokenKindModel::Color(s) => hex_word(s),
        _ => true,
    } by {
        if k < a.len() {
            assert((a + b)[k] == a[k]);
        } else {
            assert((a + b)[k] == b[k - a.len()]);
        }
    }
}

proof fn lemma_scan_hex_bytes(b: Seq<u8>, i: int, le: int)
    ensures
        forall|k: int| i <= k < scan_hex(b, i, le) ==> is_hex_byte(#[trigger] b[k]),
    decreases le - i,
{
    if i < le && is_hex_byte(b[i]) {
        lemma_scan_hex_bytes(b, i + 1, le);
    }
}

proof fn lemma_scan_ident_bytes(b: Seq<u8>, i: int, le: int)
    ensures
        forall|k: int| i <= k < scan_ident(b, i, le) ==> is_ident_continue_byte(#[trigger] b[k]),
    decreases le - i,
{
    if i < le && is_ident_continue_byte(b[i]) {
        lemma_scan_ident_bytes(b, i + 1, le);
    }
}

proof fn lemma_line_readable(b: Seq<u8>, ls: int, le: int, i: int, line: usize)
    requires
        le <= b.len(),
        0 <= i,
    ensures
        lex_line_from(b, ls, le, i, line) matches Ok(ts) ==> readable_tokens(ts),
    decreases le - i,
{
    if i < le {
        crate::lexer::lemma_scans(b, i, le);
        crate::lexer::lemma_scans(b, i + 1, le);
        let c = b[i];
        if crate::lexer::is_whitespace_byte(c) {
            lemma_line_readable(b, ls, le, i + 1, line);
        } else if c == 47 && i + 1 < le && b[i + 1] == 47 {
        } else if c == 123 || c == 125 {
            lemma_line_readable(b, ls, le, i + 1, line);
            if let Ok(ts) = lex_line_from(b, ls, le, i + 1, line) {
                let t = lex_line_from(b, ls, le, i, line)->Ok_0;
                lemma_readable_concat(seq![t[0]], ts);
                assert(t =~= seq![t[0]] + ts);
            }
        } else if c == 34 {
            let j = scan_quote_end(b, i, le);
            if j < le {
                lemma_line_readable(b, ls, le, j + 1, line);
                if let Ok(ts) = lex_line_from(b, ls, le, j + 1, line) {
                    let t = lex_line_from(b, ls, le, i, line)->Ok_0;
                    lemma_readable_concat(seq![t[0]], ts);
                    assert(t =~= seq![t[0]] + ts);
                }
            }
        } else if c == 35 {
            let j = scan_hex(b, i + 1, le);
            lemma_scan_hex_bytes(b, i + 1, le);
            assert forall|k: int| i <= k < j implies #[trigger] b[k] < 128 by {
                if k > i {
                    assert(is_hex_byte(b[k]));
                }
            }
            lemma_token_text(b, i, j);
            let w = text(b, i, j);
            assert(byte_of(w[0]) == b[i]);
            assert forall|k: int| 1 <= k < w.len() implies is_hex_byte(byte_of(#[trigger] w[k])) by {
                assert(byte_of(w[k]) == b[i + k]);
            }
            assert(hex_word(w));
            lemma_line_readable(b, ls, le, j, line);
            if let Ok(ts) = lex_line_from(b, ls, le, j, line) {
                let t = lex_line_from(b, ls, le, i, line)->Ok_0;
                lemma_readable_concat(seq![t[0]], ts);
                assert(t =~= seq![t[0]] + ts);
            }
        } else if c == 45 || crate::lexer::is_digit_byte(c) {
            let k = if c == 45 { i + 1 } else { i };
            crate::lexer::lemma_scans(b, k, le);
            let j = crate::lexer::scan_digits(b, k, le);
            if j > i {
                lemma_line_readable(b, ls, le, j, line);
            }
            if let Ok(ts) = lex_line_from(b, ls, le, j, line) {
                if let Ok(t) = lex_line_from(b, ls, le, i, line) {
                    lemma_readable_concat(seq![t[0]], ts);
                    assert(t =~= seq![t[0]] + ts);
                }
            }
        } else if is_ident_start_byte(c) {
            let j = scan_ident(b, i + 1, le);
            lemma_scan_ident_bytes(b, i + 1, le);
            assert forall|k: int| i <= k < j implies #[trigger] b[k] < 128 by {
                if k > i {
                    assert(is_ident_continue_byte(b[k]));
                }
            }
            lemma_token_text(b, i, j);
            let w = text(b, i, j);
            assert(byte_of(w[0]) == b[i]);
            assert forall|k: int| 1 <= k < w.len() implies is_ident_continue_byte(byte_of(#[trigger] w[k])) by {
                assert(byte_of(w[k]) == b[i + k]);
            }
            assert(ident_word(w));
            lemma_line_readable(b, ls, le, j, line);
            if let Ok(ts) = lex_line_from(b, ls, le, j, line) {
                let t = lex_line_from(b, ls, le, i, line)->Ok_0;
                lemma_readable_concat(seq![t[0]], ts);
                assert(t =~= seq![t[0]] + ts);
            }
        }
    }
}

spec fn scan_quote_end(b: Seq<u8>, i: int, le: int) -> int {
    crate::lexer::scan_quote(b, i + 1, le)
}

/// The lines of `b` lie inside it.
proof fn lemma_lines_inside(b: Seq<u8>, p: int)
    requires
        0 <= p,
    ensures
        forall|k: int|
            0 <= k < lines_from(b, p).len() ==> 0 <= (#[trigger] lines_from(b, p)[k]).0 <= lines_from(b, p)[k].1
                <= b.len(),
    decreases b.len() - p,
{
    if p < b.len() {
        crate::lexer::lemma_next_newline(b, p);
        let k = next_newline(b, p);
        if k < b.len() {
            lemma_lines_inside(b, k + 1);
            let rest = lines_from(b, k + 1);
            assert(lines_from(b, p) == seq![(p, line_end(b, p, k))] + rest);
            assert forall|m: int| 0 <= m < lines_from(b, p).len() implies 0 <= (#[trigger] lines_from(b, p)[m]).0
                <= lines_from(b, p)[m].1 <= b.len() by {
                if m > 0 {
                    assert(lines_from(b, p)[m] == rest[m - 1]);
                }
            }
        }
    }
}

proof fn lemma_lines_readable(b: Seq<u8>, ls: Seq<(int, int)>, idx: int)
    requires
        0 <= idx,
        forall|k: int| 0 <= k < ls.len() ==> 0 <= (#[trigger] ls[k]).0 <= ls[k].1 <= b.len(),
    ensures
        lex_lines(b, ls, idx) matches Ok(ts) ==> readable_tokens(ts),
    decreases ls.len() - idx,
{
    if idx < ls.len() {
        lemma_line_readable(b, ls[idx].0, ls[idx].1, ls[idx].0, (idx + 1) as usize);
        lemma_lines_readable(b, ls, idx + 1);
        if let Ok(t) = lex_line_from(b, ls[idx].0, ls[idx].1, ls[idx].0, (idx + 1) as usize) {
            if let Ok(r) = lex_lines(b, ls, idx + 1) {
                lemma_readable_concat(t, r);
            }
        }
    }
}

/// Law: the names and `#` literals the lexer gives are read as colors
/// without stopping.
pub proof fn law_lexed_colors_readable(b: Seq<u8>)
    ensures
        spec_lex(b) matches Ok(toks) ==> readable_tokens(toks),
{
    lemma_lines_inside(b, 0);
    lemma_lines_readable(b, lines(b), 0);
    if let Ok(t) = lex_lines(b, lines(b), 0) {
        let eof = seq![crate::lexer::tok(TokenKindModel::Eof, (lines(b).len() + 1) as usize, 1, 0)];
        assert(readable_tokens(eof));
        lemma_readable_concat(t, eof);
        assert(t.push(eof[0]) =~= t + eof);
    }
}

// ---------------------------------------------------------------------------
// The parser.

/// Every name of the item is a name word and every color a name or a `#`
/// literal.
pub open spec fn item_readable(item: ItemModel) -> bool
    decreases item, 0nat,
{
    match item {
        ItemModel::Pixel { color, .. } => color_word(color.raw),
        ItemModel::Line { color, .. } => color_word(color.raw),
        ItemModel::Rect { color, .. } => color_word(color.raw),
        ItemModel::Fill { color, .. } => color_word(color.raw),
        ItemModel::Circle { color, .. } => color_word(color.raw),
        ItemModel::Group { name, items, .. } => ident_word(name) && items_readable(items, 0),
    }
}

pub open spec fn items_readable(items: Seq<SpannedModel<ItemModel>>, i: int) -> bool
    decreases items, items.len() - i,
{
    if i < 0 || i >= items.len() {
        true
    } else {
        item_readable(items[i].node) && items_readable(items, i + 1)
    }
}

/// Every name of the statement is a name word and every color a name or a
/// `#` literal; a lone item is not a group.
pub open spec fn stmt_readable(s: StmtModel) -> bool {
    match s {
        StmtModel::Background { color } => color_word(color.raw),
        StmtModel::Palette { entries } => entries_words(entries),
        StmtModel::Group { name, items, .. } => ident_word(name) && items_readable(items, 0),
        StmtModel::Frame { name, items } => ident_word(name) && items_readable(items, 0),
        StmtModel::Animation { name, frames, .. } => ident_word(name) && forall|k: int|
            0 <= k < frames.len() ==> ident_word(#[trigger] frames[k].name),
        StmtModel::Item(item) => item_readable(item) && !(item is Group),
        _ => true,
    }
}

/// The tokens end with `Eof`, as the lexer gives them.
pub open spec fn eof_ended(toks: Seq<TokenModel>) -> bool {
    toks.len() > 0 && toks.last().kind is Eof
}

/// A successful parse step from `pos` stops at or after it, inside the
/// tokens.
pub open spec fn stops_inside<T>(r: Parsed<T>, pos: int, n: int) -> bool {
    r matches Ok((_, p)) ==> pos <= p < n
}

proof fn lemma_items_cons(it: SpannedModel<ItemModel>, rest: Seq<SpannedModel<ItemModel>>, i: int)
    requires
        0 <= i <= rest.len(),
        items_readable(rest, i),
    ensures
        items_readable(seq![it] + rest, i + 1),
    decreases rest.len() - i,
{
    if i < rest.len() {
        lemma_items_cons(it, rest, i + 1);
        assert((seq![it] + rest)[i + 1] == rest[i]);
    }
}

proof fn lemma_items_depth_le(items: Seq<SpannedModel<ItemModel>>, b: nat)
    requires
        forall|k: int| 0 <= k < items.len() ==> item_depth(#[trigger] items[k].node) <= b,
    ensures
        items_depth(items) <= b,
    decreases items.len(),
{
    if items.len() > 0 {
        let init = items.drop_last();
        assert forall|k: int| 0 <= k < init.len() implies item_depth(#[trigger] init[k].node) <= b by {
            assert(init[k] == items[k]);
        }
        lemma_items_depth_le(init, b);
        assert(item_depth(items.last().node) <= b);
    }
}

proof fn lemma_tokens(toks: Seq<TokenModel>, pos: int)
    requires
        eof_ended(toks),
        readable_tokens(toks),
        0 <= pos < toks.len(),
    ensures
        stops_inside(p_ident(toks, pos), pos, toks.len() as int),
        stops_inside(p_number(toks, pos), pos, toks.len() as int),
        stops_inside(p_lbrace(toks, pos), pos, toks.len() as int),
        stops_inside(p_rbrace(toks, pos), pos, toks.len() as int),
        stops_inside(p_color(toks, pos), pos, toks.len() as int),
        stops_inside(p_bool(toks, pos), pos, toks.len() as int),
        p_color(toks, pos) matches Ok((c, _)) ==> color_word(c.raw),
        p_ident(toks, pos) matches Ok((name, _)) ==> ident_word(name),
{
    let t = toks[pos];
    if pos == toks.len() - 1 {
        assert(t.kind is Eof);
    }
}

proof fn lemma_nums(toks: Seq<TokenModel>, pos: int, n: nat)
    requires
        eof_ended(toks),
        readable_tokens(toks),
        0 <= pos < toks.len(),
    ensures
        stops_inside(p_nums(toks, pos, n), pos, toks.len() as int),
    decreases n,
{
    if n > 0 {
        lemma_tokens(toks, pos);
        if let Ok((_, p1)) = p_number(toks, pos) {
            lemma_nums(toks, p1, (n - 1) as nat);
        }
    }
}

proof fn lemma_shape(toks: Seq<TokenModel>, pos: int, n: nat)
    requires
        eof_ended(toks),
        readable_tokens(toks),
        0 <= pos < toks.len(),
    ensures
        stops_inside(p_shape(toks, pos, n), pos, toks.len() as int),
        p_shape(toks, pos, n) matches Ok(((_, c), _)) ==> color_word(c.raw),
        p_shape(toks, pos, n) matches Ok((_, p)) ==> p > pos,
{
    lemma_nums(toks, pos, n);
    if let Ok((_, p1)) = p_nums(toks, pos, n) {
        lemma_tokens(toks, p1);
    }
}

proof fn lemma_item_after_kw(toks: Seq<TokenModel>, pos: int, kw: Seq<char>)
    requires
        eof_ended(toks),
        readable_tokens(toks),
        0 <= pos < toks.len(),
    ensures
        stops_inside(p_item_after_kw(toks, pos, kw), pos, toks.len() as int),
        p_item_after_kw(toks, pos, kw) matches Ok((it, _)) ==> item_readable(it),
        p_item_after_kw(toks, pos, kw) matches Ok((it, p)) ==> 2 * item_depth(it) < p - pos,
    decreases left(toks, pos), 1nat,
{
    lemma_shape(toks, pos, 2);
    lemma_shape(toks, pos, 3);
    lemma_shape(toks, pos, 4);
    if kw == "group"@ {
        lemma_group_body(toks, pos);
    }
}

proof fn lemma_group_body(toks: Seq<TokenModel>, pos: int)
    requires
        eof_ended(toks),
        readable_tokens(toks),
        0 <= pos < toks.len(),
    ensures
        stops_inside(p_group_body(toks, pos), pos, toks.len() as int),
        p_group_body(toks, pos) matches Ok(((name, _, _, items), _)) ==> ident_word(name) && items_readable(items, 0),
        p_group_body(toks, pos) matches Ok(((_, _, _, items), p)) ==> 2 + 2 * items_depth(items) < p - pos,
    decreases left(toks, pos), 0nat,
{
    lemma_tokens(toks, pos);
    if let Ok((_, p1)) = p_ident(toks, pos) {
        lemma_tokens(toks, p1);
        if let Ok((at, p2)) = p_ident(toks, p1) {
            if at == "at"@ {
                lemma_tokens(toks, p2);
                if let Ok((_, p3)) = p_number(toks, p2) {
                    lemma_tokens(toks, p3);
                    if let Ok((_, p4)) = p_number(toks, p3) {
                        lemma_item_block(toks, p4);
                    }
                }
            }
        }
    }
}

proof fn lemma_item_block(toks: Seq<TokenModel>, pos: int)
    requires
        eof_ended(toks),
        readable_tokens(toks),
        0 <= pos < toks.len(),
    ensures
        stops_inside(p_item_block(toks, pos), pos, toks.len() as int),
        p_item_block(toks, pos) matches Ok((items, _)) ==> items_readable(items, 0),
        p_item_block(toks, pos) matches Ok((items, p)) ==> 2 * items_depth(items) + 2 <= p - pos,
    decreases left(toks, pos), 3nat,
{
    lemma_tokens(toks, pos);
    if let Ok((_, p1)) = p_lbrace(toks, pos) {
        lemma_items(toks, p1);
        if let Ok((_, p2)) = p_items(toks, p1) {
            lemma_tokens(toks, p2);
        }
    }
}

proof fn lemma_items(toks: Seq<TokenModel>, pos: int)
    requires
        eof_ended(toks),
        readable_tokens(toks),
        0 <= pos < toks.len(),
    ensures
        stops_inside(p_items(toks, pos), pos, toks.len() as int),
        p_items(toks, pos) matches Ok((items, _)) ==> items_readable(items, 0),
        p_items(toks, pos) matches Ok((items, p)) ==> 2 * items_depth(items) <= p - pos,
    decreases left(toks, pos), 2nat,
{
    if !at_block_end(toks, pos) {
        lemma_item(toks, pos);
        if let Ok((it, p1)) = p_item(toks, pos) {
            if p1 <= pos {
                assert(items_readable(seq![it], 1));
                lemma_items_depth_le(seq![it], item_depth(it.node));
            } else {
                lemma_items(toks, p1);
                if let Ok((rest, p2)) = p_items(toks, p1) {
                    lemma_items_cons(it, rest, 0);
                    assert((seq![it] + rest)[0] == it);
                    lemma_items_depth(rest);
                    let d = if item_depth(it.node) >= items_depth(rest) {
                        item_depth(it.node)
                    } else {
                        items_depth(rest)
                    };
                    let all = seq![it] + rest;
                    assert forall|k: int| 0 <= k < all.len() implies item_depth(#[trigger] all[k].node) <= d by {
                        if k > 0 {
                            assert(all[k] == rest[k - 1]);
                        }
                    }
                    lemma_items_depth_le(all, d);
                }
            }
        } else {
        }
    } else {
        assert(items_depth(Seq::<SpannedModel<ItemModel>>::empty()) == 0);
    }
}

proof fn lemma_item(toks: Seq<TokenModel>, pos: int)
    requires
        eof_ended(toks),
        readable_tokens(toks),
        0 <= pos < toks.len(),
    ensures
        stops_inside(p_item(toks, pos), pos, toks.len() as int),
        p_item(toks, pos) matches Ok((it, _)) ==> item_readable(it.node),
        p_item(toks, pos) matches Ok((it, p)) ==> 2 * item_depth(it.node) < p - pos,
    decreases left(toks, pos), 1nat,
{
    lemma_tokens(toks, pos);
    if let Ok((kw, p1)) = p_ident(toks, pos) {
        lemma_item_after_kw(toks, p1, kw);
    }
}

pub open spec fn entries_words(es: Seq<PaletteEntryModel>) -> bool {
    forall|k: int| 0 <= k < es.len() ==> ident_word(#[trigger] es[k].name) && color_word(es[k].color.raw)
}

proof fn lemma_entries(toks: Seq<TokenModel>, pos: int)
    requires
        eof_ended(toks),
        readable_tokens(toks),
        0 <= pos < toks.len(),
    ensures
        stops_inside(p_entries(toks, pos), pos, toks.len() as int),
        p_entries(toks, pos) matches Ok((es, _)) ==> entries_words(es),
    decreases left(toks, pos),
{
    if !at_block_end(toks, pos) {
        lemma_tokens(toks, pos);
        if let Ok((name, p1)) = p_ident(toks, pos) {
            lemma_tokens(toks, p1);
            if let Ok((color, p2)) = p_color(toks, p1) {
                lemma_entries(toks, p2);
                if let Ok((rest, p3)) = p_entries(toks, p2) {
                    assert(entries_words(rest));
                    assert(ident_word(name));
                    assert(color_word(color.raw));
                    let es = seq![PaletteEntryModel { name, color, span: toks[pos].span }] + rest;
                    assert forall|k: int| 0 <= k < es.len() implies ident_word(#[trigger] es[k].name) && color_word(es[k].color.raw) by {
                        if k > 0 {
                            assert(es[k] == rest[k - 1]);
                            assert(ident_word(rest[k - 1].name) && color_word(rest[k - 1].color.raw));
                        }
                    }
                    assert(entries_words(es));
                }
            }
        }
    }
}

proof fn lemma_frame_refs(toks: Seq<TokenModel>, pos: int)
    requires
        eof_ended(toks),
        readable_tokens(toks),
        0 <= pos < toks.len(),
    ensures
        stops_inside(p_frame_refs(toks, pos), pos, toks.len() as int),
        p_frame_refs(toks, pos) matches Ok((fs, _)) ==> forall|k: int|
            0 <= k < fs.len() ==> ident_word(#[trigger] fs[k].name),
    decreases left(toks, pos),
{
    if !at_block_end(toks, pos) {
        lemma_tokens(toks, pos);
        if let Ok((name, p1)) = p_ident(toks, pos) {
            lemma_frame_refs(toks, p1);
            if let Ok((rest, p2)) = p_frame_refs(toks, p1) {
                let fs = seq![crate::ast::FrameRefModel { name, span: toks[pos].span }] + rest;
                assert forall|k: int| 0 <= k < fs.len() implies ident_word(#[trigger] fs[k].name) by {
                    if k > 0 {
                        assert(fs[k] == rest[k - 1]);
                        assert(ident_word(rest[k - 1].name));
                    }
                }
            }
        }
    }
}

proof fn lemma_stmt(toks: Seq<TokenModel>, pos: int)
    requires
        eof_ended(toks),
        readable_tokens(toks),
        0 <= pos < toks.len(),
    ensures
        stops_inside(p_stmt(toks, pos), pos, toks.len() as int),
        p_stmt(toks, pos) matches Ok((s, _)) ==> stmt_readable(s.node),
        p_stmt(toks, pos) matches Ok((s, p)) ==> 2 * stmt_depth(s.node) < p - pos,
{
    lemma_tokens(toks, pos);
    if let Ok((kw, p)) = p_ident(toks, pos) {
        reveal(p_stmt_after_kw);
        lemma_nums(toks, p, 2);
        lemma_tokens(toks, p);
        if let Ok((_, p1)) = p_lbrace(toks, p) {
            lemma_entries(toks, p1);
            if let Ok((_, p2)) = p_entries(toks, p1) {
                lemma_tokens(toks, p2);
            }
        }
        lemma_group_body(toks, p);
        if let Ok((_, p1)) = p_ident(toks, p) {
            lemma_item_block(toks, p1);
            lemma_tokens(toks, p1);
            if let Ok((_, p2)) = p_ident(toks, p1) {
                lemma_tokens(toks, p2);
                if let Ok((_, p3)) = p_number(toks, p2) {
                    lemma_tokens(toks, p3);
                    if let Ok((_, p4)) = p_lbrace(toks, p3) {
                        lemma_frame_refs(toks, p4);
                        if let Ok((_, p5)) = p_frame_refs(toks, p4) {
                            lemma_tokens(toks, p5);
                        }
                    }
                }
            }
        }
        lemma_item_after_kw(toks, p, kw);
    }
}

pub(crate) proof fn lemma_stmts(toks: Seq<TokenModel>, pos: int)
    requires
        eof_ended(toks),
        readable_tokens(toks),
        0 <= pos < toks.len(),
    ensures
        stops_inside(p_stmts(toks, pos), pos, toks.len() as int),
        p_stmts(toks, pos) matches Ok((ss, _)) ==> forall|k: int|
            0 <= k < ss.len() ==> stmt_readable(#[trigger] ss[k].node),
        p_stmts(toks, pos) matches Ok((ss, p)) ==> forall|k: int|
            0 <= k < ss.len() ==> 2 * stmt_depth(#[trigger] ss[k].node) < p - pos,
    decreases left(toks, pos),
{
    if !(toks[pos].kind is Eof) {
        lemma_stmt(toks, pos);
        if let Ok((s, p1)) = p_stmt(toks, pos) {
            if p1 > pos {
                lemma_stmts(toks, p1);
                if let Ok((rest, p2)) = p_stmts(toks, p1) {
                    let ss = seq![s] + rest;
                    assert forall|k: int| 0 <= k < ss.len() implies stmt_readable(#[trigger] ss[k].node) by {
                        if k > 0 {
                            assert(ss[k] == rest[k - 1]);
                        }
                    }
                    assert forall|k: int| 0 <= k < ss.len() implies 2 * stmt_depth(#[trigger] ss[k].node) < p2 - pos by {
                        if k > 0 {
                            assert(ss[k] == rest[k - 1]);
                        }
                    }
                }
            }
        }
    }
}

// ---------------------------------------------------------------------------
// Readable colors resolve.

proof fn lemma_item_colors_ok(item: ItemModel, pal: Seq<(Seq<char>, Rgba)>)
    requires
        item_readable(item),
    ensures
        item_colors_ok(item, pal),
    decreases item, 0nat,
{
    match item {
        ItemModel::Pixel { color, .. } => lemma_word_in_domain(color.raw),
        ItemModel::Line { color, .. } => lemma_word_in_domain(color.raw),
        ItemModel::Rect { color, .. } => lemma_word_in_domain(color.raw),
        ItemModel::Fill { color, .. } => lemma_word_in_domain(color.raw),
        ItemModel::Circle { color, .. } => lemma_word_in_domain(color.raw),
        ItemModel::Group { items, .. } => lemma_items_colors_ok(items, 0, pal),
    }
}

proof fn lemma_items_colors_ok(items: Seq<SpannedModel<ItemModel>>, i: int, pal: Seq<(Seq<char>, Rgba)>)
    requires
        items_readable(items, i),
    ensures
        items_colors_ok(items, i, pal),
    decreases items, items.len() - i,
{
    if 0 <= i < items.len() {
        lemma_item_colors_ok(items[i].node, pal);
        lemma_items_colors_ok(items, i + 1, pal);
    }
}

/// Law: every document the parser accepts can be validated: each of its
/// colors is a palette name or a literal whose reading does not stop.
pub proof fn law_parsed_validatable(b: Seq<u8>)
    ensures
        spec_parse(b) matches Ok(ss) ==> validatable(ss),
{
    law_lexed_colors_readable(b);
    if let Ok(toks) = spec_lex(b) {
        assert(eof_ended(toks));
        lemma_stmts(toks, 0);
        if let Ok(ss) = parse_tokens(toks) {
            let pal = setup(ss).palette;
            assert forall|k: int| 0 <= k < ss.len() implies stmt_colors_ok(#[trigger] ss[k].node, pal) by {
                assert(stmt_readable(ss[k].node));
                match ss[k].node {
                    StmtModel::Background { color } => lemma_word_in_domain(color.raw),
                    StmtModel::Palette { entries } => {
                        assert forall|j: int| 0 <= j < entries.len() implies color_in_domain(
                            #[trigger] entries[j].color.raw,
                        ) by {
                            assert(ident_word(entries[j].name) && color_word(entries[j].color.raw));
                            lemma_word_in_domain(entries[j].color.raw);
                        }
                    },
                    StmtModel::Group { items, .. } => lemma_items_colors_ok(items, 0, pal),
                    StmtModel::Frame { items, .. } => lemma_items_colors_ok(items, 0, pal),
                    StmtModel::Item(item) => lemma_item_colors_ok(item, pal),
                    _ => {},
                }
            }
        }
    }
}

// ---------------------------------------------------------------------------
// Every parsed document can be formatted.

/// The total length of the byte ranges `ls[idx..]`.
pub open spec fn span_total(ls: Seq<(int, int)>, idx: int) -> int
    decreases ls.len() - idx,
{
    if idx < 0 || idx >= ls.len() {
        0
    } else {
        (ls[idx].1 - ls[idx].0) + span_total(ls, idx + 1)
    }
}

proof fn lemma_span_total_shift(x: (int, int), r: Seq<(int, int)>, i: int)
    requires
        0 <= i,
    ensures
        span_total(seq![x] + r, i + 1) == span_total(r, i),
    decreases r.len() - i,
{
    if i < r.len() {
        assert((seq![x] + r)[i + 1] == r[i]);
        lemma_span_total_shift(x, r, i + 1);
    }
}

/// Each token of a line takes at least one byte of it.
proof fn lemma_line_count(b: Seq<u8>, ls: int, le: int, i: int, line: usize)
    requires
        le <= b.len(),
        0 <= i,
    ensures
        lex_line_from(b, ls, le, i, line) matches Ok(ts) ==> ts.len() <= (if i < le {
            le - i
        } else {
            0
        }),
    decreases le - i,
{
    if i < le {
        crate::lexer::lemma_scans(b, i, le);
        crate::lexer::lemma_scans(b, i + 1, le);
        let c = b[i];
        if crate::lexer::is_whitespace_byte(c) {
            lemma_line_count(b, ls, le, i + 1, line);
        } else if c == 47 && i + 1 < le && b[i + 1] == 47 {
        } else if c == 123 || c == 125 {
            lemma_line_count(b, ls, le, i + 1, line);
        } else if c == 34 {
            let j = scan_quote_end(b, i, le);
            if j < le {
                lemma_line_count(b, ls, le, j + 1, line);
            }
        } else if c == 35 {
            let j = scan_hex(b, i + 1, le);
            lemma_line_count(b, ls, le, j, line);
        } else if c == 45 || crate::lexer::is_digit_byte(c) {
            let k = if c == 45 { i + 1 } else { i };
            crate::lexer::lemma_scans(b, k, le);
            let j = crate::lexer::scan_digits(b, k, le);
            if j > i {
                lemma_line_count(b, ls, le, j, line);
            } else {
                assert(b.subrange(i, j).len() == 0);
            }
        } else if is_ident_start_byte(c) {
            let j = scan_ident(b, i + 1, le);
            lemma_line_count(b, ls, le, j, line);
        }
    }
}

proof fn lemma_lines_count(b: Seq<u8>, ls: Seq<(int, int)>, idx: int)
    requires
        0 <= idx,
        forall|k: int| 0 <= k < ls.len() ==> 0 <= (#[trigger] ls[k]).0 <= ls[k].1 <= b.len(),
    ensures
        lex_lines(b, ls, idx) matches Ok(ts) ==> ts.len() <= span_total(ls, idx),
    decreases ls.len() - idx,
{
    if idx < ls.len() {
        lemma_line_count(b, ls[idx].0, ls[idx].1, ls[idx].0, (idx + 1) as usize);
        lemma_lines_count(b, ls, idx + 1);
    }
}

proof fn lemma_lines_total(b: Seq<u8>, p: int)
    requires
        0 <= p <= b.len(),
    ensures
        span_total(lines_from(b, p), 0) <= b.len() - p,
    decreases b.len() - p,
{
    if p < b.len() {
        crate::lexer::lemma_next_newline(b, p);
        let k = next_newline(b, p);
        if k < b.len() {
            lemma_lines_total(b, k + 1);
            let rest = lines_from(b, k + 1);
            let x = (p, line_end(b, p, k));
            assert(lines_from(b, p) == seq![x] + rest);
            lemma_span_total_shift(x, rest, 0);
            assert(span_total(seq![x] + rest, 0) == (x.1 - x.0) + span_total(seq![x] + rest, 1));
        } else {
            assert(lines_from(b, p) == seq![(p, k)]);
            assert(span_total(seq![(p, k)], 1) == 0);
            assert(span_total(seq![(p, k)], 0) == k - p);
        }
    } else {
        assert(lines_from(b, p) == Seq::<(int, int)>::empty());
    }
}

/// Law: every document the parser accepts can be formatted: its groups nest
/// less deeply than half its source is long.
pub proof fn law_parsed_formattable(b: Seq<u8>)
    requires
        b.len() < usize::MAX,
    ensures
        spec_parse(b) matches Ok(ss) ==> nesting_fits(ss),
{
    law_lexed_colors_readable(b);
    if let Ok(toks) = spec_lex(b) {
        lemma_lines_inside(b, 0);
        lemma_lines_count(b, lines(b), 0);
        lemma_lines_total(b, 0);
        assert(toks.len() <= b.len() + 1);
        assert(eof_ended(toks));
        lemma_stmts(toks, 0);
        if let Ok(ss) = parse_tokens(toks) {
            assert forall|k: int| 0 <= k < ss.len() implies stmt_depth(#[trigger] ss[k].node) + 2 < usize::MAX by {
                assert(2 * stmt_depth(ss[k].node) < toks.len());
            }
        }
    }
}

// ---------------------------------------------------------------------------
// Parsing and validating.

/// Parses and validates a source: the parse error alone, or what validation
/// gives for the parsed document.
pub fn parse_and_validate(src: &str) -> (r: Result<ValidDocument, Vec<Diagnostic>>)
    requires
        src.spec_bytes().len() < usize::MAX,
    ensures
        match spec_parse(src.spec_bytes()) {
            Err(e) => r matches Err(es) && diags_view(es@) == seq![e],
            Ok(ss) => match r {
                Ok(v) => {
                    &&& validation_errors(ss).len() == 0
                    &&& setup(ss).canvas == Some(v.canvas)
                    &&& v.background == second_pass(ss).background
                    &&& v.strict_palette == setup(ss).strict
                    &&& v.palette@ == setup(ss).palette
                    &&& v.document@ == ss
                },
                Err(es) => validation_errors(ss).len() > 0 && diags_view(es@) == validation_errors(ss),
            },
        },
        spec_parse(src.spec_bytes()) matches Ok(ss) ==> (r is Ok == crate::acceptance::doc_accepted(ss)),
{
    match parse(src) {
        Err(e) => {
            let mut v: Vec<Diagnostic> = Vec::new();
            v.push(e);
            proof {
                assert(diags_view(v@) =~= seq![v@[0]@]);
            }
            Err(v)
        },
        Ok(doc) => {
            proof {
                law_parsed_validatable(src.spec_bytes());
            }
            validate(doc)
        },
    }
}

/// Parses a source and prints it in canonical layout: the parse error, or
/// the formatted text.
pub fn format_source(src: &str) -> (r: Result<String, Diagnostic>)
    requires
        src.spec_bytes().len() < usize::MAX,
    ensures
        match spec_parse(src.spec_bytes()) {
            Ok(ss) => r matches Ok(text) && text@ == document_text(ss),
            Err(e) => r matches Err(d) && d@ == e,
        },
{
    match parse(src) {
        Err(e) => Err(e),
        Ok(doc) => {
            proof {
                law_parsed_formattable(src.spec_bytes());
            }
            Ok(format_document(&doc))
        },
    }
}

} // verus!
