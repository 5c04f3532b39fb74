//! Formatting is idempotent: the formatted text of a parsed document parses
//! back to the same document, up to source positions, so formatting it again
//! gives the same text.
//!
//! The proof sees the formatted text as lines of words: the lexer reads each
//! line back as the tokens of its words, and the parser reads those tokens
//! back as the statements that printed them.

use vstd::prelude::*;
use crate::ast::{ColorModel, FrameRefModel, ItemModel, PaletteEntryModel, SpannedModel, StmtModel};
use crate::diagnostics::Span;
use crate::fmt::{
    bool_str, document_text, entries_text, indent_str, item_text, items_text, refs_text,
    stmt_text,
};
use crate::text::{digit_char, int_str, nat_str};
use crate::lexer::{
    digits_value, is_digit_byte, is_hex_byte, is_ident_continue_byte, is_ident_start_byte, lex_line_from,
    lex_lines, line_end, lines, lines_from, next_newline, number_value, prepend, scan_digits, scan_hex, scan_ident,
    spec_lex, text, tok, TokenKindModel, TokenModel,
};
use vstd::utf8::{decode_utf8, encode_utf8, encode_utf8_decode_utf8};
use crate::parser::{
    at_block_end, is_item_keyword, p_bool, p_color, p_entries, p_frame_refs, p_group_body, p_ident,
    p_item, p_item_after_kw, p_item_block, p_items, p_nums, p_shape, p_stmt, p_stmt_after_kw,
    p_stmts, parse_tokens, spec_parse, Parsed,
};
use crate::pipeline::{
    entries_words, eof_ended, item_readable, items_readable, law_lexed_colors_readable, lemma_stmts, stmt_readable,
};
use crate::words::{ascii_char, ascii_of, ascii_text, byte_of, color_word, hex_word, ident_word, lemma_encode_ascii};

verus! {

broadcast use vstd::seq::group_seq_axioms;

// ---------------------------------------------------------------------------
// The layout: lines of words.

/// A word of the layout: a name, keyword or literal, a number, or a brace.
pub enum Word {
    Text(Seq<char>),
    Num(i32),
    Open,
    Close,
}

pub open spec fn word_text(w: Word) -> Seq<char> {
    match w {
        Word::Text(s) => s,
        Word::Num(n) => int_str(n as int),
        Word::Open => "{"@,
        Word::Close => "}"@,
    }
}

/// The words with one space between each two.
pub open spec fn join_words(ws: Seq<Word>) -> Seq<char>
    decreases ws.len(),
{
    if ws.len() == 0 {
        seq![]
    } else if ws.len() == 1 {
        word_text(ws[0])
    } else {
        word_text(ws[0]) + " "@ + join_words(ws.drop_first())
    }
}

/// A line: its indentation level and its words.
pub struct Line {
    pub level: nat,
    pub words: Seq<Word>,
}

pub open spec fn line_text(l: Line) -> Seq<char> {
    indent_str(l.level) + join_words(l.words) + "\n"@
}

pub open spec fn layout_text(ls: Seq<Line>) -> Seq<char>
    decreases ls.len(),
{
    if ls.len() == 0 {
        seq![]
    } else {
        layout_text(ls.drop_last()) + line_text(ls.last())
    }
}

pub proof fn lemma_layout_concat(a: Seq<Line>, b: Seq<Line>)
    ensures
        layout_text(a + b) == layout_text(a) + layout_text(b),
    decreases b.len(),
{
    if b.len() == 0 {
        assert(a + b =~= a);
    } else {
        lemma_layout_concat(a, b.drop_last());
        assert((a + b).drop_last() =~= a + b.drop_last());
        assert((a + b).last() == b.last());
    }
}

pub open spec fn blank() -> Line {
    Line { level: 0, words: seq![] }
}

pub open spec fn t(s: Seq<char>) -> Word {
    Word::Text(s)
}

/// The color word of a color: its text.
pub open spec fn leaf_words(item: ItemModel) -> Seq<Word> {
    match item {
        ItemModel::Pixel { x, y, color } => seq![t("pixel"@), Word::Num(x), Word::Num(y), t(color.raw)],
        ItemModel::Line { x1, y1, x2, y2, color } => seq![
            t("line"@),
            Word::Num(x1),
            Word::Num(y1),
            Word::Num(x2),
            Word::Num(y2),
            t(color.raw),
        ],
        ItemModel::Rect { x, y, w, h, color } => seq![
            t("rect"@),
            Word::Num(x),
            Word::Num(y),
            Word::Num(w),
            Word::Num(h),
            t(color.raw),
        ],
        ItemModel::Fill { x, y, color } => seq![t("fill"@), Word::Num(x), Word::Num(y), t(color.raw)],
        ItemModel::Circle { cx, cy, r, color } => seq![
            t("circle"@),
            Word::Num(cx),
            Word::Num(cy),
            Word::Num(r),
            t(color.raw),
        ],
        ItemModel::Group { name, x, y, .. } => seq![
            t("group"@),
            t(name),
            t("at"@),
            Word::Num(x),
            Word::Num(y),
            Word::Open,
        ],
    }
}

/// The lines of an item printed at `level`, with its line break.
pub open spec fn item_lines(item: ItemModel, level: nat) -> Seq<Line>
    decreases item, 1nat,
{
    match item {
        ItemModel::Group { items, .. } => seq![Line { level, words: leaf_words(item) }] + items_lines(items, level)
            + seq![Line { level, words: seq![Word::Close] }, blank()],
        _ => seq![Line { level, words: leaf_words(item) }],
    }
}

/// The lines of the items of a block at `level`.
pub open spec fn items_lines(items: Seq<SpannedModel<ItemModel>>, level: nat) -> Seq<Line>
    decreases items, 0nat,
{
    if items.len() == 0 {
        seq![]
    } else {
        items_lines(items.drop_last(), level) + item_lines(items.last().node, level + 1)
    }
}

proof fn lemma_join_seq(ws: Seq<Word>)
    requires
        ws.len() >= 2,
    ensures
        join_words(ws) == word_text(ws[0]) + " "@ + join_words(ws.drop_first()),
{
}

proof fn lemma_join4(a: Word, b: Word, c: Word, d: Word)
    ensures
        join_words(seq![a, b, c, d]) == word_text(a) + " "@ + word_text(b) + " "@ + word_text(c) + " "@
            + word_text(d),
{
    let ws = seq![a, b, c, d];
    lemma_join_seq(ws);
    lemma_join_seq(ws.drop_first());
    lemma_join_seq(ws.drop_first().drop_first());
    assert(ws.drop_first().drop_first().drop_first() =~= seq![d]);
    assert(join_words(ws) =~= word_text(a) + " "@ + word_text(b) + " "@ + word_text(c) + " "@ + word_text(d));
}

proof fn lemma_join5(a: Word, b: Word, c: Word, d: Word, e: Word)
    ensures
        join_words(seq![a, b, c, d, e]) == word_text(a) + " "@ + word_text(b) + " "@ + word_text(c) + " "@
            + word_text(d) + " "@ + word_text(e),
{
    let ws = seq![a, b, c, d, e];
    lemma_join_seq(ws);
    assert(ws.drop_first() =~= seq![b, c, d, e]);
    lemma_join4(b, c, d, e);
    assert(join_words(ws) =~= word_text(a) + " "@ + word_text(b) + " "@ + word_text(c) + " "@ + word_text(d)
        + " "@ + word_text(e));
}

proof fn lemma_join6(a: Word, b: Word, c: Word, d: Word, e: Word, f: Word)
    ensures
        join_words(seq![a, b, c, d, e, f]) == word_text(a) + " "@ + word_text(b) + " "@ + word_text(c) + " "@
            + word_text(d) + " "@ + word_text(e) + " "@ + word_text(f),
{
    let ws = seq![a, b, c, d, e, f];
    lemma_join_seq(ws);
    assert(ws.drop_first() =~= seq![b, c, d, e, f]);
    lemma_join5(b, c, d, e, f);
    assert(join_words(ws) =~= word_text(a) + " "@ + word_text(b) + " "@ + word_text(c) + " "@ + word_text(d)
        + " "@ + word_text(e) + " "@ + word_text(f));
}

/// A leaf item's words, joined, are its text.
proof fn lemma_leaf_text(item: ItemModel, level: nat)
    requires
        !(item is Group),
    ensures
        join_words(leaf_words(item)) == item_text(item, level),
{
    match item {
        ItemModel::Pixel { x, y, color } => {
            reveal_strlit("pixel");
            reveal_strlit("pixel ");
            reveal_strlit(" ");
            lemma_join4(t("pixel"@), Word::Num(x), Word::Num(y), t(color.raw));
            assert(join_words(leaf_words(item)) =~= item_text(item, level));
        },
        ItemModel::Fill { x, y, color } => {
            reveal_strlit("fill");
            reveal_strlit("fill ");
            reveal_strlit(" ");
            lemma_join4(t("fill"@), Word::Num(x), Word::Num(y), t(color.raw));
            assert(join_words(leaf_words(item)) =~= item_text(item, level));
        },
        ItemModel::Circle { cx, cy, r, color } => {
            reveal_strlit("circle");
            reveal_strlit("circle ");
            reveal_strlit(" ");
            lemma_join5(t("circle"@), Word::Num(cx), Word::Num(cy), Word::Num(r), t(color.raw));
            assert(join_words(leaf_words(item)) =~= item_text(item, level));
        },
        ItemModel::Line { x1, y1, x2, y2, color } => {
            reveal_strlit("line");
            reveal_strlit("line ");
            reveal_strlit(" ");
            lemma_join6(t("line"@), Word::Num(x1), Word::Num(y1), Word::Num(x2), Word::Num(y2), t(color.raw));
            assert(join_words(leaf_words(item)) =~= item_text(item, level));
        },
        ItemModel::Rect { x, y, w, h, color } => {
            reveal_strlit("rect");
            reveal_strlit("rect ");
            reveal_strlit(" ");
            lemma_join6(t("rect"@), Word::Num(x), Word::Num(y), Word::Num(w), Word::Num(h), t(color.raw));
            assert(join_words(leaf_words(item)) =~= item_text(item, level));
        },
        _ => {},
    }
}

proof fn lemma_layout_one(l: Line)
    ensures
        layout_text(seq![l]) == line_text(l),
{
    assert(seq![l].drop_last() =~= Seq::<Line>::empty());
    assert(layout_text(Seq::<Line>::empty()) == Seq::<char>::empty());
    assert(Seq::<char>::empty() + line_text(l) =~= line_text(l));
}

proof fn lemma_layout_three(a: Seq<Line>, b: Seq<Line>, c: Seq<Line>)
    ensures
        layout_text(a + b + c) == layout_text(a) + layout_text(b) + layout_text(c),
{
    lemma_layout_concat(a + b, c);
    lemma_layout_concat(a, b);
}

proof fn lemma_close_blank(level: nat)
    ensures
        layout_text(seq![Line { level, words: seq![Word::Close] }, blank()]) == indent_str(level) + "}\n"@ + "\n"@,
{
    let c = Line { level, words: seq![Word::Close] };
    lemma_layout_concat(seq![c], seq![blank()]);
    assert(seq![c] + seq![blank()] =~= seq![c, blank()]);
    lemma_layout_one(c);
    lemma_layout_one(blank());
    reveal_strlit("}");
    reveal_strlit("}\n");
    reveal_strlit("\n");
    assert(indent_str(0) =~= Seq::<char>::empty());
    assert(line_text(c) =~= indent_str(level) + "}\n"@);
    assert(line_text(blank()) =~= "\n"@);
}

proof fn lemma_group_line(level: nat, name: Seq<char>, x: i32, y: i32)
    ensures
        line_text(Line { level, words: leaf_words(ItemModel::Group { name, x, y, items: seq![] }) }) == indent_str(
            level,
        ) + "group "@ + name + " at "@ + int_str(x as int) + " "@ + int_str(y as int) + " {\n"@,
{
    reveal_strlit("group");
    reveal_strlit("group ");
    reveal_strlit("at");
    reveal_strlit(" at ");
    reveal_strlit(" ");
    reveal_strlit("{");
    reveal_strlit(" {\n");
    reveal_strlit("\n");
    lemma_join6(t("group"@), t(name), t("at"@), Word::Num(x), Word::Num(y), Word::Open);
    assert(line_text(Line { level, words: leaf_words(ItemModel::Group { name, x, y, items: seq![] }) })
        =~= indent_str(level) + "group "@ + name + " at "@ + int_str(x as int) + " "@ + int_str(y as int)
        + " {\n"@);
}

/// An item printed at `level`, with its indentation and line break, is the
/// text of its lines.
proof fn lemma_item_layout(item: ItemModel, level: nat)
    ensures
        indent_str(level) + item_text(item, level) + "\n"@ == layout_text(item_lines(item, level)),
    decreases item, 1nat,
{
    match item {
        ItemModel::Group { name, x, y, items } => {
            lemma_items_layout(items, level);
            let first = seq![Line { level, words: leaf_words(item) }];
            let last = seq![Line { level, words: seq![Word::Close] }, blank()];
            lemma_layout_three(first, items_lines(items, level), last);
            lemma_layout_one(first[0]);
            lemma_group_line(level, name, x, y);
            assert(leaf_words(item) == leaf_words(ItemModel::Group { name, x, y, items: seq![] }));
            lemma_close_blank(level);
            assert(indent_str(level) + item_text(item, level) + "\n"@ =~= layout_text(item_lines(item, level)));
        },
        _ => {
            lemma_leaf_text(item, level);
            lemma_layout_one(Line { level, words: leaf_words(item) });
        },
    }
}

proof fn lemma_items_layout(items: Seq<SpannedModel<ItemModel>>, level: nat)
    ensures
        items_text(items, level) == layout_text(items_lines(items, level)),
    decreases items, 0nat,
{
    if items.len() > 0 {
        lemma_items_layout(items.drop_last(), level);
        lemma_item_layout(items.last().node, level + 1);
        lemma_layout_concat(items_lines(items.drop_last(), level), item_lines(items.last().node, level + 1));
        assert(items_text(items, level) =~= layout_text(items_lines(items, level)));
    }
}

pub open spec fn entries_lines(es: Seq<PaletteEntryModel>) -> Seq<Line>
    decreases es.len(),
{
    if es.len() == 0 {
        seq![]
    } else {
        entries_lines(es.drop_last()) + seq![Line { level: 1, words: seq![t(es.last().name), t(es.last().color.raw)] }]
    }
}

pub open spec fn refs_lines(fs: Seq<FrameRefModel>) -> Seq<Line>
    decreases fs.len(),
{
    if fs.len() == 0 {
        seq![]
    } else {
        refs_lines(fs.drop_last()) + seq![Line { level: 1, words: seq![t(fs.last().name)] }]
    }
}

pub open spec fn head_words(s: StmtModel) -> Seq<Word> {
    match s {
        StmtModel::Canvas { width, height } => seq![t("canvas"@), Word::Num(width), Word::Num(height)],
        StmtModel::Background { color } => seq![t("background"@), t(color.raw)],
        StmtModel::StrictPalette { value } => seq![t("strict_palette"@), t(bool_str(value))],
        StmtModel::Palette { .. } => seq![t("palette"@), Word::Open],
        StmtModel::Group { name, x, y, .. } => seq![
            t("group"@),
            t(name),
            t("at"@),
            Word::Num(x),
            Word::Num(y),
            Word::Open,
        ],
        StmtModel::Frame { name, .. } => seq![t("frame"@), t(name), Word::Open],
        StmtModel::Animation { name, fps, .. } => seq![t("animation"@), t(name), t("fps"@), Word::Num(fps), Word::Open],
        StmtModel::Item(item) => leaf_words(item),
    }
}

/// The lines of a statement printed at the top level, with the blank line
/// that follows it.
pub open spec fn stmt_lines(s: StmtModel) -> Seq<Line> {
    let head = seq![Line { level: 0, words: head_words(s) }];
    let close = seq![Line { level: 0, words: seq![Word::Close] }, blank()];
    match s {
        StmtModel::Palette { entries } => head + entries_lines(entries) + close,
        StmtModel::Group { items, .. } => head + items_lines(items, 0) + close,
        StmtModel::Frame { items, .. } => head + items_lines(items, 0) + close,
        StmtModel::Animation { frames, .. } => head + refs_lines(frames) + close,
        StmtModel::Item(item) => item_lines(item, 0) + seq![blank()],
        _ => head + seq![blank()],
    }
}

pub open spec fn doc_lines(ss: Seq<SpannedModel<StmtModel>>) -> Seq<Line>
    decreases ss.len(),
{
    if ss.len() == 0 {
        seq![]
    } else {
        doc_lines(ss.drop_last()) + stmt_lines(ss.last().node)
    }
}

proof fn lemma_entries_layout(es: Seq<PaletteEntryModel>)
    ensures
        entries_text(es, 0) == layout_text(entries_lines(es)),
    decreases es.len(),
{
    if es.len() > 0 {
        lemma_entries_layout(es.drop_last());
        let l = Line { level: 1, words: seq![t(es.last().name), t(es.last().color.raw)] };
        lemma_layout_concat(entries_lines(es.drop_last()), seq![l]);
        lemma_layout_one(l);
        lemma_join_seq(l.words);
        assert(l.words.drop_first() =~= seq![t(es.last().color.raw)]);
        reveal_strlit(" ");
        reveal_strlit("\n");
        assert(entries_text(es, 0) =~= layout_text(entries_lines(es)));
    }
}

proof fn lemma_refs_layout(fs: Seq<FrameRefModel>)
    ensures
        refs_text(fs, 0) == layout_text(refs_lines(fs)),
    decreases fs.len(),
{
    if fs.len() > 0 {
        lemma_refs_layout(fs.drop_last());
        let l = Line { level: 1, words: seq![t(fs.last().name)] };
        lemma_layout_concat(refs_lines(fs.drop_last()), seq![l]);
        lemma_layout_one(l);
        reveal_strlit("\n");
        assert(refs_text(fs, 0) =~= layout_text(refs_lines(fs)));
    }
}

proof fn lemma_head_line(s: StmtModel)
    ensures
        line_text(Line { level: 0, words: head_words(s) }) == match s {
            StmtModel::Canvas { width, height } => "canvas "@ + int_str(width as int) + " "@ + int_str(height as int)
                + "\n"@,
            StmtModel::Background { color } => "background "@ + color.raw + "\n"@,
            StmtModel::StrictPalette { value } => "strict_palette "@ + bool_str(value) + "\n"@,
            StmtModel::Palette { .. } => "palette {\n"@,
            StmtModel::Group { name, x, y, .. } => "group "@ + name + " at "@ + int_str(x as int) + " "@ + int_str(
                y as int,
            ) + " {\n"@,
            StmtModel::Frame { name, .. } => "frame "@ + name + " {\n"@,
            StmtModel::Animation { name, fps, .. } => "animation "@ + name + " fps "@ + int_str(fps as int) + " {\n"@,
            StmtModel::Item(item) => join_words(leaf_words(item)) + "\n"@,
        },
{
    reveal_strlit(" ");
    reveal_strlit("\n");
    reveal_strlit("{");
    reveal_strlit(" {\n");
    assert(indent_str(0) =~= Seq::<char>::empty());
    let ws = head_words(s);
    match s {
        StmtModel::Canvas { width, height } => {
            reveal_strlit("canvas");
            reveal_strlit("canvas ");
            lemma_join_seq(ws);
            lemma_join_seq(ws.drop_first());
            assert(ws.drop_first().drop_first() =~= seq![Word::Num(height)]);
            assert(line_text(Line { level: 0, words: ws }) =~= "canvas "@ + int_str(width as int) + " "@ + int_str(
                height as int,
            ) + "\n"@);
        },
        StmtModel::Background { color } => {
            reveal_strlit("background");
            reveal_strlit("background ");
            lemma_join_seq(ws);
            assert(ws.drop_first() =~= seq![t(color.raw)]);
            assert(line_text(Line { level: 0, words: ws }) =~= "background "@ + color.raw + "\n"@);
        },
        StmtModel::StrictPalette { value } => {
            reveal_strlit("strict_palette");
            reveal_strlit("strict_palette ");
            lemma_join_seq(ws);
            assert(ws.drop_first() =~= seq![t(bool_str(value))]);
            assert(line_text(Line { level: 0, words: ws }) =~= "strict_palette "@ + bool_str(value) + "\n"@);
        },
        StmtModel::Palette { .. } => {
            reveal_strlit("palette");
            reveal_strlit("palette {\n");
            lemma_join_seq(ws);
            assert(ws.drop_first() =~= seq![Word::Open]);
            assert(line_text(Line { level: 0, words: ws }) =~= "palette {\n"@);
        },
        StmtModel::Group { name, x, y, .. } => {
            lemma_group_line(0, name, x, y);
        },
        StmtModel::Frame { name, .. } => {
            reveal_strlit("frame");
            reveal_strlit("frame ");
            lemma_join_seq(ws);
            lemma_join_seq(ws.drop_first());
            assert(ws.drop_first().drop_first() =~= seq![Word::Open]);
            assert(line_text(Line { level: 0, words: ws }) =~= "frame "@ + name + " {\n"@);
        },
        StmtModel::Animation { name, fps, .. } => {
            reveal_strlit("animation");
            reveal_strlit("animation ");
            reveal_strlit("fps");
            reveal_strlit(" fps ");
            lemma_join5(t("animation"@), t(name), t("fps"@), Word::Num(fps), Word::Open);
            assert(line_text(Line { level: 0, words: ws }) =~= "animation "@ + name + " fps "@ + int_str(fps as int)
                + " {\n"@);
        },
        StmtModel::Item(item) => {
            assert(line_text(Line { level: 0, words: ws }) =~= join_words(leaf_words(item)) + "\n"@);
        },
    }
}

/// A statement printed at the top level, with the blank line after it, is
/// the text of its lines.
proof fn lemma_stmt_layout(s: StmtModel)
    ensures
        stmt_text(s, 0) + "\n"@ == layout_text(stmt_lines(s)),
{
    let head = seq![Line { level: 0, words: head_words(s) }];
    let close = seq![Line { level: 0, words: seq![Word::Close] }, blank()];
    lemma_layout_one(head[0]);
    lemma_layout_one(blank());
    lemma_close_blank(0);
    lemma_head_line(s);
    reveal_strlit("\n");
    assert(indent_str(0) =~= Seq::<char>::empty());
    assert(line_text(blank()) =~= "\n"@);
    match s {
        StmtModel::Palette { entries } => {
            lemma_entries_layout(entries);
            lemma_layout_three(head, entries_lines(entries), close);
            assert(stmt_text(s, 0) + "\n"@ =~= layout_text(stmt_lines(s)));
        },
        StmtModel::Group { items, .. } => {
            lemma_items_layout(items, 0);
            lemma_layout_three(head, items_lines(items, 0), close);
            assert(stmt_text(s, 0) + "\n"@ =~= layout_text(stmt_lines(s)));
        },
        StmtModel::Frame { items, .. } => {
            lemma_items_layout(items, 0);
            lemma_layout_three(head, items_lines(items, 0), close);
            assert(stmt_text(s, 0) + "\n"@ =~= layout_text(stmt_lines(s)));
        },
        StmtModel::Animation { frames, .. } => {
            lemma_refs_layout(frames);
            lemma_layout_three(head, refs_lines(frames), close);
            assert(stmt_text(s, 0) + "\n"@ =~= layout_text(stmt_lines(s)));
        },
        StmtModel::Item(item) => {
            lemma_item_layout(item, 0);
            lemma_layout_concat(item_lines(item, 0), seq![blank()]);
            assert(stmt_text(s, 0) + "\n"@ =~= layout_text(stmt_lines(s)));
        },
        _ => {
            lemma_layout_concat(head, seq![blank()]);
            assert(stmt_text(s, 0) + "\n"@ =~= layout_text(stmt_lines(s)));
        },
    }
}

/// The formatted document is the text of its lines.
pub proof fn lemma_doc_layout(ss: Seq<SpannedModel<StmtModel>>)
    ensures
        document_text(ss) == layout_text(doc_lines(ss)),
    decreases ss.len(),
{
    if ss.len() > 0 {
        lemma_doc_layout(ss.drop_last());
        lemma_stmt_layout(ss.last().node);
        lemma_layout_concat(doc_lines(ss.drop_last()), stmt_lines(ss.last().node));
        assert(document_text(ss) =~= layout_text(doc_lines(ss)));
    }
}

// ---------------------------------------------------------------------------
// Reading words back.

pub open spec fn digit_bytes(x: Seq<u8>) -> bool {
    forall|k: int| 0 <= k < x.len() ==> is_digit_byte(#[trigger] x[k])
}

/// The decimal digits of `n` are ASCII digits that read back as `n`.
proof fn lemma_nat_digits(n: nat)
    ensures
        ascii_text(nat_str(n)),
        nat_str(n).len() >= 1,
        digit_bytes(ascii_of(nat_str(n))),
        digits_value(ascii_of(nat_str(n))) == n,
    decreases n,
{
    let d = digit_char((n % 10) as nat);
    assert(byte_of(d) == 48 + n % 10) by {
        assert(((48 + n % 10) as u8) as char == d);
    }
    if n < 10 {
        let x = ascii_of(nat_str(n));
        assert(x =~= seq![(48 + n) as u8]);
        assert(x.drop_last() =~= Seq::<u8>::empty());
        assert(digits_value(x.drop_last()) == 0);
        assert(x.last() == 48 + n);
        assert(digits_value(x) == digits_value(x.drop_last()) * 10 + (x.last() - 48));
    } else {
        lemma_nat_digits(n / 10);
        let s0 = nat_str(n / 10);
        let x0 = ascii_of(s0);
        let x = ascii_of(nat_str(n));
        assert(nat_str(n) == s0.push(d));
        assert(x =~= x0.push(byte_of(d)));
        assert(x.drop_last() =~= x0);
        assert forall|k: int| 0 <= k < nat_str(n).len() implies ascii_char(#[trigger] nat_str(n)[k]) by {
            if k < s0.len() {
                assert(nat_str(n)[k] == s0[k]);
            }
        }
        assert forall|k: int| 0 <= k < x.len() implies is_digit_byte(#[trigger] x[k]) by {
            if k < x0.len() {
                assert(x[k] == x0[k]);
            }
        }
        assert(x.last() == byte_of(d));
        assert(digits_value(x) == digits_value(x.drop_last()) * 10 + (x.last() - 48));
        assert(digits_value(x) == digits_value(x0) * 10 + (x.last() - 48));
        assert(n == (n / 10) * 10 + n % 10);
    }
}

/// A number printed by the formatter reads back as itself.
proof fn lemma_int_digits(n: i32)
    ensures
        ascii_text(int_str(n as int)),
        number_value(ascii_of(int_str(n as int))) == Some(n),
        int_str(n as int).len() >= 1,
        n < 0 ==> byte_of(int_str(n as int)[0]) == 45 && digit_bytes(ascii_of(int_str(n as int)).subrange(
            1,
            int_str(n as int).len() as int,
        )),
        n >= 0 ==> digit_bytes(ascii_of(int_str(n as int))),
{
    if n < 0 {
        let m = (-n) as nat;
        lemma_nat_digits(m);
        let s = int_str(n as int);
        let x = ascii_of(s);
        assert(s == seq!['-'] + nat_str(m));
        assert(x.subrange(1, x.len() as int) =~= ascii_of(nat_str(m)));
        assert(byte_of('-') == 45);
        assert(x[0] == 45);
        assert forall|k: int| 0 <= k < s.len() implies ascii_char(#[trigger] s[k]) by {
            if k > 0 {
                assert(s[k] == nat_str(m)[k - 1]);
            }
        }
    } else {
        lemma_nat_digits(n as nat);
        let x = ascii_of(int_str(n as int));
        if x.len() > 0 {
            assert(is_digit_byte(x[0]));
        }
    }
}

pub open spec fn word_ok(w: Word) -> bool {
    match w {
        Word::Text(s) => color_word(s),
        _ => true,
    }
}

/// The token kind the lexer reads a word as.
pub open spec fn word_kind(w: Word) -> TokenKindModel {
    match w {
        Word::Text(s) => if hex_word(s) {
            TokenKindModel::Color(s)
        } else {
            TokenKindModel::Ident(s)
        },
        Word::Num(n) => TokenKindModel::Number(n),
        Word::Open => TokenKindModel::LBrace,
        Word::Close => TokenKindModel::RBrace,
    }
}

proof fn lemma_scan_hex_to(b: Seq<u8>, i: int, le: int, m: int)
    requires
        i <= m <= le,
        forall|k: int| i <= k < m ==> is_hex_byte(#[trigger] b[k]),
        m == le || !is_hex_byte(b[m]),
    ensures
        scan_hex(b, i, le) == m,
    decreases m - i,
{
    if i < m {
        lemma_scan_hex_to(b, i + 1, le, m);
    }
}

proof fn lemma_scan_ident_to(b: Seq<u8>, i: int, le: int, m: int)
    requires
        i <= m <= le,
        forall|k: int| i <= k < m ==> is_ident_continue_byte(#[trigger] b[k]),
        m == le || !is_ident_continue_byte(b[m]),
    ensures
        scan_ident(b, i, le) == m,
    decreases m - i,
{
    if i < m {
        lemma_scan_ident_to(b, i + 1, le, m);
    }
}

proof fn lemma_scan_digits_to(b: Seq<u8>, i: int, le: int, m: int)
    requires
        i <= m <= le,
        forall|k: int| i <= k < m ==> is_digit_byte(#[trigger] b[k]),
        m == le || !is_digit_byte(b[m]),
    ensures
        scan_digits(b, i, le) == m,
    decreases m - i,
{
    if i < m {
        lemma_scan_digits_to(b, i + 1, le, m);
    }
}

/// ASCII text decodes back from its bytes.
proof fn lemma_ascii_decode(s: Seq<char>)
    requires
        ascii_text(s),
    ensures
        decode_utf8(ascii_of(s)) == s,
{
    lemma_encode_ascii(s);
    encode_utf8_decode_utf8(s);
}

/// The lexer reads a word followed by a space or the end of the line as the
/// word's token.
proof fn lemma_word_lex(b: Seq<u8>, ls: int, le: int, i: int, line: usize, w: Word)
    requires
        word_ok(w),
        0 <= i,
        i + word_text(w).len() <= le <= b.len(),
        b.subrange(i, i + word_text(w).len()) == ascii_of(word_text(w)),
        i + word_text(w).len() == le || b[i + word_text(w).len()] == 32,
    ensures
        word_text(w).len() >= 1,
        lex_line_from(b, ls, le, i, line) == prepend(
            tok(word_kind(w), line, i - ls + 1, word_text(w).len() as int),
            lex_line_from(b, ls, le, i + word_text(w).len(), line),
        ),
{
    let wt = word_text(w);
    let n = wt.len() as int;
    let m = i + n;
    assert forall|k: int| 0 <= k < n implies b[i + k] == byte_of(#[trigger] wt[k]) by {
        assert(b.subrange(i, m)[k] == b[i + k]);
    }
    match w {
        Word::Open => {
            reveal_strlit("{");
            assert(b[i] == byte_of('{'));
        },
        Word::Close => {
            reveal_strlit("}");
            assert(b[i] == byte_of('}'));
        },
        Word::Text(s) => {
            if hex_word(s) {
                assert(b[i] == 35);
                assert forall|k: int| i + 1 <= k < m implies is_hex_byte(#[trigger] b[k]) by {
                    assert(b[i + (k - i)] == byte_of(s[k - i]));
                }
                lemma_scan_hex_to(b, i + 1, le, m);
                lemma_ascii_decode(s);
                assert(text(b, i, m) == s);
            } else {
                assert(ident_word(s));
                assert(is_ident_start_byte(b[i]));
                assert forall|k: int| i + 1 <= k < m implies is_ident_continue_byte(#[trigger] b[k]) by {
                    assert(b[i + (k - i)] == byte_of(s[k - i]));
                }
                lemma_scan_ident_to(b, i + 1, le, m);
                lemma_ascii_decode(s);
                assert(text(b, i, m) == s);
            }
        },
        Word::Num(v) => {
            lemma_int_digits(v);
            let x = ascii_of(wt);
            if v < 0 {
                assert(b[i] == 45);
                assert forall|k: int| i + 1 <= k < m implies is_digit_byte(#[trigger] b[k]) by {
                    assert(x.subrange(1, n)[k - i - 1] == x[k - i]);
                    assert(b[i + (k - i)] == byte_of(wt[k - i]));
                }
                lemma_scan_digits_to(b, i + 1, le, m);
            } else {
                assert(is_digit_byte(x[0]));
                assert(b[i] == x[0]);
                assert forall|k: int| i <= k < m implies is_digit_byte(#[trigger] b[k]) by {
                    assert(b[i + (k - i)] == byte_of(wt[k - i]));
                    assert(x[k - i] == byte_of(wt[k - i]));
                }
                lemma_scan_digits_to(b, i, le, m);
            }
            assert(number_value(b.subrange(i, m)) == Some(v));
        },
    }
}

pub open spec fn kinds(ts: Seq<TokenModel>) -> Seq<TokenKindModel> {
    ts.map_values(|t: TokenModel| t.kind)
}

pub open spec fn words_kinds(ws: Seq<Word>) -> Seq<TokenKindModel> {
    ws.map_values(|w: Word| word_kind(w))
}

pub open spec fn words_ok(ws: Seq<Word>) -> bool {
    forall|k: int| 0 <= k < ws.len() ==> word_ok(#[trigger] ws[k])
}

/// The lexer reads words joined by single spaces as their tokens.
proof fn lemma_words_lex(b: Seq<u8>, ls: int, le: int, i: int, line: usize, ws: Seq<Word>)
    requires
        words_ok(ws),
        0 <= i,
        i + join_words(ws).len() == le,
        le <= b.len(),
        b.subrange(i, le) == ascii_of(join_words(ws)),
    ensures
        lex_line_from(b, ls, le, i, line) matches Ok(ts) && kinds(ts) == words_kinds(ws),
    decreases ws.len(),
{
    if ws.len() == 0 {
        assert(kinds(Seq::<TokenModel>::empty()) =~= words_kinds(ws));
    } else {
        let w = ws[0];
        let wt = word_text(w);
        let m = i + wt.len();
        assert(word_ok(ws[0]));
        if ws.len() == 1 {
            assert(join_words(ws) == wt);
            lemma_word_lex(b, ls, le, i, line, w);
            let t = tok(word_kind(w), line, i - ls + 1, wt.len() as int);
            assert(kinds(seq![t] + Seq::<TokenModel>::empty()) =~= words_kinds(ws));
        } else {
            let rest = ws.drop_first();
            let jr = join_words(rest);
            assert(join_words(ws) == wt + " "@ + jr);
            reveal_strlit(" ");
            let x = ascii_of(join_words(ws));
            assert(b.subrange(i, m) =~= ascii_of(wt)) by {
                assert forall|k: int| 0 <= k < wt.len() implies b.subrange(i, m)[k] == ascii_of(wt)[k] by {
                    assert(b.subrange(i, le)[k] == x[k]);
                    assert(join_words(ws)[k] == wt[k]);
                }
            }
            assert(b[m] == 32) by {
                assert(b.subrange(i, le)[wt.len() as int] == x[wt.len() as int]);
                assert(join_words(ws)[wt.len() as int] == ' ');
            }
            lemma_word_lex(b, ls, le, i, line, w);
            assert(words_ok(rest)) by {
                assert forall|k: int| 0 <= k < rest.len() implies word_ok(#[trigger] rest[k]) by {
                    assert(rest[k] == ws[k + 1]);
                }
            }
            assert(b.subrange(m + 1, le) =~= ascii_of(jr)) by {
                assert forall|k: int| 0 <= k < jr.len() implies b.subrange(m + 1, le)[k] == ascii_of(jr)[k] by {
                    assert(b.subrange(i, le)[wt.len() + 1 + k] == x[wt.len() + 1 + k]);
                    assert(join_words(ws)[wt.len() + 1 + k] == jr[k]);
                }
            }
            lemma_words_lex(b, ls, le, m + 1, line, rest);
            assert(lex_line_from(b, ls, le, m, line) == lex_line_from(b, ls, le, m + 1, line));
            let ts = lex_line_from(b, ls, le, m + 1, line)->Ok_0;
            let t = tok(word_kind(w), line, i - ls + 1, wt.len() as int);
            assert(kinds(ts).len() == words_kinds(rest).len());
            assert(ts.len() == rest.len());
            assert(kinds(seq![t] + ts) =~= words_kinds(ws)) by {
                assert forall|k: int| 0 <= k < ws.len() implies kinds(seq![t] + ts)[k] == words_kinds(ws)[k] by {
                    if k > 0 {
                        assert((seq![t] + ts)[k] == ts[k - 1]);
                        assert(kinds(ts)[k - 1] == words_kinds(rest)[k - 1]);
                        assert(rest[k - 1] == ws[k]);
                    } else {
                        assert((seq![t] + ts)[0] == t);
                    }
                }
            }
        }
    }
}

proof fn lemma_indent(n: nat)
    ensures
        indent_str(n).len() == 4 * n,
        forall|k: int| 0 <= k < indent_str(n).len() ==> #[trigger] indent_str(n)[k] == ' ',
    decreases n,
{
    reveal_strlit("    ");
    if n > 0 {
        lemma_indent((n - 1) as nat);
        let a = indent_str((n - 1) as nat);
        assert forall|k: int| 0 <= k < indent_str(n).len() implies #[trigger] indent_str(n)[k] == ' ' by {
            if k < a.len() {
                assert(indent_str(n)[k] == a[k]);
            } else {
                assert(indent_str(n)[k] == "    "@[k - a.len()]);
            }
        }
    }
}

proof fn lemma_spaces_lex(b: Seq<u8>, ls: int, le: int, i: int, line: usize, n: int)
    requires
        0 <= i,
        0 <= n,
        i + n <= le <= b.len(),
        forall|k: int| i <= k < i + n ==> #[trigger] b[k] == 32,
    ensures
        lex_line_from(b, ls, le, i, line) == lex_line_from(b, ls, le, i + n, line),
    decreases n,
{
    if n > 0 {
        assert(b[i] == 32);
        lemma_spaces_lex(b, ls, le, i + 1, line, n - 1);
    }
}

pub open spec fn line_content(l: Line) -> Seq<char> {
    indent_str(l.level) + join_words(l.words)
}

/// The lexer reads a line of the layout as the tokens of its words.
proof fn lemma_line_lex(b: Seq<u8>, s: int, e: int, line: usize, l: Line)
    requires
        words_ok(l.words),
        0 <= s,
        s + line_content(l).len() == e,
        e <= b.len(),
        b.subrange(s, e) == ascii_of(line_content(l)),
    ensures
        lex_line_from(b, s, e, s, line) matches Ok(ts) && kinds(ts) == words_kinds(l.words),
{
    let ind = indent_str(l.level);
    let jw = join_words(l.words);
    let c = line_content(l);
    lemma_indent(l.level);
    let n = ind.len() as int;
    assert forall|k: int| s <= k < s + n implies #[trigger] b[k] == 32 by {
        assert(b.subrange(s, e)[k - s] == ascii_of(c)[k - s]);
        assert(c[k - s] == ind[k - s]);
        assert(ind[k - s] == ' ');
    }
    lemma_spaces_lex(b, s, e, s, line, n);
    assert(b.subrange(s + n, e) =~= ascii_of(jw)) by {
        assert forall|k: int| 0 <= k < jw.len() implies b.subrange(s + n, e)[k] == ascii_of(jw)[k] by {
            assert(b.subrange(s, e)[n + k] == ascii_of(c)[n + k]);
            assert(c[n + k] == jw[k]);
        }
    }
    lemma_words_lex(b, s, e, s + n, line, l.words);
}

// ---------------------------------------------------------------------------
// Reading lines back.

/// A character that can stand inside a line: ASCII, and neither `\n` nor `\r`.
pub open spec fn safe_char(c: char) -> bool {
    ascii_char(c) && byte_of(c) != 10 && byte_of(c) != 13
}

pub open spec fn safe_text(s: Seq<char>) -> bool {
    forall|k: int| 0 <= k < s.len() ==> safe_char(#[trigger] s[k])
}

proof fn lemma_safe_concat(a: Seq<char>, c: Seq<char>)
    requires
        safe_text(a),
        safe_text(c),
    ensures
        safe_text(a + c),
{
    assert forall|k: int| 0 <= k < (a + c).len() implies safe_char(#[trigger] (a + c)[k]) by {
        if k < a.len() {
            assert((a + c)[k] == a[k]);
        } else {
            assert((a + c)[k] == c[k - a.len()]);
        }
    }
}

proof fn lemma_word_safe(w: Word)
    requires
        word_ok(w),
    ensures
        safe_text(word_text(w)),
{
    let wt = word_text(w);
    match w {
        Word::Open => {
            reveal_strlit("{");
            assert(byte_of('{') == 123);
        },
        Word::Close => {
            reveal_strlit("}");
            assert(byte_of('}') == 125);
        },
        Word::Text(s) => {
            assert forall|k: int| 0 <= k < s.len() implies safe_char(#[trigger] s[k]) by {
                assert(ascii_char(s[k]));
                if k > 0 {
                    if ident_word(s) {
                        assert(is_ident_continue_byte(byte_of(s[k])));
                    } else {
                        assert(is_hex_byte(byte_of(s[k])));
                    }
                }
            }
        },
        Word::Num(v) => {
            lemma_int_digits(v);
            let x = ascii_of(wt);
            assert forall|k: int| 0 <= k < wt.len() implies safe_char(#[trigger] wt[k]) by {
                assert(x[k] == byte_of(wt[k]));
                if v < 0 {
                    if k > 0 {
                        assert(x.subrange(1, wt.len() as int)[k - 1] == x[k]);
                    }
                }
            }
        },
    }
}

proof fn lemma_join_safe(ws: Seq<Word>)
    requires
        words_ok(ws),
    ensures
        safe_text(join_words(ws)),
    decreases ws.len(),
{
    if ws.len() > 0 {
        assert(word_ok(ws[0]));
        lemma_word_safe(ws[0]);
        if ws.len() > 1 {
            let rest = ws.drop_first();
            assert(words_ok(rest)) by {
                assert forall|k: int| 0 <= k < rest.len() implies word_ok(#[trigger] rest[k]) by {
                    assert(rest[k] == ws[k + 1]);
                }
            }
            lemma_join_safe(rest);
            reveal_strlit(" ");
            assert(safe_text(" "@)) by {
                assert(byte_of(' ') == 32);
            }
            lemma_safe_concat(word_text(ws[0]), " "@);
            lemma_safe_concat(word_text(ws[0]) + " "@, join_words(rest));
        }
    }
}

proof fn lemma_content_safe(l: Line)
    requires
        words_ok(l.words),
    ensures
        safe_text(line_content(l)),
{
    lemma_indent(l.level);
    assert(safe_text(indent_str(l.level))) by {
        assert forall|k: int| 0 <= k < indent_str(l.level).len() implies safe_char(
            #[trigger] indent_str(l.level)[k],
        ) by {
            assert(indent_str(l.level)[k] == ' ');
            assert(byte_of(' ') == 32);
        }
    }
    lemma_join_safe(l.words);
    lemma_safe_concat(indent_str(l.level), join_words(l.words));
}

pub open spec fn layout_ok(ls: Seq<Line>) -> bool {
    forall|k: int| 0 <= k < ls.len() ==> words_ok(#[trigger] ls[k].words)
}

pub open spec fn off(ls: Seq<Line>, k: int) -> int {
    layout_text(ls.take(k)).len() as int
}

proof fn lemma_layout_ascii(ls: Seq<Line>)
    requires
        layout_ok(ls),
    ensures
        ascii_text(layout_text(ls)),
    decreases ls.len(),
{
    if ls.len() > 0 {
        lemma_layout_ascii(ls.drop_last());
        assert(words_ok(ls.last().words));
        lemma_content_safe(ls.last());
        reveal_strlit("\n");
        let a = layout_text(ls.drop_last());
        let c = line_content(ls.last());
        let x = layout_text(ls);
        assert(x == a + (c + "\n"@));
        assert forall|k: int| 0 <= k < x.len() implies ascii_char(#[trigger] x[k]) by {
            if k < a.len() {
                assert(x[k] == a[k]);
            } else if k < a.len() + c.len() {
                assert(x[k] == c[k - a.len()]);
                assert(safe_char(c[k - a.len()]));
            } else {
                assert(x[k] == '\n');
            }
        }
    }
}

/// Where line `k` lies in the text of the layout.
proof fn lemma_layout_at(ls: Seq<Line>, k: int)
    requires
        0 <= k < ls.len(),
    ensures
        off(ls, k + 1) == off(ls, k) + line_content(ls[k]).len() + 1,
        off(ls, k + 1) <= layout_text(ls).len(),
        forall|j: int|
            0 <= j < line_content(ls[k]).len() ==> #[trigger] layout_text(ls)[off(ls, k) + j] == line_content(
                ls[k],
            )[j],
        layout_text(ls)[off(ls, k) + line_content(ls[k]).len()] == '\n',
{
    let a = ls.take(k);
    let rest = ls.skip(k + 1);
    assert(ls =~= a + (seq![ls[k]] + rest));
    lemma_layout_concat(a, seq![ls[k]] + rest);
    lemma_layout_concat(seq![ls[k]], rest);
    lemma_layout_one(ls[k]);
    assert(ls.take(k + 1) =~= a + seq![ls[k]]);
    lemma_layout_concat(a, seq![ls[k]]);
    reveal_strlit("\n");
    let x = layout_text(ls);
    let c = line_content(ls[k]);
    assert(x == layout_text(a) + ((c + "\n"@) + layout_text(rest)));
    assert forall|j: int| 0 <= j < c.len() implies #[trigger] x[off(ls, k) + j] == c[j] by {
        assert(x[layout_text(a).len() + j] == (c + "\n"@)[j]);
    }
    assert(x[off(ls, k) + c.len()] == (c + "\n"@)[c.len() as int]);
}

proof fn lemma_next_newline_at(b: Seq<u8>, p: int, m: int)
    requires
        0 <= p <= m < b.len(),
        forall|i: int| p <= i < m ==> #[trigger] b[i] != 10,
        b[m] == 10,
    ensures
        next_newline(b, p) == m,
    decreases m - p,
{
    if p < m {
        lemma_next_newline_at(b, p + 1, m);
    }
}

/// The lines `str::lines` finds in the text of a layout are its lines.
proof fn lemma_layout_lines(ls: Seq<Line>, k: int)
    requires
        layout_ok(ls),
        0 <= k <= ls.len(),
    ensures
        lines_from(ascii_of(layout_text(ls)), off(ls, k)).len() == ls.len() - k,
        forall|j: int|
            0 <= j < ls.len() - k ==> #[trigger] lines_from(ascii_of(layout_text(ls)), off(ls, k))[j] == (
                off(ls, k + j),
                off(ls, k + j) + line_content(ls[k + j]).len(),
            ),
    decreases ls.len() - k,
{
    let x = layout_text(ls);
    let b = ascii_of(x);
    if k == ls.len() {
        assert(ls.take(k) =~= ls);
        assert(lines_from(b, off(ls, k)) =~= Seq::<(int, int)>::empty());
    } else {
        lemma_layout_at(ls, k);
        assert(words_ok(ls[k].words));
        lemma_content_safe(ls[k]);
        let p = off(ls, k);
        let c = line_content(ls[k]);
        let m = p + c.len();
        assert forall|i: int| p <= i < m implies #[trigger] b[i] != 10 by {
            assert(x[p + (i - p)] == c[i - p]);
            assert(safe_char(c[i - p]));
        }
        assert(b[m] == 10) by {
            assert(x[m] == '\n');
        }
        lemma_next_newline_at(b, p, m);
        if m > p {
            assert(b[m - 1] != 13) by {
                assert(x[p + (m - 1 - p)] == c[m - 1 - p]);
                assert(safe_char(c[m - 1 - p]));
            }
        }
        assert(line_end(b, p, m) == m);
        lemma_layout_lines(ls, k + 1);
        let rest = lines_from(b, m + 1);
        assert(lines_from(b, p) == seq![(p, m)] + rest);
        assert forall|j: int| 0 <= j < ls.len() - k implies #[trigger] lines_from(b, p)[j] == (
            off(ls, k + j),
            off(ls, k + j) + line_content(ls[k + j]).len(),
        ) by {
            if j > 0 {
                assert(lines_from(b, p)[j] == rest[j - 1]);
                assert(k + 1 + (j - 1) == k + j);
            }
        }
    }
}

pub open spec fn layout_kinds_from(ls: Seq<Line>, k: int) -> Seq<TokenKindModel>
    decreases ls.len() - k,
{
    if k < 0 || k >= ls.len() {
        seq![]
    } else {
        words_kinds(ls[k].words) + layout_kinds_from(ls, k + 1)
    }
}

proof fn lemma_layout_lex(ls: Seq<Line>, idx: int)
    requires
        layout_ok(ls),
        0 <= idx <= ls.len(),
    ensures
        lex_lines(ascii_of(layout_text(ls)), lines(ascii_of(layout_text(ls))), idx) matches Ok(ts) && kinds(ts)
            == layout_kinds_from(ls, idx),
    decreases ls.len() - idx,
{
    let x = layout_text(ls);
    let b = ascii_of(x);
    lemma_layout_lines(ls, 0);
    assert(off(ls, 0) == 0) by {
        assert(ls.take(0) =~= Seq::<Line>::empty());
    }
    let r = lines(b);
    if idx == ls.len() {
        assert(kinds(Seq::<TokenModel>::empty()) =~= layout_kinds_from(ls, idx));
    } else {
        assert(r[idx] == (off(ls, idx), off(ls, idx) + line_content(ls[idx]).len()));
        lemma_layout_at(ls, idx);
        let p = off(ls, idx);
        let c = line_content(ls[idx]);
        assert(b.subrange(p, p + c.len()) =~= ascii_of(c)) by {
            assert forall|j: int| 0 <= j < c.len() implies b.subrange(p, p + c.len())[j] == ascii_of(c)[j] by {
                assert(x[p + j] == c[j]);
            }
        }
        assert(words_ok(ls[idx].words));
        lemma_line_lex(b, p, p + c.len(), (idx + 1) as usize, ls[idx]);
        lemma_layout_lex(ls, idx + 1);
        let t = lex_line_from(b, p, p + c.len(), p, (idx + 1) as usize)->Ok_0;
        let rest = lex_lines(b, r, idx + 1)->Ok_0;
        assert(kinds(t + rest) =~= kinds(t) + kinds(rest));
    }
}

/// The lexer reads the text of a layout as the tokens of its words, then
/// `Eof`.
pub proof fn lemma_layout_spec_lex(ls: Seq<Line>)
    requires
        layout_ok(ls),
    ensures
        spec_lex(encode_utf8(layout_text(ls))) matches Ok(ts) && kinds(ts) == layout_kinds_from(ls, 0).push(
            TokenKindModel::Eof,
        ),
{
    lemma_layout_ascii(ls);
    lemma_encode_ascii(layout_text(ls));
    lemma_layout_lex(ls, 0);
    let b = ascii_of(layout_text(ls));
    let t = lex_lines(b, lines(b), 0)->Ok_0;
    let eof = tok(TokenKindModel::Eof, (lines(b).len() + 1) as usize, 1, 0);
    assert(kinds(t.push(eof)) =~= kinds(t).push(TokenKindModel::Eof));
}

// ---------------------------------------------------------------------------
// The tokens of the formatted document.

proof fn lemma_lkf_shift(a: Seq<Line>, b: Seq<Line>, j: int)
    requires
        0 <= j <= b.len(),
    ensures
        layout_kinds_from(a + b, a.len() + j) == layout_kinds_from(b, j),
    decreases b.len() - j,
{
    if j < b.len() {
        lemma_lkf_shift(a, b, j + 1);
        assert((a + b)[a.len() + j] == b[j]);
    }
}

proof fn lemma_lkf_concat(a: Seq<Line>, b: Seq<Line>, k: int)
    requires
        0 <= k <= a.len(),
    ensures
        layout_kinds_from(a + b, k) == layout_kinds_from(a, k) + layout_kinds_from(b, 0),
    decreases a.len() - k,
{
    if k == a.len() {
        lemma_lkf_shift(a, b, 0);
        assert(layout_kinds_from(a, k) =~= Seq::<TokenKindModel>::empty());
        assert(layout_kinds_from(b, 0) =~= Seq::<TokenKindModel>::empty() + layout_kinds_from(b, 0));
    } else {
        lemma_lkf_concat(a, b, k + 1);
        assert((a + b)[k] == a[k]);
        assert(layout_kinds_from(a + b, k) =~= layout_kinds_from(a, k) + layout_kinds_from(b, 0));
    }
}

pub open spec fn lkinds(ls: Seq<Line>) -> Seq<TokenKindModel> {
    layout_kinds_from(ls, 0)
}

proof fn lemma_lkinds_concat(a: Seq<Line>, b: Seq<Line>)
    ensures
        lkinds(a + b) == lkinds(a) + lkinds(b),
{
    lemma_lkf_concat(a, b, 0);
}

proof fn lemma_lkinds_one(l: Line)
    ensures
        lkinds(seq![l]) == words_kinds(l.words),
{
    assert(layout_kinds_from(seq![l], 1) =~= Seq::<TokenKindModel>::empty());
    assert(lkinds(seq![l]) =~= words_kinds(l.words));
}

/// The tokens an item is read back as.
pub open spec fn item_kinds(item: ItemModel) -> Seq<TokenKindModel>
    decreases item, 1nat,
{
    match item {
        ItemModel::Group { items, .. } => words_kinds(leaf_words(item)) + items_kinds(items) + seq![
            TokenKindModel::RBrace,
        ],
        _ => words_kinds(leaf_words(item)),
    }
}

pub open spec fn items_kinds(items: Seq<SpannedModel<ItemModel>>) -> Seq<TokenKindModel>
    decreases items, 0nat,
{
    if items.len() == 0 {
        seq![]
    } else {
        items_kinds(items.drop_last()) + item_kinds(items.last().node)
    }
}

proof fn lemma_close_blank_kinds(level: nat)
    ensures
        lkinds(seq![Line { level, words: seq![Word::Close] }, blank()]) == seq![TokenKindModel::RBrace],
{
    let c = Line { level, words: seq![Word::Close] };
    assert(seq![c, blank()] =~= seq![c] + seq![blank()]);
    lemma_lkinds_concat(seq![c], seq![blank()]);
    lemma_lkinds_one(c);
    lemma_lkinds_one(blank());
    assert(words_kinds(seq![Word::Close]) =~= seq![TokenKindModel::RBrace]);
    assert(words_kinds(blank().words) =~= Seq::<TokenKindModel>::empty());
    assert(lkinds(seq![c, blank()]) =~= seq![TokenKindModel::RBrace]);
}

proof fn lemma_item_kinds(item: ItemModel, level: nat)
    ensures
        lkinds(item_lines(item, level)) == item_kinds(item),
    decreases item, 1nat,
{
    let head = seq![Line { level, words: leaf_words(item) }];
    lemma_lkinds_one(head[0]);
    match item {
        ItemModel::Group { items, .. } => {
            let close = seq![Line { level, words: seq![Word::Close] }, blank()];
            lemma_items_kinds(items, level);
            lemma_lkinds_concat(head + items_lines(items, level), close);
            lemma_lkinds_concat(head, items_lines(items, level));
            lemma_close_blank_kinds(level);
        },
        _ => {},
    }
}

proof fn lemma_items_kinds(items: Seq<SpannedModel<ItemModel>>, level: nat)
    ensures
        lkinds(items_lines(items, level)) == items_kinds(items),
    decreases items, 0nat,
{
    if items.len() == 0 {
        assert(lkinds(Seq::<Line>::empty()) =~= Seq::<TokenKindModel>::empty());
    } else {
        lemma_items_kinds(items.drop_last(), level);
        lemma_item_kinds(items.last().node, level + 1);
        lemma_lkinds_concat(items_lines(items.drop_last(), level), item_lines(items.last().node, level + 1));
    }
}

pub open spec fn entries_kinds(es: Seq<PaletteEntryModel>) -> Seq<TokenKindModel>
    decreases es.len(),
{
    if es.len() == 0 {
        seq![]
    } else {
        entries_kinds(es.drop_last()) + words_kinds(seq![t(es.last().name), t(es.last().color.raw)])
    }
}

pub open spec fn refs_kinds(fs: Seq<FrameRefModel>) -> Seq<TokenKindModel>
    decreases fs.len(),
{
    if fs.len() == 0 {
        seq![]
    } else {
        refs_kinds(fs.drop_last()) + words_kinds(seq![t(fs.last().name)])
    }
}

/// The tokens a statement is read back as.
pub open spec fn stmt_kinds(s: StmtModel) -> Seq<TokenKindModel> {
    let head = words_kinds(head_words(s));
    match s {
        StmtModel::Palette { entries } => head + entries_kinds(entries) + seq![TokenKindModel::RBrace],
        StmtModel::Group { items, .. } => head + items_kinds(items) + seq![TokenKindModel::RBrace],
        StmtModel::Frame { items, .. } => head + items_kinds(items) + seq![TokenKindModel::RBrace],
        StmtModel::Animation { frames, .. } => head + refs_kinds(frames) + seq![TokenKindModel::RBrace],
        StmtModel::Item(item) => item_kinds(item),
        _ => head,
    }
}

pub open spec fn doc_kinds(ss: Seq<SpannedModel<StmtModel>>) -> Seq<TokenKindModel>
    decreases ss.len(),
{
    if ss.len() == 0 {
        seq![]
    } else {
        doc_kinds(ss.drop_last()) + stmt_kinds(ss.last().node)
    }
}

proof fn lemma_entries_kinds(es: Seq<PaletteEntryModel>)
    ensures
        lkinds(entries_lines(es)) == entries_kinds(es),
    decreases es.len(),
{
    if es.len() == 0 {
        assert(lkinds(Seq::<Line>::empty()) =~= Seq::<TokenKindModel>::empty());
    } else {
        lemma_entries_kinds(es.drop_last());
        let l = Line { level: 1, words: seq![t(es.last().name), t(es.last().color.raw)] };
        lemma_lkinds_concat(entries_lines(es.drop_last()), seq![l]);
        lemma_lkinds_one(l);
    }
}

proof fn lemma_refs_kinds(fs: Seq<FrameRefModel>)
    ensures
        lkinds(refs_lines(fs)) == refs_kinds(fs),
    decreases fs.len(),
{
    if fs.len() == 0 {
        assert(lkinds(Seq::<Line>::empty()) =~= Seq::<TokenKindModel>::empty());
    } else {
        lemma_refs_kinds(fs.drop_last());
        let l = Line { level: 1, words: seq![t(fs.last().name)] };
        lemma_lkinds_concat(refs_lines(fs.drop_last()), seq![l]);
        lemma_lkinds_one(l);
    }
}

proof fn lemma_stmt_kinds(s: StmtModel)
    ensures
        lkinds(stmt_lines(s)) == stmt_kinds(s),
{
    let head = seq![Line { level: 0, words: head_words(s) }];
    let close = seq![Line { level: 0, words: seq![Word::Close] }, blank()];
    lemma_lkinds_one(head[0]);
    lemma_lkinds_one(blank());
    assert(words_kinds(blank().words) =~= Seq::<TokenKindModel>::empty());
    lemma_close_blank_kinds(0);
    match s {
        StmtModel::Palette { entries } => {
            lemma_entries_kinds(entries);
            lemma_lkinds_concat(head + entries_lines(entries), close);
            lemma_lkinds_concat(head, entries_lines(entries));
        },
        StmtModel::Group { items, .. } => {
            lemma_items_kinds(items, 0);
            lemma_lkinds_concat(head + items_lines(items, 0), close);
            lemma_lkinds_concat(head, items_lines(items, 0));
        },
        StmtModel::Frame { items, .. } => {
            lemma_items_kinds(items, 0);
            lemma_lkinds_concat(head + items_lines(items, 0), close);
            lemma_lkinds_concat(head, items_lines(items, 0));
        },
        StmtModel::Animation { frames, .. } => {
            lemma_refs_kinds(frames);
            lemma_lkinds_concat(head + refs_lines(frames), close);
            lemma_lkinds_concat(head, refs_lines(frames));
        },
        StmtModel::Item(item) => {
            lemma_item_kinds(item, 0);
            lemma_lkinds_concat(item_lines(item, 0), seq![blank()]);
            assert(item_kinds(item) + Seq::<TokenKindModel>::empty() =~= item_kinds(item));
        },
        _ => {
            lemma_lkinds_concat(head, seq![blank()]);
            assert(words_kinds(head_words(s)) + Seq::<TokenKindModel>::empty() =~= words_kinds(head_words(s)));
        },
    }
}

proof fn lemma_doc_kinds(ss: Seq<SpannedModel<StmtModel>>)
    ensures
        lkinds(doc_lines(ss)) == doc_kinds(ss),
    decreases ss.len(),
{
    if ss.len() == 0 {
        assert(lkinds(Seq::<Line>::empty()) =~= Seq::<TokenKindModel>::empty());
    } else {
        lemma_doc_kinds(ss.drop_last());
        lemma_stmt_kinds(ss.last().node);
        lemma_lkinds_concat(doc_lines(ss.drop_last()), stmt_lines(ss.last().node));
    }
}

// ---------------------------------------------------------------------------
// The layout of a parsed document holds words only.

/// Lowercase letters and `_` from `i` on.
pub open spec fn lower_from(s: Seq<char>, i: int) -> bool
    decreases s.len() - i,
{
    if i < 0 || i >= s.len() {
        true
    } else {
        (97 <= (s[i] as u32) <= 122 || (s[i] as u32) == 95) && lower_from(s, i + 1)
    }
}

proof fn lemma_lower_from(s: Seq<char>, i: int)
    requires
        0 <= i,
        lower_from(s, i),
    ensures
        forall|k: int| i <= k < s.len() ==> 97 <= (#[trigger] s[k] as u32) <= 122 || (s[k] as u32) == 95,
    decreases s.len() - i,
{
    if i < s.len() {
        lemma_lower_from(s, i + 1);
    }
}

proof fn lemma_lower_word(s: Seq<char>)
    requires
        s.len() >= 1,
        lower_from(s, 0),
    ensures
        ident_word(s),
{
    lemma_lower_from(s, 0);
    assert forall|k: int| 0 <= k < s.len() implies ascii_char(#[trigger] s[k]) by {
        assert(97 <= (s[k] as u32) <= 122 || (s[k] as u32) == 95);
    }
    assert forall|k: int| 1 <= k < s.len() implies is_ident_continue_byte(byte_of(#[trigger] s[k])) by {
        assert(97 <= (s[k] as u32) <= 122 || (s[k] as u32) == 95);
    }
}

/// The keywords the formatter prints are name words.
proof fn lemma_keywords()
    ensures
        ident_word("pixel"@),
        ident_word("line"@),
        ident_word("rect"@),
        ident_word("fill"@),
        ident_word("circle"@),
        ident_word("group"@),
        ident_word("at"@),
        ident_word("canvas"@),
        ident_word("background"@),
        ident_word("strict_palette"@),
        ident_word("true"@),
        ident_word("false"@),
        ident_word("palette"@),
        ident_word("frame"@),
        ident_word("animation"@),
        ident_word("fps"@),
{
    reveal_with_fuel(lower_from, 16);
    reveal_strlit("pixel");
    lemma_lower_word("pixel"@);
    reveal_strlit("line");
    lemma_lower_word("line"@);
    reveal_strlit("rect");
    lemma_lower_word("rect"@);
    reveal_strlit("fill");
    lemma_lower_word("fill"@);
    reveal_strlit("circle");
    lemma_lower_word("circle"@);
    reveal_strlit("group");
    lemma_lower_word("group"@);
    reveal_strlit("at");
    lemma_lower_word("at"@);
    reveal_strlit("canvas");
    lemma_lower_word("canvas"@);
    reveal_strlit("background");
    lemma_lower_word("background"@);
    reveal_strlit("strict_palette");
    lemma_lower_word("strict_palette"@);
    reveal_strlit("true");
    lemma_lower_word("true"@);
    reveal_strlit("false");
    lemma_lower_word("false"@);
    reveal_strlit("palette");
    lemma_lower_word("palette"@);
    reveal_strlit("frame");
    lemma_lower_word("frame"@);
    reveal_strlit("animation");
    lemma_lower_word("animation"@);
    reveal_strlit("fps");
    lemma_lower_word("fps"@);
}

proof fn lemma_layout_ok_concat(a: Seq<Line>, b: Seq<Line>)
    requires
        layout_ok(a),
        layout_ok(b),
    ensures
        layout_ok(a + b),
{
    assert forall|k: int| 0 <= k < (a + b).len() implies words_ok(#[trigger] (a + b)[k].words) by {
        if k < a.len() {
            assert((a + b)[k] == a[k]);
        } else {
            assert((a + b)[k] == b[k - a.len()]);
        }
    }
}

proof fn lemma_layout_ok_one(l: Line)
    requires
        words_ok(l.words),
    ensures
        layout_ok(seq![l]),
{
    assert forall|k: int| 0 <= k < seq![l].len() implies words_ok(#[trigger] seq![l][k].words) by {
        assert(seq![l][k] == l);
    }
}

proof fn lemma_close_ok(level: nat)
    ensures
        layout_ok(seq![Line { level, words: seq![Word::Close] }, blank()]),
{
    let c = Line { level, words: seq![Word::Close] };
    assert(words_ok(c.words)) by {
        assert forall|k: int| 0 <= k < c.words.len() implies word_ok(#[trigger] c.words[k]) by {
            assert(c.words[k] == Word::Close);
        }
    }
    assert(words_ok(blank().words));
    lemma_layout_ok_one(c);
    lemma_layout_ok_one(blank());
    lemma_layout_ok_concat(seq![c], seq![blank()]);
    assert(seq![c] + seq![blank()] =~= seq![c, blank()]);
}

proof fn lemma_leaf_words_ok(item: ItemModel)
    requires
        item_readable(item),
    ensures
        words_ok(leaf_words(item)),
{
    lemma_keywords();
    let ws = leaf_words(item);
    assert forall|k: int| 0 <= k < ws.len() implies word_ok(#[trigger] ws[k]) by {
        if k > 0 && k < ws.len() - 1 {
            assert(ws[k] is Num || ws[k] == t("at"@) || (item is Group && ws[k] == t(item->Group_name)));
        }
    }
}

proof fn lemma_item_lines_ok(item: ItemModel, level: nat)
    requires
        item_readable(item),
    ensures
        layout_ok(item_lines(item, level)),
    decreases item, 1nat,
{
    lemma_leaf_words_ok(item);
    let head = seq![Line { level, words: leaf_words(item) }];
    lemma_layout_ok_one(head[0]);
    if let ItemModel::Group { items, .. } = item {
        lemma_items_lines_ok(items, level);
        lemma_close_ok(level);
        lemma_layout_ok_concat(head, items_lines(items, level));
        lemma_layout_ok_concat(head + items_lines(items, level), seq![Line { level, words: seq![Word::Close] }, blank()]);
    }
}

proof fn lemma_items_lines_ok(items: Seq<SpannedModel<ItemModel>>, level: nat)
    requires
        items_readable(items, 0),
    ensures
        layout_ok(items_lines(items, level)),
    decreases items, 0nat,
{
    if items.len() > 0 {
        lemma_items_readable_init(items, 0);
        lemma_items_lines_ok(items.drop_last(), level);
        lemma_items_readable_at(items, 0, items.len() - 1);
        lemma_item_lines_ok(items.last().node, level + 1);
        lemma_layout_ok_concat(items_lines(items.drop_last(), level), item_lines(items.last().node, level + 1));
    }
}

proof fn lemma_items_readable_at(items: Seq<SpannedModel<ItemModel>>, i: int, k: int)
    requires
        0 <= i <= k < items.len(),
        items_readable(items, i),
    ensures
        item_readable(items[k].node),
    decreases k - i,
{
    if i < k {
        lemma_items_readable_at(items, i + 1, k);
    }
}

proof fn lemma_items_readable_init(items: Seq<SpannedModel<ItemModel>>, i: int)
    requires
        items.len() > 0,
        0 <= i <= items.len() - 1,
        items_readable(items, i),
    ensures
        items_readable(items.drop_last(), i),
    decreases items.len() - i,
{
    if i < items.len() - 1 {
        lemma_items_readable_init(items, i + 1);
        assert(items.drop_last()[i] == items[i]);
    }
}

proof fn lemma_entries_lines_ok(es: Seq<PaletteEntryModel>)
    requires
        entries_words(es),
    ensures
        layout_ok(entries_lines(es)),
    decreases es.len(),
{
    if es.len() > 0 {
        let init = es.drop_last();
        assert(entries_words(init)) by {
            assert forall|k: int| 0 <= k < init.len() implies ident_word(#[trigger] init[k].name) && color_word(
                init[k].color.raw,
            ) by {
                assert(init[k] == es[k]);
                assert(ident_word(es[k].name) && color_word(es[k].color.raw));
            }
        }
        lemma_entries_lines_ok(init);
        let e = es.last();
        assert(ident_word(es[es.len() - 1].name) && color_word(es[es.len() - 1].color.raw));
        let l = Line { level: 1, words: seq![t(e.name), t(e.color.raw)] };
        assert(words_ok(l.words)) by {
            assert forall|k: int| 0 <= k < l.words.len() implies word_ok(#[trigger] l.words[k]) by {}
        }
        lemma_layout_ok_one(l);
        lemma_layout_ok_concat(entries_lines(init), seq![l]);
    }
}

proof fn lemma_refs_lines_ok(fs: Seq<FrameRefModel>)
    requires
        forall|k: int| 0 <= k < fs.len() ==> ident_word(#[trigger] fs[k].name),
    ensures
        layout_ok(refs_lines(fs)),
    decreases fs.len(),
{
    if fs.len() > 0 {
        let init = fs.drop_last();
        assert forall|k: int| 0 <= k < init.len() implies ident_word(#[trigger] init[k].name) by {
            assert(init[k] == fs[k]);
        }
        lemma_refs_lines_ok(init);
        assert(ident_word(fs[fs.len() - 1].name));
        let l = Line { level: 1, words: seq![t(fs.last().name)] };
        assert(words_ok(l.words)) by {
            assert forall|k: int| 0 <= k < l.words.len() implies word_ok(#[trigger] l.words[k]) by {}
        }
        lemma_layout_ok_one(l);
        lemma_layout_ok_concat(refs_lines(init), seq![l]);
    }
}

proof fn lemma_stmt_lines_ok(s: StmtModel)
    requires
        stmt_readable(s),
    ensures
        layout_ok(stmt_lines(s)),
{
    lemma_keywords();
    let hw = head_words(s);
    let close = seq![Line { level: 0, words: seq![Word::Close] }, blank()];
    lemma_close_ok(0);
    assert(words_ok(blank().words));
    lemma_layout_ok_one(blank());
    if let StmtModel::Item(item) = s {
        lemma_item_lines_ok(item, 0);
        lemma_layout_ok_concat(item_lines(item, 0), seq![blank()]);
    } else {
        assert(words_ok(hw)) by {
            assert forall|k: int| 0 <= k < hw.len() implies word_ok(#[trigger] hw[k]) by {
                match s {
                    StmtModel::StrictPalette { value } => {
                        if k == 1 {
                            assert(ident_word(bool_str(value)));
                        }
                    },
                    _ => {},
                }
            }
        }
        let head = seq![Line { level: 0, words: hw }];
        lemma_layout_ok_one(head[0]);
        match s {
            StmtModel::Palette { entries } => {
                lemma_entries_lines_ok(entries);
                lemma_layout_ok_concat(head, entries_lines(entries));
                lemma_layout_ok_concat(head + entries_lines(entries), close);
            },
            StmtModel::Group { items, .. } => {
                lemma_items_lines_ok(items, 0);
                lemma_layout_ok_concat(head, items_lines(items, 0));
                lemma_layout_ok_concat(head + items_lines(items, 0), close);
            },
            StmtModel::Frame { items, .. } => {
                lemma_items_lines_ok(items, 0);
                lemma_layout_ok_concat(head, items_lines(items, 0));
                lemma_layout_ok_concat(head + items_lines(items, 0), close);
            },
            StmtModel::Animation { frames, .. } => {
                lemma_refs_lines_ok(frames);
                lemma_layout_ok_concat(head, refs_lines(frames));
                lemma_layout_ok_concat(head + refs_lines(frames), close);
            },
            _ => {
                lemma_layout_ok_concat(head, seq![blank()]);
            },
        }
    }
}

proof fn lemma_doc_lines_ok(ss: Seq<SpannedModel<StmtModel>>)
    requires
        forall|k: int| 0 <= k < ss.len() ==> stmt_readable(#[trigger] ss[k].node),
    ensures
        layout_ok(doc_lines(ss)),
    decreases ss.len(),
{
    if ss.len() > 0 {
        let init = ss.drop_last();
        assert forall|k: int| 0 <= k < init.len() implies stmt_readable(#[trigger] init[k].node) by {
            assert(init[k] == ss[k]);
        }
        lemma_doc_lines_ok(init);
        assert(stmt_readable(ss[ss.len() - 1].node));
        lemma_stmt_lines_ok(ss.last().node);
        lemma_layout_ok_concat(doc_lines(init), stmt_lines(ss.last().node));
    }
}

// ---------------------------------------------------------------------------
// Folds read from the front.

proof fn lemma_items_text_cons(a: SpannedModel<ItemModel>, r: Seq<SpannedModel<ItemModel>>, level: nat)
    ensures
        items_text(seq![a] + r, level) == indent_str(level + 1) + item_text(a.node, level + 1) + "\n"@ + items_text(
            r,
            level,
        ),
    decreases r.len(),
{
    let all = seq![a] + r;
    if r.len() == 0 {
        assert(all =~= seq![a]);
        assert(all.drop_last() =~= Seq::<SpannedModel<ItemModel>>::empty());
        assert(items_text(all.drop_last(), level) == Seq::<char>::empty());
        assert(items_text(r, level) == Seq::<char>::empty());
        assert(items_text(all, level) =~= indent_str(level + 1) + item_text(a.node, level + 1) + "\n"@ + items_text(
            r,
            level,
        ));
    } else {
        lemma_items_text_cons(a, r.drop_last(), level);
        assert(all.drop_last() =~= seq![a] + r.drop_last());
        assert(all.last() == r.last());
        assert(items_text(all, level) =~= indent_str(level + 1) + item_text(a.node, level + 1) + "\n"@ + items_text(
            r,
            level,
        ));
    }
}

proof fn lemma_items_kinds_cons(a: SpannedModel<ItemModel>, r: Seq<SpannedModel<ItemModel>>)
    ensures
        items_kinds(seq![a] + r) == item_kinds(a.node) + items_kinds(r),
    decreases r.len(),
{
    let all = seq![a] + r;
    if r.len() == 0 {
        assert(all.drop_last() =~= Seq::<SpannedModel<ItemModel>>::empty());
        assert(items_kinds(all.drop_last()) == Seq::<TokenKindModel>::empty());
        assert(items_kinds(r) == Seq::<TokenKindModel>::empty());
        assert(items_kinds(all) =~= item_kinds(a.node) + items_kinds(r));
    } else {
        lemma_items_kinds_cons(a, r.drop_last());
        assert(all.drop_last() =~= seq![a] + r.drop_last());
        assert(all.last() == r.last());
        assert(items_kinds(all) =~= item_kinds(a.node) + items_kinds(r));
    }
}

proof fn lemma_entries_text_cons(a: PaletteEntryModel, r: Seq<PaletteEntryModel>)
    ensures
        entries_text(seq![a] + r, 0) == indent_str(1) + a.name + " "@ + a.color.raw + "\n"@ + entries_text(r, 0),
    decreases r.len(),
{
    let all = seq![a] + r;
    if r.len() == 0 {
        assert(all.drop_last() =~= Seq::<PaletteEntryModel>::empty());
        assert(entries_text(all.drop_last(), 0) == Seq::<char>::empty());
        assert(entries_text(r, 0) == Seq::<char>::empty());
        assert(entries_text(all, 0) =~= indent_str(1) + a.name + " "@ + a.color.raw + "\n"@ + entries_text(r, 0));
    } else {
        lemma_entries_text_cons(a, r.drop_last());
        assert(all.drop_last() =~= seq![a] + r.drop_last());
        assert(all.last() == r.last());
        assert(entries_text(all, 0) =~= indent_str(1) + a.name + " "@ + a.color.raw + "\n"@ + entries_text(r, 0));
    }
}

proof fn lemma_entries_kinds_cons(a: PaletteEntryModel, r: Seq<PaletteEntryModel>)
    ensures
        entries_kinds(seq![a] + r) == words_kinds(seq![t(a.name), t(a.color.raw)]) + entries_kinds(r),
    decreases r.len(),
{
    let all = seq![a] + r;
    if r.len() == 0 {
        assert(all.drop_last() =~= Seq::<PaletteEntryModel>::empty());
        assert(entries_kinds(all.drop_last()) == Seq::<TokenKindModel>::empty());
        assert(entries_kinds(r) == Seq::<TokenKindModel>::empty());
        assert(entries_kinds(all) =~= words_kinds(seq![t(a.name), t(a.color.raw)]) + entries_kinds(r));
    } else {
        lemma_entries_kinds_cons(a, r.drop_last());
        assert(all.drop_last() =~= seq![a] + r.drop_last());
        assert(all.last() == r.last());
        assert(entries_kinds(all) =~= words_kinds(seq![t(a.name), t(a.color.raw)]) + entries_kinds(r));
    }
}

proof fn lemma_refs_text_cons(a: FrameRefModel, r: Seq<FrameRefModel>)
    ensures
        refs_text(seq![a] + r, 0) == indent_str(1) + a.name + "\n"@ + refs_text(r, 0),
    decreases r.len(),
{
    let all = seq![a] + r;
    if r.len() == 0 {
        assert(all.drop_last() =~= Seq::<FrameRefModel>::empty());
        assert(refs_text(all.drop_last(), 0) == Seq::<char>::empty());
        assert(refs_text(r, 0) == Seq::<char>::empty());
        assert(refs_text(all, 0) =~= indent_str(1) + a.name + "\n"@ + refs_text(r, 0));
    } else {
        lemma_refs_text_cons(a, r.drop_last());
        assert(all.drop_last() =~= seq![a] + r.drop_last());
        assert(all.last() == r.last());
        assert(refs_text(all, 0) =~= indent_str(1) + a.name + "\n"@ + refs_text(r, 0));
    }
}

proof fn lemma_refs_kinds_cons(a: FrameRefModel, r: Seq<FrameRefModel>)
    ensures
        refs_kinds(seq![a] + r) == words_kinds(seq![t(a.name)]) + refs_kinds(r),
    decreases r.len(),
{
    let all = seq![a] + r;
    if r.len() == 0 {
        assert(all.drop_last() =~= Seq::<FrameRefModel>::empty());
        assert(refs_kinds(all.drop_last()) == Seq::<TokenKindModel>::empty());
        assert(refs_kinds(r) == Seq::<TokenKindModel>::empty());
        assert(refs_kinds(all) =~= words_kinds(seq![t(a.name)]) + refs_kinds(r));
    } else {
        lemma_refs_kinds_cons(a, r.drop_last());
        assert(all.drop_last() =~= seq![a] + r.drop_last());
        assert(all.last() == r.last());
        assert(refs_kinds(all) =~= words_kinds(seq![t(a.name)]) + refs_kinds(r));
    }
}

proof fn lemma_doc_text_cons(a: SpannedModel<StmtModel>, r: Seq<SpannedModel<StmtModel>>)
    ensures
        document_text(seq![a] + r) == stmt_text(a.node, 0) + "\n"@ + document_text(r),
    decreases r.len(),
{
    let all = seq![a] + r;
    if r.len() == 0 {
        assert(all.drop_last() =~= Seq::<SpannedModel<StmtModel>>::empty());
        assert(document_text(all.drop_last()) == Seq::<char>::empty());
        assert(document_text(r) == Seq::<char>::empty());
        assert(document_text(all) =~= stmt_text(a.node, 0) + "\n"@ + document_text(r));
    } else {
        lemma_doc_text_cons(a, r.drop_last());
        assert(all.drop_last() =~= seq![a] + r.drop_last());
        assert(all.last() == r.last());
        assert(document_text(all) =~= stmt_text(a.node, 0) + "\n"@ + document_text(r));
    }
}

proof fn lemma_doc_kinds_cons(a: SpannedModel<StmtModel>, r: Seq<SpannedModel<StmtModel>>)
    ensures
        doc_kinds(seq![a] + r) == stmt_kinds(a.node) + doc_kinds(r),
    decreases r.len(),
{
    let all = seq![a] + r;
    if r.len() == 0 {
        assert(all.drop_last() =~= Seq::<SpannedModel<StmtModel>>::empty());
        assert(doc_kinds(all.drop_last()) == Seq::<TokenKindModel>::empty());
        assert(doc_kinds(r) == Seq::<TokenKindModel>::empty());
        assert(doc_kinds(all) =~= stmt_kinds(a.node) + doc_kinds(r));
    } else {
        lemma_doc_kinds_cons(a, r.drop_last());
        assert(all.drop_last() =~= seq![a] + r.drop_last());
        assert(all.last() == r.last());
        assert(doc_kinds(all) =~= stmt_kinds(a.node) + doc_kinds(r));
    }
}

// ---------------------------------------------------------------------------
// Documents apart from source positions.

pub open spec fn no_span() -> Span {
    Span { line: 0, column: 0, len: 0 }
}

pub open spec fn bare_color(c: ColorModel) -> ColorModel {
    ColorModel { raw: c.raw, span: no_span() }
}

/// The item with every source position dropped.
pub open spec fn bare_item(item: ItemModel) -> ItemModel
    decreases item, 1nat,
{
    match item {
        ItemModel::Pixel { x, y, color } => ItemModel::Pixel { x, y, color: bare_color(color) },
        ItemModel::Line { x1, y1, x2, y2, color } => ItemModel::Line { x1, y1, x2, y2, color: bare_color(color) },
        ItemModel::Rect { x, y, w, h, color } => ItemModel::Rect { x, y, w, h, color: bare_color(color) },
        ItemModel::Fill { x, y, color } => ItemModel::Fill { x, y, color: bare_color(color) },
        ItemModel::Circle { cx, cy, r, color } => ItemModel::Circle { cx, cy, r, color: bare_color(color) },
        ItemModel::Group { name, x, y, items } => ItemModel::Group { name, x, y, items: bare_items(items) },
    }
}

pub open spec fn bare_spanned_item(a: SpannedModel<ItemModel>) -> SpannedModel<ItemModel> {
    SpannedModel { node: bare_item(a.node), span: no_span() }
}

pub open spec fn bare_items(items: Seq<SpannedModel<ItemModel>>) -> Seq<SpannedModel<ItemModel>>
    decreases items, 0nat,
{
    if items.len() == 0 {
        seq![]
    } else {
        bare_items(items.drop_last()).push(
            SpannedModel { node: bare_item(items.last().node), span: no_span() },
        )
    }
}

pub open spec fn bare_entry(e: PaletteEntryModel) -> PaletteEntryModel {
    PaletteEntryModel { name: e.name, color: bare_color(e.color), span: no_span() }
}

pub open spec fn bare_entries(es: Seq<PaletteEntryModel>) -> Seq<PaletteEntryModel> {
    es.map_values(|e: PaletteEntryModel| bare_entry(e))
}

pub open spec fn bare_refs(fs: Seq<FrameRefModel>) -> Seq<FrameRefModel> {
    fs.map_values(|f: FrameRefModel| FrameRefModel { name: f.name, span: no_span() })
}

/// The statement with every source position dropped.
pub open spec fn bare_stmt(s: StmtModel) -> StmtModel {
    match s {
        StmtModel::Background { color } => StmtModel::Background { color: bare_color(color) },
        StmtModel::Palette { entries } => StmtModel::Palette { entries: bare_entries(entries) },
        StmtModel::Group { name, x, y, items } => StmtModel::Group { name, x, y, items: bare_items(items) },
        StmtModel::Frame { name, items } => StmtModel::Frame { name, items: bare_items(items) },
        StmtModel::Animation { name, fps, frames } => StmtModel::Animation { name, fps, frames: bare_refs(frames) },
        StmtModel::Item(item) => StmtModel::Item(bare_item(item)),
        _ => s,
    }
}

/// The document with every source position dropped.
pub open spec fn bare_doc(ss: Seq<SpannedModel<StmtModel>>) -> Seq<SpannedModel<StmtModel>> {
    ss.map_values(|a: SpannedModel<StmtModel>| SpannedModel { node: bare_stmt(a.node), span: no_span() })
}

proof fn lemma_bare_items_cons(a: SpannedModel<ItemModel>, r: Seq<SpannedModel<ItemModel>>)
    ensures
        bare_items(seq![a] + r) == seq![bare_spanned_item(a)] + bare_items(r),
    decreases r.len(),
{
    let all = seq![a] + r;
    if r.len() == 0 {
        assert(all.drop_last() =~= Seq::<SpannedModel<ItemModel>>::empty());
        assert(bare_items(all.drop_last()) == Seq::<SpannedModel<ItemModel>>::empty());
        assert(bare_items(r) == Seq::<SpannedModel<ItemModel>>::empty());
        assert(bare_items(all) =~= seq![bare_spanned_item(a)] + bare_items(r));
    } else {
        lemma_bare_items_cons(a, r.drop_last());
        assert(all.drop_last() =~= seq![a] + r.drop_last());
        assert(all.last() == r.last());
        assert(bare_items(all) =~= seq![bare_spanned_item(a)] + bare_items(r));
    }
}

// ---------------------------------------------------------------------------
// Reading the tokens back.

/// The tokens from `pos` on have the kinds `k`.
pub open spec fn kinds_at(toks: Seq<TokenModel>, pos: int, k: Seq<TokenKindModel>) -> bool {
    &&& 0 <= pos
    &&& pos + k.len() <= toks.len()
    &&& forall|j: int| 0 <= j < k.len() ==> toks[pos + j].kind == #[trigger] k[j]
}

proof fn lemma_kinds_split(toks: Seq<TokenModel>, pos: int, a: Seq<TokenKindModel>, b: Seq<TokenKindModel>)
    requires
        kinds_at(toks, pos, a + b),
    ensures
        kinds_at(toks, pos, a),
        kinds_at(toks, pos + a.len(), b),
{
    assert forall|j: int| 0 <= j < a.len() implies toks[pos + j].kind == #[trigger] a[j] by {
        assert((a + b)[j] == a[j]);
    }
    assert forall|j: int| 0 <= j < b.len() implies toks[pos + a.len() + j].kind == #[trigger] b[j] by {
        assert((a + b)[a.len() + j] == b[j]);
    }
}

proof fn lemma_kind_at(toks: Seq<TokenModel>, pos: int, k: Seq<TokenKindModel>, j: int)
    requires
        kinds_at(toks, pos, k),
        0 <= j < k.len(),
    ensures
        toks[pos + j].kind == k[j],
{
}

pub open spec fn item_keyword(item: ItemModel) -> Seq<char> {
    match item {
        ItemModel::Pixel { .. } => "pixel"@,
        ItemModel::Line { .. } => "line"@,
        ItemModel::Rect { .. } => "rect"@,
        ItemModel::Fill { .. } => "fill"@,
        ItemModel::Circle { .. } => "circle"@,
        ItemModel::Group { .. } => "group"@,
    }
}

proof fn lemma_reveal_keywords()
    ensures
        "pixel"@ != "line"@,
        "pixel"@ != "rect"@,
        "pixel"@ != "fill"@,
        "pixel"@ != "circle"@,
        "pixel"@ != "group"@,
        "line"@ != "rect"@,
        "line"@ != "fill"@,
        "line"@ != "circle"@,
        "line"@ != "group"@,
        "rect"@ != "fill"@,
        "rect"@ != "circle"@,
        "rect"@ != "group"@,
        "fill"@ != "circle"@,
        "fill"@ != "group"@,
        "circle"@ != "group"@,
{
    reveal_strlit("pixel");
    reveal_strlit("line");
    reveal_strlit("rect");
    reveal_strlit("fill");
    reveal_strlit("circle");
    reveal_strlit("group");
    assert("pixel"@[0] != "line"@[0]);
    assert("pixel"@[0] != "rect"@[0]);
    assert("pixel"@[0] != "fill"@[0]);
    assert("pixel"@[0] != "circle"@[0]);
    assert("pixel"@[0] != "group"@[0]);
    assert("line"@[0] != "rect"@[0]);
    assert("line"@[0] != "fill"@[0]);
    assert("line"@[0] != "circle"@[0]);
    assert("line"@[0] != "group"@[0]);
    assert("rect"@[0] != "fill"@[0]);
    assert("rect"@[0] != "circle"@[0]);
    assert("rect"@[0] != "group"@[0]);
    assert("fill"@[0] != "circle"@[0]);
    assert("fill"@[0] != "group"@[0]);
    assert("circle"@[0] != "group"@[0]);
}

/// `n` numbers read back.
proof fn lemma_p_nums(toks: Seq<TokenModel>, pos: int, ns: Seq<i32>)
    requires
        kinds_at(toks, pos, ns.map_values(|v: i32| TokenKindModel::Number(v))),
    ensures
        p_nums(toks, pos, ns.len()) == Parsed::<Seq<i32>>::Ok((ns, pos + ns.len())),
    decreases ns.len(),
{
    let k = ns.map_values(|v: i32| TokenKindModel::Number(v));
    if ns.len() > 0 {
        lemma_kind_at(toks, pos, k, 0);
        let rest = ns.drop_first();
        let kr = rest.map_values(|v: i32| TokenKindModel::Number(v));
        assert(k =~= seq![k[0]] + kr);
        lemma_kinds_split(toks, pos, seq![k[0]], kr);
        lemma_p_nums(toks, pos + 1, rest);
        assert(seq![ns[0]] + rest =~= ns);
    } else {
        assert(ns =~= Seq::<i32>::empty());
    }
}

/// A color reads back as itself.
proof fn lemma_p_color(toks: Seq<TokenModel>, pos: int, raw: Seq<char>)
    requires
        0 <= pos < toks.len(),
        toks[pos].kind == word_kind(t(raw)),
    ensures
        p_color(toks, pos) matches Ok((c, p)) && c.raw == raw && p == pos + 1,
{
}

pub open spec fn nums_kinds(ns: Seq<i32>) -> Seq<TokenKindModel> {
    ns.map_values(|v: i32| TokenKindModel::Number(v))
}

proof fn lemma_p_shape(toks: Seq<TokenModel>, pos: int, ns: Seq<i32>, raw: Seq<char>)
    requires
        kinds_at(toks, pos, nums_kinds(ns) + seq![word_kind(t(raw))]),
    ensures
        p_shape(toks, pos, ns.len()) matches Ok(((ns2, c), p)) && ns2 == ns && c.raw == raw && p == pos + ns.len()
            + 1,
{
    lemma_kinds_split(toks, pos, nums_kinds(ns), seq![word_kind(t(raw))]);
    lemma_p_nums(toks, pos, ns);
    lemma_kind_at(toks, pos + ns.len(), seq![word_kind(t(raw))], 0);
    lemma_p_color(toks, pos + ns.len(), raw);
}

/// A keyword reads back as a name token.
proof fn lemma_keyword_kind(kw: Seq<char>)
    requires
        ident_word(kw),
    ensures
        word_kind(t(kw)) == TokenKindModel::Ident(kw),
{
}

/// A leaf item reads back, after its keyword, as an item with the same text.
proof fn lemma_p_leaf(toks: Seq<TokenModel>, pos: int, item: ItemModel)
    requires
        !(item is Group),
        item_readable(item),
        kinds_at(toks, pos, item_kinds(item)),
    ensures
        toks[pos].kind == TokenKindModel::Ident(item_keyword(item)),
        p_item_after_kw(toks, pos + 1, item_keyword(item)) matches Ok((it2, p)) && p == pos + item_kinds(
            item,
        ).len() && bare_item(it2) == bare_item(item) && forall|l: nat| #[trigger] item_text(it2, l) == item_text(
            item,
            l,
        ),
{
    lemma_keywords();
    lemma_reveal_keywords();
    let kw = item_keyword(item);
    lemma_keyword_kind(kw);
    let k = item_kinds(item);
    match item {
        ItemModel::Pixel { x, y, color } => {
            let ns = seq![x, y];
            assert(k =~= seq![TokenKindModel::Ident(kw)] + (nums_kinds(ns) + seq![word_kind(t(color.raw))]));
            lemma_kinds_split(toks, pos, seq![TokenKindModel::Ident(kw)], nums_kinds(ns) + seq![word_kind(t(color.raw))]);
            lemma_kind_at(toks, pos, seq![TokenKindModel::Ident(kw)], 0);
            lemma_p_shape(toks, pos + 1, ns, color.raw);
        },
        ItemModel::Fill { x, y, color } => {
            let ns = seq![x, y];
            assert(k =~= seq![TokenKindModel::Ident(kw)] + (nums_kinds(ns) + seq![word_kind(t(color.raw))]));
            lemma_kinds_split(toks, pos, seq![TokenKindModel::Ident(kw)], nums_kinds(ns) + seq![word_kind(t(color.raw))]);
            lemma_kind_at(toks, pos, seq![TokenKindModel::Ident(kw)], 0);
            lemma_p_shape(toks, pos + 1, ns, color.raw);
        },
        ItemModel::Circle { cx, cy, r, color } => {
            let ns = seq![cx, cy, r];
            assert(k =~= seq![TokenKindModel::Ident(kw)] + (nums_kinds(ns) + seq![word_kind(t(color.raw))]));
            lemma_kinds_split(toks, pos, seq![TokenKindModel::Ident(kw)], nums_kinds(ns) + seq![word_kind(t(color.raw))]);
            lemma_kind_at(toks, pos, seq![TokenKindModel::Ident(kw)], 0);
            lemma_p_shape(toks, pos + 1, ns, color.raw);
        },
        ItemModel::Line { x1, y1, x2, y2, color } => {
            let ns = seq![x1, y1, x2, y2];
            assert(k =~= seq![TokenKindModel::Ident(kw)] + (nums_kinds(ns) + seq![word_kind(t(color.raw))]));
            lemma_kinds_split(toks, pos, seq![TokenKindModel::Ident(kw)], nums_kinds(ns) + seq![word_kind(t(color.raw))]);
            lemma_kind_at(toks, pos, seq![TokenKindModel::Ident(kw)], 0);
            lemma_p_shape(toks, pos + 1, ns, color.raw);
        },
        ItemModel::Rect { x, y, w, h, color } => {
            let ns = seq![x, y, w, h];
            assert(k =~= seq![TokenKindModel::Ident(kw)] + (nums_kinds(ns) + seq![word_kind(t(color.raw))]));
            lemma_kinds_split(toks, pos, seq![TokenKindModel::Ident(kw)], nums_kinds(ns) + seq![word_kind(t(color.raw))]);
            lemma_kind_at(toks, pos, seq![TokenKindModel::Ident(kw)], 0);
            lemma_p_shape(toks, pos + 1, ns, color.raw);
        },
        _ => {},
    }
}

proof fn lemma_items_readable_from(items: Seq<SpannedModel<ItemModel>>, i: int)
    requires
        items_readable(items, 0),
        0 <= i <= items.len(),
    ensures
        items_readable(items, i),
    decreases i,
{
    if i > 0 {
        lemma_items_readable_from(items, i - 1);
    }
}

/// The items of a group read back, in an item block.
proof fn lemma_p_item(toks: Seq<TokenModel>, pos: int, it: ItemModel)
    requires
        item_readable(it),
        kinds_at(toks, pos, item_kinds(it)),
    ensures
        p_item(toks, pos) matches Ok((it2, p)) && p == pos + item_kinds(it).len() && bare_item(it2.node)
            == bare_item(it) && forall|l: nat| #[trigger] item_text(it2.node, l) == item_text(it, l),
    decreases it, 0nat,
{
    lemma_keywords();
    lemma_reveal_keywords();
    match it {
        ItemModel::Group { name, x, y, items } => {
            let kw = "group"@;
            lemma_keyword_kind(kw);
            lemma_keyword_kind(name);
            lemma_keyword_kind("at"@);
            let head = words_kinds(leaf_words(it));
            assert(head =~= seq![
                TokenKindModel::Ident(kw),
                TokenKindModel::Ident(name),
                TokenKindModel::Ident("at"@),
                TokenKindModel::Number(x),
                TokenKindModel::Number(y),
                TokenKindModel::LBrace,
            ]);
            let body = seq![
                TokenKindModel::Ident(name),
                TokenKindModel::Ident("at"@),
                TokenKindModel::Number(x),
                TokenKindModel::Number(y),
                TokenKindModel::LBrace,
            ];
            let rest = body + items_kinds(items) + seq![TokenKindModel::RBrace];
            assert(item_kinds(it) =~= seq![TokenKindModel::Ident(kw)] + rest);
            lemma_kinds_split(toks, pos, seq![TokenKindModel::Ident(kw)], rest);
            lemma_kind_at(toks, pos, seq![TokenKindModel::Ident(kw)], 0);
            lemma_p_group_body(toks, pos + 1, name, x, y, items);
            let (g, p) = p_group_body(toks, pos + 1)->Ok_0;
            assert(p_item_after_kw(toks, pos + 1, kw) == Parsed::<ItemModel>::Ok(
                (ItemModel::Group { name: g.0, x: g.1, y: g.2, items: g.3 }, p),
            ));
            assert(p_ident(toks, pos) == Parsed::<Seq<char>>::Ok((kw, pos + 1)));
            let it2 = p_item(toks, pos)->Ok_0.0;
            assert(it2.node == ItemModel::Group { name: g.0, x: g.1, y: g.2, items: g.3 });
            assert forall|l: nat| #[trigger] item_text(it2.node, l) == item_text(it, l) by {
                assert(items_text(g.3, l) == items_text(items, l));
            }
            assert(bare_items(g.3) == bare_items(items));
        },
        _ => {
            lemma_p_leaf(toks, pos, it);
        },
    }
}

proof fn lemma_p_group_body(toks: Seq<TokenModel>, pos: int, name: Seq<char>, x: i32, y: i32, items: Seq<SpannedModel<ItemModel>>)
    requires
        ident_word(name),
        items_readable(items, 0),
        kinds_at(
            toks,
            pos,
            seq![
                TokenKindModel::Ident(name),
                TokenKindModel::Ident("at"@),
                TokenKindModel::Number(x),
                TokenKindModel::Number(y),
                TokenKindModel::LBrace,
            ] + items_kinds(items) + seq![TokenKindModel::RBrace],
        ),
    ensures
        p_group_body(toks, pos) matches Ok(((n2, x2, y2, items2), p)) && n2 == name && x2 == x && y2 == y && p
            == pos + 6 + items_kinds(items).len() && bare_items(items2) == bare_items(items) && forall|l: nat| #[trigger] items_text(items2, l) == items_text(
            items,
            l,
        ),
    decreases items, items.len() + 2,
{
    reveal_strlit("at");
    let four = seq![
        TokenKindModel::Ident(name),
        TokenKindModel::Ident("at"@),
        TokenKindModel::Number(x),
        TokenKindModel::Number(y),
    ];
    let block = seq![TokenKindModel::LBrace] + items_kinds(items) + seq![TokenKindModel::RBrace];
    let all = seq![
        TokenKindModel::Ident(name),
        TokenKindModel::Ident("at"@),
        TokenKindModel::Number(x),
        TokenKindModel::Number(y),
        TokenKindModel::LBrace,
    ] + items_kinds(items) + seq![TokenKindModel::RBrace];
    assert(all =~= four + block);
    lemma_kinds_split(toks, pos, four, block);
    lemma_kind_at(toks, pos, four, 0);
    lemma_kind_at(toks, pos, four, 1);
    lemma_kind_at(toks, pos, four, 2);
    lemma_kind_at(toks, pos, four, 3);
    lemma_p_item_block(toks, pos + 4, items);
}

proof fn lemma_p_item_block(toks: Seq<TokenModel>, pos: int, items: Seq<SpannedModel<ItemModel>>)
    requires
        items_readable(items, 0),
        kinds_at(toks, pos, seq![TokenKindModel::LBrace] + items_kinds(items) + seq![TokenKindModel::RBrace]),
    ensures
        p_item_block(toks, pos) matches Ok((items2, p)) && p == pos + 2 + items_kinds(items).len() && bare_items(
            items2,
        ) == bare_items(items) && forall|l: nat|
            #[trigger] items_text(items2, l) == items_text(items, l),
    decreases items, items.len() + 1,
{
    let inner = items_kinds(items) + seq![TokenKindModel::RBrace];
    assert(seq![TokenKindModel::LBrace] + items_kinds(items) + seq![TokenKindModel::RBrace] =~= seq![
        TokenKindModel::LBrace,
    ] + inner);
    lemma_kinds_split(toks, pos, seq![TokenKindModel::LBrace], inner);
    lemma_kind_at(toks, pos, seq![TokenKindModel::LBrace], 0);
    assert(items.subrange(0, items.len() as int) =~= items);
    lemma_p_items(toks, pos + 1, items, 0);
    lemma_kinds_split(toks, pos + 1, items_kinds(items), seq![TokenKindModel::RBrace]);
    lemma_kind_at(toks, pos + 1 + items_kinds(items).len(), seq![TokenKindModel::RBrace], 0);
}

proof fn lemma_p_items(toks: Seq<TokenModel>, pos: int, items: Seq<SpannedModel<ItemModel>>, i: int)
    requires
        0 <= i <= items.len(),
        items_readable(items, 0),
        kinds_at(toks, pos, items_kinds(items.subrange(i, items.len() as int)) + seq![TokenKindModel::RBrace]),
    ensures
        p_items(toks, pos) matches Ok((items2, p)) && p == pos + items_kinds(items.subrange(i, items.len() as int)).len()
            && bare_items(items2) == bare_items(items.subrange(i, items.len() as int)) && forall|l: nat| #[trigger] items_text(items2, l) == items_text(items.subrange(i, items.len() as int), l),
    decreases items, items.len() - i,
{
    lemma_keywords();
    let sub = items.subrange(i, items.len() as int);
    if i == items.len() {
        assert(sub =~= Seq::<SpannedModel<ItemModel>>::empty());
        assert(items_kinds(sub) == Seq::<TokenKindModel>::empty());
        assert(items_kinds(sub) + seq![TokenKindModel::RBrace] =~= seq![TokenKindModel::RBrace]);
        lemma_kind_at(toks, pos, seq![TokenKindModel::RBrace], 0);
        assert forall|l: nat| #[trigger] items_text(Seq::<SpannedModel<ItemModel>>::empty(), l) == items_text(sub, l) by {}
        assert(bare_items(sub) == Seq::<SpannedModel<ItemModel>>::empty());
    } else {
        let a = items[i];
        let rest = items.subrange(i + 1, items.len() as int);
        assert(sub =~= seq![a] + rest);
        lemma_items_kinds_cons(a, rest);
        lemma_items_readable_from(items, i);
        assert(item_readable(a.node));
        let ka = item_kinds(a.node);
        assert(items_kinds(sub) + seq![TokenKindModel::RBrace] =~= ka + (items_kinds(rest) + seq![
            TokenKindModel::RBrace,
        ]));
        lemma_kinds_split(toks, pos, ka, items_kinds(rest) + seq![TokenKindModel::RBrace]);
        assert(decreases_to!(items => items[i]));
        lemma_p_item(toks, pos, a.node);
        lemma_item_kinds_start(a.node);
        lemma_kind_at(toks, pos, ka, 0);
        assert(!at_block_end(toks, pos));
        lemma_p_items(toks, pos + ka.len(), items, i + 1);
        let it2 = p_item(toks, pos)->Ok_0.0;
        let rest2 = p_items(toks, pos + ka.len())->Ok_0.0;
        assert forall|l: nat| #[trigger] items_text(seq![it2] + rest2, l) == items_text(sub, l) by {
            lemma_items_text_cons(it2, rest2, l);
            lemma_items_text_cons(a, rest, l);
            assert(item_text(it2.node, l + 1) == item_text(a.node, l + 1));
            assert(items_text(rest2, l) == items_text(rest, l));
        }
        lemma_bare_items_cons(it2, rest2);
        lemma_bare_items_cons(a, rest);
        assert(bare_spanned_item(it2) == bare_spanned_item(a));
    }
}

/// An item's tokens begin with its keyword.
proof fn lemma_item_kinds_start(item: ItemModel)
    requires
        item_readable(item),
    ensures
        item_kinds(item).len() >= 1,
        item_kinds(item)[0] == TokenKindModel::Ident(item_keyword(item)),
{
    lemma_keywords();
    lemma_keyword_kind(item_keyword(item));
    match item {
        ItemModel::Group { items, .. } => {
            assert(item_kinds(item)[0] == words_kinds(leaf_words(item))[0]);
        },
        _ => {},
    }
}


/// Palette entries read back, up to the closing brace.
proof fn lemma_p_entries(toks: Seq<TokenModel>, pos: int, es: Seq<PaletteEntryModel>)
    requires
        entries_words(es),
        kinds_at(toks, pos, entries_kinds(es) + seq![TokenKindModel::RBrace]),
    ensures
        p_entries(toks, pos) matches Ok((es2, p)) && p == pos + entries_kinds(es).len() && entries_text(es2, 0)
            == entries_text(es, 0) && bare_entries(es2) == bare_entries(es),
    decreases es.len(),
{
    if es.len() == 0 {
        assert(entries_kinds(es) + seq![TokenKindModel::RBrace] =~= seq![TokenKindModel::RBrace]);
        lemma_kind_at(toks, pos, seq![TokenKindModel::RBrace], 0);
        assert(es =~= Seq::<PaletteEntryModel>::empty());
    } else {
        let a = es[0];
        let rest = es.drop_first();
        assert(es =~= seq![a] + rest);
        lemma_entries_kinds_cons(a, rest);
        assert(ident_word(a.name) && color_word(a.color.raw));
        lemma_keyword_kind(a.name);
        let ka = words_kinds(seq![t(a.name), t(a.color.raw)]);
        assert(ka =~= seq![TokenKindModel::Ident(a.name), word_kind(t(a.color.raw))]);
        assert(entries_kinds(es) + seq![TokenKindModel::RBrace] =~= ka + (entries_kinds(rest) + seq![
            TokenKindModel::RBrace,
        ]));
        lemma_kinds_split(toks, pos, ka, entries_kinds(rest) + seq![TokenKindModel::RBrace]);
        lemma_kind_at(toks, pos, ka, 0);
        lemma_kind_at(toks, pos, ka, 1);
        lemma_p_color(toks, pos + 1, a.color.raw);
        assert forall|k: int| 0 <= k < rest.len() implies ident_word(#[trigger] rest[k].name) && color_word(
            rest[k].color.raw,
        ) by {
            assert(rest[k] == es[k + 1]);
        }
        lemma_p_entries(toks, pos + 2, rest);
        let c = p_color(toks, pos + 1)->Ok_0.0;
        let e2 = PaletteEntryModel { name: a.name, color: c, span: toks[pos].span };
        let rest2 = p_entries(toks, pos + 2)->Ok_0.0;
        lemma_entries_text_cons(e2, rest2);
        lemma_entries_text_cons(a, rest);
        assert(bare_entries(seq![e2] + rest2) =~= seq![bare_entry(e2)] + bare_entries(rest2));
        assert(bare_entries(es) =~= seq![bare_entry(a)] + bare_entries(rest));
    }
}

/// Frame names read back, up to the closing brace.
proof fn lemma_p_refs(toks: Seq<TokenModel>, pos: int, fs: Seq<FrameRefModel>)
    requires
        forall|k: int| 0 <= k < fs.len() ==> ident_word(#[trigger] fs[k].name),
        kinds_at(toks, pos, refs_kinds(fs) + seq![TokenKindModel::RBrace]),
    ensures
        p_frame_refs(toks, pos) matches Ok((fs2, p)) && p == pos + refs_kinds(fs).len() && refs_text(fs2, 0)
            == refs_text(fs, 0) && bare_refs(fs2) == bare_refs(fs),
    decreases fs.len(),
{
    if fs.len() == 0 {
        assert(refs_kinds(fs) + seq![TokenKindModel::RBrace] =~= seq![TokenKindModel::RBrace]);
        lemma_kind_at(toks, pos, seq![TokenKindModel::RBrace], 0);
        assert(fs =~= Seq::<FrameRefModel>::empty());
    } else {
        let a = fs[0];
        let rest = fs.drop_first();
        assert(fs =~= seq![a] + rest);
        lemma_refs_kinds_cons(a, rest);
        assert(ident_word(a.name));
        lemma_keyword_kind(a.name);
        let ka = words_kinds(seq![t(a.name)]);
        assert(ka =~= seq![TokenKindModel::Ident(a.name)]);
        assert(refs_kinds(fs) + seq![TokenKindModel::RBrace] =~= ka + (refs_kinds(rest) + seq![
            TokenKindModel::RBrace,
        ]));
        lemma_kinds_split(toks, pos, ka, refs_kinds(rest) + seq![TokenKindModel::RBrace]);
        lemma_kind_at(toks, pos, ka, 0);
        assert forall|k: int| 0 <= k < rest.len() implies ident_word(#[trigger] rest[k].name) by {
            assert(rest[k] == fs[k + 1]);
        }
        lemma_p_refs(toks, pos + 1, rest);
        let f2 = FrameRefModel { name: a.name, span: toks[pos].span };
        let rest2 = p_frame_refs(toks, pos + 1)->Ok_0.0;
        lemma_refs_text_cons(f2, rest2);
        lemma_refs_text_cons(a, rest);
        assert(bare_refs(seq![f2] + rest2) =~= seq![bare_refs(seq![f2])[0]] + bare_refs(rest2));
        assert(bare_refs(fs) =~= seq![bare_refs(seq![a])[0]] + bare_refs(rest));
    }
}


/// The statement keywords differ from each other and from the item keywords.
proof fn lemma_stmt_keywords()
    ensures
        "pixel"@ != "canvas"@,
        "pixel"@ != "background"@,
        "pixel"@ != "strict_palette"@,
        "pixel"@ != "palette"@,
        "pixel"@ != "group"@,
        "pixel"@ != "frame"@,
        "pixel"@ != "animation"@,
        "line"@ != "canvas"@,
        "line"@ != "background"@,
        "line"@ != "strict_palette"@,
        "line"@ != "palette"@,
        "line"@ != "group"@,
        "line"@ != "frame"@,
        "line"@ != "animation"@,
        "rect"@ != "canvas"@,
        "rect"@ != "background"@,
        "rect"@ != "strict_palette"@,
        "rect"@ != "palette"@,
        "rect"@ != "group"@,
        "rect"@ != "frame"@,
        "rect"@ != "animation"@,
        "fill"@ != "canvas"@,
        "fill"@ != "background"@,
        "fill"@ != "strict_palette"@,
        "fill"@ != "palette"@,
        "fill"@ != "group"@,
        "fill"@ != "frame"@,
        "fill"@ != "animation"@,
        "circle"@ != "canvas"@,
        "circle"@ != "background"@,
        "circle"@ != "strict_palette"@,
        "circle"@ != "palette"@,
        "circle"@ != "group"@,
        "circle"@ != "frame"@,
        "circle"@ != "animation"@,
        "background"@ != "canvas"@,
        "strict_palette"@ != "canvas"@,
        "strict_palette"@ != "background"@,
        "palette"@ != "canvas"@,
        "palette"@ != "background"@,
        "palette"@ != "strict_palette"@,
        "group"@ != "canvas"@,
        "group"@ != "background"@,
        "group"@ != "strict_palette"@,
        "group"@ != "palette"@,
        "frame"@ != "canvas"@,
        "frame"@ != "background"@,
        "frame"@ != "strict_palette"@,
        "frame"@ != "palette"@,
        "frame"@ != "group"@,
        "animation"@ != "canvas"@,
        "animation"@ != "background"@,
        "animation"@ != "strict_palette"@,
        "animation"@ != "palette"@,
        "animation"@ != "group"@,
        "animation"@ != "frame"@,
        "true"@ != "false"@,
{
    reveal_strlit("pixel");
    reveal_strlit("line");
    reveal_strlit("rect");
    reveal_strlit("fill");
    reveal_strlit("circle");
    reveal_strlit("canvas");
    reveal_strlit("background");
    reveal_strlit("strict_palette");
    reveal_strlit("palette");
    reveal_strlit("group");
    reveal_strlit("frame");
    reveal_strlit("animation");
    reveal_strlit("true");
    reveal_strlit("false");
    assert("pixel"@.len() != "canvas"@.len());
    assert("pixel"@.len() != "background"@.len());
    assert("pixel"@.len() != "strict_palette"@.len());
    assert("pixel"@.len() != "palette"@.len());
    assert("pixel"@[0] != "group"@[0]);
    assert("pixel"@[0] != "frame"@[0]);
    assert("pixel"@.len() != "animation"@.len());
    assert("line"@.len() != "canvas"@.len());
    assert("line"@.len() != "background"@.len());
    assert("line"@.len() != "strict_palette"@.len());
    assert("line"@.len() != "palette"@.len());
    assert("line"@.len() != "group"@.len());
    assert("line"@.len() != "frame"@.len());
    assert("line"@.len() != "animation"@.len());
    assert("rect"@.len() != "canvas"@.len());
    assert("rect"@.len() != "background"@.len());
    assert("rect"@.len() != "strict_palette"@.len());
    assert("rect"@.len() != "palette"@.len());
    assert("rect"@.len() != "group"@.len());
    assert("rect"@.len() != "frame"@.len());
    assert("rect"@.len() != "animation"@.len());
    assert("fill"@.len() != "canvas"@.len());
    assert("fill"@.len() != "background"@.len());
    assert("fill"@.len() != "strict_palette"@.len());
    assert("fill"@.len() != "palette"@.len());
    assert("fill"@.len() != "group"@.len());
    assert("fill"@.len() != "frame"@.len());
    assert("fill"@.len() != "animation"@.len());
    assert("circle"@[1] != "canvas"@[1]);
    assert("circle"@.len() != "background"@.len());
    assert("circle"@.len() != "strict_palette"@.len());
    assert("circle"@.len() != "palette"@.len());
    assert("circle"@.len() != "group"@.len());
    assert("circle"@.len() != "frame"@.len());
    assert("circle"@.len() != "animation"@.len());
    assert("background"@.len() != "canvas"@.len());
    assert("strict_palette"@.len() != "canvas"@.len());
    assert("strict_palette"@.len() != "background"@.len());
    assert("palette"@.len() != "canvas"@.len());
    assert("palette"@.len() != "background"@.len());
    assert("palette"@.len() != "strict_palette"@.len());
    assert("group"@.len() != "canvas"@.len());
    assert("group"@.len() != "background"@.len());
    assert("group"@.len() != "strict_palette"@.len());
    assert("group"@.len() != "palette"@.len());
    assert("frame"@.len() != "canvas"@.len());
    assert("frame"@.len() != "background"@.len());
    assert("frame"@.len() != "strict_palette"@.len());
    assert("frame"@.len() != "palette"@.len());
    assert("frame"@[0] != "group"@[0]);
    assert("animation"@.len() != "canvas"@.len());
    assert("animation"@.len() != "background"@.len());
    assert("animation"@.len() != "strict_palette"@.len());
    assert("animation"@.len() != "palette"@.len());
    assert("animation"@.len() != "group"@.len());
    assert("animation"@.len() != "frame"@.len());
    assert("true"@.len() != "false"@.len());
}

/// A statement's tokens begin with a name token.
proof fn lemma_stmt_kinds_start(s: StmtModel)
    requires
        stmt_readable(s),
    ensures
        stmt_kinds(s).len() >= 1,
        stmt_kinds(s)[0] is Ident,
{
    lemma_keywords();
    match s {
        StmtModel::Item(item) => {
            lemma_item_kinds_start(item);
        },
        _ => {
            lemma_keyword_kind(stmt_keyword(s));
            assert(stmt_kinds(s)[0] == words_kinds(head_words(s))[0]);
        },
    }
}

pub open spec fn stmt_keyword(s: StmtModel) -> Seq<char> {
    match s {
        StmtModel::Canvas { .. } => "canvas"@,
        StmtModel::Background { .. } => "background"@,
        StmtModel::StrictPalette { .. } => "strict_palette"@,
        StmtModel::Palette { .. } => "palette"@,
        StmtModel::Group { .. } => "group"@,
        StmtModel::Frame { .. } => "frame"@,
        StmtModel::Animation { .. } => "animation"@,
        StmtModel::Item(item) => item_keyword(item),
    }
}

/// A statement reads back, with the same text.
#[verifier::rlimit(40)]
proof fn lemma_p_stmt(toks: Seq<TokenModel>, pos: int, s: StmtModel)
    requires
        stmt_readable(s),
        kinds_at(toks, pos, stmt_kinds(s)),
    ensures
        toks[pos].kind is Ident,
        stmt_kinds(s).len() >= 1,
        p_stmt(toks, pos) matches Ok((s2, p)) && p == pos + stmt_kinds(s).len() && stmt_text(s2.node, 0)
            == stmt_text(s, 0) && bare_stmt(s2.node) == bare_stmt(s),
{
    lemma_keywords();
    lemma_stmt_keywords();
    lemma_stmt_kinds_start(s);
    lemma_kind_at(toks, pos, stmt_kinds(s), 0);
    reveal(p_stmt_after_kw);
    let k = stmt_kinds(s);
    let kw = stmt_keyword(s);
    lemma_keyword_kind(kw);
    let one = seq![TokenKindModel::Ident(kw)];
    match s {
        StmtModel::Canvas { width, height } => {
            let ns = seq![width, height];
            assert(k =~= one + nums_kinds(ns));
            lemma_kinds_split(toks, pos, one, nums_kinds(ns));
            lemma_p_nums(toks, pos + 1, ns);
        },
        StmtModel::Background { color } => {
            let rest = seq![word_kind(t(color.raw))];
            assert(k =~= one + rest);
            lemma_kinds_split(toks, pos, one, rest);
            lemma_kind_at(toks, pos + 1, rest, 0);
            lemma_p_color(toks, pos + 1, color.raw);
        },
        StmtModel::StrictPalette { value } => {
            lemma_keyword_kind(bool_str(value));
            let rest = seq![TokenKindModel::Ident(bool_str(value))];
            assert(k =~= one + rest);
            lemma_kinds_split(toks, pos, one, rest);
            lemma_kind_at(toks, pos + 1, rest, 0);
            assert(p_bool(toks, pos + 1) == Parsed::<bool>::Ok((value, pos + 2)));
        },
        StmtModel::Palette { entries } => {
            let two = seq![TokenKindModel::Ident(kw), TokenKindModel::LBrace];
            let rest = entries_kinds(entries) + seq![TokenKindModel::RBrace];
            assert(k =~= two + rest);
            lemma_kinds_split(toks, pos, two, rest);
            lemma_kind_at(toks, pos, two, 1);
            lemma_p_entries(toks, pos + 2, entries);
            lemma_kinds_split(toks, pos + 2, entries_kinds(entries), seq![TokenKindModel::RBrace]);
            lemma_kind_at(toks, pos + 2 + entries_kinds(entries).len(), seq![TokenKindModel::RBrace], 0);
        },
        StmtModel::Group { name, x, y, items } => {
            lemma_keyword_kind(name);
            lemma_keyword_kind("at"@);
            let body = seq![
                TokenKindModel::Ident(name),
                TokenKindModel::Ident("at"@),
                TokenKindModel::Number(x),
                TokenKindModel::Number(y),
                TokenKindModel::LBrace,
            ];
            let rest = body + items_kinds(items) + seq![TokenKindModel::RBrace];
            assert(k =~= one + rest);
            lemma_kinds_split(toks, pos, one, rest);
            lemma_p_group_body(toks, pos + 1, name, x, y, items);
            let (g, p) = p_group_body(toks, pos + 1)->Ok_0;
            assert(items_text(g.3, 0) == items_text(items, 0));
        },
        StmtModel::Frame { name, items } => {
            lemma_keyword_kind(name);
            let two = seq![TokenKindModel::Ident(kw), TokenKindModel::Ident(name)];
            let rest = seq![TokenKindModel::LBrace] + items_kinds(items) + seq![TokenKindModel::RBrace];
            assert(k =~= two + rest);
            lemma_kinds_split(toks, pos, two, rest);
            lemma_kind_at(toks, pos, two, 1);
            lemma_p_item_block(toks, pos + 2, items);
            let items2 = p_item_block(toks, pos + 2)->Ok_0.0;
            assert(items_text(items2, 0) == items_text(items, 0));
        },
        StmtModel::Animation { name, fps, frames } => {
            lemma_keyword_kind(name);
            lemma_keyword_kind("fps"@);
            let five = seq![
                TokenKindModel::Ident(kw),
                TokenKindModel::Ident(name),
                TokenKindModel::Ident("fps"@),
                TokenKindModel::Number(fps),
                TokenKindModel::LBrace,
            ];
            let rest = refs_kinds(frames) + seq![TokenKindModel::RBrace];
            assert(k =~= five + rest);
            lemma_kinds_split(toks, pos, five, rest);
            lemma_kind_at(toks, pos, five, 1);
            lemma_kind_at(toks, pos, five, 2);
            lemma_kind_at(toks, pos, five, 3);
            lemma_kind_at(toks, pos, five, 4);
            lemma_p_refs(toks, pos + 5, frames);
            lemma_kinds_split(toks, pos + 5, refs_kinds(frames), seq![TokenKindModel::RBrace]);
            lemma_kind_at(toks, pos + 5 + refs_kinds(frames).len(), seq![TokenKindModel::RBrace], 0);
        },
        StmtModel::Item(item) => {
            lemma_p_leaf(toks, pos, item);
            assert(is_item_keyword(kw));
            let it2 = p_item_after_kw(toks, pos + 1, kw)->Ok_0.0;
            assert(item_text(it2, 0) == item_text(item, 0));
        },
    }
}


/// Statements read back, up to `Eof`, with the same text.
proof fn lemma_p_stmts(toks: Seq<TokenModel>, pos: int, ss: Seq<SpannedModel<StmtModel>>)
    requires
        forall|k: int| 0 <= k < ss.len() ==> stmt_readable(#[trigger] ss[k].node),
        kinds_at(toks, pos, doc_kinds(ss) + seq![TokenKindModel::Eof]),
    ensures
        p_stmts(toks, pos) matches Ok((ss2, _)) && document_text(ss2) == document_text(ss) && bare_doc(ss2)
            == bare_doc(ss),
    decreases ss.len(),
{
    if ss.len() == 0 {
        assert(doc_kinds(ss) + seq![TokenKindModel::Eof] =~= seq![TokenKindModel::Eof]);
        lemma_kind_at(toks, pos, seq![TokenKindModel::Eof], 0);
        assert(ss =~= Seq::<SpannedModel<StmtModel>>::empty());
        assert(bare_doc(ss) =~= Seq::<SpannedModel<StmtModel>>::empty());
        assert(bare_doc(Seq::<SpannedModel<StmtModel>>::empty()) =~= Seq::<SpannedModel<StmtModel>>::empty());
    } else {
        let a = ss[0];
        let rest = ss.drop_first();
        assert(ss =~= seq![a] + rest);
        lemma_doc_kinds_cons(a, rest);
        lemma_doc_text_cons(a, rest);
        let ka = stmt_kinds(a.node);
        assert(doc_kinds(ss) + seq![TokenKindModel::Eof] =~= ka + (doc_kinds(rest) + seq![TokenKindModel::Eof]));
        lemma_kinds_split(toks, pos, ka, doc_kinds(rest) + seq![TokenKindModel::Eof]);
        assert(stmt_readable(ss[0].node));
        lemma_p_stmt(toks, pos, a.node);
        assert forall|k: int| 0 <= k < rest.len() implies stmt_readable(#[trigger] rest[k].node) by {
            assert(rest[k] == ss[k + 1]);
        }
        lemma_p_stmts(toks, pos + ka.len(), rest);
        let s2 = p_stmt(toks, pos)->Ok_0.0;
        let rest2 = p_stmts(toks, pos + ka.len())->Ok_0.0;
        lemma_doc_text_cons(s2, rest2);
        assert(bare_doc(seq![s2] + rest2) =~= bare_doc(seq![s2]) + bare_doc(rest2));
        assert(bare_doc(ss) =~= bare_doc(seq![a]) + bare_doc(rest));
    }
}

/// Formatting is idempotent: the text that formatting a parsed source gives
/// parses again, to the same document apart from source positions, and
/// formatting that parse gives the same text.
pub proof fn law_format_idempotent(b: Seq<u8>)
    ensures
        spec_parse(b) matches Ok(ss) ==> (spec_parse(encode_utf8(document_text(ss))) matches Ok(ss2)
            && bare_doc(ss2) == bare_doc(ss) && document_text(ss2) == document_text(ss)),
{
    law_lexed_colors_readable(b);
    if let Ok(toks) = spec_lex(b) {
        assert(eof_ended(toks));
        lemma_stmts(toks, 0);
        if let Ok(ss) = parse_tokens(toks) {
            let ls = doc_lines(ss);
            lemma_doc_lines_ok(ss);
            lemma_doc_layout(ss);
            lemma_doc_kinds(ss);
            lemma_layout_spec_lex(ls);
            let ts = spec_lex(encode_utf8(layout_text(ls)))->Ok_0;
            let want = doc_kinds(ss) + seq![TokenKindModel::Eof];
            assert(kinds(ts) =~= want);
            assert forall|j: int| 0 <= j < want.len() implies ts[0 + j].kind == #[trigger] want[j] by {
                assert(kinds(ts)[j] == ts[j].kind);
            }
            assert(ts.len() == kinds(ts).len());
            lemma_p_stmts(ts, 0, ss);
        }
    }
}

} // verus!
