//! The formatter: prints a document in canonical layout, one statement or
//! item per line, four spaces per level, a blank line after each statement.

use vstd::prelude::*;
use crate::ast::{
    AnimationFrame, ColorExpr, ColorModel, Document, FrameRefModel, Item, ItemModel, PaletteEntry, PaletteEntryModel, Spanned,
    SpannedModel, Stmt, StmtModel, entries_model, frames_model, item_model, items_model,
    lemma_items_model, stmts_model,
};
use crate::text::{int_str, nat_str, push_char, push_int};

verus! {

broadcast use vstd::seq::group_seq_axioms;

// ---------------------------------------------------------------------------
// The layout.

pub open spec fn indent_str(n: nat) -> Seq<char>
    decreases n,
{
    if n == 0 {
        seq![]
    } else {
        indent_str((n - 1) as nat) + "    "@
    }
}

/// An item on one line (a group on several), without its indentation and
/// final line break.
pub open spec fn item_text(item: ItemModel, level: nat) -> Seq<char>
    decreases item, 1nat,
{
    match item {
        ItemModel::Pixel { x, y, color } => "pixel "@ + int_str(x as int) + " "@ + int_str(y as int) + " "@
            + color.raw,
        ItemModel::Line { x1, y1, x2, y2, color } => "line "@ + int_str(x1 as int) + " "@ + int_str(
            y1 as int,
        ) + " "@ + int_str(x2 as int) + " "@ + int_str(y2 as int) + " "@ + color.raw,
        ItemModel::Rect { x, y, w, h, color } => "rect "@ + int_str(x as int) + " "@ + int_str(y as int)
            + " "@ + int_str(w as int) + " "@ + int_str(h as int) + " "@ + color.raw,
        ItemModel::Fill { x, y, color } => "fill "@ + int_str(x as int) + " "@ + int_str(y as int) + " "@
            + color.raw,
        ItemModel::Circle { cx, cy, r, color } => "circle "@ + int_str(cx as int) + " "@ + int_str(
            cy as int,
        ) + " "@ + int_str(r as int) + " "@ + color.raw,
        ItemModel::Group { name, x, y, items } => "group "@ + name + " at "@ + int_str(x as int) + " "@
            + int_str(y as int) + " {\n"@ + items_text(items, level) + indent_str(level) + "}\n"@,
    }
}

/// The items of a block at `level`, each on its own lines one level deeper.
pub open spec fn items_text(items: Seq<SpannedModel<ItemModel>>, level: nat) -> Seq<char>
    decreases items, 0nat,
{
    if items.len() == 0 {
        seq![]
    } else {
        items_text(items.drop_last(), level) + indent_str(level + 1) + item_text(
            items.last().node,
            level + 1,
        ) + "\n"@
    }
}

pub open spec fn group_text(
    name: Seq<char>,
    x: i32,
    y: i32,
    items: Seq<SpannedModel<ItemModel>>,
    level: nat,
) -> Seq<char> {
    "group "@ + name + " at "@ + int_str(x as int) + " "@ + int_str(y as int) + " {\n"@ + items_text(
        items,
        level,
    ) + indent_str(level) + "}\n"@
}

pub open spec fn frame_text(name: Seq<char>, items: Seq<SpannedModel<ItemModel>>, level: nat) -> Seq<
    char,
> {
    "frame "@ + name + " {\n"@ + items_text(items, level) + indent_str(level) + "}\n"@
}

pub open spec fn entries_text(es: Seq<PaletteEntryModel>, level: nat) -> Seq<char>
    decreases es.len(),
{
    if es.len() == 0 {
        seq![]
    } else {
        entries_text(es.drop_last(), level) + indent_str(level + 1) + es.last().name + " "@
            + es.last().color.raw + "\n"@
    }
}

pub open spec fn refs_text(fs: Seq<FrameRefModel>, level: nat) -> Seq<char>
    decreases fs.len(),
{
    if fs.len() == 0 {
        seq![]
    } else {
        refs_text(fs.drop_last(), level) + indent_str(level + 1) + fs.last().name + "\n"@
    }
}

pub open spec fn bool_str(b: bool) -> Seq<char> {
    if b {
        "true"@
    } else {
        "false"@
    }
}

/// A statement at `level`, with its indentation and its line breaks.
pub open spec fn stmt_text(s: StmtModel, level: nat) -> Seq<char> {
    indent_str(level) + match s {
        StmtModel::Canvas { width, height } => "canvas "@ + int_str(width as int) + " "@ + int_str(
            height as int,
        ) + "\n"@,
        StmtModel::Background { color } => "background "@ + color.raw + "\n"@,
        StmtModel::StrictPalette { value } => "strict_palette "@ + bool_str(value) + "\n"@,
        StmtModel::Palette { entries } => "palette {\n"@ + entries_text(entries, level) + indent_str(
            level,
        ) + "}\n"@,
        StmtModel::Group { name, x, y, items } => group_text(name, x, y, items, level),
        StmtModel::Frame { name, items } => frame_text(name, items, level),
        StmtModel::Animation { name, fps, frames } => "animation "@ + name + " fps "@ + int_str(
            fps as int,
        ) + " {\n"@ + refs_text(frames, level) + indent_str(level) + "}\n"@,
        StmtModel::Item(item) => item_text(item, level) + "\n"@,
    }
}

/// The whole document: each statement followed by a blank line.
pub open spec fn document_text(ss: Seq<SpannedModel<StmtModel>>) -> Seq<char>
    decreases ss.len(),
{
    if ss.len() == 0 {
        seq![]
    } else {
        document_text(ss.drop_last()) + stmt_text(ss.last().node, 0) + "\n"@
    }
}


// ---------------------------------------------------------------------------
// Executable formatter.

fn indent(out: &mut String, n: usize)
    ensures
        final(out)@ == old(out)@ + indent_str(n as nat),
{
    let mut i: usize = 0;
    while i < n
        invariant
            0 <= i <= n,
            out@ == old(out)@ + indent_str(i as nat),
        decreases n - i,
    {
        out.append("    ");
        proof {
            assert(out@ =~= old(out)@ + indent_str((i + 1) as nat));
        }
        i = i + 1;
    }
}

fn color(c: &ColorExpr) -> (r: &str)
    ensures
        r@ == c.raw@,
{
    c.raw.as_str()
}

fn push_number(out: &mut String, sep: &str, n: i32)
    ensures
        final(out)@ == old(out)@ + sep@ + int_str(n as int),
{
    out.append(sep);
    push_int(out, n);
    proof {
        assert(final(out)@ =~= old(out)@ + sep@ + int_str(n as int));
    }
}

fn fmt_item(out: &mut String, item: &Item, level: usize)
    requires
        level + item_depth(item_model(*item)) < usize::MAX,
    ensures
        final(out)@ == old(out)@ + item_text(item_model(*item), level as nat),
    decreases *item, 0nat,
{
    match item {
        Item::Pixel { x, y, color: c } => {
            out.append("pixel ");
            push_int(out, *x);
            push_number(out, " ", *y);
            out.append(" ");
            out.append(color(c));
            proof {
                assert(final(out)@ =~= old(out)@ + item_text(item_model(*item), level as nat));
            }
        },
        Item::Line { x1, y1, x2, y2, color: c } => {
            out.append("line ");
            push_int(out, *x1);
            push_number(out, " ", *y1);
            push_number(out, " ", *x2);
            push_number(out, " ", *y2);
            out.append(" ");
            out.append(color(c));
            proof {
                assert(final(out)@ =~= old(out)@ + item_text(item_model(*item), level as nat));
            }
        },
        Item::Rect { x, y, w, h, color: c } => {
            out.append("rect ");
            push_int(out, *x);
            push_number(out, " ", *y);
            push_number(out, " ", *w);
            push_number(out, " ", *h);
            out.append(" ");
            out.append(color(c));
            proof {
                assert(final(out)@ =~= old(out)@ + item_text(item_model(*item), level as nat));
            }
        },
        Item::Fill { x, y, color: c } => {
            out.append("fill ");
            push_int(out, *x);
            push_number(out, " ", *y);
            out.append(" ");
            out.append(color(c));
            proof {
                assert(final(out)@ =~= old(out)@ + item_text(item_model(*item), level as nat));
            }
        },
        Item::Circle { cx, cy, r, color: c } => {
            out.append("circle ");
            push_int(out, *cx);
            push_number(out, " ", *cy);
            push_number(out, " ", *r);
            out.append(" ");
            out.append(color(c));
            proof {
                assert(final(out)@ =~= old(out)@ + item_text(item_model(*item), level as nat));
            }
        },
        Item::Group { name, x, y, items } => {
            fmt_group(out, name.as_str(), *x, *y, items, level);
        },
    }
}

/// How deeply groups nest inside an item (0 for a drawing item).
pub open spec fn item_depth(item: ItemModel) -> nat
    decreases item, 1nat,
{
    match item {
        ItemModel::Group { items, .. } => 1 + items_depth(items),
        _ => 0,
    }
}

pub open spec fn items_depth(items: Seq<SpannedModel<ItemModel>>) -> nat
    decreases items, 0nat,
{
    if items.len() == 0 {
        0
    } else {
        let a = items_depth(items.drop_last());
        let b = item_depth(items.last().node);
        if a >= b {
            a
        } else {
            b
        }
    }
}

pub proof fn lemma_items_depth(items: Seq<SpannedModel<ItemModel>>)
    ensures
        forall|i: int| 0 <= i < items.len() ==> item_depth(#[trigger] items[i].node) <= items_depth(items),
    decreases items.len(),
{
    if items.len() > 0 {
        lemma_items_depth(items.drop_last());
        assert forall|i: int| 0 <= i < items.len() implies item_depth(#[trigger] items[i].node) <= items_depth(items) by {
            if i < items.len() - 1 {
                assert(items.drop_last()[i] == items[i]);
            }
        }
    }
}

fn fmt_items(out: &mut String, items: &Vec<Spanned<Item>>, level: usize)
    requires
        level + 1 + items_depth(items_model(items@)) < usize::MAX,
    ensures
        final(out)@ == old(out)@ + items_text(items_model(items@), level as nat),
    decreases *items, 0nat,
{
    let ghost m = items_model(items@);
    proof {
        lemma_items_model(items@);
    }
    let mut i: usize = 0;
    while i < items.len()
        invariant
            0 <= i <= items@.len(),
            level + 1 + items_depth(m) < usize::MAX,
            m == items_model(items@),
            m.len() == items@.len(),
            out@ == old(out)@ + items_text(m.take(i as int), level as nat),
        decreases items@.len() - i,
    {
        proof {
            lemma_items_model(items@);
            lemma_items_depth(m);
            assert(m[i as int].node == item_model(items@[i as int].node));
        }
        let ghost before = out@;
        indent(out, level + 1);
        fmt_item(out, &items[i].node, level + 1);
        out.append("\n");
        proof {
            let t = m.take(i + 1);
            assert(t.drop_last() =~= m.take(i as int));
            assert(t.last() == m[i as int]);
            assert(out@ =~= old(out)@ + items_text(t, level as nat));
        }
        i = i + 1;
    }
    proof {
        assert(m.take(items@.len() as int) =~= m);
    }
}

fn fmt_group(out: &mut String, name: &str, x: i32, y: i32, items: &Vec<Spanned<Item>>, level: usize)
    requires
        level + 1 + items_depth(items_model(items@)) < usize::MAX,
    ensures
        final(out)@ == old(out)@ + group_text(name@, x, y, items_model(items@), level as nat),
    decreases *items, 1nat,
{
    out.append("group ");
    out.append(name);
    out.append(" at ");
    push_int(out, x);
    push_number(out, " ", y);
    out.append(" {\n");
    fmt_items(out, items, level);
    indent(out, level);
    out.append("}\n");
    proof {
        assert(final(out)@ =~= old(out)@ + group_text(name@, x, y, items_model(items@), level as nat));
    }
}


fn fmt_frame(out: &mut String, name: &str, items: &Vec<Spanned<Item>>, level: usize)
    requires
        level + 1 + items_depth(items_model(items@)) < usize::MAX,
    ensures
        final(out)@ == old(out)@ + frame_text(name@, items_model(items@), level as nat),
{
    out.append("frame ");
    out.append(name);
    out.append(" {\n");
    fmt_items(out, items, level);
    indent(out, level);
    out.append("}\n");
    proof {
        assert(final(out)@ =~= old(out)@ + frame_text(name@, items_model(items@), level as nat));
    }
}

/// How deeply a statement nests groups.
pub open spec fn stmt_depth(s: StmtModel) -> nat {
    match s {
        StmtModel::Group { items, .. } => items_depth(items),
        StmtModel::Frame { items, .. } => items_depth(items),
        StmtModel::Item(item) => item_depth(item),
        _ => 0,
    }
}

/// Group nesting leaves room for the indentation level in a `usize`.
pub open spec fn nesting_fits(ss: Seq<SpannedModel<StmtModel>>) -> bool {
    forall|k: int| 0 <= k < ss.len() ==> stmt_depth(#[trigger] ss[k].node) + 2 < usize::MAX
}

fn fmt_palette(out: &mut String, entries: &Vec<PaletteEntry>, level: usize)
    requires
        level + 2 < usize::MAX,
    ensures
        final(out)@ == old(out)@ + "palette {\n"@ + entries_text(entries_model(entries@), level as nat) + indent_str(
            level as nat,
        ) + "}\n"@,
{
    out.append("palette {\n");
    let ghost es = entries_model(entries@);
    let ghost start = out@;
    let mut i: usize = 0;
    while i < entries.len()
        invariant
            0 <= i <= entries@.len(),
            es == entries_model(entries@),
            level + 2 < usize::MAX,
            out@ == start + entries_text(es.take(i as int), level as nat),
        decreases entries@.len() - i,
    {
        indent(out, level + 1);
        out.append(entries[i].name.as_str());
        out.append(" ");
        out.append(color(&entries[i].color));
        out.append("\n");
        proof {
            let t = es.take(i + 1);
            assert(t.drop_last() =~= es.take(i as int));
            assert(t.last() == entries@[i as int]@);
            assert(out@ =~= start + entries_text(t, level as nat));
        }
        i = i + 1;
    }
    proof {
        assert(es.take(entries@.len() as int) =~= es);
    }
    indent(out, level);
    out.append("}\n");
    proof {
        assert(final(out)@ =~= old(out)@ + "palette {\n"@ + entries_text(entries_model(entries@), level as nat)
            + indent_str(level as nat) + "}\n"@);
    }
}

fn fmt_animation(out: &mut String, name: &str, fps: i32, frames: &Vec<AnimationFrame>, level: usize)
    requires
        level + 2 < usize::MAX,
    ensures
        final(out)@ == old(out)@ + "animation "@ + name@ + " fps "@ + int_str(fps as int) + " {\n"@ + refs_text(
            frames_model(frames@),
            level as nat,
        ) + indent_str(level as nat) + "}\n"@,
{
    out.append("animation ");
    out.append(name);
    out.append(" fps ");
    push_int(out, fps);
    out.append(" {\n");
    let ghost fs = frames_model(frames@);
    let ghost start = out@;
    let mut i: usize = 0;
    while i < frames.len()
        invariant
            0 <= i <= frames@.len(),
            fs == frames_model(frames@),
            level + 2 < usize::MAX,
            out@ == start + refs_text(fs.take(i as int), level as nat),
        decreases frames@.len() - i,
    {
        indent(out, level + 1);
        out.append(frames[i].name.as_str());
        out.append("\n");
        proof {
            let t = fs.take(i + 1);
            assert(t.drop_last() =~= fs.take(i as int));
            assert(t.last() == frames@[i as int]@);
            assert(out@ =~= start + refs_text(t, level as nat));
        }
        i = i + 1;
    }
    proof {
        assert(fs.take(frames@.len() as int) =~= fs);
    }
    indent(out, level);
    out.append("}\n");
    proof {
        assert(final(out)@ =~= old(out)@ + "animation "@ + name@ + " fps "@ + int_str(fps as int) + " {\n"@
            + refs_text(frames_model(frames@), level as nat) + indent_str(level as nat) + "}\n"@);
    }
}

fn fmt_stmt(out: &mut String, stmt: &Spanned<Stmt>, level: usize)
    requires
        level + 2 + stmt_depth(stmt.node@) < usize::MAX,
    ensures
        final(out)@ == old(out)@ + stmt_text(stmt.node@, level as nat),
{
    indent(out, level);
    let ghost after_indent = out@;
    match &stmt.node {
        Stmt::Canvas { width, height } => {
            out.append("canvas ");
            push_int(out, *width);
            push_number(out, " ", *height);
            out.append("\n");
        },
        Stmt::Background { color: c } => {
            out.append("background ");
            out.append(color(c));
            out.append("\n");
        },
        Stmt::StrictPalette { value } => {
            out.append("strict_palette ");
            if *value {
                out.append("true");
            } else {
                out.append("false");
            }
            out.append("\n");
        },
        Stmt::Palette { entries } => {
            fmt_palette(out, entries, level);
        },
        Stmt::Group { name, x, y, items } => {
            fmt_group(out, name.as_str(), *x, *y, items, level);
        },
        Stmt::Frame { name, items } => {
            fmt_frame(out, name.as_str(), items, level);
        },
        Stmt::Animation { name, fps, frames } => {
            fmt_animation(out, name.as_str(), *fps, frames, level);
        },
        Stmt::Item(item) => {
            fmt_item(out, item, level);
            out.append("\n");
        },
    }
    proof {
        assert(final(out)@ =~= old(out)@ + stmt_text(stmt.node@, level as nat));
    }
}

/// Prints `doc` in canonical layout.
pub fn format_document(doc: &Document) -> (r: String)
    requires
        nesting_fits(doc@),
    ensures
        r@ == document_text(doc@),
{
    let mut out = String::new();
    let ghost ss = doc@;
    let mut i: usize = 0;
    while i < doc.statements.len()
        invariant
            0 <= i <= doc.statements@.len(),
            ss == doc@,
            nesting_fits(ss),
            out@ == document_text(ss.take(i as int)),
        decreases doc.statements@.len() - i,
    {
        proof {
            assert(ss[i as int] == doc.statements@[i as int]@);
            assert(stmt_depth(ss[i as int].node) + 2 < usize::MAX);
        }
        fmt_stmt(&mut out, &doc.statements[i], 0);
        out.append("\n");
        proof {
            let t = ss.take(i + 1);
            assert(t.drop_last() =~= ss.take(i as int));
            assert(out@ =~= document_text(t));
        }
        i = i + 1;
    }
    proof {
        assert(ss.take(ss.len() as int) =~= ss);
    }
    out
}

} // verus!
