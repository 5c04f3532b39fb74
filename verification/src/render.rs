//! Rendering: drawing a validated document, one of its frames, or the frames
//! of an animation, on a canvas.

use vstd::prelude::*;
use crate::ast::{
    AnimationFrame, ColorExpr, ColorModel, FrameRefModel, Item, ItemModel, Spanned, SpannedModel, Stmt, StmtModel, frames_model,
    item_model, items_model, lemma_items_model,
};
use crate::canvas::{
    blank, disc_region, flood, line_points, on_points, painted, rect_region, set_pixel, CanvasModel, Shape,
};
use crate::color::{in_color_domain, resolve, resolve_color, resolvable, transparent, Rgba};
use crate::diagnostics::{diag, Diagnostic, DiagnosticModel, Span};
use crate::text::{clone_string, message, str_eq};
use crate::validate::ValidDocument;

pub use crate::canvas::Canvas;

verus! {

broadcast use vstd::seq::group_seq_axioms;

// ---------------------------------------------------------------------------
// What drawing an item means.

pub open spec fn fits_i32(v: int) -> bool {
    i32::MIN <= v <= i32::MAX
}

/// The error that resolving this color gives, if any.
pub open spec fn color_error(c: ColorModel, pal: Seq<(Seq<char>, Rgba)>, strict: bool) -> Option<DiagnosticModel> {
    match resolve(c.raw, c.span, pal, strict) {
        Ok(_) => None,
        Err(e) => Some(e),
    }
}

/// The color this color expression denotes (when it resolves).
pub open spec fn color_of(c: ColorModel, pal: Seq<(Seq<char>, Rgba)>, strict: bool) -> Rgba {
    match resolve(c.raw, c.span, pal, strict) {
        Ok(v) => v,
        Err(_) => transparent(),
    }
}

/// The first color error met when drawing the item, in drawing order.
pub open spec fn item_error(item: ItemModel, pal: Seq<(Seq<char>, Rgba)>, strict: bool) -> Option<DiagnosticModel>
    decreases item, 0nat,
{
    match item {
        ItemModel::Pixel { color, .. } => color_error(color, pal, strict),
        ItemModel::Line { color, .. } => color_error(color, pal, strict),
        ItemModel::Rect { color, .. } => color_error(color, pal, strict),
        ItemModel::Fill { color, .. } => color_error(color, pal, strict),
        ItemModel::Circle { color, .. } => color_error(color, pal, strict),
        ItemModel::Group { items, .. } => items_error(items, 0, pal, strict),
    }
}

/// The first color error met when drawing `items[i..]`.
pub open spec fn items_error(
    items: Seq<SpannedModel<ItemModel>>,
    i: int,
    pal: Seq<(Seq<char>, Rgba)>,
    strict: bool,
) -> Option<DiagnosticModel>
    decreases items, items.len() - i,
{
    if i < 0 || i >= items.len() {
        None
    } else {
        match item_error(items[i].node, pal, strict) {
            Some(e) => Some(e),
            None => items_error(items, i + 1, pal, strict),
        }
    }
}

/// The canvas after drawing the item with its position shifted by `(ox, oy)`.
pub open spec fn draw_item(
    c: CanvasModel,
    item: ItemModel,
    ox: int,
    oy: int,
    pal: Seq<(Seq<char>, Rgba)>,
    strict: bool,
) -> CanvasModel
    decreases item, 0nat,
{
    match item {
        ItemModel::Pixel { x, y, color } => set_pixel(c, ox + x, oy + y, color_of(color, pal, strict)),
        ItemModel::Line { x1, y1, x2, y2, color } => painted(
            c,
            on_points(line_points(ox + x1, oy + y1, ox + x2, oy + y2)),
            color_of(color, pal, strict),
        ),
        ItemModel::Rect { x, y, w, h, color } => painted(
            c,
            rect_region(ox + x, oy + y, w as int, h as int),
            color_of(color, pal, strict),
        ),
        ItemModel::Fill { x, y, color } => flood(c, ox + x, oy + y, color_of(color, pal, strict)),
        ItemModel::Circle { cx, cy, r, color } => painted(
            c,
            disc_region(ox + cx, oy + cy, r as int),
            color_of(color, pal, strict),
        ),
        ItemModel::Group { x, y, items, .. } => draw_items(c, items, 0, ox + x, oy + y, pal, strict),
    }
}

/// The canvas after drawing `items[i..]` in order.
pub open spec fn draw_items(
    c: CanvasModel,
    items: Seq<SpannedModel<ItemModel>>,
    i: int,
    ox: int,
    oy: int,
    pal: Seq<(Seq<char>, Rgba)>,
    strict: bool,
) -> CanvasModel
    decreases items, items.len() - i,
{
    if i < 0 || i >= items.len() {
        c
    } else {
        draw_items(draw_item(c, items[i].node, ox, oy, pal, strict), items, i + 1, ox, oy, pal, strict)
    }
}

/// The canvas when drawing the item stops: a leaf with a color error draws
/// nothing, a group draws its children up to the first that fails, and that
/// one as far as it goes; without an error, the whole item.
#[verifier::opaque]
pub open spec fn draw_item_until_error(
    c: CanvasModel,
    item: ItemModel,
    ox: int,
    oy: int,
    pal: Seq<(Seq<char>, Rgba)>,
    strict: bool,
) -> CanvasModel
    decreases item, 0nat,
{
    match item {
        ItemModel::Group { x, y, items, .. } => draw_items_until_error(c, items, 0, ox + x, oy + y, pal, strict),
        _ => if item_error(item, pal, strict) is Some {
            c
        } else {
            draw_item(c, item, ox, oy, pal, strict)
        },
    }
}

/// The canvas when drawing `items[i..]` stops: the items before the first
/// that fails are drawn whole, that one as far as it goes, none after it.
#[verifier::opaque]
pub open spec fn draw_items_until_error(
    c: CanvasModel,
    items: Seq<SpannedModel<ItemModel>>,
    i: int,
    ox: int,
    oy: int,
    pal: Seq<(Seq<char>, Rgba)>,
    strict: bool,
) -> CanvasModel
    decreases items, items.len() - i,
{
    if i < 0 || i >= items.len() {
        c
    } else if item_error(items[i].node, pal, strict) is Some {
        draw_item_until_error(c, items[i].node, ox, oy, pal, strict)
    } else {
        draw_items_until_error(draw_item(c, items[i].node, ox, oy, pal, strict), items, i + 1, ox, oy, pal, strict)
    }
}

proof fn lemma_until_error_step(
    c: CanvasModel,
    items: Seq<SpannedModel<ItemModel>>,
    i: int,
    ox: int,
    oy: int,
    pal: Seq<(Seq<char>, Rgba)>,
    strict: bool,
)
    requires
        0 <= i < items.len(),
    ensures
        item_error(items[i].node, pal, strict) is Some ==> draw_items_until_error(c, items, i, ox, oy, pal, strict)
            == draw_item_until_error(c, items[i].node, ox, oy, pal, strict),
        item_error(items[i].node, pal, strict) is None ==> draw_items_until_error(c, items, i, ox, oy, pal, strict)
            == draw_items_until_error(draw_item(c, items[i].node, ox, oy, pal, strict), items, i + 1, ox, oy, pal, strict),
{
    reveal(draw_items_until_error);
    reveal(draw_item_until_error);
}

proof fn lemma_item_until_error(
    c: CanvasModel,
    item: ItemModel,
    ox: int,
    oy: int,
    pal: Seq<(Seq<char>, Rgba)>,
    strict: bool,
)
    ensures
        !(item is Group) && item_error(item, pal, strict) is Some ==> draw_item_until_error(
            c,
            item,
            ox,
            oy,
            pal,
            strict,
        ) == c,
        item matches ItemModel::Group { x, y, items, .. } ==> draw_item_until_error(c, item, ox, oy, pal, strict)
            == draw_items_until_error(c, items, 0, ox + x, oy + y, pal, strict),
{
    reveal(draw_item_until_error);
    reveal(draw_items_until_error);
}

/// Drawing the item stays within what the renderer can compute: every
/// position it computes fits in an `i32`, and every color it resolves is a
/// palette name or a literal that can be read.
pub open spec fn item_runs(item: ItemModel, ox: int, oy: int, pal: Seq<(Seq<char>, Rgba)>, strict: bool) -> bool
    decreases item, 0nat,
{
    match item {
        ItemModel::Pixel { x, y, color } => fits_i32(ox + x) && fits_i32(oy + y) && resolvable(color.raw, pal),
        ItemModel::Line { x1, y1, x2, y2, color } => fits_i32(ox + x1) && fits_i32(oy + y1) && fits_i32(ox + x2)
            && fits_i32(oy + y2) && resolvable(color.raw, pal),
        ItemModel::Rect { x, y, w, h, color } => resolvable(color.raw, pal) && (w > 0 && h > 0 && color_error(
            color,
            pal,
            strict,
        ) is None ==> fits_i32(ox + x) && fits_i32(ox + x + w - 1) && fits_i32(oy + y) && fits_i32(oy + y + h - 1)),
        ItemModel::Fill { x, y, color } => fits_i32(ox + x) && fits_i32(oy + y) && resolvable(color.raw, pal),
        ItemModel::Circle { cx, cy, color, .. } => fits_i32(ox + cx) && fits_i32(oy + cy) && resolvable(
            color.raw,
            pal,
        ),
        ItemModel::Group { x, y, items, .. } => fits_i32(ox + x) && fits_i32(oy + y) && items_run(
            items,
            0,
            ox + x,
            oy + y,
            pal,
            strict,
        ),
    }
}

/// `items[i..]` run, up to the first item that fails.
pub open spec fn items_run(
    items: Seq<SpannedModel<ItemModel>>,
    i: int,
    ox: int,
    oy: int,
    pal: Seq<(Seq<char>, Rgba)>,
    strict: bool,
) -> bool
    decreases items, items.len() - i,
{
    if i < 0 || i >= items.len() {
        true
    } else {
        item_runs(items[i].node, ox, oy, pal, strict) && (item_error(items[i].node, pal, strict) is None
            ==> items_run(items, i + 1, ox, oy, pal, strict))
    }
}

/// Drawing the items on `c`: the first color error, or the finished canvas.
pub open spec fn render_items_spec(
    c: CanvasModel,
    items: Seq<SpannedModel<ItemModel>>,
    ox: int,
    oy: int,
    pal: Seq<(Seq<char>, Rgba)>,
    strict: bool,
) -> Result<CanvasModel, DiagnosticModel> {
    match items_error(items, 0, pal, strict) {
        Some(e) => Err(e),
        None => Ok(draw_items(c, items, 0, ox, oy, pal, strict)),
    }
}

// ---------------------------------------------------------------------------
// Drawing items.

fn render_item(canvas: &mut Canvas, doc: &ValidDocument, item: &Item, ox: i32, oy: i32) -> (r: Result<(), Diagnostic>)
    requires
        old(canvas).wf(),
        item_runs(item_model(*item), ox as int, oy as int, doc.palette@, doc.strict_palette),
    ensures
        final(canvas).wf(),
        match item_error(item_model(*item), doc.palette@, doc.strict_palette) {
            Some(e) => r matches Err(d) && d@ == e && final(canvas)@ == draw_item_until_error(
                old(canvas)@,
                item_model(*item),
                ox as int,
                oy as int,
                doc.palette@,
                doc.strict_palette,
            ),
            None => r is Ok && final(canvas)@ == draw_item(
                old(canvas)@,
                item_model(*item),
                ox as int,
                oy as int,
                doc.palette@,
                doc.strict_palette,
            ),
        },
    decreases *item, 0nat,
{
    let pal = &doc.palette;
    let strict = doc.strict_palette;
    proof {
        lemma_item_until_error(canvas@, item_model(*item), ox as int, oy as int, doc.palette@, doc.strict_palette);
    }
    match item {
        Item::Pixel { x, y, color } => {
            let ax = ox + *x;
            let ay = oy + *y;
            match resolve_color(color, pal, strict) {
                Ok(c) => {
                    canvas.set(ax as i64, ay as i64, c);
                    Ok(())
                },
                Err(e) => Err(e),
            }
        },
        Item::Line { x1, y1, x2, y2, color } => {
            let ax1 = ox + *x1;
            let ay1 = oy + *y1;
            let ax2 = ox + *x2;
            let ay2 = oy + *y2;
            match resolve_color(color, pal, strict) {
                Ok(c) => {
                    canvas.line(ax1 as i64, ay1 as i64, ax2 as i64, ay2 as i64, c);
                    Ok(())
                },
                Err(e) => Err(e),
            }
        },
        Item::Rect { x, y, w, h, color } => {
            match resolve_color(color, pal, strict) {
                Ok(c) => {
                    let s = Shape::Rect {
                        x: ox as i64 + *x as i64,
                        y: oy as i64 + *y as i64,
                        w: *w as i64,
                        h: *h as i64,
                    };
                    canvas.paint(&s, c);
                    Ok(())
                },
                Err(e) => Err(e),
            }
        },
        Item::Fill { x, y, color } => {
            let ax = ox + *x;
            let ay = oy + *y;
            match resolve_color(color, pal, strict) {
                Ok(c) => {
                    canvas.fill(ax as i64, ay as i64, c);
                    Ok(())
                },
                Err(e) => Err(e),
            }
        },
        Item::Circle { cx, cy, r, color } => {
            let ax = ox + *cx;
            let ay = oy + *cy;
            match resolve_color(color, pal, strict) {
                Ok(c) => {
                    let s = Shape::Disc { cx: ax as i64, cy: ay as i64, r: *r as i64 };
                    canvas.paint(&s, c);
                    Ok(())
                },
                Err(e) => Err(e),
            }
        },
        Item::Group { x, y, items, .. } => {
            let nx = ox + *x;
            let ny = oy + *y;
            let r = render_items(canvas, doc, items, nx, ny);
            proof {
                assert(item_model(*item) matches ItemModel::Group { items: its, .. } && its == items_model(items@));
            }
            r
        },
    }
}

fn render_items(canvas: &mut Canvas, doc: &ValidDocument, items: &Vec<Spanned<Item>>, ox: i32, oy: i32) -> (r:
    Result<(), Diagnostic>)
    requires
        old(canvas).wf(),
        items_run(items_model(items@), 0, ox as int, oy as int, doc.palette@, doc.strict_palette),
    ensures
        final(canvas).wf(),
        match render_items_spec(old(canvas)@, items_model(items@), ox as int, oy as int, doc.palette@, doc.strict_palette) {
            Err(e) => r matches Err(d) && d@ == e && final(canvas)@ == draw_items_until_error(
                old(canvas)@,
                items_model(items@),
                0,
                ox as int,
                oy as int,
                doc.palette@,
                doc.strict_palette,
            ),
            Ok(c) => r is Ok && final(canvas)@ == c,
        },
    decreases *items, 0nat,
{
    let ghost m = items_model(items@);
    let ghost pal = doc.palette@;
    let ghost strict = doc.strict_palette;
    let ghost c0 = canvas@;
    proof {
        lemma_items_model(items@);
    }
    let mut i: usize = 0;
    while i < items.len()
        invariant
            0 <= i <= items@.len(),
            m == items_model(items@),
            m.len() == items@.len(),
            pal == doc.palette@,
            strict == doc.strict_palette,
            canvas.wf(),
            items_error(m, 0, pal, strict) == items_error(m, i as int, pal, strict),
            draw_items(c0, m, 0, ox as int, oy as int, pal, strict) == draw_items(
                canvas@,
                m,
                i as int,
                ox as int,
                oy as int,
                pal,
                strict,
            ),
            c0 == old(canvas)@,
            draw_items_until_error(c0, m, 0, ox as int, oy as int, pal, strict) == draw_items_until_error(
                canvas@,
                m,
                i as int,
                ox as int,
                oy as int,
                pal,
                strict,
            ),
            items_run(m, i as int, ox as int, oy as int, pal, strict),
        decreases items@.len() - i,
    {
        proof {
            lemma_items_model(items@);
            assert(m[i as int].node == item_model(items@[i as int].node));
        }
        let ghost before = canvas@;
        proof {
            lemma_until_error_step(canvas@, m, i as int, ox as int, oy as int, pal, strict);
        }
        match render_item(canvas, doc, &items[i].node, ox, oy) {
            Ok(()) => {},
            Err(e) => {
                proof {
                    assert(item_error(m[i as int].node, pal, strict) is Some);
                    assert(canvas@ == draw_item_until_error(before, m[i as int].node, ox as int, oy as int, pal, strict));
                    assert(canvas@ == draw_items_until_error(before, m, i as int, ox as int, oy as int, pal, strict));
                    assert(canvas@ == draw_items_until_error(c0, m, 0, ox as int, oy as int, pal, strict));
                }
                return Err(e);
            },
        }
        i = i + 1;
    }
    Ok(())
}

// ---------------------------------------------------------------------------
// Rendering a document, a frame, an animation.

/// The first color error met when drawing the statement.
pub open spec fn stmt_error(s: StmtModel, pal: Seq<(Seq<char>, Rgba)>, strict: bool) -> Option<DiagnosticModel> {
    match s {
        StmtModel::Item(item) => item_error(item, pal, strict),
        StmtModel::Group { items, .. } => items_error(items, 0, pal, strict),
        _ => None,
    }
}

pub open spec fn stmts_error(ss: Seq<SpannedModel<StmtModel>>, i: int, pal: Seq<(Seq<char>, Rgba)>, strict: bool) -> Option<
    DiagnosticModel,
>
    decreases ss.len() - i,
{
    if i < 0 || i >= ss.len() {
        None
    } else {
        match stmt_error(ss[i].node, pal, strict) {
            Some(e) => Some(e),
            None => stmts_error(ss, i + 1, pal, strict),
        }
    }
}

/// Top-level items and groups are drawn; frames, animations and settings
/// are not.
pub open spec fn draw_stmt(c: CanvasModel, s: StmtModel, pal: Seq<(Seq<char>, Rgba)>, strict: bool) -> CanvasModel {
    match s {
        StmtModel::Item(item) => draw_item(c, item, 0, 0, pal, strict),
        StmtModel::Group { x, y, items, .. } => draw_items(c, items, 0, x as int, y as int, pal, strict),
        _ => c,
    }
}

pub open spec fn draw_stmts(
    c: CanvasModel,
    ss: Seq<SpannedModel<StmtModel>>,
    i: int,
    pal: Seq<(Seq<char>, Rgba)>,
    strict: bool,
) -> CanvasModel
    decreases ss.len() - i,
{
    if i < 0 || i >= ss.len() {
        c
    } else {
        draw_stmts(draw_stmt(c, ss[i].node, pal, strict), ss, i + 1, pal, strict)
    }
}

pub open spec fn stmt_runs(s: StmtModel, pal: Seq<(Seq<char>, Rgba)>, strict: bool) -> bool {
    match s {
        StmtModel::Item(item) => item_runs(item, 0, 0, pal, strict),
        StmtModel::Group { x, y, items, .. } => items_run(items, 0, x as int, y as int, pal, strict),
        _ => true,
    }
}

/// The statements from `i` on run, up to the first that fails.
pub open spec fn stmts_run(ss: Seq<SpannedModel<StmtModel>>, i: int, pal: Seq<(Seq<char>, Rgba)>, strict: bool) -> bool
    decreases ss.len() - i,
{
    if i < 0 || i >= ss.len() {
        true
    } else {
        stmt_runs(ss[i].node, pal, strict) && (stmt_error(ss[i].node, pal, strict) is None ==> stmts_run(
            ss,
            i + 1,
            pal,
            strict,
        ))
    }
}

/// The blank canvas of a validated document.
pub open spec fn doc_blank(doc: ValidDocument) -> CanvasModel {
    blank(doc.canvas.0, doc.canvas.1, doc.background)
}

/// The canvas of a document can be allocated: its pixel count is computed
/// as a `u32`.
pub open spec fn canvas_fits(doc: ValidDocument) -> bool {
    doc.canvas.0 as int * doc.canvas.1 as int <= u32::MAX
}

/// Rendering the document: the first color error, or the canvas with every
/// top-level item and group drawn in order.
pub open spec fn render_spec(doc: ValidDocument) -> Result<CanvasModel, DiagnosticModel> {
    match stmts_error(doc.document@, 0, doc.palette@, doc.strict_palette) {
        Some(e) => Err(e),
        None => Ok(draw_stmts(doc_blank(doc), doc.document@, 0, doc.palette@, doc.strict_palette)),
    }
}

/// Renders the document's top-level items and groups.
pub fn render(doc: &ValidDocument) -> (r: Result<Canvas, Diagnostic>)
    requires
        canvas_fits(*doc),
        stmts_run(doc.document@, 0, doc.palette@, doc.strict_palette),
    ensures
        match render_spec(*doc) {
            Ok(c) => r matches Ok(canvas) && canvas@ == c && canvas.wf(),
            Err(e) => r matches Err(d) && d@ == e,
        },
{
    let ghost ss = doc.document@;
    let ghost pal = doc.palette@;
    let ghost strict = doc.strict_palette;
    let mut canvas = Canvas::new(doc.canvas.0, doc.canvas.1, doc.background);
    let ghost c0 = canvas@;
    let stmts = &doc.document.statements;
    let mut i: usize = 0;
    while i < stmts.len()
        invariant
            0 <= i <= stmts@.len(),
            ss == doc.document@,
            ss.len() == stmts@.len(),
            *stmts == doc.document.statements,
            pal == doc.palette@,
            strict == doc.strict_palette,
            c0 == doc_blank(*doc),
            canvas.wf(),
            stmts_error(ss, 0, pal, strict) == stmts_error(ss, i as int, pal, strict),
            draw_stmts(c0, ss, 0, pal, strict) == draw_stmts(canvas@, ss, i as int, pal, strict),
            stmts_run(ss, i as int, pal, strict),
        decreases stmts@.len() - i,
    {
        let stmt = &stmts[i];
        proof {
            assert(ss[i as int] == stmt@);
        }
        match &stmt.node {
            Stmt::Item(item) => {
                match render_item(&mut canvas, doc, item, 0, 0) {
                    Ok(()) => {},
                    Err(e) => {
                        return Err(e);
                    },
                }
            },
            Stmt::Group { x, y, items, .. } => {
                match render_items(&mut canvas, doc, items, *x, *y) {
                    Ok(()) => {},
                    Err(e) => {
                        return Err(e);
                    },
                }
            },
            _ => {},
        }
        i = i + 1;
    }
    Ok(canvas)
}

/// The items of the first frame called `name`, if there is one.
pub open spec fn frame_items(ss: Seq<SpannedModel<StmtModel>>, name: Seq<char>, i: int) -> Option<
    Seq<SpannedModel<ItemModel>>,
>
    decreases ss.len() - i,
{
    if i < 0 || i >= ss.len() {
        None
    } else {
        match ss[i].node {
            StmtModel::Frame { name: n, items } => if n == name {
                Some(items)
            } else {
                frame_items(ss, name, i + 1)
            },
            _ => frame_items(ss, name, i + 1),
        }
    }
}

pub open spec fn unknown_frame(name: Seq<char>) -> DiagnosticModel {
    diag("E031"@, Span { line: 1, column: 1, len: 1 }, "unknown frame `"@ + name + "`"@)
}

pub open spec fn unknown_animation(name: Seq<char>) -> DiagnosticModel {
    diag("E032"@, Span { line: 1, column: 1, len: 1 }, "unknown animation `"@ + name + "`"@)
}

/// Rendering the frame `name` alone on a blank canvas.
pub open spec fn render_frame_spec(doc: ValidDocument, name: Seq<char>) -> Result<CanvasModel, DiagnosticModel> {
    match frame_items(doc.document@, name, 0) {
        None => Err(unknown_frame(name)),
        Some(items) => render_items_spec(doc_blank(doc), items, 0, 0, doc.palette@, doc.strict_palette),
    }
}

/// Rendering the frame `name` stays within what the renderer can compute.
pub open spec fn frame_runs(doc: ValidDocument, name: Seq<char>) -> bool {
    match frame_items(doc.document@, name, 0) {
        None => true,
        Some(items) => canvas_fits(doc) && items_run(items, 0, 0, 0, doc.palette@, doc.strict_palette),
    }
}

/// Renders the first frame called `frame_name` on a blank canvas.
pub fn render_frame(doc: &ValidDocument, frame_name: &str) -> (r: Result<Canvas, Diagnostic>)
    requires
        frame_runs(*doc, frame_name@),
    ensures
        match render_frame_spec(*doc, frame_name@) {
            Ok(c) => r matches Ok(canvas) && canvas@ == c && canvas.wf(),
            Err(e) => r matches Err(d) && d@ == e,
        },
{
    let ghost ss = doc.document@;
    let stmts = &doc.document.statements;
    let mut i: usize = 0;
    while i < stmts.len()
        invariant
            0 <= i <= stmts@.len(),
            ss == doc.document@,
            ss.len() == stmts@.len(),
            *stmts == doc.document.statements,
            frame_items(ss, frame_name@, 0) == frame_items(ss, frame_name@, i as int),
            frame_runs(*doc, frame_name@),
        decreases stmts@.len() - i,
    {
        let stmt = &stmts[i];
        proof {
            assert(ss[i as int] == stmt@);
        }
        if let Stmt::Frame { name, items } = &stmt.node {
            if str_eq(name.as_str(), frame_name) {
                let mut canvas = Canvas::new(doc.canvas.0, doc.canvas.1, doc.background);
                return match render_items(&mut canvas, doc, items, 0, 0) {
                    Ok(()) => Ok(canvas),
                    Err(e) => Err(e),
                };
            }
        }
        i = i + 1;
    }
    Err(Diagnostic::new("E031", Span::new(1, 1, 1), message("unknown frame `", frame_name, "`").as_str()))
}

/// The rate and frame list of the first animation called `name`.
pub open spec fn animation_of(ss: Seq<SpannedModel<StmtModel>>, name: Seq<char>, i: int) -> Option<
    (i32, Seq<FrameRefModel>),
>
    decreases ss.len() - i,
{
    if i < 0 || i >= ss.len() {
        None
    } else {
        match ss[i].node {
            StmtModel::Animation { name: n, fps, frames } => if n == name {
                Some((fps, frames))
            } else {
                animation_of(ss, name, i + 1)
            },
            _ => animation_of(ss, name, i + 1),
        }
    }
}

fn clone_frame_ref(f: &AnimationFrame) -> (r: AnimationFrame)
    ensures
        r@ == f@,
{
    AnimationFrame { name: clone_string(&f.name), span: f.span }
}

/// The rate and frame list of the first animation called `animation_name`.
pub fn animation_frames(doc: &ValidDocument, animation_name: &str) -> (r: Result<(i32, Vec<AnimationFrame>), Diagnostic>)
    ensures
        match animation_of(doc.document@, animation_name@, 0) {
            Some((fps, refs)) => r matches Ok((f, v)) && f == fps && frames_model(v@) == refs,
            None => r matches Err(d) && d@ == unknown_animation(animation_name@),
        },
{
    let ghost ss = doc.document@;
    let stmts = &doc.document.statements;
    let mut i: usize = 0;
    while i < stmts.len()
        invariant
            0 <= i <= stmts@.len(),
            ss == doc.document@,
            ss.len() == stmts@.len(),
            *stmts == doc.document.statements,
            animation_of(ss, animation_name@, 0) == animation_of(ss, animation_name@, i as int),
        decreases stmts@.len() - i,
    {
        let stmt = &stmts[i];
        proof {
            assert(ss[i as int] == stmt@);
        }
        if let Stmt::Animation { name, fps, frames } = &stmt.node {
            if str_eq(name.as_str(), animation_name) {
                let mut out: Vec<AnimationFrame> = Vec::new();
                let mut j: usize = 0;
                while j < frames.len()
                    invariant
                        0 <= j <= frames@.len(),
                        out@.len() == j,
                        frames_model(out@) == frames_model(frames@).take(j as int),
                    decreases frames@.len() - j,
                {
                    let ghost before = out@;
                    out.push(clone_frame_ref(&frames[j]));
                    proof {
                        assert(frames_model(out@) =~= frames_model(before).push(frames@[j as int]@));
                        assert(frames_model(frames@).take(j + 1) =~= frames_model(frames@).take(j as int).push(frames@[j as int]@));
                    }
                    j = j + 1;
                }
                proof {
                    assert(frames_model(frames@).take(frames@.len() as int) =~= frames_model(frames@));
                }
                return Ok((*fps, out));
            }
        }
        i = i + 1;
    }
    Err(
        Diagnostic::new(
            "E032",
            Span::new(1, 1, 1),
            message("unknown animation `", animation_name, "`").as_str(),
        ),
    )
}

/// Rendering the first `n` frames of an animation in order: the first error,
/// or each frame's name with its canvas.
pub open spec fn frames_render(doc: ValidDocument, refs: Seq<FrameRefModel>, n: int) -> Result<
    Seq<(Seq<char>, CanvasModel)>,
    DiagnosticModel,
>
    decreases n,
{
    if n <= 0 {
        Ok(seq![])
    } else {
        match frames_render(doc, refs, n - 1) {
            Err(e) => Err(e),
            Ok(prev) => match render_frame_spec(doc, refs[n - 1].name) {
                Err(e) => Err(e),
                Ok(c) => Ok(prev.push((refs[n - 1].name, c))),
            },
        }
    }
}

/// Once a frame fails, rendering more frames gives the same error.
proof fn lemma_frames_render_err(doc: ValidDocument, refs: Seq<FrameRefModel>, n: int, m: int)
    requires
        0 <= n <= m,
        frames_render(doc, refs, n) is Err,
    ensures
        frames_render(doc, refs, m) == frames_render(doc, refs, n),
    decreases m - n,
{
    if m > n {
        lemma_frames_render_err(doc, refs, n, m - 1);
    }
}

/// Every frame that rendering the animation reaches stays within what the
/// renderer can compute.
pub open spec fn frames_run(doc: ValidDocument, refs: Seq<FrameRefModel>) -> bool {
    forall|j: int|
        0 <= j < refs.len() ==> (#[trigger] frames_render(doc, refs, j) is Ok ==> frame_runs(doc, refs[j].name))
}

pub open spec fn render_animation_spec(doc: ValidDocument, name: Seq<char>) -> Result<
    (i32, Seq<(Seq<char>, CanvasModel)>),
    DiagnosticModel,
> {
    match animation_of(doc.document@, name, 0) {
        None => Err(unknown_animation(name)),
        Some((fps, refs)) => match frames_render(doc, refs, refs.len() as int) {
            Err(e) => Err(e),
            Ok(frames) => Ok((fps, frames)),
        },
    }
}

pub open spec fn animation_runs(doc: ValidDocument, name: Seq<char>) -> bool {
    match animation_of(doc.document@, name, 0) {
        None => true,
        Some((_, refs)) => frames_run(doc, refs),
    }
}

pub open spec fn rendered_view(v: Seq<(String, Canvas)>) -> Seq<(Seq<char>, CanvasModel)> {
    v.map_values(|p: (String, Canvas)| (p.0@, p.1@))
}

/// Renders every frame of the first animation called `animation_name`, in
/// order.
pub fn render_animation(doc: &ValidDocument, animation_name: &str) -> (r: Result<(i32, Vec<(String, Canvas)>), Diagnostic>)
    requires
        animation_runs(*doc, animation_name@),
    ensures
        match render_animation_spec(*doc, animation_name@) {
            Ok((fps, frames)) => r matches Ok((f, v)) && f == fps && rendered_view(v@) == frames && forall|k: int|
                0 <= k < v@.len() ==> (#[trigger] v@[k]).1.wf(),
            Err(e) => r matches Err(d) && d@ == e,
        },
{
    let (fps, frames) = match animation_frames(doc, animation_name) {
        Ok(p) => p,
        Err(e) => {
            return Err(e);
        },
    };
    let ghost refs = frames_model(frames@);
    let mut rendered: Vec<(String, Canvas)> = Vec::new();
    proof {
        assert(rendered_view(rendered@) =~= Seq::<(Seq<char>, CanvasModel)>::empty());
    }
    let mut j: usize = 0;
    while j < frames.len()
        invariant
            0 <= j <= frames@.len(),
            refs == frames_model(frames@),
            animation_of(doc.document@, animation_name@, 0) == Some((fps, refs)),
            animation_runs(*doc, animation_name@),
            frames_render(*doc, refs, j as int) == Ok::<Seq<(Seq<char>, CanvasModel)>, DiagnosticModel>(
                rendered_view(rendered@),
            ),
            forall|k: int| 0 <= k < rendered@.len() ==> (#[trigger] rendered@[k]).1.wf(),
        decreases frames@.len() - j,
    {
        let f = &frames[j];
        proof {
            assert(refs[j as int] == f@);
        }
        match render_frame(doc, f.name.as_str()) {
            Ok(c) => {
                let ghost before = rendered@;
                rendered.push((clone_string(&f.name), c));
                proof {
                    assert(rendered_view(rendered@) =~= rendered_view(before).push((refs[j as int].name, c@)));
                }
            },
            Err(e) => {
                proof {
                    lemma_frames_render_err(*doc, refs, j + 1, refs.len() as int);
                }
                return Err(e);
            },
        }
        j = j + 1;
    }
    Ok((fps, rendered))
}

// ---------------------------------------------------------------------------
// Deciding whether rendering stays within what the renderer can compute.

fn fits_exec(v: i64) -> (b: bool)
    ensures
        b == fits_i32(v as int),
{
    -2147483648 <= v && v <= 2147483647
}

/// Whether the color resolves without stopping, and then whether it fails.
fn color_check(c: &ColorExpr, doc: &ValidDocument) -> (r: (bool, bool))
    ensures
        r.0 == resolvable(c.raw@, doc.palette@),
        r.0 ==> r.1 == (color_error(c@, doc.palette@, doc.strict_palette) is Some),
{
    let ok = doc.palette.get(c.raw.as_str()).is_some() || in_color_domain(c.raw.as_str());
    if !ok {
        return (false, false);
    }
    let failed = resolve_color(c, &doc.palette, doc.strict_palette).is_err();
    (true, failed)
}

/// Whether drawing the item at offset `(ox, oy)` runs, and then whether it
/// fails on a color.
fn item_check(item: &Item, ox: i64, oy: i64, doc: &ValidDocument) -> (r: (bool, bool))
    requires
        fits_i32(ox as int),
        fits_i32(oy as int),
    ensures
        r.0 == item_runs(item_model(*item), ox as int, oy as int, doc.palette@, doc.strict_palette),
        r.0 ==> r.1 == (item_error(item_model(*item), doc.palette@, doc.strict_palette) is Some),
    decreases *item, 0nat,
{
    match item {
        Item::Pixel { x, y, color } => {
            let (ok, failed) = color_check(color, doc);
            (fits_exec(ox + *x as i64) && fits_exec(oy + *y as i64) && ok, failed)
        },
        Item::Line { x1, y1, x2, y2, color } => {
            let (ok, failed) = color_check(color, doc);
            (fits_exec(ox + *x1 as i64) && fits_exec(oy + *y1 as i64) && fits_exec(ox + *x2 as i64) && fits_exec(
                oy + *y2 as i64,
            ) && ok, failed)
        },
        Item::Rect { x, y, w, h, color } => {
            let (ok, failed) = color_check(color, doc);
            if !ok {
                return (false, false);
            }
            let drawn = *w > 0 && *h > 0 && !failed;
            let ax = ox + *x as i64;
            let ay = oy + *y as i64;
            (!drawn || (fits_exec(ax) && fits_exec(ax + *w as i64 - 1) && fits_exec(ay) && fits_exec(
                ay + *h as i64 - 1,
            )), failed)
        },
        Item::Fill { x, y, color } => {
            let (ok, failed) = color_check(color, doc);
            (fits_exec(ox + *x as i64) && fits_exec(oy + *y as i64) && ok, failed)
        },
        Item::Circle { cx, cy, color, .. } => {
            let (ok, failed) = color_check(color, doc);
            (fits_exec(ox + *cx as i64) && fits_exec(oy + *cy as i64) && ok, failed)
        },
        Item::Group { x, y, items, .. } => {
            let nx = ox + *x as i64;
            let ny = oy + *y as i64;
            if !(fits_exec(nx) && fits_exec(ny)) {
                return (false, false);
            }
            items_check(items, nx, ny, doc)
        },
    }
}

fn items_check(items: &Vec<Spanned<Item>>, ox: i64, oy: i64, doc: &ValidDocument) -> (r: (bool, bool))
    requires
        fits_i32(ox as int),
        fits_i32(oy as int),
    ensures
        r.0 == items_run(items_model(items@), 0, ox as int, oy as int, doc.palette@, doc.strict_palette),
        r.0 ==> r.1 == (items_error(items_model(items@), 0, doc.palette@, doc.strict_palette) is Some),
    decreases *items, 0nat,
{
    let ghost m = items_model(items@);
    let ghost pal = doc.palette@;
    let ghost strict = doc.strict_palette;
    proof {
        lemma_items_model(items@);
    }
    let mut i: usize = 0;
    while i < items.len()
        invariant
            0 <= i <= items@.len(),
            m == items_model(items@),
            m.len() == items@.len(),
            pal == doc.palette@,
            strict == doc.strict_palette,
            fits_i32(ox as int),
            fits_i32(oy as int),
            items_run(m, 0, ox as int, oy as int, pal, strict) == items_run(m, i as int, ox as int, oy as int, pal, strict),
            items_error(m, 0, pal, strict) == items_error(m, i as int, pal, strict),
        decreases items@.len() - i,
    {
        proof {
            lemma_items_model(items@);
            assert(m[i as int].node == item_model(items@[i as int].node));
        }
        let (runs, failed) = item_check(&items[i].node, ox, oy, doc);
        if !runs {
            return (false, false);
        }
        if failed {
            return (true, true);
        }
        i = i + 1;
    }
    (true, false)
}

fn canvas_fits_exec(doc: &ValidDocument) -> (b: bool)
    ensures
        b == canvas_fits(*doc),
{
    let w = doc.canvas.0 as u64;
    let h = doc.canvas.1 as u64;
    proof {
        assert(w * h <= 0xffff_ffff * 0xffff_ffff) by (nonlinear_arith)
            requires
                w <= 0xffff_ffff,
                h <= 0xffff_ffff,
        ;
    }
    w * h <= 4294967295
}

/// Whether `render` can be called on the document: its canvas can be
/// allocated, and its top-level items and groups stay within what the
/// renderer computes (positions in `i32`, colors that can be read), up to
/// the first that fails on a color.
pub fn renderable(doc: &ValidDocument) -> (b: bool)
    ensures
        b == (canvas_fits(*doc) && stmts_run(doc.document@, 0, doc.palette@, doc.strict_palette)),
{
    if !canvas_fits_exec(doc) {
        return false;
    }
    let ghost ss = doc.document@;
    let ghost pal = doc.palette@;
    let ghost strict = doc.strict_palette;
    let stmts = &doc.document.statements;
    let mut i: usize = 0;
    while i < stmts.len()
        invariant
            0 <= i <= stmts@.len(),
            ss == doc.document@,
            ss.len() == stmts@.len(),
            *stmts == doc.document.statements,
            pal == doc.palette@,
            strict == doc.strict_palette,
            canvas_fits(*doc),
            stmts_run(ss, 0, pal, strict) == stmts_run(ss, i as int, pal, strict),
        decreases stmts@.len() - i,
    {
        let stmt = &stmts[i];
        proof {
            assert(ss[i as int] == stmt@);
        }
        let (runs, failed) = match &stmt.node {
            Stmt::Item(item) => item_check(item, 0, 0, doc),
            Stmt::Group { x, y, items, .. } => items_check(items, *x as i64, *y as i64, doc),
            _ => (true, false),
        };
        if !runs {
            return false;
        }
        if failed {
            return true;
        }
        i = i + 1;
    }
    true
}

/// Whether rendering the frame `name` runs, and then whether it fails.
fn frame_check(doc: &ValidDocument, name: &str) -> (r: (bool, bool))
    ensures
        r.0 == frame_runs(*doc, name@),
        r.0 ==> r.1 == (render_frame_spec(*doc, name@) is Err),
{
    let ghost ss = doc.document@;
    let stmts = &doc.document.statements;
    let mut i: usize = 0;
    while i < stmts.len()
        invariant
            0 <= i <= stmts@.len(),
            ss == doc.document@,
            ss.len() == stmts@.len(),
            *stmts == doc.document.statements,
            frame_items(ss, name@, 0) == frame_items(ss, name@, i as int),
        decreases stmts@.len() - i,
    {
        let stmt = &stmts[i];
        proof {
            assert(ss[i as int] == stmt@);
        }
        if let Stmt::Frame { name: n, items } = &stmt.node {
            if str_eq(n.as_str(), name) {
                if !canvas_fits_exec(doc) {
                    return (false, false);
                }
                return items_check(items, 0, 0, doc);
            }
        }
        i = i + 1;
    }
    (true, true)
}

/// Whether `render_frame` can be called on the document with this frame name.
pub fn frame_renderable(doc: &ValidDocument, frame_name: &str) -> (b: bool)
    ensures
        b == frame_runs(*doc, frame_name@),
{
    frame_check(doc, frame_name).0
}

/// Whether `render_animation` can be called on the document with this
/// animation name: every frame that rendering reaches can be rendered.
pub fn animation_renderable(doc: &ValidDocument, animation_name: &str) -> (b: bool)
    ensures
        b == animation_runs(*doc, animation_name@),
{
    let frames = match animation_frames(doc, animation_name) {
        Ok((_, frames)) => frames,
        Err(_) => {
            return true;
        },
    };
    let ghost refs = frames_model(frames@);
    let mut j: usize = 0;
    while j < frames.len()
        invariant
            0 <= j <= frames@.len(),
            refs == frames_model(frames@),
            animation_of(doc.document@, animation_name@, 0) matches Some((_, r)) && r == refs,
            frames_render(*doc, refs, j as int) is Ok,
            forall|k: int|
                0 <= k < j ==> (#[trigger] frames_render(*doc, refs, k) is Ok ==> frame_runs(*doc, refs[k].name)),
        decreases frames@.len() - j,
    {
        proof {
            assert(refs[j as int] == frames@[j as int]@);
        }
        let (runs, failed) = frame_check(doc, frames[j].name.as_str());
        if !runs {
            return false;
        }
        if failed {
            proof {
                assert forall|k: int|
                    0 <= k < refs.len() implies (#[trigger] frames_render(*doc, refs, k) is Ok ==> frame_runs(
                    *doc,
                    refs[k].name,
                )) by {
                    if k > j {
                        lemma_frames_render_err(*doc, refs, j + 1, k);
                    }
                }
            }
            return true;
        }
        j = j + 1;
    }
    true
}

} // verus!
