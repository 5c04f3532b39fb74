//! Laws that tie validation, drawing and rendering together.

use vstd::prelude::*;
use crate::ast::{ColorModel, FrameRefModel, ItemModel, SpannedModel, StmtModel};
use crate::canvas::{model_wf, on_canvas, painted, pixel_at, set_pixel, CanvasModel};
use crate::color::{resolve, transparent, Rgba};
use crate::diagnostics::{DiagnosticModel, Span};
use crate::render::{
    color_of, doc_blank, draw_stmt, draw_stmts, animation_of, frames_render, render_animation_spec, unknown_animation, draw_item, draw_items, frame_items, item_error, items_error, render_frame_spec, render_spec, stmt_error, stmts_error,
};
use crate::validate::{
    check_animations, check_color, check_item, check_items, check_refs, declare, pass_stmt, pass_stmts,
    second_pass, setup, validation_errors, Checked, Pass, ValidDocument,
};

verus! {

broadcast use vstd::seq::group_seq_axioms;

// ---------------------------------------------------------------------------
// Validation finds every color error that rendering would meet.

proof fn lemma_check_color(c: ColorModel, pal: Seq<(Seq<char>, Rgba)>, strict: bool, st: Checked)
    ensures
        check_color(c, pal, strict, st).errors.len() >= st.errors.len(),
        check_color(c, pal, strict, st).errors.len() == st.errors.len() ==> resolve(c.raw, c.span, pal, strict)
            is Ok,
{
}

proof fn lemma_declare(name: Seq<char>, span: Span, st: Checked)
    ensures
        declare(name, span, st).errors.len() >= st.errors.len(),
{
}

pub(crate) proof fn lemma_check_item(item: ItemModel, span: Span, pal: Seq<(Seq<char>, Rgba)>, strict: bool, st: Checked)
    ensures
        check_item(item, span, pal, strict, st).errors.len() >= st.errors.len(),
        check_item(item, span, pal, strict, st).errors.len() == st.errors.len() ==> item_error(item, pal, strict)
            is None,
    decreases item, 0nat,
{
    match item {
        ItemModel::Pixel { color, .. } => lemma_check_color(color, pal, strict, st),
        ItemModel::Line { color, .. } => lemma_check_color(color, pal, strict, st),
        ItemModel::Rect { color, .. } => lemma_check_color(color, pal, strict, st),
        ItemModel::Fill { color, .. } => lemma_check_color(color, pal, strict, st),
        ItemModel::Circle { color, .. } => lemma_check_color(color, pal, strict, st),
        ItemModel::Group { name, items, .. } => {
            lemma_declare(name, span, st);
            lemma_check_items(items, 0, pal, strict, declare(name, span, st));
        },
    }
}

pub(crate) proof fn lemma_check_items(
    items: Seq<SpannedModel<ItemModel>>,
    i: int,
    pal: Seq<(Seq<char>, Rgba)>,
    strict: bool,
    st: Checked,
)
    ensures
        check_items(items, i, pal, strict, st).errors.len() >= st.errors.len(),
        check_items(items, i, pal, strict, st).errors.len() == st.errors.len() ==> items_error(
            items,
            i,
            pal,
            strict,
        ) is None,
    decreases items, items.len() - i,
{
    if 0 <= i < items.len() {
        let st1 = check_item(items[i].node, items[i].span, pal, strict, st);
        lemma_check_item(items[i].node, items[i].span, pal, strict, st);
        lemma_check_items(items, i + 1, pal, strict, st1);
    }
}

/// The statement gives no color error, drawn at the top level or as a frame.
pub open spec fn stmt_clean(s: StmtModel, pal: Seq<(Seq<char>, Rgba)>, strict: bool) -> bool {
    &&& stmt_error(s, pal, strict) is None
    &&& s matches StmtModel::Frame { items, .. } ==> items_error(items, 0, pal, strict) is None
}

proof fn lemma_pass_stmt(s: SpannedModel<StmtModel>, pal: Seq<(Seq<char>, Rgba)>, strict: bool, st: Pass)
    ensures
        pass_stmt(s, pal, strict, st).errors.len() >= st.errors.len(),
        pass_stmt(s, pal, strict, st).errors.len() == st.errors.len() ==> stmt_clean(s.node, pal, strict),
{
    let c0 = Checked { names: st.names, errors: st.errors };
    match s.node {
        StmtModel::Group { name, items, .. } => {
            lemma_declare(name, s.span, c0);
            lemma_check_items(items, 0, pal, strict, declare(name, s.span, c0));
        },
        StmtModel::Frame { name, items } => {
            let c1 = declare(name, s.span, c0);
            lemma_declare(name, s.span, c0);
            let c2 = if st.frames.contains(name) {
                Checked { errors: c1.errors.push(crate::diagnostics::diag("E027"@, s.span, "duplicate frame `"@ + name + "`"@)), ..c1 }
            } else {
                c1
            };
            lemma_check_items(items, 0, pal, strict, c2);
        },
        StmtModel::Item(item) => {
            lemma_check_item(item, s.span, pal, strict, c0);
        },
        _ => {},
    }
}

pub(crate) proof fn lemma_pass_stmts(ss: Seq<SpannedModel<StmtModel>>, i: int, pal: Seq<(Seq<char>, Rgba)>, strict: bool, st: Pass)
    requires
        0 <= i,
    ensures
        pass_stmts(ss, i, pal, strict, st).errors.len() >= st.errors.len(),
        pass_stmts(ss, i, pal, strict, st).errors.len() == st.errors.len() ==> forall|k: int|
            i <= k < ss.len() ==> stmt_clean(#[trigger] ss[k].node, pal, strict),
    decreases ss.len() - i,
{
    if i < ss.len() {
        let st1 = pass_stmt(ss[i], pal, strict, st);
        lemma_pass_stmt(ss[i], pal, strict, st);
        lemma_pass_stmts(ss, i + 1, pal, strict, st1);
    }
}

pub(crate) proof fn lemma_check_refs(
    refs: Seq<crate::ast::FrameRefModel>,
    i: int,
    frames: Seq<Seq<char>>,
    errs: Seq<crate::diagnostics::DiagnosticModel>,
)
    requires
        0 <= i,
    ensures
        check_refs(refs, i, frames, errs).len() >= errs.len(),
        (check_refs(refs, i, frames, errs).len() == errs.len()) == forall|j: int|
            i <= j < refs.len() ==> frames.contains(#[trigger] refs[j].name),
    decreases refs.len() - i,
{
    if 0 <= i < refs.len() {
        let e = if frames.contains(refs[i].name) {
            errs
        } else {
            errs.push(crate::diagnostics::diag("E030"@, refs[i].span, "unknown frame `"@ + refs[i].name + "`"@))
        };
        lemma_check_refs(refs, i + 1, frames, e);
    }
}

/// The frames an animation statement names; none for other statements.
pub open spec fn anim_refs(s: StmtModel) -> Seq<FrameRefModel> {
    match s {
        StmtModel::Animation { frames, .. } => frames,
        _ => seq![],
    }
}

pub(crate) proof fn lemma_check_animations(
    ss: Seq<SpannedModel<StmtModel>>,
    i: int,
    frames: Seq<Seq<char>>,
    errs: Seq<crate::diagnostics::DiagnosticModel>,
)
    requires
        0 <= i,
    ensures
        check_animations(ss, i, frames, errs).len() >= errs.len(),
        (check_animations(ss, i, frames, errs).len() == errs.len()) == forall|k: int, j: int|
            i <= k < ss.len() && 0 <= j < anim_refs(ss[k].node).len() ==> frames.contains(
                (#[trigger] anim_refs(ss[k].node)[j]).name,
            ),
    decreases ss.len() - i,
{
    if 0 <= i < ss.len() {
        let e = match ss[i].node {
            StmtModel::Animation { frames: refs, .. } => check_refs(refs, 0, frames, errs),
            _ => errs,
        };
        if let StmtModel::Animation { frames: refs, .. } = ss[i].node {
            lemma_check_refs(refs, 0, frames, errs);
        }
        lemma_check_animations(ss, i + 1, frames, e);
        let r = anim_refs(ss[i].node);
        assert(e.len() == errs.len() <==> forall|j: int| 0 <= j < r.len() ==> frames.contains(#[trigger] r[j].name));
        if forall|k: int, j: int|
            i <= k < ss.len() && 0 <= j < anim_refs(ss[k].node).len() ==> frames.contains(
                (#[trigger] anim_refs(ss[k].node)[j]).name,
            ) {
            assert forall|j: int| 0 <= j < r.len() implies frames.contains(#[trigger] r[j].name) by {
                assert(frames.contains(anim_refs(ss[i].node)[j].name));
            }
        }
    } else {
        assert forall|k: int, j: int|
            i <= k < ss.len() && 0 <= j < anim_refs(ss[k].node).len() implies frames.contains(
                (#[trigger] anim_refs(ss[k].node)[j]).name,
            ) by {}
    }
}

proof fn lemma_stmts_error_none(ss: Seq<SpannedModel<StmtModel>>, i: int, pal: Seq<(Seq<char>, Rgba)>, strict: bool)
    requires
        0 <= i,
        forall|k: int| i <= k < ss.len() ==> stmt_clean(#[trigger] ss[k].node, pal, strict),
    ensures
        stmts_error(ss, i, pal, strict) is None,
    decreases ss.len() - i,
{
    if i < ss.len() {
        assert(stmt_clean(ss[i].node, pal, strict));
        lemma_stmts_error_none(ss, i + 1, pal, strict);
    }
}

proof fn lemma_frame_items_from(ss: Seq<SpannedModel<StmtModel>>, name: Seq<char>, i: int)
    requires
        0 <= i,
    ensures
        frame_items(ss, name, i) matches Some(items) ==> exists|k: int|
            i <= k < ss.len() && #[trigger] ss[k].node == (StmtModel::Frame { name, items }),
    decreases ss.len() - i,
{
    if i < ss.len() {
        lemma_frame_items_from(ss, name, i + 1);
        if let StmtModel::Frame { name: n, items } = ss[i].node {
            if n == name {
                assert(ss[i].node == (StmtModel::Frame { name, items }));
            }
        }
    }
}

/// Law: a document that validates without errors meets no color error when
/// it is rendered, nor when any of its frames is.
pub proof fn law_validated_colors_resolve(ss: Seq<SpannedModel<StmtModel>>)
    requires
        validation_errors(ss).len() == 0,
    ensures
        stmts_error(ss, 0, setup(ss).palette, setup(ss).strict) is None,
        forall|name: Seq<char>|
            #[trigger] frame_items(ss, name, 0) matches Some(items) ==> items_error(
                items,
                0,
                setup(ss).palette,
                setup(ss).strict,
            ) is None,
{
    let s = setup(ss);
    let p0 = Pass { names: s.names, errors: s.errors, background: crate::color::transparent(), frames: seq![] };
    let p = second_pass(ss);
    lemma_check_animations(ss, 0, p.frames, p.errors);
    lemma_pass_stmts(ss, 0, s.palette, s.strict, p0);
    assert(s.errors.len() == 0);
    lemma_stmts_error_none(ss, 0, s.palette, s.strict);
    assert forall|name: Seq<char>| #[trigger] frame_items(ss, name, 0) is Some implies items_error(
        frame_items(ss, name, 0)->Some_0,
        0,
        s.palette,
        s.strict,
    ) is None by {
        lemma_frame_items_from(ss, name, 0);
        let items = frame_items(ss, name, 0)->Some_0;
        let k = choose|k: int| 0 <= k < ss.len() && #[trigger] ss[k].node == (StmtModel::Frame { name, items });
        assert(stmt_clean(ss[k].node, s.palette, s.strict));
    }
}

/// Law: a validated document renders without error, and so does each of its
/// frames.
pub proof fn law_validated_document_renders(doc: ValidDocument, name: Seq<char>)
    requires
        validation_errors(doc.document@).len() == 0,
        doc.palette@ == setup(doc.document@).palette,
        doc.strict_palette == setup(doc.document@).strict,
    ensures
        render_spec(doc) is Ok,
        frame_items(doc.document@, name, 0) is Some ==> render_frame_spec(doc, name) is Ok,
{
    law_validated_colors_resolve(doc.document@);
    assert(frame_items(doc.document@, name, 0) matches Some(items) ==> items_error(
        items,
        0,
        setup(doc.document@).palette,
        setup(doc.document@).strict,
    ) is None);
}

// ---------------------------------------------------------------------------
// Drawing.

/// Law: a pixel outside the canvas is clipped: drawing it changes nothing.
pub proof fn law_outside_pixel_is_clipped(c: CanvasModel, x: int, y: int, col: Rgba)
    requires
        c.pixels.len() == c.width * c.height,
        !on_canvas(c, x, y),
    ensures
        set_pixel(c, x, y, col) == c,
{
    let w = c.width as int;
    let h = c.height as int;
    assert forall|k: int| 0 <= k < c.pixels.len() implies set_pixel(c, x, y, col).pixels[k] == c.pixels[k] by {
        assert(w > 0) by (nonlinear_arith)
            requires
                0 <= k < w * h,
                w >= 0,
                h >= 0,
        ;
        crate::canvas::lemma_coords(w, h, k);
    }
    assert(set_pixel(c, x, y, col).pixels =~= c.pixels);
}

/// Law: coordinates inside a group are local: moving the group by
/// `(dx, dy)` draws its items as the unmoved group drawn `(dx, dy)` further.
pub proof fn law_group_moves_children(
    c: CanvasModel,
    name: Seq<char>,
    x: i32,
    y: i32,
    dx: i32,
    dy: i32,
    items: Seq<SpannedModel<ItemModel>>,
    ox: int,
    oy: int,
    pal: Seq<(Seq<char>, Rgba)>,
    strict: bool,
)
    requires
        i32::MIN <= x + dx <= i32::MAX,
        i32::MIN <= y + dy <= i32::MAX,
    ensures
        draw_item(c, ItemModel::Group { name, x: (x + dx) as i32, y: (y + dy) as i32, items }, ox, oy, pal, strict)
            == draw_item(c, ItemModel::Group { name, x, y, items }, ox + dx, oy + dy, pal, strict),
{
    assert(ox + (x + dx) == (ox + dx) + x);
    assert(oy + (y + dy) == (oy + dy) + y);
}


/// Law: drawing keeps the canvas's size: its width, its height and the
/// number of its pixels.
pub proof fn law_drawing_keeps_size(
    c: CanvasModel,
    item: ItemModel,
    ox: int,
    oy: int,
    pal: Seq<(Seq<char>, Rgba)>,
    strict: bool,
)
    ensures
        draw_item(c, item, ox, oy, pal, strict).width == c.width,
        draw_item(c, item, ox, oy, pal, strict).height == c.height,
        draw_item(c, item, ox, oy, pal, strict).pixels.len() == c.pixels.len(),
    decreases item, 0nat,
{
    match item {
        ItemModel::Group { x, y, items, .. } => {
            lemma_items_keep_size(c, items, 0, ox + x, oy + y, pal, strict);
        },
        _ => {},
    }
}

proof fn lemma_items_keep_size(
    c: CanvasModel,
    items: Seq<SpannedModel<ItemModel>>,
    i: int,
    ox: int,
    oy: int,
    pal: Seq<(Seq<char>, Rgba)>,
    strict: bool,
)
    ensures
        draw_items(c, items, i, ox, oy, pal, strict).width == c.width,
        draw_items(c, items, i, ox, oy, pal, strict).height == c.height,
        draw_items(c, items, i, ox, oy, pal, strict).pixels.len() == c.pixels.len(),
    decreases items, items.len() - i,
{
    if 0 <= i < items.len() {
        law_drawing_keeps_size(c, items[i].node, ox, oy, pal, strict);
        lemma_items_keep_size(draw_item(c, items[i].node, ox, oy, pal, strict), items, i + 1, ox, oy, pal, strict);
    }
}


/// The statement is a frame called `n`.
pub open spec fn frame_named(s: StmtModel, n: Seq<char>) -> bool {
    s matches StmtModel::Frame { name, .. } && name == n
}

/// The frame names the second pass collects are names of frames.
pub(crate) proof fn lemma_pass_frames(
    ss: Seq<SpannedModel<StmtModel>>,
    i: int,
    pal: Seq<(Seq<char>, Rgba)>,
    strict: bool,
    st: Pass,
    n: Seq<char>,
)
    requires
        0 <= i,
        pass_stmts(ss, i, pal, strict, st).frames.contains(n),
    ensures
        st.frames.contains(n) || exists|k: int| i <= k < ss.len() && #[trigger] frame_named(ss[k].node, n),
    decreases ss.len() - i,
{
    if i < ss.len() {
        let st1 = pass_stmt(ss[i], pal, strict, st);
        lemma_pass_frames(ss, i + 1, pal, strict, st1, n);
        if st1.frames.contains(n) && !st.frames.contains(n) {
            assert(frame_named(ss[i].node, n));
        }
    }
}

/// A frame that the document holds is found by name.
proof fn lemma_frame_found(ss: Seq<SpannedModel<StmtModel>>, i: int, k: int, n: Seq<char>)
    requires
        0 <= i <= k < ss.len(),
        frame_named(ss[k].node, n),
    ensures
        frame_items(ss, n, i) is Some,
    decreases k - i,
{
    if i < k {
        lemma_frame_found(ss, i + 1, k, n);
    }
}

/// The animation found by name is one of the document's statements.
proof fn lemma_animation_found(ss: Seq<SpannedModel<StmtModel>>, name: Seq<char>, i: int)
    requires
        0 <= i,
    ensures
        animation_of(ss, name, i) matches Some((fps, refs)) ==> exists|k: int|
            i <= k < ss.len() && #[trigger] ss[k].node == (StmtModel::Animation { name, fps, frames: refs }),
    decreases ss.len() - i,
{
    if i < ss.len() {
        lemma_animation_found(ss, name, i + 1);
        if let StmtModel::Animation { name: n, fps, frames } = ss[i].node {
            if n == name {
                assert(ss[i].node == (StmtModel::Animation { name, fps, frames }));
            }
        }
    }
}

/// Frames that each render give the frames of the animation, in order.
proof fn lemma_frames_render_ok(doc: ValidDocument, refs: Seq<FrameRefModel>, n: int)
    requires
        0 <= n <= refs.len(),
        forall|j: int| 0 <= j < n ==> render_frame_spec(doc, #[trigger] refs[j].name) is Ok,
    ensures
        frames_render(doc, refs, n) matches Ok(r) && r.len() == n && forall|j: int|
            0 <= j < n ==> (#[trigger] r[j]).0 == refs[j].name && render_frame_spec(doc, refs[j].name) == Ok::<
                CanvasModel,
                DiagnosticModel,
            >(r[j].1),
    decreases n,
{
    if n > 0 {
        lemma_frames_render_ok(doc, refs, n - 1);
        assert(render_frame_spec(doc, refs[n - 1].name) is Ok);
    }
}

/// Law: the animations of a validated document render: an unknown name is
/// the error `E032`, and a known one gives its frames per second and each
/// frame it names, in order, rendered as that frame alone renders.
pub proof fn law_animation_renders_its_frames(doc: ValidDocument, name: Seq<char>)
    requires
        validation_errors(doc.document@).len() == 0,
        doc.palette@ == setup(doc.document@).palette,
        doc.strict_palette == setup(doc.document@).strict,
    ensures
        animation_of(doc.document@, name, 0) is None ==> render_animation_spec(doc, name) == Err::<
            (i32, Seq<(Seq<char>, CanvasModel)>),
            DiagnosticModel,
        >(unknown_animation(name)),
        animation_of(doc.document@, name, 0) matches Some((fps, refs)) ==> (render_animation_spec(doc, name) matches Ok(
            (f, r),
        ) && f == fps && r.len() == refs.len() && forall|j: int|
            0 <= j < refs.len() ==> (#[trigger] r[j]).0 == refs[j].name && render_frame_spec(doc, refs[j].name) == Ok::<
                CanvasModel,
                DiagnosticModel,
            >(r[j].1)),
{
    let ss = doc.document@;
    let p = second_pass(ss);
    let st = setup(ss);
    lemma_animation_found(ss, name, 0);
    if let Some((fps, refs)) = animation_of(ss, name, 0) {
        lemma_check_animations(ss, 0, p.frames, p.errors);
        let k = choose|k: int| 0 <= k < ss.len() && #[trigger] ss[k].node == (StmtModel::Animation { name, fps, frames: refs });
        assert forall|j: int| 0 <= j < refs.len() implies render_frame_spec(doc, #[trigger] refs[j].name) is Ok by {
            assert(anim_refs(ss[k].node) == refs);
            assert(p.frames.contains(anim_refs(ss[k].node)[j].name));
            lemma_pass_frames(
                ss,
                0,
                st.palette,
                st.strict,
                Pass { names: st.names, errors: st.errors, background: transparent(), frames: seq![] },
                refs[j].name,
            );
            let k2 = choose|k2: int| 0 <= k2 < ss.len() && #[trigger] frame_named(ss[k2].node, refs[j].name);
            lemma_frame_found(ss, 0, k2, refs[j].name);
            law_validated_document_renders(doc, refs[j].name);
        }
        lemma_frames_render_ok(doc, refs, refs.len() as int);
    }
}

// ---------------------------------------------------------------------------
// What drawing colors.

/// Painting a region colors exactly the pixels of the region that drawing
/// reaches; every other pixel keeps its color.
pub proof fn lemma_pixel_at_painted(c: CanvasModel, region: spec_fn(int, int) -> bool, col: Rgba, a: int, b: int)
    requires
        model_wf(c),
    ensures
        pixel_at(painted(c, region, col), a, b) == (if on_canvas(c, a, b) && region(a, b) {
            Some(col)
        } else {
            pixel_at(c, a, b)
        }),
{
    if on_canvas(c, a, b) {
        let w = c.width as int;
        let h = c.height as int;
        crate::canvas::lemma_index(w, h, a, b);
        let k = b * w + a;
        assert(painted(c, region, col).pixels[k] == (if on_canvas(c, k % w, k / w) && region(k % w, k / w) {
            col
        } else {
            c.pixels[k]
        }));
    }
}

/// Law: a circle `circle cx cy r color` drawn at the offset `(ox, oy)`
/// colors exactly the pixels `(a, b)` on the canvas with
/// `(a - (ox + cx))² + (b - (oy + cy))² <= r²` (none when `r` is negative);
/// every other pixel keeps its color.
pub proof fn law_circle_colors_its_disc(
    c: CanvasModel,
    cx: i32,
    cy: i32,
    r: i32,
    color: ColorModel,
    ox: int,
    oy: int,
    pal: Seq<(Seq<char>, Rgba)>,
    strict: bool,
    a: int,
    b: int,
)
    requires
        model_wf(c),
    ensures
        pixel_at(draw_item(c, ItemModel::Circle { cx, cy, r, color }, ox, oy, pal, strict), a, b) == (if on_canvas(
            c,
            a,
            b,
        ) && r >= 0 && (a - (ox + cx)) * (a - (ox + cx)) + (b - (oy + cy)) * (b - (oy + cy)) <= r * r {
            Some(color_of(color, pal, strict))
        } else {
            pixel_at(c, a, b)
        }),
{
    lemma_pixel_at_painted(
        c,
        crate::canvas::disc_region(ox + cx, oy + cy, r as int),
        color_of(color, pal, strict),
        a,
        b,
    );
}

/// Law: a rectangle `rect x y w h color` drawn at the offset `(ox, oy)`
/// colors exactly the pixels `(a, b)` on the canvas with
/// `ox + x <= a < ox + x + w` and `oy + y <= b < oy + y + h`; every other
/// pixel keeps its color.
pub proof fn law_rect_colors_its_area(
    c: CanvasModel,
    x: i32,
    y: i32,
    w: i32,
    h: i32,
    color: ColorModel,
    ox: int,
    oy: int,
    pal: Seq<(Seq<char>, Rgba)>,
    strict: bool,
    a: int,
    b: int,
)
    requires
        model_wf(c),
    ensures
        pixel_at(draw_item(c, ItemModel::Rect { x, y, w, h, color }, ox, oy, pal, strict), a, b) == (if on_canvas(
            c,
            a,
            b,
        ) && ox + x <= a < ox + x + w && oy + y <= b < oy + y + h {
            Some(color_of(color, pal, strict))
        } else {
            pixel_at(c, a, b)
        }),
{
    lemma_pixel_at_painted(
        c,
        crate::canvas::rect_region(ox + x, oy + y, w as int, h as int),
        color_of(color, pal, strict),
        a,
        b,
    );
}

/// Law: a pixel `pixel x y color` drawn at the offset `(ox, oy)` colors the
/// pixel `(ox + x, oy + y)` when it is on the canvas, and nothing else.
pub proof fn law_pixel_colors_its_point(
    c: CanvasModel,
    x: i32,
    y: i32,
    color: ColorModel,
    ox: int,
    oy: int,
    pal: Seq<(Seq<char>, Rgba)>,
    strict: bool,
    a: int,
    b: int,
)
    requires
        model_wf(c),
    ensures
        pixel_at(draw_item(c, ItemModel::Pixel { x, y, color }, ox, oy, pal, strict), a, b) == (if on_canvas(
            c,
            a,
            b,
        ) && a == ox + x && b == oy + y {
            Some(color_of(color, pal, strict))
        } else {
            pixel_at(c, a, b)
        }),
{
    let f = |p: int, q: int| p == ox + x && q == oy + y;
    let col = color_of(color, pal, strict);
    assert(set_pixel(c, ox + x, oy + y, col).pixels =~= painted(c, f, col).pixels);
    lemma_pixel_at_painted(c, f, col, a, b);
}

/// Law: a line `line x1 y1 x2 y2 color` drawn at the offset `(ox, oy)` colors
/// exactly the on-canvas points of the path from `(ox + x1, oy + y1)` to
/// `(ox + x2, oy + y2)` that `law_line_is_a_path` describes.
pub proof fn law_line_colors_its_path(
    c: CanvasModel,
    x1: i32,
    y1: i32,
    x2: i32,
    y2: i32,
    color: ColorModel,
    ox: int,
    oy: int,
    pal: Seq<(Seq<char>, Rgba)>,
    strict: bool,
    a: int,
    b: int,
)
    requires
        model_wf(c),
    ensures
        pixel_at(draw_item(c, ItemModel::Line { x1, y1, x2, y2, color }, ox, oy, pal, strict), a, b) == (if on_canvas(
            c,
            a,
            b,
        ) && crate::canvas::line_points(ox + x1, oy + y1, ox + x2, oy + y2).contains((a, b)) {
            Some(color_of(color, pal, strict))
        } else {
            pixel_at(c, a, b)
        }),
{
    lemma_pixel_at_painted(
        c,
        crate::canvas::on_points(crate::canvas::line_points(ox + x1, oy + y1, ox + x2, oy + y2)),
        color_of(color, pal, strict),
        a,
        b,
    );
}

/// The item draws with the color `col`: its own color, or one of its
/// children's for a group.
pub open spec fn item_has_color(item: ItemModel, col: Rgba, pal: Seq<(Seq<char>, Rgba)>, strict: bool) -> bool
    decreases item, 1nat,
{
    match item {
        ItemModel::Pixel { color, .. } => color_of(color, pal, strict) == col,
        ItemModel::Line { color, .. } => color_of(color, pal, strict) == col,
        ItemModel::Rect { color, .. } => color_of(color, pal, strict) == col,
        ItemModel::Fill { color, .. } => color_of(color, pal, strict) == col,
        ItemModel::Circle { color, .. } => color_of(color, pal, strict) == col,
        ItemModel::Group { items, .. } => items_have_color(items, 0, col, pal, strict),
    }
}

/// One of `items[i..]` draws with the color `col`.
pub open spec fn items_have_color(
    items: Seq<SpannedModel<ItemModel>>,
    i: int,
    col: Rgba,
    pal: Seq<(Seq<char>, Rgba)>,
    strict: bool,
) -> bool
    decreases items, items.len() - i,
{
    if i < 0 || i >= items.len() {
        false
    } else {
        item_has_color(items[i].node, col, pal, strict) || items_have_color(items, i + 1, col, pal, strict)
    }
}

proof fn lemma_item_colors(c: CanvasModel, item: ItemModel, ox: int, oy: int, pal: Seq<(Seq<char>, Rgba)>, strict: bool)
    ensures
        draw_item(c, item, ox, oy, pal, strict).pixels.len() == c.pixels.len(),
        forall|k: int|
            0 <= k < c.pixels.len() ==> (#[trigger] draw_item(c, item, ox, oy, pal, strict).pixels[k]) == c.pixels[k]
                || item_has_color(item, draw_item(c, item, ox, oy, pal, strict).pixels[k], pal, strict),
    decreases item, 0nat,
{
    law_drawing_keeps_size(c, item, ox, oy, pal, strict);
    match item {
        ItemModel::Group { x, y, items, .. } => {
            lemma_items_colors(c, items, 0, ox + x, oy + y, pal, strict);
        },
        _ => {},
    }
}

proof fn lemma_items_colors(
    c: CanvasModel,
    items: Seq<SpannedModel<ItemModel>>,
    i: int,
    ox: int,
    oy: int,
    pal: Seq<(Seq<char>, Rgba)>,
    strict: bool,
)
    ensures
        draw_items(c, items, i, ox, oy, pal, strict).pixels.len() == c.pixels.len(),
        forall|k: int|
            0 <= k < c.pixels.len() ==> (#[trigger] draw_items(c, items, i, ox, oy, pal, strict).pixels[k]) == c.pixels[k]
                || items_have_color(items, i, draw_items(c, items, i, ox, oy, pal, strict).pixels[k], pal, strict),
    decreases items, items.len() - i,
{
    if 0 <= i < items.len() {
        let d = draw_item(c, items[i].node, ox, oy, pal, strict);
        lemma_item_colors(c, items[i].node, ox, oy, pal, strict);
        lemma_items_colors(d, items, i + 1, ox, oy, pal, strict);
        let rr = draw_items(c, items, i, ox, oy, pal, strict);
        assert(rr == draw_items(d, items, i + 1, ox, oy, pal, strict));
        assert forall|k: int| 0 <= k < c.pixels.len() implies (#[trigger] rr.pixels[k]) == c.pixels[k] || items_have_color(
            items,
            i,
            rr.pixels[k],
            pal,
            strict,
        ) by {
            assert(rr.pixels[k] == d.pixels[k] || items_have_color(items, i + 1, rr.pixels[k], pal, strict));
            assert(d.pixels[k] == c.pixels[k] || item_has_color(items[i].node, d.pixels[k], pal, strict));
        }
    }
}

/// Law: a rendered frame has the document's canvas size, and each of its
/// pixels is the document's background or a color one of the frame's items
/// draws with; a frame without items is the background throughout.
pub proof fn law_frame_starts_from_background(doc: ValidDocument, name: Seq<char>)
    ensures
        frame_items(doc.document@, name, 0) matches Some(items) ==> (render_frame_spec(doc, name) matches Ok(c) ==> {
            &&& c.width == doc.canvas.0
            &&& c.height == doc.canvas.1
            &&& c.pixels.len() == doc.canvas.0 * doc.canvas.1
            &&& forall|k: int|
                0 <= k < c.pixels.len() ==> (#[trigger] c.pixels[k]) == doc.background || items_have_color(
                    items,
                    0,
                    c.pixels[k],
                    doc.palette@,
                    doc.strict_palette,
                )
            &&& items.len() == 0 ==> forall|k: int| 0 <= k < c.pixels.len() ==> #[trigger] c.pixels[k] == doc.background
        }),
{
    if let Some(items) = frame_items(doc.document@, name, 0) {
        let b = doc_blank(doc);
        lemma_items_colors(b, items, 0, 0, 0, doc.palette@, doc.strict_palette);
        lemma_items_keep_size(b, items, 0, 0, 0, doc.palette@, doc.strict_palette);
    }
}

/// A top-level statement draws with the color `col`: a lone item or a
/// group (frames, animations and settings draw nothing).
pub open spec fn stmt_has_color(s: StmtModel, col: Rgba, pal: Seq<(Seq<char>, Rgba)>, strict: bool) -> bool {
    match s {
        StmtModel::Item(item) => item_has_color(item, col, pal, strict),
        StmtModel::Group { items, .. } => items_have_color(items, 0, col, pal, strict),
        _ => false,
    }
}

/// One of `ss[i..]` draws with the color `col`.
pub open spec fn stmts_have_color(
    ss: Seq<SpannedModel<StmtModel>>,
    i: int,
    col: Rgba,
    pal: Seq<(Seq<char>, Rgba)>,
    strict: bool,
) -> bool
    decreases ss.len() - i,
{
    if i < 0 || i >= ss.len() {
        false
    } else {
        stmt_has_color(ss[i].node, col, pal, strict) || stmts_have_color(ss, i + 1, col, pal, strict)
    }
}

proof fn lemma_stmts_colors(
    c: CanvasModel,
    ss: Seq<SpannedModel<StmtModel>>,
    i: int,
    pal: Seq<(Seq<char>, Rgba)>,
    strict: bool,
)
    ensures
        draw_stmts(c, ss, i, pal, strict).width == c.width,
        draw_stmts(c, ss, i, pal, strict).height == c.height,
        draw_stmts(c, ss, i, pal, strict).pixels.len() == c.pixels.len(),
        forall|k: int|
            0 <= k < c.pixels.len() ==> (#[trigger] draw_stmts(c, ss, i, pal, strict).pixels[k]) == c.pixels[k]
                || stmts_have_color(ss, i, draw_stmts(c, ss, i, pal, strict).pixels[k], pal, strict),
    decreases ss.len() - i,
{
    if 0 <= i < ss.len() {
        let d = draw_stmt(c, ss[i].node, pal, strict);
        match ss[i].node {
            StmtModel::Item(item) => {
                lemma_item_colors(c, item, 0, 0, pal, strict);
                law_drawing_keeps_size(c, item, 0, 0, pal, strict);
            },
            StmtModel::Group { x, y, items, .. } => {
                lemma_items_colors(c, items, 0, x as int, y as int, pal, strict);
                lemma_items_keep_size(c, items, 0, x as int, y as int, pal, strict);
            },
            _ => {},
        }
        lemma_stmts_colors(d, ss, i + 1, pal, strict);
        let rr = draw_stmts(c, ss, i, pal, strict);
        assert(rr == draw_stmts(d, ss, i + 1, pal, strict));
        assert forall|k: int| 0 <= k < c.pixels.len() implies (#[trigger] rr.pixels[k]) == c.pixels[k] || stmts_have_color(
            ss,
            i,
            rr.pixels[k],
            pal,
            strict,
        ) by {
            assert(rr.pixels[k] == d.pixels[k] || stmts_have_color(ss, i + 1, rr.pixels[k], pal, strict));
            assert(d.pixels[k] == c.pixels[k] || stmt_has_color(ss[i].node, d.pixels[k], pal, strict));
        }
    }
}

/// Law: a rendered document has its canvas size, and each of its pixels is
/// the document's background or a color one of its top-level items or
/// groups draws with; frames are not drawn, so a document with no top-level
/// items or groups is the background throughout.
pub proof fn law_render_starts_from_background(doc: ValidDocument)
    ensures
        render_spec(doc) matches Ok(c) ==> {
            &&& c.width == doc.canvas.0
            &&& c.height == doc.canvas.1
            &&& c.pixels.len() == doc.canvas.0 * doc.canvas.1
            &&& forall|k: int|
                0 <= k < c.pixels.len() ==> (#[trigger] c.pixels[k]) == doc.background || stmts_have_color(
                    doc.document@,
                    0,
                    c.pixels[k],
                    doc.palette@,
                    doc.strict_palette,
                )
        },
{
    lemma_stmts_colors(doc_blank(doc), doc.document@, 0, doc.palette@, doc.strict_palette);
}

} // verus!
