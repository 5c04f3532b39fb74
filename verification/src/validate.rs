//! Validation: the semantic checks that turn a parsed document into a
//! `ValidDocument` (canvas size, palette, background) or report every error.

use vstd::prelude::*;
use crate::ast::{
    ColorModel, Document, FrameRefModel, Item, ItemModel, PaletteEntryModel, Spanned, SpannedModel,
    Stmt, StmtModel, item_model, items_model,
};
use crate::color::{
    color_in_domain, color_literal, palette_get, palette_insert, parse_color_literal, resolve,
    resolve_color, resolvable, transparent, Palette, Rgba,
};
use crate::diagnostics::{diag, diags_view, Diagnostic, DiagnosticModel, Span};
use crate::text::{clone_string, message, str_eq};
use crate::ast::{lemma_items_model, AnimationFrame, ColorExpr, PaletteEntry, entries_model, frames_model, stmts_model};

verus! {

broadcast use vstd::seq::group_seq_axioms;

/// A document that passed validation, with what validation found.
#[derive(Debug)]
pub struct ValidDocument {
    pub canvas: (u32, u32),
    pub background: Rgba,
    pub strict_palette: bool,
    pub palette: Palette,
    pub document: Document,
}

pub open spec fn dup_name_msg(name: Seq<char>) -> Seq<char> {
    "duplicate name `"@ + name + "`"@
}

// ---------------------------------------------------------------------------
// First pass: canvas, strict mode and palette.

pub struct Setup {
    pub errors: Seq<DiagnosticModel>,
    pub canvas: Option<(u32, u32)>,
    pub strict: bool,
    pub palette: Seq<(Seq<char>, Rgba)>,
    pub names: Seq<Seq<char>>,
}

pub open spec fn setup_entry(e: PaletteEntryModel, st: Setup) -> Setup {
    let st1 = if st.names.contains(e.name) {
        Setup {
            errors: st.errors.push(diag("E021"@, e.span, "duplicate palette color `"@ + e.name + "`"@)),
            ..st
        }
    } else {
        Setup { names: st.names.push(e.name), ..st }
    };
    match color_literal(e.color.raw) {
        Some(c) => Setup { palette: palette_insert(st1.palette, e.name, c), ..st1 },
        None => Setup {
            errors: st1.errors.push(
                diag("E022"@, e.color.span, "invalid color literal `"@ + e.color.raw + "`"@),
            ),
            ..st1
        },
    }
}

pub open spec fn setup_entries(es: Seq<PaletteEntryModel>, i: int, st: Setup) -> Setup
    decreases es.len() - i,
{
    if i < 0 || i >= es.len() {
        st
    } else {
        setup_entries(es, i + 1, setup_entry(es[i], st))
    }
}

pub open spec fn setup_stmt(s: SpannedModel<StmtModel>, st: Setup) -> Setup {
    match s.node {
        StmtModel::Canvas { width, height } => if width <= 0 || height <= 0 {
            Setup {
                errors: st.errors.push(diag("E020"@, s.span, "canvas dimensions must be positive"@)),
                ..st
            }
        } else {
            Setup { canvas: Some((width as u32, height as u32)), ..st }
        },
        StmtModel::StrictPalette { value } => Setup { strict: value, ..st },
        StmtModel::Palette { entries } => setup_entries(entries, 0, st),
        _ => st,
    }
}

pub open spec fn setup_stmts(ss: Seq<SpannedModel<StmtModel>>, i: int, st: Setup) -> Setup
    decreases ss.len() - i,
{
    if i < 0 || i >= ss.len() {
        st
    } else {
        setup_stmts(ss, i + 1, setup_stmt(ss[i], st))
    }
}

pub open spec fn initial_setup() -> Setup {
    Setup { errors: seq![], canvas: None, strict: false, palette: seq![], names: seq![] }
}

/// The first pass, followed by the check that there is a canvas.
pub open spec fn setup(ss: Seq<SpannedModel<StmtModel>>) -> Setup {
    let st = setup_stmts(ss, 0, initial_setup());
    if st.canvas is None {
        Setup {
            errors: st.errors.push(
                diag("E023"@, Span { line: 1, column: 1, len: 1 }, "missing `canvas WIDTH HEIGHT`"@),
            ),
            ..st
        }
    } else {
        st
    }
}

// ---------------------------------------------------------------------------
// Second pass: names, colors and shapes of items, frames and animations.

/// Names declared so far and errors found so far.
pub struct Checked {
    pub names: Seq<Seq<char>>,
    pub errors: Seq<DiagnosticModel>,
}

/// Declares `name` at `span`: a name seen before is the error `E024`.
pub open spec fn declare(name: Seq<char>, span: Span, st: Checked) -> Checked {
    if st.names.contains(name) {
        Checked { errors: st.errors.push(diag("E024"@, span, dup_name_msg(name))), ..st }
    } else {
        Checked { names: st.names.push(name), ..st }
    }
}

pub open spec fn check_color(c: ColorModel, pal: Seq<(Seq<char>, Rgba)>, strict: bool, st: Checked) -> Checked {
    match resolve(c.raw, c.span, pal, strict) {
        Ok(_) => st,
        Err(e) => Checked { errors: st.errors.push(e), ..st },
    }
}

pub open spec fn check_item(
    item: ItemModel,
    span: Span,
    pal: Seq<(Seq<char>, Rgba)>,
    strict: bool,
    st: Checked,
) -> Checked
    decreases item, 0nat,
{
    let st1 = match item {
        ItemModel::Pixel { color, .. } => check_color(color, pal, strict, st),
        ItemModel::Line { color, .. } => check_color(color, pal, strict, st),
        ItemModel::Rect { color, .. } => check_color(color, pal, strict, st),
        ItemModel::Fill { color, .. } => check_color(color, pal, strict, st),
        ItemModel::Circle { color, .. } => check_color(color, pal, strict, st),
        ItemModel::Group { name, items, .. } => check_items(items, 0, pal, strict, declare(name, span, st)),
    };
    match item {
        ItemModel::Rect { w, h, .. } => if w <= 0 || h <= 0 {
            Checked {
                errors: st1.errors.push(diag("E025"@, span, "rect width and height must be positive"@)),
                ..st1
            }
        } else {
            st1
        },
        ItemModel::Circle { r, .. } => if r < 0 {
            Checked {
                errors: st1.errors.push(diag("E026"@, span, "circle radius must be non-negative"@)),
                ..st1
            }
        } else {
            st1
        },
        _ => st1,
    }
}

pub open spec fn check_items(
    items: Seq<SpannedModel<ItemModel>>,
    i: int,
    pal: Seq<(Seq<char>, Rgba)>,
    strict: bool,
    st: Checked,
) -> Checked
    decreases items, items.len() - i,
{
    if i < 0 || i >= items.len() {
        st
    } else {
        check_items(items, i + 1, pal, strict, check_item(items[i].node, items[i].span, pal, strict, st))
    }
}

/// The state of the second pass.
pub struct Pass {
    pub names: Seq<Seq<char>>,
    pub errors: Seq<DiagnosticModel>,
    pub background: Rgba,
    pub frames: Seq<Seq<char>>,
}

pub open spec fn with_checked(st: Pass, c: Checked) -> Pass {
    Pass { names: c.names, errors: c.errors, ..st }
}

pub open spec fn checked_of(st: Pass) -> Checked {
    Checked { names: st.names, errors: st.errors }
}

pub open spec fn pass_stmt(
    s: SpannedModel<StmtModel>,
    pal: Seq<(Seq<char>, Rgba)>,
    strict: bool,
    st: Pass,
) -> Pass {
    match s.node {
        StmtModel::Background { color } => match resolve(color.raw, color.span, pal, strict) {
            Ok(c) => Pass { background: c, ..st },
            Err(e) => Pass { errors: st.errors.push(e), ..st },
        },
        StmtModel::Group { name, items, .. } => with_checked(
            st,
            check_items(items, 0, pal, strict, declare(name, s.span, checked_of(st))),
        ),
        StmtModel::Frame { name, items } => {
            let c1 = declare(name, s.span, checked_of(st));
            let c2 = if st.frames.contains(name) {
                Checked { errors: c1.errors.push(diag("E027"@, s.span, "duplicate frame `"@ + name + "`"@)), ..c1 }
            } else {
                c1
            };
            let frames = if st.frames.contains(name) { st.frames } else { st.frames.push(name) };
            let c3 = check_items(items, 0, pal, strict, c2);
            Pass { names: c2.names, errors: c3.errors, frames, ..st }
        },
        StmtModel::Animation { name, fps, frames } => {
            let c1 = declare(name, s.span, checked_of(st));
            let e1 = if fps <= 0 {
                c1.errors.push(diag("E028"@, s.span, "animation fps must be positive"@))
            } else {
                c1.errors
            };
            let e2 = if frames.len() == 0 {
                e1.push(diag("E029"@, s.span, "animation must reference at least one frame"@))
            } else {
                e1
            };
            Pass { names: c1.names, errors: e2, ..st }
        },
        StmtModel::Item(item) => with_checked(st, check_item(item, s.span, pal, strict, checked_of(st))),
        _ => st,
    }
}

pub open spec fn pass_stmts(
    ss: Seq<SpannedModel<StmtModel>>,
    i: int,
    pal: Seq<(Seq<char>, Rgba)>,
    strict: bool,
    st: Pass,
) -> Pass
    decreases ss.len() - i,
{
    if i < 0 || i >= ss.len() {
        st
    } else {
        pass_stmts(ss, i + 1, pal, strict, pass_stmt(ss[i], pal, strict, st))
    }
}

// ---------------------------------------------------------------------------
// Third pass: every frame an animation names exists.

pub open spec fn check_refs(refs: Seq<FrameRefModel>, i: int, frames: Seq<Seq<char>>, errs: Seq<DiagnosticModel>) -> Seq<
    DiagnosticModel,
>
    decreases refs.len() - i,
{
    if i < 0 || i >= refs.len() {
        errs
    } else {
        let e = if frames.contains(refs[i].name) {
            errs
        } else {
            errs.push(diag("E030"@, refs[i].span, "unknown frame `"@ + refs[i].name + "`"@))
        };
        check_refs(refs, i + 1, frames, e)
    }
}

pub open spec fn check_animations(
    ss: Seq<SpannedModel<StmtModel>>,
    i: int,
    frames: Seq<Seq<char>>,
    errs: Seq<DiagnosticModel>,
) -> Seq<DiagnosticModel>
    decreases ss.len() - i,
{
    if i < 0 || i >= ss.len() {
        errs
    } else {
        let e = match ss[i].node {
            StmtModel::Animation { frames: refs, .. } => check_refs(refs, 0, frames, errs),
            _ => errs,
        };
        check_animations(ss, i + 1, frames, e)
    }
}

// ---------------------------------------------------------------------------
// The whole validation.

/// What validation finds: the second pass over the first, and all the
/// errors.
pub open spec fn second_pass(ss: Seq<SpannedModel<StmtModel>>) -> Pass {
    let s = setup(ss);
    pass_stmts(
        ss,
        0,
        s.palette,
        s.strict,
        Pass { names: s.names, errors: s.errors, background: transparent(), frames: seq![] },
    )
}

pub open spec fn validation_errors(ss: Seq<SpannedModel<StmtModel>>) -> Seq<DiagnosticModel> {
    let p = second_pass(ss);
    check_animations(ss, 0, p.frames, p.errors)
}


// ---------------------------------------------------------------------------
// The documents validation finishes on: palette literals that can be read,
// and colors that are palette names or can be read as literals.

pub open spec fn item_colors_ok(item: ItemModel, pal: Seq<(Seq<char>, Rgba)>) -> bool
    decreases item, 0nat,
{
    match item {
        ItemModel::Pixel { color, .. } => resolvable(color.raw, pal),
        ItemModel::Line { color, .. } => resolvable(color.raw, pal),
        ItemModel::Rect { color, .. } => resolvable(color.raw, pal),
        ItemModel::Fill { color, .. } => resolvable(color.raw, pal),
        ItemModel::Circle { color, .. } => resolvable(color.raw, pal),
        ItemModel::Group { items, .. } => items_colors_ok(items, 0, pal),
    }
}

pub open spec fn items_colors_ok(items: Seq<SpannedModel<ItemModel>>, i: int, pal: Seq<(Seq<char>, Rgba)>) -> bool
    decreases items, items.len() - i,
{
    if i < 0 || i >= items.len() {
        true
    } else {
        item_colors_ok(items[i].node, pal) && items_colors_ok(items, i + 1, pal)
    }
}

pub open spec fn stmt_colors_ok(s: StmtModel, pal: Seq<(Seq<char>, Rgba)>) -> bool {
    match s {
        StmtModel::Background { color } => resolvable(color.raw, pal),
        StmtModel::Palette { entries } => forall|k: int|
            0 <= k < entries.len() ==> color_in_domain(#[trigger] entries[k].color.raw),
        StmtModel::Group { items, .. } => items_colors_ok(items, 0, pal),
        StmtModel::Frame { items, .. } => items_colors_ok(items, 0, pal),
        StmtModel::Item(item) => item_colors_ok(item, pal),
        _ => true,
    }
}

/// Validation finishes on `ss`: every palette literal can be read, and every
/// other color is a name of the resulting palette or can be read as a
/// literal.
pub open spec fn validatable(ss: Seq<SpannedModel<StmtModel>>) -> bool {
    forall|k: int| 0 <= k < ss.len() ==> stmt_colors_ok(#[trigger] ss[k].node, setup(ss).palette)
}

// ---------------------------------------------------------------------------
// Executable validation.

pub open spec fn strings_view(v: Seq<String>) -> Seq<Seq<char>> {
    v.map_values(|s: String| s@)
}

fn contains_name(names: &Vec<String>, name: &str) -> (r: bool)
    ensures
        r == strings_view(names@).contains(name@),
{
    let mut i: usize = 0;
    while i < names.len()
        invariant
            0 <= i <= names@.len(),
            forall|k: int| 0 <= k < i ==> names@[k]@ != name@,
        decreases names@.len() - i,
    {
        if str_eq(names[i].as_str(), name) {
            proof {
                assert(strings_view(names@)[i as int] == name@);
            }
            return true;
        }
        i = i + 1;
    }
    proof {
        if strings_view(names@).contains(name@) {
            let k = choose|k: int| 0 <= k < strings_view(names@).len() && strings_view(names@)[k] == name@;
            assert(names@[k]@ == name@);
        }
    }
    false
}

/// `HashSet::insert`: adds the name unless it is there; tells whether it was
/// added.
fn insert_name(names: &mut Vec<String>, name: &String) -> (added: bool)
    ensures
        added == !strings_view(old(names)@).contains(name@),
        strings_view(final(names)@) == if added {
            strings_view(old(names)@).push(name@)
        } else {
            strings_view(old(names)@)
        },
{
    if contains_name(names, name.as_str()) {
        false
    } else {
        names.push(clone_string(name));
        proof {
            assert(strings_view(names@) =~= strings_view(old(names)@).push(name@));
        }
        true
    }
}

fn clone_names(names: &Vec<String>) -> (r: Vec<String>)
    ensures
        strings_view(r@) == strings_view(names@),
{
    let mut r: Vec<String> = Vec::new();
    let mut i: usize = 0;
    while i < names.len()
        invariant
            0 <= i <= names@.len(),
            strings_view(r@) == strings_view(names@).take(i as int),
        decreases names@.len() - i,
    {
        let c = clone_string(&names[i]);
        let ghost before = r@;
        r.push(c);
        proof {
            assert(strings_view(r@) =~= strings_view(before).push(c@));
            assert(strings_view(names@).take(i + 1) =~= strings_view(names@).take(i as int).push(names@[i as int]@));
        }
        i = i + 1;
    }
    proof {
        assert(strings_view(names@).take(names@.len() as int) =~= strings_view(names@));
    }
    r
}

fn push_error(errors: &mut Vec<Diagnostic>, d: Diagnostic)
    ensures
        diags_view(final(errors)@) == diags_view(old(errors)@).push(d@),
        final(errors)@.len() == old(errors)@.len() + 1,
{
    errors.push(d);
    proof {
        assert(diags_view(errors@) =~= diags_view(old(errors)@).push(d@));
    }
}

fn check_color_exec(
    c: &ColorExpr,
    palette: &Palette,
    strict: bool,
    errors: &mut Vec<Diagnostic>,
)
    requires
        resolvable(c.raw@, palette@),
    ensures
        final(errors)@.len() >= old(errors)@.len(),
        diags_view(final(errors)@) == match resolve(c.raw@, c.span, palette@, strict) {
            Ok(_) => diags_view(old(errors)@),
            Err(e) => diags_view(old(errors)@).push(e),
        },
{
    match resolve_color(c, palette, strict) {
        Ok(_) => {},
        Err(e) => push_error(errors, e),
    }
}

fn validate_item(
    item: &Item,
    span: Span,
    palette: &Palette,
    strict: bool,
    names: &mut Vec<String>,
    errors: &mut Vec<Diagnostic>,
)
    requires
        item_colors_ok(item_model(*item), palette@),
    ensures
        check_item(
            item_model(*item),
            span,
            palette@,
            strict,
            Checked { names: strings_view(old(names)@), errors: diags_view(old(errors)@) },
        ) == (Checked { names: strings_view(final(names)@), errors: diags_view(final(errors)@) }),
        final(errors)@.len() >= old(errors)@.len(),
    decreases *item, 1nat,
{
    match item {
        Item::Pixel { color, .. } => check_color_exec(color, palette, strict, errors),
        Item::Line { color, .. } => check_color_exec(color, palette, strict, errors),
        Item::Rect { color, .. } => check_color_exec(color, palette, strict, errors),
        Item::Fill { color, .. } => check_color_exec(color, palette, strict, errors),
        Item::Circle { color, .. } => check_color_exec(color, palette, strict, errors),
        Item::Group { name, items, .. } => {
            if !insert_name(names, name) {
                push_error(errors, Diagnostic::new("E024", span, message("duplicate name `", name.as_str(), "`").as_str()));
            }
            validate_items(items, palette, strict, names, errors);
        },
    }
    match item {
        Item::Rect { w, h, .. } => {
            if *w <= 0 || *h <= 0 {
                push_error(errors, Diagnostic::new("E025", span, "rect width and height must be positive"));
            }
        },
        Item::Circle { r, .. } => {
            if *r < 0 {
                push_error(errors, Diagnostic::new("E026", span, "circle radius must be non-negative"));
            }
        },
        _ => {},
    }
}

fn validate_items(
    items: &Vec<Spanned<Item>>,
    palette: &Palette,
    strict: bool,
    names: &mut Vec<String>,
    errors: &mut Vec<Diagnostic>,
)
    requires
        items_colors_ok(items_model(items@), 0, palette@),
    ensures
        check_items(
            items_model(items@),
            0,
            palette@,
            strict,
            Checked { names: strings_view(old(names)@), errors: diags_view(old(errors)@) },
        ) == (Checked { names: strings_view(final(names)@), errors: diags_view(final(errors)@) }),
        final(errors)@.len() >= old(errors)@.len(),
    decreases *items, 0nat,
{
    let ghost m = items_model(items@);
    proof {
        lemma_items_model(items@);
    }
    let mut i: usize = 0;
    while i < items.len()
        invariant
            0 <= i <= items@.len(),
            errors@.len() >= old(errors)@.len(),
            m == items_model(items@),
            m.len() == items@.len(),
            items_colors_ok(m, i as int, palette@),
            check_items(
                m,
                0,
                palette@,
                strict,
                Checked { names: strings_view(old(names)@), errors: diags_view(old(errors)@) },
            ) == check_items(m, i as int, palette@, strict, Checked { names: strings_view(names@), errors: diags_view(errors@) }),
        decreases items@.len() - i,
    {
        proof {
            lemma_items_model(items@);
            assert(m[i as int] == (SpannedModel { node: item_model(items@[i as int].node), span: items@[i as int].span }));
        }
        validate_item(&items[i].node, items[i].span, palette, strict, names, errors);
        i = i + 1;
    }
}


spec fn setup_of(
    errors: Seq<Diagnostic>,
    canvas: Option<(u32, u32)>,
    strict: bool,
    palette: Seq<(Seq<char>, Rgba)>,
    names: Seq<String>,
) -> Setup {
    Setup { errors: diags_view(errors), canvas, strict, palette, names: strings_view(names) }
}

fn first_pass_exec(stmts: &Vec<Spanned<Stmt>>) -> (r: (Vec<Diagnostic>, Option<(u32, u32)>, bool, Palette, Vec<String>))
    requires
        forall|k: int| 0 <= k < stmts@.len() ==> (#[trigger] stmts@[k].node@ matches StmtModel::Palette { entries }
            ==> forall|j: int| 0 <= j < entries.len() ==> color_in_domain(#[trigger] entries[j].color.raw)),
    ensures
        setup(stmts_model(stmts@)) == setup_of(r.0@, r.1, r.2, r.3@, r.4@),
{
    let ghost ss = stmts_model(stmts@);
    let mut errors: Vec<Diagnostic> = Vec::new();
    let mut canvas: Option<(u32, u32)> = None;
    let mut strict = false;
    let mut palette = Palette::new();
    let mut names: Vec<String> = Vec::new();
    proof {
        assert(diags_view(errors@) =~= Seq::<DiagnosticModel>::empty());
        assert(strings_view(names@) =~= Seq::<Seq<char>>::empty());
        assert(setup_of(errors@, canvas, strict, palette@, names@) == initial_setup());
    }
    let mut i: usize = 0;
    while i < stmts.len()
        invariant
            0 <= i <= stmts@.len(),
            ss == stmts_model(stmts@),
            forall|k: int| 0 <= k < stmts@.len() ==> (#[trigger] stmts@[k].node@ matches StmtModel::Palette { entries }
                ==> forall|j: int| 0 <= j < entries.len() ==> color_in_domain(#[trigger] entries[j].color.raw)),
            setup_stmts(ss, 0, initial_setup()) == setup_stmts(ss, i as int, setup_of(errors@, canvas, strict, palette@, names@)),
        decreases stmts@.len() - i,
    {
        let stmt = &stmts[i];
        let ghost st0 = setup_of(errors@, canvas, strict, palette@, names@);
        proof {
            assert(ss[i as int] == stmt@);
        }
        match &stmt.node {
            Stmt::Canvas { width, height } => {
                if *width <= 0 || *height <= 0 {
                    push_error(&mut errors, Diagnostic::new("E020", stmt.span, "canvas dimensions must be positive"));
                } else {
                    canvas = Some((*width as u32, *height as u32));
                }
            },
            Stmt::StrictPalette { value } => {
                strict = *value;
            },
            Stmt::Palette { entries } => {
                let ghost es = entries_model(entries@);
                let mut j: usize = 0;
                while j < entries.len()
                    invariant
                        0 <= j <= entries@.len(),
                        es == entries_model(entries@),
                        forall|q: int| 0 <= q < es.len() ==> color_in_domain(#[trigger] es[q].color.raw),
                        setup_entries(es, 0, st0) == setup_entries(es, j as int, setup_of(errors@, canvas, strict, palette@, names@)),
                    decreases entries@.len() - j,
                {
                    let e = &entries[j];
                    proof {
                        assert(es[j as int] == e@);
                    }
                    if !insert_name(&mut names, &e.name) {
                        push_error(&mut errors, Diagnostic::new("E021", e.span, message("duplicate palette color `", e.name.as_str(), "`").as_str()));
                    }
                    match parse_color_literal(e.color.raw.as_str()) {
                        Some(c) => palette.insert(clone_string(&e.name), c),
                        None => push_error(&mut errors, Diagnostic::new("E022", e.color.span, message("invalid color literal `", e.color.raw.as_str(), "`").as_str())),
                    }
                    j = j + 1;
                }
            },
            _ => {},
        }
        i = i + 1;
    }
    if canvas.is_none() {
        push_error(&mut errors, Diagnostic::new("E023", Span::new(1, 1, 1), "missing `canvas WIDTH HEIGHT`"));
    }
    (errors, canvas, strict, palette, names)
}


spec fn pass_of(names: Seq<String>, errors: Seq<Diagnostic>, background: Rgba, frames: Seq<String>) -> Pass {
    Pass {
        names: strings_view(names),
        errors: diags_view(errors),
        background,
        frames: strings_view(frames),
    }
}

fn second_pass_exec(
    stmts: &Vec<Spanned<Stmt>>,
    palette: &Palette,
    strict: bool,
    names: Vec<String>,
    errors: Vec<Diagnostic>,
) -> (r: (Rgba, Vec<String>, Vec<Diagnostic>))
    requires
        forall|k: int| 0 <= k < stmts@.len() ==> stmt_colors_ok(#[trigger] stmts@[k].node@, palette@),
    ensures
        ({
            let p = pass_stmts(
                stmts_model(stmts@),
                0,
                palette@,
                strict,
                pass_of(names@, errors@, transparent(), seq![]),
            );
            p.background == r.0 && p.frames == strings_view(r.1@) && p.errors == diags_view(r.2@)
        }),
        r.2@.len() >= errors@.len(),
{
    let ghost ss = stmts_model(stmts@);
    let ghost init = pass_of(names@, errors@, transparent(), seq![]);
    let mut names = names;
    let mut errors = errors;
    let ghost len0 = errors@.len();
    let mut background = Rgba::transparent();
    let mut frames: Vec<String> = Vec::new();
    proof {
        assert(strings_view(frames@) =~= Seq::<Seq<char>>::empty());
    }
    let mut i: usize = 0;
    while i < stmts.len()
        invariant
            0 <= i <= stmts@.len(),
            ss == stmts_model(stmts@),
            forall|k: int| 0 <= k < stmts@.len() ==> stmt_colors_ok(#[trigger] stmts@[k].node@, palette@),
            errors@.len() >= len0,
            pass_stmts(ss, 0, palette@, strict, init) == pass_stmts(ss, i as int, palette@, strict, pass_of(names@, errors@, background, frames@)),
        decreases stmts@.len() - i,
    {
        let stmt = &stmts[i];
        proof {
            assert(ss[i as int] == stmt@);
            assert(stmt_colors_ok(stmts@[i as int].node@, palette@));
        }
        match &stmt.node {
            Stmt::Background { color } => {
                match resolve_color(color, palette, strict) {
                    Ok(c) => {
                        background = c;
                    },
                    Err(e) => push_error(&mut errors, e),
                }
            },
            Stmt::Group { name, items, .. } => {
                if !insert_name(&mut names, name) {
                    push_error(&mut errors, Diagnostic::new("E024", stmt.span, message("duplicate name `", name.as_str(), "`").as_str()));
                }
                validate_items(items, palette, strict, &mut names, &mut errors);
            },
            Stmt::Frame { name, items } => {
                if !insert_name(&mut names, name) {
                    push_error(&mut errors, Diagnostic::new("E024", stmt.span, message("duplicate name `", name.as_str(), "`").as_str()));
                }
                if !insert_name(&mut frames, name) {
                    push_error(&mut errors, Diagnostic::new("E027", stmt.span, message("duplicate frame `", name.as_str(), "`").as_str()));
                }
                let mut frame_names = clone_names(&names);
                validate_items(items, palette, strict, &mut frame_names, &mut errors);
            },
            Stmt::Animation { name, fps, frames: refs } => {
                if !insert_name(&mut names, name) {
                    push_error(&mut errors, Diagnostic::new("E024", stmt.span, message("duplicate name `", name.as_str(), "`").as_str()));
                }
                if *fps <= 0 {
                    push_error(&mut errors, Diagnostic::new("E028", stmt.span, "animation fps must be positive"));
                }
                if refs.len() == 0 {
                    push_error(&mut errors, Diagnostic::new("E029", stmt.span, "animation must reference at least one frame"));
                }
            },
            Stmt::Item(item) => {
                validate_item(item, stmt.span, palette, strict, &mut names, &mut errors);
            },
            _ => {},
        }
        i = i + 1;
    }
    (background, frames, errors)
}

fn check_animations_exec(stmts: &Vec<Spanned<Stmt>>, frames: &Vec<String>, errors: &mut Vec<Diagnostic>)
    ensures
        diags_view(final(errors)@) == check_animations(stmts_model(stmts@), 0, strings_view(frames@), diags_view(old(errors)@)),
        final(errors)@.len() >= old(errors)@.len(),
{
    let ghost ss = stmts_model(stmts@);
    let ghost fs = strings_view(frames@);
    let mut i: usize = 0;
    while i < stmts.len()
        invariant
            0 <= i <= stmts@.len(),
            ss == stmts_model(stmts@),
            fs == strings_view(frames@),
            errors@.len() >= old(errors)@.len(),
            check_animations(ss, 0, fs, diags_view(old(errors)@)) == check_animations(ss, i as int, fs, diags_view(errors@)),
        decreases stmts@.len() - i,
    {
        let stmt = &stmts[i];
        proof {
            assert(ss[i as int] == stmt@);
        }
        if let Stmt::Animation { frames: refs, .. } = &stmt.node {
            let ghost rs = frames_model(refs@);
            let ghost e0 = diags_view(errors@);
            let mut j: usize = 0;
            while j < refs.len()
                invariant
                    0 <= j <= refs@.len(),
                    rs == frames_model(refs@),
                    fs == strings_view(frames@),
                    errors@.len() >= old(errors)@.len(),
                    check_refs(rs, 0, fs, e0) == check_refs(rs, j as int, fs, diags_view(errors@)),
                decreases refs@.len() - j,
            {
                let f = &refs[j];
                proof {
                    assert(rs[j as int] == f@);
                }
                if !contains_name(frames, f.name.as_str()) {
                    push_error(errors, Diagnostic::new("E030", f.span, message("unknown frame `", f.name.as_str(), "`").as_str()));
                }
                j = j + 1;
            }
        }
        i = i + 1;
    }
}

/// Checks a parsed document: a positive canvas, a palette of valid literals
/// with distinct names, colors that resolve, distinct group, frame and
/// animation names, positive rect sizes and animation rates, non-negative
/// radii, and animations that name known frames. Gives every error found, in
/// the order the checks meet them.
pub fn validate(document: Document) -> (r: Result<ValidDocument, Vec<Diagnostic>>)
    requires
        validatable(document@),
    ensures
        match r {
            Ok(v) => {
                &&& validation_errors(document@).len() == 0
                &&& setup(document@).canvas == Some(v.canvas)
                &&& v.background == second_pass(document@).background
                &&& v.strict_palette == setup(document@).strict
                &&& v.palette@ == setup(document@).palette
                &&& v.document@ == document@
            },
            Err(es) => validation_errors(document@).len() > 0 && diags_view(es@) == validation_errors(
                document@,
            ),
        },
        r is Ok == crate::acceptance::doc_accepted(document@),
{
    proof {
        crate::acceptance::law_validation_accepts(document@);
    }
    let ghost ss = document@;
    proof {
        assert forall|k: int| 0 <= k < document.statements@.len() implies (#[trigger] document.statements@[k].node@ matches StmtModel::Palette { entries }
            ==> forall|j: int| 0 <= j < entries.len() ==> color_in_domain(#[trigger] entries[j].color.raw)) by {
            assert(ss[k] == document.statements@[k]@);
            assert(stmt_colors_ok(ss[k].node, setup(ss).palette));
        }
    }
    let (errors, canvas, strict, palette, names) = first_pass_exec(&document.statements);
    let ghost setup_len = errors@.len();
    proof {
        assert(setup(ss).palette == palette@);
        assert forall|k: int| 0 <= k < document.statements@.len() implies stmt_colors_ok(#[trigger] document.statements@[k].node@, palette@) by {
            assert(ss[k] == document.statements@[k]@);
            assert(stmt_colors_ok(ss[k].node, setup(ss).palette));
        }
        if canvas is None {
            let st = setup_stmts(ss, 0, initial_setup());
            assert(setup(ss).canvas is None);
            assert(st.canvas is None);
            assert(setup(ss).errors.len() > 0);
            assert(diags_view(errors@).len() == errors@.len());
            assert(setup_len > 0);
        }
    }
    proof {
        assert(strings_view(Seq::<String>::empty()) =~= Seq::<Seq<char>>::empty());
        assert(pass_of(names@, errors@, transparent(), seq![]) == (Pass {
            names: setup(ss).names,
            errors: setup(ss).errors,
            background: transparent(),
            frames: seq![],
        }));
    }
    let (background, frames, errors) = second_pass_exec(&document.statements, &palette, strict, names, errors);
    let mut errors = errors;
    check_animations_exec(&document.statements, &frames, &mut errors);
    if errors.len() == 0 {
        match canvas {
            Some(c) => Ok(ValidDocument { canvas: c, background, strict_palette: strict, palette, document }),
            None => Err(errors),
        }
    } else {
        Err(errors)
    }
}

} // verus!
