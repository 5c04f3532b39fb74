//! When validation accepts a document, stated directly: a canvas with
//! positive sides, readable palette literals, every name declared once,
//! every color resolvable, positive rectangles, non-negative radii, and
//! animations that name existing frames at a positive rate.

use vstd::prelude::*;
use crate::ast::{ColorModel, ItemModel, PaletteEntryModel, SpannedModel, StmtModel};
use crate::color::{color_literal, resolve, Rgba};
use crate::diagnostics::Span;
use crate::validate::{
    check_item, check_items, checked_of, declare, pass_stmt, pass_stmts, setup_entries, setup_entry, setup_stmt,
    setup_stmts, with_checked, Checked, Pass, Setup, setup, initial_setup, second_pass, validation_errors,
    check_animations,
};
use crate::laws::{anim_refs, frame_named};
use crate::color::transparent;

verus! {

broadcast use vstd::seq::group_seq_axioms;

/// No name occurs twice.
pub open spec fn no_dups(s: Seq<Seq<char>>) -> bool {
    forall|i: int, j: int| 0 <= i < j < s.len() ==> (#[trigger] s[i]) != (#[trigger] s[j])
}

pub open spec fn resolves(c: ColorModel, pal: Seq<(Seq<char>, Rgba)>, strict: bool) -> bool {
    resolve(c.raw, c.span, pal, strict) is Ok
}

/// The names the item declares: a group's name, then those of its items.
pub open spec fn item_decls(item: ItemModel) -> Seq<Seq<char>>
    decreases item, 1nat,
{
    match item {
        ItemModel::Group { name, items, .. } => seq![name] + items_decls(items, 0),
        _ => seq![],
    }
}

pub open spec fn items_decls(items: Seq<SpannedModel<ItemModel>>, i: int) -> Seq<Seq<char>>
    decreases items, items.len() - i,
{
    if i < 0 || i >= items.len() {
        seq![]
    } else {
        item_decls(items[i].node) + items_decls(items, i + 1)
    }
}

/// Every color of the item resolves, every rectangle has positive sides and
/// every circle a non-negative radius.
pub open spec fn item_ok(item: ItemModel, pal: Seq<(Seq<char>, Rgba)>, strict: bool) -> bool
    decreases item, 1nat,
{
    match item {
        ItemModel::Pixel { color, .. } => resolves(color, pal, strict),
        ItemModel::Line { color, .. } => resolves(color, pal, strict),
        ItemModel::Rect { w, h, color, .. } => resolves(color, pal, strict) && w > 0 && h > 0,
        ItemModel::Fill { color, .. } => resolves(color, pal, strict),
        ItemModel::Circle { r, color, .. } => resolves(color, pal, strict) && r >= 0,
        ItemModel::Group { items, .. } => items_ok(items, 0, pal, strict),
    }
}

pub open spec fn items_ok(items: Seq<SpannedModel<ItemModel>>, i: int, pal: Seq<(Seq<char>, Rgba)>, strict: bool) -> bool
    decreases items, items.len() - i,
{
    if i < 0 || i >= items.len() {
        true
    } else {
        item_ok(items[i].node, pal, strict) && items_ok(items, i + 1, pal, strict)
    }
}

proof fn lemma_no_dups_prefix(a: Seq<Seq<char>>, b: Seq<Seq<char>>)
    requires
        no_dups(a + b),
    ensures
        no_dups(a),
{
    assert forall|i: int, j: int| 0 <= i < j < a.len() implies (#[trigger] a[i]) != (#[trigger] a[j]) by {
        assert((a + b)[i] == a[i] && (a + b)[j] == a[j]);
    }
}

proof fn lemma_no_dups_push(a: Seq<Seq<char>>, n: Seq<char>)
    requires
        no_dups(a),
        !a.contains(n),
    ensures
        no_dups(a.push(n)),
{
    assert forall|i: int, j: int| 0 <= i < j < a.push(n).len() implies (#[trigger] a.push(n)[i]) != (
    #[trigger] a.push(n)[j]) by {
        if j == a.len() {
            assert(a.push(n)[i] == a[i]);
            if a[i] == n {
                assert(a.contains(n));
            }
        } else {
            assert(a.push(n)[i] == a[i] && a.push(n)[j] == a[j]);
        }
    }
}

/// `n` followed by more names has no repeat only if `n` is not among the
/// names before it.
proof fn lemma_no_dups_head(a: Seq<Seq<char>>, n: Seq<char>, b: Seq<Seq<char>>)
    requires
        no_dups(a),
    ensures
        no_dups(a + (seq![n] + b)) ==> !a.contains(n),
        no_dups(a + (seq![n] + b)) <==> no_dups(a.push(n) + b),
{
    assert(a + (seq![n] + b) =~= a.push(n) + b);
    if no_dups(a + (seq![n] + b)) && a.contains(n) {
        let i = choose|i: int| 0 <= i < a.len() && a[i] == n;
        assert((a.push(n) + b)[i] == n && (a.push(n) + b)[a.len() as int] == n);
    }
}

/// Checking an item adds no error exactly when the item is sound and the
/// names it declares are new and distinct; then it adds those names.
pub proof fn lemma_check_item_accepts(
    item: ItemModel,
    span: Span,
    pal: Seq<(Seq<char>, Rgba)>,
    strict: bool,
    st: Checked,
)
    requires
        no_dups(st.names),
    ensures
        check_item(item, span, pal, strict, st).errors.len() >= st.errors.len(),
        (check_item(item, span, pal, strict, st).errors.len() == st.errors.len()) == (item_ok(item, pal, strict)
            && no_dups(st.names + item_decls(item))),
        check_item(item, span, pal, strict, st).errors.len() == st.errors.len() ==> check_item(
            item,
            span,
            pal,
            strict,
            st,
        ).names == st.names + item_decls(item),
    decreases item, 0nat,
{
    match item {
        ItemModel::Group { name, items, .. } => {
            let d = declare(name, span, st);
            lemma_no_dups_head(st.names, name, items_decls(items, 0));
            assert(item_decls(item) == seq![name] + items_decls(items, 0));
            if st.names.contains(name) {
                crate::laws::lemma_check_items(items, 0, pal, strict, d);
            } else {
                lemma_no_dups_push(st.names, name);
                lemma_check_items_accepts(items, 0, pal, strict, d);
                assert(st.names + item_decls(item) =~= st.names.push(name) + items_decls(items, 0));
            }
        },
        _ => {
            assert(item_decls(item) =~= Seq::<Seq<char>>::empty());
            assert(st.names + item_decls(item) =~= st.names);
        },
    }
}

/// Checking items adds no error exactly when they are sound and the names
/// they declare are new and distinct; then it adds those names.
pub proof fn lemma_check_items_accepts(
    items: Seq<SpannedModel<ItemModel>>,
    i: int,
    pal: Seq<(Seq<char>, Rgba)>,
    strict: bool,
    st: Checked,
)
    requires
        no_dups(st.names),
        0 <= i,
    ensures
        check_items(items, i, pal, strict, st).errors.len() >= st.errors.len(),
        (check_items(items, i, pal, strict, st).errors.len() == st.errors.len()) == (items_ok(items, i, pal, strict)
            && no_dups(st.names + items_decls(items, i))),
        check_items(items, i, pal, strict, st).errors.len() == st.errors.len() ==> check_items(
            items,
            i,
            pal,
            strict,
            st,
        ).names == st.names + items_decls(items, i),
    decreases items, items.len() - i,
{
    if i < items.len() {
        let a = items[i].node;
        let st1 = check_item(a, items[i].span, pal, strict, st);
        lemma_check_item_accepts(a, items[i].span, pal, strict, st);
        let da = item_decls(a);
        let dr = items_decls(items, i + 1);
        assert(items_decls(items, i) == da + dr);
        assert(st.names + (da + dr) =~= (st.names + da) + dr);
        if st1.errors.len() == st.errors.len() {
            lemma_check_items_accepts(items, i + 1, pal, strict, st1);
        } else {
            crate::laws::lemma_check_items(items, i + 1, pal, strict, st1);
            if no_dups((st.names + da) + dr) {
                lemma_no_dups_prefix(st.names + da, dr);
            }
        }
        if no_dups((st.names + da) + dr) {
            lemma_no_dups_prefix(st.names + da, dr);
        }
    } else {
        assert(st.names + items_decls(items, i) =~= st.names);
    }
}

// ---------------------------------------------------------------------------
// The first pass: canvas and palette.

pub open spec fn entries_names(es: Seq<PaletteEntryModel>) -> Seq<Seq<char>> {
    es.map_values(|e: PaletteEntryModel| e.name)
}

/// The names of the palette entries of `ss[i..]`, in order.
pub open spec fn palette_names_from(ss: Seq<SpannedModel<StmtModel>>, i: int) -> Seq<Seq<char>>
    decreases ss.len() - i,
{
    if i < 0 || i >= ss.len() {
        seq![]
    } else {
        match ss[i].node {
            StmtModel::Palette { entries } => entries_names(entries) + palette_names_from(ss, i + 1),
            _ => palette_names_from(ss, i + 1),
        }
    }
}

/// Every palette entry of the statement is a readable literal, and a canvas
/// has positive sides.
pub open spec fn setup_ok(s: StmtModel) -> bool {
    match s {
        StmtModel::Canvas { width, height } => width > 0 && height > 0,
        StmtModel::Palette { entries } => forall|j: int|
            0 <= j < entries.len() ==> color_literal((#[trigger] entries[j]).color.raw) is Some,
        _ => true,
    }
}

proof fn lemma_setup_entries_accepts(es: Seq<PaletteEntryModel>, i: int, st: Setup)
    requires
        no_dups(st.names),
        0 <= i <= es.len(),
    ensures
        setup_entries(es, i, st).errors.len() >= st.errors.len(),
        setup_entries(es, i, st).canvas == st.canvas,
        (setup_entries(es, i, st).errors.len() == st.errors.len()) == ((forall|j: int|
            i <= j < es.len() ==> color_literal((#[trigger] es[j]).color.raw) is Some) && no_dups(
            st.names + entries_names(es).subrange(i, es.len() as int),
        )),
        setup_entries(es, i, st).errors.len() == st.errors.len() ==> setup_entries(es, i, st).names == st.names
            + entries_names(es).subrange(i, es.len() as int),
        no_dups(setup_entries(es, i, st).names),
    decreases es.len() - i,
{
    let rest = entries_names(es).subrange(i, es.len() as int);
    if i < es.len() {
        let e = es[i];
        let st1 = setup_entry(e, st);
        if !st.names.contains(e.name) {
            lemma_no_dups_push(st.names, e.name);
        }
        lemma_setup_entries_accepts(es, i + 1, st1);
        let r2 = entries_names(es).subrange(i + 1, es.len() as int);
        assert(rest =~= seq![e.name] + r2);
        lemma_no_dups_head(st.names, e.name, r2);
        if no_dups(st.names + rest) {
            lemma_no_dups_prefix(st.names.push(e.name), r2);
        }
    } else {
        assert(rest =~= Seq::<Seq<char>>::empty());
        assert(st.names + rest =~= st.names);
    }
}

pub open spec fn sized_canvas(s: StmtModel) -> bool {
    s matches StmtModel::Canvas { width, height } && width > 0 && height > 0
}

proof fn lemma_setup_stmts_accepts(ss: Seq<SpannedModel<StmtModel>>, i: int, st: Setup)
    requires
        no_dups(st.names),
        0 <= i,
    ensures
        setup_stmts(ss, i, st).errors.len() >= st.errors.len(),
        (setup_stmts(ss, i, st).errors.len() == st.errors.len()) == ((forall|k: int|
            i <= k < ss.len() ==> setup_ok(#[trigger] ss[k].node)) && no_dups(st.names + palette_names_from(ss, i))),
        setup_stmts(ss, i, st).errors.len() == st.errors.len() ==> setup_stmts(ss, i, st).names == st.names
            + palette_names_from(ss, i),
        no_dups(setup_stmts(ss, i, st).names),
        (setup_stmts(ss, i, st).canvas is Some) == (st.canvas is Some || exists|k: int|
            i <= k < ss.len() && #[trigger] sized_canvas(ss[k].node)),
    decreases ss.len() - i,
{
    if i < ss.len() {
        let st1 = setup_stmt(ss[i], st);
        let d = match ss[i].node {
            StmtModel::Palette { entries } => entries_names(entries),
            _ => seq![],
        };
        match ss[i].node {
            StmtModel::Palette { entries } => {
                lemma_setup_entries_accepts(entries, 0, st);
                assert(entries_names(entries).subrange(0, entries.len() as int) =~= entries_names(entries));
            },
            _ => {
                assert(st.names + d =~= st.names);
            },
        }
        lemma_setup_stmts_accepts(ss, i + 1, st1);
        let r = palette_names_from(ss, i + 1);
        assert(palette_names_from(ss, i) == d + r);
        assert(st.names + (d + r) =~= (st.names + d) + r);
        if no_dups((st.names + d) + r) {
            lemma_no_dups_prefix(st.names + d, r);
        }
        if exists|k: int| i + 1 <= k < ss.len() && #[trigger] sized_canvas(ss[k].node) {
            let k = choose|k: int| i + 1 <= k < ss.len() && #[trigger] sized_canvas(ss[k].node);
            assert(i <= k < ss.len() && sized_canvas(ss[k].node));
        }
        if sized_canvas(ss[i].node) {
            assert(i <= i < ss.len() && sized_canvas(ss[i].node));
        }
        assert forall|k: int| i + 1 <= k < ss.len() && (forall|k: int| i <= k < ss.len() ==> setup_ok(#[trigger] ss[k].node)) implies setup_ok(#[trigger] ss[k].node) by {}
    } else {
        assert(st.names + palette_names_from(ss, i) =~= st.names);
    }
}

// ---------------------------------------------------------------------------
// The second pass: names, colors and shapes.

/// The names a statement declares that the statements after it see: a
/// group's name and those of its items, a frame's or an animation's name, the
/// names a lone item declares.
pub open spec fn visible(s: StmtModel) -> Seq<Seq<char>> {
    match s {
        StmtModel::Group { name, items, .. } => seq![name] + items_decls(items, 0),
        StmtModel::Frame { name, .. } => seq![name],
        StmtModel::Animation { name, .. } => seq![name],
        StmtModel::Item(item) => item_decls(item),
        _ => seq![],
    }
}

/// The names a statement declares, those inside a frame included: the names
/// inside a frame are seen by that frame alone.
pub open spec fn checked_names(s: StmtModel) -> Seq<Seq<char>> {
    match s {
        StmtModel::Frame { name, items } => seq![name] + items_decls(items, 0),
        _ => visible(s),
    }
}

/// The names that `ss[i..k]` declare for the statements after them.
pub open spec fn visible_range(ss: Seq<SpannedModel<StmtModel>>, i: int, k: int) -> Seq<Seq<char>>
    decreases k - i,
{
    if k <= i || i < 0 || i >= ss.len() {
        seq![]
    } else {
        visible(ss[i].node) + visible_range(ss, i + 1, k)
    }
}

/// Every color of the statement resolves, its shapes are sound, and an
/// animation runs at a positive rate over at least one frame.
pub open spec fn stmt_ok(s: StmtModel, pal: Seq<(Seq<char>, Rgba)>, strict: bool) -> bool {
    match s {
        StmtModel::Background { color } => resolves(color, pal, strict),
        StmtModel::Group { items, .. } => items_ok(items, 0, pal, strict),
        StmtModel::Frame { items, .. } => items_ok(items, 0, pal, strict),
        StmtModel::Animation { fps, frames, .. } => fps > 0 && frames.len() > 0,
        StmtModel::Item(item) => item_ok(item, pal, strict),
        _ => true,
    }
}

/// From `ss[i]` on, with the names `base` declared before: every statement
/// is sound, and the names before each statement together with those it
/// declares are distinct.
pub open spec fn accept_from(
    base: Seq<Seq<char>>,
    ss: Seq<SpannedModel<StmtModel>>,
    i: int,
    pal: Seq<(Seq<char>, Rgba)>,
    strict: bool,
) -> bool {
    &&& forall|k: int| i <= k < ss.len() ==> stmt_ok(#[trigger] ss[k].node, pal, strict)
    &&& forall|k: int|
        i <= k < ss.len() ==> no_dups(base + visible_range(ss, i, k) + checked_names(#[trigger] ss[k].node))
}

/// The frame names are among the declared names.
pub open spec fn frames_declared(st: Pass) -> bool {
    forall|f: Seq<char>| st.frames.contains(f) ==> st.names.contains(f)
}

proof fn lemma_pass_stmt_accepts(s: SpannedModel<StmtModel>, pal: Seq<(Seq<char>, Rgba)>, strict: bool, st: Pass)
    requires
        no_dups(st.names),
        frames_declared(st),
    ensures
        pass_stmt(s, pal, strict, st).errors.len() >= st.errors.len(),
        (pass_stmt(s, pal, strict, st).errors.len() == st.errors.len()) == (stmt_ok(s.node, pal, strict) && no_dups(
            st.names + checked_names(s.node),
        )),
        pass_stmt(s, pal, strict, st).errors.len() == st.errors.len() ==> pass_stmt(s, pal, strict, st).names
            == st.names + visible(s.node) && frames_declared(pass_stmt(s, pal, strict, st)),
{
    let c0 = checked_of(st);
    match s.node {
        StmtModel::Group { name, x, y, items } => {
            lemma_check_item_accepts(ItemModel::Group { name, x, y, items }, s.span, pal, strict, c0);
            assert(check_item(ItemModel::Group { name, x, y, items }, s.span, pal, strict, c0) == check_items(
                items,
                0,
                pal,
                strict,
                declare(name, s.span, c0),
            ));
            let r = pass_stmt(s, pal, strict, st);
            if r.errors.len() == st.errors.len() {
                assert forall|f: Seq<char>| r.frames.contains(f) implies r.names.contains(f) by {
                    assert(st.names.contains(f));
                    let j = choose|j: int| 0 <= j < st.names.len() && st.names[j] == f;
                    assert(r.names[j] == f);
                }
            }
        },
        StmtModel::Frame { name, items } => {
            lemma_no_dups_head(st.names, name, items_decls(items, 0));
            let c1 = declare(name, s.span, c0);
            if st.names.contains(name) {
                let c2 = if st.frames.contains(name) {
                    Checked {
                        errors: c1.errors.push(crate::diagnostics::diag("E027"@, s.span, "duplicate frame `"@ + name + "`"@)),
                        ..c1
                    }
                } else {
                    c1
                };
                crate::laws::lemma_check_items(items, 0, pal, strict, c2);
            } else {
                assert(!st.frames.contains(name));
                lemma_no_dups_push(st.names, name);
                lemma_check_items_accepts(items, 0, pal, strict, c1);
                let r = pass_stmt(s, pal, strict, st);
                assert(st.names + visible(s.node) =~= st.names.push(name));
                assert forall|f: Seq<char>| r.frames.contains(f) implies r.names.contains(f) by {
                    if f != name {
                        assert(st.frames.contains(f));
                        assert(st.names.contains(f));
                        let j = choose|j: int| 0 <= j < st.names.len() && st.names[j] == f;
                        assert(r.names[j] == f);
                    } else {
                        assert(r.names[st.names.len() as int] == f);
                    }
                }
            }
        },
        StmtModel::Animation { name, .. } => {
            lemma_no_dups_head(st.names, name, Seq::<Seq<char>>::empty());
            assert(seq![name] + Seq::<Seq<char>>::empty() =~= seq![name]);
            assert(st.names.push(name) + Seq::<Seq<char>>::empty() =~= st.names.push(name));
            assert(st.names + seq![name] =~= st.names.push(name));
            if !st.names.contains(name) {
                let r = pass_stmt(s, pal, strict, st);
                assert forall|f: Seq<char>| r.frames.contains(f) implies r.names.contains(f) by {
                    assert(st.names.contains(f));
                    let j = choose|j: int| 0 <= j < st.names.len() && st.names[j] == f;
                    assert(r.names[j] == f);
                }
            }
        },
        StmtModel::Item(item) => {
            lemma_check_item_accepts(item, s.span, pal, strict, c0);
            let r = pass_stmt(s, pal, strict, st);
            if r.errors.len() == st.errors.len() {
                assert forall|f: Seq<char>| r.frames.contains(f) implies r.names.contains(f) by {
                    assert(st.names.contains(f));
                    let j = choose|j: int| 0 <= j < st.names.len() && st.names[j] == f;
                    assert(r.names[j] == f);
                }
            }
        },
        _ => {
            assert(st.names + checked_names(s.node) =~= st.names);
        },
    }
}

proof fn lemma_pass_stmts_accepts(
    ss: Seq<SpannedModel<StmtModel>>,
    i: int,
    pal: Seq<(Seq<char>, Rgba)>,
    strict: bool,
    st: Pass,
)
    requires
        no_dups(st.names),
        frames_declared(st),
        0 <= i,
    ensures
        pass_stmts(ss, i, pal, strict, st).errors.len() >= st.errors.len(),
        (pass_stmts(ss, i, pal, strict, st).errors.len() == st.errors.len()) == accept_from(st.names, ss, i, pal, strict),
    decreases ss.len() - i,
{
    if i < ss.len() {
        let a = ss[i];
        let st1 = pass_stmt(a, pal, strict, st);
        lemma_pass_stmt_accepts(a, pal, strict, st);
        let base = st.names;
        let base1 = base + visible(a.node);
        assert(visible_range(ss, i, i) =~= Seq::<Seq<char>>::empty());
        assert(base + visible_range(ss, i, i) + checked_names(a.node) =~= base + checked_names(a.node));
        if st1.errors.len() == st.errors.len() {
            lemma_pass_stmts_accepts(ss, i + 1, pal, strict, st1);
            assert forall|k: int| i + 1 <= k < ss.len() implies base + visible_range(ss, i, k) + checked_names(
                ss[k].node,
            ) =~= base1 + visible_range(ss, i + 1, k) + checked_names(ss[k].node) by {
                assert(visible_range(ss, i, k) == visible(a.node) + visible_range(ss, i + 1, k));
            }
            if accept_from(base, ss, i, pal, strict) {
                assert forall|k: int| i + 1 <= k < ss.len() implies no_dups(
                    base1 + visible_range(ss, i + 1, k) + checked_names(#[trigger] ss[k].node),
                ) by {
                    assert(no_dups(base + visible_range(ss, i, k) + checked_names(ss[k].node)));
                }
                assert(accept_from(base1, ss, i + 1, pal, strict));
            }
            if accept_from(base1, ss, i + 1, pal, strict) {
                assert forall|k: int| i <= k < ss.len() implies no_dups(
                    base + visible_range(ss, i, k) + checked_names(#[trigger] ss[k].node),
                ) by {
                    if k > i {
                        assert(no_dups(base1 + visible_range(ss, i + 1, k) + checked_names(ss[k].node)));
                    }
                }
            }
        } else {
            crate::laws::lemma_pass_stmts(ss, i + 1, pal, strict, st1);
            if accept_from(base, ss, i, pal, strict) {
                assert(stmt_ok(ss[i].node, pal, strict));
                assert(no_dups(base + visible_range(ss, i, i) + checked_names(ss[i].node)));
            }
        }
    }
}

/// The second pass keeps the frame names it has and adds every frame's name.
proof fn lemma_pass_collects_frames(
    ss: Seq<SpannedModel<StmtModel>>,
    i: int,
    pal: Seq<(Seq<char>, Rgba)>,
    strict: bool,
    st: Pass,
    n: Seq<char>,
)
    requires
        0 <= i,
        st.frames.contains(n) || exists|k: int| i <= k < ss.len() && #[trigger] frame_named(ss[k].node, n),
    ensures
        pass_stmts(ss, i, pal, strict, st).frames.contains(n),
    decreases ss.len() - i,
{
    if i < ss.len() {
        let st1 = pass_stmt(ss[i], pal, strict, st);
        if st.frames.contains(n) {
            let j = choose|j: int| 0 <= j < st.frames.len() && st.frames[j] == n;
            match ss[i].node {
                StmtModel::Frame { name, .. } => {
                    if !st.frames.contains(name) {
                        assert(st1.frames[j] == n);
                    }
                },
                _ => {},
            }
            assert(st1.frames.contains(n));
        } else if frame_named(ss[i].node, n) {
            if !st.frames.contains(n) {
                assert(st1.frames[st.frames.len() as int] == n);
            }
            assert(st1.frames.contains(n));
        } else {
            let k = choose|k: int| i <= k < ss.len() && #[trigger] frame_named(ss[k].node, n);
            assert(i + 1 <= k);
            if st1.frames.contains(n) {
            } else {
                assert(exists|k: int| i + 1 <= k < ss.len() && #[trigger] frame_named(ss[k].node, n));
            }
        }
        lemma_pass_collects_frames(ss, i + 1, pal, strict, st1, n);
    }
}

// ---------------------------------------------------------------------------
// The whole validation.

/// What validation accepts, stated directly: there is a canvas and every
/// canvas has positive sides; every palette literal is readable and no
/// palette name is given twice; every statement is sound (colors resolve
/// against the palette, rectangles have positive sides, radii are not
/// negative, animations run at a positive rate over at least one frame);
/// the names declared before each statement (palette names first) and the
/// names it declares are distinct; and every frame an animation names is a
/// frame of the document.
pub open spec fn doc_accepted(ss: Seq<SpannedModel<StmtModel>>) -> bool {
    let pal = setup(ss).palette;
    let strict = setup(ss).strict;
    &&& exists|k: int| 0 <= k < ss.len() && #[trigger] sized_canvas(ss[k].node)
    &&& forall|k: int| 0 <= k < ss.len() ==> setup_ok(#[trigger] ss[k].node)
    &&& no_dups(palette_names_from(ss, 0))
    &&& accept_from(palette_names_from(ss, 0), ss, 0, pal, strict)
    &&& forall|k: int, j: int|
        0 <= k < ss.len() && 0 <= j < anim_refs(ss[k].node).len() ==> frame_exists(
            ss,
            (#[trigger] anim_refs(ss[k].node)[j]).name,
        )
}

/// The document has a frame called `n`.
pub open spec fn frame_exists(ss: Seq<SpannedModel<StmtModel>>, n: Seq<char>) -> bool {
    exists|m: int| 0 <= m < ss.len() && #[trigger] frame_named(ss[m].node, n)
}

/// Law: validation finds no error exactly when the document is accepted.
pub proof fn law_validation_accepts(ss: Seq<SpannedModel<StmtModel>>)
    ensures
        (validation_errors(ss).len() == 0) == doc_accepted(ss),
{
    let st0 = setup_stmts(ss, 0, initial_setup());
    assert(no_dups(initial_setup().names));
    lemma_setup_stmts_accepts(ss, 0, initial_setup());
    assert(initial_setup().names + palette_names_from(ss, 0) =~= palette_names_from(ss, 0));
    let su = setup(ss);
    let pal = su.palette;
    let strict = su.strict;
    let p0 = Pass { names: su.names, errors: su.errors, background: transparent(), frames: seq![] };
    assert(frames_declared(p0));
    lemma_pass_stmts_accepts(ss, 0, pal, strict, p0);
    let p = second_pass(ss);
    crate::laws::lemma_check_animations(ss, 0, p.frames, p.errors);
    let refs_ok = forall|k: int, j: int|
        0 <= k < ss.len() && 0 <= j < anim_refs(ss[k].node).len() ==> p.frames.contains(
            (#[trigger] anim_refs(ss[k].node)[j]).name,
        );
    let refs_exist = forall|k: int, j: int|
        0 <= k < ss.len() && 0 <= j < anim_refs(ss[k].node).len() ==> frame_exists(
            ss,
            (#[trigger] anim_refs(ss[k].node)[j]).name,
        );
    if refs_ok {
        assert forall|k: int, j: int| 0 <= k < ss.len() && 0 <= j < anim_refs(ss[k].node).len() implies frame_exists(
            ss,
            (#[trigger] anim_refs(ss[k].node)[j]).name,
        ) by {
            let n = anim_refs(ss[k].node)[j].name;
            assert(p.frames.contains(n));
            crate::laws::lemma_pass_frames(ss, 0, pal, strict, p0, n);
            assert(!p0.frames.contains(n));
        }
    }
    if refs_exist {
        assert forall|k: int, j: int| 0 <= k < ss.len() && 0 <= j < anim_refs(ss[k].node).len() implies p.frames.contains(
            (#[trigger] anim_refs(ss[k].node)[j]).name,
        ) by {
            let n = anim_refs(ss[k].node)[j].name;
            assert(frame_exists(ss, n));
            lemma_pass_collects_frames(ss, 0, pal, strict, p0, n);
        }
    }
    assert(refs_ok == refs_exist);
    assert(validation_errors(ss) == check_animations(ss, 0, p.frames, p.errors));
    assert(p == pass_stmts(ss, 0, pal, strict, p0));
    assert((su.errors.len() == 0) == ((forall|k: int| 0 <= k < ss.len() ==> setup_ok(#[trigger] ss[k].node))
        && no_dups(palette_names_from(ss, 0)) && exists|k: int| 0 <= k < ss.len() && #[trigger] sized_canvas(
        ss[k].node,
    )));
    if su.errors.len() == 0 {
        assert(st0.errors.len() == 0);
        assert(su.names == palette_names_from(ss, 0));
    }
}

} // verus!
