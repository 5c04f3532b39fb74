//! The syntax tree of a `.pix` document and its mathematical model.

use vstd::prelude::*;
use crate::diagnostics::Span;

verus! {

#[derive(Debug)]
pub struct Document {
    pub statements: Vec<Spanned<Stmt>>,
}

#[derive(Debug, Clone)]
pub struct Spanned<T> {
    pub node: T,
    pub span: Span,
}

impl<T> Spanned<T> {
    pub fn new(node: T, span: Span) -> (s: Self)
        ensures
            s.node == node,
            s.span == span,
    {
        Spanned { node, span }
    }
}

#[derive(Debug)]
pub enum Stmt {
    Canvas { width: i32, height: i32 },
    Background { color: ColorExpr },
    StrictPalette { value: bool },
    Palette { entries: Vec<PaletteEntry> },
    Group { name: String, x: i32, y: i32, items: Vec<Spanned<Item>> },
    Frame { name: String, items: Vec<Spanned<Item>> },
    Animation { name: String, fps: i32, frames: Vec<AnimationFrame> },
    Item(Item),
}

#[derive(Debug, Clone)]
pub struct PaletteEntry {
    pub name: String,
    pub color: ColorExpr,
    pub span: Span,
}

#[derive(Debug, Clone)]
pub struct AnimationFrame {
    pub name: String,
    pub span: Span,
}

#[derive(Debug)]
pub enum Item {
    Pixel { x: i32, y: i32, color: ColorExpr },
    Line { x1: i32, y1: i32, x2: i32, y2: i32, color: ColorExpr },
    Rect { x: i32, y: i32, w: i32, h: i32, color: ColorExpr },
    Fill { x: i32, y: i32, color: ColorExpr },
    Circle { cx: i32, cy: i32, r: i32, color: ColorExpr },
    Group { name: String, x: i32, y: i32, items: Vec<Spanned<Item>> },
}

#[derive(Debug, Clone)]
pub struct ColorExpr {
    pub raw: String,
    pub span: Span,
}

// ---------------------------------------------------------------------------
// Models: the same trees with text as characters and lists as sequences.

pub struct SpannedModel<T> {
    pub node: T,
    pub span: Span,
}

pub struct ColorModel {
    pub raw: Seq<char>,
    pub span: Span,
}

pub struct PaletteEntryModel {
    pub name: Seq<char>,
    pub color: ColorModel,
    pub span: Span,
}

pub struct FrameRefModel {
    pub name: Seq<char>,
    pub span: Span,
}

pub enum ItemModel {
    Pixel { x: i32, y: i32, color: ColorModel },
    Line { x1: i32, y1: i32, x2: i32, y2: i32, color: ColorModel },
    Rect { x: i32, y: i32, w: i32, h: i32, color: ColorModel },
    Fill { x: i32, y: i32, color: ColorModel },
    Circle { cx: i32, cy: i32, r: i32, color: ColorModel },
    Group { name: Seq<char>, x: i32, y: i32, items: Seq<SpannedModel<ItemModel>> },
}

pub enum StmtModel {
    Canvas { width: i32, height: i32 },
    Background { color: ColorModel },
    StrictPalette { value: bool },
    Palette { entries: Seq<PaletteEntryModel> },
    Group { name: Seq<char>, x: i32, y: i32, items: Seq<SpannedModel<ItemModel>> },
    Frame { name: Seq<char>, items: Seq<SpannedModel<ItemModel>> },
    Animation { name: Seq<char>, fps: i32, frames: Seq<FrameRefModel> },
    Item(ItemModel),
}

impl View for ColorExpr {
    type V = ColorModel;

    open spec fn view(&self) -> ColorModel {
        ColorModel { raw: self.raw@, span: self.span }
    }
}

impl View for PaletteEntry {
    type V = PaletteEntryModel;

    open spec fn view(&self) -> PaletteEntryModel {
        PaletteEntryModel { name: self.name@, color: self.color@, span: self.span }
    }
}

impl View for AnimationFrame {
    type V = FrameRefModel;

    open spec fn view(&self) -> FrameRefModel {
        FrameRefModel { name: self.name@, span: self.span }
    }
}

pub open spec fn item_model(i: Item) -> ItemModel
    decreases i,
{
    match i {
        Item::Pixel { x, y, color } => ItemModel::Pixel { x, y, color: color@ },
        Item::Line { x1, y1, x2, y2, color } => ItemModel::Line { x1, y1, x2, y2, color: color@ },
        Item::Rect { x, y, w, h, color } => ItemModel::Rect { x, y, w, h, color: color@ },
        Item::Fill { x, y, color } => ItemModel::Fill { x, y, color: color@ },
        Item::Circle { cx, cy, r, color } => ItemModel::Circle { cx, cy, r, color: color@ },
        Item::Group { name, x, y, items } => ItemModel::Group {
            name: name@,
            x,
            y,
            items: items_model(items@),
        },
    }
}

pub open spec fn items_model(s: Seq<Spanned<Item>>) -> Seq<SpannedModel<ItemModel>>
    decreases s,
{
    if s.len() == 0 {
        seq![]
    } else {
        items_model(s.drop_last()).push(
            SpannedModel { node: item_model(s.last().node), span: s.last().span },
        )
    }
}

pub proof fn lemma_items_model(s: Seq<Spanned<Item>>)
    ensures
        items_model(s).len() == s.len(),
        forall|i: int|
            0 <= i < s.len() ==> #[trigger] items_model(s)[i] == (SpannedModel {
                node: item_model(s[i].node),
                span: s[i].span,
            }),
    decreases s.len(),
{
    if s.len() > 0 {
        lemma_items_model(s.drop_last());
        assert forall|i: int| 0 <= i < s.len() implies #[trigger] items_model(s)[i] == (SpannedModel {
            node: item_model(s[i].node),
            span: s[i].span,
        }) by {
            if i < s.len() - 1 {
                assert(s.drop_last()[i] == s[i]);
            }
        }
    }
}

impl View for Item {
    type V = ItemModel;

    open spec fn view(&self) -> ItemModel {
        item_model(*self)
    }
}

impl<T: View> View for Spanned<T> {
    type V = SpannedModel<T::V>;

    open spec fn view(&self) -> SpannedModel<T::V> {
        SpannedModel { node: self.node@, span: self.span }
    }
}

pub open spec fn entries_model(s: Seq<PaletteEntry>) -> Seq<PaletteEntryModel> {
    s.map_values(|e: PaletteEntry| e@)
}

pub open spec fn frames_model(s: Seq<AnimationFrame>) -> Seq<FrameRefModel> {
    s.map_values(|f: AnimationFrame| f@)
}

impl View for Stmt {
    type V = StmtModel;

    open spec fn view(&self) -> StmtModel {
        match self {
            Stmt::Canvas { width, height } => StmtModel::Canvas { width: *width, height: *height },
            Stmt::Background { color } => StmtModel::Background { color: color@ },
            Stmt::StrictPalette { value } => StmtModel::StrictPalette { value: *value },
            Stmt::Palette { entries } => StmtModel::Palette { entries: entries_model(entries@) },
            Stmt::Group { name, x, y, items } => StmtModel::Group {
                name: name@,
                x: *x,
                y: *y,
                items: items_model(items@),
            },
            Stmt::Frame { name, items } => StmtModel::Frame { name: name@, items: items_model(items@) },
            Stmt::Animation { name, fps, frames } => StmtModel::Animation {
                name: name@,
                fps: *fps,
                frames: frames_model(frames@),
            },
            Stmt::Item(item) => StmtModel::Item(item@),
        }
    }
}

pub open spec fn stmts_model(s: Seq<Spanned<Stmt>>) -> Seq<SpannedModel<StmtModel>> {
    s.map_values(|st: Spanned<Stmt>| st@)
}

impl View for Document {
    type V = Seq<SpannedModel<StmtModel>>;

    open spec fn view(&self) -> Seq<SpannedModel<StmtModel>> {
        stmts_model(self.statements@)
    }
}

} // verus!
