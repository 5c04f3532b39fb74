//! The recursive-descent parser: tokens to a `Document`.

use vstd::prelude::*;
use crate::ast::{
    AnimationFrame, ColorExpr, ColorModel, Document, FrameRefModel, Item, ItemModel,
    PaletteEntry, PaletteEntryModel, Spanned, SpannedModel, Stmt, StmtModel, entries_model,
    frames_model, item_model, items_model, stmts_model,
};
use crate::diagnostics::{diag, Diagnostic, DiagnosticModel, Span};
use crate::lexer::{lex, spec_lex, tokens_view, Token, TokenKind, TokenKindModel, TokenModel};
use crate::text::{clone_string, str_eq};
use vstd::string::StringSliceAdditionalSpecFns;

verus! {

broadcast use vstd::seq::group_seq_axioms;

/// A parse step: the value read and the position after it, or an error.
pub type Parsed<T> = Result<(T, int), DiagnosticModel>;

/// The tokens left from `pos` on, as a termination measure.
pub open spec fn left(toks: Seq<TokenModel>, pos: int) -> nat {
    if 0 <= pos < toks.len() {
        (toks.len() - pos) as nat
    } else {
        0
    }
}

/// The error reported for a position outside the tokens (never reached from
/// a token sequence that ends with `Eof`).
pub open spec fn past_end() -> DiagnosticModel {
    diag("E011"@, Span { line: 0, column: 0, len: 0 }, "expected `}`"@)
}

pub open spec fn prev_span(toks: Seq<TokenModel>, pos: int) -> Span {
    if pos > 0 {
        toks[pos - 1].span
    } else {
        toks[0].span
    }
}

pub open spec fn at_block_end(toks: Seq<TokenModel>, pos: int) -> bool {
    toks[pos].kind is RBrace || toks[pos].kind is Eof
}

pub open spec fn p_ident(toks: Seq<TokenModel>, pos: int) -> Parsed<Seq<char>> {
    match toks[pos].kind {
        TokenKindModel::Ident(s) => Ok((s, pos + 1)),
        _ => Err(diag("E008"@, toks[pos].span, "expected identifier"@)),
    }
}

pub open spec fn p_number(toks: Seq<TokenModel>, pos: int) -> Parsed<i32> {
    match toks[pos].kind {
        TokenKindModel::Number(n) => Ok((n, pos + 1)),
        _ => Err(diag("E009"@, toks[pos].span, "expected number"@)),
    }
}

pub open spec fn p_lbrace(toks: Seq<TokenModel>, pos: int) -> Parsed<()> {
    match toks[pos].kind {
        TokenKindModel::LBrace => Ok(((), pos + 1)),
        _ => Err(diag("E010"@, toks[pos].span, "expected `{`"@)),
    }
}

pub open spec fn p_rbrace(toks: Seq<TokenModel>, pos: int) -> Parsed<()> {
    match toks[pos].kind {
        TokenKindModel::RBrace => Ok(((), pos + 1)),
        _ => Err(diag("E011"@, toks[pos].span, "expected `}`"@)),
    }
}

pub open spec fn p_color(toks: Seq<TokenModel>, pos: int) -> Parsed<ColorModel> {
    match toks[pos].kind {
        TokenKindModel::Ident(s) => Ok((ColorModel { raw: s, span: toks[pos].span }, pos + 1)),
        TokenKindModel::Color(s) => Ok((ColorModel { raw: s, span: toks[pos].span }, pos + 1)),
        _ => Err(diag("E006"@, toks[pos].span, "expected color"@)),
    }
}

pub open spec fn p_bool(toks: Seq<TokenModel>, pos: int) -> Parsed<bool> {
    match p_ident(toks, pos) {
        Err(e) => Err(e),
        Ok((s, p)) => if s == "true"@ {
            Ok((true, p))
        } else if s == "false"@ {
            Ok((false, p))
        } else {
            Err(diag("E007"@, toks[pos].span, "expected `true` or `false`"@))
        },
    }
}

/// `n` numbers in a row.
pub open spec fn p_nums(toks: Seq<TokenModel>, pos: int, n: nat) -> Parsed<Seq<i32>>
    decreases n,
{
    if n == 0 {
        Ok((seq![], pos))
    } else {
        match p_number(toks, pos) {
            Err(e) => Err(e),
            Ok((v, p1)) => match p_nums(toks, p1, (n - 1) as nat) {
                Err(e) => Err(e),
                Ok((rest, p2)) => Ok((seq![v] + rest, p2)),
            },
        }
    }
}

/// `n` numbers and then a color: the operands of a drawing item.
pub open spec fn p_shape(toks: Seq<TokenModel>, pos: int, n: nat) -> Parsed<(Seq<i32>, ColorModel)> {
    match p_nums(toks, pos, n) {
        Err(e) => Err(e),
        Ok((ns, p1)) => match p_color(toks, p1) {
            Err(e) => Err(e),
            Ok((c, p2)) => Ok(((ns, c), p2)),
        },
    }
}

/// The body of an item whose keyword `kw` was just read.
pub open spec fn p_item_after_kw(toks: Seq<TokenModel>, pos: int, kw: Seq<char>) -> Parsed<ItemModel>
    decreases left(toks, pos), 1nat,
{
    if kw == "pixel"@ {
        match p_shape(toks, pos, 2) {
            Err(e) => Err(e),
            Ok(((n, c), p)) => Ok((ItemModel::Pixel { x: n[0], y: n[1], color: c }, p)),
        }
    } else if kw == "line"@ {
        match p_shape(toks, pos, 4) {
            Err(e) => Err(e),
            Ok(((n, c), p)) => Ok(
                (ItemModel::Line { x1: n[0], y1: n[1], x2: n[2], y2: n[3], color: c }, p),
            ),
        }
    } else if kw == "rect"@ {
        match p_shape(toks, pos, 4) {
            Err(e) => Err(e),
            Ok(((n, c), p)) => Ok((ItemModel::Rect { x: n[0], y: n[1], w: n[2], h: n[3], color: c }, p)),
        }
    } else if kw == "fill"@ {
        match p_shape(toks, pos, 2) {
            Err(e) => Err(e),
            Ok(((n, c), p)) => Ok((ItemModel::Fill { x: n[0], y: n[1], color: c }, p)),
        }
    } else if kw == "circle"@ {
        match p_shape(toks, pos, 3) {
            Err(e) => Err(e),
            Ok(((n, c), p)) => Ok((ItemModel::Circle { cx: n[0], cy: n[1], r: n[2], color: c }, p)),
        }
    } else if kw == "group"@ {
        match p_group_body(toks, pos) {
            Err(e) => Err(e),
            Ok(((name, x, y, items), p)) => Ok((ItemModel::Group { name, x, y, items }, p)),
        }
    } else {
        Err(diag("E004"@, prev_span(toks, pos), "unknown item `"@ + kw + "`"@))
    }
}

/// `NAME at X Y { ITEMS }`.
pub open spec fn p_group_body(toks: Seq<TokenModel>, pos: int) -> Parsed<
    (Seq<char>, i32, i32, Seq<SpannedModel<ItemModel>>),
>
    decreases left(toks, pos), 0nat,
{
    if !(0 <= pos < toks.len()) {
        Err(past_end())
    } else {
        match p_ident(toks, pos) {
            Err(e) => Err(e),
            Ok((name, p1)) => match p_ident(toks, p1) {
                Err(e) => Err(e),
                Ok((at, p2)) => if at != "at"@ {
                    Err(diag("E005"@, prev_span(toks, p2), "expected `at`"@))
                } else {
                    match p_number(toks, p2) {
                        Err(e) => Err(e),
                        Ok((x, p3)) => match p_number(toks, p3) {
                            Err(e) => Err(e),
                            Ok((y, p4)) => match p_item_block(toks, p4) {
                                Err(e) => Err(e),
                                Ok((items, p5)) => Ok(((name, x, y, items), p5)),
                            },
                        },
                    }
                },
            },
        }
    }
}

/// `{ ITEMS }`.
pub open spec fn p_item_block(toks: Seq<TokenModel>, pos: int) -> Parsed<Seq<SpannedModel<ItemModel>>>
    decreases left(toks, pos), 3nat,
{
    if !(0 <= pos < toks.len()) {
        Err(past_end())
    } else {
        match p_lbrace(toks, pos) {
            Err(e) => Err(e),
            Ok((_, p1)) => match p_items(toks, p1) {
                Err(e) => Err(e),
                Ok((items, p2)) => match p_rbrace(toks, p2) {
                    Err(e) => Err(e),
                    Ok((_, p3)) => Ok((items, p3)),
                },
            },
        }
    }
}

/// Items up to a `}` or the end of the input.
pub open spec fn p_items(toks: Seq<TokenModel>, pos: int) -> Parsed<Seq<SpannedModel<ItemModel>>>
    decreases left(toks, pos), 2nat,
{
    if !(0 <= pos < toks.len()) {
        Err(past_end())
    } else if at_block_end(toks, pos) {
        Ok((seq![], pos))
    } else {
        match p_item(toks, pos) {
            Err(e) => Err(e),
            Ok((it, p1)) => if p1 <= pos {
                Ok((seq![it], p1))
            } else {
                match p_items(toks, p1) {
                    Err(e) => Err(e),
                    Ok((rest, p2)) => Ok((seq![it] + rest, p2)),
                }
            },
        }
    }
}

/// An item: its keyword and its body, located at the keyword.
pub open spec fn p_item(toks: Seq<TokenModel>, pos: int) -> Parsed<SpannedModel<ItemModel>>
    decreases left(toks, pos), 1nat,
{
    if !(0 <= pos < toks.len()) {
        Err(past_end())
    } else {
        match p_ident(toks, pos) {
            Err(e) => Err(e),
            Ok((kw, p1)) => match p_item_after_kw(toks, p1, kw) {
                Err(e) => Err(e),
                Ok((node, p2)) => Ok((SpannedModel { node, span: toks[pos].span }, p2)),
            },
        }
    }
}

/// Palette entries `NAME COLOR` up to a `}` or the end of the input.
pub open spec fn p_entries(toks: Seq<TokenModel>, pos: int) -> Parsed<Seq<PaletteEntryModel>>
    decreases left(toks, pos),
{
    if !(0 <= pos < toks.len()) {
        Err(past_end())
    } else if at_block_end(toks, pos) {
        Ok((seq![], pos))
    } else {
        match p_ident(toks, pos) {
            Err(e) => Err(e),
            Ok((name, p1)) => match p_color(toks, p1) {
                Err(e) => Err(e),
                Ok((color, p2)) => match p_entries(toks, p2) {
                    Err(e) => Err(e),
                    Ok((rest, p3)) => Ok(
                        (seq![PaletteEntryModel { name, color, span: toks[pos].span }] + rest, p3),
                    ),
                },
            },
        }
    }
}

pub open spec fn p_palette_entries(toks: Seq<TokenModel>, pos: int) -> Parsed<Seq<PaletteEntryModel>> {
    match p_lbrace(toks, pos) {
        Err(e) => Err(e),
        Ok((_, p1)) => match p_entries(toks, p1) {
            Err(e) => Err(e),
            Ok((entries, p2)) => match p_rbrace(toks, p2) {
                Err(e) => Err(e),
                Ok((_, p3)) => Ok((entries, p3)),
            },
        },
    }
}

/// Frame names up to a `}` or the end of the input.
pub open spec fn p_frame_refs(toks: Seq<TokenModel>, pos: int) -> Parsed<Seq<FrameRefModel>>
    decreases left(toks, pos),
{
    if !(0 <= pos < toks.len()) {
        Err(past_end())
    } else if at_block_end(toks, pos) {
        Ok((seq![], pos))
    } else {
        match p_ident(toks, pos) {
            Err(e) => Err(e),
            Ok((name, p1)) => match p_frame_refs(toks, p1) {
                Err(e) => Err(e),
                Ok((rest, p2)) => Ok((seq![FrameRefModel { name, span: toks[pos].span }] + rest, p2)),
            },
        }
    }
}

/// `NAME fps FPS { FRAMES }`.
pub open spec fn p_animation_body(toks: Seq<TokenModel>, pos: int) -> Parsed<
    (Seq<char>, i32, Seq<FrameRefModel>),
> {
    match p_ident(toks, pos) {
        Err(e) => Err(e),
        Ok((name, p1)) => match p_ident(toks, p1) {
            Err(e) => Err(e),
            Ok((kw, p2)) => if kw != "fps"@ {
                Err(diag("E012"@, prev_span(toks, p2), "expected `fps`"@))
            } else {
                match p_number(toks, p2) {
                    Err(e) => Err(e),
                    Ok((fps, p3)) => match p_lbrace(toks, p3) {
                        Err(e) => Err(e),
                        Ok((_, p4)) => match p_frame_refs(toks, p4) {
                            Err(e) => Err(e),
                            Ok((frames, p5)) => match p_rbrace(toks, p5) {
                                Err(e) => Err(e),
                                Ok((_, p6)) => Ok(((name, fps, frames), p6)),
                            },
                        },
                    },
                }
            },
        },
    }
}

pub open spec fn is_item_keyword(kw: Seq<char>) -> bool {
    kw == "pixel"@ || kw == "line"@ || kw == "rect"@ || kw == "fill"@ || kw == "circle"@
}

/// The statement that follows its keyword `kw` (read at `start`).
#[verifier::opaque]
pub open spec fn p_stmt_after_kw(toks: Seq<TokenModel>, pos: int, kw: Seq<char>, start: Span) -> Parsed<
    StmtModel,
> {
    if kw == "canvas"@ {
        match p_nums(toks, pos, 2) {
            Err(e) => Err(e),
            Ok((n, p)) => Ok((StmtModel::Canvas { width: n[0], height: n[1] }, p)),
        }
    } else if kw == "background"@ {
        match p_color(toks, pos) {
            Err(e) => Err(e),
            Ok((color, p)) => Ok((StmtModel::Background { color }, p)),
        }
    } else if kw == "strict_palette"@ {
        match p_bool(toks, pos) {
            Err(e) => Err(e),
            Ok((value, p)) => Ok((StmtModel::StrictPalette { value }, p)),
        }
    } else if kw == "palette"@ {
        match p_palette_entries(toks, pos) {
            Err(e) => Err(e),
            Ok((entries, p)) => Ok((StmtModel::Palette { entries }, p)),
        }
    } else if kw == "group"@ {
        match p_group_body(toks, pos) {
            Err(e) => Err(e),
            Ok(((name, x, y, items), p)) => Ok((StmtModel::Group { name, x, y, items }, p)),
        }
    } else if kw == "frame"@ {
        match p_ident(toks, pos) {
            Err(e) => Err(e),
            Ok((name, p1)) => match p_item_block(toks, p1) {
                Err(e) => Err(e),
                Ok((items, p2)) => Ok((StmtModel::Frame { name, items }, p2)),
            },
        }
    } else if kw == "animation"@ {
        match p_animation_body(toks, pos) {
            Err(e) => Err(e),
            Ok(((name, fps, frames), p)) => Ok((StmtModel::Animation { name, fps, frames }, p)),
        }
    } else if is_item_keyword(kw) {
        match p_item_after_kw(toks, pos, kw) {
            Err(e) => Err(e),
            Ok((item, p)) => Ok((StmtModel::Item(item), p)),
        }
    } else {
        Err(diag("E004"@, start, "unknown statement `"@ + kw + "`"@))
    }
}

pub open spec fn p_stmt(toks: Seq<TokenModel>, pos: int) -> Parsed<SpannedModel<StmtModel>> {
    match p_ident(toks, pos) {
        Err(e) => Err(e),
        Ok((kw, p1)) => match p_stmt_after_kw(toks, p1, kw, toks[pos].span) {
            Err(e) => Err(e),
            Ok((node, p2)) => Ok((SpannedModel { node, span: toks[pos].span }, p2)),
        },
    }
}

/// Statements up to `Eof`.
pub open spec fn p_stmts(toks: Seq<TokenModel>, pos: int) -> Parsed<Seq<SpannedModel<StmtModel>>>
    decreases left(toks, pos),
{
    if !(0 <= pos < toks.len()) {
        Err(past_end())
    } else if toks[pos].kind is Eof {
        Ok((seq![], pos))
    } else {
        match p_stmt(toks, pos) {
            Err(e) => Err(e),
            Ok((s, p1)) => if p1 <= pos {
                Ok((seq![s], p1))
            } else {
                match p_stmts(toks, p1) {
                    Err(e) => Err(e),
                    Ok((rest, p2)) => Ok((seq![s] + rest, p2)),
                }
            },
        }
    }
}

/// The document that a token sequence (ending with `Eof`) parses to, or the
/// first error.
pub open spec fn parse_tokens(toks: Seq<TokenModel>) -> Result<
    Seq<SpannedModel<StmtModel>>,
    DiagnosticModel,
> {
    match p_stmts(toks, 0) {
        Err(e) => Err(e),
        Ok((stmts, _)) => Ok(stmts),
    }
}

/// What `parse` gives for the UTF-8 bytes `b` of a source.
pub open spec fn spec_parse(b: Seq<u8>) -> Result<Seq<SpannedModel<StmtModel>>, DiagnosticModel> {
    match spec_lex(b) {
        Err(e) => Err(e),
        Ok(toks) => parse_tokens(toks),
    }
}


// ---------------------------------------------------------------------------
// Executable parser.

fn clone_token(t: &Token) -> (r: Token)
    ensures
        r@ == t@,
{
    let kind = match &t.kind {
        TokenKind::Ident(s) => TokenKind::Ident(clone_string(s)),
        TokenKind::Number(n) => TokenKind::Number(*n),
        TokenKind::String(s) => TokenKind::String(clone_string(s)),
        TokenKind::Color(s) => TokenKind::Color(clone_string(s)),
        TokenKind::LBrace => TokenKind::LBrace,
        TokenKind::RBrace => TokenKind::RBrace,
        TokenKind::Eof => TokenKind::Eof,
    };
    Token { kind, span: t.span }
}

struct Parser {
    tokens: Vec<Token>,
    pos: usize,
}

impl Parser {
    spec fn toks(&self) -> Seq<TokenModel> {
        tokens_view(self.tokens@)
    }

    /// The tokens end with `Eof` and the position is on one of them.
    spec fn wf(&self) -> bool {
        &&& self.tokens@.len() > 0
        &&& self.toks().last().kind is Eof
        &&& self.pos < self.tokens@.len()
    }

    /// The parser moved forward over the same tokens and is still well formed.
    spec fn moved(&self, before: Parser) -> bool {
        &&& self.wf()
        &&& self.tokens@ == before.tokens@
        &&& before.pos <= self.pos
    }

    fn peek_span(&self) -> (s: Span)
        requires
            self.wf(),
        ensures
            s == self.toks()[self.pos as int].span,
    {
        self.tokens[self.pos].span
    }

    fn eof(&self) -> (b: bool)
        requires
            self.wf(),
        ensures
            b == self.toks()[self.pos as int].kind is Eof,
    {
        match self.tokens[self.pos].kind {
            TokenKind::Eof => true,
            _ => false,
        }
    }

    fn check_rbrace(&self) -> (b: bool)
        requires
            self.wf(),
        ensures
            b == at_block_end(self.toks(), self.pos as int),
    {
        match self.tokens[self.pos].kind {
            TokenKind::RBrace | TokenKind::Eof => true,
            _ => false,
        }
    }

    fn advance(&mut self) -> (t: Token)
        requires
            old(self).wf(),
        ensures
            final(self).moved(*old(self)),
            t@ == old(self).toks()[old(self).pos as int],
            final(self).pos == if t@.kind is Eof { old(self).pos as int } else { old(self).pos + 1 },
    {
        let p = self.pos;
        let _n = self.tokens.len();
        if !self.eof() {
            proof {
                assert(self.toks()[self.tokens@.len() - 1].kind is Eof);
                assert(self.pos != self.tokens@.len() - 1);
                assert(self.pos + 1 < self.tokens@.len());
            }
            self.pos = self.pos + 1;
        }
        clone_token(&self.tokens[p])
    }

    fn prev_span(&self) -> (s: Span)
        requires
            self.wf(),
        ensures
            s == prev_span(self.toks(), self.pos as int),
    {
        let p = if self.pos > 0 { self.pos - 1 } else { 0 };
        self.tokens[p].span
    }

    fn ident(&mut self) -> (r: Result<String, Diagnostic>)
        requires
            old(self).wf(),
        ensures
            final(self).moved(*old(self)),
            match p_ident(old(self).toks(), old(self).pos as int) {
                Ok((v, p)) => r matches Ok(x) && x@ == v && final(self).pos == p,
                Err(e) => r matches Err(d) && d@ == e,
            },
    {
        let t = self.advance();
        match t.kind {
            TokenKind::Ident(s) => Ok(s),
            _ => Err(Diagnostic::new("E008", t.span, "expected identifier")),
        }
    }

    fn number(&mut self) -> (r: Result<i32, Diagnostic>)
        requires
            old(self).wf(),
        ensures
            final(self).moved(*old(self)),
            match p_number(old(self).toks(), old(self).pos as int) {
                Ok((v, p)) => r matches Ok(x) && x == v && final(self).pos == p,
                Err(e) => r matches Err(d) && d@ == e,
            },
    {
        let t = self.advance();
        match t.kind {
            TokenKind::Number(n) => Ok(n),
            _ => Err(Diagnostic::new("E009", t.span, "expected number")),
        }
    }

    fn lbrace(&mut self) -> (r: Result<(), Diagnostic>)
        requires
            old(self).wf(),
        ensures
            final(self).moved(*old(self)),
            match p_lbrace(old(self).toks(), old(self).pos as int) {
                Ok((_, p)) => r is Ok && final(self).pos == p,
                Err(e) => r matches Err(d) && d@ == e,
            },
    {
        let t = self.advance();
        match t.kind {
            TokenKind::LBrace => Ok(()),
            _ => Err(Diagnostic::new("E010", t.span, "expected `{`")),
        }
    }

    fn rbrace(&mut self) -> (r: Result<(), Diagnostic>)
        requires
            old(self).wf(),
        ensures
            final(self).moved(*old(self)),
            match p_rbrace(old(self).toks(), old(self).pos as int) {
                Ok((_, p)) => r is Ok && final(self).pos == p,
                Err(e) => r matches Err(d) && d@ == e,
            },
    {
        let t = self.advance();
        match t.kind {
            TokenKind::RBrace => Ok(()),
            _ => Err(Diagnostic::new("E011", t.span, "expected `}`")),
        }
    }

    fn color_expr(&mut self) -> (r: Result<ColorExpr, Diagnostic>)
        requires
            old(self).wf(),
        ensures
            final(self).moved(*old(self)),
            match p_color(old(self).toks(), old(self).pos as int) {
                Ok((v, p)) => r matches Ok(x) && x@ == v && final(self).pos == p,
                Err(e) => r matches Err(d) && d@ == e,
            },
    {
        let t = self.advance();
        match t.kind {
            TokenKind::Ident(s) => Ok(ColorExpr { raw: s, span: t.span }),
            TokenKind::Color(s) => Ok(ColorExpr { raw: s, span: t.span }),
            _ => Err(Diagnostic::new("E006", t.span, "expected color")),
        }
    }

    fn bool(&mut self) -> (r: Result<bool, Diagnostic>)
        requires
            old(self).wf(),
        ensures
            final(self).moved(*old(self)),
            match p_bool(old(self).toks(), old(self).pos as int) {
                Ok((v, p)) => r matches Ok(x) && x == v && final(self).pos == p,
                Err(e) => r matches Err(d) && d@ == e,
            },
    {
        let span = self.peek_span();
        let s = self.ident()?;
        if str_eq(s.as_str(), "true") {
            Ok(true)
        } else if str_eq(s.as_str(), "false") {
            Ok(false)
        } else {
            Err(Diagnostic::new("E007", span, "expected `true` or `false`"))
        }
    }

    /// `n` numbers in a row.
    fn numbers(&mut self, n: usize) -> (r: Result<Vec<i32>, Diagnostic>)
        requires
            old(self).wf(),
        ensures
            final(self).moved(*old(self)),
            match p_nums(old(self).toks(), old(self).pos as int, n as nat) {
                Ok((v, p)) => r matches Ok(x) && x@ == v && final(self).pos == p,
                Err(e) => r matches Err(d) && d@ == e,
            },
        decreases n,
    {
        if n == 0 {
            return Ok(Vec::new());
        }
        let v = self.number()?;
        let rest = self.numbers(n - 1)?;
        let mut out = Vec::new();
        out.push(v);
        let mut i: usize = 0;
        while i < rest.len()
            invariant
                0 <= i <= rest@.len(),
                out@ == seq![v] + rest@.subrange(0, i as int),
            decreases rest@.len() - i,
        {
            out.push(rest[i]);
            proof {
                assert(seq![v] + rest@.subrange(0, i + 1) =~= (seq![v] + rest@.subrange(
                    0,
                    i as int,
                )).push(rest@[i as int]));
            }
            i = i + 1;
        }
        proof {
            assert(rest@.subrange(0, rest@.len() as int) =~= rest@);
        }
        Ok(out)
    }

    /// `n` numbers and then a color.
    fn shape(&mut self, n: usize) -> (r: Result<(Vec<i32>, ColorExpr), Diagnostic>)
        requires
            old(self).wf(),
        ensures
            final(self).moved(*old(self)),
            match p_shape(old(self).toks(), old(self).pos as int, n as nat) {
                Ok(((ns, c), p)) => r matches Ok((xs, col)) && xs@ == ns && xs@.len() == n && col@
                    == c && final(self).pos == p,
                Err(e) => r matches Err(d) && d@ == e,
            },
    {
        proof {
            lemma_nums_len(self.toks(), self.pos as int, n as nat);
        }
        let ns = self.numbers(n)?;
        let c = self.color_expr()?;
        Ok((ns, c))
    }

    fn item_after_kw(&mut self, kw: String) -> (r: Result<Item, Diagnostic>)
        requires
            old(self).wf(),
        ensures
            final(self).moved(*old(self)),
            match p_item_after_kw(old(self).toks(), old(self).pos as int, kw@) {
                Ok((v, p)) => r matches Ok(x) && x@ == v && final(self).pos == p,
                Err(e) => r matches Err(d) && d@ == e,
            },
            !is_item_keyword(kw@) && kw@ != "group"@ ==> final(self).pos == old(self).pos,
        decreases old(self).tokens@.len() - old(self).pos, 1nat,
    {
        let k = kw.as_str();
        if str_eq(k, "pixel") {
            let (n, color) = self.shape(2)?;
            Ok(Item::Pixel { x: n[0], y: n[1], color })
        } else if str_eq(k, "line") {
            let (n, color) = self.shape(4)?;
            Ok(Item::Line { x1: n[0], y1: n[1], x2: n[2], y2: n[3], color })
        } else if str_eq(k, "rect") {
            let (n, color) = self.shape(4)?;
            Ok(Item::Rect { x: n[0], y: n[1], w: n[2], h: n[3], color })
        } else if str_eq(k, "fill") {
            let (n, color) = self.shape(2)?;
            Ok(Item::Fill { x: n[0], y: n[1], color })
        } else if str_eq(k, "circle") {
            let (n, color) = self.shape(3)?;
            Ok(Item::Circle { cx: n[0], cy: n[1], r: n[2], color })
        } else if str_eq(k, "group") {
            let (name, x, y, items) = self.group_body()?;
            Ok(Item::Group { name, x, y, items })
        } else {
            let mut m = String::from_str("unknown item `");
            m.append(k);
            m.append("`");
            Err(Diagnostic::new("E004", self.prev_span(), m.as_str()))
        }
    }

    fn group_body(&mut self) -> (r: Result<(String, i32, i32, Vec<Spanned<Item>>), Diagnostic>)
        requires
            old(self).wf(),
        ensures
            final(self).moved(*old(self)),
            match p_group_body(old(self).toks(), old(self).pos as int) {
                Ok(((name, x, y, items), p)) => r matches Ok((n, a, b, v)) && n@ == name && a == x
                    && b == y && items_model(v@) == items && final(self).pos == p,
                Err(e) => r matches Err(d) && d@ == e,
            },
        decreases old(self).tokens@.len() - old(self).pos, 0nat,
    {
        let name = self.ident()?;
        let at = self.ident()?;
        if !str_eq(at.as_str(), "at") {
            return Err(Diagnostic::new("E005", self.prev_span(), "expected `at`"));
        }
        let x = self.number()?;
        let y = self.number()?;
        let items = self.item_block()?;
        Ok((name, x, y, items))
    }

    fn item_block(&mut self) -> (r: Result<Vec<Spanned<Item>>, Diagnostic>)
        requires
            old(self).wf(),
        ensures
            final(self).moved(*old(self)),
            match p_item_block(old(self).toks(), old(self).pos as int) {
                Ok((v, p)) => r matches Ok(x) && items_model(x@) == v && final(self).pos == p,
                Err(e) => r matches Err(d) && d@ == e,
            },
        decreases old(self).tokens@.len() - old(self).pos, 3nat,
    {
        let ghost toks = self.toks();
        let ghost pos0 = self.pos as int;
        self.lbrace()?;
        let mut items: Vec<Spanned<Item>> = Vec::new();
        while !self.check_rbrace()
            invariant
                self.wf(),
                self.tokens@ == old(self).tokens@,
                self.toks() == toks,
                pos0 < self.pos,
                pos0 == old(self).pos,
                p_item_block(toks, pos0) == block_rest(toks, self.pos as int, items_model(items@)),
            decreases self.tokens@.len() - self.pos,
        {
            let ghost p_before = self.pos as int;
            let it = self.item()?;
            proof {
                lemma_items_model_push(items@, it);
                let done = items_model(items@);
                match p_items(toks, self.pos as int) {
                    Ok((rest, p2)) => {
                        assert(done + (seq![it@] + rest) =~= done.push(it@) + rest);
                    },
                    Err(_) => {},
                }
            }
            items.push(it);
        }
        proof {
            assert(items_model(items@) + seq![] =~= items_model(items@));
        }
        self.rbrace()?;
        Ok(items)
    }

    fn item(&mut self) -> (r: Result<Spanned<Item>, Diagnostic>)
        requires
            old(self).wf(),
        ensures
            final(self).moved(*old(self)),
            r is Ok ==> final(self).pos > old(self).pos,
            match p_item(old(self).toks(), old(self).pos as int) {
                Ok((v, p)) => r matches Ok(x) && x@ == v && final(self).pos == p,
                Err(e) => r matches Err(d) && d@ == e,
            },
        decreases old(self).tokens@.len() - old(self).pos, 1nat,
    {
        let start = self.peek_span();
        let kw = self.ident()?;
        let node = self.item_after_kw(kw)?;
        Ok(Spanned::new(node, start))
    }

    fn palette_entries(&mut self) -> (r: Result<Vec<PaletteEntry>, Diagnostic>)
        requires
            old(self).wf(),
        ensures
            final(self).moved(*old(self)),
            match p_palette_entries(old(self).toks(), old(self).pos as int) {
                Ok((v, p)) => r matches Ok(x) && entries_model(x@) == v && final(self).pos == p,
                Err(e) => r matches Err(d) && d@ == e,
            },
    {
        let ghost toks = self.toks();
        let ghost pos0 = self.pos as int;
        self.lbrace()?;
        let mut entries: Vec<PaletteEntry> = Vec::new();
        while !self.check_rbrace()
            invariant
                self.wf(),
                self.tokens@ == old(self).tokens@,
                self.toks() == toks,
                pos0 == old(self).pos,
                pos0 < self.pos,
                p_palette_entries(toks, pos0) == entries_rest(toks, self.pos as int, entries_model(entries@)),
            decreases self.tokens@.len() - self.pos,
        {
            let ghost before = self.pos as int;
            let span = self.peek_span();
            let name = self.ident()?;
            let color = self.color_expr()?;
            let e = PaletteEntry { name, color, span };
            proof {
                let done = entries_model(entries@);
                assert(entries_model(entries@.push(e)) =~= done.push(e@));
                lemma_entries_rest(toks, before, done, e@);
            }
            entries.push(e);
        }
        proof {
            assert(entries_model(entries@) + seq![] =~= entries_model(entries@));
        }
        self.rbrace()?;
        Ok(entries)
    }

    fn animation_body(&mut self) -> (r: Result<(String, i32, Vec<AnimationFrame>), Diagnostic>)
        requires
            old(self).wf(),
        ensures
            final(self).moved(*old(self)),
            match p_animation_body(old(self).toks(), old(self).pos as int) {
                Ok(((name, fps, frames), p)) => r matches Ok((n, f, v)) && n@ == name && f == fps
                    && frames_model(v@) == frames && final(self).pos == p,
                Err(e) => r matches Err(d) && d@ == e,
            },
    {
        let ghost toks = self.toks();
        let ghost pos0 = self.pos as int;
        let name = self.ident()?;
        let fps_kw = self.ident()?;
        if !str_eq(fps_kw.as_str(), "fps") {
            return Err(Diagnostic::new("E012", self.prev_span(), "expected `fps`"));
        }
        let fps = self.number()?;
        self.lbrace()?;
        let mut frames: Vec<AnimationFrame> = Vec::new();
        while !self.check_rbrace()
            invariant
                self.wf(),
                self.tokens@ == old(self).tokens@,
                self.toks() == toks,
                pos0 == old(self).pos,
                pos0 < self.pos,
                p_animation_body(toks, pos0) == match frames_rest(toks, self.pos as int, frames_model(frames@)) {
                    Err(e) => Err(e),
                    Ok((fs, q)) => Ok(((name@, fps, fs), q)),
                },
            decreases self.tokens@.len() - self.pos,
        {
            let ghost before = self.pos as int;
            let span = self.peek_span();
            let fname = self.ident()?;
            let f = AnimationFrame { name: fname, span };
            proof {
                let done = frames_model(frames@);
                assert(frames_model(frames@.push(f)) =~= done.push(f@));
                lemma_frames_rest(toks, before, done, f@);
            }
            frames.push(f);
        }
        proof {
            assert(frames_model(frames@) + seq![] =~= frames_model(frames@));
        }
        self.rbrace()?;
        Ok((name, fps, frames))
    }

    fn stmt(&mut self) -> (r: Result<Spanned<Stmt>, Diagnostic>)
        requires
            old(self).wf(),
        ensures
            final(self).moved(*old(self)),
            r is Ok ==> final(self).pos > old(self).pos,
            match p_stmt(old(self).toks(), old(self).pos as int) {
                Ok((v, p)) => r matches Ok(x) && x@ == v && final(self).pos == p,
                Err(e) => r matches Err(d) && d@ == e,
            },
    {
        proof {
            reveal(p_stmt_after_kw);
        }
        let start = self.peek_span();
        let kw = self.ident()?;
        let k = kw.as_str();
        let node = if str_eq(k, "canvas") {
            proof {
                lemma_nums_len(self.toks(), self.pos as int, 2);
            }
            let n = self.numbers(2)?;
            Stmt::Canvas { width: n[0], height: n[1] }
        } else if str_eq(k, "background") {
            Stmt::Background { color: self.color_expr()? }
        } else if str_eq(k, "strict_palette") {
            Stmt::StrictPalette { value: self.bool()? }
        } else if str_eq(k, "palette") {
            Stmt::Palette { entries: self.palette_entries()? }
        } else if str_eq(k, "group") {
            let (name, x, y, items) = self.group_body()?;
            Stmt::Group { name, x, y, items }
        } else if str_eq(k, "frame") {
            let name = self.ident()?;
            let items = self.item_block()?;
            Stmt::Frame { name, items }
        } else if str_eq(k, "animation") {
            let (name, fps, frames) = self.animation_body()?;
            Stmt::Animation { name, fps, frames }
        } else if str_eq(k, "pixel") || str_eq(k, "line") || str_eq(k, "rect") || str_eq(k, "fill")
            || str_eq(k, "circle") {
            Stmt::Item(self.item_after_kw(kw)?)
        } else {
            let mut m = String::from_str("unknown statement `");
            m.append(k);
            m.append("`");
            return Err(Diagnostic::new("E004", start, m.as_str()));
        };
        Ok(Spanned::new(node, start))
    }

    fn document(&mut self) -> (r: Result<Document, Diagnostic>)
        requires
            old(self).wf(),
        ensures
            match p_stmts(old(self).toks(), old(self).pos as int) {
                Ok((v, _)) => r matches Ok(d) && d@ == v,
                Err(e) => r matches Err(d) && d@ == e,
            },
    {
        let ghost toks = self.toks();
        let ghost p0 = self.pos as int;
        let mut statements: Vec<Spanned<Stmt>> = Vec::new();
        while !self.eof()
            invariant
                self.wf(),
                self.toks() == toks,
                toks == old(self).toks(),
                p0 == old(self).pos,
                p_stmts(toks, p0) == stmts_rest(toks, self.pos as int, stmts_model(statements@)),
            decreases self.tokens@.len() - self.pos,
        {
            let ghost before = self.pos as int;
            let st = match self.stmt() {
                Ok(st) => st,
                Err(e) => {
                    proof {
                        assert(p_stmts(toks, before) == Err::<(Seq<SpannedModel<StmtModel>>, int), DiagnosticModel>(e@));
                    }
                    return Err(e);
                },
            };
            proof {
                let done = stmts_model(statements@);
                assert(stmts_model(statements@.push(st)) =~= done.push(st@));
                lemma_stmts_rest(toks, before, self.pos as int, done, st@);
            }
            statements.push(st);
        }
        proof {
            assert(stmts_model(statements@) + seq![] =~= stmts_model(statements@));
        }
        let d = Document { statements };
        proof {
            assert(d@ == stmts_model(d.statements@));
        }
        Ok(d)
    }
}

/// What is left of `{ ITEMS }` once the items `done` have been read and the
/// next item starts at `pos`.
spec fn block_rest(toks: Seq<TokenModel>, pos: int, done: Seq<SpannedModel<ItemModel>>) -> Parsed<
    Seq<SpannedModel<ItemModel>>,
> {
    match p_items(toks, pos) {
        Err(e) => Err(e),
        Ok((rest, p2)) => match p_rbrace(toks, p2) {
            Err(e) => Err(e),
            Ok((_, p3)) => Ok((done + rest, p3)),
        },
    }
}

proof fn lemma_items_model_push(s: Seq<Spanned<Item>>, x: Spanned<Item>)
    ensures
        items_model(s.push(x)) == items_model(s).push(x@),
{
    assert(s.push(x).drop_last() =~= s);
}

proof fn lemma_nums_len(toks: Seq<TokenModel>, pos: int, n: nat)
    ensures
        p_nums(toks, pos, n) matches Ok((v, p)) ==> v.len() == n && p == pos + n,
    decreases n,
{
    if n > 0 {
        lemma_nums_len(toks, pos + 1, (n - 1) as nat);
    }
}


/// Parses a `.pix` source into its statements, or gives the first lexical or
/// syntax error.
pub fn parse(src: &str) -> (r: Result<Document, Diagnostic>)
    requires
        src.spec_bytes().len() < usize::MAX,
    ensures
        match spec_parse(src.spec_bytes()) {
            Ok(v) => r matches Ok(d) && d@ == v,
            Err(e) => r matches Err(d) && d@ == e,
        },
{
    let tokens = lex(src)?;
    let mut p = Parser { tokens, pos: 0 };
    proof {
        assert(p.toks().last().kind is Eof);
    }
    p.document()
}


spec fn entries_rest(toks: Seq<TokenModel>, pos: int, done: Seq<PaletteEntryModel>) -> Parsed<
    Seq<PaletteEntryModel>,
> {
    match p_entries(toks, pos) {
        Err(e) => Err(e),
        Ok((rest, q)) => match p_rbrace(toks, q) {
            Err(e) => Err(e),
            Ok((_, q2)) => Ok((done + rest, q2)),
        },
    }
}

proof fn lemma_entries_rest(
    toks: Seq<TokenModel>,
    pos: int,
    done: Seq<PaletteEntryModel>,
    e: PaletteEntryModel,
)
    requires
        0 <= pos < toks.len(),
        !at_block_end(toks, pos),
        p_ident(toks, pos) matches Ok((name, p1)) && p_color(toks, p1) matches Ok((c, p2)) && e == (
        PaletteEntryModel { name, color: c, span: toks[pos].span }),
    ensures
        entries_rest(toks, pos, done) == entries_rest(toks, pos + 2, done.push(e)),
{
    match p_entries(toks, pos + 2) {
        Ok((rest, q)) => {
            assert(done + (seq![e] + rest) =~= done.push(e) + rest);
        },
        Err(_) => {},
    }
}

spec fn frames_rest(toks: Seq<TokenModel>, pos: int, done: Seq<FrameRefModel>) -> Parsed<
    Seq<FrameRefModel>,
> {
    match p_frame_refs(toks, pos) {
        Err(e) => Err(e),
        Ok((rest, q)) => match p_rbrace(toks, q) {
            Err(e) => Err(e),
            Ok((_, q2)) => Ok((done + rest, q2)),
        },
    }
}

proof fn lemma_frames_rest(toks: Seq<TokenModel>, pos: int, done: Seq<FrameRefModel>, f: FrameRefModel)
    requires
        0 <= pos < toks.len(),
        !at_block_end(toks, pos),
        p_ident(toks, pos) matches Ok((name, p1)) && f == (FrameRefModel { name, span: toks[pos].span }),
    ensures
        frames_rest(toks, pos, done) == frames_rest(toks, pos + 1, done.push(f)),
{
    match p_frame_refs(toks, pos + 1) {
        Ok((rest, q)) => {
            assert(done + (seq![f] + rest) =~= done.push(f) + rest);
        },
        Err(_) => {},
    }
}

spec fn stmts_rest(toks: Seq<TokenModel>, pos: int, done: Seq<SpannedModel<StmtModel>>) -> Parsed<
    Seq<SpannedModel<StmtModel>>,
> {
    match p_stmts(toks, pos) {
        Err(e) => Err(e),
        Ok((rest, q)) => Ok((done + rest, q)),
    }
}

proof fn lemma_stmts_rest(
    toks: Seq<TokenModel>,
    pos: int,
    next: int,
    done: Seq<SpannedModel<StmtModel>>,
    st: SpannedModel<StmtModel>,
)
    requires
        0 <= pos < toks.len(),
        !(toks[pos].kind is Eof),
        p_stmt(toks, pos) == Ok::<(SpannedModel<StmtModel>, int), DiagnosticModel>((st, next)),
        next > pos,
    ensures
        stmts_rest(toks, pos, done) == stmts_rest(toks, next, done.push(st)),
{
    match p_stmts(toks, next) {
        Ok((rest, q)) => {
            assert(done + (seq![st] + rest) =~= done.push(st) + rest);
        },
        Err(_) => {},
    }
}

} // verus!