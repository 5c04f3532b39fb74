//! The canvas: a grid of RGBA pixels and the drawing operations on it
//! (pixels, lines, filled rectangles and discs, flood fill).

use vstd::prelude::*;
use vstd::arithmetic::div_mod::{lemma_fundamental_div_mod, lemma_fundamental_div_mod_converse};
use crate::color::Rgba;
use std::collections::VecDeque;

verus! {

broadcast use vstd::seq::group_seq_axioms;

/// A grid of `width` by `height` pixels, row by row.
pub struct Canvas {
    width: u32,
    height: u32,
    pixels: Vec<Rgba>,
}

pub struct CanvasModel {
    pub width: u32,
    pub height: u32,
    pub pixels: Seq<Rgba>,
}

impl View for Canvas {
    type V = CanvasModel;

    closed spec fn view(&self) -> CanvasModel {
        CanvasModel { width: self.width, height: self.height, pixels: self.pixels@ }
    }
}

impl Canvas {
    /// The pixel sequence has one entry per pixel.
    pub closed spec fn wf(&self) -> bool {
        self.pixels@.len() == self.width as int * self.height as int
    }
}

pub open spec fn model_wf(c: CanvasModel) -> bool {
    c.pixels.len() == c.width as int * c.height as int
}

/// `n as i32` for a `u32`: the same number up to `i32::MAX`, negative above.
pub open spec fn as_i32(n: u32) -> int {
    if n <= 0x7fff_ffff {
        n as int
    } else {
        n - 0x1_0000_0000
    }
}

/// The pixels that drawing reaches: coordinates are compared with the sides
/// converted to `i32`, so a canvas with a side above `i32::MAX` takes no
/// drawing at all.
pub open spec fn on_canvas(c: CanvasModel, x: int, y: int) -> bool {
    0 <= x < as_i32(c.width) && 0 <= y < as_i32(c.height)
}

/// The canvas with the color `col` on every pixel `(x, y)` that drawing
/// reaches and the region contains.
pub open spec fn painted(c: CanvasModel, region: spec_fn(int, int) -> bool, col: Rgba) -> CanvasModel {
    CanvasModel {
        pixels: Seq::new(
            c.pixels.len(),
            |i: int|
                {
                    let x = i % (c.width as int);
                    let y = i / (c.width as int);
                    if on_canvas(c, x, y) && region(x, y) {
                        col
                    } else {
                        c.pixels[i]
                    }
                },
        ),
        ..c
    }
}

/// The color of the pixel `(x, y)`, when drawing reaches it.
pub open spec fn pixel_at(c: CanvasModel, x: int, y: int) -> Option<Rgba> {
    if on_canvas(c, x, y) {
        Some(c.pixels[y * c.width + x])
    } else {
        None
    }
}

pub open spec fn set_pixel(c: CanvasModel, x: int, y: int, col: Rgba) -> CanvasModel {
    painted(c, |a: int, b: int| a == x && b == y, col)
}

pub open spec fn blank(width: u32, height: u32, background: Rgba) -> CanvasModel {
    CanvasModel {
        width,
        height,
        pixels: Seq::new((width * height) as nat, |i: int| background),
    }
}

/// Where the pixel `(x, y)` lies in the row-by-row sequence, and back.
pub proof fn lemma_index(w: int, h: int, x: int, y: int)
    requires
        0 <= x < w,
        0 <= y < h,
    ensures
        0 <= y * w + x < w * h,
        (y * w + x) % w == x,
        (y * w + x) / w == y,
{
    lemma_fundamental_div_mod_converse(y * w + x, w, y, x);
    assert(0 <= y * w + x < w * h) by (nonlinear_arith)
        requires
            0 <= x < w,
            0 <= y < h,
    ;
}

pub proof fn lemma_coords(w: int, h: int, i: int)
    requires
        0 <= i < w * h,
        w > 0,
    ensures
        0 <= i % w < w,
        0 <= i / w < h,
        (i / w) * w + i % w == i,
{
    lemma_fundamental_div_mod(i, w);
    assert(0 <= i % w < w) by {
        vstd::arithmetic::div_mod::lemma_mod_pos_bound(i, w);
    }
    assert(0 <= i / w) by {
        vstd::arithmetic::div_mod::lemma_div_pos_is_pos(i, w);
    }
    assert(i / w < h) by (nonlinear_arith)
        requires
            i == w * (i / w) + i % w,
            0 <= i % w,
            i < w * h,
            w > 0,
    ;
    assert((i / w) * w == w * (i / w)) by (nonlinear_arith);
}

impl Canvas {
    /// A canvas of the given size filled with `background`.
    pub fn new(width: u32, height: u32, background: Rgba) -> (c: Canvas)
        requires
            width as int * height as int <= u32::MAX,
        ensures
            c@ == blank(width, height, background),
            c.wf(),
    {
        let n = (width * height) as usize;
        let mut pixels: Vec<Rgba> = Vec::new();
        let mut i: usize = 0;
        while i < n
            invariant
                0 <= i <= n,
                pixels@ == Seq::new(i as nat, |k: int| background),
            decreases n - i,
        {
            pixels.push(background);
            proof {
                assert(pixels@ =~= Seq::new((i + 1) as nat, |k: int| background));
            }
            i = i + 1;
        }
        Canvas { width, height, pixels }
    }

    pub fn width(&self) -> (w: u32)
        ensures
            w == self@.width,
    {
        self.width
    }

    pub fn height(&self) -> (h: u32)
        ensures
            h == self@.height,
    {
        self.height
    }

    /// The pixels, row by row.
    pub fn pixels(&self) -> (p: &Vec<Rgba>)
        ensures
            p@ == self@.pixels,
            self.wf() ==> p@.len() == self@.width * self@.height,
    {
        &self.pixels
    }

    /// Whether drawing reaches the sides of this canvas at all.
    fn drawable(&self) -> (b: bool)
        ensures
            b == (self@.width <= 0x7fff_ffff && self@.height <= 0x7fff_ffff),
    {
        self.width <= 0x7fff_ffff && self.height <= 0x7fff_ffff
    }

    fn idx(&self, x: i64, y: i64) -> (r: Option<usize>)
        requires
            self.wf(),
        ensures
            match r {
                Some(i) => on_canvas(self@, x as int, y as int) && i == y * self@.width + x && i
                    < self@.pixels.len(),
                None => !on_canvas(self@, x as int, y as int),
            },
    {
        if !self.drawable() {
            return None;
        }
        let n = self.pixels.len();
        if x < 0 || y < 0 || x >= self.width as i64 || y >= self.height as i64 {
            None
        } else {
            proof {
                lemma_index(self.width as int, self.height as int, x as int, y as int);
                assert(0 <= (y as int) * (self.width as int) <= (y as int) * (self.width as int) + x) by (nonlinear_arith)
                    requires y >= 0, x >= 0;
            }
            Some((y as usize) * (self.width as usize) + (x as usize))
        }
    }

    pub(crate) fn get(&self, x: i64, y: i64) -> (r: Option<Rgba>)
        requires
            self.wf(),
        ensures
            r == pixel_at(self@, x as int, y as int),
    {
        match self.idx(x, y) {
            Some(i) => Some(self.pixels[i]),
            None => None,
        }
    }

    pub(crate) fn set(&mut self, x: i64, y: i64, c: Rgba)
        requires
            old(self).wf(),
        ensures
            final(self).wf(),
            final(self)@ == set_pixel(old(self)@, x as int, y as int, c),
    {
        let ghost before = self@;
        match self.idx(x, y) {
            Some(i) => {
                self.pixels.set(i, c);
                proof {
                    let w = before.width as int;
                    let h = before.height as int;
                    lemma_index(w, h, x as int, y as int);
                    assert forall|k: int| 0 <= k < before.pixels.len() implies self@.pixels[k] == set_pixel(
                        before,
                        x as int,
                        y as int,
                        c,
                    ).pixels[k] by {
                        lemma_coords(w, h, k);
                        if k % w == x && k / w == y {
                            assert(k == y * w + x);
                        }
                    }
                    assert(self@.pixels =~= set_pixel(before, x as int, y as int, c).pixels);
                }
            },
            None => {
                proof {
                    let w = before.width as int;
                    let h = before.height as int;
                    assert forall|k: int| 0 <= k < before.pixels.len() implies before.pixels[k] == set_pixel(
                        before,
                        x as int,
                        y as int,
                        c,
                    ).pixels[k] by {
                        lemma_coords(w, h, k);
                    }
                    assert(before.pixels =~= set_pixel(before, x as int, y as int, c).pixels);
                }
            },
        }
    }
}


// ---------------------------------------------------------------------------
// Filled rectangles and discs.

/// The region of a filled rectangle or of a filled disc.
pub enum Shape {
    Rect { x: i64, y: i64, w: i64, h: i64 },
    Disc { cx: i64, cy: i64, r: i64 },
}

pub open spec fn in_rect(x: int, y: int, w: int, h: int, a: int, b: int) -> bool {
    x <= a < x + w && y <= b < y + h
}

pub open spec fn in_disc(cx: int, cy: int, r: int, a: int, b: int) -> bool {
    r >= 0 && (a - cx) * (a - cx) + (b - cy) * (b - cy) <= r * r
}

pub open spec fn rect_region(x: int, y: int, w: int, h: int) -> spec_fn(int, int) -> bool {
    |a: int, b: int| in_rect(x, y, w, h, a, b)
}

pub open spec fn disc_region(cx: int, cy: int, r: int) -> spec_fn(int, int) -> bool {
    |a: int, b: int| in_disc(cx, cy, r, a, b)
}

pub open spec fn shape_region(s: Shape) -> spec_fn(int, int) -> bool {
    match s {
        Shape::Rect { x, y, w, h } => rect_region(x as int, y as int, w as int, h as int),
        Shape::Disc { cx, cy, r } => disc_region(cx as int, cy as int, r as int),
    }
}

pub open spec fn shape_fits(s: Shape) -> bool {
    match s {
        Shape::Rect { x, y, w, h } => -0x4_0000_0000 <= x <= 0x4_0000_0000 && -0x4_0000_0000 <= y
            <= 0x4_0000_0000 && -0x4_0000_0000 <= w <= 0x4_0000_0000 && -0x4_0000_0000 <= h
            <= 0x4_0000_0000,
        Shape::Disc { cx, cy, r } => -0x4_0000_0000 <= cx <= 0x4_0000_0000 && -0x4_0000_0000 <= cy
            <= 0x4_0000_0000 && -0x8000_0000 <= r <= 0x7fff_ffff,
    }
}

fn shape_contains(s: &Shape, a: i64, b: i64) -> (r: bool)
    requires
        shape_fits(*s),
        0 <= a <= 0x7fff_ffff,
        0 <= b <= 0x7fff_ffff,
    ensures
        r == (shape_region(*s))(a as int, b as int),
{
    match s {
        Shape::Rect { x, y, w, h } => *x <= a && a < *x + *w && *y <= b && b < *y + *h,
        Shape::Disc { cx, cy, r } => {
            if *r < 0 {
                return false;
            }
            let dx = a - *cx;
            let dy = b - *cy;
            if dx > *r || dx < -*r || dy > *r || dy < -*r {
                proof {
                    let rr = *r as int;
                    assert((dx as int) * (dx as int) + (dy as int) * (dy as int) > rr * rr) by (nonlinear_arith)
                        requires
                            rr >= 0,
                            dx > rr || dx < -rr || dy > rr || dy < -rr,
                    ;
                }
                return false;
            }
            proof {
                assert(0 <= (dx as int) * (dx as int) <= 0x3fff_ffff_0000_0001) by (nonlinear_arith)
                    requires
                        -0x7fff_ffff <= dx <= 0x7fff_ffff,
                ;
                assert(0 <= (dy as int) * (dy as int) <= 0x3fff_ffff_0000_0001) by (nonlinear_arith)
                    requires
                        -0x7fff_ffff <= dy <= 0x7fff_ffff,
                ;
                assert(0 <= (*r as int) * (*r as int) <= 0x3fff_ffff_0000_0001) by (nonlinear_arith)
                    requires
                        0 <= *r <= 0x7fff_ffff,
                ;
            }
            dx * dx + dy * dy <= *r * *r
        },
    }
}

/// Drawing on a canvas with a side above `i32::MAX` changes nothing.
proof fn lemma_painted_undrawable(c: CanvasModel, region: spec_fn(int, int) -> bool, col: Rgba)
    requires
        model_wf(c),
        !(c.width <= 0x7fff_ffff && c.height <= 0x7fff_ffff),
    ensures
        painted(c, region, col) == c,
{
    let w = c.width as int;
    let h = c.height as int;
    assert forall|k: int| 0 <= k < c.pixels.len() implies painted(c, region, col).pixels[k] == c.pixels[k] by {
        lemma_coords(w, h, k);
    }
    assert(painted(c, region, col).pixels =~= c.pixels);
}

impl Canvas {
    /// Colors every pixel of the shape with `c`.
    pub(crate) fn paint(&mut self, s: &Shape, c: Rgba)
        requires
            old(self).wf(),
            shape_fits(*s),
        ensures
            final(self).wf(),
            final(self)@ == painted(old(self)@, shape_region(*s), c),
    {
        let ghost before = self@;
        if !self.drawable() {
            proof {
                lemma_painted_undrawable(before, shape_region(*s), c);
            }
            return;
        }
        let n = self.pixels.len();
        let w = self.width as usize;
        let ghost target = painted(before, shape_region(*s), c);
        let mut i: usize = 0;
        while i < n
            invariant
                0 <= i <= n,
                n == before.pixels.len(),
                w == before.width,
                self.width == before.width,
                self.height == before.height,
                before.width <= 0x7fff_ffff,
                before.height <= 0x7fff_ffff,
                model_wf(before),
                shape_fits(*s),
                self.pixels@.len() == n,
                target == painted(before, shape_region(*s), c),
                forall|k: int| 0 <= k < i ==> self.pixels@[k] == target.pixels[k],
                forall|k: int| i <= k < n ==> self.pixels@[k] == before.pixels[k],
            decreases n - i,
        {
            proof {
                lemma_coords(w as int, before.height as int, i as int);
            }
            let px = (i % w) as i64;
            let py = (i / w) as i64;
            if shape_contains(s, px, py) {
                self.pixels.set(i, c);
            }
            i = i + 1;
        }
        proof {
            assert(self.pixels@ =~= target.pixels);
        }
    }
}


// ---------------------------------------------------------------------------
// Lines (Bresenham).

pub open spec fn iabs(v: int) -> int {
    if v < 0 {
        -v
    } else {
        v
    }
}

/// One step of Bresenham's algorithm: the next point and error term.
pub open spec fn line_step(x: int, y: int, err: int, dx: int, dy: int, sx: int, sy: int) -> (int, int, int) {
    let e2 = 2 * err;
    let err1 = if e2 >= dy { err + dy } else { err };
    let nx = if e2 >= dy { x + sx } else { x };
    if e2 <= dx {
        (nx, y + sy, err1 + dx)
    } else {
        (nx, y, err1)
    }
}

/// The points Bresenham's algorithm visits from `(x, y)` to `(x1, y1)`.
pub open spec fn line_from(x: int, y: int, x1: int, y1: int, err: int, dx: int, dy: int, sx: int, sy: int) -> Seq<
    (int, int),
>
    decreases iabs(x1 - x) + iabs(y1 - y),
{
    if x == x1 && y == y1 {
        seq![(x, y)]
    } else {
        let (nx, ny, ne) = line_step(x, y, err, dx, dy, sx, sy);
        if iabs(x1 - nx) + iabs(y1 - ny) < iabs(x1 - x) + iabs(y1 - y) {
            seq![(x, y)] + line_from(nx, ny, x1, y1, ne, dx, dy, sx, sy)
        } else {
            seq![(x, y)]
        }
    }
}

/// The points of the line from `(x0, y0)` to `(x1, y1)`.
pub open spec fn line_points(x0: int, y0: int, x1: int, y1: int) -> Seq<(int, int)> {
    let dx = iabs(x1 - x0);
    let dy = -iabs(y1 - y0);
    let sx = if x0 < x1 { 1int } else { -1int };
    let sy = if y0 < y1 { 1int } else { -1int };
    line_from(x0, y0, x1, y1, dx + dy, dx, dy, sx, sy)
}

pub open spec fn on_points(s: Seq<(int, int)>) -> spec_fn(int, int) -> bool {
    |a: int, b: int| s.contains((a, b))
}

/// What holds at every step of Bresenham's algorithm, with `u` and `v` the
/// steps left along each axis.
pub open spec fn bresenham_inv(x: int, y: int, x1: int, y1: int, err: int, dx: int, dy: int, sx: int, sy: int) -> bool {
    let d = -dy;
    let u = iabs(x1 - x);
    let v = iabs(y1 - y);
    &&& dx >= 0 && d >= 0
    &&& (sx == 1 || sx == -1) && (sy == 1 || sy == -1)
    &&& x1 - x == sx * u && y1 - y == sy * v
    &&& u <= dx && v <= d
    &&& err == dx - d + u * d - v * dx
    &&& -2 * d <= err <= 2 * dx
}

proof fn lemma_line_step(x: int, y: int, x1: int, y1: int, err: int, dx: int, dy: int, sx: int, sy: int)
    requires
        bresenham_inv(x, y, x1, y1, err, dx, dy, sx, sy),
        !(x == x1 && y == y1),
    ensures
        ({
            let (nx, ny, ne) = line_step(x, y, err, dx, dy, sx, sy);
            &&& bresenham_inv(nx, ny, x1, y1, ne, dx, dy, sx, sy)
            &&& iabs(x1 - nx) + iabs(y1 - ny) < iabs(x1 - x) + iabs(y1 - y)
            &&& iabs(x1 - nx) <= iabs(x1 - x)
            &&& iabs(y1 - ny) <= iabs(y1 - y)
        }),
{
    let d = -dy;
    let u = iabs(x1 - x);
    let v = iabs(y1 - y);
    let cx = 2 * err >= dy;
    let cy = 2 * err <= dx;
    assert(u > 0 || v > 0);
    if cx && u == 0 {
        assert(v >= 1);
        assert(u * d == 0) by (nonlinear_arith)
            requires
                u == 0,
        ;
        assert(err == dx - d - v * dx);
        assert(dx * (1 - v) <= 0) by (nonlinear_arith)
            requires
                dx >= 0,
                v >= 1,
        ;
        assert(false) by (nonlinear_arith)
            requires
                err == dx - d - v * dx,
                2 * err >= -d,
                dx * (1 - v) <= 0,
                d >= v,
                v >= 1,
        ;
    }
    if cy && v == 0 {
        assert(u >= 1);
        assert(v * dx == 0) by (nonlinear_arith)
            requires
                v == 0,
        ;
        assert(err == dx - d + u * d);
        assert(d * (u - 1) >= 0) by (nonlinear_arith)
            requires
                d >= 0,
                u >= 1,
        ;
        assert(false) by (nonlinear_arith)
            requires
                err == dx - d + u * d,
                2 * err <= dx,
                d * (u - 1) >= 0,
                dx >= u,
                u >= 1,
        ;
    }
    assert(cx || cy);
    let nu = if cx { u - 1 } else { u };
    let nv = if cy { v - 1 } else { v };
    let (nx, ny, ne) = line_step(x, y, err, dx, dy, sx, sy);
    assert(ne == err - (if cx { d } else { 0 }) + (if cy { dx } else { 0 }));
    assert(ne == dx - d + nu * d - nv * dx) by (nonlinear_arith)
        requires
            err == dx - d + u * d - v * dx,
            ne == err - (if cx { d } else { 0 }) + (if cy { dx } else { 0 }),
            nu == if cx { u - 1 } else { u },
            nv == if cy { v - 1 } else { v },
    ;
    assert(x1 - nx == sx * nu) by (nonlinear_arith)
        requires
            x1 - x == sx * u,
            nx == if cx { x + sx } else { x },
            nu == if cx { u - 1 } else { u },
    ;
    assert(y1 - ny == sy * nv) by (nonlinear_arith)
        requires
            y1 - y == sy * v,
            ny == if cy { y + sy } else { y },
            nv == if cy { v - 1 } else { v },
    ;
    assert(iabs(x1 - nx) == nu);
    assert(iabs(y1 - ny) == nv);
}

proof fn lemma_line_start(x0: int, y0: int, x1: int, y1: int)
    ensures
        ({
            let dx = iabs(x1 - x0);
            let dy = -iabs(y1 - y0);
            let sx = if x0 < x1 { 1int } else { -1int };
            let sy = if y0 < y1 { 1int } else { -1int };
            bresenham_inv(x0, y0, x1, y1, dx + dy, dx, dy, sx, sy)
        }),
{
    let dx = iabs(x1 - x0);
    let d = iabs(y1 - y0);
    assert(dx - d + dx * d - d * dx == dx - d) by (nonlinear_arith);
}

/// Along the longer axis every step of the line moves by one.
pub open spec fn major_inv(err: int, dx: int, dy: int) -> bool {
    &&& dx >= -dy ==> 2 * err >= dy
    &&& -dy >= dx ==> 2 * err <= dx
}

/// One step of the line from `a` to `b`: each coordinate stays or moves by one
/// toward the end (`sx`, `sy`), the point changes, and the coordinate along the
/// longer axis (`x` when `xmajor`, `y` when `ymajor`) always moves.
pub open spec fn line_move(a: (int, int), b: (int, int), sx: int, sy: int, xmajor: bool, ymajor: bool) -> bool {
    &&& (b.0 == a.0 || b.0 == a.0 + sx)
    &&& (b.1 == a.1 || b.1 == a.1 + sy)
    &&& b != a
    &&& xmajor ==> b.0 == a.0 + sx
    &&& ymajor ==> b.1 == a.1 + sy
}

proof fn lemma_line_path(x: int, y: int, x1: int, y1: int, err: int, dx: int, dy: int, sx: int, sy: int)
    requires
        bresenham_inv(x, y, x1, y1, err, dx, dy, sx, sy),
        major_inv(err, dx, dy),
    ensures
        ({
            let p = line_from(x, y, x1, y1, err, dx, dy, sx, sy);
            &&& p.len() == (if dx >= -dy { iabs(x1 - x) } else { iabs(y1 - y) }) + 1
            &&& p[0] == (x, y)
            &&& p[p.len() - 1] == (x1, y1)
            &&& forall|k: int|
                0 <= k < p.len() - 1 ==> line_move(#[trigger] p[k], p[k + 1], sx, sy, dx >= -dy, -dy >= dx)
        }),
    decreases iabs(x1 - x) + iabs(y1 - y),
{
    let p = line_from(x, y, x1, y1, err, dx, dy, sx, sy);
    if !(x == x1 && y == y1) {
        lemma_line_step(x, y, x1, y1, err, dx, dy, sx, sy);
        let (nx, ny, ne) = line_step(x, y, err, dx, dy, sx, sy);
        assert(major_inv(ne, dx, dy));
        lemma_line_path(nx, ny, x1, y1, ne, dx, dy, sx, sy);
        let q = line_from(nx, ny, x1, y1, ne, dx, dy, sx, sy);
        assert(p == seq![(x, y)] + q);
        assert forall|k: int| 0 <= k < p.len() - 1 implies line_move(#[trigger] p[k], p[k + 1], sx, sy, dx >= -dy, -dy >= dx) by {
            if k == 0 {
                assert(p[1] == q[0]);
            } else {
                assert(p[k] == q[k - 1] && p[k + 1] == q[k]);
            }
        }
    }
}

/// Law: a line is a path from its start to its end: it holds one point per
/// step along its longer axis plus one, and each step moves one along that
/// axis and at most one along the other, toward the end.
pub proof fn law_line_is_a_path(x0: int, y0: int, x1: int, y1: int)
    ensures
        ({
            let p = line_points(x0, y0, x1, y1);
            let dx = iabs(x1 - x0);
            let d = iabs(y1 - y0);
            let sx = if x0 < x1 { 1int } else { -1int };
            let sy = if y0 < y1 { 1int } else { -1int };
            &&& p.len() == (if dx >= d { dx } else { d }) + 1
            &&& p[0] == (x0, y0)
            &&& p[p.len() - 1] == (x1, y1)
            &&& forall|k: int| 0 <= k < p.len() - 1 ==> line_move(#[trigger] p[k], p[k + 1], sx, sy, dx >= d, d >= dx)
        }),
{
    lemma_line_start(x0, y0, x1, y1);
    lemma_line_path(
        x0,
        y0,
        x1,
        y1,
        iabs(x1 - x0) - iabs(y1 - y0),
        iabs(x1 - x0),
        -iabs(y1 - y0),
        if x0 < x1 { 1int } else { -1int },
        if y0 < y1 { 1int } else { -1int },
    );
}

/// Drawing one more point of a region with the same color.
proof fn lemma_paint_visit(c: CanvasModel, s: Seq<(int, int)>, x: int, y: int, col: Rgba)
    ensures
        set_pixel(painted(c, on_points(s), col), x, y, col) == painted(c, on_points(s.push((x, y))), col),
{
    let lhs = set_pixel(painted(c, on_points(s), col), x, y, col);
    let rhs = painted(c, on_points(s.push((x, y))), col);
    assert forall|k: int| 0 <= k < c.pixels.len() implies lhs.pixels[k] == rhs.pixels[k] by {
        let a = k % (c.width as int);
        let b = k / (c.width as int);
        if s.push((x, y)).contains((a, b)) {
            if !s.contains((a, b)) {
                let j = choose|j: int| 0 <= j < s.push((x, y)).len() && s.push((x, y))[j] == (a, b);
                if j < s.len() {
                    assert(s[j] == (a, b));
                }
            }
        }
        if s.contains((a, b)) {
            let j = choose|j: int| 0 <= j < s.len() && s[j] == (a, b);
            assert(s.push((x, y))[j] == (a, b));
        }
        if a == x && b == y {
            assert(s.push((x, y))[s.len() as int] == (a, b));
        }
    }
    assert(lhs.pixels =~= rhs.pixels);
}

pub proof fn lemma_painted_empty(c: CanvasModel, col: Rgba)
    ensures
        painted(c, on_points(Seq::<(int, int)>::empty()), col) == c,
{
    assert(painted(c, on_points(Seq::<(int, int)>::empty()), col).pixels =~= c.pixels);
}

impl Canvas {
    pub(crate) fn line(&mut self, x0: i64, y0: i64, x1: i64, y1: i64, c: Rgba)
        requires
            old(self).wf(),
            -0x4_0000_0000 <= x0 <= 0x4_0000_0000,
            -0x4_0000_0000 <= y0 <= 0x4_0000_0000,
            -0x4_0000_0000 <= x1 <= 0x4_0000_0000,
            -0x4_0000_0000 <= y1 <= 0x4_0000_0000,
        ensures
            final(self).wf(),
            final(self)@ == painted(old(self)@, on_points(line_points(x0 as int, y0 as int, x1 as int, y1 as int)), c),
    {
        let ghost c0 = self@;
        let ghost all = line_points(x0 as int, y0 as int, x1 as int, y1 as int);
        let dx = if x1 - x0 < 0 { x0 - x1 } else { x1 - x0 };
        let sx: i64 = if x0 < x1 { 1 } else { -1 };
        let dy = if y1 - y0 < 0 { y1 - y0 } else { y0 - y1 };
        let sy: i64 = if y0 < y1 { 1 } else { -1 };
        let mut err = dx + dy;
        let mut x = x0;
        let mut y = y0;
        let ghost mut visited: Seq<(int, int)> = seq![];
        proof {
            lemma_line_start(x0 as int, y0 as int, x1 as int, y1 as int);
            lemma_painted_empty(c0, c);
            assert(visited + all =~= all);
        }
        loop
            invariant_except_break
                all == visited + line_from(x as int, y as int, x1 as int, y1 as int, err as int, dx as int, dy as int, sx as int, sy as int),
                self@ == painted(c0, on_points(visited), c),
            invariant
                self.wf(),
                bresenham_inv(x as int, y as int, x1 as int, y1 as int, err as int, dx as int, dy as int, sx as int, sy as int),
                all == line_points(x0 as int, y0 as int, x1 as int, y1 as int),
                c0.width == self@.width && c0.height == self@.height && c0.pixels.len() == self@.pixels.len(),
                0 <= dx <= 0x8_0000_0000,
                -0x8_0000_0000 <= dy <= 0,
                iabs(x1 - x) <= dx,
                iabs(y1 - y) <= -dy,
                -0x4_0000_0000 <= x1 <= 0x4_0000_0000,
                -0x4_0000_0000 <= y1 <= 0x4_0000_0000,
            ensures
                self.wf(),
                self@ == painted(c0, on_points(all), c),
            decreases iabs(x1 - x) + iabs(y1 - y),
        {
            proof {
                lemma_paint_visit(c0, visited, x as int, y as int, c);
            }
            self.set(x, y, c);
            proof {
                visited = visited.push((x as int, y as int));
            }
            if x == x1 && y == y1 {
                proof {
                    assert(all =~= visited);
                }
                break;
            }
            proof {
                lemma_line_step(x as int, y as int, x1 as int, y1 as int, err as int, dx as int, dy as int, sx as int, sy as int);
                let ghost rest = line_from(x as int, y as int, x1 as int, y1 as int, err as int, dx as int, dy as int, sx as int, sy as int);
                let (nx, ny, ne) = line_step(x as int, y as int, err as int, dx as int, dy as int, sx as int, sy as int);
                assert(rest == seq![(x as int, y as int)] + line_from(nx, ny, x1 as int, y1 as int, ne, dx as int, dy as int, sx as int, sy as int));
                assert(all =~= visited + line_from(nx, ny, x1 as int, y1 as int, ne, dx as int, dy as int, sx as int, sy as int));
            }
            let e2 = 2 * err;
            if e2 >= dy {
                err = err + dy;
                x = x + sx;
            }
            if e2 <= dx {
                err = err + dx;
                y = y + sy;
            }
        }
    }
}


// ---------------------------------------------------------------------------
// Flood fill.

pub open spec fn adjacent(p: (int, int), q: (int, int)) -> bool {
    iabs(p.0 - q.0) + iabs(p.1 - q.1) == 1
}

/// A path of 4-neighbours, all on pixels of color `target`.
pub open spec fn fill_path(c: CanvasModel, target: Rgba, path: Seq<(int, int)>) -> bool {
    &&& path.len() > 0
    &&& forall|i: int| 0 <= i < path.len() ==> pixel_at(c, #[trigger] path[i].0, path[i].1) == Some(target)
    &&& forall|i: int| 0 <= i < path.len() - 1 ==> adjacent(#[trigger] path[i], path[i + 1])
}

/// `p` lies in the region of color `target` that contains `start`.
pub open spec fn reaches(c: CanvasModel, target: Rgba, start: (int, int), p: (int, int)) -> bool {
    exists|path: Seq<(int, int)>| #[trigger] fill_path(c, target, path) && path[0] == start && path.last() == p
}

/// A flood fill at `(x, y)`: the 4-connected region of the color found there
/// takes the color `col` (nothing changes off the canvas or when the color is
/// already `col`).
pub open spec fn flood(c: CanvasModel, x: int, y: int, col: Rgba) -> CanvasModel {
    match pixel_at(c, x, y) {
        None => c,
        Some(t) => if t == col {
            c
        } else {
            painted(c, |a: int, b: int| reaches(c, t, (x, y), (a, b)), col)
        },
    }
}

pub open spec fn in_set(s: Set<(int, int)>) -> spec_fn(int, int) -> bool {
    |a: int, b: int| s.contains((a, b))
}

pub open spec fn count_color(s: Seq<Rgba>, t: Rgba) -> nat
    decreases s.len(),
{
    if s.len() == 0 {
        0
    } else {
        count_color(s.drop_last(), t) + if s.last() == t { 1nat } else { 0nat }
    }
}

proof fn lemma_count_update(s: Seq<Rgba>, i: int, t: Rgba, v: Rgba)
    requires
        0 <= i < s.len(),
        s[i] == t,
        v != t,
    ensures
        count_color(s.update(i, v), t) + 1 == count_color(s, t),
    decreases s.len(),
{
    if i < s.len() - 1 {
        assert(s.update(i, v).drop_last() =~= s.drop_last().update(i, v));
        lemma_count_update(s.drop_last(), i, t, v);
    } else {
        assert(s.update(i, v).drop_last() =~= s.drop_last());
    }
}

proof fn lemma_pixel_painted(c: CanvasModel, region: spec_fn(int, int) -> bool, col: Rgba, x: int, y: int)
    requires
        model_wf(c),
    ensures
        pixel_at(painted(c, region, col), x, y) == if on_canvas(c, x, y) {
            if region(x, y) {
                Some(col)
            } else {
                pixel_at(c, x, y)
            }
        } else {
            None::<Rgba>
        },
{
    if on_canvas(c, x, y) {
        lemma_index(c.width as int, c.height as int, x, y);
    }
}

proof fn lemma_set_is_update(c: CanvasModel, x: int, y: int, col: Rgba)
    requires
        model_wf(c),
        on_canvas(c, x, y),
    ensures
        0 <= y * c.width + x < c.pixels.len(),
        set_pixel(c, x, y, col).pixels == c.pixels.update(y * c.width + x, col),
{
    let w = c.width as int;
    let h = c.height as int;
    lemma_index(w, h, x, y);
    assert forall|k: int| 0 <= k < c.pixels.len() implies set_pixel(c, x, y, col).pixels[k] == c.pixels.update(
        y * w + x,
        col,
    )[k] by {
        lemma_coords(w, h, k);
        if k % w == x && k / w == y {
            assert(k == y * w + x);
        }
    }
    assert(set_pixel(c, x, y, col).pixels =~= c.pixels.update(y * w + x, col));
}

proof fn lemma_paint_set_insert(c: CanvasModel, s: Set<(int, int)>, x: int, y: int, col: Rgba)
    ensures
        set_pixel(painted(c, in_set(s), col), x, y, col) == painted(c, in_set(s.insert((x, y))), col),
{
    assert(set_pixel(painted(c, in_set(s), col), x, y, col).pixels =~= painted(c, in_set(s.insert((x, y))), col).pixels);
}

proof fn lemma_reach_start(c: CanvasModel, t: Rgba, start: (int, int))
    requires
        pixel_at(c, start.0, start.1) == Some(t),
    ensures
        reaches(c, t, start, start),
{
    let path = seq![start];
    assert(fill_path(c, t, path));
}

proof fn lemma_reach_extend(c: CanvasModel, t: Rgba, start: (int, int), s: (int, int), p: (int, int))
    requires
        reaches(c, t, start, s),
        adjacent(s, p),
        pixel_at(c, p.0, p.1) == Some(t),
    ensures
        reaches(c, t, start, p),
{
    let path = choose|path: Seq<(int, int)>| #[trigger] fill_path(c, t, path) && path[0] == start && path.last() == s;
    let np = path.push(p);
    assert forall|i: int| 0 <= i < np.len() - 1 implies adjacent(#[trigger] np[i], np[i + 1]) by {
        if i < path.len() - 1 {
            assert(np[i] == path[i] && np[i + 1] == path[i + 1]);
        }
    }
    assert forall|i: int| 0 <= i < np.len() implies pixel_at(c, #[trigger] np[i].0, np[i].1) == Some(t) by {
        if i < path.len() {
            assert(np[i] == path[i]);
        }
    }
    assert(fill_path(c, t, np));
}

proof fn lemma_closed_prefix(c: CanvasModel, t: Rgba, s: Set<(int, int)>, path: Seq<(int, int)>, i: int)
    requires
        fill_path(c, t, path),
        0 <= i < path.len(),
        s.contains(path[0]),
        forall|a: (int, int), n: (int, int)|
            #![trigger s.contains(a), adjacent(a, n)]
            s.contains(a) && adjacent(a, n) && pixel_at(c, n.0, n.1) == Some(t) ==> s.contains(n),
    ensures
        s.contains(path[i]),
    decreases i,
{
    if i > 0 {
        lemma_closed_prefix(c, t, s, path, i - 1);
        assert(adjacent(path[i - 1], path[i]));
        assert(pixel_at(c, path[i].0, path[i].1) == Some(t));
    }
}

/// A set that holds `start` and every same-colored neighbour of its members
/// holds the whole region.
proof fn lemma_closed_complete(c: CanvasModel, t: Rgba, start: (int, int), s: Set<(int, int)>, p: (int, int))
    requires
        s.contains(start),
        forall|a: (int, int), n: (int, int)|
            #![trigger s.contains(a), adjacent(a, n)]
            s.contains(a) && adjacent(a, n) && pixel_at(c, n.0, n.1) == Some(t) ==> s.contains(n),
        reaches(c, t, start, p),
    ensures
        s.contains(p),
{
    let path = choose|path: Seq<(int, int)>| #[trigger] fill_path(c, t, path) && path[0] == start && path.last() == p;
    lemma_closed_prefix(c, t, s, path, path.len() - 1);
}


/// Some entry of the queue holds the point `n`.
pub open spec fn queued(q: Seq<(i64, i64)>, n: (int, int)) -> bool {
    exists|i: int| 0 <= i < q.len() && (#[trigger] q[i]).0 == n.0 && q[i].1 == n.1
}

pub open spec fn as_point(p: (i64, i64)) -> (int, int) {
    (p.0 as int, p.1 as int)
}

/// What the flood fill keeps while it works: every painted point and every
/// queued point of color `target` lies in the region of `start`, and each
/// same-colored neighbour of a painted point is painted or queued.
pub open spec fn fill_inv(c0: CanvasModel, target: Rgba, start: (int, int), done: Set<(int, int)>, q: Seq<(i64, i64)>) -> bool {
    &&& forall|p: (int, int)| #[trigger] done.contains(p) ==> reaches(c0, target, start, p)
    &&& forall|i: int|
        0 <= i < q.len() ==> (pixel_at(c0, (#[trigger] q[i]).0 as int, q[i].1 as int) == Some(target)
            ==> reaches(c0, target, start, as_point(q[i])))
    &&& forall|i: int|
        0 <= i < q.len() ==> -0x4_0000_0001 <= (#[trigger] q[i]).0 <= 0x4_0000_0001 && -0x4_0000_0001 <= q[i].1
            <= 0x4_0000_0001
    &&& forall|a: (int, int), n: (int, int)|
        #![trigger done.contains(a), adjacent(a, n)]
        done.contains(a) && adjacent(a, n) ==> done.contains(n) || queued(q, n) || pixel_at(c0, n.0, n.1) != Some(
            target,
        )
    &&& done.contains(start) || queued(q, start)
    &&& pixel_at(c0, start.0, start.1) == Some(target)
}

proof fn lemma_neighbours(p: (int, int), n: (int, int))
    requires
        adjacent(p, n),
    ensures
        n == (p.0 + 1, p.1) || n == (p.0 - 1, p.1) || n == (p.0, p.1 + 1) || n == (p.0, p.1 - 1),
{
}

/// Taking the head of the queue, a point that is painted already or of
/// another color, keeps the invariant.
proof fn lemma_fill_skip(c0: CanvasModel, target: Rgba, start: (int, int), done: Set<(int, int)>, qb: Seq<(i64, i64)>)
    requires
        fill_inv(c0, target, start, done, qb),
        qb.len() > 0,
        done.contains(as_point(qb[0])) || pixel_at(c0, qb[0].0 as int, qb[0].1 as int) != Some(target),
    ensures
        fill_inv(c0, target, start, done, qb.subrange(1, qb.len() as int)),
{
    let q = qb.subrange(1, qb.len() as int);
    let pp = as_point(qb[0]);
    assert forall|a: (int, int), n: (int, int)|
        #![trigger done.contains(a), adjacent(a, n)]
        done.contains(a) && adjacent(a, n) implies done.contains(n) || queued(q, n) || pixel_at(c0, n.0, n.1)
            != Some(target) by {
        if queued(qb, n) && !done.contains(n) && pixel_at(c0, n.0, n.1) == Some(target) {
            let i = choose|i: int| 0 <= i < qb.len() && (#[trigger] qb[i]).0 == n.0 && qb[i].1 == n.1;
            if i == 0 {
                assert(n == pp);
            } else {
                assert(q[i - 1] == qb[i]);
                assert(q[i - 1].0 == n.0 && q[i - 1].1 == n.1);
            }
        }
    }
    if !done.contains(start) {
        let i = choose|i: int| 0 <= i < qb.len() && (#[trigger] qb[i]).0 == start.0 && qb[i].1 == start.1;
        if i == 0 {
            assert(start == pp);
        } else {
            assert(q[i - 1] == qb[i]);
            assert(q[i - 1].0 == start.0 && q[i - 1].1 == start.1);
        }
    }
    assert forall|i: int| 0 <= i < q.len() implies (pixel_at(c0, (#[trigger] q[i]).0 as int, q[i].1 as int)
        == Some(target) ==> reaches(c0, target, start, as_point(q[i]))) by {
        assert(q[i] == qb[i + 1]);
    }
    assert forall|i: int| 0 <= i < q.len() implies -0x4_0000_0001 <= (#[trigger] q[i]).0 <= 0x4_0000_0001
        && -0x4_0000_0001 <= q[i].1 <= 0x4_0000_0001 by {
        assert(q[i] == qb[i + 1]);
    }
}


/// The four neighbours of `(px, py)`, in the order the fill queues them.
pub open spec fn neighbours(px: i64, py: i64) -> Seq<(i64, i64)> {
    seq![((px + 1) as i64, py), ((px - 1) as i64, py), (px, (py + 1) as i64), (px, (py - 1) as i64)]
}

/// Painting the head of the queue, a point of the region, and queueing its
/// four neighbours keeps the invariant.
proof fn lemma_fill_paint(c0: CanvasModel, target: Rgba, start: (int, int), done: Set<(int, int)>, qb: Seq<(i64, i64)>)
    requires
        fill_inv(c0, target, start, done, qb),
        qb.len() > 0,
        !done.contains(as_point(qb[0])),
        pixel_at(c0, qb[0].0 as int, qb[0].1 as int) == Some(target),
        0 <= qb[0].0 <= 0x7fff_ffff,
        0 <= qb[0].1 <= 0x7fff_ffff,
    ensures
        reaches(c0, target, start, as_point(qb[0])),
        fill_inv(
            c0,
            target,
            start,
            done.insert(as_point(qb[0])),
            qb.subrange(1, qb.len() as int) + neighbours(qb[0].0, qb[0].1),
        ),
{
    let px = qb[0].0;
    let py = qb[0].1;
    let pp = as_point(qb[0]);
    let q_mid = qb.subrange(1, qb.len() as int);
    let nq = q_mid + neighbours(px, py);
    let nd = done.insert(pp);
    let m = q_mid.len() as int;
    assert(nq[m].0 == px + 1 && nq[m].1 == py);
    assert(nq[m + 1].0 == px - 1 && nq[m + 1].1 == py);
    assert(nq[m + 2].0 == px && nq[m + 2].1 == py + 1);
    assert(nq[m + 3].0 == px && nq[m + 3].1 == py - 1);
    assert(reaches(c0, target, start, pp));
    assert forall|i: int| 0 <= i < nq.len() implies (pixel_at(c0, (#[trigger] nq[i]).0 as int, nq[i].1 as int)
        == Some(target) ==> reaches(c0, target, start, as_point(nq[i]))) by {
        if i < m {
            assert(nq[i] == qb[i + 1]);
        } else if pixel_at(c0, nq[i].0 as int, nq[i].1 as int) == Some(target) {
            lemma_reach_extend(c0, target, start, pp, as_point(nq[i]));
        }
    }
    assert forall|i: int| 0 <= i < nq.len() implies -0x4_0000_0001 <= (#[trigger] nq[i]).0 <= 0x4_0000_0001
        && -0x4_0000_0001 <= nq[i].1 <= 0x4_0000_0001 by {
        if i < m {
            assert(nq[i] == qb[i + 1]);
        }
    }
    assert forall|a: (int, int), n: (int, int)|
        #![trigger nd.contains(a), adjacent(a, n)]
        nd.contains(a) && adjacent(a, n) implies nd.contains(n) || queued(nq, n) || pixel_at(c0, n.0, n.1)
            != Some(target) by {
        if a == pp {
            lemma_neighbours(pp, n);
            if n == (pp.0 + 1, pp.1) {
                assert(nq[m].0 == n.0 && nq[m].1 == n.1);
            } else if n == (pp.0 - 1, pp.1) {
                assert(nq[m + 1].0 == n.0 && nq[m + 1].1 == n.1);
            } else if n == (pp.0, pp.1 + 1) {
                assert(nq[m + 2].0 == n.0 && nq[m + 2].1 == n.1);
            } else {
                assert(nq[m + 3].0 == n.0 && nq[m + 3].1 == n.1);
            }
        } else {
            assert(done.contains(a));
            if queued(qb, n) && !nd.contains(n) && pixel_at(c0, n.0, n.1) == Some(target) {
                let i = choose|i: int| 0 <= i < qb.len() && (#[trigger] qb[i]).0 == n.0 && qb[i].1 == n.1;
                if i == 0 {
                    assert(n == pp);
                } else {
                    assert(nq[i - 1] == qb[i]);
                }
            }
        }
    }
    if !nd.contains(start) {
        let i = choose|i: int| 0 <= i < qb.len() && (#[trigger] qb[i]).0 == start.0 && qb[i].1 == start.1;
        if i == 0 {
            assert(start == pp);
        } else {
            assert(nq[i - 1] == qb[i]);
        }
    }
}

/// Once the queue is empty, the painted points are the whole region.
proof fn lemma_fill_done(c0: CanvasModel, target: Rgba, start: (int, int), done: Set<(int, int)>, col: Rgba)
    requires
        fill_inv(c0, target, start, done, Seq::<(i64, i64)>::empty()),
    ensures
        painted(c0, in_set(done), col) == painted(c0, |a: int, b: int| reaches(c0, target, start, (a, b)), col),
{
    let region = |a: int, b: int| reaches(c0, target, start, (a, b));
    assert forall|a: (int, int), n: (int, int)|
        #![trigger done.contains(a), adjacent(a, n)]
        done.contains(a) && adjacent(a, n) && pixel_at(c0, n.0, n.1) == Some(target) implies done.contains(n) by {
        assert(!queued(Seq::<(i64, i64)>::empty(), n));
    }
    assert(!queued(Seq::<(i64, i64)>::empty(), start));
    assert forall|k: int| 0 <= k < c0.pixels.len() implies painted(c0, in_set(done), col).pixels[k] == painted(
        c0,
        region,
        col,
    ).pixels[k] by {
        let a = k % (c0.width as int);
        let b = k / (c0.width as int);
        if reaches(c0, target, start, (a, b)) {
            lemma_closed_complete(c0, target, start, done, (a, b));
        }
    }
    assert(painted(c0, in_set(done), col).pixels =~= painted(c0, region, col).pixels);
}

impl Canvas {
    /// Flood fill from `(x, y)`, breadth first.
    pub(crate) fn fill(&mut self, x: i64, y: i64, c: Rgba)
        requires
            old(self).wf(),
            -0x4_0000_0000 <= x <= 0x4_0000_0000,
            -0x4_0000_0000 <= y <= 0x4_0000_0000,
        ensures
            final(self).wf(),
            final(self)@ == flood(old(self)@, x as int, y as int, c),
    {
        let ghost c0 = self@;
        let target = match self.get(x, y) {
            None => return,
            Some(t) => t,
        };
        if target == c {
            return;
        }
        let ghost start = (x as int, y as int);
        let mut q: VecDeque<(i64, i64)> = VecDeque::new();
        q.push_back((x, y));
        let ghost mut done: Set<(int, int)> = Set::empty();
        proof {
            assert(painted(c0, in_set(done), c).pixels =~= c0.pixels);
            lemma_reach_start(c0, target, start);
            assert(q@[0] == (x, y));
            assert(queued(q@, start));
        }
        loop
            invariant
                self.wf(),
                model_wf(c0),
                self@.width == c0.width && self@.height == c0.height,
                target != c,
                self@ == painted(c0, in_set(done), c),
                fill_inv(c0, target, start, done, q@),
            ensures
                self.wf(),
                self@ == painted(c0, in_set(done), c),
                fill_inv(c0, target, start, done, Seq::<(i64, i64)>::empty()),
            decreases 5 * count_color(self@.pixels, target) + q@.len(),
        {
            let ghost qb = q@;
            let ghost before = self@;
            match q.pop_front() {
                None => {
                    proof {
                        assert(qb =~= Seq::<(i64, i64)>::empty());
                    }
                    break;
                },
                Some((px, py)) => {
                    let ghost pp = (px as int, py as int);
                    proof {
                        lemma_pixel_painted(c0, in_set(done), c, px as int, py as int);
                        assert(qb[0] == (px, py));
                    }
                    let hit = match self.get(px, py) {
                        Some(v) => v == target,
                        None => false,
                    };
                    if !hit {
                        proof {
                            lemma_fill_skip(c0, target, start, done, qb);
                        }
                        continue;
                    }
                    proof {
                        lemma_fill_paint(c0, target, start, done, qb);
                        lemma_paint_set_insert(c0, done, pp.0, pp.1, c);
                        lemma_set_is_update(before, pp.0, pp.1, c);
                        lemma_index(c0.width as int, c0.height as int, pp.0, pp.1);
                        lemma_count_update(before.pixels, pp.1 * c0.width + pp.0, target, c);
                    }
                    self.set(px, py, c);
                    proof {
                        done = done.insert(pp);
                    }
                    q.push_back((px + 1, py));
                    q.push_back((px - 1, py));
                    q.push_back((px, py + 1));
                    q.push_back((px, py - 1));
                    proof {
                        assert(q@ =~= qb.subrange(1, qb.len() as int) + neighbours(px, py));
                    }
                },
            }
        }
        proof {
            lemma_fill_done(c0, target, start, done, c);
        }
    }
}

} // verus!
