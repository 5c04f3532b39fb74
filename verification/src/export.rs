//! Turning canvases into images: one canvas scaled up, or the frames of an
//! animation laid out on a sprite sheet. The image buffers come from the
//! `image` crate; writing them to disk is left to the caller.

use vstd::prelude::*;
use crate::canvas::{Canvas, CanvasModel};
use crate::color::Rgba;
use crate::text::clone_string;

verus! {

/// An RGBA image buffer of the `image` crate (`image::RgbaImage`). Its
/// pixels are known to proofs only through `image_pixels`, as the trusted
/// functions below state them.
#[verifier::external_body]
pub struct PixelImage {
    buffer: image::RgbaImage,
}

/// An RGBA image as plain values: its sides, and its bytes row by row, four
/// to a pixel (red, green, blue, alpha).
pub struct ImageBytes {
    pub width: u32,
    pub height: u32,
    pub bytes: Vec<u8>,
}

pub open spec fn channel(p: (u8, u8, u8, u8), k: int) -> u8 {
    if k == 0 {
        p.0
    } else if k == 1 {
        p.1
    } else if k == 2 {
        p.2
    } else {
        p.3
    }
}

/// The bytes of a `w` by `h` image with pixels `m`: row by row, each pixel
/// as its four channels.
pub open spec fn raw_bytes(m: Map<(u32, u32), (u8, u8, u8, u8)>, w: int, h: int) -> Seq<u8> {
    Seq::new(
        (4 * w * h) as nat,
        |i: int| channel(m[(((i / 4) % w) as u32, ((i / 4) / w) as u32)], i % 4),
    )
}

/// The pixels of an image: the channels of the pixel at `(x, y)`, for every
/// `(x, y)` inside the image.
pub uninterp spec fn image_pixels(img: PixelImage) -> Map<(u32, u32), (u8, u8, u8, u8)>;

pub open spec fn channels(p: Rgba) -> (u8, u8, u8, u8) {
    (p.r, p.g, p.b, p.a)
}

/// The pixels of a `width` by `height` image with every channel zero.
pub open spec fn zero_pixels(width: u32, height: u32) -> Map<(u32, u32), (u8, u8, u8, u8)> {
    Map::new(|p: (u32, u32)| p.0 < width && p.1 < height, |p: (u32, u32)| (0u8, 0u8, 0u8, 0u8))
}

/// `ImageBuffer::new` (as `RgbaImage::new`): a `width` by `height` RGBA image, all channels zero.
/// It computes the buffer length as four bytes times the width, then times the
/// height, and stops when either product overflows `usize`.
#[verifier::external_body]
fn new_image(width: u32, height: u32) -> (img: PixelImage)
    requires
        4 * (width as int) <= usize::MAX,
        4 * (width as int) * (height as int) <= usize::MAX,
    ensures
        image_pixels(img) == zero_pixels(width, height),
{
    PixelImage { buffer: image::RgbaImage::new(width, height) }
}

/// `ImageBuffer::put_pixel`: the pixel at `(x, y)` takes the channels of
/// `p`; every other pixel keeps its own. It stops when `(x, y)` lies
/// outside the image.
#[verifier::external_body]
fn put_pixel(img: &mut PixelImage, x: u32, y: u32, p: Rgba)
    requires
        image_pixels(*old(img)).dom().contains((x, y)),
    ensures
        image_pixels(*final(img)) == image_pixels(*old(img)).insert((x, y), channels(p)),
{
    img.buffer.put_pixel(x, y, image::Rgba([p.r, p.g, p.b, p.a]));
}

/// `ImageBuffer::into_raw`: the buffer's bytes. An image made by `new_image`
/// with these sides and changed by `put_pixel` holds four bytes a pixel, the
/// pixel at `(x, y)` at index `4 * (y * width + x)`, channels in order.
#[verifier::external_body]
fn into_raw_bytes(img: PixelImage, width: u32, height: u32) -> (b: Vec<u8>)
    requires
        image_pixels(img).dom() == image_dom(width as int, height as int),
    ensures
        b@ == raw_bytes(image_pixels(img), width as int, height as int),
{
    img.buffer.into_raw()
}

// ---------------------------------------------------------------------------
// Copying a canvas onto an image, each canvas pixel as a `scale` by `scale`
// square.

/// The image pixel `(x, y)` of a canvas of width `fw` scaled by `s`.
pub open spec fn scaled_pixel(pixels: Seq<Rgba>, fw: int, s: int, x: int, y: int) -> (u8, u8, u8, u8) {
    channels(pixels[(y / s) * fw + x / s])
}

pub open spec fn in_block(dx: int, dy: int, w: int, h: int, p: (u32, u32)) -> bool {
    dx <= p.0 < dx + w && dy <= p.1 < dy + h
}

/// The image `m` with the canvas pixels `pixels` (rows of width `fw`, `fh`
/// rows), scaled by `s`, copied to the block whose top-left corner is
/// `(dx, dy)`; only the first `y` rows of the block and the first `x` pixels
/// of row `y` when `partial` holds.
pub open spec fn blit_upto(
    m: Map<(u32, u32), (u8, u8, u8, u8)>,
    pixels: Seq<Rgba>,
    fw: int,
    fh: int,
    s: int,
    dx: int,
    dy: int,
    y: int,
    x: int,
) -> Map<(u32, u32), (u8, u8, u8, u8)> {
    Map::new(
        |p: (u32, u32)| m.dom().contains(p),
        |p: (u32, u32)|
            if in_block(dx, dy, fw * s, fh * s, p) && (p.1 - dy < y || (p.1 - dy == y && p.0 - dx < x)) {
                scaled_pixel(pixels, fw, s, p.0 - dx, p.1 - dy)
            } else {
                m[p]
            },
    )
}

/// The image `m` with the whole scaled canvas copied to the block at `(dx, dy)`.
pub open spec fn blitted(
    m: Map<(u32, u32), (u8, u8, u8, u8)>,
    pixels: Seq<Rgba>,
    fw: int,
    fh: int,
    s: int,
    dx: int,
    dy: int,
) -> Map<(u32, u32), (u8, u8, u8, u8)> {
    Map::new(
        |p: (u32, u32)| m.dom().contains(p),
        |p: (u32, u32)|
            if in_block(dx, dy, fw * s, fh * s, p) {
                scaled_pixel(pixels, fw, s, p.0 - dx, p.1 - dy)
            } else {
                m[p]
            },
    )
}

pub open spec fn image_dom(w: int, h: int) -> Set<(u32, u32)> {
    Set::new(|p: (u32, u32)| p.0 < w && p.1 < h)
}

proof fn lemma_div_below(x: int, s: int, n: int)
    requires
        s >= 1,
        0 <= x < n * s,
    ensures
        0 <= x / s < n,
{
    vstd::arithmetic::div_mod::lemma_fundamental_div_mod(x, s);
    vstd::arithmetic::div_mod::lemma_mod_pos_bound(x, s);
    vstd::arithmetic::div_mod::lemma_div_pos_is_pos(x, s);
    let q = x / s;
    assert(q < n) by (nonlinear_arith)
        requires
            x == s * q + x % s,
            0 <= x % s,
            x < n * s,
            s >= 1,
    ;
}

proof fn lemma_block_index(fw: int, fh: int, s: int, x: int, y: int)
    requires
        s >= 1,
        fw >= 0,
        0 <= x < fw * s,
        0 <= y < fh * s,
    ensures
        0 <= x / s < fw,
        0 <= y / s < fh,
        0 <= (y / s) * fw + x / s < fw * fh,
{
    lemma_div_below(x, s, fw);
    lemma_div_below(y, s, fh);
    let a = y / s;
    let b = x / s;
    assert(0 <= a * fw + b < fw * fh) by (nonlinear_arith)
        requires
            0 <= a < fh,
            0 <= b < fw,
    ;
}

/// Copies the canvas pixels `pixels` (rows of width `fw`, `fh` rows), each
/// as a `scale` by `scale` square, to the block of `img` at `(dx, dy)`.
fn blit(img: &mut PixelImage, pixels: &Vec<Rgba>, fw: u32, fh: u32, scale: u32, dx: u32, dy: u32)
    requires
        scale >= 1,
        pixels@.len() >= fw * fh,
        exists|w: int, h: int|
            image_pixels(*old(img)).dom() == image_dom(w, h) && dx + fw * scale <= w && dy + fh * scale <= h
                && h <= u32::MAX && w <= u32::MAX,
    ensures
        image_pixels(*final(img)) == blitted(
            image_pixels(*old(img)),
            pixels@,
            fw as int,
            fh as int,
            scale as int,
            dx as int,
            dy as int,
        ),
{
    let ghost m = image_pixels(*img);
    let ghost (w, h) = choose|w: int, h: int|
        image_pixels(*old(img)).dom() == image_dom(w, h) && dx + fw * scale <= w && dy + fh * scale <= h && h
            <= u32::MAX && w <= u32::MAX;
    let ghost (fwi, fhi, si) = (fw as int, fh as int, scale as int);
    assert(fwi * si <= w && fhi * si <= h) by (nonlinear_arith)
        requires
            dx + fwi * si <= w,
            dy + fhi * si <= h,
            dx >= 0,
            dy >= 0,
    ;
    let bw = fw * scale;
    let bh = fh * scale;
    proof {
        assert(blit_upto(m, pixels@, fwi, fhi, si, dx as int, dy as int, 0, 0) =~= m);
    }
    let mut y: u32 = 0;
    while y < bh
        invariant
            0 <= y <= bh,
            bw == fw * scale,
            bh == fh * scale,
            scale >= 1,
            pixels@.len() >= fw * fh,
            m.dom() == image_dom(w, h),
            dx + bw <= w,
            dy + bh <= h,
            w <= u32::MAX,
            h <= u32::MAX,
            fwi == fw && fhi == fh && si == scale,
            image_pixels(*img) == blit_upto(m, pixels@, fwi, fhi, si, dx as int, dy as int, y as int, 0),
        decreases bh - y,
    {
        let mut x: u32 = 0;
        while x < bw
            invariant
                0 <= x <= bw,
                0 <= y < bh,
                bw == fw * scale,
                bh == fh * scale,
                scale >= 1,
                pixels@.len() >= fw * fh,
                m.dom() == image_dom(w, h),
                dx + bw <= w,
                dy + bh <= h,
                w <= u32::MAX,
                h <= u32::MAX,
                fwi == fw && fhi == fh && si == scale,
                image_pixels(*img) == blit_upto(m, pixels@, fwi, fhi, si, dx as int, dy as int, y as int, x as int),
            decreases bw - x,
        {
            let n = pixels.len();
            let a = y / scale;
            let b = x / scale;
            proof {
                lemma_block_index(fwi, fhi, si, x as int, y as int);
                assert((a as int) * (fw as int) + (b as int) < n);
            }
            let k = (a as usize) * (fw as usize) + (b as usize);
            let p = pixels[k];
            let ghost before = image_pixels(*img);
            put_pixel(img, dx + x, dy + y, p);
            proof {
                let next = blit_upto(m, pixels@, fwi, fhi, si, dx as int, dy as int, y as int, x + 1);
                assert(image_pixels(*img) =~= next);
            }
            x = x + 1;
        }
        proof {
            let a = blit_upto(m, pixels@, fwi, fhi, si, dx as int, dy as int, y as int, bw as int);
            let b = blit_upto(m, pixels@, fwi, fhi, si, dx as int, dy as int, y + 1, 0);
            assert(a =~= b);
        }
        y = y + 1;
    }
    proof {
        let a = blit_upto(m, pixels@, fwi, fhi, si, dx as int, dy as int, bh as int, 0);
        assert(a =~= blitted(m, pixels@, fwi, fhi, si, dx as int, dy as int));
    }
}

/// `scale`, with 0 read as 1.
pub open spec fn effective_scale(scale: u32) -> u32 {
    if scale < 1 {
        1
    } else {
        scale
    }
}

fn effective_scale_exec(scale: u32) -> (s: u32)
    ensures
        s == effective_scale(scale),
{
    if scale < 1 {
        1
    } else {
        scale
    }
}

/// The canvas scaled by `s`: each canvas pixel as an `s` by `s` square.
pub open spec fn scaled_image(c: CanvasModel, s: int) -> Map<(u32, u32), (u8, u8, u8, u8)> {
    Map::new(
        |p: (u32, u32)| p.0 < c.width * s && p.1 < c.height * s,
        |p: (u32, u32)| scaled_pixel(c.pixels, c.width as int, s, p.0 as int, p.1 as int),
    )
}

/// The image the canvas is saved as: `scale` (0 read as 1) image pixels for
/// each canvas pixel along each side.
pub open spec fn image_fits(c: CanvasModel, scale: u32) -> bool {
    let s = effective_scale(scale) as int;
    &&& c.width * s <= u32::MAX
    &&& c.height * s <= u32::MAX
    &&& 4 * (c.width * s) <= usize::MAX
    &&& 4 * (c.width * s) * (c.height * s) <= usize::MAX
}

impl Canvas {
    /// Whether `to_image` can be called with this scale: the scaled sides
    /// fit in a `u32`, and four bytes times the width, and times the height
    /// again, fit in a `usize`.
    pub fn fits_image(&self, scale: u32) -> (b: bool)
        ensures
            b == image_fits(self@, scale),
    {
        let s = effective_scale_exec(scale) as u128;
        proof {
            lemma_mul_small(self@.width as int, s as int);
            lemma_mul_small(self@.height as int, s as int);
        }
        let w = self.width() as u128 * s;
        let h = self.height() as u128 * s;
        if w > 4294967295 || h > 4294967295 {
            return false;
        }
        proof {
            assert(4 * w * h <= 4 * 0xffff_ffff * 0xffff_ffff) by (nonlinear_arith)
                requires
                    w <= 0xffff_ffff,
                    h <= 0xffff_ffff,
            ;
        }
        4 * w <= usize::MAX as u128 && 4 * w * h <= usize::MAX as u128
    }

    /// The canvas as an RGBA image, each pixel a `scale` by `scale` square
    /// (a scale of 0 counts as 1).
    pub fn to_image(&self, scale: u32) -> (img: ImageBytes)
        requires
            self.wf(),
            image_fits(self@, scale),
        ensures
            img.width == self@.width * effective_scale(scale),
            img.height == self@.height * effective_scale(scale),
            img.bytes@ == raw_bytes(
                scaled_image(self@, effective_scale(scale) as int),
                img.width as int,
                img.height as int,
            ),
    {
        let s = effective_scale_exec(scale);
        let w = self.width() * s;
        let h = self.height() * s;
        let mut img = new_image(w, h);
        proof {
            assert(image_pixels(img).dom() =~= image_dom(w as int, h as int));
        }
        blit(&mut img, self.pixels(), self.width(), self.height(), s, 0, 0);
        proof {
            assert(image_pixels(img) =~= scaled_image(self@, s as int));
            assert(image_pixels(img).dom() =~= image_dom(w as int, h as int));
        }
        let bytes = into_raw_bytes(img, w, h);
        ImageBytes { width: w, height: h, bytes }
    }
}

// ---------------------------------------------------------------------------
// Sprite sheets.

/// Where one frame lies on a sprite sheet, in image pixels.
pub struct SheetFrame {
    pub name: String,
    pub x: u32,
    pub y: u32,
    pub w: u32,
    pub h: u32,
}

/// The layout of a sprite sheet: the size of each frame, the animation rate
/// and where each frame lies.
pub struct SheetMetadata {
    pub frame_width: u32,
    pub frame_height: u32,
    pub fps: Option<i32>,
    pub frames: Vec<SheetFrame>,
}

pub struct SheetFrameModel {
    pub name: Seq<char>,
    pub x: int,
    pub y: int,
    pub w: int,
    pub h: int,
}

pub struct SheetModel {
    pub frame_width: int,
    pub frame_height: int,
    pub fps: Option<i32>,
    pub frames: Seq<SheetFrameModel>,
}

impl View for SheetFrame {
    type V = SheetFrameModel;

    open spec fn view(&self) -> SheetFrameModel {
        SheetFrameModel { name: self.name@, x: self.x as int, y: self.y as int, w: self.w as int, h: self.h as int }
    }
}

impl View for SheetMetadata {
    type V = SheetModel;

    open spec fn view(&self) -> SheetModel {
        SheetModel {
            frame_width: self.frame_width as int,
            frame_height: self.frame_height as int,
            fps: self.fps,
            frames: sheet_frames_view(self.frames@),
        }
    }
}

pub open spec fn sheet_frames_view(v: Seq<SheetFrame>) -> Seq<SheetFrameModel> {
    v.map_values(|f: SheetFrame| f@)
}

/// The named canvases a sprite sheet is made of.
pub open spec fn named_canvases(frames: Seq<(String, Canvas)>) -> Seq<(Seq<char>, CanvasModel)> {
    frames.map_values(|f: (String, Canvas)| (f.0@, f.1@))
}

/// `a / b` rounded up.
pub open spec fn div_ceil(a: int, b: int) -> int {
    a / b + if a % b == 0 {
        0int
    } else {
        1int
    }
}

/// The number of columns of the sheet: `columns` (0 read as 1), at most one
/// per frame.
pub open spec fn sheet_columns(n: int, columns: u32) -> int {
    let c = if columns < 1 {
        1
    } else {
        columns as int
    };
    if c < n {
        c
    } else {
        n
    }
}

/// The sheet layout: every frame takes a cell of the size of the first
/// canvas, scaled, filling rows of `sheet_columns` cells from the top left.
pub open spec fn sheet_layout(frames: Seq<(Seq<char>, CanvasModel)>, scale: u32, columns: u32, fps: Option<i32>) -> SheetModel {
    let n = frames.len() as int;
    if n == 0 {
        SheetModel { frame_width: 0, frame_height: 0, fps, frames: seq![] }
    } else {
        let s = effective_scale(scale) as int;
        let cols = sheet_columns(n, columns);
        let fw = frames[0].1.width as int;
        let fh = frames[0].1.height as int;
        SheetModel {
            frame_width: fw * s,
            frame_height: fh * s,
            fps,
            frames: Seq::new(
                n as nat,
                |i: int|
                    SheetFrameModel {
                        name: frames[i].0,
                        x: (i % cols) * fw * s,
                        y: (i / cols) * fh * s,
                        w: fw * s,
                        h: fh * s,
                    },
            ),
        }
    }
}

/// The sheet image after the first `k` frames are copied: each canvas, read
/// with the width of the first, scaled into its cell.
pub open spec fn sheet_pixels(frames: Seq<(Seq<char>, CanvasModel)>, scale: u32, columns: u32, k: int) -> Map<
    (u32, u32),
    (u8, u8, u8, u8),
>
    decreases k,
{
    let n = frames.len() as int;
    let s = effective_scale(scale) as int;
    let cols = sheet_columns(n, columns);
    let rows = div_ceil(n, cols);
    let fw = frames[0].1.width as int;
    let fh = frames[0].1.height as int;
    if k <= 0 {
        zero_pixels((fw * cols * s) as u32, (fh * rows * s) as u32)
    } else {
        blitted(
            sheet_pixels(frames, scale, columns, k - 1),
            frames[k - 1].1.pixels,
            fw,
            fh,
            s,
            ((k - 1) % cols) * fw * s,
            ((k - 1) / cols) * fh * s,
        )
    }
}

/// The sheet can be built: its sides and its buffer fit, and every canvas
/// holds as many pixels as the first.
/// The sheet's width: a row of `columns` scaled canvases.
pub open spec fn sheet_width(frames: Seq<(Seq<char>, CanvasModel)>, scale: u32, columns: u32) -> int {
    frames[0].1.width * sheet_columns(frames.len() as int, columns) * effective_scale(scale)
}

/// The sheet's height: as many rows of scaled canvases as the canvases fill.
pub open spec fn sheet_height(frames: Seq<(Seq<char>, CanvasModel)>, scale: u32, columns: u32) -> int {
    let n = frames.len() as int;
    frames[0].1.height * div_ceil(n, sheet_columns(n, columns)) * effective_scale(scale)
}

pub open spec fn sheet_fits(frames: Seq<(Seq<char>, CanvasModel)>, scale: u32, columns: u32) -> bool {
    let n = frames.len() as int;
    let s = effective_scale(scale) as int;
    let cols = sheet_columns(n, columns);
    let rows = div_ceil(n, cols);
    let fw = frames[0].1.width as int;
    let fh = frames[0].1.height as int;
    n <= u32::MAX && (n > 0 ==> {
        &&& fw * cols * s <= u32::MAX
        &&& fh * rows * s <= u32::MAX
        &&& 4 * (fw * cols * s) <= usize::MAX
        &&& 4 * (fw * cols * s) * (fh * rows * s) <= usize::MAX
        &&& forall|i: int| 0 <= i < n ==> (#[trigger] frames[i]).1.pixels.len() >= fw * fh
    })
}

proof fn lemma_cell(i: int, n: int, cols: int, rows: int, fw: int, fh: int, s: int)
    requires
        0 <= i < n,
        1 <= cols,
        rows == div_ceil(n, cols),
        fw >= 0,
        fh >= 0,
        s >= 1,
    ensures
        0 <= i % cols < cols,
        0 <= i / cols < rows,
        0 <= (i % cols) * fw * s,
        (i % cols) * fw * s + fw * s <= fw * cols * s,
        0 <= (i / cols) * fh * s,
        (i / cols) * fh * s + fh * s <= fh * rows * s,
        (i % cols) * fw <= fw * cols,
        (i / cols) * fh <= fh * rows,
{
    vstd::arithmetic::div_mod::lemma_fundamental_div_mod(i, cols);
    vstd::arithmetic::div_mod::lemma_fundamental_div_mod(n, cols);
    vstd::arithmetic::div_mod::lemma_mod_pos_bound(i, cols);
    vstd::arithmetic::div_mod::lemma_mod_pos_bound(n, cols);
    vstd::arithmetic::div_mod::lemma_div_pos_is_pos(i, cols);
    vstd::arithmetic::div_mod::lemma_div_is_ordered(i, n, cols);
    let q = i / cols;
    let r = i % cols;
    let nq = n / cols;
    let nr = n % cols;
    assert(q < rows) by (nonlinear_arith)
        requires
            i == cols * q + r,
            n == cols * nq + nr,
            0 <= r < cols,
            0 <= nr < cols,
            i < n,
            q <= nq,
            rows == nq + if nr == 0 { 0int } else { 1int },
    ;
    assert((r + 1) * fw * s <= fw * cols * s && 0 <= r * fw * s && r * fw <= fw * cols) by (nonlinear_arith)
        requires
            0 <= r < cols,
            fw >= 0,
            s >= 1,
    ;
    assert((q + 1) * fh * s <= fh * rows * s && 0 <= q * fh * s && q * fh <= fh * rows) by (nonlinear_arith)
        requires
            0 <= q < rows,
            fh >= 0,
            s >= 1,
    ;
    assert(r * fw * s + fw * s == (r + 1) * fw * s) by (nonlinear_arith);
    assert(q * fh * s + fh * s == (q + 1) * fh * s) by (nonlinear_arith);
}

/// Two cells of width `w` that hold the same point are the same cell.
proof fn lemma_same_cell(a: int, b: int, w: int, v: int)
    requires
        w > 0,
        a * w <= v < a * w + w,
        b * w <= v < b * w + w,
    ensures
        a == b,
{
    if a < b {
        assert(b * w >= a * w + w) by (nonlinear_arith)
            requires
                b >= a + 1,
                w > 0,
        ;
    }
    if b < a {
        assert(a * w >= b * w + w) by (nonlinear_arith)
            requires
                a >= b + 1,
                w > 0,
        ;
    }
}

proof fn lemma_sheet_dom(frames: Seq<(Seq<char>, CanvasModel)>, scale: u32, columns: u32, k: int)
    requires
        0 <= k,
    ensures
        sheet_pixels(frames, scale, columns, k).dom() == sheet_pixels(frames, scale, columns, 0).dom(),
    decreases k,
{
    if k > 0 {
        lemma_sheet_dom(frames, scale, columns, k - 1);
    }
}

/// Copying the frames after frame `i` leaves the cell of frame `i` as it was.
proof fn lemma_sheet_later_keeps(
    frames: Seq<(Seq<char>, CanvasModel)>,
    scale: u32,
    columns: u32,
    i: int,
    k: int,
    p: (u32, u32),
)
    requires
        0 <= i < k <= frames.len(),
        sheet_pixels(frames, scale, columns, 0).dom().contains(p),
        ({
            let n = frames.len() as int;
            let s = effective_scale(scale) as int;
            let cols = sheet_columns(n, columns);
            let w = frames[0].1.width as int * s;
            let h = frames[0].1.height as int * s;
            &&& (i % cols) * w <= p.0 < (i % cols) * w + w
            &&& (i / cols) * h <= p.1 < (i / cols) * h + h
        }),
    ensures
        sheet_pixels(frames, scale, columns, k)[p] == sheet_pixels(frames, scale, columns, i + 1)[p],
    decreases k,
{
    if k > i + 1 {
        lemma_sheet_later_keeps(frames, scale, columns, i, k - 1, p);
        lemma_sheet_dom(frames, scale, columns, k - 1);
        let n = frames.len() as int;
        let s = effective_scale(scale) as int;
        let cols = sheet_columns(n, columns);
        let fw = frames[0].1.width as int;
        let fh = frames[0].1.height as int;
        let w = fw * s;
        let h = fh * s;
        let j = k - 1;
        assert(cols >= 1);
        assert((j % cols) * fw * s == (j % cols) * w && (j / cols) * fh * s == (j / cols) * h) by (nonlinear_arith)
            requires
                w == fw * s,
                h == fh * s,
        ;
        if crate::export::in_block((j % cols) * fw * s, (j / cols) * fh * s, fw * s, fh * s, p) {
            lemma_same_cell(j % cols, i % cols, w, p.0 as int);
            lemma_same_cell(j / cols, i / cols, h, p.1 as int);
            vstd::arithmetic::div_mod::lemma_fundamental_div_mod(j, cols);
            vstd::arithmetic::div_mod::lemma_fundamental_div_mod(i, cols);
            assert(j == i);
        }
    }
}

/// Law: every frame of a sprite sheet is shown in the cell its metadata
/// gives: frame `i` (with its name) takes the `i % cols`-th cell of row
/// `i / cols`, cells being the size of the first canvas scaled, and the sheet
/// pixel `(x, y)` into that cell is the pixel `(x / scale, y / scale)` of
/// canvas `i` (read with the first canvas's width).
pub proof fn law_sheet_cell_shows_its_frame(
    frames: Seq<(Seq<char>, CanvasModel)>,
    scale: u32,
    columns: u32,
    fps: Option<i32>,
    i: int,
    x: int,
    y: int,
)
    requires
        sheet_fits(frames, scale, columns),
        0 <= i < frames.len(),
        0 <= x < frames[0].1.width * effective_scale(scale),
        0 <= y < frames[0].1.height * effective_scale(scale),
    ensures
        ({
            let n = frames.len() as int;
            let s = effective_scale(scale) as int;
            let cols = sheet_columns(n, columns);
            let fw = frames[0].1.width as int;
            let f = sheet_layout(frames, scale, columns, fps).frames[i];
            let p = ((f.x + x) as u32, (f.y + y) as u32);
            &&& f.name == frames[i].0
            &&& f.w == fw * s
            &&& f.h == frames[0].1.height * s
            &&& f.x == (i % cols) * f.w
            &&& f.y == (i / cols) * f.h
            &&& p.0 == f.x + x && p.1 == f.y + y
            &&& sheet_pixels(frames, scale, columns, n).dom().contains(p)
            &&& sheet_pixels(frames, scale, columns, n)[p] == channels(frames[i].1.pixels[(y / s) * fw + x / s])
        }),
{
    let n = frames.len() as int;
    let s = effective_scale(scale) as int;
    let cols = sheet_columns(n, columns);
    let rows = div_ceil(n, cols);
    let fw = frames[0].1.width as int;
    let fh = frames[0].1.height as int;
    let w = fw * s;
    let h = fh * s;
    lemma_cell(i, n, cols, rows, fw, fh, s);
    assert((i % cols) * fw * s == (i % cols) * w && (i / cols) * fh * s == (i / cols) * h) by (nonlinear_arith)
        requires
            w == fw * s,
            h == fh * s,
    ;
    let f = sheet_layout(frames, scale, columns, fps).frames[i];
    let cx = (i % cols) * w;
    let cy = (i / cols) * h;
    let p = ((cx + x) as u32, (cy + y) as u32);
    assert(p.0 == cx + x && p.1 == cy + y);
    assert(sheet_pixels(frames, scale, columns, 0).dom().contains(p));
    lemma_sheet_dom(frames, scale, columns, n);
    lemma_sheet_dom(frames, scale, columns, i);
    lemma_sheet_later_keeps(frames, scale, columns, i, n, p);
    assert(sheet_pixels(frames, scale, columns, i).dom().contains(p));
}

proof fn lemma_div_ceil_bounds(n: int, c: int)
    requires
        n >= 1,
        c >= 1,
    ensures
        1 <= n / c + (if n % c == 0 { 0int } else { 1int }) <= n,
{
    vstd::arithmetic::div_mod::lemma_fundamental_div_mod(n, c);
    vstd::arithmetic::div_mod::lemma_mod_pos_bound(n, c);
    vstd::arithmetic::div_mod::lemma_div_pos_is_pos(n, c);
    let q = n / c;
    let r = n % c;
    assert(1 <= q + (if r == 0 { 0int } else { 1int }) <= n) by (nonlinear_arith)
        requires
            n == c * q + r,
            0 <= r < c,
            q >= 0,
            n >= 1,
            c >= 1,
    ;
}

/// Lays the canvases out on a sprite sheet, `columns` to a row (0 read as 1,
/// at most one per canvas), each scaled by `scale` (0 read as 1): the sheet
/// image, none for no canvases, and the sheet's layout.
pub fn build_spritesheet(frames: &[(String, Canvas)], scale: u32, columns: u32, fps: Option<i32>) -> (r: (
    Option<ImageBytes>,
    SheetMetadata,
))
    requires
        sheet_fits(named_canvases(frames@), scale, columns),
    ensures
        r.1@ == sheet_layout(named_canvases(frames@), scale, columns, fps),
        match r.0 {
            None => frames@.len() == 0,
            Some(img) => {
                &&& frames@.len() > 0
                &&& img.width == sheet_width(named_canvases(frames@), scale, columns)
                &&& img.height == sheet_height(named_canvases(frames@), scale, columns)
                &&& img.bytes@ == raw_bytes(
                    sheet_pixels(named_canvases(frames@), scale, columns, frames@.len() as int),
                    img.width as int,
                    img.height as int,
                )
            },
        },
{
    let ghost fs = named_canvases(frames@);
    let n = frames.len();
    if n == 0 {
        let metadata = SheetMetadata { frame_width: 0, frame_height: 0, fps, frames: Vec::new() };
        proof {
            assert(metadata@.frames =~= Seq::<SheetFrameModel>::empty());
        }
        return (None, metadata);
    }
    let s = effective_scale_exec(scale);
    let c1 = if columns < 1 {
        1
    } else {
        columns
    };
    let n32 = n as u32;
    let cols = if c1 < n32 {
        c1
    } else {
        n32
    };
    proof {
        lemma_div_ceil_bounds(n32 as int, cols as int);
    }
    let rows = n32 / cols + if n32 % cols == 0 {
        0
    } else {
        1
    };
    let fw = frames[0].1.width();
    let fh = frames[0].1.height();
    proof {
        assert(fs[0] == (frames@[0].0@, frames@[0].1@));
        assert(cols as int == sheet_columns(n as int, columns));
        assert(rows as int == div_ceil(n as int, cols as int));
        assert(fw * cols <= fw * cols * s && fh * rows <= fh * rows * s) by (nonlinear_arith)
            requires
                s >= 1,
        ;
        assert(fw * s <= fw * cols * s && fh * s <= fh * rows * s) by (nonlinear_arith)
            requires
                s >= 1,
                cols >= 1,
                rows >= 1,
        ;
    }
    let sheet_w = fw * cols * s;
    let sheet_h = fh * rows * s;
    let mut img = new_image(sheet_w, sheet_h);
    let mut sheet_frames: Vec<SheetFrame> = Vec::new();
    let ghost layout = sheet_layout(fs, scale, columns, fps).frames;
    proof {
        assert(image_pixels(img) == sheet_pixels(fs, scale, columns, 0));
        assert(image_pixels(img).dom() =~= image_dom(sheet_w as int, sheet_h as int));
        assert(sheet_frames_view(sheet_frames@) =~= layout.take(0));
    }
    let mut i: usize = 0;
    while i < n
        invariant
            0 <= i <= n,
            n == frames@.len(),
            n <= u32::MAX,
            fs == named_canvases(frames@),
            fs.len() == n,
            s == effective_scale(scale),
            s >= 1,
            cols as int == sheet_columns(n as int, columns),
            1 <= cols,
            rows as int == div_ceil(n as int, cols as int),
            fw == fs[0].1.width,
            fh == fs[0].1.height,
            sheet_w == fw * cols * s,
            sheet_h == fh * rows * s,
            fw * cols <= sheet_w,
            fh * rows <= sheet_h,
            fw * s <= sheet_w,
            fh * s <= sheet_h,
            sheet_fits(fs, scale, columns),
            layout == sheet_layout(fs, scale, columns, fps).frames,
            image_pixels(img).dom() == image_dom(sheet_w as int, sheet_h as int),
            image_pixels(img) == sheet_pixels(fs, scale, columns, i as int),
            sheet_frames@.len() == i,
            layout.len() == n,
            sheet_frames_view(sheet_frames@) == layout.take(i as int),
        decreases n - i,
    {
        let ghost ii = i as int;
        proof {
            lemma_cell(ii, n as int, cols as int, rows as int, fw as int, fh as int, s as int);
            assert(fs[ii] == (frames@[ii].0@, frames@[ii].1@));
            assert(fs[ii].1.pixels.len() >= fw * fh);
        }
        let col = (i as u32) % cols;
        let row = (i as u32) / cols;
        let dst_x = col * fw;
        let dst_y = row * fh;
        proof {
            assert(dst_x * s == (ii % (cols as int)) * fw * s) by (nonlinear_arith)
                requires
                    dst_x == col * fw,
                    col == ii % (cols as int),
            ;
            assert(dst_y * s == (ii / (cols as int)) * fh * s) by (nonlinear_arith)
                requires
                    dst_y == row * fh,
                    row == ii / (cols as int),
            ;
        }
        let x0 = dst_x * s;
        let y0 = dst_y * s;
        let ghost before = image_pixels(img);
        blit(&mut img, frames[i].1.pixels(), fw, fh, s, x0, y0);
        proof {
            assert(image_pixels(img).dom() =~= image_dom(sheet_w as int, sheet_h as int));
        }
        let ghost frames_before = sheet_frames@;
        sheet_frames.push(SheetFrame { name: clone_string(&frames[i].0), x: x0, y: y0, w: fw * s, h: fh * s });
        proof {
            assert(layout[ii] == (SheetFrameModel {
                name: fs[ii].0,
                x: (ii % (cols as int)) * fw * s,
                y: (ii / (cols as int)) * fh * s,
                w: fw * s,
                h: fh * s,
            }));
            assert(sheet_frames@[ii]@ == layout[ii]);
            assert(sheet_frames@ == frames_before.push(sheet_frames@[ii]));
            assert(sheet_frames_view(frames_before) == layout.take(ii));
            assert forall|k: int| 0 <= k < ii + 1 implies #[trigger] sheet_frames_view(sheet_frames@)[k] == layout.take(ii + 1)[k] by {
                if k < ii {
                    assert(sheet_frames@[k] == frames_before[k]);
                    assert(sheet_frames_view(frames_before)[k] == layout.take(ii)[k]);
                }
            }
            assert(sheet_frames_view(sheet_frames@) =~= layout.take(ii + 1));
        }
        i = i + 1;
    }
    proof {
        assert(layout.take(n as int) =~= layout);
    }
    let metadata = SheetMetadata { frame_width: fw * s, frame_height: fh * s, fps, frames: sheet_frames };
    let bytes = into_raw_bytes(img, sheet_w, sheet_h);
    (Some(ImageBytes { width: sheet_w, height: sheet_h, bytes }), metadata)
}

proof fn lemma_mul_small(a: int, b: int)
    requires
        0 <= a <= 0xffff_ffff,
        0 <= b <= 0xffff_ffff,
    ensures
        0 <= a * b <= 0xffff_ffff * 0xffff_ffff,
{
    assert(0 <= a * b <= 0xffff_ffff * 0xffff_ffff) by (nonlinear_arith)
        requires
            0 <= a <= 0xffff_ffff,
            0 <= b <= 0xffff_ffff,
    ;
}

/// Whether `build_spritesheet` can be called with these canvases and
/// settings: the sheet's sides and buffer fit, and every canvas holds as
/// many pixels as the first.
pub fn spritesheet_fits(frames: &[(String, Canvas)], scale: u32, columns: u32) -> (b: bool)
    ensures
        b == sheet_fits(named_canvases(frames@), scale, columns),
{
    let ghost fs = named_canvases(frames@);
    let n = frames.len();
    if n > 4294967295 {
        return false;
    }
    if n == 0 {
        return true;
    }
    let s = effective_scale_exec(scale) as u128;
    let c1: u128 = if columns < 1 {
        1
    } else {
        columns as u128
    };
    let cols = if c1 < n as u128 {
        c1
    } else {
        n as u128
    };
    let rows = (n as u128) / cols + if (n as u128) % cols == 0 {
        0
    } else {
        1
    };
    proof {
        assert(fs[0] == (frames@[0].0@, frames@[0].1@));
        assert(cols as int == sheet_columns(n as int, columns));
        lemma_div_ceil_bounds(n as int, cols as int);
    }
    let fw = frames[0].1.width() as u128;
    let fh = frames[0].1.height() as u128;
    proof {
        assert(fw * cols <= 0xffff_ffff * 0xffff_ffff) by (nonlinear_arith)
            requires
                fw <= 0xffff_ffff,
                cols <= 0xffff_ffff,
        ;
        assert(fh * rows <= 0xffff_ffff * 0xffff_ffff) by (nonlinear_arith)
            requires
                fh <= 0xffff_ffff,
                rows <= 0xffff_ffff,
        ;
    }
    let fwc = fw * cols;
    let fhr = fh * rows;
    if fwc > 4294967295 || fhr > 4294967295 {
        proof {
            assert(fw * cols * s >= fw * cols && fh * rows * s >= fh * rows) by (nonlinear_arith)
                requires
                    s >= 1,
            ;
        }
        return false;
    }
    proof {
        lemma_mul_small(fwc as int, s as int);
        lemma_mul_small(fhr as int, s as int);
    }
    let w = fwc * s;
    let h = fhr * s;
    if w > 4294967295 || h > 4294967295 {
        return false;
    }
    proof {
        assert(4 * w * h <= 4 * 0xffff_ffff * 0xffff_ffff) by (nonlinear_arith)
            requires
                w <= 0xffff_ffff,
                h <= 0xffff_ffff,
        ;
    }
    if 4 * w > usize::MAX as u128 || 4 * w * h > usize::MAX as u128 {
        return false;
    }
    proof {
        lemma_mul_small(fw as int, fh as int);
    }
    let need = fw * fh;
    let mut i: usize = 0;
    while i < n
        invariant
            0 <= i <= n,
            n == frames@.len(),
            fs == named_canvases(frames@),
            fw == fs[0].1.width,
            fh == fs[0].1.height,
            need == fw * fh,
            forall|k: int| 0 <= k < i ==> (#[trigger] fs[k]).1.pixels.len() >= fw * fh,
        decreases n - i,
    {
        proof {
            assert(fs[i as int] == (frames@[i as int].0@, frames@[i as int].1@));
        }
        if (frames[i].1.pixels().len() as u128) < need {
            return false;
        }
        i = i + 1;
    }
    true
}

} // verus!
