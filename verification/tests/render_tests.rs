use pix::color::{Palette, Rgba};
use pix::export::{build_spritesheet, ImageBytes};
use pix::parser;
use pix::pipeline::parse_and_validate;
use pix::render::{animation_frames, render, render_animation, render_frame, Canvas};
use pix::validate::ValidDocument;

fn px(img: &ImageBytes, x: u32, y: u32) -> [u8; 4] {
    let i = 4 * (y as usize * img.width as usize + x as usize);
    [img.bytes[i], img.bytes[i + 1], img.bytes[i + 2], img.bytes[i + 3]]
}

const BLACK: Rgba = Rgba { r: 0, g: 0, b: 0, a: 255 };
const WHITE: Rgba = Rgba { r: 255, g: 255, b: 255, a: 255 };
const RED: Rgba = Rgba { r: 255, g: 0, b: 0, a: 255 };
const CLEAR: Rgba = Rgba { r: 0, g: 0, b: 0, a: 0 };

fn draw(src: &str) -> Canvas {
    let doc = parse_and_validate(src).unwrap();
    render(&doc).unwrap()
}

fn at(c: &Canvas, x: u32, y: u32) -> Rgba {
    c.pixels()[(y * c.width() + x) as usize]
}

fn painted(c: &Canvas, col: Rgba) -> Vec<(u32, u32)> {
    let mut v = Vec::new();
    for y in 0..c.height() {
        for x in 0..c.width() {
            if at(c, x, y) == col {
                v.push((x, y));
            }
        }
    }
    v
}

#[test]
fn pixels_outside_are_clipped() {
    let c = draw("canvas 4 3\nbackground #000000\npixel 1 1 #ff0000\npixel 9 9 #ff0000\npixel -1 0 #ff0000\n");
    assert_eq!(c.width(), 4);
    assert_eq!(c.height(), 3);
    assert_eq!(c.pixels().len(), 12);
    assert_eq!(painted(&c, RED), vec![(1, 1)]);
    assert_eq!(at(&c, 0, 0), BLACK);
}

#[test]
fn rect_is_filled() {
    let c = draw("canvas 5 5\nrect 1 1 2 3 #ffffff\n");
    assert_eq!(painted(&c, WHITE), vec![(1, 1), (2, 1), (1, 2), (2, 2), (1, 3), (2, 3)]);
    assert_eq!(at(&c, 0, 0), CLEAR);
}

#[test]
fn circle_is_a_filled_disc() {
    let c = draw("canvas 5 5\ncircle 2 2 1 #ffffff\n");
    assert_eq!(painted(&c, WHITE), vec![(2, 1), (1, 2), (2, 2), (3, 2), (2, 3)]);
    let c = draw("canvas 3 3\ncircle 1 1 0 #ffffff\n");
    assert_eq!(painted(&c, WHITE), vec![(1, 1)]);
}

#[test]
fn line_follows_bresenham() {
    let c = draw("canvas 4 2\nline 0 0 3 1 #ffffff\n");
    assert_eq!(painted(&c, WHITE), vec![(0, 0), (1, 0), (2, 1), (3, 1)]);
    let c = draw("canvas 4 4\nline 3 3 0 0 #ffffff\n");
    assert_eq!(painted(&c, WHITE), vec![(0, 0), (1, 1), (2, 2), (3, 3)]);
}

#[test]
fn line_steps_once_along_its_longer_axis() {
    let c = draw("canvas 5 3\nline 0 0 4 2 #ffffff\n");
    let mut p = painted(&c, WHITE);
    p.sort();
    assert_eq!(p, vec![(0, 0), (1, 1), (2, 1), (3, 2), (4, 2)]);
    let c = draw("canvas 2 4\nline 0 0 1 3 #ffffff\n");
    let mut p = painted(&c, WHITE);
    p.sort();
    assert_eq!(p, vec![(0, 0), (0, 1), (1, 2), (1, 3)]);
}

#[test]
fn fill_takes_the_connected_region() {
    let c = draw("canvas 4 4\nline 0 1 3 1 #ffffff\nfill 0 3 #ff0000\n");
    assert_eq!(painted(&c, RED).len(), 8);
    assert_eq!(at(&c, 0, 0), CLEAR);
    assert_eq!(at(&c, 3, 2), RED);
    let c = draw("canvas 2 2\nfill 5 5 #ff0000\n");
    assert!(painted(&c, RED).is_empty());
}

#[test]
fn groups_move_their_items() {
    let c = draw("canvas 6 6\ngroup g at 2 3 {\n    pixel 1 1 #ff0000\n    group h at -1 -1 { pixel 0 0 #ffffff }\n}\n");
    assert_eq!(painted(&c, RED), vec![(3, 4)]);
    assert_eq!(painted(&c, WHITE), vec![(1, 2)]);
}

#[test]
fn drawing_order_is_textual() {
    let c = draw("canvas 2 1\nrect 0 0 2 1 #ffffff\npixel 1 0 #ff0000\n");
    assert_eq!(at(&c, 0, 0), WHITE);
    assert_eq!(at(&c, 1, 0), RED);
}

#[test]
fn frames_are_not_drawn_by_render() {
    let c = draw("canvas 2 2\nframe f { pixel 0 0 #ff0000 }\n");
    assert!(painted(&c, RED).is_empty());
}

const ANIM: &str = "canvas 2 1\nframe a { pixel 0 0 #ff0000 }\nframe b { pixel 1 0 #ff0000 }\nanimation run fps 6 {\n    a\n    b\n    a\n}\n";

#[test]
fn render_frame_and_unknown_frame() {
    let doc = parse_and_validate(ANIM).unwrap();
    let c = render_frame(&doc, "b").unwrap();
    assert_eq!(painted(&c, RED), vec![(1, 0)]);
    let e = render_frame(&doc, "nope").err().unwrap();
    assert_eq!(e.code, "E031");
    assert_eq!(e.message, "unknown frame `nope`");
    assert_eq!((e.line, e.column), (1, 1));
}

#[test]
fn animations_render_their_frames_in_order() {
    let doc = parse_and_validate(ANIM).unwrap();
    let (fps, refs) = animation_frames(&doc, "run").unwrap();
    assert_eq!(fps, 6);
    let names: Vec<String> = refs.iter().map(|f| f.name.clone()).collect();
    assert_eq!(names, vec!["a", "b", "a"]);
    let (fps, frames) = render_animation(&doc, "run").unwrap();
    assert_eq!(fps, 6);
    assert_eq!(frames.len(), 3);
    assert_eq!(frames[1].0, "b");
    assert_eq!(painted(&frames[2].1, RED), vec![(0, 0)]);
    let e = animation_frames(&doc, "walk").unwrap_err();
    assert_eq!(e.code, "E032");
    assert_eq!(e.message, "unknown animation `walk`");
    assert_eq!(render_animation(&doc, "walk").err().unwrap().code, "E032");
}

#[test]
fn render_reports_color_errors() {
    let doc = parser::parse("canvas 2 2\npixel 0 0 nope\n").unwrap();
    let valid = ValidDocument {
        canvas: (2, 2),
        background: Rgba::transparent(),
        strict_palette: false,
        palette: Palette::new(),
        document: doc,
    };
    let e = render(&valid).err().unwrap();
    assert_eq!(e.code, "E012");
    assert_eq!(e.message, "unknown color `nope`");
}

#[test]
fn canvas_new_fills_background() {
    let c = Canvas::new(3, 2, RED);
    assert_eq!(c.pixels().len(), 6);
    assert!(c.pixels().iter().all(|p| *p == RED));
}

#[test]
fn image_scales_each_pixel() {
    let c = draw("canvas 2 1\npixel 1 0 #ff0000\n");
    let img = c.to_image(3);
    assert_eq!(img.width, 6);
    assert_eq!(img.height, 3);
    assert_eq!(img.bytes.len(), 6 * 3 * 4);
    assert_eq!(px(&img, 2, 2), [0, 0, 0, 0]);
    assert_eq!(px(&img, 3, 0), [255, 0, 0, 255]);
    assert_eq!(px(&img, 5, 2), [255, 0, 0, 255]);
    let img = c.to_image(0);
    assert_eq!(img.width, 2);
    assert_eq!(px(&img, 1, 0), [255, 0, 0, 255]);
}

#[test]
fn spritesheet_layout() {
    let doc = parse_and_validate(ANIM).unwrap();
    let (fps, frames) = render_animation(&doc, "run").unwrap();
    let (img, meta) = build_spritesheet(&frames, 2, 2, Some(fps));
    let img = img.unwrap();
    assert_eq!((meta.frame_width, meta.frame_height), (4, 2));
    assert_eq!(meta.fps, Some(6));
    assert_eq!(meta.frames.len(), 3);
    let cells: Vec<(String, u32, u32, u32, u32)> =
        meta.frames.iter().map(|f| (f.name.clone(), f.x, f.y, f.w, f.h)).collect();
    assert_eq!(
        cells,
        vec![
            ("a".to_string(), 0, 0, 4, 2),
            ("b".to_string(), 4, 0, 4, 2),
            ("a".to_string(), 0, 2, 4, 2),
        ]
    );
    assert_eq!((img.width, img.height), (8, 4));
    assert_eq!(px(&img, 1, 1), [255, 0, 0, 255]);
    assert_eq!(px(&img, 2, 0), [0, 0, 0, 0]);
    assert_eq!(px(&img, 6, 1), [255, 0, 0, 255]);
    assert_eq!(px(&img, 5, 3), [0, 0, 0, 0]);
    let (none, empty) = build_spritesheet(&[], 2, 2, None);
    assert!(none.is_none());
    assert_eq!((empty.frame_width, empty.frame_height, empty.frames.len()), (0, 0, 0));
    let (_, one_row) = build_spritesheet(&frames, 1, 0, None);
    assert_eq!(one_row.frames[2].x, 0);
    assert_eq!(one_row.frames[2].y, 2);
}
