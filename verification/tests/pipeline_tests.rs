use pix::color::{parse_color_literal, resolve_color, Palette, Rgba};
use pix::diagnostics::{Diagnostic, Span};
use pix::fmt;
use pix::lexer::{lex, TokenKind};
use pix::parser;
use pix::pipeline::{format_source, parse_and_validate};
use pix::validate;

const SLIME: &str = r#"
canvas 16 16
background transparent
strict_palette true
palette {
    O #181425
    G #3fa34d
    L #7bd88f
}
group slime at 3 5 {
    rect 0 1 10 5 G
    pixel 2 2 O
    pixel 7 2 O
    circle 5 3 2 L
}
"#;

#[test]
fn parses_and_validates_phase1() {
    let doc = parser::parse(SLIME).unwrap();
    let valid = validate::validate(doc).unwrap();
    assert_eq!(valid.canvas, (16, 16));
}

#[test]
fn unknown_color_is_diagnostic() {
    let src = "canvas 8 8\npixel 1 1 gren\n";
    let doc = parser::parse(src).unwrap();
    let errs = validate::validate(doc).unwrap_err();
    assert_eq!(errs[0].code, "E012");
}

#[test]
fn strict_palette_rejects_literal() {
    let src = "canvas 8 8\nstrict_palette true\npalette { A #000000 }\npixel 1 1 #ffffff\n";
    let doc = parser::parse(src).unwrap();
    let errs = validate::validate(doc).unwrap_err();
    assert_eq!(errs[0].code, "E013");
}

#[test]
fn formatter_is_idempotent() {
    let doc = parser::parse(SLIME).unwrap();
    let once = fmt::format_document(&doc);
    let twice = fmt::format_document(&parser::parse(&once).unwrap());
    assert_eq!(once, twice);
}

#[test]
fn format_source_is_idempotent_on_every_statement() {
    let src = "canvas 4 3\nbackground #ff000080 strict_palette false\npalette{A #000 b_2 red}\n\
frame f1 { pixel 0 0 A group g at -1 2 { fill 1 1 b_2 group h at 0 0 { } } }\n\
animation walk fps 12 { f1 f1 }\nline 0 0 3 2 #abc\nrect 1 1 2 2 A circle 2 2 1 b_2\n";
    let once = format_source(src).unwrap();
    let twice = format_source(&once).unwrap();
    assert_eq!(once, twice);
    assert_eq!(
        once,
        "canvas 4 3\n\nbackground #ff000080\n\nstrict_palette false\n\npalette {\n    A #000\n    b_2 red\n}\n\n\
frame f1 {\n    pixel 0 0 A\n    group g at -1 2 {\n        fill 1 1 b_2\n        group h at 0 0 {\n        }\n\n    }\n\n}\n\n\
animation walk fps 12 {\n    f1\n    f1\n}\n\nline 0 0 3 2 #abc\n\nrect 1 1 2 2 A\n\ncircle 2 2 1 b_2\n\n"
    );
}

#[test]
fn format_source_reports_parse_error() {
    let err = format_source("canvas 4\n").unwrap_err();
    assert_eq!(err.code, "E009");
}

// ---------------------------------------------------------------------------
// Lexer.

#[test]
fn lexer_gives_tokens_with_byte_columns() {
    let toks = lex("pixel -3 4 #ff0000 // note\n{ }").unwrap();
    assert_eq!(toks.len(), 7);
    assert_eq!(toks[0].kind, TokenKind::Ident("pixel".to_string()));
    assert_eq!(toks[1].kind, TokenKind::Number(-3));
    assert_eq!(toks[1].span.column, 7);
    assert_eq!(toks[3].kind, TokenKind::Color("#ff0000".to_string()));
    assert_eq!(toks[3].span.len, 7);
    assert_eq!(toks[4].kind, TokenKind::LBrace);
    assert_eq!(toks[4].span.line, 2);
    assert_eq!(toks[6].kind, TokenKind::Eof);
    assert_eq!(toks[6].span.line, 3);
}

#[test]
fn lexer_reads_strings_and_crlf_lines() {
    let toks = lex("a \"b c\"\r\nd").unwrap();
    assert_eq!(toks[1].kind, TokenKind::String("b c".to_string()));
    assert_eq!(toks[2].kind, TokenKind::Ident("d".to_string()));
    assert_eq!(toks[2].span.line, 2);
}

#[test]
fn lexer_error_unterminated_string() {
    let e = lex("a \"bc").unwrap_err();
    assert_eq!(e.code, "E001");
    assert_eq!(e.column, 3);
}

#[test]
fn lexer_error_invalid_number() {
    let e = lex("pixel 99999999999 1").unwrap_err();
    assert_eq!(e.code, "E002");
    assert_eq!(e.message, "invalid number `99999999999`");
    let e = lex("-").unwrap_err();
    assert_eq!(e.code, "E002");
}

#[test]
fn lexer_error_unexpected_character() {
    let e = lex("pixel 1 1 @").unwrap_err();
    assert_eq!(e.code, "E003");
    assert_eq!(e.message, "unexpected character `@`");
}

// ---------------------------------------------------------------------------
// Parser errors.

fn parse_code(src: &str) -> String {
    parser::parse(src).unwrap_err().code
}

#[test]
fn parser_errors() {
    assert_eq!(parse_code("canvas 8 8\nsquare 1 1 A"), "E004");
    assert_eq!(parse_code("group g on 1 2 { }"), "E005");
    assert_eq!(parse_code("pixel 1 1 5"), "E006");
    assert_eq!(parse_code("strict_palette maybe"), "E007");
    assert_eq!(parse_code("canvas 8 8\n{"), "E008");
    assert_eq!(parse_code("canvas 8 x"), "E009");
    assert_eq!(parse_code("palette A #000000 }"), "E010");
    assert_eq!(parse_code("frame f { pixel 1 1 A"), "E011");
    assert_eq!(parse_code("animation a rate 6 { f }"), "E012");
}

#[test]
fn parser_keeps_statement_positions() {
    let doc = parser::parse("canvas 4 4\n\n  pixel 1 2 #000000\n").unwrap();
    assert_eq!(doc.statements.len(), 2);
    assert_eq!(doc.statements[1].span.line, 3);
    assert_eq!(doc.statements[1].span.column, 3);
}

// ---------------------------------------------------------------------------
// Validation.

fn validation_codes(src: &str) -> Vec<String> {
    let doc = parser::parse(src).unwrap();
    match validate::validate(doc) {
        Ok(_) => Vec::new(),
        Err(es) => es.into_iter().map(|e| e.code).collect(),
    }
}

#[test]
fn validation_errors_in_order() {
    assert_eq!(validation_codes("canvas 0 4"), vec!["E020", "E023"]);
    assert_eq!(validation_codes("canvas 4 4\npalette { A #000000 A #ffffff }"), vec!["E021"]);
    assert_eq!(validation_codes("canvas 4 4\npalette { A #00000 }"), vec!["E022"]);
    assert_eq!(validation_codes("pixel 0 0 #000000"), vec!["E023"]);
    assert_eq!(validation_codes("canvas 4 4\ngroup g at 0 0 { }\nframe g { }"), vec!["E024"]);
    assert_eq!(validation_codes("canvas 4 4\nrect 0 0 0 2 #000000"), vec!["E025"]);
    assert_eq!(validation_codes("canvas 4 4\ncircle 0 0 -1 #000000"), vec!["E026"]);
    assert_eq!(validation_codes("canvas 4 4\nanimation a fps 0 { }"), vec!["E028", "E029"]);
    assert_eq!(validation_codes("canvas 4 4\nanimation a fps 2 { f }"), vec!["E030"]);
}

#[test]
fn names_inside_frames_are_local() {
    let ok = "canvas 4 4\nframe a { group g at 0 0 { } }\nframe b { group g at 0 0 { } }\n";
    assert!(parse_and_validate(ok).is_ok());
    let dup = "canvas 4 4\ngroup g at 0 0 { }\ngroup g at 1 1 { }\n";
    let errs = parse_and_validate(dup).unwrap_err();
    assert_eq!(errs.len(), 1);
    assert_eq!(errs[0].code, "E024");
    let clash = "canvas 4 4\npalette { g #000000 }\nframe g { }\n";
    assert_eq!(parse_and_validate(clash).unwrap_err()[0].code, "E024");
}

#[test]
fn validation_defaults() {
    let v = parse_and_validate("canvas 3 2\n").unwrap();
    assert_eq!(v.canvas, (3, 2));
    assert_eq!(v.background, Rgba::transparent());
    assert!(!v.strict_palette);
}

#[test]
fn unknown_color_suggestion() {
    let src = "canvas 8 8\npalette { green #00ff00 }\npixel 1 1 gren\n";
    let errs = parse_and_validate(src).unwrap_err();
    assert_eq!(errs[0].code, "E012");
    assert_eq!(errs[0].message, "unknown color `gren`");
    assert_eq!(errs[0].suggestion, Some("green".to_string()));
}

#[test]
fn parse_and_validate_reports_parse_error_alone() {
    let errs = parse_and_validate("canvas 8 8\npixel 1 1 @\n").unwrap_err();
    assert_eq!(errs.len(), 1);
    assert_eq!(errs[0].code, "E003");
}

// ---------------------------------------------------------------------------
// Colors.

#[test]
fn color_literals() {
    assert_eq!(parse_color_literal("transparent"), Some(Rgba { r: 0, g: 0, b: 0, a: 0 }));
    assert_eq!(parse_color_literal("#0a0B0c"), Some(Rgba { r: 10, g: 11, b: 12, a: 255 }));
    assert_eq!(parse_color_literal("#01020304"), Some(Rgba { r: 1, g: 2, b: 3, a: 4 }));
    assert_eq!(parse_color_literal("#12345"), None);
    assert_eq!(parse_color_literal("#gg0000"), None);
    assert_eq!(parse_color_literal("red"), None);
    assert_eq!(parse_color_literal("#+f+f+f"), None);
    assert_eq!(parse_color_literal("#ff+fff"), None);
}

#[test]
fn palette_reads_back_last_color() {
    let mut p = Palette::new();
    let a = Rgba { r: 1, g: 2, b: 3, a: 4 };
    let b = Rgba { r: 5, g: 6, b: 7, a: 8 };
    p.insert("A".to_string(), a);
    p.insert("B".to_string(), b);
    p.insert("A".to_string(), b);
    assert_eq!(p.len(), 2);
    assert_eq!(p.get("A"), Some(b));
    assert_eq!(p.get("B"), Some(b));
    assert_eq!(p.get("C"), None);
    assert!(p.contains_color(b));
    assert!(!p.contains_color(a));
}

#[test]
fn resolve_prefers_palette_names() {
    let mut p = Palette::new();
    p.insert("A".to_string(), Rgba { r: 1, g: 2, b: 3, a: 4 });
    let expr = pix::ast::ColorExpr { raw: "A".to_string(), span: Span::new(1, 1, 1) };
    assert_eq!(resolve_color(&expr, &p, true).unwrap(), Rgba { r: 1, g: 2, b: 3, a: 4 });
    let lit = pix::ast::ColorExpr { raw: "#010203".to_string(), span: Span::new(1, 1, 7) };
    assert_eq!(resolve_color(&lit, &p, true).unwrap_err().code, "E013");
    let same = pix::ast::ColorExpr { raw: "#01020304".to_string(), span: Span::new(1, 1, 9) };
    assert_eq!(resolve_color(&same, &p, true).unwrap(), Rgba { r: 1, g: 2, b: 3, a: 4 });
    let t = pix::ast::ColorExpr { raw: "transparent".to_string(), span: Span::new(1, 1, 11) };
    assert_eq!(resolve_color(&t, &p, true).unwrap(), Rgba::transparent());
}

// ---------------------------------------------------------------------------
// Diagnostics.

#[test]
fn render_human_shows_line_and_carets() {
    let d = Diagnostic::new("E012", Span::new(2, 11, 4), "unknown color `gren`").with_suggestion("green");
    let out = d.render_human("a.pix", "canvas 8 8\npixel 1 1 gren\n");
    assert_eq!(
        out,
        "error[E012]: unknown color `gren`\n --> a.pix:2:11\n  |\n2 | pixel 1 1 gren\n  |           ^^^^\n  |\n  = help: did you mean `green`?\n"
    );
}

#[test]
fn render_human_without_backticks_or_line() {
    let d = Diagnostic::new("E023", Span::new(1, 1, 1), "missing `canvas WIDTH HEIGHT`");
    let out = d.render_human("x.pix", "");
    assert_eq!(
        out,
        "error[E023]: missing `canvas WIDTH HEIGHT`\n --> x.pix:1:1\n  |\n1 | \n  | ^^^^^^^^^^^^^^^^^^^\n"
    );
    let d = Diagnostic::new("E099", Span::new(0, 0, 0), "plain");
    assert_eq!(d.render_human("y", "ab\r\ncd"), "error[E099]: plain\n --> y:0:0\n  |\n0 | ab\n  | ^\n");
}
