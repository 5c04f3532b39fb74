//! A deterministic pixel-art renderer for the small `.pix` language:
//! lexing, parsing, validation, formatting and rendering, each with its
//! contract proved.

pub mod text;
pub mod diagnostics;
pub mod lexer;
pub mod ast;
pub mod parser;
pub mod color;
pub mod validate;
pub mod fmt;
pub mod canvas;
pub mod render;
pub mod export;
pub mod pipeline;
pub mod laws;
pub mod acceptance;
pub mod words;
pub mod roundtrip;
