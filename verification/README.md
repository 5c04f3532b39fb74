# pix

A deterministic pixel-art renderer for the small `.pix` language, written in
Verus: the lexer, parser, validator, formatter and renderer carry contracts
that state their results exactly, and Verus proves them.

## Layout

- `src/` — the verified library.
  - `lexer`, `parser`, `ast`: source text to tokens to statements, each
    against a spec function (`spec_lex`, `spec_parse`).
  - `color`, `validate`: color literals, palettes, suggestions for unknown
    names, and the two validation passes.
  - `fmt`: the canonical layout of a document (`document_text`).
  - `canvas`, `render`: drawing on a canvas (pixels, lines, rectangles,
    discs, flood fill, groups) and rendering documents, frames and
    animations.
  - `export`: scaling a canvas into RGBA bytes through an `image` buffer and
    laying out sprite sheets.
  - `pipeline`, `laws`, `acceptance`, `roundtrip`: the properties that span
    several functions — what the lexer and parser hand on is always
    validatable and formattable, validation accepts exactly the documents
    `doc_accepted` describes, validated documents and their animations
    render, drawing clips and keeps the canvas size, lines are paths, groups
    move their children, and formatting is idempotent (the formatted text
    parses back to the same document, positions aside).
- `tests/` — the tests, run against the compiled library.
- `app/` — the command-line program: argument handling, reading sources,
  writing PNG and JSON files.
