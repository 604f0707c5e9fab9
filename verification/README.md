# parley

Paragraph layout: text with styles and inline boxes is collapsed, given bidi
levels, assembled from shaped runs and broken into lines. Verus proves every
function of `src/` against its contract, except the wrapper `analyze_bidi`,
which calls the bidi analysis of `parley_engine`.

- `src/resolve/` builds styled text from a tree of spans and collapses white
  space.
- `src/analysis/` resolves the bidi levels of text and inline boxes.
- `src/builder.rs` puts boxes in text order and resolves styles per character.
- `src/layout/` holds the layout, its intrinsic widths and the line breaker.
  `laws.rs`, `edges.rs`, `measured.rs`, `flow.rs`, `visual.rs`, `extent.rs`,
  `plain_lines.rs`, `coverage.rs`, `box_lines.rs` and `counted.rs` state what
  holds of measuring and breaking as a whole.
- `src/scalar.rs` is the arithmetic of coordinates. `Fixed` is a fixed-point
  implementation; `app/` adds one on `f32`.
- `app/` connects the library with the shaper and with floating point.

Shaping stands between building and breaking: `build` prepares the text, the
shaper's result is put into the layout, and `assemble_layout` and
`finish_layout` complete it.
