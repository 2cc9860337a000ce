# Slice

Slice cuts a static or a smaller variable font out of a variable font. This crate is its engine,
written in Rust and proved with Verus, together with two front ends.

## Layout

- `src/` is the library, `slice_core`. Its functions state what they return and are proved to do
  so, but for the small ones that call another crate: what those state is believed, and each says
  in its doc comment what that is.
  - Fonts as files: `sfnt`, `woff`, `woff2`, `tables`, `fields`, `font`, `bytes`.
  - Outlines and metrics: `glyphs`, `outline`, `overlaps`, `finalize`, `mvar`.
  - Instancing: `axes`, `statics`, `partial`, `stat`, `feature_vars`, `regions`, `varstore`, and
    `cff2` for fonts with CFF2 outlines.
  - The editors and what becomes of them: `names`, `bits`, `apply`, `job`, `editors`,
    `settings`, `recent`, `command`.
- `tests/` runs the library on fonts that the tests build themselves.
- `app/` is ordinary Rust around the library: the command line, the web interface, and the
  floating-point work (interpolation, path arithmetic), whose results the library takes as
  integers.

Contracts speak of mathematical models: a font is a sequence of tagged tables, a table is a
sequence of bytes, an outline is a sequence of contours. Reading and writing of OpenType tables is
left to `read-fonts` and `write-fonts`; what the library believes of them is stated in the doc
comment of each function that calls them.
