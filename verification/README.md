# icu_tool

The logic of an image viewer and converter, written in Verus and proved
against its contracts: the workspace of images and glyphs (ids, selection,
grouping of numbered frames into animations), glyph outline editing with
bounded undo, export planning (which images an export writes and under which
names), animated GIF, APNG and WebP writing, a stored ZIP writer, charset
parsing for font baking and the command line's value parsers.

## Layout

- `src/` — the verified library, one module per concern:
  - `workspace`, `entries`, `grouping`, `autogroup`, `runs`, `groups`,
    `idset`, `seq_facts`: the workspace model, its well-formedness invariant
    and the operations on it (insert, select, remove, group, ungroup,
    automatic sequence grouping and the runs of numbered frames it finds).
  - `image_item`, `decode`: decoded images and animations, RGBA pixels and
    bytes, and decoding animations with the `image` crate.
  - `glyph`: glyph outlines, their editable nodes and the edit history.
  - `export`, `zip`, `webp`: export planning, safe relative output paths,
    unique names, and the GIF, APNG, WebP and ZIP writers.
  - `sequence`, `paths`, `inputs`: sequence keys of numbered file names,
    path pieces, and the order input files are read in.
  - `charset`, `cli_values`, `convert_options`, `formats`, `params`,
    `panels`: values read from the command line and the panels.
  - `text`, `fmt`, `bytes`, `seqs`: characters, decimal text, little-endian
    bytes and sequence facts the rest builds on.
- `tests/` — tests of the library, run with the real `image` and `png`
  crates linked.
- `app/` — the `icu` command: argument parsing with clap, reading and
  writing files, and printing. Its decisions are the library's.

Calls into the `image` and `png` crates sit behind a few trusted wrappers,
each documented where it is declared; everything else is verified.
