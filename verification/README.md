# procedure_crafter

The model behind a block-based code editor: blocks linked into chains by
identifier, inputs plugged into blocks, translations read from a table, and the
integer parts of drawing.

- `src/` is the library, verified with Verus.
  - `internal/`: the current block model (`Block`, `WorkSpace`, `Camera`,
    `ID`), the operations that link and unlink blocks, and the reading of
    translation tables (`svg.rs`).
  - `custom/`, `custom_id.rs`: the first version of the block model, kept beside
    the current one, and the input slots both use.
  - `logic/`: finding the closest input, choosing the closest candidate by
    distance keys, and hit tests against holes.
  - `render/`: brightness, pixel blending, and the midpoint circle with its
    eight-way mirrored pixels.
  - `font.rs`: parsing the bytes of a font file with `fontdue`, behind one
    trusted call.
  - `text.rs`, `coordinates.rs`: splitting names at `{}` and moving coordinates
    between the signed and unsigned ranges.
- `app/` is the program around it: the window, reading files, and everything
  measured in floating point (layout widths, distances, colour models).
- `tests/` runs the library on concrete cases.
