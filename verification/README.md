# ansidraw

An ANSI art editor and toolkit: an 80-column character canvas, CP437
text, the .ANS file format with SAUCE metadata, half-block pixel drawing,
TheDraw fonts, PNG and GIF output, PNG import, and a full-screen editor.

The library in `src/` is written in Verus; its functions are verified
against their `requires`/`ensures` contracts, except the few marked
`#[verifier::external_body]` that call the png and gif crates, the system
clock, `String::push` and `str::to_lowercase`: their contracts are trusted,
and each one's doc comment says what it claims of the code it calls.

## Layout

- `src/canvas.rs` — the canvas grid, its view as rows of cells, and the
  edits on it (write, grow, insert/delete lines, shift a row).
- `src/cp437.rs` — the CP437 code page in both directions.
- `src/ansi.rs`, `src/ansi_roundtrip.rs` — reading and writing .ANS files,
  and the laws that reading back what was written gives the canvas back.
- `src/sauce.rs`, `src/date.rs`, `src/decimal.rs` — SAUCE records, the
  calendar date they carry, decimal text.
- `src/halfblock.rs` — two pixels per cell with the half-block glyphs:
  pixels, rectangles, dithering, lines.
- `src/render_png.rs`, `src/animate.rs` — raster rendering with the VGA
  font, PNG encoding, the progressive "reveal" animation and its GIF plan.
- `src/import_image.rs` — PNG decoding and quantizing a picture to cells.
- `src/tdf.rs` — TheDraw font files: parsing, measuring, stamping text.
- `src/tools.rs` — the operations the agent tool server offers.
- `src/editor.rs` — the editor's state and what every key and mouse event
  does to it: movement, typing, undo/redo, block selection and stamping.
- `src/dialogs.rs` — the editor's dialogs as state machines (SAUCE form,
  command palette, character picker, quick palette, prompts).
- `app/` — the executable: terminal front end, file I/O, the JSON-RPC tool
  server, `ans2png` and `ans2gif`, and the float-based ellipse.
- `tests/` — tests of the library on concrete values.

## Running

`ansidraw [file.ans]` starts the editor; `ansidraw mcp`,
`ansidraw ans2png <in.ans> [out.png] [scale]` and
`ansidraw ans2gif <in.ans> [out.gif] [scale] [cells-per-frame]` run the
other front ends. Raster output reads the 8x16 VGA font bitmap from
`ANSIDRAW_FONT` or `assets/vga8x16.bin`; the editor reads its F-key
character sets from `ANSIDRAW_CHARSETS` or `assets/charsets.txt` (one set
per line: a name, a tab, ten glyphs).
