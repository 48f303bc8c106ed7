# spritefusion-pixel-snapper (verified library)

Snaps wobbly pixel art onto a clean, evenly spaced grid and recolours it with
a palette. The crate is written in Verus: the library under `src/` carries
`requires`/`ensures` contracts that Verus proves.

Layout:

- `src/raster.rs` — the RGBA image model, decoding and PNG encoding through
  the `image` crate, dimension checks.
- `src/color.rs` — squared RGB distance, nearest palette colour, palette
  mapping and centroid snapping, with their laws (idempotence, palette-only
  output).
- `src/palette.rs`, `src/text.rs` — hex colour parsing, palette listings
  (inline and Lospec `.hex`), palette resolution and summaries.
- `src/quantize.rs` — the quantization decision (palette snap or clustering).
- `src/grid.rs` — cut sanitation, sorting, median peak spacing.
- `src/resample.rs` — majority resampling of grid cells and its laws.
- `src/cli.rs`, `src/batch.rs` — command-line reading and batch decisions.
- `app/` — the program around the library: argument and file handling,
  batch processing with `rayon`, the WebAssembly entry point, and the
  floating-point stages (k-means clustering, edge profiles, grid walking).
