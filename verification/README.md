# lifewall

A Game of Life wallpaper for the browser, built around a verified engine.

- `src/` is the engine, verified with Verus:
  - `universe/`: Conway's rules (B3/S23) as a step on mathematical sets of
    cells, and `SparseUniverse`, which stores only live cells, keeps the last
    `MAX_HISTORY` generations for stepping back and replaying, and tracks
    each cell's age. `laws.rs` proves what holds across calls.
  - `pattern.rs` and `text.rs`: reading RLE and plain-text pattern files,
    and centring a pattern on the origin.
  - `camera.rs`: pan and clamped zoom.
  - `renderer/` and `raster.rs`: screen geometry and the incremental RGBA
    renderer, which repaints only the blocks of cells that were born or
    died and reports the dirty rectangle.
  - `input.rs` and `controls.rs`: keyboard state as bit flags, and what a
    frame's keys ask for (pan, zoom, pause, speed, HUD toggle, single steps
    while paused, reload).
  - `collections.rs`: the `rustc_hash` collections the engine keeps cells
    in, with the contracts of the methods it calls.
- `app/` is the browser shell (wasm-bindgen, web-sys): DOM setup, the
  animation loop, frame timing, keyboard listeners, pattern fetching, the
  HSL age colours and the HUD.

Patterns are fetched from `patterns/`; the file `patterns/index.txt` lists
the pattern file names, one per line.
