# burin — rendering layer, verified

The rendering layer of the Burin GUI framework: the data structures,
algorithms and decisions behind its two backends (wgpu on the GPU,
tiny-skia + softbuffer on the CPU), written in Verus with their contracts
proved. Floating-point geometry, shaping and rasterisation by outside
crates, and window/GPU plumbing stay outside the library; the library
takes their results as plain values (device-pixel rectangles, alpha
planes, glyph counts, z indices) and hands plain values back.

## Layout

- `src/` — the verified library.
  - Text: `text` (char/byte/expanded-index conversions, cursors),
    `cursor` (cursor placement over laid-out rows).
  - Damage and geometry: `geometry`, `damage`.
  - CPU frame: `pixel` (pixel formats, blending, presenting, clearing,
    gradient strips), `composite` (pixmap blits, spans, colourising),
    `blur`, `backdrop`, `shadow` and `shadow_cache` (drop shadows and
    their nine-patches), `atlas` (glyph atlas), `glyph_cache`,
    `text_cache`, `cpu_image`, `mipmap`, `draw_order`.
  - Resources: `resource` (decoded-image cache, icons), `image_registry`,
    `downscale` (integer results of the binary64 scalings of oversize
    images and box-filter spans), `ssr` (PNG output of headless renders),
    `path` (SVG path tokens), `svg` (the SVG path command grammar).
  - GPU: `gpu` (bind-group layouts and bind groups), `pipeline` (vertex
    layouts, pipeline plans and the descriptions handed to wgpu), `shaders`, `gpu_state` (target/buffer/cache
    bookkeeping, texture upload layout), `gpu_passes` (pass schedule),
    `paint_order` (z order of children).
  - `grid`, `strings` — shared helpers.
- `tests/` — tests run against the compiled library with the outside
  crates linked.
- `app/` — ordinary Rust around the library: error types with `Display`
  and serde derives, the thread-local image registry, and the reading of
  SVG path numbers and commands into `kurbo` paths.
