# render_core

The bookkeeping of a small GPU user-interface renderer, verified with Verus.

`src/` is the verified library:

- `layer` — layer ids and the default background, content and overlay layers.
- `batch` — `LayeredBatch`, the rectangle and glyph batches: instances grouped
  by layer, reached through stable slot-map handles, removed by moving the
  last instance of the layer into the gap, and packed layer by layer into one
  instance buffer whose per-layer ranges are recorded for drawing.
- `image_batch` — `ImageBatch`: the same without layers, packed sorted by depth.
- `sort` — a verified stable sort by key.
- `draw_manager` — the ordered, duplicate-free list of layers and the frame
  plan: which buffers to update and which range to draw for every layer.
- `texture_manager` — where each texture lives in a padded atlas that
  doubles until a texture fits.
- `slots`, `atlas` — the trusted contracts of `slotmap` and `guillotiere`.
- `text` — the handle list of a piece of laid-out text.

`app/` is the program around it: the window and event loop (winit), the GPU
side of every batch and of the atlas (wgpu), text shaping (cosmic-text), the
floating-point instance types and the component tree.
