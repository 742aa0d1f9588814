# rapidraw_core

The decisions of a RAW photo editor, written in Verus: how focus stacks and panoramas
are put together, how previews and exports are planned, where sidecar files lie, and
what a RAW file has to show before it is accepted. Each function states what it
returns or changes, and the proofs are checked with the code.

* `src/` is the library. Pixels are opaque values: it decides which source a pixel is
  taken from, where a seam runs, which region is rendered. Quantities that the editor
  measures in floating point reach it as integers that order in the same way, as
  fixed-point costs, or as ratios. Calls into other crates stand behind small functions
  whose contracts are stated and not proved; their doc comments say what is claimed.
* `tests/` runs the library.
* `app/` is the editor around it: projections, filters and colour in floating point,
  RAW development, and files.

The parts of the library:

| modules | subject |
| --- | --- |
| `raster`, `grid`, `bounds`, `window`, `order`, `text`, `paths` | images, boxes, running windows, ordered keys, texts and paths |
| `masks`, `flood`, `fill`, `crop`, `resample` | binary masks and their sizes |
| `features`, `descriptors`, `matching`, `ransac`, `registration` | finding what two images share |
| `seam_path`, `seam_cut`, `seam_band`, `seam_distance`, `panorama` | seams between images |
| `focus_layer`, `focus_stack`, `ownership`, `render_layer`, `layer_shift`, `shift_search`, `color_samples`, `exposure`, `background` | focus stacking |
| `mosaic`, `mosaic_ownership`, `tiles` | mosaics of any size |
| `render_strategy`, `preview_protocol`, `raw_processing`, `sidecar_storage`, `acceptance` | rendering, previews, development, sidecars, acceptance |
