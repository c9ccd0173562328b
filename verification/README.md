# rusty_gif quantizer

Content-routed colour quantization of RGBA frames, verified with Verus.

- `src/census.rs` — the colour census: distinct colours with their pixel
  counts in `(r, g, b, a)` order, and the uniqueness of a census.
- `src/route.rs` — routing rules (exact palette, histogram k-means, NeuQuant
  on the capped unique-colour stream or on the pixels) and the parser of
  policy settings.
- `src/kmeans.rs` — median-cut initialisation and frequency-weighted k-means
  over the histogram, in exact fixed-point arithmetic.
- `src/neuquant.rs` — the contracts under which the `color_quant` NeuQuant
  network is called.
- `src/quantize.rs` — the indexed frame each route produces.
- `app/lib.rs` — the environment switches (`RUSTY_GIF_Q_POLICY`,
  `RUSTY_GIF_TRACE`) around the library.
