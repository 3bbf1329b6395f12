# pdr

The logic of PDR, a desktop PDF reader, as a verified library.

- `src/` — the verified library: spread layout and navigation, gray-image
  corrections (histograms, percentiles, contrast stretching, thresholding,
  level analysis), the render cache's decisions, the rendering thread's
  request handling, the table of contents, the recent-files list and its text
  format, and `file://` URL decoding. Every public function carries a
  contract; the laws that relate several functions are public proof
  functions next to them.
- `tests/` — tests on concrete values.
- `app/` — the program around the library: the egui window, the pdfium
  rendering thread, file access, and the image steps that compute in
  floating point (Otsu's threshold, the unsharp mask, the level table).
  `pdr smoke <pdf> [page] [none|contrast|binarize]` renders one page headless
  to a PNG; `pdr smoke <pdf> toc` dumps the outline and
  `pdr smoke <pdf> bench [width] [count]` times page rendering.
