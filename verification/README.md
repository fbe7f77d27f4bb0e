# webarkit_kpm

Verified core of a FREAK key-point matching layer, written in Verus.

`src/` is the library; every function in it carries a contract that Verus
proves, except the four wrappers in `byte_order`, whose contracts state
what the `byteorder` calls they make do:

- `clustering` — Hamming distance of 96-byte descriptors, the linear
  congruential generator and sample shuffle, k-medoids assignment and the
  binary hierarchical clustering index (build and query), with laws on the
  shape of a built tree, that its leaves partition the indexed positions,
  that building is deterministic, that a larger pop budget only adds
  candidates and that a query returns no index twice.
- `matcher` — feature stores and the closest / second-closest descriptor
  search under the Hamming distance.
- `keyframe` — a frame's features, the storing of detected features and
  the index built over them.
- `hough` — bin numbering of the 4D similarity-transformation grid, the vote
  map and the winning bin; feature points and matches.
- `homography` — the generator and shuffle that draw homography hypotheses,
  3x3 products and the trace-free Lie-algebra matrix.
- `gaussian_pyramid` — octave counts, pyramid size checks and the integer
  horizontal and vertical passes of the binomial filter and the whole-image
  filter sums they compose.
- `image_resize` — down-sampling of grayscale reference images.
- `pyramid` — the 8-bit box-filter image pyramid.
- `ref_data_set` — assembling, merging and renumbering reference data sets
  and their little-endian binary format, with a load-after-save law.
- `math` — small vector and matrix helpers on integers and bit strings.
- `byte_order` — little-endian words, read and written through `byteorder`.

`app/` holds what stays outside the proofs: file I/O, error types with
`Display`, and the floating-point steps of matching (the ratio test) and of
Hough voting (mapping a transformation to its bin). `tests/` runs the
library on concrete values.
