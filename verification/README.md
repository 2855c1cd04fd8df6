# kaleidomo_core

Core of a kaleidoscope renderer for still images and videos, on the CPU or on
a GPU through `wgpu`.

The crate is split in two:

* `src/` is the verified library: the integer, byte-buffer and scheduling
  logic, each function with a contract proved by Verus:
  supersampling limits, render canvases and the box downsample (`lib.rs`, `rlib.rs`), the order
  of a video export (`rlib.rs`), seeding, cell hashing, hue banding and the
  connected-component segmentation of the recoloring (`preprocess.rs`), mode
  selection and the mip pyramid of the enhancement stages, each level resized
  from the one before (`enhancement.rs`),
  and the GPU backend's buffer sizes, tiling of source and output textures,
  row unpadding and frame-slot scheduling (`backends/`).
* `app/` is the renderer around it: settings with their serde forms, the
  floating-point mapping and colour mathematics, the `wgpu` device code and the
  export loops that drive the library's state machines. The CPU mapping is
  scalar only (no SIMD register backends), and the browser (`wasm32`) engine
  is not included.

`src/` calls `sha2` and `rand_chacha` through two small trusted wrappers in
`preprocess.rs`, and `image`'s triangle-filter resize through one in
`enhancement.rs`; their contracts name the results rather than restate those
algorithms.
