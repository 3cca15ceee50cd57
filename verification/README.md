# elfvis

Size treemaps of firmware ELF images: what consumes flash, by source
directory, file and symbol, and how two builds differ.

- `src/` is the verified library (Verus). It reads the image's sections and
  symbols through `object`, the line tables and variable entries through
  `gimli`, attributes each flash symbol to a source file, builds the size
  tree, clusters unplaced symbols by name prefix, and compares two images.
  The calls into the two crates sit behind small trusted wrappers in
  `src/elf.rs` and `src/dwarf.rs`, whose answers are named as functions of
  the image's bytes; the attribution is proved against those names, so its
  contract says which ranges each image's DWARF gives and which symbol gets
  which source. Laws about the built trees live in `src/tree_sizes.rs`,
  `src/tree_groups.rs`, `src/tree_leaves.rs` and `src/tree_shape.rs`, and about comparisons in `src/compare_self.rs`.
- `app/` is the browser front end (wasm-bindgen, web-sys): file loading,
  the floating-point treemap layout, colours and canvas drawing.
- `tests/` exercises the library, including images written with
  `object::write` and `gimli::write`.
