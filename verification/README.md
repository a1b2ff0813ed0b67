# gltf_snapshot

Renders a glTF model off screen and saves the frame as an image.

- `src/` is the library, verified with Verus. It holds everything that is
  decided about a model and a frame: which texture a material shows, how
  primitives are put together and numbered, the walk over the scene, bounds,
  what is drawn and in which order, the descriptions of the GPU objects, the
  layout of buffers, and how a frame is read back. Coordinates appear in it as
  the bit patterns of single-precision numbers.
- `app/` is the program: arguments, files, the GPU, and floating-point
  arithmetic.
- `tests/` runs the library on concrete values.

The library rests on a few functions of the `image` and `bytemuck` crates. What
is taken for granted about each of them is stated at its wrapper, in
`src/images.rs` and `src/bytes.rs`.

`jpeg-decoder`, which `image` decodes JPEG files with, is named in `Cargo.toml`
only to switch on its feature `platform_independent`: with it, a file is decoded
to the same pixels on every machine.
