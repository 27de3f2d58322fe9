# square_wheel

The integer core of a software renderer and its host, proved with Verus.

- `src/` is the verified library: the console and its command processing, the configuration
  tree, draw ordering, the IQM and MD3 model file readers, pixel buffers (upscaling, texture
  resizing), the fire and turbulence texture effects, the size checks of the water effect, the
  tiling and blending of layered textures, the texture animation scheduler, the polygon
  rasterizer (band walking and perspective-correct span filling), and the host's input and frame
  decisions. Each public function states what it returns or changes. Laws that relate several
  functions stand as public proof functions where they can be stated over values (the
  configuration tree, command queues, draw order, texture scheduling, the span fill), and in the
  contracts of the functions where a type keeps an invariant (the capacity of the object sorter,
  the fresh identifiers of the command queues).
- `tests/` runs the library on concrete values.
- `app/` is the command-line program around it: arguments, files, standard input, screenshots,
  and the floating-point parts (plane equations, model matrices, MD3 normals and texture
  coordinates, float texts of the configuration written back as JSON).

The outside crate `rand` is called from the library through a few trusted wrappers in
`src/generative_texture_effects_common.rs`, and `serde_json` reads configuration text and writes shown
configuration values through trusted wrappers in `src/config_value.rs`; `app/` uses `serde` and `serde_json` to write the
configuration back.
