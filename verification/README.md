# raytracer

A small path tracer (spheres, quads, boxes, fog, Perlin and checker textures,
emissive materials) that renders either into a web page through a worker or
into a native window.

- `src/` is the verified core: the integer logic of rendering.
  - `camera`: buffer positions of pixels, the scanline order in which samples
    are rendered (first the bottom right pixel, which sizes the canvas), and
    the sample counts of random-order rendering.
  - `components::noise`: Perlin lattices — shuffled permutation tables and the
    lookup of the gradient at an integer lattice point — and shared handles.
  - `components::texture`, `components::material`: the checker cell parity and
    the emissive material.
  - `worker`, `display`: the messages between the render worker and the
    window, the row-by-row sweep over the image, and the RGB buffer of the
    window.
  - `batch`: packing of pixels into the words and fixed-size messages that the
    web page reads.
- `app/` holds the floating-point geometry and shading, the scenes, the
  WebAssembly entry point and the native window; it calls the core for every
  decision listed above.
- `tests/` exercise the core on concrete values.
