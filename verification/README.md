# lifegrid

A Game of Life on a torus whose dying cells dim and fade over two
generations, rendered into an RGBA pixel buffer, with pattern stamps
decoded from the RLE format.

- `src/` is the verified library:
  - `universe.rs`: cells, the universe, a generation (`tick`), rendering;
  - `render.rs`: what a rendered canvas holds, and the proof that, when
    the grid fits the canvas, each pixel shows the color of its cell;
  - `rle.rs`: decoding RLE text into stamps, turning and mirroring them;
  - `patterns.rs`: the pattern table and the weighted pools it is drawn from;
  - `rng.rs`: the xorshift64 generator that seeds a universe;
  - `arith.rs`: facts about row-major indices.
- `app/` is the WebAssembly wrapper: random seeding, the floating point
  draws, and the raw pointers JavaScript reads.
- `tests/` runs the library on concrete values.
