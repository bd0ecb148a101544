# joeboids

A small boids (flocking) library. The verified part, in `src/`, holds what
the flock does with whole numbers:

- `bits`: one-bit-per-pixel frame buffers and their packing into bytes for
  PNG output;
- `line`: Bresenham line and triangle drawing into such a buffer, with its
  laws (the same pixels from either end, every pixel inside the end points'
  rectangle and within half a pixel of the ideal line);
- `grid`: the grid of cells that buckets boids by position and finds the
  boids in and around a cell;
- `buffers`: the double buffer that holds the current and the next state of
  the flock.

`app/` is the renderer program: the `f32` geometry of the boids (vectors,
angles, the steering rules), randomness, parallel stepping, command-line
arguments and PNG files.
