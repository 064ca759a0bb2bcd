# torus

The world logic of a small sandbox game in which the player walks around
planets shaped like rings, flies between them in rockets, and digs and builds
with blocks.

- `src/` is the library, verified with Verus: block kinds and the chunk file
  format, terrain generation, the set of chunks kept loaded around the viewer,
  block edits, the solid cells a moving rectangle is tested against, and the
  inventory.
- `app/` is the game itself (built on macroquad): the window, input, drawing,
  file access, and the floating-point motion, collision response and the
  bending of each planet onto a disk.
- `tests/` exercises the library on concrete worlds.
