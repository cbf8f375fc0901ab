# maze_escape

The drawing and maze logic of a small ray-casting maze game, written in Verus
with contracts and proofs.

- `src/framebuffer.rs`: a row-major picture of 32-bit colours (`Framebuffer`)
  and its mathematical view (`FramebufferView`): single pixels, the current
  drawing colour, filled rectangles, and laws such as read-back after write.
- `src/line.rs`: lines drawn with Bresenham's error-term stepping, the exact
  sequence of points they visit, and their shape (ends, steps, bounding box).
- `src/drawing.rs`: maze cells and the minimap (backdrop, cells, markers for
  the player, monsters and finish line, and the view direction), with the laws
  that each cell shows as a square of its colour and that the player's pixel
  is always marked.
- `src/maze.rs`: reading a maze from text (lines, finish line at the last goal
  cell) and deciding which world positions are walls.
- `app/main.rs`: the window loop (minifb), file reading, and the
  floating-point scaling of world positions onto the minimap.
