# fluid_renderer

A small software renderer for fluid simulations: frame buffers of ARGB pixels,
a test gradient, grayscale drawing of density grids (each cell a scaled block),
cell-center drawing of velocity colors, and a frame counter.

- `src/` is the library, verified with Verus:
  - `frame_buffer.rs`: the `FrameBuffer` trait, its pixel model and laws, and `HeadlessBuffer`;
  - `renderer/raster.rs`: `rgb`, `RendererCore` and its drawing functions with their proofs;
  - `utils.rs`: `FpsCounter` and the laws of a run of frames;
  - `window_state.rs`: window open/close decisions and the drawing loops' schedule;
  - `constants.rs`: shared constants.
- `app/` is the program around it: the minifb window, the density and velocity
  field traits, the floating-point color mapping (density to gray, HSV), and
  frame-rate arithmetic.
- `tests/` exercises the library.
