# lifesaver

A fullscreen Conway's Game of Life display, split into a library whose
behaviour is proved with Verus and a thin Macroquad program around it.

## Layout

- `src/life.rs` — the toroidal board (`Life`), Conway's B3/S23 step with cell
  ages and change counts, and the xorshift seed generator (`Rng`).
- `src/activity.rs` — the rolling window of per-generation change counts and
  the decision to replace a seed (`should_reseed`).
- `src/shapes.rs` — classification of live cells: connected components found
  by a depth-first search over wrapped neighbours, still-life detection with
  the engine's own next-state rule, recognition of blinkers, toads, beacons,
  gliders and lightweight spaceships in any orientation, and isolated
  spaceships.
- `src/frame.rs` — what each displayed frame does: run the generations that
  are due and replace the seed when it is due.
- `src/screen.rs` — board dimension bounds and the resize hysteresis.
- `src/render.rs` — which cycling accent an unrecognised cell takes.
- `src/options.rs` — which command-line arguments are flags and which are
  option values.
- `app/` — the program: window configuration, reading the clock, the input
  devices and the viewport, parsing option numbers, and drawing.
- `tests/` — scenarios for every module.

Each public function states its result exactly in its `ensures` clause over
the mathematical models (`Board`, `Activity`, `ArgumentsView`); the `lemma_`
proof functions state the library's laws, such as: coordinates wrap, dead
cells have age zero, a step reports a change exactly when the layout
changes, every live cell gets a label and no dead cell does, and live
neighbours share a label.
