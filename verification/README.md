# billiard

Two frictionless 2D billiards started from the same initial conditions up to a
tiny perturbation of each ball's position; watching where their histories part.

- `src/` — the verified library (Verus):
  - `grid.rs`: the side of the square starting grid (`ceil(sqrt(count))`) and the
    cell of each ball, with proofs that every ball fits in the grid and no two
    share a cell;
  - `collision.rs`: the search for the earliest collisions of a time step, with
    proofs that no candidate that counts is earlier, that every collision kept
    happens at the time found, and that every candidate at that time is kept;
  - `simulation.rs`: the two billiards and the run state (starts paused,
    toggled by the space key).
- `app/` — the program: the floating-point physics (times of impact, elastic
  bounces, random headings) with nalgebra and rand, and the bevy window.
- `tests/` — tests of the library.
