# daily_challenges

A verified library for three small programs:

- `thue_morse`: the Thue-Morse sequence, computed from the parity of the ones
  in each index, with proofs of its recurrence and of its doubling by
  complement.
- `langton`: a Langton's ant with one tile kind per instruction letter, on a
  board that wraps around; the run of the ant is specified move by move, and
  the board can be rendered as terminal text.
- `avatar`: symmetric avatars (a four-fold windmill or a mirror) painted from
  random colour choices seeded by a keyed hash of a name, and written as
  portable pixmaps; the symmetry of every picture, and that the orbits of
  each pattern paint its square exactly once, are proved.

`app/main.rs` is the command-line front end: argument handling, printing and
file output.
