# keygen

Search for good letter layouts on a 26-key, letters-only keyboard.

`src/` is the library, verified with Verus:

- `geometry`: hand, finger, row, column and base cost of every key.
- `layout_26`: layouts, their validation and parsing, swaps, shuffles and
  drawing.
- `symmetry`: left/right mirror images and the canonical key that a layout
  shares with its mirror image.
- `corpus`: normalisation of a text and its quartad, letter and length
  counts.
- `constraints`: hard constraints (words that must not be typed with one
  hand).
- `cost`: the discrete penalty events of a quartad on a layout, and the
  split of letter presses between the hands; with the mirror laws.
- `results`: the capped, de-duplicated, ranked repository of best layouts
  and the corpus fingerprint.
- `merge`: whether records of different corpus/config fingerprints may be
  merged.
- `events`: reading the accepted moves back from the workers' event logs.
- `duration`: durations given on the command line.
- `coordinator`: the interrupt hook and the time and iteration stop rules of
  a parallel run.

`app/` is the command-line program around it: the real-valued penalty
weights and scores, the annealing schedule, the threads of a parallel run,
and file input and output.
