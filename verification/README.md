# tsp_anneal

Simulated annealing with 2-opt moves for the Euclidean travelling salesman
problem on TSPLIB instances.

- `src/` is the verified library: `text` (white space, trimming, tokens,
  `usize` notation), `scanner` (token reader), `tsplib` (the file format),
  `tour` (the initial tours: along increasing x, or nearest neighbour
  built step by step; the 2-opt move and its laws), `cooling` (the
  discrete decisions of the cooling schedules).
- `app/` is the program: command line, files, threads, logging, the
  floating-point distances, scores and temperatures, and the visualizer.
- `tests/` runs the library on concrete inputs.
