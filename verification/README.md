# vyges_mpl

Hierarchical macro placement over a chip design database: clustering the netlist into a
physical hierarchy, shaping each cluster, annealing the clusters and then the macros into
place, pushing macro clusters to the core boundary, and committing the result.

This crate holds the integral building blocks of that flow, verified: the checks before
clustering, assembling each parent's placement problem, the annealer's packing, moves and
resizes, dead-space filling, notch scanning, boundary push, snapping and committing. The
annealing search loop itself and the walk that drives it over the hierarchy are not here,
neither in `src/` nor in `app/`: their cost and temperature schedule are floating point,
and they drive a clustering tree that this snapshot of the project does not include.

## Layout

- `src/` is the library, every function of it verified with Verus against its contract:
  the design model and module metrics (`design`), clusters and their tree (`cluster`,
  `merge`, `macroclass`, `netlist`, `ioclusters`, `regions`), feasibility checks
  (`feasibility`, `coverage`), shaping (`shaping`), the annealer's packing, moves and
  resizes (`anneal`, `rng`, `single`), and placement (`placement::*`: orientation, grid
  snapping, dead space, notches, boundary push, halos, assembling a parent's problem,
  commit), with the stage order,
  outcome and exit status (`pipeline`, `status`, `apply`).
- Where the reference behaviour rounds in single precision but maps integers to integers
  (sampled extents, relocations, the tiny-cluster threshold, canonical draws, random resizes),
  `single` states the rounding exactly on integers and the library computes it that way.
- `tests/` runs the library on concrete scenarios.
- `app/` is the command line, the database reader, and the floating-point terms of the cost
  (penalties, connection weights), which call into the library for everything integral.
