# vyges-pad

IO pad and bump placement: the ring of IO cells around the die edge, the cells placed into it, the
bumps over the die's face, and the redistribution-layer routes between the two.

The library in `src/` is verified with Verus. Every function states in its contract what it returns,
over whole numbers, sequences and the views of its types; laws that relate several functions stand
beside them as public proof functions named `law_..`.

- `orient` - the eight orientations and how they compose.
- `ring`, `place` - the ring's rows, and a cell at a site of one.
- `bump`, `bond`, `assign` - bumps, bond pads, and the net a bump carries.
- `clearance` - whether a cell can go somewhere.
- `pads`, `along`, `spread` - many pads along one row.
- `fill`, `abut` - what is left of a row, and what touching connects.
- `rdl` - the router: its grid, graph, search, and rip-up.
- `options`, `design`, `command`, `report` - what the command line asks for, what a design holds, what
  each command decides, and what it says.
- `single`, `rounding` - single-precision arithmetic on the bits of a number, where rounding decides
  a result.
- `geom`, `lists`, `sort`, `text` - what the others are built from.

`app/` is the command around the library: it reads and writes the design database, converts microns,
and prints. `tests/` run the library on concrete values.
