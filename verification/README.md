# flowmaid

A small diagram engine. The library under `src/` is written in Verus: every
function states in its contract what it returns, and Verus proves it.

What it does:

- `advance`: swimlane diagrams. They are read from JSON or from a
  line-oriented notation, placed, routed, hit-tested, and written as JSON and
  SVG.
- `layout`: the layered layout of flowcharts: cycles, layers, crossings,
  alignment, coordinates, and the widths of labels.
- `fold`: serpentine layout of long chains.
- `gitgraph`, `architecture`, `journey`, `mindmap`, `class`, `er`: the
  geometry and the SVG of these kinds of diagrams.
- `emit`: flowcharts as text.
- `md`: diagrams in Markdown documents. The Markdown itself is read and
  converted by the `markdown` crate.
- `json`, `num`, `double`, `fraction`, `wide`, `text`, `markup`, `peel`,
  `tangent`: what these are built on.

Lengths are whole numbers of grid units, 64000 to the pixel, so that
thousandths of a pixel and their halves are exact. They reach to ±2^54
units, as far as sums over all of them fit a machine integer; a length that
would leave that range stays at its end. Numbers are read and shown as
doubles are.

Statements about several functions are public proof functions whose names
start with `law_`.

`app/` is the command line around the library. `tests/` runs the library on
concrete diagrams.
