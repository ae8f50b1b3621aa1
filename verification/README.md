# cantucci

A viewer for distance-estimated 3D shapes such as the mandelbulb, together with
the front end of a small language for shape definitions.

The library in `src/` is verified with Verus:

- `text`, `pos`, `filemap`: UTF-8 positions, spans, and source files with
  their line starts.
- `token`, `lexer`, `load`: tokens of shape definitions, the lexer, the
  tokens handed to the parser, and the reports for parse failures.
- `report`, `layout`: reports about the source and how they are laid out on
  the terminal (header lines, word wrapping, snippets).
- `grid`, `surface_nets`, `dist_map`: grid tables, the combinatorial part of
  the surface nets mesh generation, and lookup tables of distances.
- `event`, `fps`, `image`, `math`: input event handling, frame counting,
  pixel images, clamping.

`app/` holds the program: window and event loop, floating point geometry of
the shapes and meshes, terminal output.
