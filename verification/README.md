# k1fix

Diagnose, repair and auto-fit triangle meshes (STL, 3MF, faceted STEP) for
Creality K1 / K1C / K1 Max printers.

## Layout

- `src/` — the verified library (Verus). It holds everything that works on
  the index structure of a mesh and on file contents: edge incidence,
  boundary loops, connected components, the index-level repair steps
  (weld remapping, degenerate and duplicate removal, non-manifold split,
  winding orientation, hole patching, speck removal), the diagnostic checks
  that count edges, shells, triangles and duplicates, severities and exit
  codes, faceted STEP parsing and triangle assembly, format detection,
  profile selection, the order of the fix pipeline, and an in-memory
  filesystem. Contracts state what each function returns; proof functions
  state the laws that relate them.
- `app/` — the `k1fix` command-line program around the library: vertex
  positions and all floating-point geometry (areas, volumes, welding
  tolerance, ray casts, self-intersection, hole triangulation, auto-fit),
  STL/3MF encoding, the real filesystem, reports and the CLI.
- `tests/` — tests of the library.

## Exit codes

| Code | Meaning |
|------|---------|
| 0 | clean / info only |
| 1 | warnings |
| 2 | errors / does not fit the build volume |
| 3 | I/O, parse or profile failure |
