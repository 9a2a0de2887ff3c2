# framer

A verified library for authoring light-frame building models: levels, walls
with openings and dimensions, wall joins, rooms, roofs, ceilings and floor
decks, the material and construction-system catalog, layered standards packs,
and imports from versioned libraries. The code in `src/` is verified by Verus
against the contracts written on its functions and types.

Layout:

- `src/` — the library:
  - `units`, `element`, `text`, `order`: exact lengths in ticks (1/16"),
    element ids, string order and deterministic sorting.
  - `wall`, `constraints`, `linalg`: walls, openings and dimension
    constraints; exact rational solving and over-constraint detection.
  - `model`, `joins`, `extend`, `cathedral`, `project`: the building model,
    its validation and structural edits (moving and extending walls,
    reconciling joins, cathedral roof planes), and the saved project document.
  - `corners`: wall spans at corner laps and tees, for studs and for the two
    members of a double top plate.
  - `footprint`, `roofs`: a level's perimeter loop; roof fields joined edge to
    edge, checks on a given gable wall profile, and eave bearing depth.
  - `polygon`, `topology`, `surfaces`: exact polygon predicates, ear-clipping
    triangulation, point-in-polygon; roof planes, ceilings, floor decks.
  - `material`, `system`, `library`, `standards`, `resolve`, `import`:
    the catalog, standards packs and their resolution, library documents and
    importing from libraries (content hashes via BLAKE3).
- `tests/` — tests against the compiled library.
- `app/` — JSON files through serde, the library search path on disk, and
  importing from a located library.
