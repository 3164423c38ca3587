# myroute

A car router for OpenStreetMap data whose routing core is verified with Verus.

- `src/` is the verified library: OSM tag interpretation, way splitting into
  road segments, turn-restriction parsing and indexing, the dense road graph and
  its file header checks, the cost table and Dijkstra search over directed edges
  with turn restrictions, route checking and turn tallies, and text helpers.
  `src/laws.rs` states the properties that span several functions.
- `tests/` runs the library on concrete inputs.
- `app/` is the command-line program around it: PBF import, persistence,
  floating-point geometry and cost models, spatial snapping, and output.
