# rust4d

The core of the Rust4D 4D engine as a Verus-verified library, with the
engine layers that work on floating point, files, threads and outside
services around it.

## Layout

- `src/` — the verified library (`rust4d`). Every function carries a
  contract that Verus proves:
  - `scene_graph` — the parent/child hierarchy of a world's entities,
    acyclic by construction (every entity has a depth one more than its
    parent's); attach, detach, remove, subtree removal, breadth-first
    descendants, ancestors, roots, consistency check.
  - `entity_index` — name index, tag index and dirty count of a world.
  - `events`, `fsm`, `tween`, `input` — the event bus (queue and handler
    registry over `TypeId`s), the finite state machine, easing names, key
    bindings and movement/button state.
  - `asset_cache`, `asset_error` — the asset cache (ids, paths, dependents,
    hot reload, garbage collection), generic over the stored data.
  - `scene_manager`, `transition`, `validator` — the scene stack, overlays
    and transitions by name; transition effects; duplicate-name checks.
  - `mesh`, `faces`, `kuhn`, `cliques`, `topology` — tetrahedral mesh
    topology: cell validation and rebasing, face pairing and
    watertightness, the Kuhn triangulation of the tesseract, 4-clique cell
    enumeration, polytope cells, cubinder and duocylinder prisms, prism
    splitting, vertex pooling and triangle subdivision.
  - `audio`, `components`, `hierarchy`, `math` — audio buses and sound ids,
    ECS components and dirty flags, hierarchy errors, rotation planes.
- `tests/` — tests of the library.
- `app/` — ordinary Rust around the library: 4D vector/matrix/rotor math,
  shapes and procedural primitives (vertex positions), transforms, scenes
  and RON files, the `hecs` world, scene management with the loader thread,
  `kira` audio, tweens, the camera controller, and `Display` copies of the
  error types.
