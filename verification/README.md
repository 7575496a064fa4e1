# bevy_ldtk_procgen

A procedural, room-by-room dungeon generator for Bevy and LDtk. A catalog of rooms
authored as LDtk levels, each with `Door` entities on its edges, is connected door to
door into a layout that grows around the camera; no two placed rooms overlap.

The generation logic is a library verified with Verus; the Bevy game around it is
ordinary Rust.

## Layout

- `src/` — the verified library.
  - `geometry.rs`: integer positions and rectangle overlap tests.
  - `dir.rs`: door directions.
  - `catalog.rs`: room templates, their doors and the catalog indexed by door direction.
  - `room_index.rs`: building the catalog from LDtk levels.
  - `room.rs`: placed rooms, doors in world space and their clearance boxes.
  - `spatial_hash.rs`: a uniform grid over the placed rooms.
  - `world_state.rs`: the layout (rooms, open doors, grid) and adding a room to it.
  - `placement.rs`: validating a placement and bridging clashing doors.
  - `generation.rs`: one generation batch around the camera.
  - `culling.rs`: which room entities to despawn and spawn again as the camera moves.
- `tests/` — tests of the library on a small hand-built catalog.
- `app/` — the Bevy plugin and demo: asset loading, the async batch task, spawning
  LDtk levels, culling and debug overlays.

Positions are whole pixels (`i64`), and rooms are placed within 2^57 px of the origin,
the range in which every position derived from a room still fits in an `i64`; LDtk
weights are held in tenths. Floating point
stays in `app/`, which rounds camera positions and distances before handing them to the
library.
