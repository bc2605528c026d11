# space_game

The verified core of a small space game engine, written with Verus.

- `ecs`: typed ids, tagged values and their containers (states, topics,
  events, calls), handlers and the reactor built from them, and the orders
  in which handlers and systems run, computed from the dependencies they
  declare (`dependency`, `reactor`, `system`).
- `world`, `systems`: stores of systems and states keyed by type id, their
  scheduling, and running a schedule of updates.
- `graph`: the depth-first ordering that every scheduler uses.
- `mesh`, `mesh_builder`, `render`, `gl`: CPU-side meshes, their validation
  and wireframe conversion, vertex and index data, vertex layouts and the
  interleaved vertex data laid out by them, the check of a shader's active
  attributes, the ring of readback buffers, and the messages of rendering
  errors.
- `voxel`, `galaxy`: the cases of marching cubes built from their triangle
  tables, and the star map's cube faces rearranged into texture layers.
- `shader_text`, `shader_loader`: splitting shader sources into lines and
  expanding their `#include` lines, with the fetching of files left to the
  caller.
- `dom`, `controls`: the decisions of the browser side (errors, keys, the
  input state and what the input listener does with an event, the
  WebSocket address) and of the native window.

`app/` is a small command line program around the library: it reads shader
files from disk, builds a demo mesh, runs a reactor's dispatch loop, and
computes orbits, which are floating-point work and are not verified.
