# spark (verified core)

The decision logic of the spark game engine and its editor, written in Verus
and proved against its contracts. Window, GPU, physics, audio and file I/O
stay in the thin program under `app/`.

Layout of `src/`:

- `render` — the frame's pass plan and its usage-scope check, draw batching,
  light selection.
- `assets` — asset kinds, asset references, the index of discovered assets,
  builtin unit meshes (exact vertex descriptions and triangle lists).
- `textures` — decoded textures per asset key: decoded on first use,
  refreshed with a new version when the file changes, dropped with the
  model they came from.
- `ecs` — the entity hierarchy over a `hecs` world (parent/child links,
  descendants, recursive despawn, lookups), the component registry.
- `components`, `scene` — built-in component data without geometry and their
  registration.
- `input` — key/button/gamepad edge tracking and named action bindings.
- `rules` — the rules system's bookkeeping (collision partners, once-flags,
  messages, destroy queue, chance draws, end of tick).
- `cmd` — the undo/redo command stack.
- `editor` — play mode, tools and selection, gizmo parts, undoable component
  and spawn commands, the console.

The tests under `tests/` exercise the library on concrete values.
