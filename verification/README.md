# archetype_ecs

An entity component system whose storage, scheduling and bookkeeping logic
is written in Verus and proved against its contracts.

## Layout

- `src/` — the verified library:
  - `system`, `dependency`, `schedule`, `executor`: declared component
    accesses, the conflict graph between systems, its topological (Kahn)
    order, the parallel stages built from it (stages never hold two
    conflicting systems; every conflict is ordered by registration), and the
    step functions that decide which system or stage of a frame runs next.
  - `world`, `archetype`, `query`, `bitset`, `simd`: the world's entity
    table and archetypes (spawning, despawning, adding and removing
    components as raw bytes, with every entity's location kept exact), column
    storage with row allocation and swap-removal, change ticks, query
    signatures, their incremental cache, and the query cursor that walks the
    matching rows under `Changed`/`Added` filters.
  - `event`, `event_bus`, `event_subscriber`, `event_types`, `observer`:
    lifecycle events, a bounded queue, and a typed publish/subscribe bus.
  - `hierarchy`, `builtin`, `resources`, `assets`, `time`, `error`,
    `hot_reload`: components, input state, handles and generations, memory
    accounting, asset loaders, fixed timesteps, error messages, and the
    registry of reloadable systems.
- `app/` — plain Rust around the library: float maths (transforms and their
  propagation, time, diagnostics, audio), file access, printing, user
  closures, locks, type-erased caches, running systems and reloading them
  (with panics caught), and reading typed values out of query rows.
- `tests/` — tests of the library.

Typed component access (reading a component back as a Rust value) is not
part of the library: it rests on casting stored bytes to arbitrary types. The
library decides which rows a query yields and which system runs next; `app/`
does the casting and the calls.
