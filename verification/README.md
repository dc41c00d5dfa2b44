# weaver

The core of the weaver game engine as a verified library: entities and their hierarchy,
component storage by archetype, queries, the component registry, the world and its resources,
deferred commands, the order in which systems run, scenes, input state and the editor's
action history. Every function in `src/` carries a contract that Verus proves.

- `src/` — the library. `graph.rs` states, as trusted items, what petgraph's `StableGraph`
  does; `registry.rs` does the same for rustc-hash's `FxHasher`. Everything else is proved.
- `tests/` — tests of the library on concrete values.
- `app/` — what stands around the library: pointer arithmetic on string slices, Rust type ids,
  running systems and editor actions (user code), and error messages.
