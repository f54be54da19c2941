# screeps_arena_mock

A host-independent model of the Screeps Arena game API: game objects and
their actions, spawning, the path finder (the jump-point search of the game
engine, plus A*, jump-point and hybrid variants), its priority queue, and
the small utility surface of the game module. Everything in `src/` is
verified with Verus; `app/` connects the library to a simulator through its
C interface, carries script values as JSON and keeps the floating-point
drawing calls.

Layout:

- `src/constants.rs` — directions, body parts, return codes, terrain, resources.
- `src/pathfinder.rs` — positions, cost matrices, terrain maps, goals, search options and `search_path`.
- `src/pf_cc.rs` — the jump-point search behind `search_path`.
- `src/pf_cc_heap.rs` — the indexed binary heap and open/closed list of the search.
- `src/search.rs` — A*, jump-point and hybrid searches.
- `src/objects.rs`, `src/traits.rs`, `src/prototypes.rs` — game objects, their traits and kinds.
- `src/ffi.rs` — kinds and actions as the host numbers them, and action requests.
- `src/utils.rs`, `src/game.rs`, `src/visual.rs` — the game module's functions.
- `src/js_sys.rs`, `src/wasm_bindgen.rs` — the script value types.

Actions do not call the host themselves: each returns the request to queue
(or the error code), and `app/` sends it. Likewise the host's object lists
and terrain are passed in as values.
