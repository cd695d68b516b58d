# Sol 1

A calm Mars exploration game for the browser: a small robot explores a
200×200 grid, collects ice, builds charging stations and slowly terraforms
the planet, by hand or under an autopilot.

The game's rules live in a library verified with Verus; the browser shell
around it is ordinary Rust.

## Layout

- `src/` — the verified library.
  - `types.rs` — tiles, positions, charging stations and their boot-up.
  - `world.rs` — the grid, its deterministic generation, exploration,
    station placement and the day counter.
  - `progress.rs` — fog of war and terraforming milestones.
  - `systems.rs` — movement rules, power-down outcomes, ice collection,
    deposits and scan reports.
  - `input.rs` — key codes, key state and the actions they trigger.
  - `ai.rs` — the autopilot: memory of the map, breadth-first path search,
    navigation, exploration and the decision of each turn.
- `tests/` — tests of the library on concrete values.
- `app/` — the WebAssembly shell: the game loop, the canvas renderer, the
  keyboard listeners, and what works on floating-point numbers (energy,
  time of day, Mars health).

## Building

The package lists `wasm-bindgen` and `web-sys` as dependencies; only
`app/` calls them. The code in `src/` calls no outside crate, only std and
`vstd`.
