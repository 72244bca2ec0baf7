# sandengine

The world logic of a falling-sand game engine, verified with Verus.

The world is a grid of 128x128-pixel chunks, stored in a hash map under an
index computed from the chunk position (Cantor pairing of the folded
coordinates). Around each loader, chunks are queued, loaded, generated in
stages, switched between cached and active, and unloaded; active chunks are
simulated (falling sand, which may fly off as particles) in four phases so that
no two neighboring chunks are simulated at once.

## Layout

- `src/` — the verified library:
  - `rect.rs` — rectangles and their union/intersection laws;
  - `coords.rs` — chunk indices and their inverse, pixel-to-chunk mapping,
    update phases;
  - `material.rs`, `chunk.rs` — pixels, colors and the server chunk;
  - `chunk_handler.rs` — loading, generation stages, state switches, world
    reads and writes, displacement;
  - `chunk_ops.rs` — syncing chunks, forced updates, ray casts;
  - `simulator.rs` — the sand rule over a 3x3 neighborhood of chunks, with
    its conservation of material;
  - `world_sim.rs` — simulation of all active chunks;
  - `tick.rs` — a tick of the chunk handler as a sequence of steps, each
    ending in the outside work it needs (saving, reading save files,
    generating terrain);
  - `objects.rs` — dummy object pixels put under hitboxes and cleared again;
  - `file_helper.rs`, `modding.rs`, `gen.rs` — small supporting types.
- `tests/` — tests of the library.
- `app/` — a headless driver: argument handling, terrain noise, saving and
  loading chunks, flying particles, and the loop that performs the outside
  work each tick step hands out.
