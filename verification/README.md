# minecraft_but_optimized

A voxel sandbox engine whose core logic is written in Verus and proved
against its contracts: palette-compressed chunks, greedy meshing, column
streaming around the camera, terrain block rules, the chat console with its
command language and completion hints, the frame counter, and the byte-range
allocator behind the shared GPU buffers.

## Layout

- `src/` — the verified library.
  - `world/` — block ids, bit-packed chunk storage (`chunk`, `bits`), the
    world map, greedy meshing, terrain block rules (`generation`) and column
    streaming with its laws (a full step loads exactly the load disc; standing
    still does not churn).
  - `chat/` — the message log and input line, the `/settings` and `/help`
    commands with their exact responses, Tab completion, and what the game
    does with a submitted line (`session`).
  - `arena.rs` — first-fit free list of a growable buffer (an allocation right
    after a grow never fails; freeing an allocation restores the free bytes).
  - `fps.rs`, `hud.rs`, `text.rs`, `clock.rs` — frame rate averaging, overlay
    colors and cursor blink, character-level text handling, the clock.
- `tests/` — tests of the library.
- `app/` — the program around it: window and input (winit), rendering (wgpu,
  glyphon), terrain noise (noise), worker threads (rayon).
