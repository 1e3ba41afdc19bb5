# mc_client

Client-side state, wire formats and renderer bookkeeping of a Minecraft 1.12.2
client, written in Verus: the functions in `src/` carry contracts that the
verifier proves.

The exceptions are seven small functions marked `#[verifier::external_body]`,
each a single call into `std`, `rand` or `uuid` whose contract is trusted
rather than proved: `Arc::make_mut` and `Arc::clone` (`chunk.rs`),
`str::from_utf8` (`codec.rs`), `Rng::gen_range` and `Rng::gen`
(`entities.rs`), `Uuid::parse_str` (`profile.rs`) and
`str::to_ascii_lowercase` (`util.rs`); `std::io::Error` is declared as an
outside type in `network.rs`.

## Layout

- `src/` — the verified library
  - `codec.rs`, `packets.rs`, `network.rs`, `nbt.rs`, `profile.rs`: VarInts,
    strings, length-prefixed frames, the packets the client reads and writes,
    NBT payloads, sessions and profiles
  - `bit_array.rs`, `block_state_container.rs`, `section_storage.rs`,
    `chunk.rs`, `block_pos.rs`: packed block storage and copy-on-write chunk
    columns
  - `items.rs`, `entities.rs`, `util.rs`, `biome.rs`, `panorama.rs`: item,
    entity, text, biome and OptiFine panorama rules
  - `arena.rs`, `residency.rs`, `indirect.rs`, `upload.rs`, `pacing.rs`,
    `frame.rs`: the renderer's decisions — arena allocation, chunk mesh
    residency and retirement per frame slot, indirect draw commands and their
    recording plan, staging and buffer growth, frame-slot rotation and
    swapchain rebuilds, CPU frames and device selection
  - `record.rs`: what recording a frame does besides issuing commands —
    per-slot staged copies grouped by destination, the atlas upload taken
    and its staging buffer retired, entity draw ranges and overlay passes
  - `blend.rs`: the colour blend state of each pipeline blend mode
  - `assets.rs`: what an asset tree must hold
- `tests/` — tests of the library on concrete values
- `app/` — the command-line front end: I/O, the socket connection, and the
  floating-point state that the library does not hold
