# rapier-bevy, verified core

A physics recording engine built on Bevy and Rapier: worlds are simulated,
captured frame by frame into a timeline, played back without physics, and
rendered headless into video. The decisions and data handling of that
pipeline live in `src/` and are proved with Verus; Bevy, Rapier, files, the
encoder process and the GPU live in `app/`.

- `src/modes.rs`: the command line (durations, renamed flags, timeline path).
- `src/engine.rs`: which display and which world an invocation assembles.
- `src/timeline.rs`: the timeline, body keys, and the SplitMix64 dice.
- `src/key_order.rs`: stable ordering of bodies by key, duplicate detection,
  and the uniqueness of that order.
- `src/plugins/`: timeline capture and playback, the older bake/replay,
  video frame bookkeeping and row-padding removal, the benchmark schedule.
- `src/world_objects/`: integer layouts of benchmark scenes, the triangle
  list of a surface of revolution, and merging of OBJ index lists.
- `tests/`: executable checks of the library on concrete values.
- `app/`: the binary, the Bevy plugins and everything with floats.
