# earworm

The practice and playback logic of an ear-first practice looper, written in
Verus. Verus checks every function in `src/`. A few small trusted wrappers
there make outside calls (content hashing, random draws, and the text of I/O
errors and quoted strings, appending a character to a string); what is proved through them rests on the
contracts written on them. The calibration slot's constructor states nothing
of its atomics, whose contents the verifier does not see.

- `src/` — the verified library: loop reading with a crossfaded seam
  (`looper`), the rolling capture buffer (`ring`), clock/frame mapping
  (`stream_clock`), engine state snapshots and replay (`engine_state`, with
  stem gains listed in index order by `stem_gains`), the user volume latched
  across song swaps (`render_core`), the play/pause/mute transport
  (`pipeline`), practice plans (`runner`), tempo
  curves, spaced resurfacing (`schedule`), loop naming and junctions, section
  notes, bundle naming, the library's per-song collections (`library`), ids,
  content hashes and device/capture-source descriptions.
- `tests/` — tests of the library on concrete values.
- `app/` — ordinary Rust around the library: bundle manifests and sidecars on
  disk, the in-memory library index, random ids, calendar dates, decoding and
  encoding, and the floating-point helpers (times in seconds, gains, mixing
  recorded layers, and a single-song player that renders through the
  verified looper and transport at the song's own rate).

Times, rates and gains are floating point in the application; the library
takes them as type parameters or as integers (frames, tenths of a second,
Julian days) and makes its decisions on those.
