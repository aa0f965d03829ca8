# midly

A library for MIDI files whose functions carry contracts that Verus proves.

- `src/` is the library. Every function states what it returns over mathematical
  models: a track is a sequence of bytes, of events or of cues, a file is a
  sequence of tracks. Public proof functions state what holds across functions,
  such as that a track that was rewritten has no overlapping notes, or that the
  three track readers agree on well-formed tracks.
- `tests/` runs the library on concrete files.
- `app/` holds command line tools around the library: they open and map files,
  hand tracks to threads and turn ticks and tempos into floating point.

Tempos are kept as microseconds per quarter note, and places in a view window as
`TickPoint`, so that the library itself needs no floating point.

Three functions of the standard library are trusted: `sort_unstable_by_key` of
slices (in `note.rs`), and `capacity` of `Vec` and of `VecDeque` (in
`streaming.rs`).
