# musician-soul

Personas that learn musicians by digesting MIDI and develop their own taste by
jamming. This crate is split in two:

- `src/` — the verified library (Verus). Every function carries a contract that
  Verus proves:
  - `lib.rs` — MIDI primitives (`Pitch`, `Velocity`, `Duration`, `NoteEvent`),
    `Phrase` and its integer features (intervals, register span), and
    `split_phrases`, whose result is proved to be the unique split of the input
    at rests longer than a quarter note.
  - `midi_format.rs` — the Standard MIDI File format as functions on byte
    sequences (`smf_events`), with laws about the note order.
  - `midi.rs` — a bounds-checked SMF reader proved to compute exactly
    `smf_events` for every byte sequence, and `phrases_from_smf`.
  - `analysis.rs` — Parsons code, Huron contour, Levenshtein distance,
    pitch-class counts, syncopation strength and the interval transition table,
    with transposition-invariance and distance laws.
- `app/` — the floating-point layer (embeddings, cosine similarity, personas,
  jam sessions, splines, standardization, file reading), written in ordinary
  Rust on top of the library.
- `tests/` — tests of the library's behaviour on concrete inputs.
