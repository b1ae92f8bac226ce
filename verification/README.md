# termvis

Watch video frames in a terminal over SSH: frames become half-block (`▀`)
characters with 24-bit colour, only changed cells are redrawn, and sessions
can be recorded in a compact delta-XOR + zlib format (`.lzdx`) and played back.

## Layout

- `src/` — the verified library (Verus).
  - `modules/frame.rs` — `CharMap`, a BGR pixel buffer with its size invariant.
  - `modules/renderer.rs` — cells, ANSI encoding, the incremental
    `TerminalRenderer` and its frame plans (`render_ops`).
  - `modules/screen.rs` — a model of the terminal and the proofs that every
    rendered frame ends up on a terminal that showed the previous frame at
    its size (any terminal after a change of width or height).
  - `modules/codec.rs` — zlib compression (flate2) and frame reconstruction.
  - `modules/recorder.rs` — the recording format, the recorder, playback
    decoding, and the proofs that a recorded frame record, and a whole
    session's records, decode back to the recorded maps (zlib's own round
    trip is taken from flate2).
  - `session.rs` — coordinate-mapping information and key names.
- `app/` — the Python extension (pyo3), OpenCV image handling, terminal and
  file I/O.
- `tests/` — tests of the library.
