# nexus

Building blocks for low-latency trading systems, written in Verus: the
functions in `src/` carry contracts that Verus proves. The one exception is
`slice_range_mut` in `src/buf.rs`, which takes a mutable sub-slice through
std and whose contract is trusted.

## Layout

- `src/buf.rs` — `WriteBuf`, a byte buffer with headroom for prepending
  headers, and its `io::Write`-style adapter.
- `src/median.rs` — `WindowedMedianI64`: median, quartiles, IQR and modified
  z-score over a sliding window of integer samples.
- `src/seglog.rs` — `SegmentedLog`: a log of framed records over three
  rotating segments (active, standby, cleaning), with 64-bit positions.
- `src/journal.rs` — an append-only journal of framed records with headers
  over a run of segments: writer, reader, sequence-range reads, recovery of
  the write position.
- `src/slot.rs` — the version protocol of a seqlock slot: the writer's versions
  and the reader's decisions.
- `src/smoothing.rs`, `src/platform.rs` — configuration types.
- `src/fix/` — a FIX engine without I/O: tag=value codec and framing
  (`codec`), UTC timestamps (`timestamp`), the session state machine
  (`session`), the outbound journal (`persist`), header decoding (`header`),
  and the connection state between a byte stream and the session
  (`transport`).

`app/` holds what works on streams, clocks and floating point: the FIX
connection over a `Read + Write` stream, a file-backed journal (one file per
segment), an `io::Write` sink for `WriteBuf`,
the floating-point smoothers, and a FIX acceptor program for
interoperability runs. `tests/` runs the library on concrete inputs.
