# intpack-bench

A benchmark harness for integer-sequence codecs (posting lists, positions,
frequencies, doc values), with the computing parts of the harness proved in
Verus. Every codec but lucene-pfor is proved to decode what it encodes;
lucene-pfor's packed blocks are stated value by value on the decoding side
and its round trip is checked at run time.

## Layout

- `src/` — the verified library.
  - `codec/` — the codec contract (`Codec`, `Cursor`, `Prepared`), the
    round-trip/cursor/get conformance `check`, and the codecs: raw, vbyte,
    bp128, bp128 with a skip table, FastPFor, StreamVByte, Roaring,
    Elias-Fano, partitioned Elias-Fano (`pef/`) and Lucene's PForUtil
    (`lucene/`, `lucene_pfor`). Codecs that call an outside crate do so
    through small trusted wrappers whose contracts state what the crate
    documents.
  - `codec/pef/` — the partitioned Elias-Fano format written down as a
    specification (`format`), with its encoder, in-place readers and cursor
    proved against it: decoding the encoding of a list gives the list back,
    `get` returns its elements and seeks land on the first element at or
    above the target.
  - `stream`, `ipb` — datasets and the `.ipb` container (reading a written
    container gives the lists back).
  - `bench` — the intersection kernels (leapfrog over cursors equals the
    plain merge) and the arena the timed runs decode from.
  - `extract`, `synth` — tokenising a corpus and shaping synthetic lists.
- `app/` — the command-line program: file and network I/O, timing, floating
  point statistics and report rendering.
- `tests/` — the test suite, run against the compiled library.
