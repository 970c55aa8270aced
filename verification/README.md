# bav

The BAV2 movie format and the pieces around it, verified with Verus: a
format of one-bit frames grouped into independently zstd-compressed chunks,
each chunk a keyframe followed by XOR-run deltas, with an index that lets a
player seek to any frame by decoding at most one chunk.

## Layout

- `src/format.rs`: metadata, the header and index, `Movie::open` and
  `Movie::frame`.
- `src/writer.rs`: `encode`, which writes a whole file, and `encode_movie`,
  which gives it a keyframe at every second.
- `src/records.rs`, `src/delta.rs`: keyframe and delta records, and the XOR
  runs inside a delta.
- `src/codec.rs`: the zstd calls, behind small trusted wrappers.
- `src/laws.rs`: what holds of the format as a whole, such as that a file
  `encode` wrote opens again and gives back every frame.
- `src/raster.rs`: packing grey pixels into bits, reading them back,
  rendering Braille or 0/1 masks, and unpacking Braille into frames.
- `src/pgm.rs`, `src/braille_text.rs`: the encoder's input formats (binary
  PGM images, Braille text movies).
- `src/patch.rs`: the length-prefixed row patches a player sends.
- `app/`: the two programs, `bav-encode` and `bav-engine` (file and process
  I/O, audio, the timed playback loop), calling into the library.
- `tests/`: tests on concrete values.

The program in `app/` picks which of the two it is by the name it runs
under (`bav-encode` or `bav-engine`), or by a first argument `encode` or
`engine`.
