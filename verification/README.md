# zstd_rs

A Zstandard (zstd) compressor and decompressor whose library is verified
with Verus: the library's functions carry contracts that fix their results,
and the laws that tie the pieces together are proved.

## Layout

- `src/frame.rs` — the frame: header, block loop, content checksum.
  `compress` and `decompress` are specified exactly, and compressing then
  decompressing gives the input back.
- `src/decoder/` — literals sections, sequences sections and blocks, each
  against a spec function of the bytes it reads.
- `src/encoder/lz77.rs` — the match finder (hash chains, binary trees) and
  the parsers of levels 1 to 22, each equal to a model of its steps.
- `src/encoder/cheapest.rs` — the optimal parser's chunks take the
  cheapest path through the matches found.
- `src/encoder/block.rs`, `src/encoder/sequence_stream.rs` — literals and
  sequences sections, and why they decode back.
- `src/huffman.rs`, `src/huffman/` — Huffman tables from frequencies and
  from weights, length limiting to 11 bits, their headers, and why coded
  data decodes back.
- `src/fse.rs`, `src/tables/` — FSE tables, their distribution headers in
  the zstd format, and the zstd backward bit streams.
- `src/xxhash.rs` — XXHash-64.
- `app/` — the command-line program (files, arguments, profiling hooks).
- `tests/` — tests of the library.
