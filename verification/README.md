# tulip_rs_ffi

A C-ABI layer over the `tulip_rs` technical-analysis library, split in two:

- `src/` — the verified library. It decides everything that is not
  floating-point arithmetic:
  - `common`: which output rows of an indicator run are handed to the caller
    (the mandatory outputs first, then the optional outputs the caller's
    mask asks for, in declaration order), their lengths, how success and
    errors are reported, the C codes of the shared enums (the C structs
    carry these codes), and which SIMD widths (2, 4, 8, 16) are accepted;
  - `candlestick`: the forecast filter, the pattern table (sorted by short
    name, ties in registry order) with its key-to-id and id-to-metadata
    lookups, and the compressed sparse row layout of per-bar detections;
  - `ids`: FNV-1a 32-bit indicator ids, name-width and collision checks;
  - `lex`: the byte-wise lexicographic order the table is sorted by.
- `app/` — the `extern "C"` functions: reading raw buffers, calling
  `tulip_rs` (floating point), leaking results into C structs, freeing them.
- `tests/` — tests of the library on concrete values.
