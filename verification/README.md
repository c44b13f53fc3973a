# weaver

A text layer over [`redwing`](https://crates.io/crates/redwing) branches: it
detects encodings and line endings, reads lines and characters, keeps a lazy
line map, and edits without changing the bytes it started from.  The library is
written in Verus: contracts state what its functions return or change, over the
results of the crates that they call, and are proved.

## Modes

`source::Source` opens a `branch::Branch` and settles its encoding (byte-order
mark, hint, UTF-8 validation, heuristic detector) and its line ending (majority
vote).  It turns into one of three types.

| Type | Purpose |
|---|---|
| `chars::Chars` | character boundaries, decoding from a boundary, encoding |
| `lines::Lines` | forward-only lines with their terminators, normalised views |
| `buffer::Buffer` | lines by number, offsets to lines and columns, edits |

`denormalise::DenormaliseWriter` puts line terminators back into normalised
text.  `mallard_bridge` makes the lines and the validator of a mallard line
buffer.

## Layout

- `src/text.rs` says what a line terminator and a line are; `offset_map.rs` what
  normalised text is and where its positions come from, and `wide_text.rs` the
  same in UTF-16.
- `src/branch.rs`, `codec.rs`, `encoding.rs` and `mallard_bridge.rs` hold the
  calls into redwing, encoding_rs, chardetng and mallard, each with the contract
  that is believed of it.
- `src/round_trip.rs` and `editing.rs` prove what spans several types: that no
  byte is lost between reading and writing, that lines read in turn and lines
  looked up by number agree, and what an edit does to lines and views.
- `tests/` runs the library together with the crates it calls.
- `app/` is ordinary Rust around the library: files, channels, the traits of std
  and mallard, and `rr2`, a regex substitution over a file.

## Limits

UTF-32 is not supported.  UTF-16 sources are read-only: a `Buffer` refuses them.
