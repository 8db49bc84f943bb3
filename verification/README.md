# wobblechar

Parse ASCII/UTF-8 waveform diagrams into a stream of decoded samples,
with the decoding logic verified by Verus.

```text
CLK: _|‾|_|‾|_
DAT: ___‾‾‾___
```

By default `_` is low, `|` is an edge that toggles the previous value, and any
other character is high. Lines may carry a label (`Name: content`); a later line
with the same label continues the first one. `#` starts a comment.

Lines end in `'\n'`, `'\r'` or `"\r\n"`. Blank lines, comment-only lines, blanks
at the start or end of a line, comments after a line's content and a terminator
after the last line change nothing of what is decoded, whichever terminators the
lines use; the library proves this for each such edit made at line boundaries
(`lemma_blank_line_same_streams`, `lemma_leading_blanks_same_streams`,
`lemma_line_trailer_same_streams`, `lemma_terminator_same_streams`,
`lemma_blank_line_appended_same_streams` in `parser/properties.rs`). An edit
between the `'\r'` and the `'\n'` of one `"\r\n"` falls outside these laws.

Signal lines and the values of an item are held in `Vec`s whose length never
exceeds the const parameter `N`; a text with more signal lines is refused with
`ParseError::CapacityFull`. A `Mapper` of one's own implements `toggle` and
states its meaning in `spec_toggle`; `swap_extremes`, which trades `low` and
`high`, is the usual body.

Layout of `src/`:

- `parser/scan.rs`: character classes and forward scans over a text.
- `parser/line_parser.rs`: splitting a text into signal lines (`string_to_iters`),
  and the characters each signal line yields (`line_chars`).
- `parser/mapper.rs` and `parser/mapper/`: character lookups (built-in, slice and
  `HashMap` backed), the `Mapper` trait with its boolean and numeric mappers, and
  the value traits `Level` and `NumLevel`.
- `parser.rs`: the `Parser` that yields one `Item` per timestep, specified by
  `decode_next`.
- `parser/builder.rs`: the `Builder` that picks a mapping and builds a parser.
- `parser/properties.rs`: properties of whole decoding runs.
- `prevable.rs`: an iterator adaptor that remembers its last item.
