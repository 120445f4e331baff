# libyaml_safer

A YAML tokenizer whose behaviour is stated in contracts and proved with Verus.

Layout:

- `src/char_traits.rs`, `src/macros.rs`: character classes, each an exact
  spec function with an executable check proved equal to it.
- `src/input/`: the `Input` trait, which describes a source as the sequence of
  characters it still holds, and two sources over `&str` and `String`.
- `src/token.rs`: tokens, marks and errors.
- `src/scanner.rs`: the scanner. Besides the contracts of each step, it proves
  properties of whole runs: the token budget (at most eight tokens per input
  character before STREAM-END), that every token handed out runs forward and
  ends within the input read so far, that tokens are handed out in the order
  in which they start, that STREAM-END is handed out only at the end of the
  input and then repeated, and exact contents for directives, tags, anchors
  and the visible characters of scalars.
- `src/string_ops.rs`: contracts for the `String` and `char` operations used.
- `app/`: an input source fed by a character iterator and a driver that scans
  arbitrary bytes.
- `tests/`: scenarios on concrete inputs.
