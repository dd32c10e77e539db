# rusty_me

A small, hand-rolled `logfmt` parser whose behaviour is stated in Verus contracts and
proved.

- `src/text.rs`: character classes, UTF-8 widths, string builders.
- `src/scan.rs`: reading keys, words and quoted values.
- `src/lenient.rs`, `src/strict.rs`: the lenient tokenizer and field reader, and the strict
  reader that refuses malformed input at a byte offset.
- `src/lines.rs`: newline-delimited input, one record per non-blank line.
- `src/encode.rs`, `src/normalize.rs`: writing fields back out, and normalization.
- `src/field.rs`, `src/record.rs`, `src/document.rs`, `src/fieldmap.rs`: the typed values.
- `src/message.rs`: error messages.
- `src/laws.rs`: round trips (what is written reads back) and the agreement of the readers.
- `app/`: the error types with `Display` and `std::error::Error`.
