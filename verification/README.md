# gitpatch

A verified library for reading and writing patch files in the unified diff
format, as git and GNU diff produce them. The parser and the printer are
written in Verus: each rule of the grammar is a spec function on the text, and
each executable function is proved to follow it.

## Layout

- `src/ast.rs`: patches, files, hunks and lines, and their models.
- `src/scan.rs`, `src/literals.rs`, `src/text.rs`: scanning a text held as
  characters, the fixed pieces of the format, and building strings.
- `src/parser.rs`: the grammar as spec functions and the parser that follows it.
- `src/error.rs`: parse errors, with the line, byte offset and rest of the input.
- `src/print.rs`: how patches are written back. A patch without hunks is
  written as a "Binary files A and B differ" line where its names split back
  out of "A and B", and as git rename lines otherwise.
- `src/timestamp.rs`: timestamps in header lines, read and written by chrono.
- `src/roundtrip.rs`, `src/laws.rs`: what is written reads back as itself.
- `src/parsed.rs`: what is read, written and read again gives the same
  patches, as long as chrono reads back the timestamps it writes; reading one
  patch and reading all patches agree.
- `src/preamble.rs`: text before the header lines of a patch is skipped.
- `app/`: error and display types with std's formatting traits, and the two
  entry points that report parse errors as `std::error::Error`.
