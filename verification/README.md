# riz_package_tools

A verified library for the string literals of an IL2CPP `global-metadata.dat`
file, as found in Unity game packages, and a small program around it.

- `src/` is the library, checked by Verus: reading the header, the literal
  table and the literal bytes; rewriting the file with new strings (moving the
  data to the end of the file when it no longer fits); UTF-8 decoding of the
  literals; substring search and replacement; the checks that come before an
  edit (which strings must be present, which package kind an extension names).
  Each function that the program must not call on a malformed file has a
  checking function beside it (`check_metadata`, `check_strings`,
  `check_write_strings`, `MetadataFile::rewrite_error`) that names the error.
  `src/laws.rs` proves that strings stored into a file read back unchanged
  when each string's UTF-8 form fits a `u32` length and the header, the
  literal table and the string data of the rewritten file lie apart, with
  the data ending within `u32` range.
- `app/` is the program: file and process access, dialogs, logging, zip
  archives and the JSON settings file `target_strings.json`.
- `tests/` runs the library on small metadata files built in memory.
