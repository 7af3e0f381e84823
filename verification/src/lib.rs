//! Reading and rewriting the string-literal table of an IL2CPP
//! `global-metadata.dat` file, with the helpers that search and edit the
//! decoded strings.
//!
//! `metadata` reads the header, the literal table and the literal bytes of a
//! metadata file and rewrites the file with new literal bytes;
//! `string_table` does the same with the literals decoded as UTF-8 text;
//! `text` searches and replaces inside strings; `targets` and `package`
//! hold the checks that precede an edit; `laws` states what reading gives
//! back after a rewrite.
pub mod le_bytes;
pub mod metadata;
pub mod laws;
pub mod laws_text;
pub mod laws_format;
pub mod text;
pub mod string_table;
pub mod targets;
pub mod package;
