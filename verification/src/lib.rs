//! A personal store of text notes ("zettels"): each note is a markdown file
//! with a structured metadata header, and a side-file index records per-note
//! metadata for fast lookup.
//!
//! The crate holds the index data model, the header codec, and the
//! reconciliation ("sync") algorithm. File and terminal I/O, and the
//! serialization of the index file itself, live with the caller: every
//! function here takes and returns plain values.

pub mod database;
pub mod frontmatter;
pub mod time;
pub mod zettel;
pub mod zettelkasten;
