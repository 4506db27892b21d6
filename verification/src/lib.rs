//! Core logic of a small note store: notes are plain-text files in a single
//! directory, named `<id>.md`.  This crate holds the pure parts — identifier
//! sanitization and generation, path derivation, filename classification,
//! collision-retry candidates, and listing (filter + sort) — each with a
//! verified contract.  The surrounding process does the actual file I/O and
//! hands these functions plain strings.

pub mod create;
pub mod ident;
pub mod listing;
pub mod paths;
pub mod store;
pub mod text;
