//! A verified personal bookmark engine.
//!
//! The library keeps bookmarks (url, name, description, creation time and a
//! set of lowercase tags), enforces the tag-consistency rules, deduplicates
//! bulk inserts, and answers point lookups, tag listings, paginated listings,
//! date lookups and a three-mode search (tag intersection, ranked full text
//! with highlighting, and a substring fallback). All state lives in a [`store::Db`]
//! value; persistence and transport are the caller's concern.

pub mod csv;
pub mod dates;
pub mod import;
pub mod laws;
pub mod listing;
pub mod requests;
pub mod search;
pub mod store;
pub mod tags;
pub mod text;
pub mod types;
