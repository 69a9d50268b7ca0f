//! Session discovery, metadata extraction, and cache indexing for a store of
//! conversation transcripts.
//!
//! Transcripts live under a root directory in a `year/month/day` layout; each
//! file's first line names the working directory ("project") it was recorded
//! in. This crate holds the verified core: recovering a recording timestamp
//! from a path, truncating message previews, deduplicating projects, ordering
//! sessions by recency, and rendering and parsing the per-project cache files.
//! All file and directory I/O is left to the surrounding application, which
//! hands this crate plain values.
pub mod cache;
pub mod cachefmt;
pub mod chars;
pub mod extract;
pub mod path_time;
pub mod path_time_props;
pub mod preview;
pub mod record;
pub mod scan;
pub mod time;
