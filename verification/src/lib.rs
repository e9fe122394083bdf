//! A verified music-catalog engine: directory-scan ingestion with
//! deduplication, reference-counted string interning for artists and tags,
//! playlist resolution through stable identities, tag garbage collection,
//! and a multi-mode playback-order iterator.

pub mod events;
pub mod image_url;
pub mod ingest;
pub mod model;
pub mod music_library;
pub mod playback;
pub mod playlist;
pub mod scan;
pub mod snapshot;
