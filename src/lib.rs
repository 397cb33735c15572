//! Media records of a content-indexing platform: the tolerant parser of the
//! `duration` field, the fixed index-schema table of a media record, and the
//! typed references from a record to its feeds and posts.
pub mod duration;
pub mod index_schema;
pub mod reference;
