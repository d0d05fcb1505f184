//! An in-process index of filesystem metadata and user-assigned tags.
//!
//! The index store keeps one record per observed path, a set of named tags,
//! and the many-to-many links between them, together with a denormalized
//! text index kept in lockstep with the file records.  A crawler front end
//! feeds per-path metadata into the store and a query layer answers
//! substring, directory-scoped and tag-scoped searches over it.

pub mod indexer;
pub mod ordering;
pub mod paths;
pub mod search;
pub mod tag_db;
pub mod text;
pub mod units;
