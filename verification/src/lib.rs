//! A read-only virtual filesystem over a collection of archived backup
//! snapshots.  Every archive is a point-in-time backup; the same path may
//! occur in several archives with different modification times.  The library
//! merges all archives into one immutable directory tree that keeps, for each
//! path, the most recent version, and it plans content reads as forward-only
//! streams that are reopened whenever a request seeks backward.
//!
//! The archive container itself and the mount transport are outside
//! collaborators; this crate holds the logic that decides what the tree looks
//! like and which bytes every read must return.

pub mod types;
pub mod scan;
pub mod tree;
pub mod index;
pub mod engine;
pub mod fs;
