//! Ownership, invitation, and publish-authorization core of a package
//! registry, together with the release-metadata engine gated on it
//! (version yank/unyank and per-toolchain build-status recording).
//!
//! The datastore and HTTP layers are external collaborators: every
//! operation here reads current state, computes a decision, and returns
//! the new state, so the whole core is expressible over plain values.
pub mod build_info;
pub mod category;
pub mod datetime;
pub mod errors;
pub mod krate;
pub mod owners;
pub mod reconcile;
pub mod registry;
pub mod rights;
pub mod semver_num;
pub mod strutil;
pub mod version;
