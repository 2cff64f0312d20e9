//! Backup and restore engine of a local secrets vault.
//!
//! The crate holds the vault's data model, the field cipher that protects
//! sensitive values at rest, the archive codec, the snapshot builder that
//! turns a store into a plaintext snapshot, and the merge engine that folds a
//! snapshot back into a store without duplicating what is already there.
pub mod models;
pub mod database;
pub mod padding;
pub mod encryption;
pub mod archive;
pub mod store;
pub mod snapshot;
pub mod merge;
pub mod resolve;
pub mod import;
pub mod timestamp;
pub mod generator;
pub mod tree;
pub mod records;
pub mod laws;
