//! Archive assembly and extraction library.
//!
//! Builds compressed archive containers from in-memory snapshots of
//! filesystem trees and plans the extraction of such containers back to a
//! tree, preserving Unix permission bits and directory structure.  The
//! binary container format itself is delegated to the `zip` codec crate;
//! everything around it — entry-name derivation, directory ordering,
//! deduplication and the path-traversal defence — is verified here.

pub mod builder;
pub mod codec;
pub mod compress;
pub mod entries;
pub mod errors;
pub mod extract;
pub mod names;
pub mod roundtrip;
