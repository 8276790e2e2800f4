//! A minimal content-addressable object store with a staging index.
//!
//! Objects (blobs, trees, commits) are kept under the SHA-1 digest of their
//! type-tagged envelope. The staging index is a binary table of paths, and a
//! tree builder turns a directory listing into canonical tree objects.

pub mod bytes;
pub mod codec;
pub mod commands;
pub mod error;
pub mod index;
pub mod objects;
pub mod repository;
pub mod store;
