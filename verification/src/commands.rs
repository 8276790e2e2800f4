//! The operations that a command line offers, as functions on plain values.

pub mod add;
pub mod cat_file;
pub mod commit;
pub mod commit_tree;
pub mod hash_object;
pub mod init;
pub mod write_tree;
