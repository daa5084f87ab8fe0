//! Storing and restoring file metadata (mode, owner, group) for the paths of
//! a repository: the metafile format and the reconciliation rules.

pub mod entry;
pub mod error;
pub mod git;
pub mod iter_ext;
pub mod laws;
pub mod metafile;
pub mod number;
pub mod reconcile;
pub mod text;
