//! Reconciliation of two snapshots of a directory tree.
//!
//! A snapshot is a tree of named entities with stable identities. Given the tree as it was
//! and the tree as a user edited it, the library pairs the entities of the two, plans the
//! creations, renames and deletions that turn the first layout into the second, orders them,
//! and steers their execution one filesystem action at a time.
//!
//! The library never reads or writes the filesystem itself. Whoever uses it lists
//! directories for it and performs the actions it asks for.

pub mod text;
pub mod error;
pub mod tree;
pub mod entity;
pub mod identity;
pub mod treetext;
pub mod scan;
pub mod resolve;
pub mod fuzzy;
pub mod plan;
pub mod reconcile;
pub mod operation;
pub mod engine;
pub mod staging;
pub mod backup;
pub mod guard;
pub mod laws;
pub mod outside;

pub use error::{AppError, ErrorType, IoErrorKind};
pub use operation::{FileOperation, OperationResult};
