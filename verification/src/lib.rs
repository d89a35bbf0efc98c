//! Per-directory census of a filesystem walk.
//!
//! A walk hands every resource it meets, parents first, to a set of observers.
//! The directory analyzer rebuilds the directory tree from the paths it is shown
//! and keeps, for every directory, the number of files and directories directly
//! inside it and the bytes they occupy.

pub mod directory_analyzer_visitor;
pub mod directory_tree;
pub mod effect;
pub mod file_system_traversal;
pub mod history;
pub mod metadata_collector_visitor;
pub mod metadata_state;
pub mod path;
pub mod report;
pub mod resource_metadata;
pub mod visitable;
pub mod zip_compressor;
