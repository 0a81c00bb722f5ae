//! Filtered snapshots of a project's source tree: which files are selected,
//! how the pruned tree is drawn, how the settings file is read and written,
//! how large output is cut into chunks, and how a backup is laid out.

pub mod backup;
pub mod clock;
pub mod export;
pub mod fileops;
pub mod models;
pub mod pattern;
pub mod settings;
pub mod text;
