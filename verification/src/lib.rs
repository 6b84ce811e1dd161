//! Verified core of a local-first novel writing application.

pub mod application;
pub mod chars;
pub mod commands;
pub mod counts;
pub mod diagnostics;
pub mod document;
pub mod encoding;
pub mod hashing;
pub mod indexing;
pub mod outline;
pub mod path;
pub mod placement;
pub mod preferences;
pub mod projection;
pub mod recovery;
pub mod replacement;
pub mod text;
pub mod tree;
pub mod workspace;
