//! Reader for package-manager synchronization databases: compressed archives
//! holding one descriptor file per package. The loading pipeline decompresses
//! the archive (zstandard, falling back to gzip), walks the contained entries,
//! parses each `desc` entry's block-structured text into a package record, and
//! aggregates the records into a database keyed by package name.

pub mod archive;
pub mod compress;
pub mod db;
pub mod error;
pub mod laws;
pub mod parse;
pub mod text;

pub use db::Database;
pub use db::Package;
pub use error::ProgramError;
