//! Package-resolution core: a byte cursor for version grammars, versions and
//! version ranges, package selection, and the registry of user repositories.

pub mod parsing_buf;
pub mod version;
pub mod range;
pub mod package;
pub mod selector;
pub mod repo_cache;
pub mod environment;
