//! Module resolution and packaging for a standalone script runtime.
//!
//! - [`path`], [`resolver`]: from a module reference and the location of
//!   the script that wrote it to the file that it names.
//! - [`snapshot`]: what is known of the filesystem; nothing here reads a disk.
//! - [`loader`], [`loader_model`]: the cache of loaded modules and the
//!   single flight of running loads, as a state machine.
//! - [`scan`], [`graph`], [`walk`], [`bundler`]: the files that an entry
//!   script reaches, keyed relative to one project root.
//! - [`trailer`], [`metadata`]: the bytes at the end of a standalone binary.
//! - [`embedded`]: a bundle as the filesystem of a standalone binary.
//! - [`packaging`]: what the packaging command decides before it writes.
//! - [`script`], [`project`], [`global`]: location handles, project trees
//!   and the standard globals.
//!
//! The modules whose names end in `_laws` hold what is proved of the others.

pub mod bundler;
pub mod embedded;
pub mod global;
pub mod graph;
pub mod loader;
pub mod loader_laws;
pub mod loader_model;
pub mod loader_progress;
pub mod metadata;
pub mod metadata_laws;
pub mod packaging;
pub mod path;
pub mod path_laws;
pub mod project;
pub mod relative_laws;
pub mod resolver;
pub mod resolver_laws;
pub mod scan;
pub mod script;
pub mod snapshot;
pub mod trailer;
pub mod walk;
