//! Discovery of native library dependencies and their mapping to distribution packages.
//!
//! - `scanner`: which declarations of a package manifest are active for a graph node,
//!   and probe detection over the walk of a build script.
//! - `index`, `cache`: the reverse index from `.pc` basename to package, the rows read
//!   from repository listings, and its cache file.
//! - `resolve`: resolution of identifiers with the hyphen fallback, and the sources of
//!   an index per distribution.
//! - `distro`: the distribution descriptor and the package-manager commands.
//! - `text`, `names`: character-level helpers and sets of names.
pub mod cache;
pub mod distro;
pub mod index;
pub mod names;
pub mod resolve;
pub mod scanner;
pub mod text;
