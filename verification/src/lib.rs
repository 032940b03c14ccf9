//! A registry of packages kept in a directory: the rules of its layout, of its
//! index files and of its queries, without the file operations themselves.
//!
//! The registry says which operations publish a package, and answers a
//! request from what was read of its files. Whoever holds the files makes the
//! operations and does the reading.
//!
//! - `name`, `version`, `req`, `package`: what packages are found by;
//! - `layout`: where things lie below the root;
//! - `index`: the lines of an index file;
//! - `files`: the operations on files, and what they leave behind;
//! - `registry`: publishing, querying, fetching, and the registries to fall back on;
//! - `laws`: what holds of the files after packages were published;
//! - `snapshot`, `snapshot_laws`: pictures of directory trees.

pub mod error;
pub mod files;
pub mod index;
pub mod laws;
pub mod layout;
pub mod name;
pub mod package;
pub mod registry;
pub mod req;
pub mod snapshot;
pub mod snapshot_laws;
pub mod source;
pub mod text;
pub mod version;

pub use crate::error::{ReadOutcome, RegistryError};
pub use crate::files::{FileOp, Operation};
pub use crate::layout::StorePath;
pub use crate::name::PackageName;
pub use crate::package::{Manifest, PackageContents, PackageId};
pub use crate::registry::TestRegistry;
pub use crate::req::{Bound, Comparator, PackageReq};
pub use crate::source::{PackageIndexConfig, PackageSourceId};
pub use crate::version::PackageVersion;
