//! Other registries that are asked when this one does not have a package.

use vstd::prelude::*;
use crate::layout::texts;

verus! {

/// The configuration of a registry's index.
#[derive(Debug, PartialEq, Eq)]
pub struct PackageIndexConfig {
    /// The registries to fall back on, each as a path relative to the root of
    /// this registry, in the order in which they are to be asked.
    pub fallback_registries: Vec<String>,
}

impl View for PackageIndexConfig {
    type V = Seq<Seq<char>>;

    /// The configured paths, in their order.
    open spec fn view(&self) -> Seq<Seq<char>> {
        texts(self.fallback_registries@)
    }
}

/// A place where packages can be asked for.
#[derive(Debug, PartialEq, Eq)]
pub enum PackageSourceId {
    /// A registry kept in the directory at this absolute path.
    Path(String),
}

impl View for PackageSourceId {
    type V = Seq<char>;

    /// The path of the registry.
    open spec fn view(&self) -> Seq<char> {
        match self {
            PackageSourceId::Path(path) => path@,
        }
    }
}

/// The paths of a list of sources.
pub open spec fn source_views(sources: Seq<PackageSourceId>) -> Seq<Seq<char>> {
    Seq::new(sources.len(), |i: int| sources[i]@)
}

} // verus!
