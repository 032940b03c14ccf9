//! The registry itself: what is to be written when a package is published,
//! and what is answered to a request from what was read.

use vstd::prelude::*;
use vstd::string::*;
use crate::error::{ErrorView, ReadOutcome, RegistryError};
use crate::files::{op_views, FileOp, FileOpView, Operation};
use crate::index::{entry_line, make_entry};
use crate::layout::{
    config_file, config_file_path, contents_dir, contents_dir_path, contents_file,
    contents_file_path, index_dir, index_dir_path, index_file, index_file_path, relative_to,
    PathView, StorePath,
};
use crate::name::PackageName;
use crate::package::{Manifest, ManifestView, PackageContents, PackageId};
use crate::req::{PackageReq, ReqView};
use crate::source::{source_views, PackageIndexConfig, PackageSourceId};

verus! {

/// The operations that publish one manifest with its contents, in the order
/// in which they are made: the record goes to the end of the index of the
/// package name, then the contents take the place kept for the version.
pub open spec fn publish_ops(root: Seq<char>, manifest: ManifestView, contents: Seq<u8>) -> Seq<
    FileOpView,
> {
    seq![
        FileOpView::CreateDirAll { path: index_dir(root, manifest.name) },
        FileOpView::Append {
            path: index_file(root, manifest.name),
            bytes: entry_line(manifest.record),
        },
        FileOpView::CreateDirAll { path: contents_dir(root, manifest.name) },
        FileOpView::Write { path: contents_file(root, manifest.id()), bytes: contents },
    ]
}

/// The manifests among `manifests` that a request asks for, in their order.
pub open spec fn selected(req: ReqView, manifests: Seq<ManifestView>) -> Seq<ManifestView>
    decreases manifests.len(),
{
    if manifests.len() == 0 {
        Seq::empty()
    } else {
        let earlier = selected(req, manifests.drop_last());
        let last = manifests.last();
        if req.matches(last.name, last.version) {
            earlier.push(last)
        } else {
            earlier
        }
    }
}

/// The views of a list of manifests.
pub open spec fn manifest_views(manifests: Seq<Manifest>) -> Seq<ManifestView> {
    Seq::new(manifests.len(), |i: int| manifests[i]@)
}

/// Every record of an index was read as a manifest.
pub open spec fn all_decoded(records: Seq<Option<Manifest>>) -> bool {
    forall|i: int| 0 <= i < records.len() ==> (#[trigger] records[i]) is Some
}

/// The manifests of an index of which every record was read.
pub open spec fn decoded(records: Seq<Option<Manifest>>) -> Seq<ManifestView> {
    Seq::new(records.len(), |i: int| records[i]->0@)
}

/// Every configured registry was found.
pub open spec fn all_resolved(resolved: Seq<Option<String>>) -> bool {
    forall|i: int| 0 <= i < resolved.len() ==> (#[trigger] resolved[i]) is Some
}

/// The registry at position `k` is the first that was not found.
pub open spec fn first_unresolved(resolved: Seq<Option<String>>, k: int) -> bool {
    &&& 0 <= k < resolved.len()
    &&& resolved[k] is None
    &&& forall|j: int| 0 <= j < k ==> (#[trigger] resolved[j]) is Some
}

/// The paths of the registries that were found.
pub open spec fn resolved_paths(resolved: Seq<Option<String>>) -> Seq<Seq<char>> {
    Seq::new(resolved.len(), |i: int| resolved[i]->0@)
}

/// The places that a configuration names, in its order.
pub open spec fn fallback_places(root: Seq<char>, config: Seq<Seq<char>>) -> Seq<PathView> {
    Seq::new(config.len(), |i: int| relative_to(root, config[i]))
}

/// The views of a list of places.
pub open spec fn path_views(paths: Seq<StorePath>) -> Seq<PathView> {
    Seq::new(paths.len(), |i: int| paths[i]@)
}

/// A registry kept in the directory at `path`.
#[derive(Debug, PartialEq, Eq)]
pub struct TestRegistry {
    path: String,
}

impl View for TestRegistry {
    type V = Seq<char>;

    /// The root of the registry.
    closed spec fn view(&self) -> Seq<char> {
        self.path@
    }
}

impl Clone for TestRegistry {
    fn clone(&self) -> (copy: Self)
        ensures
            copy@ == self@,
    {
        TestRegistry { path: self.path.clone() }
    }
}

impl TestRegistry {
    /// The registry kept in the directory at `path`.
    pub fn new(path: &str) -> (registry: TestRegistry)
        ensures
            registry@ == path@,
    {
        TestRegistry { path: path.to_owned() }
    }

    /// The root of the registry.
    pub fn path(&self) -> (path: &str)
        ensures
            path@ == self@,
    {
        self.path.as_str()
    }

    /// What is to be done to publish `manifest` with `contents`. The
    /// operations are to be made in order, and the first that fails ends the
    /// publishing.
    pub fn publish(&self, manifest: &Manifest, contents: &PackageContents) -> (ops: Vec<FileOp>)
        ensures
            op_views(ops@) == publish_ops(self@, manifest@, contents@),
    {
        let root = self.path.as_str();
        let id = manifest.package_id();
        let mut ops: Vec<FileOp> = Vec::new();
        ops.push(FileOp::CreateDirAll { path: index_dir_path(root, manifest.name()) });
        ops.push(
            FileOp::Append {
                path: index_file_path(root, manifest.name()),
                bytes: make_entry(manifest.record()),
            },
        );
        ops.push(FileOp::CreateDirAll { path: contents_dir_path(root, manifest.name()) });
        ops.push(
            FileOp::Write { path: contents_file_path(root, &id), bytes: contents.data().clone() },
        );
        assert(op_views(ops@) =~= publish_ops(self@, manifest@, contents@));
        ops
    }

    /// Brings the registry up to date. A registry in a directory is always
    /// up to date: there is nothing to do, and nothing to fail.
    pub fn update(&self) -> (done: Result<(), RegistryError>)
        ensures
            done is Ok,
    {
        Ok(())
    }

    /// The place of the index file that a request is answered from.
    pub fn index_path(&self, name: &PackageName) -> (path: StorePath)
        ensures
            path@ == index_file(self@, name@),
    {
        index_file_path(self.path.as_str(), name)
    }

    /// The place where the contents of a version are kept.
    pub fn contents_path(&self, id: &PackageId) -> (path: StorePath)
        ensures
            path@ == contents_file(self@, id@),
    {
        contents_file_path(self.path.as_str(), id)
    }

    /// The place of the configuration file.
    pub fn config_path(&self) -> (path: StorePath)
        ensures
            path@ == config_file(self@),
    {
        config_file_path(self.path.as_str())
    }

    /// Answers a request from the index file of its package name.
    ///
    /// `index` says how the reading of the file at `index_path` ended and,
    /// where it was read, holds its records in the order of the file, each
    /// as the manifest it was read as, or `None` where it could not be read
    /// as one.
    ///
    /// Without an index file the package is not found, which is another
    /// answer than an index in which no version matches. One record that
    /// could not be read makes the whole answer a failure. Otherwise the
    /// answer holds the manifests that the request matches, oldest first.
    pub fn query(&self, req: &PackageReq, index: &ReadOutcome<Vec<Option<Manifest>>>) -> (found:
        Result<Vec<Manifest>, RegistryError>)
        ensures
            match index {
                ReadOutcome::Missing => found matches Err(e) && e@ == (ErrorView::PackageNotFound {
                    name: req@.name,
                }),
                ReadOutcome::Failed => found matches Err(e) && e@ == (ErrorView::Io {
                    operation: Operation::Read,
                    path: index_file(self@, req@.name),
                }),
                ReadOutcome::Found(records) => if all_decoded(records@) {
                    found matches Ok(manifests) && manifest_views(manifests@) == selected(
                        req@,
                        decoded(records@),
                    )
                } else {
                    found matches Err(e) && e@ == (ErrorView::MalformedEntry { name: req@.name })
                },
            },
    {
        match index {
            ReadOutcome::Missing => Err(
                RegistryError::PackageNotFound { name: req.name().clone() },
            ),
            ReadOutcome::Failed => Err(
                RegistryError::Io {
                    operation: Operation::Read,
                    path: self.index_path(req.name()),
                },
            ),
            ReadOutcome::Found(records) => {
                let mut manifests: Vec<Manifest> = Vec::new();
                let mut i: usize = 0;
                while i < records.len()
                    invariant
                        i <= records.len(),
                        *index == ReadOutcome::Found(*records),
                        forall|j: int| 0 <= j < i ==> (#[trigger] records@[j]) is Some,
                        manifest_views(manifests@) == selected(
                            req@,
                            decoded(records@).take(i as int),
                        ),
                    decreases records.len() - i,
                {
                    match &records[i] {
                        None => {
                            assert(records@[i as int] is None);
                            return Err(RegistryError::MalformedEntry { name: req.name().clone() });
                        },
                        Some(manifest) => {
                            let ghost before = manifest_views(manifests@);
                            let ghost all = decoded(records@);
                            assert(all.take(i + 1).drop_last() =~= all.take(i as int));
                            assert(all.take(i + 1).last() == manifest@);
                            if req.matches(manifest.name(), manifest.version()) {
                                manifests.push(manifest.clone());
                                assert(manifest_views(manifests@) =~= before.push(manifest@));
                            }
                        },
                    }
                    i = i + 1;
                }
                assert(decoded(records@).take(records@.len() as int) =~= decoded(records@));
                Ok(manifests)
            },
        }
    }

    /// Hands out the contents of a version.
    ///
    /// `blob` says how the reading of the file at `contents_path` ended and,
    /// where it was read, holds its bytes.
    pub fn download_package(&self, id: &PackageId, blob: ReadOutcome<Vec<u8>>) -> (contents: Result<
        PackageContents,
        RegistryError,
    >)
        ensures
            match blob {
                ReadOutcome::Found(bytes) => contents matches Ok(c) && c@ == bytes@,
                ReadOutcome::Missing => contents matches Err(e) && e@ == (
                ErrorView::ContentsNotFound { id: id@ }),
                ReadOutcome::Failed => contents matches Err(e) && e@ == (ErrorView::Io {
                    operation: Operation::Read,
                    path: contents_file(self@, id@),
                }),
            },
    {
        match blob {
            ReadOutcome::Found(bytes) => Ok(PackageContents::from_buffer(bytes)),
            ReadOutcome::Missing => Err(RegistryError::ContentsNotFound { id: id.clone() }),
            ReadOutcome::Failed => Err(
                RegistryError::Io { operation: Operation::Read, path: self.contents_path(id) },
            ),
        }
    }

    /// The places of the registries to fall back on, in the order of the
    /// configuration, each still to be resolved to an absolute path.
    ///
    /// `config` says how the reading of the file at `config_path` ended and,
    /// where it was read, holds the configuration, or `None` where what the
    /// file holds is no configuration.
    pub fn fallback_places(&self, config: &ReadOutcome<Option<PackageIndexConfig>>) -> (places:
        Result<Vec<StorePath>, RegistryError>)
        ensures
            match config {
                ReadOutcome::Found(Some(listed)) => places matches Ok(paths) && path_views(paths@)
                    == fallback_places(self@, listed@),
                ReadOutcome::Found(None) => places matches Err(e) && e@
                    == ErrorView::MalformedConfig,
                ReadOutcome::Missing => places matches Err(e) && e@ == ErrorView::ConfigNotFound,
                ReadOutcome::Failed => places matches Err(e) && e@ == (ErrorView::Io {
                    operation: Operation::Read,
                    path: config_file(self@),
                }),
            },
    {
        match config {
            ReadOutcome::Found(Some(listed)) => {
                let mut paths: Vec<StorePath> = Vec::new();
                let mut i: usize = 0;
                while i < listed.fallback_registries.len()
                    invariant
                        i <= listed.fallback_registries.len(),
                        paths.len() == i,
                        forall|j: int|
                            0 <= j < i ==> (#[trigger] paths@[j])@ == relative_to(
                                self@,
                                listed@[j],
                            ),
                    decreases listed.fallback_registries.len() - i,
                {
                    let mut segments: Vec<String> = Vec::new();
                    segments.push(listed.fallback_registries[i].clone());
                    let path = StorePath { root: self.path.clone(), segments };
                    assert(path@.segments =~= seq![listed@[i as int]]);
                    paths.push(path);
                    i = i + 1;
                }
                assert(path_views(paths@) =~= fallback_places(self@, listed@));
                Ok(paths)
            },
            ReadOutcome::Found(None) => Err(RegistryError::MalformedConfig),
            ReadOutcome::Missing => Err(RegistryError::ConfigNotFound),
            ReadOutcome::Failed => Err(
                RegistryError::Io { operation: Operation::Read, path: self.config_path() },
            ),
        }
    }

    /// The registries to fall back on, in the order of the configuration.
    ///
    /// `resolved` holds, for each place that `fallback_places` gave and in
    /// the same order, the absolute path that it was resolved to, or `None`
    /// where it could not be resolved. One place that could not be resolved
    /// makes the whole answer a failure, which names the first such place.
    pub fn fallback_sources(&self, resolved: Vec<Option<String>>) -> (sources: Result<
        Vec<PackageSourceId>,
        RegistryError,
    >)
        ensures
            match sources {
                Ok(list) => all_resolved(resolved@) && source_views(list@) == resolved_paths(
                    resolved@,
                ),
                Err(e) => e@ matches ErrorView::UnresolvedFallback { position }
                    && first_unresolved(resolved@, position),
            },
    {
        let mut list: Vec<PackageSourceId> = Vec::new();
        let mut i: usize = 0;
        while i < resolved.len()
            invariant
                i <= resolved.len(),
                list.len() == i,
                forall|j: int| 0 <= j < i ==> (#[trigger] resolved@[j]) is Some,
                forall|j: int| 0 <= j < i ==> (#[trigger] list@[j])@ == resolved@[j]->0@,
            decreases resolved.len() - i,
        {
            match &resolved[i] {
                None => {
                    assert(resolved@[i as int] is None);
                    return Err(RegistryError::UnresolvedFallback { position: i });
                },
                Some(path) => {
                    list.push(PackageSourceId::Path(path.clone()));
                },
            }
            i = i + 1;
        }
        assert(source_views(list@) =~= resolved_paths(resolved@));
        Ok(list)
    }
}

} // verus!
