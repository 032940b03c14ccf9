//! What can go wrong, and what is handed in of a file that was to be read.

use vstd::prelude::*;
use crate::files::{FileOp, Operation};
use crate::layout::{PathView, StorePath};
use crate::name::{NameView, PackageName};
use crate::package::{IdView, PackageId};

verus! {

/// How the reading of one file ended.
#[derive(Debug, PartialEq, Eq)]
pub enum ReadOutcome<T> {
    /// The file is there, and this was made of what it holds.
    Found(T),
    /// There is no such file.
    Missing,
    /// The file could not be read, for another reason than its absence.
    Failed,
}

/// A failure of the registry, as plain values.
pub ghost enum ErrorView {
    PackageNotFound { name: NameView },
    ContentsNotFound { id: IdView },
    ConfigNotFound,
    Io { operation: Operation, path: PathView },
    MalformedEntry { name: NameView },
    MalformedConfig,
    UnresolvedFallback { position: int },
}

impl ErrorView {
    /// The failure says that what was asked for is not there.
    pub open spec fn is_not_found(self) -> bool {
        self is PackageNotFound || self is ContentsNotFound || self is ConfigNotFound
    }
}

/// A failure of the registry.
#[derive(Debug, PartialEq, Eq)]
pub enum RegistryError {
    /// The index holds no file for this package name.
    PackageNotFound { name: PackageName },
    /// No contents are kept for this version.
    ContentsNotFound { id: PackageId },
    /// The registry has no configuration file.
    ConfigNotFound,
    /// An operation on a file or a directory failed.
    Io { operation: Operation, path: StorePath },
    /// A record in the index of this package name could not be read.
    MalformedEntry { name: PackageName },
    /// The configuration file could not be read as a configuration.
    MalformedConfig,
    /// The registry at this position of the configured list could not be found.
    UnresolvedFallback { position: usize },
}

impl View for RegistryError {
    type V = ErrorView;

    open spec fn view(&self) -> ErrorView {
        match self {
            RegistryError::PackageNotFound { name } => ErrorView::PackageNotFound { name: name@ },
            RegistryError::ContentsNotFound { id } => ErrorView::ContentsNotFound { id: id@ },
            RegistryError::ConfigNotFound => ErrorView::ConfigNotFound,
            RegistryError::Io { operation, path } => ErrorView::Io {
                operation: *operation,
                path: path@,
            },
            RegistryError::MalformedEntry { name } => ErrorView::MalformedEntry { name: name@ },
            RegistryError::MalformedConfig => ErrorView::MalformedConfig,
            RegistryError::UnresolvedFallback { position } => ErrorView::UnresolvedFallback {
                position: *position as int,
            },
        }
    }
}

impl RegistryError {
    /// The failure to report when an operation on the files did not go
    /// through: it names the kind of the operation and the place.
    pub fn of_operation(op: &FileOp) -> (failure: RegistryError)
        ensures
            failure@ == (ErrorView::Io { operation: op@.operation(), path: op@.path() }),
    {
        match op {
            FileOp::CreateDirAll { path } => RegistryError::Io {
                operation: Operation::CreateDir,
                path: path.clone(),
            },
            FileOp::Append { path, .. } => RegistryError::Io {
                operation: Operation::Append,
                path: path.clone(),
            },
            FileOp::Write { path, .. } => RegistryError::Io {
                operation: Operation::Write,
                path: path.clone(),
            },
        }
    }

    /// Whether the failure says that what was asked for is not there, so that
    /// another registry may be asked.
    pub fn is_not_found(&self) -> (absent: bool)
        ensures
            absent == self@.is_not_found(),
    {
        match self {
            RegistryError::PackageNotFound { .. } => true,
            RegistryError::ContentsNotFound { .. } => true,
            RegistryError::ConfigNotFound => true,
            _ => false,
        }
    }
}

} // verus!
