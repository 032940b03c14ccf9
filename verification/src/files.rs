//! The file operations that the registry asks for, and what they do to the
//! files below a root.
//!
//! The registry performs no operation itself. It says which operations are
//! to be made, in order; whoever holds the files makes them. `Files` states
//! what each operation means, so that what a sequence of operations leaves
//! behind can be reasoned about.

use vstd::prelude::*;
use crate::layout::{PathView, StorePath};

verus! {

/// The kinds of operation on a file or a directory.
#[derive(Clone, Copy, Debug, PartialEq, Eq, Structural)]
pub enum Operation {
    /// Create a directory and all that lead to it.
    CreateDir,
    /// Add bytes at the end of a file, creating it if need be.
    Append,
    /// Replace a file by the given bytes, creating it if need be.
    Write,
    /// Read a file whole.
    Read,
}

/// One change to the files, as plain values.
pub ghost enum FileOpView {
    CreateDirAll { path: PathView },
    Append { path: PathView, bytes: Seq<u8> },
    Write { path: PathView, bytes: Seq<u8> },
}

/// One change to the files.
#[derive(Debug, PartialEq, Eq)]
pub enum FileOp {
    /// Create the directory at `path`, and its parents, unless they exist.
    CreateDirAll { path: StorePath },
    /// Add `bytes` at the end of the file at `path`; create it if it is not there.
    Append { path: StorePath, bytes: Vec<u8> },
    /// Make `bytes` the whole of the file at `path`, whatever it held before.
    Write { path: StorePath, bytes: Vec<u8> },
}

impl View for FileOp {
    type V = FileOpView;

    open spec fn view(&self) -> FileOpView {
        match self {
            FileOp::CreateDirAll { path } => FileOpView::CreateDirAll { path: path@ },
            FileOp::Append { path, bytes } => FileOpView::Append { path: path@, bytes: bytes@ },
            FileOp::Write { path, bytes } => FileOpView::Write { path: path@, bytes: bytes@ },
        }
    }
}

impl FileOpView {
    /// The place that the operation touches.
    pub open spec fn path(self) -> PathView {
        match self {
            FileOpView::CreateDirAll { path } => path,
            FileOpView::Append { path, .. } => path,
            FileOpView::Write { path, .. } => path,
        }
    }

    /// The kind of the operation.
    pub open spec fn operation(self) -> Operation {
        match self {
            FileOpView::CreateDirAll { .. } => Operation::CreateDir,
            FileOpView::Append { .. } => Operation::Append,
            FileOpView::Write { .. } => Operation::Write,
        }
    }
}

/// The views of a list of operations.
pub open spec fn op_views(ops: Seq<FileOp>) -> Seq<FileOpView> {
    Seq::new(ops.len(), |i: int| ops[i]@)
}

/// The files below a root: what each file holds, by its place. A place that
/// is not in the map holds no file.
pub type Files = Map<PathView, Seq<u8>>;

/// What a file holds, or nothing where there is none.
pub open spec fn read(files: Files, path: PathView) -> Option<Seq<u8>> {
    if files.dom().contains(path) {
        Some(files[path])
    } else {
        None
    }
}

/// What a file holds, a missing file counting as an empty one.
pub open spec fn bytes_at(files: Files, path: PathView) -> Seq<u8> {
    match read(files, path) {
        Some(bytes) => bytes,
        None => Seq::empty(),
    }
}

/// The files after one operation that went well.
pub open spec fn apply(files: Files, op: FileOpView) -> Files {
    match op {
        FileOpView::CreateDirAll { .. } => files,
        FileOpView::Append { path, bytes } => files.insert(path, bytes_at(files, path) + bytes),
        FileOpView::Write { path, bytes } => files.insert(path, bytes),
    }
}

/// The files after a sequence of operations that all went well, made in order.
pub open spec fn apply_all(files: Files, ops: Seq<FileOpView>) -> Files
    decreases ops.len(),
{
    if ops.len() == 0 {
        files
    } else {
        apply(apply_all(files, ops.drop_last()), ops.last())
    }
}

} // verus!
