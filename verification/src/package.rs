//! What is published: manifests, the identity of a package and its contents.

use vstd::prelude::*;
use crate::name::{NameView, PackageName};
use crate::version::PackageVersion;

verus! {

/// The byte that ends a record in an index file.
pub const NEWLINE: u8 = 10;

/// The bytes hold no line break: they fit on one line of an index file.
pub open spec fn single_line(bytes: Seq<u8>) -> bool {
    forall|i: int| 0 <= i < bytes.len() ==> bytes[i] != NEWLINE
}

/// What names one published artifact, as plain values.
pub ghost struct IdView {
    pub name: NameView,
    pub version: PackageVersion,
}

/// The identity of one published artifact: a name and a version.
#[derive(Debug, PartialEq, Eq)]
pub struct PackageId {
    name: PackageName,
    version: PackageVersion,
}

impl View for PackageId {
    type V = IdView;

    closed spec fn view(&self) -> IdView {
        IdView { name: self.name@, version: self.version }
    }
}

impl PackageId {
    pub fn new(name: PackageName, version: PackageVersion) -> (id: PackageId)
        ensures
            id@ == (IdView { name: name@, version }),
    {
        PackageId { name, version }
    }

    pub fn name(&self) -> (name: &PackageName)
        ensures
            name@ == self@.name,
    {
        &self.name
    }

    pub fn version(&self) -> (version: &PackageVersion)
        ensures
            *version == self@.version,
    {
        &self.version
    }
}

impl Clone for PackageId {
    fn clone(&self) -> (copy: Self)
        ensures
            copy@ == self@,
    {
        PackageId { name: self.name.clone(), version: self.version }
    }
}

/// The bytes of one published artifact. Nothing is known or asked of them.
#[derive(Debug, PartialEq, Eq)]
pub struct PackageContents {
    data: Vec<u8>,
}

impl View for PackageContents {
    type V = Seq<u8>;

    closed spec fn view(&self) -> Seq<u8> {
        self.data@
    }
}

impl PackageContents {
    pub fn from_buffer(data: Vec<u8>) -> (contents: PackageContents)
        ensures
            contents@ == data@,
    {
        PackageContents { data }
    }

    pub fn data(&self) -> (data: &Vec<u8>)
        ensures
            data@ == self@,
    {
        &self.data
    }
}

/// What a manifest is, as plain values.
pub ghost struct ManifestView {
    pub name: NameView,
    pub version: PackageVersion,
    pub record: Seq<u8>,
}

impl ManifestView {
    pub open spec fn id(self) -> IdView {
        IdView { name: self.name, version: self.version }
    }

    /// The name is well-formed and the record fits on one line.
    pub open spec fn wf(self) -> bool {
        self.name.wf() && single_line(self.record)
    }
}

/// The description of one version of a package: the name and version by which
/// it is found, and the record that is kept of it, as one line of text.
#[derive(Debug, PartialEq, Eq)]
pub struct Manifest {
    name: PackageName,
    version: PackageVersion,
    record: Vec<u8>,
}

impl View for Manifest {
    type V = ManifestView;

    closed spec fn view(&self) -> ManifestView {
        ManifestView { name: self.name@, version: self.version, record: self.record@ }
    }
}

impl Manifest {
    #[verifier::type_invariant]
    spec fn inv(self) -> bool {
        single_line(self.record@)
    }

    /// Builds a manifest, unless the record holds a line break.
    pub fn new(name: PackageName, version: PackageVersion, record: Vec<u8>) -> (made: Option<
        Manifest,
    >)
        ensures
            made is Some <==> single_line(record@),
            made matches Some(m) ==> m@ == (ManifestView { name: name@, version, record: record@ }),
    {
        let mut i: usize = 0;
        while i < record.len()
            invariant
                i <= record.len(),
                forall|j: int| 0 <= j < i ==> record@[j] != NEWLINE,
            decreases record.len() - i,
        {
            if record[i] == NEWLINE {
                return None;
            }
            i = i + 1;
        }
        Some(Manifest { name, version, record })
    }

    pub fn name(&self) -> (name: &PackageName)
        ensures
            name@ == self@.name,
    {
        &self.name
    }

    pub fn version(&self) -> (version: &PackageVersion)
        ensures
            *version == self@.version,
    {
        &self.version
    }

    /// The line that is kept of this manifest, without its line break.
    pub fn record(&self) -> (record: &Vec<u8>)
        ensures
            record@ == self@.record,
            single_line(record@),
    {
        proof {
            use_type_invariant(self);
        }
        &self.record
    }

    pub fn package_id(&self) -> (id: PackageId)
        ensures
            id@ == self@.id(),
    {
        PackageId::new(self.name.clone(), self.version)
    }
}

impl Clone for Manifest {
    fn clone(&self) -> (copy: Self)
        ensures
            copy@ == self@,
    {
        proof {
            use_type_invariant(self);
        }
        Manifest { name: self.name.clone(), version: self.version, record: self.record.clone() }
    }
}

} // verus!
