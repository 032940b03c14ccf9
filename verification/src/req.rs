//! Requests for a package: a name, and bounds that a version has to meet.

use vstd::prelude::*;
use crate::name::{NameView, PackageName};
use crate::version::PackageVersion;

verus! {

/// How a version is held against a bound.
#[derive(Clone, Copy, Debug, PartialEq, Eq, Structural)]
pub enum Bound {
    /// The version is the bound.
    Exact,
    /// The version comes after the bound.
    Greater,
    /// The version is the bound or comes after it.
    GreaterEq,
    /// The version comes before the bound.
    Less,
    /// The version is the bound or comes before it.
    LessEq,
}

/// One bound on a version.
#[derive(Clone, Copy, Debug, PartialEq, Eq, Structural)]
pub struct Comparator {
    pub bound: Bound,
    pub version: PackageVersion,
}

impl Comparator {
    /// The version meets this bound.
    pub open spec fn admits(self, version: PackageVersion) -> bool {
        match self.bound {
            Bound::Exact => version == self.version,
            Bound::Greater => self.version.before(version),
            Bound::GreaterEq => !version.before(self.version),
            Bound::Less => version.before(self.version),
            Bound::LessEq => !self.version.before(version),
        }
    }

    pub fn new(bound: Bound, version: PackageVersion) -> (comparator: Comparator)
        ensures
            comparator == (Comparator { bound, version }),
    {
        Comparator { bound, version }
    }

    /// Whether the version meets this bound.
    pub fn is_met_by(&self, version: &PackageVersion) -> (met: bool)
        ensures
            met == self.admits(*version),
    {
        match self.bound {
            Bound::Exact => *version == self.version,
            Bound::Greater => self.version.is_before(version),
            Bound::GreaterEq => !version.is_before(&self.version),
            Bound::Less => version.is_before(&self.version),
            Bound::LessEq => !self.version.is_before(version),
        }
    }
}

/// What a request asks for, as plain values.
pub ghost struct ReqView {
    pub name: NameView,
    pub comparators: Seq<Comparator>,
}

impl ReqView {
    /// The version meets every bound of the request.
    pub open spec fn admits(self, version: PackageVersion) -> bool {
        forall|i: int| 0 <= i < self.comparators.len() ==> (#[trigger] self.comparators[i]).admits(
            version,
        )
    }

    /// The request is for this name, and the version meets every bound.
    pub open spec fn matches(self, name: NameView, version: PackageVersion) -> bool {
        self.name == name && self.admits(version)
    }
}

/// A request for the versions of one package that meet all of its bounds.
#[derive(Debug, PartialEq, Eq)]
pub struct PackageReq {
    name: PackageName,
    comparators: Vec<Comparator>,
}

impl View for PackageReq {
    type V = ReqView;

    closed spec fn view(&self) -> ReqView {
        ReqView { name: self.name@, comparators: self.comparators@ }
    }
}

impl PackageReq {
    pub fn new(name: PackageName, comparators: Vec<Comparator>) -> (req: PackageReq)
        ensures
            req@ == (ReqView { name: name@, comparators: comparators@ }),
    {
        PackageReq { name, comparators }
    }

    pub fn name(&self) -> (name: &PackageName)
        ensures
            name@ == self@.name,
    {
        &self.name
    }

    /// Whether a package of this name and version is one that the request asks for.
    pub fn matches(&self, name: &PackageName, version: &PackageVersion) -> (matched: bool)
        ensures
            matched == self@.matches(name@, *version),
    {
        if !self.name.same_as(name) {
            return false;
        }
        let mut i: usize = 0;
        while i < self.comparators.len()
            invariant
                i <= self.comparators.len(),
                self@.name == name@,
                forall|j: int| 0 <= j < i ==> (#[trigger] self.comparators@[j]).admits(*version),
            decreases self.comparators.len() - i,
        {
            if !self.comparators[i].is_met_by(version) {
                assert(!self@.comparators[i as int].admits(*version));
                return false;
            }
            i = i + 1;
        }
        true
    }
}

} // verus!
