//! Include/exclude rules constraining which sub-paths a scan reports.

use vstd::prelude::*;

use crate::paths::{bytes_dup, join_paths, path_join, path_starts_with, starts_with_path};

verus! {

/// Mathematical value of a [`Location`].
pub ghost enum LocationV {
    Include(Seq<u8>),
    Exclude(Seq<u8>),
}

impl LocationV {
    pub open spec fn path(self) -> Seq<u8> {
        match self {
            LocationV::Include(p) => p,
            LocationV::Exclude(p) => p,
        }
    }

    pub open spec fn is_include(self) -> bool {
        self is Include
    }
}

/// One rule of the ordered location tree: sync everything under `Include`,
/// nothing under `Exclude`, the deepest applicable rule winning.
#[derive(Debug, PartialEq)]
pub enum Location {
    Include(Vec<u8>),
    Exclude(Vec<u8>),
}

impl View for Location {
    type V = LocationV;

    open spec fn view(&self) -> LocationV {
        match self {
            Location::Include(p) => LocationV::Include(p@),
            Location::Exclude(p) => LocationV::Exclude(p@),
        }
    }
}

impl Location {
    pub fn path(&self) -> (r: &Vec<u8>)
        ensures
            r@ == self@.path(),
    {
        match self {
            Location::Include(path) => path,
            Location::Exclude(path) => path,
        }
    }

    pub fn is_include(&self) -> (r: bool)
        ensures
            r == self@.is_include(),
    {
        match self {
            Location::Include(_) => true,
            Location::Exclude(_) => false,
        }
    }

    pub fn is_exclude(&self) -> (r: bool)
        ensures
            r == !self@.is_include(),
    {
        !self.is_include()
    }

    /// Does this rule's path start with (lie at or under) `p`?
    pub fn path_ref_starts_with(&self, p: &Vec<u8>) -> (r: bool)
        ensures
            r == path_starts_with(self@.path(), p@),
    {
        starts_with_path(self.path(), p)
    }

    /// The same rule with its path re-rooted under `p`.
    pub fn prefix(&self, p: &Vec<u8>) -> (r: Self)
        ensures
            r@ == match self@ {
                LocationV::Include(q) => LocationV::Include(path_join(p@, q)),
                LocationV::Exclude(q) => LocationV::Exclude(path_join(p@, q)),
            },
    {
        match self {
            Location::Include(path) => Location::Include(join_paths(p, path)),
            Location::Exclude(path) => Location::Exclude(join_paths(p, path)),
        }
    }

    /// A copy with the same value.
    pub fn duplicate(&self) -> (r: Self)
        ensures
            r@ == self@,
    {
        match self {
            Location::Include(path) => Location::Include(bytes_dup(path)),
            Location::Exclude(path) => Location::Exclude(bytes_dup(path)),
        }
    }
}

} // verus!
