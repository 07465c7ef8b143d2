use vstd::prelude::*;
use crate::version::{Version, VersionModel};

verus! {

/// Where a package was found.
#[derive(Debug)]
pub enum PackageSource {
    /// A repository, by the local path of its cache file.
    Repository(String),
    /// A package folder of the user, by its path.
    UserFolder(String),
}

/// A package as the logic sees it: name, version, withdrawal flag.
pub struct PackageModel {
    pub name: Seq<char>,
    pub version: VersionModel,
    pub yanked: bool,
}

/// A package manifest bound to the source it came from.
#[derive(Debug)]
pub struct PackageInfo {
    pub name: String,
    pub version: Version,
    pub yanked: bool,
    pub source: PackageSource,
}

impl View for PackageInfo {
    type V = PackageModel;

    open spec fn view(&self) -> PackageModel {
        PackageModel { name: self.name@, version: self.version@, yanked: self.yanked }
    }
}

impl PackageInfo {
    /// The package's version.
    pub fn version(&self) -> (r: &Version)
        ensures
            r == &self.version,
    {
        &self.version
    }

    /// Whether the publisher withdrew this version.
    pub fn is_yanked(&self) -> (r: bool)
        ensures
            r == self.yanked,
    {
        self.yanked
    }
}

} // verus!
