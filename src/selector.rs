use vstd::prelude::*;
use crate::package::{PackageInfo, PackageModel};
use crate::range::{range_matches, ComparatorModel, VersionRange};
use crate::version::{cmp_version, Version, VersionModel};

verus! {

/// A target engine version, handed to the engine-compatibility predicate.
#[derive(Clone, Copy, Debug, PartialEq, Eq, Structural)]
pub struct UnityVersion {
    pub major: u16,
    pub minor: u8,
    pub revision: u8,
}

/// What a selector asks for, as a mathematical value.
pub enum SelectorModel {
    Specific(VersionModel),
    Latest { project_unity: Option<UnityVersion>, include_prerelease: bool },
    Range { project_unity: Option<UnityVersion>, range: Seq<ComparatorModel> },
    Ranges { project_unity: Option<UnityVersion>, ranges: Seq<Seq<ComparatorModel>> },
}

/// Not withdrawn, and usable with the target engine if there is one;
/// `compatible` is the engine-compatibility predicate's answer.
pub open spec fn unity_and_yank(
    pkg: PackageModel,
    project_unity: Option<UnityVersion>,
    compatible: bool,
) -> bool {
    !pkg.yanked && (project_unity is None || compatible)
}

/// Whether every range of `ranges` holds `v`.
pub open spec fn all_ranges_match(ranges: Seq<Seq<ComparatorModel>>, v: VersionModel) -> bool {
    forall|i: int| 0 <= i < ranges.len() ==> range_matches(#[trigger] ranges[i], v)
}

/// Whether `pkg` is acceptable to `sel`.
pub open spec fn selects(sel: SelectorModel, pkg: PackageModel, compatible: bool) -> bool {
    match sel {
        SelectorModel::Specific(v) => cmp_version(v, pkg.version) == 0,
        SelectorModel::Latest { project_unity, include_prerelease } => (include_prerelease
            || pkg.version.pre.len() == 0) && unity_and_yank(pkg, project_unity, compatible),
        SelectorModel::Range { project_unity, range } => range_matches(range, pkg.version)
            && unity_and_yank(pkg, project_unity, compatible),
        SelectorModel::Ranges { project_unity, ranges } => all_ranges_match(ranges, pkg.version)
            && unity_and_yank(pkg, project_unity, compatible),
    }
}

#[derive(Clone, Copy)]
enum SelectorInner<'a> {
    Specific(&'a Version),
    Latest { project_unity: Option<UnityVersion>, include_prerelease: bool },
    Range { project_unity: Option<UnityVersion>, range: &'a VersionRange },
    Ranges { project_unity: Option<UnityVersion>, ranges: &'a [&'a VersionRange] },
}

/// What counts as an acceptable package for one request.
#[derive(Clone, Copy)]
pub struct PackageSelector<'a> {
    inner: SelectorInner<'a>,
}

impl<'a> View for PackageSelector<'a> {
    type V = SelectorModel;

    closed spec fn view(&self) -> SelectorModel {
        match self.inner {
            SelectorInner::Specific(v) => SelectorModel::Specific(v@),
            SelectorInner::Latest { project_unity, include_prerelease } => SelectorModel::Latest {
                project_unity,
                include_prerelease,
            },
            SelectorInner::Range { project_unity, range } => SelectorModel::Range {
                project_unity,
                range: range@,
            },
            SelectorInner::Ranges { project_unity, ranges } => SelectorModel::Ranges {
                project_unity,
                ranges: ranges@.map_values(|r: &VersionRange| r@),
            },
        }
    }
}

impl<'a> PackageSelector<'a> {
    /// Exactly `version`, withdrawn or not.
    pub fn specific_version(version: &'a Version) -> (r: Self)
        ensures
            r@ == SelectorModel::Specific(version@),
    {
        Self { inner: SelectorInner::Specific(version) }
    }

    /// The newest usable package; pre-releases only if asked for.
    pub fn latest_for(unity_version: Option<UnityVersion>, include_prerelease: bool) -> (r: Self)
        ensures
            r@ == (SelectorModel::Latest { project_unity: unity_version, include_prerelease }),
    {
        Self { inner: SelectorInner::Latest { project_unity: unity_version, include_prerelease } }
    }

    /// A usable package in `range`.
    pub fn range_for(unity_version: Option<UnityVersion>, range: &'a VersionRange) -> (r: Self)
        ensures
            r@ == (SelectorModel::Range { project_unity: unity_version, range: range@ }),
    {
        Self { inner: SelectorInner::Range { project_unity: unity_version, range } }
    }

    /// A usable package in every one of `ranges`.
    pub fn ranges_for(unity_version: Option<UnityVersion>, ranges: &'a [&'a VersionRange]) -> (r:
        Self)
        ensures
            r@ == (SelectorModel::Ranges {
                project_unity: unity_version,
                ranges: ranges@.map_values(|x: &VersionRange| x@),
            }),
    {
        Self { inner: SelectorInner::Ranges { project_unity: unity_version, ranges } }
    }

    /// The requested version of an exact selector.
    pub fn as_specific(&self) -> (r: Option<&'a Version>)
        ensures
            self@ is Specific <==> r is Some,
            r is Some ==> self@ == SelectorModel::Specific(r->Some_0@),
    {
        match self.inner {
            SelectorInner::Specific(version) => Some(version),
            _ => None,
        }
    }

    /// The engine version the compatibility predicate is asked about, if any.
    pub fn target_unity(&self) -> (r: Option<UnityVersion>)
        ensures
            match self@ {
                SelectorModel::Specific(_) => r is None,
                SelectorModel::Latest { project_unity, .. } => r == project_unity,
                SelectorModel::Range { project_unity, .. } => r == project_unity,
                SelectorModel::Ranges { project_unity, .. } => r == project_unity,
            },
    {
        match self.inner {
            SelectorInner::Specific(_) => None,
            SelectorInner::Latest { project_unity, .. } => project_unity,
            SelectorInner::Range { project_unity, .. } => project_unity,
            SelectorInner::Ranges { project_unity, .. } => project_unity,
        }
    }

    /// Whether `package` is acceptable; `unity_compatible` is the answer of the
    /// engine-compatibility predicate for this package and the target engine
    /// version, and is not consulted where there is none.
    pub fn satisfies(&self, package: &PackageInfo, unity_compatible: bool) -> (r: bool)
        ensures
            r == selects(self@, package@, unity_compatible),
    {
        match self.inner {
            SelectorInner::Specific(finding) => {
                finding.cmp_precedence(&package.version) == 0
            },
            SelectorInner::Latest { include_prerelease, project_unity } => {
                (include_prerelease || package.version.is_stable()) && unity_and_yank_exec(
                    package,
                    project_unity,
                    unity_compatible,
                )
            },
            SelectorInner::Range { range, project_unity } => {
                range.matches(&package.version) && unity_and_yank_exec(
                    package,
                    project_unity,
                    unity_compatible,
                )
            },
            SelectorInner::Ranges { ranges, project_unity } => {
                let ghost rs = ranges@.map_values(|x: &VersionRange| x@);
                let mut i: usize = 0;
                let mut all = true;
                while i < ranges.len()
                    invariant
                        i <= ranges@.len(),
                        rs == ranges@.map_values(|x: &VersionRange| x@),
                        all == all_ranges_match(rs.take(i as int), package@.version),
                    decreases ranges@.len() - i,
                {
                    let m = ranges[i].matches(&package.version);
                    proof {
                        assert(rs[i as int] == ranges@[i as int]@);
                        assert(rs.take(i + 1).drop_last() =~= rs.take(i as int));
                        if !m {
                            assert(!range_matches(rs.take(i + 1)[i as int], package@.version));
                        }
                    }
                    all = all && m;
                    i += 1;
                }
                proof {
                    assert(rs.take(i as int) =~= rs);
                }
                all && unity_and_yank_exec(package, project_unity, unity_compatible)
            },
        }
    }
}

fn unity_and_yank_exec(package: &PackageInfo, project_unity: Option<UnityVersion>, compatible: bool) -> (r:
    bool)
    ensures
        r == unity_and_yank(package@, project_unity, compatible),
{
    if package.is_yanked() {
        return false;
    }
    match project_unity {
        Some(_) => compatible,
        None => true,
    }
}

/// A range selector takes a package exactly when the range holds its version,
/// the package is not withdrawn, and either no engine is targeted or the
/// compatibility predicate holds.
pub proof fn lemma_range_selector(
    project_unity: Option<UnityVersion>,
    range: Seq<ComparatorModel>,
    pkg: PackageModel,
    compatible: bool,
)
    ensures
        selects(SelectorModel::Range { project_unity, range }, pkg, compatible) == (range_matches(
            range,
            pkg.version,
        ) && !pkg.yanked && (project_unity is None || compatible)),
{
}

/// An exact selector takes a withdrawn package of the requested version.
pub proof fn lemma_specific_takes_yanked(v: VersionModel, pkg: PackageModel, compatible: bool)
    requires
        pkg.yanked,
        cmp_version(v, pkg.version) == 0,
    ensures
        selects(SelectorModel::Specific(v), pkg, compatible),
{
}

} // verus!
