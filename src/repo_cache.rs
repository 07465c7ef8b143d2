use vstd::prelude::*;
use crate::package::{PackageInfo, PackageModel};

verus! {

/// A loaded repository: what it reports of itself and its packages.
#[derive(Debug)]
pub struct LocalCachedRepository {
    pub id: Option<String>,
    pub url: Option<String>,
    pub name: Option<String>,
    pub packages: Vec<PackageInfo>,
}

pub struct RepoModel {
    pub id: Option<Seq<char>>,
    pub url: Option<Seq<char>>,
    pub packages: Seq<PackageModel>,
}

pub open spec fn opt_view(o: Option<String>) -> Option<Seq<char>> {
    match o {
        Some(s) => Some(s@),
        None => None,
    }
}

impl View for LocalCachedRepository {
    type V = RepoModel;

    open spec fn view(&self) -> RepoModel {
        RepoModel {
            id: opt_view(self.id),
            url: opt_view(self.url),
            packages: self.packages@.map_values(|p: PackageInfo| p@),
        }
    }
}

/// Compares two optional strings.
pub fn opt_str_eq(a: &Option<String>, b: &Option<String>) -> (r: bool)
    ensures
        r == (opt_view(*a) == opt_view(*b)),
{
    match a {
        Some(x) => match b {
            Some(y) => {
                *x == *y
            },
            None => false,
        },
        None => b.is_none(),
    }
}

/// One entry of the cache: a repository and the local file it was read from.
#[derive(Debug)]
pub struct CachedRepo {
    pub local_path: String,
    pub repo: LocalCachedRepository,
}

/// The loaded repositories, keyed by the path of their local cache file.
#[derive(Debug)]
pub struct RepoHolder {
    entries: Vec<CachedRepo>,
}

/// The first repository cached under `path`.
pub open spec fn lookup(entries: Seq<(Seq<char>, RepoModel)>, path: Seq<char>) -> Option<RepoModel>
    decreases entries.len(),
{
    if entries.len() == 0 {
        None
    } else if entries[0].0 == path {
        Some(entries[0].1)
    } else {
        lookup(entries.drop_first(), path)
    }
}

/// The entries without those cached under `path`.
pub open spec fn without(entries: Seq<(Seq<char>, RepoModel)>, path: Seq<char>) -> Seq<
    (Seq<char>, RepoModel),
>
    decreases entries.len(),
{
    if entries.len() == 0 {
        entries
    } else {
        let w = without(entries.drop_last(), path);
        if entries.last().0 != path {
            w.push(entries.last())
        } else {
            w
        }
    }
}

impl View for RepoHolder {
    type V = Seq<(Seq<char>, RepoModel)>;

    closed spec fn view(&self) -> Seq<(Seq<char>, RepoModel)> {
        self.entries@.map_values(|e: CachedRepo| (e.local_path@, e.repo@))
    }
}

impl RepoHolder {
    /// An empty cache.
    pub fn new() -> (r: Self)
        ensures
            r@ == Seq::<(Seq<char>, RepoModel)>::empty(),
    {
        let r = RepoHolder { entries: Vec::new() };
        proof {
            assert(r@ =~= Seq::<(Seq<char>, RepoModel)>::empty());
        }
        r
    }

    /// The number of loaded repositories.
    pub fn len(&self) -> (r: usize)
        ensures
            r == self@.len(),
    {
        self.entries.len()
    }

    /// The repository at position `i`, with its path.
    pub fn entry(&self, i: usize) -> (r: &CachedRepo)
        requires
            i < self@.len(),
        ensures
            (r.local_path@, r.repo@) == self@[i as int],
    {
        &self.entries[i]
    }

    /// The repository cached under `path`.
    pub fn get_repo(&self, path: &String) -> (r: Option<&LocalCachedRepository>)
        ensures
            match r {
                Some(x) => lookup(self@, path@) == Some(x@),
                None => lookup(self@, path@) is None,
            },
    {
        let ghost v = self@;
        let mut i: usize = 0;
        proof {
            assert(v.skip(0) =~= v);
        }
        while i < self.entries.len()
            invariant
                i <= self.entries@.len(),
                v == self@,
                v.len() == self.entries@.len(),
                lookup(v, path@) == lookup(v.skip(i as int), path@),
            decreases self.entries@.len() - i,
        {
            proof {
                assert(v.skip(i as int).drop_first() =~= v.skip(i + 1));
                assert(v.skip(i as int)[0] == v[i as int]);
            }
            if self.entries[i].local_path == *path {
                return Some(&self.entries[i].repo);
            }
            i += 1;
        }
        None
    }

    /// Drops every repository cached under `path`.
    pub fn remove_repo(&mut self, path: &String)
        ensures
            final(self)@ == without(old(self)@, path@),
    {
        let ghost v = self@;
        let ghost mut j: int = 0;
        let mut i: usize = 0;
        proof {
            assert(v.take(0) =~= Seq::<(Seq<char>, RepoModel)>::empty());
            assert(self@.take(0) =~= Seq::<(Seq<char>, RepoModel)>::empty());
            assert(v.skip(0) =~= v);
            assert(self@.skip(0) =~= self@);
        }
        while i < self.entries.len()
            invariant
                0 <= j <= v.len(),
                i <= self@.len(),
                self@.len() == self.entries@.len(),
                self@.take(i as int) == without(v.take(j), path@),
                self@.skip(i as int) == v.skip(j),
            decreases self.entries@.len() - i,
        {
            let ghost before = self@;
            proof {
                assert(before.skip(i as int).len() == v.skip(j).len());
                assert(j < v.len());
                assert(v.take(j + 1).drop_last() =~= v.take(j));
                assert(v[j] == before.skip(i as int)[0]);
                assert(v.take(j + 1).last() == v[j]);
            }
            if self.entries[i].local_path == *path {
                self.entries.remove(i);
                proof {
                    assert(before.skip(i + 1) =~= before.skip(i as int).drop_first());
                    assert(v.skip(j + 1) =~= v.skip(j).drop_first());
                    assert(self@ =~= before.take(i as int) + before.skip(i + 1));
                    assert(self@.take(i as int) =~= before.take(i as int));
                    assert(self@.skip(i as int) =~= v.skip(j + 1));
                    j = j + 1;
                }
            } else {
                i += 1;
                proof {
                    assert(before.skip(i as int) =~= before.skip(i - 1).drop_first());
                    assert(v.skip(j + 1) =~= v.skip(j).drop_first());
                    assert(self@ == before);
                    assert(self@.take(i as int) =~= before.take(i - 1).push(v[j]));
                    assert(self@.skip(i as int) =~= v.skip(j + 1));
                    j = j + 1;
                }
            }
        }
        proof {
            assert(v.skip(j).len() == 0);
            assert(v.take(j) =~= v);
            assert(self@.take(i as int) =~= self@);
        }
    }
    /// Caches `entry`, replacing what was cached under its path.
    pub fn insert_repo(&mut self, entry: CachedRepo)
        ensures
            final(self)@ == without(old(self)@, entry.local_path@).push((entry.local_path@, entry.repo@)),
    {
        let path = entry.local_path.clone();
        self.remove_repo(&path);
        let ghost mid = self@;
        self.entries.push(entry);
        proof {
            assert(self@ =~= mid.push((entry.local_path@, entry.repo@)));
        }
    }
}

} // verus!
