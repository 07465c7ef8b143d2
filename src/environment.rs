use vstd::prelude::*;
use vstd::string::*;
use vstd::utf8::*;
use crate::package::{PackageInfo, PackageModel};
use crate::repo_cache::{opt_str_eq, opt_view, lookup, without, LocalCachedRepository, RepoHolder, RepoModel};
use crate::selector::{selects, PackageSelector};
use crate::version::cmp_version;
use crate::version::{lemma_ascii_valid_utf8, string_from_utf8};

verus! {

broadcast use encode_utf8_valid_utf8, encode_utf8_decode_utf8;

#[verifier::external_type_specification]
#[verifier::external_body]
pub struct ExIoError(std::io::Error);

/// Why a repository could not be registered.
#[derive(Debug)]
pub enum AddRepositoryErr {
    Io(std::io::Error),
    AlreadyAdded,
    OfflineMode,
}

/// The registration of one user repository.
#[derive(Debug)]
pub struct UserRepoSetting {
    /// The local cache file: the durable key of the registration.
    pub local_path: String,
    pub name: Option<String>,
    pub url: Option<String>,
    /// The resolved identifier, once known.
    pub id: Option<String>,
    /// Extra request headers, in order.
    pub headers: Vec<(String, String)>,
}

pub struct RepoSettingModel {
    pub local_path: Seq<char>,
    pub name: Option<Seq<char>>,
    pub url: Option<Seq<char>>,
    pub id: Option<Seq<char>>,
    pub headers: Seq<(String, String)>,
}

impl View for UserRepoSetting {
    type V = RepoSettingModel;

    open spec fn view(&self) -> RepoSettingModel {
        RepoSettingModel {
            local_path: self.local_path@,
            name: opt_view(self.name),
            url: opt_view(self.url),
            id: opt_view(self.id),
            headers: self.headers@,
        }
    }
}

pub open spec fn repos_view(v: Seq<UserRepoSetting>) -> Seq<RepoSettingModel> {
    v.map_values(|r: UserRepoSetting| r@)
}

/// The persisted settings: the user repositories and the user package folders.
#[derive(Debug)]
pub struct Settings {
    pub user_repos: Vec<UserRepoSetting>,
    pub user_package_folders: Vec<String>,
}

/// The state of an environment as a mathematical value.
pub struct EnvModel {
    pub repos: Seq<RepoSettingModel>,
    pub folders: Seq<Seq<char>>,
    pub dirty: bool,
    pub cache: Seq<(Seq<char>, RepoModel)>,
    pub user_packages: Seq<PackageModel>,
    pub online: bool,
}

/// The owner of the settings, the repository cache and the dirty flag.
#[derive(Debug)]
pub struct Environment {
    settings: Settings,
    settings_changed: bool,
    repo_cache: RepoHolder,
    user_packages: Vec<PackageInfo>,
    online: bool,
    global_dir: String,
    repos_dir: String,
    official_url_override: Option<String>,
    curated_url_override: Option<String>,
}

impl View for Environment {
    type V = EnvModel;

    closed spec fn view(&self) -> EnvModel {
        EnvModel {
            repos: repos_view(self.settings.user_repos@),
            folders: self.settings.user_package_folders@.map_values(|s: String| s@),
            dirty: self.settings_changed,
            cache: self.repo_cache@,
            user_packages: self.user_packages@.map_values(|p: PackageInfo| p@),
            online: self.online,
        }
    }
}

pub open spec fn path_registered(repos: Seq<RepoSettingModel>, p: Seq<char>) -> bool {
    exists|i: int| 0 <= i < repos.len() && #[trigger] repos[i].local_path == p
}

pub open spec fn url_registered(repos: Seq<RepoSettingModel>, u: Seq<char>) -> bool {
    exists|i: int| 0 <= i < repos.len() && #[trigger] repos[i].url == Some(u)
}

pub open spec fn id_registered(repos: Seq<RepoSettingModel>, id: Seq<char>) -> bool {
    exists|i: int| 0 <= i < repos.len() && #[trigger] repos[i].id == Some(id)
}

/// The model with `repos` in place of its registrations.
pub open spec fn with_repos(e: EnvModel, repos: Seq<RepoSettingModel>, dirty: bool) -> EnvModel {
    EnvModel { repos, dirty, ..e }
}

/// The identifier a registration resolves to: the one the loaded repository
/// reports, else its URL, else the URL recorded at registration.
pub open spec fn resolved_id(r: RepoSettingModel, loaded: Option<RepoModel>) -> Option<Seq<char>> {
    match loaded {
        Some(l) => if l.id is Some {
            l.id
        } else if l.url is Some {
            l.url
        } else {
            r.url
        },
        None => r.url,
    }
}

/// Registrations with their identifiers resolved against the cache.
pub open spec fn resolve_ids(repos: Seq<RepoSettingModel>, cache: Seq<(Seq<char>, RepoModel)>) -> Seq<RepoSettingModel> {
    repos.map_values(|r: RepoSettingModel| RepoSettingModel { id: resolved_id(r, lookup(cache, r.local_path)), ..r })
}

/// Registrations with every later one whose identifier an earlier kept one
/// already has left out.
pub open spec fn dedup_ids(repos: Seq<RepoSettingModel>) -> Seq<RepoSettingModel>
    decreases repos.len(),
{
    if repos.len() == 0 {
        repos
    } else {
        let kept = dedup_ids(repos.drop_last());
        if repos.last().id is Some && id_registered(kept, repos.last().id->Some_0) {
            kept
        } else {
            kept.push(repos.last())
        }
    }
}

/// The cache paths of the registrations that `dedup_ids` leaves out, in order.
pub open spec fn dropped_paths(repos: Seq<RepoSettingModel>) -> Seq<Seq<char>>
    decreases repos.len(),
{
    if repos.len() == 0 {
        Seq::empty()
    } else {
        let kept = dedup_ids(repos.drop_last());
        let d = dropped_paths(repos.drop_last());
        if repos.last().id is Some && id_registered(kept, repos.last().id->Some_0) {
            d.push(repos.last().local_path)
        } else {
            d
        }
    }
}

/// The cache without the repositories of the given paths.
pub open spec fn without_all(cache: Seq<(Seq<char>, RepoModel)>, paths: Seq<Seq<char>>) -> Seq<(Seq<char>, RepoModel)>
    decreases paths.len(),
{
    if paths.len() == 0 {
        cache
    } else {
        without(without_all(cache, paths.drop_last()), paths.last())
    }
}

/// Registrations whose mark in `selected` is false.
pub open spec fn unselected(repos: Seq<RepoSettingModel>, selected: Seq<bool>) -> Seq<RepoSettingModel>
    decreases repos.len(),
{
    if repos.len() == 0 || selected.len() == 0 {
        repos
    } else {
        let k = unselected(repos.drop_last(), selected.drop_last());
        if selected.last() {
            k
        } else {
            k.push(repos.last())
        }
    }
}

/// The cache paths of registrations whose mark in `selected` is true.
pub open spec fn selected_paths(repos: Seq<RepoSettingModel>, selected: Seq<bool>) -> Seq<Seq<char>>
    decreases repos.len(),
{
    if repos.len() == 0 || selected.len() == 0 {
        Seq::empty()
    } else {
        let k = selected_paths(repos.drop_last(), selected.drop_last());
        if selected.last() {
            k.push(repos.last().local_path)
        } else {
            k
        }
    }
}

impl Environment {
    /// An environment over loaded settings; nothing is dirty yet. `online`
    /// says whether a network transport is configured; `global_dir` is the
    /// configuration folder and `repos_dir` the folder of the cache files.
    pub fn new(settings: Settings, online: bool, global_dir: String, repos_dir: String) -> (r:
        Environment)
        ensures
            r@.repos == repos_view(settings.user_repos@),
            r@.folders == settings.user_package_folders@.map_values(|s: String| s@),
            !r@.dirty,
            r@.cache == Seq::<(Seq<char>, RepoModel)>::empty(),
            r@.user_packages == Seq::<PackageModel>::empty(),
            r@.online == online,
            r.global_dir_path() == global_dir@,
            r.repos_dir_path() == repos_dir@,
            r.url_override(PreDefinedRepoSource::Official) is None,
            r.url_override(PreDefinedRepoSource::Curated) is None,
    {
        let r = Environment {
            settings,
            settings_changed: false,
            repo_cache: RepoHolder::new(),
            user_packages: Vec::new(),
            online,
            global_dir,
            repos_dir,
            official_url_override: None,
            curated_url_override: None,
        };
        proof {
            assert(r@.user_packages =~= Seq::<PackageModel>::empty());
        }
        r
    }

    /// The registrations, in order.
    pub fn get_user_repos(&self) -> (r: &Vec<UserRepoSetting>)
        ensures
            repos_view(r@) == self@.repos,
    {
        &self.settings.user_repos
    }

    /// The user package folders, in order.
    pub fn get_user_package_folders(&self) -> (r: &Vec<String>)
        ensures
            r@.map_values(|s: String| s@) == self@.folders,
    {
        &self.settings.user_package_folders
    }

    /// The settings as they stand.
    pub fn settings(&self) -> (r: &Settings)
        ensures
            repos_view(r.user_repos@) == self@.repos,
    {
        &self.settings
    }

    /// The loaded repositories.
    pub fn repo_cache(&self) -> (r: &RepoHolder)
        ensures
            r@ == self@.cache,
    {
        &self.repo_cache
    }

    /// Whether a registration already uses the cache file `path`.
    fn has_path(&self, path: &String) -> (r: bool)
        ensures
            r == path_registered(self@.repos, path@),
    {
        let ghost v = self@.repos;
        let mut i: usize = 0;
        while i < self.settings.user_repos.len()
            invariant
                i <= v.len(),
                v == self@.repos,
                v.len() == self.settings.user_repos@.len(),
                forall|j: int| 0 <= j < i ==> #[trigger] v[j].local_path != path@,
            decreases v.len() - i,
        {
            if self.settings.user_repos[i].local_path == *path {
                proof {
                    assert(v[i as int].local_path == path@);
                }
                return true;
            }
            i += 1;
        }
        false
    }

    /// Whether a registration already has the URL `url`.
    fn has_url(&self, url: &String) -> (r: bool)
        ensures
            r == url_registered(self@.repos, url@),
    {
        let ghost v = self@.repos;
        let target = Some(url.clone());
        let mut i: usize = 0;
        while i < self.settings.user_repos.len()
            invariant
                i <= v.len(),
                v == self@.repos,
                v.len() == self.settings.user_repos@.len(),
                opt_view(target) == Some(url@),
                forall|j: int| 0 <= j < i ==> #[trigger] v[j].url != Some(url@),
            decreases v.len() - i,
        {
            if opt_str_eq(&self.settings.user_repos[i].url, &target) {
                proof {
                    assert(v[i as int].url == Some(url@));
                }
                return true;
            }
            i += 1;
        }
        false
    }

    /// Whether a registration already has the identifier `id`.
    fn has_id(&self, id: &String) -> (r: bool)
        ensures
            r == id_registered(self@.repos, id@),
    {
        let ghost v = self@.repos;
        let target = Some(id.clone());
        let mut i: usize = 0;
        while i < self.settings.user_repos.len()
            invariant
                i <= v.len(),
                v == self@.repos,
                v.len() == self.settings.user_repos@.len(),
                opt_view(target) == Some(id@),
                forall|j: int| 0 <= j < i ==> #[trigger] v[j].id != Some(id@),
            decreases v.len() - i,
        {
            if opt_str_eq(&self.settings.user_repos[i].id, &target) {
                proof {
                    assert(v[i as int].id == Some(id@));
                }
                return true;
            }
            i += 1;
        }
        false
    }

    fn add_user_repo(&mut self, repo: UserRepoSetting)
        ensures
            final(self)@ == with_repos(old(self)@, old(self)@.repos.push(repo@), true),
    {
        self.settings.user_repos.push(repo);
        self.settings_changed = true;
        proof {
            assert(self@.repos =~= old(self)@.repos.push(repo@));
        }
    }

    /// Registers the local repository file `path`; fails with `AlreadyAdded`
    /// when a registration already uses that path.
    pub fn add_local_repo(&mut self, path: &str, name: Option<&str>) -> (r: Result<(), AddRepositoryErr>)
        ensures
            path_registered(old(self)@.repos, path@) ==> r is Err && r->Err_0 is AlreadyAdded
                && final(self)@ == old(self)@,
            !path_registered(old(self)@.repos, path@) ==> r is Ok && final(self)@ == with_repos(
                old(self)@,
                old(self)@.repos.push(
                    RepoSettingModel {
                        local_path: path@,
                        name: match name {
                            Some(n) => Some(n@),
                            None => None,
                        },
                        url: None,
                        id: None,
                        headers: Seq::empty(),
                    },
                ),
                true,
            ),
    {
        let path = path.to_owned();
        if self.has_path(&path) {
            return Err(AddRepositoryErr::AlreadyAdded);
        }
        let name = match name {
            Some(n) => Some(n.to_owned()),
            None => None,
        };
        let repo = UserRepoSetting { local_path: path, name, url: None, id: None, headers: Vec::new() };
        proof {
            assert(repo@.headers =~= Seq::<(String, String)>::empty());
        }
        self.add_user_repo(repo);
        Ok(())
    }

    /// The checks made before a remote repository is fetched: `AlreadyAdded`
    /// when a registration has the URL, else `OfflineMode` without a network
    /// transport.
    pub fn check_new_remote(&self, url: &str) -> (r: Result<(), AddRepositoryErr>)
        ensures
            url_registered(self@.repos, url@) ==> r is Err && r->Err_0 is AlreadyAdded,
            !url_registered(self@.repos, url@) && !self@.online ==> r is Err && r->Err_0 is OfflineMode,
            !url_registered(self@.repos, url@) && self@.online ==> r is Ok,
    {
        let url = url.to_owned();
        if self.has_url(&url) {
            return Err(AddRepositoryErr::AlreadyAdded);
        }
        if !self.online {
            return Err(AddRepositoryErr::OfflineMode);
        }
        Ok(())
    }

    /// The check made once the repository reported its identifier: a
    /// registration with the same identifier means `AlreadyAdded`.
    pub fn check_remote_id(&self, id: Option<&str>) -> (r: Result<(), AddRepositoryErr>)
        ensures
            match id {
                Some(x) => if id_registered(self@.repos, x@) {
                    r is Err && r->Err_0 is AlreadyAdded
                } else {
                    r is Ok
                },
                None => r is Ok,
            },
    {
        match id {
            Some(x) => {
                let x = x.to_owned();
                if self.has_id(&x) {
                    Err(AddRepositoryErr::AlreadyAdded)
                } else {
                    Ok(())
                }
            },
            None => Ok(()),
        }
    }

    /// Records a fetched remote repository whose cache file was written to
    /// `local_path`. The name given by the user wins over the one the
    /// repository reports.
    pub fn register_remote_repo(
        &mut self,
        local_path: String,
        name: Option<String>,
        reported_name: Option<String>,
        url: String,
        id: Option<String>,
        headers: Vec<(String, String)>,
    )
        ensures
            final(self)@ == with_repos(
                old(self)@,
                old(self)@.repos.push(
                    RepoSettingModel {
                        local_path: local_path@,
                        name: if name is Some {
                            opt_view(name)
                        } else {
                            opt_view(reported_name)
                        },
                        url: Some(url@),
                        id: opt_view(id),
                        headers: headers@,
                    },
                ),
                true,
            ),
    {
        let name = match name {
            Some(n) => Some(n),
            None => reported_name,
        };
        self.add_user_repo(UserRepoSetting { local_path, name, url: Some(url), id, headers });
    }

    /// Whether there are changes that a save would write.
    pub fn needs_save(&self) -> (r: bool)
        ensures
            r == self@.dirty,
    {
        self.settings_changed
    }

    /// Records that the settings were written.
    pub fn mark_saved(&mut self)
        ensures
            final(self)@ == (EnvModel { dirty: false, ..old(self)@ }),
    {
        self.settings_changed = false;
    }
}

/// A save right after another writes nothing: once the first has been
/// recorded, the dirty flag is clear.
pub proof fn lemma_second_save_writes_nothing(e: EnvModel)
    ensures
        !(EnvModel { dirty: false, ..e }).dirty,
        (EnvModel { dirty: false, ..(EnvModel { dirty: false, ..e }) }) == (EnvModel { dirty: false, ..e }),
{
}

/// Once a remote repository with URL `u` is registered, a second add of the
/// same URL is refused, and exactly one registration has that URL.
pub proof fn lemma_remote_added_once(repos: Seq<RepoSettingModel>, m: RepoSettingModel, u: Seq<char>)
    requires
        !url_registered(repos, u),
        m.url == Some(u),
    ensures
        url_registered(repos.push(m), u),
        forall|i: int, j: int|
            0 <= i < repos.push(m).len() && 0 <= j < repos.push(m).len() && #[trigger] repos.push(m)[i].url == Some(u)
                && #[trigger] repos.push(m)[j].url == Some(u) ==> i == j,
{
    let s = repos.push(m);
    assert(s[repos.len() as int].url == Some(u));
    assert forall|i: int, j: int|
        0 <= i < s.len() && 0 <= j < s.len() && #[trigger] s[i].url == Some(u) && #[trigger] s[j].url == Some(u) implies i == j by {
        if i < repos.len() {
            assert(repos[i] == s[i]);
        }
        if j < repos.len() {
            assert(repos[j] == s[j]);
        }
    }
}

impl Environment {
    /// Removes every registration marked in `selected` (one mark per
    /// registration) and returns the cache files of the removed ones, for
    /// deletion. The dirty flag is set only if something was removed.
    pub fn remove_repo(&mut self, selected: &Vec<bool>) -> (r: Vec<String>)
        requires
            selected@.len() == old(self)@.repos.len(),
        ensures
            final(self)@ == with_repos(
                old(self)@,
                unselected(old(self)@.repos, selected@),
                old(self)@.dirty || r@.len() > 0,
            ),
            r@.map_values(|s: String| s@) == selected_paths(old(self)@.repos, selected@),
    {
        let ghost orig = self@.repos;
        let ghost sel = selected@;
        let mut removed: Vec<String> = Vec::new();
        let mut i: usize = 0;
        let mut k: usize = 0;
        proof {
            assert(orig.take(0) =~= Seq::<RepoSettingModel>::empty());
            assert(sel.take(0) =~= Seq::<bool>::empty());
            assert(self@.repos.take(0) =~= Seq::<RepoSettingModel>::empty());
            assert(orig.skip(0) =~= orig);
            assert(self@.repos.skip(0) =~= self@.repos);
            assert(removed@.map_values(|s: String| s@) =~= Seq::<Seq<char>>::empty());
        }
        while k < selected.len()
            invariant
                k <= sel.len(),
                sel == selected@,
                sel.len() == orig.len(),
                i <= self@.repos.len(),
                self@.repos.len() == self.settings.user_repos@.len(),
                self@.repos.take(i as int) == unselected(orig.take(k as int), sel.take(k as int)),
                self@.repos.skip(i as int) == orig.skip(k as int),
                removed@.map_values(|s: String| s@) == selected_paths(orig.take(k as int), sel.take(k as int)),
                self@ == with_repos(old(self)@, self@.repos, old(self)@.dirty),
            decreases sel.len() - k,
        {
            let n = self.settings.user_repos.len();
            let ghost before = self@.repos;
            let ghost rem_before = removed@.map_values(|s: String| s@);
            proof {
                assert(before.skip(i as int).len() == orig.skip(k as int).len());
                assert(i < before.len());
                assert(orig.take(k + 1).drop_last() =~= orig.take(k as int));
                assert(sel.take(k + 1).drop_last() =~= sel.take(k as int));
                assert(orig[k as int] == before.skip(i as int)[0]);
                assert(orig.take(k + 1).last() == orig[k as int]);
                assert(sel.take(k + 1).last() == sel[k as int]);
                assert(before.skip(i + 1) =~= before.skip(i as int).drop_first());
                assert(orig.skip(k + 1) =~= orig.skip(k as int).drop_first());
            }
            if selected[k] {
                let repo = self.settings.user_repos.remove(i);
                removed.push(repo.local_path);
                proof {
                    assert(self@.repos =~= before.take(i as int) + before.skip(i + 1));
                    assert(self@.repos.take(i as int) =~= before.take(i as int));
                    assert(self@.repos.skip(i as int) =~= orig.skip(k + 1));
                    assert(removed@.map_values(|s: String| s@) =~= rem_before.push(orig[k as int].local_path));
                }
            } else {
                i += 1;
                proof {
                    assert(self@.repos.take(i as int) =~= before.take(i - 1).push(orig[k as int]));
                }
            }
            k += 1;
        }
        proof {
            assert(orig.take(k as int) =~= orig);
            assert(sel.take(k as int) =~= sel);
            assert(self@.repos.skip(i as int).len() == 0);
            assert(self@.repos.take(i as int) =~= self@.repos);
        }
        if removed.len() > 0 {
            self.settings_changed = true;
        }
        removed
    }
}

/// A removal that selects nothing changes nothing and deletes nothing.
pub proof fn lemma_remove_nothing(repos: Seq<RepoSettingModel>, selected: Seq<bool>)
    requires
        selected.len() == repos.len(),
        forall|i: int| 0 <= i < selected.len() ==> !#[trigger] selected[i],
    ensures
        unselected(repos, selected) == repos,
        selected_paths(repos, selected).len() == 0,
    decreases repos.len(),
{
    if repos.len() > 0 {
        let sd = selected.drop_last();
        assert forall|i: int| 0 <= i < sd.len() implies !#[trigger] sd[i] by {
            assert(sd[i] == selected[i]);
        }
        lemma_remove_nothing(repos.drop_last(), sd);
        assert(!selected[selected.len() - 1]);
        assert(repos.drop_last().push(repos.last()) =~= repos);
    }
}

/// Whether some registration resolves to another identifier than it records.
pub open spec fn ids_changed(repos: Seq<RepoSettingModel>, cache: Seq<(Seq<char>, RepoModel)>) -> bool {
    exists|j: int|
        0 <= j < repos.len() && #[trigger] resolved_id(repos[j], lookup(cache, repos[j].local_path))
            != repos[j].id
}

fn clone_opt(o: &Option<String>) -> (r: Option<String>)
    ensures
        opt_view(r) == opt_view(*o),
{
    match o {
        Some(s) => Some(s.clone()),
        None => None,
    }
}

impl Environment {
    /// Rewrites the identifier of each registration to the one it resolves to
    /// against the loaded repositories; sets the dirty flag if one changed.
    pub fn update_user_repo_id(&mut self)
        ensures
            final(self)@ == with_repos(
                old(self)@,
                resolve_ids(old(self)@.repos, old(self)@.cache),
                old(self)@.dirty || ids_changed(old(self)@.repos, old(self)@.cache),
            ),
    {
        let ghost orig = self@.repos;
        let ghost cache = self@.cache;
        let ghost target = resolve_ids(orig, cache);
        let mut i: usize = 0;
        proof {
            assert(target.take(0) =~= self@.repos.take(0));
        }
        while i < self.settings.user_repos.len()
            invariant
                i <= orig.len(),
                target == resolve_ids(orig, cache),
                cache == self@.cache,
                self@.repos.len() == orig.len(),
                self.settings.user_repos@.len() == orig.len(),
                self@.repos.take(i as int) == target.take(i as int),
                forall|j: int| i <= j < orig.len() ==> #[trigger] self@.repos[j] == orig[j],
                self@ == with_repos(
                    old(self)@,
                    self@.repos,
                    old(self)@.dirty || exists|j: int|
                        0 <= j < i && #[trigger] resolved_id(orig[j], lookup(cache, orig[j].local_path))
                            != orig[j].id,
                ),
            decreases orig.len() - i,
        {
            let ghost before = self@.repos;
            let id = {
                let repo = &self.settings.user_repos[i];
                match self.repo_cache.get_repo(&repo.local_path) {
                    Some(loaded) => {
                        if loaded.id.is_some() {
                            clone_opt(&loaded.id)
                        } else if loaded.url.is_some() {
                            clone_opt(&loaded.url)
                        } else {
                            clone_opt(&repo.url)
                        }
                    },
                    None => clone_opt(&repo.url),
                }
            };
            proof {
                assert(before[i as int] == orig[i as int]);
                assert(opt_view(id) == resolved_id(orig[i as int], lookup(cache, orig[i as int].local_path)));
            }
            if !opt_str_eq(&id, &self.settings.user_repos[i].id) {
                let mut repo = self.settings.user_repos.remove(i);
                repo.id = id;
                self.settings.user_repos.insert(i, repo);
                self.settings_changed = true;
            }
            proof {
                assert(self@.repos[i as int] == target[i as int]);
                assert forall|j: int| 0 <= j < orig.len() && j != i implies #[trigger] self@.repos[j] == before[j] by {}
                assert(self@.repos.take(i + 1) =~= target.take(i + 1)) by {
                    assert forall|j: int| 0 <= j < i implies self@.repos[j] == target[j] by {
                        assert(before.take(i as int)[j] == target.take(i as int)[j]);
                    }
                }
            }
            i += 1;
        }
        proof {
            assert(self@.repos.take(i as int) =~= self@.repos);
            assert(target.take(i as int) =~= target);
        }
    }
}

impl Environment {
    /// Whether one of the first `n` registrations has identifier `id`.
    fn has_id_before(&self, n: usize, id: &String) -> (r: bool)
        requires
            n <= self@.repos.len(),
        ensures
            r == id_registered(self@.repos.take(n as int), id@),
    {
        let ghost v = self@.repos.take(n as int);
        let target = Some(id.clone());
        let mut i: usize = 0;
        while i < n
            invariant
                i <= n,
                n <= self@.repos.len(),
                v == self@.repos.take(n as int),
                self@.repos.len() == self.settings.user_repos@.len(),
                opt_view(target) == Some(id@),
                forall|j: int| 0 <= j < i ==> #[trigger] v[j].id != Some(id@),
            decreases n - i,
        {
            if opt_str_eq(&self.settings.user_repos[i].id, &target) {
                proof {
                    assert(v[i as int].id == Some(id@));
                }
                return true;
            }
            i += 1;
        }
        false
    }

    /// Keeps the first registration of each identifier and removes the later
    /// ones, together with their loaded repositories. Registrations without an
    /// identifier are all kept. Returns the cache files of the removed ones,
    /// for deletion; the dirty flag is set if one was removed.
    pub fn remove_id_duplication(&mut self) -> (r: Vec<String>)
        ensures
            final(self)@ == (EnvModel {
                repos: dedup_ids(old(self)@.repos),
                dirty: old(self)@.dirty || r@.len() > 0,
                cache: without_all(old(self)@.cache, dropped_paths(old(self)@.repos)),
                ..old(self)@
            }),
            r@.map_values(|s: String| s@) == dropped_paths(old(self)@.repos),
    {
        let ghost orig = self@.repos;
        let mut removed: Vec<String> = Vec::new();
        let mut i: usize = 0;
        let ghost mut k: int = 0;
        proof {
            assert(orig.take(0) =~= Seq::<RepoSettingModel>::empty());
            assert(self@.repos.take(0) =~= Seq::<RepoSettingModel>::empty());
            assert(orig.skip(0) =~= orig);
            assert(self@.repos.skip(0) =~= self@.repos);
            assert(removed@.map_values(|s: String| s@) =~= Seq::<Seq<char>>::empty());
        }
        while i < self.settings.user_repos.len()
            invariant
                0 <= k <= orig.len(),
                i <= self@.repos.len(),
                self@.repos.len() == self.settings.user_repos@.len(),
                self@.repos.take(i as int) == dedup_ids(orig.take(k as int)),
                self@.repos.skip(i as int) == orig.skip(k as int),
                removed@.map_values(|s: String| s@) == dropped_paths(orig.take(k as int)),
                self@ == with_repos(old(self)@, self@.repos, old(self)@.dirty),
            decreases orig.len() - k,
        {
            let ghost before = self@.repos;
            let ghost rem_before = removed@.map_values(|s: String| s@);
            proof {
                assert(before.skip(i as int).len() == orig.skip(k as int).len());
                assert(k < orig.len());
                assert(orig.take(k + 1).drop_last() =~= orig.take(k as int));
                assert(orig[k as int] == before.skip(i as int)[0]);
                assert(orig.take(k + 1).last() == orig[k as int]);
                assert(before.skip(i + 1) =~= before.skip(i as int).drop_first());
                assert(orig.skip(k + 1) =~= orig.skip(k as int).drop_first());
            }
            let dup = match &self.settings.user_repos[i].id {
                Some(id) => self.has_id_before(i, id),
                None => false,
            };
            if dup {
                let repo = self.settings.user_repos.remove(i);
                removed.push(repo.local_path);
                proof {
                    assert(self@.repos =~= before.take(i as int) + before.skip(i + 1));
                    assert(self@.repos.take(i as int) =~= before.take(i as int));
                    assert(self@.repos.skip(i as int) =~= orig.skip(k + 1));
                    assert(removed@.map_values(|s: String| s@) =~= rem_before.push(orig[k as int].local_path));
                }
            } else {
                i += 1;
                proof {
                    assert(self@.repos.take(i as int) =~= before.take(i - 1).push(orig[k as int]));
                }
            }
            proof {
                k = k + 1;
            }
        }
        proof {
            assert(self@.repos.skip(i as int).len() == 0);
            assert(orig.skip(k as int).len() == 0);
            assert(orig.take(k as int) =~= orig);
            assert(self@.repos.take(i as int) =~= self@.repos);
        }
        let ghost paths = removed@.map_values(|s: String| s@);
        let mut m: usize = 0;
        proof {
            assert(paths.take(0) =~= Seq::<Seq<char>>::empty());
        }
        while m < removed.len()
            invariant
                m <= removed@.len(),
                paths == removed@.map_values(|s: String| s@),
                self@ == (EnvModel {
                    repos: dedup_ids(orig),
                    cache: without_all(old(self)@.cache, paths.take(m as int)),
                    ..old(self)@
                }),
            decreases removed@.len() - m,
        {
            self.repo_cache.remove_repo(&removed[m]);
            proof {
                assert(paths.take(m + 1).drop_last() =~= paths.take(m as int));
                assert(paths.take(m + 1).last() == removed@[m as int]@);
            }
            m += 1;
        }
        proof {
            assert(paths.take(m as int) =~= paths);
        }
        if removed.len() > 0 {
            self.settings_changed = true;
        }
        removed
    }
}

proof fn lemma_dedup_unique(s: Seq<RepoSettingModel>)
    ensures
        forall|a: int, b: int|
            0 <= a < b < dedup_ids(s).len() && (#[trigger] dedup_ids(s)[b]).id is Some ==> (
            #[trigger] dedup_ids(s)[a]).id != dedup_ids(s)[b].id,
    decreases s.len(),
{
    if s.len() > 0 {
        lemma_dedup_unique(s.drop_last());
        let kept = dedup_ids(s.drop_last());
        let d = dedup_ids(s);
        assert forall|a: int, b: int|
            0 <= a < b < d.len() && (#[trigger] d[b]).id is Some implies (#[trigger] d[a]).id != d[b].id by {
            if b == kept.len() {
                assert(d == kept.push(s.last()));
                assert(d[a] == kept[a]);
                if d[a].id == d[b].id {
                    assert(kept[a].id == Some(s.last().id->Some_0));
                }
            } else {
                assert(d[a] == kept[a]);
                assert(d[b] == kept[b]);
            }
        }
    }
}

proof fn lemma_dedup_keeps_ids(s: Seq<RepoSettingModel>, k: int)
    requires
        0 <= k < s.len(),
        s[k].id is Some,
    ensures
        id_registered(dedup_ids(s), s[k].id->Some_0),
    decreases s.len(),
{
    let kept = dedup_ids(s.drop_last());
    let x = s[k].id->Some_0;
    if k < s.len() - 1 {
        assert(s.drop_last()[k] == s[k]);
        lemma_dedup_keeps_ids(s.drop_last(), k);
        let w = choose|w: int| 0 <= w < kept.len() && #[trigger] kept[w].id == Some(x);
        if dedup_ids(s) != kept {
            assert(dedup_ids(s)[w] == kept[w]);
        }
    } else {
        if !id_registered(kept, x) {
            assert(dedup_ids(s)[kept.len() as int] == s.last());
        }
    }
}

proof fn lemma_dropped_prefix(s: Seq<RepoSettingModel>, m: int)
    requires
        0 <= m <= s.len(),
    ensures
        dropped_paths(s.take(m)).len() <= dropped_paths(s).len(),
        forall|t: int|
            0 <= t < dropped_paths(s.take(m)).len() ==> #[trigger] dropped_paths(s)[t] == dropped_paths(
                s.take(m),
            )[t],
    decreases s.len(),
{
    if m == s.len() {
        assert(s.take(m) =~= s);
    } else {
        assert(s.drop_last().take(m) =~= s.take(m));
        lemma_dropped_prefix(s.drop_last(), m);
    }
}

/// Two registrations that resolve to the same identifier collapse to one:
/// the later one's cache file is among those returned for deletion (so the
/// dirty flag is set), and no two kept registrations share an identifier.
pub proof fn lemma_duplicate_ids_collapse(s: Seq<RepoSettingModel>, i: int, j: int)
    requires
        0 <= i < j < s.len(),
        s[i].id is Some,
        s[i].id == s[j].id,
    ensures
        dropped_paths(s).len() > 0,
        exists|t: int| 0 <= t < dropped_paths(s).len() && dropped_paths(s)[t] == s[j].local_path,
        forall|a: int, b: int|
            0 <= a < b < dedup_ids(s).len() && (#[trigger] dedup_ids(s)[b]).id is Some ==> (
            #[trigger] dedup_ids(s)[a]).id != dedup_ids(s)[b].id,
{
    lemma_dedup_unique(s);
    let p = s.take(j);
    assert(p[i] == s[i]);
    lemma_dedup_keeps_ids(p, i);
    let q = s.take(j + 1);
    assert(q.drop_last() =~= p);
    assert(q.last() == s[j]);
    let dq = dropped_paths(q);
    assert(dq.last() == s[j].local_path);
    lemma_dropped_prefix(s, j + 1);
    assert(dropped_paths(s)[dq.len() - 1] == s[j].local_path);
}

impl Environment {
    /// Takes in what a full reload produced: the loaded repositories and the
    /// packages of the user package folders. Then resolves the identifiers of
    /// the registrations and removes duplicates, as `update_user_repo_id` and
    /// `remove_id_duplication` do; returns the cache files to delete.
    pub fn apply_loaded(&mut self, cache: RepoHolder, user_packages: Vec<PackageInfo>) -> (r: Vec<String>)
        ensures
            ({
                let resolved = resolve_ids(old(self)@.repos, cache@);
                &&& final(self)@.repos == dedup_ids(resolved)
                &&& final(self)@.cache == without_all(cache@, dropped_paths(resolved))
                &&& final(self)@.dirty == (old(self)@.dirty || ids_changed(old(self)@.repos, cache@)
                    || r@.len() > 0)
                &&& r@.map_values(|s: String| s@) == dropped_paths(resolved)
                &&& final(self)@.user_packages == user_packages@.map_values(|p: PackageInfo| p@)
                &&& final(self)@.folders == old(self)@.folders
                &&& final(self)@.online == old(self)@.online
            }),
    {
        self.repo_cache = cache;
        self.update_user_repo_id();
        self.user_packages = user_packages;
        self.remove_id_duplication()
    }

    /// The user package folders' packages.
    pub fn user_packages(&self) -> (r: &Vec<PackageInfo>)
        ensures
            r@.map_values(|p: PackageInfo| p@) == self@.user_packages,
    {
        &self.user_packages
    }
}

/// Whether `id` can name a cache file: non-empty and made of `[0-9A-Za-z._-]`.
pub open spec fn is_file_name_id(id: Seq<u8>) -> bool {
    id.len() > 0 && forall|i: int| 0 <= i < id.len() ==> is_file_name_byte(#[trigger] id[i])
}

pub open spec fn is_file_name_byte(b: u8) -> bool {
    (0x30 <= b <= 0x39) || (0x41 <= b <= 0x5a) || (0x61 <= b <= 0x7a) || b == 0x2e || b == 0x5f
        || b == 0x2d
}

/// Whether `id` can name a cache file.
pub fn is_id_name_for_file(id: &str) -> (r: bool)
    ensures
        r == is_file_name_id(id.spec_bytes()),
{
    let bytes = id.as_bytes();
    if bytes.len() == 0 {
        return false;
    }
    let mut i: usize = 0;
    while i < bytes.len()
        invariant
            i <= bytes@.len(),
            bytes@ == id.spec_bytes(),
            forall|j: int| 0 <= j < i ==> is_file_name_byte(#[trigger] bytes@[j]),
        decreases bytes@.len() - i,
    {
        let b = bytes[i];
        if !((0x30 <= b && b <= 0x39) || (0x41 <= b && b <= 0x5a) || (0x61 <= b && b <= 0x7a) || b
            == 0x2e || b == 0x5f || b == 0x2d) {
            return false;
        }
        i += 1;
    }
    true
}

/// The bytes of `.json`.
pub open spec fn json_suffix() -> Seq<u8> {
    seq![0x2eu8, 0x6au8, 0x73u8, 0x6fu8, 0x6eu8]
}

/// Relies on `uuid::Uuid::new_v4` and its `Display`, which writes the
/// hyphenated lowercase form: 36 characters of `[0-9a-f-]`, fresh and random.
/// `new_v4` panics only when the operating system's random source fails.
#[verifier::external_body]
fn random_uuid() -> (r: String)
    ensures
        r@.len() == 36,
        is_ascii_chars(r@),
        forall|i: int| 0 <= i < 36 ==> is_file_name_byte(#[trigger] r@[i] as u8),
{
    uuid::Uuid::new_v4().to_string()
}

/// `stem` followed by `.json`, as a string.
fn with_json_suffix(stem: &[u8]) -> (r: String)
    requires
        forall|i: int| 0 <= i < stem@.len() ==> is_file_name_byte(#[trigger] stem@[i]),
    ensures
        encode_utf8(r@) == stem@ + json_suffix(),
{
    let mut out: Vec<u8> = Vec::new();
    let mut i: usize = 0;
    while i < stem.len()
        invariant
            i <= stem@.len(),
            out@ == stem@.take(i as int),
        decreases stem@.len() - i,
    {
        out.push(stem[i]);
        i += 1;
        proof {
            assert(out@ =~= stem@.take(i as int));
        }
    }
    out.push(0x2e);
    out.push(0x6a);
    out.push(0x73);
    out.push(0x6f);
    out.push(0x6e);
    proof {
        assert(stem@.take(i as int) =~= stem@);
        assert(out@ =~= stem@ + json_suffix());
        assert forall|j: int| 0 <= j < out@.len() implies out@[j] < 128 by {
            if j < stem@.len() {
                assert(is_file_name_byte(stem@[j]));
            }
        }
        lemma_ascii_valid_utf8(out@);
        vstd::utf8::decode_utf8_encode_utf8(out@);
    }
    string_from_utf8(out)
}

/// A fresh random file name: 36 characters of `[0-9a-f-]`, then `.json`.
fn random_file_name() -> (r: String)
    ensures
        encode_utf8(r@).len() == 41,
        encode_utf8(r@).subrange(36, 41) == json_suffix(),
        forall|i: int| 0 <= i < 41 ==> is_file_name_byte(#[trigger] encode_utf8(r@)[i]),
{
    let id = random_uuid();
    let bytes = id.as_str().as_bytes();
    proof {
        vstd::utf8::is_ascii_chars_encode_utf8(id@);
        assert forall|i: int| 0 <= i < bytes@.len() implies is_file_name_byte(#[trigger] bytes@[i]) by {
            assert(id@[i] as u8 == bytes@[i]);
        }
    }
    let r = with_json_suffix(bytes);
    proof {
        let e = encode_utf8(r@);
        assert(e == bytes@ + json_suffix());
        assert(e.subrange(36, 41) =~= json_suffix());
        assert forall|i: int| 0 <= i < 41 implies is_file_name_byte(#[trigger] e[i]) by {
            if i < 36 {
                assert(e[i] == bytes@[i]);
            } else {
                assert(e[i] == json_suffix()[i - 36]);
            }
        }
    }
    r
}

/// The file name for the cache of a new remote repository: `<id>.json` when
/// the identifier can name a file and that file is not taken yet, else a
/// fresh random name of `[0-9a-f-]` ending in `.json`.
pub fn cache_file_name(id: Option<&str>, id_file_taken: bool) -> (r: String)
    ensures
        match id {
            Some(x) if is_file_name_id(x.spec_bytes()) && !id_file_taken => encode_utf8(r@)
                == x.spec_bytes() + json_suffix(),
            _ => {
                &&& encode_utf8(r@).len() == 41
                &&& encode_utf8(r@).subrange(36, 41) == json_suffix()
                &&& forall|i: int| 0 <= i < 41 ==> is_file_name_byte(#[trigger] encode_utf8(r@)[i])
            },
        },
{
    match id {
        Some(x) => {
            if is_id_name_for_file(x) && !id_file_taken {
                return with_json_suffix(x.as_bytes());
            }
            random_file_name()
        },
        None => random_file_name(),
    }
}

/// The packages of the loaded repositories, repository by repository.
pub open spec fn cache_packages(c: Seq<(Seq<char>, RepoModel)>) -> Seq<PackageModel>
    decreases c.len(),
{
    if c.len() == 0 {
        Seq::empty()
    } else {
        cache_packages(c.drop_last()) + c.last().1.packages
    }
}

/// Every known package: the loaded repositories', then the user folders'.
pub open spec fn all_packages(e: EnvModel) -> Seq<PackageModel> {
    cache_packages(e.cache) + e.user_packages
}

/// The packages named `n`, in order.
pub open spec fn named(s: Seq<PackageModel>, n: Seq<char>) -> Seq<PackageModel>
    decreases s.len(),
{
    if s.len() == 0 {
        s
    } else if s.last().name == n {
        named(s.drop_last(), n).push(s.last())
    } else {
        named(s.drop_last(), n)
    }
}

pub open spec fn refs_view(v: Seq<&PackageInfo>) -> Seq<PackageModel> {
    v.map_values(|p: &PackageInfo| p@)
}

fn push_named<'a>(
    out: &mut Vec<&'a PackageInfo>,
    pkgs: &'a Vec<PackageInfo>,
    name: &String,
    Ghost(base): Ghost<Seq<PackageModel>>,
)
    requires
        refs_view(old(out)@) == named(base, name@),
    ensures
        refs_view(final(out)@) == named(base + pkgs@.map_values(|p: PackageInfo| p@), name@),
{
    let ghost pv = pkgs@.map_values(|p: PackageInfo| p@);
    let mut j: usize = 0;
    proof {
        assert(base + pv.take(0) =~= base);
    }
    while j < pkgs.len()
        invariant
            j <= pv.len(),
            pv == pkgs@.map_values(|p: PackageInfo| p@),
            refs_view(out@) == named(base + pv.take(j as int), name@),
        decreases pv.len() - j,
    {
        let ghost prev = refs_view(out@);
        proof {
            assert((base + pv.take(j + 1)).drop_last() =~= base + pv.take(j as int));
            assert((base + pv.take(j + 1)).last() == pv[j as int]);
        }
        if pkgs[j].name == *name {
            out.push(&pkgs[j]);
            proof {
                assert(refs_view(out@) =~= prev.push(pv[j as int]));
            }
        }
        j += 1;
    }
    proof {
        assert(pv.take(j as int) =~= pv);
    }
}

impl Environment {
    /// Every known package named `name`: those of the loaded repositories in
    /// their order, then those of the user package folders.
    pub fn find_packages(&self, name: &str) -> (r: Vec<&PackageInfo>)
        ensures
            refs_view(r@) == named(all_packages(self@), name@),
    {
        let name = name.to_owned();
        let ghost cache = self@.cache;
        let mut out: Vec<&PackageInfo> = Vec::new();
        let mut i: usize = 0;
        proof {
            assert(refs_view(out@) =~= Seq::<PackageModel>::empty());
            assert(cache.take(0) =~= Seq::<(Seq<char>, RepoModel)>::empty());
        }
        while i < self.repo_cache.len()
            invariant
                i <= cache.len(),
                cache == self@.cache,
                refs_view(out@) == named(cache_packages(cache.take(i as int)), name@),
            decreases cache.len() - i,
        {
            let entry = self.repo_cache.entry(i);
            proof {
                assert(cache.take(i + 1).drop_last() =~= cache.take(i as int));
                assert(cache.take(i + 1).last() == cache[i as int]);
            }
            push_named(&mut out, &entry.repo.packages, &name, Ghost(cache_packages(cache.take(i as int))));
            i += 1;
        }
        proof {
            assert(cache.take(i as int) =~= cache);
        }
        push_named(&mut out, &self.user_packages, &name, Ghost(cache_packages(cache)));
        out
    }
}

/// Among the candidates the selector takes (`compatible[i]` is the engine
/// predicate's answer for candidate `i`), the index of one with the highest
/// precedence, the first such on ties; `None` when it takes none.
pub fn select_best(candidates: &Vec<&PackageInfo>, selector: &PackageSelector, compatible: &Vec<bool>) -> (r:
    Option<usize>)
    requires
        compatible@.len() == candidates@.len(),
    ensures
        match r {
            None => forall|i: int|
                0 <= i < candidates@.len() ==> !selects(selector@, #[trigger] refs_view(candidates@)[i], compatible@[i]),
            Some(b) => {
                &&& b < candidates@.len()
                &&& selects(selector@, refs_view(candidates@)[b as int], compatible@[b as int])
                &&& forall|i: int|
                    0 <= i < candidates@.len() && selects(selector@, #[trigger] refs_view(candidates@)[i], compatible@[i])
                        ==> cmp_version(refs_view(candidates@)[i].version, refs_view(candidates@)[b as int].version) <= 0
                &&& forall|i: int|
                    0 <= i < b && selects(selector@, #[trigger] refs_view(candidates@)[i], compatible@[i])
                        ==> cmp_version(refs_view(candidates@)[i].version, refs_view(candidates@)[b as int].version) < 0
            },
        },
{
    let ghost c = refs_view(candidates@);
    let mut best: Option<usize> = None;
    let mut k: usize = 0;
    while k < candidates.len()
        invariant
            k <= c.len(),
            c == refs_view(candidates@),
            compatible@.len() == c.len(),
            match best {
                None => forall|i: int| 0 <= i < k ==> !selects(selector@, #[trigger] c[i], compatible@[i]),
                Some(b) => {
                    &&& b < k
                    &&& selects(selector@, c[b as int], compatible@[b as int])
                    &&& forall|i: int|
                        0 <= i < k && selects(selector@, #[trigger] c[i], compatible@[i]) ==> cmp_version(
                            c[i].version,
                            c[b as int].version,
                        ) <= 0
                    &&& forall|i: int|
                        0 <= i < b && selects(selector@, #[trigger] c[i], compatible@[i]) ==> cmp_version(
                            c[i].version,
                            c[b as int].version,
                        ) < 0
                },
            },
        decreases c.len() - k,
    {
        let cand = candidates[k];
        if selector.satisfies(cand, compatible[k]) {
            match best {
                None => {
                    best = Some(k);
                    proof {
                        crate::version::lemma_cmp_bytes_antisym(Seq::empty(), Seq::empty());
                        assert forall|i: int|
                            0 <= i < k + 1 && selects(selector@, #[trigger] c[i], compatible@[i]) implies cmp_version(
                            c[i].version,
                            c[k as int].version,
                        ) <= 0 by {
                            crate::version::lemma_cmp_version_antisym(c[i].version, c[i].version);
                        }
                    }
                },
                Some(b) => {
                    let o = cand.version.cmp_precedence(&candidates[b].version);
                    if o > 0 {
                        best = Some(k);
                        proof {
                            let bv = c[b as int].version;
                            let kv = c[k as int].version;
                            crate::version::lemma_cmp_version_antisym(kv, bv);
                            assert forall|i: int|
                                0 <= i < k + 1 && selects(selector@, #[trigger] c[i], compatible@[i]) implies cmp_version(
                                c[i].version,
                                kv,
                            ) <= 0 by {
                                if i < k {
                                    crate::version::lemma_cmp_version_trans(c[i].version, bv, kv);
                                } else {
                                    crate::version::lemma_cmp_version_antisym(kv, kv);
                                }
                            }
                            assert forall|i: int|
                                0 <= i < k && selects(selector@, #[trigger] c[i], compatible@[i]) implies cmp_version(
                                c[i].version,
                                kv,
                            ) < 0 by {
                                crate::version::lemma_cmp_version_trans(c[i].version, bv, kv);
                            }
                        }
                    }
                },
            }
        }
        k += 1;
    }
    best
}

/// A built-in package index.
#[derive(Clone, Copy, Debug, PartialEq, Eq, Structural)]
pub enum PreDefinedRepoSource {
    Official,
    Curated,
}

pub open spec fn predefined_url(s: PreDefinedRepoSource) -> Seq<char> {
    match s {
        PreDefinedRepoSource::Official => "https://packages.vrchat.com/official?download"@,
        PreDefinedRepoSource::Curated => "https://packages.vrchat.com/curated?download"@,
    }
}

pub open spec fn predefined_file_name(s: PreDefinedRepoSource) -> Seq<char> {
    match s {
        PreDefinedRepoSource::Official => "vrc-official.json"@,
        PreDefinedRepoSource::Curated => "vrc-curated.json"@,
    }
}

impl PreDefinedRepoSource {
    /// The default URL of the index.
    pub fn url(&self) -> (r: String)
        ensures
            r@ == predefined_url(*self),
    {
        match self {
            PreDefinedRepoSource::Official => "https://packages.vrchat.com/official?download".to_owned(),
            PreDefinedRepoSource::Curated => "https://packages.vrchat.com/curated?download".to_owned(),
        }
    }

    /// The name of its cache file in the repositories folder.
    pub fn file_name(&self) -> (r: String)
        ensures
            r@ == predefined_file_name(*self),
    {
        match self {
            PreDefinedRepoSource::Official => "vrc-official.json".to_owned(),
            PreDefinedRepoSource::Curated => "vrc-curated.json".to_owned(),
        }
    }
}

/// Where the package list of one repository comes from.
#[derive(Debug)]
pub enum RepoSource<'a> {
    /// A built-in index, with the URL to fetch it from.
    PreDefined(PreDefinedRepoSource, String),
    /// A user registration.
    UserRepo(&'a UserRepoSetting),
}

impl Environment {
    /// The configuration folder.
    pub fn global_dir(&self) -> (r: &String)
        ensures
            r@ == self.global_dir_path(),
    {
        &self.global_dir
    }

    /// The folder of the repository cache files.
    pub fn get_repos_dir(&self) -> (r: &String)
        ensures
            r@ == self.repos_dir_path(),
    {
        &self.repos_dir
    }

    pub closed spec fn global_dir_path(&self) -> Seq<char> {
        self.global_dir@
    }

    pub closed spec fn repos_dir_path(&self) -> Seq<char> {
        self.repos_dir@
    }

    pub closed spec fn url_override(&self, s: PreDefinedRepoSource) -> Option<Seq<char>> {
        match s {
            PreDefinedRepoSource::Official => opt_view(self.official_url_override),
            PreDefinedRepoSource::Curated => opt_view(self.curated_url_override),
        }
    }

    /// Fetches the built-in index `repo` from `url` from now on.
    pub fn set_url_override(&mut self, repo: PreDefinedRepoSource, url: String)
        ensures
            final(self)@ == old(self)@,
            final(self).url_override(repo) == Some(url@),
            forall|o: PreDefinedRepoSource| o != repo ==> final(self).url_override(o) == old(self).url_override(o),
    {
        match repo {
            PreDefinedRepoSource::Official => self.official_url_override = Some(url),
            PreDefinedRepoSource::Curated => self.curated_url_override = Some(url),
        }
    }

    fn source_url(&self, s: PreDefinedRepoSource) -> (r: String)
        ensures
            r@ == match self.url_override(s) {
                Some(u) => u,
                None => predefined_url(s),
            },
    {
        let o = match s {
            PreDefinedRepoSource::Official => &self.official_url_override,
            PreDefinedRepoSource::Curated => &self.curated_url_override,
        };
        match o {
            Some(u) => u.clone(),
            None => s.url(),
        }
    }

    /// Every source to load: the built-in indexes (official, then curated)
    /// with their URLs after overrides, then the user registrations in order.
    pub fn get_repo_sources(&self) -> (r: Vec<RepoSource<'_>>)
        ensures
            r@.len() == 2 + self@.repos.len(),
            r@[0] matches RepoSource::PreDefined(s, u) && s == PreDefinedRepoSource::Official && u@
                == match self.url_override(s) {
                Some(o) => o,
                None => predefined_url(s),
            },
            r@[1] matches RepoSource::PreDefined(s, u) && s == PreDefinedRepoSource::Curated && u@
                == match self.url_override(s) {
                Some(o) => o,
                None => predefined_url(s),
            },
            forall|i: int|
                0 <= i < self@.repos.len() ==> ((#[trigger] r@[i + 2]) matches RepoSource::UserRepo(x)
                    && x@ == self@.repos[i]),
    {
        let mut out: Vec<RepoSource<'_>> = Vec::new();
        out.push(RepoSource::PreDefined(PreDefinedRepoSource::Official, self.source_url(PreDefinedRepoSource::Official)));
        out.push(RepoSource::PreDefined(PreDefinedRepoSource::Curated, self.source_url(PreDefinedRepoSource::Curated)));
        let mut i: usize = 0;
        while i < self.settings.user_repos.len()
            invariant
                i <= self@.repos.len(),
                self@.repos.len() == self.settings.user_repos@.len(),
                out@.len() == 2 + i,
                out@[0] matches RepoSource::PreDefined(s, u) && s == PreDefinedRepoSource::Official && u@
                    == match self.url_override(s) {
                    Some(o) => o,
                    None => predefined_url(s),
                },
                out@[1] matches RepoSource::PreDefined(s, u) && s == PreDefinedRepoSource::Curated && u@
                    == match self.url_override(s) {
                    Some(o) => o,
                    None => predefined_url(s),
                },
                forall|j: int|
                    0 <= j < i ==> ((#[trigger] out@[j + 2]) matches RepoSource::UserRepo(x) && x@
                        == self@.repos[j]),
            decreases self@.repos.len() - i,
        {
            out.push(RepoSource::UserRepo(&self.settings.user_repos[i]));
            proof {
                assert forall|j: int|
                    0 <= j < i + 1 implies ((#[trigger] out@[j + 2]) matches RepoSource::UserRepo(x) && x@
                        == self@.repos[j]) by {
                    if j == i {
                        assert(out@[j + 2] == RepoSource::UserRepo(&self.settings.user_repos@[j]));
                    }
                }
            }
            i += 1;
        }
        out
    }
}

/// `s` runs from the highest precedence down.
pub open spec fn sorted_desc(s: Seq<PackageModel>) -> bool {
    forall|i: int, j: int| 0 <= i < j < s.len() ==> cmp_version(#[trigger] s[j].version, #[trigger] s[i].version) <= 0
}

/// `s` holds a package of the same name and an equal version as `p`.
pub open spec fn has_same(s: Seq<PackageModel>, p: PackageModel) -> bool {
    exists|i: int| 0 <= i < s.len() && #[trigger] s[i].name == p.name && cmp_version(s[i].version, p.version) == 0
}

/// Same name and equal precedence.
pub open spec fn same_release(a: PackageModel, b: PackageModel) -> bool {
    a.name == b.name && cmp_version(a.version, b.version) == 0
}

/// `x` is a candidate marked to keep, and no candidate marked to keep before
/// it has its name and version.
pub open spec fn is_first_kept(c: Seq<PackageModel>, keep: Seq<bool>, x: PackageModel) -> bool {
    exists|m: int|
        0 <= m < c.len() && keep[m] && #[trigger] c[m] == x && forall|k: int|
            0 <= k < m && keep[k] ==> !same_release(#[trigger] c[k], x)
}

proof fn lemma_same_release_trans(a: PackageModel, b: PackageModel, d: PackageModel)
    requires
        same_release(a, b),
        same_release(b, d),
    ensures
        same_release(a, d),
{
    crate::version::lemma_cmp_version_antisym(a.version, b.version);
    crate::version::lemma_cmp_version_antisym(b.version, d.version);
    crate::version::lemma_cmp_version_antisym(a.version, d.version);
    crate::version::lemma_cmp_version_trans(a.version, b.version, d.version);
    crate::version::lemma_cmp_version_trans(d.version, b.version, a.version);
}

fn position_of_same(out: &Vec<&PackageInfo>, p: &PackageInfo) -> (r: bool)
    ensures
        r == has_same(refs_view(out@), p@),
{
    let ghost v = refs_view(out@);
    let mut i: usize = 0;
    while i < out.len()
        invariant
            i <= v.len(),
            v == refs_view(out@),
            forall|j: int| 0 <= j < i ==> !(#[trigger] v[j].name == p@.name && cmp_version(v[j].version, p@.version) == 0),
        decreases v.len() - i,
    {
        if out[i].name == p.name && out[i].version.cmp_precedence(&p.version) == 0 {
            proof {
                assert(v[i as int].name == p@.name);
            }
            return true;
        }
        i += 1;
    }
    false
}

/// The kept candidates (`keep[i]` for candidate `i`), highest precedence
/// first, with one package left of each name and version.
pub fn sort_unique_desc<'a>(candidates: &Vec<&'a PackageInfo>, keep: &Vec<bool>) -> (r: Vec<&'a PackageInfo>)
    requires
        keep@.len() == candidates@.len(),
    ensures
        sorted_desc(refs_view(r@)),
        forall|i: int| 0 <= i < r@.len() ==> is_first_kept(refs_view(candidates@), keep@, #[trigger] refs_view(r@)[i]),
        forall|k: int| 0 <= k < candidates@.len() && keep@[k] ==> has_same(refs_view(r@), #[trigger] refs_view(candidates@)[k]),
        forall|i: int, j: int| 0 <= i < j < r@.len() ==> !(#[trigger] refs_view(r@)[i].name == #[trigger] refs_view(r@)[j].name
            && cmp_version(refs_view(r@)[i].version, refs_view(r@)[j].version) == 0),
{
    let ghost c = refs_view(candidates@);
    let mut out: Vec<&'a PackageInfo> = Vec::new();
    let mut k: usize = 0;
    while k < candidates.len()
        invariant
            k <= c.len(),
            c == refs_view(candidates@),
            keep@.len() == c.len(),
            sorted_desc(refs_view(out@)),
            forall|i: int| 0 <= i < out@.len() ==> is_first_kept(c, keep@, #[trigger] refs_view(out@)[i]),
            forall|m: int| 0 <= m < k && keep@[m] ==> has_same(refs_view(out@), #[trigger] c[m]),
            forall|i: int, j: int| 0 <= i < j < out@.len() ==> !(#[trigger] refs_view(out@)[i].name == #[trigger] refs_view(out@)[j].name
                && cmp_version(refs_view(out@)[i].version, refs_view(out@)[j].version) == 0),
        decreases c.len() - k,
    {
        let ghost before = refs_view(out@);
        if keep[k] && !position_of_same(&out, candidates[k]) {
            let cand = candidates[k];
            let mut p: usize = 0;
            while p < out.len() && out[p].version.cmp_precedence(&cand.version) >= 0
                invariant
                    p <= before.len(),
                    before == refs_view(out@),
                    forall|i: int| 0 <= i < p ==> cmp_version(#[trigger] before[i].version, cand@.version) >= 0,
                decreases before.len() - p,
            {
                p += 1;
            }
            out.insert(p, cand);
            proof {
                let x = cand@;
                let after = refs_view(out@);
                assert(after =~= before.insert(p as int, x));
                assert(x == c[k as int]);
                assert forall|i: int, j: int| 0 <= i < j < after.len() implies cmp_version(#[trigger] after[j].version, #[trigger] after[i].version) <= 0 by {
                    if j < p {
                    } else if i > p {
                        assert(after[i] == before[i - 1]);
                        assert(after[j] == before[j - 1]);
                    } else if i == p {
                        assert(after[j] == before[j - 1]);
                        // before[p] < x, before[j-1] <= before[p]
                        crate::version::lemma_cmp_version_antisym(before[p as int].version, x.version);
                        if j - 1 > p {
                            crate::version::lemma_cmp_version_trans(before[j - 1].version, before[p as int].version, x.version);
                        }
                    } else {
                        // i < p == j or i < p < j
                        if j == p {
                            crate::version::lemma_cmp_version_antisym(before[i].version, x.version);
                        } else {
                            assert(after[j] == before[j - 1]);
                        }
                    }
                }
                assert forall|m: int| 0 <= m < k && keep@[m] implies !same_release(#[trigger] c[m], x) by {
                    let w = choose|w: int| 0 <= w < before.len() && #[trigger] before[w].name == c[m].name && cmp_version(before[w].version, c[m].version) == 0;
                    if same_release(c[m], x) {
                        lemma_same_release_trans(before[w], c[m], x);
                        assert(has_same(before, x));
                    }
                }
                assert forall|i: int| 0 <= i < after.len() implies is_first_kept(c, keep@, #[trigger] after[i]) by {
                    if i < p {
                        assert(after[i] == before[i]);
                    } else if i > p {
                        assert(after[i] == before[i - 1]);
                    } else {
                        assert(after[i] == c[k as int]);
                    }
                }
                assert forall|m: int| 0 <= m < k + 1 && keep@[m] implies has_same(after, #[trigger] c[m]) by {
                    if m == k {
                        crate::version::lemma_cmp_version_antisym(x.version, x.version);
                        assert(after[p as int] == x);
                    } else {
                        let w = choose|w: int| 0 <= w < before.len() && #[trigger] before[w].name == c[m].name && cmp_version(before[w].version, c[m].version) == 0;
                        if w < p {
                            assert(after[w] == before[w]);
                        } else {
                            assert(after[w + 1] == before[w]);
                        }
                    }
                }
                assert forall|i: int, j: int| 0 <= i < j < after.len() implies !(#[trigger] after[i].name == #[trigger] after[j].name
                    && cmp_version(after[i].version, after[j].version) == 0) by {
                    if i == p {
                        assert(after[j] == before[j - 1]);
                        crate::version::lemma_cmp_version_antisym(after[i].version, after[j].version);
                    } else if j == p {
                        assert(after[i] == before[i]);
                    } else {
                        let bi = if i < p { i } else { i - 1 };
                        let bj = if j < p { j } else { j - 1 };
                        assert(after[i] == before[bi]);
                        assert(after[j] == before[bj]);
                    }
                }
            }
        } else {
            proof {
                assert forall|m: int| 0 <= m < k + 1 && keep@[m] implies has_same(before, #[trigger] c[m]) by {
                    if m == k {
                        assert(c[m] == candidates@[m]@);
                    }
                }
            }
        }
        k += 1;
    }
    out
}

pub open spec fn stable_unyanked(p: PackageModel) -> bool {
    !p.yanked && p.version.pre.len() == 0
}

/// `pkgs[k]` is a stable, not withdrawn package with no stable, not withdrawn
/// package of its name in `pkgs` above it.
pub open spec fn is_latest_stable(pkgs: Seq<PackageModel>, k: int) -> bool {
    &&& stable_unyanked(pkgs[k])
    &&& forall|j: int|
        0 <= j < pkgs.len() && #[trigger] pkgs[j].name == pkgs[k].name && stable_unyanked(pkgs[j])
            ==> cmp_version(pkgs[j].version, pkgs[k].version) <= 0
}

/// The latest stable packages among the first `n` of `pkgs`, in order.
pub open spec fn latest_upto(pkgs: Seq<PackageModel>, n: int) -> Seq<PackageModel>
    decreases n,
{
    if n <= 0 {
        Seq::empty()
    } else if is_latest_stable(pkgs, n - 1) {
        latest_upto(pkgs, n - 1).push(pkgs[n - 1])
    } else {
        latest_upto(pkgs, n - 1)
    }
}

/// The latest stable packages of each loaded repository, repository by repository.
pub open spec fn cache_latest(c: Seq<(Seq<char>, RepoModel)>) -> Seq<PackageModel>
    decreases c.len(),
{
    if c.len() == 0 {
        Seq::empty()
    } else {
        cache_latest(c.drop_last()) + latest_upto(c.last().1.packages, c.last().1.packages.len() as int)
    }
}

/// The pre-release packages of `s`, in order.
pub open spec fn prereleases(s: Seq<PackageModel>) -> Seq<PackageModel>
    decreases s.len(),
{
    if s.len() == 0 {
        s
    } else if s.last().version.pre.len() > 0 {
        prereleases(s.drop_last()).push(s.last())
    } else {
        prereleases(s.drop_last())
    }
}

fn is_latest_at(pkgs: &Vec<PackageInfo>, k: usize) -> (r: bool)
    requires
        k < pkgs@.len(),
    ensures
        r == is_latest_stable(pkgs@.map_values(|p: PackageInfo| p@), k as int),
{
    let ghost pv = pkgs@.map_values(|p: PackageInfo| p@);
    let cand = &pkgs[k];
    if cand.yanked || !cand.version.is_stable() {
        return false;
    }
    let mut j: usize = 0;
    while j < pkgs.len()
        invariant
            j <= pv.len(),
            k < pv.len(),
            pv == pkgs@.map_values(|p: PackageInfo| p@),
            cand@ == pv[k as int],
            forall|i: int|
                0 <= i < j && #[trigger] pv[i].name == pv[k as int].name && stable_unyanked(pv[i])
                    ==> cmp_version(pv[i].version, pv[k as int].version) <= 0,
        decreases pv.len() - j,
    {
        let o = &pkgs[j];
        if o.name == cand.name && !o.yanked && o.version.is_stable() && o.version.cmp_precedence(&cand.version) > 0 {
            proof {
                assert(pv[j as int].name == pv[k as int].name);
            }
            return false;
        }
        j += 1;
    }
    true
}

fn push_latest<'a>(out: &mut Vec<&'a PackageInfo>, pkgs: &'a Vec<PackageInfo>, Ghost(base): Ghost<Seq<PackageModel>>)
    requires
        refs_view(old(out)@) == base,
    ensures
        refs_view(final(out)@) == base + latest_upto(pkgs@.map_values(|p: PackageInfo| p@), pkgs@.len() as int),
{
    let ghost pv = pkgs@.map_values(|p: PackageInfo| p@);
    let mut k: usize = 0;
    proof {
        assert(base + latest_upto(pv, 0) =~= base);
    }
    while k < pkgs.len()
        invariant
            k <= pv.len(),
            pv == pkgs@.map_values(|p: PackageInfo| p@),
            refs_view(out@) == base + latest_upto(pv, k as int),
        decreases pv.len() - k,
    {
        let ghost prev = refs_view(out@);
        if is_latest_at(pkgs, k) {
            out.push(&pkgs[k]);
            proof {
                assert(refs_view(out@) =~= prev.push(pv[k as int]));
                assert(base + latest_upto(pv, k + 1) =~= prev.push(pv[k as int]));
            }
        }
        k += 1;
    }
}

impl Environment {
    /// The candidates of a registry-wide listing: for each loaded repository,
    /// the latest stable, not withdrawn package of each name; then the
    /// pre-release packages of the user package folders.
    pub fn latest_candidates(&self) -> (r: Vec<&PackageInfo>)
        ensures
            refs_view(r@) == cache_latest(self@.cache) + prereleases(self@.user_packages),
    {
        let ghost cache = self@.cache;
        let mut out: Vec<&PackageInfo> = Vec::new();
        let mut i: usize = 0;
        proof {
            assert(refs_view(out@) =~= Seq::<PackageModel>::empty());
            assert(cache.take(0) =~= Seq::<(Seq<char>, RepoModel)>::empty());
        }
        while i < self.repo_cache.len()
            invariant
                i <= cache.len(),
                cache == self@.cache,
                refs_view(out@) == cache_latest(cache.take(i as int)),
            decreases cache.len() - i,
        {
            let entry = self.repo_cache.entry(i);
            proof {
                assert(cache.take(i + 1).drop_last() =~= cache.take(i as int));
                assert(cache.take(i + 1).last() == cache[i as int]);
            }
            push_latest(&mut out, &entry.repo.packages, Ghost(cache_latest(cache.take(i as int))));
            i += 1;
        }
        proof {
            assert(cache.take(i as int) =~= cache);
        }
        let ghost base = refs_view(out@);
        let ghost uv = self@.user_packages;
        let mut k: usize = 0;
        proof {
            assert(uv.take(0) =~= Seq::<PackageModel>::empty());
            assert(base + prereleases(uv.take(0)) =~= base);
        }
        while k < self.user_packages.len()
            invariant
                k <= uv.len(),
                uv == self@.user_packages,
                uv == self.user_packages@.map_values(|p: PackageInfo| p@),
                refs_view(out@) == base + prereleases(uv.take(k as int)),
            decreases uv.len() - k,
        {
            let ghost prev = refs_view(out@);
            proof {
                assert(uv.take(k + 1).drop_last() =~= uv.take(k as int));
                assert(uv.take(k + 1).last() == uv[k as int]);
            }
            if !self.user_packages[k].version.is_stable() {
                out.push(&self.user_packages[k]);
                proof {
                    assert(refs_view(out@) =~= prev.push(uv[k as int]));
                }
            }
            k += 1;
        }
        proof {
            assert(uv.take(k as int) =~= uv);
        }
        out
    }
}

impl Environment {
    /// The loaded repositories, in cache order.
    pub fn get_repos(&self) -> (r: Vec<&LocalCachedRepository>)
        ensures
            r@.len() == self@.cache.len(),
            forall|i: int| 0 <= i < r@.len() ==> (#[trigger] r@[i])@ == self@.cache[i].1,
    {
        let mut out: Vec<&LocalCachedRepository> = Vec::new();
        let mut i: usize = 0;
        while i < self.repo_cache.len()
            invariant
                i <= self@.cache.len(),
                out@.len() == i,
                forall|j: int| 0 <= j < i ==> (#[trigger] out@[j])@ == self@.cache[j].1,
            decreases self@.cache.len() - i,
        {
            out.push(&self.repo_cache.entry(i).repo);
            i += 1;
        }
        out
    }

    /// The loaded repositories with the paths of their cache files.
    pub fn get_repo_with_path(&self) -> (r: Vec<(&String, &LocalCachedRepository)>)
        ensures
            r@.len() == self@.cache.len(),
            forall|i: int| 0 <= i < r@.len() ==> ((#[trigger] r@[i]).0@, r@[i].1@) == self@.cache[i],
    {
        let mut out: Vec<(&String, &LocalCachedRepository)> = Vec::new();
        let mut i: usize = 0;
        while i < self.repo_cache.len()
            invariant
                i <= self@.cache.len(),
                out@.len() == i,
                forall|j: int| 0 <= j < i ==> ((#[trigger] out@[j]).0@, out@[j].1@) == self@.cache[j],
            decreases self@.cache.len() - i,
        {
            let e = self.repo_cache.entry(i);
            out.push((&e.local_path, &e.repo));
            i += 1;
        }
        out
    }
}

proof fn lemma_dedup_from(s: Seq<RepoSettingModel>)
    ensures
        forall|m: int| 0 <= m < dedup_ids(s).len() ==> exists|k: int| 0 <= k < s.len() && #[trigger] dedup_ids(s)[m] == s[k],
    decreases s.len(),
{
    if s.len() > 0 {
        let p = s.drop_last();
        lemma_dedup_from(p);
        let kept = dedup_ids(p);
        assert forall|m: int| 0 <= m < dedup_ids(s).len() implies exists|k: int| 0 <= k < s.len() && #[trigger] dedup_ids(s)[m] == s[k] by {
            if m < kept.len() {
                assert(dedup_ids(s)[m] == kept[m]);
                let k = choose|k: int| 0 <= k < p.len() && #[trigger] kept[m] == p[k];
                assert(s[k] == p[k]);
            } else {
                assert(dedup_ids(s)[m] == s[s.len() - 1]);
            }
        }
    }
}

proof fn lemma_dedup_prefix(s: Seq<RepoSettingModel>, n: int)
    requires
        0 <= n <= s.len(),
    ensures
        dedup_ids(s.take(n)).len() <= dedup_ids(s).len(),
        forall|m: int| 0 <= m < dedup_ids(s.take(n)).len() ==> #[trigger] dedup_ids(s)[m] == dedup_ids(s.take(n))[m],
    decreases s.len(),
{
    if n == s.len() {
        assert(s.take(n) =~= s);
    } else {
        assert(s.drop_last().take(n) =~= s.take(n));
        lemma_dedup_prefix(s.drop_last(), n);
    }
}

/// The first registration with a given identifier is kept by duplicate
/// elimination, and it is then the only kept one with that identifier.
pub proof fn lemma_first_of_id_kept(s: Seq<RepoSettingModel>, i: int)
    requires
        0 <= i < s.len(),
        s[i].id is Some,
        forall|j: int| 0 <= j < i ==> #[trigger] s[j].id != s[i].id,
    ensures
        exists|m: int| 0 <= m < dedup_ids(s).len() && #[trigger] dedup_ids(s)[m] == s[i],
        forall|m: int| 0 <= m < dedup_ids(s).len() && (#[trigger] dedup_ids(s)[m]).id == s[i].id ==> dedup_ids(s)[m] == s[i],
{
    let p = s.take(i);
    let kept = dedup_ids(p);
    let x = s[i].id->Some_0;
    lemma_dedup_from(p);
    if id_registered(kept, x) {
        let w = choose|w: int| 0 <= w < kept.len() && #[trigger] kept[w].id == Some(x);
        let k = choose|k: int| 0 <= k < p.len() && #[trigger] kept[w] == p[k];
        assert(p[k] == s[k]);
    }
    let q = s.take(i + 1);
    assert(q.drop_last() =~= p);
    assert(q.last() == s[i]);
    assert(dedup_ids(q) == kept.push(s[i]));
    lemma_dedup_prefix(s, i + 1);
    let m0 = kept.len() as int;
    assert(dedup_ids(s)[m0] == s[i]);
    lemma_dedup_unique(s);
    assert forall|m: int| 0 <= m < dedup_ids(s).len() && (#[trigger] dedup_ids(s)[m]).id == s[i].id implies dedup_ids(s)[m] == s[i] by {
        if m < m0 {
            assert(dedup_ids(s)[m].id != dedup_ids(s)[m0].id);
        } else if m > m0 {
            assert(dedup_ids(s)[m0].id != dedup_ids(s)[m].id);
        }
    }
}

/// No entry of `c` is cached under `p`.
pub open spec fn no_entry(c: Seq<(Seq<char>, RepoModel)>, p: Seq<char>) -> bool {
    forall|i: int| 0 <= i < c.len() ==> (#[trigger] c[i]).0 != p
}

proof fn lemma_lookup_none(c: Seq<(Seq<char>, RepoModel)>, p: Seq<char>)
    requires
        no_entry(c, p),
    ensures
        lookup(c, p) is None,
    decreases c.len(),
{
    if c.len() > 0 {
        assert(c[0].0 != p);
        assert forall|i: int| 0 <= i < c.drop_first().len() implies (#[trigger] c.drop_first()[i]).0 != p by {
            assert(c.drop_first()[i] == c[i + 1]);
        }
        lemma_lookup_none(c.drop_first(), p);
    }
}

proof fn lemma_without_entries(c: Seq<(Seq<char>, RepoModel)>, q: Seq<char>, p: Seq<char>)
    requires
        p == q || no_entry(c, p),
    ensures
        no_entry(without(c, q), p),
    decreases c.len(),
{
    if c.len() > 0 {
        let d = c.drop_last();
        if p != q {
            assert forall|i: int| 0 <= i < d.len() implies (#[trigger] d[i]).0 != p by {
                assert(d[i] == c[i]);
            }
            assert(c[c.len() - 1].0 != p);
        }
        lemma_without_entries(d, q, p);
        let w = without(d, q);
        if c.last().0 != q {
            assert forall|i: int| 0 <= i < w.push(c.last()).len() implies (#[trigger] w.push(c.last())[i]).0 != p by {
                if i < w.len() {
                    assert(w.push(c.last())[i] == w[i]);
                }
            }
        }
    }
}

/// A repository whose cache file is among those dropped is no longer
/// cached after the drop.
pub proof fn lemma_dropped_evicted(c: Seq<(Seq<char>, RepoModel)>, paths: Seq<Seq<char>>, t: int)
    requires
        0 <= t < paths.len(),
    ensures
        no_entry(without_all(c, paths), paths[t]),
        lookup(without_all(c, paths), paths[t]) is None,
    decreases paths.len(),
{
    let p = paths[t];
    if t == paths.len() - 1 {
        lemma_without_entries(without_all(c, paths.drop_last()), p, p);
    } else {
        assert(paths.drop_last()[t] == p);
        lemma_dropped_evicted(c, paths.drop_last(), t);
        lemma_without_entries(without_all(c, paths.drop_last()), paths.last(), p);
    }
    lemma_lookup_none(without_all(c, paths), p);
}

} // verus!
