use vpm_core::environment::{
    cache_file_name, is_id_name_for_file, select_best, sort_unique_desc, AddRepositoryErr, Environment,
    PreDefinedRepoSource, RepoSource, Settings, UserRepoSetting,
};
use vpm_core::package::{PackageInfo, PackageSource};
use vpm_core::range::VersionRange;
use vpm_core::repo_cache::{CachedRepo, LocalCachedRepository, RepoHolder};
use vpm_core::selector::{PackageSelector, UnityVersion};
use vpm_core::version::Version;

fn pkg(name: &str, version: &str, yanked: bool) -> PackageInfo {
    PackageInfo {
        name: name.to_string(),
        version: Version::parse(version).unwrap(),
        yanked,
        source: PackageSource::UserFolder("/pkgs".to_string()),
    }
}

fn env() -> Environment {
    let settings = Settings { user_repos: Vec::new(), user_package_folders: Vec::new() };
    Environment::new(settings, true, "/cfg".to_string(), "/cfg/Repos".to_string())
}

fn repo(path: &str, url: Option<&str>, id: Option<&str>) -> UserRepoSetting {
    UserRepoSetting {
        local_path: path.to_string(),
        name: None,
        url: url.map(str::to_string),
        id: id.map(str::to_string),
        headers: Vec::new(),
    }
}

#[test]
fn range_selector_checks_range_yank_and_engine() {
    let range = VersionRange::parse(">=1.0.0").unwrap();
    let unity = UnityVersion { major: 2022, minor: 3, revision: 6 };
    let any = PackageSelector::range_for(None, &range);
    let targeted = PackageSelector::range_for(Some(unity), &range);
    assert!(any.satisfies(&pkg("a", "1.2.0", false), false));
    assert!(!any.satisfies(&pkg("a", "0.2.0", false), true));
    assert!(!any.satisfies(&pkg("a", "1.2.0", true), true));
    assert!(targeted.satisfies(&pkg("a", "1.2.0", false), true));
    assert!(!targeted.satisfies(&pkg("a", "1.2.0", false), false));
    assert_eq!(targeted.target_unity(), Some(unity));
}

#[test]
fn specific_selector_takes_yanked() {
    let v = Version::parse("1.0.0").unwrap();
    let s = PackageSelector::specific_version(&v);
    assert!(s.satisfies(&pkg("a", "1.0.0", true), false));
    assert!(!s.satisfies(&pkg("a", "1.0.1", false), true));
    assert_eq!(s.as_specific().unwrap().format(), "1.0.0");
    assert!(PackageSelector::latest_for(None, true).as_specific().is_none());
}

#[test]
fn latest_selector_stable_only_unless_asked() {
    let stable = PackageSelector::latest_for(None, false);
    let pre = PackageSelector::latest_for(None, true);
    assert!(stable.satisfies(&pkg("a", "1.0.0", false), false));
    assert!(!stable.satisfies(&pkg("a", "1.0.0-beta", false), false));
    assert!(pre.satisfies(&pkg("a", "1.0.0-beta", false), false));
    assert!(!pre.satisfies(&pkg("a", "1.0.0", true), false));
}

#[test]
fn ranges_selector_needs_every_range() {
    let a = VersionRange::parse(">=1.0.0").unwrap();
    let b = VersionRange::parse("<1.5.0").unwrap();
    let list = [&a, &b];
    let s = PackageSelector::ranges_for(None, &list);
    assert!(s.satisfies(&pkg("a", "1.2.0", false), false));
    assert!(!s.satisfies(&pkg("a", "1.6.0", false), false));
}

#[test]
fn select_best_picks_highest_first_on_ties() {
    let p = [pkg("a", "1.0.0", false), pkg("a", "2.0.0", false), pkg("a", "2.0.0+x", false), pkg("a", "3.0.0", true)];
    let c: Vec<&PackageInfo> = p.iter().collect();
    let sel = PackageSelector::latest_for(None, false);
    assert_eq!(select_best(&c, &sel, &vec![true; 4]), Some(1));
    let none = PackageSelector::latest_for(Some(UnityVersion { major: 1, minor: 0, revision: 0 }), false);
    assert_eq!(select_best(&c, &none, &vec![false; 4]), None);
}

#[test]
fn local_repo_added_twice_is_refused() {
    let mut e = env();
    assert!(e.add_local_repo("/repos/a.json", None).is_ok());
    assert!(matches!(e.add_local_repo("/repos/a.json", None), Err(AddRepositoryErr::AlreadyAdded)));
    assert!(e.add_local_repo("/repos/b.json", Some("B")).is_ok());
    let repos = e.get_user_repos();
    assert_eq!(repos.len(), 2);
    assert_eq!(repos[0].local_path, "/repos/a.json");
    assert_eq!(repos[1].name.as_deref(), Some("B"));
    assert!(repos[1].url.is_none() && repos[1].id.is_none());
    assert!(e.needs_save());
}

#[test]
fn remote_repo_added_twice_is_refused() {
    let mut e = env();
    let url = "https://example.com/index.json";
    assert!(e.check_new_remote(url).is_ok());
    e.register_remote_repo("/cfg/Repos/x.json".to_string(), None, Some("X".to_string()), url.to_string(), Some("com.x".to_string()), Vec::new());
    assert!(matches!(e.check_new_remote(url), Err(AddRepositoryErr::AlreadyAdded)));
    assert!(matches!(e.check_remote_id(Some("com.x")), Err(AddRepositoryErr::AlreadyAdded)));
    assert!(e.check_remote_id(Some("com.y")).is_ok());
    assert_eq!(e.get_user_repos().len(), 1);
    assert_eq!(e.get_user_repos()[0].name.as_deref(), Some("X"));
}

#[test]
fn remote_repo_offline_is_refused() {
    let settings = Settings { user_repos: Vec::new(), user_package_folders: Vec::new() };
    let e = Environment::new(settings, false, "/cfg".to_string(), "/cfg/Repos".to_string());
    assert!(matches!(e.check_new_remote("https://a"), Err(AddRepositoryErr::OfflineMode)));
}

#[test]
fn duplicate_ids_collapse_after_load() {
    let settings = Settings {
        user_repos: vec![repo("/r/a.json", Some("https://a"), None), repo("/r/b.json", Some("https://b"), None)],
        user_package_folders: Vec::new(),
    };
    let mut e = Environment::new(settings, true, "/cfg".to_string(), "/cfg/Repos".to_string());
    let mut cache = RepoHolder::new();
    for path in ["/r/a.json", "/r/b.json"] {
        cache.insert_repo(CachedRepo {
            local_path: path.to_string(),
            repo: LocalCachedRepository { id: Some("com.same".to_string()), url: None, name: None, packages: Vec::new() },
        });
    }
    let removed = e.apply_loaded(cache, Vec::new());
    assert_eq!(removed, vec!["/r/b.json".to_string()]);
    assert_eq!(e.get_user_repos().len(), 1);
    assert_eq!(e.get_user_repos()[0].id.as_deref(), Some("com.same"));
    assert_eq!(e.repo_cache().len(), 1);
    assert!(e.needs_save());
}

#[test]
fn ids_resolve_to_url_without_reported_id() {
    let settings = Settings { user_repos: vec![repo("/r/a.json", Some("https://a"), None)], user_package_folders: Vec::new() };
    let mut e = Environment::new(settings, true, "/cfg".to_string(), "/cfg/Repos".to_string());
    e.update_user_repo_id();
    assert_eq!(e.get_user_repos()[0].id.as_deref(), Some("https://a"));
    assert!(e.needs_save());
    e.mark_saved();
    e.update_user_repo_id();
    assert!(!e.needs_save());
}

#[test]
fn remove_repo_nothing_selected() {
    let mut e = env();
    e.add_local_repo("/r/a.json", None).unwrap();
    e.mark_saved();
    let removed = e.remove_repo(&vec![false]);
    assert!(removed.is_empty());
    assert!(!e.needs_save());
    assert_eq!(e.get_user_repos().len(), 1);
}

#[test]
fn remove_repo_selected() {
    let mut e = env();
    for p in ["/r/a.json", "/r/b.json", "/r/c.json"] {
        e.add_local_repo(p, None).unwrap();
    }
    e.mark_saved();
    let removed = e.remove_repo(&vec![true, false, true]);
    assert_eq!(removed, vec!["/r/a.json".to_string(), "/r/c.json".to_string()]);
    assert_eq!(e.get_user_repos().len(), 1);
    assert_eq!(e.get_user_repos()[0].local_path, "/r/b.json");
    assert!(e.needs_save());
}

#[test]
fn save_twice_writes_once() {
    let mut e = env();
    assert!(!e.needs_save());
    e.add_local_repo("/r/a.json", None).unwrap();
    let mut writes = 0;
    for _ in 0..2 {
        if e.needs_save() {
            writes += 1;
            e.mark_saved();
        }
    }
    assert_eq!(writes, 1);
}

#[test]
fn cache_file_names() {
    assert!(is_id_name_for_file("com.vrchat.repos-1_x"));
    assert!(!is_id_name_for_file("a/b"));
    assert!(!is_id_name_for_file(""));
    assert_eq!(cache_file_name(Some("com.x"), false), "com.x.json");
    let fresh = cache_file_name(Some("com.x"), true);
    assert_eq!(fresh.len(), 41);
    assert!(fresh.ends_with(".json"));
    assert_ne!(fresh, "com.x.json");
    let other = cache_file_name(Some("bad id"), false);
    assert_eq!(other.len(), 41);
    assert_ne!(cache_file_name(None, false), cache_file_name(None, false));
}

#[test]
fn repo_sources_and_overrides() {
    let settings = Settings { user_repos: vec![repo("/r/a.json", None, None)], user_package_folders: Vec::new() };
    let mut e = Environment::new(settings, true, "/cfg".to_string(), "/cfg/Repos".to_string());
    e.set_url_override(PreDefinedRepoSource::Curated, "https://mirror/curated".to_string());
    let sources = e.get_repo_sources();
    assert_eq!(sources.len(), 3);
    match &sources[0] {
        RepoSource::PreDefined(s, u) => {
            assert_eq!(*s, PreDefinedRepoSource::Official);
            assert_eq!(u, "https://packages.vrchat.com/official?download");
        }
        _ => panic!("expected a built-in source"),
    }
    match &sources[1] {
        RepoSource::PreDefined(_, u) => assert_eq!(u, "https://mirror/curated"),
        _ => panic!("expected a built-in source"),
    }
    match &sources[2] {
        RepoSource::UserRepo(r) => assert_eq!(r.local_path, "/r/a.json"),
        _ => panic!("expected a user source"),
    }
    assert_eq!(PreDefinedRepoSource::Official.file_name(), "vrc-official.json");
    assert_eq!(e.get_repos_dir(), "/cfg/Repos");
}

#[test]
fn find_packages_by_name() {
    let mut e = env();
    let mut cache = RepoHolder::new();
    cache.insert_repo(CachedRepo {
        local_path: "/r/a.json".to_string(),
        repo: LocalCachedRepository { id: None, url: None, name: None, packages: vec![pkg("x", "1.0.0", false), pkg("y", "1.0.0", false)] },
    });
    e.apply_loaded(cache, vec![pkg("x", "2.0.0", false)]);
    let found = e.find_packages("x");
    assert_eq!(found.len(), 2);
    assert_eq!(found[1].version.format(), "2.0.0");
    assert!(e.find_packages("z").is_empty());
}

#[test]
fn whole_listing_sorted_and_unique() {
    let mut e = env();
    let mut cache = RepoHolder::new();
    cache.insert_repo(CachedRepo {
        local_path: "/r/a.json".to_string(),
        repo: LocalCachedRepository {
            id: None,
            url: None,
            name: None,
            packages: vec![
                pkg("x", "1.0.0", false),
                pkg("x", "1.2.0", false),
                pkg("x", "2.0.0-beta", false),
                pkg("x", "3.0.0", true),
                pkg("y", "0.5.0", false),
            ],
        },
    });
    cache.insert_repo(CachedRepo {
        local_path: "/r/b.json".to_string(),
        repo: LocalCachedRepository { id: None, url: None, name: None, packages: vec![pkg("x", "1.2.0", false), pkg("z", "4.0.0", false)] },
    });
    e.apply_loaded(cache, vec![pkg("w", "9.0.0-rc.1", false), pkg("v", "1.0.0", false)]);
    let candidates = e.latest_candidates();
    let names: Vec<String> = candidates.iter().map(|p| format!("{}@{}", p.name, p.version.format())).collect();
    assert_eq!(names, vec!["x@1.2.0", "y@0.5.0", "x@1.2.0", "z@4.0.0", "w@9.0.0-rc.1"]);
    let keep: Vec<bool> = candidates.iter().map(|p| p.name != "z").collect();
    let listed = sort_unique_desc(&candidates, &keep);
    let names: Vec<String> = listed.iter().map(|p| format!("{}@{}", p.name, p.version.format())).collect();
    assert_eq!(names, vec!["w@9.0.0-rc.1", "x@1.2.0", "y@0.5.0"]);
}

#[test]
fn random_cache_name_charset() {
    let name = cache_file_name(None, false);
    assert_eq!(name.len(), 41);
    assert!(name[..36].bytes().all(|b| b.is_ascii_hexdigit() && !b.is_ascii_uppercase() || b == b'-'));
    assert_eq!(&name[36..], ".json");
}

#[test]
fn sort_unique_keeps_first_of_equal() {
    let a = PackageInfo { source: PackageSource::Repository("/first".to_string()), ..pkg("x", "1.0.0", false) };
    let b = PackageInfo { source: PackageSource::Repository("/second".to_string()), ..pkg("x", "1.0.0", false) };
    let c: Vec<&PackageInfo> = vec![&a, &b];
    let r = sort_unique_desc(&c, &vec![true, true]);
    assert_eq!(r.len(), 1);
    assert!(matches!(&r[0].source, PackageSource::Repository(p) if p == "/first"));
    let r = sort_unique_desc(&c, &vec![false, true]);
    assert!(matches!(&r[0].source, PackageSource::Repository(p) if p == "/second"));
}
