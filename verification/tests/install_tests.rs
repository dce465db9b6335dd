use ragu::cache::{
    cache_key_for_tool, get_cache_path, get_registry_index_cache_path,
    get_registry_package_set_cache_path, CachedPackage, GlobalPackageCache,
};
use ragu::config::{PackageConfig, SpagoConfig, WorkspaceConfig};
use ragu::install::{
    aggregate_install_results, check_archive_layout, cleanup_unused_packages, plan_install,
    prune_plan, ArchiveError, InstallManager, InstallStep, InstalledPackage, RegistryPackageInfo,
};
use ragu::modules::ModuleInfo;
use ragu::name::PackageName;
use ragu::package::{LocalPackage, Package, PackageSet, PackageSetPackage, RegistryPackage};
use ragu::query::PackageQuery;
use ragu::workspace::compute_dependency_stats;

fn cache() -> GlobalPackageCache {
    GlobalPackageCache::new(
        "/tmp/ragu-cache".to_string(),
        cache_key_for_tool("0.1.0"),
        Vec::new(),
    )
}

fn remote(name: &str, deps: Vec<&str>, version: &str) -> Package {
    Package::new(PackageSetPackage {
        name: PackageName::new(name),
        dependencies: deps.into_iter().map(PackageName::new).collect(),
        repo: format!("https://example.com/{}", name),
        version: version.to_string(),
    })
}

fn manifest(deps: Vec<&str>) -> SpagoConfig {
    SpagoConfig {
        package: PackageConfig {
            name: PackageName::new("my-app"),
            dependencies: deps.into_iter().map(PackageName::new).collect(),
            test: None,
        },
        workspace: WorkspaceConfig::default(),
        workspace_root: ".".to_string(),
    }
}

// Idempotence: a destination already at the declared version is left
// alone — no copy, no fetch — whatever the cache holds.
#[test]
fn test_plan_already_installed_is_noop() {
    let c = cache();
    let pkg = remote("effect", vec!["prelude"], "v4.0.0");
    let version = "v4.0.0".to_string();
    let step = plan_install(&pkg, true, Some(&version), &c);
    assert_eq!(step, InstallStep::AlreadyInstalled);
}

#[test]
fn test_plan_local_is_noop() {
    let c = cache();
    let pkg = Package::Local(LocalPackage {
        name: PackageName::new("my-app"),
        dependencies: vec![],
        test_dependencies: vec![],
        path: "./my-app".to_string(),
    });
    assert_eq!(plan_install(&pkg, true, None, &c), InstallStep::LocalNoop);
    assert_eq!(plan_install(&pkg, false, None, &c), InstallStep::LocalNoop);
}

#[test]
fn test_plan_version_mismatch_reinstalls() {
    let mut c = cache();
    let pkg = remote("effect", vec![], "v4.0.0");
    let stale = "v3.0.0".to_string();
    // Not cached: the mismatch falls through to a fetch.
    assert_eq!(plan_install(&pkg, true, Some(&stale), &c), InstallStep::Fetch);
    // Cached: the mismatch falls through to a cache copy.
    c.cache_package(&PackageName::new("effect"), "v4.0.0", 1_700_000_000);
    assert_eq!(
        plan_install(&pkg, true, Some(&stale), &c),
        InstallStep::CopyFromCache
    );
}

#[test]
fn test_plan_cache_miss_fetches() {
    let c = cache();
    let pkg = remote("effect", vec![], "v4.0.0");
    assert_eq!(plan_install(&pkg, false, None, &c), InstallStep::Fetch);
}

// Cache correctness: after cache_package, is_cached holds and
// get_cached_path returns the recorded path; re-caching replaces the
// entry rather than adding a second one.
#[test]
fn test_cache_package_roundtrip() {
    let mut c = cache();
    let name = PackageName::new("effect");
    assert!(!c.is_cached(&name, "v4.0.0"));
    let path = c.cache_package(&name, "v4.0.0", 1_700_000_000);
    assert_eq!(path, "/tmp/ragu-cache/effect-v4.0.0-spago-rust@0.1.0");
    assert!(c.is_cached(&name, "v4.0.0"));
    assert!(!c.is_cached(&name, "v5.0.0"));
    assert_eq!(c.get_cached_path(&name, "v4.0.0"), Some(path.clone()));
    assert_eq!(c.get_cached_path(&name, "v5.0.0"), None);

    // Re-caching the same name replaces the entry.
    let path2 = c.cache_package(&name, "v5.0.0", 1_700_000_100);
    assert!(c.is_cached(&name, "v5.0.0"));
    assert!(!c.is_cached(&name, "v4.0.0"));
    assert_eq!(c.get_cached_path(&name, "v5.0.0"), Some(path2));
    assert_eq!(c.index.len(), 1);
}

// The deliberate asymmetry: is_cached ignores the cache key, so an entry
// written by another tool version still counts as cached, while
// get_cached_path refuses it.
#[test]
fn test_is_cached_ignores_key_but_path_checks_it() {
    let name = PackageName::new("effect");
    let stale_entry = CachedPackage {
        name: PackageName::new("effect"),
        version: "v4.0.0".to_string(),
        key: cache_key_for_tool("0.0.9"),
        cached_path: "/tmp/ragu-cache/effect-v4.0.0-spago-rust@0.0.9".to_string(),
        installed_at: 1_600_000_000,
    };
    let c = GlobalPackageCache::new(
        "/tmp/ragu-cache".to_string(),
        cache_key_for_tool("0.1.0"),
        vec![stale_entry],
    );
    assert!(c.is_cached(&name, "v4.0.0"));
    assert_eq!(c.get_cached_path(&name, "v4.0.0"), None);
    let err = c.copy_from_cache(&name, "v4.0.0").unwrap_err();
    assert_eq!(err, "Package effect version v4.0.0 not found in cache");
}

#[test]
fn test_clear_all_empties_the_index() {
    let mut c = cache();
    c.cache_package(&PackageName::new("effect"), "v4.0.0", 1);
    c.clear_all();
    assert_eq!(c.index.len(), 0);
    assert!(!c.is_cached(&PackageName::new("effect"), "v4.0.0"));
}

#[test]
fn test_cache_key_generation() {
    let key1 = get_cache_path("/cache/package-sets", "psc-0.15.15-20251004");
    let key2 = get_cache_path("/cache/package-sets", "psc-0.15.15-20251004");
    let key3 = get_cache_path("/cache/package-sets", "psc-0.15.14-20251003");
    assert_eq!(key1, key2);
    assert_ne!(key1, key3);
    assert!(key1.starts_with("/cache/package-sets/"));
    assert!(key1.ends_with(".bin"));
    assert_eq!(
        get_registry_index_cache_path("/cache/registry"),
        "/cache/registry/index.bin"
    );
    assert!(get_registry_package_set_cache_path("/cache/registry", "62.1.0")
        .starts_with("/cache/registry/package-set-"));
}

// Pruning: after a fetch, nothing outside the allow-list survives.
#[test]
fn test_prune_plan_keeps_only_allowed_entries() {
    let entries = vec![
        "src".to_string(),
        "README.md".to_string(),
        "spago.yaml".to_string(),
        "test".to_string(),
        ".github".to_string(),
        "LICENSE".to_string(),
        "bower.json".to_string(),
    ];
    let (keep, delete) = prune_plan(&entries);
    assert_eq!(keep, vec!["src", "README.md", "spago.yaml"]);
    assert_eq!(delete, vec!["test", ".github", "LICENSE", "bower.json"]);
}

#[test]
fn test_prune_plan_readme_variants() {
    let entries = vec![
        "readme.md".to_string(),
        "README".to_string(),
        "readme".to_string(),
        "Readme.md".to_string(),
    ];
    let (keep, delete) = prune_plan(&entries);
    assert_eq!(keep, vec!["readme.md", "README", "readme"]);
    assert_eq!(delete, vec!["Readme.md"]);
}

#[test]
fn test_check_archive_layout() {
    assert!(check_archive_layout(1, true).is_ok());
    assert!(matches!(
        check_archive_layout(0, false),
        Err(ArchiveError::WrongEntryCount(0))
    ));
    assert!(matches!(
        check_archive_layout(3, true),
        Err(ArchiveError::WrongEntryCount(3))
    ));
    assert!(matches!(
        check_archive_layout(1, false),
        Err(ArchiveError::NotADirectory)
    ));
}

// Partial failure: sibling successes survive a failing task, and the
// batch still reports every failure.
#[test]
fn test_aggregate_partial_failure() {
    let y = InstalledPackage::Registry(RegistryPackageInfo {
        name: PackageName::new("y"),
        version: "v1.0.0".to_string(),
    });
    let z = InstalledPackage::Registry(RegistryPackageInfo {
        name: PackageName::new("z"),
        version: "v2.0.0".to_string(),
    });
    let outcomes: Vec<Result<Option<InstalledPackage>, String>> = vec![
        Err("Failed to clone repository for x".to_string()),
        Ok(Some(y)),
        Ok(None),
        Ok(Some(z)),
    ];
    let result = aggregate_install_results(outcomes);
    assert!(!result.is_success());
    assert_eq!(result.installed.len(), 2);
    assert_eq!(result.installed[0].name(), &PackageName::new("y"));
    assert_eq!(result.installed[1].name(), &PackageName::new("z"));
    assert_eq!(result.errors.len(), 1);
    let joined = result.errors.join(", ");
    assert!(joined.contains("Failed to clone repository for x"));
}

#[test]
fn test_aggregate_all_success() {
    let outcomes: Vec<Result<Option<InstalledPackage>, String>> = vec![Ok(None), Ok(None)];
    let result = aggregate_install_results(outcomes);
    assert!(result.is_success());
    assert_eq!(result.installed.len(), 0);
    assert_eq!(result.errors.len(), 0);
}

// Closure correctness: every transitive dependency of a direct dependency
// is in the computed targets, and nothing outside the set is.
#[test]
fn test_install_targets_cover_transitive_dependencies() {
    let mut set = PackageSet::new();
    set.insert(remote("a", vec!["b"], "v1.0.0"));
    set.insert(remote("b", vec!["c"], "v1.0.0"));
    set.insert(remote("c", vec![], "v1.0.0"));
    set.insert(remote("unrelated", vec![], "v1.0.0"));
    let query = PackageQuery::new(&set);
    let manager = InstallManager::new("./.spago", cache());
    let config = manifest(vec!["a"]);

    let targets = manager.install_targets(&config, &query, false).unwrap();
    assert!(targets.contains(&PackageName::new("a")));
    assert!(targets.contains(&PackageName::new("b")));
    assert!(targets.contains(&PackageName::new("c")));
    assert!(!targets.contains(&PackageName::new("unrelated")));
    assert_eq!(targets.len(), 3);
}

#[test]
fn test_install_targets_missing_dependency_fails() {
    let mut set = PackageSet::new();
    set.insert(remote("a", vec!["ghost"], "v1.0.0"));
    let query = PackageQuery::new(&set);
    let manager = InstallManager::new("./.spago", cache());
    let config = manifest(vec!["a"]);

    let err = manager.install_targets(&config, &query, false).unwrap_err();
    assert_eq!(err.name(), &PackageName::new("ghost"));
    assert_eq!(err.message(), "Package 'ghost' not found in package set");
}

#[test]
fn test_collect_dependencies_recursive() {
    let mut set = PackageSet::new();
    set.insert(remote("a", vec!["b"], "v1.0.0"));
    set.insert(remote("b", vec![], "v1.0.0"));
    let query = PackageQuery::new(&set);
    let manager = InstallManager::new("./.spago", cache());
    let mut all = Vec::new();
    let mut processed = Vec::new();
    manager
        .collect_dependencies_recursive(&PackageName::new("a"), &query, &mut all, &mut processed)
        .unwrap();
    assert!(all.contains(&PackageName::new("a")));
    assert!(all.contains(&PackageName::new("b")));
    assert_eq!(all.len(), 2);
    assert_eq!(processed.len(), 2);
}

// Cleanup precision: after a package leaves the manifest, its directory —
// and any dependency nothing else needs — is removed, and only those.
#[test]
fn test_cleanup_removes_exactly_the_unneeded() {
    let mut set = PackageSet::new();
    set.insert(remote("a", vec!["b"], "v1.0.0"));
    set.insert(remote("b", vec![], "v1.0.0"));
    set.insert(remote("keep", vec![], "v1.0.0"));
    let query = PackageQuery::new(&set);
    assert!(query.has_package(&PackageName::new("a")));
    let manager = InstallManager::new("./.spago", cache());

    // "a" was removed from the manifest; only "keep" remains required.
    let config = manifest(vec!["keep"]);
    let installed = vec!["a".to_string(), "b".to_string(), "keep".to_string()];
    let removed = cleanup_unused_packages(&config, &set, &installed, &manager).unwrap();
    assert_eq!(removed, vec!["a".to_string(), "b".to_string()]);
}

#[test]
fn test_cleanup_keeps_workspace_needs() {
    let mut set = PackageSet::new();
    set.insert(remote("shared", vec![], "v1.0.0"));
    set.insert(Package::Local(LocalPackage {
        name: PackageName::new("member"),
        dependencies: vec![PackageName::new("shared")],
        test_dependencies: vec![],
        path: "./member".to_string(),
    }));
    let manager = InstallManager::new("./.spago", cache());
    // The manifest no longer lists "shared", but a workspace member does.
    let config = manifest(vec![]);
    let installed = vec!["shared".to_string()];
    let removed = cleanup_unused_packages(&config, &set, &installed, &manager).unwrap();
    assert!(removed.is_empty());
}

#[test]
fn test_registry_package_in_targets() {
    let mut set = PackageSet::new();
    set.insert(Package::Registry(RegistryPackage {
        name: PackageName::new("arrays"),
        version: "7.0.0".to_string(),
        dependencies: vec![],
    }));
    let query = PackageQuery::new(&set);
    let manager = InstallManager::new("./.spago", cache());
    let config = manifest(vec!["arrays"]);
    let targets = manager.install_targets(&config, &query, false).unwrap();
    assert_eq!(targets.len(), 1);

    let pkg = query.get(&PackageName::new("arrays")).unwrap();
    assert_eq!(pkg.version(), Some(&"7.0.0".to_string()));
    assert!(!pkg.is_local());
    assert_eq!(pkg.dep_count(), 0);
}

#[test]
fn test_installed_package_accessors() {
    let installed = InstalledPackage::Registry(RegistryPackageInfo {
        name: PackageName::new("arrays"),
        version: "7.0.0".to_string(),
    });
    assert_eq!(installed.name(), &PackageName::new("arrays"));
    assert_eq!(installed.type_str(), "registry");
    assert_eq!(installed.version(), "7.0.0");

    let git = InstalledPackage::Git(ragu::install::PackageInfo {
        name: PackageName::new("effect"),
        version: "v4.0.0".to_string(),
        local_path: "./.spago/effect".to_string(),
    });
    assert_eq!(git.type_str(), "git");
    assert_eq!(git.version(), "v4.0.0");
}

#[test]
fn test_compute_dependency_stats() {
    let locals = vec![LocalPackage {
        name: PackageName::new("my-app"),
        dependencies: vec![PackageName::new("prelude"), PackageName::new("unused")],
        test_dependencies: vec![],
        path: "./my-app".to_string(),
    }];
    let modules = vec![
        ModuleInfo {
            name: "Prelude".to_string(),
            file_path: "p.purs".to_string(),
            package_name: "prelude".to_string(),
        },
        ModuleInfo {
            name: "Effect".to_string(),
            file_path: "e.purs".to_string(),
            package_name: "effect".to_string(),
        },
    ];
    let imports = vec![vec![
        "Prelude".to_string(),
        "Effect".to_string(),
        "Prim.Boolean".to_string(),
        "Missing.Module".to_string(),
    ]];

    let stats = compute_dependency_stats(&locals, &modules, &imports);
    assert_eq!(stats.to_install.len(), 1);
    assert_eq!(stats.to_install[0].0, PackageName::new("my-app"));
    // "effect" is imported but not declared.
    assert_eq!(stats.to_install[0].1, vec![PackageName::new("effect")]);
    // "unused" is declared but never imported.
    assert_eq!(stats.to_uninstall[0].1, vec![PackageName::new("unused")]);
    // A primitive module is ignored; an unknown one is reported.
    assert_eq!(stats.not_found[0].1, vec!["Missing.Module".to_string()]);
}
