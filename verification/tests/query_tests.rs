use ragu::name::PackageName;
use ragu::package::{LocalPackage, Package, PackageSet, PackageSetPackage};
use ragu::query::PackageQuery;

fn create_test_package_set() -> PackageSet {
    let mut set = PackageSet::new();

    set.insert(Package::new(PackageSetPackage {
        name: PackageName::new("prelude"),
        dependencies: vec![],
        repo: "https://github.com/purescript/purescript-prelude".to_string(),
        version: "v6.0.0".to_string(),
    }));

    set.insert(Package::new(PackageSetPackage {
        name: PackageName::new("effect"),
        dependencies: vec![PackageName::new("prelude")],
        repo: "https://github.com/purescript/purescript-effect".to_string(),
        version: "v4.0.0".to_string(),
    }));

    set.insert(Package::new(PackageSetPackage {
        name: PackageName::new("console"),
        dependencies: vec![PackageName::new("effect"), PackageName::new("prelude")],
        repo: "https://github.com/purescript/purescript-console".to_string(),
        version: "v6.0.0".to_string(),
    }));

    set
}

fn local(name: &str, deps: Vec<&str>) -> Package {
    Package::Local(LocalPackage {
        name: PackageName::new(name),
        dependencies: deps.into_iter().map(PackageName::new).collect(),
        test_dependencies: vec![],
        path: format!("./{}", name),
    })
}

#[test]
fn test_get_package() {
    let set = create_test_package_set();
    let query = PackageQuery::new(&set);

    let pkg = query.get(&PackageName("prelude".to_string()));
    assert!(pkg.is_some());
    assert_eq!(pkg.unwrap().version(), Some(&"v6.0.0".to_string()));

    let missing = query.get(&PackageName("nonexistent".to_string()));
    assert!(missing.is_none());
}

#[test]
fn test_exists() {
    let set = create_test_package_set();
    let query = PackageQuery::new(&set);

    assert!(query.has_package(&PackageName::new("prelude")));
    assert!(query.has_package(&PackageName::new("effect")));
    assert!(!query.has_package(&PackageName::new("nonexistent")));
}

#[test]
fn test_get_dependencies() {
    let set = create_test_package_set();
    let query = PackageQuery::new(&set);

    let deps = query
        .get_dependencies(&PackageName::new("console"))
        .unwrap();
    assert_eq!(deps.len(), 2);

    let prelude_deps = query
        .get_dependencies(&PackageName::new("prelude"))
        .unwrap();
    assert_eq!(prelude_deps.len(), 0);
}

#[test]
fn test_transitive_dependencies() {
    let set = create_test_package_set();
    let query = PackageQuery::new(&set);

    let trans_deps = query
        .get_transitive_dependencies(&PackageName::new("console"))
        .unwrap();
    // Should include effect and prelude
    assert!(trans_deps.len() >= 2);
}

#[test]
fn test_search() {
    let set = create_test_package_set();
    let query = PackageQuery::new(&set);

    let results = query.search("eff");
    assert_eq!(results.len(), 1);
    assert_eq!(results[0].name(), &PackageName::new("effect"));

    let results = query.search("e");
    assert!(results.len() >= 2); // effect and prelude
}

#[test]
fn test_search_is_case_insensitive() {
    let set = create_test_package_set();
    let query = PackageQuery::new(&set);
    let results = query.search("EFFECT");
    assert_eq!(results.len(), 1);
    assert_eq!(results[0].name(), &PackageName::new("effect"));
}

#[test]
fn test_transitive_dependencies_not_found() {
    let set = create_test_package_set();
    let query = PackageQuery::new(&set);
    let err = query
        .get_transitive_dependencies(&PackageName::new("nope"))
        .unwrap_err();
    assert_eq!(err.message(), "Package 'nope' not found in package set");
}

#[test]
fn test_get_dependents() {
    let set = create_test_package_set();
    let query = PackageQuery::new(&set);
    let dependents = query.get_dependents(&PackageName::new("prelude"));
    assert_eq!(dependents.len(), 2);
    assert_eq!(query.get_dependents_count(&PackageName::new("prelude")), 2);
    assert_eq!(query.get_dependents_count(&PackageName::new("console")), 0);
}

#[test]
fn test_all_workspace_dependencies() {
    let mut set = create_test_package_set();
    set.insert(local("my-app", vec!["console"]));
    let query = PackageQuery::new(&set);
    let ws = query.all_workspace_dependencies();
    assert!(ws.contains(&PackageName::new("my-app")));
    assert!(ws.contains(&PackageName::new("console")));
    assert_eq!(ws.len(), 2);
}

#[test]
fn test_local_packages() {
    let mut set = create_test_package_set();
    set.insert(local("my-app", vec!["console"]));
    let query = PackageQuery::new(&set);
    let locals = query.local_packages();
    assert_eq!(locals.len(), 1);
    assert_eq!(locals[0].name, PackageName::new("my-app"));
}

#[test]
fn test_stats() {
    let set = create_test_package_set();
    let query = PackageQuery::new(&set);
    let stats = query.stats();
    assert_eq!(stats.total_packages, 3);
    assert_eq!(stats.total_dependencies, 3);
    assert_eq!(stats.max_dependencies, 2);
    assert_eq!(stats.min_dependencies, 0);
    assert_eq!(stats.packages_with_no_deps, 1);
}

#[test]
fn test_insert_overrides_by_name() {
    let mut set = create_test_package_set();
    set.insert(Package::new(PackageSetPackage {
        name: PackageName::new("prelude"),
        dependencies: vec![],
        repo: "https://example.com/fork".to_string(),
        version: "v7.0.0".to_string(),
    }));
    let query = PackageQuery::new(&set);
    let pkg = query.get(&PackageName::new("prelude")).unwrap();
    assert_eq!(pkg.version(), Some(&"v7.0.0".to_string()));
    assert_eq!(set.len(), 3);
}

// Cycle detection: a three-package cycle among local packages is found and
// reported with exactly those packages; an acyclic graph reports nothing.
#[test]
fn test_cycle_detection_finds_three_cycle() {
    let mut set = PackageSet::new();
    set.insert(local("a", vec!["b"]));
    set.insert(local("b", vec!["c"]));
    set.insert(local("c", vec!["a"]));
    let query = PackageQuery::new(&set);

    let chain = query.check_circular_dependencies().expect("cycle expected");
    assert!(chain.len() >= 4);
    assert_eq!(chain.first(), chain.last());
    let mut members: Vec<String> = chain.clone();
    members.pop();
    members.sort();
    members.dedup();
    assert_eq!(members, vec!["a".to_string(), "b".to_string(), "c".to_string()]);
}

#[test]
fn test_cycle_detection_acyclic_graph_is_clean() {
    let mut set = PackageSet::new();
    set.insert(local("a", vec!["b", "c"]));
    set.insert(local("b", vec!["c"]));
    set.insert(local("c", vec![]));
    let query = PackageQuery::new(&set);
    assert!(query.check_circular_dependencies().is_none());
    assert!(query
        .find_circular_dependency_chain(&PackageName::new("a"))
        .is_none());
}

#[test]
fn test_find_chain_reports_the_triangle_from_its_start() {
    let mut set = PackageSet::new();
    set.insert(local("a", vec!["b"]));
    set.insert(local("b", vec!["c"]));
    set.insert(local("c", vec!["a"]));
    let query = PackageQuery::new(&set);
    let chain = query
        .find_circular_dependency_chain(&PackageName::new("a"))
        .expect("cycle expected");
    assert_eq!(
        chain,
        vec!["a".to_string(), "b".to_string(), "c".to_string(), "a".to_string()]
    );
}

#[test]
fn test_all_workspace_dependencies_sorted_ascending() {
    let mut set = PackageSet::new();
    set.insert(local("zzz", vec!["shared", "effect"]));
    set.insert(local("aaa", vec!["shared"]));
    let query = PackageQuery::new(&set);
    let ws = query.all_workspace_dependencies();
    assert_eq!(
        ws,
        vec![
            PackageName::new("aaa"),
            PackageName::new("effect"),
            PackageName::new("shared"),
            PackageName::new("zzz"),
        ]
    );
}

#[test]
fn test_cycle_detection_self_loop() {
    let mut set = PackageSet::new();
    set.insert(local("a", vec!["a"]));
    let query = PackageQuery::new(&set);
    let chain = query.check_circular_dependencies().expect("cycle expected");
    assert_eq!(chain, vec!["a".to_string(), "a".to_string()]);
}
