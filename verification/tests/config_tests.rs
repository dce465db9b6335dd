use ragu::config::{
    add_packages_to_config, extract_tag_from_url, remove_packages_from_config, PackageConfig,
    SpagoConfig, TestConfig, WorkspaceConfig,
};
use ragu::name::PackageName;
use ragu::package::{Package, PackageSet, PackageSetPackage};
use ragu::query::PackageQuery;
use ragu::validate::{validate_config, validate_transitive_deps, DependencyContext, ValidationError};

fn create_test_config() -> SpagoConfig {
    SpagoConfig {
        package: PackageConfig {
            name: PackageName::new("test-package"),
            dependencies: vec![PackageName::new("prelude"), PackageName::new("effect")],
            test: Some(TestConfig {
                main: PackageName::new("Test.Main"),
                dependencies: vec![PackageName::new("console"), PackageName::new("effect")],
            }),
        },
        workspace: WorkspaceConfig::default(),
        workspace_root: ".".to_string(),
    }
}

fn create_test_package_set() -> PackageSet {
    let mut set = PackageSet::new();
    set.insert(Package::new(PackageSetPackage {
        name: PackageName::new("prelude"),
        dependencies: vec![],
        repo: "https://github.com/purescript/purescript-prelude".to_string(),
        version: "v6.0.0".to_string(),
    }));
    set.insert(Package::new(PackageSetPackage {
        name: PackageName::new("effect"),
        dependencies: vec![PackageName::new("prelude")],
        repo: "https://github.com/purescript/purescript-effect".to_string(),
        version: "v4.0.0".to_string(),
    }));
    set
}

#[test]
fn test_all_dependencies() {
    let config = create_test_config();
    let deps = config.all_dependencies();

    // Should have console, effect, prelude (effect appears in both but deduplicated)
    assert_eq!(deps.len(), 3);
    assert!(deps.contains(&PackageName::new("prelude")));
    assert!(deps.contains(&PackageName::new("effect")));
    assert!(deps.contains(&PackageName::new("console")));
    // Sorted ascending.
    assert_eq!(
        deps,
        vec![
            PackageName::new("console"),
            PackageName::new("effect"),
            PackageName::new("prelude"),
        ]
    );
}

#[test]
fn test_package_dependencies() {
    let config = create_test_config();
    let deps = config.package_dependencies();

    assert_eq!(deps.len(), 2);
    assert!(deps.contains(&PackageName::new("prelude")));
    assert!(deps.contains(&PackageName::new("effect")));
}

#[test]
fn test_test_dependencies() {
    let config = create_test_config();
    let deps = config.test_dependencies();

    assert_eq!(deps.len(), 2);
    assert!(deps.contains(&PackageName::new("console")));
    assert!(deps.contains(&PackageName::new("effect")));
}

#[test]
fn test_extract_tag_from_url() {
    let url = "https://raw.githubusercontent.com/purescript/package-sets/psc-0.15.15-20251004/packages.json";
    assert_eq!(
        extract_tag_from_url(url),
        Some("psc-0.15.15-20251004".to_string())
    );

    let url2 = "https://example.com/package-sets/psc-0.15.14/packages.json";
    assert_eq!(extract_tag_from_url(url2), Some("psc-0.15.14".to_string()));

    let url3 = "https://example.com/other/path";
    assert_eq!(extract_tag_from_url(url3), None);
}

#[test]
fn test_valid_config() {
    let config = SpagoConfig {
        package: PackageConfig {
            name: PackageName::new("test"),
            dependencies: vec![PackageName::new("prelude"), PackageName::new("effect")],
            test: None,
        },
        workspace: WorkspaceConfig::default(),
        workspace_root: ".".to_string(),
    };

    let package_set = create_test_package_set();
    let query = PackageQuery::new(&package_set);
    let result = validate_config(&config, &query);

    assert!(result.is_valid);
    assert_eq!(result.errors.len(), 0);
}

#[test]
fn test_missing_dependency() {
    let config = SpagoConfig {
        package: PackageConfig {
            name: PackageName::new("test"),
            dependencies: vec![PackageName::new("nonexistent")],
            test: None,
        },
        workspace: WorkspaceConfig::default(),
        workspace_root: ".".to_string(),
    };

    let package_set = create_test_package_set();
    let query = PackageQuery::new(&package_set);
    let result = validate_config(&config, &query);

    assert!(!result.is_valid);
    assert_eq!(result.errors.len(), 1);

    match &result.errors[0] {
        ValidationError::MissingDependency { package, context } => {
            assert_eq!(*package, PackageName::new("nonexistent"));
            assert_eq!(*context, DependencyContext::Package);
        }
        _ => panic!("Expected MissingDependency error"),
    }
}

#[test]
fn test_transitive_validation_always_passes() {
    let config = create_test_config();
    let package_set = create_test_package_set();
    let query = PackageQuery::new(&package_set);
    let result = validate_transitive_deps(&config, &query);
    assert!(result.is_valid);
    assert_eq!(result.errors.len(), 0);
}

#[test]
fn test_duplicate_dependency_warning() {
    let config = SpagoConfig {
        package: PackageConfig {
            name: PackageName::new("test"),
            dependencies: vec![PackageName::new("prelude"), PackageName::new("prelude")],
            test: None,
        },
        workspace: WorkspaceConfig::default(),
        workspace_root: ".".to_string(),
    };
    let package_set = create_test_package_set();
    let query = PackageQuery::new(&package_set);
    let result = validate_config(&config, &query);
    assert!(result.is_valid);
    assert_eq!(result.warnings.len(), 1);
    assert_eq!(result.warnings[0], "Duplicate dependency in package: prelude");
}

#[test]
fn test_empty_name_error() {
    let config = SpagoConfig {
        package: PackageConfig {
            name: PackageName::new(""),
            dependencies: vec![],
            test: None,
        },
        workspace: WorkspaceConfig::default(),
        workspace_root: ".".to_string(),
    };
    let package_set = create_test_package_set();
    let query = PackageQuery::new(&package_set);
    let result = validate_config(&config, &query);
    assert!(!result.is_valid);
    assert!(matches!(result.errors[0], ValidationError::EmptyName));
    assert_eq!(result.errors[0].message(), "Package name cannot be empty");
}

#[test]
fn test_add_packages_to_config() {
    let current = vec![PackageName::new("prelude")];
    let new_packages = vec![PackageName::new("effect"), PackageName::new("prelude")];
    let updated = add_packages_to_config(&current, &new_packages);
    // The union, deduplicated and sorted ascending.
    assert_eq!(
        updated,
        vec![PackageName::new("effect"), PackageName::new("prelude")]
    );
}

#[test]
fn test_remove_packages_from_config() {
    let current = vec![
        PackageName::new("prelude"),
        PackageName::new("effect"),
        PackageName::new("console"),
    ];
    let to_remove = vec![PackageName::new("effect")];
    let updated = remove_packages_from_config(&current, &to_remove);
    assert_eq!(updated.len(), 2);
    assert_eq!(updated[0], PackageName::new("prelude"));
    assert_eq!(updated[1], PackageName::new("console"));
}

#[test]
fn test_spago_dir_and_workspace_root() {
    let config = create_test_config();
    assert!(config.is_workspace_root());
    assert_eq!(config.spago_dir(), "./.spago");
}
