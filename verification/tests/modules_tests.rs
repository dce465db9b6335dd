use ragu::imports::extract_module_name_from_import;
use ragu::modules::{execute_modules_command, extract_module_name_from_content, ModuleInfo, ModulesOptions};
use ragu::sources::{BuildSources, DependencyGlob};

#[test]
fn test_extract_module_name_from_import() {
    // Basic import
    assert_eq!(
        extract_module_name_from_import("import Data.Maybe"),
        Some("Data.Maybe".to_string())
    );

    // Import with exports
    assert_eq!(
        extract_module_name_from_import("import Data.Maybe (Maybe(..), maybe)"),
        Some("Data.Maybe".to_string())
    );

    // Import with as
    assert_eq!(
        extract_module_name_from_import("import Data.Maybe as Maybe"),
        Some("Data.Maybe".to_string())
    );

    // Import with hiding
    assert_eq!(
        extract_module_name_from_import("import Data.Maybe hiding (fromMaybe)"),
        Some("Data.Maybe".to_string())
    );

    // Complex import
    assert_eq!(
        extract_module_name_from_import("import Data.Maybe (Maybe(..), maybe) as Maybe"),
        Some("Data.Maybe".to_string())
    );
}

#[test]
fn test_extract_module_name_from_content() {
    // Test basic module declaration
    let content = "module Data.Maybe where\n\nimport Prelude";
    assert_eq!(
        extract_module_name_from_content(content).unwrap(),
        "Data.Maybe"
    );

    // Test module with exports
    let content = "module Data.Maybe (Maybe(..), maybe) where\n\nimport Prelude";
    assert_eq!(
        extract_module_name_from_content(content).unwrap(),
        "Data.Maybe"
    );

    // Test module with comments before
    let content = "-- This is a comment\nmodule Data.Maybe where\n\nimport Prelude";
    assert_eq!(
        extract_module_name_from_content(content).unwrap(),
        "Data.Maybe"
    );

    // Test module with empty lines before
    let content = "\n\nmodule Data.Maybe where\n\nimport Prelude";
    assert_eq!(
        extract_module_name_from_content(content).unwrap(),
        "Data.Maybe"
    );

    // Test no module declaration
    let content = "import Prelude\n\nmain = pure unit";
    assert!(extract_module_name_from_content(content).is_none());

    // Test module without 'where'
    let content = "module Data.Maybe\n\nimport Prelude";
    assert_eq!(
        extract_module_name_from_content(content).unwrap(),
        "Data.Maybe"
    );

    // Test module with brackets and no space
    let content = "module Data.Maybe(module Exported) where";
    assert_eq!(
        extract_module_name_from_content(content).unwrap(),
        "Data.Maybe"
    );

    // Test module with newline straight after module dec
    let content = "module Data.Maybe\n\nimport Prelude";
    assert_eq!(
        extract_module_name_from_content(content).unwrap(),
        "Data.Maybe"
    );
}

#[test]
fn test_extract_module_name_block_comment() {
    let content = "{- block\ncomment\n-}\nmodule Data.Maybe where";
    assert_eq!(
        extract_module_name_from_content(content).unwrap(),
        "Data.Maybe"
    );
}

fn create_test_modules() -> Vec<ModuleInfo> {
    vec![
        ModuleInfo {
            name: "Data.Maybe".to_string(),
            file_path: "./.spago/prelude/src/Data/Maybe.purs".to_string(),
            package_name: "prelude".to_string(),
        },
        ModuleInfo {
            name: "Data.Either".to_string(),
            file_path: "./.spago/prelude/src/Data/Either.purs".to_string(),
            package_name: "prelude".to_string(),
        },
        ModuleInfo {
            name: "Effect.Console".to_string(),
            file_path: "./.spago/console/src/Effect/Console.purs".to_string(),
            package_name: "console".to_string(),
        },
    ]
}

#[test]
fn test_execute_modules_command_flat_display() {
    let modules = create_test_modules();
    let options = ModulesOptions {
        group_by_package: false,
        package_filter: None,
        names_only: false,
    };

    let lines = execute_modules_command(modules, &options);
    assert_eq!(lines.len(), 3);
    assert_eq!(lines[0], "Data.Maybe [prelude]");
    assert_eq!(lines[2], "Effect.Console [console]");
}

#[test]
fn test_execute_modules_command_filtered() {
    let modules = create_test_modules();
    let options = ModulesOptions {
        group_by_package: false,
        package_filter: Some("prelude".to_string()),
        names_only: false,
    };
    let lines = execute_modules_command(modules, &options);
    assert_eq!(lines, vec!["Data.Maybe", "Data.Either"]);
}

#[test]
fn test_execute_modules_command_names_only() {
    let modules = create_test_modules();
    let options = ModulesOptions {
        group_by_package: false,
        package_filter: None,
        names_only: true,
    };
    let lines = execute_modules_command(modules, &options);
    assert_eq!(lines, vec!["Data.Maybe", "Data.Either", "Effect.Console"]);
}

#[test]
fn test_modules_options_creation() {
    let options = ModulesOptions {
        group_by_package: true,
        package_filter: Some("prelude".to_string()),
        names_only: false,
    };

    assert!(options.group_by_package);
    assert_eq!(options.package_filter, Some("prelude".to_string()));
    assert!(!options.names_only);
}

#[test]
fn test_build_sources_struct() {
    let dependency_glob = DependencyGlob {
        package_name: "test-package".to_string(),
        glob_pattern: "/path/to/test-package/src/**/*.purs".to_string(),
        local_path: "/path/to/test-package".to_string(),
    };

    let sources = BuildSources {
        dependency_globs: vec![dependency_glob.clone()],
        main_sources: "./src/**/*.purs".to_string(),
    };

    assert_eq!(sources.dependency_globs.len(), 1);
    assert_eq!(sources.dependency_globs[0].package_name, "test-package");
    assert_eq!(sources.main_sources, "./src/**/*.purs");
}

#[test]
fn test_dependency_glob_clone() {
    let original = DependencyGlob {
        package_name: "test-package".to_string(),
        glob_pattern: "/path/to/test-package/src/**/*.purs".to_string(),
        local_path: "/path/to/test-package".to_string(),
    };

    let cloned = original.clone();

    assert_eq!(original.package_name, cloned.package_name);
    assert_eq!(original.glob_pattern, cloned.glob_pattern);
    assert_eq!(original.local_path, cloned.local_path);
}

#[test]
fn test_source_glob_for() {
    assert_eq!(
        ragu::sources::source_glob_for("./.spago/prelude"),
        "./.spago/prelude/src/**/*.purs"
    );
}

#[test]
fn test_templates() {
    let manifest = ragu::templates::template(
        &"my-package".to_string(),
        &"62.1.0".to_string(),
        false,
    );
    assert!(manifest.contains("name: my-package"));
    assert!(manifest.contains("registry: 62.1.0"));
    assert!(manifest.contains("main: MyPackage.Test.Main"));

    let nested = ragu::templates::template(&"my-package".to_string(), &"62.1.0".to_string(), true);
    assert!(!nested.contains("workspace:"));

    let main_mod = ragu::templates::src_template(&"my-package".to_string(), false);
    assert!(main_mod.starts_with("module Main where"));
    let nested_mod = ragu::templates::src_template(&"my-package".to_string(), true);
    assert!(nested_mod.starts_with("module MyPackage where"));

    let test_mod = ragu::templates::test_template(&"my-package".to_string());
    assert!(test_mod.starts_with("module MyPackage.Test.Main where"));
}

#[test]
fn test_execute_modules_command_grouped() {
    let modules = create_test_modules();
    let options = ModulesOptions {
        group_by_package: true,
        package_filter: None,
        names_only: false,
    };
    let lines = execute_modules_command(modules, &options);
    assert_eq!(
        lines,
        vec![
            "prelude",
            "  Data.Maybe",
            "  Data.Either",
            "",
            "console",
            "  Effect.Console",
            "",
        ]
    );
}
