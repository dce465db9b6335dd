use ragu::paths::{make_relative, map_sources_to_output_dir_impl, normalize_path, resolve_to_absolute};

#[test]
fn test_normalize_path_simple() {
    let normalized = normalize_path("/foo/bar/./baz");
    assert_eq!(normalized, "/foo/bar/baz");
}

#[test]
fn test_normalize_path_with_parent_dir() {
    let normalized = normalize_path("/foo/bar/../baz");
    assert_eq!(normalized, "/foo/baz");
}

#[test]
fn test_normalize_path_multiple_parent_dirs() {
    let normalized = normalize_path("/foo/bar/baz/../../qux");
    assert_eq!(normalized, "/foo/qux");
}

#[test]
fn test_normalize_path_current_dir() {
    let normalized = normalize_path("/foo/./bar/./baz");
    assert_eq!(normalized, "/foo/bar/baz");
}

#[test]
fn test_make_relative_same_path() {
    assert_eq!(make_relative("/foo/bar", "/foo/bar"), ".");
}

#[test]
fn test_make_relative_subdirectory() {
    assert_eq!(make_relative("/foo/bar/baz", "/foo/bar"), "baz");
}

#[test]
fn test_make_relative_nested_subdirectory() {
    assert_eq!(make_relative("/foo/bar/baz/qux", "/foo/bar"), "baz/qux");
}

#[test]
fn test_make_relative_parent_directory() {
    assert_eq!(make_relative("/foo/bar", "/foo/bar/baz"), "..");
}

#[test]
fn test_make_relative_sibling_directory() {
    assert_eq!(make_relative("/foo/baz", "/foo/bar"), "../baz");
}

#[test]
fn test_resolve_to_absolute_already_absolute() {
    let result = resolve_to_absolute("/foo/bar", "/some/base");
    assert_eq!(result, "/foo/bar");
}

#[test]
fn test_resolve_to_absolute_relative_path() {
    let result = resolve_to_absolute("bar/baz", "/foo");
    assert_eq!(result, "/foo/bar/baz");
}

#[test]
fn test_resolve_to_absolute_with_parent_dirs() {
    let result = resolve_to_absolute("../baz", "/foo/bar");
    assert_eq!(result, "/foo/baz");
}

#[test]
fn test_map_sources_to_output_dir_simple_file() {
    let sources = vec!["./src/Main.purs".to_string()];
    let result = map_sources_to_output_dir_impl(&sources, "/project/output", "/project");
    assert_eq!(result.len(), 1);
    assert_eq!(result[0], "../src/Main.purs");
}

#[test]
fn test_map_sources_to_output_dir_glob_pattern() {
    let sources = vec!["./src/**/*.purs".to_string()];
    let result = map_sources_to_output_dir_impl(&sources, "/project/output", "/project");
    assert_eq!(result.len(), 1);
    assert_eq!(result[0], "../src/**/*.purs");
}

#[test]
fn test_map_sources_to_output_dir_glob_with_wildcard() {
    let sources = vec!["./src/*.purs".to_string()];
    let result = map_sources_to_output_dir_impl(&sources, "/project/output", "/project");
    assert_eq!(result.len(), 1);
    assert_eq!(result[0], "../src/*.purs");
}

#[test]
fn test_map_sources_to_output_dir_multiple_sources() {
    let sources = vec!["./src/Main.purs".to_string(), "./lib/Utils.purs".to_string()];
    let result = map_sources_to_output_dir_impl(&sources, "/project/output", "/project");
    assert_eq!(result.len(), 2);
    assert_eq!(result[0], "../src/Main.purs");
    assert_eq!(result[1], "../lib/Utils.purs");
}
