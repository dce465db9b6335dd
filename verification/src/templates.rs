//! Text templates for newly initialised projects: the manifest, the main
//! module and the test module.

use vstd::prelude::*;

verus! {

/// Relies on heck's ToPascalCase: the PascalCase form of a name depends on
/// the characters of the name alone.
pub uninterp spec fn pascal_of(s: Seq<char>) -> Seq<char>;

/// Converts a package name to PascalCase for module names.  Relies on
/// heck::ToPascalCase::to_pascal_case; the result is a function of the
/// input characters alone.
#[verifier::external_body]
pub fn to_pascal_case(name: &str) -> (r: String)
    ensures
        r@ == pascal_of(name@),
{
    heck::ToPascalCase::to_pascal_case(name)
}

/// The manifest template of a fresh project: its name, the default
/// dependencies, a test section, and — except for nested packages — a
/// workspace section pinning the registry version.
pub fn template(name: &String, registry_version: &String, is_nested_package: bool) -> (r: String)
    ensures
        r@ == "package:\n  name: "@ + name@ + "\n  dependencies:\n    - console\n    - effect\n    - prelude\n  test:\n    main: "@
            + pascal_of(name@) + ".Test.Main\n    dependencies: []\n"@ + (
        if is_nested_package {
            Seq::<char>::empty()
        } else {
            "workspace:\n  packageSet:\n    registry: "@ + registry_version@
                + "\n  extraPackages: {}\n"@
        }),
{
    let name_pascal = to_pascal_case(name.as_str());
    let workspace: String = if is_nested_package {
        String::new()
    } else {
        String::from_str("workspace:\n  packageSet:\n    registry: ").concat(
            registry_version.as_str(),
        ).concat("\n  extraPackages: {}\n")
    };
    String::from_str("package:\n  name: ").concat(name.as_str()).concat(
        "\n  dependencies:\n    - console\n    - effect\n    - prelude\n  test:\n    main: ",
    ).concat(name_pascal.as_str()).concat(".Test.Main\n    dependencies: []\n").concat(
        workspace.as_str(),
    )
}

/// The main-module template of a fresh project: nested packages get a
/// PascalCase module name, the workspace root plain `Main`.
pub fn src_template(name: &String, is_nested_package: bool) -> (r: String)
    ensures
        r@ == "module "@ + (
        if is_nested_package {
            pascal_of(name@)
        } else {
            "Main"@
        })
            + " where\n\nimport Prelude\n\nimport Effect (Effect)\nimport Effect.Console (log)\n\nmain :: Effect Unit\nmain = do\n  log \"hello\"\n"@,
{
    let module_name: String = if is_nested_package {
        to_pascal_case(name.as_str())
    } else {
        String::from_str("Main")
    };
    String::from_str("module ").concat(module_name.as_str()).concat(
        " where\n\nimport Prelude\n\nimport Effect (Effect)\nimport Effect.Console (log)\n\nmain :: Effect Unit\nmain = do\n  log \"hello\"\n",
    )
}

/// The test-module template of a fresh project.
pub fn test_template(name: &String) -> (r: String)
    ensures
        r@ == "module "@ + pascal_of(name@)
            + ".Test.Main where\n\nimport Prelude\n\nimport Effect (Effect)\nimport Effect.Class.Console (log)\n\nmain :: Effect Unit\nmain = do\n  log \"You should add some tests.\"\n"@,
{
    let pascal_name = to_pascal_case(name.as_str());
    String::from_str("module ").concat(pascal_name.as_str()).concat(
        ".Test.Main where\n\nimport Prelude\n\nimport Effect (Effect)\nimport Effect.Class.Console (log)\n\nmain :: Effect Unit\nmain = do\n  log \"You should add some tests.\"\n",
    )
}

} // verus!
