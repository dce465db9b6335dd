//! Source globs handed to the compiler: the main sources and one glob per
//! installed dependency.

use vstd::prelude::*;

verus! {

/// Source globs for one dependency package.
pub struct DependencyGlob {
    /// Name of the dependency package.
    pub package_name: String,
    /// Glob pattern for this dependency's source files.
    pub glob_pattern: String,
    /// Local path to the dependency.
    pub local_path: String,
}

impl Clone for DependencyGlob {
    fn clone(&self) -> (r: Self)
        ensures
            r.package_name@ == self.package_name@,
            r.glob_pattern@ == self.glob_pattern@,
            r.local_path@ == self.local_path@,
    {
        DependencyGlob {
            package_name: self.package_name.clone(),
            glob_pattern: self.glob_pattern.clone(),
            local_path: self.local_path.clone(),
        }
    }
}

/// The source globs of a build: the project's own sources and each
/// dependency's.
pub struct BuildSources {
    /// Source globs for each dependency package.
    pub dependency_globs: Vec<DependencyGlob>,
    /// Main source files of the project itself.
    pub main_sources: String,
}

/// The glob pattern covering the sources of one installed package.
pub fn source_glob_for(package_dir: &str) -> (r: String)
    ensures
        r@ == package_dir@ + "/src/**/*.purs"@,
{
    String::from_str(package_dir).concat("/src/**/*.purs")
}

} // verus!
