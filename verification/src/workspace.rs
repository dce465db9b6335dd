//! Workspace dependency health: for each local package, which imported
//! packages are missing from its manifest, which declared dependencies are
//! never imported, and which imported modules cannot be found at all.

use vstd::prelude::*;

use crate::modules::{ModuleInfo, ModuleInfoModel};
use crate::name::{contains_name, distinct_names, has_name, names_of, PackageName};
use crate::package::LocalPackage;
use crate::textutil::{distinct_strs, has_str, push_unique_str, str_eq};

verus! {

/// Per-package findings of a workspace dependency check, one row per
/// local package, in the order the packages were given.
pub struct DependencyStats {
    /// Packages that are imported but not declared.
    pub to_install: Vec<(PackageName, Vec<PackageName>)>,
    /// Declared dependencies that are never imported.
    pub to_uninstall: Vec<(PackageName, Vec<PackageName>)>,
    /// Imported modules that no workspace source provides.
    pub not_found: Vec<(PackageName, Vec<String>)>,
}

/// The module names the compiler provides without any package.
pub open spec fn is_primitive_module(m: Seq<char>) -> bool {
    m == "Prim.Row"@ || m == "Prim.RowList"@ || m == "Prim.Symbol"@ || m == "Prim.TypeError"@
        || m == "Prim.Boolean"@
}

/// Whether a module name is one the compiler itself provides.
pub fn is_primitive(m: &str) -> (r: bool)
    ensures
        r == is_primitive_module(m@),
{
    str_eq(m, "Prim.Row") || str_eq(m, "Prim.RowList") || str_eq(m, "Prim.Symbol") || str_eq(
        m,
        "Prim.TypeError",
    ) || str_eq(m, "Prim.Boolean")
}

/// The package providing a module, later discoveries overriding earlier
/// ones of the same module name.
pub open spec fn module_pkg(ms: Seq<ModuleInfoModel>, m: Seq<char>) -> Option<Seq<char>>
    decreases ms.len(),
{
    if ms.len() == 0 {
        None
    } else if ms.last().name == m {
        Some(ms.last().package_name)
    } else {
        module_pkg(ms.drop_last(), m)
    }
}

/// Looks a module's providing package up.
#[verifier::loop_isolation(false)]
pub fn lookup_module_pkg(modules: &Vec<ModuleInfo>, m: &str) -> (r: Option<String>)
    ensures
        match r {
            Some(p) => module_pkg(crate::modules::module_models_of(modules@), m@) == Some(p@),
            None => module_pkg(crate::modules::module_models_of(modules@), m@) is None,
        },
{
    let ghost ms = crate::modules::module_models_of(modules@);
    let mut i: usize = modules.len();
    proof {
        assert(ms.take(modules@.len() as int) =~= ms);
    }
    while i > 0
        invariant
            0 <= i <= ms.len(),
            ms == crate::modules::module_models_of(modules@),
            module_pkg(ms, m@) == module_pkg(ms.take(i as int), m@),
        decreases i,
    {
        proof {
            assert(ms.take(i as int).last() == ms[i - 1]);
            assert(ms.take(i as int).drop_last() =~= ms.take(i - 1));
            assert(ms[i - 1] == modules@[i - 1]@);
        }
        if str_eq(modules[i - 1].name.as_str(), m) {
            return Some(modules[i - 1].package_name.clone());
        }
        i -= 1;
    }
    proof {
        assert(ms.take(0) =~= Seq::<ModuleInfoModel>::empty());
    }
    None
}

/// A package must be added to this local package's manifest: one of its
/// imports resolves to that package, which is neither the package itself
/// nor already declared.
pub open spec fn needs_install(
    lp: crate::package::LocalModel,
    ms: Seq<ModuleInfoModel>,
    imports: Seq<String>,
    p: Seq<char>,
) -> bool {
    exists|k: int|
        0 <= k < imports.len() && !is_primitive_module(#[trigger] imports[k]@) && module_pkg(
            ms,
            imports[k]@,
        ) == Some(p) && p != lp.name && !lp.dependencies.contains(p)
}

/// An imported module is found nowhere in the workspace.
pub open spec fn is_not_found(
    ms: Seq<ModuleInfoModel>,
    imports: Seq<String>,
    m: Seq<char>,
) -> bool {
    exists|k: int|
        0 <= k < imports.len() && #[trigger] imports[k]@ == m && !is_primitive_module(m)
            && module_pkg(ms, m) is None
}

/// A declared dependency is actually used: some import resolves to it.
pub open spec fn dep_is_used(
    lp: crate::package::LocalModel,
    ms: Seq<ModuleInfoModel>,
    imports: Seq<String>,
    d: Seq<char>,
) -> bool {
    exists|k: int|
        0 <= k < imports.len() && !is_primitive_module(#[trigger] imports[k]@) && module_pkg(
            ms,
            imports[k]@,
        ) == Some(d) && d != lp.name
}

/// Whether some import of the list resolves to the dependency `d`.
#[verifier::loop_isolation(false)]
fn dep_used_exec(
    lp: &LocalPackage,
    modules: &Vec<ModuleInfo>,
    imports: &Vec<String>,
    d: &PackageName,
) -> (r: bool)
    ensures
        r == dep_is_used(lp@, crate::modules::module_models_of(modules@), imports@, d@),
{
    let ghost ms = crate::modules::module_models_of(modules@);
    let mut k: usize = 0;
    while k < imports.len()
        invariant
            0 <= k <= imports@.len(),
            ms == crate::modules::module_models_of(modules@),
            forall|q: int|
                0 <= q < k ==> !(!is_primitive_module(#[trigger] imports@[q]@) && module_pkg(
                    ms,
                    imports@[q]@,
                ) == Some(d@) && d@ != lp@.name),
        decreases imports@.len() - k,
    {
        if !is_primitive(imports[k].as_str()) {
            match lookup_module_pkg(modules, imports[k].as_str()) {
                Some(p) => {
                    if str_eq(p.as_str(), d.0.as_str()) && !(d == &lp.name) {
                        return true;
                    }
                },
                None => {},
            }
        }
        k += 1;
    }
    false
}

/// Computes, for every local package, what its manifest is missing, what
/// it declares in vain, and which of its imports resolve nowhere.  Row
/// `j` of each list belongs to local package `j`; the listed names are
/// sets: free of duplicates, membership as the corresponding predicate
/// states it.
#[verifier::loop_isolation(false)]
#[verifier::rlimit(100)]
#[verifier::spinoff_prover]
pub fn compute_dependency_stats(
    locals: &Vec<LocalPackage>,
    workspace_modules: &Vec<ModuleInfo>,
    imports_per_local: &Vec<Vec<String>>,
) -> (r: DependencyStats)
    requires
        imports_per_local@.len() == locals@.len(),
    ensures
        r.to_install@.len() == locals@.len(),
        r.to_uninstall@.len() == locals@.len(),
        r.not_found@.len() == locals@.len(),
        forall|j: int|
            0 <= j < locals@.len() ==> {
                &&& (#[trigger] r.to_install@[j]).0@ == locals@[j]@.name
                &&& r.to_uninstall@[j].0@ == locals@[j]@.name
                &&& r.not_found@[j].0@ == locals@[j]@.name
                &&& distinct_names(r.to_install@[j].1@)
                &&& distinct_names(r.to_uninstall@[j].1@)
                &&& distinct_strs(r.not_found@[j].1@)
                &&& forall|p: Seq<char>|
                    #[trigger] has_name(r.to_install@[j].1@, p) <==> needs_install(
                        locals@[j]@,
                        crate::modules::module_models_of(workspace_modules@),
                        imports_per_local@[j]@,
                        p,
                    )
                &&& forall|d: Seq<char>|
                    #[trigger] has_name(r.to_uninstall@[j].1@, d) <==> (
                    locals@[j]@.dependencies.contains(d) && !dep_is_used(
                        locals@[j]@,
                        crate::modules::module_models_of(workspace_modules@),
                        imports_per_local@[j]@,
                        d,
                    ))
                &&& forall|m: Seq<char>|
                    #[trigger] has_str(r.not_found@[j].1@, m) <==> is_not_found(
                        crate::modules::module_models_of(workspace_modules@),
                        imports_per_local@[j]@,
                        m,
                    )
            },
{
    let ghost ms = crate::modules::module_models_of(workspace_modules@);
    let mut to_install: Vec<(PackageName, Vec<PackageName>)> = Vec::new();
    let mut to_uninstall: Vec<(PackageName, Vec<PackageName>)> = Vec::new();
    let mut not_found: Vec<(PackageName, Vec<String>)> = Vec::new();

    let mut j: usize = 0;
    while j < locals.len()
        invariant
            imports_per_local@.len() == locals@.len(),
            ms == crate::modules::module_models_of(workspace_modules@),
            0 <= j <= locals@.len(),
            to_install@.len() == j,
            to_uninstall@.len() == j,
            not_found@.len() == j,
            forall|q: int|
                0 <= q < j ==> {
                    &&& (#[trigger] to_install@[q]).0@ == locals@[q]@.name
                    &&& to_uninstall@[q].0@ == locals@[q]@.name
                    &&& not_found@[q].0@ == locals@[q]@.name
                    &&& distinct_names(to_install@[q].1@)
                    &&& distinct_names(to_uninstall@[q].1@)
                    &&& distinct_strs(not_found@[q].1@)
                    &&& forall|p: Seq<char>|
                        #[trigger] has_name(to_install@[q].1@, p) <==> needs_install(
                            locals@[q]@,
                            ms,
                            imports_per_local@[q]@,
                            p,
                        )
                    &&& forall|d: Seq<char>|
                        #[trigger] has_name(to_uninstall@[q].1@, d) <==> (
                        locals@[q]@.dependencies.contains(d) && !dep_is_used(
                            locals@[q]@,
                            ms,
                            imports_per_local@[q]@,
                            d,
                        ))
                    &&& forall|m: Seq<char>|
                        #[trigger] has_str(not_found@[q].1@, m) <==> is_not_found(
                            ms,
                            imports_per_local@[q]@,
                            m,
                        )
                },
        decreases locals@.len() - j,
    {
        let lp = &locals[j];
        let imports = &imports_per_local[j];
        let ghost imps = imports@;

        let mut install_row: Vec<PackageName> = Vec::new();
        let mut missing_row: Vec<String> = Vec::new();
        let mut k: usize = 0;
        while k < imports.len()
            invariant
                ms == crate::modules::module_models_of(workspace_modules@),
                imps == imports@,
                0 <= k <= imps.len(),
                distinct_names(install_row@),
                distinct_strs(missing_row@),
                forall|p: Seq<char>|
                    #[trigger] has_name(install_row@, p) <==> exists|q: int|
                        0 <= q < k && !is_primitive_module(#[trigger] imps[q]@) && module_pkg(
                            ms,
                            imps[q]@,
                        ) == Some(p) && p != lp@.name && !lp@.dependencies.contains(p),
                forall|m: Seq<char>|
                    #[trigger] has_str(missing_row@, m) <==> exists|q: int|
                        0 <= q < k && #[trigger] imps[q]@ == m && !is_primitive_module(m)
                            && module_pkg(ms, m) is None,
            decreases imps.len() - k,
        {
            let imp = &imports[k];
            if !is_primitive(imp.as_str()) {
                match lookup_module_pkg(workspace_modules, imp.as_str()) {
                    Some(p) => {
                        let pn = PackageName::new(p.as_str());
                        if !str_eq(p.as_str(), lp.name.0.as_str()) {
                            if !contains_name(&lp.dependencies, &pn) {
                                proof {
                                    crate::name::lemma_names_contains(lp.dependencies@, pn@);
                                }
                                crate::name::push_unique(&mut install_row, &pn);
                            } else {
                                proof {
                                    crate::name::lemma_names_contains(lp.dependencies@, pn@);
                                }
                            }
                        }
                    },
                    None => {
                        push_unique_str(&mut missing_row, imp.as_str());
                    },
                }
            }
            k += 1;
        }

        let mut uninstall_row: Vec<PackageName> = Vec::new();
        let deps = &lp.dependencies;
        let mut d: usize = 0;
        while d < deps.len()
            invariant
                ms == crate::modules::module_models_of(workspace_modules@),
                imps == imports@,
                0 <= d <= deps@.len(),
                names_of(deps@) == lp@.dependencies,
                distinct_names(uninstall_row@),
                forall|x: Seq<char>|
                    #[trigger] has_name(uninstall_row@, x) <==> ((exists|q: int|
                        0 <= q < d && #[trigger] deps@[q]@ == x) && lp@.dependencies.contains(x)
                        && !dep_is_used(lp@, ms, imps, x)),
            decreases deps@.len() - d,
        {
            proof {
                assert(names_of(deps@)[d as int] == deps@[d as int]@);
            }
            if !dep_used_exec(lp, workspace_modules, imports, &deps[d]) {
                crate::name::push_unique(&mut uninstall_row, &deps[d]);
            }
            d += 1;
        }
        proof {
            assert forall|x: Seq<char>| lp@.dependencies.contains(x) implies exists|q: int|
                0 <= q < deps@.len() && #[trigger] deps@[q]@ == x by {
                let q = choose|q: int|
                    0 <= q < lp@.dependencies.len() && lp@.dependencies[q] == x;
                assert(names_of(deps@)[q] == deps@[q]@);
            }
        }

        to_install.push((lp.name.clone(), install_row));
        to_uninstall.push((lp.name.clone(), uninstall_row));
        not_found.push((lp.name.clone(), missing_row));
        j += 1;
    }
    DependencyStats { to_install, to_uninstall, not_found }
}

} // verus!
