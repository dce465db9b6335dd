//! The manifest view: the declarative list of a package's direct (and
//! optional test-only) dependencies, with the workspace settings.

use vstd::prelude::*;

use crate::textutil::strs_of;
use crate::name::{distinct_names, has_name, names_of, PackageName};
use crate::package::{
    LocalModel, LocalPackage, Package, PackageModel, PackageSet, PackageSetPackage, RemoteModel,
};

verus! {

/// Test-only configuration of a package.
pub struct TestConfig {
    pub main: PackageName,
    pub dependencies: Vec<PackageName>,
}

/// Package section of the manifest.
pub struct PackageConfig {
    pub name: PackageName,
    pub dependencies: Vec<PackageName>,
    pub test: Option<TestConfig>,
}

/// An extra package declared in the manifest: either a git source with an
/// optional ref, or a local path, each with optional dependency names.
pub struct ExtraPackageConfig {
    pub git: Option<String>,
    pub ref_: Option<String>,
    pub path: Option<String>,
    pub dependencies: Option<Vec<String>>,
}

/// Package-set selection of the workspace.
pub struct PackageSetConfig {
    pub url: String,
}

/// Workspace section of the manifest.
pub struct WorkspaceConfig {
    pub is_nested: bool,
    pub package_set: Option<PackageSetConfig>,
    pub extra_packages: Vec<(PackageName, ExtraPackageConfig)>,
}

impl Default for WorkspaceConfig {
    fn default() -> (r: Self)
        ensures
            !r.is_nested,
            r.package_set is None,
            r.extra_packages@.len() == 0,
    {
        WorkspaceConfig { is_nested: false, package_set: None, extra_packages: Vec::new() }
    }
}

/// A manifest that only carries a package section.
pub struct JustPackageConfig {
    pub package: PackageConfig,
}

/// A manifest that only carries a workspace section, if any.
pub struct JustWorkspaceConfig {
    pub workspace: Option<WorkspaceConfig>,
}

/// The complete manifest of the current package: its package section, the
/// workspace it belongs to, and where that workspace root lies.
pub struct SpagoConfig {
    pub package: PackageConfig,
    pub workspace: WorkspaceConfig,
    pub workspace_root: String,
}

/// The names of the test-only dependencies, empty without a test section.
pub open spec fn spec_test_dep_names(c: &SpagoConfig) -> Seq<Seq<char>> {
    match c.package.test {
        Some(t) => names_of(t.dependencies@),
        None => Seq::empty(),
    }
}

impl SpagoConfig {
    /// All dependencies, package and test together, duplicate-free and
    /// sorted ascending.
    pub fn all_dependencies(&self) -> (r: Vec<PackageName>)
        ensures
            distinct_names(r@),
            crate::name::sorted_names(r@),
            forall|n: Seq<char>|
                #[trigger] has_name(r@, n) <==> names_of(self.package.dependencies@).contains(n)
                    || spec_test_dep_names(self).contains(n),
    {
        let ghost stream_a = self.package.dependencies@;
        let ghost stream_b: Seq<PackageName> = match &self.package.test {
            Some(t) => t.dependencies@,
            None => Seq::empty(),
        };
        let mut out: Vec<PackageName> = Vec::new();
        proof {
            assert(names_of(out@) =~= crate::name::dedup_names(Seq::<PackageName>::empty()));
        }
        crate::name::extend_dedup(&mut out, Ghost(Seq::empty()), &self.package.dependencies);
        proof {
            assert(Seq::<PackageName>::empty() + stream_a =~= stream_a);
        }
        match &self.package.test {
            Some(t) => {
                crate::name::extend_dedup(&mut out, Ghost(stream_a), &t.dependencies);
            },
            None => {
                proof {
                    assert(stream_a + stream_b =~= stream_a);
                }
            },
        }
        proof {
            let stream = stream_a + stream_b;
            crate::name::lemma_dedup_names_set(stream);
            crate::name::lemma_names_of_app(stream_a, stream_b);
            assert(spec_test_dep_names(self) =~= names_of(stream_b));
            assert forall|n: Seq<char>| #[trigger] has_name(out@, n) implies (names_of(
                stream_a,
            ).contains(n) || spec_test_dep_names(self).contains(n)) by {
                crate::name::lemma_names_contains(out@, n);
                crate::graph::lemma_app_contains_iff(names_of(stream_a), names_of(stream_b), n);
            }
            assert forall|n: Seq<char>|
                names_of(stream_a).contains(n) || spec_test_dep_names(self).contains(
                n,
            ) implies has_name(out@, n) by {
                crate::name::lemma_names_contains(out@, n);
                crate::graph::lemma_app_contains_iff(names_of(stream_a), names_of(stream_b), n);
            }
        }
        let ghost pre = out@;
        crate::name::sort_names(&mut out);
        proof {
            assert forall|n: Seq<char>| #[trigger] has_name(out@, n) implies (names_of(
                self.package.dependencies@,
            ).contains(n) || spec_test_dep_names(self).contains(n)) by {
                assert(has_name(pre, n));
            }
            assert forall|n: Seq<char>|
                names_of(self.package.dependencies@).contains(n) || spec_test_dep_names(
                self,
            ).contains(n) implies has_name(out@, n) by {
                assert(has_name(pre, n));
            }
        }
        out
    }

    /// Only the package dependencies, excluding test.
    pub fn package_dependencies(&self) -> (r: Vec<PackageName>)
        ensures
            names_of(r@) == names_of(self.package.dependencies@),
            r@.len() == self.package.dependencies@.len(),
    {
        let mut out: Vec<PackageName> = Vec::new();
        let deps = &self.package.dependencies;
        let mut i: usize = 0;
        while i < deps.len()
            invariant
                0 <= i <= deps@.len(),
                names_of(out@) =~= names_of(deps@).take(i as int),
                out@.len() == i,
            decreases deps@.len() - i,
        {
            let ghost o0 = out@;
            out.push(deps[i].clone());
            proof {
                assert(names_of(out@) =~= names_of(o0).push(deps@[i as int]@));
                assert(names_of(deps@).take(i + 1) =~= names_of(deps@).take(i as int).push(
                    deps@[i as int]@,
                ));
                assert(names_of(out@) =~= names_of(deps@).take(i + 1));
            }
            i += 1;
        }
        proof {
            assert(names_of(deps@).take(deps@.len() as int) =~= names_of(deps@));
        }
        out
    }

    /// Only the test dependencies, empty without a test section.
    pub fn test_dependencies(&self) -> (r: Vec<PackageName>)
        ensures
            names_of(r@) == spec_test_dep_names(self),
    {
        match &self.package.test {
            Some(t) => {
                let tds = &t.dependencies;
                let mut out: Vec<PackageName> = Vec::new();
                let mut i: usize = 0;
                while i < tds.len()
                    invariant
                        0 <= i <= tds@.len(),
                        names_of(out@) =~= names_of(tds@).take(i as int),
                    decreases tds@.len() - i,
                {
                    let ghost o0 = out@;
                    out.push(tds[i].clone());
                    proof {
                        assert(names_of(out@) =~= names_of(o0).push(tds@[i as int]@));
                        assert(names_of(tds@).take(i + 1) =~= names_of(tds@).take(i as int).push(
                            tds@[i as int]@,
                        ));
                        assert(names_of(out@) =~= names_of(tds@).take(i + 1));
                    }
                    i += 1;
                }
                proof {
                    assert(names_of(tds@).take(tds@.len() as int) =~= names_of(tds@));
                }
                out
            },
            None => {
                let out: Vec<PackageName> = Vec::new();
                proof {
                    assert(names_of(out@) =~= Seq::<Seq<char>>::empty());
                }
                out
            },
        }
    }

    /// The package-set URL, when the workspace declares one.
    pub fn package_set_url(&self) -> (r: Option<&String>)
        ensures
            match r {
                Some(u) => self.workspace.package_set matches Some(ps) && ps.url@ == u@,
                None => self.workspace.package_set is None,
            },
    {
        match &self.workspace.package_set {
            Some(ps) => Some(&ps.url),
            None => None,
        }
    }

    /// Whether this manifest is the workspace root: a root must satisfy the
    /// union of all workspace members' dependencies.
    pub fn is_workspace_root(&self) -> (r: bool)
        ensures
            r == !self.workspace.is_nested,
    {
        !self.workspace.is_nested
    }

    /// The per-project install directory of this workspace.
    pub fn spago_dir(&self) -> (r: String)
        ensures
            r@ == self.workspace_root@ + "/.spago"@,
    {
        self.workspace_root.clone().concat("/.spago")
    }
}

/// The kept names after removing a set of names from a dependency list,
/// in order.
pub open spec fn retained_names(cur: Seq<PackageName>, rm: Seq<PackageName>) -> Seq<Seq<char>>
    decreases cur.len(),
{
    if cur.len() == 0 {
        Seq::empty()
    } else {
        let rest = retained_names(cur.drop_last(), rm);
        if has_name(rm, cur.last()@) {
            rest
        } else {
            rest.push(cur.last()@)
        }
    }
}

/// The updated dependency list after an install request: the union of the
/// current dependencies and the newly requested packages, duplicate-free
/// and sorted ascending — the order the manifest file receives.
pub fn add_packages_to_config(current: &Vec<PackageName>, new_packages: &Vec<PackageName>) -> (r:
    Vec<PackageName>)
    ensures
        distinct_names(r@),
        crate::name::sorted_names(r@),
        forall|n: Seq<char>|
            #[trigger] has_name(r@, n) <==> has_name(current@, n) || has_name(new_packages@, n),
{
    let mut out: Vec<PackageName> = Vec::new();
    proof {
        assert(names_of(out@) =~= crate::name::dedup_names(Seq::<PackageName>::empty()));
    }
    crate::name::extend_dedup(&mut out, Ghost(Seq::empty()), current);
    proof {
        assert(Seq::<PackageName>::empty() + current@ =~= current@);
    }
    crate::name::extend_dedup(&mut out, Ghost(current@), new_packages);
    proof {
        let stream = current@ + new_packages@;
        crate::name::lemma_dedup_names_set(stream);
        crate::name::lemma_names_of_app(current@, new_packages@);
        assert forall|n: Seq<char>| #[trigger] has_name(out@, n) implies (has_name(current@, n)
            || has_name(new_packages@, n)) by {
            crate::name::lemma_names_contains(out@, n);
            crate::graph::lemma_app_contains_iff(names_of(current@), names_of(new_packages@), n);
            crate::name::lemma_names_contains(current@, n);
            crate::name::lemma_names_contains(new_packages@, n);
        }
        assert forall|n: Seq<char>|
            has_name(current@, n) || has_name(new_packages@, n) implies has_name(out@, n) by {
            crate::name::lemma_names_contains(out@, n);
            crate::graph::lemma_app_contains_iff(names_of(current@), names_of(new_packages@), n);
            crate::name::lemma_names_contains(current@, n);
            crate::name::lemma_names_contains(new_packages@, n);
        }
    }
    let ghost pre = out@;
    crate::name::sort_names(&mut out);
    proof {
        assert forall|n: Seq<char>| #[trigger] has_name(out@, n) implies (has_name(current@, n)
            || has_name(new_packages@, n)) by {
            assert(has_name(pre, n));
        }
        assert forall|n: Seq<char>|
            has_name(current@, n) || has_name(new_packages@, n) implies has_name(out@, n) by {
            assert(has_name(pre, n));
        }
    }
    out
}

/// The updated dependency list after an uninstall request: the current
/// dependencies with every requested package removed, order kept.
pub fn remove_packages_from_config(
    current: &Vec<PackageName>,
    packages_to_remove: &Vec<PackageName>,
) -> (r: Vec<PackageName>)
    ensures
        names_of(r@) == retained_names(current@, packages_to_remove@),
{
    let mut out: Vec<PackageName> = Vec::new();
    let mut i: usize = 0;
    while i < current.len()
        invariant
            0 <= i <= current@.len(),
            names_of(out@) =~= retained_names(current@.take(i as int), packages_to_remove@),
        decreases current@.len() - i,
    {
        proof {
            assert(current@.take(i + 1).drop_last() =~= current@.take(i as int));
            assert(current@.take(i + 1).last() == current@[i as int]);
        }
        if !crate::name::contains_name(packages_to_remove, &current[i]) {
            out.push(current[i].clone());
        }
        i += 1;
    }
    proof {
        assert(current@.take(current@.len() as int) =~= current@);
    }
    out
}


/// The package-set tag found in a package-set URL: the path segment that
/// follows a `package-sets` segment, unless it is the final
/// `packages.json` file name.
pub open spec fn tag_of_parts(parts: Seq<Seq<char>>) -> Option<Seq<char>>
    decreases parts.len(),
{
    if parts.len() == 0 {
        None
    } else if parts.first() == "package-sets"@ && parts.len() >= 2 && parts[1] != "packages.json"@ {
        Some(parts[1])
    } else {
        tag_of_parts(parts.drop_first())
    }
}

/// Extracts the package-set tag from a package-set URL, scanning its
/// path segments for the one that follows `package-sets`.
pub fn extract_tag_from_url(url: &str) -> (r: Option<String>)
    ensures
        match r {
            Some(t) => tag_of_parts(crate::textutil::split_seq(url@, '/')) == Some(t@),
            None => tag_of_parts(crate::textutil::split_seq(url@, '/')) is None,
        },
{
    proof {
        reveal_strlit("/");
    }
    let parts = crate::textutil::split_char(url, "/");
    let ghost ps = crate::textutil::strs_of(parts@);
    proof {
        assert("/"@[0] == '/');
        assert(ps == crate::textutil::split_seq(url@, '/'));
        assert(ps.skip(0) =~= ps);
    }
    let mut i: usize = 0;
    while i < parts.len()
        invariant
            ps == crate::textutil::strs_of(parts@),
            ps == crate::textutil::split_seq(url@, '/'),
            0 <= i <= ps.len(),
            tag_of_parts(ps) == tag_of_parts(ps.skip(i as int)),
        decreases ps.len() - i,
    {
        proof {
            assert(ps.skip(i as int).first() == ps[i as int]);
            assert(ps.skip(i as int).drop_first() =~= ps.skip(i + 1));
            assert(ps[i as int] == parts@[i as int]@);
            if i + 1 < ps.len() {
                assert(ps.skip(i as int)[1] == ps[i + 1]);
                assert(ps[i + 1] == parts@[i + 1]@);
            }
        }
        if crate::textutil::str_eq(parts[i].as_str(), "package-sets") {
            if i + 1 < parts.len() {
                if !crate::textutil::str_eq(parts[i + 1].as_str(), "packages.json") {
                    return Some(parts[i + 1].clone());
                }
            }
        }
        i += 1;
    }
    proof {
        assert(ps.skip(ps.len() as int) =~= Seq::<Seq<char>>::empty());
    }
    None
}


/// The package an extra-package declaration stands for: a remote package
/// for a git source, a local one for a path, nothing when the declaration
/// names neither or both.
pub open spec fn extra_package_model(n: PackageName, e: ExtraPackageConfig) -> Option<
    PackageModel,
> {
    let deps: Seq<Seq<char>> = match e.dependencies {
        Some(ds) => strs_of(ds@),
        None => Seq::empty(),
    };
    match (e.git, e.path) {
        (Some(git), None) => Some(
            PackageModel::Remote(
                RemoteModel {
                    name: n@,
                    dependencies: deps,
                    repo: git@,
                    version: match e.ref_ {
                        Some(r) => r@,
                        None => Seq::empty(),
                    },
                },
            ),
        ),
        (None, Some(path)) => Some(
            PackageModel::Local(
                LocalModel {
                    name: n@,
                    dependencies: deps,
                    test_dependencies: Seq::empty(),
                    path: path@,
                },
            ),
        ),
        _ => None,
    }
}

/// The package map after merging a list of extra-package declarations
/// into it, in order, insert-or-override by name.
pub open spec fn merged_extras(
    pm: Map<Seq<char>, PackageModel>,
    extras: Seq<(PackageName, ExtraPackageConfig)>,
) -> Map<Seq<char>, PackageModel>
    decreases extras.len(),
{
    if extras.len() == 0 {
        pm
    } else {
        let rest = merged_extras(pm, extras.drop_last());
        match extra_package_model(extras.last().0, extras.last().1) {
            Some(p) => rest.insert(p.name(), p),
            None => rest,
        }
    }
}

/// Builds the dependency name list of an extra-package declaration.
fn extra_dependencies(e: &ExtraPackageConfig) -> (r: Vec<PackageName>)
    ensures
        names_of(r@) == match e.dependencies {
            Some(ds) => strs_of(ds@),
            None => Seq::<Seq<char>>::empty(),
        },
{
    let mut out: Vec<PackageName> = Vec::new();
    match &e.dependencies {
        Some(ds) => {
            let mut i: usize = 0;
            while i < ds.len()
                invariant
                    0 <= i <= ds@.len(),
                    names_of(out@) =~= strs_of(ds@).take(i as int),
                decreases ds@.len() - i,
            {
                let ghost o0 = out@;
                out.push(PackageName::new(ds[i].as_str()));
                proof {
                    assert(names_of(out@) =~= names_of(o0).push(ds@[i as int]@));
                    assert(strs_of(ds@).take(i + 1) =~= strs_of(ds@).take(i as int).push(
                        ds@[i as int]@,
                    ));
                }
                i += 1;
            }
            proof {
                assert(strs_of(ds@).take(ds@.len() as int) =~= strs_of(ds@));
            }
        },
        None => {
            proof {
                assert(names_of(out@) =~= Seq::<Seq<char>>::empty());
            }
        },
    }
    out
}

/// Merges the manifest's extra packages into the package set: a git
/// declaration becomes a remote package, a path declaration a local one,
/// each inserted under its name, overriding any catalog entry.
#[verifier::loop_isolation(false)]
pub fn add_extra_packages(
    package_set: &mut PackageSet,
    extra_packages: &Vec<(PackageName, ExtraPackageConfig)>,
)
    requires
        old(package_set).wf(),
    ensures
        final(package_set).wf(),
        final(package_set)@ == merged_extras(old(package_set)@, extra_packages@),
{
    let ghost pm0 = package_set@;
    let ghost es = extra_packages@;
    let mut i: usize = 0;
    while i < extra_packages.len()
        invariant
            package_set.wf(),
            0 <= i <= es.len(),
            package_set@ =~= merged_extras(pm0, es.take(i as int)),
        decreases es.len() - i,
    {
        proof {
            assert(es.take(i + 1).drop_last() =~= es.take(i as int));
            assert(es.take(i + 1).last() == es[i as int]);
        }
        let (name, extra) = &extra_packages[i];
        let deps = extra_dependencies(extra);
        match (&extra.git, &extra.path) {
            (Some(git), None) => {
                let version = match &extra.ref_ {
                    Some(r) => r.clone(),
                    None => String::new(),
                };
                package_set.insert(
                    Package::Remote(
                        PackageSetPackage {
                            name: name.clone(),
                            dependencies: deps,
                            repo: git.clone(),
                            version,
                        },
                    ),
                );
            },
            (None, Some(path)) => {
                package_set.insert(
                    Package::Local(
                        LocalPackage {
                            name: name.clone(),
                            dependencies: deps,
                            test_dependencies: Vec::new(),
                            path: path.clone(),
                        },
                    ),
                );
                proof {
                    assert(names_of(Seq::<PackageName>::empty()) =~= Seq::<Seq<char>>::empty());
                }
            },
            _ => {},
        }
        proof {
            assert(package_set@ =~= merged_extras(pm0, es.take(i + 1)));
        }
        i += 1;
    }
    proof {
        assert(es.take(es.len() as int) =~= es);
    }
}

} // verus!
