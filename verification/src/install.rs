//! The install planner: dependency-first closure computation, the
//! per-package install state machine, pruning, result aggregation and
//! cleanup of stale installs.  Fetching, copying and deleting directories
//! is the caller's part; this module decides what to do.

use vstd::prelude::*;

use crate::cache::{entry_for, GlobalPackageCache};
use crate::config::SpagoConfig;
use crate::textutil::strs_of;
use crate::errors::QueryError;
use crate::graph::{
    dep_closed, dep_edge, lemma_distinct_bound, lemma_model_from_entry, lemma_reaches_refl,
    lemma_reaches_stays, lemma_reaches_step, lemma_universe_covers, reaches, reaches_any,
    universe_of,
};
use crate::name::{contains_name, distinct_names, has_name, names_of, PackageName};
use crate::package::{Package, PackageModel, PackageSet};
use crate::query::{is_ws_dep, PackageQuery};

verus! {

/// Information about a repository-sourced package that was fetched.
pub struct PackageInfo {
    pub name: PackageName,
    pub version: String,
    pub local_path: String,
}

/// Information about a registry-sourced package that was installed.
pub struct RegistryPackageInfo {
    pub name: PackageName,
    pub version: String,
}

/// Mathematical image of a fetched repository package.
pub ghost struct PackageInfoModel {
    pub name: Seq<char>,
    pub version: Seq<char>,
    pub local_path: Seq<char>,
}

/// Mathematical image of an installed registry package.
pub ghost struct RegistryPackageInfoModel {
    pub name: Seq<char>,
    pub version: Seq<char>,
}

impl View for PackageInfo {
    type V = PackageInfoModel;

    open spec fn view(&self) -> PackageInfoModel {
        PackageInfoModel {
            name: self.name@,
            version: self.version@,
            local_path: self.local_path@,
        }
    }
}

impl View for RegistryPackageInfo {
    type V = RegistryPackageInfoModel;

    open spec fn view(&self) -> RegistryPackageInfoModel {
        RegistryPackageInfoModel { name: self.name@, version: self.version@ }
    }
}

/// One successfully installed package, by origin.
pub enum InstalledPackage {
    Git(PackageInfo),
    Registry(RegistryPackageInfo),
}

/// Mathematical image of an installed package.
pub ghost enum InstalledPackageModel {
    Git(PackageInfoModel),
    Registry(RegistryPackageInfoModel),
}

impl View for InstalledPackage {
    type V = InstalledPackageModel;

    open spec fn view(&self) -> InstalledPackageModel {
        match self {
            InstalledPackage::Git(p) => InstalledPackageModel::Git(p@),
            InstalledPackage::Registry(p) => InstalledPackageModel::Registry(p@),
        }
    }
}

impl InstalledPackageModel {
    /// The name of the installed package.
    pub open spec fn name(self) -> Seq<char> {
        match self {
            InstalledPackageModel::Git(p) => p.name,
            InstalledPackageModel::Registry(p) => p.name,
        }
    }
}

impl InstalledPackage {
    /// The installed package's name.
    pub fn name(&self) -> (r: &PackageName)
        ensures
            r@ == self@.name(),
    {
        match self {
            InstalledPackage::Git(package) => &package.name,
            InstalledPackage::Registry(package) => &package.name,
        }
    }

    /// The origin kind, as a short label.
    pub fn type_str(&self) -> (r: &'static str)
        ensures
            self@ is Git ==> r@ == "git"@,
            self@ is Registry ==> r@ == "registry"@,
    {
        match self {
            InstalledPackage::Git(_) => "git",
            InstalledPackage::Registry(_) => "registry",
        }
    }

    /// The installed version.
    pub fn version(&self) -> (r: &str)
        ensures
            match self@ {
                InstalledPackageModel::Git(p) => r@ == p.version,
                InstalledPackageModel::Registry(p) => r@ == p.version,
            },
    {
        match self {
            InstalledPackage::Git(package) => package.version.as_str(),
            InstalledPackage::Registry(package) => package.version.as_str(),
        }
    }
}

/// The result of a batch installation: what was installed, and the error
/// text of each task that failed.
pub struct InstallResult {
    pub installed: Vec<InstalledPackage>,
    pub errors: Vec<String>,
}

impl InstallResult {
    /// A batch succeeds exactly when no task failed.
    pub fn is_success(&self) -> (r: bool)
        ensures
            r == (self.errors@.len() == 0),
    {
        self.errors.len() == 0
    }
}

/// The views of a sequence of installed packages.
pub open spec fn installed_models_of(s: Seq<InstalledPackage>) -> Seq<InstalledPackageModel> {
    s.map_values(|p: InstalledPackage| p@)
}

/// The installed packages among a sequence of task outcomes, in order.
pub open spec fn successes_of(s: Seq<Result<Option<InstalledPackage>, String>>) -> Seq<
    InstalledPackageModel,
>
    decreases s.len(),
{
    if s.len() == 0 {
        Seq::empty()
    } else {
        let rest = successes_of(s.drop_last());
        match s.last() {
            Ok(Some(p)) => rest.push(p@),
            _ => rest,
        }
    }
}

/// The error texts among a sequence of task outcomes, in order.
pub open spec fn errors_of(s: Seq<Result<Option<InstalledPackage>, String>>) -> Seq<Seq<char>>
    decreases s.len(),
{
    if s.len() == 0 {
        Seq::empty()
    } else {
        let rest = errors_of(s.drop_last());
        match s.last() {
            Err(e) => rest.push(e@),
            _ => rest,
        }
    }
}

/// Collects the outcome of every install task after all have finished: no
/// first-error-wins cancellation, every success is kept even when siblings
/// failed, and every failure's error text is reported.
pub fn aggregate_install_results(outcomes: Vec<Result<Option<InstalledPackage>, String>>) -> (r:
    InstallResult)
    ensures
        installed_models_of(r.installed@) == successes_of(outcomes@),
        strs_of(r.errors@) == errors_of(outcomes@),
{
    let mut installed: Vec<InstalledPackage> = Vec::new();
    let mut errors: Vec<String> = Vec::new();
    let mut outcomes = outcomes;
    let ghost os = outcomes@;
    let mut i: usize = 0;
    while i < outcomes.len()
        invariant
            outcomes@ == os,
            0 <= i <= os.len(),
            installed_models_of(installed@) =~= successes_of(os.take(i as int)),
            strs_of(errors@) =~= errors_of(os.take(i as int)),
        decreases os.len() - i,
    {
        proof {
            assert(os.take(i + 1).drop_last() =~= os.take(i as int));
            assert(os.take(i + 1).last() == os[i as int]);
        }
        let ghost inst0 = installed@;
        let ghost errs0 = errors@;
        match &outcomes[i] {
            Ok(Some(p)) => {
                installed.push(clone_installed(p));
                proof {
                    assert(installed_models_of(installed@) =~= installed_models_of(inst0).push(
                        os[i as int]->Ok_0->Some_0@,
                    ));
                }
            },
            Ok(None) => {},
            Err(e) => {
                errors.push(e.clone());
                proof {
                    assert(strs_of(errors@) =~= strs_of(errs0).push(os[i as int]->Err_0@));
                }
            },
        }
        i += 1;
    }
    proof {
        assert(os.take(os.len() as int) =~= os);
    }
    InstallResult { installed, errors }
}

/// A copy of an installed-package record, preserving its whole content.
fn clone_installed(p: &InstalledPackage) -> (r: InstalledPackage)
    ensures
        r@ == p@,
{
    match p {
        InstalledPackage::Git(g) => InstalledPackage::Git(
            PackageInfo {
                name: g.name.clone(),
                version: g.version.clone(),
                local_path: g.local_path.clone(),
            },
        ),
        InstalledPackage::Registry(g) => InstalledPackage::Registry(
            RegistryPackageInfo { name: g.name.clone(), version: g.version.clone() },
        ),
    }
}

/// The four outcomes of the per-package install state machine.
#[derive(Debug, PartialEq, Eq, Structural)]
pub enum InstallStep {
    /// Local packages are never installed.
    LocalNoop,
    /// The destination already holds the declared version: no side effects.
    AlreadyInstalled,
    /// The global cache holds the (name, version) pair: copy it in.
    CopyFromCache,
    /// Fetch from the package's origin.
    Fetch,
}

/// Whether the cache index holds this (name, version) pair, regardless of
/// the cache key (the same check `is_cached` makes).
pub open spec fn spec_cache_lists(c: GlobalPackageCache, name: Seq<char>, version: Seq<char>) -> bool {
    match entry_for(c.index@, name) {
        Some(e) => e.version == version,
        None => false,
    }
}

/// What the install state machine decides for one package, given whether
/// its destination directory exists, which version the destination holds,
/// and the cache index.
pub open spec fn spec_plan(
    p: PackageModel,
    dest_exists: bool,
    disk_version: Option<Seq<char>>,
    c: GlobalPackageCache,
) -> InstallStep {
    if p.is_local() {
        InstallStep::LocalNoop
    } else if dest_exists && disk_version == p.version() {
        InstallStep::AlreadyInstalled
    } else if spec_cache_lists(c, p.name(), p.version()->Some_0) {
        InstallStep::CopyFromCache
    } else {
        InstallStep::Fetch
    }
}

/// Decides how one package is installed: local packages are a no-op; a
/// destination already holding the declared version is left alone; then
/// the cache is consulted; only then is the origin fetched.  A version
/// mismatch on disk is self-healing: it falls through to a reinstall.
pub fn plan_install(
    package: &Package,
    dest_exists: bool,
    disk_version: Option<&String>,
    cache: &GlobalPackageCache,
) -> (r: InstallStep)
    requires
        cache.wf(),
    ensures
        r == spec_plan(
            package@,
            dest_exists,
            match disk_version {
                Some(v) => Some(v@),
                None => None,
            },
            *cache,
        ),
{
    let version: &String = match package {
        Package::Local(_) => {
            return InstallStep::LocalNoop;
        },
        Package::Remote(p) => &p.version,
        Package::Registry(p) => &p.version,
    };
    if dest_exists {
        match disk_version {
            Some(v) => {
                if crate::textutil::str_eq(v.as_str(), version.as_str()) {
                    return InstallStep::AlreadyInstalled;
                }
            },
            None => {},
        }
    }
    if cache.is_cached(package.name(), version.as_str()) {
        InstallStep::CopyFromCache
    } else {
        InstallStep::Fetch
    }
}

/// Running the installer again over a package that is already on disk at
/// its declared version performs no copy and no fetch, whatever the cache
/// holds: a second run with an unchanged manifest and package set is a
/// no-op for every package the first run completed.
pub proof fn lemma_install_idempotent(
    p: PackageModel,
    disk_version: Option<Seq<char>>,
    c: GlobalPackageCache,
)
    requires
        !p.is_local(),
        disk_version == p.version(),
    ensures
        spec_plan(p, true, disk_version, c) == InstallStep::AlreadyInstalled,
{
}

/// The entries kept by pruning: the source directory, a readme variant,
/// and the package manifest file.
pub open spec fn spec_prune_keeps(n: Seq<char>) -> bool {
    n == "src"@ || n == "README.md"@ || n == "readme.md"@ || n == "README"@ || n == "readme"@
        || n == "spago.yaml"@
}

/// The kept entries of a directory listing, in order.
pub open spec fn kept_entries(s: Seq<Seq<char>>) -> Seq<Seq<char>>
    decreases s.len(),
{
    if s.len() == 0 {
        Seq::empty()
    } else {
        let rest = kept_entries(s.drop_last());
        if spec_prune_keeps(s.last()) {
            rest.push(s.last())
        } else {
            rest
        }
    }
}

/// The deleted entries of a directory listing, in order.
pub open spec fn deleted_entries(s: Seq<Seq<char>>) -> Seq<Seq<char>>
    decreases s.len(),
{
    if s.len() == 0 {
        Seq::empty()
    } else {
        let rest = deleted_entries(s.drop_last());
        if spec_prune_keeps(s.last()) {
            rest
        } else {
            rest.push(s.last())
        }
    }
}

/// Whether one directory entry survives pruning.
pub fn prune_keeps(entry_name: &str) -> (r: bool)
    ensures
        r == spec_prune_keeps(entry_name@),
{
    crate::textutil::str_eq(entry_name, "src") || crate::textutil::str_eq(entry_name, "README.md")
        || crate::textutil::str_eq(entry_name, "readme.md") || crate::textutil::str_eq(
        entry_name,
        "README",
    ) || crate::textutil::str_eq(entry_name, "readme") || crate::textutil::str_eq(
        entry_name,
        "spago.yaml",
    )
}

/// Splits a fetched package directory's entries into what pruning keeps
/// and what it deletes: everything outside the allow-list goes.
pub fn prune_plan(entries: &Vec<String>) -> (r: (Vec<String>, Vec<String>))
    ensures
        strs_of(r.0@) == kept_entries(strs_of(entries@)),
        strs_of(r.1@) == deleted_entries(strs_of(entries@)),
{
    let mut keep: Vec<String> = Vec::new();
    let mut delete: Vec<String> = Vec::new();
    let ghost es = strs_of(entries@);
    let mut i: usize = 0;
    while i < entries.len()
        invariant
            0 <= i <= entries@.len(),
            es == strs_of(entries@),
            strs_of(keep@) =~= kept_entries(es.take(i as int)),
            strs_of(delete@) =~= deleted_entries(es.take(i as int)),
        decreases entries@.len() - i,
    {
        proof {
            assert(es.take(i + 1).drop_last() =~= es.take(i as int));
            assert(es.take(i + 1).last() == es[i as int]);
            assert(es[i as int] == entries@[i as int]@);
        }
        let ghost k0 = keep@;
        let ghost d0 = delete@;
        if prune_keeps(entries[i].as_str()) {
            keep.push(entries[i].clone());
            proof {
                assert(strs_of(keep@) =~= strs_of(k0).push(es[i as int]));
            }
        } else {
            delete.push(entries[i].clone());
            proof {
                assert(strs_of(delete@) =~= strs_of(d0).push(es[i as int]));
            }
        }
        i += 1;
    }
    proof {
        assert(es.take(es.len() as int) =~= es);
    }
    (keep, delete)
}

/// A malformed archive: not exactly one top-level directory.
pub enum ArchiveError {
    /// The archive did not contain exactly one top-level entry.
    WrongEntryCount(usize),
    /// The single top-level entry was not a directory.
    NotADirectory,
}

/// Checks the layout of an extracted archive: it must contain exactly one
/// top-level entry, and that entry must be a directory.
pub fn check_archive_layout(entry_count: usize, single_entry_is_dir: bool) -> (r: Result<
    (),
    ArchiveError,
>)
    ensures
        r is Ok <==> entry_count == 1 && single_entry_is_dir,
        entry_count != 1 ==> (r matches Err(e) && e matches ArchiveError::WrongEntryCount(c) && c
            == entry_count),
        entry_count == 1 && !single_entry_is_dir ==> (r matches Err(e) && e
            matches ArchiveError::NotADirectory),
{
    if entry_count != 1 {
        Err(ArchiveError::WrongEntryCount(entry_count))
    } else if !single_entry_is_dir {
        Err(ArchiveError::NotADirectory)
    } else {
        Ok(())
    }
}

/// Manages package installation into the per-project install directory,
/// with the machine-wide cache at hand.
pub struct InstallManager {
    pub spago_dir: String,
    pub global_cache: GlobalPackageCache,
}

impl InstallManager {
    /// A manager for one install directory.
    pub fn new(spago_dir: &str, global_cache: GlobalPackageCache) -> (r: Self)
        ensures
            r.spago_dir@ == spago_dir@,
            r.global_cache == global_cache,
    {
        InstallManager { spago_dir: spago_dir.to_owned(), global_cache }
    }

    /// Collects, into `all_packages`, every package that `package_name`
    /// transitively requires, including itself, marking names processed on
    /// first visit.  The two accumulators hold the same names: everything
    /// collected so far, dependency-closed and fully present in the set.
    /// If any referenced name is absent from the set the computation stops
    /// at once with a terminal not-found error: there is no partial
    /// closure.
    #[verifier::rlimit(100)]
    #[verifier::spinoff_prover]
    pub fn collect_dependencies_recursive(
        &self,
        package_name: &PackageName,
        query: &PackageQuery,
        all_packages: &mut Vec<PackageName>,
        processed: &mut Vec<PackageName>,
    ) -> (r: Result<(), QueryError>)
        requires
            query.wf(),
            distinct_names(old(all_packages)@),
            distinct_names(old(processed)@),
            forall|n: Seq<char>|
                #[trigger] has_name(old(all_packages)@, n) <==> has_name(old(processed)@, n),
            dep_closed(query.pm(), old(all_packages)@),
            forall|n: Seq<char>|
                #[trigger] has_name(old(all_packages)@, n) ==> query.pm().contains_key(n),
        ensures
            match r {
                Ok(_) => {
                    &&& has_name(old(all_packages)@, package_name@) ==> (final(all_packages)@
                        == old(all_packages)@ && final(processed)@ == old(processed)@)
                    &&& distinct_names(final(all_packages)@)
                    &&& distinct_names(final(processed)@)
                    &&& forall|n: Seq<char>|
                        #[trigger] has_name(final(all_packages)@, n) <==> has_name(
                            final(processed)@,
                            n,
                        )
                    &&& dep_closed(query.pm(), final(all_packages)@)
                    &&& forall|n: Seq<char>|
                        #[trigger] has_name(final(all_packages)@, n)
                            ==> query.pm().contains_key(n)
                    &&& forall|n: Seq<char>|
                        #[trigger] has_name(final(all_packages)@, n) <==> has_name(
                            old(all_packages)@,
                            n,
                        ) || reaches(query.pm(), package_name@, n)
                },
                Err(e) => e matches QueryError::NotFoundInSet(m) && !query.pm().contains_key(m@)
                    && reaches(query.pm(), package_name@, m@),
            },
    {
        let ghost pm = query.pm();
        let ghost es = query.package_set.entries();
        let ghost a0 = all_packages@;
        let ghost p0 = processed@;

        if contains_name(all_packages, package_name) {
            proof {
                assert forall|n: Seq<char>| #[trigger]
                    has_name(all_packages@, n) || reaches(pm, package_name@, n) implies has_name(
                    all_packages@,
                    n,
                ) by {
                    if reaches(pm, package_name@, n) {
                        lemma_reaches_stays(pm, package_name@, n, a0);
                    }
                }
                assert forall|n: Seq<char>| #[trigger] has_name(all_packages@, n) implies
                    has_name(all_packages@, n) || reaches(pm, package_name@, n) by {}
            }
            return Ok(());
        }

        let ghost uni = universe_of(es) + names_of(a0) + seq![package_name@];
        proof {
            lemma_universe_covers(es);
            assert(uni[uni.len() - 1] == package_name@);
            assert(uni.contains(package_name@));
            assert forall|n: Seq<char>| #[trigger] has_name(a0, n) implies uni.contains(n) by {
                let j = choose|j: int| 0 <= j < a0.len() && a0[j]@ == n;
                assert(names_of(a0)[j] == n);
                assert(uni[universe_of(es).len() + j] == n);
            }
            assert forall|i: int, d: Seq<char>|
                0 <= i < es.len() && #[trigger] es[i]@.dependencies().contains(d) implies
                uni.contains(d) by {
                let ui = choose|ui: int|
                    0 <= ui < universe_of(es).len() && universe_of(es)[ui] == d;
                assert(uni[ui] == d);
            }
        }

        let mut queue: Vec<PackageName> = Vec::new();
        queue.push(package_name.clone());
        let mut qh: usize = 0;

        proof {
            lemma_reaches_refl(pm, package_name@);
            assert(queue@[0]@ == package_name@);
            assert forall|n: Seq<char>| #[trigger] has_name(queue@, n) implies n
                == package_name@ by {
                let i = choose|i: int| 0 <= i < queue@.len() && queue@[i]@ == n;
                assert(i == 0);
            }
        }

        while qh < queue.len()
            invariant
                query.wf(),
                pm == query.pm(),
                es == query.package_set.entries(),
                uni == universe_of(es) + names_of(a0) + seq![package_name@],
                all_packages@ == a0,
                processed@ == p0,
                distinct_names(a0),
                dep_closed(pm, a0),
                forall|n: Seq<char>| #[trigger] has_name(a0, n) ==> pm.contains_key(n),
                forall|n: Seq<char>| #[trigger] has_name(a0, n) ==> uni.contains(n),
                forall|i: int, d: Seq<char>|
                    0 <= i < es.len() && #[trigger] es[i]@.dependencies().contains(d)
                        ==> uni.contains(d),
                0 <= qh <= queue@.len(),
                queue@.len() >= 1,
                queue@[0]@ == package_name@,
                distinct_names(queue@),
                forall|n: Seq<char>| #[trigger] has_name(queue@, n) ==> !has_name(a0, n),
                forall|n: Seq<char>| #[trigger] has_name(queue@, n) ==> uni.contains(n),
                forall|n: Seq<char>| #[trigger]
                    has_name(queue@, n) ==> reaches(pm, package_name@, n),
                a0.len() + queue@.len() <= uni.len(),
                forall|i: int|
                    0 <= i < qh ==> pm.contains_key(#[trigger] queue@[i]@),
                forall|i: int, d: Seq<char>|
                    #![trigger pm[queue@[i]@].dependencies().contains(d)]
                    0 <= i < qh && pm[queue@[i]@].dependencies().contains(d) ==> has_name(a0, d)
                        || has_name(queue@, d),
            decreases uni.len() - qh,
        {
            let current = queue[qh].clone();
            let ghost curn = current@;
            assert(queue@[qh as int]@ == curn);
            match query.get(&current) {
                None => {
                    proof {
                        assert(has_name(queue@, curn)) by {
                            assert(queue@[qh as int]@ == curn);
                        }
                    }
                    return Err(QueryError::NotFoundInSet(current));
                },
                Some(pkg) => {
                    let deps = pkg.dependencies();
                    let ghost q0 = queue@;
                    let mut k: usize = 0;
                    while k < deps.len()
                        invariant
                            query.wf(),
                            pm == query.pm(),
                            es == query.package_set.entries(),
                            uni == universe_of(es) + names_of(a0) + seq![package_name@],
                            all_packages@ == a0,
                            distinct_names(a0),
                            forall|n: Seq<char>| #[trigger] has_name(a0, n) ==> uni.contains(n),
                            forall|i: int, d: Seq<char>|
                                0 <= i < es.len() && #[trigger] es[i]@.dependencies().contains(d)
                                    ==> uni.contains(d),
                            pm.contains_key(curn),
                            pm[curn] == pkg@,
                            names_of(deps@) == pkg@.dependencies(),
                            0 <= k <= deps@.len(),
                            qh < q0.len(),
                            q0.len() <= queue@.len(),
                            q0 == queue@.subrange(0, q0.len() as int),
                            q0[qh as int]@ == curn,
                            queue@.len() >= 1,
                            queue@[0]@ == package_name@,
                            distinct_names(queue@),
                            forall|n: Seq<char>| #[trigger]
                                has_name(queue@, n) ==> !has_name(a0, n),
                            forall|n: Seq<char>| #[trigger] has_name(queue@, n) ==> uni.contains(n),
                            forall|n: Seq<char>| #[trigger]
                                has_name(queue@, n) ==> reaches(pm, package_name@, n),
                            forall|n: Seq<char>| #[trigger]
                                has_name(q0, n) ==> has_name(queue@, n),
                            a0.len() + queue@.len() <= uni.len(),
                            forall|i: int|
                                0 <= i < qh ==> pm.contains_key(#[trigger] queue@[i]@),
                            forall|i: int, d: Seq<char>|
                                #![trigger pm[queue@[i]@].dependencies().contains(d)]
                                0 <= i < qh && pm[queue@[i]@].dependencies().contains(d)
                                    ==> has_name(a0, d) || has_name(queue@, d),
                            forall|j: int|
                                0 <= j < k ==> has_name(a0, #[trigger] deps@[j]@) || has_name(
                                    queue@,
                                    deps@[j]@,
                                ),
                        decreases deps@.len() - k,
                    {
                        let d = &deps[k];
                        proof {
                            assert(names_of(deps@)[k as int] == deps@[k as int]@);
                            assert(pm[curn].dependencies().contains(deps@[k as int]@));
                            assert(dep_edge(pm, curn, d@));
                            assert(has_name(queue@, curn)) by {
                                assert(q0[qh as int]@ == curn);
                                assert(has_name(q0, curn));
                            }
                            lemma_reaches_step(pm, package_name@, curn, d@);
                            lemma_model_from_entry(es, curn);
                            let ei = choose|ei: int|
                                0 <= ei < es.len() && es[ei]@.name() == curn && pm[curn]
                                    == es[ei]@;
                            assert(es[ei]@.dependencies().contains(d@));
                            assert(uni.contains(d@));
                        }
                        if !contains_name(all_packages, d) && !contains_name(&queue, d) {
                            let ghost qb = queue@;
                            queue.push(d.clone());
                            proof {
                                assert(queue@.drop_last() =~= qb);
                                assert(queue@.last()@ == d@);
                                assert forall|a: int, b: int|
                                    0 <= a < b < queue@.len() implies queue@[a]@
                                    != queue@[b]@ by {
                                    if b < queue@.len() - 1 {
                                        assert(queue@[a] == qb[a] && queue@[b] == qb[b]);
                                    } else {
                                        assert(queue@[a] == qb[a]);
                                        assert(!has_name(qb, d@));
                                        assert(qb[a]@ != d@);
                                    }
                                }
                                assert forall|n: Seq<char>| #[trigger]
                                    has_name(queue@, n) implies (has_name(qb, n) || n == d@) by {
                                    let ii = choose|ii: int|
                                        0 <= ii < queue@.len() && queue@[ii]@ == n;
                                    if ii < qb.len() {
                                        assert(qb[ii]@ == n);
                                    }
                                }
                                assert forall|n: Seq<char>| #[trigger] has_name(qb, n) implies
                                    has_name(queue@, n) by {
                                    let ii = choose|ii: int| 0 <= ii < qb.len() && qb[ii]@ == n;
                                    assert(queue@[ii]@ == n);
                                }
                                assert(q0 =~= queue@.subrange(0, q0.len() as int));
                                let combined = a0 + queue@;
                                assert(distinct_names(combined)) by {
                                    assert forall|a: int, b: int|
                                        0 <= a < b < combined.len() implies combined[a]@
                                        != combined[b]@ by {
                                        if a < a0.len() && b >= a0.len() {
                                            assert(combined[a] == a0[a]);
                                            assert(combined[b] == queue@[b - a0.len()]);
                                            assert(has_name(queue@, queue@[b - a0.len()]@));
                                        } else if a < a0.len() {
                                            assert(combined[a] == a0[a] && combined[b] == a0[b]);
                                        } else {
                                            assert(combined[a] == queue@[a - a0.len()]
                                                && combined[b] == queue@[b - a0.len()]);
                                        }
                                    }
                                }
                                assert forall|ii: int| 0 <= ii < combined.len() implies
                                    uni.contains(#[trigger] combined[ii]@) by {
                                    if ii < a0.len() {
                                        assert(combined[ii] == a0[ii]);
                                        assert(has_name(a0, a0[ii]@));
                                    } else {
                                        assert(combined[ii] == queue@[ii - a0.len()]);
                                        assert(has_name(queue@, queue@[ii - a0.len()]@));
                                    }
                                }
                                lemma_distinct_bound(combined, uni);
                                assert forall|i: int, dd: Seq<char>|
                                    0 <= i < qh && pm[queue@[i]@].dependencies().contains(
                                        dd,
                                    ) implies has_name(a0, dd) || has_name(queue@, dd) by {
                                    assert(queue@[i] == qb[i]);
                                    assert(pm[qb[i]@].dependencies().contains(dd));
                                }
                            }
                        }
                        k += 1;
                    }
                    proof {
                        assert(queue@[qh as int]@ == curn) by {
                            assert(q0[qh as int]@ == curn);
                        }
                        assert forall|i: int, dd: Seq<char>|
                            0 <= i < qh + 1 && pm[queue@[i]@].dependencies().contains(dd) implies
                            has_name(a0, dd) || has_name(queue@, dd) by {
                            if i < qh {
                                assert(pm[queue@[i]@].dependencies().contains(dd));
                            } else {
                                assert(queue@[i]@ == curn);
                                assert(pm[curn].dependencies() == names_of(deps@));
                                let j = choose|j: int|
                                    0 <= j < pm[curn].dependencies().len() && pm[
                                        curn
                                    ].dependencies()[j] == dd;
                                assert(names_of(deps@)[j] == deps@[j]@);
                                assert(deps@[j]@ == dd);
                            }
                        }
                        assert forall|i: int| 0 <= i < qh + 1 implies pm.contains_key(
                            #[trigger] queue@[i]@,
                        ) by {
                            if i == qh {
                                assert(queue@[i]@ == curn);
                            }
                        }
                    }
                },
            }
            qh += 1;
        }

        // Everything reachable is now in the queue or already collected:
        // append the queue to both accumulators.
        let ghost qfin = queue@;
        proof {
            assert(qh == qfin.len());
        }
        let mut i: usize = 0;
        while i < queue.len()
            invariant
                queue@ == qfin,
                0 <= i <= qfin.len(),
                all_packages@ =~= a0 + qfin.subrange(0, i as int),
                processed@ =~= p0 + qfin.subrange(0, i as int),
            decreases qfin.len() - i,
        {
            all_packages.push(queue[i].clone());
            processed.push(queue[i].clone());
            proof {
                assert(all_packages@ =~= a0 + qfin.subrange(0, i + 1));
                assert(processed@ =~= p0 + qfin.subrange(0, i + 1));
            }
            i += 1;
        }
        proof {
            assert(qfin.subrange(0, qfin.len() as int) =~= qfin);
            let af = all_packages@;
            let pf = processed@;
            assert(af =~= a0 + qfin);
            assert(pf =~= p0 + qfin);
            lemma_append_facts(a0, qfin, af);
            lemma_append_facts(p0, qfin, pf);
            // Distinctness of the concatenation.
            assert(distinct_names(af)) by {
                assert forall|a: int, b: int| 0 <= a < b < af.len() implies af[a]@ != af[b]@ by {
                    if a < a0.len() && b >= a0.len() {
                        assert(af[a] == a0[a] && af[b] == qfin[b - a0.len()]);
                        assert(has_name(qfin, qfin[b - a0.len()]@));
                        assert(has_name(a0, a0[a]@));
                    } else if a < a0.len() {
                        assert(af[a] == a0[a] && af[b] == a0[b]);
                    } else {
                        assert(af[a] == qfin[a - a0.len()] && af[b] == qfin[b - a0.len()]);
                    }
                }
            }
            assert(distinct_names(pf)) by {
                assert forall|a: int, b: int| 0 <= a < b < pf.len() implies pf[a]@ != pf[b]@ by {
                    if a < p0.len() && b >= p0.len() {
                        assert(pf[a] == p0[a] && pf[b] == qfin[b - p0.len()]);
                        assert(has_name(qfin, qfin[b - p0.len()]@));
                        assert(has_name(p0, p0[a]@));
                        assert(has_name(a0, p0[a]@));
                    } else if a < p0.len() {
                        assert(pf[a] == p0[a] && pf[b] == p0[b]);
                    } else {
                        assert(pf[a] == qfin[a - p0.len()] && pf[b] == qfin[b - p0.len()]);
                    }
                }
            }
            // The closure property of the result.
            assert(dep_closed(pm, af)) by {
                assert forall|ii: int, d: Seq<char>|
                    0 <= ii < af.len() && pm.contains_key(af[ii]@) && #[trigger] pm[
                        af[ii]@
                    ].dependencies().contains(d) implies has_name(af, d) by {
                    if ii < a0.len() {
                        assert(af[ii] == a0[ii]);
                        assert(pm[a0[ii]@].dependencies().contains(d));
                        assert(has_name(a0, d));
                    } else {
                        assert(af[ii] == qfin[ii - a0.len()]);
                        assert(pm[qfin[ii - a0.len()]@].dependencies().contains(d));
                        assert(has_name(a0, d) || has_name(qfin, d));
                    }
                }
            }
            // Everything collected is present in the set.
            assert forall|n: Seq<char>| #[trigger] has_name(af, n) implies pm.contains_key(
                n,
            ) by {
                if !has_name(a0, n) {
                    assert(has_name(qfin, n));
                    let ii = choose|ii: int| 0 <= ii < qfin.len() && qfin[ii]@ == n;
                }
            }
            // The membership characterisation.
            assert(has_name(af, package_name@)) by {
                assert(qfin[0]@ == package_name@);
                assert(has_name(qfin, package_name@));
            }
            assert forall|n: Seq<char>| #[trigger] has_name(af, n) implies has_name(a0, n)
                || reaches(pm, package_name@, n) by {
                if !has_name(a0, n) {
                    assert(has_name(qfin, n));
                }
            }
            assert forall|n: Seq<char>|
                has_name(a0, n) || reaches(pm, package_name@, n) implies has_name(af, n) by {
                if has_name(a0, n) {
                } else {
                    lemma_reaches_stays(pm, package_name@, n, af);
                }
            }
        }
        Ok(())
    }
}

/// Membership in an appended name list comes from either part, and both
/// parts survive into the whole.
proof fn lemma_append_facts(a: Seq<PackageName>, b: Seq<PackageName>, c: Seq<PackageName>)
    requires
        c == a + b,
    ensures
        forall|n: Seq<char>| #[trigger] has_name(c, n) <==> has_name(a, n) || has_name(b, n),
{
    assert forall|n: Seq<char>| #[trigger] has_name(c, n) implies has_name(a, n) || has_name(
        b,
        n,
    ) by {
        let i = choose|i: int| 0 <= i < c.len() && c[i]@ == n;
        if i < a.len() {
            assert(a[i]@ == n);
        } else {
            assert(b[i - a.len()]@ == n);
        }
    }
    assert forall|n: Seq<char>| has_name(a, n) || has_name(b, n) implies has_name(c, n) by {
        if has_name(a, n) {
            let i = choose|i: int| 0 <= i < a.len() && a[i]@ == n;
            assert(c[i]@ == n);
        } else {
            let i = choose|i: int| 0 <= i < b.len() && b[i]@ == n;
            assert(c[a.len() + i]@ == n);
        }
    }
}

/// For every direct dependency, every name it transitively reaches is in
/// the closure computed over the whole direct-dependency list: the closure
/// covers each root's own transitive dependencies.
pub proof fn lemma_closure_covers_transitive(
    pm: Map<Seq<char>, PackageModel>,
    roots: Seq<Seq<char>>,
    p: Seq<char>,
    q: Seq<char>,
)
    requires
        roots.contains(p),
        reaches(pm, p, q),
    ensures
        reaches_any(pm, roots, q),
{
}


/// Appends every name of `src` to `dst`, in order.
pub fn append_names(dst: &mut Vec<PackageName>, src: Vec<PackageName>)
    ensures
        final(dst)@ == old(dst)@ + src@,
{
    let ghost d0 = dst@;
    let ghost ss = src@;
    let mut i: usize = 0;
    let mut src = src;
    while i < src.len()
        invariant
            src@ == ss,
            0 <= i <= ss.len(),
            dst@ =~= d0 + ss.subrange(0, i as int),
        decreases ss.len() - i,
    {
        dst.push(src[i].clone());
        proof {
            assert(dst@ =~= d0 + ss.subrange(0, i + 1));
        }
        i += 1;
    }
    proof {
        assert(ss.subrange(0, ss.len() as int) =~= ss);
        assert(dst@ =~= d0 + ss);
    }
}

/// A name is a direct install target: a declared dependency of the
/// manifest; at a workspace root also every workspace member's name and
/// dependencies; and, when test dependencies are included, the manifest's
/// test dependencies and, at a root, the workspace members' test
/// dependencies.
pub open spec fn is_direct_target(
    config: &SpagoConfig,
    es: Seq<Package>,
    include_test_deps: bool,
    n: Seq<char>,
) -> bool {
    ||| names_of(config.package.dependencies@).contains(n)
    ||| (!config.workspace.is_nested && is_ws_dep(es, n))
    ||| (include_test_deps && crate::config::spec_test_dep_names(config).contains(n))
    ||| (include_test_deps && !config.workspace.is_nested && crate::query::ws_test_deps_in(
        es,
    ).contains(n))
}

/// A name belongs in the install closure: some direct target reaches it.
pub open spec fn in_install_closure(
    config: &SpagoConfig,
    es: Seq<Package>,
    include_test_deps: bool,
    pm: Map<Seq<char>, PackageModel>,
    n: Seq<char>,
) -> bool {
    exists|rv: Seq<char>|
        #[trigger] is_direct_target(config, es, include_test_deps, rv) && reaches(pm, rv, n)
}

/// A name that cleanup still has to satisfy directly: a remaining declared
/// dependency of the manifest, or a workspace member or its dependency.
pub open spec fn is_cleanup_root(config: &SpagoConfig, es: Seq<Package>, rv: Seq<char>) -> bool {
    names_of(config.package.dependencies@).contains(rv) || is_ws_dep(es, rv)
}

/// A name is still required after a manifest change: reachable from a
/// remaining declared dependency or from a workspace member.
pub open spec fn cleanup_keeps(
    config: &SpagoConfig,
    es: Seq<Package>,
    pm: Map<Seq<char>, PackageModel>,
    n: Seq<char>,
) -> bool {
    exists|rv: Seq<char>| #[trigger] is_cleanup_root(config, es, rv) && reaches(pm, rv, n)
}

/// The directories a cleanup run deletes: everything present that no
/// remaining requirement still needs, in listing order.
pub open spec fn spec_removed_dirs(
    config: &SpagoConfig,
    es: Seq<Package>,
    pm: Map<Seq<char>, PackageModel>,
    dirs: Seq<Seq<char>>,
) -> Seq<Seq<char>>
    decreases dirs.len(),
{
    if dirs.len() == 0 {
        Seq::empty()
    } else {
        let rest = spec_removed_dirs(config, es, pm, dirs.drop_last());
        if cleanup_keeps(config, es, pm, dirs.last()) {
            rest
        } else {
            rest.push(dirs.last())
        }
    }
}

impl InstallManager {
    /// The names of every package that a batch install must cover: the
    /// dependency closure of all direct targets, dependency-first ready.
    /// Stops with a terminal not-found error as soon as any referenced
    /// name is absent from the set.
    #[verifier::rlimit(60)]
    #[verifier::spinoff_prover]
    pub fn install_targets(
        &self,
        config: &SpagoConfig,
        query: &PackageQuery,
        include_test_deps: bool,
    ) -> (r: Result<Vec<PackageName>, QueryError>)
        requires
            query.wf(),
        ensures
            match r {
                Ok(c) => {
                    &&& distinct_names(c@)
                    &&& forall|n: Seq<char>|
                        #[trigger] has_name(c@, n) ==> query.pm().contains_key(n)
                    &&& dep_closed(query.pm(), c@)
                    &&& forall|n: Seq<char>|
                        #[trigger] has_name(c@, n) <==> in_install_closure(
                            config,
                            query.package_set.entries(),
                            include_test_deps,
                            query.pm(),
                            n,
                        )
                },
                Err(e) => e matches QueryError::NotFoundInSet(m) && !query.pm().contains_key(m@)
                    && in_install_closure(
                    config,
                    query.package_set.entries(),
                    include_test_deps,
                    query.pm(),
                    m@,
                ),
            },
    {
        let ghost pm = query.pm();
        let ghost es = query.package_set.entries();

        let mut roots = config.package_dependencies();
        let ghost r1 = roots@;
        proof {
            assert forall|n: Seq<char>| #[trigger] has_name(roots@, n) <==> names_of(
                config.package.dependencies@,
            ).contains(n) by {
                crate::name::lemma_names_contains(roots@, n);
            }
        }
        if config.is_workspace_root() {
            let ws = query.all_workspace_dependencies();
            let ghost wsv = ws@;
            append_names(&mut roots, ws);
            proof {
                lemma_append_facts(r1, wsv, roots@);
                assert forall|n: Seq<char>| #[trigger] has_name(roots@, n) <==> (names_of(
                    config.package.dependencies@,
                ).contains(n) || (!config.workspace.is_nested && is_ws_dep(es, n))) by {
                    crate::name::lemma_names_contains(r1, n);
                }
            }
        } else {
            proof {
                assert forall|n: Seq<char>| #[trigger] has_name(roots@, n) <==> (names_of(
                    config.package.dependencies@,
                ).contains(n) || (!config.workspace.is_nested && is_ws_dep(es, n))) by {
                    crate::name::lemma_names_contains(roots@, n);
                }
            }
        }
        let ghost r2 = roots@;
        if include_test_deps {
            let tds = config.test_dependencies();
            let ghost tdsv = tds@;
            append_names(&mut roots, tds);
            proof {
                lemma_append_facts(r2, tdsv, roots@);
                assert forall|n: Seq<char>| #[trigger] has_name(roots@, n) <==> (has_name(r2, n)
                    || (include_test_deps && crate::config::spec_test_dep_names(config).contains(
                    n,
                ))) by {
                    crate::name::lemma_names_contains(tdsv, n);
                }
            }
            let ghost r3 = roots@;
            if config.is_workspace_root() {
                let wstds = query.all_workspace_test_dependencies();
                let ghost wstdsv = wstds@;
                append_names(&mut roots, wstds);
                proof {
                    lemma_append_facts(r3, wstdsv, roots@);
                    assert forall|n: Seq<char>| #[trigger] has_name(roots@, n)
                        <==> is_direct_target(config, es, include_test_deps, n) by {
                        crate::name::lemma_names_contains(wstdsv, n);
                    }
                }
            } else {
                proof {
                    assert forall|n: Seq<char>| #[trigger] has_name(roots@, n)
                        <==> is_direct_target(config, es, include_test_deps, n) by {}
                }
            }
        } else {
            proof {
                assert forall|n: Seq<char>| #[trigger] has_name(roots@, n) <==> is_direct_target(
                    config,
                    es,
                    include_test_deps,
                    n,
                ) by {}
            }
        }
        let ghost target_pred = |n: Seq<char>| is_direct_target(config, es, include_test_deps, n);
        let res = self.closure_of_roots(&roots, query, Ghost(target_pred));
        proof {
            match &res {
                Ok(c) => {
                    assert forall|n: Seq<char>| #[trigger] has_name(c@, n) implies
                        in_install_closure(config, es, include_test_deps, pm, n) by {
                        let rv = choose|rv: Seq<char>|
                            #[trigger] target_pred(rv) && reaches(pm, rv, n);
                        assert(is_direct_target(config, es, include_test_deps, rv) && reaches(
                            pm,
                            rv,
                            n,
                        ));
                    }
                    assert forall|n: Seq<char>|
                        in_install_closure(config, es, include_test_deps, pm, n) implies
                        has_name(c@, n) by {
                        let rv = choose|rv: Seq<char>|
                            #[trigger] is_direct_target(config, es, include_test_deps, rv)
                                && reaches(pm, rv, n);
                        assert(target_pred(rv) && reaches(pm, rv, n));
                    }
                },
                Err(e) => {
                    let m = (*e)->NotFoundInSet_0;
                    let rv = choose|rv: Seq<char>|
                        #[trigger] target_pred(rv) && reaches(pm, rv, m@);
                    assert(is_direct_target(config, es, include_test_deps, rv) && reaches(
                        pm,
                        rv,
                        m@,
                    ));
                },
            }
        }
        res
    }

    /// The dependency closure of a root list: every root and everything
    /// any root reaches, each name once, or the first absent name found.
    #[verifier::rlimit(60)]
    #[verifier::spinoff_prover]
    fn closure_of_roots(
        &self,
        roots: &Vec<PackageName>,
        query: &PackageQuery,
        pred: Ghost<spec_fn(Seq<char>) -> bool>,
    ) -> (r: Result<Vec<PackageName>, QueryError>)
        requires
            query.wf(),
            forall|n: Seq<char>| #[trigger] has_name(roots@, n) <==> pred@(n),
        ensures
            match r {
                Ok(c) => {
                    &&& distinct_names(c@)
                    &&& forall|n: Seq<char>|
                        #[trigger] has_name(c@, n) ==> query.pm().contains_key(n)
                    &&& dep_closed(query.pm(), c@)
                    &&& forall|n: Seq<char>|
                        #[trigger] has_name(c@, n) <==> exists|rv: Seq<char>|
                            #[trigger] pred@(rv) && reaches(query.pm(), rv, n)
                },
                Err(e) => e matches QueryError::NotFoundInSet(m) && !query.pm().contains_key(m@)
                    && exists|rv: Seq<char>| #[trigger] pred@(rv) && reaches(query.pm(), rv, m@),
            },
    {
        let ghost pm = query.pm();
        let mut all: Vec<PackageName> = Vec::new();
        let mut processed: Vec<PackageName> = Vec::new();
        let mut i: usize = 0;
        while i < roots.len()
            invariant
                query.wf(),
                pm == query.pm(),
                forall|n: Seq<char>| #[trigger] has_name(roots@, n) <==> pred@(n),
                0 <= i <= roots@.len(),
                distinct_names(all@),
                distinct_names(processed@),
                forall|n: Seq<char>|
                    #[trigger] has_name(all@, n) <==> has_name(processed@, n),
                dep_closed(pm, all@),
                forall|n: Seq<char>| #[trigger] has_name(all@, n) ==> pm.contains_key(n),
                forall|n: Seq<char>|
                    #[trigger] has_name(all@, n) <==> exists|j: int|
                        0 <= j < i && reaches(pm, roots@[j]@, n),
            decreases roots@.len() - i,
        {
            let ghost a0 = all@;
            match self.collect_dependencies_recursive(&roots[i], query, &mut all, &mut processed) {
                Ok(_) => {},
                Err(e) => {
                    proof {
                        assert(has_name(roots@, roots@[i as int]@));
                        assert(pred@(roots@[i as int]@));
                    }
                    return Err(e);
                },
            }
            proof {
                assert forall|n: Seq<char>| #[trigger] has_name(all@, n) implies exists|j: int|
                    0 <= j < i + 1 && reaches(pm, roots@[j]@, n) by {
                    if has_name(a0, n) {
                        let j = choose|j: int| 0 <= j < i && reaches(pm, roots@[j]@, n);
                        assert(0 <= j < i + 1 && reaches(pm, roots@[j]@, n));
                    } else {
                        assert(reaches(pm, roots@[i as int]@, n));
                    }
                }
                assert forall|n: Seq<char>|
                    (exists|j: int| 0 <= j < i + 1 && reaches(pm, roots@[j]@, n)) implies
                    has_name(all@, n) by {
                    let j = choose|j: int| 0 <= j < i + 1 && reaches(pm, roots@[j]@, n);
                    if j < i {
                        assert(has_name(a0, n));
                    }
                }
            }
            i += 1;
        }
        proof {
            assert forall|n: Seq<char>| #[trigger] has_name(all@, n) implies exists|rv: Seq<char>|
                #[trigger] pred@(rv) && reaches(pm, rv, n) by {
                let j = choose|j: int| 0 <= j < roots@.len() && reaches(pm, roots@[j]@, n);
                assert(has_name(roots@, roots@[j]@));
                assert(pred@(roots@[j]@) && reaches(pm, roots@[j]@, n));
            }
            assert forall|n: Seq<char>|
                (exists|rv: Seq<char>| #[trigger] pred@(rv) && reaches(pm, rv, n)) implies
                has_name(all@, n) by {
                let rv = choose|rv: Seq<char>| #[trigger] pred@(rv) && reaches(pm, rv, n);
                assert(has_name(roots@, rv));
                let j = choose|j: int| 0 <= j < roots@.len() && roots@[j]@ == rv;
                assert(reaches(pm, roots@[j]@, n));
            }
        }
        Ok(all)
    }
}

/// Recomputes what the manifest still requires and deletes every package
/// directory that is present but no longer needed.  A directory is removed
/// exactly when no remaining direct dependency and no workspace member
/// still reaches it; the global cache is left untouched.
#[verifier::rlimit(60)]
#[verifier::spinoff_prover]
pub fn cleanup_unused_packages(
    config: &SpagoConfig,
    package_set: &PackageSet,
    installed_dirs: &Vec<String>,
    manager: &InstallManager,
) -> (r: Result<Vec<String>, QueryError>)
    requires
        package_set.wf(),
    ensures
        match r {
            Ok(removed) => strs_of(removed@) == spec_removed_dirs(
                config,
                package_set.entries(),
                package_set@,
                strs_of(installed_dirs@),
            ),
            Err(e) => e matches QueryError::NotFoundInSet(m) && !package_set@.contains_key(m@)
                && cleanup_keeps(config, package_set.entries(), package_set@, m@),
        },
{
    let query = PackageQuery::new(package_set);
    let ghost pm = package_set@;
    let ghost es = package_set.entries();

    let mut roots = config.package_dependencies();
    let ghost r1 = roots@;
    let ws = query.all_workspace_dependencies();
    let ghost wsv = ws@;
    append_names(&mut roots, ws);
    proof {
        lemma_append_facts(r1, wsv, roots@);
        assert forall|n: Seq<char>| #[trigger] has_name(roots@, n) <==> is_cleanup_root(
            config,
            es,
            n,
        ) by {
            crate::name::lemma_names_contains(r1, n);
        }
    }

    let ghost keep_pred = |n: Seq<char>| is_cleanup_root(config, es, n);
    let required = match manager.closure_of_roots(&roots, &query, Ghost(keep_pred)) {
        Ok(c) => c,
        Err(e) => {
            proof {
                let m = e->NotFoundInSet_0;
                let rv = choose|rv: Seq<char>| #[trigger] keep_pred(rv) && reaches(pm, rv, m@);
                assert(is_cleanup_root(config, es, rv) && reaches(pm, rv, m@));
            }
            return Err(e);
        },
    };
    proof {
        assert forall|n: Seq<char>| #[trigger] has_name(required@, n) implies cleanup_keeps(
            config,
            es,
            pm,
            n,
        ) by {
            let rv = choose|rv: Seq<char>| #[trigger] keep_pred(rv) && reaches(pm, rv, n);
            assert(is_cleanup_root(config, es, rv) && reaches(pm, rv, n));
        }
        assert forall|n: Seq<char>| cleanup_keeps(config, es, pm, n) implies has_name(
            required@,
            n,
        ) by {
            let rv = choose|rv: Seq<char>|
                #[trigger] is_cleanup_root(config, es, rv) && reaches(pm, rv, n);
            assert(keep_pred(rv) && reaches(pm, rv, n));
        }
    }

    let ghost dirs = strs_of(installed_dirs@);
    let mut removed: Vec<String> = Vec::new();
    let mut i: usize = 0;
    while i < installed_dirs.len()
        invariant
            package_set.wf(),
            pm == package_set@,
            es == package_set.entries(),
            dirs == strs_of(installed_dirs@),
            0 <= i <= dirs.len(),
            forall|n: Seq<char>|
                #[trigger] has_name(required@, n) <==> cleanup_keeps(config, es, pm, n),
            dirs.len() == installed_dirs@.len(),
            strs_of(removed@) =~= spec_removed_dirs(config, es, pm, dirs.take(i as int)),
        decreases dirs.len() - i,
    {
        proof {
            assert(dirs.take(i + 1).drop_last() =~= dirs.take(i as int));
            assert(dirs.take(i + 1).last() == dirs[i as int]);
            assert(dirs[i as int] == installed_dirs@[i as int]@);
        }
        let dir_name = PackageName::new(installed_dirs[i].as_str());
        let ghost rm0 = removed@;
        if !contains_name(&required, &dir_name) {
            removed.push(installed_dirs[i].clone());
            proof {
                assert(strs_of(removed@) =~= strs_of(rm0).push(dirs[i as int]));
            }
        }
        i += 1;
    }
    proof {
        assert(dirs.take(dirs.len() as int) =~= dirs);
    }
    Ok(removed)
}

} // verus!
