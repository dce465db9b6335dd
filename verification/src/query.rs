//! The dependency query engine: read-only graph algorithms over a borrowed
//! package set.

use vstd::prelude::*;

use crate::errors::QueryError;
use crate::graph::{
    dep_closed, dep_edge, is_dep_path, lemma_distinct_bound, lemma_first_exit,
    lemma_model_from_entry, lemma_reaches_refl, lemma_reaches_stays, lemma_reaches_step,
    lemma_universe_covers, lemma_within_mono, lemma_within_prefix, lemma_within_refl,
    lemma_within_step, reaches, universe_of, within,
};
use crate::name::{contains_name, distinct_names, has_name, names_of, push_unique, PackageName};
use crate::package::{LocalPackage, Package, PackageModel, PackageSet};

verus! {

/// Read-only query interface for looking packages up in a package set.
pub struct PackageQuery<'a> {
    pub package_set: &'a PackageSet,
}

/// The packages among the views of `ds` that are present in `pm`, keeping
/// the order of `ds` and silently dropping absent names.
pub open spec fn present_deps(
    pm: Map<Seq<char>, PackageModel>,
    ds: Seq<Seq<char>>,
) -> Seq<PackageModel>
    decreases ds.len(),
{
    if ds.len() == 0 {
        Seq::empty()
    } else {
        let rest = present_deps(pm, ds.drop_last());
        if pm.contains_key(ds.last()) {
            rest.push(pm[ds.last()])
        } else {
            rest
        }
    }
}

/// The entries of `s`, in order, whose dependency lists name `n`.
pub open spec fn dependents_in(s: Seq<Package>, n: Seq<char>) -> Seq<PackageModel>
    decreases s.len(),
{
    if s.len() == 0 {
        Seq::empty()
    } else {
        let rest = dependents_in(s.drop_last(), n);
        if s.last()@.dependencies().contains(n) {
            rest.push(s.last()@)
        } else {
            rest
        }
    }
}

/// The local packages among the entries of `s`, in order.
pub open spec fn locals_in(s: Seq<Package>) -> Seq<crate::package::LocalModel>
    decreases s.len(),
{
    if s.len() == 0 {
        Seq::empty()
    } else {
        let rest = locals_in(s.drop_last());
        match s.last()@ {
            PackageModel::Local(lm) => rest.push(lm),
            _ => rest,
        }
    }
}

/// Every local entry of `s` appears among the collected local packages.
pub proof fn lemma_locals_in_complete(s: Seq<Package>)
    ensures
        forall|i: int|
            0 <= i < s.len() && (#[trigger] s[i])@.is_local() ==> locals_in(s).contains(
                s[i]@->Local_0,
            ),
    decreases s.len(),
{
    if s.len() > 0 {
        let t = s.drop_last();
        lemma_locals_in_complete(t);
        assert forall|i: int|
            0 <= i < s.len() && (#[trigger] s[i])@.is_local() implies locals_in(s).contains(
            s[i]@->Local_0,
        ) by {
            if i < s.len() - 1 {
                assert(t[i] == s[i]);
                assert(locals_in(t).contains(t[i]@->Local_0));
                let w = choose|w: int|
                    0 <= w < locals_in(t).len() && locals_in(t)[w] == t[i]@->Local_0;
                assert(locals_in(s)[w] == t[i]@->Local_0);
            } else {
                assert(locals_in(s).last() == s[i]@->Local_0);
            }
        }
    }
}

/// Every collected local package is the image of some local entry.
pub proof fn lemma_locals_in_sound(s: Seq<Package>)
    ensures
        forall|j: int|
            #![trigger locals_in(s)[j]]
            0 <= j < locals_in(s).len() ==> exists|i: int|
                0 <= i < s.len() && (#[trigger] s[i])@.is_local() && s[i]@->Local_0
                    == locals_in(s)[j],
    decreases s.len(),
{
    if s.len() > 0 {
        let t = s.drop_last();
        lemma_locals_in_sound(t);
        assert forall|j: int|
            #![trigger locals_in(s)[j]]
            0 <= j < locals_in(s).len() implies exists|i: int|
            0 <= i < s.len() && (#[trigger] s[i])@.is_local() && s[i]@->Local_0 == locals_in(
                s,
            )[j] by {
            if j < locals_in(t).len() {
                assert(locals_in(s)[j] == locals_in(t)[j]);
                let i = choose|i: int|
                    0 <= i < t.len() && (#[trigger] t[i])@.is_local() && t[i]@->Local_0
                        == locals_in(t)[j];
                assert(s[i] == t[i]);
                assert(s[i]@.is_local() && s[i]@->Local_0 == locals_in(s)[j]);
            } else {
                let w = s.len() - 1;
                assert(s[w]@.is_local());
                assert(locals_in(s)[j] == locals_in(s).last());
                assert(s[w]@->Local_0 == locals_in(s)[j]);
            }
        }
    }
}

/// The concatenation of the test-dependency names of the local entries of
/// `s`, in order.
pub open spec fn ws_test_deps_in(s: Seq<Package>) -> Seq<Seq<char>>
    decreases s.len(),
{
    if s.len() == 0 {
        Seq::empty()
    } else {
        let rest = ws_test_deps_in(s.drop_last());
        match s.last()@ {
            PackageModel::Local(lm) => rest + lm.test_dependencies,
            _ => rest,
        }
    }
}

/// A name is a workspace dependency when some local entry either carries it
/// as its own name or lists it as a dependency.
pub open spec fn is_ws_dep(s: Seq<Package>, n: Seq<char>) -> bool {
    exists|i: int|
        0 <= i < s.len() && #[trigger] s[i]@.is_local() && (s[i]@.name() == n
            || s[i]@.dependencies().contains(n))
}

/// The name stream a workspace scan walks: for each local entry, in
/// order, the package's own name followed by its dependency names.
pub open spec fn ws_root_stream(s: Seq<Package>) -> Seq<PackageName>
    decreases s.len(),
{
    if s.len() == 0 {
        Seq::empty()
    } else {
        let rest = ws_root_stream(s.drop_last());
        match s.last() {
            Package::Local(lp) => rest + seq![lp.name] + lp.dependencies@,
            _ => rest,
        }
    }
}

/// The workspace name stream holds exactly the workspace dependencies.
pub proof fn lemma_ws_stream_set(s: Seq<Package>)
    ensures
        forall|m: Seq<char>|
            #[trigger] names_of(ws_root_stream(s)).contains(m) <==> is_ws_dep(s, m),
    decreases s.len(),
{
    if s.len() > 0 {
        let t = s.drop_last();
        lemma_ws_stream_set(t);
        let w = s.len() - 1;
        match s.last() {
            Package::Local(lp) => {
                let a = ws_root_stream(t);
                let b = seq![lp.name];
                let c = lp.dependencies@;
                crate::name::lemma_names_of_app(a + b, c);
                crate::name::lemma_names_of_app(a, b);
                assert forall|m: Seq<char>|
                    #[trigger] names_of(ws_root_stream(s)).contains(m) implies is_ws_dep(
                    s,
                    m,
                ) by {
                    crate::graph::lemma_app_contains_iff(names_of(a + b), names_of(c), m);
                    crate::graph::lemma_app_contains_iff(names_of(a), names_of(b), m);
                    if names_of(a).contains(m) {
                        assert(is_ws_dep(t, m));
                        let k = choose|k: int|
                            0 <= k < t.len() && (#[trigger] t[k])@.is_local() && (t[k]@.name()
                                == m || t[k]@.dependencies().contains(m));
                        assert(s[k] == t[k]);
                    } else if names_of(b).contains(m) {
                        assert(names_of(b)[0] == lp.name@);
                        assert(m == lp.name@);
                        assert(s[w]@.is_local() && s[w]@.name() == m);
                    } else {
                        let j = choose|j: int| 0 <= j < names_of(c).len() && names_of(c)[j] == m;
                        assert(c[j]@ == m);
                        assert(s[w]@.dependencies() == names_of(c));
                        assert(s[w]@.is_local() && s[w]@.dependencies().contains(m));
                    }
                }
                assert forall|m: Seq<char>| is_ws_dep(s, m) implies names_of(
                    ws_root_stream(s),
                ).contains(m) by {
                    crate::graph::lemma_app_contains_iff(names_of(a + b), names_of(c), m);
                    crate::graph::lemma_app_contains_iff(names_of(a), names_of(b), m);
                    let k = choose|k: int|
                        0 <= k < s.len() && (#[trigger] s[k])@.is_local() && (s[k]@.name() == m
                            || s[k]@.dependencies().contains(m));
                    if k < w {
                        assert(t[k] == s[k]);
                        assert(is_ws_dep(t, m));
                        assert(names_of(a).contains(m));
                    } else {
                        if s[k]@.name() == m {
                            assert(names_of(b)[0] == lp.name@);
                            assert(names_of(b).contains(m));
                        } else {
                            assert(s[k]@.dependencies() == names_of(c));
                            let j = choose|j: int|
                                0 <= j < names_of(c).len() && names_of(c)[j] == m;
                            assert(names_of(c).contains(m));
                        }
                    }
                }
            },
            _ => {
                assert(ws_root_stream(s) == ws_root_stream(t));
                assert forall|m: Seq<char>|
                    #[trigger] names_of(ws_root_stream(s)).contains(m) implies is_ws_dep(
                    s,
                    m,
                ) by {
                    assert(is_ws_dep(t, m));
                    let k = choose|k: int|
                        0 <= k < t.len() && (#[trigger] t[k])@.is_local() && (t[k]@.name() == m
                            || t[k]@.dependencies().contains(m));
                    assert(s[k] == t[k]);
                }
                assert forall|m: Seq<char>| is_ws_dep(s, m) implies names_of(
                    ws_root_stream(s),
                ).contains(m) by {
                    let k = choose|k: int|
                        0 <= k < s.len() && (#[trigger] s[k])@.is_local() && (s[k]@.name() == m
                            || s[k]@.dependencies().contains(m));
                    assert(k != w);
                    assert(t[k] == s[k]);
                    assert(is_ws_dep(t, m));
                }
            },
        }
    }
}

/// The views of a sequence of borrowed packages.
pub open spec fn models_of(s: Seq<&Package>) -> Seq<PackageModel> {
    s.map_values(|p: &Package| p@)
}

/// What a successful transitive-dependency query returns: exactly the
/// packages of the set, other than the root, whose names the root reaches,
/// each once, each paired with its mapped value, listed in discovery
/// (level) order — every step bound that admits a later element admits
/// each earlier one, so shortest dependency distance from the root never
/// decreases along the list.  This is not a valid install order.
pub open spec fn transitive_result_ok(
    pm: Map<Seq<char>, PackageModel>,
    root: Seq<char>,
    v: Seq<&Package>,
) -> bool {
    &&& forall|j: int|
        0 <= j < v.len() ==> {
            &&& #[trigger] v[j]@.name() != root
            &&& pm.contains_key(v[j]@.name())
            &&& v[j]@ == pm[v[j]@.name()]
            &&& reaches(pm, root, v[j]@.name())
        }
    &&& forall|q: Seq<char>|
        reaches(pm, root, q) && pm.contains_key(q) && q != root ==> exists|j: int|
            0 <= j < v.len() && #[trigger] v[j]@.name() == q
    &&& forall|j1: int, j2: int| 0 <= j1 < j2 < v.len() ==> v[j1]@.name() != v[j2]@.name()
    &&& forall|j1: int, j2: int, k: int|
        #![trigger within(pm, root, v[j2]@.name(), k), v[j1]]
        0 <= j1 <= j2 < v.len() && within(pm, root, v[j2]@.name(), k) ==> within(
            pm,
            root,
            v[j1]@.name(),
            k,
        )
}

impl<'a> PackageQuery<'a> {
    /// The mapping that the underlying package set denotes.
    pub open spec fn pm(&self) -> Map<Seq<char>, PackageModel> {
        self.package_set@
    }

    /// The query interface is usable: the set it borrows is well-formed.
    pub open spec fn wf(&self) -> bool {
        self.package_set.wf()
    }

    /// Creates a new query interface for a package set.
    pub fn new(package_set: &'a PackageSet) -> (r: Self)
        ensures
            r.package_set == package_set,
    {
        PackageQuery { package_set }
    }

    /// Gets a specific package by name.
    pub fn get(&self, name: &PackageName) -> (r: Option<&'a Package>)
        requires
            self.wf(),
        ensures
            match r {
                Some(p) => self.pm().contains_key(name@) && p@ == self.pm()[name@],
                None => !self.pm().contains_key(name@),
            },
    {
        self.package_set.get(name)
    }

    /// Whether a package of this name exists in the set.
    pub fn has_package(&self, name: &PackageName) -> (r: bool)
        requires
            self.wf(),
        ensures
            r == self.pm().contains_key(name@),
    {
        self.package_set.contains_key(name)
    }

    /// The local workspace packages, in entry order.
    #[verifier::loop_isolation(false)]
    pub fn local_packages(&self) -> (r: Vec<&'a LocalPackage>)
        requires
            self.wf(),
        ensures
            r@.map_values(|p: &LocalPackage| p@) == locals_in(self.package_set.entries()),
    {
        let mut result: Vec<&'a LocalPackage> = Vec::new();
        let mut i: usize = 0;
        let n = self.package_set.len();
        while i < n
            invariant
                0 <= i <= n,
                result@.map_values(|p: &LocalPackage| p@) =~= locals_in(
                    self.package_set.entries().take(i as int),
                ),
            decreases n - i,
        {
            let ghost pre = self.package_set.entries().take(i as int);
            proof {
                assert(self.package_set.entries().take(i + 1).drop_last() =~= pre);
                assert(self.package_set.entries().take(i + 1).last()
                    == self.package_set.entries()[i as int]);
            }
            match self.package_set.entry_at(i) {
                Package::Local(lp) => {
                    result.push(lp);
                },
                _ => {},
            }
            i += 1;
        }
        proof {
            assert(self.package_set.entries().take(n as int) =~= self.package_set.entries());
        }
        result
    }

    /// The union of every local package's dependencies and of the local
    /// package names themselves, duplicate-free and sorted ascending.
    #[verifier::loop_isolation(false)]
    #[verifier::rlimit(60)]
    pub fn all_workspace_dependencies(&self) -> (r: Vec<PackageName>)
        requires
            self.wf(),
        ensures
            distinct_names(r@),
            crate::name::sorted_names(r@),
            forall|n: Seq<char>|
                #[trigger] has_name(r@, n) <==> is_ws_dep(self.package_set.entries(), n),
    {
        let ghost es = self.package_set.entries();
        let mut result: Vec<PackageName> = Vec::new();
        let mut i: usize = 0;
        let n = self.package_set.len();
        proof {
            assert(names_of(result@) =~= crate::name::dedup_names(Seq::<PackageName>::empty()));
            assert(ws_root_stream(es.take(0)) =~= Seq::<PackageName>::empty());
        }
        while i < n
            invariant
                0 <= i <= n,
                distinct_names(result@),
                names_of(result@) == crate::name::dedup_names(ws_root_stream(es.take(i as int))),
            decreases n - i,
        {
            let ghost si = ws_root_stream(es.take(i as int));
            proof {
                assert(es.take(i + 1).drop_last() =~= es.take(i as int));
                assert(es.take(i + 1).last() == es[i as int]);
            }
            match self.package_set.entry_at(i) {
                Package::Local(lp) => {
                    proof {
                        assert(ws_root_stream(es.take(i + 1)) =~= si + seq![lp.name]
                            + lp.dependencies@);
                    }
                    crate::name::push_dedup(&mut result, Ghost(si), &lp.name);
                    proof {
                        assert(si.push(lp.name) =~= si + seq![lp.name]);
                    }
                    crate::name::extend_dedup(&mut result, Ghost(si + seq![lp.name]), &lp.dependencies);
                    proof {
                        assert((si + seq![lp.name]) + lp.dependencies@ =~= ws_root_stream(
                            es.take(i + 1),
                        ));
                    }
                },
                _ => {
                    proof {
                        assert(ws_root_stream(es.take(i + 1)) =~= si);
                    }
                },
            }
            i += 1;
        }
        proof {
            assert(es.take(n as int) =~= es);
            let stream = ws_root_stream(es);
            crate::name::lemma_dedup_names_set(stream);
            lemma_ws_stream_set(es);
            assert forall|m: Seq<char>| #[trigger] has_name(result@, m) implies is_ws_dep(
                es,
                m,
            ) by {
                crate::name::lemma_names_contains(result@, m);
            }
            assert forall|m: Seq<char>| is_ws_dep(es, m) implies has_name(result@, m) by {
                crate::name::lemma_names_contains(result@, m);
            }
        }
        let ghost pre = result@;
        crate::name::sort_names(&mut result);
        proof {
            assert forall|m: Seq<char>| #[trigger] has_name(result@, m) implies is_ws_dep(
                es,
                m,
            ) by {
                assert(has_name(pre, m));
            }
            assert forall|m: Seq<char>| is_ws_dep(es, m) implies has_name(result@, m) by {
                assert(has_name(pre, m));
            }
        }
        result
    }

    /// The concatenation of every local package's test dependencies, in
    /// entry order, duplicates kept.
    #[verifier::loop_isolation(false)]
    pub fn all_workspace_test_dependencies(&self) -> (r: Vec<PackageName>)
        requires
            self.wf(),
        ensures
            names_of(r@) == ws_test_deps_in(self.package_set.entries()),
    {
        let ghost es = self.package_set.entries();
        let mut result: Vec<PackageName> = Vec::new();
        let mut i: usize = 0;
        let n = self.package_set.len();
        while i < n
            invariant
                0 <= i <= n,
                names_of(result@) =~= ws_test_deps_in(es.take(i as int)),
            decreases n - i,
        {
            let ghost pre = es.take(i as int);
            proof {
                assert(es.take(i + 1).drop_last() =~= pre);
                assert(es.take(i + 1).last() == es[i as int]);
            }
            match self.package_set.entry_at(i) {
                Package::Local(lp) => {
                    let tds = &lp.test_dependencies;
                    let mut k: usize = 0;
                    while k < tds.len()
                        invariant
                            0 <= k <= tds@.len(),
                            names_of(result@) =~= ws_test_deps_in(pre) + names_of(tds@).take(
                                k as int,
                            ),
                        decreases tds@.len() - k,
                    {
                        let ghost r0 = result@;
                        result.push(tds[k].clone());
                        proof {
                            assert(names_of(result@) =~= names_of(r0).push(tds@[k as int]@));
                            assert(names_of(tds@).take(k + 1) =~= names_of(tds@).take(
                                k as int,
                            ).push(tds@[k as int]@));
                            assert(names_of(result@) =~= ws_test_deps_in(pre) + names_of(
                                tds@,
                            ).take(k + 1));
                        }
                        k += 1;
                    }
                    proof {
                        assert(names_of(tds@).take(tds@.len() as int) =~= names_of(tds@));
                        assert(names_of(tds@) == es[i as int]@->Local_0.test_dependencies);
                    }
                },
                _ => {},
            }
            i += 1;
        }
        proof {
            assert(es.take(n as int) =~= es);
        }
        result
    }

    /// All direct dependencies of a package.  Fails when the package itself
    /// is absent; dependency names that are absent are silently dropped.
    #[verifier::loop_isolation(false)]
    pub fn get_dependencies(&self, name: &PackageName) -> (r: Result<
        Vec<&'a Package>,
        QueryError,
    >)
        requires
            self.wf(),
        ensures
            match r {
                Ok(v) => self.pm().contains_key(name@) && models_of(v@) == present_deps(
                    self.pm(),
                    self.pm()[name@].dependencies(),
                ),
                Err(e) => !self.pm().contains_key(name@) && (e matches QueryError::NotFoundInSet(
                    m,
                ) && m@ == name@),
            },
    {
        let pkg = match self.get(name) {
            Some(p) => p,
            None => {
                return Err(QueryError::NotFoundInSet(name.clone()));
            },
        };
        let deps = pkg.dependencies();
        let ghost ds = self.pm()[name@].dependencies();
        let mut result: Vec<&'a Package> = Vec::new();
        let mut i: usize = 0;
        while i < deps.len()
            invariant
                0 <= i <= deps@.len(),
                models_of(result@) =~= present_deps(self.pm(), ds.take(i as int)),
            decreases deps@.len() - i,
        {
            proof {
                assert(ds.take(i + 1).drop_last() =~= ds.take(i as int));
                assert(ds.take(i + 1).last() == ds[i as int]);
                assert(names_of(deps@)[i as int] == deps@[i as int]@);
            }
            match self.get(&deps[i]) {
                Some(p) => {
                    result.push(p);
                },
                None => {},
            }
            i += 1;
        }
        proof {
            assert(ds.take(ds.len() as int) =~= ds);
        }
        Ok(result)
    }

    /// All transitive dependencies of a package: breadth-first traversal
    /// over dependency edges, excluding the root, each package once, in
    /// discovery (level) order — never a valid install order.  Fails
    /// exactly when the root is absent from the set.
    #[verifier::rlimit(100)]
    #[verifier::spinoff_prover]
    pub fn get_transitive_dependencies(&self, name: &PackageName) -> (r: Result<
        Vec<&'a Package>,
        QueryError,
    >)
        requires
            self.wf(),
        ensures
            match r {
                Ok(v) => self.pm().contains_key(name@) && transitive_result_ok(
                    self.pm(),
                    name@,
                    v@,
                ),
                Err(e) => !self.pm().contains_key(name@) && (e matches QueryError::NotFoundInSet(
                    m,
                ) && m@ == name@),
            },
    {
        let ghost pm = self.pm();
        let ghost es = self.package_set.entries();
        if !self.has_package(name) {
            return Err(QueryError::NotFoundInSet(name.clone()));
        }
        let ghost uni = universe_of(es).push(name@);

        let mut visited: Vec<PackageName> = Vec::new();
        visited.push(name.clone());
        let mut h: usize = 0;

        proof {
            lemma_reaches_refl(pm, name@);
            assert(uni.last() == name@);
            assert(uni.contains(name@));
            assert(visited@[0]@ == name@);
            assert forall|n: Seq<char>| #[trigger] has_name(visited@, n) implies n == name@ by {
                let i = choose|i: int| 0 <= i < visited@.len() && visited@[i]@ == n;
                assert(i == 0);
            }
            assert forall|a: int, b: int, k: int|
                #![trigger within(pm, name@, visited@[b]@, k), visited@[a]]
                0 <= a <= b < visited@.len() && within(pm, name@, visited@[b]@, k) implies
                within(pm, name@, visited@[a]@, k) by {
                assert(a == 0 && b == 0);
            }
            assert forall|n: Seq<char>, k: int|
                #![trigger within(pm, name@, n, k)]
                h < visited@.len() && !has_name(visited@, n) && within(pm, name@, n, k) implies
                within(pm, name@, visited@[h as int]@, k - 1) by {
                let p = choose|p: Seq<Seq<char>>|
                    is_dep_path(pm, p) && p.first() == name@ && p.last() == n && p.len() <= k + 1;
                assert(p.last() != name@) by {
                    assert(visited@[0]@ == name@);
                }
                assert(p.len() >= 2);
                lemma_within_refl(pm, name@, k - 1);
            }
        }

        while h < visited.len()
            invariant
                self.wf(),
                pm == self.pm(),
                es == self.package_set.entries(),
                uni == universe_of(es).push(name@),
                pm.contains_key(name@),
                0 <= h <= visited@.len(),
                distinct_names(visited@),
                visited@.len() >= 1,
                visited@[0]@ == name@,
                visited@.len() <= uni.len(),
                forall|n: Seq<char>| #[trigger] has_name(visited@, n) ==> uni.contains(n),
                forall|n: Seq<char>| #[trigger] has_name(visited@, n) ==> reaches(pm, name@, n),
                forall|i: int, d: Seq<char>|
                    #![trigger pm[visited@[i]@].dependencies().contains(d)]
                    0 <= i < h && pm.contains_key(visited@[i]@) && pm[
                        visited@[i]@
                    ].dependencies().contains(d) ==> has_name(visited@, d),
                forall|a: int, b: int, k: int|
                    #![trigger within(pm, name@, visited@[b]@, k), visited@[a]]
                    0 <= a <= b < visited@.len() && within(pm, name@, visited@[b]@, k)
                        ==> within(pm, name@, visited@[a]@, k),
                forall|n: Seq<char>, k: int|
                    #![trigger within(pm, name@, n, k)]
                    h < visited@.len() && !has_name(visited@, n) && within(pm, name@, n, k)
                        ==> within(pm, name@, visited@[h as int]@, k - 1),
                forall|a: int, k: int|
                    #![trigger within(pm, name@, visited@[a]@, k + 1)]
                    h < a < visited@.len() && within(pm, name@, visited@[h as int]@, k)
                        ==> within(pm, name@, visited@[a]@, k + 1),
            decreases uni.len() - h,
        {
            let current = visited[h].clone();
            let ghost curn = current@;
            assert(visited@[h as int]@ == curn);
            match self.get(&current) {
                Some(pkg) => {
                    let deps = pkg.dependencies();
                    let ghost v0 = visited@;
                    let mut k: usize = 0;
                    while k < deps.len()
                        invariant
                            self.wf(),
                            pm == self.pm(),
                            es == self.package_set.entries(),
                            uni == universe_of(es).push(name@),
                            pm.contains_key(name@),
                            pm.contains_key(curn),
                            pm[curn] == pkg@,
                            names_of(deps@) == pkg@.dependencies(),
                            0 <= k <= deps@.len(),
                            distinct_names(visited@),
                            h < v0.len(),
                            v0.len() <= visited@.len(),
                            v0 == visited@.subrange(0, v0.len() as int),
                            v0[h as int]@ == curn,
                            visited@.len() >= 1,
                            visited@[0]@ == name@,
                            visited@.len() <= uni.len(),
                            forall|n: Seq<char>| #[trigger]
                                has_name(visited@, n) ==> uni.contains(n),
                            forall|n: Seq<char>| #[trigger]
                                has_name(visited@, n) ==> reaches(pm, name@, n),
                            forall|i: int, d: Seq<char>|
                                #![trigger pm[visited@[i]@].dependencies().contains(d)]
                                0 <= i < h && pm.contains_key(visited@[i]@) && pm[
                                    visited@[i]@
                                ].dependencies().contains(d) ==> has_name(visited@, d),
                            forall|j: int| 0 <= j < k ==> has_name(visited@, #[trigger] deps@[j]@),
                            forall|a: int, b: int, kk: int|
                                #![trigger within(pm, name@, visited@[b]@, kk), visited@[a]]
                                0 <= a <= b < visited@.len() && within(pm, name@, visited@[b]@, kk)
                                    ==> within(pm, name@, visited@[a]@, kk),
                            forall|n: Seq<char>, kk: int|
                                #![trigger within(pm, name@, n, kk)]
                                h < visited@.len() && !has_name(visited@, n) && within(
                                    pm,
                                    name@,
                                    n,
                                    kk,
                                ) ==> within(pm, name@, visited@[h as int]@, kk - 1),
                            forall|a: int, kk: int|
                                #![trigger within(pm, name@, visited@[a]@, kk + 1)]
                                h < a < visited@.len() && within(
                                    pm,
                                    name@,
                                    visited@[h as int]@,
                                    kk,
                                ) ==> within(pm, name@, visited@[a]@, kk + 1),
                        decreases deps@.len() - k,
                    {
                        let d = &deps[k];
                        proof {
                            assert(names_of(deps@)[k as int] == deps@[k as int]@);
                            assert(pm[curn].dependencies().contains(deps@[k as int]@));
                            assert(dep_edge(pm, curn, d@));
                            assert(has_name(visited@, curn)) by {
                                assert(v0[h as int]@ == curn);
                                assert(has_name(v0, curn));
                                assert(visited@[h as int]@ == curn);
                            }
                            lemma_reaches_step(pm, name@, curn, d@);
                            lemma_model_from_entry(es, curn);
                            lemma_universe_covers(es);
                            let ei = choose|ei: int|
                                0 <= ei < es.len() && es[ei]@.name() == curn && pm[curn] == es[ei]@;
                            assert(es[ei]@.dependencies().contains(d@));
                            assert(universe_of(es).contains(d@));
                            assert(uni.contains(d@)) by {
                                let ui = choose|ui: int|
                                    0 <= ui < universe_of(es).len() && universe_of(es)[ui] == d@;
                                assert(uni[ui] == d@);
                            }
                        }
                        let ghost vb = visited@;
                        push_unique(&mut visited, d);
                        proof {
                            assert forall|ii: int| 0 <= ii < visited@.len() implies uni.contains(
                                visited@[ii]@,
                            ) by {
                                assert(has_name(visited@, visited@[ii]@));
                            }
                            if visited@.len() > vb.len() {
                                lemma_distinct_bound(visited@, uni);
                                assert(!has_name(vb, d@));
                                assert(visited@ == vb.push(*d));
                                let newi = vb.len() as int;
                                assert(visited@[newi]@ == d@);
                                assert(visited@[h as int] == vb[h as int]);
                                // The new discovery sits one step past the
                                // front, and no earlier than anything seen.
                                assert forall|a: int, kk: int|
                                    #![trigger within(pm, name@, visited@[a]@, kk + 1)]
                                    h < a < visited@.len() && within(
                                        pm,
                                        name@,
                                        visited@[h as int]@,
                                        kk,
                                    ) implies within(pm, name@, visited@[a]@, kk + 1) by {
                                    if a < newi {
                                        assert(visited@[a] == vb[a]);
                                        assert(within(pm, name@, vb[a]@, kk + 1));
                                    } else {
                                        lemma_within_step(pm, name@, curn, d@, kk);
                                    }
                                }
                                assert forall|a: int, b: int, kk: int|
                                    #![trigger within(pm, name@, visited@[b]@, kk), visited@[a]]
                                    0 <= a <= b < visited@.len() && within(
                                        pm,
                                        name@,
                                        visited@[b]@,
                                        kk,
                                    ) implies within(pm, name@, visited@[a]@, kk) by {
                                    if b < newi {
                                        assert(visited@[a] == vb[a] && visited@[b] == vb[b]);
                                        assert(within(pm, name@, vb[a]@, kk));
                                    } else if a == b {
                                    } else {
                                        assert(visited@[b]@ == d@);
                                        assert(within(pm, name@, d@, kk));
                                        assert(within(pm, name@, vb[h as int]@, kk - 1));
                                        assert(visited@[a] == vb[a]);
                                        if a <= h {
                                            assert(within(pm, name@, vb[a]@, kk - 1));
                                            lemma_within_mono(pm, name@, vb[a]@, kk - 1, kk);
                                        } else {
                                            assert(within(pm, name@, vb[a]@, kk));
                                        }
                                    }
                                }
                                assert forall|n: Seq<char>, kk: int|
                                    #![trigger within(pm, name@, n, kk)]
                                    h < visited@.len() && !has_name(visited@, n) && within(
                                        pm,
                                        name@,
                                        n,
                                        kk,
                                    ) implies within(pm, name@, visited@[h as int]@, kk - 1) by {
                                    assert(!has_name(vb, n));
                                    assert(within(pm, name@, vb[h as int]@, kk - 1));
                                }
                            }
                            assert(v0 =~= visited@.subrange(0, v0.len() as int));
                            assert forall|i: int, dd: Seq<char>|
                                0 <= i < h && pm.contains_key(visited@[i]@) && pm[
                                    visited@[i]@
                                ].dependencies().contains(dd) implies has_name(visited@, dd) by {
                                assert(visited@[i] == vb[i]);
                                assert(pm[vb[i]@].dependencies().contains(dd));
                                assert(has_name(vb, dd));
                            }
                        }
                        k += 1;
                    }
                    proof {
                        assert(visited@[h as int]@ == curn) by {
                            assert(v0[h as int]@ == curn);
                        }
                        assert forall|i: int, d: Seq<char>|
                            0 <= i < h + 1 && pm.contains_key(visited@[i]@) && pm[
                                visited@[i]@
                            ].dependencies().contains(d) implies has_name(visited@, d) by {
                            if i < h {
                                assert(pm[visited@[i]@].dependencies().contains(d));
                            } else {
                                assert(visited@[i]@ == curn);
                                assert(pm[curn].dependencies() == names_of(deps@));
                                let j = choose|j: int|
                                    0 <= j < pm[curn].dependencies().len() && pm[
                                        curn
                                    ].dependencies()[j] == d;
                                assert(names_of(deps@)[j] == deps@[j]@);
                                assert(deps@[j]@ == d);
                                assert(has_name(visited@, deps@[j]@));
                            }
                        }
                    }
                },
                None => {
                    proof {
                        assert forall|i: int, d: Seq<char>|
                            0 <= i < h + 1 && pm.contains_key(visited@[i]@) && pm[
                                visited@[i]@
                            ].dependencies().contains(d) implies has_name(visited@, d) by {
                            if i == h {
                                assert(visited@[i]@ == curn);
                                assert(false);
                            } else {
                                assert(pm[visited@[i]@].dependencies().contains(d));
                            }
                        }
                    }
                },
            }
            proof {
                if h + 1 < visited.len() {
                    // The next front lies at most one step past this one...
                    assert forall|a: int, kk: int|
                        #![trigger within(pm, name@, visited@[a]@, kk + 1)]
                        h + 1 < a < visited@.len() && within(
                            pm,
                            name@,
                            visited@[(h + 1) as int]@,
                            kk,
                        ) implies within(pm, name@, visited@[a]@, kk + 1) by {
                        assert(within(pm, name@, visited@[h as int]@, kk));
                    }
                    // ...and everything still undiscovered lies beyond it:
                    // a walk to an undiscovered name leaves the discovered
                    // set somewhere, and only pending names have
                    // unexplored edges.
                    assert forall|n: Seq<char>, kk: int|
                        #![trigger within(pm, name@, n, kk)]
                        !has_name(visited@, n) && within(pm, name@, n, kk) implies within(
                        pm,
                        name@,
                        visited@[(h + 1) as int]@,
                        kk - 1,
                    ) by {
                        let p = choose|p: Seq<Seq<char>>|
                            is_dep_path(pm, p) && p.first() == name@ && p.last() == n && p.len()
                                <= kk + 1;
                        assert(has_name(visited@, name@)) by {
                            assert(visited@[0]@ == name@);
                        }
                        lemma_first_exit(p, visited@);
                        let u = choose|u: int|
                            1 <= u < p.len() && has_name(visited@, #[trigger] p[u - 1])
                                && !has_name(visited@, p[u]);
                        let j = choose|j: int| 0 <= j < visited@.len() && visited@[j]@ == p[u - 1];
                        assert(j > h) by {
                            if j <= h {
                                assert(dep_edge(pm, p[u - 1], p[u]));
                                assert(pm.contains_key(visited@[j]@));
                                assert(pm[visited@[j]@].dependencies().contains(p[u]));
                                assert(has_name(visited@, p[u]));
                                assert(false);
                            }
                        }
                        lemma_within_prefix(pm, p, u - 1);
                        assert(within(pm, name@, visited@[j]@, u - 1)) by {
                            assert(visited@[j]@ == p[u - 1]);
                        }
                        assert(within(pm, name@, visited@[(h + 1) as int]@, u - 1));
                        lemma_within_mono(pm, name@, visited@[(h + 1) as int]@, u - 1, kk - 1);
                    }
                }
            }
            h += 1;
        }

        proof {
            assert(h == visited@.len());
            assert(dep_closed(pm, visited@));
        }

        // Second pass: keep, in discovery order, each visited name that is
        // in the set, excluding the root.
        let ghost vfin = visited@;
        let mut result: Vec<&'a Package> = Vec::new();
        let mut i: usize = 1;
        while i < visited.len()
            invariant
                self.wf(),
                pm == self.pm(),
                es == self.package_set.entries(),
                visited@ == vfin,
                vfin.len() >= 1,
                vfin[0]@ == name@,
                distinct_names(vfin),
                1 <= i <= vfin.len(),
                forall|n: Seq<char>| #[trigger] has_name(vfin, n) ==> reaches(pm, name@, n),
                forall|j: int|
                    0 <= j < result@.len() ==> {
                        &&& #[trigger] result@[j]@.name() != name@
                        &&& pm.contains_key(result@[j]@.name())
                        &&& result@[j]@ == pm[result@[j]@.name()]
                        &&& exists|w: int| 1 <= w < i && vfin[w]@ == result@[j]@.name()
                    },
                forall|w: int|
                    1 <= w < i && pm.contains_key(#[trigger] vfin[w]@) ==> exists|j: int|
                        0 <= j < result@.len() && #[trigger] result@[j]@.name() == vfin[w]@,
                forall|j1: int, j2: int|
                    0 <= j1 < j2 < result@.len() ==> result@[j1]@.name() != result@[j2]@.name(),
                forall|a: int, b: int, k: int|
                    #![trigger within(pm, name@, vfin[b]@, k), vfin[a]]
                    0 <= a <= b < vfin.len() && within(pm, name@, vfin[b]@, k) ==> within(
                        pm,
                        name@,
                        vfin[a]@,
                        k,
                    ),
                forall|j: int, k: int|
                    #![trigger within(pm, name@, result@[j]@.name(), k)]
                    0 <= j < result@.len() && i < vfin.len() && within(
                        pm,
                        name@,
                        vfin[i as int]@,
                        k,
                    ) ==> within(pm, name@, result@[j]@.name(), k),
                forall|j1: int, j2: int, k: int|
                    #![trigger within(pm, name@, result@[j2]@.name(), k), result@[j1]]
                    0 <= j1 <= j2 < result@.len() && within(
                        pm,
                        name@,
                        result@[j2]@.name(),
                        k,
                    ) ==> within(pm, name@, result@[j1]@.name(), k),
            decreases vfin.len() - i,
        {
            let ghost rtop = result@;
            match self.get(&visited[i]) {
                Some(pkg) => {
                    proof {
                        lemma_model_from_entry(es, vfin[i as int]@);
                        assert(pm[vfin[i as int]@].name() == vfin[i as int]@);
                        assert(vfin[i as int]@ != name@) by {
                            assert(vfin[0]@ == name@);
                        }
                    }
                    result.push(pkg);
                    proof {
                        assert(result@[result@.len() - 1]@.name() == vfin[i as int]@);
                        assert forall|j1: int, j2: int|
                            0 <= j1 < j2 < result@.len() implies result@[j1]@.name()
                            != result@[j2]@.name() by {
                            if j2 == result@.len() - 1 {
                                let w = choose|w: int|
                                    1 <= w < i && vfin[w]@ == rtop[j1]@.name();
                                assert(vfin[w]@ != vfin[i as int]@);
                                assert(result@[j1] == rtop[j1]);
                            } else {
                                assert(result@[j1] == rtop[j1] && result@[j2] == rtop[j2]);
                            }
                        }
                        assert forall|j: int| 0 <= j < result@.len() implies {
                            &&& (#[trigger] result@[j])@.name() != name@
                            &&& pm.contains_key(result@[j]@.name())
                            &&& result@[j]@ == pm[result@[j]@.name()]
                            &&& exists|w: int| 1 <= w < i + 1 && vfin[w]@ == result@[j]@.name()
                        } by {
                            if j < rtop.len() {
                                assert(result@[j] == rtop[j]);
                                let w = choose|w: int| 1 <= w < i && vfin[w]@ == rtop[j]@.name();
                                assert(vfin[w]@ == result@[j]@.name());
                            } else {
                                assert(vfin[i as int]@ == result@[j]@.name());
                            }
                        }
                        assert forall|w: int|
                            1 <= w < i + 1 && pm.contains_key(#[trigger] vfin[w]@) implies exists|
                            j: int,
                        |
                            0 <= j < result@.len() && #[trigger] result@[j]@.name()
                                == vfin[w]@ by {
                            if w < i {
                                let j = choose|j: int|
                                    0 <= j < rtop.len() && rtop[j]@.name() == vfin[w]@;
                                assert(result@[j] == rtop[j]);
                                assert(result@[j]@.name() == vfin[w]@);
                            } else {
                                assert(result@[result@.len() - 1]@.name() == vfin[i as int]@);
                            }
                        }
                        // Kept entries inherit the scan position's level
                        // bound, so the listing stays in discovery order.
                        assert forall|j: int, k: int|
                            #![trigger within(pm, name@, result@[j]@.name(), k)]
                            0 <= j < result@.len() && i + 1 < vfin.len() && within(
                                pm,
                                name@,
                                vfin[i + 1]@,
                                k,
                            ) implies within(pm, name@, result@[j]@.name(), k) by {
                            assert(within(pm, name@, vfin[i as int]@, k));
                            if j < rtop.len() {
                                assert(result@[j] == rtop[j]);
                                assert(within(pm, name@, rtop[j]@.name(), k));
                            } else {
                                assert(result@[j]@.name() == vfin[i as int]@);
                            }
                        }
                        assert forall|j1: int, j2: int, k: int|
                            #![trigger within(pm, name@, result@[j2]@.name(), k), result@[j1]]
                            0 <= j1 <= j2 < result@.len() && within(
                                pm,
                                name@,
                                result@[j2]@.name(),
                                k,
                            ) implies within(pm, name@, result@[j1]@.name(), k) by {
                            if j2 < rtop.len() {
                                assert(result@[j1] == rtop[j1] && result@[j2] == rtop[j2]);
                                assert(within(pm, name@, rtop[j1]@.name(), k));
                            } else if j1 == j2 {
                            } else {
                                assert(result@[j2]@.name() == vfin[i as int]@);
                                assert(within(pm, name@, vfin[i as int]@, k));
                                assert(result@[j1] == rtop[j1]);
                                assert(within(pm, name@, rtop[j1]@.name(), k));
                            }
                        }
                    }
                },
                None => {
                    proof {
                        assert forall|j: int, k: int|
                            #![trigger within(pm, name@, result@[j]@.name(), k)]
                            0 <= j < result@.len() && i + 1 < vfin.len() && within(
                                pm,
                                name@,
                                vfin[i + 1]@,
                                k,
                            ) implies within(pm, name@, result@[j]@.name(), k) by {
                            assert(within(pm, name@, vfin[i as int]@, k));
                        }
                    }
                },
            }
            i += 1;
        }

        proof {
            assert forall|j: int| 0 <= j < result@.len() implies reaches(
                pm,
                name@,
                (#[trigger] result@[j])@.name(),
            ) by {
                let w = choose|w: int| 1 <= w < vfin.len() && vfin[w]@ == result@[j]@.name();
                assert(has_name(vfin, result@[j]@.name()));
            }
            assert forall|q: Seq<char>|
                reaches(pm, name@, q) && pm.contains_key(q) && q != name@ implies exists|j: int|
                0 <= j < result@.len() && #[trigger] result@[j]@.name() == q by {
                assert(has_name(vfin, name@)) by {
                    assert(vfin[0]@ == name@);
                }
                lemma_reaches_stays(pm, name@, q, vfin);
                let w = choose|w: int| 0 <= w < vfin.len() && vfin[w]@ == q;
                assert(vfin[w]@ == q);
                assert(w != 0);
                assert(pm.contains_key(vfin[w]@));
            }
            assert(transitive_result_ok(pm, name@, result@));
        }
        Ok(result)
    }

    /// The packages that list `name` among their dependencies (reverse
    /// dependencies), found by a full scan.
    #[verifier::loop_isolation(false)]
    pub fn get_dependents(&self, name: &PackageName) -> (r: Vec<&'a Package>)
        requires
            self.wf(),
        ensures
            models_of(r@) == dependents_in(self.package_set.entries(), name@),
    {
        let ghost es = self.package_set.entries();
        let mut result: Vec<&'a Package> = Vec::new();
        let mut i: usize = 0;
        let n = self.package_set.len();
        while i < n
            invariant
                0 <= i <= n,
                models_of(result@) =~= dependents_in(es.take(i as int), name@),
            decreases n - i,
        {
            proof {
                assert(es.take(i + 1).drop_last() =~= es.take(i as int));
                assert(es.take(i + 1).last() == es[i as int]);
            }
            let pkg = self.package_set.entry_at(i);
            let pdeps = pkg.dependencies();
            if contains_name(pdeps, name) {
                proof {
                    let j = choose|j: int| 0 <= j < pdeps@.len() && pdeps@[j]@ == name@;
                    assert(names_of(pdeps@)[j] == name@);
                }
                result.push(pkg);
            } else {
                proof {
                    if es[i as int]@.dependencies().contains(name@) {
                        let j = choose|j: int|
                            0 <= j < es[i as int]@.dependencies().len() && es[
                                i as int
                            ]@.dependencies()[j] == name@;
                        assert(pdeps@[j]@ == name@);
                    }
                }
            }
            i += 1;
        }
        proof {
            assert(es.take(n as int) =~= es);
        }
        result
    }

    /// How many packages depend on `name`.
    pub fn get_dependents_count(&self, name: &PackageName) -> (r: usize)
        requires
            self.wf(),
        ensures
            r == dependents_in(self.package_set.entries(), name@).len(),
    {
        let deps = self.get_dependents(name);
        proof {
            assert(models_of(deps@).len() == deps@.len());
        }
        deps.len()
    }

    /// Every package of the set, paired with its dependents count.
    #[verifier::loop_isolation(false)]
    pub fn get_packages_with_dependents_count(&self) -> (r: Vec<(&'a Package, usize)>)
        requires
            self.wf(),
        ensures
            r@.len() == self.package_set.entries().len(),
            forall|i: int|
                #![trigger r@[i]]
                0 <= i < r@.len() ==> r@[i].0@ == self.package_set.entries()[i]@ && r@[i].1
                    == dependents_in(
                    self.package_set.entries(),
                    self.package_set.entries()[i]@.name(),
                ).len(),
    {
        let ghost es = self.package_set.entries();
        let mut result: Vec<(&'a Package, usize)> = Vec::new();
        let mut i: usize = 0;
        let n = self.package_set.len();
        while i < n
            invariant
                0 <= i <= n,
                result@.len() == i,
                forall|j: int|
                    #![trigger result@[j]]
                    0 <= j < i ==> result@[j].0@ == es[j]@ && result@[j].1 == dependents_in(
                        es,
                        es[j]@.name(),
                    ).len(),
            decreases n - i,
        {
            let pkg = self.package_set.entry_at(i);
            proof {
                assert(pkg@ == es[i as int]@);
            }
            let count = self.get_dependents_count(pkg.name());
            result.push((pkg, count));
            proof {
                assert(result@[i as int].0@ == es[i as int]@);
                assert(result@[i as int].1 == dependents_in(es, es[i as int]@.name()).len());
            }
            i += 1;
        }
        result
    }
}

} // verus!
