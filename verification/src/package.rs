//! The package data model: the tagged package representation and the
//! package-set mapping from names to packages.

use vstd::prelude::*;

use crate::name::PackageName;

verus! {

/// A remote package as it appears inside a fetched package-set file,
/// before the owning name is attached.
#[derive(Debug)]
pub struct PackageInSet {
    pub dependencies: Vec<PackageName>,
    pub repo: String,
    pub version: String,
}

/// A remote (repository-sourced) package of the package set.
#[derive(Debug)]
pub struct PackageSetPackage {
    pub name: PackageName,
    pub dependencies: Vec<PackageName>,
    pub repo: String,
    pub version: String,
}

/// A local workspace package on the filesystem.  It has no version and is
/// never fetched or cached.
#[derive(Debug)]
pub struct LocalPackage {
    pub name: PackageName,
    pub dependencies: Vec<PackageName>,
    pub test_dependencies: Vec<PackageName>,
    pub path: String,
}

/// A package resolved from the registry's package-version index.
#[derive(Debug)]
pub struct RegistryPackage {
    pub name: PackageName,
    pub version: String,
    pub dependencies: Vec<PackageName>,
}

/// A package of the package set: one of the three origins.
#[derive(Debug)]
pub enum Package {
    /// A remote package-set package.
    Remote(PackageSetPackage),
    /// A local filesystem package.
    Local(LocalPackage),
    /// A registry package.
    Registry(RegistryPackage),
}

/// Mathematical image of a remote package.
pub ghost struct RemoteModel {
    pub name: Seq<char>,
    pub dependencies: Seq<Seq<char>>,
    pub repo: Seq<char>,
    pub version: Seq<char>,
}

/// Mathematical image of a local package.
pub ghost struct LocalModel {
    pub name: Seq<char>,
    pub dependencies: Seq<Seq<char>>,
    pub test_dependencies: Seq<Seq<char>>,
    pub path: Seq<char>,
}

/// Mathematical image of a registry package.
pub ghost struct RegistryModel {
    pub name: Seq<char>,
    pub version: Seq<char>,
    pub dependencies: Seq<Seq<char>>,
}

/// Mathematical image of a package, over sequences of characters.
pub ghost enum PackageModel {
    Remote(RemoteModel),
    Local(LocalModel),
    Registry(RegistryModel),
}

impl PackageModel {
    /// The name of the package.
    pub open spec fn name(self) -> Seq<char> {
        match self {
            PackageModel::Remote(p) => p.name,
            PackageModel::Local(p) => p.name,
            PackageModel::Registry(p) => p.name,
        }
    }

    /// The declared direct dependency names.
    pub open spec fn dependencies(self) -> Seq<Seq<char>> {
        match self {
            PackageModel::Remote(p) => p.dependencies,
            PackageModel::Local(p) => p.dependencies,
            PackageModel::Registry(p) => p.dependencies,
        }
    }

    /// The declared version, if the origin has one.
    pub open spec fn version(self) -> Option<Seq<char>> {
        match self {
            PackageModel::Remote(p) => Some(p.version),
            PackageModel::Local(_) => None,
            PackageModel::Registry(p) => Some(p.version),
        }
    }

    /// Whether the package is a local workspace package.
    pub open spec fn is_local(self) -> bool {
        self is Local
    }

    /// The test-only dependency names (empty unless local).
    pub open spec fn test_dependencies(self) -> Seq<Seq<char>> {
        match self {
            PackageModel::Local(p) => p.test_dependencies,
            _ => Seq::empty(),
        }
    }
}

impl View for PackageSetPackage {
    type V = RemoteModel;

    open spec fn view(&self) -> RemoteModel {
        RemoteModel {
            name: self.name@,
            dependencies: crate::name::names_of(self.dependencies@),
            repo: self.repo@,
            version: self.version@,
        }
    }
}

impl View for LocalPackage {
    type V = LocalModel;

    open spec fn view(&self) -> LocalModel {
        LocalModel {
            name: self.name@,
            dependencies: crate::name::names_of(self.dependencies@),
            test_dependencies: crate::name::names_of(self.test_dependencies@),
            path: self.path@,
        }
    }
}

impl View for RegistryPackage {
    type V = RegistryModel;

    open spec fn view(&self) -> RegistryModel {
        RegistryModel {
            name: self.name@,
            version: self.version@,
            dependencies: crate::name::names_of(self.dependencies@),
        }
    }
}

impl View for Package {
    type V = PackageModel;

    open spec fn view(&self) -> PackageModel {
        match self {
            Package::Remote(p) => PackageModel::Remote(p@),
            Package::Local(p) => PackageModel::Local(p@),
            Package::Registry(p) => PackageModel::Registry(p@),
        }
    }
}

impl Package {
    /// Wraps a package-set package as a package.
    pub fn new(package: PackageSetPackage) -> (r: Self)
        ensures
            r@ == PackageModel::Remote(package@),
    {
        Package::Remote(package)
    }

    /// Builds a local package from its parts.
    pub fn new_local(
        name: PackageName,
        path: String,
        test_dependencies: Option<Vec<PackageName>>,
        dependencies: Option<Vec<PackageName>>,
    ) -> (r: Self)
        ensures
            r@ is Local,
            r@.name() == name@,
            r@.dependencies() == match dependencies {
                Some(d) => crate::name::names_of(d@),
                None => Seq::<Seq<char>>::empty(),
            },
            r@.test_dependencies() == match test_dependencies {
                Some(d) => crate::name::names_of(d@),
                None => Seq::<Seq<char>>::empty(),
            },
    {
        let deps = match dependencies {
            Some(d) => d,
            None => Vec::new(),
        };
        let test_deps = match test_dependencies {
            Some(d) => d,
            None => Vec::new(),
        };
        proof {
            assert(crate::name::names_of(Seq::<PackageName>::empty())
                =~= Seq::<Seq<char>>::empty());
        }
        Package::Local(LocalPackage { name, path, test_dependencies: test_deps, dependencies: deps })
    }

    /// The number of direct dependencies.
    pub fn dep_count(&self) -> (r: usize)
        ensures
            r == self@.dependencies().len(),
    {
        self.dependencies().len()
    }

    /// The package's name.
    pub fn name(&self) -> (r: &PackageName)
        ensures
            r@ == self@.name(),
    {
        match self {
            Package::Remote(package) => &package.name,
            Package::Local(package) => &package.name,
            Package::Registry(package) => &package.name,
        }
    }

    /// The declared version; local packages have none.
    pub fn version(&self) -> (r: Option<&String>)
        ensures
            match r {
                Some(v) => self@.version() == Some(v@),
                None => self@.version() is None,
            },
    {
        match self {
            Package::Remote(package) => Some(&package.version),
            Package::Local(_) => None,
            Package::Registry(package) => Some(&package.version),
        }
    }

    /// The full list of direct dependency names.
    pub fn dependencies(&self) -> (r: &Vec<PackageName>)
        ensures
            crate::name::names_of(r@) == self@.dependencies(),
    {
        match self {
            Package::Remote(package) => &package.dependencies,
            Package::Local(package) => &package.dependencies,
            Package::Registry(package) => &package.dependencies,
        }
    }

    /// Whether the package is a local workspace package.
    pub fn is_local(&self) -> (r: bool)
        ensures
            r == self@.is_local(),
    {
        match self {
            Package::Local(_) => true,
            _ => false,
        }
    }
}

/// The package set: a mapping from package names to packages, keys unique.
/// It is built once per command by insert-or-override merging and is
/// read-only afterwards.
pub struct PackageSet {
    pub entries: Vec<Package>,
}

/// The map that a sequence of packages denotes: later entries override
/// earlier ones with the same name.
pub open spec fn set_model(s: Seq<Package>) -> Map<Seq<char>, PackageModel>
    decreases s.len(),
{
    if s.len() == 0 {
        Map::empty()
    } else {
        set_model(s.drop_last()).insert(s.last()@.name(), s.last()@)
    }
}

/// Entry names are pairwise distinct.
pub open spec fn entries_distinct(s: Seq<Package>) -> bool {
    forall|i: int, j: int| 0 <= i < j < s.len() ==> s[i]@.name() != s[j]@.name()
}

/// The domain of the denoted map is exactly the set of entry names.
pub proof fn lemma_set_model_dom(s: Seq<Package>)
    ensures
        forall|k: Seq<char>|
            set_model(s).contains_key(k) <==> exists|i: int| 0 <= i < s.len() && s[i]@.name() == k,
    decreases s.len(),
{
    if s.len() > 0 {
        let t = s.drop_last();
        lemma_set_model_dom(t);
        assert forall|k: Seq<char>| set_model(s).contains_key(k) implies exists|i: int|
            0 <= i < s.len() && s[i]@.name() == k by {
            if k == s.last()@.name() {
                let w = s.len() - 1;
                assert(s[w]@.name() == k);
            } else {
                assert(set_model(t).contains_key(k));
                let i = choose|i: int| 0 <= i < t.len() && t[i]@.name() == k;
                assert(t[i] == s[i]);
                assert(s[i]@.name() == k);
            }
        }
        assert forall|k: Seq<char>|
            (exists|i: int| 0 <= i < s.len() && s[i]@.name() == k) implies set_model(
            s,
        ).contains_key(k) by {
            let i = choose|i: int| 0 <= i < s.len() && s[i]@.name() == k;
            if i < s.len() - 1 {
                assert(t[i] == s[i]);
                assert(t[i]@.name() == k);
                assert(set_model(t).contains_key(k));
            } else {
                assert(s[i] == s.last());
            }
        }
    }
}

/// With distinct names, each entry is the map's value at its name.
pub proof fn lemma_set_model_index(s: Seq<Package>)
    requires
        entries_distinct(s),
    ensures
        forall|i: int|
            0 <= i < s.len() ==> set_model(s).contains_key(#[trigger] s[i]@.name())
                && set_model(s)[s[i]@.name()] == s[i]@,
    decreases s.len(),
{
    if s.len() > 0 {
        let t = s.drop_last();
        lemma_set_model_index(t);
        assert forall|i: int| 0 <= i < s.len() implies set_model(s).contains_key(
            #[trigger] s[i]@.name(),
        ) && set_model(s)[s[i]@.name()] == s[i]@ by {
            if i < s.len() - 1 {
                assert(t[i] == s[i]);
                assert(set_model(t).contains_key(t[i]@.name()) && set_model(t)[t[i]@.name()]
                    == t[i]@);
                assert(s[i]@.name() != s.last()@.name());
            }
        }
    }
}

/// Overriding the entry that holds a name denotes a map insert at that name.
proof fn lemma_set_model_update(s: Seq<Package>, i: int, p: Package)
    requires
        entries_distinct(s),
        0 <= i < s.len(),
        s[i]@.name() == p@.name(),
    ensures
        set_model(s.update(i, p)) =~= set_model(s).insert(p@.name(), p@),
    decreases s.len(),
{
    let t = s.update(i, p);
    if i == s.len() - 1 {
        assert(t.drop_last() =~= s.drop_last());
        assert(t.last() == p);
    } else {
        assert(t.drop_last() =~= s.drop_last().update(i, p));
        lemma_set_model_update(s.drop_last(), i, p);
        assert(t.last() == s.last());
        assert(p@.name() != s.last()@.name());
    }
}

impl View for PackageSet {
    type V = Map<Seq<char>, PackageModel>;

    open spec fn view(&self) -> Map<Seq<char>, PackageModel> {
        set_model(self.entries@)
    }
}

impl PackageSet {
    /// The stored entries, for read-only traversal by the query engine.
    pub open spec fn entries(&self) -> Seq<Package> {
        self.entries@
    }

    /// Well-formed: entry names are unique.
    pub open spec fn wf(&self) -> bool {
        entries_distinct(self.entries@)
    }

    /// An empty package set.
    pub fn new() -> (r: Self)
        ensures
            r.wf(),
            r@ =~= Map::<Seq<char>, PackageModel>::empty(),
            r.entries().len() == 0,
    {
        PackageSet { entries: Vec::new() }
    }

    pub fn len(&self) -> (r: usize)
        ensures
            r == self.entries().len(),
    {
        self.entries.len()
    }

    /// Read access to the entry at `i`.
    pub fn entry_at(&self, i: usize) -> (r: &Package)
        requires
            i < self.entries().len(),
        ensures
            *r == self.entries()[i as int],
    {
        &self.entries[i]
    }

    /// Inserts a package under its own name, overriding any previous entry
    /// with that name: the only mutation of a package set, used while the
    /// catalog snapshot, the manifest overrides and the workspace packages
    /// are merged.
    #[verifier::loop_isolation(false)]
    pub fn insert(&mut self, package: Package)
        requires
            old(self).wf(),
        ensures
            final(self).wf(),
            final(self)@ =~= old(self)@.insert(package@.name(), package@),
    {
        let ghost s0 = self.entries@;
        let mut i: usize = 0;
        while i < self.entries.len()
            invariant
                0 <= i <= self.entries@.len(),
                self.entries@ == s0,
                forall|j: int| 0 <= j < i ==> s0[j]@.name() != package@.name(),
            decreases self.entries@.len() - i,
        {
            if self.entries[i].name() == package.name() {
                self.entries.set(i, package);
                proof {
                    let t = self.entries@;
                    assert(t[i as int]@.name() == s0[i as int]@.name());
                    assert forall|a: int, b: int| 0 <= a < b < t.len() implies t[a]@.name()
                        != t[b]@.name() by {
                        assert(t[a] == if a == i { t[i as int] } else { s0[a] });
                        assert(t[b] == if b == i { t[i as int] } else { s0[b] });
                    }
                    lemma_set_model_update(s0, i as int, t[i as int]);
                }
                return ;
            }
            i += 1;
        }
        self.entries.push(package);
        proof {
            let t = self.entries@;
            assert(t.drop_last() =~= s0);
            assert(t.last() == package);
            assert forall|a: int, b: int| 0 <= a < b < t.len() implies t[a]@.name()
                != t[b]@.name() by {
                if b < t.len() - 1 {
                    assert(t[a] == s0[a] && t[b] == s0[b]);
                } else {
                    assert(t[a] == s0[a]);
                }
            }
        }
    }

    /// Looks a package up by name.
    #[verifier::loop_isolation(false)]
    pub fn get(&self, name: &PackageName) -> (r: Option<&Package>)
        requires
            self.wf(),
        ensures
            match r {
                Some(p) => self@.contains_key(name@) && p@ == self@[name@],
                None => !self@.contains_key(name@),
            },
    {
        proof {
            lemma_set_model_dom(self.entries@);
            lemma_set_model_index(self.entries@);
        }
        let mut i: usize = 0;
        while i < self.entries.len()
            invariant
                0 <= i <= self.entries@.len(),
                forall|j: int| 0 <= j < i ==> self.entries@[j]@.name() != name@,
            decreases self.entries@.len() - i,
        {
            if self.entries[i].name() == name {
                proof {
                    assert(self.entries@[i as int]@.name() == name@);
                }
                return Some(&self.entries[i]);
            }
            i += 1;
        }
        None
    }

    /// Whether the set holds a package of this name.
    pub fn contains_key(&self, name: &PackageName) -> (r: bool)
        requires
            self.wf(),
        ensures
            r == self@.contains_key(name@),
    {
        match self.get(name) {
            Some(_) => true,
            None => false,
        }
    }
}

/// One name of the registry index, with every known version of the package.
#[derive(Debug)]
pub struct RegistryIndexEntry {
    pub name: PackageName,
    pub versions: Vec<RegistryPackage>,
}

/// The registry index: for each package name, the packages of all its
/// published versions.
#[derive(Debug)]
pub struct RegistryIndex(pub Vec<RegistryIndexEntry>);

/// Whether the index lists a package of this name and version.
pub open spec fn index_has(s: Seq<RegistryIndexEntry>, n: Seq<char>, v: Seq<char>) -> bool {
    exists|i: int, j: int|
        0 <= i < s.len() && 0 <= j < s[i].versions@.len() && s[i].name@ == n
            && (#[trigger] s[i].versions@[j])@.name == n && s[i].versions@[j]@.version == v
}

impl RegistryIndex {
    /// Index names are unique.
    pub open spec fn wf(&self) -> bool {
        forall|a: int, b: int| 0 <= a < b < self.0@.len() ==> self.0@[a].name@ != self.0@[b].name@
    }

    /// Looks up the package of one (name, version) pair.
    #[verifier::loop_isolation(false)]
    pub fn get_package(&self, name: &PackageName, version: &str) -> (r: Option<&RegistryPackage>)
        requires
            self.wf(),
        ensures
            match r {
                Some(p) => p@.name == name@ && p@.version == version@ && index_has(
                    self.0@,
                    name@,
                    version@,
                ),
                None => !index_has(self.0@, name@, version@),
            },
    {
        let ghost s = self.0@;
        let mut i: usize = 0;
        while i < self.0.len()
            invariant
                0 <= i <= s.len(),
                forall|a: int| 0 <= a < i ==> s[a].name@ != name@,
            decreases s.len() - i,
        {
            if self.0[i].name == *name {
                let versions = &self.0[i].versions;
                let mut j: usize = 0;
                while j < versions.len()
                    invariant
                        0 <= j <= versions@.len(),
                        versions@ == s[i as int].versions@,
                        s[i as int].name@ == name@,
                        forall|b: int|
                            0 <= b < j ==> !((#[trigger] versions@[b])@.name == name@
                                && versions@[b]@.version == version@),
                    decreases versions@.len() - j,
                {
                    if versions[j].name == *name && crate::textutil::str_eq(
                        versions[j].version.as_str(),
                        version,
                    ) {
                        return Some(&versions[j]);
                    }
                    j += 1;
                }
                proof {
                    assert forall|a: int, b: int|
                        0 <= a < s.len() && 0 <= b < s[a].versions@.len() && s[a].name@ == name@
                            implies !((#[trigger] s[a].versions@[b])@.name == name@ && s[
                        a
                    ].versions@[b]@.version == version@) by {
                        assert(a == i);
                    }
                }
                return None;
            }
            i += 1;
        }
        None
    }

    /// The known version strings of a name: present exactly when the index
    /// lists the name, one entry per published version, in index order.
    #[verifier::loop_isolation(false)]
    pub fn get_versions(&self, name: &PackageName) -> (r: Option<Vec<String>>)
        requires
            self.wf(),
        ensures
            match r {
                Some(vs) => exists|i: int|
                    0 <= i < self.0@.len() && (#[trigger] self.0@[i]).name@ == name@
                        && crate::textutil::strs_of(vs@) == self.0@[i].versions@.map_values(
                        |p: RegistryPackage| p@.version,
                    ),
                None => forall|i: int|
                    0 <= i < self.0@.len() ==> (#[trigger] self.0@[i]).name@ != name@,
            },
    {
        let ghost s = self.0@;
        let mut i: usize = 0;
        while i < self.0.len()
            invariant
                0 <= i <= s.len(),
                forall|a: int| 0 <= a < i ==> (#[trigger] s[a]).name@ != name@,
            decreases s.len() - i,
        {
            if self.0[i].name == *name {
                let versions = &self.0[i].versions;
                let mut out: Vec<String> = Vec::new();
                let mut j: usize = 0;
                while j < versions.len()
                    invariant
                        0 <= j <= versions@.len(),
                        versions@ == s[i as int].versions@,
                        crate::textutil::strs_of(out@) =~= versions@.map_values(
                            |p: RegistryPackage| p@.version,
                        ).take(j as int),
                    decreases versions@.len() - j,
                {
                    let ghost o0 = out@;
                    out.push(versions[j].version.clone());
                    proof {
                        assert(crate::textutil::strs_of(out@) =~= crate::textutil::strs_of(o0).push(
                            versions@[j as int]@.version,
                        ));
                        assert(versions@.map_values(|p: RegistryPackage| p@.version).take(j + 1)
                            =~= versions@.map_values(|p: RegistryPackage| p@.version).take(
                            j as int,
                        ).push(versions@[j as int]@.version));
                    }
                    j += 1;
                }
                proof {
                    assert(crate::textutil::strs_of(out@) =~= versions@.map_values(
                        |p: RegistryPackage| p@.version,
                    ));
                    assert(s[i as int].name@ == name@);
                }
                return Some(out);
            }
            i += 1;
        }
        None
    }
}

} // verus!
