//! The machine-wide package cache: a content-addressable index of fetched
//! packages, keyed by package name, invalidated by the installing tool's
//! own cache key.  This module keeps the index and derives the cache
//! paths; reading and writing the directories themselves is the caller's
//! part.

use vstd::prelude::*;

use crate::name::PackageName;

verus! {

/// One entry of the global package cache index.
pub struct CachedPackage {
    pub name: PackageName,
    pub version: String,
    pub key: String,
    pub cached_path: String,
    /// Seconds since the Unix epoch at which the entry was written.
    pub installed_at: i64,
}

/// Mathematical image of a cache index entry.
pub ghost struct CachedPackageModel {
    pub name: Seq<char>,
    pub version: Seq<char>,
    pub key: Seq<char>,
    pub cached_path: Seq<char>,
    pub installed_at: int,
}

impl View for CachedPackage {
    type V = CachedPackageModel;

    open spec fn view(&self) -> CachedPackageModel {
        CachedPackageModel {
            name: self.name@,
            version: self.version@,
            key: self.key@,
            cached_path: self.cached_path@,
            installed_at: self.installed_at as int,
        }
    }
}

/// The entry of the index that holds `n`, later entries overriding earlier
/// ones with the same name.
pub open spec fn entry_for(s: Seq<CachedPackage>, n: Seq<char>) -> Option<CachedPackageModel>
    decreases s.len(),
{
    if s.len() == 0 {
        None
    } else if s.last()@.name == n {
        Some(s.last()@)
    } else {
        entry_for(s.drop_last(), n)
    }
}

/// Index entry names are pairwise distinct.
pub open spec fn index_distinct(s: Seq<CachedPackage>) -> bool {
    forall|i: int, j: int| 0 <= i < j < s.len() ==> s[i]@.name != s[j]@.name
}

/// With distinct names, each entry is what `entry_for` finds at its name.
pub proof fn lemma_entry_for_index(s: Seq<CachedPackage>)
    requires
        index_distinct(s),
    ensures
        forall|i: int|
            0 <= i < s.len() ==> entry_for(s, #[trigger] s[i]@.name) == Some(s[i]@),
        forall|n: Seq<char>|
            (forall|i: int| 0 <= i < s.len() ==> (#[trigger] s[i]@.name) != n) ==> entry_for(s, n)
                is None,
    decreases s.len(),
{
    if s.len() > 0 {
        let t = s.drop_last();
        lemma_entry_for_index(t);
        assert forall|i: int| 0 <= i < s.len() implies entry_for(s, #[trigger] s[i]@.name)
            == Some(s[i]@) by {
            if i < s.len() - 1 {
                assert(t[i] == s[i]);
                assert(s[i]@.name != s.last()@.name);
                assert(entry_for(t, t[i]@.name) == Some(t[i]@));
            }
        }
        assert forall|n: Seq<char>|
            (forall|i: int| 0 <= i < s.len() ==> (#[trigger] s[i]@.name) != n) implies entry_for(
            s,
            n,
        ) is None by {
            assert(forall|i: int| 0 <= i < t.len() ==> (#[trigger] t[i]@.name) != n) by {
                assert forall|i: int| 0 <= i < t.len() implies (#[trigger] t[i]@.name) != n by {
                    assert(t[i] == s[i]);
                }
            }
            assert(entry_for(t, n) is None);
            assert(s[s.len() - 1]@.name != n);
            assert(entry_for(s, n) is None);
        }
    }
}

/// The global package cache: the cache root directory, the running tool's
/// cache key, and the index.
pub struct GlobalPackageCache {
    pub cache_dir: String,
    pub key: String,
    pub index: Vec<CachedPackage>,
}

/// The cache key of a tool version: entries written under another tool
/// version are never served as compatible hits.
pub fn cache_key_for_tool(tool_version: &str) -> (r: String)
    ensures
        r@ == "spago-rust@"@ + tool_version@,
{
    String::from_str("spago-rust@").concat(tool_version)
}

impl GlobalPackageCache {
    /// Entry names are unique.
    pub open spec fn wf(&self) -> bool {
        index_distinct(self.index@)
    }

    /// A cache handle over an already-loaded index.
    pub fn new(cache_dir: String, key: String, index: Vec<CachedPackage>) -> (r: Self)
        ensures
            r.cache_dir == cache_dir,
            r.key == key,
            r.index == index,
    {
        GlobalPackageCache { cache_dir, key, index }
    }

    /// Whether the index holds this package at this version.  This check
    /// deliberately ignores the cache key: only `get_cached_path` gives the
    /// authoritative, compatibility-checked answer.
    pub fn is_cached(&self, name: &PackageName, version: &str) -> (r: bool)
        requires
            self.wf(),
        ensures
            r == match entry_for(self.index@, name@) {
                Some(e) => e.version == version@,
                None => false,
            },
    {
        proof {
            lemma_entry_for_index(self.index@);
        }
        let mut i: usize = 0;
        while i < self.index.len()
            invariant
                self.wf(),
                0 <= i <= self.index@.len(),
                forall|j: int| 0 <= j < i ==> (#[trigger] self.index@[j]@.name) != name@,
                forall|k: int|
                    0 <= k < self.index@.len() ==> entry_for(
                        self.index@,
                        #[trigger] self.index@[k]@.name,
                    ) == Some(self.index@[k]@),
            decreases self.index@.len() - i,
        {
            if self.index[i].name == *name {
                return crate::textutil::str_eq(self.index[i].version.as_str(), version);
            }
            i += 1;
        }
        proof {
            lemma_entry_for_index(self.index@);
        }
        false
    }

    /// The cached path for this package, only when version and cache key
    /// both match the running tool.
    pub fn get_cached_path(&self, name: &PackageName, version: &str) -> (r: Option<String>)
        requires
            self.wf(),
        ensures
            match r {
                Some(p) => match entry_for(self.index@, name@) {
                    Some(e) => e.version == version@ && e.key == self.key@ && p@ == e.cached_path,
                    None => false,
                },
                None => match entry_for(self.index@, name@) {
                    Some(e) => !(e.version == version@ && e.key == self.key@),
                    None => true,
                },
            },
    {
        proof {
            lemma_entry_for_index(self.index@);
        }
        let mut i: usize = 0;
        while i < self.index.len()
            invariant
                self.wf(),
                0 <= i <= self.index@.len(),
                forall|j: int| 0 <= j < i ==> (#[trigger] self.index@[j]@.name) != name@,
                forall|k: int|
                    0 <= k < self.index@.len() ==> entry_for(
                        self.index@,
                        #[trigger] self.index@[k]@.name,
                    ) == Some(self.index@[k]@),
            decreases self.index@.len() - i,
        {
            if self.index[i].name == *name {
                let e = &self.index[i];
                if crate::textutil::str_eq(e.version.as_str(), version) && crate::textutil::str_eq(
                    e.key.as_str(),
                    self.key.as_str(),
                ) {
                    return Some(e.cached_path.clone());
                } else {
                    return None;
                }
            }
            i += 1;
        }
        proof {
            lemma_entry_for_index(self.index@);
        }
        None
    }

    /// The deterministic directory name under which a (name, version) pair
    /// is cached by this tool.
    pub fn cached_path_for(&self, name: &PackageName, version: &str) -> (r: String)
        ensures
            r@ == self.cache_dir@ + "/"@ + name@ + "-"@ + version@ + "-"@ + self.key@,
    {
        self.cache_dir.clone().concat("/").concat(name.0.as_str()).concat("-").concat(
            version,
        ).concat("-").concat(self.key.as_str())
    }

    /// Records a package in the index under its deterministic cached path,
    /// replacing any earlier entry of the same name, and returns that path.
    /// The caller copies the package directory there and persists the
    /// rewritten index.
    #[verifier::loop_isolation(false)]
    pub fn cache_package(&mut self, name: &PackageName, version: &str, now: i64) -> (r: String)
        requires
            old(self).wf(),
        ensures
            final(self).wf(),
            final(self).cache_dir == old(self).cache_dir,
            final(self).key == old(self).key,
            r@ == old(self).cache_dir@ + "/"@ + name@ + "-"@ + version@ + "-"@ + old(self).key@,
            entry_for(final(self).index@, name@) == Some(
                CachedPackageModel {
                    name: name@,
                    version: version@,
                    key: old(self).key@,
                    cached_path: r@,
                    installed_at: now as int,
                },
            ),
            forall|n: Seq<char>|
                n != name@ ==> #[trigger] entry_for(final(self).index@, n) == entry_for(
                    old(self).index@,
                    n,
                ),
    {
        let cached_path = self.cached_path_for(name, version);
        let entry = CachedPackage {
            name: name.clone(),
            version: version.to_owned(),
            key: self.key.clone(),
            cached_path: cached_path.clone(),
            installed_at: now,
        };
        let ghost s0 = self.index@;
        let ghost em = entry@;
        let mut i: usize = 0;
        while i < self.index.len()
            invariant
                0 <= i <= self.index@.len(),
                self.index@ == s0,
                self.cache_dir == old(self).cache_dir,
                self.key == old(self).key,
                forall|j: int| 0 <= j < i ==> (#[trigger] s0[j]@.name) != name@,
            decreases self.index@.len() - i,
        {
            if self.index[i].name == *name {
                self.index.set(i, entry);
                proof {
                    let t = self.index@;
                    assert(t[i as int]@ == em);
                    assert forall|a: int, b: int| 0 <= a < b < t.len() implies t[a]@.name
                        != t[b]@.name by {
                        assert(t[a] == if a == i { t[i as int] } else { s0[a] });
                        assert(t[b] == if b == i { t[i as int] } else { s0[b] });
                    }
                    lemma_index_update(s0, i as int, t[i as int]);
                }
                return cached_path;
            }
            i += 1;
        }
        self.index.push(entry);
        proof {
            let t = self.index@;
            assert(t.drop_last() =~= s0);
            assert(t.last()@ == em);
            assert forall|a: int, b: int| 0 <= a < b < t.len() implies t[a]@.name
                != t[b]@.name by {
                if b < t.len() - 1 {
                    assert(t[a] == s0[a] && t[b] == s0[b]);
                } else {
                    assert(t[a] == s0[a]);
                    assert(t[b]@.name == name@);
                }
            }
        }
        cached_path
    }

    /// The source path a cached copy would be taken from: the compatible
    /// cached directory, or the reason there is none.  Replacing the
    /// destination with that directory's contents is the caller's part.
    pub fn copy_from_cache(&self, name: &PackageName, version: &str) -> (r: Result<String, String>)
        requires
            self.wf(),
        ensures
            match r {
                Ok(p) => match entry_for(self.index@, name@) {
                    Some(e) => e.version == version@ && e.key == self.key@ && p@ == e.cached_path,
                    None => false,
                },
                Err(_) => match entry_for(self.index@, name@) {
                    Some(e) => !(e.version == version@ && e.key == self.key@),
                    None => true,
                },
            },
    {
        match self.get_cached_path(name, version) {
            Some(path) => Ok(path),
            None => Err(
                String::from_str("Package ").concat(name.0.as_str()).concat(" version ").concat(
                    version,
                ).concat(" not found in cache"),
            ),
        }
    }

    /// Empties the whole index: full eviction only.  The caller removes and
    /// recreates the cache root directory.
    pub fn clear_all(&mut self)
        ensures
            final(self).wf(),
            final(self).cache_dir == old(self).cache_dir,
            final(self).key == old(self).key,
            final(self).index@.len() == 0,
            forall|n: Seq<char>| #[trigger] entry_for(final(self).index@, n) is None,
    {
        self.index = Vec::new();
    }
}

/// Overriding the index entry that holds a name acts as an override at
/// that name and leaves every other name unchanged.
proof fn lemma_index_update(s: Seq<CachedPackage>, i: int, p: CachedPackage)
    requires
        index_distinct(s),
        0 <= i < s.len(),
        s[i]@.name == p@.name,
    ensures
        entry_for(s.update(i, p), p@.name) == Some(p@),
        forall|n: Seq<char>|
            n != p@.name ==> #[trigger] entry_for(s.update(i, p), n) == entry_for(s, n),
    decreases s.len(),
{
    let t = s.update(i, p);
    if i == s.len() - 1 {
        assert(t.drop_last() =~= s.drop_last());
        assert(t.last() == p);
        assert forall|n: Seq<char>| n != p@.name implies #[trigger] entry_for(t, n) == entry_for(
            s,
            n,
        ) by {
            assert(entry_for(t, n) == entry_for(t.drop_last(), n));
            assert(s.last()@.name == p@.name);
            assert(entry_for(s, n) == entry_for(s.drop_last(), n));
        }
    } else {
        assert(t.drop_last() =~= s.drop_last().update(i, p));
        lemma_index_update(s.drop_last(), i, p);
        assert(t.last() == s.last());
        assert(p@.name != s.last()@.name);
        assert(entry_for(t, p@.name) == Some(p@)) by {
            assert(t.last()@.name != p@.name);
            assert(entry_for(t.drop_last(), p@.name) == Some(p@));
        }
        assert forall|n: Seq<char>| n != p@.name implies #[trigger] entry_for(t, n) == entry_for(
            s,
            n,
        ) by {
            if n == s.last()@.name {
                assert(t.last() == s.last());
            } else {
                assert(entry_for(t, n) == entry_for(t.drop_last(), n));
                assert(entry_for(s, n) == entry_for(s.drop_last(), n));
                assert(entry_for(s.drop_last().update(i, p), n) == entry_for(s.drop_last(), n));
            }
        }
    }
}

/// Relies on sha2's Sha256 (a 32-byte digest) and hex::encode (two digits
/// per byte): the digest depends on the characters of the tag alone.
pub uninterp spec fn sha256_hex_of(s: Seq<char>) -> Seq<char>;

/// Hashes a cache tag to the hex digest used in cache file names.  Relies
/// on sha2::Sha256 and hex::encode; the result is a function of the input
/// alone and is 64 hex characters long.
#[verifier::external_body]
pub fn sha256_hex(s: &str) -> (r: String)
    ensures
        r@ == sha256_hex_of(s@),
        r@.len() == 64,
{
    let mut hasher: sha2::Sha256 = sha2::Digest::new();
    sha2::Digest::update(&mut hasher, s.as_bytes());
    hex::encode(sha2::Digest::finalize(hasher))
}

/// The path of the cached package set for a tag: a file named by the tag's
/// digest inside the package-set cache directory.
pub fn get_cache_path(package_set_cache_dir: &str, tag: &str) -> (r: String)
    ensures
        r@ == package_set_cache_dir@ + "/"@ + sha256_hex_of(tag@) + ".bin"@,
{
    let key = sha256_hex(tag);
    String::from_str(package_set_cache_dir).concat("/").concat(key.as_str()).concat(".bin")
}

/// The path of the cached registry index file.
pub fn get_registry_index_cache_path(registry_cache_dir: &str) -> (r: String)
    ensures
        r@ == registry_cache_dir@ + "/index.bin"@,
{
    String::from_str(registry_cache_dir).concat("/index.bin")
}

/// The path of the cached registry package set for a registry version.
pub fn get_registry_package_set_cache_path(registry_cache_dir: &str, version: &str) -> (r: String)
    ensures
        r@ == registry_cache_dir@ + "/package-set-"@ + sha256_hex_of(version@) + ".bin"@,
{
    let key = sha256_hex(version);
    String::from_str(registry_cache_dir).concat("/package-set-").concat(key.as_str()).concat(
        ".bin",
    )
}

} // verus!
