//! Name search over the package set, case-insensitive, plus the aggregate
//! dependency statistics.

use vstd::prelude::*;

use crate::package::{Package, PackageModel};
use crate::query::{models_of, PackageQuery};
use crate::textutil::{contains_seq, contains_sub, lower_of, to_lowercase};

verus! {

/// The entries of `s`, in order, whose lower-cased names contain the
/// already lower-cased query.
pub open spec fn search_matches(s: Seq<Package>, q: Seq<char>) -> Seq<PackageModel>
    decreases s.len(),
{
    if s.len() == 0 {
        Seq::empty()
    } else {
        let rest = search_matches(s.drop_last(), q);
        if contains_seq(lower_of(s.last()@.name()), q) {
            rest.push(s.last()@)
        } else {
            rest
        }
    }
}

/// Aggregate, purely descriptive counts over a package set's dependency
/// lists.  The total is kept in a wide integer so that the sum is exact
/// for every set; averages are a consumer's division.
pub struct PackageSetStats {
    pub total_packages: usize,
    pub total_dependencies: u128,
    pub max_dependencies: usize,
    pub min_dependencies: usize,
    pub packages_with_no_deps: usize,
}

/// The sum of the dependency counts of all entries.
pub open spec fn spec_total_deps(s: Seq<Package>) -> int
    decreases s.len(),
{
    if s.len() == 0 {
        0
    } else {
        spec_total_deps(s.drop_last()) + s.last()@.dependencies().len()
    }
}

/// The largest dependency count among the entries.
pub open spec fn spec_max_deps(s: Seq<Package>) -> nat
    decreases s.len(),
{
    if s.len() == 0 {
        0
    } else {
        let rest = spec_max_deps(s.drop_last());
        if s.last()@.dependencies().len() > rest {
            s.last()@.dependencies().len()
        } else {
            rest
        }
    }
}

/// The smallest dependency count among the entries, 0 for an empty set.
pub open spec fn spec_min_deps(s: Seq<Package>) -> nat
    decreases s.len(),
{
    if s.len() == 0 {
        0
    } else if s.len() == 1 {
        s.last()@.dependencies().len()
    } else {
        let rest = spec_min_deps(s.drop_last());
        if s.last()@.dependencies().len() < rest {
            s.last()@.dependencies().len()
        } else {
            rest
        }
    }
}

/// How many entries declare no dependencies at all.
pub open spec fn spec_no_deps_count(s: Seq<Package>) -> nat
    decreases s.len(),
{
    if s.len() == 0 {
        0
    } else {
        spec_no_deps_count(s.drop_last()) + (
        if s.last()@.dependencies().len() == 0 {
            1nat
        } else {
            0nat
        })
    }
}

impl<'a> PackageQuery<'a> {
    /// Finds packages by partial, case-insensitive name match.
    #[verifier::loop_isolation(false)]
    pub fn search(&self, query: &str) -> (r: Vec<&'a Package>)
        requires
            self.wf(),
        ensures
            models_of(r@) == search_matches(self.package_set.entries(), lower_of(query@)),
    {
        let ghost es = self.package_set.entries();
        let query_lower = to_lowercase(query);
        let mut result: Vec<&'a Package> = Vec::new();
        let mut i: usize = 0;
        let n = self.package_set.len();
        while i < n
            invariant
                0 <= i <= n,
                query_lower@ == lower_of(query@),
                models_of(result@) =~= search_matches(es.take(i as int), lower_of(query@)),
            decreases n - i,
        {
            proof {
                assert(es.take(i + 1).drop_last() =~= es.take(i as int));
                assert(es.take(i + 1).last() == es[i as int]);
            }
            let pkg = self.package_set.entry_at(i);
            let name_lower = to_lowercase(pkg.name().0.as_str());
            if contains_sub(name_lower.as_str(), query_lower.as_str()) {
                result.push(pkg);
            }
            i += 1;
        }
        proof {
            assert(es.take(n as int) =~= es);
        }
        result
    }

    /// Descriptive statistics over the package set: total entries, the
    /// largest and smallest dependency counts, and how many packages have
    /// no dependencies.
    #[verifier::loop_isolation(false)]
    pub fn stats(&self) -> (r: PackageSetStats)
        requires
            self.wf(),
        ensures
            r.total_packages == self.package_set.entries().len(),
            r.total_dependencies == spec_total_deps(self.package_set.entries()),
            r.max_dependencies == spec_max_deps(self.package_set.entries()),
            r.min_dependencies == spec_min_deps(self.package_set.entries()),
            r.packages_with_no_deps == spec_no_deps_count(self.package_set.entries()),
    {
        let ghost es = self.package_set.entries();
        let total_packages = self.package_set.len();
        let ghost word: int = 0xffff_ffff_ffff_ffff;
        let mut total_deps: u128 = 0;
        let mut max_deps: usize = 0;
        let mut min_deps: usize = 0;
        let mut no_deps_count: usize = 0;
        let mut i: usize = 0;
        while i < total_packages
            invariant
                0 <= i <= total_packages,
                total_packages == es.len(),
                total_deps == spec_total_deps(es.take(i as int)),
                total_deps <= i * word,
                max_deps == spec_max_deps(es.take(i as int)),
                min_deps == spec_min_deps(es.take(i as int)),
                no_deps_count == spec_no_deps_count(es.take(i as int)),
                no_deps_count <= i,
            decreases total_packages - i,
        {
            proof {
                assert(es.take(i + 1).drop_last() =~= es.take(i as int));
                assert(es.take(i + 1).last() == es[i as int]);
            }
            let dep_count = self.package_set.entry_at(i).dep_count();
            proof {
                assert(dep_count <= word);
                assert(i + 1 <= word);
                vstd::arithmetic::mul::lemma_mul_inequality(i + 1, word, word);
                assert(0xffff_ffff_ffff_ffffint * 0xffff_ffff_ffff_ffffint
                    <= 0xffff_ffff_ffff_ffff_ffff_ffff_ffff_ffffint) by (nonlinear_arith);
                assert(word * word <= 0xffff_ffff_ffff_ffff_ffff_ffff_ffff_ffffint);
                vstd::arithmetic::mul::lemma_mul_is_distributive_add_other_way(word, i as int, 1);
                assert((i + 1) * word == i * word + word);
                assert(total_deps + dep_count <= (i + 1) * word);
            }
            total_deps = total_deps + dep_count as u128;
            if dep_count > max_deps {
                max_deps = dep_count;
            }
            if i == 0 || dep_count < min_deps {
                min_deps = dep_count;
            }
            if dep_count == 0 {
                no_deps_count += 1;
            }
            i += 1;
        }
        proof {
            assert(es.take(total_packages as int) =~= es);
        }
        PackageSetStats {
            total_packages,
            total_dependencies: total_deps,
            max_dependencies: max_deps,
            min_dependencies: min_deps,
            packages_with_no_deps: no_deps_count,
        }
    }
}

} // verus!
