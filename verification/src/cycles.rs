//! Cycle detection among workspace packages: depth-first search with an
//! explicit current-path stack and a fully-explored memo set.  The search
//! is proved sound (any chain it returns is a genuine cycle) and complete
//! (whenever a scanned name reaches a cycle, one is reported).

use vstd::prelude::*;

use crate::graph::{
    dep_edge, lemma_distinct_bound, lemma_reaches_stays, lemma_universe_covers, reaches,
    universe_of,
};
use crate::name::{contains_name, distinct_names, has_name, PackageName};
use crate::package::PackageModel;
use crate::query::PackageQuery;
use crate::textutil::strs_of;

verus! {

/// A dependency cycle, reported as the ordered sub-path from the first
/// occurrence of the repeated name back to that name: it starts and ends
/// with the same name and every consecutive pair is a dependency edge.
pub open spec fn is_cycle_chain(pm: Map<Seq<char>, PackageModel>, c: Seq<Seq<char>>) -> bool {
    &&& c.len() >= 2
    &&& c.first() == c.last()
    &&& forall|i: int| #![trigger c[i]] 0 <= i < c.len() - 1 ==> dep_edge(pm, c[i], c[i + 1])
}

/// A cycle runs through the name `n`.
pub open spec fn on_cycle(pm: Map<Seq<char>, PackageModel>, n: Seq<char>) -> bool {
    exists|c: Seq<Seq<char>>| is_cycle_chain(pm, c) && c.first() == n
}

/// The name `n` reaches a cycle along dependency edges.
pub open spec fn reaches_cycle(pm: Map<Seq<char>, PackageModel>, n: Seq<char>) -> bool {
    exists|c: Seq<Seq<char>>| is_cycle_chain(pm, c) && reaches(pm, n, c.first())
}

/// Every name on a cycle reaches the cycle's first name, by walking the
/// rest of the way around.
proof fn lemma_cycle_rotate(pm: Map<Seq<char>, PackageModel>, c: Seq<Seq<char>>, i: int)
    requires
        is_cycle_chain(pm, c),
        0 <= i < c.len(),
    ensures
        reaches(pm, c[i], c.first()),
{
    let p = c.subrange(i, c.len() as int);
    assert(p.len() >= 1);
    assert forall|j: int| #![trigger p[j]] 0 <= j < p.len() - 1 implies dep_edge(
        pm,
        p[j],
        p[j + 1],
    ) by {
        assert(p[j] == c[i + j] && p[j + 1] == c[i + j + 1]);
        assert(dep_edge(pm, c[i + j], c[i + j + 1]));
    }
    assert(crate::graph::is_dep_path(pm, p));
    assert(p.first() == c[i]);
    assert(p.last() == c.last());
    assert(p.last() == c.first());
}

impl<'a> PackageQuery<'a> {
    /// Finds a circular dependency chain reachable from `start_package`:
    /// any chain returned is a genuine dependency cycle of the set, and
    /// nothing is returned exactly when no cycle is reachable from the
    /// start — in particular, on an acyclic graph the search always comes
    /// back empty, and on a cyclic one it never stays silent.
    pub fn find_circular_dependency_chain(&self, start_package: &PackageName) -> (r: Option<
        Vec<String>,
    >)
        requires
            self.wf(),
        ensures
            match r {
                Some(c) => {
                    &&& is_cycle_chain(self.pm(), strs_of(c@))
                    &&& reaches(self.pm(), start_package@, strs_of(c@).first())
                    &&& forall|a: int, b: int|
                        0 <= a < b < strs_of(c@).len() - 1 ==> strs_of(c@)[a] != strs_of(c@)[b]
                },
                None => !reaches_cycle(self.pm(), start_package@),
            },
    {
        let ghost pm = self.pm();
        let ghost es = self.package_set.entries();
        let ghost uni = universe_of(es).push(start_package@);
        proof {
            lemma_universe_covers(es);
            assert(uni.last() == start_package@);
            assert(uni.contains(start_package@));
            assert forall|i: int, d: Seq<char>|
                0 <= i < es.len() && #[trigger] es[i]@.dependencies().contains(d) implies
                uni.contains(d) by {
                let ui = choose|ui: int|
                    0 <= ui < universe_of(es).len() && universe_of(es)[ui] == d;
                assert(uni[ui] == d);
            }
        }
        let mut visited: Vec<PackageName> = Vec::new();
        let mut path: Vec<PackageName> = Vec::new();
        let r = self.dfs_circular_detection(start_package, &mut visited, &mut path, Ghost(uni));
        proof {
            match r {
                Some(_) => {},
                None => {
                    assert forall|c: Seq<Seq<char>>|
                        is_cycle_chain(pm, c) implies !reaches(pm, start_package@, c.first()) by {
                        if reaches(pm, start_package@, c.first()) {
                            lemma_reaches_stays(pm, start_package@, c.first(), visited@);
                            assert(has_name(visited@, c.first()));
                            assert(on_cycle(pm, c.first()));
                            assert(false);
                        }
                    }
                },
            }
        }
        r
    }

    /// Depth-first cycle detection.  `path` is the active call stack; a
    /// name already on it signals a cycle.  `visited` memoises names whose
    /// sub-graph has been fully explored without finding a cycle there: it
    /// stays dependency-closed, free of any name a cycle runs through, and
    /// disjoint from the active path.
    #[verifier::rlimit(100)]
    #[verifier::spinoff_prover]
    fn dfs_circular_detection(
        &self,
        current: &PackageName,
        visited: &mut Vec<PackageName>,
        path: &mut Vec<PackageName>,
        uni: Ghost<Seq<Seq<char>>>,
    ) -> (r: Option<Vec<String>>)
        requires
            self.wf(),
            distinct_names(old(visited)@),
            distinct_names(old(path)@),
            crate::graph::dep_closed(self.pm(), old(visited)@),
            forall|n: Seq<char>|
                #[trigger] has_name(old(visited)@, n) ==> !on_cycle(self.pm(), n),
            forall|n: Seq<char>|
                #[trigger] has_name(old(path)@, n) ==> !has_name(old(visited)@, n),
            uni@.contains(current@),
            forall|i: int| 0 <= i < old(path)@.len() ==> uni@.contains(#[trigger] old(path)@[i]@),
            forall|i: int, d: Seq<char>|
                0 <= i < self.package_set.entries().len()
                    && #[trigger] self.package_set.entries()[i]@.dependencies().contains(d)
                    ==> uni@.contains(d),
            forall|i: int|
                #![trigger old(path)@[i]]
                0 <= i < old(path)@.len() - 1 ==> dep_edge(
                    self.pm(),
                    old(path)@[i]@,
                    old(path)@[i + 1]@,
                ),
            old(path)@.len() > 0 ==> dep_edge(self.pm(), old(path)@.last()@, current@),
        ensures
            distinct_names(final(visited)@),
            match r {
                Some(c) => {
                    &&& is_cycle_chain(self.pm(), strs_of(c@))
                    &&& reaches(
                        self.pm(),
                        if old(path)@.len() > 0 {
                            old(path)@[0]@
                        } else {
                            current@
                        },
                        strs_of(c@).first(),
                    )
                    &&& forall|a: int, b: int|
                        0 <= a < b < strs_of(c@).len() - 1 ==> strs_of(c@)[a] != strs_of(c@)[b]
                },
                None => {
                    &&& final(path)@ == old(path)@
                    &&& forall|n: Seq<char>|
                        #[trigger] has_name(old(visited)@, n) ==> has_name(final(visited)@, n)
                    &&& crate::graph::dep_closed(self.pm(), final(visited)@)
                    &&& forall|n: Seq<char>|
                        #[trigger] has_name(final(visited)@, n) ==> !on_cycle(self.pm(), n)
                    &&& forall|n: Seq<char>|
                        #[trigger] has_name(old(path)@, n) ==> !has_name(final(visited)@, n)
                    &&& has_name(final(visited)@, current@)
                },
            },
        decreases uni@.len() - old(path)@.len(),
    {
        let ghost pm = self.pm();
        let ghost es = self.package_set.entries();
        let ghost p0 = path@;
        let ghost v0 = visited@;
        proof {
            lemma_distinct_bound(path@, uni@);
        }

        // A name already on the active path closes a cycle.
        let mut pos: usize = 0;
        while pos < path.len()
            invariant
                pm == self.pm(),
                distinct_names(visited@),
                distinct_names(p0),
                visited@ == v0,
                path@ == p0,
                0 <= pos <= p0.len(),
                forall|j: int| 0 <= j < pos ==> p0[j]@ != current@,
                forall|i: int|
                    #![trigger p0[i]]
                    0 <= i < p0.len() - 1 ==> dep_edge(pm, p0[i]@, p0[i + 1]@),
                p0.len() > 0 ==> dep_edge(pm, p0.last()@, current@),
            decreases p0.len() - pos,
        {
            if path[pos] == *current {
                let mut cycle: Vec<String> = Vec::new();
                let ghost start = pos as int;
                let mut i: usize = pos;
                while i < path.len()
                    invariant
                        pm == self.pm(),
                        distinct_names(visited@),
                        distinct_names(p0),
                        path@ == p0,
                        start == pos,
                        0 <= pos <= i <= p0.len(),
                        p0[start]@ == current@,
                        forall|i2: int|
                            #![trigger p0[i2]]
                            0 <= i2 < p0.len() - 1 ==> dep_edge(pm, p0[i2]@, p0[i2 + 1]@),
                        p0.len() > 0 ==> dep_edge(pm, p0.last()@, current@),
                        strs_of(cycle@) =~= p0.subrange(start, i as int).map_values(
                            |n: PackageName| n@,
                        ),
                        cycle@.len() == i - pos,
                    decreases p0.len() - i,
                {
                    let ghost c0 = cycle@;
                    cycle.push(path[i].0.clone());
                    proof {
                        assert(strs_of(cycle@) =~= strs_of(c0).push(p0[i as int]@));
                        assert(p0.subrange(start, i + 1) =~= p0.subrange(start, i as int).push(
                            p0[i as int],
                        ));
                        assert(p0.subrange(start, i + 1).map_values(|n: PackageName| n@)
                            =~= p0.subrange(start, i as int).map_values(|n: PackageName| n@).push(
                            p0[i as int]@,
                        ));
                        assert(strs_of(cycle@) =~= p0.subrange(start, i + 1).map_values(
                            |n: PackageName| n@,
                        ));
                    }
                    i += 1;
                }
                cycle.push(current.0.clone());
                proof {
                    let c = strs_of(cycle@);
                    let body = p0.subrange(start, p0.len() as int).map_values(
                        |n: PackageName| n@,
                    );
                    assert(c =~= body.push(current@));
                    assert(c.len() >= 2);
                    assert(c.first() == p0[start]@);
                    assert(c.last() == current@);
                    assert forall|k: int| #![trigger c[k]] 0 <= k < c.len() - 1 implies dep_edge(
                        pm,
                        c[k],
                        c[k + 1],
                    ) by {
                        if k < c.len() - 2 {
                            assert(c[k] == p0[start + k]@ && c[k + 1] == p0[start + k + 1]@);
                            assert(dep_edge(pm, p0[start + k]@, p0[start + k + 1]@)) by {
                                assert(p0[start + k] == old(path)@[start + k]);
                            }
                        } else {
                            assert(c[k] == p0[p0.len() - 1]@ && c[k + 1] == current@);
                        }
                    }
                    assert(is_cycle_chain(pm, c));
                    // The reported cycle starts at a name the walk reached
                    // from the root of the active path.
                    let qnames = p0.take(start + 1).map_values(|n: PackageName| n@);
                    assert(qnames.len() == start + 1);
                    assert forall|w: int|
                        #![trigger qnames[w]]
                        0 <= w < qnames.len() - 1 implies dep_edge(pm, qnames[w], qnames[w + 1]) by {
                        assert(qnames[w] == p0[w]@ && qnames[w + 1] == p0[w + 1]@);
                        assert(dep_edge(pm, p0[w]@, p0[w + 1]@));
                    }
                    assert(crate::graph::is_dep_path(pm, qnames));
                    assert(qnames.first() == p0[0]@);
                    assert(qnames.last() == p0[start]@);
                    assert(c.first() == p0[start]@);
                    assert(reaches(pm, p0[0]@, c.first()));
                    // A simple cycle: no name repeats before the closing one.
                    assert(c == body.push(current@));
                    assert forall|a: int, b: int|
                        0 <= a < b < c.len() - 1 implies c[a] != c[b] by {
                        assert(c.len() == body.len() + 1);
                        assert(c[a] == body.push(current@)[a]);
                        assert(c[b] == body.push(current@)[b]);
                        assert(body.push(current@)[a] == body[a]);
                        assert(body.push(current@)[b] == body[b]);
                        assert(body[a] == p0.subrange(start, p0.len() as int)[a]@);
                        assert(body[b] == p0.subrange(start, p0.len() as int)[b]@);
                        assert(body[a] == p0[start + a]@ && body[b] == p0[start + b]@);
                        assert(p0[start + a]@ != p0[start + b]@);
                    }
                }
                return Some(cycle);
            }
            pos += 1;
        }

        // Already fully explored and known cycle-free from here.
        if contains_name(visited, current) {
            return None;
        }

        path.push(current.clone());
        proof {
            assert(path@.drop_last() =~= p0);
            assert forall|i: int| 0 <= i < path@.len() implies uni@.contains(
                #[trigger] path@[i]@,
            ) by {
                if i < p0.len() {
                    assert(path@[i] == p0[i]);
                }
            }
            assert(distinct_names(path@)) by {
                assert forall|a: int, b: int| 0 <= a < b < path@.len() implies path@[a]@
                    != path@[b]@ by {
                    if b < p0.len() {
                        assert(path@[a] == p0[a] && path@[b] == p0[b]);
                    } else {
                        assert(path@[a] == p0[a]);
                        assert(path@[b]@ == current@);
                    }
                }
            }
            assert forall|n: Seq<char>| #[trigger] has_name(path@, n) implies !has_name(
                visited@,
                n,
            ) by {
                let i = choose|i: int| 0 <= i < path@.len() && path@[i]@ == n;
                if i < p0.len() {
                    assert(p0[i]@ == n);
                    assert(has_name(p0, n));
                } else {
                    assert(n == current@);
                }
            }
            lemma_distinct_bound(path@, uni@);
        }

        let found = self.get(current);
        match found {
            Some(pkg) => {
                let deps = pkg.dependencies();
                let ghost p1 = path@;
                let mut k: usize = 0;
                while k < deps.len()
                    invariant
                        self.wf(),
                        pm == self.pm(),
                        distinct_names(visited@),
                        es == self.package_set.entries(),
                        pm.contains_key(current@),
                        pm[current@] == pkg@,
                        crate::name::names_of(deps@) == pkg@.dependencies(),
                        0 <= k <= deps@.len(),
                        path@ == p1,
                        p0 == old(path)@,
                        v0 == old(visited)@,
                        p1 == p0.push(*current),
                        p1.len() == p0.len() + 1,
                        distinct_names(p1),
                        uni@.contains(current@),
                        forall|i: int| 0 <= i < p1.len() ==> uni@.contains(#[trigger] p1[i]@),
                        forall|i: int, d: Seq<char>|
                            0 <= i < es.len() && #[trigger] es[i]@.dependencies().contains(d)
                                ==> uni@.contains(d),
                        forall|i: int|
                            #![trigger p0[i]]
                            0 <= i < p0.len() - 1 ==> dep_edge(pm, p0[i]@, p0[i + 1]@),
                        p0.len() > 0 ==> dep_edge(pm, p0.last()@, current@),
                        uni@.len() - p1.len() >= 0,
                        crate::graph::dep_closed(pm, visited@),
                        forall|n: Seq<char>| #[trigger] has_name(visited@, n) ==> !on_cycle(pm, n),
                        forall|n: Seq<char>|
                            #[trigger] has_name(p1, n) ==> !has_name(visited@, n),
                        forall|n: Seq<char>| #[trigger] has_name(v0, n) ==> has_name(visited@, n),
                        forall|j: int| 0 <= j < k ==> has_name(visited@, #[trigger] deps@[j]@),
                    decreases deps@.len() - k,
                {
                    let d = &deps[k];
                    proof {
                        assert(crate::name::names_of(deps@)[k as int] == deps@[k as int]@);
                        assert(pm[current@].dependencies().contains(d@));
                        assert(dep_edge(pm, current@, d@));
                        crate::graph::lemma_model_from_entry(es, current@);
                        let ei = choose|ei: int|
                            0 <= ei < es.len() && es[ei]@.name() == current@ && pm[current@]
                                == es[ei]@;
                        assert(es[ei]@.dependencies().contains(d@));
                        assert(uni@.contains(d@));
                        assert forall|i: int|
                            #![trigger p1[i]]
                            0 <= i < p1.len() - 1 implies dep_edge(pm, p1[i]@, p1[i + 1]@) by {
                            if i < p0.len() - 1 {
                                assert(p1[i] == p0[i] && p1[i + 1] == p0[i + 1]);
                            } else {
                                assert(p1[i]@ == p0.last()@ && p1[i + 1]@ == current@);
                            }
                        }
                        assert(p1.last()@ == current@);
                    }
                    let ghost vb = visited@;
                    match self.dfs_circular_detection(d, visited, path, uni) {
                        Some(cycle) => {
                            proof {
                                if p0.len() > 0 {
                                    assert(p1[0] == p0[0]);
                                } else {
                                    assert(p1[0] == *current);
                                }
                            }
                            return Some(cycle);
                        },
                        None => {},
                    }
                    proof {
                        assert forall|j: int| 0 <= j < k + 1 implies has_name(
                            visited@,
                            #[trigger] deps@[j]@,
                        ) by {
                            if j < k {
                                assert(has_name(vb, deps@[j]@));
                            } else {
                                assert(has_name(visited@, d@));
                            }
                        }
                    }
                    k += 1;
                }
                proof {
                    // Every dependency of the current package is now in the
                    // explored set.
                    assert forall|dd: Seq<char>|
                        pm.contains_key(current@) && pm[current@].dependencies().contains(
                            dd,
                        ) implies has_name(visited@, dd) by {
                        let j = choose|j: int|
                            0 <= j < pm[current@].dependencies().len() && pm[
                                current@
                            ].dependencies()[j] == dd;
                        assert(crate::name::names_of(deps@)[j] == deps@[j]@);
                        assert(deps@[j]@ == dd);
                        assert(has_name(visited@, deps@[j]@));
                    }
                    assert(!has_name(visited@, current@)) by {
                        assert(has_name(p1, current@)) by {
                            assert(p1.last()@ == current@);
                        }
                    }
                    assert forall|n: Seq<char>| #[trigger] has_name(p0, n) implies !has_name(
                        visited@,
                        n,
                    ) by {
                        let i = choose|i: int| 0 <= i < p0.len() && p0[i]@ == n;
                        assert(has_name(p1, n)) by {
                            assert(p1[i]@ == n);
                        }
                    }
                }
            },
            None => {
                proof {
                    assert(forall|dd: Seq<char>|
                        pm.contains_key(current@) && pm[current@].dependencies().contains(dd)
                            ==> has_name(visited@, dd));
                    assert(!has_name(visited@, current@)) by {
                        assert(has_name(path@, current@)) by {
                            assert(path@.last()@ == current@);
                        }
                    }
                    assert forall|n: Seq<char>| #[trigger] has_name(p0, n) implies !has_name(
                        visited@,
                        n,
                    ) by {
                        let i = choose|i: int| 0 <= i < p0.len() && p0[i]@ == n;
                        assert(has_name(path@, n)) by {
                            assert(path@[i]@ == n);
                        }
                    }
                }
            },
        }

        path.pop();
        proof {
            assert(path@ =~= p0);
        }
        let ghost vpre = visited@;
        crate::name::push_unique(visited, current);
        proof {
            let curn = current@;
            assert(visited@ == vpre.push(*current));
            // The explored set stays dependency-closed.
            assert forall|i: int, dd: Seq<char>|
                #![trigger pm[visited@[i]@].dependencies().contains(dd)]
                0 <= i < visited@.len() && pm.contains_key(visited@[i]@) && pm[
                    visited@[i]@
                ].dependencies().contains(dd) implies has_name(visited@, dd) by {
                if i < vpre.len() {
                    assert(visited@[i] == vpre[i]);
                    assert(pm[vpre[i]@].dependencies().contains(dd));
                    assert(has_name(vpre, dd));
                } else {
                    assert(visited@[i]@ == curn);
                    assert(has_name(vpre, dd));
                }
            }
            // No cycle runs through the newly finished name: its every
            // dependency is explored and cycle-free, so a cycle through it
            // would already have put it into the explored set.
            assert(!on_cycle(pm, curn)) by {
                if on_cycle(pm, curn) {
                    let c = choose|c: Seq<Seq<char>>| is_cycle_chain(pm, c) && c.first() == curn;
                    assert(c[0] == c.first());
                    assert(dep_edge(pm, c[0], c[1]));
                    assert(pm.contains_key(curn));
                    assert(pm[curn].dependencies().contains(c[1]));
                    assert(has_name(vpre, c[1]));
                    lemma_cycle_rotate(pm, c, 1);
                    lemma_reaches_stays(pm, c[1], curn, vpre);
                    assert(has_name(vpre, curn));
                    assert(false);
                }
            }
            assert forall|n: Seq<char>| #[trigger] has_name(visited@, n) implies !on_cycle(
                pm,
                n,
            ) by {
                if has_name(vpre, n) {
                } else {
                    assert(n == curn);
                }
            }
            // The active path of the caller stays outside the explored set.
            assert forall|n: Seq<char>| #[trigger] has_name(p0, n) implies !has_name(
                visited@,
                n,
            ) by {
                let i = choose|i: int| 0 <= i < p0.len() && p0[i]@ == n;
                assert(p0[i]@ != curn);
                assert(!has_name(vpre, n));
            }
            assert(has_name(visited@, curn)) by {
                assert(visited@.last()@ == curn);
            }
        }
        None
    }

    /// Scans every local workspace package for a circular dependency chain
    /// and reports the first one found.  Any chain reported is a genuine
    /// cycle, and a silent scan means no local package reaches a cycle at
    /// all: an acyclic workspace is always reported clean, a cyclic one
    /// never is.
    pub fn check_circular_dependencies(&self) -> (r: Option<Vec<String>>)
        requires
            self.wf(),
        ensures
            match r {
                Some(c) => {
                    &&& is_cycle_chain(self.pm(), strs_of(c@))
                    &&& exists|i: int|
                        0 <= i < self.package_set.entries().len()
                            && (#[trigger] self.package_set.entries()[i])@.is_local() && reaches(
                            self.pm(),
                            self.package_set.entries()[i]@.name(),
                            strs_of(c@).first(),
                        )
                    &&& forall|a: int, b: int|
                        0 <= a < b < strs_of(c@).len() - 1 ==> strs_of(c@)[a] != strs_of(c@)[b]
                },
                None => forall|i: int|
                    0 <= i < self.package_set.entries().len()
                        && (#[trigger] self.package_set.entries()[i])@.is_local()
                        ==> !reaches_cycle(self.pm(), self.package_set.entries()[i]@.name()),
            },
    {
        let ghost pm = self.pm();
        let ghost es = self.package_set.entries();
        let locals = self.local_packages();
        let ghost lms = locals@.map_values(|p: &crate::package::LocalPackage| p@);
        let mut i: usize = 0;
        while i < locals.len()
            invariant
                self.wf(),
                pm == self.pm(),
                es == self.package_set.entries(),
                lms == locals@.map_values(|p: &crate::package::LocalPackage| p@),
                lms == crate::query::locals_in(es),
                0 <= i <= lms.len(),
                forall|j: int| 0 <= j < i ==> !reaches_cycle(pm, (#[trigger] lms[j]).name),
            decreases lms.len() - i,
        {
            proof {
                assert(lms[i as int] == locals@[i as int]@);
            }
            match self.find_circular_dependency_chain(&locals[i].name) {
                Some(chain) => {
                    proof {
                        crate::query::lemma_locals_in_sound(es);
                        assert(crate::query::locals_in(es)[i as int] == lms[i as int]);
                        let w = choose|w: int|
                            0 <= w < es.len() && (#[trigger] es[w])@.is_local() && es[w]@->Local_0
                                == crate::query::locals_in(es)[i as int];
                        assert(es[w]@.name() == lms[i as int].name);
                        assert(locals@[i as int]@ == lms[i as int]);
                        assert(locals@[i as int].name@ == lms[i as int].name);
                        assert(reaches(pm, es[w]@.name(), strs_of(chain@).first()));
                    }
                    return Some(chain);
                },
                None => {},
            }
            i += 1;
        }
        proof {
            crate::query::lemma_locals_in_complete(es);
            assert forall|i: int|
                0 <= i < es.len() && (#[trigger] es[i])@.is_local() implies !reaches_cycle(
                pm,
                es[i]@.name(),
            ) by {
                assert(crate::query::locals_in(es).contains(es[i]@->Local_0));
                let j = choose|j: int| 0 <= j < lms.len() && lms[j] == es[i]@->Local_0;
                assert(!reaches_cycle(pm, lms[j].name));
                assert(lms[j].name == es[i]@.name());
            }
        }
        None
    }
}

} // verus!
