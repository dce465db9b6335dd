//! The dependency graph over a package set, as a mathematical object:
//! edges, paths, reachability, and the lemmas the graph algorithms rest on.

use vstd::prelude::*;

use crate::name::{has_name, PackageName};
use crate::package::{Package, PackageModel};

verus! {

/// A dependency edge: `a` is in the set and declares `b` as a dependency.
/// The target needs not be in the set itself.
pub open spec fn dep_edge(pm: Map<Seq<char>, PackageModel>, a: Seq<char>, b: Seq<char>) -> bool {
    pm.contains_key(a) && pm[a].dependencies().contains(b)
}

/// A non-empty walk along dependency edges.
pub open spec fn is_dep_path(pm: Map<Seq<char>, PackageModel>, p: Seq<Seq<char>>) -> bool {
    p.len() >= 1 && forall|i: int| #![trigger p[i]] 0 <= i < p.len() - 1 ==> dep_edge(pm, p[i], p[i + 1])
}

/// `to` is reachable from `from` along dependency edges (in zero or more
/// steps; every name reaches itself).
pub open spec fn reaches(pm: Map<Seq<char>, PackageModel>, from: Seq<char>, to: Seq<char>) -> bool {
    exists|p: Seq<Seq<char>>|
        is_dep_path(pm, p) && p.first() == from && p.last() == to
}

/// `to` is reachable from some name of the root list.
pub open spec fn reaches_any(
    pm: Map<Seq<char>, PackageModel>,
    roots: Seq<Seq<char>>,
    to: Seq<char>,
) -> bool {
    exists|r: Seq<char>| roots.contains(r) && reaches(pm, r, to)
}

/// Every name reaches itself.
pub proof fn lemma_reaches_refl(pm: Map<Seq<char>, PackageModel>, a: Seq<char>)
    ensures
        reaches(pm, a, a),
{
    let p = seq![a];
    assert(is_dep_path(pm, p) && p.first() == a && p.last() == a);
}

/// Reachability extends along one more edge.
pub proof fn lemma_reaches_step(
    pm: Map<Seq<char>, PackageModel>,
    a: Seq<char>,
    b: Seq<char>,
    c: Seq<char>,
)
    requires
        reaches(pm, a, b),
        dep_edge(pm, b, c),
    ensures
        reaches(pm, a, c),
{
    let p = choose|p: Seq<Seq<char>>| is_dep_path(pm, p) && p.first() == a && p.last() == b;
    let q = p.push(c);
    assert(q.last() == c);
    assert(q.first() == a);
    assert forall|i: int| #![trigger q[i]] 0 <= i < q.len() - 1 implies dep_edge(pm, q[i], q[i + 1]) by {
        if i < p.len() - 1 {
            assert(q[i] == p[i] && q[i + 1] == p[i + 1]);
        } else {
            assert(q[i] == p.last() && q[i + 1] == c);
        }
    }
    assert(is_dep_path(pm, q));
}

/// `to` is reachable from `from` in at most `k` dependency steps.
pub open spec fn within(
    pm: Map<Seq<char>, PackageModel>,
    from: Seq<char>,
    to: Seq<char>,
    k: int,
) -> bool {
    exists|p: Seq<Seq<char>>|
        is_dep_path(pm, p) && p.first() == from && p.last() == to && p.len() <= k + 1
}

/// Every name is within zero steps of itself.
pub proof fn lemma_within_refl(pm: Map<Seq<char>, PackageModel>, a: Seq<char>, k: int)
    requires
        k >= 0,
    ensures
        within(pm, a, a, k),
{
    let p = seq![a];
    assert(is_dep_path(pm, p) && p.first() == a && p.last() == a && p.len() <= k + 1);
}

/// A step bound only loosens as it grows.
pub proof fn lemma_within_mono(
    pm: Map<Seq<char>, PackageModel>,
    a: Seq<char>,
    b: Seq<char>,
    k1: int,
    k2: int,
)
    requires
        within(pm, a, b, k1),
        k1 <= k2,
    ensures
        within(pm, a, b, k2),
{
    let p = choose|p: Seq<Seq<char>>|
        is_dep_path(pm, p) && p.first() == a && p.last() == b && p.len() <= k1 + 1;
    assert(is_dep_path(pm, p) && p.first() == a && p.last() == b && p.len() <= k2 + 1);
}

/// One more edge costs one more step.
pub proof fn lemma_within_step(
    pm: Map<Seq<char>, PackageModel>,
    a: Seq<char>,
    b: Seq<char>,
    c: Seq<char>,
    k: int,
)
    requires
        within(pm, a, b, k),
        dep_edge(pm, b, c),
    ensures
        within(pm, a, c, k + 1),
{
    let p = choose|p: Seq<Seq<char>>|
        is_dep_path(pm, p) && p.first() == a && p.last() == b && p.len() <= k + 1;
    let q = p.push(c);
    assert(q.last() == c);
    assert(q.first() == a);
    assert forall|i: int| #![trigger q[i]] 0 <= i < q.len() - 1 implies dep_edge(
        pm,
        q[i],
        q[i + 1],
    ) by {
        if i < p.len() - 1 {
            assert(q[i] == p[i] && q[i + 1] == p[i + 1]);
        } else {
            assert(q[i] == p.last() && q[i + 1] == c);
        }
    }
    assert(is_dep_path(pm, q) && q.len() <= k + 2);
}

/// A path prefix bounds its endpoint by its position.
pub proof fn lemma_within_prefix(pm: Map<Seq<char>, PackageModel>, p: Seq<Seq<char>>, u: int)
    requires
        is_dep_path(pm, p),
        0 <= u < p.len(),
    ensures
        within(pm, p.first(), p[u], u),
{
    let q = p.take(u + 1);
    assert(q.first() == p.first());
    assert(q.last() == p[u]);
    assert forall|i: int| #![trigger q[i]] 0 <= i < q.len() - 1 implies dep_edge(
        pm,
        q[i],
        q[i + 1],
    ) by {
        assert(q[i] == p[i] && q[i + 1] == p[i + 1]);
    }
    assert(is_dep_path(pm, q) && q.len() <= u + 1);
}

/// A walk from inside a name list to outside it crosses the boundary
/// somewhere: some step leaves the list.
pub proof fn lemma_first_exit(p: Seq<Seq<char>>, vs: Seq<PackageName>)
    requires
        p.len() >= 1,
        has_name(vs, p.first()),
        !has_name(vs, p.last()),
    ensures
        exists|u: int|
            1 <= u < p.len() && has_name(vs, #[trigger] p[u - 1]) && !has_name(vs, p[u]),
    decreases p.len(),
{
    assert(p.len() >= 2);
    if has_name(vs, p[p.len() - 2]) {
        let u = p.len() - 1;
        assert(1 <= u < p.len() && has_name(vs, p[u - 1]) && !has_name(vs, p[u]));
    } else {
        let q = p.drop_last();
        assert(q.first() == p.first());
        assert(q.last() == p[p.len() - 2]);
        lemma_first_exit(q, vs);
        let u = choose|u: int|
            1 <= u < q.len() && has_name(vs, #[trigger] q[u - 1]) && !has_name(vs, q[u]);
        assert(q[u - 1] == p[u - 1] && q[u] == p[u]);
        assert(1 <= u < p.len() && has_name(vs, p[u - 1]) && !has_name(vs, p[u]));
    }
}

/// A name list is dependency-closed: with each listed name that is in the
/// set, it also lists all of that package's dependency names.
pub open spec fn dep_closed(pm: Map<Seq<char>, PackageModel>, vs: Seq<PackageName>) -> bool {
    forall|i: int, d: Seq<char>|
        #![trigger pm[vs[i]@].dependencies().contains(d)]
        0 <= i < vs.len() && pm.contains_key(vs[i]@) && pm[vs[i]@].dependencies().contains(d)
            ==> has_name(vs, d)
}

/// A dependency path that starts inside a dependency-closed name list
/// cannot leave it.
pub proof fn lemma_path_stays(
    pm: Map<Seq<char>, PackageModel>,
    p: Seq<Seq<char>>,
    vs: Seq<PackageName>,
)
    requires
        is_dep_path(pm, p),
        has_name(vs, p.first()),
        dep_closed(pm, vs),
    ensures
        has_name(vs, p.last()),
    decreases p.len(),
{
    if p.len() == 1 {
        assert(p.last() == p.first());
    } else {
        let q = p.drop_last();
        assert forall|i: int| #![trigger q[i]] 0 <= i < q.len() - 1 implies dep_edge(pm, q[i], q[i + 1]) by {
            assert(q[i] == p[i] && q[i + 1] == p[i + 1]);
        }
        assert(q.first() == p.first());
        lemma_path_stays(pm, q, vs);
        let b = q.last();
        let c = p.last();
        assert(dep_edge(pm, b, c)) by {
            assert(p[p.len() - 2] == b && p[p.len() - 1] == c);
        }
        let i = choose|i: int| 0 <= i < vs.len() && vs[i]@ == b;
        assert(pm[vs[i]@].dependencies().contains(c));
    }
}

/// Everything reachable from a member of a dependency-closed name list is
/// itself a member.
pub proof fn lemma_reaches_stays(
    pm: Map<Seq<char>, PackageModel>,
    from: Seq<char>,
    to: Seq<char>,
    vs: Seq<PackageName>,
)
    requires
        reaches(pm, from, to),
        has_name(vs, from),
        dep_closed(pm, vs),
    ensures
        has_name(vs, to),
{
    let p = choose|p: Seq<Seq<char>>| is_dep_path(pm, p) && p.first() == from && p.last() == to;
    lemma_path_stays(pm, p, vs);
}

/// Membership in a concatenation comes from either part.
pub proof fn lemma_app_contains<A>(a: Seq<A>, b: Seq<A>, x: A)
    requires
        a.contains(x) || b.contains(x),
    ensures
        (a + b).contains(x),
{
    if a.contains(x) {
        let i = choose|i: int| 0 <= i < a.len() && a[i] == x;
        assert((a + b)[i] == x);
    } else {
        let i = choose|i: int| 0 <= i < b.len() && b[i] == x;
        assert((a + b)[a.len() + i] == x);
    }
}

/// Membership in a concatenation splits over the parts.
pub proof fn lemma_app_contains_iff<A>(a: Seq<A>, b: Seq<A>, x: A)
    ensures
        (a + b).contains(x) <==> a.contains(x) || b.contains(x),
{
    if (a + b).contains(x) {
        let i = choose|i: int| 0 <= i < (a + b).len() && (a + b)[i] == x;
        if i < a.len() {
            assert(a[i] == x);
        } else {
            assert(b[i - a.len()] == x);
        }
    }
    if a.contains(x) || b.contains(x) {
        lemma_app_contains(a, b, x);
    }
}

/// Every name that the entries of a package set mention: each entry's own
/// name and each of its dependency names.
pub open spec fn universe_of(s: Seq<Package>) -> Seq<Seq<char>>
    decreases s.len(),
{
    if s.len() == 0 {
        Seq::empty()
    } else {
        universe_of(s.drop_last()) + seq![s.last()@.name()] + s.last()@.dependencies()
    }
}

/// The universe indeed covers every entry name and dependency name.
pub proof fn lemma_universe_covers(s: Seq<Package>)
    ensures
        forall|i: int|
            0 <= i < s.len() ==> universe_of(s).contains(#[trigger] s[i]@.name()),
        forall|i: int, d: Seq<char>|
            0 <= i < s.len() && #[trigger] s[i]@.dependencies().contains(d) ==> universe_of(
                s,
            ).contains(d),
    decreases s.len(),
{
    if s.len() > 0 {
        let t = s.drop_last();
        lemma_universe_covers(t);
        let u = universe_of(s);
        let w = s.len() - 1;
        assert forall|i: int| 0 <= i < s.len() implies u.contains(#[trigger] s[i]@.name()) by {
            if i < w {
                assert(t[i] == s[i]);
                lemma_app_contains(universe_of(t), seq![s.last()@.name()], s[i]@.name());
                lemma_app_contains(
                    universe_of(t) + seq![s.last()@.name()],
                    s.last()@.dependencies(),
                    s[i]@.name(),
                );
            } else {
                assert(seq![s.last()@.name()].contains(s[i]@.name())) by {
                    assert(seq![s.last()@.name()][0] == s[i]@.name());
                }
                lemma_app_contains(universe_of(t), seq![s.last()@.name()], s[i]@.name());
                lemma_app_contains(
                    universe_of(t) + seq![s.last()@.name()],
                    s.last()@.dependencies(),
                    s[i]@.name(),
                );
            }
        }
        assert forall|i: int, d: Seq<char>|
            0 <= i < s.len() && #[trigger] s[i]@.dependencies().contains(d) implies u.contains(
            d,
        ) by {
            if i < w {
                assert(t[i] == s[i]);
                lemma_app_contains(universe_of(t), seq![s.last()@.name()], d);
                lemma_app_contains(
                    universe_of(t) + seq![s.last()@.name()],
                    s.last()@.dependencies(),
                    d,
                );
            } else {
                lemma_app_contains(
                    universe_of(t) + seq![s.last()@.name()],
                    s.last()@.dependencies(),
                    d,
                );
            }
        }
    }
}

/// A duplicate-free name list whose views all occur in `u` is no longer
/// than `u`.
pub proof fn lemma_distinct_bound(vs: Seq<PackageName>, u: Seq<Seq<char>>)
    requires
        crate::name::distinct_names(vs),
        forall|i: int| 0 <= i < vs.len() ==> u.contains(#[trigger] vs[i]@),
    ensures
        vs.len() <= u.len(),
{
    broadcast use vstd::seq_lib::group_seq_properties;

    let ns = crate::name::names_of(vs);
    assert(ns.no_duplicates()) by {
        assert forall|i: int, j: int| 0 <= i < ns.len() && 0 <= j < ns.len() && i != j implies ns[i]
            != ns[j] by {
            assert(ns[i] == vs[i]@ && ns[j] == vs[j]@);
        }
    }
    ns.unique_seq_to_set();
    u.lemma_cardinality_of_set();
    assert(ns.to_set().subset_of(u.to_set())) by {
        assert forall|x: Seq<char>| ns.to_set().contains(x) implies u.to_set().contains(x) by {
            let i = choose|i: int| 0 <= i < ns.len() && ns[i] == x;
            assert(vs[i]@ == x);
            assert(u.contains(x));
        }
    }
    vstd::set_lib::lemma_len_subset(ns.to_set(), u.to_set());
}

/// In a well-formed package set every mapped value is the view of one of
/// the entries.
pub proof fn lemma_model_from_entry(s: Seq<Package>, k: Seq<char>)
    requires
        crate::package::entries_distinct(s),
        crate::package::set_model(s).contains_key(k),
    ensures
        exists|i: int|
            0 <= i < s.len() && s[i]@.name() == k && crate::package::set_model(s)[k] == s[i]@,
{
    crate::package::lemma_set_model_dom(s);
    crate::package::lemma_set_model_index(s);
    let i = choose|i: int| 0 <= i < s.len() && s[i]@.name() == k;
    assert(crate::package::set_model(s)[s[i]@.name()] == s[i]@);
}

} // verus!
