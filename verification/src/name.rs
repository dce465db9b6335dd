//! Package names: the key type of every package map in the crate.

use vstd::prelude::*;

verus! {

/// A package name, shared between all package kinds: an opaque,
/// case-sensitive string identity.  It is the unique key across all maps.
#[derive(Debug)]
pub struct PackageName(pub String);

impl View for PackageName {
    type V = Seq<char>;

    open spec fn view(&self) -> Seq<char> {
        self.0@
    }
}

impl PackageName {
    pub fn new(name: &str) -> (r: Self)
        ensures
            r@ == name@,
    {
        PackageName(name.to_owned())
    }
}

impl Clone for PackageName {
    fn clone(&self) -> (r: Self)
        ensures
            r == *self,
            r@ == self@,
    {
        PackageName(self.0.clone())
    }
}

impl PartialEq for PackageName {
    fn eq(&self, other: &Self) -> (r: bool)
    {
        self.0 == other.0
    }
}

impl Eq for PackageName {

}

impl vstd::std_specs::cmp::PartialEqSpecImpl for PackageName {
    open spec fn obeys_eq_spec() -> bool {
        true
    }

    open spec fn eq_spec(&self, other: &Self) -> bool {
        self@ == other@
    }
}

/// The sequence of views of a sequence of names.
pub open spec fn names_of(s: Seq<PackageName>) -> Seq<Seq<char>> {
    s.map_values(|n: PackageName| n@)
}

/// Whether some name in `s` has the view `n`.
pub open spec fn has_name(s: Seq<PackageName>, n: Seq<char>) -> bool {
    exists|i: int| 0 <= i < s.len() && s[i]@ == n
}

/// All views in `s` are pairwise different.
pub open spec fn distinct_names(s: Seq<PackageName>) -> bool {
    forall|i: int, j: int| 0 <= i < j < s.len() ==> s[i]@ != s[j]@
}

/// Whether the name list `v` holds a name with the view of `x`.
pub fn contains_name(v: &Vec<PackageName>, x: &PackageName) -> (r: bool)
    ensures
        r == has_name(v@, x@),
{
    let mut i: usize = 0;
    while i < v.len()
        invariant
            0 <= i <= v@.len(),
            forall|j: int| 0 <= j < i ==> v@[j]@ != x@,
        decreases v@.len() - i,
    {
        if v[i] == *x {
            return true;
        }
        i += 1;
    }
    false
}

/// Appends `x` to `v` unless a name with the same view is already there.
/// Keeps the list free of duplicates.
pub fn push_unique(v: &mut Vec<PackageName>, x: &PackageName)
    requires
        distinct_names(old(v)@),
    ensures
        distinct_names(final(v)@),
        has_name(final(v)@, x@),
        forall|n: Seq<char>|
            #[trigger] has_name(final(v)@, n) <==> has_name(old(v)@, n) || n == x@,
        old(v)@.len() <= final(v)@.len(),
        old(v)@ == final(v)@.subrange(0, old(v)@.len() as int),
        final(v)@.len() <= old(v)@.len() + 1,
        final(v)@ == if has_name(old(v)@, x@) {
            old(v)@
        } else {
            old(v)@.push(*x)
        },
{
    if !contains_name(v, x) {
        let ghost oldv = v@;
        v.push(x.clone());
        proof {
            assert forall|n: Seq<char>| #[trigger] has_name(v@, n) implies has_name(oldv, n) || n
                == x@ by {
                let i = choose|i: int| 0 <= i < v@.len() && v@[i]@ == n;
                if i < oldv.len() {
                    assert(oldv[i]@ == n);
                }
            }
            assert forall|n: Seq<char>| #[trigger] has_name(oldv, n) implies has_name(v@, n) by {
                let i = choose|i: int| 0 <= i < oldv.len() && oldv[i]@ == n;
                assert(v@[i]@ == n);
            }
            assert(v@[v@.len() - 1]@ == x@);
        }
    } else {
        assert(has_name(v@, x@));
    }
}

/// The views of a name list with later repetitions dropped: each name at
/// its first occurrence, in order.
pub open spec fn dedup_names(s: Seq<PackageName>) -> Seq<Seq<char>>
    decreases s.len(),
{
    if s.len() == 0 {
        Seq::empty()
    } else {
        let rest = dedup_names(s.drop_last());
        if names_of(s.drop_last()).contains(s.last()@) {
            rest
        } else {
            rest.push(s.last()@)
        }
    }
}

/// Deduplication keeps exactly the names of the input.
pub proof fn lemma_dedup_names_set(s: Seq<PackageName>)
    ensures
        forall|n: Seq<char>| #[trigger] dedup_names(s).contains(n) <==> names_of(s).contains(n),
    decreases s.len(),
{
    if s.len() > 0 {
        let t = s.drop_last();
        lemma_dedup_names_set(t);
        assert forall|n: Seq<char>| #[trigger] dedup_names(s).contains(n) implies names_of(
            s,
        ).contains(n) by {
            let w = choose|w: int| 0 <= w < dedup_names(s).len() && dedup_names(s)[w] == n;
            if w < dedup_names(t).len() {
                assert(dedup_names(t)[w] == n);
                assert(dedup_names(t).contains(n));
                let j = choose|j: int| 0 <= j < names_of(t).len() && names_of(t)[j] == n;
                assert(names_of(s)[j] == names_of(t)[j]);
            } else {
                assert(n == s.last()@);
                assert(names_of(s)[s.len() - 1] == n);
            }
        }
        assert forall|n: Seq<char>| names_of(s).contains(n) implies dedup_names(s).contains(
            n,
        ) by {
            let j = choose|j: int| 0 <= j < names_of(s).len() && names_of(s)[j] == n;
            if j < s.len() - 1 || names_of(t).contains(n) {
                assert(names_of(t).contains(n)) by {
                    if j < s.len() - 1 {
                        assert(names_of(t)[j] == names_of(s)[j]);
                    }
                }
                assert(dedup_names(t).contains(n));
                let w = choose|w: int|
                    0 <= w < dedup_names(t).len() && dedup_names(t)[w] == n;
                assert(dedup_names(s)[w] == n);
            } else {
                assert(n == s.last()@);
                assert(dedup_names(s).last() == n);
            }
        }
    }
}

/// A name list holds a view exactly when the sequence of its views does.
pub proof fn lemma_names_contains(s: Seq<PackageName>, n: Seq<char>)
    ensures
        has_name(s, n) <==> names_of(s).contains(n),
{
    if has_name(s, n) {
        let i = choose|i: int| 0 <= i < s.len() && s[i]@ == n;
        assert(names_of(s)[i] == n);
    }
    if names_of(s).contains(n) {
        let i = choose|i: int| 0 <= i < names_of(s).len() && names_of(s)[i] == n;
        assert(s[i]@ == n);
    }
}

/// Taking views commutes with concatenation.
pub proof fn lemma_names_of_app(a: Seq<PackageName>, b: Seq<PackageName>)
    ensures
        names_of(a + b) == names_of(a) + names_of(b),
{
    assert(names_of(a + b) =~= names_of(a) + names_of(b));
}

/// Appends one name to a first-occurrence-deduplicated list, keeping the
/// exact deduplicated order of the stream seen so far.
pub fn push_dedup(v: &mut Vec<PackageName>, base: Ghost<Seq<PackageName>>, x: &PackageName)
    requires
        distinct_names(old(v)@),
        names_of(old(v)@) == dedup_names(base@),
    ensures
        distinct_names(final(v)@),
        names_of(final(v)@) == dedup_names(base@.push(*x)),
{
    proof {
        lemma_dedup_names_set(base@);
        lemma_names_contains(v@, x@);
        assert(base@.push(*x).drop_last() =~= base@);
        assert(base@.push(*x).last() == *x);
    }
    let ghost o0 = v@;
    push_unique(v, x);
    proof {
        if has_name(o0, x@) {
            assert(names_of(o0).contains(x@));
            assert(names_of(base@).contains(x@));
        } else {
            assert(!names_of(o0).contains(x@)) by {
                if names_of(o0).contains(x@) {
                    let j = choose|j: int|
                        0 <= j < names_of(o0).len() && names_of(o0)[j] == x@;
                    assert(o0[j]@ == x@);
                }
            }
            assert(!names_of(base@).contains(x@));
            assert(names_of(v@) =~= names_of(o0).push(x@));
        }
    }
}

/// Appends every name of a list to a first-occurrence-deduplicated list,
/// keeping the exact deduplicated order of the stream seen so far.
pub fn extend_dedup(v: &mut Vec<PackageName>, base: Ghost<Seq<PackageName>>, src: &Vec<PackageName>)
    requires
        distinct_names(old(v)@),
        names_of(old(v)@) == dedup_names(base@),
    ensures
        distinct_names(final(v)@),
        names_of(final(v)@) == dedup_names(base@ + src@),
{
    let ghost b = base@;
    let ghost ss = src@;
    let mut k: usize = 0;
    proof {
        assert(b + ss.take(0) =~= b);
    }
    while k < src.len()
        invariant
            ss == src@,
            0 <= k <= ss.len(),
            distinct_names(v@),
            names_of(v@) == dedup_names(b + ss.take(k as int)),
        decreases ss.len() - k,
    {
        proof {
            assert((b + ss.take(k as int)).push(ss[k as int]) =~= b + ss.take(k + 1));
        }
        push_dedup(v, Ghost(b + ss.take(k as int)), &src[k]);
        k += 1;
    }
    proof {
        assert(b + ss.take(ss.len() as int) =~= b + ss);
    }
}


/// Strict lexicographic order on character sequences, by Unicode scalar
/// value — the order Rust's string comparison gives, since UTF-8 byte
/// order coincides with scalar order.
pub open spec fn str_lt(a: Seq<char>, b: Seq<char>) -> bool
    decreases a.len(),
{
    if b.len() == 0 {
        false
    } else if a.len() == 0 {
        true
    } else if (a.first() as u32) < (b.first() as u32) {
        true
    } else if (a.first() as u32) > (b.first() as u32) {
        false
    } else {
        str_lt(a.drop_first(), b.drop_first())
    }
}

/// A name list in strictly ascending lexicographic order.
pub open spec fn sorted_names(s: Seq<PackageName>) -> bool {
    forall|i: int, j: int| 0 <= i < j < s.len() ==> str_lt(s[i]@, s[j]@)
}

/// Lexicographic order is transitive.
pub proof fn lemma_str_lt_trans(a: Seq<char>, b: Seq<char>, c: Seq<char>)
    requires
        str_lt(a, b),
        str_lt(b, c),
    ensures
        str_lt(a, c),
    decreases a.len(),
{
    if a.len() > 0 {
        if (a.first() as u32) == (b.first() as u32) && (b.first() as u32) == (c.first()
            as u32) {
            lemma_str_lt_trans(a.drop_first(), b.drop_first(), c.drop_first());
        }
    }
}

/// Two sequences neither of which precedes the other are equal.
pub proof fn lemma_str_lt_connected(a: Seq<char>, b: Seq<char>)
    requires
        !str_lt(a, b),
        !str_lt(b, a),
    ensures
        a == b,
    decreases a.len(),
{
    if a.len() == 0 {
        assert(b.len() == 0);
        assert(a =~= b);
    } else {
        assert(b.len() > 0);
        assert((a.first() as u32) == (b.first() as u32));
        vstd::utf8::char_u32_cast(a.first(), a.first() as u32);
        vstd::utf8::char_u32_cast(b.first(), b.first() as u32);
        assert(a.first() == b.first());
        lemma_str_lt_connected(a.drop_first(), b.drop_first());
        assert(a =~= b) by {
            assert(a.len() == b.len());
            assert forall|i: int| 0 <= i < a.len() implies a[i] == b[i] by {
                if i > 0 {
                    assert(a.drop_first()[i - 1] == b.drop_first()[i - 1]);
                }
            }
        }
    }
}

/// Compares two names lexicographically.
pub fn name_lt(a: &PackageName, b: &PackageName) -> (r: bool)
    ensures
        r == str_lt(a@, b@),
{
    let sa = a.0.as_str();
    let sb = b.0.as_str();
    let alen = sa.unicode_len();
    let blen = sb.unicode_len();
    proof {
        assert(sa@.skip(0) =~= sa@);
        assert(sb@.skip(0) =~= sb@);
    }
    let mut i: usize = 0;
    while i < alen && i < blen
        invariant
            alen == sa@.len(),
            blen == sb@.len(),
            sa@ == a@,
            sb@ == b@,
            0 <= i,
            i <= alen,
            i <= blen,
            str_lt(a@, b@) == str_lt(sa@.skip(i as int), sb@.skip(i as int)),
        decreases alen - i,
    {
        let ca = sa.get_char(i);
        let cb = sb.get_char(i);
        proof {
            assert(sa@.skip(i as int).first() == sa@[i as int]);
            assert(sb@.skip(i as int).first() == sb@[i as int]);
            assert(sa@.skip(i as int).drop_first() =~= sa@.skip(i + 1));
            assert(sb@.skip(i as int).drop_first() =~= sb@.skip(i + 1));
        }
        if (ca as u32) < (cb as u32) {
            return true;
        }
        if (ca as u32) > (cb as u32) {
            return false;
        }
        i += 1;
    }
    proof {
        if i >= blen {
            assert(sb@.skip(i as int) =~= Seq::<char>::empty());
        } else {
            assert(sa@.skip(i as int) =~= Seq::<char>::empty());
        }
    }
    i < blen
}

/// Sorts a duplicate-free name list into ascending lexicographic order,
/// keeping exactly the same names.
#[verifier::loop_isolation(false)]
#[verifier::rlimit(60)]
pub fn sort_names(v: &mut Vec<PackageName>)
    requires
        distinct_names(old(v)@),
    ensures
        distinct_names(final(v)@),
        sorted_names(final(v)@),
        final(v)@.len() == old(v)@.len(),
        forall|n: Seq<char>| #[trigger] has_name(final(v)@, n) <==> has_name(old(v)@, n),
{
    let mut i: usize = 1;
    while i < v.len()
        invariant
            distinct_names(v@),
            v@.len() == old(v)@.len(),
            forall|n: Seq<char>| #[trigger] has_name(v@, n) <==> has_name(old(v)@, n),
            1 <= i,
            v@.len() == 0 || i <= v@.len(),
            forall|a: int, b: int| 0 <= a < b < i && b < v@.len() ==> str_lt(v@[a]@, v@[b]@),
        decreases v@.len() - i,
    {
        let mut j: usize = i;
        while j > 0 && name_lt(&v[j], &v[j - 1])
            invariant
                distinct_names(v@),
                v@.len() == old(v)@.len(),
                forall|n: Seq<char>| #[trigger] has_name(v@, n) <==> has_name(old(v)@, n),
                0 <= j <= i < v@.len(),
                forall|a: int, b: int|
                    0 <= a < b <= i && b != j ==> str_lt(v@[a]@, v@[b]@),
                forall|b: int| j < b <= i ==> str_lt(v@[j as int]@, v@[b]@),
            decreases j,
        {
            let ghost w0 = v@;
            let moving = v[j].clone();
            let other = v[j - 1].clone();
            v.set(j - 1, moving);
            v.set(j, other);
            proof {
                assert(v@ =~= w0.update(j - 1, w0[j as int]).update(j as int, w0[j - 1]));
                assert forall|n: Seq<char>| #[trigger] has_name(v@, n) implies has_name(
                    w0,
                    n,
                ) by {
                    let q = choose|q: int| 0 <= q < v@.len() && v@[q]@ == n;
                    if q == j - 1 {
                        assert(w0[j as int]@ == n);
                    } else if q == j {
                        assert(w0[j - 1]@ == n);
                    } else {
                        assert(w0[q]@ == n);
                    }
                }
                assert forall|n: Seq<char>| has_name(w0, n) implies has_name(v@, n) by {
                    let q = choose|q: int| 0 <= q < w0.len() && w0[q]@ == n;
                    if q == j - 1 {
                        assert(v@[j as int]@ == n);
                    } else if q == j {
                        assert(v@[j - 1]@ == n);
                    } else {
                        assert(v@[q]@ == n);
                    }
                }
                assert forall|n: Seq<char>| #[trigger] has_name(v@, n) implies has_name(
                    old(v)@,
                    n,
                ) by {
                    assert(has_name(w0, n));
                }
                assert forall|n: Seq<char>| has_name(old(v)@, n) implies #[trigger] has_name(
                    v@,
                    n,
                ) by {
                    assert(has_name(w0, n));
                }
                assert forall|a: int, b: int| 0 <= a < b < v@.len() implies v@[a]@ != v@[b]@ by {
                    let a0: int = if a == j - 1 {
                        j as int
                    } else if a == j {
                        j - 1
                    } else {
                        a
                    };
                    let b0: int = if b == j - 1 {
                        j as int
                    } else if b == j {
                        j - 1
                    } else {
                        b
                    };
                    assert(v@[a]@ == w0[a0]@ && v@[b]@ == w0[b0]@);
                }
                assert forall|a: int, b: int|
                    0 <= a < b <= i && b != j - 1 implies str_lt(v@[a]@, v@[b]@) by {
                    if b == j {
                        if a == j - 1 {
                            assert(v@[a]@ == w0[j as int]@ && v@[b]@ == w0[j - 1]@);
                        } else {
                            assert(v@[a]@ == w0[a]@ && v@[b]@ == w0[j - 1]@);
                            assert(str_lt(w0[a]@, w0[j - 1]@));
                        }
                    } else {
                        assert(v@[b]@ == w0[b]@);
                        if a == j - 1 {
                            assert(v@[a]@ == w0[j as int]@);
                            assert(str_lt(w0[j as int]@, w0[b]@));
                        } else if a == j {
                            assert(v@[a]@ == w0[j - 1]@);
                            assert(str_lt(w0[j - 1]@, w0[b]@));
                        } else {
                            assert(str_lt(w0[a]@, w0[b]@));
                        }
                    }
                }
                assert forall|b: int| #![trigger v@[b]] j - 1 < b <= i implies str_lt(
                    v@[j - 1]@,
                    v@[b]@,
                ) by {
                    assert(v@[j - 1]@ == w0[j as int]@);
                    if b == j {
                        assert(v@[b]@ == w0[j - 1]@);
                    } else {
                        assert(v@[b]@ == w0[b]@);
                        assert(str_lt(w0[j as int]@, w0[b]@));
                    }
                }
            }
            j -= 1;
        }
        proof {
            if j > 0 {
                assert(!str_lt(v@[j as int]@, v@[j - 1]@));
                assert(v@[j - 1]@ != v@[j as int]@);
                assert(str_lt(v@[j - 1]@, v@[j as int]@)) by {
                    if !str_lt(v@[j - 1]@, v@[j as int]@) {
                        lemma_str_lt_connected(v@[j - 1]@, v@[j as int]@);
                    }
                }
            }
            assert forall|a: int, b: int|
                0 <= a < b < i + 1 && b < v@.len() implies str_lt(v@[a]@, v@[b]@) by {
                if b == j && j > 0 {
                    if a < j - 1 {
                        assert(str_lt(v@[a]@, v@[j - 1]@));
                        lemma_str_lt_trans(v@[a]@, v@[j - 1]@, v@[j as int]@);
                    }
                } else {
                    assert(str_lt(v@[a]@, v@[b]@));
                }
            }
        }
        i += 1;
    }
    proof {
        if v@.len() > 0 {
            assert forall|a: int, b: int| 0 <= a < b < v@.len() implies str_lt(
                v@[a]@,
                v@[b]@,
            ) by {
                assert(str_lt(v@[a]@, v@[b]@));
            }
        }
    }
}

} // verus!
