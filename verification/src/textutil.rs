//! Character-level helpers on strings: equality, prefix and substring
//! search, trimming and line splitting, all specified over `Seq<char>`.

use vstd::prelude::*;

verus! {

/// The views of a sequence of strings.
pub open spec fn strs_of(s: Seq<String>) -> Seq<Seq<char>> {
    s.map_values(|x: String| x@)
}

/// Whether `pre` is a prefix of `s`.
pub open spec fn is_prefix_of(pre: Seq<char>, s: Seq<char>) -> bool {
    pre.len() <= s.len() && s.subrange(0, pre.len() as int) == pre
}

/// Whether `pat` occurs in `s` starting at position `i`.
pub open spec fn occurs_at(s: Seq<char>, pat: Seq<char>, i: int) -> bool {
    0 <= i && i + pat.len() <= s.len() && s.subrange(i, i + pat.len()) == pat
}

/// Whether `pat` occurs somewhere in `s`.
pub open spec fn contains_seq(s: Seq<char>, pat: Seq<char>) -> bool {
    exists|i: int| occurs_at(s, pat, i)
}

/// Character equality of two string slices.
pub fn str_eq(a: &str, b: &str) -> (r: bool)
    ensures
        r == (a@ == b@),
{
    let alen = a.unicode_len();
    let blen = b.unicode_len();
    if alen != blen {
        assert(a@ != b@) by {
            assert(a@.len() != b@.len());
        }
        return false;
    }
    let mut i: usize = 0;
    while i < alen
        invariant
            alen == a@.len(),
            blen == b@.len(),
            alen == blen,
            0 <= i <= alen,
            forall|j: int| 0 <= j < i ==> a@[j] == b@[j],
        decreases alen - i,
    {
        if a.get_char(i) != b.get_char(i) {
            return false;
        }
        i += 1;
    }
    proof {
        assert(a@ =~= b@);
    }
    true
}

/// Whether `s` starts with `pre`, checked character by character.
pub fn str_starts_with(s: &str, pre: &str) -> (r: bool)
    ensures
        r == is_prefix_of(pre@, s@),
{
    let slen = s.unicode_len();
    let plen = pre.unicode_len();
    if plen > slen {
        return false;
    }
    let mut i: usize = 0;
    while i < plen
        invariant
            slen == s@.len(),
            plen == pre@.len(),
            plen <= slen,
            0 <= i <= plen,
            forall|j: int| 0 <= j < i ==> s@[j] == pre@[j],
        decreases plen - i,
    {
        if s.get_char(i) != pre.get_char(i) {
            assert(!is_prefix_of(pre@, s@)) by {
                assert(s@.subrange(0, pre@.len() as int)[i as int] == s@[i as int]);
            }
            return false;
        }
        i += 1;
    }
    proof {
        assert(s@.subrange(0, pre@.len() as int) =~= pre@);
    }
    true
}

/// Whether `pat` occurs at position `i` of `s`.
pub fn occurs_at_exec(s: &str, pat: &str, i: usize) -> (r: bool)
    requires
        i <= s@.len(),
    ensures
        r == occurs_at(s@, pat@, i as int),
{
    let slen = s.unicode_len();
    let plen = pat.unicode_len();
    if plen > slen - i {
        return false;
    }
    let mut j: usize = 0;
    while j < plen
        invariant
            slen == s@.len(),
            plen == pat@.len(),
            i + plen <= slen,
            0 <= j <= plen,
            forall|k: int| 0 <= k < j ==> s@[i + k] == pat@[k],
        decreases plen - j,
    {
        if s.get_char(i + j) != pat.get_char(j) {
            assert(!occurs_at(s@, pat@, i as int)) by {
                assert(s@.subrange(i as int, i + pat@.len())[j as int] == s@[i + j]);
            }
            return false;
        }
        j += 1;
    }
    proof {
        assert(s@.subrange(i as int, i + pat@.len()) =~= pat@);
    }
    true
}

/// The first position at or after `from` where `pat` occurs in `s`, if any.
pub fn find_from(s: &str, pat: &str, from: usize) -> (r: Option<usize>)
    requires
        from <= s@.len(),
    ensures
        match r {
            Some(i) => from <= i && occurs_at(s@, pat@, i as int) && forall|j: int|
                from <= j < i ==> !occurs_at(s@, pat@, j),
            None => forall|j: int| from <= j ==> !occurs_at(s@, pat@, j),
        },
{
    let slen = s.unicode_len();
    let mut i: usize = from;
    while i < slen
        invariant
            slen == s@.len(),
            from <= i <= slen,
            from <= slen,
            forall|j: int| from <= j < i ==> !occurs_at(s@, pat@, j),
        decreases slen - i,
    {
        if occurs_at_exec(s, pat, i) {
            return Some(i);
        }
        i += 1;
    }
    if occurs_at_exec(s, pat, i) {
        return Some(i);
    }
    assert forall|j: int| from <= j implies !occurs_at(s@, pat@, j) by {
        if j <= slen {
            assert(!occurs_at(s@, pat@, j));
        }
    }
    None
}

/// The first occurrence of `pat` in `s`, if any.
pub fn find_sub(s: &str, pat: &str) -> (r: Option<usize>)
    ensures
        match r {
            Some(i) => occurs_at(s@, pat@, i as int) && forall|j: int|
                0 <= j < i ==> !occurs_at(s@, pat@, j),
            None => !contains_seq(s@, pat@),
        },
{
    find_from(s, pat, 0)
}

/// Whether `pat` occurs anywhere in `s`.
pub fn contains_sub(s: &str, pat: &str) -> (r: bool)
    ensures
        r == contains_seq(s@, pat@),
{
    match find_sub(s, pat) {
        Some(_) => true,
        None => false,
    }
}

/// The characters counted as whitespace when lines are trimmed.
pub open spec fn is_space(c: char) -> bool {
    c == ' ' || c == '\t' || c == '\r' || c == '\n'
}

/// `s` without its leading whitespace.
pub open spec fn trim_front(s: Seq<char>) -> Seq<char>
    decreases s.len(),
{
    if s.len() > 0 && is_space(s.first()) {
        trim_front(s.drop_first())
    } else {
        s
    }
}

/// `s` without its trailing whitespace.
pub open spec fn trim_back(s: Seq<char>) -> Seq<char>
    decreases s.len(),
{
    if s.len() > 0 && is_space(s.last()) {
        trim_back(s.drop_last())
    } else {
        s
    }
}

/// `s` with leading and trailing whitespace removed.
pub open spec fn trim_view(s: Seq<char>) -> Seq<char> {
    trim_back(trim_front(s))
}

/// The position of the first occurrence of `pat` in `s` at or after
/// `from`, if any.
pub open spec fn find_idx(s: Seq<char>, pat: Seq<char>, from: int) -> Option<int>
    recommends
        0 <= from <= s.len(),
    decreases s.len() - from,
{
    if from < 0 || from > s.len() {
        None
    } else if occurs_at(s, pat, from) {
        Some(from)
    } else if from == s.len() {
        None
    } else {
        find_idx(s, pat, from + 1)
    }
}

/// A first occurrence pins `find_idx` down.
pub proof fn lemma_find_idx_some(s: Seq<char>, pat: Seq<char>, from: int, i: int)
    requires
        0 <= from <= i,
        i <= s.len(),
        occurs_at(s, pat, i),
        forall|j: int| from <= j < i ==> !occurs_at(s, pat, j),
    ensures
        find_idx(s, pat, from) == Some(i),
    decreases i - from,
{
    if from < i {
        lemma_find_idx_some(s, pat, from + 1, i);
    }
}

/// No occurrence at all means `find_idx` finds nothing.
pub proof fn lemma_find_idx_none(s: Seq<char>, pat: Seq<char>, from: int)
    requires
        0 <= from <= s.len(),
        forall|j: int| from <= j ==> !occurs_at(s, pat, j),
    ensures
        find_idx(s, pat, from) is None,
    decreases s.len() - from,
{
    if from < s.len() {
        lemma_find_idx_none(s, pat, from + 1);
    }
}

/// The pieces of `s` between occurrences of the separator character; an
/// empty input is the single empty piece.
pub open spec fn split_seq(s: Seq<char>, sep: char) -> Seq<Seq<char>>
    decreases s.len(),
{
    if s.len() == 0 {
        seq![Seq::empty()]
    } else {
        let rest = split_seq(s.drop_first(), sep);
        if s.first() == sep {
            seq![Seq::<char>::empty()] + rest
        } else {
            seq![seq![s.first()] + rest.first()] + rest.drop_first()
        }
    }
}

/// Splitting at the first separator occurrence peels one piece off.
pub proof fn lemma_split_at_first(s: Seq<char>, sep: char, i: int)
    requires
        0 <= i < s.len(),
        s[i] == sep,
        forall|j: int| 0 <= j < i ==> s[j] != sep,
    ensures
        split_seq(s, sep) == seq![s.take(i)] + split_seq(s.skip(i + 1), sep),
    decreases i,
{
    if i == 0 {
        assert(s.first() == sep);
        assert(s.take(0) =~= Seq::<char>::empty());
        assert(s.skip(1) =~= s.drop_first());
        assert(split_seq(s, sep) =~= seq![s.take(0)] + split_seq(s.skip(1), sep));
    } else {
        let u = s.drop_first();
        assert(u[i - 1] == sep) by {
            assert(u[i - 1] == s[i]);
        }
        assert forall|j: int| 0 <= j < i - 1 implies u[j] != sep by {
            assert(u[j] == s[j + 1]);
        }
        lemma_split_at_first(u, sep, i - 1);
        assert(s.first() != sep);
        assert(u.take(i - 1) =~= s.take(i).drop_first());
        assert(u.skip(i) =~= s.skip(i + 1));
        assert(seq![s.first()] + (seq![u.take(i - 1)] + split_seq(u.skip(i), sep)).first()
            =~= s.take(i));
        assert((seq![u.take(i - 1)] + split_seq(u.skip(i), sep)).drop_first() =~= split_seq(
            s.skip(i + 1),
            sep,
        ));
        assert(split_seq(s, sep) =~= seq![s.take(i)] + split_seq(s.skip(i + 1), sep));
    }
}

/// With no separator at all, the whole string is the single piece.
pub proof fn lemma_split_none(s: Seq<char>, sep: char)
    requires
        forall|j: int| 0 <= j < s.len() ==> s[j] != sep,
    ensures
        split_seq(s, sep) == seq![s],
    decreases s.len(),
{
    if s.len() > 0 {
        let u = s.drop_first();
        assert forall|j: int| 0 <= j < u.len() implies u[j] != sep by {
            assert(u[j] == s[j + 1]);
        }
        lemma_split_none(u, sep);
        assert(s.first() != sep) by {
            assert(s[0] == s.first());
        }
        assert(seq![s.first()] + u =~= s);
        assert(split_seq(s, sep) =~= seq![s]);
    } else {
        assert(s =~= Seq::<char>::empty());
        assert(split_seq(s, sep) =~= seq![s]);
    }
}

/// Whether a character counts as whitespace for trimming.
pub fn is_space_char(c: char) -> (r: bool)
    ensures
        r == is_space(c),
{
    c == ' ' || c == '\t' || c == '\r' || c == '\n'
}

/// The substring of `s` between the character positions `from` and `to`,
/// as an owned string.
pub fn substr(s: &str, from: usize, to: usize) -> (r: String)
    requires
        from <= to <= s@.len(),
    ensures
        r@ == s@.subrange(from as int, to as int),
{
    s.substring_char(from, to).to_owned()
}

/// Removes leading and trailing whitespace.
pub fn trim_str(s: &str) -> (r: String)
    ensures
        r@ == trim_view(s@),
{
    let n = s.unicode_len();
    proof {
        assert(s@.skip(0) =~= s@);
    }
    let mut a: usize = 0;
    while a < n && is_space_char(s.get_char(a))
        invariant
            n == s@.len(),
            0 <= a <= n,
            trim_front(s@) == trim_front(s@.skip(a as int)),
        decreases n - a,
    {
        proof {
            assert(s@.skip(a as int).first() == s@[a as int]);
            assert(s@.skip(a as int).drop_first() =~= s@.skip(a + 1));
        }
        a += 1;
    }
    proof {
        if a < n {
            assert(s@.skip(a as int).first() == s@[a as int]);
            assert(trim_front(s@.skip(a as int)) == s@.skip(a as int));
        } else {
            assert(s@.skip(a as int) =~= Seq::<char>::empty());
            assert(trim_front(s@.skip(a as int)) == s@.skip(a as int));
        }
    }
    let mut b: usize = n;
    while b > a && is_space_char(s.get_char(b - 1))
        invariant
            n == s@.len(),
            0 <= a <= b <= n,
            trim_front(s@) == s@.skip(a as int),
            trim_back(s@.skip(a as int)) == trim_back(s@.subrange(a as int, b as int)),
        decreases b,
    {
        proof {
            assert(s@.subrange(a as int, b as int).last() == s@[b - 1]);
            assert(s@.subrange(a as int, b as int).drop_last() =~= s@.subrange(a as int, b - 1));
        }
        b -= 1;
    }
    proof {
        assert(s@.skip(a as int) =~= s@.subrange(a as int, n as int));
        if b > a {
            assert(s@.subrange(a as int, b as int).last() == s@[b - 1]);
            assert(trim_back(s@.subrange(a as int, b as int)) == s@.subrange(a as int, b as int));
        } else {
            assert(s@.subrange(a as int, b as int) =~= Seq::<char>::empty());
            assert(trim_back(s@.subrange(a as int, b as int)) == s@.subrange(a as int, b as int));
        }
    }
    substr(s, a, b)
}

/// The first whitespace position at or after `from`, if any.
pub open spec fn space_idx(s: Seq<char>, from: int) -> Option<int>
    recommends
        0 <= from <= s.len(),
    decreases s.len() - from,
{
    if from < 0 || from >= s.len() {
        None
    } else if is_space(s[from]) {
        Some(from)
    } else {
        space_idx(s, from + 1)
    }
}

/// Finds the first whitespace character of `s`, if any.
pub fn find_space(s: &str) -> (r: Option<usize>)
    ensures
        match r {
            Some(i) => space_idx(s@, 0) == Some(i as int) && i < s@.len(),
            None => space_idx(s@, 0) is None,
        },
{
    let n = s.unicode_len();
    let mut i: usize = 0;
    while i < n
        invariant
            n == s@.len(),
            0 <= i <= n,
            space_idx(s@, 0) == space_idx(s@, i as int),
        decreases n - i,
    {
        if is_space_char(s.get_char(i)) {
            return Some(i);
        }
        i += 1;
    }
    None
}

/// Splits `s` at every occurrence of the separator, exactly as
/// `split_seq` states it.
pub fn split_char(s: &str, sep: &str) -> (r: Vec<String>)
    requires
        sep@.len() == 1,
    ensures
        strs_of(r@) == split_seq(s@, sep@[0]),
{
    let slen = s.unicode_len();
    let ghost c = sep@[0];
    let mut out: Vec<String> = Vec::new();
    let mut start: usize = 0;
    proof {
        assert(s@.skip(0) =~= s@);
        assert(strs_of(out@) =~= Seq::<Seq<char>>::empty());
    }
    loop
        invariant_except_break
            sep@.len() == 1,
            c == sep@[0],
            slen == s@.len(),
            0 <= start <= slen,
            split_seq(s@, c) =~= strs_of(out@) + split_seq(
                s@.skip(start as int),
                c,
            ),
        ensures
            strs_of(out@) =~= split_seq(s@, c),
        decreases slen - start,
    {
        let ghost o0 = out@;
        let ghost u = s@.skip(start as int);
        match find_from(s, sep, start) {
            Some(i) => {
                proof {
                    assert(occurs_at(s@, sep@, i as int));
                    assert(s@[i as int] == c) by {
                        assert(s@.subrange(i as int, i + 1)[0] == s@[i as int]);
                    }
                    assert(u[i - start] == c);
                    assert forall|j: int| 0 <= j < i - start implies u[j] != c by {
                        assert(u[j] == s@[start + j]);
                        assert(!occurs_at(s@, sep@, start + j));
                        assert(s@.subrange(start + j, start + j + 1)[0] == s@[start + j]);
                        if s@[start + j] == c {
                            assert(s@.subrange(start + j, start + j + 1) =~= sep@);
                        }
                    }
                    lemma_split_at_first(u, c, i - start);
                    assert(u.take(i - start) =~= s@.subrange(start as int, i as int));
                    assert(u.skip(i - start + 1) =~= s@.skip(i + 1));
                }
                out.push(substr(s, start, i));
                proof {
                    assert(strs_of(out@) =~= strs_of(o0).push(
                        s@.subrange(start as int, i as int),
                    ));
                    assert(split_seq(s@, c) =~= strs_of(out@) + split_seq(
                        s@.skip(i + 1),
                        c,
                    ));
                }
                start = i + 1;
            },
            None => {
                proof {
                    assert forall|j: int| 0 <= j < u.len() implies u[j] != c by {
                        assert(u[j] == s@[start + j]);
                        assert(!occurs_at(s@, sep@, start + j));
                        assert(s@.subrange(start + j, start + j + 1)[0] == s@[start + j]);
                        if s@[start + j] == c {
                            assert(s@.subrange(start + j, start + j + 1) =~= sep@);
                        }
                    }
                    lemma_split_none(u, c);
                    assert(u =~= s@.subrange(start as int, slen as int));
                }
                out.push(substr(s, start, slen));
                proof {
                    assert(strs_of(out@) =~= strs_of(o0).push(u));
                    assert(strs_of(out@) =~= split_seq(s@, c));
                }
                break;
            },
        }
    }
    out
}

/// Whether some string in `v` has the view `x`.
pub open spec fn has_str(s: Seq<String>, x: Seq<char>) -> bool {
    exists|i: int| 0 <= i < s.len() && s[i]@ == x
}

/// All views in `s` are pairwise different.
pub open spec fn distinct_strs(s: Seq<String>) -> bool {
    forall|i: int, j: int| 0 <= i < j < s.len() ==> s[i]@ != s[j]@
}

/// Whether the string list holds a string with the view of `x`.
pub fn contains_str(v: &Vec<String>, x: &str) -> (r: bool)
    ensures
        r == has_str(v@, x@),
{
    let mut i: usize = 0;
    while i < v.len()
        invariant
            0 <= i <= v@.len(),
            forall|j: int| 0 <= j < i ==> v@[j]@ != x@,
        decreases v@.len() - i,
    {
        if str_eq(v[i].as_str(), x) {
            return true;
        }
        i += 1;
    }
    false
}

/// A string list holds a view exactly when the sequence of its views does.
pub proof fn lemma_strs_contains(s: Seq<String>, x: Seq<char>)
    ensures
        has_str(s, x) <==> strs_of(s).contains(x),
{
    if has_str(s, x) {
        let i = choose|i: int| 0 <= i < s.len() && s[i]@ == x;
        assert(strs_of(s)[i] == x);
    }
    if strs_of(s).contains(x) {
        let i = choose|i: int| 0 <= i < strs_of(s).len() && strs_of(s)[i] == x;
        assert(s[i]@ == x);
    }
}

/// Appends `x` to `v` unless a string with the same view is already there.
pub fn push_unique_str(v: &mut Vec<String>, x: &str)
    requires
        distinct_strs(old(v)@),
    ensures
        distinct_strs(final(v)@),
        has_str(final(v)@, x@),
        forall|n: Seq<char>| #[trigger] has_str(final(v)@, n) <==> has_str(old(v)@, n) || n == x@,
{
    if !contains_str(v, x) {
        let ghost oldv = v@;
        v.push(x.to_owned());
        proof {
            assert forall|n: Seq<char>| #[trigger] has_str(v@, n) implies has_str(oldv, n) || n
                == x@ by {
                let i = choose|i: int| 0 <= i < v@.len() && v@[i]@ == n;
                if i < oldv.len() {
                    assert(oldv[i]@ == n);
                }
            }
            assert forall|n: Seq<char>| #[trigger] has_str(oldv, n) implies has_str(v@, n) by {
                let i = choose|i: int| 0 <= i < oldv.len() && oldv[i]@ == n;
                assert(v@[i]@ == n);
            }
            assert(v@[v@.len() - 1]@ == x@);
        }
    } else {
        assert(has_str(v@, x@));
    }
}

/// Relies on str::to_lowercase of std; the result depends on the
/// characters of the input alone.
pub uninterp spec fn lower_of(s: Seq<char>) -> Seq<char>;

/// Lower-cases a string.  Relies on str::to_lowercase: the result is a
/// function of the input characters alone, and an empty input gives an
/// empty result.
#[verifier::external_body]
pub fn to_lowercase(s: &str) -> (r: String)
    ensures
        r@ == lower_of(s@),
        s@.len() == 0 ==> r@.len() == 0,
{
    s.to_lowercase()
}

} // verus!
