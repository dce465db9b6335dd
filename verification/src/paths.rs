//! Path arithmetic on strings: normalisation of `.` and `..` components,
//! resolution against a base directory, relativisation, and the mapping of
//! source globs into paths relative to the output directory.

use vstd::prelude::*;

use crate::textutil::{find_idx, find_sub, split_seq, str_eq, substr};

verus! {

/// Whether a path string is absolute.
pub open spec fn is_abs(s: Seq<char>) -> bool {
    s.len() > 0 && s[0] == '/'
}

/// One step of path normalisation: empty and `.` components vanish, `..`
/// pops the last kept component if there is one, everything else is kept.
pub open spec fn norm_step(st: Seq<Seq<char>>, c: Seq<char>) -> Seq<Seq<char>> {
    if c.len() == 0 || c == "."@ {
        st
    } else if c == ".."@ {
        if st.len() > 0 {
            st.drop_last()
        } else {
            st
        }
    } else {
        st.push(c)
    }
}

/// The kept components after normalising a component list, left to right.
pub open spec fn norm_stack(cs: Seq<Seq<char>>) -> Seq<Seq<char>>
    decreases cs.len(),
{
    if cs.len() == 0 {
        Seq::empty()
    } else {
        norm_step(norm_stack(cs.drop_last()), cs.last())
    }
}

/// Components joined with `/` separators.
pub open spec fn join_slash(cs: Seq<Seq<char>>) -> Seq<char>
    decreases cs.len(),
{
    if cs.len() == 0 {
        Seq::empty()
    } else if cs.len() == 1 {
        cs[0]
    } else {
        join_slash(cs.drop_last()) + "/"@ + cs.last()
    }
}

/// A normalised path string: its kept components, `/`-joined, with the
/// leading `/` kept for absolute paths.
pub open spec fn norm_spec(s: Seq<char>) -> Seq<char> {
    (if is_abs(s) {
        "/"@
    } else {
        Seq::<char>::empty()
    }) + join_slash(norm_stack(split_seq(s, '/')))
}

/// A path resolved against a base: kept as is when absolute, otherwise
/// joined onto the base and normalised.
pub open spec fn resolve_spec(path: Seq<char>, base: Seq<char>) -> Seq<char> {
    if is_abs(path) {
        path
    } else {
        norm_spec(base + "/"@ + path)
    }
}

/// The non-empty, non-`.` components of a path.
pub open spec fn clean_comps(s: Seq<char>) -> Seq<Seq<char>> {
    clean_of(split_seq(s, '/'))
}

/// The components of a component list that name something.
pub open spec fn clean_of(cs: Seq<Seq<char>>) -> Seq<Seq<char>>
    decreases cs.len(),
{
    if cs.len() == 0 {
        Seq::empty()
    } else {
        let rest = clean_of(cs.drop_last());
        if cs.last().len() == 0 || cs.last() == "."@ {
            rest
        } else {
            rest.push(cs.last())
        }
    }
}

/// The length of the longest common prefix of two component lists.
pub open spec fn lcp(a: Seq<Seq<char>>, b: Seq<Seq<char>>) -> int
    decreases a.len(),
{
    if a.len() == 0 || b.len() == 0 {
        0
    } else if a.first() == b.first() {
        1 + lcp(a.drop_first(), b.drop_first())
    } else {
        0
    }
}

/// `n` parent-directory components.
pub open spec fn dots(n: int) -> Seq<Seq<char>>
    decreases n,
{
    if n <= 0 {
        Seq::empty()
    } else {
        dots(n - 1).push("..".view())
    }
}

/// The relative path from `to` to `from`: after the common prefix, one
/// `..` for each remaining component of `to`, then the remaining
/// components of `from`; `.` when nothing remains.
pub open spec fn relative_spec(from: Seq<char>, to: Seq<char>) -> Seq<char> {
    let fcs = clean_comps(from);
    let tcs = clean_comps(to);
    let k = lcp(fcs, tcs);
    let rel = dots(tcs.len() - k) + fcs.skip(k);
    if rel.len() == 0 {
        "."@
    } else {
        join_slash(rel)
    }
}

/// The longest common prefix is where the first mismatch lies.
proof fn lemma_lcp_at(a: Seq<Seq<char>>, b: Seq<Seq<char>>, k: int)
    requires
        0 <= k <= a.len(),
        k <= b.len(),
        forall|j: int| 0 <= j < k ==> a[j] == b[j],
        k < a.len() && k < b.len() ==> a[k] != b[k],
        k == a.len() || k == b.len() || a[k] != b[k],
    ensures
        lcp(a, b) == k,
    decreases k,
{
    if k == 0 {
        if a.len() > 0 && b.len() > 0 {
            assert(a.first() == a[0] && b.first() == b[0]);
        }
    } else {
        let a2 = a.drop_first();
        let b2 = b.drop_first();
        assert(a.first() == a[0] && b.first() == b[0]);
        assert forall|j: int| 0 <= j < k - 1 implies a2[j] == b2[j] by {
            assert(a2[j] == a[j + 1] && b2[j] == b[j + 1]);
        }
        if k - 1 < a2.len() && k - 1 < b2.len() {
            assert(a2[k - 1] == a[k] && b2[k - 1] == b[k]);
        }
        lemma_lcp_at(a2, b2, k - 1);
    }
}

/// Splits a path into its components.
fn path_comps(s: &str) -> (r: Vec<String>)
    ensures
        crate::textutil::strs_of(r@) == split_seq(s@, '/'),
{
    proof {
        reveal_strlit("/");
    }
    let r = crate::textutil::split_char(s, "/");
    proof {
        assert("/"@[0] == '/');
    }
    r
}

/// Whether the string is an absolute path.
fn is_absolute(s: &str) -> (r: bool)
    ensures
        r == is_abs(s@),
{
    s.unicode_len() > 0 && s.get_char(0) == '/'
}

/// Joins components with `/` separators.
#[verifier::loop_isolation(false)]
fn join_comps(cs: &Vec<String>, lead_slash: bool) -> (r: String)
    ensures
        r@ == (if lead_slash {
            "/"@
        } else {
            Seq::<char>::empty()
        }) + join_slash(crate::textutil::strs_of(cs@)),
{
    let ghost css = crate::textutil::strs_of(cs@);
    let ghost lead: Seq<char> = if lead_slash { "/"@ } else { Seq::empty() };
    let mut acc = if lead_slash {
        String::from_str("/")
    } else {
        String::new()
    };
    let mut k: usize = 0;
    while k < cs.len()
        invariant
            0 <= k <= css.len(),
            acc@ == lead + join_slash(css.take(k as int)),
        decreases css.len() - k,
    {
        proof {
            assert(css.take(k + 1).drop_last() =~= css.take(k as int));
            assert(css.take(k + 1).last() == css[k as int]);
            assert(css[k as int] == cs@[k as int]@);
        }
        if k == 0 {
            acc = acc.concat(cs[0].as_str());
            proof {
                assert(css.take(1) =~= seq![css[0]]);
                assert(join_slash(css.take(1)) == css[0]);
            }
        } else {
            acc = acc.concat("/").concat(cs[k].as_str());
            proof {
                assert(acc@ =~= lead + (join_slash(css.take(k as int)) + "/"@ + css[k as int]));
            }
        }
        k += 1;
    }
    proof {
        assert(css.take(css.len() as int) =~= css);
    }
    acc
}

/// Normalises a path by resolving `.` and `..` components textually, even
/// when nothing exists on disk at that path.
#[verifier::loop_isolation(false)]
pub fn normalize_path(path: &str) -> (r: String)
    ensures
        r@ == norm_spec(path@),
{
    let comps = path_comps(path);
    let ghost cs = crate::textutil::strs_of(comps@);
    let lead = is_absolute(path);
    let mut stack: Vec<String> = Vec::new();
    let mut i: usize = 0;
    proof {
        assert(crate::textutil::strs_of(stack@) =~= norm_stack(cs.take(0)));
    }
    while i < comps.len()
        invariant
            0 <= i <= cs.len(),
            cs == crate::textutil::strs_of(comps@),
            crate::textutil::strs_of(stack@) == norm_stack(cs.take(i as int)),
        decreases cs.len() - i,
    {
        proof {
            assert(cs.take(i + 1).drop_last() =~= cs.take(i as int));
            assert(cs.take(i + 1).last() == cs[i as int]);
            assert(cs[i as int] == comps@[i as int]@);
        }
        let c = &comps[i];
        let ghost st0 = crate::textutil::strs_of(stack@);
        if c.as_str().unicode_len() == 0 || str_eq(c.as_str(), ".") {
        } else if str_eq(c.as_str(), "..") {
            if stack.len() > 0 {
                stack.pop();
                proof {
                    assert(crate::textutil::strs_of(stack@) =~= st0.drop_last());
                }
            }
        } else {
            stack.push(c.clone());
            proof {
                assert(crate::textutil::strs_of(stack@) =~= st0.push(cs[i as int]));
            }
        }
        i += 1;
    }
    proof {
        assert(cs.take(cs.len() as int) =~= cs);
    }
    join_comps(&stack, lead)
}

/// Resolves a path to an absolute one: an absolute path is returned as it
/// stands, a relative one is joined onto the base and normalised.
pub fn resolve_to_absolute(path: &str, base: &str) -> (r: String)
    ensures
        r@ == resolve_spec(path@, base@),
{
    if is_absolute(path) {
        path.to_owned()
    } else {
        let joined = String::from_str(base).concat("/").concat(path);
        normalize_path(joined.as_str())
    }
}

/// The kept (non-empty, non-`.`) components of a path.
#[verifier::loop_isolation(false)]
fn clean_path_comps(s: &str) -> (r: Vec<String>)
    ensures
        crate::textutil::strs_of(r@) == clean_comps(s@),
{
    let comps = path_comps(s);
    let ghost cs = crate::textutil::strs_of(comps@);
    let mut out: Vec<String> = Vec::new();
    let mut i: usize = 0;
    while i < comps.len()
        invariant
            0 <= i <= cs.len(),
            cs == crate::textutil::strs_of(comps@),
            crate::textutil::strs_of(out@) == clean_of(cs.take(i as int)),
        decreases cs.len() - i,
    {
        proof {
            assert(cs.take(i + 1).drop_last() =~= cs.take(i as int));
            assert(cs.take(i + 1).last() == cs[i as int]);
            assert(cs[i as int] == comps@[i as int]@);
        }
        let ghost o0 = crate::textutil::strs_of(out@);
        if comps[i].as_str().unicode_len() == 0 || str_eq(comps[i].as_str(), ".") {
        } else {
            out.push(comps[i].clone());
            proof {
                assert(crate::textutil::strs_of(out@) =~= o0.push(cs[i as int]));
            }
        }
        i += 1;
    }
    proof {
        assert(cs.take(cs.len() as int) =~= cs);
        assert(clean_of(cs) == clean_comps(s@));
    }
    out
}

/// Makes `from` relative to `to`: strips the common prefix, then walks up
/// with `..` for what remains of `to` and down into what remains of
/// `from`.
#[verifier::loop_isolation(false)]
#[verifier::rlimit(60)]
pub fn make_relative(from: &str, to: &str) -> (r: String)
    ensures
        r@ == relative_spec(from@, to@),
{
    let fcs = clean_path_comps(from);
    let tcs = clean_path_comps(to);
    let ghost fs = crate::textutil::strs_of(fcs@);
    let ghost ts = crate::textutil::strs_of(tcs@);
    let mut k: usize = 0;
    while k < fcs.len() && k < tcs.len() && str_eq(fcs[k].as_str(), tcs[k].as_str())
        invariant
            fs == crate::textutil::strs_of(fcs@),
            ts == crate::textutil::strs_of(tcs@),
            0 <= k <= fs.len(),
            k <= ts.len(),
            forall|j: int| 0 <= j < k ==> fs[j] == ts[j],
        decreases fs.len() - k,
    {
        proof {
            assert(fs[k as int] == fcs@[k as int]@);
            assert(ts[k as int] == tcs@[k as int]@);
        }
        k += 1;
    }
    proof {
        assert(fs[k as int] == fcs@[k as int]@ || k >= fs.len());
        if k < fs.len() && k < ts.len() {
            assert(fs[k as int] == fcs@[k as int]@);
            assert(ts[k as int] == tcs@[k as int]@);
        }
        lemma_lcp_at(fs, ts, k as int);
    }
    let mut rel: Vec<String> = Vec::new();
    let mut u: usize = k;
    while u < tcs.len()
        invariant
            0 <= k <= u,
            u <= ts.len() || u == k,
            ts == crate::textutil::strs_of(tcs@),
            crate::textutil::strs_of(rel@) == dots(u - k),
        decreases ts.len() - u,
    {
        let ghost r0 = crate::textutil::strs_of(rel@);
        rel.push(String::from_str(".."));
        proof {
            assert(crate::textutil::strs_of(rel@) =~= r0.push(".."@));
            assert(dots(u + 1 - k) == dots(u - k).push(".."@));
        }
        u += 1;
    }
    proof {
        if k < ts.len() {
            assert(u == ts.len());
        }
        assert(crate::textutil::strs_of(rel@) == dots(ts.len() - k));
    }
    let ghost base = crate::textutil::strs_of(rel@);
    let mut w: usize = k;
    while w < fcs.len()
        invariant
            0 <= k <= w,
            w <= fs.len() || w == k,
            fs == crate::textutil::strs_of(fcs@),
            crate::textutil::strs_of(rel@) =~= base + fs.subrange(k as int, w as int),
        decreases fs.len() - w,
    {
        proof {
            assert(fs[w as int] == fcs@[w as int]@);
            assert(fs.subrange(k as int, w + 1) =~= fs.subrange(k as int, w as int).push(
                fs[w as int],
            ));
        }
        let ghost r0 = crate::textutil::strs_of(rel@);
        rel.push(fcs[w].clone());
        proof {
            assert(crate::textutil::strs_of(rel@) =~= r0.push(fs[w as int]));
        }
        w += 1;
    }
    proof {
        if k < fs.len() {
            assert(w == fs.len());
        }
        assert(fs.subrange(k as int, fs.len() as int) =~= fs.skip(k as int));
        assert(crate::textutil::strs_of(rel@) =~= dots(ts.len() - k) + fs.skip(k as int));
    }
    if rel.len() == 0 {
        String::from_str(".")
    } else {
        join_comps(&rel, false)
    }
}

/// The last occurrence of `/` in a component prefix, if any.
pub open spec fn rfind_slash(s: Seq<char>) -> Option<int>
    decreases s.len(),
{
    if s.len() == 0 {
        None
    } else if s.last() == '/' {
        Some(s.len() - 1)
    } else {
        rfind_slash(s.drop_last())
    }
}

/// Finds the last `/` of a string.
#[verifier::loop_isolation(false)]
fn rfind_slash_exec(s: &str) -> (r: Option<usize>)
    ensures
        match r {
            Some(i) => rfind_slash(s@) == Some(i as int) && i < s@.len(),
            None => rfind_slash(s@) is None,
        },
{
    let n = s.unicode_len();
    proof {
        assert(s@.take(n as int) =~= s@);
    }
    let mut i: usize = n;
    while i > 0
        invariant
            n == s@.len(),
            0 <= i <= n,
            rfind_slash(s@) == rfind_slash(s@.take(i as int)),
        decreases i,
    {
        proof {
            assert(s@.take(i as int).last() == s@[i - 1]);
            assert(s@.take(i as int).drop_last() =~= s@.take(i - 1));
        }
        if s.get_char(i - 1) == '/' {
            return Some(i - 1);
        }
        i -= 1;
    }
    proof {
        assert(s@.take(0) =~= Seq::<char>::empty());
    }
    None
}

/// Where one source entry is mapped when the compiler runs inside the
/// output directory: glob patterns keep their glob part and have their
/// base directory relativised; plain paths are resolved and relativised
/// whole.
pub open spec fn map_source_spec(src: Seq<char>, output_dir: Seq<char>, cwd: Seq<char>) -> Seq<
    char,
> {
    let od_abs = resolve_spec(output_dir, cwd);
    match find_idx(src, "*"@, 0) {
        Some(g) => {
            let base_part = src.take(g);
            let base_dir = match rfind_slash(base_part) {
                Some(ls) => base_part.take(ls + 1),
                None => if base_part.len() == 0 || base_part == "./"@ {
                    "./"@
                } else {
                    base_part
                },
            };
            let bdr = relative_spec(resolve_spec(base_dir, cwd), od_abs);
            let new_base: Seq<char> = if bdr == "."@ {
                Seq::empty()
            } else if bdr.len() > 0 && bdr.last() == '/' {
                bdr
            } else {
                bdr + "/"@
            };
            new_base + src.skip(g)
        },
        None => relative_spec(resolve_spec(src, cwd), od_abs),
    }
}

/// Maps one source entry to be relative to the output directory.
#[verifier::rlimit(60)]
pub fn map_source_to_output_dir(source: &str, output_dir: &str, cwd: &str) -> (r: String)
    ensures
        r@ == map_source_spec(source@, output_dir@, cwd@),
{
    let od_abs = resolve_to_absolute(output_dir, cwd);
    match find_sub(source, "*") {
        Some(g) => {
            proof {
                crate::textutil::lemma_find_idx_some(source@, "*"@, 0, g as int);
            }
            let base_part = substr(source, 0, g);
            let base_dir: String = match rfind_slash_exec(base_part.as_str()) {
                Some(ls) => substr(base_part.as_str(), 0, ls + 1),
                None => {
                    if base_part.as_str().unicode_len() == 0 || str_eq(base_part.as_str(), "./") {
                        String::from_str("./")
                    } else {
                        base_part
                    }
                },
            };
            let base_abs = resolve_to_absolute(base_dir.as_str(), cwd);
            let bdr = make_relative(base_abs.as_str(), od_abs.as_str());
            let new_base: String = if str_eq(bdr.as_str(), ".") {
                String::new()
            } else {
                let bn = bdr.as_str().unicode_len();
                if bn > 0 && bdr.as_str().get_char(bn - 1) == '/' {
                    bdr
                } else {
                    bdr.concat("/")
                }
            };
            let n = source.unicode_len();
            let glob_part = substr(source, g, n);
            new_base.concat(glob_part.as_str())
        },
        None => {
            proof {
                crate::textutil::lemma_find_idx_none(source@, "*"@, 0);
            }
            let src_abs = resolve_to_absolute(source, cwd);
            make_relative(src_abs.as_str(), od_abs.as_str())
        },
    }
}

/// Maps every source entry to be relative to the output directory, so
/// that the compiler can be run from there.
#[verifier::loop_isolation(false)]
pub fn map_sources_to_output_dir_impl(sources: &Vec<String>, output_dir: &str, cwd: &str) -> (r:
    Vec<String>)
    ensures
        r@.len() == sources@.len(),
        forall|i: int|
            0 <= i < r@.len() ==> (#[trigger] r@[i])@ == map_source_spec(
                sources@[i]@,
                output_dir@,
                cwd@,
            ),
{
    let mut out: Vec<String> = Vec::new();
    let mut i: usize = 0;
    while i < sources.len()
        invariant
            0 <= i <= sources@.len(),
            out@.len() == i,
            forall|j: int|
                0 <= j < i ==> (#[trigger] out@[j])@ == map_source_spec(
                    sources@[j]@,
                    output_dir@,
                    cwd@,
                ),
        decreases sources@.len() - i,
    {
        out.push(map_source_to_output_dir(sources[i].as_str(), output_dir, cwd));
        i += 1;
    }
    out
}

} // verus!
