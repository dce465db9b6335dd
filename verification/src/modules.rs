//! Module discovery support: extracting a module's name from source text
//! and rendering the module listing.

use vstd::prelude::*;

use crate::textutil::strs_of;
use crate::textutil::{
    find_idx, find_sub, is_prefix_of, split_seq, str_starts_with, substr, trim_str, trim_view,
};

verus! {

/// Information about a discovered module.
pub struct ModuleInfo {
    /// The module name.
    pub name: String,
    /// The file path where this module is defined.
    pub file_path: String,
    /// The package this module belongs to.
    pub package_name: String,
}

/// Mathematical image of a discovered module.
pub ghost struct ModuleInfoModel {
    pub name: Seq<char>,
    pub file_path: Seq<char>,
    pub package_name: Seq<char>,
}

impl View for ModuleInfo {
    type V = ModuleInfoModel;

    open spec fn view(&self) -> ModuleInfoModel {
        ModuleInfoModel {
            name: self.name@,
            file_path: self.file_path@,
            package_name: self.package_name@,
        }
    }
}

/// Options for the modules listing.
pub struct ModulesOptions {
    pub group_by_package: bool,
    pub package_filter: Option<String>,
    pub names_only: bool,
}

/// The module name inside the remainder of a module declaration line: cut
/// before an export list or the `where` keyword, then trimmed.
pub open spec fn module_name_in(part: Seq<char>) -> Seq<char> {
    let cut = match find_idx(part, "("@, 0) {
        Some(p) => part.take(p),
        None => match find_idx(part, " where"@, 0) {
            Some(p) => part.take(p),
            None => part,
        },
    };
    trim_view(cut)
}

/// What scanning the lines of a source file yields: the first module
/// declaration before any other code, skipping blank lines and comments.
pub open spec fn scan_module_lines(lines: Seq<Seq<char>>, in_block: bool) -> Option<Seq<char>>
    decreases lines.len(),
{
    if lines.len() == 0 {
        None
    } else {
        let t = trim_view(lines.first());
        if is_prefix_of("{-"@, t) {
            scan_module_lines(lines.drop_first(), true)
        } else if is_prefix_of("-}"@, t) {
            scan_module_lines(lines.drop_first(), false)
        } else if t.len() == 0 || is_prefix_of("--"@, t) || in_block {
            scan_module_lines(lines.drop_first(), in_block)
        } else if is_prefix_of("module "@, t) {
            Some(module_name_in(t.skip(7)))
        } else {
            None
        }
    }
}

/// Extracts the module name from source file content: the declaration must
/// stand before any other code, with blank lines and comments allowed
/// above it.
#[verifier::rlimit(60)]
pub fn extract_module_name_from_content(content: &str) -> (r: Option<String>)
    ensures
        match r {
            Some(m) => scan_module_lines(split_seq(content@, '\n'), false) == Some(m@),
            None => scan_module_lines(split_seq(content@, '\n'), false) is None,
        },
{
    proof {
        reveal_strlit("\n");
    }
    let lines = crate::textutil::split_char(content, "\n");
    let ghost ls = strs_of(lines@);
    proof {
        assert("\n"@[0] == '\n');
        assert(ls == split_seq(content@, '\n'));
        assert(ls.skip(0) =~= ls);
    }
    let mut is_comment_block = false;
    let mut i: usize = 0;
    while i < lines.len()
        invariant
            ls == strs_of(lines@),
            ls == split_seq(content@, '\n'),
            0 <= i <= ls.len(),
            scan_module_lines(ls, false) == scan_module_lines(ls.skip(i as int), is_comment_block),
        decreases ls.len() - i,
    {
        proof {
            assert(ls.skip(i as int).first() == ls[i as int]);
            assert(ls.skip(i as int).drop_first() =~= ls.skip(i + 1));
            assert(ls[i as int] == lines@[i as int]@);
        }
        let line = trim_str(lines[i].as_str());
        let ghost t = trim_view(ls[i as int]);
        if str_starts_with(line.as_str(), "{-") {
            is_comment_block = true;
        } else if str_starts_with(line.as_str(), "-}") {
            is_comment_block = false;
        } else if line.as_str().unicode_len() == 0 || str_starts_with(line.as_str(), "--")
            || is_comment_block {
        } else if str_starts_with(line.as_str(), "module ") {
            proof {
                assert("module "@.len() == 7) by {
                    reveal_strlit("module ");
                }
            }
            let part = substr(line.as_str(), 7, line.as_str().unicode_len());
            proof {
                assert(part@ == t.skip(7));
            }
            let cut: String = match find_sub(part.as_str(), "(") {
                Some(p) => {
                    proof {
                        crate::textutil::lemma_find_idx_some(part@, "("@, 0, p as int);
                    }
                    substr(part.as_str(), 0, p)
                },
                None => {
                    proof {
                        crate::textutil::lemma_find_idx_none(part@, "("@, 0);
                    }
                    match find_sub(part.as_str(), " where") {
                        Some(p) => {
                            proof {
                                crate::textutil::lemma_find_idx_some(part@, " where"@, 0, p as int);
                            }
                            substr(part.as_str(), 0, p)
                        },
                        None => {
                            proof {
                                crate::textutil::lemma_find_idx_none(part@, " where"@, 0);
                            }
                            let n = part.as_str().unicode_len();
                            substr(part.as_str(), 0, n)
                        },
                    }
                },
            };
            proof {
                assert(cut@ =~= match find_idx(t.skip(7), "("@, 0) {
                    Some(p) => t.skip(7).take(p),
                    None => match find_idx(t.skip(7), " where"@, 0) {
                        Some(p) => t.skip(7).take(p),
                        None => t.skip(7),
                    },
                });
            }
            let name = trim_str(cut.as_str());
            proof {
                assert(name@ == module_name_in(t.skip(7)));
            }
            return Some(name);
        } else {
            proof {
                assert(scan_module_lines(ls.skip(i as int), is_comment_block) is None);
            }
            return None;
        }
        i += 1;
    }
    proof {
        assert(ls.skip(ls.len() as int) =~= Seq::<Seq<char>>::empty());
    }
    None
}

/// The modules kept by a package filter, in order.
pub open spec fn filtered_modules(ms: Seq<ModuleInfoModel>, filt: Option<Seq<char>>) -> Seq<
    ModuleInfoModel,
>
    decreases ms.len(),
{
    if ms.len() == 0 {
        Seq::empty()
    } else {
        let rest = filtered_modules(ms.drop_last(), filt);
        match filt {
            Some(f) => if ms.last().package_name == f {
                rest.push(ms.last())
            } else {
                rest
            },
            None => rest.push(ms.last()),
        }
    }
}

/// The flat listing: one line per module, with its package in brackets
/// unless names only were asked for.
pub open spec fn flat_lines(ms: Seq<ModuleInfoModel>, with_package: bool) -> Seq<Seq<char>>
    decreases ms.len(),
{
    if ms.len() == 0 {
        Seq::empty()
    } else {
        flat_lines(ms.drop_last(), with_package).push(
            if with_package {
                ms.last().name + " ["@ + ms.last().package_name + "]"@
            } else {
                ms.last().name
            },
        )
    }
}

/// The views of a sequence of modules.
pub open spec fn module_models_of(s: Seq<ModuleInfo>) -> Seq<ModuleInfoModel> {
    s.map_values(|m: ModuleInfo| m@)
}

/// The distinct package names of a module list, in first-appearance order.
pub open spec fn pkgs_of(ms: Seq<ModuleInfoModel>) -> Seq<Seq<char>>
    decreases ms.len(),
{
    if ms.len() == 0 {
        Seq::empty()
    } else {
        let rest = pkgs_of(ms.drop_last());
        if rest.contains(ms.last().package_name) {
            rest
        } else {
            rest.push(ms.last().package_name)
        }
    }
}

/// The indented module-name lines of one package, in module order.
pub open spec fn indented_names(ms: Seq<ModuleInfoModel>, p: Seq<char>) -> Seq<Seq<char>>
    decreases ms.len(),
{
    if ms.len() == 0 {
        Seq::empty()
    } else {
        let rest = indented_names(ms.drop_last(), p);
        if ms.last().package_name == p {
            rest.push("  "@ + ms.last().name)
        } else {
            rest
        }
    }
}

/// The grouped listing: for each package in first-appearance order, its
/// name, its modules indented beneath it, and a blank separator line.
pub open spec fn grouped_lines(ms: Seq<ModuleInfoModel>, pkgs: Seq<Seq<char>>) -> Seq<Seq<char>>
    decreases pkgs.len(),
{
    if pkgs.len() == 0 {
        Seq::empty()
    } else {
        grouped_lines(ms, pkgs.drop_last()) + seq![pkgs.last()] + indented_names(
            ms,
            pkgs.last(),
        ) + seq![Seq::<char>::empty()]
    }
}

/// Renders the modules listing: modules filtered by package when a filter
/// is given; grouped under their packages when asked for, else one line
/// per module, names alone when names only were asked for or a filter
/// narrows to one package.
#[verifier::loop_isolation(false)]
#[verifier::rlimit(60)]
pub fn execute_modules_command(modules: Vec<ModuleInfo>, options: &ModulesOptions) -> (r: Vec<
    String,
>)
    ensures
        ({
            let fs = filtered_modules(
                module_models_of(modules@),
                match options.package_filter {
                    Some(f) => Some(f@),
                    None => None,
                },
            );
            strs_of(r@) == if options.group_by_package {
                grouped_lines(fs, pkgs_of(fs))
            } else {
                flat_lines(fs, !(options.names_only || options.package_filter is Some))
            }
        }),
{
    let ghost ms = module_models_of(modules@);
    let ghost filt: Option<Seq<char>> = match &options.package_filter {
        Some(f) => Some(f@),
        None => None,
    };
    let with_package = !(options.names_only || match &options.package_filter {
        Some(_) => true,
        None => false,
    });
    let mut kept: Vec<&ModuleInfo> = Vec::new();
    let mut i: usize = 0;
    while i < modules.len()
        invariant
            0 <= i <= modules@.len(),
            kept@.map_values(|m: &ModuleInfo| m@) =~= filtered_modules(ms.take(i as int), filt),
        decreases modules@.len() - i,
    {
        proof {
            assert(ms.take(i + 1).drop_last() =~= ms.take(i as int));
            assert(ms.take(i + 1).last() == ms[i as int]);
            assert(ms[i as int] == modules@[i as int]@);
        }
        let keep = match &options.package_filter {
            Some(f) => crate::textutil::str_eq(modules[i].package_name.as_str(), f.as_str()),
            None => true,
        };
        if keep {
            kept.push(&modules[i]);
        }
        i += 1;
    }
    proof {
        assert(ms.take(ms.len() as int) =~= ms);
    }
    let ghost fs = filtered_modules(ms, filt);
    if options.group_by_package {
        return render_grouped(&kept, Ghost(fs));
    }
    let mut lines: Vec<String> = Vec::new();
    let mut k: usize = 0;
    while k < kept.len()
        invariant
            0 <= k <= kept@.len(),
            kept@.map_values(|m: &ModuleInfo| m@) == fs,
            strs_of(lines@) =~= flat_lines(fs.take(k as int), with_package),
        decreases kept@.len() - k,
    {
        proof {
            assert(fs.take(k + 1).drop_last() =~= fs.take(k as int));
            assert(fs.take(k + 1).last() == fs[k as int]);
            assert(kept@.map_values(|m: &ModuleInfo| m@)[k as int] == kept@[k as int]@);
        }
        let ghost l0 = lines@;
        let m = kept[k];
        if with_package {
            lines.push(
                m.name.clone().concat(" [").concat(m.package_name.as_str()).concat("]"),
            );
        } else {
            lines.push(m.name.clone());
        }
        proof {
            assert(strs_of(lines@) =~= strs_of(l0).push(
                if with_package {
                    fs[k as int].name + " ["@ + fs[k as int].package_name + "]"@
                } else {
                    fs[k as int].name
                },
            ));
        }
        k += 1;
    }
    proof {
        assert(fs.take(fs.len() as int) =~= fs);
    }
    lines
}

/// Renders the grouped listing of an already-filtered module list.
#[verifier::loop_isolation(false)]
#[verifier::rlimit(60)]
fn render_grouped(kept: &Vec<&ModuleInfo>, fs: Ghost<Seq<ModuleInfoModel>>) -> (r: Vec<String>)
    requires
        kept@.map_values(|m: &ModuleInfo| m@) == fs@,
    ensures
        strs_of(r@) == grouped_lines(fs@, pkgs_of(fs@)),
{
    let mut pkgs: Vec<String> = Vec::new();
    let mut i: usize = 0;
    while i < kept.len()
        invariant
            kept@.map_values(|m: &ModuleInfo| m@) == fs@,
            0 <= i <= fs@.len(),
            strs_of(pkgs@) == pkgs_of(fs@.take(i as int)),
        decreases fs@.len() - i,
    {
        proof {
            assert(fs@.take(i + 1).drop_last() =~= fs@.take(i as int));
            assert(fs@.take(i + 1).last() == fs@[i as int]);
            assert(kept@.map_values(|m: &ModuleInfo| m@)[i as int] == kept@[i as int]@);
        }
        let ghost p0 = pkgs@;
        if !crate::textutil::contains_str(&pkgs, kept[i].package_name.as_str()) {
            pkgs.push(kept[i].package_name.clone());
            proof {
                crate::textutil::lemma_strs_contains(p0, fs@[i as int].package_name);
                assert(strs_of(pkgs@) =~= strs_of(p0).push(fs@[i as int].package_name));
            }
        } else {
            proof {
                crate::textutil::lemma_strs_contains(p0, fs@[i as int].package_name);
            }
        }
        i += 1;
    }
    proof {
        assert(fs@.take(fs@.len() as int) =~= fs@);
    }
    let ghost ps = strs_of(pkgs@);
    let mut lines: Vec<String> = Vec::new();
    let mut g: usize = 0;
    while g < pkgs.len()
        invariant
            kept@.map_values(|m: &ModuleInfo| m@) == fs@,
            ps == strs_of(pkgs@),
            ps == pkgs_of(fs@),
            0 <= g <= ps.len(),
            strs_of(lines@) == grouped_lines(fs@, ps.take(g as int)),
        decreases ps.len() - g,
    {
        proof {
            assert(ps.take(g + 1).drop_last() =~= ps.take(g as int));
            assert(ps.take(g + 1).last() == ps[g as int]);
            assert(ps[g as int] == pkgs@[g as int]@);
        }
        let ghost l0 = strs_of(lines@);
        lines.push(pkgs[g].clone());
        proof {
            assert(strs_of(lines@) =~= l0.push(ps[g as int]));
        }
        let ghost lh = strs_of(lines@);
        let mut k: usize = 0;
        while k < kept.len()
            invariant
                kept@.map_values(|m: &ModuleInfo| m@) == fs@,
                ps == strs_of(pkgs@),
                g < ps.len(),
                ps[g as int] == pkgs@[g as int]@,
                0 <= k <= fs@.len(),
                strs_of(lines@) =~= lh + indented_names(fs@.take(k as int), ps[g as int]),
            decreases fs@.len() - k,
        {
            proof {
                assert(fs@.take(k + 1).drop_last() =~= fs@.take(k as int));
                assert(fs@.take(k + 1).last() == fs@[k as int]);
                assert(kept@.map_values(|m: &ModuleInfo| m@)[k as int] == kept@[k as int]@);
            }
            let ghost l1 = strs_of(lines@);
            if crate::textutil::str_eq(kept[k].package_name.as_str(), pkgs[g].as_str()) {
                lines.push(String::from_str("  ").concat(kept[k].name.as_str()));
                proof {
                    assert(strs_of(lines@) =~= l1.push("  "@ + fs@[k as int].name));
                }
            }
            k += 1;
        }
        let ghost l2 = strs_of(lines@);
        lines.push(String::new());
        proof {
            assert(fs@.take(fs@.len() as int) =~= fs@);
            assert(strs_of(lines@) =~= l2.push(Seq::<char>::empty()));
            assert(strs_of(lines@) =~= grouped_lines(fs@, ps.take(g as int)) + seq![
                ps[g as int],
            ] + indented_names(fs@, ps[g as int]) + seq![Seq::<char>::empty()]);
            assert(strs_of(lines@) =~= grouped_lines(fs@, ps.take(g + 1)));
        }
        g += 1;
    }
    proof {
        assert(ps.take(ps.len() as int) =~= ps);
    }
    lines
}

} // verus!
