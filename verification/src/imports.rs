//! Import extraction from source text: the module name of an import
//! statement.

use vstd::prelude::*;

use crate::textutil::{
    find_idx, find_sub, is_prefix_of, space_idx, trim_view,
};

verus! {

/// Information about an import found in source code.
pub struct ImportInfo {
    /// The module name being imported.
    pub module_name: String,
    /// The file where this import was found.
    pub file_path: String,
    /// The line number where the import was found.
    pub line_number: usize,
}

/// The module name inside an import line: everything after the `import `
/// keyword, cut before a hiding clause, an import list or an alias, or —
/// failing those — the first whitespace-delimited token; trimmed.
pub open spec fn import_module_name(line: Seq<char>) -> Option<Seq<char>> {
    if !is_prefix_of("import "@, line) {
        None
    } else {
        let part = line.skip(7);
        let cut = if find_idx(part, " hiding"@, 0) is Some {
            part.take(find_idx(part, " hiding"@, 0)->Some_0)
        } else if find_idx(part, " ("@, 0) is Some {
            part.take(find_idx(part, " ("@, 0)->Some_0)
        } else if find_idx(part, " as "@, 0) is Some {
            part.take(find_idx(part, " as "@, 0)->Some_0)
        } else {
            let tp = trim_view(part);
            match space_idx(tp, 0) {
                Some(j) => tp.take(j),
                None => tp,
            }
        };
        Some(trim_view(cut))
    }
}

/// Extracts the module name from an import statement.
pub fn extract_module_name_from_import(import_line: &str) -> (r: Option<String>)
    ensures
        match r {
            Some(m) => import_module_name(import_line@) == Some(m@),
            None => import_module_name(import_line@) is None,
        },
{
    if !crate::textutil::str_starts_with(import_line, "import ") {
        return None;
    }
    proof {
        assert("import "@.len() == 7) by {
            reveal_strlit("import ");
        }
    }
    let n = import_line.unicode_len();
    let part = crate::textutil::substr(import_line, 7, n);
    proof {
        assert(part@ == import_line@.skip(7));
    }
    let cut: String = match find_sub(part.as_str(), " hiding") {
        Some(p) => {
            proof {
                crate::textutil::lemma_find_idx_some(part@, " hiding"@, 0, p as int);
            }
            crate::textutil::substr(part.as_str(), 0, p)
        },
        None => {
            proof {
                crate::textutil::lemma_find_idx_none(part@, " hiding"@, 0);
            }
            match find_sub(part.as_str(), " (") {
                Some(p) => {
                    proof {
                        crate::textutil::lemma_find_idx_some(part@, " ("@, 0, p as int);
                    }
                    crate::textutil::substr(part.as_str(), 0, p)
                },
                None => {
                    proof {
                        crate::textutil::lemma_find_idx_none(part@, " ("@, 0);
                    }
                    match find_sub(part.as_str(), " as ") {
                        Some(p) => {
                            proof {
                                crate::textutil::lemma_find_idx_some(part@, " as "@, 0, p as int);
                            }
                            crate::textutil::substr(part.as_str(), 0, p)
                        },
                        None => {
                            proof {
                                crate::textutil::lemma_find_idx_none(part@, " as "@, 0);
                            }
                            let tp = crate::textutil::trim_str(part.as_str());
                            match crate::textutil::find_space(tp.as_str()) {
                                Some(j) => crate::textutil::substr(tp.as_str(), 0, j),
                                None => tp,
                            }
                        },
                    }
                },
            }
        },
    };
    Some(crate::textutil::trim_str(cut.as_str()))
}

} // verus!
