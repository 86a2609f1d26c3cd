//! Extraction of import request strings from a source text.
//!
//! The scan itself is an external collaborator: a regular-expression pass
//! that finds the import directives and captures the `<path>.wgsl` token of
//! each.  Its result is named by [`import_split`]; everything downstream is
//! verified against that name.

use vstd::prelude::*;
use vstd::string::{StringExecFns, StrSliceExecFns};
use crate::filetree::FileTree;
use crate::module::{Module, spec_resolve};
use crate::names::NameAssignment;
use crate::paths::{DirPath, ends_with_wgsl};
use crate::strutil::{spec_spaces, space_string};

verus! {

/// The decomposition of a source text by the import-directive scan: a list
/// of (gap, path) pairs, in text order, and the trailing gap.  Each `path`
/// is the captured request token of one directive; each `gap` is the text
/// between the previous capture and this one.
pub uninterp spec fn import_split(source: Seq<char>) -> (Seq<(Seq<char>, Seq<char>)>, Seq<char>);

/// The request strings of a source text, in scan order.
pub open spec fn split_paths(source: Seq<char>) -> Seq<Seq<char>> {
    import_split(source).0.map_values(|p: (Seq<char>, Seq<char>)| p.1)
}

/// Reassembles a decomposition into the original text.
pub open spec fn rejoin(parts: Seq<(Seq<char>, Seq<char>)>, tail: Seq<char>) -> Seq<char>
    decreases parts.len(),
{
    if parts.len() == 0 {
        tail
    } else {
        parts[0].0 + parts[0].1 + rejoin(parts.drop_first(), tail)
    }
}

/// The whitespace characters that end a request token.
pub open spec fn is_space_char(c: char) -> bool {
    c == ' ' || c == '\t' || c == '\n' || c == '\r'
}

/// The shape of every captured request token: it ends in `.wgsl` and holds
/// no whitespace.
pub open spec fn import_path_token(p: Seq<char>) -> bool {
    ends_with_wgsl(p) && forall|i: int| 0 <= i < p.len() ==> !is_space_char(#[trigger] p[i])
}

/// Relies on `regex::Regex::captures_iter` with the directive pattern
/// `(?:^|\n)\s*#?\s*import\s+([^\s]+?\.wgsl)` (the `#` before a directive
/// is optional): matches come in text order and do not overlap, each
/// captured token is nonempty non-whitespace text ending in `.wgsl`, and
/// gaps plus captures reassemble to the input.
#[verifier::external_body]
fn split_on_imports(source: &str) -> (r: (Vec<(String, String)>, String))
    ensures
        (r.0@.map_values(|p: (String, String)| (p.0@, p.1@)), r.1@) == import_split(source@),
        rejoin(r.0@.map_values(|p: (String, String)| (p.0@, p.1@)), r.1@) == source@,
        forall|k: int| 0 <= k < r.0@.len() ==> import_path_token((#[trigger] r.0@[k]).1@),
{
    let re = regex::Regex::new(r"(?:^|\n)\s*#?\s*import\s+([^\s]+?\.wgsl)").unwrap();
    let mut out: Vec<(String, String)> = Vec::new();
    let mut last: usize = 0;
    for caps in re.captures_iter(source) {
        let g = caps.get(1).unwrap();
        out.push((source[last..g.start()].to_string(), g.as_str().to_string()));
        last = g.end();
    }
    (out, source[last..].to_string())
}

/// `s` with later duplicates removed: the first occurrence of each element
/// is kept, in order.
pub open spec fn spec_dedup(s: Seq<Seq<char>>) -> Seq<Seq<char>>
    decreases s.len(),
{
    if s.len() == 0 {
        Seq::empty()
    } else if s.drop_last().contains(s.last()) {
        spec_dedup(s.drop_last())
    } else {
        spec_dedup(s.drop_last()).push(s.last())
    }
}

pub proof fn lemma_dedup_contains(s: Seq<Seq<char>>, x: Seq<char>)
    ensures
        spec_dedup(s).contains(x) == s.contains(x),
    decreases s.len(),
{
    if s.len() > 0 {
        lemma_dedup_contains(s.drop_last(), x);
        if s.contains(x) {
            let i = choose|i: int| 0 <= i < s.len() && s[i] == x;
            if i < s.len() - 1 {
                assert(s.drop_last()[i] == x);
                if !s.drop_last().contains(s.last()) {
                    assert(spec_dedup(s) == spec_dedup(s.drop_last()).push(s.last()));
                    let j = choose|j: int|
                        0 <= j < spec_dedup(s.drop_last()).len() && spec_dedup(s.drop_last())[j] == x;
                    assert(spec_dedup(s)[j] == x);
                }
            } else {
                if s.drop_last().contains(s.last()) {
                    // covered by the recursive case
                } else {
                    assert(spec_dedup(s).last() == x);
                }
            }
        } else {
            assert(!s.drop_last().contains(x)) by {
                if s.drop_last().contains(x) {
                    let i = choose|i: int| 0 <= i < s.drop_last().len() && s.drop_last()[i] == x;
                    assert(s[i] == x);
                }
            }
            if !s.drop_last().contains(s.last()) {
                if spec_dedup(s).contains(x) {
                    let j = choose|j: int| 0 <= j < spec_dedup(s).len() && spec_dedup(s)[j] == x;
                    if j < spec_dedup(s).len() - 1 {
                        assert(spec_dedup(s.drop_last())[j] == x);
                    } else {
                        assert(s.contains(s.last()));
                    }
                    assert(false);
                }
            }
        }
    }
}

pub proof fn lemma_dedup_no_duplicates(s: Seq<Seq<char>>)
    ensures
        spec_dedup(s).no_duplicates(),
    decreases s.len(),
{
    if s.len() > 0 {
        lemma_dedup_no_duplicates(s.drop_last());
        if !s.drop_last().contains(s.last()) {
            lemma_dedup_contains(s.drop_last(), s.last());
            let d = spec_dedup(s.drop_last());
            assert forall|i: int, j: int|
                0 <= i < d.push(s.last()).len() && 0 <= j < d.push(s.last()).len() && i != j
                    implies d.push(s.last())[i] != d.push(s.last())[j] by {
                if i < d.len() && j < d.len() {
                    assert(d.push(s.last())[i] == d[i] && d.push(s.last())[j] == d[j]);
                } else if i < d.len() {
                    assert(d.push(s.last())[i] == d[i]);
                    if d[i] == s.last() {
                        assert(d.contains(s.last()));
                    }
                } else {
                    assert(d.push(s.last())[j] == d[j]);
                    if d[j] == s.last() {
                        assert(d.contains(s.last()));
                    }
                }
            }
        }
    }
}

/// Whether some element of `v` reads the same as `x`.
fn vec_contains_string(v: &Vec<String>, x: &String) -> (r: bool)
    ensures
        r == v@.map_values(|s: String| s@).contains(x@),
{
    let ghost vw = v@.map_values(|s: String| s@);
    let mut i: usize = 0;
    while i < v.len()
        invariant
            vw == v@.map_values(|s: String| s@),
            i <= v@.len(),
            forall|j: int| 0 <= j < i ==> vw[j] != x@,
        decreases v@.len() - i,
    {
        if v[i] == *x {
            proof {
                assert(vw[i as int] == x@);
            }
            return true;
        }
        proof {
            assert(vw[i as int] == v@[i as int]@);
        }
        i = i + 1;
    }
    false
}

/// Finds all import directives in a source text, returning the distinct
/// requested paths in order of first appearance.
pub fn all_imports_in_source(source: &str) -> (r: Vec<String>)
    ensures
        r@.map_values(|s: String| s@) == spec_dedup(split_paths(source@)),
        r@.map_values(|s: String| s@).no_duplicates(),
{
    let (parts, _tail) = split_on_imports(source);
    let ghost paths = split_paths(source@);
    let mut r: Vec<String> = Vec::new();
    let mut i: usize = 0;
    proof {
        assert(r@.map_values(|s: String| s@) =~= spec_dedup(paths.take(0)));
    }
    while i < parts.len()
        invariant
            paths == split_paths(source@),
            paths == parts@.map_values(|p: (String, String)| (p.0@, p.1@)).map_values(
                |p: (Seq<char>, Seq<char>)| p.1,
            ),
            i <= parts@.len(),
            paths.len() == parts@.len(),
            r@.map_values(|s: String| s@) == spec_dedup(paths.take(i as int)),
        decreases parts@.len() - i,
    {
        let p = &parts[i].1;
        proof {
            assert(paths[i as int] == p@);
            assert(paths.take(i + 1).drop_last() =~= paths.take(i as int));
            assert(paths.take(i + 1).last() == p@);
            lemma_dedup_contains(paths.take(i as int), p@);
        }
        if !vec_contains_string(&r, p) {
            let ghost rw = r@;
            r.push(p.clone());
            proof {
                assert(r@.map_values(|s: String| s@) =~= rw.map_values(|s: String| s@).push(p@));
            }
        }
        i = i + 1;
    }
    proof {
        assert(paths.take(paths.len() as int) =~= paths);
        lemma_dedup_no_duplicates(paths);
    }
    r
}


/// `name`, right-aligned with spaces to at least `width` characters, so
/// that a substituted alias keeps the directive's original width.
pub open spec fn spec_aligned(name: Seq<char>, width: int) -> Seq<char> {
    if name.len() < width {
        spec_spaces((width - name.len()) as nat) + name
    } else {
        name
    }
}

/// What one captured request is rewritten to: the alias of the module it
/// resolves to, right-aligned to the request's width; a request that does
/// not resolve, or resolves outside the assignment, stays as it is.
pub open spec fn spec_substituted(
    tree: FileTree,
    importing: Seq<Seq<char>>,
    rd: Seq<Seq<char>>,
    na: NameAssignment,
    path: Seq<char>,
) -> Seq<char> {
    match spec_resolve(tree, importing, rd, path) {
        Some(p) => match na.spec_alias(p) {
            Some(nm) => spec_aligned(nm, path.len() as int),
            None => path,
        },
        None => path,
    }
}

/// The whole rewritten text: every gap kept, every captured request
/// substituted.
pub open spec fn spec_rewrite(
    tree: FileTree,
    importing: Seq<Seq<char>>,
    rd: Seq<Seq<char>>,
    na: NameAssignment,
    parts: Seq<(Seq<char>, Seq<char>)>,
    tail: Seq<char>,
) -> Seq<char>
    decreases parts.len(),
{
    if parts.len() == 0 {
        tail
    } else {
        parts[0].0 + spec_substituted(tree, importing, rd, na, parts[0].1) + spec_rewrite(
            tree,
            importing,
            rd,
            na,
            parts.drop_first(),
            tail,
        )
    }
}

/// Rewrites every import directive of `source`, replacing each requested
/// path with the alias assigned to the module it resolves to, right-aligned
/// to the width of the original request.
pub fn replace_imports_in_source(
    source: &str,
    importing: &Module,
    tree: &FileTree,
    project_root: &DirPath,
    module_names: &NameAssignment,
) -> (r: String)
    requires
        tree.wf(),
        importing.wf(),
        module_names.wf(),
    ensures
        r@ == spec_rewrite(
            *tree,
            importing@,
            project_root@,
            *module_names,
            import_split(source@).0,
            import_split(source@).1,
        ),
        import_split(source@).0.len() == 0 ==> r@ == source@,
{
    let (parts, tail) = split_on_imports(source);
    let ghost pv = parts@.map_values(|p: (String, String)| (p.0@, p.1@));
    let ghost tl = tail@;
    let mut out = String::new();
    let mut i: usize = 0;
    proof {
        assert(pv.skip(0) =~= pv);
    }
    while i < parts.len()
        invariant
            tree.wf(),
            importing.wf(),
            module_names.wf(),
            pv == parts@.map_values(|p: (String, String)| (p.0@, p.1@)),
            (pv, tl) == import_split(source@),
            i <= parts@.len(),
            spec_rewrite(*tree, importing@, project_root@, *module_names, pv, tl) == out@
                + spec_rewrite(
                *tree,
                importing@,
                project_root@,
                *module_names,
                pv.skip(i as int),
                tl,
            ),
        decreases parts@.len() - i,
    {
        let ghost out0 = out@;
        let gap = &parts[i].0;
        let path = &parts[i].1;
        proof {
            assert(pv[i as int] == (gap@, path@));
            assert(pv.skip(i as int)[0] == pv[i as int]);
            assert(pv.skip(i as int).drop_first() =~= pv.skip(i + 1));
        }
        out.append(gap.as_str());
        match Module::resolve_module(tree, importing, project_root, path.as_str()) {
            Ok(m) => {
                match module_names.lookup(&m) {
                    Some(nm_ref) => {
                        let nm = nm_ref.clone();
                        let w = path.as_str().unicode_len();
                        let nl = nm.as_str().unicode_len();
                        if nl < w {
                            let pad = space_string(w - nl);
                            out.append(pad.as_str());
                        }
                        out.append(nm.as_str());
                        proof {
                            assert(out@ =~= out0 + gap@ + spec_substituted(
                                *tree,
                                importing@,
                                project_root@,
                                *module_names,
                                path@,
                            ));
                        }
                    },
                    None => {
                        out.append(path.as_str());
                        proof {
                            assert(out@ =~= out0 + gap@ + spec_substituted(
                                *tree,
                                importing@,
                                project_root@,
                                *module_names,
                                path@,
                            ));
                        }
                    },
                }
            },
            Err(_) => {
                out.append(path.as_str());
                proof {
                    assert(out@ =~= out0 + gap@ + spec_substituted(
                        *tree,
                        importing@,
                        project_root@,
                        *module_names,
                        path@,
                    ));
                }
            },
        }
        proof {
            assert(spec_rewrite(
                *tree,
                importing@,
                project_root@,
                *module_names,
                pv.skip(i as int),
                tl,
            ) == gap@ + spec_substituted(*tree, importing@, project_root@, *module_names, path@)
                + spec_rewrite(
                *tree,
                importing@,
                project_root@,
                *module_names,
                pv.skip(i + 1),
                tl,
            ));
            assert(out@ + spec_rewrite(
                *tree,
                importing@,
                project_root@,
                *module_names,
                pv.skip(i + 1),
                tl,
            ) =~= out0 + gap@ + spec_substituted(
                *tree,
                importing@,
                project_root@,
                *module_names,
                path@,
            ) + spec_rewrite(
                *tree,
                importing@,
                project_root@,
                *module_names,
                pv.skip(i + 1),
                tl,
            ));
        }
        i = i + 1;
    }
    proof {
        assert(pv.skip(parts@.len() as int) =~= Seq::<(Seq<char>, Seq<char>)>::empty());
    }
    out.append(tail.as_str());
    out
}

} // verus!
