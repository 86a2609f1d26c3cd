//! A shader source tied to a project root: validation of the entry file,
//! the exports of its top level, and the files a composition pass depends
//! on.  The composition itself is a downstream concern; this module owns
//! everything about it that is a pure function of the snapshot.

use vstd::prelude::*;
use vstd::string::{StringExecFns, StrSliceExecFns};
use crate::exports::{Export, spec_exports, strip_exports};
use crate::filetree::FileTree;
use crate::module::{Module, join_display, resolve_components, resolved_candidate, spec_join_display};
use crate::paths::{AbsoluteWgslPath, DirPath};

verus! {

/// Why an entry file could not be opened as a source.
#[derive(Debug)]
pub enum SourcecodeError {
    /// No file exists at the location the request names.  `searched`
    /// renders that location.  A found file always carries the required
    /// extension, because the snapshot admits no other files.
    NotFound { requested: String, searched: String },
}

/// A root shader file within a project, with its top-level exports and the
/// files that resolution passes over it have depended on.
pub struct Sourcecode {
    pub exports: Vec<Export>,
    pub root_module: Module,
    pub project_root: DirPath,
    pub dependents: Vec<AbsoluteWgslPath>,
}

/// A relative rendering of a component sequence: components joined by `/`
/// with no leading separator.
pub open spec fn spec_rel_dir(p: Seq<Seq<char>>) -> Seq<char>
    decreases p.len(),
{
    if p.len() == 0 {
        Seq::empty()
    } else if p.len() == 1 {
        p[0]
    } else {
        spec_rel_dir(p.drop_last()) + "/"@ + p.last()
    }
}

/// Renders the components of `path` from position `depth` on, joined by
/// `/` without a leading separator.
fn render_relative(path: &AbsoluteWgslPath, depth: usize) -> (r: String)
    requires
        depth <= path@.len(),
    ensures
        r@ == spec_rel_dir(path@.skip(depth as int)),
{
    let mut rstr = String::new();
    let d = path.depth();
    let mut i = depth;
    while i < d
        invariant
            depth <= i <= d,
            d == path@.len(),
            rstr@ == spec_rel_dir(path@.subrange(depth as int, i as int)),
        decreases d - i,
    {
        if i > depth {
            rstr.append("/");
        }
        rstr.append(path.component(i).as_str());
        proof {
            let sub = path@.subrange(depth as int, i + 1);
            if i == depth {
                assert(sub.len() == 1 && sub[0] == path@[i as int]);
                assert(rstr@ =~= spec_rel_dir(sub));
            } else {
                assert(sub.drop_last() =~= path@.subrange(depth as int, i as int));
                assert(sub.last() == path@[i as int]);
                assert(rstr@ =~= spec_rel_dir(sub));
            }
        }
        i = i + 1;
    }
    proof {
        assert(path@.subrange(depth as int, d as int) =~= path@.skip(depth as int));
    }
    rstr
}

/// Whether the text holds a `#define` preprocessor statement anywhere.
/// Only top-level files may: an imported file that does is rejected before
/// it reaches the downstream composer.
pub open spec fn spec_contains_define(s: Seq<char>) -> bool {
    exists|i: int| 0 <= i <= s.len() - 7 && #[trigger] s.subrange(i, i + 7) == "#define"@
}

pub fn contains_define(source: &str) -> (r: bool)
    ensures
        r == spec_contains_define(source@),
{
    let n = source.unicode_len();
    if n < 7 {
        return false;
    }
    let mut i: usize = 0;
    while i <= n - 7
        invariant
            n == source@.len(),
            7 <= n,
            i <= n - 6,
            forall|j: int| 0 <= j < i ==> #[trigger] source@.subrange(j, j + 7) != "#define"@,
        decreases n - i,
    {
        let hit = source.get_char(i) == '#' && source.get_char(i + 1) == 'd' && source.get_char(
            i + 2,
        ) == 'e' && source.get_char(i + 3) == 'f' && source.get_char(i + 4) == 'i'
            && source.get_char(i + 5) == 'n' && source.get_char(i + 6) == 'e';
        proof {
            reveal_strlit("#define");
            let sub = source@.subrange(i as int, i + 7);
            if hit {
                assert(sub =~= "#define"@);
            } else {
                if sub == "#define"@ {
                    assert(sub[0] == '#' && sub[1] == 'd' && sub[2] == 'e' && sub[3] == 'f'
                        && sub[4] == 'i' && sub[5] == 'n' && sub[6] == 'e');
                }
            }
        }
        if hit {
            return true;
        }
        i = i + 1;
    }
    false
}

impl Sourcecode {
    pub open spec fn wf(&self) -> bool {
        &&& self.root_module.wf()
        &&& self.project_root.wf()
        &&& forall|k: int| 0 <= k < self.dependents@.len() ==> (#[trigger] self.dependents@[k]).wf()
    }

    /// Opens the entry file named by `path`, resolved against the project
    /// root, and records the exports of its top level.  Fails exactly when
    /// no file exists at that location.
    pub fn new(tree: &FileTree, project_root: DirPath, path: &str) -> (r: Result<
        Sourcecode,
        SourcecodeError,
    >)
        requires
            tree.wf(),
            project_root.wf(),
        ensures
            ({
                let cand = resolved_candidate(project_root@, path@);
                match r {
                    Ok(s) => {
                        &&& tree.contains_path(cand)
                        &&& s.wf()
                        &&& s.root_module@ == cand
                        &&& s.project_root@ == project_root@
                        &&& s.dependents@.len() == 0
                        &&& s.exports@.map_values(|e: Export| e.name_view()) == spec_exports(
                            tree.text_of(cand),
                        )
                    },
                    Err(e) => {
                        &&& !tree.contains_path(cand)
                        &&& e matches SourcecodeError::NotFound { requested, searched }
                            && requested@ == path@ && searched@ == spec_join_display(
                            project_root@,
                            path@,
                        )
                    },
                }
            }),
    {
        let rootc = crate::paths::clone_components(&project_root.components);
        let cand = resolve_components(&rootc, path);
        let idx = match tree.find_components(&cand) {
            Some(i) => i,
            None => {
                let searched = join_display(&rootc, path);
                return Err(
                    SourcecodeError::NotFound { requested: path.to_owned(), searched },
                );
            },
        };
        let root_path = tree.path_at(idx).duplicate();
        proof {
            assert(tree.entries@[idx as int].0.wf());
            tree.lemma_entry_text(idx as int);
        }
        let text = tree.text_at(idx);
        let (_stripped, exports) = strip_exports(text.as_str());
        Ok(
            Sourcecode {
                exports,
                root_module: Module { path: root_path },
                project_root,
                dependents: Vec::new(),
            },
        )
    }

    /// The exports declared at the top level of the entry file.
    pub fn exports(&self) -> (r: &Vec<Export>)
        ensures
            r == &self.exports,
    {
        &self.exports
    }

    /// Records that a resolution pass depended on `path`.
    pub fn push_dependent(&mut self, path: AbsoluteWgslPath)
        requires
            old(self).wf(),
            path.wf(),
        ensures
            final(self).wf(),
            final(self).dependents@ == old(self).dependents@.push(path),
            final(self).exports == old(self).exports,
            final(self).root_module == old(self).root_module,
            final(self).project_root == old(self).project_root,
    {
        self.dependents.push(path);
    }

    /// The recorded dependents, rendered relative to the project root.  A
    /// dependent outside the project root is rendered absolutely instead,
    /// since no relative form exists.
    pub fn relative_dependents(&self) -> (r: Vec<String>)
        ensures
            r@.len() == self.dependents@.len(),
            forall|k: int|
                0 <= k < r@.len() ==> (#[trigger] r@[k])@ == {
                    let p = self.dependents@[k]@;
                    let root = self.project_root@;
                    if root.len() <= p.len() && p.take(root.len() as int) == root {
                        spec_rel_dir(p.skip(root.len() as int))
                    } else {
                        crate::paths::spec_abs_dir(p)
                    }
                },
    {
        let depth = self.project_root.depth();
        let mut r: Vec<String> = Vec::new();
        let mut k: usize = 0;
        while k < self.dependents.len()
            invariant
                depth == self.project_root@.len(),
                k <= self.dependents@.len(),
                r@.len() == k,
                forall|k2: int|
                    0 <= k2 < k ==> (#[trigger] r@[k2])@ == {
                        let p = self.dependents@[k2]@;
                        let root = self.project_root@;
                        if root.len() <= p.len() && p.take(root.len() as int) == root {
                            spec_rel_dir(p.skip(root.len() as int))
                        } else {
                            crate::paths::spec_abs_dir(p)
                        }
                    },
            decreases self.dependents@.len() - k,
        {
            let dep = &self.dependents[k];
            let under_root = if depth <= dep.depth() {
                let mut same = true;
                let mut c: usize = 0;
                proof {
                    assert(dep@.take(0) =~= self.project_root@.take(0));
                }
                while c < depth
                    invariant
                        depth <= dep@.len(),
                        depth == self.project_root@.len(),
                        c <= depth,
                        same == (dep@.take(c as int) == self.project_root@.take(c as int)),
                    decreases depth - c,
                {
                    let ghost before = same;
                    if !(*dep.component(c) == *self.project_root.component(c)) {
                        same = false;
                    }
                    proof {
                        if before && dep@[c as int] == self.project_root@[c as int] {
                            assert(dep@.take(c + 1) =~= dep@.take(c as int).push(dep@[c as int]));
                            assert(self.project_root@.take(c + 1) =~= self.project_root@.take(
                                c as int,
                            ).push(self.project_root@[c as int]));
                            assert(dep@.take(c + 1) == self.project_root@.take(c + 1));
                        } else {
                            if dep@.take(c + 1) == self.project_root@.take(c + 1) {
                                assert(dep@.take(c + 1)[c as int] == self.project_root@.take(
                                    c + 1,
                                )[c as int]);
                                assert(dep@.take(c + 1).take(c as int) =~= dep@.take(c as int));
                                assert(self.project_root@.take(c + 1).take(c as int)
                                    =~= self.project_root@.take(c as int));
                            }
                        }
                    }
                    c = c + 1;
                }
                proof {
                    assert(self.project_root@.take(depth as int) =~= self.project_root@);
                }
                same
            } else {
                false
            };
            if under_root {
                r.push(render_relative(dep, depth));
            } else {
                r.push(crate::paths::render_components(&dep.components));
            }
            k = k + 1;
        }
        r
    }
}

} // verus!
