//! A module is a WGSL file identified by its canonical absolute path, and
//! the resolver that turns a raw request string into a module.
//!
//! Resolution tries exactly two locations, in this order: the request
//! interpreted relative to the importing file's directory, then relative to
//! the project root.  No other location is consulted.

use vstd::prelude::*;
use vstd::string::*;
use crate::errors::ImportResolutionError;
use crate::exports::{spec_strip, strip_exports};
use crate::filetree::FileTree;
use crate::names::NameAssignment;
use crate::scan::{import_split, replace_imports_in_source, spec_rewrite};
use crate::paths::{AbsoluteWgslPath, DirPath, components_view, clone_components, render_components, spec_abs_dir, spec_stem};

verus! {

/// A single file participating in the import graph, identified by its
/// canonical path.
#[derive(Debug)]
pub struct Module {
    pub path: AbsoluteWgslPath,
}

impl View for Module {
    type V = Seq<Seq<char>>;

    open spec fn view(&self) -> Seq<Seq<char>> {
        self.path@
    }
}

/// One step of lexical canonicalization: a finished path segment is applied
/// to the component stack.
pub open spec fn resolve_step(stack: Seq<Seq<char>>, comp: Seq<char>) -> Seq<Seq<char>> {
    if comp.len() == 0 || comp == "."@ {
        stack
    } else if comp == ".."@ {
        if stack.len() == 0 {
            stack
        } else {
            stack.drop_last()
        }
    } else {
        stack.push(comp)
    }
}

/// Lexical canonicalization of the remaining request characters: segments
/// are split on `/` and applied to the stack one by one.
pub open spec fn resolve_chars(stack: Seq<Seq<char>>, comp: Seq<char>, rest: Seq<char>) -> Seq<
    Seq<char>,
>
    decreases rest.len(),
{
    if rest.len() == 0 {
        resolve_step(stack, comp)
    } else if rest.first() == '/' {
        resolve_chars(resolve_step(stack, comp), Seq::empty(), rest.drop_first())
    } else {
        resolve_chars(stack, comp.push(rest.first()), rest.drop_first())
    }
}

/// The canonical path that `req` names when resolved against the directory
/// `base`.  A request that starts with `/` ignores the base.
pub open spec fn resolved_candidate(base: Seq<Seq<char>>, req: Seq<char>) -> Seq<Seq<char>> {
    if req.len() > 0 && req.first() == '/' {
        resolve_chars(Seq::empty(), Seq::empty(), req.drop_first())
    } else {
        resolve_chars(base, Seq::empty(), req)
    }
}

/// The candidate tried first: importer-relative.
pub open spec fn candidate_importer(importing: Seq<Seq<char>>, req: Seq<char>) -> Seq<Seq<char>> {
    resolved_candidate(importing.drop_last(), req)
}

/// The candidate tried second: project-root-relative.
pub open spec fn candidate_root(root: Seq<Seq<char>>, req: Seq<char>) -> Seq<Seq<char>> {
    resolved_candidate(root, req)
}

/// What resolution returns: the importer-relative candidate if that file
/// exists, else the root-relative candidate if that file exists, else
/// nothing.
pub open spec fn spec_resolve(
    tree: FileTree,
    importing: Seq<Seq<char>>,
    root: Seq<Seq<char>>,
    req: Seq<char>,
) -> Option<Seq<Seq<char>>> {
    if tree.contains_path(candidate_importer(importing, req)) {
        Some(candidate_importer(importing, req))
    } else if tree.contains_path(candidate_root(root, req)) {
        Some(candidate_root(root, req))
    } else {
        None
    }
}

/// The display rendering of a candidate location, as the raw join of the
/// base directory and the request string.
pub open spec fn spec_join_display(base: Seq<Seq<char>>, req: Seq<char>) -> Seq<char> {
    if req.len() > 0 && req.first() == '/' {
        req
    } else {
        spec_abs_dir(base) + "/"@ + req
    }
}

/// The set of locations an unresolved request was searched at, rendered for
/// diagnostics; the two candidates collapse to one entry when they render
/// alike.
pub open spec fn spec_searched(
    importing: Seq<Seq<char>>,
    root: Seq<Seq<char>>,
    req: Seq<char>,
) -> Seq<Seq<char>> {
    let j1 = spec_join_display(importing.drop_last(), req);
    let j2 = spec_join_display(root, req);
    if j1 == j2 {
        seq![j1]
    } else {
        seq![j1, j2]
    }
}

/// Applies one finished segment to the component stack.
fn apply_step(stack: &mut Vec<String>, comp: String)
    ensures
        components_view(final(stack)@) == resolve_step(components_view(old(stack)@), comp@),
{
    proof {
        reveal_strlit(".");
        reveal_strlit("..");
    }
    let n = comp.as_str().unicode_len();
    if n == 0 {
        return ;
    }
    if n == 1 && comp.as_str().get_char(0) == '.' {
        proof {
            assert(comp@ =~= "."@);
        }
        return ;
    }
    if n == 2 && comp.as_str().get_char(0) == '.' && comp.as_str().get_char(1) == '.' {
        proof {
            assert(comp@ =~= ".."@);
        }
        if stack.len() > 0 {
            let ghost prev = stack@;
            stack.pop();
            proof {
                assert(components_view(stack@) =~= components_view(prev).drop_last());
            }
        }
        return ;
    }
    let ghost prev = stack@;
    stack.push(comp);
    proof {
        assert(comp@ != "."@ && comp@ != ".."@);
        assert(components_view(stack@) =~= components_view(prev).push(comp@));
    }
}

/// Resolves `request` against the directory `base` by lexical
/// canonicalization: segments are split on `/`, `.` and empty segments are
/// dropped, and `..` removes the preceding component.
pub fn resolve_components(base: &Vec<String>, request: &str) -> (r: Vec<String>)
    ensures
        components_view(r@) == resolved_candidate(components_view(base@), request@),
{
    let n = request.unicode_len();
    let mut stack: Vec<String>;
    let mut i: usize;
    if n > 0 && request.get_char(0) == '/' {
        stack = Vec::new();
        i = 1;
        proof {
            assert(components_view(stack@) =~= Seq::<Seq<char>>::empty());
            assert(request@.skip(1) =~= request@.drop_first());
        }
    } else {
        stack = clone_components(base);
        i = 0;
        proof {
            assert(request@.skip(0) =~= request@);
        }
    }
    let mut comp = String::new();
    while i < n
        invariant
            n == request@.len(),
            i <= n,
            resolve_chars(components_view(stack@), comp@, request@.skip(i as int))
                == resolved_candidate(components_view(base@), request@),
        decreases n - i,
    {
        let c = request.get_char(i);
        proof {
            assert(request@.skip(i as int).first() == request@[i as int]);
            assert(request@.skip(i as int).drop_first() =~= request@.skip(i + 1));
        }
        if c == '/' {
            apply_step(&mut stack, comp);
            comp = String::new();
        } else {
            comp.push(c);
        }
        i = i + 1;
    }
    proof {
        assert(request@.skip(n as int) =~= Seq::<char>::empty());
    }
    apply_step(&mut stack, comp);
    stack
}

/// Renders the raw join of a base directory and a request string, as tried
/// during resolution.
pub fn join_display(base: &Vec<String>, request: &str) -> (r: String)
    ensures
        r@ == spec_join_display(components_view(base@), request@),
{
    let n = request.unicode_len();
    if n > 0 && request.get_char(0) == '/' {
        return request.to_owned();
    }
    let mut r = render_components(base);
    r.append("/");
    r.append(request);
    r
}

impl Module {
    pub open spec fn wf(&self) -> bool {
        self.path.wf()
    }

    /// Wraps an already-validated file identity as a graph-node payload.
    pub fn from_path(path: AbsoluteWgslPath) -> (r: Self)
        requires
            path.wf(),
        ensures
            r.wf() && r@ == path@,
    {
        Module { path }
    }

    /// The canonical path of this module.
    pub fn path(&self) -> (r: AbsoluteWgslPath)
        ensures
            r@ == self@,
    {
        self.path.duplicate()
    }

    /// A copy naming the same file.
    pub fn duplicate(&self) -> (r: Self)
        ensures
            r@ == self@,
            r.wf() == self.wf(),
    {
        Module { path: self.path.duplicate() }
    }

    /// Module identity: same canonical path, same module.
    pub fn matches(&self, other: &Self) -> (r: bool)
        ensures
            r == (self@ == other@),
    {
        self.path.matches(&other.path)
    }

    /// The name of the file, without the `.wgsl` extension.
    pub fn file_name(&self) -> (r: String)
        requires
            self.wf(),
        ensures
            r@ == spec_stem(self@.last()),
    {
        let d = self.path.depth();
        let last = self.path.component(d - 1);
        let n = last.as_str().unicode_len();
        let stem = last.as_str().substring_char(0, n - 5);
        stem.to_owned()
    }

    /// The `i`-th path component counted from the file upward: position 0 is
    /// the file name itself, position 1 its directory, and so on; `None`
    /// once the path is exhausted.
    pub fn nth_path_component(&self, i: usize) -> (r: Option<String>)
        ensures
            match r {
                Some(s) => i < self@.len() && s@ == self@[self@.len() - 1 - i],
                None => i >= self@.len(),
            },
    {
        let d = self.path.depth();
        if i < d {
            Some(self.path.component(d - 1 - i).clone())
        } else {
            None
        }
    }

    /// Renders the absolute path of this module.
    pub fn display_string(&self) -> (r: String)
        ensures
            r@ == spec_abs_dir(self@),
    {
        render_components(&self.path.components)
    }

    /// The source text of this module in the given snapshot.
    pub fn source_text<'a>(&self, tree: &'a FileTree) -> (r: &'a String)
        requires
            tree.wf(),
            tree.contains_path(self@),
        ensures
            r@ == tree.text_of(self@),
    {
        match tree.find(&self.path) {
            Some(i) => {
                proof {
                    tree.lemma_entry_text(i as int);
                }
                tree.text_at(i)
            },
            None => vstd::pervasive::unreached(),
        }
    }

    /// The text this module hands to the downstream composition stage:
    /// its source with export markers blanked and import directives
    /// rewritten to the assigned aliases.
    pub fn processed_source(
        &self,
        module_names: &NameAssignment,
        tree: &FileTree,
        project_root: &DirPath,
    ) -> (r: String)
        requires
            self.wf(),
            tree.wf(),
            module_names.wf(),
            tree.contains_path(self@),
        ensures
            r@ == spec_processed(
                *tree,
                self@,
                project_root@,
                *module_names,
                tree.text_of(self@),
            ),
    {
        let text = self.source_text(tree);
        let (stripped, _exports) = strip_exports(text.as_str());
        replace_imports_in_source(stripped.as_str(), self, tree, project_root, module_names)
    }

    /// Resolves a request string made by `importing` into a module of the
    /// snapshot: importer-relative first, then project-root-relative; if
    /// neither file exists the error carries the raw request, the importer
    /// and every location searched.
    pub fn resolve_module(
        tree: &FileTree,
        importing: &Module,
        project_root: &DirPath,
        request_string: &str,
    ) -> (r: Result<Module, ImportResolutionError>)
        requires
            tree.wf(),
            importing.wf(),
        ensures
            match r {
                Ok(m) => m.wf() && spec_resolve(*tree, importing@, project_root@, request_string@)
                    == Some(m@),
                Err(e) => {
                    &&& spec_resolve(*tree, importing@, project_root@, request_string@) is None
                    &&& e matches ImportResolutionError::Unresolved { requested, importer, searched }
                        && requested@ == request_string@ && importer@ == importing@
                        && searched@.map_values(|s: String| s@) == spec_searched(
                        importing@,
                        project_root@,
                        request_string@,
                    )
                },
            },
    {
        let parent = parent_components(&importing.path);
        proof {
            assert(components_view(parent@) == importing@.drop_last());
        }
        let c1 = resolve_components(&parent, request_string);
        if let Some(i) = tree.find_components(&c1) {
            let m = Module { path: tree.path_at(i).duplicate() };
            proof {
                assert(tree.entries@[i as int].0.wf());
            }
            return Ok(m);
        }
        let rootc = clone_components(&project_root.components);
        let c2 = resolve_components(&rootc, request_string);
        if let Some(i) = tree.find_components(&c2) {
            let m = Module { path: tree.path_at(i).duplicate() };
            proof {
                assert(tree.entries@[i as int].0.wf());
            }
            return Ok(m);
        }
        let j1 = join_display(&parent, request_string);
        let j2 = join_display(&rootc, request_string);
        let mut searched: Vec<String> = Vec::new();
        let same = j1 == j2;
        searched.push(j1);
        if !same {
            searched.push(j2);
        }
        proof {
            if same {
                assert(searched@.map_values(|s: String| s@) =~= spec_searched(
                    importing@,
                    project_root@,
                    request_string@,
                ));
            } else {
                assert(searched@.map_values(|s: String| s@) =~= spec_searched(
                    importing@,
                    project_root@,
                    request_string@,
                ));
            }
        }
        Err(
            ImportResolutionError::Unresolved {
                requested: request_string.to_owned(),
                importer: importing.duplicate(),
                searched,
            },
        )
    }
}

/// The processed text of a module: `@export` markers blanked to spaces,
/// then every import directive rewritten to the alias assigned to the file
/// it resolves to.
pub open spec fn spec_processed(
    tree: FileTree,
    importing: Seq<Seq<char>>,
    rd: Seq<Seq<char>>,
    na: NameAssignment,
    text: Seq<char>,
) -> Seq<char> {
    spec_rewrite(
        tree,
        importing,
        rd,
        na,
        import_split(spec_strip(text)).0,
        import_split(spec_strip(text)).1,
    )
}

/// Resolution is a pure function of the snapshot, the importer, the
/// project root and the request: an unchanged file tree resolves every
/// request to the same file, so re-running a pass changes nothing.
pub proof fn lemma_resolution_idempotent(
    tree: FileTree,
    importing: Seq<Seq<char>>,
    root: Seq<Seq<char>>,
    req: Seq<char>,
    m1: Seq<Seq<char>>,
    m2: Seq<Seq<char>>,
)
    requires
        spec_resolve(tree, importing, root, req) == Some(m1),
        spec_resolve(tree, importing, root, req) == Some(m2),
    ensures
        m1 == m2,
{
}

/// The components of the directory that holds the file at `path`.
pub fn parent_components(path: &AbsoluteWgslPath) -> (r: Vec<String>)
    requires
        path@.len() >= 1,
    ensures
        components_view(r@) == path@.drop_last(),
{
    let mut r: Vec<String> = Vec::new();
    let mut i: usize = 0;
    let d = path.depth();
    while i < d - 1
        invariant
            d == path@.len(),
            1 <= d,
            i <= d - 1,
            components_view(r@) == path@.drop_last().take(i as int),
        decreases d - 1 - i,
    {
        r.push(path.component(i).clone());
        proof {
            assert(components_view(r@) =~= path@.drop_last().take(i as int).push(path@[i as int]));
            assert(path@.drop_last().take(i + 1) =~= path@.drop_last().take(i as int).push(
                path@[i as int],
            ));
        }
        i = i + 1;
    }
    proof {
        assert(path@.drop_last().take(d - 1) =~= path@.drop_last());
    }
    r
}

} // verus!
