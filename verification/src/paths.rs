//! Canonical file identity: an absolute, canonicalized path to a WGSL file,
//! modelled as its sequence of path components from the filesystem root down.
//!
//! Two files are the same module exactly when their canonical component
//! sequences are equal; raw request strings are never compared directly.

use vstd::prelude::*;
use vstd::string::*;

verus! {

/// The view of a vector of path components.
pub open spec fn components_view(cs: Seq<String>) -> Seq<Seq<char>> {
    cs.map_values(|c: String| c@)
}

/// A canonical path component: nonempty, holds no separator, and is not one
/// of the relative markers that canonicalization removes.
pub open spec fn valid_component(c: Seq<char>) -> bool {
    &&& c.len() > 0
    &&& !c.contains('/')
    &&& c != "."@
    &&& c != ".."@
}

/// The required file extension, as characters.
pub open spec fn wgsl_suffix() -> Seq<char> {
    ".wgsl"@
}

/// `c` is at least one character followed by the `.wgsl` extension.
pub open spec fn ends_with_wgsl(c: Seq<char>) -> bool {
    c.len() >= 6 && c.subrange(c.len() - 5, c.len() as int) == wgsl_suffix()
}

/// The file stem: the file name with the trailing `.wgsl` removed.
pub open spec fn spec_stem(c: Seq<char>) -> Seq<char> {
    c.subrange(0, c.len() - 5)
}

/// Checks that `s` is a canonical path component.
pub fn component_ok(s: &str) -> (r: bool)
    ensures
        r == valid_component(s@),
{
    proof {
        reveal_strlit(".");
        reveal_strlit("..");
    }
    let n = s.unicode_len();
    if n == 0 {
        return false;
    }
    if n == 1 && s.get_char(0) == '.' {
        proof {
            assert(s@ =~= "."@);
        }
        return false;
    }
    if n == 2 && s.get_char(0) == '.' && s.get_char(1) == '.' {
        proof {
            assert(s@ =~= ".."@);
        }
        return false;
    }
    let mut i: usize = 0;
    while i < n
        invariant
            n == s@.len(),
            i <= n,
            forall|j: int| 0 <= j < i ==> s@[j] != '/',
        decreases n - i,
    {
        if s.get_char(i) == '/' {
            return false;
        }
        i = i + 1;
    }
    true
}

/// Checks that `s` is at least one character followed by `.wgsl`.
pub fn has_wgsl_extension(s: &str) -> (r: bool)
    ensures
        r == ends_with_wgsl(s@),
{
    proof {
        reveal_strlit(".wgsl");
    }
    let n = s.unicode_len();
    if n < 6 {
        return false;
    }
    let r = s.get_char(n - 5) == '.' && s.get_char(n - 4) == 'w' && s.get_char(n - 3) == 'g'
        && s.get_char(n - 2) == 's' && s.get_char(n - 1) == 'l';
    proof {
        if r {
            assert(s@.subrange(s@.len() - 5, s@.len() as int) =~= wgsl_suffix());
        } else {
            if s@.subrange(s@.len() - 5, s@.len() as int) == wgsl_suffix() {
                assert(s@[s@.len() - 5] == wgsl_suffix()[0]);
                assert(s@[s@.len() - 4] == wgsl_suffix()[1]);
                assert(s@[s@.len() - 3] == wgsl_suffix()[2]);
                assert(s@[s@.len() - 2] == wgsl_suffix()[3]);
                assert(s@[s@.len() - 1] == wgsl_suffix()[4]);
            }
        }
    }
    r
}

/// Copies a vector of strings, preserving its view.
pub fn clone_components(v: &Vec<String>) -> (r: Vec<String>)
    ensures
        r@ == v@,
{
    let mut r: Vec<String> = Vec::new();
    let mut i: usize = 0;
    while i < v.len()
        invariant
            i <= v@.len(),
            r@ == v@.take(i as int),
        decreases v@.len() - i,
    {
        r.push(v[i].clone());
        proof {
            assert(v@.take(i + 1) =~= v@.take(i as int).push(v@[i as int]));
        }
        i = i + 1;
    }
    proof {
        assert(v@.take(v@.len() as int) =~= v@);
    }
    r
}

/// An absolute, canonicalized path to a WGSL file.  The well-formedness
/// predicate [`AbsoluteWgslPath::wf`] is the type's invariant: constructors
/// establish it and every function of this crate preserves it.  That the
/// path names a file that actually exists is a fact about a concrete file
/// tree, stated where a [`crate::filetree::FileTree`] is consulted.
#[derive(Debug)]
pub struct AbsoluteWgslPath {
    pub components: Vec<String>,
}

impl View for AbsoluteWgslPath {
    type V = Seq<Seq<char>>;

    open spec fn view(&self) -> Seq<Seq<char>> {
        components_view(self.components@)
    }
}

impl AbsoluteWgslPath {
    pub open spec fn wf(&self) -> bool {
        wf_file_path(self@)
    }

    /// Validates a component sequence as an absolute WGSL file path.
    /// Returns `None` exactly when the components do not form one; callers
    /// for whom that is a precondition violation fail on `None`.
    pub fn new(components: Vec<String>) -> (r: Option<Self>)
        ensures
            match r {
                Some(p) => p.wf() && p@ == components_view(components@),
                None => !wf_file_path(components_view(components@)),
            },
    {
        if components.len() == 0 {
            return None;
        }
        let mut i: usize = 0;
        while i < components.len()
            invariant
                i <= components@.len(),
                forall|j: int| 0 <= j < i ==> valid_component(#[trigger] components_view(components@)[j]),
        decreases components@.len() - i,
        {
            if !component_ok(components[i].as_str()) {
                proof {
                    assert(components_view(components@)[i as int] == components@[i as int]@);
                }
                return None;
            }
            i = i + 1;
        }
        if !has_wgsl_extension(components[components.len() - 1].as_str()) {
            proof {
                assert(components_view(components@).last() == components@[components@.len() - 1]@);
            }
            return None;
        }
        Some(AbsoluteWgslPath { components })
    }

    /// The number of path components.
    pub fn depth(&self) -> (r: usize)
        ensures
            r == self@.len(),
    {
        self.components.len()
    }

    /// The component at position `i`, counted from the filesystem root down.
    pub fn component(&self, i: usize) -> (r: &String)
        requires
            i < self@.len(),
        ensures
            r@ == self@[i as int],
    {
        &self.components[i]
    }

    /// A copy with the same canonical components.
    pub fn duplicate(&self) -> (r: Self)
        ensures
            r@ == self@,
    {
        AbsoluteWgslPath { components: clone_components(&self.components) }
    }

    /// Canonical path equality: the identity relation on modules.  Two paths
    /// are the same file exactly when their component sequences are equal.
    pub fn matches(&self, other: &Self) -> (r: bool)
        ensures
            r == (self@ == other@),
    {
        component_seqs_equal(&self.components, &other.components)
    }

    /// Whether this path consists of exactly the given components.
    pub fn matches_components(&self, comps: &Vec<String>) -> (r: bool)
        ensures
            r == (self@ == components_view(comps@)),
    {
        component_seqs_equal(&self.components, comps)
    }
}

/// A well-formed absolute WGSL file path, as a view.
pub open spec fn wf_file_path(p: Seq<Seq<char>>) -> bool {
    &&& p.len() >= 1
    &&& forall|i: int| 0 <= i < p.len() ==> valid_component(#[trigger] p[i])
    &&& ends_with_wgsl(p.last())
}

/// Compares two component vectors by their views.
pub fn component_seqs_equal(a: &Vec<String>, b: &Vec<String>) -> (r: bool)
    ensures
        r == (components_view(a@) == components_view(b@)),
{
    if a.len() != b.len() {
        proof {
            assert(components_view(a@).len() != components_view(b@).len());
        }
        return false;
    }
    let mut i: usize = 0;
    while i < a.len()
        invariant
            a@.len() == b@.len(),
            i <= a@.len(),
            forall|j: int| 0 <= j < i ==> components_view(a@)[j] == components_view(b@)[j],
        decreases a@.len() - i,
    {
        if !(a[i] == b[i]) {
            proof {
                assert(components_view(a@)[i as int] == a@[i as int]@);
                assert(components_view(b@)[i as int] == b@[i as int]@);
            }
            return false;
        }
        i = i + 1;
    }
    proof {
        assert(components_view(a@) =~= components_view(b@));
    }
    true
}

/// The absolute rendering of a directory's components: a `/` before each
/// component, so the empty sequence renders as the filesystem root does.
pub open spec fn spec_abs_dir(p: Seq<Seq<char>>) -> Seq<char>
    decreases p.len(),
{
    if p.len() == 0 {
        Seq::empty()
    } else {
        spec_abs_dir(p.drop_last()) + "/"@ + p.last()
    }
}

/// Renders a component sequence as an absolute path string.
pub fn render_components(v: &Vec<String>) -> (r: String)
    ensures
        r@ == spec_abs_dir(components_view(v@)),
{
    let mut r = String::new();
    let mut i: usize = 0;
    while i < v.len()
        invariant
            i <= v@.len(),
            r@ == spec_abs_dir(components_view(v@).take(i as int)),
        decreases v@.len() - i,
    {
        r.append("/");
        r.append(v[i].as_str());
        proof {
            let cv = components_view(v@);
            assert(cv.take(i + 1).drop_last() =~= cv.take(i as int));
            assert(cv.take(i + 1).last() == cv[i as int]);
        }
        i = i + 1;
    }
    proof {
        assert(components_view(v@).take(v@.len() as int) =~= components_view(v@));
    }
    r
}

/// A project root directory: absolute, canonicalized, possibly the
/// filesystem root itself.
#[derive(Debug)]
pub struct DirPath {
    pub components: Vec<String>,
}

impl View for DirPath {
    type V = Seq<Seq<char>>;

    open spec fn view(&self) -> Seq<Seq<char>> {
        components_view(self.components@)
    }
}

impl DirPath {
    pub open spec fn wf(&self) -> bool {
        forall|i: int| 0 <= i < self@.len() ==> valid_component(#[trigger] self@[i])
    }

    /// Validates a component sequence as a directory path.
    pub fn new(components: Vec<String>) -> (r: Option<Self>)
        ensures
            match r {
                Some(p) => p.wf() && p@ == components_view(components@),
                None => exists|i: int|
                    0 <= i < components@.len() && !valid_component(
                        #[trigger] components_view(components@)[i],
                    ),
            },
    {
        let mut i: usize = 0;
        while i < components.len()
            invariant
                i <= components@.len(),
                forall|j: int| 0 <= j < i ==> valid_component(#[trigger] components_view(components@)[j]),
            decreases components@.len() - i,
        {
            if !component_ok(components[i].as_str()) {
                proof {
                    assert(!valid_component(components_view(components@)[i as int]));
                }
                return None;
            }
            i = i + 1;
        }
        Some(DirPath { components })
    }

    pub fn depth(&self) -> (r: usize)
        ensures
            r == self@.len(),
    {
        self.components.len()
    }

    pub fn component(&self, i: usize) -> (r: &String)
        requires
            i < self@.len(),
        ensures
            r@ == self@[i as int],
    {
        &self.components[i]
    }

    /// A copy with the same components.
    pub fn duplicate(&self) -> (r: Self)
        ensures
            r@ == self@,
    {
        DirPath { components: clone_components(&self.components) }
    }
}

} // verus!
