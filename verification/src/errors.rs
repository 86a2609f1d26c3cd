//! The two recoverable failures of a resolution pass.  Either one ends the
//! pass immediately; no partial results are returned.

use vstd::prelude::*;
use vstd::string::{StringExecFns, StrSliceExecFns};
use crate::module::Module;
use crate::paths::spec_abs_dir;

verus! {

#[derive(Debug)]
pub enum ImportResolutionError {
    /// An import edge would close a loop.  `cycle_path` is an ordered list
    /// of modules in which each module imports the next and the last
    /// imports the first again.
    Cycle { cycle_path: Vec<Module> },
    /// A requested import string was found at no search location.
    /// `searched` renders every candidate path that was tried.
    Unresolved { requested: String, importer: Module, searched: Vec<String> },
}

/// One rendered line per module of a cycle, each closed by an arrow.
pub open spec fn spec_cycle_lines(c: Seq<Seq<Seq<char>>>) -> Seq<char>
    decreases c.len(),
{
    if c.len() == 0 {
        Seq::empty()
    } else {
        spec_cycle_lines(c.drop_last()) + "`"@ + spec_abs_dir(c.last()) + "` ->\n"@
    }
}

/// The searched locations, each backquoted and preceded by a separator.
pub open spec fn spec_location_list(s: Seq<Seq<char>>) -> Seq<char>
    decreases s.len(),
{
    if s.len() == 0 {
        Seq::empty()
    } else {
        spec_location_list(s.drop_last()) + ", `"@ + s.last() + "`"@
    }
}

/// The diagnostic text of an error: a cycle lists its modules in order and
/// repeats the first at the end to show closure; an unresolved request
/// names the request, the importer, and every location searched.
pub open spec fn spec_render(e: ImportResolutionError) -> Seq<char> {
    match e {
        ImportResolutionError::Cycle { cycle_path } => {
            let cv = cycle_path@.map_values(|m: Module| m@);
            "found import cycle:\n"@ + spec_cycle_lines(cv) + (if cv.len() > 0 {
                "`"@ + spec_abs_dir(cv.first()) + "`"@
            } else {
                Seq::empty()
            })
        },
        ImportResolutionError::Unresolved { requested, importer, searched } => {
            "could not resolve import `"@ + requested@ + "` in file `"@ + spec_abs_dir(importer@)
                + "`:\nlooked in location(s) "@ + spec_location_list(
                searched@.map_values(|s: String| s@),
            )
        },
    }
}

impl ImportResolutionError {
    pub fn is_cycle(&self) -> (r: bool)
        ensures
            r == (self is Cycle),
    {
        match self {
            ImportResolutionError::Cycle { .. } => true,
            ImportResolutionError::Unresolved { .. } => false,
        }
    }

    /// Renders the error as its diagnostic text.
    pub fn render(&self) -> (r: String)
        ensures
            r@ == spec_render(*self),
    {
        match self {
            ImportResolutionError::Cycle { cycle_path } => {
                let ghost cv = cycle_path@.map_values(|m: Module| m@);
                let mut out = String::from_str("found import cycle:\n");
                let mut i: usize = 0;
                proof {
                    assert(cv.take(0) =~= Seq::<Seq<Seq<char>>>::empty());
                    assert(out@ =~= "found import cycle:\n"@ + spec_cycle_lines(cv.take(0)));
                }
                while i < cycle_path.len()
                    invariant
                        cv == cycle_path@.map_values(|m: Module| m@),
                        i <= cycle_path@.len(),
                        out@ == "found import cycle:\n"@ + spec_cycle_lines(cv.take(i as int)),
                    decreases cycle_path@.len() - i,
                {
                    out.append("`");
                    let shown = cycle_path[i].display_string();
                    out.append(shown.as_str());
                    out.append("` ->\n");
                    proof {
                        assert(cv.take(i + 1).drop_last() =~= cv.take(i as int));
                        assert(cv.take(i + 1).last() == cv[i as int]);
                        assert(cv[i as int] == cycle_path@[i as int]@);
                        assert(out@ =~= "found import cycle:\n"@ + spec_cycle_lines(cv.take(i + 1)));
                    }
                    i = i + 1;
                }
                proof {
                    assert(cv.take(cv.len() as int) =~= cv);
                }
                if cycle_path.len() > 0 {
                    out.append("`");
                    let shown = cycle_path[0].display_string();
                    out.append(shown.as_str());
                    out.append("`");
                    proof {
                        assert(cv.first() == cycle_path@[0]@);
                        assert(out@ =~= spec_render(*self));
                    }
                } else {
                    proof {
                        assert(out@ =~= spec_render(*self));
                    }
                }
                out
            },
            ImportResolutionError::Unresolved { requested, importer, searched } => {
                let ghost sv = searched@.map_values(|s: String| s@);
                let mut out = String::from_str("could not resolve import `");
                out.append(requested.as_str());
                out.append("` in file `");
                let shown = importer.display_string();
                out.append(shown.as_str());
                out.append("`:\nlooked in location(s) ");
                let ghost head = out@;
                proof {
                    assert(sv.take(0) =~= Seq::<Seq<char>>::empty());
                    assert(out@ =~= head + spec_location_list(sv.take(0)));
                }
                let mut i: usize = 0;
                while i < searched.len()
                    invariant
                        sv == searched@.map_values(|s: String| s@),
                        i <= searched@.len(),
                        out@ == head + spec_location_list(sv.take(i as int)),
                    decreases searched@.len() - i,
                {
                    out.append(", `");
                    out.append(searched[i].as_str());
                    out.append("`");
                    proof {
                        assert(sv.take(i + 1).drop_last() =~= sv.take(i as int));
                        assert(sv.take(i + 1).last() == sv[i as int]);
                        assert(sv[i as int] == searched@[i as int]@);
                        assert(out@ =~= head + spec_location_list(sv.take(i + 1)));
                    }
                    i = i + 1;
                }
                proof {
                    assert(sv.take(sv.len() as int) =~= sv);
                    assert(out@ =~= spec_render(*self));
                }
                out
            },
        }
    }
}

} // verus!
