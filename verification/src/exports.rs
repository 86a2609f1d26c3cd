//! The `@export` directive: a marker before a struct declaration that asks
//! for the struct to be visible to importing files.  The core replaces each
//! marker with an equal run of spaces, so that source offsets in downstream
//! diagnostics stay valid, and collects the names of the exported structs.

use vstd::prelude::*;
use vstd::string::StrSliceExecFns;
use crate::scan::is_space_char;
use crate::strutil::{spec_spaces, space_string};

verus! {

/// An item exported by a module.
#[derive(Debug)]
pub enum Export {
    Struct { struct_name: String },
}

impl Export {
    pub open spec fn name_view(&self) -> Seq<char> {
        match self {
            Export::Struct { struct_name } => struct_name@,
        }
    }
}

/// The marker itself, at the head of the text.
pub open spec fn starts_with_export(s: Seq<char>) -> bool {
    s.len() >= 7 && s.take(7) == "@export"@
}

/// An identifier character of the shading language.
pub open spec fn is_ident_char(c: char) -> bool {
    ('a' <= c && c <= 'z') || ('A' <= c && c <= 'Z') || ('0' <= c && c <= '9') || c == '_'
}

/// The text with its leading whitespace removed.
pub open spec fn spec_skip_ws(s: Seq<char>) -> Seq<char>
    decreases s.len(),
{
    if s.len() > 0 && is_space_char(s.first()) {
        spec_skip_ws(s.drop_first())
    } else {
        s
    }
}

/// The identifier at the head of the text.
pub open spec fn spec_ident(s: Seq<char>) -> Seq<char>
    decreases s.len(),
{
    if s.len() > 0 && is_ident_char(s.first()) {
        seq![s.first()] + spec_ident(s.drop_first())
    } else {
        Seq::empty()
    }
}

/// The struct name that an `@export` marker exports, reading the text that
/// follows the marker: whitespace, the word `struct`, whitespace, and the
/// name itself.
pub open spec fn export_name_at(s: Seq<char>) -> Option<Seq<char>> {
    if s.len() > 0 && is_space_char(s.first()) {
        let t = spec_skip_ws(s);
        if t.len() >= 6 && t.take(6) == "struct"@ {
            let u = t.skip(6);
            if u.len() > 0 && is_space_char(u.first()) {
                let nm = spec_ident(spec_skip_ws(u));
                if nm.len() > 0 {
                    Some(nm)
                } else {
                    None
                }
            } else {
                None
            }
        } else {
            None
        }
    } else {
        None
    }
}

/// The text with every `@export` marker replaced by an equal run of spaces.
pub open spec fn spec_strip(s: Seq<char>) -> Seq<char>
    decreases s.len(),
{
    if s.len() == 0 {
        s
    } else if starts_with_export(s) {
        spec_spaces(7) + spec_strip(s.skip(7))
    } else {
        seq![s.first()] + spec_strip(s.skip(1))
    }
}

/// The names exported by the text, in order of appearance.
pub open spec fn spec_exports(s: Seq<char>) -> Seq<Seq<char>>
    decreases s.len(),
{
    if s.len() == 0 {
        Seq::empty()
    } else if starts_with_export(s) {
        match export_name_at(s.skip(7)) {
            Some(nm) => seq![nm] + spec_exports(s.skip(7)),
            None => spec_exports(s.skip(7)),
        }
    } else {
        spec_exports(s.skip(1))
    }
}

/// Whether the marker stands at position `i`.
fn is_export_at(source: &str, i: usize, n: usize) -> (r: bool)
    requires
        n == source@.len(),
        i < n,
    ensures
        r == starts_with_export(source@.skip(i as int)),
{
    proof {
        reveal_strlit("@export");
    }
    if n - i < 7 {
        return false;
    }
    let r = source.get_char(i) == '@' && source.get_char(i + 1) == 'e' && source.get_char(i + 2)
        == 'x' && source.get_char(i + 3) == 'p' && source.get_char(i + 4) == 'o' && source.get_char(
        i + 5,
    ) == 'r' && source.get_char(i + 6) == 't';
    proof {
        let s = source@.skip(i as int);
        if r {
            assert(s.take(7) =~= "@export"@);
        } else {
            if s.take(7) == "@export"@ {
                assert(s.take(7)[0] == '@' && s.take(7)[1] == 'e' && s.take(7)[2] == 'x'
                    && s.take(7)[3] == 'p' && s.take(7)[4] == 'o' && s.take(7)[5] == 'r'
                    && s.take(7)[6] == 't');
            }
        }
    }
    r
}

/// Advances past whitespace, mirroring [`spec_skip_ws`].
fn skip_ws(source: &str, start: usize, n: usize) -> (r: usize)
    requires
        n == source@.len(),
        start <= n,
    ensures
        start <= r <= n,
        spec_skip_ws(source@.skip(start as int)) == source@.skip(r as int),
        r < n ==> !is_space_char(source@[r as int]),
{
    let mut j = start;
    while j < n
        invariant
            n == source@.len(),
            start <= j <= n,
            spec_skip_ws(source@.skip(start as int)) == spec_skip_ws(source@.skip(j as int)),
        decreases n - j,
    {
        let c = source.get_char(j);
        proof {
            assert(source@.skip(j as int).first() == source@[j as int]);
            assert(source@.skip(j as int).drop_first() =~= source@.skip(j + 1));
        }
        if !(c == ' ' || c == '\t' || c == '\n' || c == '\r') {
            return j;
        }
        j = j + 1;
    }
    proof {
        assert(source@.skip(n as int) =~= Seq::<char>::empty());
    }
    j
}

/// Reads the identifier at `start`, mirroring [`spec_ident`].
fn read_ident(source: &str, start: usize, n: usize) -> (r: String)
    requires
        n == source@.len(),
        start <= n,
    ensures
        r@ == spec_ident(source@.skip(start as int)),
{
    let mut name = String::new();
    let mut j = start;
    while j < n
        invariant
            n == source@.len(),
            start <= j <= n,
            spec_ident(source@.skip(start as int)) == name@ + spec_ident(source@.skip(j as int)),
        decreases n - j,
    {
        let c = source.get_char(j);
        proof {
            assert(source@.skip(j as int).first() == source@[j as int]);
            assert(source@.skip(j as int).drop_first() =~= source@.skip(j + 1));
        }
        let ident = (c >= 'a' && c <= 'z') || (c >= 'A' && c <= 'Z') || (c >= '0' && c <= '9') || c
            == '_';
        if !ident {
            proof {
                assert(spec_ident(source@.skip(j as int)) =~= Seq::<char>::empty());
                assert(name@ =~= name@ + Seq::<char>::empty());
            }
            return name;
        }
        name.push(c);
        proof {
            assert(spec_ident(source@.skip(j as int)) == seq![c] + spec_ident(
                source@.skip(j + 1),
            ));
            assert(name@ + spec_ident(source@.skip(j + 1)) =~= spec_ident(
                source@.skip(start as int),
            ));
        }
        j = j + 1;
    }
    proof {
        assert(source@.skip(n as int) =~= Seq::<char>::empty());
        assert(spec_ident(source@.skip(n as int)) =~= Seq::<char>::empty());
        assert(name@ =~= name@ + Seq::<char>::empty());
    }
    name
}

/// Parses the exported struct name after a marker at `i`, mirroring
/// [`export_name_at`] applied to the text after the marker.
fn parse_export_name(source: &str, after: usize, n: usize) -> (r: Option<String>)
    requires
        n == source@.len(),
        after <= n,
    ensures
        match r {
            Some(s) => export_name_at(source@.skip(after as int)) == Some(s@),
            None => export_name_at(source@.skip(after as int)) is None,
        },
{
    proof {
        reveal_strlit("struct");
    }
    let ghost s = source@.skip(after as int);
    if after >= n {
        return None;
    }
    let c0 = source.get_char(after);
    proof {
        assert(s.first() == source@[after as int]);
    }
    if !(c0 == ' ' || c0 == '\t' || c0 == '\n' || c0 == '\r') {
        return None;
    }
    let t = skip_ws(source, after, n);
    proof {
        assert(spec_skip_ws(s) == source@.skip(t as int));
    }
    if n - t < 6 {
        proof {
            assert(source@.skip(t as int).len() < 6);
        }
        return None;
    }
    let kw = source.get_char(t) == 's' && source.get_char(t + 1) == 't' && source.get_char(t + 2)
        == 'r' && source.get_char(t + 3) == 'u' && source.get_char(t + 4) == 'c' && source.get_char(
        t + 5,
    ) == 't';
    proof {
        let tv = source@.skip(t as int);
        if kw {
            assert(tv.take(6) =~= "struct"@);
        } else {
            if tv.take(6) == "struct"@ {
                assert(tv.take(6)[0] == 's' && tv.take(6)[1] == 't' && tv.take(6)[2] == 'r'
                    && tv.take(6)[3] == 'u' && tv.take(6)[4] == 'c' && tv.take(6)[5] == 't');
            }
        }
    }
    if !kw {
        return None;
    }
    proof {
        assert(source@.skip(t as int).skip(6) =~= source@.skip(t + 6));
    }
    if t + 6 >= n {
        return None;
    }
    let c1 = source.get_char(t + 6);
    proof {
        assert(source@.skip(t + 6).first() == source@[t + 6]);
    }
    if !(c1 == ' ' || c1 == '\t' || c1 == '\n' || c1 == '\r') {
        return None;
    }
    let u = skip_ws(source, t + 6, n);
    let name = read_ident(source, u, n);
    if name.as_str().is_empty() {
        proof {
            assert(name@.len() == 0);
        }
        return None;
    }
    Some(name)
}

/// Replaces every `@export` marker with spaces and collects the names the
/// markers export, in order.
pub fn strip_exports(source: &str) -> (r: (String, Vec<Export>))
    ensures
        r.0@ == spec_strip(source@),
        r.1@.map_values(|e: Export| e.name_view()) == spec_exports(source@),
{
    let n = source.unicode_len();
    let mut out = String::new();
    let mut exports: Vec<Export> = Vec::new();
    let mut i: usize = 0;
    proof {
        assert(source@.skip(0) =~= source@);
    }
    while i < n
        invariant
            n == source@.len(),
            i <= n,
            spec_strip(source@) == out@ + spec_strip(source@.skip(i as int)),
            spec_exports(source@) == exports@.map_values(|e: Export| e.name_view()) + spec_exports(
                source@.skip(i as int),
            ),
        decreases n - i,
    {
        let ghost s = source@.skip(i as int);
        if is_export_at(source, i, n) {
            proof {
                assert(s.skip(7) =~= source@.skip(i + 7));
            }
            let blank = space_string(7);
            out.append(blank.as_str());
            match parse_export_name(source, i + 7, n) {
                Some(nm) => {
                    let ghost exp0 = exports@;
                    exports.push(Export::Struct { struct_name: nm });
                    proof {
                        assert(exports@.map_values(|e: Export| e.name_view()) =~= exp0.map_values(
                            |e: Export| e.name_view(),
                        ).push(exports@.last().name_view()));
                        assert(spec_exports(s) == seq![exports@.last().name_view()] + spec_exports(
                            s.skip(7),
                        ));
                        assert(exports@.map_values(|e: Export| e.name_view()) + spec_exports(
                            source@.skip(i + 7),
                        ) =~= spec_exports(source@));
                    }
                },
                None => {
                    proof {
                        assert(spec_exports(s) == spec_exports(s.skip(7)));
                    }
                },
            }
            proof {
                assert(spec_strip(s) == spec_spaces(7) + spec_strip(s.skip(7)));
                assert(out@ + spec_strip(source@.skip(i + 7)) =~= spec_strip(source@));
            }
            i = i + 7;
        } else {
            let c = source.get_char(i);
            out.push(c);
            proof {
                assert(s.first() == source@[i as int]);
                assert(s.skip(1) =~= source@.skip(i + 1));
                assert(spec_strip(s) == seq![s.first()] + spec_strip(s.skip(1)));
                assert(out@ + spec_strip(source@.skip(i + 1)) =~= spec_strip(source@));
                assert(spec_exports(s) == spec_exports(s.skip(1)));
            }
            i = i + 1;
        }
    }
    proof {
        assert(source@.skip(n as int) =~= Seq::<char>::empty());
        assert(spec_strip(source@.skip(n as int)) =~= Seq::<char>::empty());
        assert(spec_exports(source@.skip(n as int)) =~= Seq::<Seq<char>>::empty());
        assert(out@ =~= out@ + Seq::<char>::empty());
        assert(exports@.map_values(|e: Export| e.name_view()) =~= exports@.map_values(
            |e: Export| e.name_view(),
        ) + Seq::<Seq<char>>::empty());
    }
    (out, exports)
}

} // verus!
