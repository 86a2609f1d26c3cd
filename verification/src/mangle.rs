//! Demangling of identifiers that the downstream composition stage has
//! qualified with an encoded module name, for readable diagnostics.
//!
//! A mangled identifier is the item name, a fixed marker, and the module
//! name encoded in base32.  Pattern matching and the two decodings are
//! outside collaborators; everything around them is verified against their
//! named results.

use vstd::prelude::*;
use vstd::string::{StringExecFns, StrSliceExecFns};
use vstd::utf8::{decode_utf8, valid_utf8};
use crate::scan::spec_aligned;
use crate::strutil::space_string;

verus! {

/// What the mangled-name pattern splits an identifier into: the item name
/// and the encoded module code, when the identifier carries the marker.
pub uninterp spec fn mangled_split(s: Seq<char>) -> Option<(Seq<char>, Seq<char>)>;

/// Relies on `regex::Regex::captures` with `(.+)X_naga_oil_mod_X([A-Z0-9]*)X`:
/// a mangled identifier splits into a nonempty item name and the encoded
/// module code, and name, marker and code together fit within the input.
#[verifier::external_body]
fn capture_mangled(s: &str) -> (r: Option<(String, String)>)
    ensures
        match r {
            Some(p) => mangled_split(s@) == Some((p.0@, p.1@)) && p.0@.len() >= 1 && p.0@.len()
                + p.1@.len() + 17 <= s@.len(),
            None => mangled_split(s@) is None,
        },
{
    let re = regex::Regex::new("(.+)X_naga_oil_mod_X([A-Z0-9]*)X").unwrap();
    re.captures(s).map(
        |c| (c.get(1).unwrap().as_str().to_string(), c.get(2).unwrap().as_str().to_string()),
    )
}

/// What the base32 decoder yields for a code: a function of the code alone.
pub uninterp spec fn b32_decoded(s: Seq<char>) -> Option<Seq<u8>>;

/// Relies on `data_encoding::BASE32_NOPAD.decode`: the RFC 4648 base32
/// alphabet without padding; a code that is not valid base32 is rejected.
#[verifier::external_body]
fn base32_decode(s: &str) -> (r: Option<Vec<u8>>)
    ensures
        match r {
            Some(b) => b32_decoded(s@) == Some(b@),
            None => b32_decoded(s@) is None,
        },
{
    data_encoding::BASE32_NOPAD.decode(s.as_bytes()).ok()
}

/// Relies on `String::from_utf8`: accepts exactly valid UTF-8 and decodes
/// it.
#[verifier::external_body]
fn bytes_to_string(v: Vec<u8>) -> (r: Option<String>)
    ensures
        match r {
            Some(s) => valid_utf8(v@) && s@ == decode_utf8(v@),
            None => !valid_utf8(v@),
        },
{
    String::from_utf8(v).ok()
}

/// The module name hidden in a mangled identifier: its code decoded from
/// base32 and read as UTF-8, when all of that succeeds.
pub open spec fn spec_demangled_module(s: Seq<char>) -> Option<Seq<char>> {
    match mangled_split(s) {
        Some(nc) => match b32_decoded(nc.1) {
            Some(b) => if valid_utf8(b) {
                Some(decode_utf8(b))
            } else {
                None
            },
            None => None,
        },
        None => None,
    }
}

/// Splits a mangled identifier into the module it came from and the item
/// name.  Returns nothing when the identifier carries no marker, or when
/// its module code does not decode to text: an unreadable code is reported,
/// never a fabricated module name.
pub fn decompose_mangled_name(source: &str) -> (r: Option<(String, String)>)
    ensures
        match r {
            Some(p) => spec_demangled_module(source@) == Some(p.0@) && (match mangled_split(
                source@,
            ) {
                Some(nc) => nc.0 == p.1@ && p.1@.len() >= 1 && p.1@.len() + 17 <= source@.len(),
                None => false,
            }),
            None => spec_demangled_module(source@) is None,
        },
{
    let (name, code) = match capture_mangled(source) {
        Some(p) => p,
        None => {
            return None;
        },
    };
    let bytes = match base32_decode(code.as_str()) {
        Some(b) => b,
        None => {
            return None;
        },
    };
    let module = match bytes_to_string(bytes) {
        Some(m) => m,
        None => {
            return None;
        },
    };
    Some((module, name))
}

/// The demangled rendering: module and item name joined by `::`.  With
/// `pad`, the module is right-aligned so that the rendering keeps the width
/// of the mangled original.  Text without a readable marker is unchanged.
pub open spec fn spec_demangled(s: Seq<char>, pad: bool) -> Seq<char> {
    match mangled_split(s) {
        Some(nc) => match spec_demangled_module(s) {
            Some(module) => if pad {
                spec_aligned(module, s.len() - 2 - nc.0.len()) + "::"@ + nc.0
            } else {
                module + "::"@ + nc.0
            },
            None => s,
        },
        None => s,
    }
}

/// Rewrites a mangled identifier as `module::name`, aligned to the original
/// width when `pad` is set; anything unreadable passes through unchanged.
pub fn demangle_mod_names(source: &str, pad: bool) -> (r: String)
    ensures
        r@ == spec_demangled(source@, pad),
{
    let (module, name) = match decompose_mangled_name(source) {
        Some(p) => p,
        None => {
            return source.to_owned();
        },
    };
    let mut out = String::new();
    if pad {
        let n = source.unicode_len();
        let nl = name.as_str().unicode_len();
        let w = n - 2 - nl;
        let ml = module.as_str().unicode_len();
        if ml < w {
            let padding = space_string(w - ml);
            out.append(padding.as_str());
        }
    }
    out.append(module.as_str());
    out.append("::");
    out.append(name.as_str());
    out
}

} // verus!
