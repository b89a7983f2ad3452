//! The package of a symbol as the `nm` tool lists it.
use vstd::prelude::*;
use crate::outside::{demangles, is_mangled_cpp};
use crate::text::{chars_of, join_first, join_seq, split, split_seq, string_of};

verus! {

/// The bucket of symbols that belong to no Go package.
pub const CGO_OR_RUNTIME: &'static str = "cgo or runtime";

/// The first three segments of a path of at least four.
pub open spec fn go_package_of(s: Seq<char>) -> Option<Seq<char>> {
    let parts = split_seq(s, "/"@);
    if parts.len() < 4 {
        None
    } else {
        Some(join_seq(parts.subrange(0, 3), "/"@))
    }
}

/// The package of a symbol once it is known whether it is a mangled C++ name.
pub open spec fn symbol_package_of(s: Seq<char>, mangled: bool) -> Seq<char> {
    if mangled {
        "cgo or runtime"@
    } else {
        match go_package_of(s) {
            Some(p) => p,
            None => "cgo or runtime"@,
        }
    }
}

/// `domain/owner/repo` of a Go symbol path with at least four segments.
pub fn parse_go_package(s: &str) -> (r: Result<String, String>)
    ensures
        match r {
            Ok(p) => go_package_of(s@) == Some(p@),
            Err(e) => go_package_of(s@) is None && e@ == "Could not parse go package"@,
        },
{
    let slash = chars_of("/");
    proof {
        reveal_strlit("/");
    }
    let parts = split(&chars_of(s), &slash);
    if parts.len() < 4 {
        return Err(String::from_str("Could not parse go package"));
    }
    Ok(string_of(&join_first(&parts, 3, &slash)))
}

/// The symbol and its package, given whether it is a mangled C++ name.
pub fn symbol_package(s: &str, mangled: bool) -> (r: (String, String))
    ensures
        r.0@ == s@,
        r.1@ == symbol_package_of(s@, mangled),
{
    if mangled {
        return (String::from_str(s), String::from_str(CGO_OR_RUNTIME));
    }
    match parse_go_package(s) {
        Ok(p) => (String::from_str(s), p),
        Err(_) => (String::from_str(s), String::from_str(CGO_OR_RUNTIME)),
    }
}

/// The symbol and its package: mangled C++ names and short paths go to the runtime bucket.
pub fn parse_symbol(s: &str) -> (r: (String, String))
    ensures
        r.0@ == s@,
        r.1@ == symbol_package_of(s@, is_mangled_cpp(s@)),
{
    symbol_package(s, demangles(s))
}

} // verus!
