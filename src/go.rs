//! The Go packages that a binary's debug information names.
use vstd::prelude::*;
use crate::outside::fields_view;
use crate::text::{chars_of, has_prefix, join_first, join_seq, split, split_seq, starts_with};

verus! {

/// The DWARF language code of Go.
pub const DW_LANG_GO: u16 = 0x16;

/// What a compilation unit of the debug information declares: its language and its name.
#[derive(Debug, Clone)]
pub struct CompileUnit {
    pub language: Option<u16>,
    pub name: Option<String>,
}

/// `seen` with `x` at the end, unless it holds `x` already.
pub open spec fn push_new(seen: Seq<Seq<char>>, x: Seq<char>) -> Seq<Seq<char>> {
    if seen.contains(x) {
        seen
    } else {
        seen.push(x)
    }
}

/// The names of the Go units, each once, in the order of first appearance.
pub open spec fn collected(units: Seq<CompileUnit>) -> Seq<Seq<char>>
    decreases units.len(),
{
    if units.len() == 0 {
        Seq::empty()
    } else {
        let prev = collected(units.drop_last());
        let u = units.last();
        if u.language == Some(DW_LANG_GO) && u.name is Some {
            push_new(prev, u.name->0@)
        } else {
            prev
        }
    }
}

/// The first three segments of a package path, four for a vendored one.
pub open spec fn shorten(name: Seq<char>) -> Seq<char> {
    let parts = split_seq(name, "/"@);
    let keep: int = if has_prefix(name, "vendor/"@) {
        4
    } else {
        3
    };
    join_seq(parts.subrange(0, if parts.len() < keep { parts.len() as int } else { keep }), "/"@)
}

/// The shortened names, each once, in the order of first appearance.
pub open spec fn shortened_all(names: Seq<Seq<char>>) -> Seq<Seq<char>>
    decreases names.len(),
{
    if names.len() == 0 {
        Seq::empty()
    } else {
        push_new(shortened_all(names.drop_last()), shorten(names.last()))
    }
}

/// Appends `x` unless `v` holds it already.
pub fn push_unique(v: &mut Vec<String>, x: String)
    ensures
        fields_view(final(v)@) == push_new(fields_view(old(v)@), x@),
{
    let ghost fv = fields_view(v@);
    let mut i: usize = 0;
    while i < v.len()
        invariant
            fv == fields_view(v@),
            i <= v@.len(),
            forall|k: int| 0 <= k < i ==> v@[k]@ != x@,
        decreases v@.len() - i,
    {
        if v[i] == x {
            assert(fv[i as int] == x@);
            return;
        }
        i += 1;
    }
    assert(!fv.contains(x@)) by {
        if fv.contains(x@) {
            let k = choose|k: int| 0 <= k < fv.len() && fv[k] == x@;
            assert(v@[k]@ == x@);
        }
    }
    v.push(x);
    assert(fields_view(v@) =~= fv.push(x@));
}

/// The names of the Go compilation units, each once.
pub fn collect_go_packages(units: &Vec<CompileUnit>) -> (r: Vec<String>)
    ensures
        fields_view(r@) == collected(units@),
{
    let mut r: Vec<String> = Vec::new();
    let mut i: usize = 0;
    assert(fields_view(r@) =~= Seq::<Seq<char>>::empty());
    while i < units.len()
        invariant
            i <= units@.len(),
            fields_view(r@) == collected(units@.subrange(0, i as int)),
        decreases units@.len() - i,
    {
        proof {
            assert(units@.subrange(0, i + 1).drop_last() =~= units@.subrange(0, i as int));
        }
        let u = &units[i];
        if u.language == Some(DW_LANG_GO) {
            match &u.name {
                Some(n) => push_unique(&mut r, n.clone()),
                None => {},
            }
        }
        i += 1;
    }
    assert(units@.subrange(0, units@.len() as int) =~= units@);
    r
}

/// The first three segments of a package path, four for a vendored one.
pub fn shorten_package(name: &str) -> (r: String)
    ensures
        r@ == shorten(name@),
{
    let s = chars_of(name);
    let slash = chars_of("/");
    proof {
        reveal_strlit("/");
    }
    let parts = split(&s, &slash);
    let keep: usize = if starts_with(&s, &chars_of("vendor/")) {
        4
    } else {
        3
    };
    let n = if parts.len() < keep {
        parts.len()
    } else {
        keep
    };
    let joined = join_first(&parts, n, &slash);
    crate::text::string_of(&joined)
}

/// The known Go packages: each name shortened, each result once.
pub fn dedup_go_packages(package_names: &Vec<String>) -> (r: Vec<String>)
    ensures
        fields_view(r@) == shortened_all(fields_view(package_names@)),
{
    let ghost nv = fields_view(package_names@);
    let mut r: Vec<String> = Vec::new();
    let mut i: usize = 0;
    assert(fields_view(r@) =~= Seq::<Seq<char>>::empty());
    while i < package_names.len()
        invariant
            nv == fields_view(package_names@),
            i <= nv.len(),
            fields_view(r@) == shortened_all(nv.subrange(0, i as int)),
        decreases nv.len() - i,
    {
        proof {
            assert(nv.subrange(0, i + 1).drop_last() =~= nv.subrange(0, i as int));
        }
        push_unique(&mut r, shorten_package(package_names[i].as_str()));
        i += 1;
    }
    assert(nv.subrange(0, nv.len() as int) =~= nv);
    r
}

} // verus!
