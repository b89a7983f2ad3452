//! Symbol classification, hierarchy decomposition and size aggregation.
use vstd::prelude::*;
use vstd::string::*;
use crate::text::{
    before_first, chars_of, contains, contains_seq, first_occ_from, has_prefix, occurs_at, join, join_first, join_seq, split,
    split_seq, starts_with, string_of, unescape, unescape_seq,
};
use crate::outside::{csv_record, csv_record_of, fields_view, first_group, first_group_of, opt_view};
use crate::utils::{decimal, decimal_of, pretty_print_size, size_text};

verus! {

/// Regular expression that extracts the section name from `[section .name]`.
pub const SECTION_RE: &'static str = "\\[section\\s(.+)]";

pub const TREE_ROOT: &'static str = "ROOT";

pub const RELATION_SEPARATOR: &'static str = "->";

/// What produced a group of symbols.
#[derive(Debug, Clone, Copy, PartialEq, Eq, Structural, Hash)]
pub enum ArtifactType {
    Go,
    GoRuntime,
    C,
    Cpp,
    Section,
    Unknown,
}

pub open spec fn label_of(k: ArtifactType) -> Seq<char> {
    match k {
        ArtifactType::Go => "Go"@,
        ArtifactType::GoRuntime => "Go Runtime"@,
        ArtifactType::C => "C"@,
        ArtifactType::Cpp => "C++"@,
        ArtifactType::Section => "Section"@,
        ArtifactType::Unknown => "Unknown"@,
    }
}

pub open spec fn separator_of(k: ArtifactType) -> Seq<char> {
    match k {
        ArtifactType::Go => "/"@,
        ArtifactType::Cpp => "::"@,
        _ => ""@,
    }
}

impl ArtifactType {
    /// The human-readable label of the kind.
    pub fn label(&self) -> (r: String)
        ensures
            r@ == label_of(*self),
    {
        match self {
            ArtifactType::Go => String::from_str("Go"),
            ArtifactType::GoRuntime => String::from_str("Go Runtime"),
            ArtifactType::C => String::from_str("C"),
            ArtifactType::Cpp => String::from_str("C++"),
            ArtifactType::Section => String::from_str("Section"),
            ArtifactType::Unknown => String::from_str("Unknown"),
        }
    }

    /// The separator between the segments of a qualified name of this kind.
    pub fn separator(&self) -> (r: &'static str)
        ensures
            r@ == separator_of(*self),
    {
        match self {
            ArtifactType::Go => "/",
            ArtifactType::Cpp => "::",
            _ => "",
        }
    }
}

/// The section name that the binary-section marker in `sym` wraps, if any.
pub open spec fn section_of(sym: Seq<char>) -> Option<Seq<char>> {
    if has_prefix(sym, "[section"@) {
        first_group_of(SECTION_RE@, sym)
    } else {
        None
    }
}

/// Debug-info sections share one bucket.
pub open spec fn section_bucket(name: Seq<char>) -> Seq<char> {
    if has_prefix(name, ".debug"@) {
        "Debug Section"@
    } else {
        name
    }
}

/// The longest entry of `pkgs` that is a prefix of `s`.
pub open spec fn longest_match(s: Seq<char>, pkgs: Seq<Seq<char>>) -> Option<Seq<char>>
    decreases pkgs.len(),
{
    if pkgs.len() == 0 {
        None
    } else {
        let rest = longest_match(s, pkgs.drop_last());
        let p = pkgs.last();
        if has_prefix(s, p) && (rest is None || rest->0.len() < p.len()) {
            Some(p)
        } else {
            rest
        }
    }
}

pub open spec fn go_kind(p: Seq<char>) -> ArtifactType {
    if has_prefix(p, "runtime"@) || has_prefix(p, "vendor"@) {
        ArtifactType::GoRuntime
    } else {
        ArtifactType::Go
    }
}

/// All namespace segments of a native name, without its leaf.
pub open spec fn namespace_of(sym: Seq<char>) -> Seq<char> {
    join_seq(split_seq(sym, "::"@).drop_last(), "::"@)
}

/// The package or bucket of a symbol and its kind, first matching rule first.
pub open spec fn classify(sym: Seq<char>, section: Option<Seq<char>>, pkgs: Seq<Seq<char>>) -> (
    Seq<char>,
    ArtifactType,
) {
    if section is Some {
        (section_bucket(section->0), ArtifactType::Section)
    } else if longest_match(unescape_seq(sym), pkgs) is Some {
        let p = longest_match(unescape_seq(sym), pkgs)->0;
        (p, go_kind(p))
    } else if has_prefix(sym, "go:itab"@) {
        ("Go Interface"@, ArtifactType::GoRuntime)
    } else if has_prefix(sym, "type:"@) {
        ("Go Type"@, ArtifactType::GoRuntime)
    } else if has_prefix(sym, "$"@) {
        ("Temp Var"@, ArtifactType::GoRuntime)
    } else if contains_seq(sym, "_cgo_"@) {
        ("Cgo related"@, ArtifactType::GoRuntime)
    } else if has_prefix(sym, "go:"@) {
        ("Go struct"@, ArtifactType::GoRuntime)
    } else if contains_seq(sym, "::"@) {
        (namespace_of(sym), ArtifactType::Cpp)
    } else {
        ("C"@, ArtifactType::C)
    }
}

pub fn lit(s: &str) -> (r: Vec<char>)
    ensures
        r@ == s@,
{
    chars_of(s)
}

/// The longest of `pkgs` that is a prefix of `s`, by index.
pub fn longest_match_exec(s: &Vec<char>, pkgs: &Vec<String>) -> (r: Option<usize>)
    ensures
        match r {
            Some(i) => i < pkgs@.len() && longest_match(s@, fields_view(pkgs@)) == Some(
                pkgs@[i as int]@,
            ),
            None => longest_match(s@, fields_view(pkgs@)) is None,
        },
{
    let ghost pv = fields_view(pkgs@);
    let mut best: Option<usize> = None;
    let mut best_len: usize = 0;
    let mut i: usize = 0;
    while i < pkgs.len()
        invariant
            pv == fields_view(pkgs@),
            i <= pkgs@.len(),
            match best {
                Some(b) => b < i && longest_match(s@, pv.subrange(0, i as int)) == Some(pv[b as int])
                    && best_len == pv[b as int].len(),
                None => longest_match(s@, pv.subrange(0, i as int)) is None,
            },
        decreases pkgs@.len() - i,
    {
        let p = chars_of(pkgs[i].as_str());
        let ghost q = pv.subrange(0, i + 1);
        assert(q.drop_last() =~= pv.subrange(0, i as int));
        let take = if starts_with(s, &p) {
            match best {
                Some(_) => best_len < p.len(),
                None => true,
            }
        } else {
            false
        };
        if take {
            best = Some(i);
            best_len = p.len();
        }
        i += 1;
    }
    assert(pv.subrange(0, pkgs@.len() as int) =~= pv);
    best
}

/// All namespace segments of a native name, without its leaf.
pub fn namespace(sym: &Vec<char>) -> (r: Vec<char>)
    ensures
        r@ == namespace_of(sym@),
{
    let sep = lit("::");
    proof {
        reveal_strlit("::");
    }
    let mut parts = split(sym, &sep);
    let ghost before = parts@;
    parts.pop();
    assert(parts@.map_values(|v: Vec<char>| v@) =~= before.map_values(|v: Vec<char>| v@).drop_last());
    join(&parts, &sep)
}

/// One symbol with its size, the kind of its group and the name of that group.
#[derive(Debug, Clone)]
pub struct Symbol {
    pub value: String,
    pub size: u64,
    pub kind: ArtifactType,
    pub package: String,
}

pub struct SymbolView {
    pub value: Seq<char>,
    pub size: u64,
    pub kind: ArtifactType,
    pub package: Seq<char>,
}

impl View for Symbol {
    type V = SymbolView;

    open spec fn view(&self) -> SymbolView {
        SymbolView { value: self.value@, size: self.size, kind: self.kind, package: self.package@ }
    }
}

/// A group of symbols that share a package, namespace or bucket.
#[derive(Debug, Clone)]
pub struct Package {
    pub symbols: Vec<Symbol>,
    pub size: u64,
    pub kind: ArtifactType,
    pub name: String,
}

pub struct PackageView {
    pub name: Seq<char>,
    pub kind: ArtifactType,
    pub size: u64,
    pub symbols: Seq<SymbolView>,
}

impl View for Package {
    type V = PackageView;

    open spec fn view(&self) -> PackageView {
        PackageView {
            name: self.name@,
            kind: self.kind,
            size: self.size,
            symbols: self.symbols@.map_values(|x: Symbol| x@),
        }
    }
}

pub open spec fn sum_symbol_sizes(syms: Seq<SymbolView>) -> int
    decreases syms.len(),
{
    if syms.len() == 0 {
        0
    } else {
        sum_symbol_sizes(syms.drop_last()) + syms.last().size
    }
}

pub open spec fn sum_package_sizes(pkgs: Seq<PackageView>) -> int
    decreases pkgs.len(),
{
    if pkgs.len() == 0 {
        0
    } else {
        sum_package_sizes(pkgs.drop_last()) + pkgs.last().size
    }
}

/// The package view with one more symbol.
pub open spec fn with_symbol(p: PackageView, value: Seq<char>, size: u64) -> PackageView {
    PackageView {
        size: (p.size + size) as u64,
        symbols: p.symbols.push(SymbolView { value, size, kind: p.kind, package: p.name }),
        ..p
    }
}

impl Package {
    pub fn new(name: String, kind: ArtifactType) -> (r: Package)
        ensures
            r@ == (PackageView { name: name@, kind, size: 0, symbols: Seq::empty() }),
    {
        let r = Package { name, kind, symbols: Vec::new(), size: 0 };
        assert(r@.symbols =~= Seq::<SymbolView>::empty());
        r
    }

    pub fn add(&mut self, symbol: String, size: u64)
        requires
            old(self).size + size <= u64::MAX,
        ensures
            final(self)@ == with_symbol(old(self)@, symbol@, size),
    {
        self.size = self.size + size;
        let package = self.name.clone();
        self.symbols.push(Symbol { value: symbol, size, kind: self.kind, package });
        assert(self@.symbols =~= with_symbol(old(self)@, symbol@, size).symbols);
    }
}

/// All symbols of a run, grouped by package, with the known Go packages.
#[derive(Debug, Clone)]
pub struct Packages {
    pub inner: Vec<Package>,
    pub go_packages: Vec<String>,
    pub total: u64,
}

/// The groups after adding a symbol of positive size that classifies as `c`.
pub open spec fn packages_after(pkgs: Seq<PackageView>, value: Seq<char>, size: u64, c: (
    Seq<char>,
    ArtifactType,
)) -> Seq<PackageView> {
    if exists|i: int| 0 <= i < pkgs.len() && pkgs[i].name == c.0 {
        let i = choose|i: int| 0 <= i < pkgs.len() && pkgs[i].name == c.0;
        pkgs.update(i, with_symbol(pkgs[i], value, size))
    } else {
        pkgs.push(
            with_symbol(PackageView { name: c.0, kind: c.1, size: 0, symbols: Seq::empty() }, value, size),
        )
    }
}

pub proof fn lemma_sum_symbols_push(syms: Seq<SymbolView>, x: SymbolView)
    ensures
        sum_symbol_sizes(syms.push(x)) == sum_symbol_sizes(syms) + x.size,
{
    assert(syms.push(x).drop_last() =~= syms);
}

pub proof fn lemma_sum_packages_update(pkgs: Seq<PackageView>, i: int, p: PackageView)
    requires
        0 <= i < pkgs.len(),
    ensures
        sum_package_sizes(pkgs.update(i, p)) == sum_package_sizes(pkgs) - pkgs[i].size + p.size,
    decreases pkgs.len(),
{
    if i == pkgs.len() - 1 {
        assert(pkgs.update(i, p).drop_last() =~= pkgs.drop_last());
    } else {
        assert(pkgs.update(i, p).drop_last() =~= pkgs.drop_last().update(i, p));
        lemma_sum_packages_update(pkgs.drop_last(), i, p);
    }
}

pub proof fn lemma_sum_packages_push(pkgs: Seq<PackageView>, p: PackageView)
    ensures
        sum_package_sizes(pkgs.push(p)) == sum_package_sizes(pkgs) + p.size,
{
    assert(pkgs.push(p).drop_last() =~= pkgs);
}

impl Packages {
    pub open spec fn package_views(&self) -> Seq<PackageView> {
        self.inner@.map_values(|p: Package| p@)
    }

    pub open spec fn go_package_names(&self) -> Seq<Seq<char>> {
        fields_view(self.go_packages@)
    }

    pub open spec fn total_size(&self) -> u64 {
        self.total
    }

    /// Group names are unique, sizes add up, and every symbol carries its group and a
    /// positive size.
    pub open spec fn wf(&self) -> bool {
        let pkgs = self.package_views();
        &&& forall|i: int, j: int|
            0 <= i < j < pkgs.len() ==> pkgs[i].name != pkgs[j].name
        &&& forall|i: int|
            0 <= i < pkgs.len() ==> #[trigger] pkgs[i].size == sum_symbol_sizes(pkgs[i].symbols)
        &&& forall|i: int, k: int|
            0 <= i < pkgs.len() && 0 <= k < pkgs[i].symbols.len() ==> {
                let x = #[trigger] pkgs[i].symbols[k];
                x.kind == pkgs[i].kind && x.package == pkgs[i].name && x.size > 0
            }
        &&& self.total == sum_package_sizes(pkgs)
    }

    pub fn new(go_packages: Vec<String>) -> (r: Packages)
        ensures
            r.wf(),
            r.package_views() == Seq::<PackageView>::empty(),
            r.go_package_names() == fields_view(go_packages@),
            r.total_size() == 0,
    {
        let r = Packages { inner: Vec::new(), go_packages, total: 0 };
        assert(r.package_views() =~= Seq::<PackageView>::empty());
        r
    }

    pub fn total(&self) -> (r: u64)
        ensures
            r == self.total_size(),
    {
        self.total
    }

    /// The name of a section marker such as `[section .rodata]`.
    pub fn strip_section_name(s: &str) -> (r: Option<String>)
        ensures
            opt_view(r) == first_group_of(SECTION_RE@, s@),
    {
        first_group(SECTION_RE, s)
    }

    /// The longest known Go package that prefixes the symbol once escaped dots are undone.
    pub fn try_get_go_package(&self, symbol: &str) -> (r: Option<String>)
        ensures
            opt_view(r) == longest_match(unescape_seq(symbol@), self.go_package_names()),
    {
        let s = chars_of(symbol);
        let u = unescape(&s);
        match longest_match_exec(&u, &self.go_packages) {
            Some(i) => Some(self.go_packages[i].clone()),
            None => None,
        }
    }

    /// Classification once the section marker, if any, has been read.
    pub fn classify_with(&self, symbol: &str, section: Option<String>) -> (r: (String, ArtifactType))
        ensures
            (r.0@, r.1) == classify(symbol@, opt_view(section), self.go_package_names()),
    {
        match section {
            Some(name) => {
                let n = chars_of(name.as_str());
                if starts_with(&n, &lit(".debug")) {
                    (String::from_str("Debug Section"), ArtifactType::Section)
                } else {
                    (name, ArtifactType::Section)
                }
            },
            None => {
                let s = chars_of(symbol);
                match self.try_get_go_package(symbol) {
                    Some(p) => {
                        let pc = chars_of(p.as_str());
                        let kind = if starts_with(&pc, &lit("runtime")) || starts_with(
                            &pc,
                            &lit("vendor"),
                        ) {
                            ArtifactType::GoRuntime
                        } else {
                            ArtifactType::Go
                        };
                        (p, kind)
                    },
                    None => {
                        if starts_with(&s, &lit("go:itab")) {
                            (String::from_str("Go Interface"), ArtifactType::GoRuntime)
                        } else if starts_with(&s, &lit("type:")) {
                            (String::from_str("Go Type"), ArtifactType::GoRuntime)
                        } else if starts_with(&s, &lit("$")) {
                            (String::from_str("Temp Var"), ArtifactType::GoRuntime)
                        } else if contains(&s, &lit("_cgo_")) {
                            (String::from_str("Cgo related"), ArtifactType::GoRuntime)
                        } else if starts_with(&s, &lit("go:")) {
                            (String::from_str("Go struct"), ArtifactType::GoRuntime)
                        } else if contains(&s, &lit("::")) {
                            (string_of(&namespace(&s)), ArtifactType::Cpp)
                        } else {
                            (String::from_str("C"), ArtifactType::C)
                        }
                    },
                }
            },
        }
    }

    /// The package or bucket of a symbol and its kind.
    pub fn parse_symbol(&self, symbol: &str) -> (r: (String, ArtifactType))
        ensures
            (r.0@, r.1) == classify(symbol@, section_of(symbol@), self.go_package_names()),
    {
        let s = chars_of(symbol);
        let section = if starts_with(&s, &lit("[section")) {
            Packages::strip_section_name(symbol)
        } else {
            None
        };
        self.classify_with(symbol, section)
    }

    fn find_package(&self, name: &String) -> (r: Option<usize>)
        ensures
            match r {
                Some(i) => i < self.inner@.len() && self.package_views()[i as int].name == name@,
                None => forall|i: int|
                    0 <= i < self.inner@.len() ==> self.package_views()[i].name != name@,
            },
    {
        let mut i: usize = 0;
        while i < self.inner.len()
            invariant
                i <= self.inner@.len(),
                forall|k: int| 0 <= k < i ==> self.package_views()[k].name != name@,
            decreases self.inner@.len() - i,
        {
            if self.inner[i].name == *name {
                return Some(i);
            }
            i += 1;
        }
        None
    }

    /// Adds a symbol to the group it classifies into; a symbol of size zero is dropped.
    pub fn add(&mut self, symbol: String, size: u64)
        requires
            old(self).wf(),
            old(self).total_size() + size <= u64::MAX,
        ensures
            final(self).wf(),
            final(self).go_package_names() == old(self).go_package_names(),
            final(self).total_size() == old(self).total_size() + size,
            size == 0 ==> final(self).package_views() == old(self).package_views(),
            size > 0 ==> final(self).package_views() == packages_after(
                old(self).package_views(),
                symbol@,
                size,
                classify(symbol@, section_of(symbol@), old(self).go_package_names()),
            ),
    {
        if size == 0 {
            return;
        }
        let ghost pkgs = self.package_views();
        let (package, kind) = self.parse_symbol(symbol.as_str());
        let ghost c = (package@, kind);
        match self.find_package(&package) {
            Some(i) => {
                proof {
                    assert(pkgs[i as int].size == sum_symbol_sizes(pkgs[i as int].symbols));
                    lemma_sum_packages_update(pkgs, i as int, with_symbol(pkgs[i as int], symbol@, size));
                    assert(pkgs[i as int].size <= sum_package_sizes(pkgs)) by {
                        lemma_sum_packages_update(pkgs, i as int, PackageView { size: 0, ..pkgs[i as int] });
                        lemma_sum_nonneg(pkgs.update(i as int, PackageView { size: 0, ..pkgs[i as int] }));
                    }
                    let j = choose|j: int| 0 <= j < pkgs.len() && pkgs[j].name == c.0;
                    assert(j == i);
                    lemma_sum_symbols_push(pkgs[i as int].symbols, SymbolView { value: symbol@, size, kind: pkgs[i as int].kind, package: pkgs[i as int].name });
                }
                self.inner[i].add(symbol, size);
                self.total = self.total + size;
                proof {
                    assert(self.package_views() =~= pkgs.update(i as int, with_symbol(pkgs[i as int], symbol@, size)));
                }
            },
            None => {
                let mut p = Package::new(package, kind);
                p.add(symbol, size);
                self.inner.push(p);
                self.total = self.total + size;
                proof {
                    let np = with_symbol(PackageView { name: c.0, kind: c.1, size: 0, symbols: Seq::empty() }, symbol@, size);
                    assert(self.package_views() =~= pkgs.push(np));
                    lemma_sum_packages_push(pkgs, np);
                    lemma_sum_symbols_push(Seq::empty(), np.symbols[0]);
                    assert(np.symbols =~= Seq::<SymbolView>::empty().push(np.symbols[0]));
                }
            },
        }
    }
}

pub proof fn lemma_sum_nonneg(pkgs: Seq<PackageView>)
    ensures
        sum_package_sizes(pkgs) >= 0,
    decreases pkgs.len(),
{
    if pkgs.len() > 0 {
        lemma_sum_nonneg(pkgs.drop_last());
    }
}

/// Package segments of a Go path after its first one: whole segments up to the first that
/// names a member, and of that one the part before the dot.
pub open spec fn go_tail(parts: Seq<Seq<char>>) -> Seq<Seq<char>>
    decreases parts.len(),
{
    if parts.len() == 0 {
        Seq::empty()
    } else if !contains_seq(parts[0], "."@) {
        seq![unescape_seq(parts[0])] + go_tail(parts.drop_first())
    } else {
        seq![unescape_seq(before_first(parts[0], "."@))]
    }
}

/// The package path of a Go symbol, segment by segment.
pub open spec fn go_segments(sym: Seq<char>) -> Seq<Seq<char>> {
    let parts = split_seq(sym, "/"@);
    if parts.len() <= 1 {
        go_tail(parts)
    } else {
        seq![unescape_seq(parts[0])] + go_tail(parts.drop_first())
    }
}

/// The namespaces of a native symbol, outermost first.
pub open spec fn cpp_segments(sym: Seq<char>) -> Seq<Seq<char>> {
    split_seq(sym, "::"@).drop_last()
}

/// The hierarchy levels under the root for a symbol of a kind in a group.
pub open spec fn segments_of(kind: ArtifactType, sym: Seq<char>, pkg: Seq<char>) -> Seq<Seq<char>> {
    match kind {
        ArtifactType::Go => go_segments(sym),
        ArtifactType::Cpp => cpp_segments(sym),
        _ => seq![pkg],
    }
}

/// A segment character as it stands inside an id: `&` and `>` are escaped, so that no
/// segment of an id holds the separator `->`.
pub open spec fn escape_char(c: char) -> Seq<char> {
    if c == '&' {
        seq!['&', 'a', 'm', 'p', ';']
    } else if c == '>' {
        seq!['&', 'g', 't', ';']
    } else {
        seq![c]
    }
}

/// A segment as it stands inside an id.
pub open spec fn escape_seq(s: Seq<char>) -> Seq<char>
    decreases s.len(),
{
    if s.len() == 0 {
        s
    } else {
        escape_seq(s.drop_last()) + escape_char(s.last())
    }
}

pub open spec fn escaped(path: Seq<Seq<char>>) -> Seq<Seq<char>> {
    path.map_values(|x: Seq<char>| escape_seq(x))
}

/// The segments of the id at depth `k` on `path`: the root, then the first `k` segments
/// escaped.
pub open spec fn id_segments(path: Seq<Seq<char>>, k: int) -> Seq<Seq<char>> {
    seq!["ROOT"@] + escaped(path.subrange(0, k))
}

/// The id of the node at depth `k` on `path`: its id segments joined with `->`.
#[verifier::opaque]
pub open spec fn node_id(path: Seq<Seq<char>>, k: int) -> Seq<char> {
    join_seq(id_segments(path, k), "->"@)
}

pub proof fn lemma_escape_no_gt(s: Seq<char>)
    ensures
        forall|i: int| 0 <= i < escape_seq(s).len() ==> escape_seq(s)[i] != '>',
    decreases s.len(),
{
    if s.len() > 0 {
        lemma_escape_no_gt(s.drop_last());
        let a = escape_seq(s.drop_last());
        let b = escape_char(s.last());
        assert(escape_seq(s) == a + b);
        assert forall|i: int| 0 <= i < escape_seq(s).len() implies escape_seq(s)[i] != '>' by {
            if i >= a.len() {
                assert(escape_seq(s)[i] == b[i - a.len()]);
            } else {
                assert(escape_seq(s)[i] == a[i]);
            }
        }
    }
}

pub proof fn lemma_no_gt_no_arrow(t: Seq<char>, i: int)
    requires
        forall|j: int| 0 <= j < t.len() ==> t[j] != '>',
    ensures
        first_occ_from(t, "->"@, i) is None,
    decreases t.len() + 1 - i,
{
    reveal_strlit("->");
    if i < 0 || i + 2 > t.len() {
    } else {
        if occurs_at(t, "->"@, i) {
            assert(t.subrange(i, i + 2)[1] == '>');
            assert(t[i + 1] == '>');
        }
        lemma_no_gt_no_arrow(t, i + 1);
    }
}

/// An id is its segments joined with `->`, and no segment holds `->`.
pub proof fn id_segments_hold_no_separator(path: Seq<Seq<char>>, k: int)
    requires
        0 <= k <= path.len(),
    ensures
        node_id(path, k) == join_seq(id_segments(path, k), "->"@),
        forall|j: int|
            0 <= j < id_segments(path, k).len() ==> !contains_seq(#[trigger] id_segments(path, k)[j], "->"@),
{
    reveal(node_id);
    reveal_strlit("ROOT");
    assert forall|j: int| 0 <= j < id_segments(path, k).len() implies !contains_seq(#[trigger] id_segments(path, k)[j], "->"@) by {
        let t = id_segments(path, k)[j];
        if j == 0 {
            assert(t == "ROOT"@);
        } else {
            assert(t == escape_seq(path[j - 1]));
            lemma_escape_no_gt(path[j - 1]);
        }
        lemma_no_gt_no_arrow(t, 0);
    }
}

/// Escapes `&` and `>` in a segment.
fn escape(s: &Vec<char>) -> (r: Vec<char>)
    ensures
        r@ == escape_seq(s@),
{
    let mut r: Vec<char> = Vec::new();
    let mut i: usize = 0;
    assert(s@.subrange(0, 0) =~= Seq::<char>::empty());
    while i < s.len()
        invariant
            i <= s@.len(),
            r@ == escape_seq(s@.subrange(0, i as int)),
        decreases s@.len() - i,
    {
        let c = s[i];
        if c == '&' {
            r.push('&');
            r.push('a');
            r.push('m');
            r.push('p');
            r.push(';');
        } else if c == '>' {
            r.push('&');
            r.push('g');
            r.push('t');
            r.push(';');
        } else {
            r.push(c);
        }
        proof {
            assert(s@.subrange(0, i + 1).drop_last() =~= s@.subrange(0, i as int));
        }
        i += 1;
        assert(r@ =~= escape_seq(s@.subrange(0, i as int)));
    }
    assert(s@.subrange(0, s@.len() as int) =~= s@);
    r
}

/// The parent id of the node at the end of `path`; empty for the root.
pub open spec fn parent_of(path: Seq<Seq<char>>) -> Seq<char> {
    if path.len() == 0 {
        Seq::empty()
    } else {
        node_id(path, path.len() - 1)
    }
}

pub open spec fn views_of(v: Seq<Vec<char>>) -> Seq<Seq<char>> {
    v.map_values(|x: Vec<char>| x@)
}

pub fn strings_of(v: &Vec<Vec<char>>) -> (r: Vec<String>)
    ensures
        fields_view(r@) == views_of(v@),
{
    let mut r: Vec<String> = Vec::new();
    let mut i: usize = 0;
    while i < v.len()
        invariant
            i <= v@.len(),
            r@.len() == i,
            forall|j: int| 0 <= j < i ==> #[trigger] r@[j]@ == v@[j]@,
        decreases v@.len() - i,
    {
        r.push(string_of(&v[i]));
        i += 1;
    }
    assert(fields_view(r@) =~= views_of(v@));
    r
}

pub fn char_lists_of(v: &Vec<String>) -> (r: Vec<Vec<char>>)
    ensures
        views_of(r@) == fields_view(v@),
{
    let mut r: Vec<Vec<char>> = Vec::new();
    let mut i: usize = 0;
    while i < v.len()
        invariant
            i <= v@.len(),
            r@.len() == i,
            forall|j: int| 0 <= j < i ==> #[trigger] r@[j]@ == v@[j]@,
        decreases v@.len() - i,
    {
        r.push(chars_of(v[i].as_str()));
        i += 1;
    }
    assert(views_of(r@) =~= fields_view(v@));
    r
}

fn go_segments_exec(s: &Vec<char>) -> (r: Vec<Vec<char>>)
    ensures
        views_of(r@) == go_segments(s@),
{
    let slash = lit("/");
    let dot = lit(".");
    proof {
        reveal_strlit("/");
    }
    let parts = split(s, &slash);
    let ghost pv = views_of(parts@);
    let n = parts.len();
    let mut out: Vec<Vec<char>> = Vec::new();
    let mut i: usize = 0;
    if n > 1 {
        out.push(unescape(&parts[0]));
        i = 1;
        assert(pv.subrange(1, n as int) =~= pv.drop_first());
        assert(views_of(out@) =~= seq![unescape_seq(pv[0])]);
    } else {
        assert(pv.subrange(0, n as int) =~= pv);
        assert(views_of(out@) =~= Seq::<Seq<char>>::empty());
    }
    let mut stopped = false;
    while i < n && !stopped
        invariant
            pv == views_of(parts@),
            n == parts@.len(),
            dot@ == "."@,
            i <= n,
            stopped ==> views_of(out@) == go_segments(s@),
            !stopped ==> views_of(out@) + go_tail(pv.subrange(i as int, n as int)) == go_segments(
                s@,
            ),
        decreases n - i,
    {
        let ghost rest = pv.subrange(i as int, n as int);
        assert(rest.drop_first() =~= pv.subrange(i + 1, n as int));
        let ghost before = views_of(out@);
        if !contains(&parts[i], &dot) {
            out.push(unescape(&parts[i]));
            assert(views_of(out@) =~= before + seq![unescape_seq(pv[i as int])]);
            assert(views_of(out@) + go_tail(pv.subrange(i + 1, n as int)) =~= before + go_tail(rest));
            i += 1;
        } else {
            proof {
                reveal_strlit(".");
            }
            let sub = split(&parts[i], &dot);
            out.push(unescape(&sub[0]));
            assert(views_of(sub@)[0] == sub@[0]@);
            assert(views_of(out@) =~= before + go_tail(rest));
            stopped = true;
            i = n;
        }
    }
    if !stopped {
        assert(pv.subrange(i as int, n as int) =~= Seq::<Seq<char>>::empty());
        assert(views_of(out@) =~= views_of(out@) + go_tail(pv.subrange(i as int, n as int)));
    }
    out
}

fn cpp_segments_exec(s: &Vec<char>) -> (r: Vec<Vec<char>>)
    ensures
        views_of(r@) == cpp_segments(s@),
{
    let sep = lit("::");
    proof {
        reveal_strlit("::");
    }
    let mut parts = split(s, &sep);
    let ghost before = parts@;
    parts.pop();
    assert(views_of(parts@) =~= views_of(before).drop_last());
    parts
}

/// The root followed by the escaped segments of a path.
fn rooted(path: &Vec<Vec<char>>) -> (r: Vec<Vec<char>>)
    ensures
        views_of(r@) == seq!["ROOT"@] + escaped(views_of(path@)),
        r@.len() == path@.len() + 1,
{
    let mut r: Vec<Vec<char>> = Vec::new();
    r.push(lit(TREE_ROOT));
    let mut i: usize = 0;
    while i < path.len()
        invariant
            i <= path@.len(),
            r@.len() == i + 1,
            r@[0]@ == "ROOT"@,
            forall|j: int| 0 <= j < i ==> #[trigger] r@[j + 1]@ == escape_seq(path@[j]@),
        decreases path@.len() - i,
    {
        r.push(escape(&path[i]));
        i += 1;
    }
    assert forall|j: int| 0 <= j < r@.len() implies views_of(r@)[j] == (seq!["ROOT"@] + escaped(views_of(path@)))[j] by {
        if j > 0 {
            assert(r@[(j - 1) + 1]@ == escape_seq(path@[j - 1]@));
        }
    }
    assert(views_of(r@) =~= seq!["ROOT"@] + escaped(views_of(path@)));
    r
}

/// The id of the node at depth `k` on `path`.
fn node_id_exec(path: &Vec<Vec<char>>, k: usize) -> (r: Vec<char>)
    requires
        k <= path@.len(),
    ensures
        r@ == node_id(views_of(path@), k as int),
{
    let rp = rooted(path);
    let arrow = lit(RELATION_SEPARATOR);
    let m = rp.len();
    let r = join_first(&rp, k + 1, &arrow);
    reveal(node_id);
    assert(views_of(rp@).subrange(0, k + 1) =~= id_segments(views_of(path@), k as int));
    r
}

impl ArtifactType {
    /// The package path of a Go symbol, segment by segment.
    pub fn parse_go_symbol(symbol: &str) -> (r: Vec<String>)
        ensures
            fields_view(r@) == go_segments(symbol@),
    {
        strings_of(&go_segments_exec(&chars_of(symbol)))
    }

    /// The namespaces of a native symbol, outermost first.
    pub fn parse_cpp_symbol(symbol: &str) -> (r: Vec<String>)
        ensures
            fields_view(r@) == cpp_segments(symbol@),
    {
        strings_of(&cpp_segments_exec(&chars_of(symbol)))
    }

    fn segments(&self, symbol: &str, package: &str) -> (r: Vec<Vec<char>>)
        ensures
            views_of(r@) == segments_of(*self, symbol@, package@),
    {
        match self {
            ArtifactType::Go => go_segments_exec(&chars_of(symbol)),
            ArtifactType::Cpp => cpp_segments_exec(&chars_of(symbol)),
            _ => {
                let v = vec![chars_of(package)];
                assert(views_of(v@) =~= seq![package@]);
                v
            },
        }
    }

    /// The display name, id and parent id of the node that a symbol of this kind in group
    /// `package` belongs to.
    pub fn parse_symbol(&self, symbol: &str, package: &str) -> (r: (String, String, String))
        ensures
            ({
                let path = segments_of(*self, symbol@, package@);
                &&& r.0@ == join_seq(path, separator_of(*self))
                &&& r.1@ == node_id(path, path.len() as int)
                &&& r.2@ == parent_of(path)
            }),
    {
        let path = self.segments(symbol, package);
        let display = join(&path, &chars_of(self.separator()));
        let id = node_id_exec(&path, path.len());
        let parent = if path.len() == 0 {
            Vec::new()
        } else {
            node_id_exec(&path, path.len() - 1)
        };
        assert(views_of(path@).subrange(0, path@.len() as int) =~= views_of(path@));
        (string_of(&display), string_of(&id), string_of(&parent))
    }
}

/// One node of the size tree: its display name, id, parent id, kind, accumulated size and
/// the segments from the root down to it.
#[derive(Debug, Clone)]
pub struct PackageCsv {
    pub display_name: String,
    pub id: String,
    pub parent_id: String,
    pub kind: ArtifactType,
    pub size: u64,
    pub path: Vec<String>,
}

pub struct NodeView {
    pub display_name: Seq<char>,
    pub id: Seq<char>,
    pub parent_id: Seq<char>,
    pub kind: ArtifactType,
    pub size: u64,
    pub path: Seq<Seq<char>>,
}

impl View for PackageCsv {
    type V = NodeView;

    open spec fn view(&self) -> NodeView {
        NodeView {
            display_name: self.display_name@,
            id: self.id@,
            parent_id: self.parent_id@,
            kind: self.kind,
            size: self.size,
            path: fields_view(self.path@),
        }
    }
}

pub open spec fn nodes_view(v: Seq<PackageCsv>) -> Seq<NodeView> {
    v.map_values(|c: PackageCsv| c@)
}

pub open spec fn root_node(size: u64) -> NodeView {
    NodeView {
        display_name: Seq::empty(),
        id: "ROOT"@,
        parent_id: Seq::empty(),
        kind: ArtifactType::Unknown,
        size,
        path: Seq::empty(),
    }
}

/// The node at depth `k` on `path`, carrying `size`; depth zero is the root.
pub open spec fn node_at(path: Seq<Seq<char>>, kind: ArtifactType, size: u64, k: int) -> NodeView {
    if k == 0 {
        root_node(size)
    } else {
        NodeView {
            display_name: join_seq(path.subrange(0, k), separator_of(kind)),
            id: node_id(path, k),
            parent_id: node_id(path, k - 1),
            kind,
            size,
            path: path.subrange(0, k),
        }
    }
}

/// A node and all its ancestors, root first, each carrying the node's size.
#[verifier::opaque]
pub open spec fn flatten_spec(c: NodeView) -> Seq<NodeView> {
    Seq::new(c.path.len() + 1, |k: int| node_at(c.path, c.kind, c.size, k))
}

/// The leaf node of a symbol.
#[verifier::opaque]
pub open spec fn symbol_node(x: SymbolView) -> NodeView {
    let path = segments_of(x.kind, x.value, x.package);
    NodeView {
        display_name: join_seq(path, separator_of(x.kind)),
        id: node_id(path, path.len() as int),
        parent_id: parent_of(path),
        kind: x.kind,
        size: x.size,
        path,
    }
}

/// The sizes of the records with id `x`, summed.
pub open spec fn id_total(es: Seq<NodeView>, x: Seq<char>) -> int
    decreases es.len(),
{
    if es.len() == 0 {
        0
    } else {
        id_total(es.drop_last(), x) + if es.last().id == x {
            es.last().size as int
        } else {
            0
        }
    }
}

/// What the symbols contribute to the node with id `x`.
pub open spec fn node_total(syms: Seq<SymbolView>, x: Seq<char>) -> int
    decreases syms.len(),
{
    if syms.len() == 0 {
        0
    } else {
        node_total(syms.drop_last(), x) + id_total(flatten_spec(symbol_node(syms.last())), x)
    }
}

/// All symbols of the groups, group by group.
pub open spec fn all_symbols(pkgs: Seq<PackageView>) -> Seq<SymbolView>
    decreases pkgs.len(),
{
    if pkgs.len() == 0 {
        Seq::empty()
    } else {
        all_symbols(pkgs.drop_last()) + pkgs.last().symbols
    }
}

pub open spec fn entry_of(syms: Seq<SymbolView>, t: int, m: int) -> NodeView {
    flatten_spec(symbol_node(syms[t]))[m]
}

pub open spec fn is_entry(syms: Seq<SymbolView>, t: int, m: int) -> bool {
    0 <= t < syms.len() && 0 <= m <= symbol_node(syms[t]).path.len()
}

/// Equal but for the size.
pub open spec fn same_node(a: NodeView, b: NodeView) -> bool {
    &&& a.display_name == b.display_name
    &&& a.id == b.id
    &&& a.parent_id == b.parent_id
    &&& a.kind == b.kind
    &&& a.path == b.path
}

/// The index of the first symbol whose ancestor chain reaches `x`.
#[verifier::opaque]
pub open spec fn first_index(syms: Seq<SymbolView>, x: Seq<char>) -> int
    decreases syms.len(),
{
    if syms.len() == 0 {
        0
    } else if node_total(syms.drop_last(), x) > 0 {
        first_index(syms.drop_last(), x)
    } else {
        syms.len() - 1
    }
}

/// The kind of the first symbol whose ancestor chain reaches `x`.
#[verifier::opaque]
pub open spec fn first_kind(syms: Seq<SymbolView>, x: Seq<char>) -> ArtifactType
    decreases syms.len(),
{
    if syms.len() == 0 {
        ArtifactType::Unknown
    } else if node_total(syms.drop_last(), x) > 0 {
        first_kind(syms.drop_last(), x)
    } else {
        syms.last().kind
    }
}

/// Id `x` is first reached before id `y`: by an earlier symbol, or by the same symbol
/// nearer the root.
pub open spec fn sighted_before(syms: Seq<SymbolView>, x: Seq<char>, y: Seq<char>) -> bool {
    ||| first_index(syms, x) < first_index(syms, y)
    ||| (first_index(syms, x) == first_index(syms, y) && x.len() < y.len())
}

/// A record whose id and parent id are the root and its path, joined, one level apart,
/// and whose display name is its path joined with its kind's separator.
pub open spec fn well_placed(n: NodeView) -> bool {
    &&& n.path.len() >= 1
    &&& n.id == node_id(n.path, n.path.len() as int)
    &&& n.parent_id == node_id(n.path, n.path.len() - 1)
    &&& n.display_name == join_seq(n.path, separator_of(n.kind))
}

/// `r` is the aggregated tree of the symbols: the root first, ids unique, each record
/// carrying the sum of the sizes of the symbols whose ancestor chain holds its id, no
/// dangling parent, a record for every id that some symbol contributes to and for no
/// other, each record of the kind of the first symbol that reached it, and the records in
/// the order in which they were first reached.
#[verifier::opaque]
pub open spec fn is_tree_of(syms: Seq<SymbolView>, r: Seq<NodeView>) -> bool {
    &&& r.len() >= 1
    &&& same_node(r[0], root_node(0))
    &&& forall|i: int, j: int| 0 <= i < j < r.len() ==> r[i].id != r[j].id
    &&& forall|i: int| 0 <= i < r.len() ==> #[trigger] r[i].size == node_total(syms, r[i].id)
    &&& forall|i: int|
        0 < i < r.len() ==> exists|j: int| 0 <= j < r.len() && r[j].id == #[trigger] r[i].parent_id
    &&& forall|x: Seq<char>|
        #[trigger] node_total(syms, x) > 0 ==> exists|i: int| 0 <= i < r.len() && r[i].id == x
    &&& forall|i: int| 0 < i < r.len() ==> well_placed(#[trigger] r[i])
    &&& forall|i: int| 0 < i < r.len() ==> node_total(syms, (#[trigger] r[i]).id) > 0
    &&& forall|i: int| 0 < i < r.len() ==> (#[trigger] r[i]).kind == first_kind(syms, r[i].id)
    &&& forall|i: int, j: int|
        0 < i < j < r.len() ==> sighted_before(syms, (#[trigger] r[i]).id, (#[trigger] r[j]).id)
}

pub proof fn lemma_symbol_node_size(x: SymbolView)
    ensures
        symbol_node(x).size == x.size,
{
    reveal(symbol_node);
}

pub proof fn lemma_symbol_node_placed(x: SymbolView)
    ensures
        symbol_node(x).path.len() > 0 ==> well_placed(symbol_node(x)),
{
    reveal(symbol_node);
}

pub proof fn lemma_symbol_node_kind(x: SymbolView)
    ensures
        symbol_node(x).kind == x.kind,
{
    reveal(symbol_node);
}

pub proof fn lemma_first_index_bound(d: Seq<SymbolView>, x: Seq<char>)
    requires
        node_total(d, x) > 0,
    ensures
        0 <= first_index(d, x) < d.len(),
    decreases d.len(),
{
    reveal(first_index);
    if d.len() > 0 && node_total(d.drop_last(), x) > 0 {
        lemma_first_index_bound(d.drop_last(), x);
    }
}

/// One more symbol changes the first reacher only of ids that nothing reached before.
pub proof fn lemma_first_extend(d: Seq<SymbolView>, s: SymbolView, x: Seq<char>)
    ensures
        first_index(d.push(s), x) == if node_total(d, x) > 0 {
            first_index(d, x)
        } else {
            d.len() as int
        },
        first_kind(d.push(s), x) == if node_total(d, x) > 0 {
            first_kind(d, x)
        } else {
            s.kind
        },
{
    reveal(first_index);
    reveal(first_kind);
    assert(d.push(s).drop_last() =~= d);
}

/// The shape of a chain: its length, the root first, each record's size and parent.
pub proof fn lemma_flatten_facts(c: NodeView)
    ensures
        flatten_spec(c).len() == c.path.len() + 1,
        same_node(flatten_spec(c)[0], root_node(0)),
        forall|k: int| 0 <= k <= c.path.len() ==> (#[trigger] flatten_spec(c)[k]).size == c.size,
        forall|k: int| 0 <= k <= c.path.len() ==> (#[trigger] flatten_spec(c)[k]).id == node_id(c.path, k),
        forall|k: int| 1 <= k <= c.path.len() ==> (#[trigger] flatten_spec(c)[k]).parent_id == node_id(c.path, k - 1),
        forall|k: int| 1 <= k <= c.path.len() ==> well_placed(#[trigger] flatten_spec(c)[k]),
        forall|k: int| 1 <= k <= c.path.len() ==> (#[trigger] flatten_spec(c)[k]).kind == c.kind,
{
    reveal(flatten_spec);
    lemma_node_id_root(c.path);
    assert forall|k: int| 1 <= k <= c.path.len() implies well_placed(#[trigger] flatten_spec(c)[k]) by {
        lemma_node_id_prefix(c.path, k, k);
        lemma_node_id_prefix(c.path, k, k - 1);
    }
}

/// Only the first `k` segments of a path matter for the ids down to depth `k`.
pub proof fn lemma_node_id_prefix(path: Seq<Seq<char>>, n: int, k: int)
    requires
        0 <= k <= n <= path.len(),
    ensures
        node_id(path.subrange(0, n), k) == node_id(path, k),
{
    reveal(node_id);
    assert(path.subrange(0, n).subrange(0, k) =~= path.subrange(0, k));
    assert(id_segments(path.subrange(0, n), k) =~= id_segments(path, k));
}

pub proof fn lemma_node_id_root(path: Seq<Seq<char>>)
    ensures
        node_id(path, 0) == "ROOT"@,
{
    reveal(node_id);
    assert(id_segments(path, 0) =~= seq!["ROOT"@]);
}

pub proof fn lemma_node_id_len(path: Seq<Seq<char>>, a: int, b: int)
    requires
        0 <= a < b <= path.len(),
    ensures
        node_id(path, a).len() < node_id(path, b).len(),
    decreases b - a,
{
    reveal(node_id);
    reveal_strlit("->");
    let q = id_segments(path, b);
    assert(q.drop_last() =~= id_segments(path, b - 1));
    assert(node_id(path, b) == node_id(path, b - 1) + "->"@ + q.last());
    if a < b - 1 {
        lemma_node_id_len(path, a, b - 1);
    }
}

pub proof fn lemma_flatten_ids(c: NodeView, a: int, b: int)
    requires
        0 <= a < b <= c.path.len(),
    ensures
        flatten_spec(c)[a].id != flatten_spec(c)[b].id,
        flatten_spec(c)[a].id == node_id(c.path, a),
{
    lemma_flatten_facts(c);
    lemma_node_id_root(c.path);
    lemma_node_id_len(c.path, a, b);
}

pub proof fn lemma_id_total_zero(es: Seq<NodeView>, x: Seq<char>)
    requires
        forall|i: int| 0 <= i < es.len() ==> es[i].id != x,
    ensures
        id_total(es, x) == 0,
    decreases es.len(),
{
    if es.len() > 0 {
        lemma_id_total_zero(es.drop_last(), x);
    }
}

/// In a node's chain at most one record has a given id.
pub proof fn lemma_id_total_chain(c: NodeView, x: Seq<char>, j: int)
    requires
        0 <= j <= c.path.len() + 1,
    ensures
        id_total(flatten_spec(c).subrange(0, j), x) == if exists|m: int|
            0 <= m < j && flatten_spec(c)[m].id == x {
            c.size as int
        } else {
            0
        },
    decreases j,
{
    let fl = flatten_spec(c);
    lemma_flatten_facts(c);
    if j > 0 {
        lemma_id_total_chain(c, x, j - 1);
        assert(fl.subrange(0, j).drop_last() =~= fl.subrange(0, j - 1));
        if fl[j - 1].id == x {
            if exists|m: int| 0 <= m < j - 1 && fl[m].id == x {
                let m = choose|m: int| 0 <= m < j - 1 && fl[m].id == x;
                lemma_flatten_ids(c, m, j - 1);
            }
        } else {
            if exists|m: int| 0 <= m < j && fl[m].id == x {
                let m = choose|m: int| 0 <= m < j && fl[m].id == x;
                assert(0 <= m < j - 1);
            }
        }
    }
}

pub proof fn lemma_id_total_chain_le(c: NodeView, x: Seq<char>)
    ensures
        id_total(flatten_spec(c), x) <= c.size,
        id_total(flatten_spec(c), x) >= 0,
{
    lemma_flatten_facts(c);
    lemma_id_total_chain(c, x, c.path.len() + 1 as int);
    assert(flatten_spec(c).subrange(0, c.path.len() + 1 as int) =~= flatten_spec(c));
}

pub proof fn lemma_node_total_bounds(syms: Seq<SymbolView>, x: Seq<char>)
    ensures
        0 <= node_total(syms, x) <= sum_symbol_sizes(syms),
    decreases syms.len(),
{
    if syms.len() > 0 {
        lemma_node_total_bounds(syms.drop_last(), x);
        lemma_id_total_chain_le(symbol_node(syms.last()), x);
        lemma_symbol_node_size(syms.last());
    }
}

pub proof fn lemma_sum_symbols_prefix(syms: Seq<SymbolView>, j: int)
    requires
        0 <= j <= syms.len(),
    ensures
        sum_symbol_sizes(syms.subrange(0, j)) <= sum_symbol_sizes(syms),
    decreases syms.len() - j,
{
    if j < syms.len() {
        let a = syms.subrange(0, j + 1);
        assert(a.drop_last() =~= syms.subrange(0, j));
        lemma_sum_symbols_prefix(syms, j + 1);
    } else {
        assert(syms.subrange(0, j) =~= syms);
    }
}

pub proof fn lemma_sum_packages_prefix(pkgs: Seq<PackageView>, j: int)
    requires
        0 <= j <= pkgs.len(),
    ensures
        sum_package_sizes(pkgs.subrange(0, j)) <= sum_package_sizes(pkgs),
    decreases pkgs.len() - j,
{
    if j < pkgs.len() {
        let a = pkgs.subrange(0, j + 1);
        assert(a.drop_last() =~= pkgs.subrange(0, j));
        lemma_sum_packages_prefix(pkgs, j + 1);
    } else {
        assert(pkgs.subrange(0, j) =~= pkgs);
    }
}

impl PackageCsv {
    pub fn new(
        display_name: String,
        id: String,
        parent_id: String,
        kind: ArtifactType,
        size: u64,
        path: Vec<String>,
    ) -> (r: PackageCsv)
        ensures
            r@ == (NodeView {
                display_name: display_name@,
                id: id@,
                parent_id: parent_id@,
                kind,
                size,
                path: fields_view(path@),
            }),
    {
        PackageCsv { display_name, id, parent_id, kind, size, path }
    }

    /// The root node with a size.
    pub fn root(size: u64) -> (r: PackageCsv)
        ensures
            r@ == root_node(size),
    {
        let r = PackageCsv {
            display_name: String::new(),
            id: String::from_str(TREE_ROOT),
            parent_id: String::new(),
            kind: ArtifactType::Unknown,
            size,
            path: Vec::new(),
        };
        assert(r@.path =~= Seq::<Seq<char>>::empty());
        r
    }

    /// A copy of the record.
    pub fn copy(&self) -> (r: PackageCsv)
        ensures
            r@ == self@,
    {
        let path = strings_of(&char_lists_of(&self.path));
        PackageCsv {
            display_name: self.display_name.clone(),
            id: self.id.clone(),
            parent_id: self.parent_id.clone(),
            kind: self.kind,
            size: self.size,
            path,
        }
    }

    /// The node and all its ancestors, root first, each with the node's size. The chain is
    /// built from the path, which the id, parent id and display name agree with.
    pub fn flatten(&self) -> (r: Vec<PackageCsv>)
        requires
            self@.path.len() > 0 ==> well_placed(self@),
        ensures
            nodes_view(r@) == flatten_spec(self@),
    {
        let path = char_lists_of(&self.path);
        let ghost pv = views_of(path@);
        let sep = chars_of(self.kind.separator());
        let n = path.len();
        let mut out: Vec<PackageCsv> = Vec::new();
        out.push(PackageCsv::root(self.size));
        let mut k: usize = 1;
        while k <= n
            invariant
                pv == views_of(path@),
                pv == self@.path,
                n == path@.len(),
                sep@ == separator_of(self.kind),
                1 <= k <= n + 1,
                out@.len() == k,
                forall|j: int| 0 <= j < k ==> #[trigger] out@[j]@ == node_at(pv, self.kind, self.size, j),
            decreases n + 1 - k,
        {
            let display = join_first(&path, k, &sep);
            let id = node_id_exec(&path, k);
            let parent = node_id_exec(&path, k - 1);
            let sub = strings_of(&first_lists(&path, k));
            out.push(PackageCsv {
                display_name: string_of(&display),
                id: string_of(&id),
                parent_id: string_of(&parent),
                kind: self.kind,
                size: self.size,
                path: sub,
            });
            k = out.len();
        }
        reveal(flatten_spec);
        assert(nodes_view(out@) =~= flatten_spec(self@));
        out
    }
}

fn first_lists(v: &Vec<Vec<char>>, k: usize) -> (r: Vec<Vec<char>>)
    requires
        k <= v@.len(),
    ensures
        views_of(r@) == views_of(v@).subrange(0, k as int),
{
    let mut r: Vec<Vec<char>> = Vec::new();
    let mut i: usize = 0;
    while i < k
        invariant
            k <= v@.len(),
            i <= k,
            r@.len() == i,
            forall|j: int| 0 <= j < i ==> #[trigger] r@[j]@ == v@[j]@,
        decreases k - i,
    {
        r.push(v[i].clone());
        i += 1;
    }
    assert(views_of(r@) =~= views_of(v@).subrange(0, k as int));
    r
}

impl Symbol {
    /// The leaf node of the symbol.
    pub fn into_package(&self) -> (r: PackageCsv)
        ensures
            r@ == symbol_node(self@),
    {
        let path = self.kind.segments(self.value.as_str(), self.package.as_str());
        let (display, id, parent_id) = self.kind.parse_symbol(
            self.value.as_str(),
            self.package.as_str(),
        );
        proof {
            reveal(symbol_node);
        }
        PackageCsv::new(display, id, parent_id, self.kind, self.size, strings_of(&path))
    }
}

/// The tree of `d` with the first `k` records of the chain of `s` added as well.
pub open spec fn partial_tree(d: Seq<SymbolView>, s: SymbolView, k: int, r: Seq<NodeView>) -> bool {
    let fl = flatten_spec(symbol_node(s));
    &&& 0 <= k <= fl.len()
    &&& r.len() >= 1
    &&& same_node(r[0], root_node(0))
    &&& forall|i: int, j: int| 0 <= i < j < r.len() ==> r[i].id != r[j].id
    &&& forall|i: int|
        0 <= i < r.len() ==> #[trigger] r[i].size == node_total(d, r[i].id) + id_total(
            fl.subrange(0, k),
            r[i].id,
        )
    &&& forall|i: int|
        0 < i < r.len() ==> exists|j: int| 0 <= j < r.len() && r[j].id == #[trigger] r[i].parent_id
    &&& forall|x: Seq<char>|
        #[trigger] node_total(d, x) + id_total(fl.subrange(0, k), x) > 0 ==> exists|i: int|
            0 <= i < r.len() && r[i].id == x
    &&& forall|i: int| 0 < i < r.len() ==> well_placed(#[trigger] r[i])
    &&& forall|i: int| 0 < i < r.len() ==> (#[trigger] r[i]).size > 0
    &&& forall|i: int| 0 < i < r.len() ==> (#[trigger] r[i]).kind == first_kind(d.push(s), r[i].id)
    &&& forall|i: int, j: int|
        0 < i < j < r.len() ==> sighted_before(d.push(s), (#[trigger] r[i]).id, (#[trigger] r[j]).id)
}

pub proof fn lemma_tree_start(d: Seq<SymbolView>, s: SymbolView, r: Seq<NodeView>)
    requires
        is_tree_of(d, r),
    ensures
        partial_tree(d, s, 0, r),
{
    reveal(is_tree_of);
    let fl = flatten_spec(symbol_node(s));
    assert(fl.subrange(0, 0) =~= Seq::<NodeView>::empty());
    assert forall|i: int| 0 <= i < r.len() implies #[trigger] r[i].size == node_total(d, r[i].id) + id_total(
        fl.subrange(0, 0),
        r[i].id,
    ) by {
        assert(r[i].size == node_total(d, r[i].id));
    }
    assert forall|x: Seq<char>| #[trigger] node_total(d, x) + id_total(fl.subrange(0, 0), x) > 0 implies exists|i: int|
        0 <= i < r.len() && r[i].id == x by {
        assert(node_total(d, x) > 0);
    }
    lemma_flatten_facts(symbol_node(s));
    let ds = d.push(s);
    assert(ds.drop_last() =~= d);
    assert forall|i: int| 0 < i < r.len() implies (#[trigger] r[i]).size > 0 by {
        assert(node_total(d, r[i].id) > 0);
    }
    assert forall|i: int| 0 < i < r.len() implies (#[trigger] r[i]).kind == first_kind(ds, r[i].id) by {
        assert(node_total(d, r[i].id) > 0);
        lemma_first_extend(d, s, r[i].id);
    }
    assert forall|i: int, j: int| 0 < i < j < r.len() implies sighted_before(ds, (#[trigger] r[i]).id, (#[trigger] r[j]).id) by {
        assert(node_total(d, r[i].id) > 0);
        assert(node_total(d, r[j].id) > 0);
        assert(sighted_before(d, r[i].id, r[j].id));
        lemma_first_extend(d, s, r[i].id);
        lemma_first_extend(d, s, r[j].id);
    }
}

pub proof fn lemma_tree_finish(d: Seq<SymbolView>, s: SymbolView, r: Seq<NodeView>)
    requires
        partial_tree(d, s, flatten_spec(symbol_node(s)).len() as int, r),
    ensures
        is_tree_of(d.push(s), r),
{
    reveal(is_tree_of);
    let ds = d.push(s);
    let fl = flatten_spec(symbol_node(s));
    assert(fl.subrange(0, fl.len() as int) =~= fl);
    assert(ds.drop_last() =~= d);
    assert forall|x: Seq<char>| node_total(ds, x) == node_total(d, x) + id_total(fl.subrange(0, fl.len() as int), x) by {
    }
    assert forall|i: int| 0 <= i < r.len() implies #[trigger] r[i].size == node_total(ds, r[i].id) by {
        assert(r[i].size == node_total(d, r[i].id) + id_total(fl.subrange(0, fl.len() as int), r[i].id));
    }
    assert forall|x: Seq<char>| #[trigger] node_total(ds, x) > 0 implies exists|i: int| 0 <= i < r.len() && r[i].id == x by {
        assert(node_total(d, x) + id_total(fl.subrange(0, fl.len() as int), x) > 0);
    }
    assert forall|i: int| 0 < i < r.len() implies node_total(ds, (#[trigger] r[i]).id) > 0 by {
        assert(r[i].size > 0);
    }
}

pub proof fn lemma_all_symbols_step(pkgs: Seq<PackageView>, i: int)
    requires
        0 <= i < pkgs.len(),
    ensures
        all_symbols(pkgs.subrange(0, i + 1)) == all_symbols(pkgs.subrange(0, i)) + pkgs[i].symbols,
{
    assert(pkgs.subrange(0, i + 1).drop_last() =~= pkgs.subrange(0, i));
}

impl Packages {
    fn find_node(nodes: &Vec<PackageCsv>, id: &String) -> (r: Option<usize>)
        ensures
            match r {
                Some(i) => i < nodes@.len() && nodes@[i as int]@.id == id@,
                None => forall|i: int| 0 <= i < nodes@.len() ==> nodes@[i]@.id != id@,
            },
    {
        let mut i: usize = 0;
        while i < nodes.len()
            invariant
                i <= nodes@.len(),
                forall|k: int| 0 <= k < i ==> nodes@[k]@.id != id@,
            decreases nodes@.len() - i,
        {
            if nodes[i].id == *id {
                return Some(i);
            }
            i += 1;
        }
        None
    }

    /// Adds the chain of one symbol to the tree.
    #[verifier::rlimit(50)]
    fn add_chain(nodes: &mut Vec<PackageCsv>, fl: &Vec<PackageCsv>, Ghost(d): Ghost<Seq<SymbolView>>, Ghost(s): Ghost<SymbolView>)
        requires
            is_tree_of(d, nodes_view(old(nodes)@)),
            nodes_view(fl@) == flatten_spec(symbol_node(s)),
            sum_symbol_sizes(d) + s.size <= u64::MAX,
            s.size > 0,
        ensures
            is_tree_of(d.push(s), nodes_view(final(nodes)@)),
    {
        let ghost c = symbol_node(s);
        let ghost fv = flatten_spec(c);
        proof {
            lemma_tree_start(d, s, nodes_view(nodes@));
            lemma_symbol_node_size(s);
            lemma_symbol_node_kind(s);
            lemma_flatten_facts(c);
        }
        let mut k: usize = 0;
        while k < fl.len()
            invariant
                nodes_view(fl@) == fv,
                fv == flatten_spec(c),
                c == symbol_node(s),
                c.size == s.size,
                c.kind == s.kind,
                forall|m: int| 1 <= m < fv.len() ==> (#[trigger] fv[m]).kind == c.kind,
                s.size > 0,
                fv.len() == c.path.len() + 1,
                same_node(fv[0], root_node(0)),
                forall|m: int| 0 <= m < fv.len() ==> (#[trigger] fv[m]).size == c.size,
                forall|m: int| 0 <= m < fv.len() ==> (#[trigger] fv[m]).id == node_id(c.path, m),
                forall|m: int| 1 <= m < fv.len() ==> well_placed(#[trigger] fv[m]),
                forall|m: int| 1 <= m < fv.len() ==> (#[trigger] fv[m]).parent_id == node_id(c.path, m - 1),
                sum_symbol_sizes(d) + s.size <= u64::MAX,
                partial_tree(d, s, k as int, nodes_view(nodes@)),
            decreases fl@.len() - k,
        {
            let ghost r0 = nodes_view(nodes@);
            let ghost x = fv[k as int].id;
            assert(fl@[k as int]@ == fv[k as int]);
            assert(fv[k as int].size == s.size);
            proof {
                lemma_id_total_chain(c, x, k as int);
                if exists|m: int| 0 <= m < k && fv[m].id == x {
                    let m = choose|m: int| 0 <= m < k && fv[m].id == x;
                    lemma_flatten_ids(c, m, k as int);
                }
                assert(fv.subrange(0, k + 1).drop_last() =~= fv.subrange(0, k as int));
                assert(fv.subrange(0, k + 1).last() == fv[k as int]);
            }
            match Packages::find_node(nodes, &fl[k].id) {
                Some(i) => {
                    proof {
                        lemma_node_total_bounds(d, x);
                        assert(r0[i as int].size == node_total(d, x) + id_total(fv.subrange(0, k as int), x));
                    }
                    let sz = nodes[i].size + fl[k].size;
                    nodes[i].size = sz;
                    proof {
                        let r1 = nodes_view(nodes@);
                        assert(r1 =~= r0.update(i as int, NodeView { size: sz, ..r0[i as int] }));
                        assert forall|j: int| 0 <= j < r1.len() implies #[trigger] r1[j].size == node_total(d, r1[j].id) + id_total(
                            fv.subrange(0, k + 1),
                            r1[j].id,
                        ) by {
                            assert(r0[j].size == node_total(d, r0[j].id) + id_total(fv.subrange(0, k as int), r0[j].id));
                        }
                        assert forall|j: int| 0 < j < r1.len() implies exists|q: int| 0 <= q < r1.len() && r1[q].id == #[trigger] r1[j].parent_id by {
                            assert(r0[j].parent_id == r1[j].parent_id);
                            let q = choose|q: int| 0 <= q < r0.len() && r0[q].id == r0[j].parent_id;
                            assert(r1[q].id == r1[j].parent_id);
                        }
                        assert forall|j: int| 0 < j < r1.len() implies well_placed(#[trigger] r1[j]) by {
                            assert(well_placed(r0[j]));
                        }
                        let ds = d.push(s);
                        assert forall|j: int| 0 < j < r1.len() implies (#[trigger] r1[j]).size > 0 by {
                            assert(r0[j].size > 0);
                        }
                        assert forall|j: int| 0 < j < r1.len() implies (#[trigger] r1[j]).kind == first_kind(ds, r1[j].id) by {
                            assert(r0[j].kind == first_kind(ds, r0[j].id));
                        }
                        assert forall|a: int, b: int| 0 < a < b < r1.len() implies sighted_before(ds, (#[trigger] r1[a]).id, (#[trigger] r1[b]).id) by {
                            assert(sighted_before(ds, r0[a].id, r0[b].id));
                        }
                        assert forall|y: Seq<char>| #[trigger] node_total(d, y) + id_total(fv.subrange(0, k + 1), y) > 0 implies exists|j: int|
                            0 <= j < r1.len() && r1[j].id == y by {
                            if y == x {
                                assert(r1[i as int].id == y);
                            } else {
                                assert(node_total(d, y) + id_total(fv.subrange(0, k as int), y) > 0);
                                let j = choose|j: int| 0 <= j < r0.len() && r0[j].id == y;
                                assert(r1[j].id == y);
                            }
                        }
                    }
                },
                None => {
                    proof {
                        if k == 0 {
                            assert(r0[0].id == x);
                        }
                        if node_total(d, x) + id_total(fv.subrange(0, k as int), x) > 0 {
                            let j = choose|j: int| 0 <= j < r0.len() && r0[j].id == x;
                            assert(r0[j].id == x);
                        }
                        lemma_node_total_bounds(d, x);
                    }
                    let e = fl[k].copy();
                    nodes.push(e);
                    proof {
                        let r1 = nodes_view(nodes@);
                        assert(r1 =~= r0.push(fv[k as int]));
                        assert forall|j: int| 0 <= j < r1.len() implies #[trigger] r1[j].size == node_total(d, r1[j].id) + id_total(
                            fv.subrange(0, k + 1),
                            r1[j].id,
                        ) by {
                            if j < r0.len() {
                                assert(r0[j].size == node_total(d, r0[j].id) + id_total(fv.subrange(0, k as int), r0[j].id));
                            }
                        }
                        assert forall|j: int| 0 < j < r1.len() implies exists|q: int| 0 <= q < r1.len() && r1[q].id == #[trigger] r1[j].parent_id by {
                            if j < r0.len() {
                                assert(r0[j].parent_id == r1[j].parent_id);
                                let q = choose|q: int| 0 <= q < r0.len() && r0[q].id == r0[j].parent_id;
                                assert(r1[q].id == r1[j].parent_id);
                            } else {
                                let p = fv[k - 1];
                                assert(p.id == node_id(c.path, k - 1));
                                assert(node_total(d, p.id) + id_total(fv.subrange(0, k as int), p.id) > 0) by {
                                    lemma_node_total_bounds(d, p.id);
                                    lemma_id_total_chain(c, p.id, k as int);
                                    assert(0 <= k - 1 < k && fv[k - 1].id == p.id);
                                }
                                let q = choose|q: int| 0 <= q < r0.len() && r0[q].id == p.id;
                                assert(r1[q].id == r1[j].parent_id);
                            }
                        }
                        assert forall|j: int| 0 < j < r1.len() implies well_placed(#[trigger] r1[j]) by {
                            if j < r0.len() {
                                assert(well_placed(r0[j]));
                            } else {
                                assert(well_placed(fv[k as int]));
                            }
                        }
                        let ds = d.push(s);
                        assert(node_total(d, x) == 0);
                        lemma_first_extend(d, s, x);
                        assert forall|j: int| 0 < j < r1.len() implies (#[trigger] r1[j]).size > 0 by {
                            if j < r0.len() {
                                assert(r0[j].size > 0);
                            }
                        }
                        assert forall|j: int| 0 < j < r1.len() implies (#[trigger] r1[j]).kind == first_kind(ds, r1[j].id) by {
                            if j < r0.len() {
                                assert(r0[j].kind == first_kind(ds, r0[j].id));
                            }
                        }
                        assert forall|a: int, b: int| 0 < a < b < r1.len() implies sighted_before(ds, (#[trigger] r1[a]).id, (#[trigger] r1[b]).id) by {
                            if b < r0.len() {
                                assert(sighted_before(ds, r0[a].id, r0[b].id));
                            } else {
                                let y = r0[a].id;
                                assert(r0[a].size > 0);
                                lemma_first_extend(d, s, y);
                                lemma_node_total_bounds(d, y);
                                if node_total(d, y) > 0 {
                                    lemma_first_index_bound(d, y);
                                } else {
                                    assert(r0[a].size == node_total(d, y) + id_total(fv.subrange(0, k as int), y));
                                    lemma_id_total_chain(c, y, k as int);
                                    let m = choose|m: int| 0 <= m < k && fv[m].id == y;
                                    assert(fv[m].id == node_id(c.path, m));
                                    lemma_node_id_len(c.path, m, k as int);
                                }
                            }
                        }
                        assert forall|y: Seq<char>| #[trigger] node_total(d, y) + id_total(fv.subrange(0, k + 1), y) > 0 implies exists|j: int|
                            0 <= j < r1.len() && r1[j].id == y by {
                            if y == x {
                                assert(r1[r0.len() as int].id == y);
                            } else {
                                assert(node_total(d, y) + id_total(fv.subrange(0, k as int), y) > 0);
                                let j = choose|j: int| 0 <= j < r0.len() && r0[j].id == y;
                                assert(r1[j].id == y);
                            }
                        }
                    }
                },
            }
            k += 1;
        }
        proof {
            lemma_tree_finish(d, s, nodes_view(nodes@));
        }
    }
}

impl Packages {
    /// The aggregated size tree of all symbols, root first.
    pub fn tree(&self) -> (r: Vec<PackageCsv>)
        requires
            self.wf(),
        ensures
            is_tree_of(all_symbols(self.package_views()), nodes_view(r@)),
    {
        let ghost pv = self.package_views();
        let mut nodes: Vec<PackageCsv> = Vec::new();
        nodes.push(PackageCsv::root(0));
        let ghost mut done: Seq<SymbolView> = Seq::empty();
        proof {
            assert(pv.subrange(0, 0) =~= Seq::<PackageView>::empty());
            assert(all_symbols(pv.subrange(0, 0)) == done);
            reveal(is_tree_of);
            let r = nodes_view(nodes@);
            assert(r.len() == 1);
            assert forall|i: int| 0 <= i < r.len() implies #[trigger] r[i].size == node_total(done, r[i].id) by {}
        }
        let mut pi: usize = 0;
        while pi < self.inner.len()
            invariant
                self.wf(),
                pv == self.package_views(),
                pi <= pv.len(),
                done == all_symbols(pv.subrange(0, pi as int)),
                sum_symbol_sizes(done) == sum_package_sizes(pv.subrange(0, pi as int)),
                self.total <= u64::MAX,
                is_tree_of(done, nodes_view(nodes@)),
            decreases pv.len() - pi,
        {
            let ghost syms = pv[pi as int].symbols;
            proof {
                lemma_sum_packages_prefix(pv, pi + 1);
                let a = pv.subrange(0, pi + 1);
                assert(a.drop_last() =~= pv.subrange(0, pi as int));
                assert(pv[pi as int].size == sum_symbol_sizes(syms));
                assert(syms.subrange(0, 0) =~= Seq::<SymbolView>::empty());
                assert(done + syms.subrange(0, 0) =~= done);
            }
            let mut si: usize = 0;
            while si < self.inner[pi].symbols.len()
                invariant
                    self.wf(),
                    pv == self.package_views(),
                    pi < pv.len(),
                    syms == pv[pi as int].symbols,
                    si <= syms.len(),
                    done == all_symbols(pv.subrange(0, pi as int)) + syms.subrange(0, si as int),
                    sum_symbol_sizes(done) == sum_package_sizes(pv.subrange(0, pi as int))
                        + sum_symbol_sizes(syms.subrange(0, si as int)),
                    sum_package_sizes(pv.subrange(0, pi as int)) + sum_symbol_sizes(syms) <= u64::MAX,
                    is_tree_of(done, nodes_view(nodes@)),
                decreases syms.len() - si,
            {
                let ghost sym = syms[si as int];
                let c = self.inner[pi].symbols[si].into_package();
                proof {
                    lemma_symbol_node_placed(self.inner@[pi as int].symbols@[si as int]@);
                }
                let fl = c.flatten();
                proof {
                    assert(self.inner@[pi as int]@.symbols[si as int] == self.inner@[pi as int].symbols@[si as int]@);
                    assert(sym.size > 0);
                    lemma_sum_symbols_prefix(syms, si + 1);
                    let a = syms.subrange(0, si + 1);
                    assert(a.drop_last() =~= syms.subrange(0, si as int));
                }
                Packages::add_chain(&mut nodes, &fl, Ghost(done), Ghost(sym));
                proof {
                    assert(all_symbols(pv.subrange(0, pi as int)) + syms.subrange(0, si + 1) =~= done.push(sym));
                    lemma_sum_symbols_push(done, sym);
                    done = done.push(sym);
                }
                si += 1;
            }
            proof {
                lemma_all_symbols_step(pv, pi as int);
                assert(syms.subrange(0, syms.len() as int) =~= syms);
                let a = pv.subrange(0, pi + 1);
                assert(a.drop_last() =~= pv.subrange(0, pi as int));
            }
            pi += 1;
        }
        proof {
            assert(pv.subrange(0, pv.len() as int) =~= pv);
        }
        nodes
    }
}

pub proof fn lemma_sum_symbols_concat(a: Seq<SymbolView>, b: Seq<SymbolView>)
    ensures
        sum_symbol_sizes(a + b) == sum_symbol_sizes(a) + sum_symbol_sizes(b),
    decreases b.len(),
{
    if b.len() == 0 {
        assert(a + b =~= a);
    } else {
        assert((a + b).drop_last() =~= a + b.drop_last());
        lemma_sum_symbols_concat(a, b.drop_last());
    }
}

pub proof fn lemma_all_symbols_sum(pkgs: Seq<PackageView>)
    requires
        forall|i: int| 0 <= i < pkgs.len() ==> #[trigger] pkgs[i].size == sum_symbol_sizes(pkgs[i].symbols),
    ensures
        sum_symbol_sizes(all_symbols(pkgs)) == sum_package_sizes(pkgs),
    decreases pkgs.len(),
{
    if pkgs.len() > 0 {
        let d = pkgs.drop_last();
        assert forall|i: int| 0 <= i < d.len() implies #[trigger] d[i].size == sum_symbol_sizes(d[i].symbols) by {
            assert(d[i] == pkgs[i]);
        }
        lemma_all_symbols_sum(d);
        lemma_sum_symbols_concat(all_symbols(d), pkgs.last().symbols);
        assert(pkgs.last() == pkgs[pkgs.len() - 1]);
    }
}

pub proof fn lemma_root_total(syms: Seq<SymbolView>)
    ensures
        node_total(syms, "ROOT"@) == sum_symbol_sizes(syms),
    decreases syms.len(),
{
    if syms.len() > 0 {
        lemma_root_total(syms.drop_last());
        let c = symbol_node(syms.last());
        lemma_flatten_facts(c);
        lemma_symbol_node_size(syms.last());
        lemma_id_total_chain(c, "ROOT"@, c.path.len() + 1 as int);
        assert(flatten_spec(c).subrange(0, c.path.len() + 1 as int) =~= flatten_spec(c));
        assert(flatten_spec(c)[0].id == "ROOT"@);
    }
}

/// The root of the tree carries the size of every symbol: the sum of all symbol sizes.
pub proof fn root_size_is_total(p: Packages, r: Seq<NodeView>)
    requires
        p.wf(),
        is_tree_of(all_symbols(p.package_views()), r),
    ensures
        r[0].id == "ROOT"@,
        r[0].size == p.total_size(),
        r[0].size == sum_symbol_sizes(all_symbols(p.package_views())),
{
    reveal(is_tree_of);
    let pkgs = p.package_views();
    lemma_root_total(all_symbols(pkgs));
    lemma_all_symbols_sum(pkgs);
    assert(r[0].size == node_total(all_symbols(pkgs), r[0].id));
}

/// Every record but the root has its parent among the records, and its id is the chain
/// of its path, one level per segment.
pub proof fn parents_are_present(syms: Seq<SymbolView>, r: Seq<NodeView>)
    requires
        is_tree_of(syms, r),
    ensures
        forall|i: int| 0 < i < r.len() ==> exists|j: int| 0 <= j < r.len() && r[j].id == #[trigger] r[i].parent_id,
        forall|i: int| 0 < i < r.len() ==> (#[trigger] r[i]).id == node_id(r[i].path, r[i].path.len() as int)
            && r[i].parent_id == node_id(r[i].path, r[i].path.len() - 1),
{
    reveal(is_tree_of);
    assert forall|i: int| 0 < i < r.len() implies (#[trigger] r[i]).id == node_id(r[i].path, r[i].path.len() as int)
        && r[i].parent_id == node_id(r[i].path, r[i].path.len() - 1) by {
        assert(well_placed(r[i]));
    }
}

pub proof fn lemma_id_total_distinct(r: Seq<NodeView>, i: int, j: int)
    requires
        forall|a: int, b: int| 0 <= a < b < r.len() ==> r[a].id != r[b].id,
        0 <= i < r.len(),
        0 <= j <= r.len(),
    ensures
        id_total(r.subrange(0, j), r[i].id) == if i < j { r[i].size as int } else { 0 },
    decreases j,
{
    if j > 0 {
        assert(r.subrange(0, j).drop_last() =~= r.subrange(0, j - 1));
        lemma_id_total_distinct(r, i, j - 1);
    }
}

/// Grouping the tree's records by id once more and summing their sizes gives back each
/// record's size: that is, what the symbols contribute to that id.
pub proof fn regrouping_by_id_keeps_sizes(syms: Seq<SymbolView>, r: Seq<NodeView>)
    requires
        is_tree_of(syms, r),
    ensures
        forall|i: int| 0 <= i < r.len() ==> id_total(r, #[trigger] r[i].id) == r[i].size,
        forall|i: int| 0 <= i < r.len() ==> id_total(r, #[trigger] r[i].id) == node_total(syms, r[i].id),
{
    reveal(is_tree_of);
    assert forall|i: int| 0 <= i < r.len() implies id_total(r, #[trigger] r[i].id) == r[i].size by {
        lemma_id_total_distinct(r, i, r.len() as int);
        assert(r.subrange(0, r.len() as int) =~= r);
    }
}

/// Every record but the root is reached by some symbol, so none has size zero; it has the
/// kind of the first symbol that reached it; and the records stand in the order in which
/// they were first reached.
pub proof fn records_are_reached_in_order(syms: Seq<SymbolView>, r: Seq<NodeView>)
    requires
        is_tree_of(syms, r),
    ensures
        forall|i: int| 0 < i < r.len() ==> node_total(syms, (#[trigger] r[i]).id) > 0 && r[i].size > 0,
        forall|i: int| 0 < i < r.len() ==> (#[trigger] r[i]).kind == first_kind(syms, r[i].id),
        forall|i: int, j: int|
            0 < i < j < r.len() ==> sighted_before(syms, (#[trigger] r[i]).id, (#[trigger] r[j]).id),
{
    reveal(is_tree_of);
}

/// No symbol of size zero is kept: every kept symbol has a positive size, and adding one
/// of size zero changes nothing (see `Packages::add`).
pub proof fn kept_symbols_have_positive_size(p: Packages)
    requires
        p.wf(),
    ensures
        forall|t: int|
            0 <= t < all_symbols(p.package_views()).len() ==> (#[trigger] all_symbols(
                p.package_views(),
            )[t]).size > 0,
{
    lemma_all_symbols_positive(p.package_views());
}

pub proof fn lemma_all_symbols_positive(pkgs: Seq<PackageView>)
    requires
        forall|i: int, k: int|
            0 <= i < pkgs.len() && 0 <= k < pkgs[i].symbols.len() ==> (#[trigger] pkgs[i].symbols[k]).size > 0,
    ensures
        forall|t: int| 0 <= t < all_symbols(pkgs).len() ==> (#[trigger] all_symbols(pkgs)[t]).size > 0,
    decreases pkgs.len(),
{
    if pkgs.len() > 0 {
        let d = pkgs.drop_last();
        assert forall|i: int, k: int| 0 <= i < d.len() && 0 <= k < d[i].symbols.len() implies (#[trigger] d[i].symbols[k]).size > 0 by {
            assert(d[i] == pkgs[i]);
        }
        lemma_all_symbols_positive(d);
        let a = all_symbols(d);
        let l = pkgs.last().symbols;
        assert forall|t: int| 0 <= t < all_symbols(pkgs).len() implies (#[trigger] all_symbols(pkgs)[t]).size > 0 by {
            if t >= a.len() {
                assert(all_symbols(pkgs)[t] == pkgs[pkgs.len() - 1].symbols[t - a.len()]);
            } else {
                assert(all_symbols(pkgs)[t] == a[t]);
            }
        }
    }
}

/// The longest match is a member that prefixes `s` and is at least as long as every member
/// that does; there is none when no member prefixes `s`.
pub proof fn lemma_longest_match_is_longest(s: Seq<char>, pkgs: Seq<Seq<char>>)
    ensures
        match longest_match(s, pkgs) {
            None => forall|i: int| 0 <= i < pkgs.len() ==> !has_prefix(s, #[trigger] pkgs[i]),
            Some(p) => pkgs.contains(p) && has_prefix(s, p) && forall|i: int|
                0 <= i < pkgs.len() && has_prefix(s, #[trigger] pkgs[i]) ==> pkgs[i].len() <= p.len(),
        },
    decreases pkgs.len(),
{
    if pkgs.len() > 0 {
        let d = pkgs.drop_last();
        let n = pkgs.len() - 1;
        lemma_longest_match_is_longest(s, d);
        let rest = longest_match(s, d);
        match longest_match(s, pkgs) {
            Some(p) => {
                if has_prefix(s, pkgs[n]) && (rest is None || rest->0.len() < pkgs[n].len()) {
                    assert(p == pkgs[n]);
                    assert(pkgs.contains(p));
                    assert forall|i: int| 0 <= i < pkgs.len() && has_prefix(s, #[trigger] pkgs[i]) implies pkgs[i].len() <= p.len() by {
                        if i < n {
                            assert(d[i] == pkgs[i]);
                        }
                    }
                } else {
                    assert(rest == Some(p));
                    let j = choose|j: int| 0 <= j < d.len() && d[j] == p;
                    assert(pkgs[j] == p);
                    assert forall|i: int| 0 <= i < pkgs.len() && has_prefix(s, #[trigger] pkgs[i]) implies pkgs[i].len() <= p.len() by {
                        if i < n {
                            assert(d[i] == pkgs[i]);
                        }
                    }
                }
            },
            None => {
                assert forall|i: int| 0 <= i < pkgs.len() implies !has_prefix(s, #[trigger] pkgs[i]) by {
                    if i < n {
                        assert(d[i] == pkgs[i]);
                    }
                }
            },
        }
    }
}

/// Two members that both prefix `s` and are equally long are equal.
pub proof fn lemma_prefixes_of_equal_length(s: Seq<char>, p: Seq<char>, q: Seq<char>)
    requires
        has_prefix(s, p),
        has_prefix(s, q),
        p.len() == q.len(),
    ensures
        p == q,
{
}

/// The longest match depends on the set of packages only, not on their order or repeats.
pub proof fn lemma_longest_match_set(s: Seq<char>, a: Seq<Seq<char>>, b: Seq<Seq<char>>)
    requires
        a.to_set() == b.to_set(),
    ensures
        longest_match(s, a) == longest_match(s, b),
{
    lemma_longest_match_is_longest(s, a);
    lemma_longest_match_is_longest(s, b);
    match (longest_match(s, a), longest_match(s, b)) {
        (Some(p), Some(q)) => {
            assert(a.to_set().contains(p));
            assert(b.to_set().contains(q));
            let i = choose|i: int| 0 <= i < b.len() && b[i] == p;
            let j = choose|j: int| 0 <= j < a.len() && a[j] == q;
            assert(b[i].len() <= q.len());
            assert(a[j].len() <= p.len());
            lemma_prefixes_of_equal_length(s, p, q);
        },
        (Some(p), None) => {
            assert(a.to_set().contains(p));
            assert(b.to_set().contains(p));
            let i = choose|i: int| 0 <= i < b.len() && b[i] == p;
            assert(!has_prefix(s, b[i]));
        },
        (None, Some(q)) => {
            assert(b.to_set().contains(q));
            assert(a.to_set().contains(q));
            let j = choose|j: int| 0 <= j < a.len() && a[j] == q;
            assert(!has_prefix(s, a[j]));
        },
        (None, None) => {},
    }
}

/// Classifying a symbol depends only on the symbol and on the set of known packages: the
/// order in which the packages were given, and repeats among them, do not matter.
pub proof fn classification_is_deterministic(
    p: Packages,
    q: Packages,
    sym: Seq<char>,
    a: (Seq<char>, ArtifactType),
    b: (Seq<char>, ArtifactType),
)
    requires
        p.go_package_names().to_set() == q.go_package_names().to_set(),
        a == classify(sym, section_of(sym), p.go_package_names()),
        b == classify(sym, section_of(sym), q.go_package_names()),
    ensures
        a == b,
{
    lemma_longest_match_set(unescape_seq(sym), p.go_package_names(), q.go_package_names());
}

/// The fields of a record of the tree in its CSV form.
pub open spec fn csv_row(n: NodeView) -> Seq<Seq<char>> {
    seq![n.display_name, n.id, n.parent_id, label_of(n.kind), decimal_of(n.size as nat)]
}

pub open spec fn csv_header() -> Seq<Seq<char>> {
    seq!["display_name"@, "id"@, "parent_id"@, "kind"@, "size"@]
}

/// The CSV records of the tree, one after another.
pub open spec fn csv_rows(r: Seq<NodeView>) -> Seq<char>
    decreases r.len(),
{
    if r.len() == 0 {
        Seq::empty()
    } else {
        csv_rows(r.drop_last()) + csv_record_of(csv_row(r.last()))
    }
}

/// A group name and its size.
pub open spec fn group_views(v: Seq<(String, u64)>) -> Seq<(Seq<char>, u64)> {
    v.map_values(|g: (String, u64)| (g.0@, g.1))
}

/// `x` placed after every entry at least as large and before the rest at the end.
pub open spec fn insert_desc(s: Seq<(Seq<char>, u64)>, x: (Seq<char>, u64)) -> Seq<(Seq<char>, u64)>
    decreases s.len(),
{
    if s.len() == 0 {
        seq![x]
    } else if s.last().1 >= x.1 {
        s.push(x)
    } else {
        insert_desc(s.drop_last(), x).push(s.last())
    }
}

/// Stable sort by size, largest first.
pub open spec fn sort_desc(s: Seq<(Seq<char>, u64)>) -> Seq<(Seq<char>, u64)>
    decreases s.len(),
{
    if s.len() == 0 {
        s
    } else {
        insert_desc(sort_desc(s.drop_last()), s.last())
    }
}

pub open spec fn max_name_len(s: Seq<(Seq<char>, u64)>) -> nat
    decreases s.len(),
{
    if s.len() == 0 {
        0
    } else if s.last().0.len() > max_name_len(s.drop_last()) {
        s.last().0.len()
    } else {
        max_name_len(s.drop_last())
    }
}

/// The name followed by spaces up to `width` characters.
pub open spec fn pad_to(name: Seq<char>, width: nat) -> Seq<char> {
    name + Seq::new(if width > name.len() { (width - name.len()) as nat } else { 0 }, |i: int| ' ')
}

pub open spec fn report_line(name: Seq<char>, size: u64, width: nat) -> Seq<char> {
    pad_to(name, width) + ": "@ + size_text(size as nat) + "\n"@
}

pub open spec fn report_lines(s: Seq<(Seq<char>, u64)>, width: nat) -> Seq<char>
    decreases s.len(),
{
    if s.len() == 0 {
        Seq::empty()
    } else {
        report_lines(s.drop_last(), width) + report_line(s.last().0, s.last().1, width)
    }
}

/// One line per group, largest first, then the total; names padded to two more than the
/// longest name.
pub open spec fn report_text(pkgs: Seq<PackageView>, total: u64) -> Seq<char> {
    let groups = pkgs.map_values(|p: PackageView| (p.name, p.size));
    let width = max_name_len(groups) + 2;
    report_lines(sort_desc(groups), width) + report_line("Total"@, total, width)
}

pub proof fn lemma_insert_at(s: Seq<(Seq<char>, u64)>, x: (Seq<char>, u64), j: int)
    requires
        0 <= j <= s.len(),
        forall|k: int| j <= k < s.len() ==> s[k].1 < x.1,
        j == 0 || s[j - 1].1 >= x.1,
    ensures
        insert_desc(s, x) == s.insert(j, x),
    decreases s.len(),
{
    if s.len() == 0 {
        assert(s.insert(j, x) =~= seq![x]);
    } else if s.last().1 >= x.1 {
        assert(j == s.len());
        assert(s.insert(j, x) =~= s.push(x));
    } else {
        lemma_insert_at(s.drop_last(), x, j);
        assert(s.drop_last().insert(j, x).push(s.last()) =~= s.insert(j, x));
    }
}

/// The name padded to two more characters than `max`.
fn padded(name: &Vec<char>, max: usize) -> (r: Vec<char>)
    ensures
        r@ == pad_to(name@, max as nat + 2),
{
    let mut r = name.clone();
    let len = name.len();
    let count: usize = if len <= max {
        r.push(' ');
        r.push(' ');
        max - len
    } else if len - max == 1 {
        r.push(' ');
        0
    } else {
        0
    };
    let ghost base = r@;
    let mut n: usize = 0;
    while n < count
        invariant
            n <= count,
            r@ == base + Seq::new(n as nat, |i: int| ' '),
        decreases count - n,
    {
        r.push(' ');
        n += 1;
        assert(r@ =~= base + Seq::new(n as nat, |i: int| ' '));
    }
    assert(r@ =~= pad_to(name@, max as nat + 2));
    r
}

fn line_of(name: &Vec<char>, size: u64, max: usize) -> (r: Vec<char>)
    ensures
        r@ == report_line(name@, size, max as nat + 2),
{
    let mut r = padded(name, max);
    r.extend_from_slice(lit(": ").as_slice());
    r.extend_from_slice(chars_of(pretty_print_size(size).as_str()).as_slice());
    r.extend_from_slice(lit("\n").as_slice());
    r
}

impl Packages {
    /// The tree as CSV text: a header, then one record per node.
    pub fn into_csv(&self) -> (r: String)
        requires
            self.wf(),
        ensures
            exists|t: Seq<NodeView>|
                is_tree_of(all_symbols(self.package_views()), t) && r@ == csv_record_of(csv_header())
                    + csv_rows(t),
    {
        let nodes = self.tree();
        let header = vec![
            String::from_str("display_name"),
            String::from_str("id"),
            String::from_str("parent_id"),
            String::from_str("kind"),
            String::from_str("size"),
        ];
        assert(fields_view(header@) =~= csv_header());
        let mut out = csv_record(&header);
        let ghost nv = nodes_view(nodes@);
        let mut i: usize = 0;
        while i < nodes.len()
            invariant
                nv == nodes_view(nodes@),
                i <= nv.len(),
                out@ == csv_record_of(csv_header()) + csv_rows(nv.subrange(0, i as int)),
            decreases nv.len() - i,
        {
            let n = &nodes[i];
            let fields = vec![
                n.display_name.clone(),
                n.id.clone(),
                n.parent_id.clone(),
                n.kind.label(),
                string_of(&decimal(n.size as u128)),
            ];
            assert(fields_view(fields@) =~= csv_row(nv[i as int]));
            let line = csv_record(&fields);
            out.append(line.as_str());
            proof {
                assert(nv.subrange(0, i + 1).drop_last() =~= nv.subrange(0, i as int));
            }
            i += 1;
        }
        assert(nv.subrange(0, nv.len() as int) =~= nv);
        out
    }

    /// The groups and their sizes, in the order the groups were first seen.
    pub fn groups(&self) -> (r: Vec<(String, u64)>)
        ensures
            group_views(r@) == self.package_views().map_values(|p: PackageView| (p.name, p.size)),
    {
        let mut r: Vec<(String, u64)> = Vec::new();
        let mut i: usize = 0;
        while i < self.inner.len()
            invariant
                i <= self.inner@.len(),
                r@.len() == i,
                forall|k: int| 0 <= k < i ==> #[trigger] r@[k].0@ == self.inner@[k].name@ && r@[k].1 == self.inner@[k].size,
            decreases self.inner@.len() - i,
        {
            r.push((self.inner[i].name.clone(), self.inner[i].size));
            i += 1;
        }
        assert(group_views(r@) =~= self.package_views().map_values(|p: PackageView| (p.name, p.size)));
        r
    }

    /// The flat report: one line per group, largest first, then the total.
    pub fn report(&self) -> (r: String)
        ensures
            r@ == report_text(self.package_views(), self.total),
    {
        let groups = self.groups();
        let ghost gv = group_views(groups@);
        let mut width: usize = 0;
        let mut sorted: Vec<(String, u64)> = Vec::new();
        let mut i: usize = 0;
        while i < groups.len()
            invariant
                gv == group_views(groups@),
                i <= gv.len(),
                width == max_name_len(gv.subrange(0, i as int)),
                group_views(sorted@) == sort_desc(gv.subrange(0, i as int)),
                width <= usize::MAX,
            decreases gv.len() - i,
        {
            let ghost q = gv.subrange(0, i + 1);
            assert(q.drop_last() =~= gv.subrange(0, i as int));
            let len = groups[i].0.unicode_len();
            if len > width {
                width = len;
            }
            let x = (groups[i].0.clone(), groups[i].1);
            let ghost sv = group_views(sorted@);
            let mut j: usize = sorted.len();
            while j > 0 && sorted[j - 1].1 < x.1
                invariant
                    j <= sorted@.len(),
                    sv == group_views(sorted@),
                    forall|k: int| j <= k < sv.len() ==> sv[k].1 < x.1,
                decreases j,
            {
                j -= 1;
            }
            proof {
                lemma_insert_at(sv, (x.0@, x.1), j as int);
            }
            sorted.insert(j, x);
            assert(group_views(sorted@) =~= sv.insert(j as int, (x.0@, x.1)));
            i += 1;
        }
        assert(gv.subrange(0, gv.len() as int) =~= gv);
        let ghost sg = group_views(sorted@);
        let mut out: Vec<char> = Vec::new();
        let mut k: usize = 0;
        while k < sorted.len()
            invariant
                sg == group_views(sorted@),
                k <= sg.len(),
                out@ == report_lines(sg.subrange(0, k as int), width as nat + 2),
            decreases sg.len() - k,
        {
            let name = chars_of(sorted[k].0.as_str());
            out.extend_from_slice(line_of(&name, sorted[k].1, width).as_slice());
            proof {
                assert(sg.subrange(0, k + 1).drop_last() =~= sg.subrange(0, k as int));
            }
            k += 1;
        }
        assert(sg.subrange(0, sg.len() as int) =~= sg);
        out.extend_from_slice(line_of(&lit("Total"), self.total, width).as_slice());
        string_of(&out)
    }
}

} // verus!
