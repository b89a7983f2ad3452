use go_size_analyzer::artifact::{ArtifactType, PackageCsv, Packages, Symbol};

fn packages(names: &[&str]) -> Packages {
    Packages::new(names.iter().map(|s| s.to_string()).collect())
}

fn node<'a>(tree: &'a [PackageCsv], id: &str) -> &'a PackageCsv {
    tree.iter().find(|n| n.id == id).expect("node present")
}

#[test]
fn go_package_scenario_report_and_tree() {
    let mut p = packages(&["main"]);
    p.add("main.foo".to_string(), 100);
    p.add("main.bar".to_string(), 50);
    assert_eq!(p.report(), "main  : 150.00B\nTotal : 150.00B\n");
    let tree = p.tree();
    assert_eq!(tree.len(), 2);
    assert_eq!(tree[0].id, "ROOT");
    assert_eq!(tree[0].size, 150);
    let main = node(&tree, "ROOT->main");
    assert_eq!(main.display_name, "main");
    assert_eq!(main.parent_id, "ROOT");
    assert_eq!(main.size, 150);
    assert_eq!(main.kind, ArtifactType::Go);
}

#[test]
fn native_namespace_scenario() {
    let mut p = packages(&[]);
    let (name, kind) = p.parse_symbol("ns::Class::method");
    assert_eq!(name, "ns::Class");
    assert_eq!(kind, ArtifactType::Cpp);
    p.add("ns::Class::method".to_string(), 10);
    let tree = p.tree();
    assert_eq!(tree.len(), 3);
    assert_eq!(tree[0].size, 10);
    let ns = node(&tree, "ROOT->ns");
    assert_eq!(ns.display_name, "ns");
    assert_eq!(ns.size, 10);
    let class = node(&tree, "ROOT->ns->Class");
    assert_eq!(class.display_name, "ns::Class");
    assert_eq!(class.parent_id, "ROOT->ns");
    assert_eq!(class.size, 10);
}

#[test]
fn section_scenario() {
    let mut p = packages(&[]);
    assert_eq!(p.parse_symbol("[section .rodata]"), (".rodata".to_string(), ArtifactType::Section));
    p.add("[section .rodata]".to_string(), 200);
    let tree = p.tree();
    assert_eq!(tree.len(), 2);
    let sec = node(&tree, "ROOT->.rodata");
    assert_eq!(sec.display_name, ".rodata");
    assert_eq!(sec.size, 200);
    assert_eq!(sec.kind, ArtifactType::Section);
}

#[test]
fn shared_top_level_package_scenario() {
    let mut p = packages(&["github.com/a/b"]);
    p.add("github.com/a/b/c.F".to_string(), 10);
    p.add("github.com/a/b/d.G".to_string(), 20);
    let tree = p.tree();
    assert_eq!(node(&tree, "ROOT->github.com").size, 30);
    assert_eq!(node(&tree, "ROOT->github.com->a->b").size, 30);
    assert_eq!(node(&tree, "ROOT->github.com->a->b->c").size, 10);
    assert_eq!(node(&tree, "ROOT->github.com->a->b->d").size, 20);
    assert_eq!(node(&tree, "ROOT->github.com->a->b->d").display_name, "github.com/a/b/d");
    assert_eq!(tree[0].size, 30);
}

#[test]
fn zero_size_symbols_leave_no_trace() {
    let mut p = packages(&["main"]);
    p.add("main.foo".to_string(), 0);
    assert_eq!(p.total(), 0);
    assert_eq!(p.tree().len(), 1);
    assert_eq!(p.tree()[0].size, 0);
    assert_eq!(p.report(), "Total: 0.00B\n");
    p.add("main.bar".to_string(), 5);
    p.add("other".to_string(), 0);
    assert_eq!(p.report(), "main  : 5.00B\nTotal : 5.00B\n");
}

#[test]
fn root_size_equals_sum_of_symbols() {
    let mut p = packages(&["main", "runtime"]);
    p.add("main.a".to_string(), 7);
    p.add("runtime.mallocgc".to_string(), 11);
    p.add("ns::f".to_string(), 13);
    p.add("printf".to_string(), 17);
    p.add("[section .text]".to_string(), 19);
    let tree = p.tree();
    assert_eq!(tree[0].id, "ROOT");
    assert_eq!(tree[0].size, 7 + 11 + 13 + 17 + 19);
    assert_eq!(p.total(), 67);
}

#[test]
fn every_parent_is_a_node_and_ids_are_unique() {
    let mut p = packages(&["github.com/x/y"]);
    p.add("github.com/x/y/z.F".to_string(), 3);
    p.add("a::b::c::d".to_string(), 4);
    p.add("go:itab.foo".to_string(), 5);
    let tree = p.tree();
    for (i, n) in tree.iter().enumerate() {
        if i > 0 {
            assert!(tree.iter().any(|m| m.id == n.parent_id));
        }
        assert_eq!(tree.iter().filter(|m| m.id == n.id).count(), 1);
    }
}

#[test]
fn regrouping_tree_by_id_keeps_sizes() {
    let mut p = packages(&["main"]);
    p.add("main.a".to_string(), 2);
    p.add("main.b".to_string(), 3);
    p.add("x::y".to_string(), 4);
    let tree = p.tree();
    for n in &tree {
        let sum: u64 = tree.iter().filter(|m| m.id == n.id).map(|m| m.size).sum();
        assert_eq!(sum, n.size);
    }
}

#[test]
fn classification_is_repeatable() {
    let p = packages(&["main", "github.com/a/b"]);
    for s in ["main.x", "go:itab.y", "ns::f", "plain", "[section .bss]"] {
        assert_eq!(p.parse_symbol(s), p.parse_symbol(s));
    }
}

#[test]
fn classification_rules_in_order() {
    let p = packages(&["runtime", "vendor/golang.org/x/net", "main"]);
    assert_eq!(p.parse_symbol("runtime.main"), ("runtime".to_string(), ArtifactType::GoRuntime));
    assert_eq!(
        p.parse_symbol("vendor/golang.org/x/net/http.F"),
        ("vendor/golang.org/x/net".to_string(), ArtifactType::GoRuntime)
    );
    assert_eq!(p.parse_symbol("go:itab.*os.File,io.Reader"), ("Go Interface".to_string(), ArtifactType::GoRuntime));
    assert_eq!(p.parse_symbol("type:string"), ("Go Type".to_string(), ArtifactType::GoRuntime));
    assert_eq!(p.parse_symbol("$f64.3ff0"), ("Temp Var".to_string(), ArtifactType::GoRuntime));
    assert_eq!(p.parse_symbol("x_cgo_init"), ("Cgo related".to_string(), ArtifactType::GoRuntime));
    assert_eq!(p.parse_symbol("go:buildid"), ("Go struct".to_string(), ArtifactType::GoRuntime));
    assert_eq!(p.parse_symbol("std::vector::push"), ("std::vector".to_string(), ArtifactType::Cpp));
    assert_eq!(p.parse_symbol("memcpy"), ("C".to_string(), ArtifactType::C));
    assert_eq!(p.parse_symbol("[section .debug_info]"), ("Debug Section".to_string(), ArtifactType::Section));
}

#[test]
fn escaped_dots_and_longest_package_win() {
    let p = packages(&["github.com/a", "github.com/a/b.c"]);
    assert_eq!(p.try_get_go_package("github.com/a/b%2ec.F"), Some("github.com/a/b.c".to_string()));
    assert_eq!(p.try_get_go_package("github.com/a/z.F"), Some("github.com/a".to_string()));
    assert_eq!(p.try_get_go_package("other.F"), None);
}

#[test]
fn section_name_is_extracted() {
    assert_eq!(Packages::strip_section_name("[section .text]"), Some(".text".to_string()));
    assert_eq!(Packages::strip_section_name("[section]"), None);
}

#[test]
fn unmatched_section_marker_falls_through() {
    let p = packages(&[]);
    assert_eq!(p.parse_symbol("[section]"), ("C".to_string(), ArtifactType::C));
}

#[test]
fn go_symbol_segments() {
    assert_eq!(ArtifactType::parse_go_symbol("main.foo"), vec!["main".to_string()]);
    assert_eq!(
        ArtifactType::parse_go_symbol("github.com/a/b%2ec/d.F"),
        vec!["github.com", "a", "b.c", "d"].iter().map(|s| s.to_string()).collect::<Vec<_>>()
    );
    assert_eq!(ArtifactType::parse_cpp_symbol("a::b::c"), vec!["a".to_string(), "b".to_string()]);
}

#[test]
fn node_of_symbol_and_its_chain() {
    let (display, id, parent) = ArtifactType::Go.parse_symbol("github.com/a/b.F", "github.com/a/b");
    assert_eq!(display, "github.com/a/b");
    assert_eq!(id, "ROOT->github.com->a->b");
    assert_eq!(parent, "ROOT->github.com->a");
    let sym = Symbol {
        value: "a::b::c".to_string(),
        size: 9,
        kind: ArtifactType::Cpp,
        package: "a::b".to_string(),
    };
    let leaf = sym.into_package();
    assert_eq!(leaf.id, "ROOT->a->b");
    let chain = leaf.flatten();
    assert_eq!(chain.len(), 3);
    assert_eq!(chain[0].id, "ROOT");
    assert_eq!(chain[1].id, "ROOT->a");
    assert_eq!(chain[2].display_name, "a::b");
    assert!(chain.iter().all(|n| n.size == 9));
}

#[test]
fn labels_and_separators() {
    assert_eq!(ArtifactType::Go.label(), "Go");
    assert_eq!(ArtifactType::GoRuntime.label(), "Go Runtime");
    assert_eq!(ArtifactType::Cpp.label(), "C++");
    assert_eq!(ArtifactType::Section.label(), "Section");
    assert_eq!(ArtifactType::Go.separator(), "/");
    assert_eq!(ArtifactType::Cpp.separator(), "::");
    assert_eq!(ArtifactType::C.separator(), "");
}

#[test]
fn csv_of_tree() {
    let mut p = packages(&["main"]);
    p.add("main.foo".to_string(), 100);
    p.add("main.bar".to_string(), 50);
    assert_eq!(
        p.into_csv(),
        "display_name,id,parent_id,kind,size\n,ROOT,,Unknown,150\nmain,ROOT->main,ROOT,Go,150\n"
    );
}

#[test]
fn csv_quotes_names_with_commas() {
    let mut p = packages(&[]);
    p.add("std::map<int, int>::find".to_string(), 8);
    let csv = p.into_csv();
    assert!(csv.contains("\"std::map<int, int>\""));
}

#[test]
fn report_orders_largest_first_and_keeps_ties_in_order() {
    let mut p = packages(&["aa", "b", "ccc"]);
    p.add("aa.x".to_string(), 5);
    p.add("b.x".to_string(), 9);
    p.add("ccc.x".to_string(), 5);
    assert_eq!(
        p.report(),
        "b    : 9.00B\naa   : 5.00B\nccc  : 5.00B\nTotal: 19.00B\n"
    );
}

#[test]
fn id_separator_is_escaped_inside_segments() {
    let mut p = packages(&[]);
    p.add("a::operator->::f".to_string(), 6);
    let tree = p.tree();
    let op = node(&tree, "ROOT->a->operator-&gt;");
    assert_eq!(op.display_name, "a::operator->");
    assert_eq!(op.parent_id, "ROOT->a");
    assert_eq!(op.size, 6);
    for n in &tree {
        for seg in n.id.split("->").skip(1) {
            assert!(!seg.contains('>'));
        }
    }
}

#[test]
fn ampersands_in_segments_are_escaped() {
    let (_, id, _) = ArtifactType::Cpp.parse_symbol("a&b::f", "a&b");
    assert_eq!(id, "ROOT->a&amp;b");
}

#[test]
fn records_come_in_order_of_first_sight() {
    let mut p = packages(&["b", "a"]);
    p.add("b.x".to_string(), 1);
    p.add("ns::y::z".to_string(), 2);
    p.add("a.y".to_string(), 3);
    p.add("b.w".to_string(), 4);
    let ids: Vec<String> = p.tree().into_iter().map(|n| n.id).collect();
    assert_eq!(ids, vec!["ROOT", "ROOT->b", "ROOT->ns", "ROOT->ns->y", "ROOT->a"]);
}

#[test]
fn scenario_records_have_the_symbols_kind() {
    let mut p = packages(&[]);
    p.add("ns::Class::method".to_string(), 10);
    assert_eq!(
        p.into_csv(),
        "display_name,id,parent_id,kind,size\n,ROOT,,Unknown,10\nns,ROOT->ns,ROOT,C++,10\nns::Class,ROOT->ns->Class,ROOT->ns,C++,10\n"
    );
    let mut q = packages(&[]);
    q.add("[section .rodata]".to_string(), 200);
    assert_eq!(
        q.into_csv(),
        "display_name,id,parent_id,kind,size\n,ROOT,,Unknown,200\n.rodata,ROOT->.rodata,ROOT,Section,200\n"
    );
}

#[test]
fn zero_size_symbols_leave_no_rows() {
    let mut p = packages(&[]);
    p.add("memcpy".to_string(), 0);
    assert_eq!(p.into_csv(), "display_name,id,parent_id,kind,size\n,ROOT,,Unknown,0\n");
    p.add("memcpy".to_string(), 3);
    p.add("strlen".to_string(), 0);
    assert_eq!(
        p.into_csv(),
        "display_name,id,parent_id,kind,size\n,ROOT,,Unknown,3\nC,ROOT->C,ROOT,C,3\n"
    );
}

#[test]
fn package_order_does_not_change_classification() {
    let p = packages(&["github.com/a", "github.com/a/b"]);
    let q = packages(&["github.com/a/b", "github.com/a", "github.com/a"]);
    for s in ["github.com/a/b.F", "github.com/a/c.G", "github.com/a/b/c.H", "x.y"] {
        assert_eq!(p.parse_symbol(s), q.parse_symbol(s));
    }
}
