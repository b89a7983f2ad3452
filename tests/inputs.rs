use go_size_analyzer::artifact::Packages;
use go_size_analyzer::bloaty::{parse_bloaty_result, BloatyError};
use go_size_analyzer::go::{collect_go_packages, dedup_go_packages, CompileUnit, DW_LANG_GO};
use go_size_analyzer::go_symbol::{parse_go_package, parse_symbol, symbol_package};
use go_size_analyzer::object::{Target, TargetSize, Targets};

#[test]
fn bloaty_rows_are_added() {
    let mut p = Packages::new(vec!["main".to_string()]);
    let out = "symbols,vmsize,filesize\nmain.foo,10,100\nmain.bar,5,0\n[section .text],1,20\n";
    assert_eq!(parse_bloaty_result(out, &mut p), Ok(()));
    assert_eq!(p.total(), 120);
    assert_eq!(p.report(), "main   : 100.00B\n.text  : 20.00B\nTotal  : 120.00B\n");
}

#[test]
fn malformed_bloaty_output_is_refused() {
    let mut p = Packages::new(vec![]);
    let out = "symbols,vmsize,filesize\nmain.foo,abc,1\n";
    assert_eq!(parse_bloaty_result(out, &mut p), Err(BloatyError::Malformed));
    assert_eq!(p.total(), 0);
}

#[test]
fn oversized_bloaty_output_is_refused() {
    let mut p = Packages::new(vec![]);
    let out = format!("symbols,vmsize,filesize\na,0,{}\nb,0,1\n", u64::MAX);
    assert_eq!(parse_bloaty_result(&out, &mut p), Err(BloatyError::TooLarge));
    assert_eq!(p.total(), 0);
}

#[test]
fn go_units_are_collected_once() {
    let units = vec![
        CompileUnit { language: Some(DW_LANG_GO), name: Some("main".to_string()) },
        CompileUnit { language: Some(0x0c), name: Some("libc".to_string()) },
        CompileUnit { language: None, name: Some("x".to_string()) },
        CompileUnit { language: Some(DW_LANG_GO), name: None },
        CompileUnit { language: Some(DW_LANG_GO), name: Some("main".to_string()) },
        CompileUnit { language: Some(DW_LANG_GO), name: Some("runtime".to_string()) },
    ];
    assert_eq!(collect_go_packages(&units), vec!["main".to_string(), "runtime".to_string()]);
}

#[test]
fn package_names_are_shortened_and_deduplicated() {
    let names: Vec<String> = ["github.com/a/b/c/d", "github.com/a/b/e", "vendor/golang.org/x/net/http/h", "main"]
        .iter()
        .map(|s| s.to_string())
        .collect();
    assert_eq!(
        dedup_go_packages(&names),
        vec!["github.com/a/b".to_string(), "vendor/golang.org/x/net".to_string(), "main".to_string()]
    );
}

#[test]
fn go_package_of_long_paths() {
    assert_eq!(parse_go_package("github.com/a/b/c.F"), Ok("github.com/a/b".to_string()));
    assert_eq!(parse_go_package("a/b.F"), Err("Could not parse go package".to_string()));
}

#[test]
fn symbol_packages() {
    assert_eq!(symbol_package("github.com/a/b/c.F", false).1, "github.com/a/b");
    assert_eq!(symbol_package("github.com/a/b/c.F", true).1, "cgo or runtime");
    assert_eq!(parse_symbol("_ZN3foo3barEv"), ("_ZN3foo3barEv".to_string(), "cgo or runtime".to_string()));
    assert_eq!(parse_symbol("github.com/a/b/c.F").1, "github.com/a/b");
    assert_eq!(parse_symbol("main.main").1, "cgo or runtime");
}

#[test]
fn section_sizes_add_up_per_package() {
    let mut t = Targets::new();
    t.add("main".to_string(), ".text".to_string(), 5);
    t.add("main".to_string(), ".text".to_string(), 7);
    t.add("main".to_string(), ".data".to_string(), 1);
    t.add("fmt".to_string(), ".text".to_string(), 2);
    assert_eq!(t.inner.len(), 2);
    assert_eq!(t.inner[0].size.inner, vec![(".text".to_string(), 12), (".data".to_string(), 1)]);
    let mut s = TargetSize::new();
    s.add("x".to_string(), u64::MAX);
    s.add("x".to_string(), 1);
    assert_eq!(s.inner[0].1, u64::MAX);
    let mut one = Target::new("p".to_string());
    one.add("y".to_string(), 3);
    assert_eq!(one.size.inner, vec![("y".to_string(), 3)]);
}
