use shuttle::deps::{build_dep_seeds, format_tree, resolve_path, topological_sort, DepNode, Resolver};
use shuttle::meta::SnapMeta;
use shuttle::ordered::Ordered;

fn strings(v: &[&str]) -> Vec<String> {
    v.iter().map(|s| s.to_string()).collect()
}

fn node(name: &str, requires: &[&str], build_deps: &[&str]) -> DepNode {
    DepNode { name: name.into(), requires: strings(requires), build_deps: strings(build_deps) }
}

fn names(nodes: &[DepNode]) -> Vec<&str> {
    nodes.iter().map(|n| n.name.as_str()).collect()
}

#[test]
fn test_topological_sort_simple() {
    let nodes = vec![
        node("gcc", &["gmp", "mpfr"], &[]),
        node("mpfr", &["gmp"], &[]),
        node("gmp", &[], &[]),
    ];
    let sorted = topological_sort(&nodes);
    let names = names(&sorted);
    let gmp_pos = names.iter().position(|&n| n == "gmp").unwrap();
    let mpfr_pos = names.iter().position(|&n| n == "mpfr").unwrap();
    let gcc_pos = names.iter().position(|&n| n == "gcc").unwrap();
    assert!(gmp_pos < mpfr_pos, "gmp should be before mpfr");
    assert!(mpfr_pos < gcc_pos, "mpfr should be before gcc");
}

#[test]
fn test_resolve_path() {
    let p = resolve_path("gcc");
    assert!(p.ends_with("pkgs/g/gcc.lua"));
    let p = resolve_path("examples/full-system/system-base/shuttle.lua");
    assert!(p.ends_with("examples/full-system/system-base/shuttle.lua"));
}

#[test]
fn test_topological_sort_linear() {
    let nodes = vec![
        node("d", &["c"], &[]),
        node("c", &["b"], &[]),
        node("b", &["a"], &[]),
        node("a", &[], &[]),
    ];
    let sorted = topological_sort(&nodes);
    let names = names(&sorted);
    for &n in &["a", "b", "c", "d"] {
        assert!(names.contains(&n), "missing {}", n);
    }
    let a = names.iter().position(|&n| n == "a").unwrap();
    let b = names.iter().position(|&n| n == "b").unwrap();
    let c = names.iter().position(|&n| n == "c").unwrap();
    let d = names.iter().position(|&n| n == "d").unwrap();
    assert!(a < b);
    assert!(b < c);
    assert!(c < d);
}

fn seeds_meta(name: &str, requires: &[&str], build_deps: &[&str]) -> SnapMeta {
    SnapMeta {
        name: name.into(),
        version: "1.0".into(),
        type_: Some("source".into()),
        source: None,
        parts: None,
        target: None,
        adopt_info: None,
        requires: strings(requires),
        build_deps: strings(build_deps),
        apps: Ordered::new(),
        deps: None,
    }
}

#[test]
fn build_dep_seeds_drop_self_referenced_payloads() {
    let meta = seeds_meta("glibc", &["glibc", "linux-headers"], &["glibc", "make"]);
    assert_eq!(build_dep_seeds(&meta), vec!["linux-headers", "make"]);
}

#[test]
fn test_topological_sort_build_deps_order() {
    let nodes = vec![node("app", &[], &["libdev"]), node("libdev", &[], &[])];
    let sorted = topological_sort(&nodes);
    let names = names(&sorted);
    let libdev = names.iter().position(|&n| n == "libdev").unwrap();
    let app = names.iter().position(|&n| n == "app").unwrap();
    assert!(libdev < app, "build_deps must build before their consumer");
}

#[test]
fn test_all_deps_dedupes() {
    let app = node("app", &["glibc", "ncurses"], &["ncurses"]);
    assert_eq!(app.all_deps(), vec!["glibc", "ncurses"]);
}

#[test]
fn sorting_keeps_every_node_of_a_cycle() {
    let nodes = vec![node("a", &["b"], &[]), node("b", &["a"], &[]), node("c", &["ghost"], &[])];
    let sorted = topological_sort(&nodes);
    let mut all = names(&sorted);
    all.sort();
    assert_eq!(all, ["a", "b", "c"]);
}

fn resolve(seeds: &[&str], recursive: bool, pool: &[DepNode]) -> Vec<DepNode> {
    let mut r = Resolver::new(&strings(seeds), recursive);
    while let Some(name) = r.next() {
        let n = pool.iter().find(|n| n.name == name).expect("in the pool");
        r.loaded(name, &n.requires, &n.build_deps);
    }
    r.finish()
}

#[test]
fn resolving_visits_each_package_once() {
    let pool = vec![
        node("app", &["lib", "tool"], &["gen"]),
        node("lib", &["core"], &[]),
        node("tool", &["lib"], &[]),
        node("gen", &[], &[]),
        node("core", &[], &[]),
    ];
    let all = resolve(&["app"], true, &pool);
    let mut got = names(&all);
    got.sort();
    assert_eq!(got, ["app", "core", "gen", "lib", "tool"]);
    let flat = resolve(&["app"], false, &pool);
    assert_eq!(names(&flat), ["app"]);
}

#[test]
fn trees_are_indented_and_cycles_have_none() {
    let nodes = vec![node("app", &["lib", "gone"], &["gen"]), node("lib", &["core"], &[]), node("core", &[], &[])];
    assert_eq!(
        format_tree(&nodes, &strings(&["app", "missing"])).as_deref(),
        Some(" app\n  lib\n    core\n")
    );
    let cycle = vec![node("a", &["b"], &[]), node("b", &["a"], &[])];
    assert_eq!(format_tree(&cycle, &strings(&["a"])), None);
}
