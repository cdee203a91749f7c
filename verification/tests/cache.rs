use shuttle::cache::{
    canonical_parts_json, pinned_member, sha256_hex, source_identity_hash, BuildClosure, CacheDir,
    PackageCache, RequiresMember,
};
use shuttle::meta::{LockFile, LockedPackage, LockedSnap, PluginValue, SnapMeta, SnapPart, SourceSpec};
use shuttle::ordered::Ordered;

fn make_source_meta(name: &str, url: &str) -> SnapMeta {
    SnapMeta {
        name: name.into(),
        version: "1.0".into(),
        type_: Some("source".into()),
        source: Some(SourceSpec::Unverified(url.into())),
        parts: None,
        target: None,
        adopt_info: None,
        requires: vec![],
        build_deps: vec![],
        apps: Ordered::new(),
        deps: None,
    }
}

fn make_meta_meta(name: &str) -> SnapMeta {
    let mut meta = make_source_meta(name, "");
    meta.source = None;
    meta.type_ = Some("meta".into());
    meta
}

fn part(build: &str, after: &[&str]) -> SnapPart {
    SnapPart {
        build: build.into(),
        after: after.iter().map(|s| s.to_string()).collect(),
        plugin: None,
        plugin_options: None,
    }
}

fn parts(list: Vec<(&str, SnapPart)>) -> Ordered<SnapPart> {
    let mut m = Ordered::new();
    for (k, p) in list {
        m.insert(k.to_string(), p);
    }
    m
}

fn options(list: Vec<(&str, PluginValue)>) -> Option<Ordered<PluginValue>> {
    let mut m = Ordered::new();
    for (k, v) in list {
        m.insert(k.to_string(), v);
    }
    Some(m)
}

fn plugin_part(plugin: &str, plugin_options: Option<Ordered<PluginValue>>) -> SnapPart {
    SnapPart { build: String::new(), after: vec![], plugin: Some(plugin.into()), plugin_options }
}

fn key_of(list: Option<Vec<(&str, SnapPart)>>) -> String {
    let mut meta = make_source_meta("hello", "https://example.com/hello.tar.gz");
    meta.parts = list.map(parts);
    BuildClosure::for_meta(&meta, vec![]).cache_key()
}

fn member(name: &str, pin: Option<&str>, hash: Option<&str>) -> RequiresMember {
    RequiresMember {
        name: name.into(),
        pin: pin.map(str::to_string),
        hash: hash.map(str::to_string),
    }
}

#[test]
fn test_cache_default_dir() {
    let cache = PackageCache::new(None, "/home/me");
    assert_eq!(cache.root(), "/home/me/.cache/shuttle/pkgs");
}

#[test]
fn test_cache_custom_dir() {
    let cache = PackageCache::new(Some("/tmp/test-cache".to_string()), "/home/me");
    assert_eq!(cache.root(), "/tmp/test-cache");
}

#[test]
fn test_closure_source_meta_package() {
    let meta = make_meta_meta("build-deps");
    let closure = BuildClosure::for_meta(&meta, vec![]);
    assert_eq!(closure.source, "none");
}

#[test]
fn test_closure_key_format_v2() {
    let meta = make_source_meta("hello", "https://example.com/hello.tar.gz");
    let key = BuildClosure::for_meta(&meta, vec![]).cache_key();
    let hex = key.strip_prefix("v2:").expect("key must be v2-prefixed");
    assert_eq!(hex.len(), 64);
    assert!(hex.chars().all(|c| c.is_ascii_hexdigit()));
}

#[test]
fn test_closure_canonical_json_schema() {
    let meta = make_source_meta("hello", "https://example.com/hello.tar.gz");
    let closure = BuildClosure::for_meta(&meta, vec![member("zlib", Some("1.3"), None)]);
    let expected_source = sha256_hex("hello:1.0:https://example.com/hello.tar.gz");
    assert_eq!(
        closure.canonical_json(),
        format!(
            r#"{{"format_version":2,"parts":"","requires":[{{"hash":null,"name":"zlib","pin":"1.3"}}],"source":"{expected_source}","target":"native"}}"#
        )
    );
    assert_eq!(source_identity_hash(&meta), expected_source);
}

#[test]
fn sha256_is_that_of_the_text() {
    assert_eq!(
        sha256_hex("abc"),
        "ba7816bf8f01cfea414140de5dae2223b00361a396177a9cb410ff61f20015ad"
    );
}

#[test]
fn test_closure_key_stable_when_nothing_changes() {
    let meta = make_source_meta("hello", "https://example.com/hello.tar.gz");
    let requires = || vec![member("zlib", Some("1.3"), Some("abc"))];
    let key1 = BuildClosure::for_meta(&meta, requires()).cache_key();
    let key2 = BuildClosure::for_meta(&meta, requires()).cache_key();
    assert_eq!(key1, key2);
}

#[test]
fn test_closure_key_varies_with_source_change() {
    let meta = make_source_meta("hello", "https://example.com/hello.tar.gz");
    let changed = make_source_meta("hello", "https://example.com/hello-v2.tar.gz");
    assert_ne!(
        BuildClosure::for_meta(&meta, vec![]).cache_key(),
        BuildClosure::for_meta(&changed, vec![]).cache_key()
    );
}

#[test]
fn test_closure_key_varies_with_parts_spec() {
    let with_parts = key_of(Some(vec![("core", part("make", &[]))]));
    assert_ne!(with_parts, key_of(Some(vec![("core", part("make all", &[]))])));
    assert_ne!(
        with_parts,
        key_of(Some(vec![("core", part("make", &[])), ("ui", part("npm build", &[]))]))
    );
    assert_ne!(with_parts, key_of(Some(vec![("core", part("make", &["ui"]))])));
    assert_ne!(with_parts, key_of(None));
}

#[test]
fn test_canonical_parts_json_locked_for_command_parts() {
    assert_eq!(
        canonical_parts_json(&parts(vec![("core", part("make", &["libs"]))])),
        r#"[{"after":["libs"],"build":"make","name":"core"}]"#
    );
}

#[test]
fn test_canonical_parts_json_folds_plugin_identity_and_options() {
    let p = plugin_part("make", options(vec![("target", PluginValue::Str("all".into()))]));
    assert_eq!(
        canonical_parts_json(&parts(vec![("core", p)])),
        r#"[{"after":[],"build":"","name":"core","options":{"target":"all"},"plugin":"make","plugin_version":"2"}]"#
    );
}

#[test]
fn test_canonical_parts_json_make_growth_options_canonical() {
    let mut variables = Ordered::new();
    variables.insert("ZED".to_string(), "1".to_string());
    variables.insert("ALPHA".to_string(), "2".to_string());
    let p = plugin_part(
        "make",
        options(vec![
            ("variables", PluginValue::Table(variables)),
            ("install", PluginValue::Bool(false)),
        ]),
    );
    assert_eq!(
        canonical_parts_json(&parts(vec![("core", p)])),
        r#"[{"after":[],"build":"","name":"core","options":{"install":false,"variables":{"ALPHA":"2","ZED":"1"}},"plugin":"make","plugin_version":"2"}]"#
    );
}

#[test]
fn test_closure_key_varies_with_plugin_and_options() {
    let target = |t: &str| options(vec![("target", PluginValue::Str(t.into()))]);
    let base = key_of(Some(vec![("core", plugin_part("make", None))]));
    assert_ne!(base, key_of(Some(vec![("core", plugin_part("cmake", None))])));
    let with_options = key_of(Some(vec![("core", plugin_part("make", target("all")))]));
    assert_ne!(base, with_options);
    assert_ne!(
        with_options,
        key_of(Some(vec![("core", plugin_part("make", target("install")))]))
    );
    assert_eq!(
        with_options,
        key_of(Some(vec![("core", plugin_part("make", target("all")))]))
    );
}

#[test]
fn test_closure_key_varies_with_make_variables() {
    let variables = |value: &str| {
        let mut table = Ordered::new();
        table.insert("CFLAGS".to_string(), value.to_string());
        options(vec![("variables", PluginValue::Table(table))])
    };
    let key = |o: Option<Ordered<PluginValue>>| key_of(Some(vec![("core", plugin_part("make", o))]));
    let base = key(None);
    let with_vars = key(variables("-O2"));
    assert_ne!(base, with_vars, "adding variables must change the key");
    let changed = key(variables("-O3"));
    assert_ne!(with_vars, changed, "a variable value change must rekey");
    assert_eq!(
        key(variables("-O2")),
        with_vars,
        "identical variables must keep the key warm"
    );
    assert_ne!(base, key(options(vec![("install", PluginValue::Bool(false))])));
}

#[test]
fn test_closure_key_varies_with_target() {
    let mut meta = make_source_meta("hello", "https://example.com/hello.tar.gz");
    meta.target = None;
    let native = BuildClosure::for_meta(&meta, vec![]).cache_key();

    meta.target = Some("aarch64-linux-gnu".into());
    let aarch64 = BuildClosure::for_meta(&meta, vec![]).cache_key();

    meta.target = Some("x86_64-linux-gnu".into());
    let x86_64 = BuildClosure::for_meta(&meta, vec![]).cache_key();

    assert_ne!(native, aarch64);
    assert_ne!(native, x86_64);
    assert_ne!(aarch64, x86_64);

    meta.target = None;
    assert_eq!(native, BuildClosure::for_meta(&meta, vec![]).cache_key());
}

#[test]
fn test_closure_key_varies_with_require_revision() {
    let meta = make_source_meta("hello", "https://example.com/hello.tar.gz");
    let key = |m: Vec<RequiresMember>| BuildClosure::for_meta(&meta, m).cache_key();
    let base = key(vec![member("zlib", Some("1.3"), None)]);
    assert_ne!(base, key(vec![member("zlib", Some("1.3.1"), None)]));
    assert_ne!(base, key(vec![member("zlib", Some("1.3"), Some("aa"))]));
    let two = || vec![member("zlib", Some("1.3"), None), member("gmp", Some("6.3"), None)];
    assert_ne!(base, key(two()));
    assert_eq!(key(two()), key(two()));
}

#[test]
fn test_closure_requires_sorted_and_deduplicated() {
    let meta = make_source_meta("hello", "https://example.com/hello.tar.gz");
    let bare = |n: &str| member(n, None, None);
    let order_a = vec![bare("zlib"), bare("gmp"), bare("mpfr")];
    let order_b = vec![bare("mpfr"), bare("zlib"), bare("gmp")];
    assert_eq!(
        BuildClosure::for_meta(&meta, order_a).cache_key(),
        BuildClosure::for_meta(&meta, order_b).cache_key()
    );
    let dup = vec![bare("zlib"), bare("zlib")];
    let closure = BuildClosure::for_meta(&meta, dup);
    assert_eq!(closure.requires.len(), 1);
    assert_eq!(closure.requires[0].name, "zlib");
}

#[test]
fn test_pinned_member_from_lock_data() {
    let mut lock = LockFile {
        sources: Ordered::new(),
        snaps: Ordered::new(),
        packages: Ordered::new(),
    };
    lock.snaps.insert(
        "core22".to_string(),
        LockedSnap { revision: 1847, sha3_384: "abc123".to_string() },
    );
    let m = pinned_member("core22", &lock).expect("pinned snap resolves");
    assert_eq!(m.name, "core22");
    assert_eq!(m.pin.as_deref(), Some("1847"));
    assert_eq!(m.hash.as_deref(), Some("abc123"));
    assert!(pinned_member("unknown", &lock).is_none());
    lock.packages.insert(
        "only-a-package".to_string(),
        LockedPackage { version: "2".to_string(), deps: None },
    );
    assert!(pinned_member("only-a-package", &lock).is_none());
}

#[test]
fn test_lookup_missing() {
    let cache = PackageCache::new(Some("/c".to_string()), "/home/me");
    let meta = make_source_meta("missing", "https://example.com/missing.tar.gz");
    let closure = BuildClosure::for_meta(&meta, vec![]);
    assert!(cache.lookup(&meta, "amd64", &closure, &Vec::new()).is_none());
}

#[test]
fn test_store_and_lookup() {
    let cache = PackageCache::new(Some("/c".to_string()), "/home/me");
    let meta = make_source_meta("hello", "https://example.com/hello.tar.gz");
    let closure = BuildClosure::for_meta(&meta, vec![]);
    let dir = cache.store_dir(&meta, &closure).expect("a source package is stored");
    assert_eq!(dir, format!("/c/{}", closure.cache_key()));
    let stored = format!("{dir}/hello_1.0_amd64.snap");
    assert_eq!(cache.store_place(&meta, &closure, "hello_1.0_amd64.snap"), Some(stored.clone()));
    let cached = cache.lookup(&meta, "amd64", &closure, &vec![stored.clone()]);
    assert_eq!(cached, Some(stored), "should find cached snap");
}

#[test]
fn test_lookup_differs_by_target_and_requires() {
    let cache = PackageCache::new(Some("/c".to_string()), "/home/me");
    let mut meta = make_source_meta("hello", "https://example.com/hello.tar.gz");
    let closure = BuildClosure::for_meta(&meta, vec![]);
    let stored = vec![cache.place(&meta, "amd64", &closure).unwrap()];
    assert!(cache.lookup(&meta, "amd64", &closure, &stored).is_some());

    meta.target = Some("aarch64-linux-gnu".into());
    let other_target = BuildClosure::for_meta(&meta, vec![]);
    assert!(cache.lookup(&meta, "amd64", &other_target, &stored).is_none());

    meta.target = None;
    let other_reqs = BuildClosure::for_meta(&meta, vec![member("zlib", Some("1.3"), None)]);
    assert!(cache.lookup(&meta, "amd64", &other_reqs, &stored).is_none());
}

#[test]
fn test_meta_package_not_cached() {
    let cache = PackageCache::new(Some("/c".to_string()), "/home/me");
    let meta = make_meta_meta("build-deps");
    let closure = BuildClosure::for_meta(&meta, vec![]);
    assert_eq!(cache.store_dir(&meta, &closure), None);
    assert!(cache.lookup(&meta, "amd64", &closure, &Vec::new()).is_none());
}

#[test]
fn adopted_versions_are_not_cached() {
    let cache = PackageCache::new(Some("/c".to_string()), "/home/me");
    let mut meta = make_source_meta("hello", "https://example.com/hello.tar.gz");
    meta.adopt_info = Some("core".into());
    let closure = BuildClosure::for_meta(&meta, vec![]);
    assert_eq!(cache.store_dir(&meta, &closure), None);
    assert_eq!(cache.place(&meta, "amd64", &closure), None);
}

#[test]
fn closures_with_odd_texts_stay_apart() {
    let meta = make_source_meta("hello", "https://example.com/hello.tar.gz");
    let key = |m: Vec<RequiresMember>| BuildClosure::for_meta(&meta, m).cache_key();
    assert_ne!(
        key(vec![member("a\",\"b", None, None)]),
        key(vec![member("a", None, None), member("b", None, None)])
    );
    assert_ne!(key(vec![member("a", Some("null"), None)]), key(vec![member("a", None, None)]));
}

const DAY: i128 = 86_400_000_000_000;

fn dir(path: &str, days: i128, files: &[u64]) -> CacheDir {
    CacheDir {
        path: path.to_string(),
        modified: days * DAY,
        accessed: days * DAY,
        files: files.to_vec(),
    }
}

#[test]
fn statistics_count_files_and_bytes() {
    let cache = PackageCache::new(Some("/c".to_string()), "/home/me");
    let info = cache.info(&vec![dir("a", 1, &[10, 20]), dir("b", 2, &[]), dir("c", 3, &[5])]);
    assert_eq!((info.entries, info.packages, info.size_bytes), (3, 3, 35));
    assert_eq!(info.root, "/c");
}

#[test]
fn old_entries_are_pruned() {
    let cache = PackageCache::new(Some("/c".to_string()), "/home/me");
    let dirs = vec![dir("new", 100, &[1]), dir("old", 10, &[1]), dir("edge", 70, &[1]), dir("past", 69, &[1])];
    assert_eq!(cache.prune(&dirs, 100 * DAY, 30), vec![1, 3]);
    assert_eq!(cache.prune(&dirs, 100 * DAY, 0), vec![1, 2, 3]);
    let used = CacheDir { accessed: 100 * DAY, ..dir("used", 10, &[1]) };
    let unused = CacheDir { accessed: 10 * DAY, ..dir("unused", 100, &[1]) };
    assert_eq!(cache.prune(&vec![used, unused], 100 * DAY, 30), vec![1]);
}

#[test]
fn the_oldest_entries_go_first() {
    let dirs = vec![dir("b", 2, &[30]), dir("a", 1, &[30]), dir("c", 3, &[30, 10])];
    let unbounded = PackageCache::new(Some("/c".to_string()), "/home/me");
    assert!(unbounded.prune_stale(&dirs).is_empty());
    let bounded = |n| PackageCache::new(Some("/c".to_string()), "/h").with_max_size(n).prune_stale(&dirs);
    assert!(bounded(100).is_empty());
    assert_eq!(bounded(99), vec![1]);
    assert_eq!(bounded(40), vec![1, 0]);
    assert_eq!(bounded(0), vec![1, 0, 2]);
}

#[test]
fn other_keys_are_left_alone() {
    let cache = PackageCache::new(Some("/c/".to_string()), "/home/me");
    let meta = make_source_meta("hello", "https://example.com/hello.tar.gz");
    let closure = BuildClosure::for_meta(&meta, vec![]);
    let other = BuildClosure::for_meta(&meta, vec![member("zlib", Some("1.3"), None)]);
    let file = "hello_1.0_amd64.snap";
    let mut present = vec![cache.store_place(&meta, &other, file).unwrap()];
    assert_eq!(cache.lookup(&meta, "amd64", &closure, &present), None);
    let own = cache.store_place(&meta, &closure, file).unwrap();
    present.push(own.clone());
    assert_eq!(cache.lookup(&meta, "amd64", &closure, &present), Some(own));
}
