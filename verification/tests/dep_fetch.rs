use base64::Engine;
use sha2::Digest;
use shuttle::archive::{
    archive_mode, can_archive, check_rel_path, closure_hash, pack_canonical, unpack_canonical,
    ArchiveError, TreeKind,
};
use shuttle::calendar::iso_date;
use shuttle::dep_fetch::{
    apply_npm_exclude, dev_only_names, parse_npm_lock, parse_pip_pins, parse_pip_requirements,
    parse_uv_lock, pin_for_package, sniffs_as_uv_lock, truncated_name_list, UvDep, UvPackage,
    UvSource, UvWheel,
};
use shuttle::digest::hex_sha256;
use shuttle::fetch::verify_sri;
use shuttle::glob::glob_match;
use shuttle::ordered::Ordered;
use shuttle::wheel::{
    is_matching_wheel, normalize_name, parse_simple_index, resolve_url, wheel_tags_match,
};
use toml::Value;

fn text_at(v: &Value, key: &str) -> Option<String> {
    v.get(key).and_then(|x| x.as_str()).map(str::to_string)
}

fn deps_at(v: &Value, key: &str) -> Option<Vec<UvDep>> {
    let list = v.get(key)?.as_array()?;
    Some(list.iter().map(|d| UvDep { name: text_at(d, "name").unwrap() }).collect())
}

/// The packages of a `uv.lock` text.
fn packages(text: &str) -> Result<Vec<UvPackage>, String> {
    let doc: Value = toml::from_str(text).map_err(|e| e.to_string())?;
    let list = doc.get("package").and_then(|p| p.as_array()).cloned().unwrap_or_default();
    Ok(list
        .iter()
        .map(|p| UvPackage {
            name: text_at(p, "name").unwrap(),
            version: text_at(p, "version").unwrap(),
            source: p.get("source").map(|s| UvSource { registry: text_at(s, "registry") }),
            wheels: p.get("wheels").and_then(|w| w.as_array()).map(|ws| {
                ws.iter()
                    .map(|w| UvWheel { url: text_at(w, "url").unwrap(), hash: text_at(w, "hash") })
                    .collect()
            }),
            dependencies: deps_at(p, "dependencies"),
            dev_dependencies: deps_at(p, "dev-dependencies"),
        })
        .collect())
}

#[test]
fn parse_npm_lock_v3() {
    let lock = r#"{
        "name": "app", "version": "1.0.0", "lockfileVersion": 3,
        "packages": {
            "": { "name": "app", "dependencies": { "dep": "^1.0.0" } },
            "node_modules/dep": {
                "version": "1.2.3",
                "resolved": "https://registry.npmjs.org/dep/-/dep-1.2.3.tgz",
                "integrity": "sha512-abc="
            },
            "node_modules/@scope/lib": {
                "version": "0.1.0",
                "resolved": "https://registry.npmjs.org/@scope/lib/-/lib-0.1.0.tgz"
            },
            "packages/inner": { "name": "inner", "version": "1.0.0" }
        }
    }"#;
    let artifacts = parse_npm_lock(lock.as_bytes()).unwrap();
    assert_eq!(artifacts.len(), 2);
    assert_eq!(artifacts[0].key, "node_modules/@scope/lib");
    assert_eq!(artifacts[0].integrity, None);
    assert_eq!(artifacts[1].key, "node_modules/dep");
    assert_eq!(
        artifacts[1].url,
        "https://registry.npmjs.org/dep/-/dep-1.2.3.tgz"
    );
}

#[test]
fn parse_npm_lock_v1_rejected() {
    let lock = r#"{
        "name": "app", "version": "1.0.0", "lockfileVersion": 1,
        "dependencies": { "dep": { "version": "1.0.0", "resolved": "https://x/dep.tgz" } }
    }"#;
    assert!(parse_npm_lock(lock.as_bytes()).is_err());
}

#[test]
fn glob_match_semantics() {
    // Literal.
    assert!(glob_match("node_modules/a", "node_modules/a"));
    assert!(!glob_match("node_modules/a", "node_modules/b"));
    // `*` mid-pattern.
    assert!(glob_match("node_modules/*-core", "node_modules/@x/py-core"));
    // `*` crosses `/`.
    assert!(glob_match(
        "node_modules/@node-llama-cpp/*",
        "node_modules/@node-llama-cpp/llama-cpp-sys/bindings"
    ));
    // `?` is exactly one char (not zero, not two).
    assert!(glob_match("node_modules/a?", "node_modules/ab"));
    assert!(!glob_match("node_modules/a?", "node_modules/a"));
    assert!(!glob_match("node_modules/a?", "node_modules/abc"));
    // No match: no star to backtrack through.
    assert!(!glob_match("node_modules/a*", "other/b"));
    // Pattern longer than text.
    assert!(!glob_match("node_modules/abcdef", "node_modules/abc"));
    // Trailing star: any suffix, empty included.
    assert!(glob_match(
        "node_modules/b*",
        "node_modules/beta/lib/index.js"
    ));
    assert!(glob_match("node_modules/b*", "node_modules/b"));
    assert!(glob_match("*", "anything/else"));
}

#[test]
fn npm_exclude_filters_artifacts_before_fetch() {
    let lock = r#"{
        "lockfileVersion": 3,
        "packages": {
            "": { "dependencies": { "a": "1.0.0", "beta": "2.0.0" } },
            "node_modules/a": {
                "version": "1.0.0",
                "resolved": "https://registry.npmjs.org/a/-/a-1.0.0.tgz"
            },
            "node_modules/beta": {
                "version": "2.0.0",
                "resolved": "https://registry.npmjs.org/beta/-/beta-2.0.0.tgz"
            }
        }
    }"#;
    let artifacts = parse_npm_lock(lock.as_bytes()).unwrap();
    assert_eq!(artifacts.len(), 2);
    let kept = apply_npm_exclude(artifacts, &vec!["node_modules/b*".to_string()]).kept;
    assert_eq!(kept.len(), 1, "only 'a' survives the b* glob");
    assert_eq!(kept[0].key, "node_modules/a");
    assert_eq!(kept[0].url, "https://registry.npmjs.org/a/-/a-1.0.0.tgz");
}

#[test]
fn parse_pip_lock_continuations_and_hashes() {
    let req = "\
# pip-compile output
certifi==2024.2.2 \
--hash=sha256:0569859f95fc761b18b451478c1c207a \
--hash=sha256:aaaaaaaaaaaaaaaaaaaaaaaaaaaaaaaa
click==8.1.7
flask[async]==3.0.0 # pinned with extras
--some-option==ignored
";
    let pins = parse_pip_requirements(req.as_bytes());
    assert_eq!(pins.len(), 3);
    assert_eq!(pins[0].name, "certifi");
    assert_eq!(pins[0].version, "2024.2.2");
    assert_eq!(pins[0].hashes.len(), 2);
    assert_eq!(pins[1].name, "click");
    assert!(pins[1].hashes.is_empty());
    // Extras stripped, trailing comment stripped.
    assert_eq!(pins[2].name, "flask");
    assert_eq!(pins[2].version, "3.0.0");
}

#[test]
fn parse_uv_lock_selects_platform_wheel_and_skips_the_rest() {
    let lock = r#"
version = 1
requires-python = ">=3.12"

[[package]]
name = "whichllm"
version = "0.5.16"
source = { registry = "https://pypi.org/simple" }
wheels = [
{ url = "https://files.example/whichllm-0.5.16-py3-none-any.whl", hash = "sha256:aaaa" },
]

[[package]]
name = "psutil"
version = "7.0.0"
source = { registry = "https://pypi.org/simple" }
wheels = [
{ url = "https://files.example/psutil-7.0.0-cp36-abi3-macosx_11_0_arm64.whl", hash = "sha256:bbbb" },
{ url = "https://files.example/psutil-7.0.0-cp36-abi3-manylinux_2_12_x86_64.manylinux2010_x86_64.whl", hash = "sha256:cccc" },
{ url = "https://files.example/psutil-7.0.0-cp36-abi3-win_amd64.whl", hash = "sha256:dddd" },
]

[[package]]
name = "pydantic-core"
version = "2.41.5"
source = { registry = "https://pypi.org/simple" }
wheels = [
{ url = "https://files.example/pydantic_core-2.41.5-cp312-cp312-manylinux_2_17_x86_64.whl", hash = "sha256:ffff" },
{ url = "https://files.example/pydantic_core-2.41.5-cp312-cp312-macosx_11_0_arm64.whl", hash = "sha256:abab" },
]

[[package]]
name = "dbgpu"
version = "2025.12"
source = { registry = "https://pypi.org/simple" }
sdist = { url = "https://files.example/dbgpu-2025.12.tar.gz", hash = "sha256:eeee" }

[[package]]
name = "local-tool"
version = "1.0.0"
source = { editable = "." }
"#;
    let pins = parse_pip_pins(lock.as_bytes(), packages(lock)).unwrap().pins;
    // dbgpu (sdist-only) and local-tool (editable) are skipped with a
    // warning; the whichllm, psutil, and pydantic-core closures
    // survive.
    assert_eq!(pins.len(), 3);
    assert_eq!(pins[0].name, "whichllm");
    assert!(pins[0]
        .url
        .as_deref()
        .unwrap()
        .ends_with("py3-none-any.whl"));
    assert_eq!(pins[0].hashes, vec!["aaaa"]);
    // The linux manylinux wheel, not the first (macOS) entry.
    assert_eq!(pins[1].name, "psutil");
    assert!(pins[1].url.as_deref().unwrap().contains("manylinux"));
    assert_eq!(pins[1].hashes, vec!["cccc"]);
    // Underscore distributions match their normalized lock name, and
    // the linux wheel wins over the macOS one.
    assert_eq!(pins[2].name, "pydantic-core");
    assert!(pins[2]
        .url
        .as_deref()
        .unwrap()
        .contains("manylinux_2_17_x86_64"));
    assert_eq!(pins[2].hashes, vec!["ffff"]);
}

#[test]
fn uv_dev_split_skips_dev_only_subgraph() {
    let text = r#"
version = 1
requires-python = ">=3.9"

[[package]]
name = "app"
version = "1.0"
source = { editable = "." }
dependencies = [{ name = "prod" }]
dev-dependencies = [{ name = "devtool" }]

[[package]]
name = "prod"
version = "2.0"
source = { registry = "https://pypi.org/simple" }
wheels = [
{ url = "https://f/prod-2.0-py3-none-any.whl", hash = "sha256:pppp" },
]

[[package]]
name = "devtool"
version = "3.0"
source = { registry = "https://pypi.org/simple" }
dependencies = [{ name = "devtrans" }]
wheels = [
{ url = "https://f/devtool-3.0-py3-none-any.whl", hash = "sha256:dddd" },
]

[[package]]
name = "devtrans"
version = "4.0"
source = { registry = "https://pypi.org/simple" }
wheels = [
{ url = "https://f/devtrans-4.0-py3-none-any.whl", hash = "sha256:tttt" },
]
"#;
    // The dev-only set, computed directly: devtool plus its transitive
    // devtrans — prod is reachable from the editable root and stays.
    let lock = packages(text).unwrap();
    let dev_only = dev_only_names(&lock);
    assert_eq!(
        dev_only,
        vec!["devtool".to_string(), "devtrans".to_string()]
    );

    // parse_uv_lock skips the dev-only set BEFORE the wheel checks:
    // both dev wheels exist and match this platform, yet only prod pins.
    let pins = parse_uv_lock(&lock).pins;
    assert_eq!(pins.len(), 1);
    assert_eq!(pins[0].name, "prod");
    assert_eq!(pins[0].hashes, vec!["pppp"]);
}

#[test]
fn uv_dev_split_fail_safe_without_source_installed_root() {
    // No editable/virtual/git package → no reliable prod roots →
    // nothing is dev-only (fetch everything), even though the lock
    // carries dev-dependencies.
    let text = r#"
version = 1

[[package]]
name = "app"
version = "1.0"
source = { registry = "https://pypi.org/simple" }
dev-dependencies = [{ name = "devtool" }]
wheels = [
{ url = "https://f/app-1.0-py3-none-any.whl", hash = "sha256:aaaa" },
]

[[package]]
name = "devtool"
version = "2.0"
source = { registry = "https://pypi.org/simple" }
wheels = [
{ url = "https://f/devtool-2.0-py3-none-any.whl", hash = "sha256:bbbb" },
]
"#;
    let lock = packages(text).unwrap();
    assert!(dev_only_names(&lock).is_empty());
    let pins = parse_uv_lock(&lock).pins;
    assert_eq!(pins.len(), 2);
}

#[test]
fn uv_lock_sniffed_over_requirements_format() {
    // A uv.lock routes to the TOML parser even via the shared entry.
    let lock = "[[package]]\nname = \"x\"\nversion = \"1.0\"\nsource = { registry = \"https://pypi.org/simple\" }\nwheels = [{ url = \"https://f/x-1.0-py3-none-any.whl\" }]\n";
    let pins = parse_pip_pins(lock.as_bytes(), packages(lock)).unwrap().pins;
    assert_eq!(pins.len(), 1);
    assert_eq!(pins[0].name, "x");
    // A requirements file never sniffs as uv.lock (no [[package]]).
    let req = "certifi==2024.2.2\n";
    let pins = parse_pip_pins(req.as_bytes(), packages(req)).unwrap().pins;
    assert_eq!(pins.len(), 1);
    assert_eq!(pins[0].name, "certifi");
    assert!(pins[0].url.is_none());
}

#[test]
fn wheel_tags_gate_foreign_platforms() {
    assert!(wheel_tags_match("x-1.0-py3-none-any.whl"));
    assert!(wheel_tags_match("x-1.0-py2.py3-none-any.whl"));
    // abi3 with an old python tag: stable ABI, fine on 3.9+.
    assert!(wheel_tags_match(
        "p-1.0-cp36-abi3-manylinux_2_12_x86_64.manylinux2010_x86_64.whl"
    ));
    assert!(wheel_tags_match(
        "p-1.0-cp312-cp312-manylinux_2_17_x86_64.whl"
    ));
    // aarch64 platform: linux but not x86_64.
    assert!(!wheel_tags_match(
        "p-1.0-cp39-cp39-manylinux2014_aarch64.whl"
    ));
    assert!(!wheel_tags_match("p-1.0-cp39-cp39-macosx_11_0_arm64.whl"));
    assert!(!wheel_tags_match("p-1.0-cp39-cp39-win_amd64.whl"));
    // musl is not the glibc runtime.
    assert!(!wheel_tags_match(
        "p-1.0-cp312-cp312-musllinux_1_1_x86_64.whl"
    ));
    // Pre-3.9 ABI line is out of support.
    assert!(!wheel_tags_match(
        "p-1.0-cp38-cp38-manylinux_2_17_x86_64.whl"
    ));
}

#[test]
fn normalize_name_pep503() {
    assert_eq!(normalize_name("Flask_Environ"), "flask-environ");
    assert_eq!(normalize_name("typing.Extensions"), "typing-extensions");
    assert_eq!(normalize_name("click"), "click");
}

#[test]
fn wheel_matching() {
    assert!(is_matching_wheel(
        "click-8.1.7-py3-none-any.whl",
        "click",
        "8.1.7"
    ));
    assert!(!is_matching_wheel(
        "click-8.1.6-py3-none-any.whl",
        "click",
        "8.1.7"
    ));
    assert!(!is_matching_wheel("click-8.1.7.tar.gz", "click", "8.1.7"));
}

#[test]
fn simple_index_parsing() {
    let html = r#"<html><body><a href="../../wheels/click-8.1.7-py3-none-any.whl#sha256=abc">click-8.1.7-py3-none-any.whl</a>
    <a href="https://files.example/x-1.0-py3-none-any.whl#sha256=def">x-1.0-py3-none-any.whl</a>
    <a href="../other/">other</a></body></html>"#;
    let anchors = parse_simple_index(html);
    assert_eq!(anchors.len(), 3);
    assert_eq!(
        anchors[0].0,
        "../../wheels/click-8.1.7-py3-none-any.whl#sha256=abc"
    );
    assert_eq!(anchors[0].1, "click-8.1.7-py3-none-any.whl");
    assert_eq!(
        anchors[1].0,
        "https://files.example/x-1.0-py3-none-any.whl#sha256=def"
    );
}

#[test]
fn url_resolution() {
    let base = "http://127.0.0.1:8000/simple/click/";
    assert_eq!(
        resolve_url(base, "../../files/click-8.1.7-py3-none-any.whl"),
        "http://127.0.0.1:8000/files/click-8.1.7-py3-none-any.whl"
    );
    assert_eq!(
        resolve_url(base, "https://files.example/x.whl"),
        "https://files.example/x.whl"
    );
    assert_eq!(
        resolve_url(base, "/files/x.whl"),
        "http://127.0.0.1:8000/files/x.whl"
    );
}

#[test]
fn iso_date_known_values() {
    assert_eq!(iso_date(0), "1970-01-01");
    // 2024-01-01 UTC = 1704067200.
    assert_eq!(iso_date(1_704_067_200), "2024-01-01");
    assert_eq!(iso_date(946_684_800), "2000-01-01");
}

/// A tree of two packages, with an executable and a link.
fn tree(body: &str) -> Ordered<TreeKind> {
    let mut t = Ordered::new();
    for dir in ["node_modules", "node_modules/dep", "node_modules/dep/lib", "wheels"] {
        t.insert(dir.to_string(), TreeKind::Dir);
    }
    t.insert(
        "node_modules/dep/lib/index.js".to_string(),
        TreeKind::File { mode: archive_mode(0o100664), bytes: body.as_bytes().to_vec() },
    );
    t.insert(
        "node_modules/dep/bin.sh".to_string(),
        TreeKind::File { mode: archive_mode(0o100744), bytes: b"#!/bin/sh\n".to_vec() },
    );
    t
}

#[test]
fn canonical_roundtrip_and_determinism() {
    let bytes1 = pack_canonical(&tree("module.exports = 1;\n")).unwrap();
    let bytes2 = pack_canonical(&tree("module.exports = 1;\n")).unwrap();
    assert_eq!(bytes1, bytes2, "one tree, one archive");
    let out = unpack_canonical(&bytes1).unwrap();
    let file = |path: &str| match &out.iter().find(|e| e.path == path).unwrap().kind {
        TreeKind::File { mode, bytes } => (*mode, bytes.clone()),
        other => panic!("{path} is {other:?}"),
    };
    let (mode, bytes) = file("node_modules/dep/lib/index.js");
    assert_eq!(bytes, b"module.exports = 1;\n");
    assert_eq!(mode, 0o644, "non-exec normalized to 0644");
    let (mode, _) = file("node_modules/dep/bin.sh");
    assert_eq!(mode, 0o755, "exec bit preserved");
    assert!(out.iter().any(|e| e.path == "wheels" && matches!(e.kind, TreeKind::Dir)));
    assert_eq!(out.len(), 6);
    // Content change moves the digest.
    let bytes3 = pack_canonical(&tree("module.exports = 2;\n")).unwrap();
    assert_ne!(bytes1, bytes3);
    assert_ne!(closure_hash(&bytes1), closure_hash(&bytes3));
    assert_eq!(closure_hash(&bytes1), hex_sha256(&bytes1));
}

#[test]
fn canonical_archive_symlink_roundtrip() {
    let mut t = Ordered::new();
    t.insert("node_modules".to_string(), TreeKind::Dir);
    t.insert("node_modules/a".to_string(), TreeKind::Dir);
    t.insert(
        "node_modules/a/real.js".to_string(),
        TreeKind::File { mode: 0o644, bytes: b"x".to_vec() },
    );
    t.insert("node_modules/a/link.js".to_string(), TreeKind::Link("real.js".to_string()));
    let out = unpack_canonical(&pack_canonical(&t).unwrap()).unwrap();
    let link = out.iter().find(|e| e.path == "node_modules/a/link.js").unwrap();
    match &link.kind {
        TreeKind::Link(target) => assert_eq!(target, "real.js"),
        other => panic!("{other:?}"),
    }
}

#[test]
fn sri_verification() {
    let body = b"hello closure\n";
    let encode = |d: &[u8]| base64::engine::general_purpose::STANDARD.encode(d);
    let sha256_b64 = encode(&sha2::Sha256::digest(body));
    let sha512_b64 = encode(&sha2::Sha512::digest(body));
    verify_sri(body, &format!("sha256-{sha256_b64}")).unwrap();
    verify_sri(body, &format!("sha512-{sha512_b64}")).unwrap();
    verify_sri(body, &format!("sha512-{sha512_b64} sha512-wrong=")).unwrap();
    // Wrong digest must fail.
    assert!(verify_sri(body, "sha512-AAAA").is_err());
    // Unsupported-only algorithm must fail, not silently pass.
    assert!(verify_sri(body, "sha1-AAAA").is_err());
    assert!(verify_sri(b"other", &format!("sha256-{sha256_b64}")).is_err());
    assert!(verify_sri(body, "").is_err());
}

#[test]
fn the_archive_format_is_fixed() {
    let mut t = Ordered::new();
    t.insert("d".to_string(), TreeKind::Dir);
    t.insert("d/f".to_string(), TreeKind::File { mode: 0o755, bytes: b"two\n".to_vec() });
    t.insert("d/l".to_string(), TreeKind::Link("a b".to_string()));
    assert_eq!(pack_canonical(&t).unwrap(), b"D d\nF 755 4 d/f\ntwo\nL 3 a b d/l\nEND\n");
}

fn fault(bytes: &[u8]) -> ArchiveError {
    unpack_canonical(bytes).unwrap_err()
}

#[test]
fn corrupt_archives_are_refused() {
    assert!(matches!(fault(b""), ArchiveError::MissingEnd));
    assert!(matches!(fault(b"D x\n"), ArchiveError::MissingEnd));
    assert!(matches!(fault(b"D x"), ArchiveError::Unterminated));
    assert!(matches!(fault(b"\xff\xfe\n"), ArchiveError::BadHeader));
    match fault(b"Q x\n") {
        ArchiveError::UnknownEntry(line) => assert_eq!(line, "Q x"),
        other => panic!("{other:?}"),
    }
    assert_eq!(
        fault(b"Q x\n").message(),
        "corrupt closure archive: unknown entry 'Q x'"
    );
    assert!(matches!(fault(b"F 644 9 x\nshort"), ArchiveError::ShortBody));
    assert!(matches!(fault(b"F 999 1 x\nyEND\n"), ArchiveError::CorruptFileEntry));
    assert!(matches!(fault(b"F 644 x\n"), ArchiveError::CorruptFileEntry));
    for (bytes, text) in [
        (&b"L x\n"[..], "corrupt link"),
        (&b"L 9 a b\n"[..], "corrupt link"),
        (&b"L z a b\n"[..], "corrupt link"),
    ] {
        assert!(fault(bytes).message().starts_with(text), "{bytes:?}");
    }
    assert_eq!(fault(b"D x").message(), "corrupt closure archive: unterminated entry");
}

#[test]
fn paths_that_leave_the_tree_are_refused() {
    for path in ["/etc/passwd", "../x", "a/../../x", "./x", "a/.."] {
        assert!(!check_rel_path(path), "{path}");
        let mut t = Ordered::new();
        t.insert(path.to_string(), TreeKind::Dir);
        assert_eq!(pack_canonical(&t).unwrap_err(), path);
    }
    for path in ["a", "a/b..c", ".hidden/x", "a/./b"] {
        assert!(check_rel_path(path), "{path}");
    }
    assert!(can_archive("a b") && !can_archive("a\nb") && !can_archive("a\rb"));
}

#[test]
fn excluded_artifacts_are_reported() {
    let lock = r#"{"lockfileVersion": 2, "packages": {
        "node_modules/a": {"resolved": "https://x/a.tgz"},
        "node_modules/b": {"resolved": "https://x/b.tgz"}
    }}"#;
    let artifacts = parse_npm_lock(lock.as_bytes()).unwrap();
    let patterns = vec!["node_modules/b".to_string(), "other/*".to_string()];
    let out = apply_npm_exclude(artifacts, &patterns);
    assert_eq!(out.kept.len(), 1);
    assert_eq!(out.dropped.len(), 1);
    assert!(out.dropped[0].contains("node_modules/b"), "{}", out.dropped[0]);
    assert_eq!(out.summary, "npm exclude: 1 of 2 package(s) dropped by deps.npm.exclude");
    assert_eq!(out.idle.len(), 1);
    assert!(out.idle[0].contains("other/*"), "{}", out.idle[0]);
}

#[test]
fn unreadable_npm_locks_are_refused() {
    assert!(parse_npm_lock(b"not json").is_err());
    assert!(parse_npm_lock(b"{}").is_err());
    assert!(parse_npm_lock(br#"{"lockfileVersion": 3}"#).is_err());
}

#[test]
fn a_faulty_uv_lock_is_refused_and_a_requirements_file_is_not() {
    let faulty = "[[package]]\nname = \n";
    assert!(sniffs_as_uv_lock(faulty));
    let err = parse_pip_pins(faulty.as_bytes(), packages(faulty)).unwrap_err();
    assert!(!err.is_empty());
    assert!(!sniffs_as_uv_lock("click==8.1.7\n"));
}

fn registry_package(name: &str, wheels: Option<Vec<UvWheel>>) -> UvPackage {
    UvPackage {
        name: name.to_string(),
        version: "1.0".to_string(),
        source: Some(UvSource { registry: Some("https://pypi.org/simple".to_string()) }),
        wheels,
        dependencies: None,
        dev_dependencies: None,
    }
}

#[test]
fn packages_without_a_usable_wheel_are_skipped_with_a_warning() {
    let foreign = UvWheel {
        url: "https://f/x-1.0-cp312-cp312-win_amd64.whl".to_string(),
        hash: Some("sha256:aa".to_string()),
    };
    let fits = UvWheel { url: "https://f/x-1.0-py3-none-any.whl".to_string(), hash: None };
    assert!(pin_for_package(&registry_package("x", None)).is_err());
    assert!(pin_for_package(&registry_package("x", Some(vec![foreign]))).is_err());
    let pin = pin_for_package(&registry_package("x", Some(vec![fits]))).unwrap();
    assert_eq!(pin.url.as_deref(), Some("https://f/x-1.0-py3-none-any.whl"));
    assert!(pin.hashes.is_empty());
    let out = parse_uv_lock(&[registry_package("x", None)]);
    assert!(out.pins.is_empty());
    assert_eq!(out.warnings.len(), 1);
}

#[test]
fn long_name_lists_are_cut() {
    let names: Vec<String> = (0..40).map(|i| format!("package-{i}")).collect();
    let all = truncated_name_list(&names);
    assert!(all.starts_with("package-0"), "{all}");
    assert!(!all.contains("package-39"), "{all}");
    assert_eq!(truncated_name_list(&vec!["a".to_string(), "b".to_string()]), "a, b");
}
