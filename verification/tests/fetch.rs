use shuttle::archive::{closure_hash, pack_canonical, TreeKind};
use shuttle::dep_fetch::PipPin;
use shuttle::fetch::{
    check_source, check_source_bytes, check_wheel, choose_wheel, constant_eq, direct_wheel, judge_sri, judge_wheel,
    materialize_deps_entry, open_closure, page_url, plan_source, pod_pin, pod_step, shorten, source_root, tar_place, tar_step, verify_sri,
    PodPin, PodStep, SriDigests, TarFault, TarKind, TarPlace, TarStep, WheelFetch, WheelVerdict,
};
use shuttle::meta::{DepsLockSpec, PackageDeps, PackageDepsLock, SnapMeta, SourceSpec};
use shuttle::ordered::Ordered;

fn pin(hashes: &[&str], url: Option<&str>) -> PipPin {
    PipPin {
        name: "Click".into(),
        version: "8.1.7".into(),
        hashes: hashes.iter().map(|h| h.to_string()).collect(),
        url: url.map(str::to_string),
    }
}

const PAGE: &str = r#"<a href="../../f/click-8.1.6-py3-none-any.whl#sha256=old">x</a>
<a href="../../f/click-8.1.7-py3-none-any.whl#sha256=abc">click-8.1.7-py3-none-any.whl</a>"#;

#[test]
fn wheels_are_chosen_from_the_index_page() {
    assert_eq!(page_url("https://pypi.org/simple//", "Flask_X"), "https://pypi.org/simple/flask-x/");
    let w = choose_wheel(&pin(&[], None), "http://h/simple", PAGE).unwrap();
    assert_eq!(w.url, "http://h/f/click-8.1.7-py3-none-any.whl");
    assert_eq!(w.filename, "click-8.1.7-py3-none-any.whl");
    assert_eq!(w.expected.as_deref(), Some("abc"));
    let w = choose_wheel(&pin(&["own"], None), "http://h/simple", PAGE).unwrap();
    assert_eq!(w.expected.as_deref(), Some("own"), "the lock's hash wins over the page's");
    let err = choose_wheel(&pin(&[], None), "http://h/simple", "<a href=\"x\">x</a>").unwrap_err();
    assert!(err.starts_with("pip: no wheel for Click==8.1.7 at http://h/simple"), "{err}");
}

#[test]
fn locked_addresses_need_no_page() {
    assert!(direct_wheel(&pin(&["h"], None)).is_none());
    let w = direct_wheel(&pin(&["h"], Some("https://f/a/click.whl"))).unwrap();
    assert_eq!((w.url.as_str(), w.filename.as_str()), ("https://f/a/click.whl", "click.whl"));
    assert_eq!(w.expected.as_deref(), Some("h"));
}

#[test]
fn wheels_are_judged_by_their_hash() {
    let wheel = |expected: Option<&str>| WheelFetch {
        url: "u".into(),
        filename: "c.whl".into(),
        expected: expected.map(str::to_string),
    };
    assert!(matches!(judge_wheel(&wheel(Some("aa")), "aa", true), WheelVerdict::Accepted));
    match judge_wheel(&wheel(Some("aa")), "bb", true) {
        WheelVerdict::Refused(e) => {
            assert_eq!(e, "pip: wheel c.whl hash mismatch: expected aa, got bb")
        }
        other => panic!("{other:?}"),
    }
    match judge_wheel(&wheel(None), "0123456789abcdef0123", false) {
        WheelVerdict::Unpinned(w) => {
            assert!(w.contains("c.whl fetched unpinned (hash 0123456789abcdef…"), "{w}")
        }
        other => panic!("{other:?}"),
    }
}

fn meta(deps: bool, source: Option<SourceSpec>) -> SnapMeta {
    SnapMeta {
        name: "tool".into(),
        version: "1".into(),
        type_: None,
        source,
        parts: None,
        target: None,
        adopt_info: None,
        requires: vec![],
        build_deps: vec![],
        apps: Ordered::new(),
        deps: if deps {
            Some(PackageDeps {
                npm: Some(DepsLockSpec {
                    lock: "package-lock.json".into(),
                    index: None,
                    exclude: vec![],
                }),
                pip: None,
            })
        } else {
            None
        },
    }
}

fn locked(hash: &str) -> PackageDepsLock {
    PackageDepsLock { deps_hash: hash.into(), fetched_at: None }
}

#[test]
fn a_cached_locked_closure_is_kept() {
    let prev = locked("aa");
    assert!(matches!(pod_step(&meta(true, None), Some(&prev), false, true), Ok(PodStep::Keep)));
    assert!(matches!(pod_step(&meta(true, None), Some(&prev), true, true), Ok(PodStep::Fetch)));
    assert!(matches!(pod_step(&meta(true, None), Some(&prev), false, false), Ok(PodStep::Fetch)));
    assert!(matches!(pod_step(&meta(true, None), None, false, true), Ok(PodStep::Fetch)));
    let err = pod_step(&meta(false, None), None, false, false).unwrap_err();
    assert_eq!(err, "internal: ensure_pod_deps called for 'tool' which declares no deps");
}

#[test]
fn pins_move_only_where_they_may() {
    let today = || "2026-01-02".to_string();
    let prev = locked("aaaaaaaaaaaaaaaa");
    assert!(matches!(
        pod_pin("tool", Some(&prev), false, "aaaaaaaaaaaaaaaa".into(), today()),
        Ok(PodPin::Kept)
    ));
    let err = pod_pin("tool", Some(&prev), false, "bb".into(), today()).unwrap_err();
    assert!(err.contains("refusing to move the pin"), "{err}");
    match pod_pin("tool", Some(&prev), true, "bb".into(), today()) {
        Ok(PodPin::Moved(lock, warning)) => {
            assert_eq!(lock.deps_hash, "bb");
            assert_eq!(lock.fetched_at.as_deref(), Some("2026-01-02"));
            assert!(warning.contains("aaaaaaaaaaaa → bb"), "{warning}");
        }
        other => panic!("{other:?}"),
    }
    match pod_pin("tool", None, false, "bb".into(), today()) {
        Ok(PodPin::Pinned(lock, _)) => assert_eq!(lock.deps_hash, "bb"),
        other => panic!("{other:?}"),
    }
}

#[test]
fn only_the_pinned_closure_is_unpacked() {
    let mut tree = Ordered::new();
    tree.insert("a".to_string(), TreeKind::File { mode: 0o644, bytes: b"x".to_vec() });
    let bytes = pack_canonical(&tree).unwrap();
    let hash = closure_hash(&bytes);
    let entries = materialize_deps_entry(&hash, &Some(bytes.clone())).unwrap();
    assert_eq!(entries.len(), 1);
    assert_eq!(entries[0].path, "a");
    let err = materialize_deps_entry(&hash, &None).unwrap_err();
    assert!(err.contains("is missing from the pod store"), "{err}");
    let err = materialize_deps_entry("beef", &Some(bytes)).unwrap_err();
    assert!(err.contains("expected beef, found") && err.contains(&hash), "{err}");
    let junk = b"Q\n".to_vec();
    assert!(materialize_deps_entry(&closure_hash(&junk), &Some(junk)).is_err());
}

#[test]
fn sources_are_checked() {
    let url = "https://x/y/app-1.0.tar.gz";
    let plain = || SourceSpec::Unverified(url.to_string());
    let plan = plan_source(&meta(true, Some(plain()))).unwrap();
    assert_eq!((plan.url.as_str(), plan.filename.as_str()), (url, "app-1.0.tar.gz"));
    assert!(plan_source(&meta(true, None)).unwrap_err().contains("deps requires source"));
    let local = SourceSpec::Unverified("./src".to_string());
    let err = plan_source(&meta(true, Some(local))).unwrap_err();
    assert!(err.ends_with("http(s) source URL, got ./src"), "{err}");
    assert!(check_source(&plain(), "anything").is_ok());
    let pinned = SourceSpec::Verified { url: url.to_string(), sha256: "aa".to_string() };
    assert!(check_source(&pinned, "aa").is_ok());
    let err = check_source(&pinned, "bb").unwrap_err();
    assert_eq!(err, format!("SHA-256 mismatch for {url}:\n  expected: aa\n  got:      bb"));
    assert_eq!(pinned.url(), url);
    assert_eq!(pinned.expected_sha256(), Some("aa"));
}

#[test]
fn a_single_visible_directory_is_the_root() {
    let dirs = |names: &[&str]| names.iter().map(|n| n.to_string()).collect::<Vec<_>>();
    assert_eq!(source_root(&dirs(&["app-1.0"])).as_deref(), Some("app-1.0"));
    assert_eq!(source_root(&dirs(&[".cache", "app"])).as_deref(), Some("app"));
    assert_eq!(source_root(&dirs(&["a", "b"])), None);
    assert_eq!(source_root(&dirs(&[])), None);
}

#[test]
fn tarball_entries_stay_below_their_destination() {
    assert!(matches!(tar_place(b"package"), TarPlace::Root));
    match tar_place(b"package/lib/a.js") {
        TarPlace::Below(p) => assert_eq!(p, b"lib/a.js"),
        other => panic!("{other:?}"),
    }
    assert!(matches!(tar_place(b"package/../../etc"), TarPlace::Escapes(_)));
}

#[test]
fn tarball_entries_go_by_their_kind() {
    assert!(matches!(tar_step(b"package/", TarKind::Dir, None), Ok(TarStep::Skip)));
    match tar_step(b"package/lib", TarKind::Dir, None) {
        Ok(TarStep::MakeDir(p)) => assert_eq!(p, b"lib"),
        other => panic!("{other:?}"),
    }
    match tar_step(b"package/l", TarKind::Symlink, Some(b"lib/a".to_vec())) {
        Ok(TarStep::Link { path, target }) => {
            assert_eq!((&path[..], &target[..]), (&b"l"[..], &b"lib/a"[..]))
        }
        other => panic!("{other:?}"),
    }
    match tar_step(b"./package/a.js", TarKind::Other, None) {
        Ok(TarStep::Unpack(p)) => assert_eq!(p, b"package/a.js"),
        other => panic!("{other:?}"),
    }
    assert!(matches!(tar_step(b"p/l", TarKind::Symlink, None), Err(TarFault::NoTarget)));
    match tar_step(b"p/../x", TarKind::Other, None) {
        Err(TarFault::Escapes(p)) => assert_eq!(p, b"../x"),
        other => panic!("{other:?}"),
    }
}

#[test]
fn digests_are_compared_whole() {
    assert!(constant_eq(b"abc", b"abc") && !constant_eq(b"abc", b"abd"));
    assert!(!constant_eq(b"abc", b"ab") && constant_eq(b"", b""));
    assert_eq!(shorten("héllo", 2), "hé");
    assert_eq!(shorten("a", 12), "a");
    // The SHA-256 of the empty input.
    let sri = "sha256-47DEQpj8HBSa+/TImW+5JCeuQeRkm5NMpJWZG3hSuFU=";
    assert!(verify_sri(b"", sri).is_ok() && verify_sri(b"x", sri).is_err());
}

#[test]
fn integrity_strings_are_judged_by_the_digests() {
    let digests = SriDigests { sha256: "AAA=".into(), sha512: "BBB=".into() };
    assert_eq!(judge_sri("sha512-BBB=", &digests), Ok(()));
    assert_eq!(judge_sri("sha1-x sha256-AAA=", &digests), Ok(()));
    assert_eq!(
        judge_sri("sha512-AAA=", &digests).unwrap_err(),
        "integrity mismatch: artifact does not match 'sha512-AAA='"
    );
    assert_eq!(
        judge_sri("sha512-BBB= broken", &digests).unwrap_err(),
        "malformed SRI integrity 'broken'"
    );
    let err = judge_sri("md5-x", &digests).unwrap_err();
    assert!(err.contains("names no supported algorithm"), "{err}");
}

#[test]
fn closures_are_opened_under_their_own_hash_alone() {
    let bytes = b"D a\nEND\n".to_vec();
    assert_eq!(open_closure("h", "h", &bytes).unwrap().len(), 1);
    let err = open_closure("h", "g", &bytes).unwrap_err();
    assert!(err.starts_with("dependency closure hash mismatch: expected h, found g"), "{err}");
    assert_eq!(
        open_closure("h", "h", &b"D a\n".to_vec()).unwrap_err(),
        "corrupt closure archive: missing END marker"
    );
}

/// The SHA-256 of `abc`.
const ABC: &str = "ba7816bf8f01cfea414140de5dae2223b00361a396177a9cb410ff61f20015ad";

#[test]
fn downloads_are_checked_by_their_bytes() {
    let wheel = |expected: Option<&str>| WheelFetch {
        url: "u".into(),
        filename: "c.whl".into(),
        expected: expected.map(str::to_string),
    };
    assert!(matches!(check_wheel(&wheel(Some(ABC)), b"abc", true), WheelVerdict::Accepted));
    match check_wheel(&wheel(Some("aa")), b"abc", true) {
        WheelVerdict::Refused(e) => {
            assert_eq!(e, format!("pip: wheel c.whl hash mismatch: expected aa, got {ABC}"))
        }
        other => panic!("{other:?}"),
    }
    match check_wheel(&wheel(None), b"abc", true) {
        WheelVerdict::Unpinned(w) => assert_eq!(
            w,
            "pip: wheel c.whl fetched unpinned (hash ba7816bf8f01cfea… — pin it in the lock)"
        ),
        other => panic!("{other:?}"),
    }
    let pinned = |sha256: &str| SourceSpec::Verified { url: "u".into(), sha256: sha256.into() };
    assert!(check_source_bytes(&SourceSpec::Unverified("u".into()), b"abc").is_ok());
    assert!(check_source_bytes(&pinned(ABC), b"abc").is_ok());
    assert_eq!(
        check_source_bytes(&pinned("aa"), b"abc").unwrap_err(),
        format!("SHA-256 mismatch for u:\n  expected: aa\n  got:      {ABC}")
    );
}
