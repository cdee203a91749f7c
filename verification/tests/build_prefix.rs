use shuttle::build_prefix::{
    child_rel, classify_wrapper, excluded, payload_files, payload_names, quoted_tokens, references,
    rewrite_exec_body, rewrite_file, strip_extension_segments, unpack_argv, verify_resolution,
    wrapper_text, Merge, MergeAction, Node, Occupant, Payload, Rewritten, WrapperShape,
};

/// A staged tree: regular files with contents, and links with targets.
type Tree<'a> = Vec<(&'a str, Result<&'a str, &'a str>)>;

fn files<'a>(list: &[(&'a str, &'a str)]) -> Tree<'a> {
    list.iter().map(|(p, c)| (*p, Ok(*c))).collect()
}

/// Merges payloads into one tree of paths.
fn merge_all<'a>(payloads: &[(&str, Tree<'a>)]) -> Result<(Tree<'a>, Merge), String> {
    let mut merge = Merge::new();
    let mut prefix: Tree<'a> = Vec::new();
    for (pkg, tree) in payloads {
        for (rel, node) in tree {
            let (dir, name) = rel.rsplit_once('/').unwrap_or(("", rel));
            let top = rel.split('/').next().unwrap();
            if excluded("", top) || excluded(dir, name) {
                continue;
            }
            let there = prefix.iter().find(|e| e.0 == *rel).map(|e| e.1);
            let at = match (&there, node) {
                (None, _) => Occupant::Nothing,
                (Some(Ok(a)), Ok(b)) => Occupant::File { same: a == b },
                (Some(Ok(_)), Err(_)) => Occupant::File { same: false },
                (Some(Err(t)), _) => Occupant::Link { target: t.to_string(), dir: false },
            };
            let node_kind = match node {
                Ok(_) => Node::File,
                Err(t) => Node::Link(t.to_string()),
            };
            match merge.merge_entry(pkg, rel, &node_kind, &at)? {
                MergeAction::Keep => {}
                _ => prefix.push((rel, *node)),
            }
        }
    }
    Ok((prefix, merge))
}

/// Stages payloads: merges them, then rewrites their wrappers.
fn stage(payloads: &[(&str, Tree<'_>)]) -> Result<Vec<(String, String)>, String> {
    let (prefix, merge) = merge_all(payloads)?;
    let names: Vec<Payload> = payloads
        .iter()
        .map(|(p, _)| Payload { pkg: p.to_string(), snap: String::new() })
        .collect();
    let mut out = Vec::new();
    for (rel, node) in &prefix {
        let Ok(content) = node else { continue };
        let Some(text) = wrapper_text(content.as_bytes().to_vec()) else {
            out.push((rel.to_string(), content.to_string()));
            continue;
        };
        match rewrite_file(rel, &text, merge.owner_of(rel))? {
            None => out.push((rel.to_string(), text)),
            Some(w) => {
                let needs = references(rel, w.shape, &w.text, &w.sibling, &names);
                let present: Vec<String> = needs
                    .iter()
                    .map(|n| n.path.clone())
                    .filter(|p| prefix.iter().any(|e| e.0 == p || e.0.starts_with(&format!("{p}/"))))
                    .collect();
                verify_resolution(rel, &w.pkg, &needs, &present)?;
                out.push((rel.to_string(), w.text));
            }
        }
    }
    Ok(out)
}

fn staged(payloads: &[(&str, Tree<'_>)], rel: &str) -> String {
    let all = stage(payloads).expect("must stage");
    all.into_iter().find(|e| e.0 == rel).expect("file must be staged").1
}

#[test]
fn merge_disjoint_payloads_and_dedupes_identical() {
    let mut a = files(&[("usr/include/ah.h", "a-header\n"), ("usr/share/common", "shared\n")]);
    a.push(("usr/lib/liba.so", Err("liba.so.1")));
    let b = files(&[("usr/include/bh.h", "b-header\n"), ("usr/share/common", "shared\n")]);
    let (prefix, merge) = merge_all(&[("pkg-a", a), ("pkg-b", b)]).unwrap();
    let at = |rel: &str| prefix.iter().find(|e| e.0 == rel).map(|e| e.1);
    assert_eq!(at("usr/include/ah.h"), Some(Ok("a-header\n")));
    assert_eq!(at("usr/include/bh.h"), Some(Ok("b-header\n")));
    assert_eq!(at("usr/share/common"), Some(Ok("shared\n")));
    assert_eq!(at("usr/lib/liba.so"), Some(Err("liba.so.1")));
    assert_eq!(merge.owner_of("usr/share/common"), Some("pkg-a"));
    assert_eq!(merge.owner_of("usr/include/bh.h"), Some("pkg-b"));
}

#[test]
fn merge_conflicting_content_is_a_hard_error_naming_both() {
    let a = files(&[("usr/share/x", "from-a\n")]);
    let b = files(&[("usr/share/x", "from-b\n")]);
    let msg = merge_all(&[("pkg-a", a), ("pkg-b", b)]).unwrap_err();
    assert!(msg.contains("usr/share/x"), "names the path: {msg}");
    assert!(msg.contains("pkg-a") && msg.contains("pkg-b"), "names both packages: {msg}");
}

#[test]
fn meta_packaging_subtree_is_excluded_from_the_merge() {
    let a = files(&[("meta/snap.yaml", "name: a\n"), ("usr/share/data", "shared\n")]);
    let b = files(&[("meta/snap.yaml", "name: b\n"), ("usr/share/data", "shared\n")]);
    let (prefix, _) =
        merge_all(&[("pkg-a", a), ("pkg-b", b)]).expect("differing meta/ subtrees must not conflict");
    assert!(!prefix.iter().any(|e| e.0.starts_with("meta")), "meta/ must be excluded");
    assert!(prefix.iter().any(|e| *e == ("usr/share/data", Ok("shared\n"))));
}

#[test]
fn info_dir_index_is_excluded_from_the_merge() {
    let a = files(&[
        ("usr/share/info/dir", "glibc-dir-entries\n"),
        ("usr/share/info/libc.info", "libc\n"),
    ]);
    let b = files(&[
        ("usr/share/info/dir", "gcc-dir-entries\n"),
        ("usr/share/info/gcc.info", "gcc\n"),
    ]);
    let (prefix, _) = merge_all(&[("glibc", a), ("gcc", b)])
        .expect("differing info dir indexes must not conflict");
    assert!(
        !prefix.iter().any(|e| e.0 == "usr/share/info/dir"),
        "the shared info index must be excluded"
    );
    assert!(prefix.iter().any(|e| *e == ("usr/share/info/libc.info", Ok("libc\n"))));
    assert!(prefix.iter().any(|e| *e == ("usr/share/info/gcc.info", Ok("gcc\n"))));
}

#[test]
fn empty_payload_list_yields_empty_prefix() {
    let (prefix, merge) = merge_all(&[]).unwrap();
    assert!(prefix.is_empty());
    assert_eq!(merge.owner_of("usr"), None);
}

#[test]
fn payload_files_lists_recursive_basenames() {
    let paths: Vec<String> = [
        "usr",
        "usr/lib",
        "usr/lib/libfoo.so.1",
        "usr/lib/libfoo.so",
        "usr/include",
        "usr/include/libfoo.h",
    ]
    .iter()
    .map(|s| s.to_string())
    .collect();
    let libfoo = payload_files(&paths);
    assert!(libfoo.iter().any(|n| n == "libfoo.so.1"), "soname basename listed");
    assert!(libfoo.iter().any(|n| n == "libfoo.so"), "symlink basename listed");
    assert!(libfoo.iter().any(|n| n == "libfoo.h"), "header basename listed");
    assert_eq!(libfoo, ["include", "lib", "libfoo.h", "libfoo.so", "libfoo.so.1", "usr"]);
}

fn elf_tree_wrapper_text(pkg: &str, real_rel: &str) -> String {
    format!(
        "#!/bin/sh\n\
         SCRIPT=\"$(readlink -f \"$0\")\"\n\
         PODROOT=\"$(dirname \"$(dirname \"$(dirname \"$SCRIPT\")\")\")\"\n\
         PYTHONPATH=\"${{SHUTTLE_PYTHONPATH:-}}\"\n\
         export PYTHONPATH\n\
         exec \"$PODROOT/active/extensions/{pkg}/usr/{real_rel}\" \"$@\"\n"
    )
}

#[test]
fn elf_tree_wrapper_usr_usr_doubling_is_repointed_at_the_prefix() {
    let wrapper = elf_tree_wrapper_text("python", "usr/bin/python3.real");
    let tree = files(&[
        ("usr/bin/python3", wrapper.as_str()),
        ("usr/bin/python3.real", "ELF-bytes"),
    ]);
    let all = stage(&[("python", tree)]).expect("must stage");
    let file = |rel: &str| all.iter().find(|e| e.0 == rel).map(|e| e.1.as_str());
    let rewritten = file("usr/bin/python3").expect("file must be staged");
    assert!(
        !rewritten.contains("active/extensions"),
        "the extension-tree segment must be gone: {rewritten}"
    );
    assert!(
        rewritten.contains("exec \"$PODROOT/usr/bin/python3.real\" \"$@\"\n"),
        "the exec target must resolve at the prefix root: {rewritten}"
    );
    assert_eq!(
        file("usr/bin/python3.real"),
        Some("ELF-bytes"),
        "the .real sibling must survive staging"
    );
}

#[test]
fn script_tree_wrapper_pkgroot_pythonpath_block_is_repointed() {
    let wrapper = "#!/bin/sh\n\
         SCRIPT=\"$(readlink -f \"$0\")\"\n\
         PODROOT=\"$(dirname \"$(dirname \"$(dirname \"$SCRIPT\")\")\")\"\n\
         TREE=\"$PODROOT/active/extensions/cli/usr/usr/bin/cli.real\"\n\
         [ -f \"$TREE\" ] || TREE=\"$(dirname \"$(dirname \"$SCRIPT\")\")/usr/bin/cli.real\"\n\
         \x20        PKGROOT=\"$PODROOT/active/extensions/cli/usr\"\n\
         \x20        PYTHONPATH=\"\"\n\
         \x20        for sp in \"$PKGROOT\"/usr/lib/python3.*/site-packages; do\n\
         \x20         [ -d \"$sp\" ] && PYTHONPATH=\"${PYTHONPATH:+$PYTHONPATH:$sp}\"\n\
         \x20        done\n\
         \x20        export PYTHONPATH\n\
         exec \"python3\" \"$TREE\" \"$@\"\n";
    let cli = files(&[
        ("usr/bin/cli", wrapper),
        ("usr/bin/cli.real", "#!/usr/bin/env node\n"),
    ]);
    let python = files(&[("usr/bin/python3", "ELF")]);
    let rewritten = staged(&[("cli", cli), ("python", python)], "usr/bin/cli");
    assert!(
        rewritten.contains("PKGROOT=\"$PODROOT\""),
        "PKGROOT must collapse to the prefix root: {rewritten}"
    );
    assert!(
        rewritten.contains("TREE=\"$PODROOT/usr/bin/cli.real\""),
        "the #210 tree target must resolve at the prefix root: {rewritten}"
    );
    assert!(
        rewritten.contains("exec \"python3\" \"$TREE\" \"$@\"\n"),
        "exec must point at the resolved tree target with the bare interpreter: {rewritten}"
    );
}

#[test]
fn python_tree_wrapper_pythonpath_scrub_preserves_the_caller_value() {
    let wrapper = elf_tree_wrapper_text("python", "usr/bin/python3.real");
    let tree = files(&[
        ("usr/bin/python3", wrapper.as_str()),
        ("usr/bin/python3.real", "ELF-bytes"),
    ]);
    let rewritten = staged(&[("python", tree)], "usr/bin/python3");
    assert!(
        rewritten.contains("PYTHONPATH=\"${SHUTTLE_PYTHONPATH:-}${PYTHONPATH:+:$PYTHONPATH}\"\n"),
        "the scrub must append the caller's PYTHONPATH: {rewritten}"
    );
    assert!(
        !rewritten.contains("PYTHONPATH=\"${SHUTTLE_PYTHONPATH:-}\"\n"),
        "the bare scrub must not survive prefix staging: {rewritten}"
    );
}

#[test]
fn elf_lib_wrapper_store_blob_exec_rewrites_to_the_real_sibling() {
    let wrapper = "#!/bin/sh\n\
         SCRIPT=\"$(readlink -f \"$0\")\"\n\
         BLODIR=\"$(dirname \"$SCRIPT\")\"\n\
         PODROOT=\"$(dirname \"$(dirname \"$BLODIR\")\")\"\n\
         export LD_LIBRARY_PATH=\"$PODROOT/active/extensions/jq/usr/usr/lib${LD_LIBRARY_PATH:+:$LD_LIBRARY_PATH}\"\n\
         exec \"/home/u/pods/daily/store/aa/deadbeef\" \"$@\"\n";
    let tree = files(&[
        ("usr/bin/jq", wrapper),
        ("usr/bin/jq.real", "ELF-bytes"),
        ("usr/lib/libjq.so.1", "ELF-lib"),
    ]);
    let rewritten = staged(&[("jq", tree)], "usr/bin/jq");
    assert!(
        rewritten.contains("exec \"$(dirname \"$(readlink -f \"$0\")\")/jq.real\" \"$@\"\n"),
        "the store-blob exec must become a sibling exec: {rewritten}"
    );
    assert!(
        rewritten
            .contains("LD_LIBRARY_PATH=\"$PODROOT/usr/lib${LD_LIBRARY_PATH:+:$LD_LIBRARY_PATH}\""),
        "LD entries must re-point at the prefix root and keep the caller-prepend idiom: {rewritten}"
    );
}

#[test]
fn perl_module_tree_wrapper_sweep_is_repointed_at_the_prefix() {
    let wrapper = "#!/bin/sh\n\
         SCRIPT=\"$(readlink -f \"$0\")\"\n\
         PODROOT=\"$(dirname \"$(dirname \"$(dirname \"$SCRIPT\")\")\")\"\n\
         TREE=\"$PODROOT/active/extensions/perltidy/usr/usr/bin/perltidy.real\"\n\
         [ -f \"$TREE\" ] || TREE=\"$(dirname \"$(dirname \"$SCRIPT\")\")/usr/bin/perltidy.real\"\n\
         \x20        PERL5LIB=\"\"\n\
         \x20        for d in \"$PODROOT\"/active/extensions/*/usr/usr/lib/perl5/*/ \"$PODROOT\"/active/extensions/*/usr/usr/lib/perl5/*/*/ \"$PODROOT\"/active/extensions/*/usr/usr/lib/perl5/*/*/*/; do\n\
         \x20         [ -d \"$d\" ] && PERL5LIB=\"${{PERL5LIB:+$PERL5LIB:}}$d\"\n\
         \x20        done\n\
         \x20        export PERL5LIB\n\
         exec \"perl\" \"$TREE\" \"$@\"\n";
    let app = files(&[
        ("usr/bin/perltidy", wrapper),
        ("usr/bin/perltidy.real", "#!/usr/bin/perl\n"),
    ]);
    let perl = files(&[("usr/bin/perl", "ELF")]);
    let rewritten = staged(&[("perltidy", app), ("perl", perl)], "usr/bin/perltidy");
    assert!(
        rewritten.contains("\"$PODROOT\"/usr/lib/perl5/*/"),
        "the closure-wide sweep must re-point at the prefix root: {rewritten}"
    );
    assert!(
        !rewritten.contains("active/extensions"),
        "no extension segment may survive: {rewritten}"
    );
    assert!(
        rewritten.contains("TREE=\"$PODROOT/usr/bin/perltidy.real\""),
        "the #210 tree target must resolve at the prefix root: {rewritten}"
    );
    assert!(
        rewritten.contains("exec \"perl\" \"$TREE\" \"$@\"\n"),
        "exec must point at the resolved tree target: {rewritten}"
    );
}

#[test]
fn flat_script_wrapper_rewrites_and_resolves_the_interpreter() {
    let wrapper = "#!/bin/sh\nexec \"perl\" \"/home/u/pods/daily/store/aa/cafe\" \"$@\"\n";
    let app = files(&[("usr/bin/tool", wrapper), ("usr/bin/tool.real", "script")]);
    let perl = files(&[("usr/bin/perl", "ELF")]);
    let rewritten = staged(&[("tool", app), ("perl", perl)], "usr/bin/tool");
    assert!(
        rewritten
            .contains("exec \"perl\" \"$(dirname \"$(readlink -f \"$0\")\")/tool.real\" \"$@\"\n"),
        "blob path must become the sibling, interpreter kept: {rewritten}"
    );
}

#[test]
fn flat_wrapper_with_unresolvable_interpreter_fails_closed() {
    let wrapper = "#!/bin/sh\nexec \"nosuchlang\" \"/p/store/aa/cafe\" \"$@\"\n";
    let app = files(&[("usr/bin/tool", wrapper), ("usr/bin/tool.real", "script")]);
    let msg = stage(&[("tool", app)]).unwrap_err();
    assert!(msg.contains("nosuchlang"), "names the interpreter: {msg}");
    assert!(
        msg.contains("neither the merged payloads"),
        "states the fail-closed condition: {msg}"
    );
    assert!(msg.contains("usr/bin/tool"), "names the wrapper: {msg}");
}

#[test]
fn tree_wrapper_with_missing_exec_target_fails_closed() {
    let wrapper = elf_tree_wrapper_text("python", "usr/bin/python3.real");
    let tree = files(&[("usr/bin/python3", wrapper.as_str())]);
    let msg = stage(&[("python", tree)]).unwrap_err();
    assert!(
        msg.contains("usr/bin/python3.real"),
        "names the unresolvable target: {msg}"
    );
    assert!(msg.contains("python"), "names the owning payload: {msg}");
}

#[test]
fn upstream_scripts_stage_byte_identical() {
    let meson_launcher = "#!/bin/sh\nexec python3 -m mesonbuild.mesonmain \"$@\"\n";
    let perltidy_like = "#!/usr/bin/perl\nprint \"perltidy\\n\";\n";
    let tree = || {
        files(&[
            ("usr/bin/meson", meson_launcher),
            ("usr/bin/perltidy", perltidy_like),
        ])
    };
    assert_eq!(staged(&[("meson", tree())], "usr/bin/meson"), meson_launcher);
    assert_eq!(staged(&[("meson", tree())], "usr/bin/perltidy"), perltidy_like);
}

#[test]
fn merging_tells_kinds_apart() {
    let mut m = Merge::new();
    let link = |t: &str| Node::Link(t.to_string());
    let at_link = |t: &str, dir| Occupant::Link { target: t.to_string(), dir };
    assert_eq!(m.merge_entry("a", "d", &Node::Dir, &Occupant::Nothing), Ok(MergeAction::Descend));
    assert_eq!(m.merge_entry("b", "d", &Node::Dir, &Occupant::Dir), Ok(MergeAction::Descend));
    assert_eq!(m.merge_entry("b", "d", &Node::Dir, &at_link("x", true)), Ok(MergeAction::Descend));
    assert!(m.merge_entry("b", "d", &Node::Dir, &at_link("x", false)).is_err());
    assert!(m.merge_entry("b", "d", &Node::Dir, &Occupant::File { same: false }).is_err());
    assert_eq!(m.merge_entry("a", "l", &link("x/y"), &Occupant::Nothing), Ok(MergeAction::Link));
    assert_eq!(m.merge_entry("b", "l", &link("x/y"), &at_link("x//y/", false)), Ok(MergeAction::Keep));
    assert!(m.merge_entry("b", "l", &link("x/y"), &at_link("x/z", false)).is_err());
    assert_eq!(m.merge_entry("a", "f", &Node::File, &Occupant::Nothing), Ok(MergeAction::Copy));
    assert!(m.merge_entry("b", "f", &Node::File, &at_link("f2", false)).is_err());
    assert!(m.merge_entry("b", "f", &Node::File, &Occupant::Other).is_err());
    assert_eq!(
        m.merge_entry("b", "new", &Node::File, &Occupant::Other).unwrap_err(),
        "build prefix conflict: 'new' differs between 'an earlier payload' and 'b' — the merged \
         build prefix requires identical content at shared paths"
    );
    assert_eq!(m.owner_of("d"), Some("a"));
}

#[test]
fn wrappers_must_stand_under_usr() {
    let text = elf_tree_wrapper_text("p", "usr/bin/x.real");
    let msg = rewrite_file("opt/p/bin/x", &text, None).unwrap_err();
    assert_eq!(
        msg,
        "build prefix: refusing launcher wrapper 'opt/p/bin/x' (from payload 'an earlier payload'): \
         wrapper placement is not usr/<dir>/<name>; the prefix-root derivation does not hold there — \
         the wrapper must resolve to the payload set or a declared requires; shipping it broken is \
         not an option (issue #90)"
    );
    let ok: Rewritten = rewrite_file("usr/sbin/x", &text, Some("p")).unwrap().unwrap();
    assert_eq!((ok.sibling.as_str(), ok.pkg.as_str(), ok.shape), ("x.real", "p", WrapperShape::Tree));
}

#[test]
fn the_least_failure_is_named() {
    let text = "#!/bin/sh\nexec \"zz\" \"/p/store/a/b\" \"$@\"\nX=\"$PODROOT/a:$PODROOT/*/b:$PODROOT/\"\n";
    let payloads = [
        Payload { pkg: "two".to_string(), snap: String::new() },
        Payload { pkg: "one".to_string(), snap: String::new() },
    ];
    assert_eq!(payload_names(&payloads), "one, two");
    let needs = references("usr/bin/t", WrapperShape::Flat, text, "t.real", &payloads);
    let paths: Vec<&str> = needs.iter().map(|n| n.path.as_str()).collect();
    assert_eq!(paths, ["usr/bin/t.real", "usr/bin/zz", "a"]);
    let msg = verify_resolution("usr/bin/t", "one", &needs, &Vec::new()).unwrap_err();
    assert!(msg.contains("exec/library target 'a' is missing from the prefix"), "{msg}");
    let some = vec!["a".to_string(), "usr/bin/zz".to_string()];
    let msg = verify_resolution("usr/bin/t", "one", &needs, &some).unwrap_err();
    assert!(msg.contains("preserved sibling 't.real' is missing from the prefix"), "{msg}");
    let all: Vec<String> = paths.iter().map(|s| s.to_string()).collect();
    assert!(verify_resolution("usr/bin/t", "one", &needs, &all).is_ok());
}

#[test]
fn pieces_of_wrappers_are_read_as_written() {
    assert_eq!(quoted_tokens("\"a\" \"b c\"  \"d\""), ["a", "b c"]);
    assert_eq!(quoted_tokens("plain \"a\""), Vec::<String>::new());
    assert_eq!(quoted_tokens("\"open"), Vec::<String>::new());
    assert_eq!(
        strip_extension_segments("a/active/extensions/p/usr/x active/extensions/q active/extensions/r/usrx"),
        "a/x active/extensions/q active/extensions/r/usrx".replace("active/extensions/r/usrx", "x")
    );
    assert_eq!(strip_extension_segments("/active/extensions/p"), "/active/extensions/p");
    assert_eq!(
        rewrite_exec_body("exec \"/a/store/b\"; echo \"/a/store/b\"", "t.real"),
        "exec \"$(dirname \"$(readlink -f \"$0\")\")/t.real\"; echo \"/a/store/b\""
    );
    assert_eq!(rewrite_exec_body("echo \"/a/store/b\"", "t.real"), "echo \"/a/store/b\"");
    assert_eq!(classify_wrapper("#!/bin/sh\necho"), None);
    assert_eq!(
        classify_wrapper("#!/bin/sh\n\"x\" \"/store/y\" \"$@\"\n"),
        Some(WrapperShape::Flat)
    );
    assert_eq!(wrapper_text(b"#!/bin/sh\nx".to_vec()).as_deref(), Some("#!/bin/sh\nx"));
    assert_eq!(wrapper_text(b"#!/bin/sh -e\n".to_vec()), None);
    assert_eq!(wrapper_text(b"#!/bin/sh\n\xff".to_vec()), None);
    assert_eq!(child_rel("", "a"), "a");
    assert_eq!(child_rel("a/b", "c"), "a/b/c");
    assert!(!excluded("usr", "meta"));
    assert_eq!(unpack_argv("u", "s.snap", "/d"), ["u", "-no-progress", "-d", "/d", "s.snap"]);
}
