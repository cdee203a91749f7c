use shuttle::checks::{
    alias_integrity_findings, base_guaranteed, dead_pin_summary, has_errors, image_snap_channel,
    image_snap_refs, interpreter_in, interpreter_probes, registry, run_battery, run_check, stage_below,
    shadows_system_path, shebang_interpreter, sort_findings, Finding, IndexEntry, LintInput,
    PackageIndex, PackageStage, PinEntry, PodLintData, PodPackageMeta, RawImage, Severity,
    StagedScript,
};
use shuttle::json_doc::{parse_json, Json};
use shuttle::meta::{SnapApp, SnapMeta};
use shuttle::ordered::Ordered;

fn bare_meta(name: &str) -> SnapMeta {
    SnapMeta {
        name: name.to_string(),
        version: "1.0".into(),
        type_: None,
        source: None,
        parts: None,
        target: None,
        adopt_info: None,
        requires: vec![],
        build_deps: vec![],
        apps: Ordered::new(),
        deps: None,
    }
}

fn pin_entry(revision: u32, channel: Option<&str>) -> PinEntry {
    PinEntry { revision, sha3_384: "a".repeat(96), channel: channel.map(String::from) }
}

fn store_entry(name: &str, pins: Vec<(&str, PinEntry)>) -> IndexEntry {
    let mut all = Ordered::new();
    for (k, v) in pins {
        all.insert(k.to_string(), v);
    }
    IndexEntry { name: name.to_string(), pins: Some(all), aliases: vec![] }
}

fn index(snaps: Vec<IndexEntry>) -> PackageIndex {
    PackageIndex { snaps }
}

const PC_IMAGE: &str = r#"{
    "name": "ubuntu-core-pc",
    "version": "22.04",
    "base": { "name": "core22" },
    "kernel": { "name": "pc-kernel", "params": ["quiet"] },
    "gadget": { "name": "pc-gadget" },
    "snaps": [ { "name": "snapd" } ],
    "bootloader": { "type": "systemd-boot", "timeout": 3 },
    "disk": {
        "label": "gpt",
        "partitions": [
            { "name": "esp", "size": "512M", "fs": "vfat", "mount": "/boot" },
            { "name": "root", "size": "3G", "fs": "ext4", "mount": "/" }
        ]
    }
}"#;

fn json(text: &str) -> Json {
    parse_json(text.as_bytes()).unwrap()
}

fn pc_image_with(from: &str, to: &str) -> Json {
    assert!(PC_IMAGE.contains(from), "{from}");
    json(&PC_IMAGE.replacen(from, to, 1))
}

fn root_mounted_at(mount: &str) -> Json {
    pc_image_with(r#""mount": "/" }"#, &format!(r#""mount": "{mount}" }}"#))
}

fn input() -> LintInput {
    LintInput {
        arch: "amd64".into(),
        channel: "latest/stable".into(),
        raw: Ordered::new(),
        unparsed: vec![],
        index: index(vec![]),
        pod: None,
        staged: vec![],
    }
}

fn image(raw: Json) -> LintInput {
    let mut input = input();
    input.raw.insert("rootfs".to_string(), raw);
    input
}

fn pc_image(entries: Vec<IndexEntry>) -> LintInput {
    let mut input = image(json(PC_IMAGE));
    input.index = index(entries);
    input
}

fn for_check(input: &LintInput, name: &str) -> Vec<Finding> {
    let reg = registry();
    let check = reg.iter().find(|c| c.name == name).unwrap();
    run_check(check.kind, input)
}

#[test]
fn keyed_pin_with_mismatched_recorded_channel_errors() {
    let input = pc_image(vec![store_entry(
        "pc-gadget",
        vec![("amd64@22/stable", pin_entry(103, Some("latest/stable")))],
    )]);
    let findings = for_check(&input, "dead-store-pin");
    assert_eq!(findings.len(), 1, "{findings:?}");
    assert_eq!(findings[0].severity, Severity::Error);
    assert!(
        findings[0].message.contains("pc-gadget")
            && findings[0].message.contains("rev 103")
            && findings[0].message.contains("#69"),
        "{}",
        findings[0].message
    );
}

#[test]
fn channel_matched_keyed_pin_is_clean() {
    let input = pc_image(vec![
        store_entry("pc-kernel", vec![("amd64@22/stable", pin_entry(3654, Some("22/stable")))]),
        store_entry("pc-gadget", vec![("amd64@22/stable", pin_entry(227, Some("22/stable")))]),
    ]);
    assert!(for_check(&input, "dead-store-pin").is_empty());
}

#[test]
fn pins_only_for_other_channels_warn() {
    let input = pc_image(vec![store_entry(
        "pc-kernel",
        vec![("amd64@latest/stable", pin_entry(2000, Some("latest/stable")))],
    )]);
    let findings = for_check(&input, "dead-store-pin");
    assert_eq!(findings.len(), 1, "{findings:?}");
    assert_eq!(findings[0].severity, Severity::Warn);
    assert!(
        findings[0].message.contains("none for channel '22/stable'")
            && findings[0].hint.contains("--base core22"),
        "{} / {}",
        findings[0].message,
        findings[0].hint
    );
}

#[test]
fn legacy_bare_pin_without_channel_warns() {
    let input = pc_image(vec![store_entry("pc-kernel", vec![("amd64", pin_entry(3654, None))])]);
    let findings = for_check(&input, "dead-store-pin");
    assert_eq!(findings.len(), 1, "{findings:?}");
    assert_eq!(findings[0].severity, Severity::Warn);
    assert!(findings[0].message.contains("record no channel"), "{}", findings[0].message);
}

#[test]
fn explicit_gadget_channel_skips_derivation() {
    let mut input = image(pc_image_with(
        r#""gadget": { "name": "pc-gadget" }"#,
        r#""gadget": { "name": "pc-gadget", "channel": "latest/stable" }"#,
    ));
    input.index = index(vec![store_entry(
        "pc-gadget",
        vec![("amd64@latest/stable", pin_entry(103, Some("latest/stable")))],
    )]);
    assert!(for_check(&input, "dead-store-pin").is_empty());
}

#[test]
fn base_pins_are_checked_on_the_lint_channel() {
    let input = pc_image(vec![store_entry(
        "core22",
        vec![("amd64@22/stable", pin_entry(2404, Some("22/stable")))],
    )]);
    let findings = for_check(&input, "dead-store-pin");
    assert_eq!(findings.len(), 1, "{findings:?}");
    assert!(findings[0].message.contains("core22"), "{}", findings[0].message);
}

#[test]
fn referenced_snap_not_in_index_warns_with_68_hint() {
    let input = pc_image(vec![]);
    let findings = for_check(&input, "store-alias");
    let pkgs: Vec<&str> = findings.iter().map(|f| f.package.as_str()).collect();
    assert_eq!(pkgs, vec!["core22", "pc-gadget", "pc-kernel", "snapd"], "{findings:?}");
    assert!(findings.iter().all(|f| f.severity == Severity::Warn));
    assert!(
        findings[1].message.contains("#68") && findings[1].hint.contains("--store-name"),
        "{}",
        findings[1].message
    );
}

#[test]
fn index_resolvable_references_are_clean() {
    let input = pc_image(vec![
        store_entry("core22", vec![]),
        store_entry("pc-kernel", vec![]),
        store_entry("pc-gadget", vec![]),
        store_entry("snapd", vec![]),
    ]);
    assert!(for_check(&input, "store-alias").is_empty());
}

#[test]
fn alias_shadowing_a_primary_name_warns() {
    let mut shadowed = store_entry("pc", vec![]);
    shadowed.aliases = vec!["pc-gadget".into()];
    let mut input = input();
    input.index = index(vec![store_entry("pc-gadget", vec![]), shadowed]);
    let findings = for_check(&input, "store-alias");
    assert_eq!(findings.len(), 1, "{findings:?}");
    assert!(findings[0].message.contains("unreachable"), "{}", findings[0].message);
}

#[test]
fn mount_over_system_path_warns() {
    let input = image(root_mounted_at("/usr"));
    let findings = for_check(&input, "shadow-mount");
    assert_eq!(findings.len(), 1, "{findings:?}");
    assert_eq!(findings[0].severity, Severity::Warn);
    assert!(findings[0].message.contains("/usr"), "{}", findings[0].message);
}

#[test]
fn mount_under_system_path_child_warns() {
    let input = image(root_mounted_at("/usr/local/data"));
    let findings = for_check(&input, "shadow-mount");
    assert_eq!(findings.len(), 1, "{findings:?}");
}

#[test]
fn relative_mount_warns() {
    let input = image(root_mounted_at("boot"));
    let findings = for_check(&input, "shadow-mount");
    assert_eq!(findings.len(), 1, "{findings:?}");
    assert!(findings[0].message.contains("absolute"), "{}", findings[0].message);
}

#[test]
fn duplicate_mount_points_warn() {
    let input = image(root_mounted_at("/boot"));
    let findings = for_check(&input, "shadow-mount");
    assert_eq!(findings.len(), 1, "{findings:?}");
    assert!(findings[0].message.contains("both mount '/boot'"), "{}", findings[0].message);
}

#[test]
fn esp_root_and_data_mounts_are_clean() {
    assert!(for_check(&image(json(PC_IMAGE)), "shadow-mount").is_empty());
}

#[test]
fn grub_bootloader_type_errors_before_the_build() {
    let input = image(pc_image_with("systemd-boot", "grub"));
    let findings = for_check(&input, "bootloader-type");
    assert_eq!(findings.len(), 1, "{findings:?}");
    assert_eq!(findings[0].severity, Severity::Error);
    assert!(
        findings[0].message.contains("grub") && findings[0].message.contains("#71"),
        "{}",
        findings[0].message
    );
}

#[test]
fn systemd_boot_and_absent_bootloader_are_clean() {
    assert!(for_check(&image(json(PC_IMAGE)), "bootloader-type").is_empty());
    let absent = pc_image_with(r#""bootloader": { "type": "systemd-boot", "timeout": 3 },"#, "");
    assert!(for_check(&image(absent), "bootloader-type").is_empty());
}

#[test]
fn piboot_bootloader_is_clean() {
    let input = image(pc_image_with("systemd-boot", "piboot"));
    assert!(for_check(&input, "bootloader-type").is_empty());
}

fn staged(key: &str, requires: Vec<String>, files: &[(&str, &str)]) -> LintInput {
    let has = |path: &str| files.iter().any(|(rel, _)| *rel == path);
    let scripts = files
        .iter()
        .map(|(rel, text)| StagedScript {
            rel: rel.to_string(),
            text: text.to_string(),
            provided: match interpreter_in(text) {
                Some((interp, _)) => {
                    let probes = interpreter_probes(&interp);
                    has(&probes.0) || has(&probes.1)
                }
                None => false,
            },
        })
        .collect();
    let mut input = input();
    input.staged = vec![PackageStage { key: key.to_string(), requires, scripts }];
    input
}

const PERLTIDY: (&str, &str) = ("usr/bin/perltidy", "#!/usr/bin/perl\nprint 1;\n");

#[test]
fn unresolvable_interpreter_errors() {
    let input = staged("perltidy", vec![], &[PERLTIDY]);
    let findings = for_check(&input, "shebang-requires");
    assert_eq!(findings.len(), 1, "{findings:?}");
    assert_eq!(findings[0].severity, Severity::Error);
    assert!(
        findings[0].message.contains("/usr/bin/perl") && findings[0].message.contains("#90"),
        "{}",
        findings[0].message
    );
}

#[test]
fn interpreter_from_requires_is_clean() {
    let input = staged("perltidy", vec!["perl".into()], &[PERLTIDY]);
    assert!(for_check(&input, "shebang-requires").is_empty());
}

#[test]
fn interpreter_shipped_in_payload_is_clean() {
    let input = staged(
        "perltidy",
        vec![],
        &[PERLTIDY, ("usr/bin/perl", "#!/bin/sh\nexec perl.real\n")],
    );
    assert!(for_check(&input, "shebang-requires").is_empty());
}

#[test]
fn env_interpreter_without_provider_warns() {
    let input = staged("cli", vec![], &[("usr/bin/cli", "#!/usr/bin/env node\nrun();\n")]);
    let findings = for_check(&input, "shebang-requires");
    assert_eq!(findings.len(), 1, "{findings:?}");
    assert_eq!(findings[0].severity, Severity::Warn);
    assert!(findings[0].message.contains("env"), "{}", findings[0].message);
}

#[test]
fn absent_stage_dir_is_silent() {
    assert!(for_check(&input(), "shebang-requires").is_empty());
}

#[test]
fn shebang_interpreter_parses_env_and_direct_forms() {
    assert_eq!(
        shebang_interpreter("#!/usr/bin/perl"),
        Some(("/usr/bin/perl".into(), false))
    );
    assert_eq!(shebang_interpreter("#!/usr/bin/env node"), Some(("node".into(), true)));
    assert_eq!(
        shebang_interpreter("#!/usr/bin/env -S node --max-old-space-size=1"),
        Some(("node".into(), true))
    );
    assert_eq!(shebang_interpreter("print 1"), None);
}

fn pod_input(packages: Vec<PodPackageMeta>) -> LintInput {
    let mut input = input();
    input.pod = Some(PodLintData { name: "daily".into(), packages });
    input
}

fn pod_package(spec: &str, name: &str, apps: &[(&str, bool)]) -> PodPackageMeta {
    let mut meta = bare_meta(name);
    for (app, desktop) in apps {
        meta.apps.insert(
            app.to_string(),
            SnapApp {
                command: format!("bin/{app}"),
                desktop: if *desktop { Some("meta/desktop.app".into()) } else { None },
            },
        );
    }
    PodPackageMeta { spec: spec.into(), name: name.into(), meta: Some(meta) }
}

#[test]
fn duplicate_plain_app_warns() {
    let input = pod_input(vec![
        pod_package("jq", "jq", &[("query", false)]),
        pod_package("yq", "yq", &[("query", false)]),
    ]);
    let findings = for_check(&input, "pod-duplicate-apps");
    assert_eq!(findings.len(), 1, "{findings:?}");
    assert_eq!(findings[0].severity, Severity::Warn);
    assert!(
        findings[0].message.contains("'query'") && findings[0].message.contains("jq and yq"),
        "{}",
        findings[0].message
    );
}

#[test]
fn duplicate_desktop_app_errors() {
    let input = pod_input(vec![
        pod_package("a", "pkg-a", &[("editor", true)]),
        pod_package("b", "pkg-b", &[("editor", true)]),
    ]);
    let findings = for_check(&input, "pod-duplicate-apps");
    assert_eq!(findings.len(), 1, "{findings:?}");
    assert_eq!(findings[0].severity, Severity::Error);
    assert!(findings[0].message.contains("desktop app-ID"), "{}", findings[0].message);
}

#[test]
fn unique_apps_and_unresolved_packages() {
    let input = pod_input(vec![
        pod_package("jq", "jq", &[("query", false)]),
        PodPackageMeta { spec: "ripgrep@14".into(), name: "ripgrep".into(), meta: None },
    ]);
    let findings = for_check(&input, "pod-duplicate-apps");
    assert_eq!(findings.len(), 1, "{findings:?}");
    assert!(findings[0].message.contains("ripgrep"), "{}", findings[0].message);
}

#[test]
fn pod_check_is_silent_without_pod_data() {
    assert!(for_check(&input(), "pod-duplicate-apps").is_empty());
}

#[test]
fn unparsed_keys_become_warnings() {
    let mut input = input();
    input.unparsed = vec!["broken".into()];
    let findings = for_check(&input, "unparsed-declaration");
    assert_eq!(findings.len(), 1);
    assert_eq!(findings[0].severity, Severity::Warn);
    assert_eq!(findings[0].package, "broken");
}

#[test]
fn registry_names_are_unique_and_nonempty() {
    let reg = registry();
    assert!(reg.len() >= 6);
    let mut names: Vec<_> = reg.iter().map(|c| c.name).collect();
    let n = names.len();
    names.sort_unstable();
    names.dedup();
    assert_eq!(names.len(), n, "duplicate check names");
    assert!(reg.iter().all(|c| !c.name.is_empty() && !c.summary.is_empty()));
}

#[test]
fn battery_is_clean_on_a_well_pinned_pc_image() {
    let input = pc_image(vec![
        store_entry(
            "core22",
            vec![("amd64@latest/stable", pin_entry(2411, Some("latest/stable")))],
        ),
        store_entry("pc-kernel", vec![("amd64@22/stable", pin_entry(3654, Some("22/stable")))]),
        store_entry("pc-gadget", vec![("amd64@22/stable", pin_entry(227, Some("22/stable")))]),
        store_entry(
            "snapd",
            vec![("amd64@latest/stable", pin_entry(24446, Some("latest/stable")))],
        ),
    ]);
    let findings = run_battery(&input);
    assert!(findings.is_empty(), "{findings:?}");
    assert!(!has_errors(&findings));
}

#[test]
fn battery_sorts_findings_deterministically() {
    let mut input = image(json(PC_IMAGE));
    input.raw.insert("aaa".to_string(), pc_image_with("systemd-boot", "grub"));
    let findings = run_battery(&input);
    let keys: Vec<_> =
        findings.iter().map(|f| (f.package.clone(), f.check, f.message.clone())).collect();
    let mut sorted = keys.clone();
    sorted.sort();
    assert_eq!(keys, sorted);
    assert!(findings.len() > 1);
    assert!(has_errors(&findings));
}

fn finding(package: &str, check: &'static str, message: &str) -> Finding {
    Finding {
        check,
        package: package.into(),
        severity: Severity::Warn,
        message: message.into(),
        hint: String::new(),
    }
}

#[test]
fn findings_sort_by_package_then_check_then_message() {
    let sorted = sort_findings(vec![
        finding("b", "a", "1"),
        finding("a", "b", "1"),
        finding("a", "a", "2"),
        finding("a", "a", "1"),
        finding("B", "z", "9"),
    ]);
    let keys: Vec<_> =
        sorted.iter().map(|f| (f.package.as_str(), f.check, f.message.as_str())).collect();
    assert_eq!(
        keys,
        vec![("B", "z", "9"), ("a", "a", "1"), ("a", "a", "2"), ("a", "b", "1"), ("b", "a", "1")]
    );
    assert!(!has_errors(&sorted));
    assert_eq!(Severity::Warn.as_str(), "warn");
    assert_eq!(Severity::Error.as_str(), "error");
    assert!(Severity::Warn < Severity::Error);
}

#[test]
fn kernel_and_gadget_follow_the_base_track() {
    assert_eq!(image_snap_channel("latest/stable", "core22", &None), "22/stable");
    assert_eq!(image_snap_channel("latest/edge", "core24", &None), "24/edge");
    assert_eq!(
        image_snap_channel("latest/stable", "core22", &Some("20/beta".into())),
        "20/beta"
    );
    let img = RawImage::from_raw(&json(PC_IMAGE)).unwrap();
    let refs: Vec<_> =
        image_snap_refs(&img).iter().map(|r| (r.name.clone(), r.follows)).collect();
    assert_eq!(
        refs,
        vec![
            ("pc-kernel".to_string(), true),
            ("pc-gadget".to_string(), true),
            ("snapd".to_string(), false),
            ("core22".to_string(), false),
        ]
    );
}

#[test]
fn outputs_without_a_base_are_no_images() {
    assert!(RawImage::from_raw(&json(r#"{"name": "hello", "source": "x"}"#)).is_none());
    let input = image(json(r#"{"name": "hello"}"#));
    assert!(run_battery(&input).is_empty());
}

#[test]
fn dead_pins_are_counted_by_architecture() {
    let entry = store_entry(
        "x",
        vec![
            ("amd64", pin_entry(1, None)),
            ("amd64@latest/stable", pin_entry(2, Some("latest/stable"))),
            ("arm64@latest/stable", pin_entry(3, Some("latest/stable"))),
        ],
    );
    assert_eq!(dead_pin_summary(entry.pins.as_ref().unwrap(), "amd64"), (1, 1));
}

#[test]
fn aliases_resolve_where_no_primary_name_does() {
    let mut entry = store_entry("pc", vec![]);
    entry.aliases = vec!["pc-gadget".into()];
    let index = index(vec![entry]);
    assert_eq!(index.find_by_name_or_alias("pc-gadget").unwrap().name, "pc");
    assert!(index.find_by_name_or_alias("nothing").is_none());
    assert!(alias_integrity_findings(&index).is_empty());
}

#[test]
fn base_interpreters_and_system_paths_are_recognized() {
    assert!(base_guaranteed("/bin/sh") && !base_guaranteed("/usr/bin/perl"));
    assert!(shadows_system_path("/usr") && shadows_system_path("/etc/x"));
    assert!(!shadows_system_path("/usrlocal") && !shadows_system_path("/boot"));
    assert_eq!(
        interpreter_probes("/opt/run/lua"),
        ("opt/run/lua".to_string(), "usr/bin/lua".to_string())
    );
}

#[test]
fn interpreters_are_looked_for_in_the_payload() {
    let probes = ("usr/bin/perl".to_string(), "usr/bin/perl".to_string());
    assert_eq!(interpreter_probes("/usr/bin/perl"), probes);
    assert_eq!(interpreter_in("#!//usr/bin/perl\n").unwrap().0, "//usr/bin/perl");
    assert_eq!(interpreter_probes("//usr/bin/perl"), probes);
    assert_eq!(stage_below(1, "a"), None);
    assert_eq!(stage_below(2, "a").as_deref(), Some("a"));
    assert_eq!(stage_below(0, "a").as_deref(), Some("a"));
}

#[test]
fn checks_say_what_they_are_about() {
    let reg = registry();
    assert_eq!(reg[2].summary, "partition mounts over system paths the rootfs owns");
    assert_eq!(reg[6].summary, "outputs validating as neither package nor image (ADR-0010)");
}
