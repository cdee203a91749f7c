use shuttle::boot_test::{
    after_attempt, after_offset, analyze_log, boot_paths, classify, default_log_path,
    find_firmware_in, firmware_search_dirs, first_attempt, first_counted_uki, is_kvm_failure,
    listing_text, parse_dir_listing, parse_expect_counters, parse_uki_name, path_candidates,
    plan_sequence, prepare_firmware_in, qemu_argv, resolve_on_path, resolve_qemu,
    resolve_timeout, wrapper_argv, Accel,
    BootStep, BootTest, EspStep, ExpectedCounters, Failure, Firmware, Outcome,
    Sequence, SequenceFailure, SequenceOutcome, TryCounters, BOOT_COMPLETE_MARKER,
};

struct Script {
    code: i32,
    stderr: String,
    log: String,
}

fn script(code: i32, stderr: &str, log: &str) -> Script {
    Script { code, stderr: stderr.to_string(), log: log.to_string() }
}

fn arg_after<'a>(argv: &'a [String], flag: &str) -> Option<&'a str> {
    argv.iter()
        .position(|a| a == flag)
        .and_then(|i| argv.get(i + 1))
        .map(String::as_str)
}

/// Runs a boot against scripted replies; gives the result and what was run.
fn run_boot(test: &BootTest, scripts: Vec<Script>) -> (Outcome, Vec<Vec<String>>) {
    let mut calls = Vec::new();
    let mut attempt = first_attempt(test);
    for s in scripts {
        calls.push(attempt.argv.clone());
        match after_attempt(test, attempt, s.code, &s.stderr, &s.log) {
            BootStep::Done(out) => return (out, calls),
            BootStep::Retry(next) => attempt = next,
        }
    }
    panic!("the boot asked for more than was scripted");
}

/// Runs a sequence against listings of the boot partition; every boot passes.
fn run_sequence(test: &BootTest, listings: &[&[&str]], esp_ok: bool) -> (SequenceOutcome, Vec<Vec<String>>) {
    let plan = plan_sequence(test);
    let found = if esp_ok { Ok(()) } else { Err("sfdisk: not found".to_string()) };
    let listed = match after_offset(&plan, found) {
        EspStep::Stop(out) => return (out, Vec::new()),
        EspStep::List => true,
        EspStep::Skip(_) => false,
    };
    let mut calls = Vec::new();
    let mut seq = Sequence::new(plan.runs, test.expect_counters.clone());
    while let Some(i) = seq.next() {
        let (log, esp_listing) = boot_paths(&plan, &test.log, i);
        let names = if listed {
            parse_dir_listing(&listings[i as usize - 1].join("\n"))
        } else {
            Vec::new()
        };
        seq.look(Ok(names));
        let (outcome, ran) = run_boot(&test.at(&plan.image, &log), vec![script(124, "", PASS_LOG)]);
        calls.extend(ran);
        seq.record(log, esp_listing, outcome);
    }
    (seq.finish(plan.run_root, plan.image), calls)
}

const PASS_LOG: &str = "\
[    0.000000] Linux version 6.8.0\n\
SHUTTLE-INIT: start\n\
SHUTTLE-INIT: modules-loaded\n\
SHUTTLE-INIT: root=/dev/vda2 hash=/dev/vda3\n\
SHUTTLE-INIT: verity-open\n\
SHUTTLE-INIT: mounted\n\
SHUTTLE-INIT: switch-root\n\
[    2.100000] systemd[1]: systemd 255 running in system mode.\n\
[    3.200000] systemd[1]: Reached target Basic System.\n\
[    4.400000] systemd[1]: Reached target Multi-User System.\n\
[    4.900000] systemd[1]: Starting shuttle-runtime-activate.service...\n\
[    5.100000] systemd[1]: Started shuttle: activate the current runtime generation.\n";

const PANIC_LOG: &str = "\
[    0.000000] Linux version 6.8.0\n\
[    1.000000] Kernel panic - not syncing: VFS: Unable to mount root fs\n\
[    1.000000] end Kernel panic - not syncing\n";

const TRUNCATED_LOG: &str = "[    0.000000] Linux version 6.8.0\n";

fn sample_test(accel: Accel, kvm_available: bool) -> BootTest {
    BootTest {
        image: "/tmp/t/image_1.0.0_amd64.img".to_string(),
        log: "/tmp/t/serial.log".to_string(),
        accel,
        timeout: 5,
        firmware: Firmware {
            code: "/tmp/t/OVMF_CODE.fd".to_string(),
            vars: "/tmp/t/OVMF_VARS.fd".to_string(),
        },
        qemu: "/usr/bin/qemu-system-x86_64".to_string(),
        timeout_bin: "/usr/bin/timeout".to_string(),
        kvm_available,
        required: Vec::new(),
        runs: 1,
        expect_counters: Vec::new(),
        allow_no_completion: false,
    }
}

#[test]
fn wrapper_argv_kvm_is_exact() {
    let test = sample_test(Accel::Kvm, true);
    let expected = [
        "/usr/bin/timeout",
        "-s",
        "TERM",
        "-k",
        "5",
        "5",
        "/usr/bin/qemu-system-x86_64",
        "-machine",
        "q35",
        "-accel",
        "kvm",
        "-m",
        "2048",
        "-drive",
        "if=pflash,format=raw,readonly=on,file=/tmp/t/OVMF_CODE.fd",
        "-drive",
        "if=pflash,format=raw,file=/tmp/t/OVMF_VARS.fd",
        "-drive",
        "file=/tmp/t/image_1.0.0_amd64.img,format=raw,if=virtio",
        "-display",
        "none",
        "-monitor",
        "none",
        "-serial",
        "file:/tmp/t/serial.log",
        "-no-reboot",
    ];
    let argv = wrapper_argv(&test, Accel::Kvm);
    assert_eq!(argv, expected);
    assert_eq!(qemu_argv(&test, Accel::Kvm), expected[6..]);
}

#[test]
fn wrapper_argv_tcg_uses_tcg() {
    let test = sample_test(Accel::Tcg, true);
    let argv = wrapper_argv(&test, Accel::Tcg);
    assert_eq!(arg_after(&argv, "-accel"), Some("tcg"));
    assert!(argv.iter().any(|a| a == "-display"));
    assert!(!argv.iter().any(|a| a == "-nographic"));
}

#[test]
fn resolve_on_path_finds_first_existing() {
    let bin = "/tmp/d/qemu-system-x86_64".to_string();
    let path_var = "/nonexistent:/tmp/d";
    let files = vec![bin.clone()];
    assert_eq!(
        path_candidates("qemu-system-x86_64", path_var),
        ["/nonexistent/qemu-system-x86_64", "/tmp/d/qemu-system-x86_64"]
    );
    assert_eq!(resolve_on_path("qemu-system-x86_64", path_var, &files), Some(bin));
    assert_eq!(resolve_on_path("does-not-exist", path_var, &files), None);
}

#[test]
fn find_firmware_in_returns_pair() {
    let files = vec!["/tmp/d/OVMF_CODE.fd".to_string(), "/tmp/d/OVMF_VARS.fd".to_string()];
    let found = find_firmware_in(&vec!["/tmp/d".to_string()], &files);
    assert_eq!(
        found,
        Some(("/tmp/d/OVMF_CODE.fd".to_string(), "/tmp/d/OVMF_VARS.fd".to_string()))
    );
}

#[test]
fn find_firmware_in_none_when_vars_missing() {
    let files = vec!["/tmp/d/OVMF_CODE.fd".to_string()];
    assert_eq!(find_firmware_in(&vec!["/tmp/d".to_string()], &files), None);
}

#[test]
fn find_firmware_prefers_the_first_directory_and_pair() {
    let dirs = vec!["/a".to_string(), "/b".to_string()];
    let files: Vec<String> = [
        "/b/OVMF_CODE.fd",
        "/b/OVMF_VARS.fd",
        "/a/edk2-i386-code.fd",
        "/a/edk2-x86_64-code.fd",
        "/a/edk2-i386-vars.fd",
    ]
    .iter()
    .map(|s| s.to_string())
    .collect();
    let found = find_firmware_in(&dirs, &files).unwrap();
    assert_eq!(found.0, "/a/edk2-x86_64-code.fd");
    assert_eq!(found.1, "/a/edk2-i386-vars.fd");
}

#[test]
fn prepare_firmware_missing_is_actionable() {
    let msg = prepare_firmware_in(&vec!["/tmp/d".to_string()], &Vec::new(), "/tmp/s").unwrap_err();
    assert!(msg.contains("UEFI firmware not found"), "{msg}");
    assert!(msg.contains("OVMF"), "{msg}");
    assert!(msg.contains("--firmware-dir"), "{msg}");
    assert!(msg.contains("in: /tmp/d. Install"), "{msg}");
}

#[test]
fn prepare_firmware_stages_writable_vars() {
    let files = vec!["/tmp/d/OVMF_CODE.fd".to_string(), "/tmp/d/OVMF_VARS.fd".to_string()];
    let fw = prepare_firmware_in(&vec!["/tmp/d".to_string()], &files, "/tmp/s").unwrap();
    assert_eq!(fw.code, "/tmp/d/OVMF_CODE.fd");
    assert_eq!(fw.vars, "/tmp/s/OVMF_VARS.fd");
    assert_eq!(fw.template, "/tmp/d/OVMF_VARS.fd");
}

#[test]
fn firmware_dirs_come_in_order_without_repeats() {
    let dirs = firmware_search_dirs(Some("/x"), Some("/y"), Some("/nix/q/share/qemu"));
    assert_eq!(
        dirs,
        [
            "/x",
            "/y",
            "/nix/q/share/qemu",
            "/nix/q/share/qemu/firmware",
            "/usr/share/OVMF",
            "/usr/share/ovmf",
            "/usr/share/edk2/x64",
            "/usr/share/edk2-ovmf/x64",
            "/usr/share/edk2/ovmf",
            "/usr/share/qemu",
            "/usr/share/qemu/firmware",
        ]
    );
    let plain = firmware_search_dirs(Some("/usr/share/./OVMF"), Some(""), None);
    assert_eq!(plain[0], "/usr/share/./OVMF");
    assert_eq!(plain[1], "/usr/share/ovmf");
    assert_eq!(plain.len(), 7);
}

#[test]
fn default_log_path_appends_suffix() {
    assert_eq!(
        default_log_path("/tmp/img_1.0_amd64.img"),
        "/tmp/img_1.0_amd64.img.serial.log"
    );
}

#[test]
fn analyze_userspace_and_handoff_pass() {
    let ev = analyze_log(PASS_LOG);
    assert!(ev.userspace);
    assert!(ev.target.is_some());
    assert_eq!(ev.handoff.as_deref(), Some("SHUTTLE-INIT: switch-root"));
    assert!(ev.panic.is_none());
}

const REAL_BOOT_EXCERPT: &str = "\
[    1.975769] systemd[1]: systemd 261.2 running in system mode (+PAM +AUDIT -SELINUX)\n\
[    1.977862] systemd[1]: Detected virtualization kvm.\n\
[    1.978184] systemd[1]: Detected architecture x86-64.\n\
[    1.978501] systemd[1]: Running in initrd.\n\
[    2.081988] systemd[1]: Queued start job for default target Initrd Default Target.\n\
[    2.085533] systemd[1]: Reached target Slice Units.\n\
[    2.086214] systemd[1]: Reached target Swaps.\n\
[    2.086841] systemd[1]: Reached target Timer Units.\n";

#[test]
fn analyze_parses_real_boot_excerpt_userspace() {
    let ev = analyze_log(REAL_BOOT_EXCERPT);
    assert!(ev.userspace, "real systemd output must count as userspace");
    assert!(ev.panic.is_none());
    assert_eq!(
        ev.target.as_deref(),
        Some("[    2.085533] systemd[1]: Reached target Slice Units.")
    );
    assert!(ev.handoff.is_none(), "an initrd excerpt never runs shuttle's /init");
}

#[test]
fn run_boot_without_handoff_fails() {
    let test = sample_test(Accel::Kvm, true);
    let (out, _) = run_boot(&test, vec![script(124, "", REAL_BOOT_EXCERPT)]);
    assert_eq!(out.failure, Some(Failure::NoHandoff));
}

const CONSOLE_CONF_LOG: &str = "\
BdsDxe: starting Boot0001 \"UEFI Misc Device\"\n\
SHUTTLE-INIT: start\n\
SHUTTLE-INIT: modules-loaded\n\
SHUTTLE-INIT: root=/dev/vda2 hash=/dev/vda3\n\
SHUTTLE-INIT: verity-open\n\
[    0.545547] EXT4-fs (dm-0): write access unavailable, skipping orphan cleanup\n\
SHUTTLE-INIT: mounted\n\
SHUTTLE-INIT: switch-root\n\
[    0.786046] systemd[1]: network-manager-networkmanager.service: Two services allocated for the same bus name fi.w1.wpa_supplicant1, refusing operation.\n\
[FAILED] Failed to start Network Time Synchronization.\n\
[FAILED] Failed to start Network Time Synchronization.\n\
/usr/share/subiquity/console-conf-wrapper: line 40: snap: command not found\n\
Press enter to configure.\n";

#[test]
fn console_conf_stall_fails_by_default() {
    let ev = analyze_log(CONSOLE_CONF_LOG);
    assert!(ev.userspace, "console-conf proves userspace");
    assert!(ev.panic.is_none());
    assert_eq!(ev.handoff.as_deref(), Some("SHUTTLE-INIT: switch-root"));
    assert!(
        ev.completion.is_none(),
        "a console-conf stall never reaches a completed target"
    );

    let test = sample_test(Accel::Kvm, true);
    let (out, _) = run_boot(&test, vec![script(124, "", CONSOLE_CONF_LOG)]);
    assert!(!out.passed());
    assert_eq!(out.failure, Some(Failure::NoCompletion));
    assert!(out.message().contains("never completed"), "{}", out.message());
}

#[test]
fn allow_no_completion_restores_the_handoff_gate() {
    let mut test = sample_test(Accel::Kvm, true);
    test.allow_no_completion = true;
    let (out, _) = run_boot(&test, vec![script(124, "", CONSOLE_CONF_LOG)]);
    assert!(out.passed(), "{}", out.message());
    assert!(out.message().contains("switch-root"), "{}", out.message());
}

const EMERGENCY_REBOOT_LOG: &str = "\
SHUTTLE-INIT: switch-root\n\
[    1.512003] systemd[1]: systemd 255 running in system mode.\n\
[    2.113744] systemd[1]: Reached target Local File Systems.\n\
[    2.204112] systemd[1]: Reached target Emergency Mode.\n\
[    2.310884] systemd[1]: Starting Reboot...\n\
[    2.402551] systemd[1]: Reached target Reboot.\n\
[    2.512290] reboot: Restarting system\n";

#[test]
fn emergency_reboot_after_handoff_fails_by_default() {
    let test = sample_test(Accel::Kvm, true);
    let (out, _) = run_boot(&test, vec![script(0, "", EMERGENCY_REBOOT_LOG)]);
    assert!(!out.passed());
    assert_eq!(out.failure, Some(Failure::NoCompletion));
}

#[test]
fn timeout_after_markers_fails_without_completion() {
    let log = "\
SHUTTLE-INIT: switch-root\n\
[    2.100000] systemd[1]: systemd 255 running in system mode.\n\
[    3.200000] systemd[1]: Reached target Basic System.\n\
[    4.900000] systemd[1]: Started some-long-running-unit.service.\n";
    let test = sample_test(Accel::Kvm, true);
    let (out, _) = run_boot(&test, vec![script(124, "", log)]);
    assert!(!out.passed());
    assert_eq!(out.failure, Some(Failure::NoCompletion));
}

#[test]
fn boot_complete_target_passes_by_default() {
    let log = format!(
        "\
SHUTTLE-INIT: switch-root\n\
[    2.100000] systemd[1]: systemd 255 running in system mode.\n\
[    3.200000] systemd[1]: Reached target Basic System.\n\
[    4.400000] systemd[1]: {BOOT_COMPLETE_MARKER}.\n"
    );
    let test = sample_test(Accel::Kvm, true);
    let (out, _) = run_boot(&test, vec![script(124, "", &log)]);
    assert!(out.passed(), "{}", out.message());
    assert_eq!(
        out.evidence.completion.as_deref(),
        Some("[    4.400000] systemd[1]: Reached target Boot Completion Check.")
    );
}

#[test]
fn multi_user_target_passes_without_boot_assessment() {
    let ev = analyze_log(PASS_LOG);
    assert_eq!(
        ev.boot_complete, None,
        "fixture must exercise the no-boot-assessment path"
    );
    assert!(ev.completion.is_some());
    let test = sample_test(Accel::Kvm, true);
    let (out, _) = run_boot(&test, vec![script(124, "", PASS_LOG)]);
    assert!(out.passed(), "{}", out.message());
    assert!(out.message().contains("Multi-User System"), "{}", out.message());
}

#[test]
fn strict_require_boot_complete_is_opt_in() {
    let mut test = sample_test(Accel::Kvm, true);
    test.required = vec![BOOT_COMPLETE_MARKER.to_string()];

    let (out, _) = run_boot(&test, vec![script(124, "", PASS_LOG)]);
    assert_eq!(
        out.failure,
        Some(Failure::MissingRequirement(BOOT_COMPLETE_MARKER.to_string()))
    );

    let log = "\
SHUTTLE-INIT: switch-root\n\
[    0.786046] systemd[1]: systemd 255 running in system mode.\n\
[    4.400000] systemd[1]: Reached target Boot Completion Check.\n";
    let (out, _) = run_boot(&test, vec![script(124, "", log)]);
    assert!(out.passed(), "{}", out.message());
    assert_eq!(
        out.evidence.boot_complete.as_deref(),
        Some("[    4.400000] systemd[1]: Reached target Boot Completion Check.")
    );
}

#[test]
fn analyze_detects_activate_unit() {
    let ev = analyze_log(PASS_LOG);
    assert!(ev.activate);
    assert!(!analyze_log(TRUNCATED_LOG).activate);
}

#[test]
fn the_first_panic_line_counts() {
    let ev = analyze_log("x panic - not syncing\nKernel panic y\n");
    assert_eq!(ev.panic.as_deref(), Some("x panic - not syncing"));
}

#[test]
fn analyze_panic_is_detected() {
    let ev = analyze_log(PANIC_LOG);
    assert!(ev.panic.is_some());
    assert!(!ev.userspace);
}

#[test]
fn analyze_truncated_has_no_userspace() {
    let ev = analyze_log(TRUNCATED_LOG);
    assert!(!ev.userspace);
    assert!(ev.target.is_none());
    assert!(ev.handoff.is_none());
}

#[test]
fn run_boot_passes_after_timeout_kill() {
    let test = sample_test(Accel::Kvm, true);
    let (out, _) = run_boot(&test, vec![script(124, "", PASS_LOG)]);
    assert!(out.passed(), "{}", out.message());
    assert_eq!(out.accel, Accel::Kvm);
    assert_eq!(out.argv, wrapper_argv(&test, Accel::Kvm));
}

#[test]
fn run_boot_timeout_is_distinct() {
    let test = sample_test(Accel::Kvm, true);
    let (out, _) = run_boot(&test, vec![script(124, "", TRUNCATED_LOG)]);
    assert!(!out.passed());
    assert_eq!(out.failure, Some(Failure::Timeout));
    assert!(out.message().contains("timed out"));
}

#[test]
fn run_boot_panic_fails_even_when_exit_zero() {
    let test = sample_test(Accel::Kvm, true);
    let (out, _) = run_boot(&test, vec![script(0, "", PANIC_LOG)]);
    assert_eq!(out.failure, Some(Failure::Panic));
    assert!(out.message().contains("kernel panic"));
}

#[test]
fn run_boot_no_handoff_fails() {
    let test = sample_test(Accel::Kvm, true);
    let log = "[    2.000000] systemd[1]: systemd 255 running in system mode.\n";
    let (out, _) = run_boot(&test, vec![script(124, "", log)]);
    assert_eq!(out.failure, Some(Failure::NoHandoff));
}

#[test]
fn run_boot_required_marker_tightens() {
    let mut test = sample_test(Accel::Kvm, true);
    test.required = vec!["Reached target Boot-Complete".into()];
    let (out, _) = run_boot(&test, vec![script(124, "", PASS_LOG)]);
    assert_eq!(
        out.failure,
        Some(Failure::MissingRequirement("Reached target Boot-Complete".into()))
    );
}

#[test]
fn run_boot_qemu_failure_reported() {
    let test = sample_test(Accel::Kvm, true);
    let stderr = "qemu-system-x86_64: -drive file=x: Could not open 'x': No such file";
    let (out, _) = run_boot(&test, vec![script(1, stderr, "")]);
    match out.failure {
        Some(Failure::Qemu { code, .. }) => assert_eq!(code, 1),
        other => panic!("expected Qemu failure, got {other:?}"),
    }
}

#[test]
fn run_boot_preflight_falls_back_to_tcg() {
    let test = sample_test(Accel::Kvm, false);
    let (out, calls) = run_boot(&test, vec![script(124, "", PASS_LOG)]);
    assert!(out.passed(), "{}", out.message());
    assert_eq!(out.accel, Accel::Tcg);
    assert_eq!(calls.len(), 1);
    assert_eq!(arg_after(&calls[0], "-accel"), Some("tcg"));
}

#[test]
fn run_boot_runtime_kvm_failure_retries_tcg() {
    let test = sample_test(Accel::Kvm, true);
    let (out, calls) = run_boot(
        &test,
        vec![
            script(1, "Could not access KVM kernel module: No such file or directory", ""),
            script(124, "", PASS_LOG),
        ],
    );
    assert!(out.passed(), "{}", out.message());
    assert_eq!(out.accel, Accel::Tcg);
    assert_eq!(calls.len(), 2);
    assert_eq!(arg_after(&calls[0], "-accel"), Some("kvm"));
    assert_eq!(arg_after(&calls[1], "-accel"), Some("tcg"));
    assert_eq!(out.argv, wrapper_argv(&test, Accel::Tcg));
}

#[test]
fn sequence_multi_boot_argv_uses_copy_with_per_boot_logs() {
    let mut test = sample_test(Accel::Kvm, true);
    test.runs = 2;
    let (out, calls) = run_sequence(&test, &[&["foo_1.0+3-0.efi"], &["foo_1.0+2-1.efi"]], true);
    assert!(out.passed(), "{}", out.message());
    assert_eq!(out.records.len(), 2);
    assert_eq!(out.run_root, Some(format!("{}.d", test.log)));

    assert!(
        !calls.iter().any(|c| c.first().map(String::as_str) == Some("cp")),
        "no command copies the image: {calls:?}"
    );
    let root = out.run_root.as_ref().unwrap();
    let serials: Vec<&str> = calls.iter().filter_map(|c| arg_after(c, "-serial")).collect();
    assert_eq!(serials.len(), 2);
    assert!(serials[0].contains(&format!("{root}/boot-1.serial.log")));
    assert!(serials[1].contains(&format!("{root}/boot-2.serial.log")));
    for call in calls.iter().filter(|c| c.iter().any(|a| a == "-serial")) {
        let drive = call
            .iter()
            .find(|a| a.starts_with("file=") && a.ends_with(",format=raw,if=virtio"))
            .unwrap();
        assert!(drive.contains(&format!("{root}/img")), "boot must use the copy: {drive}");
    }
}

#[test]
fn sequence_no_snapshot_in_boot_argv() {
    let mut test = sample_test(Accel::Kvm, true);
    test.runs = 2;
    let (_, calls) = run_sequence(&test, &[&["x+2-0.efi"], &["x+1-1.efi"]], true);
    assert_eq!(calls.len(), 2);
    for call in calls {
        assert!(
            !call.iter().any(|a| a.contains("snapshot")),
            "boot argv must never use -snapshot: {call:?}"
        );
    }
}

#[test]
fn sequence_matching_counters_pass() {
    let mut test = sample_test(Accel::Kvm, true);
    test.runs = 4;
    test.expect_counters = parse_expect_counters("3-0,2-1,1-2,0-3").unwrap();
    let (out, _) = run_sequence(
        &test,
        &[
            &["foo_1.0+3-0.efi"],
            &["foo_1.0+2-1.efi"],
            &["foo_1.0+1-2.efi"],
            &["foo_1.0+0-3.efi"],
        ],
        true,
    );
    assert!(out.passed(), "{}", out.message());
    assert!(out.failure.is_none());
    assert_eq!(
        out.records[0].counters,
        Some(TryCounters { tries_left: 3, tries_done: 0 })
    );
    assert_eq!(
        out.records[3].counters,
        Some(TryCounters { tries_left: 0, tries_done: 3 })
    );
    assert_eq!(out.message(), "4 boot(s) passed");
}

#[test]
fn sequence_mismatch_fails() {
    let mut test = sample_test(Accel::Kvm, true);
    test.runs = 2;
    test.expect_counters = parse_expect_counters("3-0,2-1").unwrap();
    let (out, _) = run_sequence(&test, &[&["foo+3-0.efi"], &["foo+3-0.efi"]], true);
    assert!(!out.passed());
    assert_eq!(out.message(), "boot 2: ESP held +3-0 before the boot, expected +2-1");
    match out.failure {
        Some(SequenceFailure::CountersMismatch { index, .. }) => assert_eq!(index, 2),
        other => panic!("expected mismatch, got {other:?}"),
    }
}

#[test]
fn sequence_stuck_counters_fail_even_when_expected() {
    let mut test = sample_test(Accel::Kvm, true);
    test.runs = 2;
    test.expect_counters = parse_expect_counters("3-0,3-0").unwrap();
    let (out, _) = run_sequence(&test, &[&["foo+3-0.efi"], &["foo+3-0.efi"]], true);
    assert!(!out.passed());
    assert_eq!(out.failure, Some(SequenceFailure::Stuck { index: 2 }));
}

#[test]
fn sequence_missing_counted_uki_fails() {
    let mut test = sample_test(Accel::Kvm, true);
    test.runs = 2;
    test.expect_counters = parse_expect_counters("3-0,2-1").unwrap();
    let (out, _) = run_sequence(&test, &[&["foo.efi"], &["foo.efi"]], true);
    assert!(!out.passed());
    assert_eq!(out.failure, Some(SequenceFailure::NoCountedUki));
}

#[test]
fn sequence_esp_unavailable_hard_when_counting_expected() {
    let mut test = sample_test(Accel::Kvm, true);
    test.runs = 2;
    test.expect_counters = parse_expect_counters("3-0").unwrap();
    let (out, _) = run_sequence(&test, &[], false);
    assert!(!out.passed());
    assert!(matches!(out.failure, Some(SequenceFailure::EspUnavailable(_))));
}

#[test]
fn sequence_esp_unavailable_soft_for_plain_single_boot() {
    let test = sample_test(Accel::Kvm, true);
    let (out, _) = run_sequence(&test, &[], false);
    assert!(out.passed(), "{}", out.message());
    assert_eq!(out.records.len(), 1);
    assert_eq!(out.run_root, None);
    assert_eq!(out.records[0].esp_listing, "/tmp/t/serial.log.esp.txt");
}

#[test]
fn parse_expect_counters_accepts_dash_and_bare() {
    let pinned = |tries_left, tries_done| ExpectedCounters { tries_left, tries_done };
    assert_eq!(
        parse_expect_counters("3-0,2-1").unwrap(),
        vec![pinned(3, Some(0)), pinned(2, Some(1))]
    );
    assert_eq!(
        parse_expect_counters("3,2,1,0").unwrap(),
        vec![pinned(3, None), pinned(2, None), pinned(1, None), pinned(0, None)]
    );
    assert!(parse_expect_counters("x").is_err());
    assert_eq!(
        parse_expect_counters("3-0, 2-y").unwrap_err(),
        "invalid --expect-counter-seq entry '2-y': 'y' is not a number"
    );
    assert!(parse_expect_counters(" , ,").unwrap().is_empty());
    assert!(parse_expect_counters("4294967296").is_err());
}

#[test]
fn dir_listing_parses_mdir_output() {
    assert_eq!(
        parse_dir_listing("ubuntu-core-pc_22.04.efi\nfoo+3-0.efi\n"),
        vec!["ubuntu-core-pc_22.04.efi".to_string(), "foo+3-0.efi".to_string()]
    );
}

#[test]
fn counters_are_read_from_entry_names() {
    assert_eq!(
        parse_uki_name("foo_1.0+3-0.efi"),
        Some(TryCounters { tries_left: 3, tries_done: 0 })
    );
    assert_eq!(parse_uki_name("foo_1.0.efi"), None);
    assert_eq!(parse_uki_name("foo+3.efi"), None);
    assert_eq!(parse_uki_name("foo+a-0.efi"), None);
    assert_eq!(parse_uki_name("foo+3-0.conf"), None);
    let entries = vec!["a.efi".to_string(), "b+1-2.efi".to_string(), "c+9-9.efi".to_string()];
    let (name, c) = first_counted_uki(&entries).unwrap();
    assert_eq!((name.as_str(), c.tries_left, c.tries_done), ("b+1-2.efi", 1, 2));
}

#[test]
fn listings_have_a_line_for_each_entry() {
    assert_eq!(listing_text(&Vec::new()), "");
    assert_eq!(listing_text(&vec!["a".to_string(), "b".to_string()]), "a\nb\n");
}

#[test]
fn sequences_stop_where_the_boot_partition_cannot_be_read() {
    let mut seq = Sequence::new(3, parse_expect_counters("3").unwrap());
    assert_eq!(seq.next(), Some(1));
    assert!(seq.look(Err("mdir failed".to_string())).is_empty());
    let (outcome, _) = run_boot(&sample_test(Accel::Tcg, false), vec![script(124, "", PASS_LOG)]);
    seq.record("l".to_string(), "e".to_string(), outcome);
    assert_eq!(seq.next(), None);
    let out = seq.finish(None, "img".to_string());
    assert_eq!(out.records.len(), 1);
    assert!(out.records[0].counters.is_none() && out.records[0].uki.is_none());
    assert_eq!(out.failure, Some(SequenceFailure::EspUnavailable("mdir failed".to_string())));
    assert_eq!(out.message(), "cannot inspect the ESP for try-boot counters: mdir failed");
}

#[test]
fn sequence_failures_have_labels_and_messages() {
    let cases = [
        (
            SequenceFailure::NoCountedUki,
            "no-counted-uki",
            "expected a try-boot counter sequence but no UKI on the ESP carries a '+N-M' counter",
        ),
        (
            SequenceFailure::CountersMismatch {
                index: 1,
                expected: ExpectedCounters { tries_left: 2, tries_done: None },
                observed: TryCounters { tries_left: 3, tries_done: 4 },
            },
            "counters-mismatch",
            "boot 1: ESP held +3-4 before the boot, expected +2",
        ),
        (
            SequenceFailure::Stuck { index: 5 },
            "counters-stuck",
            "boot 5: try-boot counters did not change from the previous boot — counting never engaged",
        ),
        (
            SequenceFailure::EspUnavailable("x".to_string()),
            "esp-unavailable",
            "cannot inspect the ESP for try-boot counters: x",
        ),
    ];
    for (failure, label, message) in cases {
        assert_eq!(failure.label(), label);
        assert_eq!(failure.message(), message);
    }
}

#[test]
fn sequence_reports_list_every_boot() {
    let mut test = sample_test(Accel::Kvm, true);
    test.runs = 2;
    test.expect_counters = parse_expect_counters("1-0,1-0").unwrap();
    let (out, _) = run_sequence(&test, &[&["x+1-0.efi"], &["x+1-0.efi"]], true);
    let report = out.report();
    assert_eq!(report.text_at("failure").map(String::as_str), Some("counters-stuck"));
    assert_eq!(report.text_at("image").map(String::as_str), Some("/tmp/t/serial.log.d/img"));
    let boots = report.items_at("boots").unwrap();
    assert_eq!(boots.len(), 2);
    let first = boots[0].to_text();
    assert!(
        first.starts_with("{\"counters\":{\"tries_done\":0,\"tries_left\":1},\"esp_entries\":[\"x+1-0.efi\"],"),
        "{first}"
    );
    assert!(first.ends_with("\"passed\":true,\"uki\":\"x+1-0.efi\"}"), "{first}");
}

#[test]
fn kvm_failures_are_told_from_other_failures() {
    assert!(is_kvm_failure(1, "Could not access KVM kernel module", ""));
    assert!(is_kvm_failure(1, "", "kvm: no"));
    assert!(!is_kvm_failure(124, "kvm", ""));
    assert!(!is_kvm_failure(0, "kvm", ""));
    assert!(!is_kvm_failure(1, "no such file", ""));
}

#[test]
fn verdicts_before_userspace_go_by_how_the_machine_ended() {
    let ev = analyze_log(TRUNCATED_LOG);
    let none = Vec::new();
    assert_eq!(classify(TRUNCATED_LOG, &ev, 124, "", &none, false), Some(Failure::Timeout));
    assert_eq!(classify(TRUNCATED_LOG, &ev, 0, "", &none, false), Some(Failure::NoUserspace));
    assert!(matches!(
        classify(TRUNCATED_LOG, &ev, 2, "boom", &none, false),
        Some(Failure::Qemu { code: 2, .. })
    ));
}

#[test]
fn missing_host_tools_are_named() {
    let files = vec!["/opt/bin/qemu-system-x86_64".to_string(), "/bin/timeout".to_string()];
    assert_eq!(resolve_qemu("/bin:/opt/bin", &files).unwrap(), "/opt/bin/qemu-system-x86_64");
    assert_eq!(resolve_timeout("/bin:/opt/bin", &files).unwrap(), "/bin/timeout");
    assert!(resolve_qemu("/bin", &files).unwrap_err().contains("install QEMU"));
    assert!(resolve_timeout("/opt/bin", &files).unwrap_err().contains("install coreutils"));
}

#[test]
fn sequences_number_their_boots() {
    let mut seq = Sequence::new(2, parse_expect_counters("3-0,2-1").unwrap());
    for (i, name) in ["u+3-0.efi", "u+2-1.efi"].iter().enumerate() {
        assert_eq!(seq.next(), Some(i as u32 + 1));
        assert_eq!(seq.look(Ok(vec![name.to_string()])), [name.to_string()]);
        let (outcome, _) = run_boot(&sample_test(Accel::Tcg, false), vec![script(124, "", PASS_LOG)]);
        seq.record(format!("l{i}"), format!("e{i}"), outcome);
    }
    assert_eq!(seq.next(), None);
    let out = seq.finish(None, "img".to_string());
    assert_eq!(out.failure, None);
    let seen: Vec<_> = out
        .records
        .iter()
        .map(|r| (r.index, r.log.as_str(), r.esp_listing.as_str(), r.counters.unwrap().tries_left))
        .collect();
    assert_eq!(seen, [(1, "l0", "e0", 3), (2, "l1", "e1", 2)]);
    assert!(Sequence::new(0, Vec::new()).next().is_none());
}
