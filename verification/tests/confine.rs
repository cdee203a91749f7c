use shuttle::confine::{
    apply_backend_options, bind_filesystem_grants, bwrap_args, command_dirs, command_program,
    effective_confinement, exec_target, overlay_declared_vars, overlay_pod_env, plan_app,
    probed_paths, profile_name, push_flagged, render_apparmor_profile, resolve_app, resolve_command_in,
    resolve_target, BackendKind, Confinement, HostFacts, InstalledPackage, RunPlan, RunTarget,
};
use shuttle::json_doc::Json;
use shuttle::ordered::Ordered;

fn strings(v: &[&str]) -> Vec<String> {
    v.iter().map(|s| s.to_string()).collect()
}

fn map(v: &[(&str, &str)]) -> Ordered<String> {
    let mut m = Ordered::new();
    for (k, x) in v {
        m.insert(k.to_string(), x.to_string());
    }
    m
}

fn env_of<'a>(env: &'a Ordered<String>, key: &str) -> Option<&'a str> {
    env.get(key).map(String::as_str)
}

fn sample_confinement() -> Confinement {
    Confinement {
        backend: BackendKind::Bwrap,
        filesystem: strings(&["ro:/usr", "rw:/lib", "read"]),
        network: false,
        sockets: strings(&["wayland", "x11"]),
        devices: strings(&["/dev/dri", "/dev/input"]),
        backend_options: Ordered::new(),
    }
}

fn host() -> HostFacts {
    HostFacts {
        pod_dir: "/pods/work".to_string(),
        pod_present: true,
        bwrap: Some("/usr/bin/bwrap".to_string()),
        userns: true,
        aa_exec: Some("/usr/bin/aa-exec".to_string()),
        roots: strings(&["/usr", "/lib", "/gone"]),
        present: strings(&["/usr", "/lib", "/dev/dri"]),
    }
}

fn package(app: &str, hash: &str) -> InstalledPackage {
    InstalledPackage {
        apps: map(&[(app, hash)]),
        assembly: Ordered::new(),
        confined: None,
        app_confined: Ordered::new(),
    }
}

#[test]
fn backend_options_are_the_nonportable_escape_hatch() {
    let mut c = sample_confinement();
    c.backend_options.insert("die-with-parent".into(), Json::Text("true".into()));
    c.backend_options.insert("level".into(), Json::Number("3".into()));
    let mut args = Vec::new();
    apply_backend_options(&mut args, &c.backend_options);
    assert_eq!(args, ["--die-with-parent=true"]);
}

#[test]
fn bwrap_args_honor_the_shared_grants_vocabulary() {
    let c = sample_confinement();
    let joined = bwrap_args(&c, &host()).join(" ");
    assert!(joined.contains("--unshare-net"));
    assert!(joined.contains("--ro-bind /usr /usr"), "got: {joined}");
    assert!(joined.contains("--bind /lib /lib"), "got: {joined}");
    assert!(joined.contains("--ro-bind /usr /usr"));
    assert!(joined.contains("--socket wayland"));
    assert!(joined.contains("--socket x11"));
    assert!(joined.contains("--device /dev/dri"));
    assert_eq!(
        joined,
        "--unshare-user --unshare-pid --unshare-ipc --unshare-net --proc /proc --dev /dev \
         --tmpfs /tmp --ro-bind /pods/work /pods/work --ro-bind /usr /usr --ro-bind /lib /lib \
         --ro-bind /usr /usr --bind /lib /lib --ro-bind /usr /usr --ro-bind /lib /lib \
         --socket wayland --socket x11 --device /dev/dri --device /dev/input"
    );
}

#[test]
fn apparmor_profile_honors_the_shared_grants_vocabulary() {
    let mut c = sample_confinement();
    c.network = true;
    let profile = render_apparmor_profile("work", "myapp", &c);
    assert!(profile.contains("profile shuttle-work-myapp"));
    assert!(profile.contains("/usr r,"));
    assert!(profile.contains("/lib rw,"));
    assert!(profile.contains("network,"));
    assert!(profile.contains("/run/user/*/wayland rw,"));
    assert!(profile.contains("/dev/dri rw,"));
    assert!(profile.contains("/dev/input rw,"));
    assert!(profile.contains("  /** r,\n"));
}

#[test]
fn apparmor_profiles_are_exact() {
    let c = Confinement {
        backend: BackendKind::Apparmor,
        filesystem: strings(&["write"]),
        network: false,
        sockets: strings(&["x"]),
        devices: Vec::new(),
        backend_options: Ordered::new(),
    };
    assert_eq!(
        render_apparmor_profile("p", "a", &c),
        "#include <tunables/global>\n## SHUTTLE profile for 'a'\nprofile shuttle-p-a \
         flags=(attach_disconnected,mediate_deleted) {\n  #include <abstractions/base>\n  /** rw,\n  \
         /run/user/*/x rw,\n  /tmp/.X11-unix/x rw,\n  ## seccomp: confined profiles restrict \
         syscalls via the profile.\n}\n"
    );
}

#[test]
fn profile_name_is_deterministic_and_namespaced() {
    assert_eq!(profile_name("default", "app"), "shuttle-default-app");
    assert_eq!(profile_name("work", "gui"), "shuttle-work-gui");
}

#[test]
fn exec_target_prefers_the_assembly_leaf_for_multifile_apps() {
    let root = "/pod/generations/3/assembly";
    let mut pkg = package("gcm", "aa11");
    pkg.assembly.insert("gcm".to_string(), "usr/bin/gcm".to_string());
    let target = exec_target(root, "git-credential-manager", &pkg, "gcm", "/pod/store/aa/aa11");
    assert_eq!(target, "/pod/generations/3/assembly/git-credential-manager/usr/bin/gcm");
    pkg.assembly = Ordered::new();
    let target = exec_target(root, "git-credential-manager", &pkg, "gcm", "/pod/store/aa/aa11");
    assert_eq!(target, "/pod/store/aa/aa11");
}

#[test]
fn resolve_command_prefers_the_farm_over_path() {
    let dirs = strings(&["/t/farm", "/t/onpath"]);
    let files = strings(&["/t/onpath/tool", "/t/farm/tool"]);
    assert_eq!(resolve_command_in("tool", &dirs, &files).unwrap(), "/t/farm/tool");
}

#[test]
fn resolve_command_falls_through_to_path() {
    let dirs = strings(&["/t/farm", "/t/onpath"]);
    let files = strings(&["/t/onpath/tool"]);
    assert_eq!(resolve_command_in("tool", &dirs, &files).unwrap(), "/t/onpath/tool");
}

#[test]
fn resolve_command_passes_explicit_paths_through_verbatim() {
    let entries = strings(&["/nonexistent-farm"]);
    assert_eq!(
        resolve_command_in("./scripts/deploy.sh", &entries, &Vec::new()).unwrap(),
        "./scripts/deploy.sh"
    );
    assert_eq!(
        resolve_command_in("/usr/bin/env", &entries, &Vec::new()).unwrap(),
        "/usr/bin/env"
    );
}

#[test]
fn resolve_command_miss_names_the_command_and_path() {
    let entries = strings(&["/t/farm", "/t/onpath"]);
    let err = resolve_command_in("nosuchcmd", &entries, &Vec::new()).unwrap_err();
    assert!(
        err.contains("nosuchcmd") && err.contains("PATH"),
        "error must name the command and the fix surface: {err}"
    );
    assert!(err.contains("/t/farm"), "error must name the farm searched: {err}");
}

#[test]
fn overlay_pod_env_is_farm_first_and_never_touches_the_loader_path() {
    let mut env = Ordered::new();
    overlay_pod_env(&mut env, "/t/current", Some("/usr/bin:/bin"), &Ordered::new());
    assert_eq!(
        env_of(&env, "PATH").unwrap(),
        "/t/current:/usr/bin:/bin",
        "farm must precede the caller's PATH"
    );
    assert!(
        env_of(&env, "LD_LIBRARY_PATH").is_none(),
        "the pod must never export loader libs into a child (issue #110)"
    );
}

#[test]
fn overlay_pod_env_exports_the_farm_alone_for_unset_or_empty_path() {
    for existing in [None, Some("")] {
        let mut env = Ordered::new();
        overlay_pod_env(&mut env, "/t/current", existing, &Ordered::new());
        assert_eq!(
            env_of(&env, "PATH").unwrap(),
            "/t/current",
            "unset/empty caller PATH must export just the farm (input: {existing:?})"
        );
    }
}

#[test]
fn overlay_pod_env_does_not_wipe_an_inherited_loader_path() {
    let mut env = map(&[("LD_LIBRARY_PATH", "/opt/legacy")]);
    overlay_pod_env(&mut env, "/t/current", Some("/bin"), &Ordered::new());
    assert_eq!(
        env_of(&env, "LD_LIBRARY_PATH").unwrap(),
        "/opt/legacy",
        "an inherited LD_LIBRARY_PATH passes through untouched"
    );
}

#[test]
fn overlay_pod_env_declared_vars_replace_inherited_values() {
    let vars = map(&[("EDITOR", "vi"), ("MODE", "pod")]);
    let mut env = map(&[("MODE", "inherited"), ("HOME", "/home/user")]);
    overlay_pod_env(&mut env, "/t/current", Some("/bin"), &vars);
    assert_eq!(
        env_of(&env, "EDITOR").unwrap(),
        "vi",
        "a declared var is set even when the caller has none"
    );
    assert_eq!(
        env_of(&env, "MODE").unwrap(),
        "pod",
        "a declared var replaces the inherited value (devbox env: semantics)"
    );
    assert_eq!(
        env_of(&env, "HOME").unwrap(),
        "/home/user",
        "undeclared vars pass through untouched"
    );
}

#[test]
fn overlay_declared_vars_replaces_inherited_and_passes_the_rest() {
    let vars = map(&[("EDITOR", "vi")]);
    let mut env = map(&[("EDITOR", "inherited"), ("HOME", "/home/user")]);
    overlay_declared_vars(&mut env, &vars);
    assert_eq!(env_of(&env, "EDITOR").unwrap(), "vi");
    assert_eq!(env_of(&env, "HOME").unwrap(), "/home/user");
}

#[test]
fn overlay_pod_env_declared_path_and_odd_farms() {
    let mut env = Ordered::new();
    overlay_pod_env(&mut env, "/farm", Some("/bin"), &map(&[("PATH", "/only")]));
    assert_eq!(env_of(&env, "PATH").unwrap(), "/only");
    let mut env = Ordered::new();
    overlay_pod_env(&mut env, "/fa:rm", Some("/bin"), &Ordered::new());
    assert_eq!(env_of(&env, "PATH").unwrap(), "/fa:rm");
}

#[test]
fn run_falls_through_to_the_command_form_for_undeclared_apps() {
    let missing = "shuttle-102-definitely-missing-zz7f3a9b";
    let packages = Ordered::new();
    let command = match resolve_target("default", missing, &Vec::new(), Some(&packages)) {
        Ok(RunTarget::Command(v)) => v,
        other => panic!("expected the command form, got {other:?}"),
    };
    let dirs = command_dirs("/pods/default/current", Some("/usr/bin:/bin"));
    let err = command_program(&command, &dirs, &Vec::new()).unwrap_err();
    assert!(
        err.contains(missing) && err.contains("PATH"),
        "expected the command-form resolution miss: {err}"
    );
    assert!(
        !err.contains("not provided by any package"),
        "the old declared-app error must be gone: {err}"
    );
}

#[test]
fn run_refuses_a_pod_without_an_active_generation() {
    let err = resolve_target("empty-pod", "app", &Vec::new(), None).unwrap_err();
    assert!(err.contains("no active generation"), "{err}");
}

#[test]
fn run_command_rejects_an_empty_command_vector() {
    let err = command_program(&Vec::new(), &strings(&["/farm"]), &Vec::new()).unwrap_err();
    assert!(err.contains("empty command"), "{err}");
}

#[test]
fn overlay_pod_env_prepends_the_farm_to_the_caller_path() {
    let mut env = Ordered::new();
    overlay_pod_env(&mut env, "/t/farm", Some("/usr/local/bin:/usr/bin"), &Ordered::new());
    let path = env_of(&env, "PATH").unwrap();
    assert!(path.starts_with("/t/farm"), "farm must lead the exported PATH: {path}");
}

#[test]
fn write_grant_binds_the_standard_roots_read_write() {
    let grants = strings(&["write", "/t/plain", "ro:/t/hidden"]);
    let roots = strings(&["/usr", "/lib"]);
    let present = strings(&["/usr", "/t/plain"]);
    let mut args = Vec::new();
    bind_filesystem_grants(&mut args, &grants, &roots, &present);
    let joined = args.join(" ");
    assert!(
        joined.contains("--bind /usr /usr"),
        "write opens the standard roots rw: {joined}"
    );
    assert!(
        joined.contains("--bind /t/plain /t/plain"),
        "a bare path defaults read-write: {joined}"
    );
    assert!(
        !joined.contains("hidden"),
        "a ro: grant at a missing host path binds nothing: {joined}"
    );
}

#[test]
fn apparmor_profile_renders_a_bare_path_grant_read_write() {
    let mut c = sample_confinement();
    c.filesystem = strings(&["/srv/data"]);
    let profile = render_apparmor_profile("work", "myapp", &c);
    assert!(profile.contains("/srv/data rw,"), "{profile}");
}

#[test]
fn apps_are_found_in_the_first_package_that_has_them() {
    let mut packages = Ordered::new();
    packages.insert("zed".to_string(), package("tool", "z"));
    packages.insert("abc".to_string(), package("tool", "a"));
    assert_eq!(resolve_app(&packages, "tool"), Some(0));
    assert_eq!(packages.key_at(0), "abc");
    assert_eq!(resolve_app(&packages, "none"), None);
    assert!(matches!(
        resolve_target("p", "tool", &Vec::new(), Some(&packages)),
        Ok(RunTarget::App(0))
    ));
}

#[test]
fn an_app_of_its_own_confinement_replaces_the_package_one() {
    let mut pkg = package("tool", "h");
    assert!(effective_confinement(&pkg, "tool").is_none());
    let mut c = sample_confinement();
    c.network = true;
    pkg.confined = Some(c);
    pkg.app_confined.insert("tool".to_string(), sample_confinement());
    assert!(!effective_confinement(&pkg, "tool").unwrap().network);
    assert!(effective_confinement(&pkg, "other").unwrap().network);
}

#[test]
fn confined_apps_run_in_their_sandbox_or_not_at_all() {
    let mut c = sample_confinement();
    c.filesystem = Vec::new();
    c.sockets = Vec::new();
    c.devices = Vec::new();
    let args = strings(&["--unshare-none", "x"]);
    let plan = |c: &Confinement, present: bool, host: &HostFacts| {
        plan_app("pod", "tool", "pkg", Some(c), "/bin/tool", present, Some("/w"), &args, host)
    };
    match plan(&c, true, &host()) {
        Ok(RunPlan::Sandboxed(argv)) => {
            assert_eq!(argv[0], "/usr/bin/bwrap");
            let at = argv.iter().position(|a| a == "--").unwrap();
            assert_eq!(argv[at + 1..], ["/bin/tool", "--unshare-none", "x"]);
        }
        other => panic!("expected a sandbox, got {other:?}"),
    }
    let mut bare = host();
    bare.userns = false;
    assert!(plan(&c, true, &bare).unwrap_err().contains("user namespaces are disabled"));
    bare.bwrap = None;
    assert!(plan(&c, true, &bare).unwrap_err().contains("bubblewrap is not available"));
    assert_eq!(
        plan(&c, false, &host()).unwrap_err(),
        "confined app 'tool' (package 'pkg'): command binary /bin/tool is missing from the content store"
    );
    c.backend = BackendKind::Apparmor;
    match plan(&c, true, &host()) {
        Ok(RunPlan::Sandboxed(argv)) => assert_eq!(
            argv,
            ["/usr/bin/aa-exec", "--profile", "shuttle-pod-tool", "--", "/bin/tool", "--unshare-none", "x"]
        ),
        other => panic!("expected a profile, got {other:?}"),
    }
    bare.aa_exec = None;
    assert!(plan(&c, true, &bare).unwrap_err().contains("`aa-exec` is not installed"));
}

#[test]
fn unconfined_apps_run_their_wrapper_where_they_have_one() {
    let args = strings(&["a"]);
    let run = |wrapper: Option<&str>| {
        match plan_app("p", "t", "k", None, "/bin/t", false, wrapper, &args, &host()) {
            Ok(RunPlan::Direct(argv)) => argv,
            other => panic!("expected a direct run, got {other:?}"),
        }
    };
    assert_eq!(run(Some("/w/t")), ["/w/t", "a"]);
    assert_eq!(run(None), ["/bin/t", "a"]);
}

#[test]
fn flags_stand_before_each_name() {
    let mut out = strings(&["x"]);
    push_flagged(&mut out, "--f", &strings(&["a", "b"]));
    assert_eq!(out, ["x", "--f", "a", "--f", "b"]);
    assert_eq!(command_dirs("/farm", None), ["/farm"]);
    assert_eq!(command_dirs("/farm", Some("/a:/b")), ["/farm", "/a", "/b"]);
}

#[test]
fn grants_say_which_paths_to_look_for() {
    let paths = probed_paths(&strings(&["/usr"]), &strings(&["ro:/a", "rw:/b", "/c", "read"]));
    assert_eq!(paths, ["/usr", "/a", "/b", "/c", "read"]);
}
