//! Running an app of a pod: confined to its grants, or as any command in the
//! pod's environment.
//!
//! A confined app never runs unconfined: where its backend is not available it
//! does not run at all. Both backends read the same grants.

use crate::boot_test::{first_among, first_existing};
use crate::json_doc::{Json, JsonView};
use crate::ordered::{lookup, Ordered};
use crate::text::{
    law_cut_at_the_first, law_ends_are_taken_off, law_parts_stand_between_separators,
    lemma_find_from, lemma_holds_part, occurs_at,
    after_prefix, contains, holds, join_path, lemma_texts_push, list_contains, opt_str, parts,
    path_in, split_char, str_eq, strip_prefix, texts,
};
use vstd::prelude::*;

verus! {

/// What enforces a confinement.
#[derive(Debug, Clone, Copy, PartialEq, Eq, Structural)]
pub enum BackendKind {
    Bwrap,
    Apparmor,
}

/// What a confined app is granted.
#[derive(Debug)]
pub struct Confinement {
    pub backend: BackendKind,
    /// `read`, `write`, or a path with an optional `ro:` or `rw:`.
    pub filesystem: Vec<String>,
    pub network: bool,
    pub sockets: Vec<String>,
    pub devices: Vec<String>,
    /// Options of one backend, lost where the backend changes.
    pub backend_options: Ordered<Json>,
}

/// An installed package, as far as running its apps goes.
#[derive(Debug)]
pub struct InstalledPackage {
    /// The command binary of each app, by its hash.
    pub apps: Ordered<String>,
    /// The assembled binary of each app that has siblings, as a path.
    pub assembly: Ordered<String>,
    pub confined: Option<Confinement>,
    /// What replaces it for single apps.
    pub app_confined: Ordered<Confinement>,
}

// ── Which binary runs ──

/// The first package, in the order of names, that provides an app.
pub open spec fn provider(
    packages: Seq<(Seq<char>, InstalledPackage)>,
    app: Seq<char>,
) -> Option<int> {
    provider_from(packages, app, 0)
}

/// The first package from `i` on that provides an app.
pub open spec fn provider_from(
    packages: Seq<(Seq<char>, InstalledPackage)>,
    app: Seq<char>,
    i: int,
) -> Option<int>
    decreases packages.len() - i,
{
    if i < 0 || i >= packages.len() {
        None
    } else if lookup(packages[i].1.apps@, app) is Some {
        Some(i)
    } else {
        provider_from(packages, app, i + 1)
    }
}

/// Finds the package that provides an app: its place among the packages.
pub fn resolve_app(packages: &Ordered<InstalledPackage>, app: &str) -> (r: Option<usize>)
    ensures
        match r {
            Some(i) => provider(packages@, app@) == Some(i as int) && i < packages@.len()
                && lookup(packages@[i as int].1.apps@, app@) is Some,
            None => provider(packages@, app@) is None,
        },
{
    let mut i: usize = 0;
    while i < packages.len()
        invariant
            i <= packages@.len(),
            provider(packages@, app@) == provider_from(packages@, app@, i as int),
        decreases packages@.len() - i,
    {
        if packages.value_at(i).apps.get(app).is_some() {
            return Some(i);
        }
        i += 1;
    }
    None
}

/// The binary of an app: the assembled one where the package records it, else
/// the blob.
pub open spec fn binary_of(
    assembly: Option<Seq<char>>,
    assembly_root: Seq<char>,
    pkg_name: Seq<char>,
    blob: Seq<char>,
) -> Seq<char> {
    match assembly {
        Some(b) => path_in(path_in(assembly_root, pkg_name), b),
        None => blob,
    }
}

/// The text for a key.
pub open spec fn text_for(m: Seq<(Seq<char>, String)>, key: Seq<char>) -> Option<Seq<char>> {
    match lookup(m, key) {
        Some(v) => Some(v@),
        None => None,
    }
}

/// The binary of an app: an app with siblings runs from the directory that has
/// them.
pub fn exec_target(
    assembly_root: &str,
    pkg_name: &str,
    pkg: &InstalledPackage,
    app: &str,
    blob: &str,
) -> (r: String)
    ensures
        r@ == binary_of(text_for(pkg.assembly@, app@), assembly_root@, pkg_name@, blob@),
{
    match pkg.assembly.get(app) {
        Some(b) => join_path(join_path(assembly_root, pkg_name).as_str(), b.as_str()),
        None => blob.to_owned(),
    }
}

/// What confines an app: what the app itself has, else what its package has.
pub open spec fn confinement_of(pkg: InstalledPackage, app: Seq<char>) -> Option<Confinement> {
    match lookup(pkg.app_confined@, app) {
        Some(c) => Some(c),
        None => pkg.confined,
    }
}

/// What confines an app.
pub fn effective_confinement<'a>(pkg: &'a InstalledPackage, app: &str) -> (r: Option<
    &'a Confinement,
>)
    ensures
        match r {
            Some(c) => confinement_of(*pkg, app@) == Some(*c),
            None => confinement_of(*pkg, app@) is None,
        },
{
    match pkg.app_confined.get(app) {
        Some(c) => Some(c),
        None => match &pkg.confined {
            Some(c) => Some(c),
            None => None,
        },
    }
}

// ── Grants ──

/// How a grant opens a path.
pub enum Grant {
    /// The usual roots, for reading or for writing.
    Roots(bool),
    /// A path, and whether it is for reading only.
    Path(bool, Seq<char>),
}

/// What a file system grant says. A path without a prefix is for writing.
pub open spec fn grant_of(grant: Seq<char>) -> Grant {
    if grant == "read"@ {
        Grant::Roots(true)
    } else if grant == "write"@ {
        Grant::Roots(false)
    } else {
        match after_prefix(grant, "ro:"@) {
            Some(p) => Grant::Path(true, p),
            None => match after_prefix(grant, "rw:"@) {
                Some(p) => Grant::Path(false, p),
                None => Grant::Path(false, grant),
            },
        }
    }
}

fn read_path_grant(grant: &str) -> (r: (bool, String))
    requires
        grant@ != "read"@,
        grant@ != "write"@,
    ensures
        grant_of(grant@) == Grant::Path(r.0, r.1@),
{
    match strip_prefix(grant, "ro:") {
        Some(p) => (true, p),
        None => match strip_prefix(grant, "rw:") {
            Some(p) => (false, p),
            None => (false, grant.to_owned()),
        },
    }
}

/// The path that a file system grant names; of one for the usual roots its own
/// text.
pub open spec fn granted_path(grant: Seq<char>) -> Seq<char> {
    match grant_of(grant) {
        Grant::Roots(_) => grant,
        Grant::Path(_, p) => p,
    }
}

/// The paths of which a sandbox asks whether they are present: the usual roots,
/// and what the file system grants name.
pub fn probed_paths(roots: &Vec<String>, filesystem: &Vec<String>) -> (r: Vec<String>)
    ensures
        texts(r@) == texts(roots@) + texts(filesystem@).map_values(
            |g: Seq<char>| granted_path(g),
        ),
{
    broadcast use lemma_texts_push;

    let ghost all = texts(filesystem@).map_values(|g: Seq<char>| granted_path(g));
    let mut out: Vec<String> = Vec::new();
    let mut i: usize = 0;
    assert(texts(out@) =~= texts(roots@).take(0));
    while i < roots.len()
        invariant
            i <= roots@.len(),
            texts(out@) == texts(roots@).take(i as int),
        decreases roots@.len() - i,
    {
        assert(texts(roots@).take(i + 1) =~= texts(roots@).take(i as int).push(roots@[i as int]@));
        out.push(roots[i].clone());
        i += 1;
    }
    let mut k: usize = 0;
    assert(texts(roots@).take(i as int) + all.take(0) =~= texts(roots@));
    assert(texts(out@) == texts(roots@) + all.take(0));
    while k < filesystem.len()
        invariant
            k <= filesystem@.len(),
            all == texts(filesystem@).map_values(|g: Seq<char>| granted_path(g)),
            texts(out@) == texts(roots@) + all.take(k as int),
        decreases filesystem@.len() - k,
    {
        let ghost before = texts(out@);
        let grant = filesystem[k].as_str();
        let path = if str_eq(grant, "read") || str_eq(grant, "write") {
            grant.to_owned()
        } else {
            read_path_grant(grant).1
        };
        let ghost x = path@;
        assert(all[k as int] == x);
        assert(all.take(k + 1) =~= all.take(k as int).push(x));
        out.push(path);
        assert(texts(out@) == before.push(x));
        assert(before.push(x) =~= texts(roots@) + all.take(k + 1));
        k += 1;
    }
    assert(all.take(k as int) =~= all);
    out
}

/// The flag that binds a path.
pub open spec fn bind_flag(read_only: bool) -> Seq<char> {
    if read_only {
        "--ro-bind"@
    } else {
        "--bind"@
    }
}

/// The arguments that bind those of the roots that are present.
pub open spec fn bound_roots(
    roots: Seq<Seq<char>>,
    present: Seq<Seq<char>>,
    read_only: bool,
) -> Seq<Seq<char>>
    decreases roots.len(),
{
    if roots.len() == 0 {
        Seq::empty()
    } else {
        bound_roots(roots.drop_last(), present, read_only) + (if present.contains(roots.last()) {
            seq![bind_flag(read_only), roots.last(), roots.last()]
        } else {
            Seq::empty()
        })
    }
}

/// The arguments for one grant.
pub open spec fn grant_args(
    grant: Seq<char>,
    roots: Seq<Seq<char>>,
    present: Seq<Seq<char>>,
) -> Seq<Seq<char>> {
    match grant_of(grant) {
        Grant::Roots(ro) => bound_roots(roots, present, ro),
        Grant::Path(ro, p) => if present.contains(p) {
            seq![bind_flag(ro), p, p]
        } else {
            Seq::empty()
        },
    }
}

/// The arguments for the file system grants.
pub open spec fn filesystem_args(
    grants: Seq<Seq<char>>,
    roots: Seq<Seq<char>>,
    present: Seq<Seq<char>>,
) -> Seq<Seq<char>>
    decreases grants.len(),
{
    if grants.len() == 0 {
        Seq::empty()
    } else {
        filesystem_args(grants.drop_last(), roots, present) + grant_args(
            grants.last(),
            roots,
            present,
        )
    }
}

/// The arguments for named things: a flag and the name for each.
pub open spec fn flagged(flag: Seq<char>, names: Seq<Seq<char>>) -> Seq<Seq<char>>
    decreases names.len(),
{
    if names.len() == 0 {
        Seq::empty()
    } else {
        flagged(flag, names.drop_last()) + seq![flag, names.last()]
    }
}

/// The arguments for the options of the backend: those that are texts.
pub open spec fn option_args(options: Seq<(Seq<char>, Json)>) -> Seq<Seq<char>>
    decreases options.len(),
{
    if options.len() == 0 {
        Seq::empty()
    } else {
        option_args(options.drop_last()) + (match options.last().1@ {
            JsonView::Text(s) => seq!["--"@ + options.last().0 + "="@ + s],
            _ => Seq::empty(),
        })
    }
}

fn push3(out: &mut Vec<String>, flag: &str, path: &str)
    ensures
        texts(final(out)@) == texts(old(out)@) + seq![flag@, path@, path@],
{
    let ghost before = texts(out@);
    out.push(flag.to_owned());
    out.push(path.to_owned());
    out.push(path.to_owned());
    assert(texts(out@) =~= before + seq![flag@, path@, path@]);
}

fn flag_of(read_only: bool) -> (r: &'static str)
    ensures
        r@ == bind_flag(read_only),
{
    if read_only {
        "--ro-bind"
    } else {
        "--bind"
    }
}

/// Binds those of the roots that are present.
pub fn bind_roots(out: &mut Vec<String>, roots: &Vec<String>, present: &Vec<String>, read_only: bool)
    ensures
        texts(final(out)@) == texts(old(out)@) + bound_roots(
            texts(roots@),
            texts(present@),
            read_only,
        ),
{
    let ghost all = texts(roots@);
    let ghost there = texts(present@);
    let ghost head = texts(out@);
    let mut i: usize = 0;
    assert(head =~= head + bound_roots(all.take(0), there, read_only));
    while i < roots.len()
        invariant
            i <= roots@.len(),
            all == texts(roots@),
            there == texts(present@),
            texts(out@) == head + bound_roots(all.take(i as int), there, read_only),
        decreases roots@.len() - i,
    {
        proof {
            assert(all.take(i + 1).drop_last() =~= all.take(i as int));
            assert(all.take(i + 1).last() == roots@[i as int]@);
        }
        if list_contains(present, roots[i].as_str()) {
            push3(out, flag_of(read_only), roots[i].as_str());
        }
        assert(texts(out@) =~= head + bound_roots(all.take(i + 1), there, read_only));
        i += 1;
    }
    assert(all.take(i as int) =~= all);
}

/// Binds what the file system grants open, as far as it is present.
pub fn bind_filesystem_grants(
    out: &mut Vec<String>,
    grants: &Vec<String>,
    roots: &Vec<String>,
    present: &Vec<String>,
)
    ensures
        texts(final(out)@) == texts(old(out)@) + filesystem_args(
            texts(grants@),
            texts(roots@),
            texts(present@),
        ),
{
    let ghost all = texts(grants@);
    let ghost head = texts(out@);
    let mut i: usize = 0;
    assert(head =~= head + filesystem_args(all.take(0), texts(roots@), texts(present@)));
    while i < grants.len()
        invariant
            i <= grants@.len(),
            all == texts(grants@),
            texts(out@) == head + filesystem_args(
                all.take(i as int),
                texts(roots@),
                texts(present@),
            ),
        decreases grants@.len() - i,
    {
        proof {
            assert(all.take(i + 1).drop_last() =~= all.take(i as int));
            assert(all.take(i + 1).last() == grants@[i as int]@);
        }
        let ghost before = texts(out@);
        let grant = grants[i].as_str();
        if str_eq(grant, "read") {
            bind_roots(out, roots, present, true);
        } else if str_eq(grant, "write") {
            proof {
                reveal_strlit("read");
                reveal_strlit("write");
                assert("read"@.len() != "write"@.len());
            }
            bind_roots(out, roots, present, false);
        } else {
            let (ro, path) = read_path_grant(grant);
            if list_contains(present, path.as_str()) {
                push3(out, flag_of(ro), path.as_str());
            }
        }
        assert(texts(out@) =~= before + grant_args(
            all[i as int],
            texts(roots@),
            texts(present@),
        ));
        assert(texts(out@) =~= head + filesystem_args(
            all.take(i + 1),
            texts(roots@),
            texts(present@),
        ));
        i += 1;
    }
    assert(all.take(i as int) =~= all);
}

/// Adds a flag and a name for each name.
pub fn push_flagged(out: &mut Vec<String>, flag: &str, names: &Vec<String>)
    ensures
        texts(final(out)@) == texts(old(out)@) + flagged(flag@, texts(names@)),
{
    let ghost all = texts(names@);
    let ghost head = texts(out@);
    let mut i: usize = 0;
    assert(head =~= head + flagged(flag@, all.take(0)));
    while i < names.len()
        invariant
            i <= names@.len(),
            all == texts(names@),
            texts(out@) == head + flagged(flag@, all.take(i as int)),
        decreases names@.len() - i,
    {
        proof {
            assert(all.take(i + 1).drop_last() =~= all.take(i as int));
            assert(all.take(i + 1).last() == names@[i as int]@);
        }
        let ghost before = texts(out@);
        out.push(flag.to_owned());
        out.push(names[i].clone());
        assert(texts(out@) =~= before + seq![flag@, all[i as int]]);
        assert(texts(out@) =~= head + flagged(flag@, all.take(i + 1)));
        i += 1;
    }
    assert(all.take(i as int) =~= all);
}

/// Adds the options of the backend.
pub fn apply_backend_options(out: &mut Vec<String>, options: &Ordered<Json>)
    ensures
        texts(final(out)@) == texts(old(out)@) + option_args(options@),
{
    let ghost all = options@;
    let ghost head = texts(out@);
    let mut i: usize = 0;
    assert(head =~= head + option_args(all.take(0)));
    while i < options.len()
        invariant
            i <= options@.len(),
            all == options@,
            texts(out@) == head + option_args(all.take(i as int)),
        decreases options@.len() - i,
    {
        proof {
            assert(all.take(i + 1).drop_last() =~= all.take(i as int));
            assert(all.take(i + 1).last() == all[i as int]);
        }
        let ghost before = texts(out@);
        match options.value_at(i).as_text() {
            Some(s) => {
                let mut arg = "--".to_owned();
                arg.append(options.key_at(i).as_str());
                arg.append("=");
                arg.append(s.as_str());
                let ghost x = arg@;
                out.push(arg);
                assert(texts(out@) =~= before + seq![x]);
            },
            None => {},
        }
        assert(texts(out@) =~= head + option_args(all.take(i + 1)));
        i += 1;
    }
    assert(all.take(i as int) =~= all);
}

// ── The sandbox of bubblewrap ──

/// What this host has to run a confined app.
#[derive(Debug)]
pub struct HostFacts {
    pub pod_dir: String,
    /// Whether the pod's directory exists.
    pub pod_present: bool,
    pub bwrap: Option<String>,
    /// Whether user namespaces can be used without privilege.
    pub userns: bool,
    pub aa_exec: Option<String>,
    /// The usual read-only roots.
    pub roots: Vec<String>,
    /// Those paths of the roots and of the grants that exist.
    pub present: Vec<String>,
}

/// The arguments of the sandbox, before the app.
pub open spec fn sandbox_args(c: Confinement, host: HostFacts) -> Seq<Seq<char>> {
    seq!["--unshare-user"@, "--unshare-pid"@, "--unshare-ipc"@] + (if c.network {
        Seq::empty()
    } else {
        seq!["--unshare-net"@]
    }) + seq!["--proc"@, "/proc"@, "--dev"@, "/dev"@, "--tmpfs"@, "/tmp"@] + (
    if host.pod_present {
        seq!["--ro-bind"@, host.pod_dir@, host.pod_dir@]
    } else {
        Seq::empty()
    }) + bound_roots(texts(host.roots@), texts(host.present@), true) + filesystem_args(
        texts(c.filesystem@),
        texts(host.roots@),
        texts(host.present@),
    ) + flagged("--socket"@, texts(c.sockets@)) + flagged("--device"@, texts(c.devices@))
        + option_args(c.backend_options@)
}

/// The arguments of the sandbox, before the app.
pub fn bwrap_args(c: &Confinement, host: &HostFacts) -> (r: Vec<String>)
    ensures
        texts(r@) == sandbox_args(*c, *host),
{
    let mut out: Vec<String> = Vec::new();
    out.push("--unshare-user".to_owned());
    out.push("--unshare-pid".to_owned());
    out.push("--unshare-ipc".to_owned());
    let ghost first = seq!["--unshare-user"@, "--unshare-pid"@, "--unshare-ipc"@];
    assert(texts(out@) =~= first);
    let ghost net = if c.network {
        Seq::<Seq<char>>::empty()
    } else {
        seq!["--unshare-net"@]
    };
    if !c.network {
        out.push("--unshare-net".to_owned());
    }
    assert(texts(out@) =~= first + net);
    out.push("--proc".to_owned());
    out.push("/proc".to_owned());
    out.push("--dev".to_owned());
    out.push("/dev".to_owned());
    out.push("--tmpfs".to_owned());
    out.push("/tmp".to_owned());
    assert(texts(out@) =~= first + net + seq![
        "--proc"@,
        "/proc"@,
        "--dev"@,
        "/dev"@,
        "--tmpfs"@,
        "/tmp"@,
    ]);
    let ghost mid = texts(out@);
    if host.pod_present {
        push3(&mut out, "--ro-bind", host.pod_dir.as_str());
    } else {
        assert(mid + Seq::<Seq<char>>::empty() =~= mid);
    }
    bind_roots(&mut out, &host.roots, &host.present, true);
    bind_filesystem_grants(&mut out, &c.filesystem, &host.roots, &host.present);
    push_flagged(&mut out, "--socket", &c.sockets);
    push_flagged(&mut out, "--device", &c.devices);
    apply_backend_options(&mut out, &c.backend_options);
    out
}

/// An app without the network grant has its network cut off.
pub proof fn law_network_is_cut_off(c: Confinement, host: HostFacts)
    requires
        !c.network,
    ensures
        sandbox_args(c, host).contains("--unshare-net"@),
{
    let a = sandbox_args(c, host);
    assert(a[3] == "--unshare-net"@);
}

// ── Running an app ──

/// A tool, the arguments before the app, the app, and its own arguments.
pub open spec fn launch(
    tool: Seq<char>,
    before: Seq<Seq<char>>,
    bin: Seq<char>,
    args: Seq<Seq<char>>,
) -> Seq<Seq<char>> {
    seq![tool] + before + seq!["--"@, bin] + args
}

/// The profile of an app.
pub open spec fn profile_of(pod: Seq<char>, app: Seq<char>) -> Seq<char> {
    "shuttle-"@ + pod + "-"@ + app
}

/// The profile of an app in a pod.
pub fn profile_name(pod_name: &str, app: &str) -> (r: String)
    ensures
        r@ == profile_of(pod_name@, app@),
{
    let mut out = "shuttle-".to_owned();
    out.append(pod_name);
    out.append("-");
    out.append(app);
    out
}

/// How an app is run.
#[derive(Debug)]
pub enum RunPlan {
    /// Without a sandbox, in the pod's environment.
    Direct(Vec<String>),
    /// In a sandbox, with the declared variables.
    Sandboxed(Vec<String>),
}

/// The model of a [`RunPlan`].
pub enum RunView {
    Direct(Seq<Seq<char>>),
    Sandboxed(Seq<Seq<char>>),
}

impl View for RunPlan {
    type V = RunView;

    open spec fn view(&self) -> RunView {
        match *self {
            RunPlan::Direct(v) => RunView::Direct(texts(v@)),
            RunPlan::Sandboxed(v) => RunView::Sandboxed(texts(v@)),
        }
    }
}

/// How a confined app is run, or why it is not.
pub open spec fn confined_plan(
    pod: Seq<char>,
    app: Seq<char>,
    c: Confinement,
    bin: Seq<char>,
    args: Seq<Seq<char>>,
    host: HostFacts,
) -> Result<RunView, Seq<char>> {
    match c.backend {
        BackendKind::Bwrap => match host.bwrap {
            None => Err(
                "confined app '"@ + app
                    + "' uses the bwrap backend, but bubblewrap is not available on this host (no provisioned set and none on PATH) — refusing to run unconfined. Run `shuttle doctor --fix` to provision it, install bubblewrap (e.g. `apt install bubblewrap`), or override the package to unconfined via the pod declaration."@,
            ),
            Some(tool) => if !host.userns {
                Err(
                    "confined app '"@ + app
                        + "' uses the bwrap backend, but unprivileged user namespaces are disabled on this host — refusing to run unconfined. Enable unprivileged userns or override the package to unconfined via the pod declaration."@,
                )
            } else {
                Ok(RunView::Sandboxed(launch(tool@, sandbox_args(c, host), bin, args)))
            },
        },
        BackendKind::Apparmor => match host.aa_exec {
            None => Err(
                "confined app '"@ + app
                    + "' uses the apparmor backend, but `aa-exec` is not installed / AppArmor is not enforced on this host — refusing to run unconfined. Install AppArmor (`aa-exec`) or switch the package to the bwrap backend / unconfined via the pod declaration."@,
            ),
            Some(tool) => Ok(
                RunView::Sandboxed(
                    launch(tool@, seq!["--profile"@, profile_of(pod, app)], bin, args),
                ),
            ),
        },
    }
}

/// How an app is run, or why it is not. An app that nothing confines runs its
/// wrapper where it has one.
pub open spec fn app_plan(
    pod: Seq<char>,
    app: Seq<char>,
    pkg: Seq<char>,
    confined: Option<Confinement>,
    bin: Seq<char>,
    bin_present: bool,
    wrapper: Option<Seq<char>>,
    args: Seq<Seq<char>>,
    host: HostFacts,
) -> Result<RunView, Seq<char>> {
    match confined {
        None => Ok(
            RunView::Direct(
                seq![
                    match wrapper {
                        Some(w) => w,
                        None => bin,
                    },
                ] + args,
            ),
        ),
        Some(c) => if !bin_present {
            Err(
                "confined app '"@ + app + "' (package '"@ + pkg + "'): command binary "@ + bin
                    + " is missing from the content store"@,
            )
        } else {
            confined_plan(pod, app, c, bin, args, host)
        },
    }
}

fn extend_texts(out: &mut Vec<String>, more: &Vec<String>)
    ensures
        texts(final(out)@) == texts(old(out)@) + texts(more@),
{
    let ghost head = texts(out@);
    let ghost all = texts(more@);
    let mut i: usize = 0;
    assert(head =~= head + all.take(0));
    while i < more.len()
        invariant
            i <= more@.len(),
            all == texts(more@),
            texts(out@) == head + all.take(i as int),
        decreases more@.len() - i,
    {
        let ghost before = texts(out@);
        out.push(more[i].clone());
        assert(texts(out@) =~= before.push(all[i as int]));
        assert(head + all.take(i + 1) =~= before.push(all[i as int]));
        i += 1;
    }
    assert(all.take(i as int) =~= all);
}

fn launch_argv(tool: &str, before: Vec<String>, bin: &str, args: &Vec<String>) -> (r: Vec<String>)
    ensures
        texts(r@) == launch(tool@, texts(before@), bin@, texts(args@)),
{
    let mut out: Vec<String> = Vec::new();
    out.push(tool.to_owned());
    assert(texts(out@) =~= seq![tool@]);
    extend_texts(&mut out, &before);
    let ghost now = texts(out@);
    out.push("--".to_owned());
    out.push(bin.to_owned());
    assert(texts(out@) =~= now + seq!["--"@, bin@]);
    extend_texts(&mut out, args);
    out
}

fn about_app(app: &str, tail: &str) -> (r: String)
    ensures
        r@ == "confined app '"@ + app@ + tail@,
{
    let mut out = "confined app '".to_owned();
    out.append(app);
    out.append(tail);
    out
}

fn plan_confined(
    pod_name: &str,
    app: &str,
    c: &Confinement,
    bin: &str,
    args: &Vec<String>,
    host: &HostFacts,
) -> (r: Result<RunPlan, String>)
    ensures
        match r {
            Ok(p) => confined_plan(pod_name@, app@, *c, bin@, texts(args@), *host) == Ok::<
                RunView,
                Seq<char>,
            >(p@),
            Err(e) => confined_plan(pod_name@, app@, *c, bin@, texts(args@), *host) == Err::<
                RunView,
                Seq<char>,
            >(e@),
        },
{
    match c.backend {
        BackendKind::Bwrap => match &host.bwrap {
            None => Err(
                about_app(
                    app,
                    "' uses the bwrap backend, but bubblewrap is not available on this host (no provisioned set and none on PATH) — refusing to run unconfined. Run `shuttle doctor --fix` to provision it, install bubblewrap (e.g. `apt install bubblewrap`), or override the package to unconfined via the pod declaration.",
                ),
            ),
            Some(tool) => {
                if !host.userns {
                    return Err(
                        about_app(
                            app,
                            "' uses the bwrap backend, but unprivileged user namespaces are disabled on this host — refusing to run unconfined. Enable unprivileged userns or override the package to unconfined via the pod declaration.",
                        ),
                    );
                }
                Ok(
                    RunPlan::Sandboxed(
                        launch_argv(tool.as_str(), bwrap_args(c, host), bin, args),
                    ),
                )
            },
        },
        BackendKind::Apparmor => match &host.aa_exec {
            None => Err(
                about_app(
                    app,
                    "' uses the apparmor backend, but `aa-exec` is not installed / AppArmor is not enforced on this host — refusing to run unconfined. Install AppArmor (`aa-exec`) or switch the package to the bwrap backend / unconfined via the pod declaration.",
                ),
            ),
            Some(tool) => {
                let mut before: Vec<String> = Vec::new();
                before.push("--profile".to_owned());
                before.push(profile_name(pod_name, app));
                assert(texts(before@) =~= seq!["--profile"@, profile_of(pod_name@, app@)]);
                Ok(RunPlan::Sandboxed(launch_argv(tool.as_str(), before, bin, args)))
            },
        },
    }
}

/// Decides how an app is run.
pub fn plan_app(
    pod_name: &str,
    app: &str,
    pkg_name: &str,
    confined: Option<&Confinement>,
    bin: &str,
    bin_present: bool,
    wrapper: Option<&str>,
    args: &Vec<String>,
    host: &HostFacts,
) -> (r: Result<RunPlan, String>)
    ensures
        match r {
            Ok(p) => app_plan(
                pod_name@,
                app@,
                pkg_name@,
                own(confined),
                bin@,
                bin_present,
                opt_str(wrapper),
                texts(args@),
                *host,
            ) == Ok::<RunView, Seq<char>>(p@),
            Err(e) => app_plan(
                pod_name@,
                app@,
                pkg_name@,
                own(confined),
                bin@,
                bin_present,
                opt_str(wrapper),
                texts(args@),
                *host,
            ) == Err::<RunView, Seq<char>>(e@),
        },
{
    match confined {
        None => {
            let mut argv: Vec<String> = Vec::new();
            let target = match wrapper {
                Some(w) => w,
                None => bin,
            };
            argv.push(target.to_owned());
            assert(texts(argv@) =~= seq![target@]);
            extend_texts(&mut argv, args);
            Ok(RunPlan::Direct(argv))
        },
        Some(c) => {
            if !bin_present {
                let mut e = "confined app '".to_owned();
                e.append(app);
                e.append("' (package '");
                e.append(pkg_name);
                e.append("'): command binary ");
                e.append(bin);
                e.append(" is missing from the content store");
                return Err(e);
            }
            plan_confined(pod_name, app, c, bin, args, host)
        },
    }
}

/// The value behind an optional reference.
pub open spec fn own(o: Option<&Confinement>) -> Option<Confinement> {
    match o {
        Some(c) => Some(*c),
        None => None,
    }
}

/// A confined app never runs unconfined: either it is launched by the tool of
/// its backend, or it does not run.
pub proof fn law_confined_apps_stay_confined(
    pod: Seq<char>,
    app: Seq<char>,
    pkg: Seq<char>,
    c: Confinement,
    bin: Seq<char>,
    bin_present: bool,
    wrapper: Option<Seq<char>>,
    args: Seq<Seq<char>>,
    host: HostFacts,
)
    ensures
        match app_plan(pod, app, pkg, Some(c), bin, bin_present, wrapper, args, host) {
            Ok(RunView::Sandboxed(argv)) => match c.backend {
                BackendKind::Bwrap => host.bwrap is Some && host.userns && argv[0]
                    == host.bwrap->0@,
                BackendKind::Apparmor => host.aa_exec is Some && argv[0] == host.aa_exec->0@,
            },
            Ok(RunView::Direct(_)) => false,
            Err(_) => true,
        },
{
}

/// The arguments of an app come behind everything that confines it: no argument
/// changes the sandbox.
pub proof fn law_arguments_do_not_widen_the_sandbox(
    tool: Seq<char>,
    before: Seq<Seq<char>>,
    bin: Seq<char>,
    a: Seq<Seq<char>>,
    b: Seq<Seq<char>>,
)
    ensures
        launch(tool, before, bin, a).take((before.len() + 3) as int) == launch(
            tool,
            before,
            bin,
            b,
        ).take((before.len() + 3) as int),
        launch(tool, before, bin, a)[(before.len() + 1) as int] == "--"@,
{
    let n = (before.len() + 3) as int;
    let head = seq![tool] + before + seq!["--"@, bin];
    assert(launch(tool, before, bin, a).take(n) =~= head);
    assert(launch(tool, before, bin, b).take(n) =~= head);
}

/// What a name stands for.
#[derive(Debug)]
pub enum RunTarget {
    /// No app of the pod: a command, with its arguments.
    Command(Vec<String>),
    /// An app of the package at this place.
    App(usize),
}

/// Finds out what a name stands for in the active generation of a pod. A name
/// that no package provides is a command.
pub fn resolve_target(
    pod_name: &str,
    app: &str,
    args: &Vec<String>,
    packages: Option<&Ordered<InstalledPackage>>,
) -> (r: Result<RunTarget, String>)
    ensures
        match packages {
            None => (r matches Err(e) && e@ == "pod '"@ + pod_name@
                + "' has no active generation — nothing to run for '"@ + app@ + "'"@),
            Some(p) => match provider(p@, app@) {
                Some(i) => (r matches Ok(RunTarget::App(k)) && k == i && k < p@.len()),
                None => (r matches Ok(RunTarget::Command(v)) && texts(v@) == seq![app@] + texts(
                    args@,
                )),
            },
        },
{
    match packages {
        None => {
            let mut e = "pod '".to_owned();
            e.append(pod_name);
            e.append("' has no active generation — nothing to run for '");
            e.append(app);
            e.append("'");
            Err(e)
        },
        Some(p) => match resolve_app(p, app) {
            Some(i) => Ok(RunTarget::App(i)),
            None => {
                let mut v: Vec<String> = Vec::new();
                v.push(app.to_owned());
                assert(texts(v@) =~= seq![app@]);
                extend_texts(&mut v, args);
                Ok(RunTarget::Command(v))
            },
        },
    }
}

// ── Running a command ──

/// Where a name is looked for.
pub open spec fn places(dirs: Seq<Seq<char>>, name: Seq<char>) -> Seq<Seq<char>> {
    Seq::new(dirs.len(), |i: int| path_in(dirs[i], name))
}

/// The error for a command that is nowhere.
pub open spec fn not_found(name: Seq<char>, dirs: Seq<Seq<char>>) -> Seq<char> {
    "command '"@ + name + "' not found in the pod's farm ("@ + (if dirs.len() > 0 {
        dirs[0]
    } else {
        Seq::empty()
    })
        + "), or PATH — add the package that provides it to the pod (`shuttle pod add <package>`) or install it on the host PATH"@
}

/// The program of a command: a path as it is, a name where it is first found
/// among the executable files.
pub open spec fn program(
    name: Seq<char>,
    dirs: Seq<Seq<char>>,
    files: Seq<Seq<char>>,
) -> Result<Seq<char>, Seq<char>> {
    if holds(name, "/"@) {
        Ok(name)
    } else {
        match first_among(places(dirs, name), files) {
            Some(p) => Ok(p),
            None => Err(not_found(name, dirs)),
        }
    }
}

/// Where a name is looked for.
pub fn command_candidates(name: &str, dirs: &Vec<String>) -> (r: Vec<String>)
    ensures
        texts(r@) == places(texts(dirs@), name@),
{
    broadcast use lemma_texts_push;

    let ghost want = places(texts(dirs@), name@);
    let mut out: Vec<String> = Vec::new();
    let mut i: usize = 0;
    while i < dirs.len()
        invariant
            i <= dirs@.len(),
            want == places(texts(dirs@), name@),
            texts(out@) == want.take(i as int),
        decreases dirs@.len() - i,
    {
        out.push(join_path(dirs[i].as_str(), name));
        assert(want.take(i + 1) =~= want.take(i as int).push(want[i as int]));
        i += 1;
    }
    assert(want.take(i as int) =~= want);
    out
}

/// Finds the program of a command among the executable files of the
/// directories.
pub fn resolve_command_in(name: &str, dirs: &Vec<String>, files: &Vec<String>) -> (r: Result<
    String,
    String,
>)
    ensures
        match r {
            Ok(p) => program(name@, texts(dirs@), texts(files@)) == Ok::<Seq<char>, Seq<char>>(p@),
            Err(e) => program(name@, texts(dirs@), texts(files@)) == Err::<Seq<char>, Seq<char>>(
                e@,
            ),
        },
{
    if contains(name, "/") {
        return Ok(name.to_owned());
    }
    match first_existing(&command_candidates(name, dirs), files) {
        Some(p) => Ok(p),
        None => {
            let mut e = "command '".to_owned();
            e.append(name);
            e.append("' not found in the pod's farm (");
            let mut farm = String::new();
            assert(farm@ =~= Seq::<char>::empty());
            assert(texts(dirs@).len() == dirs@.len());
            if dirs.len() > 0 {
                farm = dirs[0].clone();
            }
            e.append(farm.as_str());
            e.append(
                "), or PATH — add the package that provides it to the pod (`shuttle pod add <package>`) or install it on the host PATH",
            );
            Err(e)
        },
    }
}

/// The directories in which a command is looked for: the farm before the
/// caller's.
pub open spec fn search_dirs(farm: Seq<char>, path: Option<Seq<char>>) -> Seq<Seq<char>> {
    seq![farm] + (match path {
        Some(p) => parts(p, ':'),
        None => Seq::empty(),
    })
}

/// The directories in which a command is looked for.
pub fn command_dirs(farm: &str, path: Option<&str>) -> (r: Vec<String>)
    ensures
        texts(r@) == search_dirs(farm@, opt_str(path)),
{
    let mut out: Vec<String> = Vec::new();
    out.push(farm.to_owned());
    assert(texts(out@) =~= seq![farm@]);
    match path {
        Some(p) => {
            extend_texts(&mut out, &split_char(p, ':'));
        },
        None => {
            assert(texts(out@) =~= seq![farm@] + Seq::<Seq<char>>::empty());
        },
    }
    out
}

/// The program of a command vector, or why there is none.
pub fn command_program(command: &Vec<String>, dirs: &Vec<String>, files: &Vec<String>) -> (r:
    Result<String, String>)
    ensures
        command@.len() == 0 ==> (r matches Err(e) && e@
            == "shuttle run: empty command — nothing to exec"@),
        command@.len() > 0 ==> match r {
            Ok(p) => program(command@[0]@, texts(dirs@), texts(files@)) == Ok::<
                Seq<char>,
                Seq<char>,
            >(p@),
            Err(e) => program(command@[0]@, texts(dirs@), texts(files@)) == Err::<
                Seq<char>,
                Seq<char>,
            >(e@),
        },
{
    if command.len() == 0 {
        return Err("shuttle run: empty command — nothing to exec".to_owned());
    }
    resolve_command_in(command[0].as_str(), dirs, files)
}

// ── The environment ──

/// The search path in a pod: the farm, then the caller's. A farm that cannot
/// stand in a search path stands alone.
pub open spec fn pod_path(farm: Seq<char>, existing: Option<Seq<char>>) -> Seq<char> {
    match existing {
        Some(p) => if p.len() == 0 || holds(farm, ":"@) {
            farm
        } else {
            farm + ":"@ + p
        },
        None => farm,
    }
}

/// The value of a variable once declared ones were set.
pub open spec fn declared_over(
    vars: Seq<(Seq<char>, String)>,
    key: Seq<char>,
    inherited: Option<Seq<char>>,
) -> Option<Seq<char>> {
    match lookup(vars, key) {
        Some(v) => Some(v@),
        None => inherited,
    }
}

/// The search path in a pod.
pub fn farm_first_path(farm: &str, existing: Option<&str>) -> (r: String)
    ensures
        r@ == pod_path(farm@, opt_str(existing)),
{
    match existing {
        Some(p) => {
            if p.is_empty() || contains(farm, ":") {
                return farm.to_owned();
            }
            let mut out = farm.to_owned();
            out.append(":");
            out.append(p);
            out
        },
        None => farm.to_owned(),
    }
}

/// Sets the declared variables: what is declared replaces what is inherited,
/// all else passes through.
pub fn overlay_declared_vars(env: &mut Ordered<String>, vars: &Ordered<String>)
    requires
        old(env).wf(),
    ensures
        final(env).wf(),
        forall|k: Seq<char>| #[trigger]
            text_for(final(env)@, k) == declared_over(vars@, k, text_for(old(env)@, k)),
{
    let ghost base = env@;
    let ghost all = vars@;
    let mut i: usize = 0;
    while i < vars.len()
        invariant
            i <= vars@.len(),
            all == vars@,
            env.wf(),
            forall|k: Seq<char>| #[trigger]
                text_for(env@, k) == declared_over(all.take(i as int), k, text_for(base, k)),
        decreases vars@.len() - i,
    {
        let ghost before = env@;
        env.insert(vars.key_at(i).clone(), vars.value_at(i).clone());
        proof {
            let key = all[i as int].0;
            assert(all.take(i + 1).drop_last() =~= all.take(i as int));
            assert(all.take(i + 1).last() == all[i as int]);
            assert forall|k: Seq<char>| #[trigger]
                text_for(env@, k) == declared_over(all.take(i + 1), k, text_for(base, k)) by {
                assert(lookup(env@, k) == (if k == key {
                    lookup(env@, key)
                } else {
                    lookup(before, k)
                }));
                assert(text_for(before, k) == declared_over(
                    all.take(i as int),
                    k,
                    text_for(base, k),
                ));
            }
        }
        i += 1;
    }
    assert(all.take(i as int) =~= all);
}

/// Lays a pod's environment over a caller's: the farm leads the search path,
/// and the declared variables replace what is inherited.
pub fn overlay_pod_env(
    env: &mut Ordered<String>,
    farm: &str,
    existing_path: Option<&str>,
    vars: &Ordered<String>,
)
    requires
        old(env).wf(),
    ensures
        final(env).wf(),
        forall|k: Seq<char>| #[trigger]
            text_for(final(env)@, k) == declared_over(
                vars@,
                k,
                if k == "PATH"@ {
                    Some(pod_path(farm@, opt_str(existing_path)))
                } else {
                    text_for(old(env)@, k)
                },
            ),
{
    let ghost base = env@;
    let path = farm_first_path(farm, existing_path);
    let ghost p = path@;
    env.insert("PATH".to_owned(), path);
    let ghost mid = env@;
    assert forall|k: Seq<char>| #[trigger]
        text_for(mid, k) == (if k == "PATH"@ {
            Some(p)
        } else {
            text_for(base, k)
        }) by {
        assert(lookup(mid, k) == lookup(mid, k));
    }
    overlay_declared_vars(env, vars);
    assert forall|k: Seq<char>| #[trigger]
        text_for(env@, k) == declared_over(
            vars@,
            k,
            if k == "PATH"@ {
                Some(pod_path(farm@, opt_str(existing_path)))
            } else {
                text_for(base, k)
            },
        ) by {
        assert(text_for(env@, k) == declared_over(vars@, k, text_for(mid, k)));
    }
}

// ── The profile of AppArmor ──

/// A rule for a path.
pub open spec fn path_rule(path: Seq<char>, read_only: bool) -> Seq<char> {
    "  "@ + path + (if read_only {
        " r,\n"@
    } else {
        " rw,\n"@
    })
}

/// The rule for a file system grant.
pub open spec fn grant_rule(grant: Seq<char>) -> Seq<char> {
    match grant_of(grant) {
        Grant::Roots(ro) => path_rule("/**"@, ro),
        Grant::Path(ro, p) => path_rule(p, ro),
    }
}

/// The rules for the file system grants.
pub open spec fn grant_rules(grants: Seq<Seq<char>>) -> Seq<char>
    decreases grants.len(),
{
    if grants.len() == 0 {
        Seq::empty()
    } else {
        grant_rules(grants.drop_last()) + grant_rule(grants.last())
    }
}

/// The rules for the socket grants.
pub open spec fn socket_rules(sockets: Seq<Seq<char>>) -> Seq<char>
    decreases sockets.len(),
{
    if sockets.len() == 0 {
        Seq::empty()
    } else {
        socket_rules(sockets.drop_last()) + ("  /run/user/*/"@ + sockets.last() + " rw,\n"@
            + "  /tmp/.X11-unix/"@ + sockets.last() + " rw,\n"@)
    }
}

/// The rules for the device grants.
pub open spec fn device_rules(devices: Seq<Seq<char>>) -> Seq<char>
    decreases devices.len(),
{
    if devices.len() == 0 {
        Seq::empty()
    } else {
        device_rules(devices.drop_last()) + path_rule(devices.last(), false)
    }
}

/// The profile of a confined app.
pub open spec fn profile_text(pod: Seq<char>, app: Seq<char>, c: Confinement) -> Seq<char> {
    "#include <tunables/global>\n"@ + "## SHUTTLE profile for '"@ + app + "'\n"@ + "profile "@
        + profile_of(pod, app) + " flags=(attach_disconnected,mediate_deleted) {\n"@
        + "  #include <abstractions/base>\n"@ + grant_rules(texts(c.filesystem@)) + (
    if c.network {
        "  network,\n"@
    } else {
        Seq::empty()
    }) + socket_rules(texts(c.sockets@)) + device_rules(texts(c.devices@))
        + "  ## seccomp: confined profiles restrict syscalls via the profile.\n"@ + "}\n"@
}

fn rule(path: &str, read_only: bool) -> (r: String)
    ensures
        r@ == path_rule(path@, read_only),
{
    let mut out = "  ".to_owned();
    out.append(path);
    if read_only {
        out.append(" r,\n");
    } else {
        out.append(" rw,\n");
    }
    out
}

fn render_grants(grants: &Vec<String>) -> (r: String)
    ensures
        r@ == grant_rules(texts(grants@)),
{
    let ghost all = texts(grants@);
    let mut out = String::new();
    let mut i: usize = 0;
    assert(out@ =~= grant_rules(all.take(0)));
    while i < grants.len()
        invariant
            i <= grants@.len(),
            all == texts(grants@),
            out@ == grant_rules(all.take(i as int)),
        decreases grants@.len() - i,
    {
        proof {
            assert(all.take(i + 1).drop_last() =~= all.take(i as int));
            assert(all.take(i + 1).last() == grants@[i as int]@);
        }
        let grant = grants[i].as_str();
        if str_eq(grant, "read") {
            out.append(rule("/**", true).as_str());
        } else if str_eq(grant, "write") {
            proof {
                reveal_strlit("read");
                reveal_strlit("write");
                assert("read"@.len() != "write"@.len());
            }
            out.append(rule("/**", false).as_str());
        } else {
            let (ro, path) = read_path_grant(grant);
            out.append(rule(path.as_str(), ro).as_str());
        }
        i += 1;
    }
    assert(all.take(i as int) =~= all);
    out
}

fn render_sockets(sockets: &Vec<String>) -> (r: String)
    ensures
        r@ == socket_rules(texts(sockets@)),
{
    let ghost all = texts(sockets@);
    let mut out = String::new();
    let mut i: usize = 0;
    assert(out@ =~= socket_rules(all.take(0)));
    while i < sockets.len()
        invariant
            i <= sockets@.len(),
            all == texts(sockets@),
            out@ == socket_rules(all.take(i as int)),
        decreases sockets@.len() - i,
    {
        proof {
            assert(all.take(i + 1).drop_last() =~= all.take(i as int));
            assert(all.take(i + 1).last() == sockets@[i as int]@);
        }
        let mut piece = "  /run/user/*/".to_owned();
        piece.append(sockets[i].as_str());
        piece.append(" rw,\n");
        piece.append("  /tmp/.X11-unix/");
        piece.append(sockets[i].as_str());
        piece.append(" rw,\n");
        out.append(piece.as_str());
        i += 1;
    }
    assert(all.take(i as int) =~= all);
    out
}

fn render_devices(devices: &Vec<String>) -> (r: String)
    ensures
        r@ == device_rules(texts(devices@)),
{
    let ghost all = texts(devices@);
    let mut out = String::new();
    let mut i: usize = 0;
    assert(out@ =~= device_rules(all.take(0)));
    while i < devices.len()
        invariant
            i <= devices@.len(),
            all == texts(devices@),
            out@ == device_rules(all.take(i as int)),
        decreases devices@.len() - i,
    {
        proof {
            assert(all.take(i + 1).drop_last() =~= all.take(i as int));
            assert(all.take(i + 1).last() == devices@[i as int]@);
        }
        out.append(rule(devices[i].as_str(), false).as_str());
        i += 1;
    }
    assert(all.take(i as int) =~= all);
    out
}

/// Writes the profile of a confined app from its grants. What is not granted
/// is denied.
pub fn render_apparmor_profile(pod_name: &str, app: &str, confined: &Confinement) -> (r: String)
    ensures
        r@ == profile_text(pod_name@, app@, *confined),
{
    let mut network = String::new();
    assert(network@ =~= Seq::<char>::empty());
    if confined.network {
        network = "  network,\n".to_owned();
    }
    let mut out = "#include <tunables/global>\n".to_owned();
    out.append("## SHUTTLE profile for '");
    out.append(app);
    out.append("'\n");
    out.append("profile ");
    out.append(profile_name(pod_name, app).as_str());
    out.append(" flags=(attach_disconnected,mediate_deleted) {\n");
    out.append("  #include <abstractions/base>\n");
    out.append(render_grants(&confined.filesystem).as_str());
    out.append(network.as_str());
    out.append(render_sockets(&confined.sockets).as_str());
    out.append(render_devices(&confined.devices).as_str());
    out.append("  ## seccomp: confined profiles restrict syscalls via the profile.\n");
    out.append("}\n");
    out
}

// ── Laws ──

/// An app is provided by the first package, by name, that has it; by none
/// exactly where no package has it.
pub proof fn law_the_first_provider_counts(
    packages: Seq<(Seq<char>, InstalledPackage)>,
    app: Seq<char>,
    from: int,
)
    requires
        0 <= from,
    ensures
        match provider_from(packages, app, from) {
            Some(i) => from <= i < packages.len() && lookup(packages[i].1.apps@, app) is Some
                && forall|j: int|
                from <= j < i ==> lookup((#[trigger] packages[j]).1.apps@, app) is None,
            None => forall|j: int|
                from <= j < packages.len() ==> lookup(
                    (#[trigger] packages[j]).1.apps@,
                    app,
                ) is None,
        },
        provider(packages, app) == provider_from(packages, app, 0),
    decreases packages.len() - from,
{
    if from < packages.len() && lookup(packages[from].1.apps@, app) is None {
        law_the_first_provider_counts(packages, app, from + 1);
    }
}

/// What an app itself has confines it; only where it has nothing of its own
/// does what its package has.
pub proof fn law_an_apps_own_confinement_counts(pkg: InstalledPackage, app: Seq<char>)
    ensures
        lookup(pkg.app_confined@, app) is Some ==> confinement_of(pkg, app) == lookup(
            pkg.app_confined@,
            app,
        ),
        lookup(pkg.app_confined@, app) is None ==> confinement_of(pkg, app) == pkg.confined,
{
}

/// What a grant opens: the usual roots by name; a path for reading behind
/// `ro:`, and for writing behind `rw:` or by itself.
pub proof fn law_grants_say_what_they_open(path: Seq<char>)
    ensures
        grant_of("read"@) == Grant::Roots(true),
        grant_of("write"@) == Grant::Roots(false),
        grant_of("ro:"@ + path) == Grant::Path(true, path),
        grant_of("rw:"@ + path) == Grant::Path(false, path),
        (path.len() > 0 && path[0] == '/') ==> grant_of(path) == Grant::Path(false, path),
{
    reveal_strlit("read");
    reveal_strlit("write");
    reveal_strlit("ro:");
    reveal_strlit("rw:");
    assert("read"@.len() != "write"@.len());
    law_ends_are_taken_off("ro:"@, path);
    law_ends_are_taken_off("rw:"@, path);
    let a = "ro:"@ + path;
    let b = "rw:"@ + path;
    assert(a[1] == 'o' && a[2] == ':' && b[1] == 'w' && b[2] == ':');
    assert("read"@[2] == 'a' && "write"@[2] == 'i');
    assert(a != "read"@ && a != "write"@ && b != "read"@ && b != "write"@);
    assert(!"ro:"@.is_prefix_of(b)) by {
        assert("ro:"@[1] == 'o');
    }
    if path.len() > 0 && path[0] == '/' {
        assert("read"@[0] == 'r' && "write"@[0] == 'w' && "ro:"@[0] == 'r' && "rw:"@[0] == 'r');
        assert(path != "read"@ && path != "write"@);
    }
}

/// Whether arguments bind a path to itself by a flag, at some place.
pub open spec fn binds(args: Seq<Seq<char>>, flag: Seq<char>, path: Seq<char>) -> bool {
    exists|i: int|
        0 <= i && i + 2 < args.len() && #[trigger] args[i] == flag && args[i + 1] == path && args[i
            + 2] == path
}

proof fn lemma_binds_sum(
    a: Seq<Seq<char>>,
    b: Seq<Seq<char>>,
    flag: Seq<char>,
    path: Seq<char>,
)
    requires
        binds(a, flag, path) || binds(b, flag, path),
    ensures
        binds(a + b, flag, path),
{
    let s = a + b;
    if binds(a, flag, path) {
        let i = choose|i: int|
            0 <= i && i + 2 < a.len() && #[trigger] a[i] == flag && a[i + 1] == path && a[i + 2]
                == path;
        assert(s[i] == flag && s[i + 1] == path && s[i + 2] == path);
    } else {
        let i = choose|i: int|
            0 <= i && i + 2 < b.len() && #[trigger] b[i] == flag && b[i + 1] == path && b[i + 2]
                == path;
        let n = a.len() as int;
        assert(s[n + i] == flag && s[n + i + 1] == path && s[n + i + 2] == path);
    }
}

proof fn lemma_root_bound(
    roots: Seq<Seq<char>>,
    present: Seq<Seq<char>>,
    read_only: bool,
    k: int,
)
    requires
        0 <= k < roots.len(),
        present.contains(roots[k]),
    ensures
        binds(bound_roots(roots, present, read_only), bind_flag(read_only), roots[k]),
    decreases roots.len(),
{
    let flag = bind_flag(read_only);
    let head = bound_roots(roots.drop_last(), present, read_only);
    if k == roots.len() - 1 {
        let t = seq![flag, roots.last(), roots.last()];
        assert(t[0] == flag && t[1] == roots[k] && t[2] == roots[k]);
        assert(binds(t, flag, roots[k]));
        lemma_binds_sum(head, t, flag, roots[k]);
    } else {
        assert(roots.drop_last()[k] == roots[k]);
        lemma_root_bound(roots.drop_last(), present, read_only, k);
        let t = if present.contains(roots.last()) {
            seq![flag, roots.last(), roots.last()]
        } else {
            Seq::empty()
        };
        lemma_binds_sum(head, t, flag, roots[k]);
    }
}

proof fn lemma_grant_bound(
    grants: Seq<Seq<char>>,
    roots: Seq<Seq<char>>,
    present: Seq<Seq<char>>,
    k: int,
    flag: Seq<char>,
    path: Seq<char>,
)
    requires
        0 <= k < grants.len(),
        binds(grant_args(grants[k], roots, present), flag, path),
    ensures
        binds(filesystem_args(grants, roots, present), flag, path),
    decreases grants.len(),
{
    let head = filesystem_args(grants.drop_last(), roots, present);
    let t = grant_args(grants.last(), roots, present);
    if k < grants.len() - 1 {
        assert(grants.drop_last()[k] == grants[k]);
        lemma_grant_bound(grants.drop_last(), roots, present, k, flag, path);
    }
    lemma_binds_sum(head, t, flag, path);
}

/// What is granted is there: every path of a grant that the host has is bound,
/// for reading only where the grant says so, and so is every usual root that is
/// granted. The usual roots can be read in any case.
pub proof fn law_grants_are_bound(c: Confinement, host: HostFacts, k: int, m: int)
    ensures
        0 <= m < host.roots@.len() && texts(host.present@).contains(host.roots@[m]@) ==> binds(
            sandbox_args(c, host),
            "--ro-bind"@,
            host.roots@[m]@,
        ),
        0 <= k < c.filesystem@.len() ==> match grant_of(c.filesystem@[k]@) {
            Grant::Path(ro, p) => texts(host.present@).contains(p) ==> binds(
                sandbox_args(c, host),
                if ro {
                    "--ro-bind"@
                } else {
                    "--bind"@
                },
                p,
            ),
            Grant::Roots(ro) => 0 <= m < host.roots@.len() && texts(host.present@).contains(
                host.roots@[m]@,
            ) ==> binds(
                sandbox_args(c, host),
                if ro {
                    "--ro-bind"@
                } else {
                    "--bind"@
                },
                host.roots@[m]@,
            ),
        },
        host.pod_present ==> binds(sandbox_args(c, host), "--ro-bind"@, host.pod_dir@),
{
    let roots = texts(host.roots@);
    let present = texts(host.present@);
    let grants = texts(c.filesystem@);
    let a = seq!["--unshare-user"@, "--unshare-pid"@, "--unshare-ipc"@] + (if c.network {
        Seq::empty()
    } else {
        seq!["--unshare-net"@]
    }) + seq!["--proc"@, "/proc"@, "--dev"@, "/dev"@, "--tmpfs"@, "/tmp"@];
    let pod = if host.pod_present {
        seq!["--ro-bind"@, host.pod_dir@, host.pod_dir@]
    } else {
        Seq::empty()
    };
    let bound = bound_roots(roots, present, true);
    let fs = filesystem_args(grants, roots, present);
    let s1 = flagged("--socket"@, texts(c.sockets@));
    let s2 = flagged("--device"@, texts(c.devices@));
    let s3 = option_args(c.backend_options@);
    assert(sandbox_args(c, host) == a + pod + bound + fs + s1 + s2 + s3);
    if host.pod_present {
        assert(pod[0] == "--ro-bind"@ && pod[1] == host.pod_dir@ && pod[2] == host.pod_dir@);
        assert(binds(pod, "--ro-bind"@, host.pod_dir@));
        lemma_bound_in(a, pod, bound, fs, s1, s2, s3, "--ro-bind"@, host.pod_dir@);
    }
    if 0 <= m < host.roots@.len() && present.contains(host.roots@[m]@) {
        assert(roots[m] == host.roots@[m]@);
        lemma_root_bound(roots, present, true, m);
        lemma_bound_in(a, pod, bound, fs, s1, s2, s3, "--ro-bind"@, roots[m]);
    }
    if 0 <= k < c.filesystem@.len() {
        assert(grants[k] == c.filesystem@[k]@);
        match grant_of(grants[k]) {
            Grant::Path(ro, p) => {
                if present.contains(p) {
                    let t = grant_args(grants[k], roots, present);
                    assert(t[0] == bind_flag(ro) && t[1] == p && t[2] == p);
                    assert(binds(t, bind_flag(ro), p));
                    lemma_grant_bound(grants, roots, present, k, bind_flag(ro), p);
                    lemma_bound_in(a, pod, bound, fs, s1, s2, s3, bind_flag(ro), p);
                }
            },
            Grant::Roots(ro) => {
                if 0 <= m < host.roots@.len() && present.contains(host.roots@[m]@) {
                    assert(roots[m] == host.roots@[m]@);
                    lemma_root_bound(roots, present, ro, m);
                    lemma_grant_bound(grants, roots, present, k, bind_flag(ro), roots[m]);
                    lemma_bound_in(a, pod, bound, fs, s1, s2, s3, bind_flag(ro), roots[m]);
                }
            },
        }
    }
}

proof fn lemma_bound_in(
    a: Seq<Seq<char>>,
    pod: Seq<Seq<char>>,
    bound: Seq<Seq<char>>,
    fs: Seq<Seq<char>>,
    s1: Seq<Seq<char>>,
    s2: Seq<Seq<char>>,
    s3: Seq<Seq<char>>,
    flag: Seq<char>,
    path: Seq<char>,
)
    requires
        binds(pod, flag, path) || binds(bound, flag, path) || binds(fs, flag, path),
    ensures
        binds(a + pod + bound + fs + s1 + s2 + s3, flag, path),
{
    if binds(pod, flag, path) {
        lemma_binds_sum(a, pod, flag, path);
    }
    if binds(pod, flag, path) || binds(bound, flag, path) {
        lemma_binds_sum(a + pod, bound, flag, path);
    }
    lemma_binds_sum(a + pod + bound, fs, flag, path);
    lemma_binds_sum(a + pod + bound + fs, s1, flag, path);
    lemma_binds_sum(a + pod + bound + fs + s1, s2, flag, path);
    lemma_binds_sum(a + pod + bound + fs + s1 + s2, s3, flag, path);
}

/// Nothing is bound that is not granted: what a file system grant adds is for
/// its own path, or for a usual root, and only where the host has it.
pub proof fn law_grants_bind_nothing_else(
    grant: Seq<char>,
    roots: Seq<Seq<char>>,
    present: Seq<Seq<char>>,
    i: int,
)
    requires
        0 <= i < grant_args(grant, roots, present).len(),
    ensures
        ({
            let word = grant_args(grant, roots, present)[i];
            match grant_of(grant) {
                Grant::Path(ro, p) => word == (if ro {
                    "--ro-bind"@
                } else {
                    "--bind"@
                }) || (word == p && present.contains(p)),
                Grant::Roots(ro) => word == (if ro {
                    "--ro-bind"@
                } else {
                    "--bind"@
                }) || (roots.contains(word) && present.contains(word)),
            }
        }),
{
    match grant_of(grant) {
        Grant::Roots(ro) => {
            lemma_roots_only(roots, present, ro, i);
        },
        _ => {},
    }
}

proof fn lemma_roots_only(
    roots: Seq<Seq<char>>,
    present: Seq<Seq<char>>,
    ro: bool,
    i: int,
)
    requires
        0 <= i < bound_roots(roots, present, ro).len(),
    ensures
        ({
            let word = bound_roots(roots, present, ro)[i];
            word == bind_flag(ro) || (roots.contains(word) && present.contains(word))
        }),
    decreases roots.len(),
{
    let r = roots.drop_last();
    let head = bound_roots(r, present, ro);
    if i < head.len() {
        lemma_roots_only(r, present, ro, i);
        let word = head[i];
        if r.contains(word) {
            let k = choose|k: int| 0 <= k < r.len() && r[k] == word;
            assert(roots[k] == word);
        }
    } else {
        assert(roots[roots.len() - 1] == roots.last());
    }
}

/// An app that has the network keeps it, and every app has its own users,
/// processes and messages.
pub proof fn law_sandboxes_are_apart(c: Confinement, host: HostFacts)
    ensures
        sandbox_args(c, host).contains("--unshare-user"@),
        sandbox_args(c, host).contains("--unshare-pid"@),
        sandbox_args(c, host).contains("--unshare-ipc"@),
        c.network ==> sandbox_args(c, host)[3] == "--proc"@,
        !c.network ==> sandbox_args(c, host)[3] == "--unshare-net"@ && sandbox_args(c, host)[4]
            == "--proc"@,
{
    let a = sandbox_args(c, host);
    assert(a[0] == "--unshare-user"@ && a[1] == "--unshare-pid"@ && a[2] == "--unshare-ipc"@);
}

/// An app without confinement runs its wrapper where it has one, else its
/// binary; a confined one whose binary is there runs in the sandbox of its
/// backend wherever this host has it.
pub proof fn law_apps_run_where_they_can(
    pod: Seq<char>,
    app: Seq<char>,
    pkg: Seq<char>,
    c: Confinement,
    bin: Seq<char>,
    wrapper: Option<Seq<char>>,
    args: Seq<Seq<char>>,
    host: HostFacts,
    present: bool,
)
    ensures
        app_plan(pod, app, pkg, None, bin, present, wrapper, args, host) == Ok::<
            RunView,
            Seq<char>,
        >(
            RunView::Direct(
                seq![
                    if wrapper is Some {
                        wrapper->0
                    } else {
                        bin
                    },
                ] + args,
            ),
        ),
        app_plan(pod, app, pkg, Some(c), bin, false, wrapper, args, host) is Err,
        c.backend is Bwrap ==> (app_plan(
            pod,
            app,
            pkg,
            Some(c),
            bin,
            true,
            wrapper,
            args,
            host,
        ) is Ok <==> host.bwrap is Some && host.userns),
        c.backend is Apparmor ==> (app_plan(
            pod,
            app,
            pkg,
            Some(c),
            bin,
            true,
            wrapper,
            args,
            host,
        ) is Ok <==> host.aa_exec is Some),
        (c.backend is Bwrap && host.bwrap is Some && host.userns) ==> app_plan(
            pod,
            app,
            pkg,
            Some(c),
            bin,
            true,
            wrapper,
            args,
            host,
        ) == Ok::<RunView, Seq<char>>(
            RunView::Sandboxed(
                seq![host.bwrap->0@] + sandbox_args(c, host) + seq!["--"@, bin] + args,
            ),
        ),
        (c.backend is Apparmor && host.aa_exec is Some) ==> app_plan(
            pod,
            app,
            pkg,
            Some(c),
            bin,
            true,
            wrapper,
            args,
            host,
        ) == Ok::<RunView, Seq<char>>(
            RunView::Sandboxed(
                seq![host.aa_exec->0@, "--profile"@, "shuttle-"@ + pod + "-"@ + app] + seq![
                    "--"@,
                    bin,
                ] + args,
            ),
        ),
{
    if host.aa_exec is Some {
        assert(seq![host.aa_exec->0@] + seq!["--profile"@, profile_of(pod, app)] =~= seq![
            host.aa_exec->0@,
            "--profile"@,
            "shuttle-"@ + pod + "-"@ + app,
        ]);
    }
}

/// A command that is a path runs as it is; a name runs from the first place
/// that has it, the farm before the caller's path.
pub proof fn law_commands_are_found_in_the_farm_first(
    name: Seq<char>,
    farm: Seq<char>,
    path: Option<Seq<char>>,
    files: Seq<Seq<char>>,
)
    ensures
        holds(name, "/"@) ==> program(name, search_dirs(farm, path), files) == Ok::<
            Seq<char>,
            Seq<char>,
        >(name),
        !holds(name, "/"@) && files.contains(path_in(farm, name)) ==> program(
            name,
            search_dirs(farm, path),
            files,
        ) == Ok::<Seq<char>, Seq<char>>(path_in(farm, name)),
        !holds(name, "/"@) ==> match program(name, search_dirs(farm, path), files) {
            Ok(p) => files.contains(p) && exists|i: int|
                0 <= i < search_dirs(farm, path).len() && p == path_in(
                    #[trigger] search_dirs(farm, path)[i],
                    name,
                ) && forall|j: int|
                    0 <= j < i ==> !files.contains(
                        path_in(#[trigger] search_dirs(farm, path)[j], name),
                    ),
            Err(_) => forall|j: int|
                0 <= j < search_dirs(farm, path).len() ==> !files.contains(
                    path_in(#[trigger] search_dirs(farm, path)[j], name),
                ),
        },
{
    let dirs = search_dirs(farm, path);
    assert(dirs[0] == farm);
    lemma_first_place(dirs, name, files);
    assert(places(dirs, name)[0] == path_in(farm, name));
}

proof fn lemma_first_place(dirs: Seq<Seq<char>>, name: Seq<char>, files: Seq<Seq<char>>)
    ensures
        match first_among(places(dirs, name), files) {
            Some(p) => files.contains(p) && exists|i: int|
                0 <= i < dirs.len() && p == path_in(#[trigger] dirs[i], name) && forall|j: int|
                    0 <= j < i ==> !files.contains(path_in(#[trigger] dirs[j], name)),
            None => forall|j: int|
                0 <= j < dirs.len() ==> !files.contains(path_in(#[trigger] dirs[j], name)),
        },
    decreases dirs.len(),
{
    let all = places(dirs, name);
    if dirs.len() > 0 {
        let tail = dirs.skip(1);
        lemma_first_place(tail, name, files);
        assert(all.skip(1) =~= places(tail, name));
        assert(all[0] == path_in(dirs[0], name));
        if files.contains(all[0]) {
            assert(dirs[0] == dirs[0]);
        } else {
            match first_among(all, files) {
                Some(p) => {
                    let i = choose|i: int|
                        0 <= i < tail.len() && p == path_in(#[trigger] tail[i], name) && forall|
                            j: int,
                        |
                            0 <= j < i ==> !files.contains(path_in(#[trigger] tail[j], name));
                    assert(dirs[i + 1] == tail[i]);
                    assert forall|j: int| 0 <= j < i + 1 implies !files.contains(
                        path_in(#[trigger] dirs[j], name),
                    ) by {
                        if j > 0 {
                            assert(tail[j - 1] == dirs[j]);
                        }
                    }
                },
                None => {
                    assert forall|j: int| 0 <= j < dirs.len() implies !files.contains(
                        path_in(#[trigger] dirs[j], name),
                    ) by {
                        if j > 0 {
                            assert(tail[j - 1] == dirs[j]);
                        }
                    }
                },
            }
        }
    }
}

/// The farm comes first in the search path of a pod, and the caller's path is
/// kept behind it.
pub proof fn law_the_farm_comes_first(farm: Seq<char>, path: Seq<char>)
    requires
        !farm.contains(':'),
    ensures
        pod_path(farm, None) == farm,
        path.len() == 0 ==> pod_path(farm, Some(path)) == farm,
        path.len() > 0 ==> pod_path(farm, Some(path)) == farm + seq![':'] + path,
        path.len() > 0 ==> parts(pod_path(farm, Some(path)), ':') == seq![farm] + parts(path, ':'),
{
    reveal_strlit(":");
    assert(":"@ =~= seq![':']);
    law_cut_at_the_first(farm, ':', path);
    law_parts_stand_between_separators(farm, ':', path);
}

/// Every grant has a rule in the profile of an app, and so has every device;
/// the network has one exactly where it is granted.
pub proof fn law_grants_have_rules(c: Confinement, pod: Seq<char>, app: Seq<char>, k: int)
    ensures
        0 <= k < c.filesystem@.len() ==> holds(
            profile_text(pod, app, c),
            match grant_of(c.filesystem@[k]@) {
                Grant::Roots(ro) => if ro {
                    "  "@ + "/**"@ + " r,\n"@
                } else {
                    "  "@ + "/**"@ + " rw,\n"@
                },
                Grant::Path(ro, p) => if ro {
                    "  "@ + p + " r,\n"@
                } else {
                    "  "@ + p + " rw,\n"@
                },
            },
        ),
        0 <= k < c.devices@.len() ==> holds(
            profile_text(pod, app, c),
            "  "@ + c.devices@[k]@ + " rw,\n"@,
        ),
        0 <= k < c.sockets@.len() ==> holds(
            profile_text(pod, app, c),
            "  /run/user/*/"@ + c.sockets@[k]@ + " rw,\n"@,
        ),
        c.network ==> holds(profile_text(pod, app, c), "  network,\n"@),
{
    let head = "#include <tunables/global>\n"@ + "## SHUTTLE profile for '"@ + app + "'\n"@
        + "profile "@ + profile_of(pod, app)
        + " flags=(attach_disconnected,mediate_deleted) {\n"@
        + "  #include <abstractions/base>\n"@;
    let g = grant_rules(texts(c.filesystem@));
    let n = if c.network {
        "  network,\n"@
    } else {
        Seq::empty()
    };
    let s = socket_rules(texts(c.sockets@));
    let d = device_rules(texts(c.devices@));
    let t = "  ## seccomp: confined profiles restrict syscalls via the profile.\n"@;
    let e = "}\n"@;
    let all = profile_text(pod, app, c);
    assert(all == head + g + n + s + d + t + e);
    if 0 <= k < c.filesystem@.len() {
        assert(texts(c.filesystem@)[k] == c.filesystem@[k]@);
        lemma_rule_in(texts(c.filesystem@), k);
        lemma_holds_part(head, g, n + s + d + t + e, grant_rule(c.filesystem@[k]@));
        assert(all =~= head + g + (n + s + d + t + e));
    }
    if 0 <= k < c.devices@.len() {
        assert(texts(c.devices@)[k] == c.devices@[k]@);
        lemma_device_in(texts(c.devices@), k);
        lemma_holds_part(head + g + n + s, d, t + e, path_rule(c.devices@[k]@, false));
        assert(all =~= head + g + n + s + d + (t + e));
    }
    if 0 <= k < c.sockets@.len() {
        assert(texts(c.sockets@)[k] == c.sockets@[k]@);
        let rule = "  /run/user/*/"@ + c.sockets@[k]@ + " rw,\n"@;
        lemma_socket_in(texts(c.sockets@), k);
        lemma_holds_part(head + g + n, s, d + t + e, rule);
        assert(all =~= head + g + n + s + (d + t + e));
    }
    if c.network {
        lemma_holds_self(n);
        lemma_holds_part(head + g, n, s + d + t + e, n);
        assert(all =~= head + g + n + (s + d + t + e));
    }
}

proof fn lemma_holds_self(p: Seq<char>)
    ensures
        holds(p, p),
{
    lemma_find_from(p, p, 0);
    assert(p.subrange(0, p.len() as int) =~= p);
    assert(occurs_at(p, p, 0));
}

proof fn lemma_rule_in(grants: Seq<Seq<char>>, k: int)
    requires
        0 <= k < grants.len(),
    ensures
        holds(grant_rules(grants), grant_rule(grants[k])),
    decreases grants.len(),
{
    let r = grants.drop_last();
    let head = grant_rules(r);
    let t = grant_rule(grants.last());
    if k < r.len() {
        lemma_rule_in(r, k);
        assert(r[k] == grants[k]);
        lemma_holds_part(Seq::empty(), head, t, grant_rule(grants[k]));
        assert(Seq::<char>::empty() + head + t =~= head + t);
    } else {
        lemma_holds_self(t);
        lemma_holds_part(head, t, Seq::empty(), t);
        assert(head + t + Seq::<char>::empty() =~= head + t);
    }
}

proof fn lemma_device_in(devices: Seq<Seq<char>>, k: int)
    requires
        0 <= k < devices.len(),
    ensures
        holds(device_rules(devices), path_rule(devices[k], false)),
    decreases devices.len(),
{
    let r = devices.drop_last();
    let head = device_rules(r);
    let t = path_rule(devices.last(), false);
    if k < r.len() {
        lemma_device_in(r, k);
        assert(r[k] == devices[k]);
        lemma_holds_part(Seq::empty(), head, t, path_rule(devices[k], false));
        assert(Seq::<char>::empty() + head + t =~= head + t);
    } else {
        lemma_holds_self(t);
        lemma_holds_part(head, t, Seq::empty(), t);
        assert(head + t + Seq::<char>::empty() =~= head + t);
    }
}

proof fn lemma_socket_in(sockets: Seq<Seq<char>>, k: int)
    requires
        0 <= k < sockets.len(),
    ensures
        holds(socket_rules(sockets), "  /run/user/*/"@ + sockets[k] + " rw,\n"@),
    decreases sockets.len(),
{
    let r = sockets.drop_last();
    let head = socket_rules(r);
    let x = "  /run/user/*/"@ + sockets.last() + " rw,\n"@;
    let t = x + "  /tmp/.X11-unix/"@ + sockets.last() + " rw,\n"@;
    if k < r.len() {
        lemma_socket_in(r, k);
        assert(r[k] == sockets[k]);
        lemma_holds_part(Seq::empty(), head, t, "  /run/user/*/"@ + sockets[k] + " rw,\n"@);
        assert(Seq::<char>::empty() + head + t =~= head + t);
    } else {
        let rest = "  /tmp/.X11-unix/"@ + sockets.last() + " rw,\n"@;
        lemma_holds_self(x);
        lemma_holds_part(head, x, rest, x);
        assert(head + x + rest =~= head + t);
    }
}

/// Sockets and devices are passed on each by its flag, and options of the
/// backend that are texts by their names.
pub proof fn law_named_things_are_passed_on(flag: Seq<char>, names: Seq<Seq<char>>, k: int)
    requires
        0 <= k < names.len(),
    ensures
        flagged(flag, names).len() == 2 * names.len(),
        flagged(flag, names)[2 * k] == flag,
        flagged(flag, names)[2 * k + 1] == names[k],
    decreases names.len(),
{
    let r = names.drop_last();
    if k < r.len() {
        law_named_things_are_passed_on(flag, r, k);
    } else if r.len() > 0 {
        law_named_things_are_passed_on(flag, r, 0);
    }
}

/// Options of a backend that are texts are passed on by name, and no others.
pub proof fn law_text_options_are_passed_on(options: Seq<(Seq<char>, Json)>, arg: Seq<char>)
    ensures
        option_args(options).contains(arg) <==> exists|i: int|
            0 <= i < options.len() && ((#[trigger] options[i]).1@ matches JsonView::Text(s) && arg
                == "--"@ + options[i].0 + "="@ + s),
    decreases options.len(),
{
    if options.len() > 0 {
        let r = options.drop_last();
        let before = option_args(r);
        let all = option_args(options);
        let last = options.len() - 1;
        law_text_options_are_passed_on(r, arg);
        assert(options[last] == options.last());
        if all.contains(arg) {
            let k = choose|k: int| 0 <= k < all.len() && all[k] == arg;
            if k < before.len() {
                assert(before[k] == arg);
                assert(before.contains(arg));
                let i = choose|i: int|
                    0 <= i < r.len() && ((#[trigger] r[i]).1@ matches JsonView::Text(s) && arg
                        == "--"@ + r[i].0 + "="@ + s);
                assert(options[i] == r[i]);
            }
        }
        if exists|i: int|
            0 <= i < options.len() && ((#[trigger] options[i]).1@ matches JsonView::Text(s) && arg
                == "--"@ + options[i].0 + "="@ + s) {
            let i = choose|i: int|
                0 <= i < options.len() && ((#[trigger] options[i]).1@ matches JsonView::Text(s)
                    && arg == "--"@ + options[i].0 + "="@ + s);
            if i == last {
                assert(all[before.len() as int] == arg);
            } else {
                assert(r[i] == options[i]);
                assert(before.contains(arg));
                let k = choose|k: int| 0 <= k < before.len() && before[k] == arg;
                assert(all[k] == arg);
            }
        }
    }
}

/// The assembled binary of an app counts before its blob, and a declared
/// variable before an inherited one.
pub proof fn law_recorded_things_count_first(
    b: Seq<char>,
    root: Seq<char>,
    pkg: Seq<char>,
    blob: Seq<char>,
    vars: Seq<(Seq<char>, String)>,
    key: Seq<char>,
    inherited: Option<Seq<char>>,
)
    ensures
        binary_of(Some(b), root, pkg, blob) == path_in(path_in(root, pkg), b),
        binary_of(None, root, pkg, blob) == blob,
        lookup(vars, key) is Some ==> declared_over(vars, key, inherited) == Some(
            lookup(vars, key)->0@,
        ),
        lookup(vars, key) is None ==> declared_over(vars, key, inherited) == inherited,
{
}

} // verus!
