//! The boot test: what is launched, what a serial console proves, and when a
//! boot or a sequence of boots has passed.
//!
//! A boot counts only once it has completed: no kernel panic, userspace, the
//! handoff of this project's own initramfs, and a target that systemd reaches
//! only when the boot transaction is finished. The handoff alone is a sign of
//! life.

use crate::json_doc::{array, object, Json, JsonView};
use crate::text::{
    law_cut_at_the_first, law_cut_at_the_last, law_ends_are_taken_off,
    law_joined_texts_are_split_again, law_numbers_are_read_back, lemma_decimal_plain,
    lemma_filter_first, lemma_trimmed_plain, before_suffix, contains, copy_texts, cut, decimal, holds, is_same_path, join, join_path, joined,
    lemma_texts_push, lines, list_contains, lowered, opt_pair, opt_str, opt_text, parse_unsigned,
    parts, path_in, rcut, rsplit_once, same_path, signed_decimal, split_char, split_lines,
    split_once, strip_suffix, texts, to_decimal, to_lowercase, to_signed_decimal, trim, trimmed,
    unsigned_value,
};
use vstd::prelude::*;

verus! {

/// How long a boot may take, in seconds, where nothing else is said.
pub const DEFAULT_TIMEOUT_SECS: u64 = 120;

/// Any of these in the console proves that systemd ran.
pub const USERSPACE_MARKERS: [&'static str; 4] = [
    "systemd[1]:",
    "Reached target ",
    "Started ",
    "Welcome to ",
];

/// What the initramfs prints before it hands over to systemd.
pub const BOOT_HANDOFF_MARKER: &'static str = "SHUTTLE-INIT: switch-root";

/// The target at which a try-boot is assessed.
pub const BOOT_COMPLETE_MARKER: &'static str = "Reached target Boot Completion Check";

/// The classic default target.
pub const MULTI_USER_MARKER: &'static str = "Reached target Multi-User System";

/// The other default target.
pub const GRAPHICAL_MARKER: &'static str = "Reached target Graphical Interface";

/// Any of these proves that the boot completed.
pub const COMPLETION_MARKERS: [&'static str; 3] = [
    "Reached target Boot Completion Check",
    "Reached target Multi-User System",
    "Reached target Graphical Interface",
];

/// Any of these fails a run.
pub const PANIC_MARKERS: [&'static str; 3] = [
    "Kernel panic",
    "end Kernel panic",
    "panic - not syncing",
];

/// The unit that activates a runtime at boot.
pub const ACTIVATE_UNIT: &'static str = "shuttle-runtime-activate";

// ── What is launched ──

/// A UEFI firmware: the code, and a writable copy of the variables.
#[derive(Debug)]
pub struct Firmware {
    pub code: String,
    pub vars: String,
}

/// The accelerator of a virtual machine.
#[derive(Debug, Clone, Copy, PartialEq, Eq, Structural)]
pub enum Accel {
    Kvm,
    Tcg,
}

/// The name of an accelerator.
pub open spec fn accel_name(a: Accel) -> Seq<char> {
    match a {
        Accel::Kvm => "kvm"@,
        Accel::Tcg => "tcg"@,
    }
}

impl Accel {
    /// What QEMU calls the accelerator.
    pub fn qemu_arg(self) -> (r: &'static str)
        ensures
            r@ == accel_name(self),
    {
        match self {
            Accel::Kvm => "kvm",
            Accel::Tcg => "tcg",
        }
    }
}

/// What is expected of the try-boot counters before a boot.
#[derive(Debug, Clone, Copy, PartialEq, Eq, Structural)]
pub struct ExpectedCounters {
    pub tries_left: u32,
    /// `None` where any count will do.
    pub tries_done: Option<u32>,
}

/// The try-boot counters of a boot entry.
#[derive(Debug, Clone, Copy, PartialEq, Eq, Structural)]
pub struct TryCounters {
    pub tries_left: u32,
    pub tries_done: u32,
}

/// Everything that a boot needs.
#[derive(Debug)]
pub struct BootTest {
    pub image: String,
    /// Where the serial console is captured.
    pub log: String,
    pub accel: Accel,
    /// In seconds.
    pub timeout: u64,
    pub firmware: Firmware,
    pub qemu: String,
    pub timeout_bin: String,
    /// Whether this host can use KVM.
    pub kvm_available: bool,
    /// What must appear in the console, beyond the rest.
    pub required: Vec<String>,
    /// How many boots to run on one copy of the image.
    pub runs: u32,
    /// What to expect before each boot; nothing where counting is not asserted.
    pub expect_counters: Vec<ExpectedCounters>,
    /// Whether a boot may pass without having completed.
    pub allow_no_completion: bool,
}

/// The arguments of the virtual machine.
pub open spec fn qemu_args(t: BootTest, accel: Accel) -> Seq<Seq<char>> {
    seq![
        t.qemu@,
        "-machine"@,
        "q35"@,
        "-accel"@,
        accel_name(accel),
        "-m"@,
        "2048"@,
        "-drive"@,
        "if=pflash,format=raw,readonly=on,file="@ + t.firmware.code@,
        "-drive"@,
        "if=pflash,format=raw,file="@ + t.firmware.vars@,
        "-drive"@,
        "file="@ + t.image@ + ",format=raw,if=virtio"@,
        "-display"@,
        "none"@,
        "-monitor"@,
        "none"@,
        "-serial"@,
        "file:"@ + t.log@,
        "-no-reboot"@,
    ]
}

/// The arguments that bound a boot by time.
pub open spec fn timeout_args(t: BootTest) -> Seq<Seq<char>> {
    seq![t.timeout_bin@, "-s"@, "TERM"@, "-k"@, "5"@, decimal(t.timeout as nat)]
}

fn with(head: &str, value: &str) -> (r: String)
    ensures
        r@ == head@ + value@,
{
    let mut out = head.to_owned();
    out.append(value);
    out
}

/// The arguments of the virtual machine. Writes to the image are kept: a
/// snapshot would throw away what a boot counts.
pub fn qemu_argv(test: &BootTest, accel: Accel) -> (r: Vec<String>)
    ensures
        texts(r@) == qemu_args(*test, accel),
{
    let mut disk = with("file=", test.image.as_str());
    disk.append(",format=raw,if=virtio");
    let mut out: Vec<String> = Vec::new();
    out.push(test.qemu.clone());
    out.push("-machine".to_owned());
    out.push("q35".to_owned());
    out.push("-accel".to_owned());
    out.push(accel.qemu_arg().to_owned());
    out.push("-m".to_owned());
    out.push("2048".to_owned());
    out.push("-drive".to_owned());
    out.push(with("if=pflash,format=raw,readonly=on,file=", test.firmware.code.as_str()));
    out.push("-drive".to_owned());
    out.push(with("if=pflash,format=raw,file=", test.firmware.vars.as_str()));
    out.push("-drive".to_owned());
    out.push(disk);
    out.push("-display".to_owned());
    out.push("none".to_owned());
    out.push("-monitor".to_owned());
    out.push("none".to_owned());
    out.push("-serial".to_owned());
    out.push(with("file:", test.log.as_str()));
    out.push("-no-reboot".to_owned());
    assert(texts(out@) =~= qemu_args(*test, accel));
    out
}

/// The arguments that are run: the virtual machine, ended when its time is up.
pub fn wrapper_argv(test: &BootTest, accel: Accel) -> (r: Vec<String>)
    ensures
        texts(r@) == timeout_args(*test) + qemu_args(*test, accel),
{
    let mut out: Vec<String> = Vec::new();
    out.push(test.timeout_bin.clone());
    out.push("-s".to_owned());
    out.push("TERM".to_owned());
    out.push("-k".to_owned());
    out.push("5".to_owned());
    out.push(to_decimal(test.timeout));
    assert(texts(out@) =~= timeout_args(*test));
    let mut more = qemu_argv(test, accel);
    let ghost head = out@;
    let ghost tail = more@;
    out.append(&mut more);
    assert(texts(out@) =~= texts(head) + texts(tail));
    out
}

/// Whether one of the arguments is a word.
pub open spec fn mentions(args: Seq<Seq<char>>, word: Seq<char>) -> bool {
    exists|i: int| 0 <= i < args.len() && #[trigger] args[i] == word
}

/// A boot never runs on a snapshot: the arguments have no place for the flag.
pub proof fn law_boots_keep_their_writes(t: BootTest, accel: Accel)
    requires
        t.qemu@ != "-snapshot"@,
        t.timeout_bin@ != "-snapshot"@,
    ensures
        !mentions(timeout_args(t) + qemu_args(t, accel), "-snapshot"@),
{
    let args = timeout_args(t) + qemu_args(t, accel);
    let s = "-snapshot"@;
    reveal_strlit("-snapshot");
    reveal_strlit("-s");
    reveal_strlit("TERM");
    reveal_strlit("-k");
    reveal_strlit("5");
    reveal_strlit("-machine");
    reveal_strlit("q35");
    reveal_strlit("-accel");
    reveal_strlit("kvm");
    reveal_strlit("tcg");
    reveal_strlit("-m");
    reveal_strlit("2048");
    reveal_strlit("-drive");
    reveal_strlit("-display");
    reveal_strlit("none");
    reveal_strlit("-monitor");
    reveal_strlit("-serial");
    reveal_strlit("-no-reboot");
    reveal_strlit("if=pflash,format=raw,readonly=on,file=");
    reveal_strlit("if=pflash,format=raw,file=");
    reveal_strlit("file=");
    reveal_strlit("file:");
    assert(s.len() == 9 && s[0] == '-' && s[1] == 's' && s[2] == 'n');
    assert(args.len() == 26);
    let d = decimal(t.timeout as nat);
    lemma_decimal_digit(t.timeout as nat);
    assert(args[5][0] != '-');
    assert(args[14][0] == 'i');
    assert(args[16][0] == 'i');
    assert(args[18][0] == 'f');
    assert(args[24][0] == 'f');
    assert forall|i: int| 0 <= i < args.len() implies #[trigger] args[i] != s by {
        if args[i] == s {
            assert(args[i].len() == 9 && args[i][0] == '-' && args[i][1] == 's');
        }
    }
}

proof fn lemma_decimal_digit(n: nat)
    ensures
        decimal(n).len() > 0,
        decimal(n)[0] != '-',
    decreases n,
{
    if n >= 10 {
        lemma_decimal_digit(n / 10);
    }
}

// ── What a console proves ──

/// What the serial console proved.
#[derive(Debug)]
pub struct Evidence {
    /// systemd started.
    pub userspace: bool,
    /// The first target that was reached.
    pub target: Option<String>,
    /// The first target or service.
    pub service: Option<String>,
    /// The handoff of the initramfs.
    pub handoff: Option<String>,
    /// The first completion check.
    pub boot_complete: Option<String>,
    /// The first sign that the boot completed.
    pub completion: Option<String>,
    /// The first panic.
    pub panic: Option<String>,
    /// Whether the activation unit was named.
    pub activate: bool,
    /// Which of the userspace markers appeared.
    pub markers: Vec<String>,
}

/// The model of an [`Evidence`].
pub struct EvidenceView {
    pub userspace: bool,
    pub target: Option<Seq<char>>,
    pub service: Option<Seq<char>>,
    pub handoff: Option<Seq<char>>,
    pub boot_complete: Option<Seq<char>>,
    pub completion: Option<Seq<char>>,
    pub panic: Option<Seq<char>>,
    pub activate: bool,
    pub markers: Seq<Seq<char>>,
}

impl View for Evidence {
    type V = EvidenceView;

    open spec fn view(&self) -> EvidenceView {
        EvidenceView {
            userspace: self.userspace,
            target: opt_text(self.target),
            service: opt_text(self.service),
            handoff: opt_text(self.handoff),
            boot_complete: opt_text(self.boot_complete),
            completion: opt_text(self.completion),
            panic: opt_text(self.panic),
            activate: self.activate,
            markers: texts(self.markers@),
        }
    }
}

/// The lines that count.
#[derive(Debug, Clone, Copy, PartialEq, Eq, Structural)]
pub enum LineKind {
    Target,
    Service,
    BootComplete,
    Completion,
    Handoff,
    /// A line with one of the panic markers.
    Panic,
}

/// Whether a line is of a kind.
pub open spec fn line_is(kind: LineKind, line: Seq<char>) -> bool {
    match kind {
        LineKind::Target => holds(line, "Reached target "@),
        LineKind::Service => holds(line, "Reached target "@) || (holds(line, "Started "@) && holds(
            line,
            ".service"@,
        )),
        LineKind::BootComplete => holds(line, BOOT_COMPLETE_MARKER@),
        LineKind::Completion => holds(line, COMPLETION_MARKERS@[0]@) || holds(
            line,
            COMPLETION_MARKERS@[1]@,
        ) || holds(line, COMPLETION_MARKERS@[2]@),
        LineKind::Handoff => holds(line, BOOT_HANDOFF_MARKER@),
        LineKind::Panic => holds(line, PANIC_MARKERS@[0]@) || holds(line, PANIC_MARKERS@[1]@)
            || holds(line, PANIC_MARKERS@[2]@),
    }
}

fn is_line(kind: LineKind, line: &str) -> (r: bool)
    ensures
        r == line_is(kind, line@),
{
    match kind {
        LineKind::Target => contains(line, "Reached target "),
        LineKind::Service => contains(line, "Reached target ") || (contains(line, "Started ")
            && contains(line, ".service")),
        LineKind::BootComplete => contains(line, BOOT_COMPLETE_MARKER),
        LineKind::Completion => contains(line, COMPLETION_MARKERS[0]) || contains(
            line,
            COMPLETION_MARKERS[1],
        ) || contains(line, COMPLETION_MARKERS[2]),
        LineKind::Handoff => contains(line, BOOT_HANDOFF_MARKER),
        LineKind::Panic => contains(line, PANIC_MARKERS[0]) || contains(line, PANIC_MARKERS[1])
            || contains(line, PANIC_MARKERS[2]),
    }
}

/// The first line of a kind, trimmed.
pub open spec fn first_of(kind: LineKind, rows: Seq<Seq<char>>) -> Option<Seq<char>>
    decreases rows.len(),
{
    if rows.len() == 0 {
        None
    } else if line_is(kind, rows[0]) {
        Some(trimmed(rows[0]))
    } else {
        first_of(kind, rows.skip(1))
    }
}

fn find_line(kind: LineKind, rows: &Vec<String>) -> (r: Option<String>)
    ensures
        opt_text(r) == first_of(kind, texts(rows@)),
{
    let ghost all = texts(rows@);
    let mut i: usize = 0;
    assert(all.skip(0) =~= all);
    while i < rows.len()
        invariant
            i <= rows@.len(),
            all == texts(rows@),
            first_of(kind, all) == first_of(kind, all.skip(i as int)),
        decreases rows@.len() - i,
    {
        assert(all.skip(i as int)[0] == rows@[i as int]@);
        assert(all.skip(i as int).skip(1) =~= all.skip(i + 1));
        if is_line(kind, rows[i].as_str()) {
            return Some(trim(rows[i].as_str()));
        }
        i += 1;
    }
    None
}

/// The userspace markers, among the first `n`, that a text holds.
pub open spec fn markers_in(text: Seq<char>, n: int) -> Seq<Seq<char>>
    decreases n,
{
    if n <= 0 {
        Seq::empty()
    } else if holds(text, USERSPACE_MARKERS@[n - 1]@) {
        markers_in(text, n - 1).push(USERSPACE_MARKERS@[n - 1]@)
    } else {
        markers_in(text, n - 1)
    }
}

/// What a serial console proves.
pub open spec fn evidence_of(text: Seq<char>) -> EvidenceView {
    let rows = lines(text);
    EvidenceView {
        userspace: markers_in(text, 4).len() > 0,
        target: first_of(LineKind::Target, rows),
        service: first_of(LineKind::Service, rows),
        handoff: first_of(LineKind::Handoff, rows),
        boot_complete: first_of(LineKind::BootComplete, rows),
        completion: first_of(LineKind::Completion, rows),
        panic: first_of(LineKind::Panic, rows),
        activate: holds(text, ACTIVATE_UNIT@),
        markers: markers_in(text, 4),
    }
}

/// Reads what a serial console proves.
pub fn analyze_log(text: &str) -> (r: Evidence)
    ensures
        r@ == evidence_of(text@),
{
    let rows = split_lines(text);
    let mut markers: Vec<String> = Vec::new();
    let mut i: usize = 0;
    assert(texts(markers@) =~= markers_in(text@, 0));
    while i < 4
        invariant
            i <= 4,
            texts(markers@) == markers_in(text@, i as int),
        decreases 4 - i,
    {
        let ghost before = markers@;
        let m = USERSPACE_MARKERS[i];
        if contains(text, m) {
            markers.push(m.to_owned());
            assert(texts(markers@) =~= texts(before).push(m@));
        }
        i += 1;
    }
    assert(texts(markers@).len() == markers@.len());
    Evidence {
        userspace: markers.len() > 0,
        target: find_line(LineKind::Target, &rows),
        service: find_line(LineKind::Service, &rows),
        handoff: find_line(LineKind::Handoff, &rows),
        boot_complete: find_line(LineKind::BootComplete, &rows),
        completion: find_line(LineKind::Completion, &rows),
        panic: find_line(LineKind::Panic, &rows),
        activate: contains(text, ACTIVATE_UNIT),
        markers,
    }
}

// ── The verdict ──

/// Why a boot did not pass.
#[derive(Debug, PartialEq, Eq)]
pub enum Failure {
    /// The kernel panicked.
    Panic,
    /// The time was up before userspace.
    Timeout,
    /// The machine ended before userspace.
    NoUserspace,
    /// Userspace came, but not through this project's initramfs.
    NoHandoff,
    /// The boot was handed over and never completed.
    NoCompletion,
    /// A required text is missing.
    MissingRequirement(String),
    /// The virtual machine failed.
    Qemu { code: i32, stderr: String },
}

/// The model of a [`Failure`].
pub enum FailureView {
    Panic,
    Timeout,
    NoUserspace,
    NoHandoff,
    NoCompletion,
    MissingRequirement(Seq<char>),
    Qemu(i32, Seq<char>),
}

impl View for Failure {
    type V = FailureView;

    open spec fn view(&self) -> FailureView {
        match *self {
            Failure::Panic => FailureView::Panic,
            Failure::Timeout => FailureView::Timeout,
            Failure::NoUserspace => FailureView::NoUserspace,
            Failure::NoHandoff => FailureView::NoHandoff,
            Failure::NoCompletion => FailureView::NoCompletion,
            Failure::MissingRequirement(s) => FailureView::MissingRequirement(s@),
            Failure::Qemu { code, stderr } => FailureView::Qemu(code, stderr@),
        }
    }
}

/// The model of an optional failure.
pub open spec fn failure_view(o: Option<Failure>) -> Option<FailureView> {
    match o {
        Some(f) => Some(f@),
        None => None,
    }
}

impl Failure {
    /// The failure's stable name.
    pub fn label(&self) -> (r: &'static str)
        ensures
            r@ == match self@ {
                FailureView::Panic => "panic"@,
                FailureView::Timeout => "timeout"@,
                FailureView::NoUserspace => "no-userspace"@,
                FailureView::NoHandoff => "no-handoff"@,
                FailureView::NoCompletion => "no-completion"@,
                FailureView::MissingRequirement(_) => "missing-requirement"@,
                FailureView::Qemu(_, _) => "qemu-error"@,
            },
    {
        match self {
            Failure::Panic => "panic",
            Failure::Timeout => "timeout",
            Failure::NoUserspace => "no-userspace",
            Failure::NoHandoff => "no-handoff",
            Failure::NoCompletion => "no-completion",
            Failure::MissingRequirement(_) => "missing-requirement",
            Failure::Qemu { .. } => "qemu-error",
        }
    }
}

/// The first required text that is missing.
pub open spec fn first_missing(text: Seq<char>, required: Seq<Seq<char>>) -> Option<Seq<char>>
    decreases required.len(),
{
    if required.len() == 0 {
        None
    } else if !holds(text, required[0]) {
        Some(required[0])
    } else {
        first_missing(text, required.skip(1))
    }
}

/// Why a finished run did not pass. A panic counts before everything else; the
/// end of the time counts only where userspace never came.
pub open spec fn verdict(
    text: Seq<char>,
    ev: EvidenceView,
    code: i32,
    stderr: Seq<char>,
    required: Seq<Seq<char>>,
    allow_no_completion: bool,
) -> Option<FailureView> {
    if ev.panic is Some {
        Some(FailureView::Panic)
    } else if !ev.userspace {
        if code == 124 {
            Some(FailureView::Timeout)
        } else if code != 0 && trimmed(stderr).len() > 0 {
            Some(FailureView::Qemu(code, trimmed(stderr)))
        } else {
            Some(FailureView::NoUserspace)
        }
    } else if ev.handoff is None {
        Some(FailureView::NoHandoff)
    } else if ev.completion is None && !allow_no_completion {
        Some(FailureView::NoCompletion)
    } else {
        match first_missing(text, required) {
            Some(s) => Some(FailureView::MissingRequirement(s)),
            None => None,
        }
    }
}

/// Judges a finished run.
pub fn classify(
    text: &str,
    evidence: &Evidence,
    code: i32,
    stderr: &str,
    required: &Vec<String>,
    allow_no_completion: bool,
) -> (r: Option<Failure>)
    ensures
        failure_view(r) == verdict(
            text@,
            evidence@,
            code,
            stderr@,
            texts(required@),
            allow_no_completion,
        ),
{
    if evidence.panic.is_some() {
        return Some(Failure::Panic);
    }
    if !evidence.userspace {
        if code == 124 {
            return Some(Failure::Timeout);
        }
        let said = trim(stderr);
        if code != 0 && !said.as_str().is_empty() {
            return Some(Failure::Qemu { code, stderr: said });
        }
        return Some(Failure::NoUserspace);
    }
    if evidence.handoff.is_none() {
        return Some(Failure::NoHandoff);
    }
    if evidence.completion.is_none() && !allow_no_completion {
        return Some(Failure::NoCompletion);
    }
    let ghost all = texts(required@);
    let ghost whole = verdict(text@, evidence@, code, stderr@, all, allow_no_completion);
    let mut i: usize = 0;
    assert(all.skip(0) =~= all);
    while i < required.len()
        invariant
            i <= required@.len(),
            all == texts(required@),
            whole == (match first_missing(text@, all) {
                Some(s) => Some(FailureView::MissingRequirement(s)),
                None => None,
            }),
            whole == verdict(text@, evidence@, code, stderr@, all, allow_no_completion),
            first_missing(text@, all) == first_missing(text@, all.skip(i as int)),
        decreases required@.len() - i,
    {
        assert(all.skip(i as int)[0] == required@[i as int]@);
        assert(all.skip(i as int).skip(1) =~= all.skip(i + 1));
        if !contains(text, required[i].as_str()) {
            return Some(Failure::MissingRequirement(required[i].clone()));
        }
        i += 1;
    }
    None
}

/// The result of a boot.
#[derive(Debug)]
pub struct Outcome {
    /// The accelerator that was used in the end.
    pub accel: Accel,
    pub argv: Vec<String>,
    pub evidence: Evidence,
    pub failure: Option<Failure>,
    pub timeout: u64,
}

/// The best thing to show of a boot that passed.
pub open spec fn best_line(ev: EvidenceView) -> Seq<char> {
    match ev.completion {
        Some(l) => l,
        None => match ev.handoff {
            Some(l) => l,
            None => match ev.target {
                Some(l) => l,
                None => "userspace"@,
            },
        },
    }
}

/// A boot's result in one line.
pub open spec fn outcome_text(o: Outcome) -> Seq<char> {
    match failure_view(o.failure) {
        None => "booted ("@ + accel_name(o.accel) + "): "@ + best_line(o.evidence@) + (
        if o.evidence.activate {
            "; "@ + ACTIVATE_UNIT@ + " ran"@
        } else {
            Seq::empty()
        }),
        Some(FailureView::Panic) => "kernel panic in guest: "@ + (match o.evidence@.panic {
            Some(l) => l,
            None => "panic"@,
        }),
        Some(FailureView::Timeout) => "boot timed out after "@ + decimal(o.timeout as nat)
            + "s with no userspace marker — the image may boot with 'quiet' (systemd console output suppressed); add 'systemd.show_status=1' to the kernel params or raise --timeout"@,
        Some(FailureView::NoUserspace) =>
            "boot did not reach userspace (no systemd/target marker in the serial log)"@,
        Some(FailureView::NoHandoff) => "userspace reached but no shuttle init handoff ('"@
            + BOOT_HANDOFF_MARKER@
            + "') in the serial log — the image did not boot through shuttle's own initramfs, or the boot never got as far as the verify+switch_root handoff; raise --timeout or inspect the serial evidence"@,
        Some(FailureView::NoCompletion) =>
            "boot handed off to systemd but never completed: no completion target line ('"@
            + BOOT_COMPLETE_MARKER@ + "', '"@ + MULTI_USER_MARKER@ + "', or '"@ + GRAPHICAL_MARKER@
            + "') in the serial log — the boot stalled, a unit failed, or it rebooted into emergency/rescue after the handoff (possibly killed by the --timeout bound first). Pass --allow-no-completion only for images that legitimately never reach a completed target"@,
        Some(FailureView::MissingRequirement(s)) =>
            "required marker not found in the serial log: "@ + s,
        Some(FailureView::Qemu(code, stderr)) => "QEMU failed (exit "@ + signed_decimal(
            code as int,
        ) + "): "@ + trimmed(stderr),
    }
}

impl Outcome {
    /// Whether every assertion about the boot holds.
    pub fn passed(&self) -> (r: bool)
        ensures
            r == (self.failure is None),
    {
        self.failure.is_none()
    }

    /// The result in one line.
    pub fn message(&self) -> (r: String)
        ensures
            r@ == outcome_text(*self),
    {
        match &self.failure {
            None => {
                let mut out = "booted (".to_owned();
                out.append(self.accel.qemu_arg());
                out.append("): ");
                match &self.evidence.completion {
                    Some(l) => {
                        out.append(l.as_str());
                    },
                    None => match &self.evidence.handoff {
                        Some(l) => {
                            out.append(l.as_str());
                        },
                        None => match &self.evidence.target {
                            Some(l) => {
                                out.append(l.as_str());
                            },
                            None => {
                                out.append("userspace");
                            },
                        },
                    },
                }
                let mut tail = String::new();
                assert(tail@ =~= Seq::<char>::empty());
                if self.evidence.activate {
                    tail = "; ".to_owned();
                    tail.append(ACTIVATE_UNIT);
                    tail.append(" ran");
                }
                out.append(tail.as_str());
                out
            },
            Some(Failure::Panic) => {
                let mut out = "kernel panic in guest: ".to_owned();
                match &self.evidence.panic {
                    Some(l) => {
                        out.append(l.as_str());
                    },
                    None => {
                        out.append("panic");
                    },
                }
                out
            },
            Some(Failure::Timeout) => {
                let mut out = "boot timed out after ".to_owned();
                out.append(to_decimal(self.timeout).as_str());
                out.append(
                    "s with no userspace marker — the image may boot with 'quiet' (systemd console output suppressed); add 'systemd.show_status=1' to the kernel params or raise --timeout",
                );
                out
            },
            Some(
                Failure::NoUserspace,
            ) => "boot did not reach userspace (no systemd/target marker in the serial log)".to_owned(),
            Some(Failure::NoHandoff) => {
                let mut out = "userspace reached but no shuttle init handoff ('".to_owned();
                out.append(BOOT_HANDOFF_MARKER);
                out.append(
                    "') in the serial log — the image did not boot through shuttle's own initramfs, or the boot never got as far as the verify+switch_root handoff; raise --timeout or inspect the serial evidence",
                );
                out
            },
            Some(Failure::NoCompletion) => {
                let mut out = "boot handed off to systemd but never completed: no completion target line ('".to_owned();
                out.append(BOOT_COMPLETE_MARKER);
                out.append("', '");
                out.append(MULTI_USER_MARKER);
                out.append("', or '");
                out.append(GRAPHICAL_MARKER);
                out.append(
                    "') in the serial log — the boot stalled, a unit failed, or it rebooted into emergency/rescue after the handoff (possibly killed by the --timeout bound first). Pass --allow-no-completion only for images that legitimately never reach a completed target",
                );
                out
            },
            Some(Failure::MissingRequirement(s)) => with(
                "required marker not found in the serial log: ",
                s.as_str(),
            ),
            Some(Failure::Qemu { code, stderr }) => {
                let mut out = "QEMU failed (exit ".to_owned();
                out.append(to_signed_decimal(*code).as_str());
                out.append("): ");
                out.append(trim(stderr.as_str()).as_str());
                out
            },
        }
    }
}

// ── One boot ──

/// Whether a virtual machine failed for want of KVM.
pub open spec fn kvm_failed(code: i32, stderr: Seq<char>, log: Seq<char>) -> bool {
    code != 0 && code != 124 && holds(lowered(stderr + "\n"@ + log), "kvm"@)
}

/// Whether a virtual machine failed for want of KVM.
pub fn is_kvm_failure(code: i32, stderr: &str, log: &str) -> (r: bool)
    ensures
        r == kvm_failed(code, stderr@, log@),
{
    if code == 0 || code == 124 {
        return false;
    }
    let mut all = stderr.to_owned();
    all.append("\n");
    all.append(log);
    contains(to_lowercase(all.as_str()).as_str(), "kvm")
}

/// One attempt to boot: the accelerator, and what is run.
#[derive(Debug)]
pub struct Attempt {
    pub accel: Accel,
    pub argv: Vec<String>,
}

/// Whether an attempt runs a test on an accelerator.
pub open spec fn attempts(a: Attempt, test: BootTest, accel: Accel) -> bool {
    a.accel == accel && texts(a.argv@) == timeout_args(test) + qemu_args(test, accel)
}

/// The accelerator that a boot starts with: KVM only where this host has it.
pub open spec fn first_accel(test: BootTest) -> Accel {
    if test.accel is Kvm && !test.kvm_available {
        Accel::Tcg
    } else {
        test.accel
    }
}

/// The first attempt at a boot.
pub fn first_attempt(test: &BootTest) -> (r: Attempt)
    ensures
        attempts(r, *test, first_accel(*test)),
{
    let accel = if test.accel == Accel::Kvm && !test.kvm_available {
        Accel::Tcg
    } else {
        test.accel
    };
    Attempt { accel, argv: wrapper_argv(test, accel) }
}

/// What follows an attempt.
#[derive(Debug)]
pub enum BootStep {
    /// Another attempt, without KVM.
    Retry(Attempt),
    /// The result.
    Done(Outcome),
}

/// Decides what follows an attempt that ended with a code, an error text and a
/// console: one that failed for want of KVM is made once more without it; any
/// other is judged.
pub fn after_attempt(test: &BootTest, attempt: Attempt, code: i32, stderr: &str, log: &str) -> (r:
    BootStep)
    ensures
        if attempt.accel is Kvm && kvm_failed(code, stderr@, log@) {
            r matches BootStep::Retry(a) && attempts(a, *test, Accel::Tcg)
        } else {
            r matches BootStep::Done(o) && o.accel == attempt.accel && texts(o.argv@) == texts(
                attempt.argv@,
            ) && o.evidence@ == evidence_of(log@) && o.timeout == test.timeout && failure_view(
                o.failure,
            ) == verdict(
                log@,
                evidence_of(log@),
                code,
                stderr@,
                texts(test.required@),
                test.allow_no_completion,
            )
        },
{
    if attempt.accel == Accel::Kvm && is_kvm_failure(code, stderr, log) {
        return BootStep::Retry(
            Attempt { accel: Accel::Tcg, argv: wrapper_argv(test, Accel::Tcg) },
        );
    }
    let evidence = analyze_log(log);
    let failure = classify(
        log,
        &evidence,
        code,
        stderr,
        &test.required,
        test.allow_no_completion,
    );
    BootStep::Done(
        Outcome {
            accel: attempt.accel,
            argv: attempt.argv,
            evidence,
            failure,
            timeout: test.timeout,
        },
    )
}

/// A boot that passes has completed, unless that was waived: its console has
/// no panic, userspace, the handoff, a completion target, and all that was
/// required.
pub proof fn law_passing_boots_completed(
    text: Seq<char>,
    code: i32,
    stderr: Seq<char>,
    required: Seq<Seq<char>>,
    allow_no_completion: bool,
)
    requires
        verdict(text, evidence_of(text), code, stderr, required, allow_no_completion) is None,
    ensures
        evidence_of(text).panic is None,
        evidence_of(text).userspace,
        evidence_of(text).handoff is Some,
        allow_no_completion || evidence_of(text).completion is Some,
        forall|i: int| 0 <= i < required.len() ==> holds(text, #[trigger] required[i]),
{
    lemma_nothing_missing(text, required);
}

proof fn lemma_nothing_missing(text: Seq<char>, required: Seq<Seq<char>>)
    requires
        first_missing(text, required) is None,
    ensures
        forall|i: int| 0 <= i < required.len() ==> holds(text, #[trigger] required[i]),
    decreases required.len(),
{
    if required.len() > 0 {
        lemma_nothing_missing(text, required.skip(1));
        assert forall|i: int| 0 <= i < required.len() implies holds(
            text,
            #[trigger] required[i],
        ) by {
            if i > 0 {
                assert(required[i] == required.skip(1)[i - 1]);
            }
        }
    }
}

/// How a machine ended changes the verdict only before userspace: once a boot
/// has come that far, its console alone decides.
pub proof fn law_the_console_decides(
    text: Seq<char>,
    a: i32,
    b: i32,
    x: Seq<char>,
    y: Seq<char>,
    required: Seq<Seq<char>>,
    allow_no_completion: bool,
)
    requires
        evidence_of(text).userspace || evidence_of(text).panic is Some,
    ensures
        verdict(text, evidence_of(text), a, x, required, allow_no_completion) == verdict(
            text,
            evidence_of(text),
            b,
            y,
            required,
            allow_no_completion,
        ),
{
}

// ── Try-boot counters ──

/// The number that a trimmed text spells.
pub open spec fn count_of(s: Seq<char>) -> Option<int> {
    unsigned_value(trimmed(s), u32::MAX as int)
}

/// The error about an entry of an expected sequence.
pub open spec fn count_error(part: Seq<char>, bad: Seq<char>) -> Seq<char> {
    "invalid --expect-counter-seq entry '"@ + part + "': '"@ + bad + "' is not a number"@
}

/// What one entry of an expected sequence says: `<left>-<done>`, or `<left>`
/// alone.
pub open spec fn expected_of(part: Seq<char>) -> Result<ExpectedCounters, Seq<char>> {
    let (left, done) = match cut(part, "-"@) {
        Some(c) => (c.0, Some(c.1)),
        None => (part, None),
    };
    match count_of(left) {
        None => Err(count_error(part, left)),
        Some(l) => match done {
            None => Ok(ExpectedCounters { tries_left: l as u32, tries_done: None }),
            Some(d) => match count_of(d) {
                None => Err(count_error(part, d)),
                Some(n) => Ok(
                    ExpectedCounters { tries_left: l as u32, tries_done: Some(n as u32) },
                ),
            },
        },
    }
}

/// What the entries of an expected sequence say, or the first error. Empty
/// entries are passed over.
pub open spec fn sequence_of(entries: Seq<Seq<char>>) -> Result<Seq<ExpectedCounters>, Seq<char>>
    decreases entries.len(),
{
    if entries.len() == 0 {
        Ok(Seq::empty())
    } else {
        let part = trimmed(entries[0]);
        if part.len() == 0 {
            sequence_of(entries.skip(1))
        } else {
            match expected_of(part) {
                Err(e) => Err(e),
                Ok(x) => match sequence_of(entries.skip(1)) {
                    Err(e) => Err(e),
                    Ok(more) => Ok(seq![x] + more),
                },
            }
        }
    }
}

fn count_fault(part: &str, bad: &str) -> (r: String)
    ensures
        r@ == count_error(part@, bad@),
{
    let mut out = "invalid --expect-counter-seq entry '".to_owned();
    out.append(part);
    out.append("': '");
    out.append(bad);
    out.append("' is not a number");
    out
}

fn read_expected(part: &str) -> (r: Result<ExpectedCounters, String>)
    ensures
        match r {
            Ok(x) => expected_of(part@) == Ok::<ExpectedCounters, Seq<char>>(x),
            Err(e) => expected_of(part@) == Err::<ExpectedCounters, Seq<char>>(e@),
        },
{
    let (left, done) = match split_once(part, "-") {
        Some((l, d)) => (l, Some(d)),
        None => (part.to_owned(), None),
    };
    let tries_left: u32 = match parse_unsigned(trim(left.as_str()).as_str(), u32::MAX as u64) {
        None => {
            return Err(count_fault(part, left.as_str()));
        },
        Some(n) => n as u32,
    };
    match done {
        None => Ok(ExpectedCounters { tries_left, tries_done: None }),
        Some(d) => match parse_unsigned(trim(d.as_str()).as_str(), u32::MAX as u64) {
            None => Err(count_fault(part, d.as_str())),
            Some(n) => Ok(ExpectedCounters { tries_left, tries_done: Some(n as u32) }),
        },
    }
}

/// Reads an expected sequence: `3-0,2-1` pins both counts of each boot,
/// `3,2,1,0` only the tries that are left.
pub fn parse_expect_counters(spec: &str) -> (r: Result<Vec<ExpectedCounters>, String>)
    ensures
        match r {
            Ok(v) => sequence_of(parts(spec@, ',')) == Ok::<Seq<ExpectedCounters>, Seq<char>>(v@),
            Err(e) => sequence_of(parts(spec@, ',')) == Err::<Seq<ExpectedCounters>, Seq<char>>(
                e@,
            ),
        },
{
    let entries = split_char(spec, ',');
    let ghost all = texts(entries@);
    let mut out: Vec<ExpectedCounters> = Vec::new();
    let mut i: usize = 0;
    proof {
        assert(all.skip(0) =~= all);
        match sequence_of(all) {
            Ok(v) => {
                assert(out@ + v =~= v);
            },
            Err(_) => {},
        }
    }
    while i < entries.len()
        invariant
            i <= entries@.len(),
            all == texts(entries@),
            all == parts(spec@, ','),
            sequence_of(all) == (match sequence_of(all.skip(i as int)) {
                Ok(v) => Ok::<Seq<ExpectedCounters>, Seq<char>>(out@ + v),
                Err(e) => Err(e),
            }),
        decreases entries@.len() - i,
    {
        assert(all.skip(i as int)[0] == entries@[i as int]@);
        assert(all.skip(i as int).skip(1) =~= all.skip(i + 1));
        let part = trim(entries[i].as_str());
        if !part.as_str().is_empty() {
            match read_expected(part.as_str()) {
                Err(e) => {
                    return Err(e);
                },
                Ok(x) => {
                    let ghost before = out@;
                    out.push(x);
                    proof {
                        match sequence_of(all.skip(i + 1)) {
                            Ok(more) => {
                                assert(before + (seq![x] + more) =~= out@ + more);
                            },
                            Err(_) => {},
                        }
                    }
                },
            }
        }
        i += 1;
    }
    assert(all.skip(i as int) =~= Seq::<Seq<char>>::empty());
    assert(out@ + Seq::<ExpectedCounters>::empty() =~= out@);
    Ok(out)
}

/// The counters in the name of a boot entry: `<name>+<left>-<done>.efi`.
pub open spec fn counters_of(name: Seq<char>) -> Option<TryCounters> {
    match before_suffix(name, ".efi"@) {
        None => None,
        Some(stem) => match rcut(stem, "+"@) {
            None => None,
            Some(c) => match cut(c.1, "-"@) {
                None => None,
                Some(n) => match (
                    unsigned_value(n.0, u32::MAX as int),
                    unsigned_value(n.1, u32::MAX as int),
                ) {
                    (Some(l), Some(d)) => Some(
                        TryCounters { tries_left: l as u32, tries_done: d as u32 },
                    ),
                    _ => None,
                },
            },
        },
    }
}

/// Reads the counters in the name of a boot entry.
pub fn parse_uki_name(name: &str) -> (r: Option<TryCounters>)
    ensures
        r == counters_of(name@),
{
    match strip_suffix(name, ".efi") {
        None => None,
        Some(stem) => match rsplit_once(stem.as_str(), "+") {
            None => None,
            Some((_, c)) => match split_once(c.as_str(), "-") {
                None => None,
                Some((l, d)) => match (
                    parse_unsigned(l.as_str(), u32::MAX as u64),
                    parse_unsigned(d.as_str(), u32::MAX as u64),
                ) {
                    (Some(l), Some(d)) => Some(
                        TryCounters { tries_left: l as u32, tries_done: d as u32 },
                    ),
                    _ => None,
                },
            },
        },
    }
}

/// The names in a directory listing: one for each line that is not blank.
pub open spec fn listed_names(rows: Seq<Seq<char>>) -> Seq<Seq<char>>
    decreases rows.len(),
{
    if rows.len() == 0 {
        Seq::empty()
    } else if trimmed(rows[0]).len() == 0 {
        listed_names(rows.skip(1))
    } else {
        seq![trimmed(rows[0])] + listed_names(rows.skip(1))
    }
}

/// Reads a directory listing.
pub fn parse_dir_listing(text: &str) -> (r: Vec<String>)
    ensures
        texts(r@) == listed_names(lines(text@)),
{
    let rows = split_lines(text);
    let ghost all = texts(rows@);
    let mut out: Vec<String> = Vec::new();
    let mut i: usize = 0;
    assert(all.skip(0) =~= all);
    assert(texts(out@) + listed_names(all) =~= listed_names(all));
    while i < rows.len()
        invariant
            i <= rows@.len(),
            all == texts(rows@),
            texts(out@) + listed_names(all.skip(i as int)) == listed_names(all),
        decreases rows@.len() - i,
    {
        assert(all.skip(i as int)[0] == rows@[i as int]@);
        assert(all.skip(i as int).skip(1) =~= all.skip(i + 1));
        let name = trim(rows[i].as_str());
        if !name.as_str().is_empty() {
            let ghost before = out@;
            let ghost x = name@;
            out.push(name);
            proof {
                assert(texts(out@) =~= texts(before).push(x));
                let more = listed_names(all.skip(i + 1));
                assert(texts(before) + (seq![x] + more) =~= texts(out@) + more);
            }
        }
        i += 1;
    }
    assert(all.skip(i as int) =~= Seq::<Seq<char>>::empty());
    assert(texts(out@) + Seq::<Seq<char>>::empty() =~= texts(out@));
    out
}

/// The first entry that has counters, and its counters.
pub open spec fn first_counted(entries: Seq<Seq<char>>) -> Option<(Seq<char>, TryCounters)>
    decreases entries.len(),
{
    if entries.len() == 0 {
        None
    } else {
        match counters_of(entries[0]) {
            Some(c) => Some((entries[0], c)),
            None => first_counted(entries.skip(1)),
        }
    }
}

/// The first entry that has counters, and its counters.
pub fn first_counted_uki(entries: &Vec<String>) -> (r: Option<(String, TryCounters)>)
    ensures
        match r {
            Some(x) => first_counted(texts(entries@)) == Some((x.0@, x.1)),
            None => first_counted(texts(entries@)) is None,
        },
{
    let ghost all = texts(entries@);
    let mut i: usize = 0;
    assert(all.skip(0) =~= all);
    while i < entries.len()
        invariant
            i <= entries@.len(),
            all == texts(entries@),
            first_counted(all) == first_counted(all.skip(i as int)),
        decreases entries@.len() - i,
    {
        assert(all.skip(i as int)[0] == entries@[i as int]@);
        assert(all.skip(i as int).skip(1) =~= all.skip(i + 1));
        match parse_uki_name(entries[i].as_str()) {
            Some(c) => {
                return Some((entries[i].clone(), c));
            },
            None => {},
        }
        i += 1;
    }
    None
}

// ── A sequence of boots ──

/// One boot of a sequence: what the boot partition held before it, and what
/// the boot proved.
#[derive(Debug)]
pub struct BootRecord {
    /// Counted from one.
    pub index: u32,
    pub log: String,
    pub esp_listing: String,
    pub esp_entries: Vec<String>,
    pub uki: Option<String>,
    pub counters: Option<TryCounters>,
    pub outcome: Outcome,
}

/// Why a sequence did not pass.
#[derive(Debug, PartialEq, Eq)]
pub enum SequenceFailure {
    /// Counters are expected, and no entry has any.
    NoCountedUki,
    /// The counters before a boot are not those expected.
    CountersMismatch { index: u32, expected: ExpectedCounters, observed: TryCounters },
    /// The counters did not change from one boot to the next.
    Stuck { index: u32 },
    /// The boot partition could not be read.
    EspUnavailable(String),
}

/// The model of a [`SequenceFailure`].
pub enum SequenceView {
    NoCountedUki,
    CountersMismatch(u32, ExpectedCounters, TryCounters),
    Stuck(u32),
    EspUnavailable(Seq<char>),
}

impl View for SequenceFailure {
    type V = SequenceView;

    open spec fn view(&self) -> SequenceView {
        match *self {
            SequenceFailure::NoCountedUki => SequenceView::NoCountedUki,
            SequenceFailure::CountersMismatch { index, expected, observed } =>
                SequenceView::CountersMismatch(index, expected, observed),
            SequenceFailure::Stuck { index } => SequenceView::Stuck(index),
            SequenceFailure::EspUnavailable(e) => SequenceView::EspUnavailable(e@),
        }
    }
}

/// The model of an optional failure of a sequence.
pub open spec fn sequence_view(o: Option<SequenceFailure>) -> Option<SequenceView> {
    match o {
        Some(f) => Some(f@),
        None => None,
    }
}

/// What a sequence's failure says.
pub open spec fn sequence_text(f: SequenceView) -> Seq<char> {
    match f {
        SequenceView::NoCountedUki =>
            "expected a try-boot counter sequence but no UKI on the ESP carries a '+N-M' counter"@,
        SequenceView::CountersMismatch(index, expected, observed) => "boot "@ + decimal(
            index as nat,
        ) + ": ESP held +"@ + decimal(observed.tries_left as nat) + "-"@ + decimal(
            observed.tries_done as nat,
        ) + " before the boot, expected +"@ + decimal(expected.tries_left as nat) + (
        match expected.tries_done {
            Some(d) => "-"@ + decimal(d as nat),
            None => Seq::empty(),
        }),
        SequenceView::Stuck(index) => "boot "@ + decimal(index as nat)
            + ": try-boot counters did not change from the previous boot — counting never engaged"@,
        SequenceView::EspUnavailable(e) => "cannot inspect the ESP for try-boot counters: "@ + e,
    }
}

/// The stable name of a sequence's failure.
pub open spec fn sequence_label(f: SequenceView) -> Seq<char> {
    match f {
        SequenceView::NoCountedUki => "no-counted-uki"@,
        SequenceView::CountersMismatch(_, _, _) => "counters-mismatch"@,
        SequenceView::Stuck(_) => "counters-stuck"@,
        SequenceView::EspUnavailable(_) => "esp-unavailable"@,
    }
}

impl SequenceFailure {
    /// The failure's stable name.
    pub fn label(&self) -> (r: &'static str)
        ensures
            r@ == sequence_label(self@),
    {
        match self {
            SequenceFailure::NoCountedUki => "no-counted-uki",
            SequenceFailure::CountersMismatch { .. } => "counters-mismatch",
            SequenceFailure::Stuck { .. } => "counters-stuck",
            SequenceFailure::EspUnavailable(_) => "esp-unavailable",
        }
    }

    /// What the failure says, in one line.
    pub fn message(&self) -> (r: String)
        ensures
            r@ == sequence_text(self@),
    {
        match self {
            SequenceFailure::NoCountedUki => "expected a try-boot counter sequence but no UKI on the ESP carries a '+N-M' counter".to_owned(),
            SequenceFailure::CountersMismatch { index, expected, observed } => {
                let mut out = "boot ".to_owned();
                out.append(to_decimal(*index as u64).as_str());
                out.append(": ESP held +");
                out.append(to_decimal(observed.tries_left as u64).as_str());
                out.append("-");
                out.append(to_decimal(observed.tries_done as u64).as_str());
                out.append(" before the boot, expected +");
                out.append(to_decimal(expected.tries_left as u64).as_str());
                let mut tail = String::new();
                assert(tail@ =~= Seq::<char>::empty());
                match expected.tries_done {
                    Some(d) => {
                        tail = "-".to_owned();
                        tail.append(to_decimal(d as u64).as_str());
                    },
                    None => {},
                }
                out.append(tail.as_str());
                out
            },
            SequenceFailure::Stuck { index } => {
                let mut out = "boot ".to_owned();
                out.append(to_decimal(*index as u64).as_str());
                out.append(
                    ": try-boot counters did not change from the previous boot — counting never engaged",
                );
                out
            },
            SequenceFailure::EspUnavailable(e) => with(
                "cannot inspect the ESP for try-boot counters: ",
                e.as_str(),
            ),
        }
    }
}

/// Whether counters are those expected.
pub open spec fn as_expected(observed: TryCounters, want: ExpectedCounters) -> bool {
    observed.tries_left == want.tries_left && (want.tries_done matches Some(d) ==>
        observed.tries_done == d)
}

/// What is wrong with the counters before boot `index` (from one), given those
/// before the boot before it. A healthy count changes with every boot, whatever
/// was expected.
pub open spec fn counter_fault(
    expect: Seq<ExpectedCounters>,
    index: u32,
    previous: Option<Option<TryCounters>>,
    observed: Option<TryCounters>,
) -> Option<SequenceView> {
    if expect.len() == 0 {
        None
    } else {
        match observed {
            None => Some(SequenceView::NoCountedUki),
            Some(c) => if index < 1 || index > expect.len() {
                None
            } else {
                let want = expect[index - 1];
                if !as_expected(c, want) {
                    Some(SequenceView::CountersMismatch(index, want, c))
                } else if previous == Some(Some(c)) {
                    Some(SequenceView::Stuck(index))
                } else {
                    None
                }
            },
        }
    }
}

/// What the boot partition showed before a boot.
#[derive(Debug)]
pub struct Observation {
    pub entries: Vec<String>,
    pub uki: Option<String>,
    pub counters: Option<TryCounters>,
}

/// A sequence of boots in progress.
#[derive(Debug)]
pub struct Sequence {
    /// How many boots there are to be.
    pub runs: u32,
    pub expect: Vec<ExpectedCounters>,
    pub records: Vec<BootRecord>,
    pub failure: Option<SequenceFailure>,
    /// What was seen before the boot under way.
    pub seen: Option<Observation>,
    /// Whether no boot follows the one under way, or the last one recorded.
    pub stopped: bool,
}

/// The counters before the last boot that was recorded.
pub open spec fn last_counters(records: Seq<BootRecord>) -> Option<Option<TryCounters>> {
    if records.len() == 0 {
        None
    } else {
        Some(records.last().counters)
    }
}

/// Whether nothing was wrong with the counters before boot `i`, counted from
/// zero.
pub open spec fn unobjected(
    expect: Seq<ExpectedCounters>,
    records: Seq<BootRecord>,
    i: int,
) -> bool {
    counter_fault(
        expect,
        (i + 1) as u32,
        last_counters(records.take(i)),
        records[i].counters,
    ) is None
}

impl Sequence {
    /// The boots are counted from one on, there are no more than planned, it
    /// stops early only where something failed, and nothing was wrong with the
    /// counters before any boot where nothing failed.
    pub open spec fn wf(&self) -> bool {
        &&& self.records@.len() <= self.runs
        &&& self.seen is Some ==> self.records@.len() < self.runs
        &&& self.stopped ==> self.failure is Some
        &&& forall|i: int|
            0 <= i < self.records@.len() ==> (#[trigger] self.records@[i]).index == i + 1
        &&& self.failure is None ==> forall|i: int|
            0 <= i < self.records@.len() ==> #[trigger] unobjected(self.expect@, self.records@, i)
        &&& self.failure is None && self.seen is Some ==> counter_fault(
            self.expect@,
            (self.records@.len() + 1) as u32,
            last_counters(self.records@),
            self.seen->0.counters,
        ) is None
    }

    /// The boot that comes next, counted from one.
    pub open spec fn upcoming(&self) -> Option<u32> {
        if self.stopped || self.records@.len() >= self.runs {
            None
        } else {
            Some((self.records@.len() + 1) as u32)
        }
    }

    /// Whether every boot that was begun is recorded, and none comes next.
    pub open spec fn over(&self) -> bool {
        self.upcoming() is None && self.seen is None
    }

    /// A sequence of so many boots, none of them run.
    pub fn new(runs: u32, expect: Vec<ExpectedCounters>) -> (r: Self)
        ensures
            r.wf(),
            r.runs == runs,
            r.expect == expect,
            r.records@.len() == 0,
            r.failure is None,
            r.seen is None,
            !r.stopped,
    {
        Sequence {
            runs,
            expect,
            records: Vec::new(),
            failure: None,
            seen: None,
            stopped: false,
        }
    }

    /// The boot that comes next, counted from one, or that the sequence is
    /// over.
    pub fn next(&self) -> (r: Option<u32>)
        requires
            self.wf(),
        ensures
            r == self.upcoming(),
    {
        if self.stopped || self.records.len() as u64 >= self.runs as u64 {
            None
        } else {
            Some((self.records.len() + 1) as u32)
        }
    }

    /// Looks at what the boot partition holds before the next boot, keeps the
    /// first thing that is wrong, and hands out the entries. Where it cannot be
    /// read, that boot is the last.
    pub fn look(&mut self, listing: Result<Vec<String>, String>) -> (r: Vec<String>)
        requires
            old(self).wf(),
            old(self).upcoming() is Some,
            old(self).seen is None,
        ensures
            final(self).wf(),
            final(self).runs == old(self).runs,
            final(self).expect == old(self).expect,
            final(self).records == old(self).records,
            final(self).seen is Some,
            final(self).stopped == (listing is Err),
            texts(r@) == texts(final(self).seen->0.entries@),
            match listing {
                Err(e) => {
                    &&& r@.len() == 0
                    &&& final(self).seen->0.uki is None
                    &&& final(self).seen->0.counters is None
                    &&& sequence_view(final(self).failure) == (match old(self).failure {
                        Some(f) => Some(f@),
                        None => Some(SequenceView::EspUnavailable(e@)),
                    })
                },
                Ok(v) => {
                    &&& texts(r@) == texts(v@)
                    &&& match first_counted(texts(v@)) {
                        Some(x) => opt_text(final(self).seen->0.uki) == Some(x.0)
                            && final(self).seen->0.counters == Some(x.1),
                        None => final(self).seen->0.uki is None
                            && final(self).seen->0.counters is None,
                    }
                    &&& sequence_view(final(self).failure) == (match old(self).failure {
                        Some(f) => Some(f@),
                        None => counter_fault(
                            old(self).expect@,
                            old(self).upcoming()->0,
                            last_counters(old(self).records@),
                            final(self).seen->0.counters,
                        ),
                    })
                },
            },
    {
        match listing {
            Err(e) => {
                if self.failure.is_none() {
                    self.failure = Some(SequenceFailure::EspUnavailable(e));
                }
                self.stopped = true;
                self.seen = Some(Observation { entries: Vec::new(), uki: None, counters: None });
                let r: Vec<String> = Vec::new();
                assert(texts(r@) =~= texts(self.seen->0.entries@));
                r
            },
            Ok(entries) => {
                let (uki, counters) = match first_counted_uki(&entries) {
                    Some((n, c)) => (Some(n), Some(c)),
                    None => (None, None),
                };
                if self.failure.is_none() {
                    self.failure = self.check((self.records.len() + 1) as u32, counters);
                }
                let r = copy_texts(&entries);
                self.seen = Some(Observation { entries, uki, counters });
                r
            },
        }
    }

    fn check(&self, index: u32, counters: Option<TryCounters>) -> (r: Option<SequenceFailure>)
        ensures
            sequence_view(r) == counter_fault(
                self.expect@,
                index,
                last_counters(self.records@),
                counters,
            ),
    {
        if self.expect.len() == 0 {
            return None;
        }
        match counters {
            None => Some(SequenceFailure::NoCountedUki),
            Some(c) => {
                if index < 1 || index as u64 > self.expect.len() as u64 {
                    return None;
                }
                let want = self.expect[(index - 1) as usize];
                let done = match want.tries_done {
                    Some(d) => c.tries_done == d,
                    None => true,
                };
                if c.tries_left != want.tries_left || !done {
                    return Some(
                        SequenceFailure::CountersMismatch { index, expected: want, observed: c },
                    );
                }
                if self.records.len() > 0 {
                    match self.records[self.records.len() - 1].counters {
                        Some(p) => {
                            if p.tries_left == c.tries_left && p.tries_done == c.tries_done {
                                return Some(SequenceFailure::Stuck { index });
                            }
                        },
                        None => {},
                    }
                }
                None
            },
        }
    }

    /// Records the boot that was looked at before: its number and what was seen
    /// are the sequence's own.
    pub fn record(&mut self, log: String, esp_listing: String, outcome: Outcome)
        requires
            old(self).wf(),
            old(self).seen is Some,
        ensures
            final(self).wf(),
            final(self).runs == old(self).runs,
            final(self).expect == old(self).expect,
            final(self).failure == old(self).failure,
            final(self).stopped == old(self).stopped,
            final(self).seen is None,
            final(self).records@ == old(self).records@.push(
                (BootRecord {
                    index: (old(self).records@.len() + 1) as u32,
                    log,
                    esp_listing,
                    esp_entries: old(self).seen->0.entries,
                    uki: old(self).seen->0.uki,
                    counters: old(self).seen->0.counters,
                    outcome,
                }),
            ),
    {
        let ghost before = self.records@;
        let index: u32 = (self.records.len() + 1) as u32;
        match self.seen.take() {
            Some(seen) => {
                self.records.push(
                    BootRecord {
                        index,
                        log,
                        esp_listing,
                        esp_entries: seen.entries,
                        uki: seen.uki,
                        counters: seen.counters,
                        outcome,
                    },
                );
                proof {
                    let now = self.records@;
                    assert forall|i: int| 0 <= i < now.len() && self.failure is None implies
                        #[trigger] unobjected(self.expect@, now, i) by {
                        if i < before.len() {
                            assert(unobjected(self.expect@, before, i));
                            assert(now.take(i) =~= before.take(i));
                        } else {
                            assert(now.take(i) =~= before);
                        }
                    }
                }
            },
            None => {},
        }
    }

    /// The result of a sequence that is over.
    pub fn finish(self, run_root: Option<String>, image: String) -> (r: SequenceOutcome)
        requires
            self.wf(),
            self.over(),
        ensures
            r.records == self.records,
            r.failure == self.failure,
            r.run_root == run_root,
            r.image == image,
    {
        SequenceOutcome { records: self.records, failure: self.failure, run_root, image }
    }
}

/// A sequence that is over and did not fail has booted as often as planned, the
/// boots are numbered from one on, and before each boot for which counters are
/// expected they were as expected and others than before the boot before it.
pub proof fn law_unfailed_sequences_are_complete(s: Sequence)
    requires
        s.wf(),
        s.over(),
        s.failure is None,
    ensures
        s.records@.len() == s.runs,
        forall|i: int| 0 <= i < s.runs ==> (#[trigger] s.records@[i]).index == i + 1,
        forall|i: int|
            0 <= i < s.runs && i < s.expect@.len() ==> (#[trigger] s.records@[i]).counters is Some
                && as_expected(s.records@[i].counters->0, s.expect@[i]) && (i > 0
                ==> s.records@[i].counters != s.records@[i - 1].counters),
{
    assert forall|i: int| 0 <= i < s.runs && i < s.expect@.len() implies (
    #[trigger] s.records@[i]).counters is Some && as_expected(
        s.records@[i].counters->0,
        s.expect@[i],
    ) && (i > 0 ==> s.records@[i].counters != s.records@[i - 1].counters) by {
        assert(unobjected(s.expect@, s.records@, i));
        if i > 0 {
            assert(s.records@.take(i).last() == s.records@[i - 1]);
        }
    }
}

/// The result of a sequence of boots.
#[derive(Debug)]
pub struct SequenceOutcome {
    pub records: Vec<BootRecord>,
    pub failure: Option<SequenceFailure>,
    pub run_root: Option<String>,
    pub image: String,
}

/// The first boot that did not pass, from `i` on.
pub open spec fn first_failed(records: Seq<BootRecord>, i: int) -> Option<int>
    decreases records.len() - i,
{
    if i < 0 || i >= records.len() {
        None
    } else if records[i].outcome.failure is Some {
        Some(i)
    } else {
        first_failed(records, i + 1)
    }
}

/// A sequence's result in one line.
pub open spec fn sequence_message(o: SequenceOutcome) -> Seq<char> {
    match sequence_view(o.failure) {
        Some(f) => sequence_text(f),
        None => match first_failed(o.records@, 0) {
            Some(i) => "boot "@ + decimal(o.records@[i].index as nat) + ": "@ + outcome_text(
                o.records@[i].outcome,
            ),
            None => decimal(o.records@.len()) + " boot(s) passed"@,
        },
    }
}

impl SequenceOutcome {
    /// Whether every boot passed and nothing was wrong with the sequence.
    pub fn passed(&self) -> (r: bool)
        ensures
            r == (self.failure is None && first_failed(self.records@, 0) is None),
    {
        if self.failure.is_some() {
            return false;
        }
        let mut i: usize = 0;
        while i < self.records.len()
            invariant
                i <= self.records@.len(),
                first_failed(self.records@, 0) == first_failed(self.records@, i as int),
            decreases self.records@.len() - i,
        {
            if !self.records[i].outcome.passed() {
                return false;
            }
            i += 1;
        }
        true
    }

    /// The result in one line.
    pub fn message(&self) -> (r: String)
        ensures
            r@ == sequence_message(*self),
    {
        match &self.failure {
            Some(f) => {
                return f.message();
            },
            None => {},
        }
        let mut i: usize = 0;
        while i < self.records.len()
            invariant
                i <= self.records@.len(),
                self.failure is None,
                first_failed(self.records@, 0) == first_failed(self.records@, i as int),
            decreases self.records@.len() - i,
        {
            if !self.records[i].outcome.passed() {
                let mut out = "boot ".to_owned();
                out.append(to_decimal(self.records[i].index as u64).as_str());
                out.append(": ");
                out.append(self.records[i].outcome.message().as_str());
                return out;
            }
            i += 1;
        }
        let mut out = to_decimal(self.records.len() as u64);
        out.append(" boot(s) passed");
        out
    }
}

/// A count that does not change fails the sequence, also where it was
/// expected.
pub proof fn law_counting_must_engage(
    expect: Seq<ExpectedCounters>,
    index: u32,
    c: TryCounters,
)
    requires
        1 <= index <= expect.len(),
    ensures
        counter_fault(expect, index, Some(Some(c)), Some(c)) is Some,
{
}

/// Counters that are accepted are those expected, and not those of the boot
/// before.
pub proof fn law_accepted_counters_match(
    expect: Seq<ExpectedCounters>,
    index: u32,
    previous: Option<Option<TryCounters>>,
    observed: Option<TryCounters>,
)
    requires
        1 <= index <= expect.len(),
        counter_fault(expect, index, previous, observed) is None,
    ensures
        observed is Some,
        as_expected(observed->0, expect[index - 1]),
        previous != Some(observed),
{
}

/// A sequence passes only where every boot in it passed.
pub proof fn law_passing_sequences_have_passing_boots(records: Seq<BootRecord>, i: int)
    requires
        first_failed(records, 0) is None,
        0 <= i < records.len(),
    ensures
        records[i].outcome.failure is None,
{
    lemma_none_failed(records, 0, i);
}

proof fn lemma_none_failed(records: Seq<BootRecord>, k: int, i: int)
    requires
        0 <= k <= i < records.len(),
        first_failed(records, k) is None,
    ensures
        records[i].outcome.failure is None,
    decreases i - k,
{
    if k < i {
        lemma_none_failed(records, k + 1, i);
    }
}

// ── The steps of a sequence ──

/// How a sequence of boots is laid out.
#[derive(Debug)]
pub struct SequencePlan {
    pub runs: u32,
    /// Where the evidence of several boots goes.
    pub run_root: Option<String>,
    /// The image that is booted: a copy, where there is more than one boot.
    pub image: String,
    /// Whether the boot partition must be readable.
    pub hard: bool,
}

/// How many boots a test asks for.
pub open spec fn boots_of(t: BootTest) -> u32 {
    if t.runs == 0 {
        1
    } else {
        t.runs
    }
}

/// Where the evidence of several boots goes.
pub open spec fn root_of(t: BootTest) -> Option<Seq<char>> {
    if boots_of(t) > 1 {
        Some(t.log@ + ".d"@)
    } else {
        None
    }
}

/// The image that is booted. Several boots share one copy, so that what a boot
/// writes is there for the next; one boot runs in place.
pub open spec fn booted_image(t: BootTest) -> Seq<char> {
    match root_of(t) {
        Some(root) => path_in(root, "img"@),
        None => t.image@,
    }
}

/// Lays out a sequence of boots.
pub fn plan_sequence(test: &BootTest) -> (r: SequencePlan)
    ensures
        r.runs == boots_of(*test),
        opt_text(r.run_root) == root_of(*test),
        r.image@ == booted_image(*test),
        r.hard == (test.expect_counters@.len() > 0 || r.runs > 1),
{
    let runs: u32 = if test.runs == 0 {
        1
    } else {
        test.runs
    };
    let hard = test.expect_counters.len() > 0 || runs > 1;
    if runs > 1 {
        let root = with(test.log.as_str(), ".d");
        let image = join_path(root.as_str(), "img");
        SequencePlan { runs, run_root: Some(root), image, hard }
    } else {
        SequencePlan { runs, run_root: None, image: test.image.clone(), hard }
    }
}

/// What follows once the boot partition has been looked for.
#[derive(Debug)]
pub enum EspStep {
    /// It is listed before every boot.
    List,
    /// It is not listed: boot with this warning.
    Skip(String),
    /// Nothing is booted.
    Stop(SequenceOutcome),
}

/// Decides what follows once the boot partition has been looked for. Where it
/// was not found, a plain boot goes on; a sequence that asserts counters, or
/// that boots a copy, does not.
pub fn after_offset(plan: &SequencePlan, found: Result<(), String>) -> (r: EspStep)
    ensures
        match found {
            Ok(_) => r is List,
            Err(e) => if plan.hard {
                (r matches EspStep::Stop(o) && o.records@.len() == 0 && sequence_view(o.failure)
                    == Some(SequenceView::EspUnavailable(e@)) && opt_text(o.run_root) == opt_text(
                    plan.run_root,
                ) && o.image@ == plan.image@)
            } else {
                (r matches EspStep::Skip(w) && w@ == "ESP inspection unavailable ("@ + e@
                    + "); boot counting was not observed"@)
            },
        },
{
    match found {
        Ok(_) => EspStep::List,
        Err(e) => {
            if plan.hard {
                let run_root = match &plan.run_root {
                    Some(s) => Some(s.clone()),
                    None => None,
                };
                EspStep::Stop(
                    SequenceOutcome {
                        records: Vec::new(),
                        failure: Some(SequenceFailure::EspUnavailable(e)),
                        run_root,
                        image: plan.image.clone(),
                    },
                )
            } else {
                let mut w = "ESP inspection unavailable (".to_owned();
                w.append(e.as_str());
                w.append("); boot counting was not observed");
                EspStep::Skip(w)
            }
        },
    }
}

/// Where the console and the listing of boot `i` go.
pub open spec fn evidence_paths(
    root: Option<Seq<char>>,
    log: Seq<char>,
    i: u32,
) -> (Seq<char>, Seq<char>) {
    match root {
        Some(r) => (
            path_in(r, "boot-"@ + decimal(i as nat) + ".serial.log"@),
            path_in(r, "boot-"@ + decimal(i as nat) + ".esp.txt"@),
        ),
        None => (log, log + ".esp.txt"@),
    }
}

/// Where the console and the listing of boot `i` go.
pub fn boot_paths(plan: &SequencePlan, log: &str, i: u32) -> (r: (String, String))
    ensures
        (r.0@, r.1@) == evidence_paths(opt_text(plan.run_root), log@, i),
{
    match &plan.run_root {
        Some(root) => {
            let mut a = "boot-".to_owned();
            a.append(to_decimal(i as u64).as_str());
            let mut b = a.clone();
            a.append(".serial.log");
            b.append(".esp.txt");
            (join_path(root.as_str(), a.as_str()), join_path(root.as_str(), b.as_str()))
        },
        None => (log.to_owned(), with(log, ".esp.txt")),
    }
}

/// The evidence of two boots on one copy never shares a file.
pub proof fn law_evidence_is_kept_apart(root: Seq<char>, log: Seq<char>, i: u32, j: u32)
    requires
        i != j,
    ensures
        evidence_paths(Some(root), log, i).0 != evidence_paths(Some(root), log, j).0,
        evidence_paths(Some(root), log, i).1 != evidence_paths(Some(root), log, j).1,
{
    lemma_names_apart(root, i, j, ".serial.log"@);
    lemma_names_apart(root, i, j, ".esp.txt"@);
}

proof fn lemma_names_apart(root: Seq<char>, i: u32, j: u32, tail: Seq<char>)
    requires
        i != j,
    ensures
        path_in(root, "boot-"@ + decimal(i as nat) + tail) != path_in(
            root,
            "boot-"@ + decimal(j as nat) + tail,
        ),
{
    reveal_strlit("boot-");
    reveal_strlit("/");
    let a = "boot-"@ + decimal(i as nat) + tail;
    let b = "boot-"@ + decimal(j as nat) + tail;
    if a == b {
        assert(a.len() == 5 + decimal(i as nat).len() + tail.len());
        assert(b.len() == 5 + decimal(j as nat).len() + tail.len());
        assert(decimal(i as nat) =~= a.subrange(5, (5 + decimal(i as nat).len()) as int));
        assert(decimal(j as nat) =~= b.subrange(5, (5 + decimal(j as nat).len()) as int));
        lemma_decimal_apart(i as nat, j as nat);
    }
    let p = path_in(root, a);
    let q = path_in(root, b);
    if p == q {
        let n = p.len() - a.len();
        assert(a[0] == 'b' && b[0] == 'b');
        assert(a =~= p.subrange(n, p.len() as int));
        assert(b =~= q.subrange(n, q.len() as int));
    }
}

proof fn lemma_decimal_apart(i: nat, j: nat)
    requires
        decimal(i) == decimal(j),
    ensures
        i == j,
    decreases i,
{
    let (a, b) = ((i % 10) as int, (j % 10) as int);
    assert(decimal(i).last() as int == a + 48);
    assert(decimal(j).last() as int == b + 48);
    if i >= 10 || j >= 10 {
        if i < 10 {
            lemma_decimal_digit(j / 10);
            assert(decimal(j).len() > 1);
        } else if j < 10 {
            lemma_decimal_digit(i / 10);
            assert(decimal(i).len() > 1);
        } else {
            assert(decimal(i / 10) =~= decimal(i).drop_last());
            assert(decimal(j / 10) =~= decimal(j).drop_last());
            lemma_decimal_apart(i / 10, j / 10);
        }
    }
}

impl BootTest {
    /// The same test on another image, with another log.
    pub fn at(&self, image: &str, log: &str) -> (r: BootTest)
        ensures
            r.image@ == image@,
            r.log@ == log@,
            r.accel == self.accel,
            r.timeout == self.timeout,
            r.firmware.code@ == self.firmware.code@,
            r.firmware.vars@ == self.firmware.vars@,
            r.qemu@ == self.qemu@,
            r.timeout_bin@ == self.timeout_bin@,
            r.kvm_available == self.kvm_available,
            texts(r.required@) == texts(self.required@),
            r.runs == self.runs,
            r.expect_counters@ == self.expect_counters@,
            r.allow_no_completion == self.allow_no_completion,
    {
        let mut expect: Vec<ExpectedCounters> = Vec::new();
        let mut i: usize = 0;
        while i < self.expect_counters.len()
            invariant
                i <= self.expect_counters@.len(),
                expect@ == self.expect_counters@.take(i as int),
            decreases self.expect_counters@.len() - i,
        {
            expect.push(self.expect_counters[i]);
            assert(self.expect_counters@.take(i + 1) =~= self.expect_counters@.take(
                i as int,
            ).push(self.expect_counters@[i as int]));
            i += 1;
        }
        assert(self.expect_counters@.take(i as int) =~= self.expect_counters@);
        BootTest {
            image: image.to_owned(),
            log: log.to_owned(),
            accel: self.accel,
            timeout: self.timeout,
            firmware: Firmware {
                code: self.firmware.code.clone(),
                vars: self.firmware.vars.clone(),
            },
            qemu: self.qemu.clone(),
            timeout_bin: self.timeout_bin.clone(),
            kvm_available: self.kvm_available,
            required: copy_texts(&self.required),
            runs: self.runs,
            expect_counters: expect,
            allow_no_completion: self.allow_no_completion,
        }
    }
}

/// The text of a listing: a line for each entry.
pub open spec fn listing_of(entries: Seq<Seq<char>>) -> Seq<char> {
    if entries.len() == 0 {
        Seq::empty()
    } else {
        joined(entries, "\n"@) + "\n"@
    }
}

/// The text of a listing.
pub fn listing_text(entries: &Vec<String>) -> (r: String)
    ensures
        r@ == listing_of(texts(entries@)),
{
    if entries.len() == 0 {
        let out = String::new();
        assert(out@ =~= Seq::<char>::empty());
        return out;
    }
    let mut out = join(entries, "\n");
    out.append("\n");
    out
}

// ── What the host has ──

/// The code and variable files of firmware, the preferred first.
pub const FIRMWARE_PAIRS: [(&'static str, &'static str); 3] = [
    ("OVMF_CODE.fd", "OVMF_VARS.fd"),
    ("edk2-x86_64-code.fd", "edk2-i386-vars.fd"),
    ("edk2-i386-code.fd", "edk2-i386-vars.fd"),
];

/// Where firmware is usually installed.
pub const FIRMWARE_DIRS: [&'static str; 8] = [
    "/usr/share/OVMF",
    "/usr/share/OVMF/",
    "/usr/share/ovmf",
    "/usr/share/edk2/x64",
    "/usr/share/edk2-ovmf/x64",
    "/usr/share/edk2/ovmf",
    "/usr/share/qemu",
    "/usr/share/qemu/firmware",
];

/// Where a name may stand: in each directory that is not empty.
pub open spec fn candidates(dirs: Seq<Seq<char>>, name: Seq<char>) -> Seq<Seq<char>>
    decreases dirs.len(),
{
    if dirs.len() == 0 {
        Seq::empty()
    } else if dirs[0].len() == 0 {
        candidates(dirs.skip(1), name)
    } else {
        seq![path_in(dirs[0], name)] + candidates(dirs.skip(1), name)
    }
}

/// The files that a search along a path variable asks for, in order.
pub fn path_candidates(name: &str, path_var: &str) -> (r: Vec<String>)
    ensures
        texts(r@) == candidates(parts(path_var@, ':'), name@),
{
    broadcast use lemma_texts_push;

    let dirs = split_char(path_var, ':');
    let ghost all = texts(dirs@);
    let mut out: Vec<String> = Vec::new();
    let mut i: usize = 0;
    assert(all.skip(0) =~= all);
    assert(texts(out@) + candidates(all, name@) =~= candidates(all, name@));
    while i < dirs.len()
        invariant
            i <= dirs@.len(),
            all == texts(dirs@),
            texts(out@) + candidates(all.skip(i as int), name@) == candidates(all, name@),
        decreases dirs@.len() - i,
    {
        assert(all.skip(i as int)[0] == dirs@[i as int]@);
        assert(all.skip(i as int).skip(1) =~= all.skip(i + 1));
        if !dirs[i].as_str().is_empty() {
            let ghost before = out@;
            out.push(join_path(dirs[i].as_str(), name));
            proof {
                let x = path_in(all[i as int], name@);
                let more = candidates(all.skip(i + 1), name@);
                assert(texts(before) + (seq![x] + more) =~= texts(out@) + more);
            }
        }
        i += 1;
    }
    assert(all.skip(i as int) =~= Seq::<Seq<char>>::empty());
    assert(texts(out@) + Seq::<Seq<char>>::empty() =~= texts(out@));
    out
}

/// The first of the names that is among the files.
pub open spec fn first_among(names: Seq<Seq<char>>, files: Seq<Seq<char>>) -> Option<Seq<char>>
    decreases names.len(),
{
    if names.len() == 0 {
        None
    } else if files.contains(names[0]) {
        Some(names[0])
    } else {
        first_among(names.skip(1), files)
    }
}

/// The first of the names that is among the files.
pub fn first_existing(names: &Vec<String>, files: &Vec<String>) -> (r: Option<String>)
    ensures
        opt_text(r) == first_among(texts(names@), texts(files@)),
{
    let ghost all = texts(names@);
    let mut i: usize = 0;
    assert(all.skip(0) =~= all);
    while i < names.len()
        invariant
            i <= names@.len(),
            all == texts(names@),
            first_among(all, texts(files@)) == first_among(all.skip(i as int), texts(files@)),
        decreases names@.len() - i,
    {
        assert(all.skip(i as int)[0] == names@[i as int]@);
        assert(all.skip(i as int).skip(1) =~= all.skip(i + 1));
        if list_contains(files, names[i].as_str()) {
            return Some(names[i].clone());
        }
        i += 1;
    }
    None
}

/// Finds a name along a path variable: the first candidate that is among the
/// files that exist.
pub fn resolve_on_path(name: &str, path_var: &str, files: &Vec<String>) -> (r: Option<String>)
    ensures
        opt_text(r) == first_among(candidates(parts(path_var@, ':'), name@), texts(files@)),
{
    first_existing(&path_candidates(name, path_var), files)
}

/// Finds QEMU along a path variable, or says what to install.
pub fn resolve_qemu(path_var: &str, files: &Vec<String>) -> (r: Result<String, String>)
    ensures
        match first_among(candidates(parts(path_var@, ':'), "qemu-system-x86_64"@), texts(files@)) {
            Some(p) => r matches Ok(q) && q@ == p,
            None => r matches Err(e) && e@
                == "qemu-system-x86_64 not found on PATH — install QEMU to run 'shuttle test' (devbox provides it via the 'qemu' package)"@,
        },
{
    match resolve_on_path("qemu-system-x86_64", path_var, files) {
        Some(p) => Ok(p),
        None => Err(
            "qemu-system-x86_64 not found on PATH — install QEMU to run 'shuttle test' (devbox provides it via the 'qemu' package)".to_owned(),
        ),
    }
}

/// Finds the program that bounds a boot along a path variable, or says what to
/// install.
pub fn resolve_timeout(path_var: &str, files: &Vec<String>) -> (r: Result<String, String>)
    ensures
        match first_among(candidates(parts(path_var@, ':'), "timeout"@), texts(files@)) {
            Some(p) => r matches Ok(q) && q@ == p,
            None => r matches Err(e) && e@
                == "GNU coreutils 'timeout' not found on PATH — it bounds the QEMU boot; install coreutils"@,
        },
{
    match resolve_on_path("timeout", path_var, files) {
        Some(p) => Ok(p),
        None => Err(
            "GNU coreutils 'timeout' not found on PATH — it bounds the QEMU boot; install coreutils".to_owned(),
        ),
    }
}

/// The log beside an image.
pub fn default_log_path(image: &str) -> (r: String)
    ensures
        r@ == image@ + ".serial.log"@,
{
    with(image, ".serial.log")
}

/// The paths without those that write the same path as the one before.
pub open spec fn without_repeats(dirs: Seq<Seq<char>>) -> Seq<Seq<char>>
    decreases dirs.len(),
{
    if dirs.len() == 0 {
        dirs
    } else {
        let before = without_repeats(dirs.drop_last());
        if before.len() > 0 && same_path(before.last(), dirs.last()) {
            before
        } else {
            before.push(dirs.last())
        }
    }
}

/// The directories in which firmware is looked for, before repeats are left
/// out: the given one, that of the environment, those of the virtual machine,
/// then the usual ones.
pub open spec fn firmware_places(
    extra: Option<Seq<char>>,
    env: Option<Seq<char>>,
    share: Option<Seq<char>>,
) -> Seq<Seq<char>> {
    (match extra {
        Some(d) => seq![d],
        None => Seq::empty(),
    }) + (match env {
        Some(d) => if d.len() > 0 {
            seq![d]
        } else {
            Seq::empty()
        },
        None => Seq::empty(),
    }) + (match share {
        Some(d) => seq![d, path_in(d, "firmware"@)],
        None => Seq::empty(),
    }) + usual_places()
}

/// The usual directories of firmware.
pub open spec fn usual_places() -> Seq<Seq<char>> {
    Seq::new(8, |i: int| FIRMWARE_DIRS@[i]@)
}

fn push_place(dirs: &mut Vec<String>, dir: &str, Ghost(all): Ghost<Seq<Seq<char>>>)
    requires
        texts(old(dirs)@) == without_repeats(all),
    ensures
        texts(final(dirs)@) == without_repeats(all.push(dir@)),
{
    broadcast use lemma_texts_push;

    let len: usize = dirs.len();
    assert(all.push(dir@).drop_last() =~= all);
    assert(texts(dirs@).len() == len);
    if len > 0 {
        assert(texts(dirs@).last() == dirs@[len - 1]@);
        if is_same_path(dirs[len - 1].as_str(), dir) {
            return;
        }
    }
    dirs.push(dir.to_owned());
}

/// The directories in which firmware is looked for.
pub fn firmware_search_dirs(extra: Option<&str>, env: Option<&str>, share: Option<&str>) -> (r: Vec<
    String,
>)
    ensures
        texts(r@) == without_repeats(
            firmware_places(opt_str(extra), opt_str(env), opt_str(share)),
        ),
{
    let mut dirs: Vec<String> = Vec::new();
    let ghost mut all: Seq<Seq<char>> = Seq::empty();
    assert(texts(dirs@) =~= without_repeats(all));
    match extra {
        Some(d) => {
            push_place(&mut dirs, d, Ghost(all));
            proof {
                all = all.push(d@);
            }
        },
        None => {},
    }
    match env {
        Some(d) => {
            if !d.is_empty() {
                push_place(&mut dirs, d, Ghost(all));
                proof {
                    all = all.push(d@);
                }
            }
        },
        None => {},
    }
    match share {
        Some(d) => {
            push_place(&mut dirs, d, Ghost(all));
            proof {
                all = all.push(d@);
            }
            let inner = join_path(d, "firmware");
            push_place(&mut dirs, inner.as_str(), Ghost(all));
            proof {
                all = all.push(inner@);
            }
        },
        None => {},
    }
    let ghost head = all;
    let mut i: usize = 0;
    assert(head + usual_places().take(0) =~= head);
    while i < 8
        invariant
            i <= 8,
            all == head + usual_places().take(i as int),
            texts(dirs@) == without_repeats(all),
        decreases 8 - i,
    {
        let d = FIRMWARE_DIRS[i];
        push_place(&mut dirs, d, Ghost(all));
        proof {
            assert(usual_places().take(i + 1) =~= usual_places().take(i as int).push(d@));
            all = all.push(d@);
            assert(all =~= head + usual_places().take(i + 1));
        }
        i += 1;
    }
    assert(usual_places().take(8) =~= usual_places());
    assert(head + usual_places() =~= firmware_places(opt_str(extra), opt_str(env), opt_str(share)));
    dirs
}

/// The first complete pair of firmware in a directory, from the pair `k` on.
pub open spec fn pair_in(dir: Seq<char>, files: Seq<Seq<char>>, k: int) -> Option<
    (Seq<char>, Seq<char>),
>
    decreases 3 - k,
{
    if k < 0 || k >= 3 {
        None
    } else {
        let code = path_in(dir, FIRMWARE_PAIRS@[k].0@);
        let vars = path_in(dir, FIRMWARE_PAIRS@[k].1@);
        if files.contains(code) && files.contains(vars) {
            Some((code, vars))
        } else {
            pair_in(dir, files, k + 1)
        }
    }
}

/// The first complete pair of firmware in the directories.
pub open spec fn pair_of(dirs: Seq<Seq<char>>, files: Seq<Seq<char>>) -> Option<
    (Seq<char>, Seq<char>),
>
    decreases dirs.len(),
{
    if dirs.len() == 0 {
        None
    } else {
        match pair_in(dirs[0], files, 0) {
            Some(p) => Some(p),
            None => pair_of(dirs.skip(1), files),
        }
    }
}

fn find_pair(dir: &str, files: &Vec<String>) -> (r: Option<(String, String)>)
    ensures
        opt_pair(r) == pair_in(dir@, texts(files@), 0),
{
    let mut k: usize = 0;
    while k < 3
        invariant
            k <= 3,
            pair_in(dir@, texts(files@), 0) == pair_in(dir@, texts(files@), k as int),
        decreases 3 - k,
    {
        let code = join_path(dir, FIRMWARE_PAIRS[k].0);
        let vars = join_path(dir, FIRMWARE_PAIRS[k].1);
        if list_contains(files, code.as_str()) && list_contains(files, vars.as_str()) {
            return Some((code, vars));
        }
        k += 1;
    }
    None
}

/// Finds a complete pair of firmware: the first directory that has one, and in
/// it the preferred pair, among the files that exist.
pub fn find_firmware_in(dirs: &Vec<String>, files: &Vec<String>) -> (r: Option<(String, String)>)
    ensures
        opt_pair(r) == pair_of(texts(dirs@), texts(files@)),
{
    let ghost all = texts(dirs@);
    let mut i: usize = 0;
    assert(all.skip(0) =~= all);
    while i < dirs.len()
        invariant
            i <= dirs@.len(),
            all == texts(dirs@),
            pair_of(all, texts(files@)) == pair_of(all.skip(i as int), texts(files@)),
        decreases dirs@.len() - i,
    {
        assert(all.skip(i as int)[0] == dirs@[i as int]@);
        assert(all.skip(i as int).skip(1) =~= all.skip(i + 1));
        match find_pair(dirs[i].as_str(), files) {
            Some(p) => {
                return Some(p);
            },
            None => {},
        }
        i += 1;
    }
    None
}

/// What firmware staging reads and where its writable copy goes.
#[derive(Debug)]
pub struct FirmwarePlan {
    pub code: String,
    /// The file that is copied.
    pub template: String,
    /// The writable copy.
    pub vars: String,
}

/// The error where no firmware is found.
pub open spec fn firmware_error(dirs: Seq<Seq<char>>) -> Seq<char> {
    "UEFI firmware not found — a shuttle image boots a UKI via systemd-boot, so SeaBIOS is not sufficient. Looked for OVMF_CODE.fd/OVMF_VARS.fd (or the edk2 equivalents) in: "@
        + joined(dirs, ", "@) + ". Install OVMF/edk2 or pass --firmware-dir"@
}

/// Decides which firmware is staged into a scratch directory. The code file is
/// used in place, the variables are copied.
pub fn prepare_firmware_in(dirs: &Vec<String>, files: &Vec<String>, scratch: &str) -> (r: Result<
    FirmwarePlan,
    String,
>)
    ensures
        match pair_of(texts(dirs@), texts(files@)) {
            Some(p) => (r matches Ok(f) && f.code@ == p.0 && f.template@ == p.1 && f.vars@
                == path_in(scratch@, "OVMF_VARS.fd"@)),
            None => (r matches Err(e) && e@ == firmware_error(texts(dirs@))),
        },
{
    match find_firmware_in(dirs, files) {
        Some((code, template)) => Ok(
            FirmwarePlan { code, template, vars: join_path(scratch, "OVMF_VARS.fd") },
        ),
        None => {
            let mut e = "UEFI firmware not found — a shuttle image boots a UKI via systemd-boot, so SeaBIOS is not sufficient. Looked for OVMF_CODE.fd/OVMF_VARS.fd (or the edk2 equivalents) in: ".to_owned();
            e.append(join(dirs, ", ").as_str());
            e.append(". Install OVMF/edk2 or pass --firmware-dir");
            Err(e)
        },
    }
}

// ── The report of a sequence ──

/// A text, or null.
pub open spec fn text_or_null(o: Option<Seq<char>>) -> JsonView {
    match o {
        Some(s) => JsonView::Text(s),
        None => JsonView::Null,
    }
}

/// Counters, or null.
pub open spec fn counters_json(o: Option<TryCounters>) -> JsonView {
    match o {
        Some(c) => JsonView::Object(
            seq![
                ("tries_done"@, JsonView::Number(decimal(c.tries_done as nat))),
                ("tries_left"@, JsonView::Number(decimal(c.tries_left as nat))),
            ],
        ),
        None => JsonView::Null,
    }
}

/// Texts as an array.
pub open spec fn text_array(v: Seq<Seq<char>>) -> JsonView {
    JsonView::Array(Seq::new(v.len(), |i: int| JsonView::Text(v[i])))
}

/// What a report says of a boot. The members stand in the order of their
/// names.
pub open spec fn record_json(r: BootRecord) -> JsonView {
    JsonView::Object(
        seq![
            ("counters"@, counters_json(r.counters)),
            ("esp_entries"@, text_array(texts(r.esp_entries@))),
            ("esp_listing"@, JsonView::Text(r.esp_listing@)),
            ("index"@, JsonView::Number(decimal(r.index as nat))),
            ("log"@, JsonView::Text(r.log@)),
            ("message"@, JsonView::Text(outcome_text(r.outcome))),
            ("passed"@, JsonView::Bool(r.outcome.failure is None)),
            ("uki"@, text_or_null(opt_text(r.uki))),
        ],
    )
}

/// What a report says of the boots.
pub open spec fn records_json(v: Seq<BootRecord>) -> Seq<JsonView> {
    Seq::new(v.len(), |i: int| record_json(v[i]))
}

/// The report of a sequence.
pub open spec fn report_json(o: SequenceOutcome) -> JsonView {
    JsonView::Object(
        seq![
            ("boots"@, JsonView::Array(records_json(o.records@))),
            (
                "failure"@,
                text_or_null(
                    match sequence_view(o.failure) {
                        Some(f) => Some(sequence_label(f)),
                        None => None,
                    },
                ),
            ),
            ("image"@, JsonView::Text(o.image@)),
            (
                "message"@,
                text_or_null(
                    match sequence_view(o.failure) {
                        Some(f) => Some(sequence_text(f)),
                        None => None,
                    },
                ),
            ),
        ],
    )
}

fn counters_value(o: Option<TryCounters>) -> (r: Json)
    ensures
        r@ == counters_json(o),
{
    match o {
        None => Json::Null,
        Some(c) => {
            let mut m: Vec<(String, Json)> = Vec::new();
            m.push(("tries_done".to_owned(), Json::Number(to_decimal(c.tries_done as u64))));
            m.push(("tries_left".to_owned(), Json::Number(to_decimal(c.tries_left as u64))));
            let r = object(m);
            assert(r@->Object_0 =~= counters_json(o)->Object_0);
            r
        },
    }
}

fn text_values(v: &Vec<String>) -> (r: Json)
    ensures
        r@ == text_array(texts(v@)),
{
    let mut out: Vec<Json> = Vec::new();
    let mut i: usize = 0;
    while i < v.len()
        invariant
            i <= v@.len(),
            out@.len() == i,
            forall|j: int| 0 <= j < i ==> #[trigger] out@[j]@ == JsonView::Text(v@[j]@),
        decreases v@.len() - i,
    {
        out.push(Json::Text(v[i].clone()));
        i += 1;
    }
    let ghost items = out@;
    let r = array(out);
    proof {
        let a = r@->Array_0;
        let b = text_array(texts(v@))->Array_0;
        assert forall|j: int| 0 <= j < a.len() implies a[j] == b[j] by {
            assert(a[j] == items[j]@);
        }
        assert(a =~= b);
    }
    r
}

fn record_value(b: &BootRecord) -> (r: Json)
    ensures
        r@ == record_json(*b),
{
    let mut m: Vec<(String, Json)> = Vec::new();
    m.push(("counters".to_owned(), counters_value(b.counters)));
    m.push(("esp_entries".to_owned(), text_values(&b.esp_entries)));
    m.push(("esp_listing".to_owned(), Json::Text(b.esp_listing.clone())));
    m.push(("index".to_owned(), Json::Number(to_decimal(b.index as u64))));
    m.push(("log".to_owned(), Json::Text(b.log.clone())));
    m.push(("message".to_owned(), Json::Text(b.outcome.message())));
    m.push(("passed".to_owned(), Json::Bool(b.outcome.passed())));
    let uki = match &b.uki {
        Some(s) => Json::Text(s.clone()),
        None => Json::Null,
    };
    m.push(("uki".to_owned(), uki));
    let r = object(m);
    assert(r@->Object_0 =~= record_json(*b)->Object_0);
    r
}

impl SequenceOutcome {
    /// The report of the sequence.
    pub fn report(&self) -> (r: Json)
        ensures
            r@ == report_json(*self),
    {
        let mut boots: Vec<Json> = Vec::new();
        let mut i: usize = 0;
        while i < self.records.len()
            invariant
                i <= self.records@.len(),
                boots@.len() == i,
                forall|j: int|
                    0 <= j < i ==> #[trigger] boots@[j]@ == record_json(self.records@[j]),
            decreases self.records@.len() - i,
        {
            boots.push(record_value(&self.records[i]));
            i += 1;
        }
        let ghost items = boots@;
        let boots = array(boots);
        proof {
            let a = boots@->Array_0;
            let b = records_json(self.records@);
            assert forall|j: int| 0 <= j < a.len() implies a[j] == b[j] by {
                assert(a[j] == items[j]@);
            }
            assert(a =~= b);
        }
        let (label, message) = match &self.failure {
            Some(f) => (Json::Text(f.label().to_owned()), Json::Text(f.message())),
            None => (Json::Null, Json::Null),
        };
        let mut m: Vec<(String, Json)> = Vec::new();
        m.push(("boots".to_owned(), boots));
        m.push(("failure".to_owned(), label));
        m.push(("image".to_owned(), Json::Text(self.image.clone())));
        m.push(("message".to_owned(), message));
        let r = object(m);
        assert(r@->Object_0 =~= report_json(*self)->Object_0);
        r
    }
}

// ── Laws ──

/// Counters are judged by their fields: where any are expected an entry must
/// have some, and where some are expected of this boot the tries left must be
/// those, the tries done only where they are pinned, and the two must not be
/// those before the boot before.
pub proof fn law_counters_are_judged_by_their_fields(
    expect: Seq<ExpectedCounters>,
    index: u32,
    previous: Option<Option<TryCounters>>,
    observed: Option<TryCounters>,
)
    requires
        1 <= index,
    ensures
        counter_fault(expect, index, previous, observed) is None <==> (expect.len() == 0 || (
        observed is Some && (index > expect.len() || {
            let want = expect[index - 1];
            &&& observed->0.tries_left == want.tries_left
            &&& want.tries_done is Some ==> observed->0.tries_done == want.tries_done->0
            &&& previous != Some(observed)
        }))),
{
}

/// Where only the tries left are pinned, any counters with that many tries left
/// are accepted that are not those before the boot before, and how many were
/// done makes no difference.
pub proof fn law_unpinned_tries_are_free(
    expect: Seq<ExpectedCounters>,
    index: u32,
    previous: Option<Option<TryCounters>>,
    a: TryCounters,
    b: TryCounters,
)
    requires
        1 <= index <= expect.len(),
        expect[index - 1].tries_done is None,
        a.tries_left == b.tries_left,
        previous != Some(Some(a)),
        previous != Some(Some(b)),
    ensures
        a.tries_left == expect[index - 1].tries_left ==> counter_fault(
            expect,
            index,
            previous,
            Some(a),
        ) is None,
        counter_fault(expect, index, previous, Some(a)) is None <==> counter_fault(
            expect,
            index,
            previous,
            Some(b),
        ) is None,
{
}

/// How an entry of an expected sequence is written: the tries left, and behind
/// a dash the tries done where they are pinned.
pub open spec fn entry_text(e: ExpectedCounters) -> Seq<char> {
    match e.tries_done {
        Some(d) => decimal(e.tries_left as nat) + seq!['-'] + decimal(d as nat),
        None => decimal(e.tries_left as nat),
    }
}

proof fn lemma_entry_text(e: ExpectedCounters)
    ensures
        trimmed(entry_text(e)) == entry_text(e),
        entry_text(e).len() > 0,
        !entry_text(e).contains(','),
        expected_of(entry_text(e)) == Ok::<ExpectedCounters, Seq<char>>(e),
{
    let l = decimal(e.tries_left as nat);
    let t = entry_text(e);
    lemma_decimal_plain(e.tries_left as nat);
    law_numbers_are_read_back(e.tries_left as nat, u32::MAX as int);
    reveal_strlit("-");
    assert("-"@ =~= seq!['-']);
    assert(!l.contains('-') && !l.contains(','));
    assert(l.contains(l[0]));
    match e.tries_done {
        None => {
            law_cut_at_the_first(l, '-', l);
        },
        Some(d) => {
            let r = decimal(d as nat);
            lemma_decimal_plain(d as nat);
            law_numbers_are_read_back(d as nat, u32::MAX as int);
            law_cut_at_the_first(l, '-', r);
            assert(r.contains(r[r.len() - 1]));
            assert(t[0] == l[0] && t.last() == r[r.len() - 1]);
            lemma_trimmed_plain(t);
            assert(!t.contains(',')) by {
                if t.contains(',') {
                    let k = choose|k: int| 0 <= k < t.len() && t[k] == ',';
                    if k < l.len() {
                        assert(l[k] == ',');
                    } else if k > l.len() {
                        assert(r[k - l.len() - 1] == ',');
                    }
                }
            }
        },
    }
}

proof fn lemma_entries_read(v: Seq<ExpectedCounters>)
    ensures
        sequence_of(v.map_values(|e: ExpectedCounters| entry_text(e))) == Ok::<
            Seq<ExpectedCounters>,
            Seq<char>,
        >(v),
    decreases v.len(),
{
    let w = v.map_values(|e: ExpectedCounters| entry_text(e));
    if v.len() == 0 {
        assert(v =~= Seq::<ExpectedCounters>::empty());
    } else {
        lemma_entry_text(v[0]);
        lemma_entries_read(v.skip(1));
        assert(w.skip(1) =~= v.skip(1).map_values(|e: ExpectedCounters| entry_text(e)));
        assert(seq![v[0]] + v.skip(1) =~= v);
    }
}

/// An expected sequence that is written with commas is read as it was meant:
/// a bare number pins the tries left alone.
pub proof fn law_expected_sequences_are_read_back(v: Seq<ExpectedCounters>)
    requires
        v.len() > 0,
    ensures
        sequence_of(
            parts(joined(v.map_values(|e: ExpectedCounters| entry_text(e)), seq![',']), ','),
        ) == Ok::<Seq<ExpectedCounters>, Seq<char>>(v),
{
    let w = v.map_values(|e: ExpectedCounters| entry_text(e));
    assert forall|i: int| 0 <= i < w.len() implies !(#[trigger] w[i]).contains(',') by {
        lemma_entry_text(v[i]);
    }
    law_joined_texts_are_split_again(w, ',');
    lemma_entries_read(v);
}

/// The counters in the name of a boot entry are read back, whatever stands in
/// front of them, and a name without counters has none.
pub proof fn law_counters_are_read_back(stem: Seq<char>, left: u32, done: u32)
    ensures
        counters_of(
            stem + seq!['+'] + (decimal(left as nat) + seq!['-'] + decimal(done as nat)) + ".efi"@,
        ) == Some(TryCounters { tries_left: left, tries_done: done }),
        !stem.contains('+') ==> counters_of(stem + ".efi"@) is None,
        !".efi"@.is_suffix_of(stem) ==> counters_of(stem) is None,
{
    let l = decimal(left as nat);
    let d = decimal(done as nat);
    let tail = l + seq!['-'] + d;
    reveal_strlit("-");
    reveal_strlit("+");
    assert("-"@ =~= seq!['-']);
    assert("+"@ =~= seq!['+']);
    lemma_decimal_plain(left as nat);
    lemma_decimal_plain(done as nat);
    law_numbers_are_read_back(left as nat, u32::MAX as int);
    law_numbers_are_read_back(done as nat, u32::MAX as int);
    law_ends_are_taken_off(".efi"@, stem + seq!['+'] + tail);
    law_ends_are_taken_off(".efi"@, stem);
    assert(!l.contains('-') && !l.contains('+') && !d.contains('+'));
    law_cut_at_the_first(l, '-', d);
    assert(!tail.contains('+')) by {
        if tail.contains('+') {
            let k = choose|k: int| 0 <= k < tail.len() && tail[k] == '+';
            if k < l.len() {
                assert(l[k] == '+');
            } else if k > l.len() {
                assert(d[k - l.len() - 1] == '+');
            }
        }
    }
    law_cut_at_the_last(stem, '+', tail);
    if !stem.contains('+') {
        law_cut_at_the_last(stem, '+', stem);
    }
}

/// Of the entries the first one with counters counts.
pub proof fn law_the_first_counted_entry_counts(entries: Seq<Seq<char>>)
    ensures
        match first_counted(entries) {
            Some(x) => exists|i: int|
                0 <= i < entries.len() && #[trigger] entries[i] == x.0 && counters_of(entries[i])
                    == Some(x.1) && forall|j: int|
                    0 <= j < i ==> counters_of(#[trigger] entries[j]) is None,
            None => forall|j: int|
                0 <= j < entries.len() ==> counters_of(#[trigger] entries[j]) is None,
        },
    decreases entries.len(),
{
    if entries.len() > 0 {
        let tail = entries.skip(1);
        law_the_first_counted_entry_counts(tail);
        if counters_of(entries[0]) is None {
            match first_counted(tail) {
                Some(x) => {
                    let i = choose|i: int|
                        0 <= i < tail.len() && #[trigger] tail[i] == x.0 && counters_of(tail[i])
                            == Some(x.1) && forall|j: int|
                            0 <= j < i ==> counters_of(#[trigger] tail[j]) is None;
                    assert(entries[i + 1] == tail[i]);
                    assert forall|j: int| 0 <= j < i + 1 implies counters_of(
                        #[trigger] entries[j],
                    ) is None by {
                        if j > 0 {
                            assert(tail[j - 1] == entries[j]);
                        }
                    }
                },
                None => {
                    assert forall|j: int| 0 <= j < entries.len() implies counters_of(
                        #[trigger] entries[j],
                    ) is None by {
                        if j > 0 {
                            assert(tail[j - 1] == entries[j]);
                        }
                    }
                },
            }
        } else {
            assert(entries[0] == entries[0]);
        }
    }
}

/// The names of a listing are its lines, trimmed, without the blank ones.
pub proof fn law_listings_name_every_entry(rows: Seq<Seq<char>>)
    ensures
        listed_names(rows) == rows.map_values(|r: Seq<char>| trimmed(r)).filter(
            |r: Seq<char>| r.len() > 0,
        ),
    decreases rows.len(),
{
    let f = |r: Seq<char>| trimmed(r);
    let keep = |r: Seq<char>| r.len() > 0;
    let w = rows.map_values(f);
    if rows.len() == 0 {
        reveal(Seq::filter);
        assert(w.filter(keep) =~= Seq::<Seq<char>>::empty());
    } else {
        law_listings_name_every_entry(rows.skip(1));
        assert(w.skip(1) =~= rows.skip(1).map_values(f));
        lemma_filter_first(w, keep);
    }
}

/// A line is evidence where it holds one of the texts that count.
pub proof fn law_lines_count_by_what_they_hold(line: Seq<char>)
    ensures
        line_is(LineKind::Target, line) <==> holds(line, "Reached target "@),
        line_is(LineKind::Service, line) <==> (holds(line, "Reached target "@) || (holds(
            line,
            "Started "@,
        ) && holds(line, ".service"@))),
        line_is(LineKind::BootComplete, line) <==> holds(
            line,
            "Reached target Boot Completion Check"@,
        ),
        line_is(LineKind::Completion, line) <==> (holds(
            line,
            "Reached target Boot Completion Check"@,
        ) || holds(line, "Reached target Multi-User System"@) || holds(
            line,
            "Reached target Graphical Interface"@,
        )),
        line_is(LineKind::Handoff, line) <==> holds(line, "SHUTTLE-INIT: switch-root"@),
        line_is(LineKind::Panic, line) <==> (holds(line, "Kernel panic"@) || holds(
            line,
            "end Kernel panic"@,
        ) || holds(line, "panic - not syncing"@)),
{
}

/// The evidence of a kind is the first line of it, trimmed; none where no line
/// is of it.
pub proof fn law_evidence_is_the_first_line(kind: LineKind, rows: Seq<Seq<char>>)
    ensures
        match first_of(kind, rows) {
            Some(l) => exists|i: int|
                0 <= i < rows.len() && line_is(kind, #[trigger] rows[i]) && l == trimmed(rows[i])
                    && forall|j: int| 0 <= j < i ==> !line_is(kind, #[trigger] rows[j]),
            None => forall|j: int| 0 <= j < rows.len() ==> !line_is(kind, #[trigger] rows[j]),
        },
    decreases rows.len(),
{
    if rows.len() > 0 {
        let tail = rows.skip(1);
        law_evidence_is_the_first_line(kind, tail);
        if line_is(kind, rows[0]) {
            assert(rows[0] == rows[0]);
        } else {
            match first_of(kind, tail) {
                Some(l) => {
                    let i = choose|i: int|
                        0 <= i < tail.len() && line_is(kind, #[trigger] tail[i]) && l == trimmed(
                            tail[i],
                        ) && forall|j: int| 0 <= j < i ==> !line_is(kind, #[trigger] tail[j]);
                    assert(rows[i + 1] == tail[i]);
                    assert forall|j: int| 0 <= j < i + 1 implies !line_is(
                        kind,
                        #[trigger] rows[j],
                    ) by {
                        if j > 0 {
                            assert(tail[j - 1] == rows[j]);
                        }
                    }
                },
                None => {
                    assert forall|j: int| 0 <= j < rows.len() implies !line_is(
                        kind,
                        #[trigger] rows[j],
                    ) by {
                        if j > 0 {
                            assert(tail[j - 1] == rows[j]);
                        }
                    }
                },
            }
        }
    }
}

/// Every piece of evidence is of its own kind, and userspace is proved by any
/// of its markers.
pub proof fn law_evidence_is_what_the_console_shows(text: Seq<char>)
    ensures
        ({
            let ev = evidence_of(text);
            let rows = lines(text);
            &&& ev.target == first_of(LineKind::Target, rows)
            &&& ev.service == first_of(LineKind::Service, rows)
            &&& ev.handoff == first_of(LineKind::Handoff, rows)
            &&& ev.boot_complete == first_of(LineKind::BootComplete, rows)
            &&& ev.completion == first_of(LineKind::Completion, rows)
            &&& ev.panic == first_of(LineKind::Panic, rows)
            &&& ev.activate <==> holds(text, "shuttle-runtime-activate"@)
            &&& ev.userspace <==> (holds(text, "systemd[1]:"@) || holds(text, "Reached target "@)
                || holds(text, "Started "@) || holds(text, "Welcome to "@))
            &&& forall|m: Seq<char>| #[trigger]
                ev.markers.contains(m) <==> holds(text, m) && (m == "systemd[1]:"@ || m
                    == "Reached target "@ || m == "Started "@ || m == "Welcome to "@)
        }),
{
    reveal_with_fuel(markers_in, 5);
    let a = markers_in(text, 1);
    let b = markers_in(text, 2);
    let c = markers_in(text, 3);
    let d = markers_in(text, 4);
    let m0 = "systemd[1]:"@;
    let m1 = "Reached target "@;
    let m2 = "Started "@;
    let m3 = "Welcome to "@;
    assert(USERSPACE_MARKERS@[0]@ == m0 && USERSPACE_MARKERS@[1]@ == m1 && USERSPACE_MARKERS@[2]@
        == m2 && USERSPACE_MARKERS@[3]@ == m3);
    lemma_marker_push(Seq::empty(), a, holds(text, m0), m0);
    lemma_marker_push(a, b, holds(text, m1), m1);
    lemma_marker_push(b, c, holds(text, m2), m2);
    lemma_marker_push(c, d, holds(text, m3), m3);
}

proof fn lemma_marker_push(
    before: Seq<Seq<char>>,
    after: Seq<Seq<char>>,
    held: bool,
    marker: Seq<char>,
)
    requires
        after == (if held {
            before.push(marker)
        } else {
            before
        }),
    ensures
        forall|m: Seq<char>| #[trigger]
            after.contains(m) <==> before.contains(m) || (held && m == marker),
{
    assert forall|m: Seq<char>| #[trigger] after.contains(m) <==> before.contains(m) || (held && m
        == marker) by {
        if before.contains(m) {
            let k = choose|k: int| 0 <= k < before.len() && before[k] == m;
            assert(after[k] == m);
        }
        if held {
            assert(after[before.len() as int] == marker);
        }
        if after.contains(m) {
            let k = choose|k: int| 0 <= k < after.len() && after[k] == m;
            if k < before.len() {
                assert(before[k] == m);
            }
        }
    }
}

/// A boot passes exactly where its console has no panic, userspace, the
/// handoff, a completion unless that is waived, and all that is required.
/// Otherwise the first of these that is wrong is named; before userspace the
/// way the machine ended says which.
pub proof fn law_boots_are_judged_in_order(
    text: Seq<char>,
    code: i32,
    stderr: Seq<char>,
    required: Seq<Seq<char>>,
    waived: bool,
)
    ensures
        ({
            let ev = evidence_of(text);
            let v = verdict(text, ev, code, stderr, required, waived);
            let met = forall|i: int| 0 <= i < required.len() ==> holds(text, #[trigger] required[i]);
            let came = ev.panic is None && ev.userspace;
            &&& v is None <==> came && ev.handoff is Some && (ev.completion is Some || waived)
                && met
            &&& ev.panic is Some <==> v == Some(FailureView::Panic)
            &&& v == Some(FailureView::Timeout) <==> ev.panic is None && !ev.userspace && code
                == 124
            &&& v == Some(FailureView::NoUserspace) <==> ev.panic is None && !ev.userspace && code
                != 124 && (code == 0 || trimmed(stderr).len() == 0)
            &&& (v matches Some(FailureView::Qemu(c, e)) ==> ev.panic is None && !ev.userspace && c
                == code && code != 0 && code != 124 && e == trimmed(stderr) && e.len() > 0)
            &&& v == Some(FailureView::NoHandoff) <==> came && ev.handoff is None
            &&& v == Some(FailureView::NoCompletion) <==> came && ev.handoff is Some
                && ev.completion is None && !waived
            &&& (v matches Some(FailureView::MissingRequirement(s)) ==> required.contains(s)
                && !holds(text, s))
        }),
{
    lemma_first_missing(text, required);
}

proof fn lemma_first_missing(text: Seq<char>, required: Seq<Seq<char>>)
    ensures
        match first_missing(text, required) {
            Some(s) => required.contains(s) && !holds(text, s) && exists|i: int|
                0 <= i < required.len() && !holds(text, #[trigger] required[i]),
            None => forall|i: int| 0 <= i < required.len() ==> holds(text, #[trigger] required[i]),
        },
    decreases required.len(),
{
    if required.len() > 0 {
        let tail = required.skip(1);
        lemma_first_missing(text, tail);
        if holds(text, required[0]) {
            match first_missing(text, tail) {
                Some(s) => {
                    let k = choose|k: int| 0 <= k < tail.len() && tail[k] == s;
                    assert(required[k + 1] == s);
                },
                None => {
                    assert forall|i: int| 0 <= i < required.len() implies holds(
                        text,
                        #[trigger] required[i],
                    ) by {
                        if i > 0 {
                            assert(tail[i - 1] == required[i]);
                        }
                    }
                },
            }
        } else {
            assert(required[0] == required[0]);
            assert(required.contains(required[0]));
        }
    }
}

/// KVM is used first exactly where it is asked for and this host has it, and a
/// failure speaks of KVM only where the machine failed by itself.
pub proof fn law_kvm_is_used_where_it_is_there(
    test: BootTest,
    code: i32,
    stderr: Seq<char>,
    log: Seq<char>,
)
    ensures
        first_accel(test) is Kvm <==> test.accel is Kvm && test.kvm_available,
        kvm_failed(0, stderr, log) == false,
        kvm_failed(124, stderr, log) == false,
        code != 0 && code != 124 ==> (kvm_failed(code, stderr, log) <==> holds(
            lowered(stderr + "\n"@ + log),
            "kvm"@,
        )),
{
}

/// The virtual machine runs the image with its firmware, writes its console to
/// the log, ends at a reboot, and is ended when its time is up. The firmware's
/// code cannot be written to, its variables can.
pub proof fn law_the_machine_is_set_up(t: BootTest, accel: Accel)
    ensures
        ({
            let a = timeout_args(t) + qemu_args(t, accel);
            let flag = |name: Seq<char>, value: Seq<char>|
                exists|i: int|
                    0 <= i < a.len() - 1 && #[trigger] a[i] == name && a[i + 1] == value;
            &&& a[0] == t.timeout_bin@ && a[5] == decimal(t.timeout as nat) && a[6] == t.qemu@
            &&& flag("-serial"@, "file:"@ + t.log@)
            &&& flag("-drive"@, "file="@ + t.image@ + ",format=raw,if=virtio"@)
            &&& flag("-drive"@, "if=pflash,format=raw,readonly=on,file="@ + t.firmware.code@)
            &&& flag("-drive"@, "if=pflash,format=raw,file="@ + t.firmware.vars@)
            &&& flag("-accel"@, if accel is Kvm {
                "kvm"@
            } else {
                "tcg"@
            })
            &&& a.contains("-no-reboot"@)
        }),
{
    let a = timeout_args(t) + qemu_args(t, accel);
    assert(a[9] == "-accel"@ && a[13] == "-drive"@ && a[15] == "-drive"@ && a[17] == "-drive"@
        && a[23] == "-serial"@ && a[25] == "-no-reboot"@);
    assert(a[10] == accel_name(accel));
    assert(a[14] == "if=pflash,format=raw,readonly=on,file="@ + t.firmware.code@);
    assert(a[16] == "if=pflash,format=raw,file="@ + t.firmware.vars@);
    assert(a[18] == "file="@ + t.image@ + ",format=raw,if=virtio"@);
    assert(a[24] == "file:"@ + t.log@);
}

/// The boot that a sequence blames is the first that did not pass.
pub proof fn law_the_first_failed_boot_is_blamed(records: Seq<BootRecord>, from: int)
    requires
        0 <= from,
    ensures
        match first_failed(records, from) {
            Some(i) => from <= i < records.len() && records[i].outcome.failure is Some && forall|
                j: int,
            |
                from <= j < i ==> (#[trigger] records[j]).outcome.failure is None,
            None => forall|j: int|
                from <= j < records.len() ==> (#[trigger] records[j]).outcome.failure is None,
        },
    decreases records.len() - from,
{
    if from < records.len() && records[from].outcome.failure is None {
        law_the_first_failed_boot_is_blamed(records, from + 1);
    }
}

/// At least one boot is run, and several run on a copy of the image whose
/// evidence has a directory of its own.
pub proof fn law_several_boots_run_on_a_copy(t: BootTest)
    ensures
        boots_of(t) >= 1,
        t.runs >= 1 ==> boots_of(t) == t.runs,
        t.runs <= 1 ==> booted_image(t) == t.image@ && root_of(t) is None,
        t.runs > 1 ==> root_of(t) == Some(t.log@ + ".d"@) && booted_image(t) == t.log@ + ".d/img"@,
{
    if t.runs > 1 {
        reveal_strlit(".d");
        reveal_strlit("/");
        reveal_strlit("img");
        reveal_strlit(".d/img");
        let root = t.log@ + ".d"@;
        assert(root.last() == 'd');
        assert(path_in(root, "img"@) =~= t.log@ + ".d/img"@);
    }
}

/// A program is found in the first directory of the path that has it; empty
/// entries of the path are passed over.
pub proof fn law_programs_are_found_along_the_path(
    dirs: Seq<Seq<char>>,
    name: Seq<char>,
    files: Seq<Seq<char>>,
)
    ensures
        match first_among(candidates(dirs, name), files) {
            Some(p) => exists|i: int|
                0 <= i < dirs.len() && (#[trigger] dirs[i]).len() > 0 && p == path_in(dirs[i], name)
                    && files.contains(p) && forall|j: int|
                    0 <= j < i && (#[trigger] dirs[j]).len() > 0 ==> !files.contains(
                        path_in(dirs[j], name),
                    ),
            None => forall|j: int|
                0 <= j < dirs.len() && (#[trigger] dirs[j]).len() > 0 ==> !files.contains(
                    path_in(dirs[j], name),
                ),
        },
    decreases dirs.len(),
{
    if dirs.len() > 0 {
        let tail = dirs.skip(1);
        law_programs_are_found_along_the_path(tail, name, files);
        let here = path_in(dirs[0], name);
        let all = candidates(dirs, name);
        if dirs[0].len() > 0 {
            assert(all[0] == here);
            assert(all.skip(1) =~= candidates(tail, name));
        }
        if dirs[0].len() > 0 && files.contains(here) {
            assert(first_among(all, files) == Some(here));
            assert(dirs[0].len() > 0);
        } else {
            assert(first_among(all, files) == first_among(candidates(tail, name), files));
            match first_among(all, files) {
                Some(p) => {
                    let i = choose|i: int|
                        0 <= i < tail.len() && (#[trigger] tail[i]).len() > 0 && p == path_in(
                            tail[i],
                            name,
                        ) && files.contains(p) && forall|j: int|
                            0 <= j < i && (#[trigger] tail[j]).len() > 0 ==> !files.contains(
                                path_in(tail[j], name),
                            );
                    assert(dirs[i + 1] == tail[i]);
                    assert forall|j: int|
                        0 <= j < i + 1 && (#[trigger] dirs[j]).len() > 0 implies !files.contains(
                        path_in(dirs[j], name),
                    ) by {
                        if j > 0 {
                            assert(tail[j - 1] == dirs[j]);
                        }
                    }
                },
                None => {
                    assert forall|j: int|
                        0 <= j < dirs.len() && (#[trigger] dirs[j]).len()
                            > 0 implies !files.contains(path_in(dirs[j], name)) by {
                        if j > 0 {
                            assert(tail[j - 1] == dirs[j]);
                        }
                    }
                },
            }
        }
    }
}

/// Firmware is taken as a pair of one directory in which both files are, from
/// the first directory that has a pair.
pub proof fn law_firmware_comes_in_pairs(dirs: Seq<Seq<char>>, files: Seq<Seq<char>>)
    ensures
        match pair_of(dirs, files) {
            Some(p) => files.contains(p.0) && files.contains(p.1) && exists|i: int|
                0 <= i < dirs.len() && pair_in(#[trigger] dirs[i], files, 0) == Some(p) && forall|
                    j: int,
                |
                    0 <= j < i ==> pair_in(#[trigger] dirs[j], files, 0) is None,
            None => forall|j: int|
                0 <= j < dirs.len() ==> pair_in(#[trigger] dirs[j], files, 0) is None,
        },
        forall|d: Seq<char>| #[trigger]
            pair_in(d, files, 0) is None <==> !(files.contains(path_in(d, "OVMF_CODE.fd"@))
                && files.contains(path_in(d, "OVMF_VARS.fd"@))) && !((files.contains(
                path_in(d, "edk2-x86_64-code.fd"@),
            ) || files.contains(path_in(d, "edk2-i386-code.fd"@))) && files.contains(
                path_in(d, "edk2-i386-vars.fd"@),
            )),
    decreases dirs.len(),
{
    reveal_with_fuel(pair_in, 4);
    if dirs.len() > 0 {
        let tail = dirs.skip(1);
        law_firmware_comes_in_pairs(tail, files);
        if pair_in(dirs[0], files, 0) is Some {
            assert(dirs[0] == dirs[0]);
        } else {
            match pair_of(tail, files) {
                Some(p) => {
                    let i = choose|i: int|
                        0 <= i < tail.len() && pair_in(#[trigger] tail[i], files, 0) == Some(p)
                            && forall|j: int|
                            0 <= j < i ==> pair_in(#[trigger] tail[j], files, 0) is None;
                    assert(dirs[i + 1] == tail[i]);
                    assert forall|j: int| 0 <= j < i + 1 implies pair_in(
                        #[trigger] dirs[j],
                        files,
                        0,
                    ) is None by {
                        if j > 0 {
                            assert(tail[j - 1] == dirs[j]);
                        }
                    }
                },
                None => {
                    assert forall|j: int| 0 <= j < dirs.len() implies pair_in(
                        #[trigger] dirs[j],
                        files,
                        0,
                    ) is None by {
                        if j > 0 {
                            assert(tail[j - 1] == dirs[j]);
                        }
                    }
                },
            }
        }
    }
}

/// Of the texts that a console must show the first that it does not is missing.
pub proof fn law_the_first_missing_text_is_named(text: Seq<char>, required: Seq<Seq<char>>)
    ensures
        match first_missing(text, required) {
            Some(m) => exists|i: int|
                0 <= i < required.len() && #[trigger] required[i] == m && !holds(text, m)
                    && forall|j: int| 0 <= j < i ==> holds(text, #[trigger] required[j]),
            None => forall|j: int| 0 <= j < required.len() ==> holds(text, #[trigger] required[j]),
        },
    decreases required.len(),
{
    if required.len() > 0 {
        let tail = required.skip(1);
        if !holds(text, required[0]) {
            assert(required[0] == required[0]);
        } else {
            law_the_first_missing_text_is_named(text, tail);
            match first_missing(text, tail) {
                Some(m) => {
                    let i = choose|i: int|
                        0 <= i < tail.len() && #[trigger] tail[i] == m && !holds(text, m)
                            && forall|j: int| 0 <= j < i ==> holds(text, #[trigger] tail[j]);
                    assert(required[i + 1] == m);
                    assert forall|j: int| 0 <= j < i + 1 implies holds(
                        text,
                        #[trigger] required[j],
                    ) by {
                        if j > 0 {
                            assert(tail[j - 1] == required[j]);
                        }
                    }
                },
                None => {
                    assert forall|j: int| 0 <= j < required.len() implies holds(
                        text,
                        #[trigger] required[j],
                    ) by {
                        if j > 0 {
                            assert(tail[j - 1] == required[j]);
                        }
                    }
                },
            }
        }
    }
}

/// The line that shows most counts: completion before handoff before a target.
pub proof fn law_completion_shows_most(ev: EvidenceView)
    ensures
        ev.completion is Some ==> best_line(ev) == ev.completion->0,
        ev.completion is None && ev.handoff is Some ==> best_line(ev) == ev.handoff->0,
        ev.completion is None && ev.handoff is None && ev.target is Some ==> best_line(ev)
            == ev.target->0,
{
}

/// Firmware is looked for where the caller says, then where the environment
/// says, then below the share directory, then at the usual places.
pub proof fn law_given_places_come_first(
    extra: Seq<char>,
    env: Seq<char>,
    share: Seq<char>,
)
    ensures
        firmware_places(Some(extra), None, None) == seq![extra] + firmware_places(None, None, None),
        env.len() > 0 ==> firmware_places(None, Some(env), None) == seq![env] + firmware_places(
            None,
            None,
            None,
        ),
        firmware_places(None, Some(Seq::empty()), None) == firmware_places(None, None, None),
        firmware_places(None, None, Some(share)) == seq![share, path_in(share, "firmware"@)]
            + firmware_places(None, None, None),
        env.len() > 0 ==> firmware_places(Some(extra), Some(env), Some(share)) == seq![
            extra,
            env,
            share,
            path_in(share, "firmware"@),
        ] + firmware_places(None, None, None),
{
    let u = firmware_places(None, None, None);
    assert(firmware_places(Some(extra), None, None) =~= seq![extra] + u);
    if env.len() > 0 {
        assert(firmware_places(None, Some(env), None) =~= seq![env] + u);
        assert(firmware_places(Some(extra), Some(env), Some(share)) =~= seq![
            extra,
            env,
            share,
            path_in(share, "firmware"@),
        ] + u);
    }
    assert(firmware_places(None, Some(Seq::empty()), None) =~= u);
    assert(firmware_places(None, None, Some(share)) =~= seq![share, path_in(share, "firmware"@)]
        + u);
}

/// A place that names the same path as the one before it is looked at once, and
/// every other place is looked at.
pub proof fn law_places_are_looked_at_once(dirs: Seq<Seq<char>>, d: Seq<char>)
    ensures
        without_repeats(dirs).len() > 0 && same_path(without_repeats(dirs).last(), d)
            ==> without_repeats(dirs.push(d)) == without_repeats(dirs),
        !(without_repeats(dirs).len() > 0 && same_path(without_repeats(dirs).last(), d))
            ==> without_repeats(dirs.push(d)) == without_repeats(dirs).push(d),
        without_repeats(Seq::empty()).len() == 0,
{
    assert(dirs.push(d).drop_last() =~= dirs);
}

/// The boot that comes next is the one behind those that are recorded, as long
/// as there are boots left and none was stopped for.
pub proof fn law_boots_are_counted_from_one(s: Sequence)
    requires
        s.records@.len() < u32::MAX,
    ensures
        s.upcoming() is Some <==> !s.stopped && s.records@.len() < s.runs,
        s.upcoming() is Some ==> s.upcoming()->0 == s.records@.len() + 1,
{
}

} // verus!
