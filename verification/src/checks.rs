//! Package lint: the checks over declarations, and what they report.
//!
//! An error means that the build would fail, or would ship something provably
//! broken. A warning means that the build would succeed with a shape that is
//! suspicious. Only errors count against a declaration.

use crate::json_doc::{json_views, Json, JsonView};
use crate::meta::{SnapApp, SnapMeta};
use crate::ordered::{
    keys_of, lemma_pieces, lemma_sorted_views, lookup, name_set, law_sorted_by_keeps, law_sorted_by_orders,
    ordered_by, set_of, sorted_by, stable_sort, Ordered, Ranked,
};
use crate::text::{
    law_cut_at_the_last, law_ends_are_taken_off,
    after_last, after_prefix, before_first, chars_of, contains, decimal, drop_leading, first_part,
    holds, is_digit, join, join_path, joined, last_part, lines, list_contains, opt_text, path_in,
    split_lines, split_whitespace, starts_with, str_eq, str_lt, strip_prefix, text_lt, texts,
    to_decimal, trim_start_char, words, lemma_text_lt_total, lemma_text_lt_transitive,
};
use vstd::prelude::*;

verus! {

/// How bad a finding is.
#[derive(Debug, Clone, Copy, PartialEq, Eq, PartialOrd, Ord, Structural)]
pub enum Severity {
    Warn,
    Error,
}

impl Severity {
    /// The severity as reports write it.
    pub fn as_str(self) -> (r: &'static str)
        ensures
            r@ == match self {
                Severity::Warn => "warn"@,
                Severity::Error => "error"@,
            },
    {
        match self {
            Severity::Warn => "warn",
            Severity::Error => "error",
        }
    }
}

/// One finding: the check that made it, the declaration it belongs to, what
/// was caught and how to mend it.
#[derive(Debug, PartialEq, Eq)]
pub struct Finding {
    pub check: &'static str,
    pub package: String,
    pub severity: Severity,
    pub message: String,
    pub hint: String,
}

/// The model of a [`Finding`].
pub struct FindingView {
    pub check: Seq<char>,
    pub package: Seq<char>,
    pub severity: Severity,
    pub message: Seq<char>,
    pub hint: Seq<char>,
}

impl View for Finding {
    type V = FindingView;

    open spec fn view(&self) -> FindingView {
        FindingView {
            check: self.check@,
            package: self.package@,
            severity: self.severity,
            message: self.message@,
            hint: self.hint@,
        }
    }
}

/// A finding's model.
pub open spec fn finding_view() -> spec_fn(Finding) -> FindingView {
    |f: Finding| f@
}

/// The models of a list of findings.
pub open spec fn finding_views(v: Seq<Finding>) -> Seq<FindingView> {
    v.map_values(finding_view())
}

/// Whether a finding need not come after another: by package, then by check,
/// then by message.
pub open spec fn finding_order() -> spec_fn(FindingView, FindingView) -> bool {
    |a: FindingView, b: FindingView|
        text_lt(a.package, b.package) || (a.package == b.package && (text_lt(a.check, b.check) || (
        a.check == b.check && !text_lt(b.message, a.message))))
}

impl Ranked for Finding {
    open spec fn ranks(self, other: Self) -> bool {
        finding_order()(self@, other@)
    }

    fn rank(&self, other: &Self) -> (r: bool) {
        str_lt(self.package.as_str(), other.package.as_str()) || (str_eq(
            self.package.as_str(),
            other.package.as_str(),
        ) && (str_lt(self.check, other.check) || (str_eq(self.check, other.check) && !str_lt(
            other.message.as_str(),
            self.message.as_str(),
        ))))
    }
}

/// Sorts findings by package, check and message.
pub fn sort_findings(v: Vec<Finding>) -> (r: Vec<Finding>)
    ensures
        finding_views(r@) == sorted_by(finding_views(v@), finding_order()),
{
    proof {
        lemma_sorted_views(v@, finding_view(), finding_order());
    }
    stable_sort(v)
}

/// Whether a finding is an error.
pub open spec fn is_error(f: FindingView) -> bool {
    f.severity is Error
}

/// Whether any finding is an error: the only thing that fails a lint.
pub fn has_errors(findings: &[Finding]) -> (r: bool)
    ensures
        r == exists|i: int|
            0 <= i < findings@.len() && is_error((#[trigger] findings@[i])@),
{
    let mut i: usize = 0;
    while i < findings.len()
        invariant
            i <= findings.len(),
            forall|k: int| 0 <= k < i ==> !is_error((#[trigger] findings@[k])@),
        decreases findings.len() - i,
    {
        if findings[i].severity == Severity::Error {
            assert(is_error(findings@[i as int]@));
            return true;
        }
        i += 1;
    }
    false
}

/// A finding's model from its parts.
pub open spec fn finding(
    check: Seq<char>,
    package: Seq<char>,
    severity: Severity,
    message: Seq<char>,
    hint: Seq<char>,
) -> FindingView {
    FindingView { check, package, severity, message, hint }
}

fn new_finding(
    check: &'static str,
    package: &str,
    severity: Severity,
    message: String,
    hint: String,
) -> (r: Finding)
    ensures
        r@ == finding(check@, package@, severity, message@, hint@),
{
    Finding { check, package: package.to_owned(), severity, message, hint }
}

fn push_finding(out: &mut Vec<Finding>, f: Finding)
    ensures
        finding_views(final(out)@) == finding_views(old(out)@).push(f@),
{
    let ghost before = finding_views(out@);
    let ghost x = f@;
    out.push(f);
    assert(finding_views(out@) =~= before.push(x));
}

fn push_findings(out: &mut Vec<Finding>, more: Vec<Finding>)
    ensures
        finding_views(final(out)@) == finding_views(old(out)@) + finding_views(more@),
{
    let ghost start = finding_views(out@);
    let mut more = more;
    let ghost tail = finding_views(more@);
    out.append(&mut more);
    assert(finding_views(out@) =~= start + tail);
}

// ── What is linted ──

/// A revision that the index pins, with the channel it was resolved on.
#[derive(Debug)]
pub struct PinEntry {
    pub revision: u32,
    pub sha3_384: String,
    pub channel: Option<String>,
}

/// An entry of the package index. Pins go by `<arch>@<channel>`, or by the
/// architecture alone.
#[derive(Debug)]
pub struct IndexEntry {
    pub name: String,
    pub pins: Option<Ordered<PinEntry>>,
    pub aliases: Vec<String>,
}

/// The package index.
#[derive(Debug)]
pub struct PackageIndex {
    pub snaps: Vec<IndexEntry>,
}

/// The first entry of a name from `i` on.
pub open spec fn entry_named(snaps: Seq<IndexEntry>, name: Seq<char>, i: int) -> Option<int>
    decreases snaps.len() - i,
{
    if i < 0 || i >= snaps.len() {
        None
    } else if snaps[i].name@ == name {
        Some(i)
    } else {
        entry_named(snaps, name, i + 1)
    }
}

/// The first entry with an alias from `i` on.
pub open spec fn entry_aliased(snaps: Seq<IndexEntry>, name: Seq<char>, i: int) -> Option<int>
    decreases snaps.len() - i,
{
    if i < 0 || i >= snaps.len() {
        None
    } else if texts(snaps[i].aliases@).contains(name) {
        Some(i)
    } else {
        entry_aliased(snaps, name, i + 1)
    }
}

/// The entry that a name leads to: its own, else one that has it as an alias.
pub open spec fn entry_of(snaps: Seq<IndexEntry>, name: Seq<char>) -> Option<int> {
    match entry_named(snaps, name, 0) {
        Some(i) => Some(i),
        None => entry_aliased(snaps, name, 0),
    }
}

impl PackageIndex {
    /// The entry that a name leads to: its own, else one that has it as an
    /// alias.
    pub fn find_by_name_or_alias(&self, name: &str) -> (r: Option<&IndexEntry>)
        ensures
            match r {
                Some(e) => entry_of(self.snaps@, name@) matches Some(i) && 0 <= i < self.snaps@.len()
                    && *e == self.snaps@[i],
                None => entry_of(self.snaps@, name@) is None,
            },
    {
        let mut i: usize = 0;
        while i < self.snaps.len()
            invariant
                i <= self.snaps.len(),
                entry_named(self.snaps@, name@, 0) == entry_named(self.snaps@, name@, i as int),
            decreases self.snaps.len() - i,
        {
            if str_eq(self.snaps[i].name.as_str(), name) {
                return Some(&self.snaps[i]);
            }
            i += 1;
        }
        let mut j: usize = 0;
        while j < self.snaps.len()
            invariant
                j <= self.snaps.len(),
                entry_named(self.snaps@, name@, 0) is None,
                entry_aliased(self.snaps@, name@, 0) == entry_aliased(
                    self.snaps@,
                    name@,
                    j as int,
                ),
            decreases self.snaps.len() - j,
        {
            if list_contains(&self.snaps[j].aliases, name) {
                return Some(&self.snaps[j]);
            }
            j += 1;
        }
        None
    }
}

/// A package of a pod: what is declared, and what it resolved to where it
/// resolved from local inputs.
#[derive(Debug)]
pub struct PodPackageMeta {
    pub spec: String,
    pub name: String,
    pub meta: Option<SnapMeta>,
}

/// The pod half of a lint.
#[derive(Debug)]
pub struct PodLintData {
    pub name: String,
    pub packages: Vec<PodPackageMeta>,
}

/// A script of a package's payload: its path, its text, and whether the
/// payload has one of the files of [`interpreter_probes`].
#[derive(Debug)]
pub struct StagedScript {
    pub rel: String,
    pub text: String,
    pub provided: bool,
}

/// The scripts of one output's payload.
#[derive(Debug)]
pub struct PackageStage {
    pub key: String,
    pub requires: Vec<String>,
    pub scripts: Vec<StagedScript>,
}

/// Everything that the checks see.
#[derive(Debug)]
pub struct LintInput {
    /// The architecture whose pins count.
    pub arch: String,
    /// The channel of bases and extra snaps.
    pub channel: String,
    /// The outputs as they were evaluated, before any validation.
    pub raw: Ordered<Json>,
    /// The outputs that validate as neither package nor image.
    pub unparsed: Vec<String>,
    pub index: PackageIndex,
    pub pod: Option<PodLintData>,
    /// The payloads that are staged, by output.
    pub staged: Vec<PackageStage>,
}

// ── Images ──

/// The lenient view of an image declaration: what lint reads of it, also where
/// validation would reject it.
#[derive(Debug)]
pub struct RawImage {
    pub base: String,
    /// Name and explicit channel.
    pub kernel: Option<(Option<String>, Option<String>)>,
    pub gadget: Option<(Option<String>, Option<String>)>,
    pub extras: Vec<Option<String>>,
    pub bootloader_type: Option<String>,
    /// Name and mount point, in the order they are declared.
    pub partitions: Vec<(String, String)>,
}

/// The model of a [`RawImage`].
pub struct ImageView {
    pub base: Seq<char>,
    pub kernel: Option<(Option<Seq<char>>, Option<Seq<char>>)>,
    pub gadget: Option<(Option<Seq<char>>, Option<Seq<char>>)>,
    pub extras: Seq<Option<Seq<char>>>,
    pub bootloader_type: Option<Seq<char>>,
    pub partitions: Seq<(Seq<char>, Seq<char>)>,
}

/// The texts of an optional name and channel.
pub open spec fn pin_view(o: Option<(Option<String>, Option<String>)>) -> Option<
    (Option<Seq<char>>, Option<Seq<char>>),
> {
    match o {
        Some(p) => Some((opt_text(p.0), opt_text(p.1))),
        None => None,
    }
}

/// The texts of a list of optional names.
pub open spec fn opt_texts(v: Seq<Option<String>>) -> Seq<Option<Seq<char>>> {
    v.map_values(|o: Option<String>| opt_text(o))
}

/// The texts of a list of pairs.
pub open spec fn pair_texts(v: Seq<(String, String)>) -> Seq<(Seq<char>, Seq<char>)> {
    v.map_values(|p: (String, String)| (p.0@, p.1@))
}

impl View for RawImage {
    type V = ImageView;

    open spec fn view(&self) -> ImageView {
        ImageView {
            base: self.base@,
            kernel: pin_view(self.kernel),
            gadget: pin_view(self.gadget),
            extras: opt_texts(self.extras@),
            bootloader_type: opt_text(self.bootloader_type),
            partitions: pair_texts(self.partitions@),
        }
    }
}

/// The name and channel of an optional table.
pub open spec fn pin_of(v: Option<JsonView>) -> Option<(Option<Seq<char>>, Option<Seq<char>>)> {
    match v {
        Some(JsonView::Object(m)) => Some(
            (
                JsonView::Object(m).text_at("name"@),
                JsonView::Object(m).text_at("channel"@),
            ),
        ),
        _ => None,
    }
}

/// The names and mount points of partitions; one without either is left out.
pub open spec fn mounts_of(v: Seq<JsonView>) -> Seq<(Seq<char>, Seq<char>)>
    decreases v.len(),
{
    if v.len() == 0 {
        Seq::empty()
    } else {
        match (v[0].text_at("name"@), v[0].text_at("mount"@)) {
            (Some(n), Some(m)) => seq![(n, m)] + mounts_of(v.skip(1)),
            _ => mounts_of(v.skip(1)),
        }
    }
}

/// What lint reads of a value as an image; `None` for one without a base that
/// has a name.
pub open spec fn image_of(v: JsonView) -> Option<ImageView> {
    match v.get("base"@) {
        None => None,
        Some(b) => match b.text_at("name"@) {
            None => None,
            Some(base) => Some(
                ImageView {
                    base,
                    kernel: pin_of(v.get("kernel"@)),
                    gadget: pin_of(v.get("gadget"@)),
                    extras: match v.items_at("snaps"@) {
                        Some(s) => s.map_values(|x: JsonView| x.text_at("name"@)),
                        None => Seq::empty(),
                    },
                    bootloader_type: match v.get("bootloader"@) {
                        Some(l) => l.text_at("type"@),
                        None => None,
                    },
                    partitions: match v.get("disk"@) {
                        Some(d) => match d.items_at("partitions"@) {
                            Some(p) => mounts_of(p),
                            None => Seq::empty(),
                        },
                        None => Seq::empty(),
                    },
                },
            ),
        },
    }
}

fn own_text(v: &Json, key: &str) -> (r: Option<String>)
    ensures
        opt_text(r) == v@.text_at(key@),
{
    match v.text_at(key) {
        Some(s) => Some(s.clone()),
        None => None,
    }
}

fn read_pin(v: Option<&Json>) -> (r: Option<(Option<String>, Option<String>)>)
    ensures
        pin_view(r) == pin_of(
            match v {
                Some(j) => Some(j@),
                None => None,
            },
        ),
{
    match v {
        Some(j) => match j {
            Json::Object(_) => Some((own_text(j, "name"), own_text(j, "channel"))),
            _ => None,
        },
        None => None,
    }
}

fn read_mounts(v: &Vec<Json>) -> (r: Vec<(String, String)>)
    ensures
        pair_texts(r@) == mounts_of(json_views(v@)),
{
    let ghost all = json_views(v@);
    let mut out: Vec<(String, String)> = Vec::new();
    let mut i: usize = 0;
    assert(all.skip(0) =~= all);
    assert(pair_texts(out@) + mounts_of(all) =~= mounts_of(all));
    while i < v.len()
        invariant
            i <= v.len(),
            all == json_views(v@),
            pair_texts(out@) + mounts_of(all.skip(i as int)) == mounts_of(all),
        decreases v.len() - i,
    {
        assert(all.skip(i as int)[0] == v@[i as int]@);
        assert(all.skip(i as int).skip(1) =~= all.skip(i + 1));
        match (own_text(&v[i], "name"), own_text(&v[i], "mount")) {
            (Some(n), Some(m)) => {
                let ghost before = out@;
                let ghost x = (n@, m@);
                out.push((n, m));
                proof {
                    assert(pair_texts(out@) =~= pair_texts(before).push(x));
                    let more = mounts_of(all.skip(i + 1));
                    assert(pair_texts(before) + (seq![x] + more) =~= pair_texts(out@) + more);
                }
            },
            _ => {},
        }
        i += 1;
    }
    assert(all.skip(i as int) =~= Seq::<JsonView>::empty());
    assert(pair_texts(out@) + Seq::<(Seq<char>, Seq<char>)>::empty() =~= pair_texts(out@));
    out
}

fn read_names(v: &Vec<Json>) -> (r: Vec<Option<String>>)
    ensures
        opt_texts(r@) == json_views(v@).map_values(|x: JsonView| x.text_at("name"@)),
{
    let ghost all = json_views(v@).map_values(|x: JsonView| x.text_at("name"@));
    let mut out: Vec<Option<String>> = Vec::new();
    let mut i: usize = 0;
    assert(opt_texts(out@) =~= all.take(0));
    while i < v.len()
        invariant
            i <= v.len(),
            all == json_views(v@).map_values(|x: JsonView| x.text_at("name"@)),
            opt_texts(out@) == all.take(i as int),
        decreases v.len() - i,
    {
        let ghost before = out@;
        let n = own_text(&v[i], "name");
        let ghost x = opt_text(n);
        out.push(n);
        proof {
            assert(all[i as int] == x);
            assert(opt_texts(out@) =~= opt_texts(before).push(x));
            assert(all.take(i + 1) =~= all.take(i as int).push(x));
        }
        i += 1;
    }
    assert(all.take(all.len() as int) =~= all);
    out
}

impl RawImage {
    /// Reads a value as an image; `None` for one that is not shaped like one.
    pub fn from_raw(v: &Json) -> (r: Option<RawImage>)
        ensures
            match r {
                Some(i) => image_of(v@) == Some(i@),
                None => image_of(v@) is None,
            },
    {
        let base = match v.get("base") {
            None => {
                return None;
            },
            Some(b) => match own_text(b, "name") {
                None => {
                    return None;
                },
                Some(n) => n,
            },
        };
        let extras: Vec<Option<String>> = match v.items_at("snaps") {
            Some(s) => read_names(s),
            None => {
                let e: Vec<Option<String>> = Vec::new();
                assert(opt_texts(e@) =~= Seq::<Option<Seq<char>>>::empty());
                e
            },
        };
        let bootloader_type = match v.get("bootloader") {
            Some(l) => own_text(l, "type"),
            None => None,
        };
        let none: Vec<(String, String)> = Vec::new();
        assert(pair_texts(none@) =~= Seq::<(Seq<char>, Seq<char>)>::empty());
        let partitions = match v.get("disk") {
            Some(d) => match d.items_at("partitions") {
                Some(p) => read_mounts(p),
                None => none,
            },
            None => none,
        };
        Some(
            RawImage {
                base,
                kernel: read_pin(v.get("kernel")),
                gadget: read_pin(v.get("gadget")),
                extras,
                bootloader_type,
                partitions,
            },
        )
    }
}

// ── Pins on dead channels ──

/// A store snap that an image refers to.
#[derive(Debug)]
pub struct SnapRef {
    pub name: String,
    /// The channel that the image names for it.
    pub channel: Option<String>,
    /// Whether it follows the track of the image's base.
    pub follows: bool,
}

/// The model of a [`SnapRef`].
pub struct RefView {
    pub name: Seq<char>,
    pub channel: Option<Seq<char>>,
    pub follows: bool,
}

impl View for SnapRef {
    type V = RefView;

    open spec fn view(&self) -> RefView {
        RefView { name: self.name@, channel: opt_text(self.channel), follows: self.follows }
    }
}

/// The models of a list of references.
pub open spec fn ref_views(v: Seq<SnapRef>) -> Seq<RefView> {
    v.map_values(|r: SnapRef| r@)
}

/// The reference of an optional kernel or gadget that has a name.
pub open spec fn tracked_ref(o: Option<(Option<Seq<char>>, Option<Seq<char>>)>) -> Seq<RefView> {
    match o {
        Some((Some(name), channel)) => if name.len() == 0 {
            Seq::empty()
        } else {
            seq![RefView { name, channel, follows: true }]
        },
        _ => Seq::empty(),
    }
}

/// The reference of a base or an extra snap that has a name.
pub open spec fn plain_ref(o: Option<Seq<char>>) -> Seq<RefView> {
    match o {
        Some(name) => if name.len() == 0 {
            Seq::empty()
        } else {
            seq![RefView { name, channel: None, follows: false }]
        },
        None => Seq::empty(),
    }
}

/// The references of extra snaps.
pub open spec fn extra_refs(v: Seq<Option<Seq<char>>>) -> Seq<RefView>
    decreases v.len(),
{
    if v.len() == 0 {
        Seq::empty()
    } else {
        extra_refs(v.drop_last()) + plain_ref(v.last())
    }
}

/// Every store snap that an image refers to: kernel, gadget, extras, base.
pub open spec fn image_refs(img: ImageView) -> Seq<RefView> {
    tracked_ref(img.kernel) + tracked_ref(img.gadget) + extra_refs(img.extras) + plain_ref(
        Some(img.base),
    )
}

fn push_tracked(out: &mut Vec<SnapRef>, o: &Option<(Option<String>, Option<String>)>)
    ensures
        ref_views(final(out)@) == ref_views(old(out)@) + tracked_ref(pin_view(*o)),
{
    let ghost start = ref_views(out@);
    match o {
        Some((Some(name), channel)) => {
            if !name.as_str().is_empty() {
                let channel = match channel {
                    Some(c) => Some(c.clone()),
                    None => None,
                };
                let r = SnapRef { name: name.clone(), channel, follows: true };
                let ghost x = r@;
                out.push(r);
                assert(ref_views(out@) =~= start + seq![x]);
            } else {
                assert(start + Seq::<RefView>::empty() =~= start);
            }
        },
        _ => {
            assert(start + Seq::<RefView>::empty() =~= start);
        },
    }
}

fn push_plain(out: &mut Vec<SnapRef>, name: &str)
    ensures
        ref_views(final(out)@) == ref_views(old(out)@) + plain_ref(Some(name@)),
{
    let ghost start = ref_views(out@);
    if !name.is_empty() {
        let r = SnapRef { name: name.to_owned(), channel: None, follows: false };
        let ghost x = r@;
        out.push(r);
        assert(ref_views(out@) =~= start + seq![x]);
    } else {
        assert(start + Seq::<RefView>::empty() =~= start);
    }
}

/// Every store snap that an image refers to.
pub fn image_snap_refs(img: &RawImage) -> (r: Vec<SnapRef>)
    ensures
        ref_views(r@) == image_refs(img@),
{
    let mut out: Vec<SnapRef> = Vec::new();
    let ghost kernel = tracked_ref(pin_view(img.kernel));
    let ghost gadget = tracked_ref(pin_view(img.gadget));
    let ghost extras = opt_texts(img.extras@);
    push_tracked(&mut out, &img.kernel);
    assert(ref_views(out@) =~= kernel);
    push_tracked(&mut out, &img.gadget);
    let mut i: usize = 0;
    assert(kernel + gadget + extra_refs(extras.take(0)) =~= kernel + gadget);
    while i < img.extras.len()
        invariant
            i <= img.extras@.len(),
            extras == opt_texts(img.extras@),
            ref_views(out@) == kernel + gadget + extra_refs(extras.take(i as int)),
        decreases img.extras@.len() - i,
    {
        let ghost before = ref_views(out@);
        let ghost so_far = extra_refs(extras.take(i as int));
        assert(extras.take(i + 1).drop_last() =~= extras.take(i as int));
        assert(extras.take(i + 1).last() == opt_text(img.extras@[i as int]));
        match &img.extras[i] {
            Some(name) => {
                push_plain(&mut out, name.as_str());
            },
            None => {},
        }
        proof {
            let more = plain_ref(extras[i as int]);
            assert(ref_views(out@) =~= before + more);
            assert(kernel + gadget + so_far + more =~= kernel + gadget + (so_far + more));
        }
        i += 1;
    }
    assert(extras.take(extras.len() as int) =~= extras);
    push_plain(&mut out, img.base.as_str());
    out
}

/// Whether a text is one or more digits.
pub open spec fn all_digits(s: Seq<char>) -> bool {
    s.len() > 0 && forall|i: int| 0 <= i < s.len() ==> is_digit(#[trigger] s[i])
}

/// The track of a base: the number in its name.
pub open spec fn track_of(base: Seq<char>) -> Option<Seq<char>> {
    match after_prefix(base, "core"@) {
        Some(d) => if all_digits(d) {
            Some(d)
        } else {
            None
        },
        None => None,
    }
}

/// The channel of a snap that follows its base: the one that is named for it;
/// else the risk of `channel` on the base's track.
pub open spec fn derived_channel(
    channel: Seq<char>,
    base: Seq<char>,
    explicit: Option<Seq<char>>,
) -> Seq<char> {
    match explicit {
        Some(c) => c,
        None => match track_of(base) {
            Some(t) => t + "/"@ + last_part(channel, "/"@),
            None => channel,
        },
    }
}

fn is_number(s: &str) -> (r: bool)
    ensures
        r == all_digits(s@),
{
    let a = chars_of(s);
    if a.len() == 0 {
        return false;
    }
    let mut i: usize = 0;
    while i < a.len()
        invariant
            a@ == s@,
            i <= a.len(),
            forall|k: int| 0 <= k < i ==> is_digit(#[trigger] s@[k]),
        decreases a.len() - i,
    {
        if !(a[i] >= '0' && a[i] <= '9') {
            assert(!is_digit(s@[i as int]));
            return false;
        }
        i += 1;
    }
    true
}

/// The channel of a snap that follows its base.
pub fn image_snap_channel(channel: &str, base: &str, explicit: &Option<String>) -> (r: String)
    ensures
        r@ == derived_channel(channel@, base@, opt_text(*explicit)),
{
    match explicit {
        Some(c) => c.clone(),
        None => {
            match strip_prefix(base, "core") {
                Some(d) => {
                    if is_number(d.as_str()) {
                        let mut out = d;
                        out.append("/");
                        out.append(after_last(channel, "/").as_str());
                        return out;
                    }
                },
                None => {},
            }
            channel.to_owned()
        },
    }
}

/// Whether a pin counts for an architecture.
pub open spec fn for_arch(key: Seq<char>, arch: Seq<char>) -> bool {
    first_part(key, "@"@) == arch
}

/// How many pins of an architecture record neither a channel in their key nor
/// one beside it.
pub open spec fn bare_pins(pins: Seq<(Seq<char>, PinEntry)>, arch: Seq<char>) -> nat
    decreases pins.len(),
{
    if pins.len() == 0 {
        0
    } else {
        bare_pins(pins.drop_last(), arch) + (if for_arch(pins.last().0, arch) && !holds(
            pins.last().0,
            "@"@,
        ) && pins.last().1.channel is None {
            1nat
        } else {
            0nat
        })
    }
}

/// How many pins of an architecture are for a channel.
pub open spec fn keyed_pins(pins: Seq<(Seq<char>, PinEntry)>, arch: Seq<char>) -> nat
    decreases pins.len(),
{
    if pins.len() == 0 {
        0
    } else {
        keyed_pins(pins.drop_last(), arch) + (if for_arch(pins.last().0, arch) && holds(
            pins.last().0,
            "@"@,
        ) {
            1nat
        } else {
            0nat
        })
    }
}

/// Counts the pins of an architecture that no channel can use: those without a
/// channel, and those for other channels.
pub fn dead_pin_summary(pins: &Ordered<PinEntry>, arch: &str) -> (r: (usize, usize))
    ensures
        r.0 == bare_pins(pins@, arch@),
        r.1 == keyed_pins(pins@, arch@),
{
    let mut bare: usize = 0;
    let mut other: usize = 0;
    let mut i: usize = 0;
    while i < pins.len()
        invariant
            i <= pins@.len(),
            bare <= i,
            other <= i,
            bare == bare_pins(pins@.take(i as int), arch@),
            other == keyed_pins(pins@.take(i as int), arch@),
        decreases pins@.len() - i,
    {
        assert(pins@.take(i + 1).drop_last() =~= pins@.take(i as int));
        assert(pins@.take(i + 1).last() == pins@[i as int]);
        let key = pins.key_at(i).as_str();
        if str_eq(before_first(key, "@").as_str(), arch) {
            if contains(key, "@") {
                other += 1;
            } else if pins.value_at(i).channel.is_none() {
                bare += 1;
            }
        }
        i += 1;
    }
    assert(pins@.take(pins@.len() as int) =~= pins@);
    (bare, other)
}

/// A text or a stand-in for none.
pub open spec fn text_or(o: Option<Seq<char>>, other: Seq<char>) -> Seq<char> {
    match o {
        Some(s) => s,
        None => other,
    }
}

/// The findings about the pins of one snap on the channel it is built from. A
/// pin that is trusted by its key but records another channel is an error;
/// pins that the build cannot use are warnings.
pub open spec fn pin_findings(
    pins: Seq<(Seq<char>, PinEntry)>,
    arch: Seq<char>,
    derived: Seq<char>,
    key: Seq<char>,
    base: Seq<char>,
    name: Seq<char>,
) -> Seq<FindingView> {
    match lookup(pins, arch + "@"@ + derived) {
        Some(pin) => if opt_text(pin.channel) == Some(derived) {
            Seq::empty()
        } else {
            seq![
                finding(
                    "dead-store-pin"@,
                    key,
                    Severity::Error,
                    name + ": pin "@ + arch + "@"@ + derived + " (rev "@ + decimal(
                        pin.revision as nat,
                    ) + ") records channel '"@ + text_or(opt_text(pin.channel), "(none)"@)
                        + "' — the build trusts the key and downloads this revision, but a pin resolved on another channel may be delisted (issue #69)"@,
                    "re-record the pin on the channel it was resolved from (`shuttle index resolve --base "@
                        + base + "`) or delete it"@,
                ),
            ]
        },
        None => {
            let bare = bare_pins(pins, arch);
            let other = keyed_pins(pins, arch);
            (if bare > 0 {
                seq![
                    finding(
                        "dead-store-pin"@,
                        key,
                        Severity::Warn,
                        name + ": "@ + decimal(bare)
                            + " bare pin(s) record no channel — never trusted on the derived channel '"@
                            + derived + "' (issue #69)"@,
                        "re-resolve so the pins record their channel, or delete them"@,
                    ),
                ]
            } else {
                Seq::empty()
            }) + (if other > 0 {
                seq![
                    finding(
                        "dead-store-pin"@,
                        key,
                        Severity::Warn,
                        name + ": "@ + decimal(other) + " pin(s) exist but none for channel '"@
                            + derived
                            + "' — the build ignores them and resolves from the store (offline builds fail here)"@,
                        "bake pins for the derived channel: `shuttle index resolve --base "@ + base
                            + "`"@,
                    ),
                ]
            } else {
                Seq::empty()
            })
        },
    }
}

fn check_pins(
    pins: &Ordered<PinEntry>,
    arch: &str,
    derived: &str,
    key: &str,
    base: &str,
    name: &str,
) -> (r: Vec<Finding>)
    ensures
        finding_views(r@) == pin_findings(pins@, arch@, derived@, key@, base@, name@),
{
    let mut out: Vec<Finding> = Vec::new();
    assert(finding_views(out@) =~= Seq::<FindingView>::empty());
    let mut wanted = arch.to_owned();
    wanted.append("@");
    wanted.append(derived);
    match pins.get(wanted.as_str()) {
        Some(pin) => {
            let same = match &pin.channel {
                Some(c) => str_eq(c.as_str(), derived),
                None => false,
            };
            if !same {
                let mut message = name.to_owned();
                message.append(": pin ");
                message.append(arch);
                message.append("@");
                message.append(derived);
                message.append(" (rev ");
                message.append(to_decimal(pin.revision as u64).as_str());
                message.append(") records channel '");
                match &pin.channel {
                    Some(c) => {
                        message.append(c.as_str());
                    },
                    None => {
                        message.append("(none)");
                    },
                }
                message.append(
                    "' — the build trusts the key and downloads this revision, but a pin resolved on another channel may be delisted (issue #69)",
                );
                let mut hint = "re-record the pin on the channel it was resolved from (`shuttle index resolve --base ".to_owned();
                hint.append(base);
                hint.append("`) or delete it");
                push_finding(
                    &mut out,
                    new_finding("dead-store-pin", key, Severity::Error, message, hint),
                );
                assert(finding_views(out@) =~= pin_findings(
                    pins@,
                    arch@,
                    derived@,
                    key@,
                    base@,
                    name@,
                ));
            }
        },
        None => {
            let (bare, other) = dead_pin_summary(pins, arch);
            if bare > 0 {
                let mut message = name.to_owned();
                message.append(": ");
                message.append(to_decimal(bare as u64).as_str());
                message.append(
                    " bare pin(s) record no channel — never trusted on the derived channel '",
                );
                message.append(derived);
                message.append("' (issue #69)");
                let hint = "re-resolve so the pins record their channel, or delete them".to_owned();
                push_finding(
                    &mut out,
                    new_finding("dead-store-pin", key, Severity::Warn, message, hint),
                );
            }
            if other > 0 {
                let mut message = name.to_owned();
                message.append(": ");
                message.append(to_decimal(other as u64).as_str());
                message.append(" pin(s) exist but none for channel '");
                message.append(derived);
                message.append(
                    "' — the build ignores them and resolves from the store (offline builds fail here)",
                );
                let mut hint = "bake pins for the derived channel: `shuttle index resolve --base ".to_owned();
                hint.append(base);
                hint.append("`");
                push_finding(
                    &mut out,
                    new_finding("dead-store-pin", key, Severity::Warn, message, hint),
                );
            }
            assert(finding_views(out@) =~= pin_findings(
                pins@,
                arch@,
                derived@,
                key@,
                base@,
                name@,
            ));
        },
    }
    out
}

/// The findings about one snap that an image refers to; none where the index
/// has no pins for it.
pub open spec fn ref_findings(
    input: LintInput,
    key: Seq<char>,
    base: Seq<char>,
    r: RefView,
) -> Seq<FindingView> {
    let derived = if r.follows {
        derived_channel(input.channel@, base, r.channel)
    } else {
        input.channel@
    };
    match entry_of(input.index.snaps@, r.name) {
        None => Seq::empty(),
        Some(i) => match input.index.snaps@[i].pins {
            None => Seq::empty(),
            Some(pins) => pin_findings(pins@, input.arch@, derived, key, base, r.name),
        },
    }
}

fn audit_snap_pins(input: &LintInput, key: &str, base: &str, r: &SnapRef) -> (v: Vec<Finding>)
    ensures
        finding_views(v@) == ref_findings(*input, key@, base@, r@),
{
    let derived = if r.follows {
        image_snap_channel(input.channel.as_str(), base, &r.channel)
    } else {
        input.channel.clone()
    };
    let none: Vec<Finding> = Vec::new();
    assert(finding_views(none@) =~= Seq::<FindingView>::empty());
    match input.index.find_by_name_or_alias(r.name.as_str()) {
        None => none,
        Some(e) => match &e.pins {
            None => none,
            Some(pins) => check_pins(
                pins,
                input.arch.as_str(),
                derived.as_str(),
                key,
                base,
                r.name.as_str(),
            ),
        },
    }
}

/// The findings about the snaps of an image, in order.
pub open spec fn refs_findings(
    input: LintInput,
    key: Seq<char>,
    base: Seq<char>,
    refs: Seq<RefView>,
) -> Seq<FindingView>
    decreases refs.len(),
{
    if refs.len() == 0 {
        Seq::empty()
    } else {
        refs_findings(input, key, base, refs.drop_last()) + ref_findings(
            input,
            key,
            base,
            refs.last(),
        )
    }
}

/// The findings about the pins of a value that is an image.
pub open spec fn dead_pins_in(input: LintInput, key: Seq<char>, v: JsonView) -> Seq<FindingView> {
    match image_of(v) {
        Some(img) => refs_findings(input, key, img.base, image_refs(img)),
        None => Seq::empty(),
    }
}

/// The findings about the pins of all images, by output.
pub open spec fn dead_store_pins(input: LintInput, raw: Seq<(Seq<char>, Json)>) -> Seq<FindingView>
    decreases raw.len(),
{
    if raw.len() == 0 {
        Seq::empty()
    } else {
        dead_store_pins(input, raw.drop_last()) + dead_pins_in(
            input,
            raw.last().0,
            raw.last().1@,
        )
    }
}

#[verifier::spinoff_prover]
fn refs_pins(input: &LintInput, key: &str, base: &str, refs: &Vec<SnapRef>) -> (r: Vec<Finding>)
    ensures
        finding_views(r@) == refs_findings(*input, key@, base@, ref_views(refs@)),
{
    let ghost all = ref_views(refs@);
    let mut out: Vec<Finding> = Vec::new();
    let mut i: usize = 0;
    assert(finding_views(out@) =~= refs_findings(*input, key@, base@, all.take(0)));
    while i < refs.len()
        invariant
            i <= refs.len(),
            all == ref_views(refs@),
            finding_views(out@) == refs_findings(*input, key@, base@, all.take(i as int)),
        decreases refs.len() - i,
    {
        assert(all.take(i + 1).drop_last() =~= all.take(i as int));
        assert(all.take(i + 1).last() == refs@[i as int]@);
        let more = audit_snap_pins(input, key, base, &refs[i]);
        push_findings(&mut out, more);
        i += 1;
    }
    assert(all.take(all.len() as int) =~= all);
    out
}

fn image_pins(input: &LintInput, key: &str, img: &RawImage) -> (r: Vec<Finding>)
    ensures
        finding_views(r@) == refs_findings(*input, key@, img@.base, image_refs(img@)),
{
    let refs = image_snap_refs(img);
    refs_pins(input, key, img.base.as_str(), &refs)
}

/// Pins whose channel is not the one that the build derives.
pub fn check_dead_store_pins(input: &LintInput) -> (r: Vec<Finding>)
    ensures
        finding_views(r@) == dead_store_pins(*input, input.raw@),
{
    let ghost all = input.raw@;
    let mut out: Vec<Finding> = Vec::new();
    let mut i: usize = 0;
    assert(finding_views(out@) =~= dead_store_pins(*input, all.take(0)));
    while i < input.raw.len()
        invariant
            i <= input.raw@.len(),
            all == input.raw@,
            finding_views(out@) == dead_store_pins(*input, all.take(i as int)),
        decreases input.raw@.len() - i,
    {
        let ghost before = finding_views(out@);
        assert(all.take(i + 1).drop_last() =~= all.take(i as int));
        assert(all.take(i + 1).last() == all[i as int]);
        match RawImage::from_raw(input.raw.value_at(i)) {
            Some(img) => {
                let more = image_pins(input, input.raw.key_at(i).as_str(), &img);
                push_findings(&mut out, more);
            },
            None => {
                assert(before + Seq::<FindingView>::empty() =~= before);
            },
        }
        i += 1;
    }
    assert(all.take(all.len() as int) =~= all);
    out
}

// ── Names that the index does not know ──

/// The store names that an image refers to.
pub open spec fn names_in(v: JsonView) -> Seq<Seq<char>> {
    match image_of(v) {
        None => Seq::empty(),
        Some(img) => (if img.base.len() == 0 {
            Seq::empty()
        } else {
            seq![img.base]
        }) + pin_names(img.kernel) + pin_names(img.gadget) + given_names(img.extras),
    }
}

/// The name of an optional kernel or gadget.
pub open spec fn pin_names(o: Option<(Option<Seq<char>>, Option<Seq<char>>)>) -> Seq<Seq<char>> {
    match o {
        Some((Some(name), _)) => seq![name],
        _ => Seq::empty(),
    }
}

/// The names that are given.
pub open spec fn given_names(v: Seq<Option<Seq<char>>>) -> Seq<Seq<char>>
    decreases v.len(),
{
    if v.len() == 0 {
        Seq::empty()
    } else {
        match v.last() {
            Some(n) => given_names(v.drop_last()).push(n),
            None => given_names(v.drop_last()),
        }
    }
}

/// The store names that images refer to.
pub open spec fn names_of(raw: Seq<(Seq<char>, Json)>) -> Seq<Seq<char>>
    decreases raw.len(),
{
    if raw.len() == 0 {
        Seq::empty()
    } else {
        names_of(raw.drop_last()) + names_in(raw.last().1@)
    }
}

fn push_pin_name(out: &mut Vec<String>, o: &Option<(Option<String>, Option<String>)>)
    ensures
        texts(final(out)@) == texts(old(out)@) + pin_names(pin_view(*o)),
{
    let ghost start = texts(out@);
    match o {
        Some((Some(name), _)) => {
            out.push(name.clone());
            assert(texts(out@) =~= start + seq![name@]);
        },
        _ => {
            assert(start + Seq::<Seq<char>>::empty() =~= start);
        },
    }
}

fn push_image_names(out: &mut Vec<String>, img: &RawImage, Ghost(v): Ghost<JsonView>)
    requires
        image_of(v) == Some(img@),
    ensures
        texts(final(out)@) == texts(old(out)@) + names_in(v),
{
    let ghost start = texts(out@);
    let ghost base = if img.base@.len() == 0 {
        Seq::<Seq<char>>::empty()
    } else {
        seq![img.base@]
    };
    let ghost kernel = pin_names(pin_view(img.kernel));
    let ghost gadget = pin_names(pin_view(img.gadget));
    let ghost extras = opt_texts(img.extras@);
    if !img.base.as_str().is_empty() {
        out.push(img.base.clone());
    }
    assert(texts(out@) =~= start + base);
    push_pin_name(out, &img.kernel);
    push_pin_name(out, &img.gadget);
    let ghost head = start + base + kernel + gadget;
    let mut i: usize = 0;
    assert(head + given_names(extras.take(0)) =~= head);
    while i < img.extras.len()
        invariant
            i <= img.extras@.len(),
            extras == opt_texts(img.extras@),
            texts(out@) == head + given_names(extras.take(i as int)),
        decreases img.extras@.len() - i,
    {
        let ghost before = texts(out@);
        let ghost so_far = given_names(extras.take(i as int));
        assert(extras.take(i + 1).drop_last() =~= extras.take(i as int));
        assert(extras.take(i + 1).last() == opt_text(img.extras@[i as int]));
        match &img.extras[i] {
            Some(n) => {
                out.push(n.clone());
                assert(texts(out@) =~= before.push(n@));
                assert(head + so_far.push(n@) =~= (head + so_far).push(n@));
            },
            None => {},
        }
        i += 1;
    }
    assert(extras.take(extras.len() as int) =~= extras);
    assert(head + given_names(extras) =~= start + (base + kernel + gadget + given_names(extras)));
}

/// The store names that images refer to, each once, in ascending order.
pub fn referenced_store_names(raw: &Ordered<Json>) -> (r: Vec<String>)
    ensures
        texts(r@) == set_of(names_of(raw@)),
{
    let ghost all = raw@;
    let mut out: Vec<String> = Vec::new();
    let mut i: usize = 0;
    assert(texts(out@) =~= names_of(all.take(0)));
    while i < raw.len()
        invariant
            i <= raw@.len(),
            all == raw@,
            texts(out@) == names_of(all.take(i as int)),
        decreases raw@.len() - i,
    {
        let ghost before = texts(out@);
        assert(all.take(i + 1).drop_last() =~= all.take(i as int));
        assert(all.take(i + 1).last() == all[i as int]);
        match RawImage::from_raw(raw.value_at(i)) {
            Some(img) => {
                push_image_names(&mut out, &img, Ghost(all[i as int].1@));
            },
            None => {
                assert(before + Seq::<Seq<char>>::empty() =~= before);
            },
        }
        i += 1;
    }
    assert(all.take(all.len() as int) =~= all);
    name_set(&out)
}

/// The warning about a name that the index does not know.
pub open spec fn unknown_name(name: Seq<char>) -> FindingView {
    finding(
        "store-alias"@,
        name,
        Severity::Warn,
        "not in the package index — the build resolves it against the Snap Store by this exact name; a wrong store name fails like issue #68 ('pc-gadget' has no store snap; the gadget is 'pc')"@,
        "add the index entry with the store's real name: `shuttle index add <name> --store-name <store-name>`"@,
    )
}

/// The warnings about names that the index does not know, in order.
pub open spec fn unknown_names(snaps: Seq<IndexEntry>, names: Seq<Seq<char>>) -> Seq<FindingView>
    decreases names.len(),
{
    if names.len() == 0 {
        Seq::empty()
    } else if entry_of(snaps, names.last()) is None {
        unknown_names(snaps, names.drop_last()).push(unknown_name(names.last()))
    } else {
        unknown_names(snaps, names.drop_last())
    }
}

/// The aliases of entries, each with the entry that has it, in order.
pub open spec fn alias_pairs(snaps: Seq<IndexEntry>) -> Seq<(Seq<char>, Seq<char>)>
    decreases snaps.len(),
{
    if snaps.len() == 0 {
        Seq::empty()
    } else {
        alias_pairs(snaps.drop_last()) + texts(snaps.last().aliases@).map_values(
            |a: Seq<char>| (snaps.last().name@, a),
        )
    }
}

/// The last entry before `n` that has an alias.
pub open spec fn last_owner(pairs: Seq<(Seq<char>, Seq<char>)>, alias: Seq<char>) -> Option<
    Seq<char>,
>
    decreases pairs.len(),
{
    if pairs.len() == 0 {
        None
    } else if pairs.last().1 == alias {
        Some(pairs.last().0)
    } else {
        last_owner(pairs.drop_last(), alias)
    }
}

/// The warnings about one alias, after those before it.
pub open spec fn alias_warnings(
    snaps: Seq<IndexEntry>,
    earlier: Seq<(Seq<char>, Seq<char>)>,
    owner: Seq<char>,
    alias: Seq<char>,
) -> Seq<FindingView> {
    (if entry_named(snaps, alias, 0) is Some && alias != owner {
        seq![
            finding(
                "store-alias"@,
                owner,
                Severity::Warn,
                "alias '"@ + alias + "' of index entry '"@ + owner
                    + "' collides with the primary name of entry '"@ + alias
                    + "' — exact-name lookup wins, so the alias is unreachable"@,
                "rename or drop the alias"@,
            ),
        ]
    } else {
        Seq::empty()
    }) + (match last_owner(earlier, alias) {
        Some(prev) => if prev != owner {
            seq![
                finding(
                    "store-alias"@,
                    owner,
                    Severity::Warn,
                    "alias '"@ + alias + "' is declared by both '"@ + prev + "' and '"@ + owner
                        + "' — resolution is order-dependent"@,
                    "keep the alias on one entry only"@,
                ),
            ]
        } else {
            Seq::empty()
        },
        None => Seq::empty(),
    })
}

/// The warnings about aliases, in order.
pub open spec fn aliases_warnings(
    snaps: Seq<IndexEntry>,
    pairs: Seq<(Seq<char>, Seq<char>)>,
) -> Seq<FindingView>
    decreases pairs.len(),
{
    if pairs.len() == 0 {
        Seq::empty()
    } else {
        aliases_warnings(snaps, pairs.drop_last()) + alias_warnings(
            snaps,
            pairs.drop_last(),
            pairs.last().0,
            pairs.last().1,
        )
    }
}

fn has_name(snaps: &Vec<IndexEntry>, name: &str) -> (r: bool)
    ensures
        r == entry_named(snaps@, name@, 0) is Some,
{
    let mut i: usize = 0;
    while i < snaps.len()
        invariant
            i <= snaps.len(),
            entry_named(snaps@, name@, 0) == entry_named(snaps@, name@, i as int),
        decreases snaps.len() - i,
    {
        if str_eq(snaps[i].name.as_str(), name) {
            return true;
        }
        i += 1;
    }
    false
}

fn owner_of(pairs: &Vec<(String, String)>, alias: &str) -> (r: Option<String>)
    ensures
        opt_text(r) == last_owner(pair_texts(pairs@), alias@),
{
    let ghost all = pair_texts(pairs@);
    let mut n: usize = pairs.len();
    assert(all.take(n as int) =~= all);
    while n > 0
        invariant
            n <= pairs.len(),
            all == pair_texts(pairs@),
            last_owner(all, alias@) == last_owner(all.take(n as int), alias@),
        decreases n,
    {
        assert(all.take(n as int).drop_last() =~= all.take(n - 1));
        assert(all.take(n as int).last() == (pairs@[n - 1].0@, pairs@[n - 1].1@));
        if str_eq(pairs[n - 1].1.as_str(), alias) {
            return Some(pairs[n - 1].0.clone());
        }
        n -= 1;
    }
    None
}

fn check_alias(
    out: &mut Vec<Finding>,
    snaps: &Vec<IndexEntry>,
    earlier: &Vec<(String, String)>,
    owner: &str,
    alias: &str,
)
    ensures
        finding_views(final(out)@) == finding_views(old(out)@) + alias_warnings(
            snaps@,
            pair_texts(earlier@),
            owner@,
            alias@,
        ),
{
    let ghost start = finding_views(out@);
    if has_name(snaps, alias) && !str_eq(alias, owner) {
        let mut message = "alias '".to_owned();
        message.append(alias);
        message.append("' of index entry '");
        message.append(owner);
        message.append("' collides with the primary name of entry '");
        message.append(alias);
        message.append("' — exact-name lookup wins, so the alias is unreachable");
        let hint = "rename or drop the alias".to_owned();
        push_finding(out, new_finding("store-alias", owner, Severity::Warn, message, hint));
    }
    match owner_of(earlier, alias) {
        Some(prev) => {
            if !str_eq(prev.as_str(), owner) {
                let mut message = "alias '".to_owned();
                message.append(alias);
                message.append("' is declared by both '");
                message.append(prev.as_str());
                message.append("' and '");
                message.append(owner);
                message.append("' — resolution is order-dependent");
                let hint = "keep the alias on one entry only".to_owned();
                push_finding(
                    out,
                    new_finding("store-alias", owner, Severity::Warn, message, hint),
                );
            }
        },
        None => {},
    }
    assert(finding_views(out@) =~= start + alias_warnings(
        snaps@,
        pair_texts(earlier@),
        owner@,
        alias@,
    ));
}

/// The warnings about the index itself: an alias that is another entry's name
/// is never reached, and one that two entries have depends on their order.
pub fn alias_integrity_findings(index: &PackageIndex) -> (r: Vec<Finding>)
    ensures
        finding_views(r@) == aliases_warnings(index.snaps@, alias_pairs(index.snaps@)),
{
    let ghost snaps = index.snaps@;
    let mut out: Vec<Finding> = Vec::new();
    let mut seen: Vec<(String, String)> = Vec::new();
    let mut i: usize = 0;
    assert(pair_texts(seen@) =~= alias_pairs(snaps.take(0)));
    assert(finding_views(out@) =~= aliases_warnings(snaps, pair_texts(seen@)));
    while i < index.snaps.len()
        invariant
            i <= index.snaps@.len(),
            snaps == index.snaps@,
            pair_texts(seen@) == alias_pairs(snaps.take(i as int)),
            finding_views(out@) == aliases_warnings(snaps, pair_texts(seen@)),
        decreases index.snaps@.len() - i,
    {
        let ghost base = pair_texts(seen@);
        let entry = &index.snaps[i];
        let ghost owner = entry.name@;
        let ghost mine = texts(entry.aliases@).map_values(|a: Seq<char>| (owner, a));
        proof {
            assert(snaps.take(i + 1).drop_last() =~= snaps.take(i as int));
            assert(snaps.take(i + 1).last() == *entry);
            assert(base + mine.take(0) =~= base);
            assert(mine =~= texts(snaps.take(i + 1).last().aliases@).map_values(
                |a: Seq<char>| (snaps.take(i + 1).last().name@, a),
            ));
        }
        let mut j: usize = 0;
        while j < entry.aliases.len()
            invariant
                j <= entry.aliases@.len(),
                snaps == index.snaps@,
                owner == entry.name@,
                mine == texts(entry.aliases@).map_values(|a: Seq<char>| (owner, a)),
                pair_texts(seen@) == base + mine.take(j as int),
                finding_views(out@) == aliases_warnings(snaps, pair_texts(seen@)),
            decreases entry.aliases@.len() - j,
        {
            let ghost before = pair_texts(seen@);
            let alias = entry.aliases[j].as_str();
            check_alias(&mut out, &index.snaps, &seen, entry.name.as_str(), alias);
            seen.push((entry.name.clone(), alias.to_owned()));
            proof {
                let x = (owner, alias@);
                assert(mine[j as int] == x);
                assert(pair_texts(seen@) =~= before.push(x));
                assert(pair_texts(seen@).drop_last() =~= before);
                assert(base + mine.take(j + 1) =~= (base + mine.take(j as int)).push(x));
            }
            j += 1;
        }
        assert(mine.take(mine.len() as int) =~= mine);
        i += 1;
    }
    assert(snaps.take(snaps.len() as int) =~= snaps);
    out
}

/// All findings about names and aliases.
pub open spec fn store_aliases(input: LintInput) -> Seq<FindingView> {
    unknown_names(input.index.snaps@, set_of(names_of(input.raw@))) + aliases_warnings(
        input.index.snaps@,
        alias_pairs(input.index.snaps@),
    )
}

/// Store snaps that the index cannot name, and aliases that lead nowhere.
pub fn check_store_aliases(input: &LintInput) -> (r: Vec<Finding>)
    ensures
        finding_views(r@) == store_aliases(*input),
{
    let names = referenced_store_names(&input.raw);
    let ghost all = texts(names@);
    let ghost snaps = input.index.snaps@;
    let mut out: Vec<Finding> = Vec::new();
    let mut i: usize = 0;
    assert(finding_views(out@) =~= unknown_names(snaps, all.take(0)));
    while i < names.len()
        invariant
            i <= names.len(),
            all == texts(names@),
            snaps == input.index.snaps@,
            finding_views(out@) == unknown_names(snaps, all.take(i as int)),
        decreases names.len() - i,
    {
        assert(all.take(i + 1).drop_last() =~= all.take(i as int));
        assert(all.take(i + 1).last() == names@[i as int]@);
        if input.index.find_by_name_or_alias(names[i].as_str()).is_none() {
            let message = "not in the package index — the build resolves it against the Snap Store by this exact name; a wrong store name fails like issue #68 ('pc-gadget' has no store snap; the gadget is 'pc')".to_owned();
            let hint = "add the index entry with the store's real name: `shuttle index add <name> --store-name <store-name>`".to_owned();
            push_finding(
                &mut out,
                new_finding("store-alias", names[i].as_str(), Severity::Warn, message, hint),
            );
        }
        i += 1;
    }
    assert(all.take(all.len() as int) =~= all);
    let more = alias_integrity_findings(&input.index);
    push_findings(&mut out, more);
    out
}

// ── Mounts over system paths ──

/// The subtrees that the base owns.
pub const SYSTEM_PATHS: [&'static str; 13] = [
    "/bin",
    "/sbin",
    "/lib",
    "/lib32",
    "/lib64",
    "/libx32",
    "/usr",
    "/etc",
    "/dev",
    "/proc",
    "/sys",
    "/run",
    "/var",
];

/// Whether a mount point is a path or lies below it.
pub open spec fn is_under(mount: Seq<char>, sys: Seq<char>) -> bool {
    mount == sys || (sys + "/"@).is_prefix_of(mount)
}

/// Whether a mount point is or lies below a path that the base owns.
pub open spec fn shadows(mount: Seq<char>) -> bool {
    exists|i: int| 0 <= i < 13 && is_under(mount, #[trigger] SYSTEM_PATHS@[i]@)
}

/// Whether a mount point is or lies below a path that the base owns.
pub fn shadows_system_path(mount: &str) -> (r: bool)
    ensures
        r == shadows(mount@),
{
    let mut i: usize = 0;
    while i < 13
        invariant
            i <= 13,
            forall|k: int| 0 <= k < i ==> !is_under(mount@, #[trigger] SYSTEM_PATHS@[k]@),
        decreases 13 - i,
    {
        let sys = SYSTEM_PATHS[i];
        let mut below = sys.to_owned();
        below.append("/");
        if str_eq(mount, sys) || starts_with(mount, below.as_str()) {
            assert(is_under(mount@, SYSTEM_PATHS@[i as int]@));
            return true;
        }
        i += 1;
    }
    false
}

/// The last partition before with a mount point.
pub open spec fn last_mounted(parts: Seq<(Seq<char>, Seq<char>)>, mount: Seq<char>) -> Option<
    Seq<char>,
>
    decreases parts.len(),
{
    if parts.len() == 0 {
        None
    } else if parts.last().1 == mount {
        Some(parts.last().0)
    } else {
        last_mounted(parts.drop_last(), mount)
    }
}

/// The findings about one partition, after those before it.
pub open spec fn mount_warnings(
    key: Seq<char>,
    earlier: Seq<(Seq<char>, Seq<char>)>,
    part: Seq<char>,
    mount: Seq<char>,
) -> Seq<FindingView> {
    if !"/"@.is_prefix_of(mount) {
        seq![
            finding(
                "shadow-mount"@,
                key,
                Severity::Warn,
                "partition '"@ + part + "' mounts at '"@ + mount + "' — not an absolute path"@,
                "use an absolute mount point (leading '/')"@,
            ),
        ]
    } else {
        (if shadows(mount) {
            seq![
                finding(
                    "shadow-mount"@,
                    key,
                    Severity::Warn,
                    "partition '"@ + part + "' mounts at '"@ + mount
                        + "' — shadows a system path the base rootfs owns; the subtree is hidden at boot"@,
                    "mount data under /srv, /opt-adjacent state, or the state partition (/var/lib) instead"@,
                ),
            ]
        } else {
            Seq::empty()
        }) + (match last_mounted(earlier, mount) {
            Some(prev) => seq![
                finding(
                    "shadow-mount"@,
                    key,
                    Severity::Warn,
                    "partitions '"@ + prev + "' and '"@ + part + "' both mount '"@ + mount
                        + "' — the second mount fails at boot"@,
                    "give each partition a distinct mount point"@,
                ),
            ],
            None => Seq::empty(),
        })
    }
}

/// The findings about an image's partitions, in order.
pub open spec fn mounts_warnings(key: Seq<char>, parts: Seq<(Seq<char>, Seq<char>)>) -> Seq<
    FindingView,
>
    decreases parts.len(),
{
    if parts.len() == 0 {
        Seq::empty()
    } else {
        mounts_warnings(key, parts.drop_last()) + mount_warnings(
            key,
            parts.drop_last(),
            parts.last().0,
            parts.last().1,
        )
    }
}

fn mounted_before(parts: &Vec<(String, String)>, n: usize, mount: &str) -> (r: Option<String>)
    requires
        n <= parts@.len(),
    ensures
        opt_text(r) == last_mounted(pair_texts(parts@).take(n as int), mount@),
{
    let ghost all = pair_texts(parts@);
    let mut k: usize = n;
    while k > 0
        invariant
            k <= n <= parts@.len(),
            all == pair_texts(parts@),
            last_mounted(all.take(n as int), mount@) == last_mounted(all.take(k as int), mount@),
        decreases k,
    {
        assert(all.take(k as int).drop_last() =~= all.take(k - 1));
        assert(all.take(k as int).last() == (parts@[k - 1].0@, parts@[k - 1].1@));
        if str_eq(parts[k - 1].1.as_str(), mount) {
            return Some(parts[k - 1].0.clone());
        }
        k -= 1;
    }
    None
}

/// The findings about the mount points of one image.
pub fn mount_findings(key: &str, partitions: &Vec<(String, String)>) -> (r: Vec<Finding>)
    ensures
        finding_views(r@) == mounts_warnings(key@, pair_texts(partitions@)),
{
    let ghost all = pair_texts(partitions@);
    let mut out: Vec<Finding> = Vec::new();
    let mut i: usize = 0;
    assert(finding_views(out@) =~= mounts_warnings(key@, all.take(0)));
    while i < partitions.len()
        invariant
            i <= partitions@.len(),
            all == pair_texts(partitions@),
            finding_views(out@) == mounts_warnings(key@, all.take(i as int)),
        decreases partitions@.len() - i,
    {
        let ghost start = finding_views(out@);
        assert(all.take(i + 1).drop_last() =~= all.take(i as int));
        assert(all.take(i + 1).last() == all[i as int]);
        let part = partitions[i].0.as_str();
        let mount = partitions[i].1.as_str();
        if !starts_with(mount, "/") {
            let mut message = "partition '".to_owned();
            message.append(part);
            message.append("' mounts at '");
            message.append(mount);
            message.append("' — not an absolute path");
            let hint = "use an absolute mount point (leading '/')".to_owned();
            push_finding(
                &mut out,
                new_finding("shadow-mount", key, Severity::Warn, message, hint),
            );
        } else {
            if shadows_system_path(mount) {
                let mut message = "partition '".to_owned();
                message.append(part);
                message.append("' mounts at '");
                message.append(mount);
                message.append(
                    "' — shadows a system path the base rootfs owns; the subtree is hidden at boot",
                );
                let hint = "mount data under /srv, /opt-adjacent state, or the state partition (/var/lib) instead".to_owned();
                push_finding(
                    &mut out,
                    new_finding("shadow-mount", key, Severity::Warn, message, hint),
                );
            }
            match mounted_before(partitions, i, mount) {
                Some(prev) => {
                    let mut message = "partitions '".to_owned();
                    message.append(prev.as_str());
                    message.append("' and '");
                    message.append(part);
                    message.append("' both mount '");
                    message.append(mount);
                    message.append("' — the second mount fails at boot");
                    let hint = "give each partition a distinct mount point".to_owned();
                    push_finding(
                        &mut out,
                        new_finding("shadow-mount", key, Severity::Warn, message, hint),
                    );
                },
                None => {},
            }
        }
        assert(finding_views(out@) =~= start + mount_warnings(
            key@,
            all.take(i as int),
            part@,
            mount@,
        ));
        i += 1;
    }
    assert(all.take(all.len() as int) =~= all);
    out
}

/// The findings about the mount points of all images, by output.
pub open spec fn partition_mounts(raw: Seq<(Seq<char>, Json)>) -> Seq<FindingView>
    decreases raw.len(),
{
    if raw.len() == 0 {
        Seq::empty()
    } else {
        partition_mounts(raw.drop_last()) + (match image_of(raw.last().1@) {
            Some(img) => mounts_warnings(raw.last().0, img.partitions),
            None => Seq::empty(),
        })
    }
}

/// Mount points that shadow system paths, that two partitions share, or that
/// are relative.
pub fn check_partition_mounts(input: &LintInput) -> (r: Vec<Finding>)
    ensures
        finding_views(r@) == partition_mounts(input.raw@),
{
    let ghost all = input.raw@;
    let mut out: Vec<Finding> = Vec::new();
    let mut i: usize = 0;
    assert(finding_views(out@) =~= partition_mounts(all.take(0)));
    while i < input.raw.len()
        invariant
            i <= input.raw@.len(),
            all == input.raw@,
            finding_views(out@) == partition_mounts(all.take(i as int)),
        decreases input.raw@.len() - i,
    {
        let ghost before = finding_views(out@);
        assert(all.take(i + 1).drop_last() =~= all.take(i as int));
        assert(all.take(i + 1).last() == all[i as int]);
        match RawImage::from_raw(input.raw.value_at(i)) {
            Some(img) => {
                let more = mount_findings(input.raw.key_at(i).as_str(), &img.partitions);
                push_findings(&mut out, more);
            },
            None => {
                assert(before + Seq::<FindingView>::empty() =~= before);
            },
        }
        i += 1;
    }
    assert(all.take(all.len() as int) =~= all);
    out
}

// ── Bootloaders ──

/// The backend for the firmware chain of the Raspberry Pi.
pub const BOOTLOADER_PIBOOT: &'static str = "piboot";

/// The error about a bootloader that does not exist.
pub open spec fn bootloader_error(key: Seq<char>, t: Seq<char>) -> FindingView {
    finding(
        "bootloader-type"@,
        key,
        Severity::Error,
        "bootloader.type = \""@ + t
            + "\" is not implemented — declaration validation rejects it, so the image build fails (issue #71: the GRUB backend does not exist, the declaration would silently install systemd-boot)"@,
        "set bootloader.type = \"systemd-boot\" or \"piboot\" (issue #87), or drop the bootloader field"@,
    )
}

/// The finding about an image's bootloader: one that is neither of the two
/// that exist is an error.
pub open spec fn bootloader_in(key: Seq<char>, v: JsonView) -> Seq<FindingView> {
    match image_of(v) {
        Some(img) => match img.bootloader_type {
            Some(t) => if t != "systemd-boot"@ && t != BOOTLOADER_PIBOOT@ {
                seq![bootloader_error(key, t)]
            } else {
                Seq::empty()
            },
            None => Seq::empty(),
        },
        None => Seq::empty(),
    }
}

/// The findings about the bootloaders of all images, by output.
pub open spec fn bootloader_types(raw: Seq<(Seq<char>, Json)>) -> Seq<FindingView>
    decreases raw.len(),
{
    if raw.len() == 0 {
        Seq::empty()
    } else {
        bootloader_types(raw.drop_last()) + bootloader_in(raw.last().0, raw.last().1@)
    }
}

/// Bootloaders that a declaration's validation would reject.
pub fn check_bootloader_type(input: &LintInput) -> (r: Vec<Finding>)
    ensures
        finding_views(r@) == bootloader_types(input.raw@),
{
    let ghost all = input.raw@;
    let mut out: Vec<Finding> = Vec::new();
    let mut i: usize = 0;
    assert(finding_views(out@) =~= bootloader_types(all.take(0)));
    while i < input.raw.len()
        invariant
            i <= input.raw@.len(),
            all == input.raw@,
            finding_views(out@) == bootloader_types(all.take(i as int)),
        decreases input.raw@.len() - i,
    {
        let ghost before = finding_views(out@);
        assert(all.take(i + 1).drop_last() =~= all.take(i as int));
        assert(all.take(i + 1).last() == all[i as int]);
        let key = input.raw.key_at(i).as_str();
        match RawImage::from_raw(input.raw.value_at(i)) {
            Some(img) => match &img.bootloader_type {
                Some(t) => {
                    if !str_eq(t.as_str(), "systemd-boot") && !str_eq(
                        t.as_str(),
                        BOOTLOADER_PIBOOT,
                    ) {
                        let mut message = "bootloader.type = \"".to_owned();
                        message.append(t.as_str());
                        message.append(
                            "\" is not implemented — declaration validation rejects it, so the image build fails (issue #71: the GRUB backend does not exist, the declaration would silently install systemd-boot)",
                        );
                        let hint = "set bootloader.type = \"systemd-boot\" or \"piboot\" (issue #87), or drop the bootloader field".to_owned();
                        push_finding(
                            &mut out,
                            new_finding("bootloader-type", key, Severity::Error, message, hint),
                        );
                    }
                },
                None => {},
            },
            None => {},
        }
        assert(finding_views(out@) =~= before + bootloader_in(key@, all[i as int].1@));
        i += 1;
    }
    assert(all.take(all.len() as int) =~= all);
    out
}

// ── Interpreters of scripts ──

/// The first of tokens from `i` on that names a program: not an option, and
/// not a setting.
pub open spec fn program_token(tokens: Seq<Seq<char>>, i: int) -> Option<Seq<char>>
    decreases tokens.len() - i,
{
    if i < 0 || i >= tokens.len() {
        None
    } else if !"-"@.is_prefix_of(tokens[i]) && !holds(tokens[i], "="@) {
        Some(tokens[i])
    } else {
        program_token(tokens, i + 1)
    }
}

/// The interpreter that a line names, and whether `env` looks it up.
pub open spec fn interpreter_of(line: Seq<char>) -> Option<(Seq<char>, bool)> {
    match after_prefix(line, "#!"@) {
        None => None,
        Some(rest) => {
            let tokens = words(rest);
            if tokens.len() == 0 {
                None
            } else if tokens[0] == "/usr/bin/env"@ || tokens[0] == "/bin/env"@ {
                match program_token(tokens, 1) {
                    Some(name) => Some((name, true)),
                    None => None,
                }
            } else {
                Some((tokens[0], false))
            }
        },
    }
}

/// The interpreter that a line names, and whether `env` looks it up; `None`
/// where the line begins no script.
pub fn shebang_interpreter(line: &str) -> (r: Option<(String, bool)>)
    ensures
        match r {
            Some(x) => interpreter_of(line@) == Some((x.0@, x.1)),
            None => interpreter_of(line@) is None,
        },
{
    let rest = match strip_prefix(line, "#!") {
        None => {
            return None;
        },
        Some(r) => r,
    };
    let tokens = split_whitespace(rest.as_str());
    let ghost all = texts(tokens@);
    if tokens.len() == 0 {
        return None;
    }
    assert(all[0] == tokens@[0]@);
    if str_eq(tokens[0].as_str(), "/usr/bin/env") || str_eq(tokens[0].as_str(), "/bin/env") {
        let mut i: usize = 1;
        while i < tokens.len()
            invariant
                1 <= i <= tokens@.len(),
                all == texts(tokens@),
                interpreter_of(line@) == (match program_token(all, 1) {
                    Some(n) => Some((n, true)),
                    None => None,
                }),
                program_token(all, 1) == program_token(all, i as int),
            decreases tokens@.len() - i,
        {
            assert(all[i as int] == tokens@[i as int]@);
            if !starts_with(tokens[i].as_str(), "-") && !contains(tokens[i].as_str(), "=") {
                return Some((tokens[i].clone(), true));
            }
            i += 1;
        }
        None
    } else {
        Some((tokens[0].clone(), false))
    }
}

/// The interpreter that a script's text names.
pub open spec fn script_interpreter(text: Seq<char>) -> Option<(Seq<char>, bool)> {
    if lines(text).len() == 0 {
        None
    } else {
        interpreter_of(lines(text)[0])
    }
}

/// The interpreter that a script's text names.
pub fn interpreter_in(text: &str) -> (r: Option<(String, bool)>)
    ensures
        match r {
            Some(x) => script_interpreter(text@) == Some((x.0@, x.1)),
            None => script_interpreter(text@) is None,
        },
{
    let rows = split_lines(text);
    if rows.len() == 0 {
        return None;
    }
    assert(texts(rows@)[0] == rows@[0]@);
    shebang_interpreter(rows[0].as_str())
}

/// A path below the payload's root: without the slashes at its beginning.
pub open spec fn payload_path(path: Seq<char>) -> Seq<char> {
    drop_leading(path, '/')
}

/// The files of a payload that provide an interpreter: the path itself, below
/// the payload's root, and the program of its name. An absolute path never
/// leads to the host.
pub fn interpreter_probes(interp: &str) -> (r: (String, String))
    ensures
        r.0@ == payload_path(interp@),
        r.1@ == path_in("usr/bin"@, last_part(payload_path(interp@), "/"@)),
{
    let rel = trim_start_char(interp, '/');
    let name = after_last(rel.as_str(), "/");
    let second = join_path("usr/bin", name.as_str());
    (rel, second)
}

/// The path below the payload's root is never absolute.
pub proof fn law_payload_paths_are_relative(path: Seq<char>)
    ensures
        !"/"@.is_prefix_of(payload_path(path)),
    decreases path.len(),
{
    reveal_strlit("/");
    if path.len() > 0 && path[0] == '/' {
        law_payload_paths_are_relative(path.skip(1));
    } else if "/"@.is_prefix_of(path) {
        assert(path[0] == "/"@[0]);
    }
}

/// Where the payload of an output is staged, below the directory of all: a
/// single output at that directory itself, several each below its own name.
pub fn stage_below(outputs: usize, name: &str) -> (r: Option<String>)
    ensures
        opt_text(r) == (if outputs == 1 {
            None
        } else {
            Some(name@)
        }),
{
    if outputs == 1 {
        None
    } else {
        Some(name.to_owned())
    }
}

/// The interpreters that every base has.
pub open spec fn in_base(interp: Seq<char>) -> bool {
    interp == "/bin/sh"@ || interp == "/usr/bin/sh"@ || interp == "/bin/bash"@ || interp
        == "/usr/bin/bash"@
}

/// Whether every base has an interpreter.
pub fn base_guaranteed(interp: &str) -> (r: bool)
    ensures
        r == in_base(interp@),
{
    str_eq(interp, "/bin/sh") || str_eq(interp, "/usr/bin/sh") || str_eq(interp, "/bin/bash")
        || str_eq(interp, "/usr/bin/bash")
}

/// The finding about one script: none where the payload, the base or a
/// required package provides its interpreter. One that `env` looks up is only
/// suspicious; any other would ship a broken script.
pub open spec fn script_findings(
    key: Seq<char>,
    needed: Seq<Seq<char>>,
    script: StagedScript,
) -> Seq<FindingView> {
    match script_interpreter(script.text@) {
        None => Seq::empty(),
        Some((interp, via_env)) => {
            let name = last_part(interp, "/"@);
            if script.provided || in_base(interp) || needed.contains(name) {
                Seq::empty()
            } else if via_env {
                seq![
                    finding(
                        "shebang-requires"@,
                        key,
                        Severity::Warn,
                        script.rel@ + ": shebang resolves '"@ + interp
                            + "' via env from PATH — nothing in the payload or requires provides '"@
                            + name + "'"@,
                        "declare the interpreter package in requires (e.g. '{ \""@ + name
                            + "\" }')"@,
                    ),
                ]
            } else {
                seq![
                    finding(
                        "shebang-requires"@,
                        key,
                        Severity::Error,
                        script.rel@ + ": interpreter '"@ + interp
                            + "' resolves to neither the payload nor a declared requires — the merged-prefix build fails closed on this wrapper (issue #90)"@,
                        "add '"@ + name
                            + "' to requires, or stage the interpreter into the payload"@,
                    ),
                ]
            }
        },
    }
}

fn check_script(key: &str, needed: &Vec<String>, script: &StagedScript) -> (r: Option<Finding>)
    ensures
        match r {
            Some(f) => script_findings(key@, texts(needed@), *script) == seq![f@],
            None => script_findings(key@, texts(needed@), *script) == Seq::<FindingView>::empty(),
        },
{
    let (interp, via_env) = match interpreter_in(script.text.as_str()) {
        None => {
            return None;
        },
        Some(x) => x,
    };
    if script.provided || base_guaranteed(interp.as_str()) {
        return None;
    }
    let name = after_last(interp.as_str(), "/");
    if list_contains(needed, name.as_str()) {
        return None;
    }
    let mut message = script.rel.clone();
    if via_env {
        message.append(": shebang resolves '");
        message.append(interp.as_str());
        message.append("' via env from PATH — nothing in the payload or requires provides '");
        message.append(name.as_str());
        message.append("'");
        let mut hint = "declare the interpreter package in requires (e.g. '{ \"".to_owned();
        hint.append(name.as_str());
        hint.append("\" }')");
        Some(new_finding("shebang-requires", key, Severity::Warn, message, hint))
    } else {
        message.append(": interpreter '");
        message.append(interp.as_str());
        message.append(
            "' resolves to neither the payload nor a declared requires — the merged-prefix build fails closed on this wrapper (issue #90)",
        );
        let mut hint = "add '".to_owned();
        hint.append(name.as_str());
        hint.append("' to requires, or stage the interpreter into the payload");
        Some(new_finding("shebang-requires", key, Severity::Error, message, hint))
    }
}

/// The findings about the scripts of one payload, in order.
pub open spec fn payload_findings(
    key: Seq<char>,
    needed: Seq<Seq<char>>,
    scripts: Seq<StagedScript>,
) -> Seq<FindingView>
    decreases scripts.len(),
{
    if scripts.len() == 0 {
        Seq::empty()
    } else {
        payload_findings(key, needed, scripts.drop_last()) + script_findings(
            key,
            needed,
            scripts.last(),
        )
    }
}

/// The findings about the scripts of all payloads, in order.
pub open spec fn staged_findings(staged: Seq<PackageStage>) -> Seq<FindingView>
    decreases staged.len(),
{
    if staged.len() == 0 {
        Seq::empty()
    } else {
        staged_findings(staged.drop_last()) + payload_findings(
            staged.last().key@,
            texts(staged.last().requires@),
            staged.last().scripts@,
        )
    }
}

/// The findings about the scripts of one payload.
pub fn package_shebang_findings(stage: &PackageStage) -> (r: Vec<Finding>)
    ensures
        finding_views(r@) == payload_findings(
            stage.key@,
            texts(stage.requires@),
            stage.scripts@,
        ),
{
    let ghost all = stage.scripts@;
    let ghost needed = texts(stage.requires@);
    let mut out: Vec<Finding> = Vec::new();
    let mut i: usize = 0;
    assert(finding_views(out@) =~= payload_findings(stage.key@, needed, all.take(0)));
    while i < stage.scripts.len()
        invariant
            i <= stage.scripts@.len(),
            all == stage.scripts@,
            needed == texts(stage.requires@),
            finding_views(out@) == payload_findings(stage.key@, needed, all.take(i as int)),
        decreases stage.scripts@.len() - i,
    {
        let ghost before = finding_views(out@);
        assert(all.take(i + 1).drop_last() =~= all.take(i as int));
        assert(all.take(i + 1).last() == all[i as int]);
        match check_script(stage.key.as_str(), &stage.requires, &stage.scripts[i]) {
            Some(f) => {
                let ghost x = f@;
                push_finding(&mut out, f);
                assert(before.push(x) =~= before + seq![x]);
            },
            None => {
                assert(before + Seq::<FindingView>::empty() =~= before);
            },
        }
        i += 1;
    }
    assert(all.take(all.len() as int) =~= all);
    out
}

/// Scripts whose interpreter neither the payload nor a required package
/// provides.
pub fn check_shebang_interpreters(input: &LintInput) -> (r: Vec<Finding>)
    ensures
        finding_views(r@) == staged_findings(input.staged@),
{
    let ghost all = input.staged@;
    let mut out: Vec<Finding> = Vec::new();
    let mut i: usize = 0;
    assert(finding_views(out@) =~= staged_findings(all.take(0)));
    while i < input.staged.len()
        invariant
            i <= input.staged@.len(),
            all == input.staged@,
            finding_views(out@) == staged_findings(all.take(i as int)),
        decreases input.staged@.len() - i,
    {
        assert(all.take(i + 1).drop_last() =~= all.take(i as int));
        assert(all.take(i + 1).last() == all[i as int]);
        let more = package_shebang_findings(&input.staged[i]);
        push_findings(&mut out, more);
        i += 1;
    }
    assert(all.take(all.len() as int) =~= all);
    out
}

// ── Apps that two packages of a pod ship ──

/// The packages of a pod that ship an app, in order: their names, and whether
/// the app has a desktop file.
pub open spec fn app_owners(packages: Seq<PodPackageMeta>, app: Seq<char>) -> Seq<(Seq<char>, bool)>
    decreases packages.len(),
{
    if packages.len() == 0 {
        Seq::empty()
    } else {
        let rest = app_owners(packages.drop_last(), app);
        match packages.last().meta {
            Some(meta) => match lookup(meta.apps@, app) {
                Some(a) => rest.push((meta.name@, a.desktop is Some)),
                None => rest,
            },
            None => rest,
        }
    }
}

/// The app names of a pod's packages.
pub open spec fn app_names(packages: Seq<PodPackageMeta>) -> Seq<Seq<char>>
    decreases packages.len(),
{
    if packages.len() == 0 {
        Seq::empty()
    } else {
        let rest = app_names(packages.drop_last());
        match packages.last().meta {
            Some(meta) => rest + keys_of(meta.apps@),
            None => rest,
        }
    }
}

/// The warnings about packages that did not resolve, in order.
pub open spec fn unresolved_findings(packages: Seq<PodPackageMeta>) -> Seq<FindingView>
    decreases packages.len(),
{
    if packages.len() == 0 {
        Seq::empty()
    } else {
        let rest = unresolved_findings(packages.drop_last());
        match packages.last().meta {
            Some(_) => rest,
            None => rest.push(
                finding(
                    "pod-duplicate-apps"@,
                    packages.last().spec@,
                    Severity::Warn,
                    "package '"@ + packages.last().name@
                        + "' could not be resolved from local inputs — app checks skipped for it (lint is offline)"@,
                    "materialize the package inputs locally, then re-lint"@,
                ),
            ),
        }
    }
}

/// The names of owners.
pub open spec fn owner_names(owners: Seq<(Seq<char>, bool)>) -> Seq<Seq<char>> {
    owners.map_values(|o: (Seq<char>, bool)| o.0)
}

/// Whether every owner's app has a desktop file.
pub open spec fn all_desktop(owners: Seq<(Seq<char>, bool)>) -> bool {
    forall|i: int| 0 <= i < owners.len() ==> (#[trigger] owners[i]).1
}

/// The finding about an app that several packages ship: an error where every
/// one has a desktop file, since a pod refuses that; else a warning.
pub open spec fn duplicate_app(
    pod: Seq<char>,
    app: Seq<char>,
    owners: Seq<(Seq<char>, bool)>,
) -> FindingView {
    let names = joined(owner_names(owners), " and "@);
    if all_desktop(owners) {
        finding(
            "pod-duplicate-apps"@,
            pod,
            Severity::Error,
            "app '"@ + app + "' is declared by both "@ + names
                + " — same-precedence desktop app-ID collision fails pod mutation (issue #7)"@,
            "rename one of the apps or drop one of the packages"@,
        )
    } else {
        finding(
            "pod-duplicate-apps"@,
            pod,
            Severity::Warn,
            "app '"@ + app + "' is shipped by both "@ + names
                + " — the farm shadows the earlier package's app deterministically"@,
            "rename one app or drop one of the packages so `shuttle run` is unambiguous"@,
        )
    }
}

/// The findings about apps that several packages ship, by app.
pub open spec fn duplicate_apps(
    pod: Seq<char>,
    packages: Seq<PodPackageMeta>,
    apps: Seq<Seq<char>>,
) -> Seq<FindingView>
    decreases apps.len(),
{
    if apps.len() == 0 {
        Seq::empty()
    } else {
        let rest = duplicate_apps(pod, packages, apps.drop_last());
        let owners = app_owners(packages, apps.last());
        if owners.len() < 2 {
            rest
        } else {
            rest.push(duplicate_app(pod, apps.last(), owners))
        }
    }
}

/// All findings about a pod.
pub open spec fn pod_findings(pod: PodLintData) -> Seq<FindingView> {
    unresolved_findings(pod.packages@) + duplicate_apps(
        pod.name@,
        pod.packages@,
        set_of(app_names(pod.packages@)),
    )
}

/// The texts of a list of owners.
pub open spec fn owner_views(v: Seq<(String, bool)>) -> Seq<(Seq<char>, bool)> {
    v.map_values(|o: (String, bool)| (o.0@, o.1))
}

fn owners_of(packages: &Vec<PodPackageMeta>, app: &str) -> (r: Vec<(String, bool)>)
    ensures
        owner_views(r@) == app_owners(packages@, app@),
{
    let ghost all = packages@;
    let mut out: Vec<(String, bool)> = Vec::new();
    let mut i: usize = 0;
    assert(owner_views(out@) =~= app_owners(all.take(0), app@));
    while i < packages.len()
        invariant
            i <= packages@.len(),
            all == packages@,
            owner_views(out@) == app_owners(all.take(i as int), app@),
        decreases packages@.len() - i,
    {
        let ghost before = owner_views(out@);
        assert(all.take(i + 1).drop_last() =~= all.take(i as int));
        assert(all.take(i + 1).last() == all[i as int]);
        match &packages[i].meta {
            Some(meta) => match meta.apps.get(app) {
                Some(a) => {
                    let desktop = a.desktop.is_some();
                    out.push((meta.name.clone(), desktop));
                    assert(owner_views(out@) =~= before.push((meta.name@, desktop)));
                },
                None => {},
            },
            None => {},
        }
        i += 1;
    }
    assert(all.take(all.len() as int) =~= all);
    out
}

fn duplicate_app_finding(pod: &str, app: &str, owners: &Vec<(String, bool)>) -> (r: Finding)
    ensures
        r@ == duplicate_app(pod@, app@, owner_views(owners@)),
{
    let ghost all = owner_views(owners@);
    let mut names: Vec<String> = Vec::new();
    let mut desktop = true;
    let mut i: usize = 0;
    assert(texts(names@) =~= owner_names(all).take(0));
    while i < owners.len()
        invariant
            i <= owners@.len(),
            all == owner_views(owners@),
            texts(names@) == owner_names(all).take(i as int),
            desktop == all_desktop(all.take(i as int)),
        decreases owners@.len() - i,
    {
        let ghost before = names@;
        let ghost less = all.take(i as int);
        let ghost more = all.take(i + 1);
        names.push(owners[i].0.clone());
        if !owners[i].1 {
            desktop = false;
        }
        proof {
            let n = owners@[i as int].0@;
            assert(owner_names(all)[i as int] == n);
            assert(texts(names@) =~= texts(before).push(n));
            assert(owner_names(all).take(i + 1) =~= owner_names(all).take(i as int).push(n));
            assert(more[i as int] == all[i as int]);
            if all_desktop(more) {
                assert forall|k: int| 0 <= k < less.len() implies (#[trigger] less[k]).1 by {
                    assert(more[k].1);
                }
            }
            if desktop {
                assert forall|k: int| 0 <= k < more.len() implies (#[trigger] more[k]).1 by {
                    if k < i {
                        assert(less[k].1);
                    }
                }
            }
        }
        i += 1;
    }
    proof {
        assert(all.take(all.len() as int) =~= all);
        assert(owner_names(all).take(all.len() as int) =~= owner_names(all));
    }
    let mut message = "app '".to_owned();
    message.append(app);
    if desktop {
        message.append("' is declared by both ");
        message.append(join(&names, " and ").as_str());
        message.append(
            " — same-precedence desktop app-ID collision fails pod mutation (issue #7)",
        );
        let hint = "rename one of the apps or drop one of the packages".to_owned();
        new_finding("pod-duplicate-apps", pod, Severity::Error, message, hint)
    } else {
        message.append("' is shipped by both ");
        message.append(join(&names, " and ").as_str());
        message.append(" — the farm shadows the earlier package's app deterministically");
        let hint = "rename one app or drop one of the packages so `shuttle run` is unambiguous".to_owned();
        new_finding("pod-duplicate-apps", pod, Severity::Warn, message, hint)
    }
}

fn push_keys(out: &mut Vec<String>, apps: &Ordered<SnapApp>)
    ensures
        texts(final(out)@) == texts(old(out)@) + keys_of(apps@),
{
    let ghost start = texts(out@);
    let ghost keys = keys_of(apps@);
    let mut i: usize = 0;
    assert(start + keys.take(0) =~= start);
    while i < apps.len()
        invariant
            i <= apps@.len(),
            keys == keys_of(apps@),
            texts(out@) == start + keys.take(i as int),
        decreases apps@.len() - i,
    {
        let ghost before = texts(out@);
        out.push(apps.key_at(i).clone());
        proof {
            let k = keys[i as int];
            assert(texts(out@) =~= before.push(k));
            assert(start + keys.take(i + 1) =~= (start + keys.take(i as int)).push(k));
        }
        i += 1;
    }
    assert(keys.take(keys.len() as int) =~= keys);
}

/// The findings about a pod: apps that several packages ship, and packages
/// that did not resolve.
pub fn pod_app_findings(pod: &PodLintData) -> (r: Vec<Finding>)
    ensures
        finding_views(r@) == pod_findings(*pod),
{
    let ghost all = pod.packages@;
    let mut out: Vec<Finding> = Vec::new();
    let mut names: Vec<String> = Vec::new();
    let mut i: usize = 0;
    assert(finding_views(out@) =~= unresolved_findings(all.take(0)));
    assert(texts(names@) =~= app_names(all.take(0)));
    while i < pod.packages.len()
        invariant
            i <= pod.packages@.len(),
            all == pod.packages@,
            finding_views(out@) == unresolved_findings(all.take(i as int)),
            texts(names@) == app_names(all.take(i as int)),
        decreases pod.packages@.len() - i,
    {
        assert(all.take(i + 1).drop_last() =~= all.take(i as int));
        assert(all.take(i + 1).last() == all[i as int]);
        match &pod.packages[i].meta {
            Some(meta) => {
                push_keys(&mut names, &meta.apps);
            },
            None => {
                let mut message = "package '".to_owned();
                message.append(pod.packages[i].name.as_str());
                message.append(
                    "' could not be resolved from local inputs — app checks skipped for it (lint is offline)",
                );
                let hint = "materialize the package inputs locally, then re-lint".to_owned();
                push_finding(
                    &mut out,
                    new_finding(
                        "pod-duplicate-apps",
                        pod.packages[i].spec.as_str(),
                        Severity::Warn,
                        message,
                        hint,
                    ),
                );
            },
        }
        i += 1;
    }
    assert(all.take(all.len() as int) =~= all);
    let ghost head = finding_views(out@);
    let apps = name_set(&names);
    let ghost keys = texts(apps@);
    let mut j: usize = 0;
    assert(head + duplicate_apps(pod.name@, all, keys.take(0)) =~= head);
    while j < apps.len()
        invariant
            j <= apps@.len(),
            all == pod.packages@,
            keys == texts(apps@),
            finding_views(out@) == head + duplicate_apps(pod.name@, all, keys.take(j as int)),
        decreases apps@.len() - j,
    {
        let ghost before = duplicate_apps(pod.name@, all, keys.take(j as int));
        assert(keys.take(j + 1).drop_last() =~= keys.take(j as int));
        assert(keys.take(j + 1).last() == apps@[j as int]@);
        let owners = owners_of(&pod.packages, apps[j].as_str());
        assert(owner_views(owners@).len() == owners@.len());
        if owners.len() >= 2 {
            let f = duplicate_app_finding(pod.name.as_str(), apps[j].as_str(), &owners);
            let ghost x = f@;
            push_finding(&mut out, f);
            assert((head + before).push(x) =~= head + before.push(x));
        }
        j += 1;
    }
    assert(keys.take(keys.len() as int) =~= keys);
    out
}

/// Apps that two packages of the pod ship; nothing where no pod is linted.
pub fn check_pod_duplicate_apps(input: &LintInput) -> (r: Vec<Finding>)
    ensures
        finding_views(r@) == (match input.pod {
            Some(pod) => pod_findings(pod),
            None => Seq::empty(),
        }),
{
    match &input.pod {
        Some(pod) => pod_app_findings(pod),
        None => {
            let out: Vec<Finding> = Vec::new();
            assert(finding_views(out@) =~= Seq::<FindingView>::empty());
            out
        },
    }
}

// ── Outputs that are nothing ──

/// The warnings about outputs that are neither package nor image.
pub open spec fn unparsed_findings(keys: Seq<Seq<char>>) -> Seq<FindingView> {
    keys.map_values(
        |key: Seq<char>|
            finding(
                "unparsed-declaration"@,
                key,
                Severity::Warn,
                "validates as neither a package nor an image declaration — eval skips it"@,
                "fix the schema error `shuttle check` reports for this output"@,
            ),
    )
}

/// Outputs that validate as neither package nor image.
pub fn check_unparsed_declarations(input: &LintInput) -> (r: Vec<Finding>)
    ensures
        finding_views(r@) == unparsed_findings(texts(input.unparsed@)),
{
    let ghost all = unparsed_findings(texts(input.unparsed@));
    let mut out: Vec<Finding> = Vec::new();
    let mut i: usize = 0;
    assert(finding_views(out@) =~= all.take(0));
    while i < input.unparsed.len()
        invariant
            i <= input.unparsed@.len(),
            all == unparsed_findings(texts(input.unparsed@)),
            finding_views(out@) == all.take(i as int),
        decreases input.unparsed@.len() - i,
    {
        let message = "validates as neither a package nor an image declaration — eval skips it".to_owned();
        let hint = "fix the schema error `shuttle check` reports for this output".to_owned();
        let f = new_finding(
            "unparsed-declaration",
            input.unparsed[i].as_str(),
            Severity::Warn,
            message,
            hint,
        );
        let ghost x = f@;
        push_finding(&mut out, f);
        proof {
            assert(all[i as int] == x);
            assert(all.take(i + 1) =~= all.take(i as int).push(x));
        }
        i += 1;
    }
    assert(all.take(all.len() as int) =~= all);
    out
}

// ── The battery ──

/// The checks there are.
#[derive(Debug, Clone, Copy, PartialEq, Eq, Structural)]
pub enum CheckKind {
    DeadStorePin,
    StoreAlias,
    ShadowMount,
    BootloaderType,
    ShebangRequires,
    PodDuplicateApps,
    UnparsedDeclaration,
}

/// A registered check: its stable name and a summary in one line.
#[derive(Debug, Clone, Copy)]
pub struct Check {
    pub name: &'static str,
    pub summary: &'static str,
    pub kind: CheckKind,
}

/// The name of a check.
pub open spec fn check_name(kind: CheckKind) -> Seq<char> {
    match kind {
        CheckKind::DeadStorePin => "dead-store-pin"@,
        CheckKind::StoreAlias => "store-alias"@,
        CheckKind::ShadowMount => "shadow-mount"@,
        CheckKind::BootloaderType => "bootloader-type"@,
        CheckKind::ShebangRequires => "shebang-requires"@,
        CheckKind::PodDuplicateApps => "pod-duplicate-apps"@,
        CheckKind::UnparsedDeclaration => "unparsed-declaration"@,
    }
}

/// What a check is about, in one line.
pub open spec fn check_summary(kind: CheckKind) -> Seq<char> {
    match kind {
        CheckKind::DeadStorePin => "index pins whose channel mismatches the channel the build derives (#69)"@,
        CheckKind::StoreAlias => "store snaps referenced by images but unresolvable through the index (#68)"@,
        CheckKind::ShadowMount => "partition mounts over system paths the rootfs owns"@,
        CheckKind::BootloaderType => "bootloader.type values declaration validation would reject (#71)"@,
        CheckKind::ShebangRequires => "wrapper interpreters resolving to neither payload nor requires (#90)"@,
        CheckKind::PodDuplicateApps => "one app name shipped by two packages of the same pod (#7)"@,
        CheckKind::UnparsedDeclaration => "outputs validating as neither package nor image (ADR-0010)"@,
    }
}

/// The checks in the order they run.
pub open spec fn check_kinds() -> Seq<CheckKind> {
    seq![
        CheckKind::DeadStorePin,
        CheckKind::StoreAlias,
        CheckKind::ShadowMount,
        CheckKind::BootloaderType,
        CheckKind::ShebangRequires,
        CheckKind::PodDuplicateApps,
        CheckKind::UnparsedDeclaration,
    ]
}

/// The registered checks, in the order they run.
pub fn registry() -> (r: Vec<Check>)
    ensures
        r@.map_values(|c: Check| c.kind) == check_kinds(),
        forall|i: int|
            0 <= i < r@.len() ==> (#[trigger] r@[i]).name@ == check_name(r@[i].kind)
                && r@[i].summary@ == check_summary(r@[i].kind),
{
    let mut out: Vec<Check> = Vec::new();
    out.push(
        Check {
            name: "dead-store-pin",
            summary: "index pins whose channel mismatches the channel the build derives (#69)",
            kind: CheckKind::DeadStorePin,
        },
    );
    out.push(
        Check {
            name: "store-alias",
            summary: "store snaps referenced by images but unresolvable through the index (#68)",
            kind: CheckKind::StoreAlias,
        },
    );
    out.push(
        Check {
            name: "shadow-mount",
            summary: "partition mounts over system paths the rootfs owns",
            kind: CheckKind::ShadowMount,
        },
    );
    out.push(
        Check {
            name: "bootloader-type",
            summary: "bootloader.type values declaration validation would reject (#71)",
            kind: CheckKind::BootloaderType,
        },
    );
    out.push(
        Check {
            name: "shebang-requires",
            summary: "wrapper interpreters resolving to neither payload nor requires (#90)",
            kind: CheckKind::ShebangRequires,
        },
    );
    out.push(
        Check {
            name: "pod-duplicate-apps",
            summary: "one app name shipped by two packages of the same pod (#7)",
            kind: CheckKind::PodDuplicateApps,
        },
    );
    out.push(
        Check {
            name: "unparsed-declaration",
            summary: "outputs validating as neither package nor image (ADR-0010)",
            kind: CheckKind::UnparsedDeclaration,
        },
    );
    assert(out@.map_values(|c: Check| c.kind) =~= check_kinds());
    out
}

/// What a check finds.
pub open spec fn check_findings(kind: CheckKind, input: LintInput) -> Seq<FindingView> {
    match kind {
        CheckKind::DeadStorePin => dead_store_pins(input, input.raw@),
        CheckKind::StoreAlias => store_aliases(input),
        CheckKind::ShadowMount => partition_mounts(input.raw@),
        CheckKind::BootloaderType => bootloader_types(input.raw@),
        CheckKind::ShebangRequires => staged_findings(input.staged@),
        CheckKind::PodDuplicateApps => match input.pod {
            Some(pod) => pod_findings(pod),
            None => Seq::empty(),
        },
        CheckKind::UnparsedDeclaration => unparsed_findings(texts(input.unparsed@)),
    }
}

/// Runs one check.
pub fn run_check(kind: CheckKind, input: &LintInput) -> (r: Vec<Finding>)
    ensures
        finding_views(r@) == check_findings(kind, *input),
{
    match kind {
        CheckKind::DeadStorePin => check_dead_store_pins(input),
        CheckKind::StoreAlias => check_store_aliases(input),
        CheckKind::ShadowMount => check_partition_mounts(input),
        CheckKind::BootloaderType => check_bootloader_type(input),
        CheckKind::ShebangRequires => check_shebang_interpreters(input),
        CheckKind::PodDuplicateApps => check_pod_duplicate_apps(input),
        CheckKind::UnparsedDeclaration => check_unparsed_declarations(input),
    }
}

/// What the checks find, one after the other.
pub open spec fn battery(kinds: Seq<CheckKind>, input: LintInput) -> Seq<FindingView>
    decreases kinds.len(),
{
    if kinds.len() == 0 {
        Seq::empty()
    } else {
        battery(kinds.drop_last(), input) + check_findings(kinds.last(), input)
    }
}

/// Runs every check; the findings come by package, check and message.
pub fn run_battery(input: &LintInput) -> (r: Vec<Finding>)
    ensures
        finding_views(r@) == sorted_by(battery(check_kinds(), *input), finding_order()),
{
    let checks = registry();
    let ghost kinds = checks@.map_values(|c: Check| c.kind);
    let mut out: Vec<Finding> = Vec::new();
    let mut i: usize = 0;
    assert(finding_views(out@) =~= battery(kinds.take(0), *input));
    while i < checks.len()
        invariant
            i <= checks@.len(),
            kinds == checks@.map_values(|c: Check| c.kind),
            finding_views(out@) == battery(kinds.take(i as int), *input),
        decreases checks@.len() - i,
    {
        assert(kinds.take(i + 1).drop_last() =~= kinds.take(i as int));
        assert(kinds.take(i + 1).last() == checks@[i as int].kind);
        let more = run_check(checks[i].kind, input);
        push_findings(&mut out, more);
        i += 1;
    }
    assert(kinds.take(kinds.len() as int) =~= kinds);
    sort_findings(out)
}

// ── Laws ──

/// No two checks have one name.
pub proof fn law_checks_are_told_apart(a: CheckKind, b: CheckKind)
    requires
        check_name(a) == check_name(b),
    ensures
        a == b,
{
    reveal_strlit("dead-store-pin");
    reveal_strlit("store-alias");
    reveal_strlit("shadow-mount");
    reveal_strlit("bootloader-type");
    reveal_strlit("shebang-requires");
    reveal_strlit("pod-duplicate-apps");
    reveal_strlit("unparsed-declaration");
    let x = check_name(a);
    let y = check_name(b);
    assert(x.len() == y.len());
    assert(x[0] == y[0]);
    assert(x[1] == y[1]);
}

/// Sorting adds and drops nothing: every finding of a check is reported, and
/// every reported finding is one of a check.
pub proof fn law_battery_reports_everything(input: LintInput, f: FindingView)
    ensures
        sorted_by(battery(check_kinds(), input), finding_order()).contains(f) <==> battery(
            check_kinds(),
            input,
        ).contains(f),
{
    law_sorted_by_keeps(battery(check_kinds(), input), finding_order(), f);
}

/// Whatever is referred to by a name that the index knows is not reported as
/// unknown, and whatever is not known is.
pub proof fn law_unknown_names_are_reported(
    snaps: Seq<IndexEntry>,
    names: Seq<Seq<char>>,
    name: Seq<char>,
)
    ensures
        unknown_names(snaps, names).contains(unknown_name(name)) <==> names.contains(name)
            && entry_of(snaps, name) is None,
    decreases names.len(),
{
    let all = unknown_names(snaps, names);
    if names.len() > 0 {
        let rest = names.drop_last();
        let head = unknown_names(snaps, rest);
        law_unknown_names_are_reported(snaps, rest, name);
        assert(names.contains(name) <==> rest.contains(name) || names.last() == name) by {
            if rest.contains(name) {
                let k = choose|k: int| 0 <= k < rest.len() && rest[k] == name;
                assert(names[k] == name);
            }
            if names.contains(name) {
                let k = choose|k: int| 0 <= k < names.len() && names[k] == name;
                if k < rest.len() {
                    assert(rest[k] == name);
                }
            }
        }
        if entry_of(snaps, names.last()) is None {
            let x = unknown_name(names.last());
            assert(all.contains(unknown_name(name)) <==> head.contains(unknown_name(name)) || x
                == unknown_name(name)) by {
                if head.contains(unknown_name(name)) {
                    let k = choose|k: int| 0 <= k < head.len() && head[k] == unknown_name(name);
                    assert(all[k] == unknown_name(name));
                }
                if x == unknown_name(name) {
                    assert(all[head.len() as int] == x);
                }
                if all.contains(unknown_name(name)) {
                    let k = choose|k: int| 0 <= k < all.len() && all[k] == unknown_name(name);
                    if k < head.len() {
                        assert(head[k] == unknown_name(name));
                    }
                }
            }
            assert(x == unknown_name(name) <==> names.last() == name) by {
                assert(x.package == names.last());
                assert(unknown_name(name).package == name);
            }
        }
    }
}

/// Findings are reported in one order: by package, then by check, then by
/// message.
pub proof fn law_findings_come_in_order(v: Seq<FindingView>)
    ensures
        ordered_by(sorted_by(v, finding_order()), finding_order()),
{
    let le = finding_order();
    assert forall|a: FindingView, b: FindingView| #[trigger] le(a, b) || le(b, a) by {
        lemma_text_lt_total(a.package, b.package);
        lemma_text_lt_total(a.check, b.check);
        lemma_text_lt_total(a.message, b.message);
    }
    assert forall|a: FindingView, b: FindingView, c: FindingView| #[trigger] le(a, b)
        && #[trigger] le(b, c) implies le(a, c) by {
        lemma_order_transitive(a, b, c);
    }
    law_sorted_by_orders(v, le);
}

proof fn lemma_order_transitive(a: FindingView, b: FindingView, c: FindingView)
    requires
        finding_order()(a, b),
        finding_order()(b, c),
    ensures
        finding_order()(a, c),
{
    if text_lt(a.package, b.package) {
        if text_lt(b.package, c.package) {
            lemma_text_lt_transitive(a.package, b.package, c.package);
        }
    } else if b.package == c.package {
        if text_lt(a.check, b.check) {
            if text_lt(b.check, c.check) {
                lemma_text_lt_transitive(a.check, b.check, c.check);
            }
        } else if b.check == c.check && text_lt(c.message, a.message) {
            lemma_text_lt_total(a.message, b.message);
            lemma_text_lt_total(b.message, c.message);
            if text_lt(a.message, b.message) {
                lemma_text_lt_transitive(c.message, a.message, b.message);
            }
        }
    }
}

proof fn lemma_entry_named(snaps: Seq<IndexEntry>, name: Seq<char>, from: int)
    requires
        0 <= from,
    ensures
        match entry_named(snaps, name, from) {
            Some(i) => from <= i < snaps.len() && snaps[i].name@ == name,
            None => forall|j: int| from <= j < snaps.len() ==> (#[trigger] snaps[j]).name@ != name,
        },
    decreases snaps.len() - from,
{
    if from < snaps.len() && snaps[from].name@ != name {
        lemma_entry_named(snaps, name, from + 1);
    }
}

proof fn lemma_entry_aliased(snaps: Seq<IndexEntry>, name: Seq<char>, from: int)
    requires
        0 <= from,
    ensures
        match entry_aliased(snaps, name, from) {
            Some(i) => from <= i < snaps.len() && texts(snaps[i].aliases@).contains(name)
                && forall|j: int|
                from <= j < i ==> !texts((#[trigger] snaps[j]).aliases@).contains(name),
            None => forall|j: int|
                from <= j < snaps.len() ==> !texts((#[trigger] snaps[j]).aliases@).contains(name),
        },
    decreases snaps.len() - from,
{
    if from < snaps.len() && !texts(snaps[from].aliases@).contains(name) {
        lemma_entry_aliased(snaps, name, from + 1);
    }
}

/// A name leads to the entry that has it as its own, before any that has it as
/// an alias; among aliases the first counts; and it leads nowhere exactly where
/// no entry has it either way.
pub proof fn law_names_lead_to_their_entries(snaps: Seq<IndexEntry>, name: Seq<char>)
    ensures
        match entry_of(snaps, name) {
            Some(i) => 0 <= i < snaps.len() && if exists|j: int|
                0 <= j < snaps.len() && (#[trigger] snaps[j]).name@ == name {
                snaps[i].name@ == name
            } else {
                texts(snaps[i].aliases@).contains(name) && forall|j: int|
                    0 <= j < i ==> !texts((#[trigger] snaps[j]).aliases@).contains(name)
            },
            None => forall|j: int|
                0 <= j < snaps.len() ==> (#[trigger] snaps[j]).name@ != name && !texts(
                    snaps[j].aliases@,
                ).contains(name),
        },
{
    lemma_entry_named(snaps, name, 0);
    lemma_entry_aliased(snaps, name, 0);
}

/// Every snap that an image names is looked at: the kernel and the gadget on
/// the channel that is derived for them, the base and the extras on the plain
/// one.
pub proof fn law_every_snap_of_an_image_is_looked_at(img: ImageView, i: int)
    ensures
        img.base.len() > 0 ==> image_refs(img).contains(
            RefView { name: img.base, channel: None, follows: false },
        ),
        match img.kernel {
            Some((Some(name), channel)) => name.len() > 0 ==> image_refs(img).contains(
                RefView { name, channel, follows: true },
            ),
            _ => true,
        },
        match img.gadget {
            Some((Some(name), channel)) => name.len() > 0 ==> image_refs(img).contains(
                RefView { name, channel, follows: true },
            ),
            _ => true,
        },
        (0 <= i < img.extras.len() && img.extras[i] is Some && img.extras[i]->0.len() > 0)
            ==> image_refs(img).contains(
            RefView { name: img.extras[i]->0, channel: None, follows: false },
        ),
{
    let all = image_refs(img);
    let a = tracked_ref(img.kernel);
    let b = tracked_ref(img.gadget);
    let c = extra_refs(img.extras);
    let d = plain_ref(Some(img.base));
    if a.len() > 0 {
        assert(all[0] == a[0]);
    }
    if b.len() > 0 {
        assert(all[a.len() as int] == b[0]);
    }
    if d.len() > 0 {
        assert(all[(a.len() + b.len() + c.len()) as int] == d[0]);
    }
    if 0 <= i < img.extras.len() && img.extras[i] is Some && img.extras[i]->0.len() > 0 {
        let x = RefView { name: img.extras[i]->0, channel: None, follows: false };
        let whole = |s: Seq<Option<Seq<char>>>| extra_refs(s);
        let last = |s: Seq<Option<Seq<char>>>| plain_ref(s.last());
        lemma_pieces(img.extras, whole, last, x);
        let p = last(img.extras.take(i + 1));
        assert(img.extras.take(i + 1).last() == img.extras[i]);
        assert(p[0] == x);
        assert(p.contains(x));
        assert(whole(img.extras) == c);
        let m = choose|m: int| 0 <= m < c.len() && c[m] == x;
        assert(all[a.len() + b.len() + m] == x);
    }
}

/// A snap that follows its base is built from the channel that is named for
/// it; else from the risk of the channel on the base's track; and where the
/// base has no track, from the channel itself.
pub proof fn law_channels_follow_the_base(
    front: Seq<char>,
    risk: Seq<char>,
    base: Seq<char>,
    track: Seq<char>,
    named: Seq<char>,
)
    requires
        !risk.contains('/'),
        track.len() > 0,
        forall|k: int| 0 <= k < track.len() ==> is_digit(#[trigger] track[k]),
    ensures
        derived_channel(risk, base, Some(named)) == named,
        derived_channel(risk, "core"@ + track, None) == track + seq!['/'] + risk,
        derived_channel(front + seq!['/'] + risk, "core"@ + track, None) == track + seq!['/']
            + risk,
        !"core"@.is_prefix_of(base) ==> derived_channel(risk, base, None) == risk,
        derived_channel(risk, "core"@, None) == risk,
{
    reveal_strlit("/");
    assert("/"@ =~= seq!['/']);
    law_ends_are_taken_off("core"@, track);
    law_cut_at_the_last(front, '/', risk);
    assert("core"@ =~= "core"@ + Seq::<char>::empty());
    law_ends_are_taken_off("core"@, Seq::empty());
}

/// The pins of an architecture that no channel can use are counted each once.
pub proof fn law_dead_pins_are_counted(pins: Seq<(Seq<char>, PinEntry)>, arch: Seq<char>)
    ensures
        bare_pins(pins, arch) == pins.filter(
            |p: (Seq<char>, PinEntry)|
                first_part(p.0, "@"@) == arch && !holds(p.0, "@"@) && p.1.channel is None,
        ).len(),
        keyed_pins(pins, arch) == pins.filter(
            |p: (Seq<char>, PinEntry)| first_part(p.0, "@"@) == arch && holds(p.0, "@"@),
        ).len(),
    decreases pins.len(),
{
    reveal(Seq::filter);
    if pins.len() > 0 {
        law_dead_pins_are_counted(pins.drop_last(), arch);
    }
}

/// A pin for the channel that is built from is in order where it records that
/// channel, and an error where it records another or none. Without such a pin
/// there are warnings alone, and only where the architecture has other pins.
pub proof fn law_trusted_pins_record_their_channel(
    pins: Seq<(Seq<char>, PinEntry)>,
    arch: Seq<char>,
    derived: Seq<char>,
    key: Seq<char>,
    base: Seq<char>,
    name: Seq<char>,
)
    ensures
        ({
            let found = pin_findings(pins, arch, derived, key, base, name);
            &&& forall|k: int| 0 <= k < found.len() ==> (#[trigger] found[k]).package == key
            &&& match lookup(pins, arch + "@"@ + derived) {
                Some(pin) => if pin.channel is Some && pin.channel->0@ == derived {
                    found.len() == 0
                } else {
                    found.len() == 1 && found[0].severity is Error
                },
                None => (forall|k: int|
                    0 <= k < found.len() ==> (#[trigger] found[k]).severity is Warn)
                    && found.len() == (if bare_pins(pins, arch) > 0 {
                    1int
                } else {
                    0
                }) + (if keyed_pins(pins, arch) > 0 {
                    1int
                } else {
                    0
                }),
            }
        }),
{
}

/// Whether a finding is one about reference `m` of the image that output `k`
/// is.
pub open spec fn about_reference(
    input: LintInput,
    raw: Seq<(Seq<char>, Json)>,
    k: int,
    m: int,
    f: FindingView,
) -> bool {
    0 <= k < raw.len() && (image_of(raw[k].1@) matches Some(img) && 0 <= m < image_refs(img).len()
        && ref_findings(input, raw[k].0, img.base, image_refs(img)[m]).contains(f))
}

/// What is wrong with a pin of any snap of any image is found, and nothing
/// else.
pub proof fn law_every_image_is_checked_for_dead_pins(
    input: LintInput,
    raw: Seq<(Seq<char>, Json)>,
    f: FindingView,
)
    ensures
        dead_store_pins(input, raw).contains(f) <==> exists|k: int, m: int| #[trigger]
            about_reference(input, raw, k, m, f),
{
    let whole = |s: Seq<(Seq<char>, Json)>| dead_store_pins(input, s);
    let last = |s: Seq<(Seq<char>, Json)>| dead_pins_in(input, s.last().0, s.last().1@);
    lemma_pieces(raw, whole, last, f);
    assert(whole(raw) == dead_store_pins(input, raw));
    if dead_store_pins(input, raw).contains(f) {
        let k = choose|k: int| 0 <= k < raw.len() && (#[trigger] last(raw.take(k + 1))).contains(f);
        assert(raw.take(k + 1).last() == raw[k]);
        let img = image_of(raw[k].1@)->0;
        lemma_refs_findings(input, raw[k].0, img.base, image_refs(img), f);
        let refs = image_refs(img);
        let m = choose|m: int|
            0 <= m < refs.len() && ref_findings(
                input,
                raw[k].0,
                img.base,
                #[trigger] refs[m],
            ).contains(f);
        assert(about_reference(input, raw, k, m, f));
    }
    if exists|k: int, m: int| #[trigger] about_reference(input, raw, k, m, f) {
        let (k, m) = choose|k: int, m: int| #[trigger] about_reference(input, raw, k, m, f);
        let img = image_of(raw[k].1@)->0;
        lemma_refs_findings(input, raw[k].0, img.base, image_refs(img), f);
        assert(raw.take(k + 1).last() == raw[k]);
        assert(last(raw.take(k + 1)).contains(f));
    }
}

proof fn lemma_refs_findings(
    input: LintInput,
    key: Seq<char>,
    base: Seq<char>,
    refs: Seq<RefView>,
    f: FindingView,
)
    ensures
        refs_findings(input, key, base, refs).contains(f) <==> exists|m: int|
            0 <= m < refs.len() && ref_findings(input, key, base, #[trigger] refs[m]).contains(f),
{
    let whole = |s: Seq<RefView>| refs_findings(input, key, base, s);
    let last = |s: Seq<RefView>| ref_findings(input, key, base, s.last());
    lemma_pieces(refs, whole, last, f);
    assert(whole(refs) == refs_findings(input, key, base, refs));
    if exists|k: int| 0 <= k < refs.len() && (#[trigger] last(refs.take(k + 1))).contains(f) {
        let k = choose|k: int|
            0 <= k < refs.len() && (#[trigger] last(refs.take(k + 1))).contains(f);
        assert(refs.take(k + 1).last() == refs[k]);
        assert(ref_findings(input, key, base, refs[k]).contains(f));
    }
    if exists|m: int|
        0 <= m < refs.len() && ref_findings(input, key, base, #[trigger] refs[m]).contains(f) {
        let m = choose|m: int|
            0 <= m < refs.len() && ref_findings(input, key, base, #[trigger] refs[m]).contains(f);
        assert(refs.take(m + 1).last() == refs[m]);
        assert(last(refs.take(m + 1)).contains(f));
    }
}

/// A reference is checked against the pins of the entry that its name leads to,
/// on the channel that it is built from.
pub proof fn law_references_are_checked_by_their_pins(
    input: LintInput,
    key: Seq<char>,
    base: Seq<char>,
    r: RefView,
)
    ensures
        match entry_of(input.index.snaps@, r.name) {
            None => ref_findings(input, key, base, r).len() == 0,
            Some(i) => match input.index.snaps@[i].pins {
                None => ref_findings(input, key, base, r).len() == 0,
                Some(pins) => ref_findings(input, key, base, r) == pin_findings(
                    pins@,
                    input.arch@,
                    if r.follows {
                        derived_channel(input.channel@, base, r.channel)
                    } else {
                        input.channel@
                    },
                    key,
                    base,
                    r.name,
                ),
            },
        },
{
}

/// The subtrees that the base owns, and nothing beside them, count as system
/// paths.
pub proof fn law_system_paths_are_owned(mount: Seq<char>)
    ensures
        shadows(mount) <==> (is_under(mount, "/bin"@) || is_under(mount, "/sbin"@) || is_under(
            mount,
            "/lib"@,
        ) || is_under(mount, "/lib32"@) || is_under(mount, "/lib64"@) || is_under(mount, "/libx32"@)
            || is_under(mount, "/usr"@) || is_under(mount, "/etc"@) || is_under(mount, "/dev"@)
            || is_under(mount, "/proc"@) || is_under(mount, "/sys"@) || is_under(mount, "/run"@)
            || is_under(mount, "/var"@)),
        forall|sys: Seq<char>, rest: Seq<char>| #[trigger]
            is_under(sys + "/"@ + rest, sys) && is_under(sys, sys),
{
    assert forall|sys: Seq<char>, rest: Seq<char>| #[trigger]
        is_under(sys + "/"@ + rest, sys) && is_under(sys, sys) by {
        assert((sys + "/"@ + rest).take((sys + "/"@).len() as int) =~= sys + "/"@);
    }
    let p = SYSTEM_PATHS@;
    assert(p[0]@ == "/bin"@ && p[1]@ == "/sbin"@ && p[2]@ == "/lib"@ && p[3]@ == "/lib32"@
        && p[4]@ == "/lib64"@ && p[5]@ == "/libx32"@ && p[6]@ == "/usr"@ && p[7]@ == "/etc"@
        && p[8]@ == "/dev"@ && p[9]@ == "/proc"@ && p[10]@ == "/sys"@ && p[11]@ == "/run"@
        && p[12]@ == "/var"@);
}

proof fn lemma_last_mounted(parts: Seq<(Seq<char>, Seq<char>)>, mount: Seq<char>)
    ensures
        last_mounted(parts, mount) is Some <==> exists|i: int|
            0 <= i < parts.len() && (#[trigger] parts[i]).1 == mount,
    decreases parts.len(),
{
    if parts.len() > 0 {
        let r = parts.drop_last();
        lemma_last_mounted(r, mount);
        if parts.last().1 == mount {
            assert(parts[parts.len() - 1].1 == mount);
        } else {
            if exists|i: int| 0 <= i < r.len() && (#[trigger] r[i]).1 == mount {
                let i = choose|i: int| 0 <= i < r.len() && (#[trigger] r[i]).1 == mount;
                assert(parts[i].1 == mount);
            }
            if exists|i: int| 0 <= i < parts.len() && (#[trigger] parts[i]).1 == mount {
                let i = choose|i: int| 0 <= i < parts.len() && (#[trigger] parts[i]).1 == mount;
                assert(r[i].1 == mount);
            }
        }
    }
}

/// Nothing is wrong with the partitions of an image exactly where every mount
/// point is absolute, none is a system path or below one, and no two are the
/// same. Whatever is wrong is a warning of the output.
pub proof fn law_clean_partitions_mount_apart(key: Seq<char>, parts: Seq<(Seq<char>, Seq<char>)>)
    ensures
        mounts_warnings(key, parts).len() == 0 <==> ((forall|i: int|
            0 <= i < parts.len() ==> (#[trigger] parts[i]).1.len() > 0 && parts[i].1[0] == '/'
                && !shadows(parts[i].1)) && (forall|i: int, j: int|
            0 <= i < j < parts.len() ==> (#[trigger] parts[i]).1 != (#[trigger] parts[j]).1)),
        forall|k: int|
            0 <= k < mounts_warnings(key, parts).len() ==> (#[trigger] mounts_warnings(
                key,
                parts,
            )[k]).severity is Warn && mounts_warnings(key, parts)[k].package == key,
    decreases parts.len(),
{
    reveal_strlit("/");
    if parts.len() > 0 {
        let r = parts.drop_last();
        let mount = parts.last().1;
        let n = parts.len() - 1;
        law_clean_partitions_mount_apart(key, r);
        lemma_last_mounted(r, mount);
        assert("/"@.is_prefix_of(mount) <==> mount.len() > 0 && mount[0] == '/') by {
            if mount.len() > 0 && mount[0] == '/' {
                assert(mount.take(1) =~= "/"@);
            }
            if "/"@.is_prefix_of(mount) {
                assert(mount[0] == "/"@[0]);
            }
        }
        assert(forall|i: int| 0 <= i < r.len() ==> #[trigger] r[i] == parts[i]);
        let here = mount_warnings(key, r, parts.last().0, mount);
        let all = mounts_warnings(key, parts);
        assert(all == mounts_warnings(key, r) + here);
        if all.len() == 0 {
            assert(here.len() == 0);
            assert forall|i: int, j: int| 0 <= i < j < parts.len() implies (
            #[trigger] parts[i]).1 != (#[trigger] parts[j]).1 by {
                if j == n {
                    assert(r[i].1 != mount);
                } else {
                    assert(r[i].1 != r[j].1);
                }
            }
            assert forall|i: int| 0 <= i < parts.len() implies (#[trigger] parts[i]).1.len() > 0
                && parts[i].1[0] == '/' && !shadows(parts[i].1) by {
                if i < n {
                    assert(r[i] == parts[i]);
                }
            }
        } else if (forall|i: int|
            0 <= i < parts.len() ==> (#[trigger] parts[i]).1.len() > 0 && parts[i].1[0] == '/'
                && !shadows(parts[i].1)) && (forall|i: int, j: int|
            0 <= i < j < parts.len() ==> (#[trigger] parts[i]).1 != (#[trigger] parts[j]).1) {
            assert(parts[n].1 == mount);
            assert forall|i: int| 0 <= i < r.len() implies (#[trigger] r[i]).1 != mount by {
                assert(parts[i].1 != parts[n].1);
            }
            assert forall|i: int, j: int| 0 <= i < j < r.len() implies (#[trigger] r[i]).1 != (
            #[trigger] r[j]).1 by {
                assert(parts[i].1 != parts[j].1);
            }
            assert(here.len() == 0);
        }
    }
}

/// Every image's partitions are looked at.
pub proof fn law_every_image_is_checked_for_mounts(raw: Seq<(Seq<char>, Json)>, f: FindingView)
    ensures
        partition_mounts(raw).contains(f) <==> exists|k: int|
            0 <= k < raw.len() && (image_of((#[trigger] raw[k]).1@) matches Some(img)
                && mounts_warnings(raw[k].0, img.partitions).contains(f)),
        bootloader_types(raw).contains(f) <==> exists|k: int|
            0 <= k < raw.len() && (image_of((#[trigger] raw[k]).1@) matches Some(img)
                && img.bootloader_type is Some && img.bootloader_type->0 != "systemd-boot"@
                && img.bootloader_type->0 != "piboot"@ && f == bootloader_error(
                raw[k].0,
                img.bootloader_type->0,
            )),
{
    let whole = |s: Seq<(Seq<char>, Json)>| partition_mounts(s);
    let last = |s: Seq<(Seq<char>, Json)>|
        match image_of(s.last().1@) {
            Some(img) => mounts_warnings(s.last().0, img.partitions),
            None => Seq::empty(),
        };
    let whole2 = |s: Seq<(Seq<char>, Json)>| bootloader_types(s);
    let last2 = |s: Seq<(Seq<char>, Json)>| bootloader_in(s.last().0, s.last().1@);
    lemma_pieces(raw, whole, last, f);
    lemma_pieces(raw, whole2, last2, f);
    assert(whole(raw) == partition_mounts(raw));
    assert(whole2(raw) == bootloader_types(raw));
    assert forall|k: int| 0 <= k < raw.len() implies #[trigger] raw.take(k + 1).last()
        == raw[k] by {}
    if partition_mounts(raw).contains(f) {
        let k = choose|k: int| 0 <= k < raw.len() && (#[trigger] last(raw.take(k + 1))).contains(f);
        assert(raw.take(k + 1).last() == raw[k]);
    }
    if exists|k: int|
        0 <= k < raw.len() && (image_of((#[trigger] raw[k]).1@) matches Some(img)
            && mounts_warnings(raw[k].0, img.partitions).contains(f)) {
        let k = choose|k: int|
            0 <= k < raw.len() && (image_of((#[trigger] raw[k]).1@) matches Some(img)
                && mounts_warnings(raw[k].0, img.partitions).contains(f));
        assert(raw.take(k + 1).last() == raw[k]);
        assert(last(raw.take(k + 1)).contains(f));
    }
    if bootloader_types(raw).contains(f) {
        let k = choose|k: int|
            0 <= k < raw.len() && (#[trigger] last2(raw.take(k + 1))).contains(f);
        assert(raw.take(k + 1).last() == raw[k]);
        assert(bootloader_in(raw[k].0, raw[k].1@).contains(f));
    }
    if exists|k: int|
        0 <= k < raw.len() && (image_of((#[trigger] raw[k]).1@) matches Some(img)
            && img.bootloader_type is Some && img.bootloader_type->0 != "systemd-boot"@
            && img.bootloader_type->0 != "piboot"@ && f == bootloader_error(
            raw[k].0,
            img.bootloader_type->0,
        )) {
        let k = choose|k: int|
            0 <= k < raw.len() && (image_of((#[trigger] raw[k]).1@) matches Some(img)
                && img.bootloader_type is Some && img.bootloader_type->0 != "systemd-boot"@
                && img.bootloader_type->0 != "piboot"@ && f == bootloader_error(
                raw[k].0,
                img.bootloader_type->0,
            ));
        let here = bootloader_in(raw[k].0, raw[k].1@);
        assert(here[0] == f);
        assert(here.contains(f));
        assert(raw.take(k + 1).last() == raw[k]);
        assert(last2(raw.take(k + 1)).contains(f));
    }
}

/// A bootloader that does not exist is an error.
pub proof fn law_unknown_bootloaders_are_errors(key: Seq<char>, t: Seq<char>)
    ensures
        bootloader_error(key, t).severity is Error,
        bootloader_error(key, t).package == key,
{
}

/// The interpreter of a script is the first word behind the mark, and behind
/// `env` the first word that is neither an option nor a setting.
pub proof fn law_interpreters_are_read(line: Seq<char>)
    ensures
        !"#!"@.is_prefix_of(line) ==> interpreter_of(line) is None,
        "#!"@.is_prefix_of(line) ==> {
            let w = words(line.skip(2));
            if w.len() == 0 {
                interpreter_of(line) is None
            } else if w[0] == "/usr/bin/env"@ || w[0] == "/bin/env"@ {
                match interpreter_of(line) {
                    Some(x) => x.1 && exists|i: int|
                        1 <= i < w.len() && #[trigger] w[i] == x.0 && !"-"@.is_prefix_of(w[i])
                            && !holds(w[i], "="@) && forall|j: int|
                            1 <= j < i ==> "-"@.is_prefix_of(#[trigger] w[j]) || holds(w[j], "="@),
                    None => forall|j: int|
                        1 <= j < w.len() ==> "-"@.is_prefix_of(#[trigger] w[j]) || holds(
                            w[j],
                            "="@,
                        ),
                }
            } else {
                interpreter_of(line) == Some((w[0], false))
            }
        },
{
    reveal_strlit("#!");
    if "#!"@.is_prefix_of(line) {
        lemma_program_token(words(line.skip(2)), 1);
    }
}

proof fn lemma_program_token(tokens: Seq<Seq<char>>, from: int)
    requires
        0 <= from,
    ensures
        match program_token(tokens, from) {
            Some(x) => exists|i: int|
                from <= i < tokens.len() && #[trigger] tokens[i] == x && !"-"@.is_prefix_of(
                    tokens[i],
                ) && !holds(tokens[i], "="@) && forall|j: int|
                    from <= j < i ==> "-"@.is_prefix_of(#[trigger] tokens[j]) || holds(
                        tokens[j],
                        "="@,
                    ),
            None => forall|j: int|
                from <= j < tokens.len() ==> "-"@.is_prefix_of(#[trigger] tokens[j]) || holds(
                    tokens[j],
                    "="@,
                ),
        },
    decreases tokens.len() - from,
{
    if from < tokens.len() {
        if !"-"@.is_prefix_of(tokens[from]) && !holds(tokens[from], "="@) {
            assert(tokens[from] == program_token(tokens, from)->0);
        } else {
            lemma_program_token(tokens, from + 1);
        }
    }
}

/// A script is in order exactly where it names no interpreter, or the payload,
/// the base or a required package has it. Otherwise it is an error of the
/// output, or a warning where `env` looks the interpreter up.
pub proof fn law_scripts_need_their_interpreter(
    key: Seq<char>,
    needed: Seq<Seq<char>>,
    script: StagedScript,
)
    ensures
        ({
            let found = script_findings(key, needed, script);
            match script_interpreter(script.text@) {
                None => found.len() == 0,
                Some(x) => if script.provided || needed.contains(last_part(x.0, "/"@)) || seq![
                    "/bin/sh"@,
                    "/usr/bin/sh"@,
                    "/bin/bash"@,
                    "/usr/bin/bash"@,
                ].contains(x.0) {
                    found.len() == 0
                } else {
                    found.len() == 1 && found[0].package == key && (if x.1 {
                        found[0].severity is Warn
                    } else {
                        found[0].severity is Error
                    })
                },
            }
        }),
{
    let s = seq!["/bin/sh"@, "/usr/bin/sh"@, "/bin/bash"@, "/usr/bin/bash"@];
    assert(s[0] == "/bin/sh"@ && s[1] == "/usr/bin/sh"@ && s[2] == "/bin/bash"@ && s[3]
        == "/usr/bin/bash"@);
    match script_interpreter(script.text@) {
        Some(x) => {
            assert(s.contains(x.0) <==> in_base(x.0));
        },
        None => {},
    }
}

/// Every script of every payload is looked at.
pub proof fn law_every_script_is_checked(staged: Seq<PackageStage>, f: FindingView)
    ensures
        staged_findings(staged).contains(f) <==> exists|k: int, m: int|
            0 <= k < staged.len() && 0 <= m < staged[k].scripts@.len() && script_findings(
                staged[k].key@,
                texts(staged[k].requires@),
                #[trigger] staged[k].scripts@[m],
            ).contains(f),
{
    let whole = |s: Seq<PackageStage>| staged_findings(s);
    let last = |s: Seq<PackageStage>|
        payload_findings(s.last().key@, texts(s.last().requires@), s.last().scripts@);
    lemma_pieces(staged, whole, last, f);
    assert(whole(staged) == staged_findings(staged));
    if staged_findings(staged).contains(f) {
        let k = choose|k: int|
            0 <= k < staged.len() && (#[trigger] last(staged.take(k + 1))).contains(f);
        let p = staged[k];
        assert(staged.take(k + 1).last() == p);
        lemma_payload_findings(p.key@, texts(p.requires@), p.scripts@, f);
        let m = choose|m: int|
            0 <= m < p.scripts@.len() && script_findings(
                p.key@,
                texts(p.requires@),
                #[trigger] p.scripts@[m],
            ).contains(f);
        assert(script_findings(staged[k].key@, texts(staged[k].requires@), staged[k].scripts@[m]).contains(f));
    }
    if exists|k: int, m: int|
        0 <= k < staged.len() && 0 <= m < staged[k].scripts@.len() && script_findings(
            staged[k].key@,
            texts(staged[k].requires@),
            #[trigger] staged[k].scripts@[m],
        ).contains(f) {
        let (k, m) = choose|k: int, m: int|
            0 <= k < staged.len() && 0 <= m < staged[k].scripts@.len() && script_findings(
                staged[k].key@,
                texts(staged[k].requires@),
                #[trigger] staged[k].scripts@[m],
            ).contains(f);
        let p = staged[k];
        lemma_payload_findings(p.key@, texts(p.requires@), p.scripts@, f);
        assert(staged.take(k + 1).last() == p);
        assert(last(staged.take(k + 1)).contains(f));
    }
}

proof fn lemma_payload_findings(
    key: Seq<char>,
    needed: Seq<Seq<char>>,
    scripts: Seq<StagedScript>,
    f: FindingView,
)
    ensures
        payload_findings(key, needed, scripts).contains(f) <==> exists|m: int|
            0 <= m < scripts.len() && script_findings(key, needed, #[trigger] scripts[m]).contains(
                f,
            ),
{
    let whole = |s: Seq<StagedScript>| payload_findings(key, needed, s);
    let last = |s: Seq<StagedScript>| script_findings(key, needed, s.last());
    lemma_pieces(scripts, whole, last, f);
    assert(whole(scripts) == payload_findings(key, needed, scripts));
    if payload_findings(key, needed, scripts).contains(f) {
        let k = choose|k: int|
            0 <= k < scripts.len() && (#[trigger] last(scripts.take(k + 1))).contains(f);
        assert(scripts.take(k + 1).last() == scripts[k]);
        assert(script_findings(key, needed, scripts[k]).contains(f));
    }
    if exists|m: int|
        0 <= m < scripts.len() && script_findings(key, needed, #[trigger] scripts[m]).contains(f) {
        let m = choose|m: int|
            0 <= m < scripts.len() && script_findings(key, needed, #[trigger] scripts[m]).contains(
                f,
            );
        assert(scripts.take(m + 1).last() == scripts[m]);
        assert(last(scripts.take(m + 1)).contains(f));
    }
}

/// The owners of an app are the packages of the pod that ship it, each once and
/// in order.
pub proof fn law_owners_ship_the_app(packages: Seq<PodPackageMeta>, app: Seq<char>)
    ensures
        app_owners(packages, app) == packages.filter(
            |p: PodPackageMeta| p.meta is Some && lookup(p.meta->0.apps@, app) is Some,
        ).map_values(
            |p: PodPackageMeta|
                (p.meta->0.name@, lookup(p.meta->0.apps@, app)->0.desktop is Some),
        ),
    decreases packages.len(),
{
    let keep = |p: PodPackageMeta| p.meta is Some && lookup(p.meta->0.apps@, app) is Some;
    let f = |p: PodPackageMeta|
        (p.meta->0.name@, lookup(p.meta->0.apps@, app)->0.desktop is Some);
    reveal(Seq::filter);
    if packages.len() > 0 {
        let r = packages.drop_last();
        law_owners_ship_the_app(r, app);
        if keep(packages.last()) {
            assert(r.filter(keep).push(packages.last()).map_values(f) =~= r.filter(
                keep,
            ).map_values(f).push(f(packages.last())));
        }
    } else {
        assert(packages.filter(keep).map_values(f) =~= Seq::<(Seq<char>, bool)>::empty());
    }
}

/// An app that two packages or more ship is reported, once for each time it is
/// looked at: as an error where each has a desktop file for it, else as a
/// warning. No other app is.
pub proof fn law_shared_apps_are_reported(
    pod: Seq<char>,
    packages: Seq<PodPackageMeta>,
    apps: Seq<Seq<char>>,
)
    ensures
        duplicate_apps(pod, packages, apps) == apps.filter(
            |a: Seq<char>| app_owners(packages, a).len() >= 2,
        ).map_values(|a: Seq<char>| duplicate_app(pod, a, app_owners(packages, a))),
        forall|a: Seq<char>, owners: Seq<(Seq<char>, bool)>|
            ((#[trigger] duplicate_app(pod, a, owners)).severity is Error <==> forall|i: int|
                0 <= i < owners.len() ==> (#[trigger] owners[i]).1) && duplicate_app(
                pod,
                a,
                owners,
            ).package == pod,
    decreases apps.len(),
{
    let keep = |a: Seq<char>| app_owners(packages, a).len() >= 2;
    let f = |a: Seq<char>| duplicate_app(pod, a, app_owners(packages, a));
    reveal(Seq::filter);
    if apps.len() > 0 {
        let r = apps.drop_last();
        law_shared_apps_are_reported(pod, packages, r);
        if keep(apps.last()) {
            assert(r.filter(keep).push(apps.last()).map_values(f) =~= r.filter(keep).map_values(
                f,
            ).push(f(apps.last())));
        }
    } else {
        assert(apps.filter(keep).map_values(f) =~= Seq::<FindingView>::empty());
    }
}

/// The apps of a pod are those of all packages that resolved, and each package
/// that did not has a warning.
pub proof fn law_every_package_of_a_pod_is_looked_at(
    packages: Seq<PodPackageMeta>,
    app: Seq<char>,
)
    ensures
        app_names(packages).contains(app) <==> exists|k: int|
            0 <= k < packages.len() && (#[trigger] packages[k]).meta is Some && keys_of(
                packages[k].meta->0.apps@,
            ).contains(app),
        unresolved_findings(packages).len() == packages.filter(
            |p: PodPackageMeta| p.meta is None,
        ).len(),
    decreases packages.len(),
{
    let whole = |s: Seq<PodPackageMeta>| app_names(s);
    let last = |s: Seq<PodPackageMeta>|
        match s.last().meta {
            Some(m) => keys_of(m.apps@),
            None => Seq::empty(),
        };
    assert forall|t: Seq<PodPackageMeta>| t.len() > 0 implies #[trigger] whole(t) == whole(
        t.drop_last(),
    ) + last(t) by {
        assert(whole(t.drop_last()) + Seq::<Seq<char>>::empty() =~= whole(t.drop_last()));
    }
    lemma_pieces(packages, whole, last, app);
    assert(whole(packages) == app_names(packages));
    if app_names(packages).contains(app) {
        let k = choose|k: int|
            0 <= k < packages.len() && (#[trigger] last(packages.take(k + 1))).contains(app);
        assert(packages.take(k + 1).last() == packages[k]);
        assert(packages[k].meta is Some);
    }
    if exists|k: int|
        0 <= k < packages.len() && (#[trigger] packages[k]).meta is Some && keys_of(
            packages[k].meta->0.apps@,
        ).contains(app) {
        let k = choose|k: int|
            0 <= k < packages.len() && (#[trigger] packages[k]).meta is Some && keys_of(
                packages[k].meta->0.apps@,
            ).contains(app);
        assert(packages.take(k + 1).last() == packages[k]);
        assert(last(packages.take(k + 1)).contains(app));
    }
    reveal(Seq::filter);
    if packages.len() > 0 {
        law_every_package_of_a_pod_is_looked_at(packages.drop_last(), app);
    }
}

/// An alias of one entry that is another's own name, or another's alias, is
/// warned about; an alias that only one entry has is not.
pub proof fn law_colliding_aliases_are_reported(
    snaps: Seq<IndexEntry>,
    earlier: Seq<(Seq<char>, Seq<char>)>,
    owner: Seq<char>,
    alias: Seq<char>,
)
    ensures
        ({
            let found = alias_warnings(snaps, earlier, owner, alias);
            let taken = alias != owner && exists|j: int|
                0 <= j < snaps.len() && (#[trigger] snaps[j]).name@ == alias;
            let shared = exists|j: int|
                0 <= j < earlier.len() && (#[trigger] earlier[j]).1 == alias && earlier[j].0
                    != owner && forall|i: int|
                    j < i < earlier.len() ==> (#[trigger] earlier[i]).1 != alias;
            &&& found.len() == (if taken {
                1int
            } else {
                0
            }) + (if shared {
                1int
            } else {
                0
            })
            &&& forall|k: int|
                0 <= k < found.len() ==> (#[trigger] found[k]).severity is Warn && found[k].package
                    == owner
        }),
{
    lemma_entry_named(snaps, alias, 0);
    lemma_last_owner(earlier, alias);
}

proof fn lemma_last_owner(pairs: Seq<(Seq<char>, Seq<char>)>, alias: Seq<char>)
    ensures
        match last_owner(pairs, alias) {
            Some(o) => exists|j: int|
                0 <= j < pairs.len() && (#[trigger] pairs[j]).1 == alias && pairs[j].0 == o
                    && forall|i: int| j < i < pairs.len() ==> (#[trigger] pairs[i]).1 != alias,
            None => forall|i: int| 0 <= i < pairs.len() ==> (#[trigger] pairs[i]).1 != alias,
        },
    decreases pairs.len(),
{
    if pairs.len() > 0 {
        let r = pairs.drop_last();
        if pairs.last().1 == alias {
            assert(pairs[pairs.len() - 1].1 == alias);
        } else {
            lemma_last_owner(r, alias);
            match last_owner(r, alias) {
                Some(o) => {
                    let j = choose|j: int|
                        0 <= j < r.len() && (#[trigger] r[j]).1 == alias && r[j].0 == o && forall|
                            i: int,
                        |
                            j < i < r.len() ==> (#[trigger] r[i]).1 != alias;
                    assert(pairs[j] == r[j]);
                    assert forall|i: int| j < i < pairs.len() implies (#[trigger] pairs[i]).1
                        != alias by {
                        if i < r.len() {
                            assert(r[i] == pairs[i]);
                        }
                    }
                },
                None => {
                    assert forall|i: int| 0 <= i < pairs.len() implies (#[trigger] pairs[i]).1
                        != alias by {
                        if i < r.len() {
                            assert(r[i] == pairs[i]);
                        }
                    }
                },
            }
        }
    }
}

/// A finding is reported exactly where one of the checks finds it.
pub proof fn law_every_check_is_run(input: LintInput, f: FindingView)
    ensures
        battery(check_kinds(), input).contains(f) <==> (dead_store_pins(
            input,
            input.raw@,
        ).contains(f) || store_aliases(input).contains(f) || partition_mounts(
            input.raw@,
        ).contains(f) || bootloader_types(input.raw@).contains(f) || staged_findings(
            input.staged@,
        ).contains(f) || (input.pod is Some && pod_findings(input.pod->0).contains(f))
            || unparsed_findings(texts(input.unparsed@)).contains(f)),
{
    let kinds = check_kinds();
    let whole = |s: Seq<CheckKind>| battery(s, input);
    let last = |s: Seq<CheckKind>| check_findings(s.last(), input);
    lemma_pieces(kinds, whole, last, f);
    assert(whole(kinds) == battery(kinds, input));
    assert forall|k: int| 0 <= k < 7 implies #[trigger] last(kinds.take(k + 1)) == check_findings(
        kinds[k],
        input,
    ) by {
        assert(kinds.take(k + 1).last() == kinds[k]);
    }
    if battery(kinds, input).contains(f) {
        let k = choose|k: int|
            0 <= k < kinds.len() && (#[trigger] last(kinds.take(k + 1))).contains(f);
        assert(check_findings(kinds[k], input).contains(f));
    }
    assert(last(kinds.take(0int + 1)) == dead_store_pins(input, input.raw@));
    assert(last(kinds.take(1int + 1)) == store_aliases(input));
    assert(last(kinds.take(2int + 1)) == partition_mounts(input.raw@));
    assert(last(kinds.take(3int + 1)) == bootloader_types(input.raw@));
    assert(last(kinds.take(4int + 1)) == staged_findings(input.staged@));
    assert(last(kinds.take(6int + 1)) == unparsed_findings(texts(input.unparsed@)));
    if input.pod is Some {
        assert(last(kinds.take(5int + 1)) == pod_findings(input.pod->0));
    }
}

/// Every partition with a name and a mount point is mounted, and no other.
pub proof fn law_named_mounts_are_listed(v: Seq<JsonView>, n: Seq<char>, m: Seq<char>)
    ensures
        mounts_of(v).contains((n, m)) <==> exists|i: int|
            0 <= i < v.len() && (#[trigger] v[i]).text_at("name"@) == Some(n) && v[i].text_at(
                "mount"@,
            ) == Some(m),
    decreases v.len(),
{
    let all = mounts_of(v);
    if v.len() > 0 {
        let tail = v.skip(1);
        let rest = mounts_of(tail);
        law_named_mounts_are_listed(tail, n, m);
        let own = v[0].text_at("name"@) is Some && v[0].text_at("mount"@) is Some;
        assert(all =~= (if own {
            seq![(v[0].text_at("name"@)->0, v[0].text_at("mount"@)->0)] + rest
        } else {
            rest
        }));
        if all.contains((n, m)) {
            let k = choose|k: int| 0 <= k < all.len() && all[k] == (n, m);
            if own && k == 0 {
                assert(v[0].text_at("name"@) == Some(n));
            } else {
                assert(rest[if own {
                    k - 1
                } else {
                    k
                }] == (n, m));
                assert(rest.contains((n, m)));
                let i = choose|i: int|
                    0 <= i < tail.len() && (#[trigger] tail[i]).text_at("name"@) == Some(n)
                        && tail[i].text_at("mount"@) == Some(m);
                assert(v[i + 1] == tail[i]);
            }
        }
        if exists|i: int|
            0 <= i < v.len() && (#[trigger] v[i]).text_at("name"@) == Some(n) && v[i].text_at(
                "mount"@,
            ) == Some(m) {
            let i = choose|i: int|
                0 <= i < v.len() && (#[trigger] v[i]).text_at("name"@) == Some(n) && v[i].text_at(
                    "mount"@,
                ) == Some(m);
            if i == 0 {
                assert(all[0] == (n, m));
            } else {
                assert(tail[i - 1] == v[i]);
                assert(rest.contains((n, m)));
                let k = choose|k: int| 0 <= k < rest.len() && rest[k] == (n, m);
                assert(all[if own {
                    k + 1
                } else {
                    k
                }] == (n, m));
            }
        }
    }
}

/// Of several that own an alias, or are mounted at a place, the last counts.
pub proof fn law_the_last_owner_counts(
    pairs: Seq<(Seq<char>, Seq<char>)>,
    owner: Seq<char>,
    alias: Seq<char>,
    other: Seq<char>,
)
    ensures
        last_owner(pairs.push((owner, alias)), alias) == Some(owner),
        other != alias ==> last_owner(pairs.push((owner, other)), alias) == last_owner(
            pairs,
            alias,
        ),
        last_owner(Seq::empty(), alias) is None,
        last_mounted(pairs.push((owner, alias)), alias) == Some(owner),
        other != alias ==> last_mounted(pairs.push((owner, other)), alias) == last_mounted(
            pairs,
            alias,
        ),
        last_mounted(Seq::empty(), alias) is None,
{
    assert(pairs.push((owner, alias)).drop_last() =~= pairs);
    assert(pairs.push((owner, other)).drop_last() =~= pairs);
}

/// Every name that images give is among the names, and no other.
pub proof fn law_names_are_those_of_the_images(raw: Seq<(Seq<char>, Json)>, n: Seq<char>)
    ensures
        names_of(raw).contains(n) <==> exists|k: int|
            0 <= k < raw.len() && #[trigger] names_in(raw[k].1@).contains(n),
{
    let whole = |s: Seq<(Seq<char>, Json)>| names_of(s);
    let last = |s: Seq<(Seq<char>, Json)>| names_in(s.last().1@);
    lemma_pieces(raw, whole, last, n);
    assert(whole(raw) == names_of(raw));
    if names_of(raw).contains(n) {
        let k = choose|k: int| 0 <= k < raw.len() && (#[trigger] last(raw.take(k + 1))).contains(n);
        assert(raw.take(k + 1).last() == raw[k]);
        assert(names_in(raw[k].1@).contains(n));
    }
    if exists|k: int| 0 <= k < raw.len() && #[trigger] names_in(raw[k].1@).contains(n) {
        let k = choose|k: int| 0 <= k < raw.len() && #[trigger] names_in(raw[k].1@).contains(n);
        assert(raw.take(k + 1).last() == raw[k]);
        assert(last(raw.take(k + 1)).contains(n));
    }
}

/// The shells of a base are the Bourne shell and Bash, by either path.
pub proof fn law_bases_have_their_shells(dir: Seq<char>, name: Seq<char>)
    requires
        dir == "/bin/"@ || dir == "/usr/bin/"@,
        name == "sh"@ || name == "bash"@,
    ensures
        in_base(dir + name),
{
    reveal_strlit("/bin/");
    reveal_strlit("/usr/bin/");
    reveal_strlit("sh");
    reveal_strlit("bash");
    reveal_strlit("/bin/sh");
    reveal_strlit("/usr/bin/sh");
    reveal_strlit("/bin/bash");
    reveal_strlit("/usr/bin/bash");
    assert("/bin/"@ + "sh"@ =~= "/bin/sh"@);
    assert("/bin/"@ + "bash"@ =~= "/bin/bash"@);
    assert("/usr/bin/"@ + "sh"@ =~= "/usr/bin/sh"@);
    assert("/usr/bin/"@ + "bash"@ =~= "/usr/bin/bash"@);
}

} // verus!
