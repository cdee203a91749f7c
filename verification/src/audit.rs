//! The audit of a lockfile against the OSV vulnerability database: what is
//! asked of the database, and what its replies say of the pins.
//!
//! A pin's confidence bounds what a hit can mean. A version that a registry
//! address or the lockfile proves gives an error; a store revision is no
//! upstream version, so its hits are one warning; a pin that gives nothing to
//! ask for is reported, never passed over.

use crate::checks::{finding_order, finding_views, sort_findings, Finding, FindingView, Severity};
use crate::digest::{hex_sha256, sha256};
use crate::fetch::{shorten, shortened};
use crate::json::{
    escaped, escaped_char, law_strings_delimit_themselves, lemma_assoc, lemma_same_prefix, quote,
    quoted,
};
use crate::json_doc::{
    json_document, json_text, json_views, member_from, member_texts, parse_json, plain, Json,
    JsonView,
};
use crate::meta::{LockFile, LockedPackage, LockedSnap};
use crate::ordered::{sorted_by, Ordered};
use crate::source_url::{classify_source_url, url_parts};
use crate::text::{
    chars_of, decimal, hex_text, join, joined, lemma_filter_first, lines, opt_str, opt_text, split_lines, starts_with,
    str_eq, string_of, text_lt, texts, to_decimal, path_in, join_path,
};
use vstd::prelude::*;
use vstd::utf8::encode_utf8;

verus! {

/// The name of the check on every finding of an audit.
pub const CHECK: &'static str = "osv";

/// The endpoint that queries go to.
pub const OSV_BATCH_URL: &'static str = "https://api.osv.dev/v1/querybatch";

/// How many queries one request may hold.
pub const BATCH_CHUNK: usize = 1000;

/// How surely a pin stands for something that the database names.
#[derive(Debug, Clone, Copy, PartialEq, Eq, PartialOrd, Ord, Structural)]
pub enum Confidence {
    /// A registry address proves ecosystem and version.
    Exact,
    /// A version is known, but no ecosystem.
    Extracted,
    /// Only a name is known.
    NameOnly,
    /// Nothing can be asked for.
    Unmapped,
}

/// One pin of a lockfile.
#[derive(Debug)]
pub struct AuditTarget {
    /// The label of its findings: the output that declares it, else the name,
    /// else the address.
    pub package: String,
    /// The section of the lockfile: `source`, `package` or `snap`.
    pub kind: &'static str,
    pub name: String,
    pub version: Option<String>,
    pub ecosystem: Option<&'static str>,
    pub revision: Option<u32>,
    pub confidence: Confidence,
    /// Where name and version come from.
    pub provenance: String,
}

/// The model of an [`AuditTarget`].
pub struct TargetView {
    pub package: Seq<char>,
    pub kind: Seq<char>,
    pub name: Seq<char>,
    pub version: Option<Seq<char>>,
    pub ecosystem: Option<Seq<char>>,
    pub revision: Option<u32>,
    pub confidence: Confidence,
    pub provenance: Seq<char>,
}

impl View for AuditTarget {
    type V = TargetView;

    open spec fn view(&self) -> TargetView {
        TargetView {
            package: self.package@,
            kind: self.kind@,
            name: self.name@,
            version: opt_text(self.version),
            ecosystem: opt_str(self.ecosystem),
            revision: self.revision,
            confidence: self.confidence,
            provenance: self.provenance@,
        }
    }
}

/// The models of a list of targets.
pub open spec fn target_views(v: Seq<AuditTarget>) -> Seq<TargetView> {
    v.map_values(|t: AuditTarget| t@)
}

// ── Declarations ──

/// What a definition declares of a source: the output and its version.
#[derive(Debug)]
pub struct Declared {
    pub key: String,
    pub version: Option<String>,
}

/// The texts of a list of values that are texts.
pub open spec fn text_items(v: Seq<JsonView>) -> Seq<Seq<char>>
    decreases v.len(),
{
    if v.len() == 0 {
        Seq::empty()
    } else {
        match v[0].text() {
            Some(s) => seq![s] + text_items(v.skip(1)),
            None => text_items(v.skip(1)),
        }
    }
}

/// Whether an output declares a source address, alone or in a list.
pub open spec fn declares(value: JsonView, url: Seq<char>) -> bool {
    value.text_at("source"@) == Some(url) || (value.items_at("sources"@) matches Some(v)
        && text_items(v).contains(url))
}

/// The output that declares an address, and its version: the first one by
/// name.
pub open spec fn declared_of(raw: Seq<(Seq<char>, Json)>, url: Seq<char>) -> Option<
    (Seq<char>, Option<Seq<char>>),
>
    decreases raw.len(),
{
    if raw.len() == 0 {
        None
    } else if declares(raw[0].1@, url) {
        Some((raw[0].0, raw[0].1@.text_at("version"@)))
    } else {
        declared_of(raw.skip(1), url)
    }
}

/// The model of an optional declaration.
pub open spec fn declared_view(d: Option<Declared>) -> Option<(Seq<char>, Option<Seq<char>>)> {
    match d {
        Some(x) => Some((x.key@, opt_text(x.version))),
        None => None,
    }
}

fn list_declares(v: &Vec<Json>, url: &str) -> (r: bool)
    ensures
        r == text_items(json_views(v@)).contains(url@),
{
    let ghost all = json_views(v@);
    let mut i: usize = 0;
    assert(all.skip(0) =~= all);
    while i < v.len()
        invariant
            i <= v.len(),
            all == json_views(v@),
            text_items(all).contains(url@) == text_items(all.skip(i as int)).contains(url@),
        decreases v.len() - i,
    {
        let ghost here = all.skip(i as int);
        let ghost more = text_items(all.skip(i + 1));
        assert(here[0] == v@[i as int]@);
        assert(here.skip(1) =~= all.skip(i + 1));
        match v[i].as_text() {
            Some(s) => {
                if str_eq(s.as_str(), url) {
                    assert(text_items(here)[0] == url@);
                    return true;
                }
                proof {
                    let t = text_items(here);
                    assert(t =~= seq![s@] + more);
                    if more.contains(url@) {
                        let k = choose|k: int| 0 <= k < more.len() && more[k] == url@;
                        assert(t[k + 1] == url@);
                    }
                    if t.contains(url@) {
                        let k = choose|k: int| 0 <= k < t.len() && t[k] == url@;
                        assert(more[k - 1] == url@);
                    }
                }
            },
            None => {},
        }
        i += 1;
    }
    assert(all.skip(i as int) =~= Seq::<JsonView>::empty());
    false
}

/// The output that declares a source address: the first one by name.
pub fn declared_source(raw: &Ordered<Json>, url: &str) -> (r: Option<Declared>)
    ensures
        declared_view(r) == declared_of(raw@, url@),
{
    let mut i: usize = 0;
    assert(raw@.skip(0) =~= raw@);
    while i < raw.len()
        invariant
            i <= raw@.len(),
            declared_of(raw@, url@) == declared_of(raw@.skip(i as int), url@),
        decreases raw@.len() - i,
    {
        assert(raw@.skip(i as int)[0] == raw@[i as int]);
        assert(raw@.skip(i as int).skip(1) =~= raw@.skip(i + 1));
        let value = raw.value_at(i);
        let alone = match value.text_at("source") {
            Some(s) => str_eq(s.as_str(), url),
            None => false,
        };
        let listed = match value.items_at("sources") {
            Some(v) => list_declares(v, url),
            None => false,
        };
        if alone || listed {
            let version = match value.text_at("version") {
                Some(v) => Some(v.clone()),
                None => None,
            };
            return Some(Declared { key: raw.key_at(i).clone(), version });
        }
        i += 1;
    }
    None
}

// ── Targets ──

/// The target of a source pin. An identity from a registry counts first; then
/// a declared version, then one from the tag in the address. Without a version the pin
/// stays unmapped: names alone are asked for only for store snaps.
pub open spec fn source_view(
    url: Seq<char>,
    declared: Option<(Seq<char>, Option<Seq<char>>)>,
) -> TargetView {
    let p = url_parts(url);
    let package = match declared {
        Some(d) => d.0,
        None => match p.name {
            Some(n) => n,
            None => url,
        },
    };
    let blank = TargetView {
        package,
        kind: "source"@,
        name: Seq::empty(),
        version: None,
        ecosystem: None,
        revision: None,
        confidence: Confidence::Unmapped,
        provenance: "no upstream name/version derivable from the URL"@,
    };
    match p.name {
        None => blank,
        Some(name) => match p.ecosystem {
            Some(eco) => TargetView {
                name,
                version: p.version,
                ecosystem: Some(eco),
                confidence: Confidence::Exact,
                provenance: "version from the "@ + eco + " registry URL"@,
                ..blank
            },
            None => match declared {
                Some((key, Some(v))) => TargetView {
                    name,
                    version: Some(v),
                    confidence: Confidence::Extracted,
                    provenance: "declared version of output '"@ + key + "'"@,
                    ..blank
                },
                _ => match p.version {
                    Some(v) => TargetView {
                        name,
                        version: Some(v),
                        confidence: Confidence::Extracted,
                        provenance: "version from the source URL tag"@,
                        ..blank
                    },
                    None => TargetView {
                        name,
                        provenance: "versionless source URL — no upstream version derivable"@,
                        ..blank
                    },
                },
            },
        },
    }
}

/// The target of a source pin.
pub fn source_target(url: &str, declared: Option<Declared>) -> (r: AuditTarget)
    ensures
        r@ == source_view(url@, declared_view(declared)),
{
    let p = classify_source_url(url);
    let package = match &declared {
        Some(d) => d.key.clone(),
        None => match &p.name {
            Some(n) => n.clone(),
            None => url.to_owned(),
        },
    };
    match p.name {
        None => {
            let name = String::new();
            assert(name@ =~= Seq::<char>::empty());
            AuditTarget {
                package,
                kind: "source",
                name,
                version: None,
                ecosystem: None,
                revision: None,
                confidence: Confidence::Unmapped,
                provenance: "no upstream name/version derivable from the URL".to_owned(),
            }
        },
        Some(name) => match p.ecosystem {
            Some(eco) => {
                let mut provenance = "version from the ".to_owned();
                provenance.append(eco);
                provenance.append(" registry URL");
                AuditTarget {
                    package,
                    kind: "source",
                    name,
                    version: p.version,
                    ecosystem: Some(eco),
                    revision: None,
                    confidence: Confidence::Exact,
                    provenance,
                }
            },
            None => {
                let (key, stated) = match declared {
                    Some(d) => (d.key, d.version),
                    None => (String::new(), None),
                };
                match stated {
                    Some(v) => {
                        let mut provenance = "declared version of output '".to_owned();
                        provenance.append(key.as_str());
                        provenance.append("'");
                        AuditTarget {
                            package,
                            kind: "source",
                            name,
                            version: Some(v),
                            ecosystem: None,
                            revision: None,
                            confidence: Confidence::Extracted,
                            provenance,
                        }
                    },
                    None => match p.version {
                        Some(v) => AuditTarget {
                            package,
                            kind: "source",
                            name,
                            version: Some(v),
                            ecosystem: None,
                            revision: None,
                            confidence: Confidence::Extracted,
                            provenance: "version from the source URL tag".to_owned(),
                        },
                        None => AuditTarget {
                            package,
                            kind: "source",
                            name,
                            version: None,
                            ecosystem: None,
                            revision: None,
                            confidence: Confidence::Unmapped,
                            provenance: "versionless source URL — no upstream version derivable".to_owned(),
                        },
                    },
                }
            },
        },
    }
}

/// The target of a package pin: its resolved version makes it one to ask for.
pub open spec fn package_view(name: Seq<char>, version: Seq<char>) -> TargetView {
    let bare = version.len() == 0;
    TargetView {
        package: name,
        kind: "package"@,
        name,
        version: if bare {
            None
        } else {
            Some(version)
        },
        ecosystem: None,
        revision: None,
        confidence: if bare {
            Confidence::Unmapped
        } else {
            Confidence::Extracted
        },
        provenance: if bare {
            "the lockfile records no resolved version"@
        } else {
            "resolved version pinned in the lockfile"@
        },
    }
}

/// The target of a package pin.
pub fn package_target(name: &str, version: &str) -> (r: AuditTarget)
    ensures
        r@ == package_view(name@, version@),
{
    if version.is_empty() {
        return AuditTarget {
            package: name.to_owned(),
            kind: "package",
            name: name.to_owned(),
            version: None,
            ecosystem: None,
            revision: None,
            confidence: Confidence::Unmapped,
            provenance: "the lockfile records no resolved version".to_owned(),
        };
    }
    AuditTarget {
        package: name.to_owned(),
        kind: "package",
        name: name.to_owned(),
        version: Some(version.to_owned()),
        ecosystem: None,
        revision: None,
        confidence: Confidence::Extracted,
        provenance: "resolved version pinned in the lockfile".to_owned(),
    }
}

/// The target of a store snap: its name and its revision.
pub open spec fn snap_view(name: Seq<char>, revision: u32) -> TargetView {
    TargetView {
        package: name,
        kind: "snap"@,
        name,
        version: None,
        ecosystem: None,
        revision: Some(revision),
        confidence: Confidence::NameOnly,
        provenance: "store revision "@ + decimal(revision as nat)
            + " — no upstream version recorded in the lockfile"@,
    }
}

fn snap_target(name: &str, revision: u32) -> (r: AuditTarget)
    ensures
        r@ == snap_view(name@, revision),
{
    let mut provenance = "store revision ".to_owned();
    provenance.append(to_decimal(revision as u64).as_str());
    provenance.append(" — no upstream version recorded in the lockfile");
    AuditTarget {
        package: name.to_owned(),
        kind: "snap",
        name: name.to_owned(),
        version: None,
        ecosystem: None,
        revision: Some(revision),
        confidence: Confidence::NameOnly,
        provenance,
    }
}

/// The targets of source pins.
pub open spec fn source_views(
    sources: Seq<(Seq<char>, String)>,
    raw: Option<Seq<(Seq<char>, Json)>>,
) -> Seq<TargetView> {
    sources.map_values(
        |e: (Seq<char>, String)|
            source_view(
                e.0,
                match raw {
                    Some(r) => declared_of(r, e.0),
                    None => None,
                },
            ),
    )
}

/// The targets of package pins.
pub open spec fn package_views(packages: Seq<(Seq<char>, LockedPackage)>) -> Seq<TargetView> {
    packages.map_values(|e: (Seq<char>, LockedPackage)| package_view(e.0, e.1.version@))
}

/// The targets of store snaps.
pub open spec fn snap_views(snaps: Seq<(Seq<char>, LockedSnap)>) -> Seq<TargetView> {
    snaps.map_values(|e: (Seq<char>, LockedSnap)| snap_view(e.0, e.1.revision))
}

/// The outputs of a definition, where one is given.
pub open spec fn raw_view(raw: Option<&Ordered<Json>>) -> Option<Seq<(Seq<char>, Json)>> {
    match raw {
        Some(r) => Some(r@),
        None => None,
    }
}

/// Every pin of a lockfile as a target: sources, packages, snaps, each by
/// name.
pub open spec fn all_targets(
    lock: LockFile,
    raw: Option<Seq<(Seq<char>, Json)>>,
) -> Seq<TargetView> {
    source_views(lock.sources@, raw) + package_views(lock.packages@) + snap_views(lock.snaps@)
}

/// Every pin of a lockfile as a target: sources, packages, snaps, each by
/// name. The outputs of a definition add declared versions and labels.
pub fn collect_targets(lock: &LockFile, raw: Option<&Ordered<Json>>) -> (r: Vec<AuditTarget>)
    ensures
        target_views(r@) == all_targets(*lock, raw_view(raw)),
{
    let ghost sources = source_views(lock.sources@, raw_view(raw));
    let ghost packages = package_views(lock.packages@);
    let ghost snaps = snap_views(lock.snaps@);
    let mut out: Vec<AuditTarget> = Vec::new();
    let mut i: usize = 0;
    while i < lock.sources.len()
        invariant
            i <= lock.sources@.len(),
            sources == source_views(lock.sources@, raw_view(raw)),
            target_views(out@) == sources.take(i as int),
        decreases lock.sources@.len() - i,
    {
        let ghost before = out@;
        let url = lock.sources.key_at(i).as_str();
        let declared = match raw {
            Some(r) => declared_source(r, url),
            None => None,
        };
        let t = source_target(url, declared);
        let ghost v = t@;
        out.push(t);
        proof {
            assert(v == sources[i as int]);
            assert(target_views(out@) =~= target_views(before).push(v));
            assert(sources.take(i + 1) =~= sources.take(i as int).push(v));
        }
        i += 1;
    }
    assert(sources.take(sources.len() as int) =~= sources);
    let mut j: usize = 0;
    assert(sources + packages.take(0) =~= sources);
    while j < lock.packages.len()
        invariant
            j <= lock.packages@.len(),
            packages == package_views(lock.packages@),
            target_views(out@) == sources + packages.take(j as int),
        decreases lock.packages@.len() - j,
    {
        let ghost before = out@;
        let t = package_target(
            lock.packages.key_at(j).as_str(),
            lock.packages.value_at(j).version.as_str(),
        );
        let ghost v = t@;
        out.push(t);
        proof {
            assert(v == packages[j as int]);
            assert(target_views(out@) =~= target_views(before).push(v));
            assert(sources + packages.take(j + 1) =~= (sources + packages.take(j as int)).push(v));
        }
        j += 1;
    }
    assert(packages.take(packages.len() as int) =~= packages);
    let mut k: usize = 0;
    assert(sources + packages + snaps.take(0) =~= sources + packages);
    while k < lock.snaps.len()
        invariant
            k <= lock.snaps@.len(),
            snaps == snap_views(lock.snaps@),
            target_views(out@) == sources + packages + snaps.take(k as int),
        decreases lock.snaps@.len() - k,
    {
        let ghost before = out@;
        let t = snap_target(lock.snaps.key_at(k).as_str(), lock.snaps.value_at(k).revision);
        let ghost v = t@;
        out.push(t);
        proof {
            assert(v == snaps[k as int]);
            assert(target_views(out@) =~= target_views(before).push(v));
            assert(sources + packages + snaps.take(k + 1) =~= (sources + packages + snaps.take(
                k as int,
            )).push(v));
        }
        k += 1;
    }
    assert(snaps.take(snaps.len() as int) =~= snaps);
    out
}

/// Where an audit asks, and where it keeps the replies.
#[derive(Debug)]
pub struct AuditConfig {
    pub url: String,
    pub cache_dir: String,
    /// Whether kept replies are passed by and everything is fetched again.
    pub update: bool,
}

/// The home directory, or the current one where none is known.
pub open spec fn home_or_here(home: Option<Seq<char>>) -> Seq<char> {
    match home {
        Some(h) => h,
        None => "."@,
    }
}

impl AuditConfig {
    /// The configuration from what the environment gives: the endpoint and the
    /// cache directory, each with a default.
    pub fn resolve(
        url: Option<String>,
        cache: Option<String>,
        home: Option<String>,
        update: bool,
    ) -> (r: Self)
        ensures
            r.url@ == (match opt_text(url) {
                Some(u) => u,
                None => OSV_BATCH_URL@,
            }),
            r.cache_dir@ == (match opt_text(cache) {
                Some(c) => c,
                None => path_in(
                    path_in(path_in(home_or_here(opt_text(home)), ".cache"@), "shuttle"@),
                    "audit"@,
                ),
            }),
            r.update == update,
    {
        let url = match url {
            Some(u) => u,
            None => OSV_BATCH_URL.to_owned(),
        };
        let cache_dir = match cache {
            Some(c) => c,
            None => {
                let home = match home {
                    Some(h) => h,
                    None => ".".to_owned(),
                };
                let a = join_path(home.as_str(), ".cache");
                let b = join_path(a.as_str(), "shuttle");
                join_path(b.as_str(), "audit")
            },
        };
        AuditConfig { url, cache_dir, update }
    }
}

// ── Queries ──

/// The ecosystems that a version without an ecosystem is asked for in:
/// registries, where name and version stand for one artifact.
pub const EXTRACTED_ECOSYSTEMS: [&'static str; 4] = ["PyPI", "npm", "crates.io", "Go"];

/// The ecosystems that a store snap is looked up in by its name.
pub const SNAP_ECOSYSTEMS: [&'static str; 2] = ["Debian", "Ubuntu"];

/// The texts of a list of names.
pub open spec fn name_views(v: Seq<&'static str>) -> Seq<Seq<char>> {
    v.map_values(|s: &'static str| s@)
}

/// The ecosystems that a target is asked for in, in order.
pub open spec fn candidates(t: TargetView) -> Seq<Seq<char>> {
    match t.confidence {
        Confidence::Exact => match t.ecosystem {
            Some(e) => seq![e],
            None => Seq::empty(),
        },
        Confidence::Extracted => seq!["PyPI"@, "npm"@, "crates.io"@, "Go"@],
        Confidence::NameOnly => seq!["Debian"@, "Ubuntu"@],
        Confidence::Unmapped => Seq::empty(),
    }
}

/// The ecosystems that a target is asked for in, in order.
pub fn candidate_ecosystems(t: &AuditTarget) -> (r: Vec<&'static str>)
    ensures
        name_views(r@) == candidates(t@),
{
    let mut out: Vec<&'static str> = Vec::new();
    match t.confidence {
        Confidence::Exact => {
            match t.ecosystem {
                Some(e) => {
                    out.push(e);
                    assert(name_views(out@) =~= seq![e@]);
                },
                None => {
                    assert(name_views(out@) =~= Seq::<Seq<char>>::empty());
                },
            }
        },
        Confidence::Extracted => {
            out.push(EXTRACTED_ECOSYSTEMS[0]);
            out.push(EXTRACTED_ECOSYSTEMS[1]);
            out.push(EXTRACTED_ECOSYSTEMS[2]);
            out.push(EXTRACTED_ECOSYSTEMS[3]);
            assert(name_views(out@) =~= seq!["PyPI"@, "npm"@, "crates.io"@, "Go"@]);
        },
        Confidence::NameOnly => {
            out.push(SNAP_ECOSYSTEMS[0]);
            out.push(SNAP_ECOSYSTEMS[1]);
            assert(name_views(out@) =~= seq!["Debian"@, "Ubuntu"@]);
        },
        Confidence::Unmapped => {
            assert(name_views(out@) =~= Seq::<Seq<char>>::empty());
        },
    }
    out
}

/// One question to the database.
#[derive(Debug)]
pub struct OsvQuery {
    pub name: String,
    pub ecosystem: &'static str,
    pub version: Option<String>,
}

/// The model of an [`OsvQuery`].
pub struct QueryView {
    pub name: Seq<char>,
    pub ecosystem: Seq<char>,
    pub version: Option<Seq<char>>,
}

impl View for OsvQuery {
    type V = QueryView;

    open spec fn view(&self) -> QueryView {
        QueryView {
            name: self.name@,
            ecosystem: self.ecosystem@,
            version: opt_text(self.version),
        }
    }
}

/// The models of a list of queries.
pub open spec fn query_views(v: Seq<OsvQuery>) -> Seq<QueryView> {
    v.map_values(|q: OsvQuery| q@)
}

/// The question about a target in an ecosystem; `None` where there is nothing
/// to ask for. A name alone is asked for only for store snaps.
pub open spec fn query_of(t: TargetView, eco: Seq<char>) -> Option<QueryView> {
    if t.name.len() == 0 {
        None
    } else {
        match t.confidence {
            Confidence::Unmapped => None,
            Confidence::NameOnly => Some(
                QueryView { name: t.name, ecosystem: eco, version: None },
            ),
            _ => match t.version {
                Some(v) => Some(QueryView { name: t.name, ecosystem: eco, version: Some(v) }),
                None => None,
            },
        }
    }
}

/// The question about a target in an ecosystem.
pub fn osv_query(t: &AuditTarget, eco: &'static str) -> (r: Option<OsvQuery>)
    ensures
        match r {
            Some(q) => query_of(t@, eco@) == Some(q@),
            None => query_of(t@, eco@) is None,
        },
{
    if t.name.as_str().is_empty() {
        return None;
    }
    match t.confidence {
        Confidence::Unmapped => None,
        Confidence::NameOnly => Some(
            OsvQuery { name: t.name.clone(), ecosystem: eco, version: None },
        ),
        _ => match &t.version {
            Some(v) => Some(
                OsvQuery { name: t.name.clone(), ecosystem: eco, version: Some(v.clone()) },
            ),
            None => None,
        },
    }
}

/// A question as canonical JSON: the keys in their order.
pub open spec fn query_text(q: QueryView) -> Seq<char> {
    "{\"package\":{\"ecosystem\":"@ + quoted(q.ecosystem) + ",\"name\":"@ + quoted(q.name) + (
    match q.version {
        Some(v) => ",\"version\":"@ + quoted(v),
        None => Seq::empty(),
    }) + "}}"@
}

impl OsvQuery {
    /// The question as canonical JSON.
    pub fn to_json(&self) -> (r: String)
        ensures
            r@ == query_text(self@),
    {
        let mut out = "{\"package\":{\"ecosystem\":".to_owned();
        out.append(quote(self.ecosystem).as_str());
        out.append(",\"name\":");
        out.append(quote(self.name.as_str()).as_str());
        let mut tail = String::new();
        assert(tail@ =~= Seq::<char>::empty());
        match &self.version {
            Some(v) => {
                tail = ",\"version\":".to_owned();
                tail.append(quote(v.as_str()).as_str());
            },
            None => {},
        }
        out.append(tail.as_str());
        out.append("}}");
        out
    }

    /// Whether two questions are the same.
    fn same(&self, other: &OsvQuery) -> (r: bool)
        ensures
            r == (self@ == other@),
    {
        let versions = match (&self.version, &other.version) {
            (Some(a), Some(b)) => str_eq(a.as_str(), b.as_str()),
            (None, None) => true,
            _ => false,
        };
        versions && str_eq(self.name.as_str(), other.name.as_str()) && str_eq(
            self.ecosystem,
            other.ecosystem,
        )
    }
}

/// The file that keeps the reply to a question.
pub open spec fn cache_name(q: QueryView) -> Seq<char> {
    "osv-"@ + hex_text(sha256(encode_utf8(query_text(q)))) + ".json"@
}

/// The file that keeps the reply to a question.
pub fn cache_file(q: &OsvQuery) -> (r: String)
    ensures
        r@ == cache_name(q@),
{
    let mut out = "osv-".to_owned();
    out.append(hex_sha256(q.to_json().as_str().as_bytes()).as_str());
    out.append(".json");
    out
}

/// The questions about a target, in order.
pub open spec fn target_queries(t: TargetView) -> Seq<QueryView> {
    if queryable(t) {
        candidates(t).map_values(|e: Seq<char>| query_of(t, e)->0)
    } else {
        Seq::empty()
    }
}

/// Whether there is anything to ask of a target.
pub open spec fn queryable(t: TargetView) -> bool {
    t.name.len() > 0 && (t.confidence is NameOnly || ((t.confidence is Exact
        || t.confidence is Extracted) && t.version is Some))
}

/// The questions about all targets, in order.
pub open spec fn asked(ts: Seq<TargetView>) -> Seq<QueryView>
    decreases ts.len(),
{
    if ts.len() == 0 {
        Seq::empty()
    } else {
        asked(ts.drop_last()) + target_queries(ts.last())
    }
}

/// Each value only where it comes first.
pub open spec fn firsts<A>(s: Seq<A>) -> Seq<A>
    decreases s.len(),
{
    if s.len() == 0 {
        s
    } else if firsts(s.drop_last()).contains(s.last()) {
        firsts(s.drop_last())
    } else {
        firsts(s.drop_last()).push(s.last())
    }
}

/// `firsts` keeps every value, each once.
proof fn lemma_firsts<A>(s: Seq<A>)
    ensures
        firsts(s).no_duplicates(),
        forall|x: A| firsts(s).contains(x) <==> s.contains(x),
    decreases s.len(),
{
    if s.len() > 0 {
        let r = s.drop_last();
        lemma_firsts(r);
        let f = firsts(s);
        assert forall|x: A| f.contains(x) <==> s.contains(x) by {
            assert(firsts(r).contains(x) <==> r.contains(x));
            if f.contains(x) {
                let k = choose|k: int| 0 <= k < f.len() && f[k] == x;
                if k < firsts(r).len() {
                    assert(firsts(r)[k] == x);
                    assert(r.contains(x));
                    let j = choose|j: int| 0 <= j < r.len() && r[j] == x;
                    assert(s[j] == x);
                } else {
                    assert(s[s.len() - 1] == x);
                }
            }
            if s.contains(x) {
                let k = choose|k: int| 0 <= k < s.len() && s[k] == x;
                if k < r.len() {
                    assert(r[k] == x);
                    assert(firsts(r).contains(x));
                    let j = choose|j: int| 0 <= j < firsts(r).len() && firsts(r)[j] == x;
                    assert(f[j] == x);
                } else if firsts(r).contains(s.last()) {
                    let j = choose|j: int| 0 <= j < firsts(r).len() && firsts(r)[j] == x;
                    assert(f[j] == x);
                } else {
                    assert(f[firsts(r).len() as int] == x);
                }
            }
        }
    }
}

/// What an audit asks: the targets, each question once, and for each target
/// the places of its questions.
#[derive(Debug)]
pub struct AuditPlan {
    pub targets: Vec<AuditTarget>,
    pub queries: Vec<OsvQuery>,
    pub slots: Vec<Vec<usize>>,
}

/// Whether places stand for questions.
pub open spec fn slots_of(
    slots: Seq<usize>,
    queries: Seq<QueryView>,
    wanted: Seq<QueryView>,
) -> bool {
    slots.len() == wanted.len() && forall|j: int|
        0 <= j < slots.len() ==> (#[trigger] slots[j]) < queries.len() && queries[slots[j] as int]
            == wanted[j]
}

impl AuditPlan {
    /// Whether the plan asks for everything about its targets, and for
    /// nothing twice.
    pub open spec fn wf(&self) -> bool {
        let ts = target_views(self.targets@);
        let qs = query_views(self.queries@);
        &&& qs == firsts(asked(ts))
        &&& self.slots@.len() == ts.len()
        &&& forall|i: int|
            0 <= i < ts.len() ==> slots_of(
                #[trigger] self.slots@[i]@,
                qs,
                target_queries(ts[i]),
            )
    }
}

proof fn lemma_candidates_queryable(t: TargetView, j: int)
    requires
        0 <= j < candidates(t).len(),
    ensures
        (query_of(t, candidates(t)[j]) is Some) == queryable(t),
{
}

fn find_query(queries: &Vec<OsvQuery>, q: &OsvQuery) -> (r: Option<usize>)
    ensures
        match r {
            Some(i) => i < queries@.len() && query_views(queries@)[i as int] == q@,
            None => !query_views(queries@).contains(q@),
        },
{
    let mut i: usize = 0;
    while i < queries.len()
        invariant
            i <= queries.len(),
            forall|k: int| 0 <= k < i ==> query_views(queries@)[k] != q@,
        decreases queries.len() - i,
    {
        if queries[i].same(q) {
            return Some(i);
        }
        i += 1;
    }
    None
}

/// Adds the questions about one target that are not asked yet; gives the
/// places of all of them.
fn plan_target(queries: &mut Vec<OsvQuery>, t: &AuditTarget) -> (r: Vec<usize>)
    ensures
        slots_of(r@, query_views(final(queries)@), target_queries(t@)),
        query_views(old(queries)@).is_prefix_of(query_views(final(queries)@)),
        forall|done: Seq<QueryView>|
            query_views(old(queries)@) == #[trigger] firsts(done) ==> query_views(final(queries)@)
                == firsts(done + target_queries(t@)),
{
    let ghost start = query_views(queries@);
    let ghost wanted = target_queries(t@);
    let ecos = candidate_ecosystems(t);
    let ghost cs = candidates(t@);
    let mut slots: Vec<usize> = Vec::new();
    let mut i: usize = 0;
    proof {
        assert(start.is_prefix_of(start));
        assert forall|done: Seq<QueryView>| start == #[trigger] firsts(done) implies start
            == firsts(done + wanted.take(0)) by {
            assert(done + wanted.take(0) =~= done);
        }
    }
    while i < ecos.len()
        invariant
            i <= ecos.len(),
            name_views(ecos@) == cs,
            cs == candidates(t@),
            wanted == target_queries(t@),
            queryable(t@) ==> slots@.len() == i,
            !queryable(t@) ==> slots@.len() == 0,
            start.is_prefix_of(query_views(queries@)),
            forall|j: int|
                0 <= j < slots@.len() ==> (#[trigger] slots@[j]) < queries@.len() && query_views(
                    queries@,
                )[slots@[j] as int] == wanted[j],
            forall|done: Seq<QueryView>|
                start == #[trigger] firsts(done) ==> query_views(queries@) == firsts(
                    done + wanted.take(slots@.len() as int),
                ),
        decreases ecos.len() - i,
    {
        let ghost before = query_views(queries@);
        let ghost n = slots@.len() as int;
        assert(cs[i as int] == ecos@[i as int]@);
        proof {
            lemma_candidates_queryable(t@, i as int);
        }
        match osv_query(t, ecos[i]) {
            Some(q) => {
                let ghost v = q@;
                assert(wanted[i as int] == v);
                match find_query(queries, &q) {
                    Some(k) => {
                        slots.push(k);
                        proof {
                            assert(before.contains(v)) by {
                                assert(before[k as int] == v);
                            }
                        }
                    },
                    None => {
                        let k: usize = queries.len();
                        let ghost old_queries = queries@;
                        queries.push(q);
                        slots.push(k);
                        assert(query_views(queries@) =~= before.push(v));
                    },
                }
                proof {
                    assert(wanted.take(n + 1) =~= wanted.take(n).push(v));
                    assert forall|done: Seq<QueryView>| start == #[trigger] firsts(
                        done,
                    ) implies query_views(queries@) == firsts(done + wanted.take(n + 1)) by {
                        let longer = done + wanted.take(n + 1);
                        assert(longer.drop_last() =~= done + wanted.take(n));
                        assert(longer.last() == v);
                    }
                }
            },
            None => {},
        }
        i += 1;
    }
    proof {
        assert(slots@.len() == wanted.len());
        assert(wanted.take(wanted.len() as int) =~= wanted);
    }
    slots
}

/// Plans an audit: each question is asked once, and targets that share it
/// share its reply.
pub fn plan_audit(lock: &LockFile, raw: Option<&Ordered<Json>>) -> (r: AuditPlan)
    ensures
        target_views(r.targets@) == all_targets(*lock, raw_view(raw)),
        r.wf(),
{
    let targets = collect_targets(lock, raw);
    let ghost ts = target_views(targets@);
    let mut queries: Vec<OsvQuery> = Vec::new();
    let mut slots: Vec<Vec<usize>> = Vec::new();
    let mut i: usize = 0;
    assert(query_views(queries@) =~= firsts(asked(ts.take(0))));
    while i < targets.len()
        invariant
            i <= targets.len(),
            ts == target_views(targets@),
            slots@.len() == i,
            query_views(queries@) == firsts(asked(ts.take(i as int))),
            forall|k: int|
                0 <= k < i ==> slots_of(
                    #[trigger] slots@[k]@,
                    query_views(queries@),
                    target_queries(ts[k]),
                ),
        decreases targets.len() - i,
    {
        let ghost before = query_views(queries@);
        let ghost old_slots = slots@;
        let s = plan_target(&mut queries, &targets[i]);
        slots.push(s);
        proof {
            let now = query_views(queries@);
            assert(ts.take(i + 1).drop_last() =~= ts.take(i as int));
            assert(ts.take(i + 1).last() == targets@[i as int]@);
            assert forall|k: int| 0 <= k < i + 1 implies slots_of(
                #[trigger] slots@[k]@,
                now,
                target_queries(ts[k]),
            ) by {
                if k < i {
                    assert(slots@[k] == old_slots[k]);
                    let sk = old_slots[k]@;
                    assert(slots_of(sk, before, target_queries(ts[k])));
                    assert forall|j: int| 0 <= j < sk.len() implies (#[trigger] sk[j]) < now.len()
                        && now[sk[j] as int] == target_queries(ts[k])[j] by {
                        assert(before[sk[j] as int] == now[sk[j] as int]);
                    }
                }
            }
        }
        i += 1;
    }
    assert(ts.take(ts.len() as int) =~= ts);
    AuditPlan { targets, queries, slots }
}

/// Whatever is to be asked of a target is asked, and no question twice.
pub proof fn law_every_question_is_asked_once(ts: Seq<TargetView>, i: int)
    requires
        0 <= i < ts.len(),
    ensures
        firsts(asked(ts)).no_duplicates(),
        forall|q: QueryView| #[trigger]
            target_queries(ts[i]).contains(q) ==> firsts(asked(ts)).contains(q),
    decreases ts.len(),
{
    lemma_firsts(asked(ts));
    assert forall|q: QueryView| #[trigger] target_queries(ts[i]).contains(q) implies firsts(
        asked(ts),
    ).contains(q) by {
        lemma_asked(ts, i, q);
    }
}

proof fn lemma_asked(ts: Seq<TargetView>, i: int, q: QueryView)
    requires
        0 <= i < ts.len(),
        target_queries(ts[i]).contains(q),
    ensures
        asked(ts).contains(q),
    decreases ts.len(),
{
    let head = asked(ts.drop_last());
    let tail = target_queries(ts.last());
    if i < ts.len() - 1 {
        assert(ts.drop_last()[i] == ts[i]);
        lemma_asked(ts.drop_last(), i, q);
        let k = choose|k: int| 0 <= k < head.len() && head[k] == q;
        assert((head + tail)[k] == q);
    } else {
        let k = choose|k: int| 0 <= k < tail.len() && tail[k] == q;
        assert((head + tail)[head.len() + k] == q);
    }
}

spec fn version_tail(q: QueryView) -> Seq<char> {
    (match q.version {
        Some(v) => ",\"version\":"@ + quoted(v),
        None => Seq::empty(),
    }) + "}}"@
}

proof fn lemma_query_layout(q: QueryView)
    ensures
        query_text(q) == "{\"package\":{\"ecosystem\":"@ + (quoted(q.ecosystem) + (
        ",\"name\":"@ + (quoted(q.name) + version_tail(q)))),
{
    let l = "{\"package\":{\"ecosystem\":"@;
    let n = ",\"name\":"@;
    let v = match q.version {
        Some(v) => ",\"version\":"@ + quoted(v),
        None => Seq::empty(),
    };
    lemma_assoc(l + quoted(q.ecosystem) + n + quoted(q.name), v, "}}"@);
    lemma_assoc(l + quoted(q.ecosystem) + n, quoted(q.name), version_tail(q));
    lemma_assoc(l + quoted(q.ecosystem), n, quoted(q.name) + version_tail(q));
    lemma_assoc(l, quoted(q.ecosystem), n + (quoted(q.name) + version_tail(q)));
}

/// Different questions have different texts: no reply is kept or looked up
/// under the text of another question.
pub proof fn law_questions_are_told_apart(a: QueryView, b: QueryView)
    requires
        query_text(a) == query_text(b),
    ensures
        a == b,
{
    let n = ",\"name\":"@;
    lemma_query_layout(a);
    lemma_query_layout(b);
    let na = n + (quoted(a.name) + version_tail(a));
    let nb = n + (quoted(b.name) + version_tail(b));
    lemma_same_prefix(
        "{\"package\":{\"ecosystem\":"@,
        quoted(a.ecosystem) + na,
        quoted(b.ecosystem) + nb,
    );
    law_strings_delimit_themselves(a.ecosystem, na, b.ecosystem, nb);
    lemma_same_prefix(n, quoted(a.name) + version_tail(a), quoted(b.name) + version_tail(b));
    law_strings_delimit_themselves(a.name, version_tail(a), b.name, version_tail(b));
    reveal_strlit(",\"version\":");
    reveal_strlit("}}");
    let ta = version_tail(a);
    let tb = version_tail(b);
    assert(ta[0] == (if a.version is Some {
        ','
    } else {
        '}'
    }));
    assert(tb[0] == (if b.version is Some {
        ','
    } else {
        '}'
    }));
    match (a.version, b.version) {
        (Some(x), Some(y)) => {
            let l = ",\"version\":"@;
            lemma_assoc(l, quoted(x), "}}"@);
            lemma_assoc(l, quoted(y), "}}"@);
            lemma_same_prefix(l, quoted(x) + "}}"@, quoted(y) + "}}"@);
            law_strings_delimit_themselves(x, "}}"@, y, "}}"@);
        },
        _ => {},
    }
}

// ── Replies ──

/// The reply to one question, and the day it was fetched.
#[derive(Debug)]
pub struct Fetched {
    pub result: Json,
    pub queried_at: String,
}

/// The model of a [`Fetched`].
pub struct ReplyView {
    pub result: JsonView,
    pub queried_at: Seq<char>,
}

impl View for Fetched {
    type V = ReplyView;

    open spec fn view(&self) -> ReplyView {
        ReplyView { result: self.result@, queried_at: self.queried_at@ }
    }
}

/// The model of an optional reply.
pub open spec fn opt_reply(o: Option<Fetched>) -> Option<ReplyView> {
    match o {
        Some(f) => Some(f@),
        None => None,
    }
}

/// The models of a list of optional replies.
pub open spec fn reply_views(v: Seq<Option<Fetched>>) -> Seq<Option<ReplyView>> {
    v.map_values(|o: Option<Fetched>| opt_reply(o))
}

/// The replies to the questions of a plan, each at the place of its question;
/// none where neither the cache nor the network gave one.
#[derive(Debug)]
pub struct FetchOutcome {
    pub entries: Vec<Option<Fetched>>,
    /// Whether the network was needed and failed.
    pub degraded: bool,
}

/// The reply that a kept document holds: its response, and its day where it
/// records one.
pub open spec fn kept_reply(doc: JsonView) -> Option<ReplyView> {
    match doc.get("response"@) {
        None => None,
        Some(result) => Some(
            ReplyView {
                result,
                queried_at: match doc.text_at("queried_at"@) {
                    Some(d) => d,
                    None => "unknown"@,
                },
            },
        ),
    }
}

/// The reply in a parsed document.
pub fn reply_in(doc: &Json) -> (r: Option<Fetched>)
    ensures
        opt_reply(r) == kept_reply(doc@),
{
    match doc.get("response") {
        None => None,
        Some(result) => {
            let queried_at = match doc.text_at("queried_at") {
                Some(d) => d.clone(),
                None => "unknown".to_owned(),
            };
            Some(Fetched { result: result.copy(), queried_at })
        },
    }
}

/// The text of a reply as it is kept.
pub open spec fn reply_text(f: ReplyView) -> Seq<char> {
    "{\"queried_at\":"@ + quoted(f.queried_at) + ",\"response\":"@ + json_text(f.result) + "}"@
}

/// The document of a reply as it is kept.
pub open spec fn reply_document(f: ReplyView) -> JsonView {
    JsonView::Object(
        seq![("queried_at"@, JsonView::Text(f.queried_at)), ("response"@, f.result)],
    )
}

#[verifier::spinoff_prover]
proof fn lemma_reply_document(f: ReplyView)
    requires
        plain(f.result, 126),
    ensures
        plain(reply_document(f), 127),
        kept_reply(reply_document(f)) == Some(f),
{
    let m = reply_document(f)->Object_0;
    reveal_strlit("queried_at");
    reveal_strlit("response");
    assert(text_lt("queried_at"@, "response"@));
    assert(plain(m[0].1, 126) && plain(m[1].1, 126));
    assert(m.skip(1) =~= seq![m[1]]);
    assert(m.skip(1)[0] == m[1]);
    assert("queried_at"@ != "response"@) by {
        assert("queried_at"@[0] != "response"@[0]);
    }
    reveal_with_fuel(member_from, 3);
    assert(reply_document(f).get("response"@) == Some(f.result));
    assert(reply_document(f).text_at("queried_at"@) == Some(f.queried_at));
}

/// The text of two members.
#[verifier::spinoff_prover]
proof fn lemma_two_members(m: Seq<(Seq<char>, JsonView)>)
    requires
        m.len() == 2,
    ensures
        json_text(JsonView::Object(m)) == "{"@ + (quoted(m[0].0) + ":"@ + json_text(m[0].1) + ","@
            + (quoted(m[1].0) + ":"@ + json_text(m[1].1))) + "}"@,
{
    let t = member_texts(m);
    assert(t[0] == quoted(m[0].0) + ":"@ + json_text(m[0].1));
    assert(t[1] == quoted(m[1].0) + ":"@ + json_text(m[1].1));
    assert(t.drop_last() =~= seq![t[0]]);
    assert(joined(t.drop_last(), ","@) == t[0]);
    assert(t.len() == 2 && t.last() == t[1]);
    assert(joined(t, ","@) == t[0] + ","@ + t[1]);
}

#[verifier::spinoff_prover]
proof fn lemma_reply_text(f: ReplyView)
    ensures
        json_text(reply_document(f)) == reply_text(f),
{
    reveal_strlit("queried_at");
    reveal_strlit("response");
    lemma_two_members(reply_document(f)->Object_0);
    assert(json_text(JsonView::Text(f.queried_at)) == quoted(f.queried_at));
    lemma_plain_name("queried_at"@);
    lemma_plain_name("response"@);
    reveal_strlit("{");
    reveal_strlit("}");
    reveal_strlit(",");
    reveal_strlit(":");
    reveal_strlit("{\"queried_at\":");
    reveal_strlit(",\"response\":");
    let day = quoted(f.queried_at);
    let rest = json_text(f.result);
    assert("{"@ + (seq!['"'] + "queried_at"@ + seq!['"']) + ":"@ =~= "{\"queried_at\":"@);
    assert(","@ + (seq!['"'] + "response"@ + seq!['"']) + ":"@ =~= ",\"response\":"@);
    assert("{"@ + ((seq!['"'] + "queried_at"@ + seq!['"']) + ":"@ + day + ","@ + ((seq!['"']
        + "response"@ + seq!['"']) + ":"@ + rest)) + "}"@ =~= reply_text(f));
}

/// A name of letters and underscores is written as it is.
proof fn lemma_plain_name(s: Seq<char>)
    requires
        forall|i: int| 0 <= i < s.len() ==> 'a' <= #[trigger] s[i] <= 'z' || s[i] == '_',
    ensures
        quoted(s) == seq!['"'] + s + seq!['"'],
{
    lemma_escaped_name(s);
}

proof fn lemma_escaped_name(s: Seq<char>)
    requires
        forall|i: int| 0 <= i < s.len() ==> 'a' <= #[trigger] s[i] <= 'z' || s[i] == '_',
    ensures
        escaped(s) == s,
    decreases s.len(),
{
    if s.len() > 0 {
        lemma_escaped_name(s.skip(1));
        assert(escaped_char(s[0]) =~= seq![s[0]]);
        assert(seq![s[0]] + s.skip(1) =~= s);
    }
}

/// Reads a kept reply. A file that is no JSON, or holds no response, counts as
/// absent. What [`cached_text`] wrote is read back, unless its numbers are not
/// whole or it is too deep to be parsed.
pub fn read_cached(text: &str) -> (r: Option<Fetched>)
    ensures
        match json_document(encode_utf8(text@)) {
            Ok(doc) => opt_reply(r) == kept_reply(doc),
            Err(_) => r is None,
        },
        forall|f: ReplyView|
            plain(f.result, 126) && text@ == #[trigger] reply_text(f) ==> opt_reply(r) == Some(f),
{
    match parse_json(text.as_bytes()) {
        Ok(doc) => {
            proof {
                assert forall|f: ReplyView| plain(f.result, 126) && text@ == #[trigger] reply_text(
                    f,
                ) implies kept_reply(doc@) == Some(f) by {
                    lemma_reply_document(f);
                    lemma_reply_text(f);
                    assert(encode_utf8(json_text(reply_document(f))) == encode_utf8(text@));
                }
            }
            reply_in(&doc)
        },
        Err(_) => {
            proof {
                assert forall|f: ReplyView| plain(f.result, 126) && text@ == #[trigger] reply_text(
                    f,
                ) implies false by {
                    lemma_reply_document(f);
                    lemma_reply_text(f);
                    assert(encode_utf8(json_text(reply_document(f))) == encode_utf8(text@));
                }
            }
            None
        },
    }
}

/// A reply as it is kept.
pub fn cached_text(f: &Fetched) -> (r: String)
    ensures
        r@ == reply_text(f@),
{
    let mut out = "{\"queried_at\":".to_owned();
    out.append(quote(f.queried_at.as_str()).as_str());
    out.append(",\"response\":");
    out.append(f.result.to_text().as_str());
    out.append("}");
    out
}

/// The places of the questions without a reply.
pub fn missing_slots(entries: &Vec<Option<Fetched>>) -> (r: Vec<usize>)
    ensures
        forall|i: int, j: int| 0 <= i < j < r@.len() ==> r@[i] < r@[j],
        forall|k: int|
            0 <= k < entries@.len() ==> (entries@[k] is None <==> r@.contains(k as usize)),
        forall|i: int| 0 <= i < r@.len() ==> (#[trigger] r@[i]) < entries@.len(),
{
    let mut out: Vec<usize> = Vec::new();
    let mut i: usize = 0;
    while i < entries.len()
        invariant
            i <= entries.len(),
            forall|a: int, b: int| 0 <= a < b < out@.len() ==> out@[a] < out@[b],
            forall|a: int| 0 <= a < out@.len() ==> (#[trigger] out@[a]) < i,
            forall|k: int|
                0 <= k < i ==> (entries@[k] is None <==> out@.contains(k as usize)),
        decreases entries.len() - i,
    {
        let ghost before = out@;
        if entries[i].is_none() {
            out.push(i);
        }
        proof {
            assert forall|k: int| 0 <= k < i + 1 implies (entries@[k] is None <==> out@.contains(
                k as usize,
            )) by {
                if k < i {
                    if before.contains(k as usize) {
                        let a = choose|a: int| 0 <= a < before.len() && before[a] == k as usize;
                        assert(out@[a] == k as usize);
                    }
                    if out@.contains(k as usize) {
                        let a = choose|a: int| 0 <= a < out@.len() && out@[a] == k as usize;
                        assert(before[a] == k as usize);
                    }
                } else {
                    if entries@[k] is None {
                        assert(out@[before.len() as int] == i);
                    } else if out@.contains(k as usize) {
                        let a = choose|a: int| 0 <= a < out@.len() && out@[a] == k as usize;
                        assert(out@[a] < i);
                    }
                }
            }
        }
        i += 1;
    }
    out
}

/// The batches of `count` questions: each from where the one before it ended,
/// and all but the last of the full size.
pub open spec fn batch_bounds(count: int, i: int) -> (int, int) {
    (
        i * BATCH_CHUNK,
        if (i + 1) * BATCH_CHUNK < count {
            (i + 1) * BATCH_CHUNK
        } else {
            count
        },
    )
}

/// Splits `count` questions into batches.
pub fn batches(count: usize) -> (r: Vec<(usize, usize)>)
    ensures
        r@.len() == (count + BATCH_CHUNK - 1) / BATCH_CHUNK as int,
        forall|i: int|
            0 <= i < r@.len() ==> {
                let b = #[trigger] r@[i];
                (b.0 as int, b.1 as int) == batch_bounds(count as int, i)
            },
{
    let mut out: Vec<(usize, usize)> = Vec::new();
    let mut from: usize = 0;
    while from < count
        invariant
            from <= count,
            from == count || from == out@.len() * BATCH_CHUNK,
            from == count ==> out@.len() == (count + BATCH_CHUNK - 1) / BATCH_CHUNK as int,
            forall|i: int|
                0 <= i < out@.len() ==> {
                    let b = #[trigger] out@[i];
                    (b.0 as int, b.1 as int) == batch_bounds(count as int, i)
                },
        decreases count - from,
    {
        let to: usize = if count - from > BATCH_CHUNK {
            from + BATCH_CHUNK
        } else {
            count
        };
        out.push((from, to));
        from = to;
    }
    out
}

/// The body of a request: questions `from` up to `to`.
pub fn batch_body(queries: &Vec<OsvQuery>, slots: &Vec<usize>, from: usize, to: usize) -> (r: String)
    requires
        from <= to <= slots@.len(),
        forall|i: int| 0 <= i < slots@.len() ==> (#[trigger] slots@[i]) < queries@.len(),
    ensures
        r@ == "{\"queries\":["@ + joined(
            Seq::new(
                (to - from) as nat,
                |i: int| query_text(query_views(queries@)[slots@[from + i] as int]),
            ),
            ","@,
        ) + "]}"@,
{
    let ghost all = Seq::new(
        (to - from) as nat,
        |i: int| query_text(query_views(queries@)[slots@[from + i] as int]),
    );
    let mut items: Vec<String> = Vec::new();
    let mut i: usize = from;
    assert(texts(items@) =~= all.take(0));
    while i < to
        invariant
            from <= i <= to <= slots@.len(),
            all.len() == to - from,
            forall|k: int| 0 <= k < slots@.len() ==> (#[trigger] slots@[k]) < queries@.len(),
            forall|k: int|
                0 <= k < all.len() ==> #[trigger] all[k] == query_text(
                    query_views(queries@)[slots@[from + k] as int],
                ),
            texts(items@) == all.take(i - from),
        decreases to - i,
    {
        let ghost before = items@;
        let t = queries[slots[i]].to_json();
        let ghost x = t@;
        items.push(t);
        proof {
            assert(all[i - from] == x);
            assert(texts(items@) =~= texts(before).push(x));
            assert(all.take(i + 1 - from) =~= all.take(i - from).push(x));
        }
        i += 1;
    }
    assert(all.take(all.len() as int) =~= all);
    let mut out = "{\"queries\":[".to_owned();
    out.append(join(&items, ",").as_str());
    out.append("]}");
    out
}

/// The replies in a document, one for each of `n` questions; `{}` where the
/// document holds none.
pub open spec fn batch_results(doc: JsonView, n: nat) -> Result<Seq<JsonView>, Seq<char>> {
    match doc.items_at("results"@) {
        None => Err("OSV response carries no 'results' array"@),
        Some(v) => Ok(
            Seq::new(
                n,
                |i: int|
                    if i < v.len() {
                        v[i]
                    } else {
                        JsonView::Object(Seq::empty())
                    },
            ),
        ),
    }
}

/// The replies in a parsed document.
pub fn results_in(doc: &Json, n: usize) -> (r: Result<Vec<Json>, String>)
    ensures
        match r {
            Ok(v) => batch_results(doc@, n as nat) == Ok::<Seq<JsonView>, Seq<char>>(
                json_views(v@),
            ),
            Err(e) => batch_results(doc@, n as nat) == Err::<Seq<JsonView>, Seq<char>>(e@),
        },
{
    match doc.items_at("results") {
        None => Err("OSV response carries no 'results' array".to_owned()),
        Some(v) => {
            let ghost all = batch_results(doc@, n as nat)->Ok_0;
            let mut out: Vec<Json> = Vec::new();
            let mut i: usize = 0;
            while i < n
                invariant
                    i <= n,
                    all.len() == n,
                    doc@.items_at("results"@) == Some(json_views(v@)),
                    all == batch_results(doc@, n as nat)->Ok_0,
                    json_views(out@) =~= all.take(i as int),
                decreases n - i,
            {
                let ghost before = out@;
                let j = if i < v.len() {
                    v[i].copy()
                } else {
                    let j = Json::Object(Vec::new());
                    assert(j@->Object_0 =~= Seq::<(Seq<char>, JsonView)>::empty());
                    j
                };
                let ghost x = j@;
                out.push(j);
                proof {
                    assert(all[i as int] == x);
                    assert(json_views(out@) =~= json_views(before).push(x));
                    assert(all.take(i + 1) =~= all.take(i as int).push(x));
                }
                i += 1;
            }
            assert(all.take(all.len() as int) =~= all);
            Ok(out)
        },
    }
}

/// Reads the reply to a request of `n` questions.
pub fn read_batch(text: &str, n: usize) -> (r: Result<Vec<Json>, String>)
    ensures
        match json_document(encode_utf8(text@)) {
            Err(why) => r matches Err(e) && e@ == "OSV response is not valid JSON: "@ + why,
            Ok(doc) => match r {
                Ok(v) => batch_results(doc, n as nat) == Ok::<Seq<JsonView>, Seq<char>>(
                    json_views(v@),
                ),
                Err(e) => batch_results(doc, n as nat) == Err::<Seq<JsonView>, Seq<char>>(e@),
            },
        },
{
    match parse_json(text.as_bytes()) {
        Err(why) => {
            let mut e = "OSV response is not valid JSON: ".to_owned();
            e.append(why.as_str());
            Err(e)
        },
        Ok(doc) => results_in(&doc, n),
    }
}

/// Whether the replies in `r` are those of `entries`, with fetched ones where
/// they were missing, of the day of the fetch.
pub open spec fn filled(
    r: Seq<Option<ReplyView>>,
    entries: Seq<Option<ReplyView>>,
    missing: Seq<usize>,
    results: Seq<JsonView>,
    today: Seq<char>,
) -> bool {
    &&& r.len() == entries.len()
    &&& forall|j: int|
        0 <= j < missing.len() ==> r[(#[trigger] missing[j]) as int] == Some(
            ReplyView { result: results[j], queried_at: today },
        )
    &&& forall|k: int|
        0 <= k < entries.len() && !missing.contains(k as usize) ==> #[trigger] r[k] == entries[k]
}

/// Puts fetched replies where they were missing, with the day of the fetch.
pub fn fill_entries(
    entries: Vec<Option<Fetched>>,
    missing: &Vec<usize>,
    results: Vec<Json>,
    today: &str,
) -> (r: Vec<Option<Fetched>>)
    requires
        results@.len() == missing@.len(),
        forall|i: int| 0 <= i < missing@.len() ==> (#[trigger] missing@[i]) < entries@.len(),
        forall|i: int, j: int| 0 <= i < j < missing@.len() ==> missing@[i] < missing@[j],
    ensures
        filled(
            reply_views(r@),
            reply_views(entries@),
            missing@,
            json_views(results@),
            today@,
        ),
{
    let ghost given = json_views(results@);
    let ghost before = reply_views(entries@);
    let mut out = entries;
    let mut rest = results;
    let mut i: usize = 0;
    assert(given.skip(0) =~= given);
    while i < missing.len()
        invariant
            i <= missing@.len(),
            given.len() == missing@.len(),
            json_views(rest@) == given.skip(i as int),
            out@.len() == before.len(),
            forall|k: int| 0 <= k < missing@.len() ==> (#[trigger] missing@[k]) < out@.len(),
            forall|a: int, b: int| 0 <= a < b < missing@.len() ==> missing@[a] < missing@[b],
            forall|j: int|
                0 <= j < i ==> reply_views(out@)[(#[trigger] missing@[j]) as int] == Some(
                    ReplyView { result: given[j], queried_at: today@ },
                ),
            forall|k: int|
                0 <= k < before.len() && !missing@.contains(k as usize) ==> #[trigger] reply_views(
                    out@,
                )[k] == before[k],
        decreases missing@.len() - i,
    {
        let ghost was = out@;
        let ghost left = rest@;
        assert(json_views(left).len() == left.len());
        let result = rest.remove(0);
        let ghost x = result@;
        proof {
            assert(json_views(left)[0] == x);
            assert(given[i as int] == x);
            assert(json_views(rest@) =~= json_views(left).skip(1));
            assert(given.skip(i as int).skip(1) =~= given.skip(i + 1));
        }
        let slot: usize = missing[i];
        out.set(slot, Some(Fetched { result, queried_at: today.to_owned() }));
        proof {
            assert(reply_views(out@) =~= reply_views(was).update(
                slot as int,
                Some(ReplyView { result: x, queried_at: today@ }),
            ));
            assert forall|j: int| 0 <= j < i + 1 implies reply_views(
                out@,
            )[(#[trigger] missing@[j]) as int] == Some(
                ReplyView { result: given[j], queried_at: today@ },
            ) by {
                if j < i {
                    assert(missing@[j] < missing@[i as int]);
                }
            }
            assert forall|k: int|
                0 <= k < before.len() && !missing@.contains(
                    k as usize,
                ) implies #[trigger] reply_views(out@)[k] == before[k] by {
                assert(missing@[i as int] == slot);
                assert(k != slot);
            }
        }
        i += 1;
    }
    out
}

/// What is said where the network failed.
pub open spec fn degraded_text(reason: Seq<char>) -> Seq<char> {
    "OSV querybatch failed — serving what the local cache has: "@ + reason
}

/// What a fetch comes to, given what the cache had and what the network
/// answered to the questions without a reply: its replies are filled in, or,
/// where it failed, those of the cache stand alone, with a warning.
pub fn settle_fetch(
    entries: Vec<Option<Fetched>>,
    missing: &Vec<usize>,
    answer: Result<Vec<Json>, String>,
    today: &str,
) -> (r: (FetchOutcome, Option<String>))
    requires
        answer is Ok ==> answer->Ok_0@.len() == missing@.len(),
        forall|i: int| 0 <= i < missing@.len() ==> (#[trigger] missing@[i]) < entries@.len(),
        forall|i: int, j: int| 0 <= i < j < missing@.len() ==> missing@[i] < missing@[j],
    ensures
        r.0.degraded == (answer is Err),
        match answer {
            Ok(results) => r.1 is None && filled(
                reply_views(r.0.entries@),
                reply_views(entries@),
                missing@,
                json_views(results@),
                today@,
            ),
            Err(e) => r.0.entries == entries && opt_text(r.1) == Some(degraded_text(e@)),
        },
{
    match answer {
        Ok(results) => (
            FetchOutcome {
                entries: fill_entries(entries, missing, results, today),
                degraded: false,
            },
            None,
        ),
        Err(e) => {
            let mut warning = "OSV querybatch failed — serving what the local cache has: ".to_owned();
            warning.append(e.as_str());
            (FetchOutcome { entries, degraded: true }, Some(warning))
        },
    }
}

// ── Findings ──

/// One advisory that a reply names.
#[derive(Debug)]
pub struct Advisory {
    pub ecosystem: &'static str,
    pub queried_at: String,
    pub id: String,
    pub cves: String,
    pub summary: String,
}

/// The model of an [`Advisory`].
pub struct AdvisoryView {
    pub ecosystem: Seq<char>,
    pub queried_at: Seq<char>,
    pub id: Seq<char>,
    pub cves: Seq<char>,
    pub summary: Seq<char>,
}

impl View for Advisory {
    type V = AdvisoryView;

    open spec fn view(&self) -> AdvisoryView {
        AdvisoryView {
            ecosystem: self.ecosystem@,
            queried_at: self.queried_at@,
            id: self.id@,
            cves: self.cves@,
            summary: self.summary@,
        }
    }
}

/// The models of a list of advisories.
pub open spec fn advisory_views(v: Seq<Advisory>) -> Seq<AdvisoryView> {
    v.map_values(|a: Advisory| a@)
}

/// The CVE numbers among aliases.
pub open spec fn cve_names(v: Seq<JsonView>) -> Seq<Seq<char>>
    decreases v.len(),
{
    if v.len() == 0 {
        Seq::empty()
    } else {
        match v[0].text() {
            Some(s) => if "CVE-"@.is_prefix_of(s) {
                seq![s] + cve_names(v.skip(1))
            } else {
                cve_names(v.skip(1))
            },
            None => cve_names(v.skip(1)),
        }
    }
}

/// An advisory's CVE numbers in brackets; nothing where it has none.
pub open spec fn cves_text(vuln: JsonView) -> Seq<char> {
    match vuln.items_at("aliases"@) {
        None => Seq::empty(),
        Some(v) => if cve_names(v).len() == 0 {
            Seq::empty()
        } else {
            " ("@ + joined(cve_names(v), ", "@) + ")"@
        },
    }
}

/// An advisory's id.
pub open spec fn advisory_id(vuln: JsonView) -> Seq<char> {
    match vuln.text_at("id"@) {
        Some(s) => s,
        None => "unknown-vuln"@,
    }
}

/// The prose of an advisory: its summary, else its details.
pub open spec fn prose_of(vuln: JsonView) -> Seq<char> {
    match vuln.text_at("summary"@) {
        Some(s) => s,
        None => match vuln.text_at("details"@) {
            Some(s) => s,
            None => Seq::empty(),
        },
    }
}

/// The first line of a text.
pub open spec fn first_line(s: Seq<char>) -> Seq<char> {
    if lines(s).len() == 0 {
        Seq::empty()
    } else {
        lines(s)[0]
    }
}

/// An advisory in one line: the first line of its prose, else its id; cut to
/// 160 characters.
pub open spec fn summary_of(vuln: JsonView) -> Seq<char> {
    let line = first_line(prose_of(vuln));
    let s = if line.len() == 0 {
        advisory_id(vuln)
    } else {
        line
    };
    if s.len() > 160 {
        s.take(157) + "..."@
    } else {
        s
    }
}

fn vuln_cves(v: &Json) -> (r: String)
    ensures
        r@ == cves_text(v@),
{
    let empty = String::new();
    assert(empty@ =~= Seq::<char>::empty());
    match v.items_at("aliases") {
        None => empty,
        Some(a) => {
            let ghost all = json_views(a@);
            let mut names: Vec<String> = Vec::new();
            let mut i: usize = 0;
            assert(all.skip(0) =~= all);
            assert(texts(names@) + cve_names(all) =~= cve_names(all));
            while i < a.len()
                invariant
                    i <= a.len(),
                    all == json_views(a@),
                    texts(names@) + cve_names(all.skip(i as int)) == cve_names(all),
                decreases a.len() - i,
            {
                assert(all.skip(i as int)[0] == a@[i as int]@);
                assert(all.skip(i as int).skip(1) =~= all.skip(i + 1));
                match a[i].as_text() {
                    Some(s) => {
                        if starts_with(s.as_str(), "CVE-") {
                            let ghost before = names@;
                            names.push(s.clone());
                            proof {
                                assert(texts(names@) =~= texts(before).push(s@));
                                let more = cve_names(all.skip(i + 1));
                                assert(texts(before) + (seq![s@] + more) =~= texts(names@) + more);
                            }
                        }
                    },
                    None => {},
                }
                i += 1;
            }
            assert(all.skip(i as int) =~= Seq::<JsonView>::empty());
            assert(texts(names@) + Seq::<Seq<char>>::empty() =~= texts(names@));
            if names.len() == 0 {
                return empty;
            }
            let mut out = " (".to_owned();
            out.append(join(&names, ", ").as_str());
            out.append(")");
            out
        },
    }
}

fn vuln_id(v: &Json) -> (r: String)
    ensures
        r@ == advisory_id(v@),
{
    match v.text_at("id") {
        Some(s) => s.clone(),
        None => "unknown-vuln".to_owned(),
    }
}

fn vuln_summary(v: &Json, id: &str) -> (r: String)
    requires
        id@ == advisory_id(v@),
    ensures
        r@ == summary_of(v@),
{
    let prose = match v.text_at("summary") {
        Some(s) => s.clone(),
        None => match v.text_at("details") {
            Some(s) => s.clone(),
            None => {
                let t = String::new();
                assert(t@ =~= Seq::<char>::empty());
                t
            },
        },
    };
    let rows = split_lines(prose.as_str());
    let line = if rows.len() == 0 {
        let t = String::new();
        assert(t@ =~= Seq::<char>::empty());
        t
    } else {
        assert(texts(rows@)[0] == rows@[0]@);
        rows[0].clone()
    };
    let s = if line.as_str().is_empty() {
        id.to_owned()
    } else {
        line
    };
    let a = chars_of(s.as_str());
    if a.len() > 160 {
        assert(s@.subrange(0, 157) =~= s@.take(157));
        let mut out = string_of(&a, 0, 157);
        out.append("...");
        out
    } else {
        s
    }
}

/// The ecosystems that replies are read for.
pub open spec fn known_eco(eco: Seq<char>) -> bool {
    eco == "PyPI"@ || eco == "npm"@ || eco == "crates.io"@ || eco == "Go"@ || eco == "Debian"@ || eco
        == "Ubuntu"@
}

fn is_known(eco: &str) -> (r: bool)
    ensures
        r == known_eco(eco@),
{
    str_eq(eco, "PyPI") || str_eq(eco, "npm") || str_eq(eco, "crates.io") || str_eq(eco, "Go")
        || str_eq(eco, "Debian") || str_eq(eco, "Ubuntu")
}

/// The advisories of a list, as found in an ecosystem on a day.
pub open spec fn advisories_in(vulns: Seq<JsonView>, eco: Seq<char>, day: Seq<char>) -> Seq<
    AdvisoryView,
> {
    vulns.map_values(
        |v: JsonView|
            AdvisoryView {
                ecosystem: eco,
                queried_at: day,
                id: advisory_id(v),
                cves: cves_text(v),
                summary: summary_of(v),
            },
    )
}

/// The advisories of one reply.
pub open spec fn reply_advisories(eco: Seq<char>, reply: Option<ReplyView>) -> Seq<AdvisoryView> {
    match reply {
        Some(f) => if known_eco(eco) {
            match f.result.items_at("vulns"@) {
                Some(v) => advisories_in(v, eco, f.queried_at),
                None => Seq::empty(),
            }
        } else {
            Seq::empty()
        },
        None => Seq::empty(),
    }
}

/// The advisories of replies, in order.
pub open spec fn all_advisories(replies: Seq<(Seq<char>, Option<ReplyView>)>) -> Seq<AdvisoryView>
    decreases replies.len(),
{
    if replies.len() == 0 {
        Seq::empty()
    } else {
        all_advisories(replies.drop_last()) + reply_advisories(
            replies.last().0,
            replies.last().1,
        )
    }
}

/// Each advisory only where its id comes first.
pub open spec fn first_ids(v: Seq<AdvisoryView>) -> Seq<AdvisoryView>
    decreases v.len(),
{
    if v.len() == 0 {
        v
    } else if has_id(first_ids(v.drop_last()), v.last().id) {
        first_ids(v.drop_last())
    } else {
        first_ids(v.drop_last()).push(v.last())
    }
}

/// Whether an advisory of a list has an id.
pub open spec fn has_id(v: Seq<AdvisoryView>, id: Seq<char>) -> bool {
    exists|i: int| 0 <= i < v.len() && (#[trigger] v[i]).id == id
}

/// The day of the first reply that has one.
pub open spec fn first_day(replies: Seq<(Seq<char>, Option<ReplyView>)>) -> Seq<char>
    decreases replies.len(),
{
    if replies.len() == 0 {
        Seq::empty()
    } else {
        match replies[0].1 {
            Some(f) => if known_eco(replies[0].0) && f.queried_at.len() > 0 {
                f.queried_at
            } else {
                first_day(replies.skip(1))
            },
            None => first_day(replies.skip(1)),
        }
    }
}

/// A finding of an audit.
pub open spec fn osv_finding(
    package: Seq<char>,
    severity: Severity,
    message: Seq<char>,
    hint: Seq<char>,
) -> FindingView {
    FindingView { check: "osv"@, package, severity, message, hint }
}

/// The finding for an advisory whose version matches: an error. An ecosystem
/// that the lockfile does not prove is said to be matched by name.
pub open spec fn confirmed_view(t: TargetView, a: AdvisoryView) -> FindingView {
    osv_finding(
        t.package,
        Severity::Error,
        a.id + a.cves + (if a.summary == a.id {
            Seq::empty()
        } else {
            ": "@ + a.summary
        }) + " — affects "@ + t.name + " "@ + (match t.version {
            Some(v) => v,
            None => "(none)"@,
        }) + " ["@ + (if t.ecosystem == Some(a.ecosystem) {
            a.ecosystem
        } else {
            a.ecosystem + " (ecosystem matched by name)"@
        }) + "]; "@ + t.provenance + "; OSV data "@ + a.queried_at,
        "upgrade "@ + t.name + " to a version fixed per "@ + a.id
            + " and re-lock (`shuttle lock`, or `shuttle deps fetch --latest` for closures)"@,
    )
}

fn confirmed_finding(t: &AuditTarget, a: &Advisory) -> (r: Finding)
    ensures
        r@ == confirmed_view(t@, a@),
{
    let mut message = a.id.clone();
    message.append(a.cves.as_str());
    let mut tail = String::new();
    assert(tail@ =~= Seq::<char>::empty());
    if !str_eq(a.summary.as_str(), a.id.as_str()) {
        tail = ": ".to_owned();
        tail.append(a.summary.as_str());
    }
    message.append(tail.as_str());
    message.append(" — affects ");
    message.append(t.name.as_str());
    message.append(" ");
    match &t.version {
        Some(v) => {
            message.append(v.as_str());
        },
        None => {
            message.append("(none)");
        },
    }
    message.append(" [");
    let proven = match t.ecosystem {
        Some(e) => str_eq(e, a.ecosystem),
        None => false,
    };
    let mut label = a.ecosystem.to_owned();
    if !proven {
        label.append(" (ecosystem matched by name)");
    }
    message.append(label.as_str());
    message.append("]; ");
    message.append(t.provenance.as_str());
    message.append("; OSV data ");
    message.append(a.queried_at.as_str());
    let mut hint = "upgrade ".to_owned();
    hint.append(t.name.as_str());
    hint.append(" to a version fixed per ");
    hint.append(a.id.as_str());
    hint.append(
        " and re-lock (`shuttle lock`, or `shuttle deps fetch --latest` for closures)",
    );
    Finding {
        check: CHECK,
        package: t.package.clone(),
        severity: Severity::Error,
        message,
        hint,
    }
}

/// How many advisories of an ecosystem there are.
pub open spec fn eco_count(v: Seq<AdvisoryView>, eco: Seq<char>) -> nat
    decreases v.len(),
{
    if v.len() == 0 {
        0
    } else {
        eco_count(v.drop_last(), eco) + (if v.last().ecosystem == eco {
            1nat
        } else {
            0nat
        })
    }
}

/// The ecosystems by name.
pub open spec fn sorted_ecos() -> Seq<Seq<char>> {
    seq!["Debian"@, "Go"@, "PyPI"@, "Ubuntu"@, "crates.io"@, "npm"@]
}

/// The counts of the ecosystems that have advisories, among `ecos`.
pub open spec fn eco_counts(v: Seq<AdvisoryView>, ecos: Seq<Seq<char>>) -> Seq<Seq<char>>
    decreases ecos.len(),
{
    if ecos.len() == 0 {
        Seq::empty()
    } else if eco_count(v, ecos.last()) == 0 {
        eco_counts(v, ecos.drop_last())
    } else {
        eco_counts(v, ecos.drop_last()).push(
            ecos.last() + " "@ + decimal(eco_count(v, ecos.last())),
        )
    }
}

/// The ids of the first three advisories.
pub open spec fn example_ids(v: Seq<AdvisoryView>) -> Seq<Seq<char>> {
    v.take(
        if v.len() < 3 {
            v.len() as int
        } else {
            3
        },
    ).map_values(|a: AdvisoryView| a.id)
}

/// The one warning about a store snap, however many advisories its name
/// matches. It never claims that one is confirmed.
pub open spec fn summary_view(t: TargetView, hits: Seq<AdvisoryView>, day: Seq<char>) -> FindingView {
    osv_finding(
        t.package,
        Severity::Warn,
        decimal(hits.len()) + (if hits.len() == 1 {
            " advisory name-matches"@
        } else {
            " advisories name-match"@
        }) + " snap '"@ + t.name + "' ("@ + joined(eco_counts(hits, sorted_ecos()), ", "@)
            + ") — a store revision ("@ + (match t.revision {
            Some(r) => decimal(r as nat),
            None => "?"@,
        })
            + ") is not an upstream version, so NONE can be confirmed against a pinned version; for example: "@
            + joined(example_ids(hits), ", "@) + "; OSV data "@ + day,
        "resolve the snap's upstream version and re-audit; treat as unconfirmed until then"@,
    )
}

fn count_eco(v: &Vec<Advisory>, eco: &str) -> (r: usize)
    ensures
        r == eco_count(advisory_views(v@), eco@),
{
    let ghost all = advisory_views(v@);
    let mut n: usize = 0;
    let mut i: usize = 0;
    while i < v.len()
        invariant
            i <= v.len(),
            n <= i,
            all == advisory_views(v@),
            n == eco_count(all.take(i as int), eco@),
        decreases v.len() - i,
    {
        assert(all.take(i + 1).drop_last() =~= all.take(i as int));
        assert(all.take(i + 1).last() == v@[i as int]@);
        if str_eq(v[i].ecosystem, eco) {
            n += 1;
        }
        i += 1;
    }
    assert(all.take(all.len() as int) =~= all);
    n
}

/// Every ecosystem that is asked, in the order of their names.
const SORTED_ECOS: [&'static str; 6] = ["Debian", "Go", "PyPI", "Ubuntu", "crates.io", "npm"];

#[verifier::spinoff_prover]
#[verifier::rlimit(40)]
fn name_only_summary_finding(t: &AuditTarget, hits: &Vec<Advisory>, day: &str) -> (r: Finding)
    ensures
        r@ == summary_view(t@, advisory_views(hits@), day@),
{
    let ghost all = advisory_views(hits@);
    let ghost ecos = sorted_ecos();
    let mut counts: Vec<String> = Vec::new();
    let mut i: usize = 0;
    assert(texts(counts@) =~= eco_counts(all, ecos.take(0)));
    while i < 6
        invariant
            i <= 6,
            all == advisory_views(hits@),
            ecos == sorted_ecos(),
            texts(counts@) == eco_counts(all, ecos.take(i as int)),
        decreases 6 - i,
    {
        let ghost before = counts@;
        assert(ecos.take(i + 1).drop_last() =~= ecos.take(i as int));
        assert(ecos.take(i + 1).last() == ecos[i as int]);
        let eco = SORTED_ECOS[i];
        assert(eco@ == ecos[i as int]);
        let n: usize = count_eco(hits, eco);
        if n > 0 {
            let mut t = eco.to_owned();
            t.append(" ");
            t.append(to_decimal(n as u64).as_str());
            let ghost x = t@;
            counts.push(t);
            assert(texts(counts@) =~= texts(before).push(x));
        }
        i += 1;
    }
    assert(ecos.take(6) =~= ecos);
    let mut ids: Vec<String> = Vec::new();
    let ghost some = example_ids(all);
    let mut j: usize = 0;
    assert(texts(ids@) =~= some.take(0));
    while j < hits.len() && j < 3
        invariant
            j <= hits.len(),
            j <= 3,
            all == advisory_views(hits@),
            some == example_ids(all),
            texts(ids@) == some.take(j as int),
        decreases hits.len() - j,
    {
        let ghost before = ids@;
        ids.push(hits[j].id.clone());
        proof {
            assert(some[j as int] == hits@[j as int].id@);
            assert(texts(ids@) =~= texts(before).push(some[j as int]));
            assert(some.take(j + 1) =~= some.take(j as int).push(some[j as int]));
        }
        j += 1;
    }
    assert(some.take(some.len() as int) =~= some);
    let mut message = to_decimal(hits.len() as u64);
    message.append(
        if hits.len() == 1 {
            " advisory name-matches"
        } else {
            " advisories name-match"
        },
    );
    message.append(" snap '");
    message.append(t.name.as_str());
    message.append("' (");
    message.append(join(&counts, ", ").as_str());
    message.append(") — a store revision (");
    match t.revision {
        Some(r) => {
            message.append(to_decimal(r as u64).as_str());
        },
        None => {
            message.append("?");
        },
    }
    message.append(
        ") is not an upstream version, so NONE can be confirmed against a pinned version; for example: ",
    );
    message.append(join(&ids, ", ").as_str());
    message.append("; OSV data ");
    message.append(day);
    Finding {
        check: CHECK,
        package: t.package.clone(),
        severity: Severity::Warn,
        message,
        hint: "resolve the snap's upstream version and re-audit; treat as unconfirmed until then".to_owned(),
    }
}

/// A target's replies, each with the ecosystem it was asked for in.
pub open spec fn pair_views(v: Seq<(&'static str, Option<&Fetched>)>) -> Seq<
    (Seq<char>, Option<ReplyView>),
> {
    v.map_values(
        |p: (&'static str, Option<&Fetched>)|
            (
                p.0@,
                match p.1 {
                    Some(f) => Some(f@),
                    None => None,
                },
            ),
    )
}

/// The findings that a target's replies give: one error for each advisory of a
/// version, one warning for all advisories of a name.
pub open spec fn target_report(
    t: TargetView,
    replies: Seq<(Seq<char>, Option<ReplyView>)>,
) -> Seq<FindingView> {
    let found = first_ids(all_advisories(replies));
    if t.confidence is NameOnly {
        if found.len() == 0 {
            Seq::empty()
        } else {
            seq![summary_view(t, found, first_day(replies))]
        }
    } else {
        found.map_values(|a: AdvisoryView| confirmed_view(t, a))
    }
}

fn collect_advisories(replies: &Vec<(&'static str, Option<&Fetched>)>) -> (r: Vec<Advisory>)
    ensures
        advisory_views(r@) == all_advisories(pair_views(replies@)),
{
    let ghost all = pair_views(replies@);
    let mut out: Vec<Advisory> = Vec::new();
    let mut i: usize = 0;
    assert(advisory_views(out@) =~= all_advisories(all.take(0)));
    while i < replies.len()
        invariant
            i <= replies.len(),
            all == pair_views(replies@),
            advisory_views(out@) == all_advisories(all.take(i as int)),
        decreases replies.len() - i,
    {
        let ghost before = advisory_views(out@);
        let ghost here = all[i as int];
        assert(all.take(i + 1).drop_last() =~= all.take(i as int));
        assert(all.take(i + 1).last() == here);
        let eco = replies[i].0;
        match replies[i].1 {
            Some(f) => {
                let ghost more = reply_advisories(eco@, Some(f@));
                assert(reply_advisories(here.0, here.1) == more);
                if is_known(eco) {
                    match f.result.items_at("vulns") {
                        Some(v) => {
                            let ghost vs = json_views(v@);
                            let mut j: usize = 0;
                            assert(before + more.take(0) =~= before);
                            while j < v.len()
                                invariant
                                    j <= v.len(),
                                    vs == json_views(v@),
                                    more == advisories_in(vs, eco@, f.queried_at@),
                                    advisory_views(out@) == before + more.take(j as int),
                                decreases v.len() - j,
                            {
                                let ghost so_far = advisory_views(out@);
                                let id = vuln_id(&v[j]);
                                let summary = vuln_summary(&v[j], id.as_str());
                                let a = Advisory {
                                    ecosystem: eco,
                                    queried_at: f.queried_at.clone(),
                                    cves: vuln_cves(&v[j]),
                                    summary,
                                    id,
                                };
                                let ghost x = a@;
                                out.push(a);
                                proof {
                                    assert(more[j as int] == x);
                                    assert(advisory_views(out@) =~= so_far.push(x));
                                    assert(before + more.take(j + 1) =~= (before + more.take(
                                        j as int,
                                    )).push(x));
                                }
                                j += 1;
                            }
                            assert(more.take(more.len() as int) =~= more);
                        },
                        None => {
                            assert(before + Seq::<AdvisoryView>::empty() =~= before);
                        },
                    }
                } else {
                    assert(before + Seq::<AdvisoryView>::empty() =~= before);
                }
            },
            None => {
                assert(before + Seq::<AdvisoryView>::empty() =~= before);
            },
        }
        i += 1;
    }
    assert(all.take(all.len() as int) =~= all);
    out
}

fn known_id(v: &Vec<Advisory>, id: &str) -> (r: bool)
    ensures
        r == has_id(advisory_views(v@), id@),
{
    let ghost all = advisory_views(v@);
    let mut i: usize = 0;
    while i < v.len()
        invariant
            i <= v.len(),
            all == advisory_views(v@),
            forall|k: int| 0 <= k < i ==> (#[trigger] all[k]).id != id@,
        decreases v.len() - i,
    {
        assert(all[i as int] == v@[i as int]@);
        if str_eq(v[i].id.as_str(), id) {
            return true;
        }
        i += 1;
    }
    false
}

fn keep_first_ids(v: Vec<Advisory>) -> (r: Vec<Advisory>)
    ensures
        advisory_views(r@) == first_ids(advisory_views(v@)),
{
    let ghost all = advisory_views(v@);
    let mut rest = v;
    let mut out: Vec<Advisory> = Vec::new();
    let ghost mut n: int = 0;
    proof {
        assert(all.skip(0) =~= all);
        assert(advisory_views(out@) =~= first_ids(all.take(0)));
    }
    while rest.len() > 0
        invariant
            0 <= n <= all.len(),
            advisory_views(rest@) == all.skip(n),
            advisory_views(out@) == first_ids(all.take(n)),
        decreases rest.len(),
    {
        let ghost left = rest@;
        let ghost before = advisory_views(out@);
        let a = rest.remove(0);
        let ghost x = a@;
        proof {
            assert(advisory_views(left).len() == left.len());
            assert(advisory_views(left)[0] == x);
            assert(all.skip(n)[0] == all[n]);
            assert(advisory_views(rest@) =~= advisory_views(left).skip(1));
            assert(all.skip(n).skip(1) =~= all.skip(n + 1));
            assert(all.take(n + 1).drop_last() =~= all.take(n));
            assert(all.take(n + 1).last() == x);
        }
        if !known_id(&out, a.id.as_str()) {
            out.push(a);
            assert(advisory_views(out@) =~= before.push(x));
        }
        proof {
            n = n + 1;
        }
    }
    assert(all.take(all.len() as int) =~= all);
    out
}

fn day_of(replies: &Vec<(&'static str, Option<&Fetched>)>) -> (r: String)
    ensures
        r@ == first_day(pair_views(replies@)),
{
    let ghost all = pair_views(replies@);
    let mut i: usize = 0;
    assert(all.skip(0) =~= all);
    while i < replies.len()
        invariant
            i <= replies.len(),
            all == pair_views(replies@),
            first_day(all) == first_day(all.skip(i as int)),
        decreases replies.len() - i,
    {
        assert(all.skip(i as int)[0] == all[i as int]);
        assert(all.skip(i as int).skip(1) =~= all.skip(i + 1));
        match replies[i].1 {
            Some(f) => {
                if is_known(replies[i].0) && !f.queried_at.as_str().is_empty() {
                    return f.queried_at.clone();
                }
            },
            None => {},
        }
        i += 1;
    }
    let t = String::new();
    assert(t@ =~= Seq::<char>::empty());
    t
}

/// The findings that a target's replies give: one error for each advisory of a
/// version, however many ecosystems name it, and one warning for all
/// advisories of a store snap's name.
pub fn target_findings(t: &AuditTarget, replies: &Vec<(&'static str, Option<&Fetched>)>) -> (r: Vec<
    Finding,
>)
    ensures
        finding_views(r@) == target_report(t@, pair_views(replies@)),
{
    let found = keep_first_ids(collect_advisories(replies));
    let ghost views = advisory_views(found@);
    let ghost report = target_report(t@, pair_views(replies@));
    let mut out: Vec<Finding> = Vec::new();
    if t.confidence == Confidence::NameOnly {
        if found.len() > 0 {
            let day = day_of(replies);
            let f = name_only_summary_finding(t, &found, day.as_str());
            let ghost x = f@;
            out.push(f);
            assert(finding_views(out@) =~= seq![x]);
        } else {
            assert(finding_views(out@) =~= Seq::<FindingView>::empty());
        }
        return out;
    }
    let mut i: usize = 0;
    assert(finding_views(out@) =~= report.take(0));
    while i < found.len()
        invariant
            i <= found.len(),
            views == advisory_views(found@),
            report == views.map_values(|a: AdvisoryView| confirmed_view(t@, a)),
            finding_views(out@) == report.take(i as int),
        decreases found.len() - i,
    {
        let ghost before = out@;
        let f = confirmed_finding(t, &found[i]);
        let ghost x = f@;
        out.push(f);
        proof {
            assert(report[i as int] == x);
            assert(finding_views(out@) =~= finding_views(before).push(x));
            assert(report.take(i + 1) =~= report.take(i as int).push(x));
        }
        i += 1;
    }
    assert(report.take(report.len() as int) =~= report);
    out
}

/// The warning about a pin that nothing can be asked of.
pub open spec fn unmapped_view(t: TargetView) -> FindingView {
    osv_finding(
        t.package,
        Severity::Warn,
        "cannot audit "@ + t.kind + " pin '"@ + t.package + "': "@ + t.provenance,
        "record an explicit upstream version for this pin (a declared version or a versioned source URL) so it can be matched against OSV"@,
    )
}

/// The warning about a pin that nothing can be asked of.
pub fn unmapped_finding(t: &AuditTarget) -> (r: Finding)
    ensures
        r@ == unmapped_view(t@),
{
    let mut message = "cannot audit ".to_owned();
    message.append(t.kind);
    message.append(" pin '");
    message.append(t.package.as_str());
    message.append("': ");
    message.append(t.provenance.as_str());
    Finding {
        check: CHECK,
        package: t.package.clone(),
        severity: Severity::Warn,
        message,
        hint: "record an explicit upstream version for this pin (a declared version or a versioned source URL) so it can be matched against OSV".to_owned(),
    }
}

/// The warning about a pin without a reply.
pub open spec fn unaudited_view(t: TargetView, cache_dir: Seq<char>) -> FindingView {
    osv_finding(
        t.package,
        Severity::Warn,
        "unaudited: no OSV data for "@ + (match t.version {
            Some(v) => t.name + " "@ + v,
            None => t.name,
        })
            + " — the vulnerability database is unreachable (offline?) and the local cache has no entry"@,
        "run `shuttle audit --update` when online (cache: "@ + cache_dir + ")"@,
    )
}

fn unaudited_finding(t: &AuditTarget, cache_dir: &str) -> (r: Finding)
    ensures
        r@ == unaudited_view(t@, cache_dir@),
{
    let mut message = "unaudited: no OSV data for ".to_owned();
    let mut identity = t.name.clone();
    match &t.version {
        Some(v) => {
            identity.append(" ");
            identity.append(v.as_str());
        },
        None => {},
    }
    message.append(identity.as_str());
    message.append(
        " — the vulnerability database is unreachable (offline?) and the local cache has no entry",
    );
    let mut hint = "run `shuttle audit --update` when online (cache: ".to_owned();
    hint.append(cache_dir);
    hint.append(")");
    Finding {
        check: CHECK,
        package: t.package.clone(),
        severity: Severity::Warn,
        message,
        hint,
    }
}

/// The warning about a closure that is pinned by its hash alone.
pub open spec fn closure_view(name: Seq<char>, deps_hash: Seq<char>) -> FindingView {
    osv_finding(
        name,
        Severity::Warn,
        "dependency closure "@ + shortened(deps_hash, 12)
            + "… is pinned by content hash only — the lockfile does not enumerate its transitive packages, so they are NOT audited by this pass (deliberate under-report, issue #52)"@,
        "re-fetch the closure (`shuttle deps fetch --latest`) to move the pin, then re-audit; auditing vendored trees per package is future work"@,
    )
}

/// The warnings about closures, by package.
pub open spec fn closure_views(packages: Seq<(Seq<char>, LockedPackage)>) -> Seq<FindingView>
    decreases packages.len(),
{
    if packages.len() == 0 {
        Seq::empty()
    } else {
        match packages[0].1.deps {
            Some(d) => seq![closure_view(packages[0].0, d.deps_hash@)] + closure_views(
                packages.skip(1),
            ),
            None => closure_views(packages.skip(1)),
        }
    }
}

/// The warnings about closures: a lockfile does not name what they hold.
pub fn closure_findings(lock: &LockFile) -> (r: Vec<Finding>)
    ensures
        finding_views(r@) == closure_views(lock.packages@),
{
    let ghost all = lock.packages@;
    let mut out: Vec<Finding> = Vec::new();
    let mut i: usize = 0;
    assert(all.skip(0) =~= all);
    assert(finding_views(out@) + closure_views(all) =~= closure_views(all));
    while i < lock.packages.len()
        invariant
            i <= lock.packages@.len(),
            all == lock.packages@,
            finding_views(out@) + closure_views(all.skip(i as int)) == closure_views(all),
        decreases lock.packages@.len() - i,
    {
        assert(all.skip(i as int)[0] == all[i as int]);
        assert(all.skip(i as int).skip(1) =~= all.skip(i + 1));
        match &lock.packages.value_at(i).deps {
            Some(d) => {
                let ghost before = out@;
                let name = lock.packages.key_at(i);
                let mut message = "dependency closure ".to_owned();
                message.append(shorten(d.deps_hash.as_str(), 12).as_str());
                message.append(
                    "… is pinned by content hash only — the lockfile does not enumerate its transitive packages, so they are NOT audited by this pass (deliberate under-report, issue #52)",
                );
                let f = Finding {
                    check: CHECK,
                    package: name.clone(),
                    severity: Severity::Warn,
                    message,
                    hint: "re-fetch the closure (`shuttle deps fetch --latest`) to move the pin, then re-audit; auditing vendored trees per package is future work".to_owned(),
                };
                let ghost x = f@;
                out.push(f);
                proof {
                    assert(x == closure_view(all[i as int].0, d.deps_hash@));
                    assert(finding_views(out@) =~= finding_views(before).push(x));
                    let more = closure_views(all.skip(i + 1));
                    assert(finding_views(before) + (seq![x] + more) =~= finding_views(out@) + more);
                }
            },
            None => {},
        }
        i += 1;
    }
    assert(all.skip(i as int) =~= Seq::<(Seq<char>, LockedPackage)>::empty());
    assert(finding_views(out@) + Seq::<FindingView>::empty() =~= finding_views(out@));
    out
}

// ── The report ──

/// What an audit reports.
#[derive(Debug)]
pub struct AuditReport {
    pub findings: Vec<Finding>,
    pub targets: usize,
    pub unaudited: usize,
    pub degraded: bool,
}

/// The reply to a question: that at its place.
pub open spec fn reply_to(
    queries: Seq<QueryView>,
    entries: Seq<Option<ReplyView>>,
    q: QueryView,
) -> Option<ReplyView> {
    entries[queries.index_of(q)]
}

/// A target's replies, in the order of its ecosystems.
pub open spec fn replies_of(
    t: TargetView,
    queries: Seq<QueryView>,
    entries: Seq<Option<ReplyView>>,
) -> Seq<(Seq<char>, Option<ReplyView>)> {
    Seq::new(
        target_queries(t).len(),
        |j: int| (candidates(t)[j], reply_to(queries, entries, target_queries(t)[j])),
    )
}

/// Whether a reply is missing.
pub open spec fn lacks_reply(replies: Seq<(Seq<char>, Option<ReplyView>)>) -> bool {
    exists|j: int| 0 <= j < replies.len() && (#[trigger] replies[j]).1 is None
}

/// All findings about a target: that nothing can be asked of it; or that a
/// reply is missing, and what the others say.
pub open spec fn target_outcome(
    t: TargetView,
    queries: Seq<QueryView>,
    entries: Seq<Option<ReplyView>>,
    cache_dir: Seq<char>,
) -> Seq<FindingView> {
    if target_queries(t).len() == 0 {
        seq![unmapped_view(t)]
    } else {
        let replies = replies_of(t, queries, entries);
        (if lacks_reply(replies) {
            seq![unaudited_view(t, cache_dir)]
        } else {
            Seq::empty()
        }) + target_report(t, replies)
    }
}

/// All findings about targets, in order.
pub open spec fn outcomes(
    ts: Seq<TargetView>,
    queries: Seq<QueryView>,
    entries: Seq<Option<ReplyView>>,
    cache_dir: Seq<char>,
) -> Seq<FindingView>
    decreases ts.len(),
{
    if ts.len() == 0 {
        Seq::empty()
    } else {
        outcomes(ts.drop_last(), queries, entries, cache_dir) + target_outcome(
            ts.last(),
            queries,
            entries,
            cache_dir,
        )
    }
}

/// Whether a target lacks a reply.
pub open spec fn is_unaudited(
    t: TargetView,
    queries: Seq<QueryView>,
    entries: Seq<Option<ReplyView>>,
) -> bool {
    target_queries(t).len() > 0 && lacks_reply(replies_of(t, queries, entries))
}

/// How many targets lack a reply.
pub open spec fn unaudited_count(
    ts: Seq<TargetView>,
    queries: Seq<QueryView>,
    entries: Seq<Option<ReplyView>>,
) -> nat
    decreases ts.len(),
{
    if ts.len() == 0 {
        0
    } else {
        unaudited_count(ts.drop_last(), queries, entries) + (if is_unaudited(
            ts.last(),
            queries,
            entries,
        ) {
            1nat
        } else {
            0nat
        })
    }
}

fn replies_at<'a>(
    t: &AuditTarget,
    slots: &Vec<usize>,
    queries: &Vec<OsvQuery>,
    entries: &'a Vec<Option<Fetched>>,
) -> (r: Vec<(&'static str, Option<&'a Fetched>)>)
    requires
        slots_of(slots@, query_views(queries@), target_queries(t@)),
        query_views(queries@).no_duplicates(),
        entries@.len() == queries@.len(),
    ensures
        pair_views(r@) == replies_of(t@, query_views(queries@), reply_views(entries@)),
{
    let ghost qs = query_views(queries@);
    let ghost es = reply_views(entries@);
    let ghost all = replies_of(t@, qs, es);
    let ecos = candidate_ecosystems(t);
    let mut out: Vec<(&'static str, Option<&'a Fetched>)> = Vec::new();
    let mut i: usize = 0;
    assert(pair_views(out@) =~= all.take(0));
    while i < slots.len()
        invariant
            i <= slots@.len(),
            name_views(ecos@) == candidates(t@),
            slots_of(slots@, qs, target_queries(t@)),
            qs == query_views(queries@),
            es == reply_views(entries@),
            qs.no_duplicates(),
            entries@.len() == queries@.len(),
            all == replies_of(t@, qs, es),
            pair_views(out@) == all.take(i as int),
        decreases slots@.len() - i,
    {
        let ghost before = out@;
        let ghost q = target_queries(t@)[i as int];
        assert(slots@[i as int] < qs.len() && qs[slots@[i as int] as int] == q);
        let slot: usize = slots[i];
        proof {
            assert(qs.contains(q));
            let k = qs.index_of(q);
            assert(qs[k] == q && 0 <= k < qs.len());
            assert(k == slot as int);
            assert(es[slot as int] == opt_reply(entries@[slot as int]));
            assert(candidates(t@)[i as int] == ecos@[i as int]@);
        }
        let reply: Option<&Fetched> = match &entries[slot] {
            Some(f) => Some(f),
            None => None,
        };
        out.push((ecos[i], reply));
        proof {
            let x = all[i as int];
            assert(pair_views(out@) =~= pair_views(before).push(x));
            assert(all.take(i + 1) =~= all.take(i as int).push(x));
        }
        i += 1;
    }
    assert(all.take(all.len() as int) =~= all);
    out
}

fn any_missing(replies: &Vec<(&'static str, Option<&Fetched>)>) -> (r: bool)
    ensures
        r == lacks_reply(pair_views(replies@)),
{
    let ghost all = pair_views(replies@);
    let mut i: usize = 0;
    while i < replies.len()
        invariant
            i <= replies.len(),
            all == pair_views(replies@),
            forall|k: int| 0 <= k < i ==> (#[trigger] all[k]).1 is Some,
        decreases replies.len() - i,
    {
        if replies[i].1.is_none() {
            assert(all[i as int].1 is None);
            return true;
        }
        i += 1;
    }
    false
}

fn append_findings(out: &mut Vec<Finding>, more: Vec<Finding>)
    ensures
        finding_views(final(out)@) == finding_views(old(out)@) + finding_views(more@),
{
    let ghost start = finding_views(out@);
    let mut more = more;
    let ghost tail = finding_views(more@);
    out.append(&mut more);
    assert(finding_views(out@) =~= start + tail);
}

/// Reports an audit: the replies to the questions of a plan, read for every
/// target. Findings come by package and message.
pub fn audit_report(
    lock: &LockFile,
    plan: &AuditPlan,
    outcome: &FetchOutcome,
    cache_dir: &str,
) -> (r: AuditReport)
    requires
        plan.wf(),
        outcome.entries@.len() == plan.queries@.len(),
    ensures
        finding_views(r.findings@) == sorted_by(
            closure_views(lock.packages@) + outcomes(
                target_views(plan.targets@),
                query_views(plan.queries@),
                reply_views(outcome.entries@),
                cache_dir@,
            ),
            finding_order(),
        ),
        r.targets == plan.targets@.len(),
        r.unaudited == unaudited_count(
            target_views(plan.targets@),
            query_views(plan.queries@),
            reply_views(outcome.entries@),
        ),
        r.degraded == outcome.degraded,
{
    let ghost ts = target_views(plan.targets@);
    let ghost qs = query_views(plan.queries@);
    let entries = &outcome.entries;
    let ghost es = reply_views(entries@);
    let ghost first = closure_views(lock.packages@);
    proof {
        lemma_firsts(asked(ts));
    }
    let mut findings = closure_findings(lock);
    let mut unaudited: usize = 0;
    let mut i: usize = 0;
    assert(first + outcomes(ts.take(0), qs, es, cache_dir@) =~= first);
    while i < plan.targets.len()
        invariant
            i <= plan.targets@.len(),
            plan.wf(),
            entries@.len() == plan.queries@.len(),
            ts == target_views(plan.targets@),
            qs == query_views(plan.queries@),
            es == reply_views(entries@),
            qs.no_duplicates(),
            unaudited <= i,
            unaudited == unaudited_count(ts.take(i as int), qs, es),
            finding_views(findings@) == first + outcomes(ts.take(i as int), qs, es, cache_dir@),
        decreases plan.targets@.len() - i,
    {
        let ghost before = finding_views(findings@);
        let ghost t = ts[i as int];
        assert(ts.take(i + 1).drop_last() =~= ts.take(i as int));
        assert(ts.take(i + 1).last() == t);
        assert(slots_of(plan.slots@[i as int]@, qs, target_queries(t)));
        let target = &plan.targets[i];
        let slots = &plan.slots[i];
        if slots.len() == 0 {
            let f = unmapped_finding(target);
            let ghost x = f@;
            findings.push(f);
            assert(finding_views(findings@) =~= before + seq![x]);
        } else {
            let replies = replies_at(target, slots, &plan.queries, entries);
            let lacking = any_missing(&replies);
            let ghost mut head: Seq<FindingView> = Seq::empty();
            if lacking {
                unaudited += 1;
                let f = unaudited_finding(target, cache_dir);
                proof {
                    head = seq![f@];
                }
                findings.push(f);
            }
            assert(finding_views(findings@) =~= before + head);
            let more = target_findings(target, &replies);
            let ghost tail = finding_views(more@);
            append_findings(&mut findings, more);
            assert(before + head + tail =~= before + (head + tail));
        }
        proof {
            let done = outcomes(ts.take(i as int), qs, es, cache_dir@);
            let more = target_outcome(t, qs, es, cache_dir@);
            assert(finding_views(findings@) =~= before + more);
            assert(first + done + more =~= first + (done + more));
        }
        i += 1;
    }
    assert(ts.take(ts.len() as int) =~= ts);
    AuditReport {
        findings: sort_findings(findings),
        targets: plan.targets.len(),
        unaudited,
        degraded: outcome.degraded,
    }
}

// ── Laws ──

/// A store snap is never said to be confirmed: its name gives at most one
/// finding, and that is a warning.
pub proof fn law_names_never_confirm(
    t: TargetView,
    replies: Seq<(Seq<char>, Option<ReplyView>)>,
)
    requires
        t.confidence is NameOnly,
    ensures
        target_report(t, replies).len() <= 1,
        forall|i: int|
            0 <= i < target_report(t, replies).len() ==> (#[trigger] target_report(
                t,
                replies,
            )[i]).severity is Warn,
{
}

/// Every pin shows up: one that nothing can be asked of, or whose reply is
/// missing, gives a warning of its own.
pub proof fn law_no_pin_is_passed_over(
    t: TargetView,
    queries: Seq<QueryView>,
    entries: Seq<Option<ReplyView>>,
    cache_dir: Seq<char>,
)
    ensures
        target_queries(t).len() == 0 ==> target_outcome(t, queries, entries, cache_dir) == seq![
            unmapped_view(t),
        ],
        is_unaudited(t, queries, entries) ==> target_outcome(
            t,
            queries,
            entries,
            cache_dir,
        ).len() > 0 && target_outcome(t, queries, entries, cache_dir)[0] == unaudited_view(
            t,
            cache_dir,
        ),
{
}

proof fn lemma_no_replies(replies: Seq<(Seq<char>, Option<ReplyView>)>)
    requires
        forall|j: int| 0 <= j < replies.len() ==> (#[trigger] replies[j]).1 is None,
    ensures
        all_advisories(replies).len() == 0,
    decreases replies.len(),
{
    if replies.len() > 0 {
        let r = replies.drop_last();
        assert forall|j: int| 0 <= j < r.len() implies (#[trigger] r[j]).1 is None by {
            assert(replies[j].1 is None);
        }
        assert(replies[replies.len() - 1].1 is None);
        lemma_no_replies(r);
    }
}

/// Without replies nothing is made up: an audit that has none reports
/// warnings alone.
pub proof fn law_offline_reports_no_errors(
    ts: Seq<TargetView>,
    queries: Seq<QueryView>,
    entries: Seq<Option<ReplyView>>,
    cache_dir: Seq<char>,
    i: int,
)
    requires
        forall|k: int| 0 <= k < entries.len() ==> (#[trigger] entries[k]) is None,
        entries.len() == queries.len(),
        forall|k: int, q: QueryView|
            0 <= k < ts.len() && #[trigger] target_queries(ts[k]).contains(q) ==> queries.contains(
                q,
            ),
        0 <= i < outcomes(ts, queries, entries, cache_dir).len(),
    ensures
        outcomes(ts, queries, entries, cache_dir)[i].severity is Warn,
    decreases ts.len(),
{
    let head = ts.drop_last();
    let t = ts.last();
    let n = outcomes(head, queries, entries, cache_dir).len();
    if i < n {
        assert forall|k: int, q: QueryView|
            0 <= k < head.len() && #[trigger] target_queries(head[k]).contains(
                q,
            ) implies queries.contains(q) by {
            assert(head[k] == ts[k]);
        }
        law_offline_reports_no_errors(head, queries, entries, cache_dir, i);
    } else if target_queries(t).len() > 0 {
        let replies = replies_of(t, queries, entries);
        assert forall|j: int| 0 <= j < replies.len() implies (#[trigger] replies[j]).1 is None by {
            let q = target_queries(t)[j];
            assert(target_queries(ts[ts.len() - 1]).contains(q));
            assert(queries.contains(q));
            let k = queries.index_of(q);
            assert(queries[k] == q && 0 <= k < queries.len());
            assert(entries[k] is None);
        }
        lemma_no_replies(replies);
        assert(first_ids(all_advisories(replies)).len() == 0);
    }
}

/// An advisory is reported once for a target, however many ecosystems and
/// replies name it.
pub proof fn law_advisories_are_reported_once(v: Seq<AdvisoryView>, i: int, j: int)
    requires
        0 <= i < j < first_ids(v).len(),
    ensures
        first_ids(v)[i].id != first_ids(v)[j].id,
    decreases v.len(),
{
    let r = first_ids(v.drop_last());
    if j < r.len() {
        law_advisories_are_reported_once(v.drop_last(), i, j);
    } else if r[i].id == v.last().id {
        assert(has_id(r, v.last().id));
    }
}

/// Whether item `j` of the advisories in reply `i` has an id. Replies count
/// where they are from a registry or a distribution that is asked.
pub open spec fn lists(
    replies: Seq<(Seq<char>, Option<ReplyView>)>,
    i: int,
    j: int,
    id: Seq<char>,
) -> bool {
    &&& 0 <= i < replies.len()
    &&& seq!["Debian"@, "Go"@, "PyPI"@, "Ubuntu"@, "crates.io"@, "npm"@].contains(replies[i].0)
    &&& replies[i].1 matches Some(f) && f.result.items_at("vulns"@) matches Some(v) && 0 <= j
        < v.len() && (match v[j].text_at("id"@) {
        Some(x) => x,
        None => "unknown-vuln"@,
    }) == id
}

/// Whether `ids` are the ids that replies list, each once.
pub open spec fn are_listed_ids(
    ids: Seq<Seq<char>>,
    replies: Seq<(Seq<char>, Option<ReplyView>)>,
) -> bool {
    ids.no_duplicates() && forall|id: Seq<char>| #[trigger]
        ids.contains(id) <==> exists|i: int, j: int| #[trigger] lists(replies, i, j, id)
}

proof fn lemma_listed_eco(eco: Seq<char>)
    ensures
        seq!["Debian"@, "Go"@, "PyPI"@, "Ubuntu"@, "crates.io"@, "npm"@].contains(eco)
            <==> known_eco(eco),
{
    let s = seq!["Debian"@, "Go"@, "PyPI"@, "Ubuntu"@, "crates.io"@, "npm"@];
    assert(s[0] == "Debian"@ && s[1] == "Go"@ && s[2] == "PyPI"@ && s[3] == "Ubuntu"@ && s[4]
        == "crates.io"@ && s[5] == "npm"@);
}

proof fn lemma_all_advisories(replies: Seq<(Seq<char>, Option<ReplyView>)>, id: Seq<char>)
    ensures
        has_id(all_advisories(replies), id) <==> exists|i: int, j: int| #[trigger]
            lists(replies, i, j, id),
    decreases replies.len(),
{
    let all = all_advisories(replies);
    if replies.len() > 0 {
        let front = replies.drop_last();
        let some = all_advisories(front);
        let last = replies.last();
        let more = reply_advisories(last.0, last.1);
        let n = replies.len() - 1;
        lemma_all_advisories(front, id);
        lemma_listed_eco(last.0);
        if has_id(all, id) {
            let k = choose|k: int| 0 <= k < all.len() && (#[trigger] all[k]).id == id;
            if k < some.len() {
                assert(some[k].id == id);
                assert(has_id(some, id));
                let (i, j) = choose|i: int, j: int| #[trigger] lists(front, i, j, id);
                assert(front[i] == replies[i]);
                assert(lists(replies, i, j, id));
            } else {
                let j = k - some.len();
                assert(more[j] == all[k]);
                assert(lists(replies, n as int, j, id));
            }
        }
        if exists|i: int, j: int| #[trigger] lists(replies, i, j, id) {
            let (i, j) = choose|i: int, j: int| #[trigger] lists(replies, i, j, id);
            if i < n {
                assert(front[i] == replies[i]);
                assert(lists(front, i, j, id));
                let k = choose|k: int| 0 <= k < some.len() && (#[trigger] some[k]).id == id;
                assert(all[k] == some[k]);
            } else {
                assert(more[j].id == id);
                assert(all[some.len() + j] == more[j]);
            }
        }
    }
}

proof fn lemma_first_ids(v: Seq<AdvisoryView>, id: Seq<char>)
    ensures
        has_id(first_ids(v), id) <==> has_id(v, id),
    decreases v.len(),
{
    if v.len() > 0 {
        let w = v.drop_last();
        let f = first_ids(w);
        lemma_first_ids(w, id);
        if has_id(v, id) {
            let k = choose|k: int| 0 <= k < v.len() && (#[trigger] v[k]).id == id;
            if k < w.len() {
                assert(w[k].id == id);
                assert(has_id(f, id));
                let m = choose|m: int| 0 <= m < f.len() && (#[trigger] f[m]).id == id;
                assert(first_ids(v)[m].id == id);
            } else if !has_id(f, id) {
                assert(first_ids(v)[f.len() as int].id == id);
            }
        }
        if has_id(first_ids(v), id) {
            let m = choose|m: int| 0 <= m < first_ids(v).len() && (#[trigger] first_ids(v)[m]).id
                == id;
            if m < f.len() {
                assert(f[m].id == id);
                let k = choose|k: int| 0 <= k < w.len() && (#[trigger] w[k]).id == id;
                assert(v[k].id == id);
            } else {
                assert(v[v.len() - 1].id == id);
            }
        }
    }
}

proof fn lemma_ids_once(replies: Seq<(Seq<char>, Option<ReplyView>)>) -> (ids: Seq<Seq<char>>)
    ensures
        are_listed_ids(ids, replies),
        ids == first_ids(all_advisories(replies)).map_values(|a: AdvisoryView| a.id),
{
    let v = all_advisories(replies);
    let f = first_ids(v);
    let ids = f.map_values(|a: AdvisoryView| a.id);
    assert forall|i: int, j: int| 0 <= i < ids.len() && 0 <= j < ids.len() && i != j implies ids[i]
        != ids[j] by {
        if i < j {
            law_advisories_are_reported_once(v, i, j);
        } else {
            law_advisories_are_reported_once(v, j, i);
        }
    }
    assert forall|id: Seq<char>| #[trigger] ids.contains(id) <==> exists|i: int, j: int| #[trigger]
        lists(replies, i, j, id) by {
        lemma_all_advisories(replies, id);
        lemma_first_ids(v, id);
        if ids.contains(id) {
            let k = choose|k: int| 0 <= k < ids.len() && ids[k] == id;
            assert(f[k].id == id);
        }
        if has_id(f, id) {
            let k = choose|k: int| 0 <= k < f.len() && (#[trigger] f[k]).id == id;
            assert(ids[k] == id);
        }
    }
    ids
}

/// Every advisory that a reply lists for a pin with a version is reported as an
/// error of the pin's package, with its id in front; each id once, and nothing
/// else is.
pub proof fn law_every_advisory_is_reported(
    t: TargetView,
    replies: Seq<(Seq<char>, Option<ReplyView>)>,
)
    requires
        !(t.confidence is NameOnly),
    ensures
        exists|ids: Seq<Seq<char>>| #[trigger]
            are_listed_ids(ids, replies) && ids.len() == target_report(t, replies).len() && (forall|
                k: int,
            |
                0 <= k < ids.len() ==> {
                    let f = #[trigger] target_report(t, replies)[k];
                    f.severity is Error && f.package == t.package && ids[k].is_prefix_of(f.message)
                }),
{
    let ids = lemma_ids_once(replies);
    let found = first_ids(all_advisories(replies));
    assert forall|k: int| 0 <= k < ids.len() implies {
        let f = #[trigger] target_report(t, replies)[k];
        f.severity is Error && f.package == t.package && ids[k].is_prefix_of(f.message)
    } by {
        let f = target_report(t, replies)[k];
        assert(f == confirmed_view(t, found[k]));
        assert(f.message.take(ids[k].len() as int) =~= ids[k]);
    }
}

/// A store snap has one warning where a reply lists any advisory for its name,
/// and none otherwise. The warning begins with how many ids there are.
pub proof fn law_name_matches_are_counted(
    t: TargetView,
    replies: Seq<(Seq<char>, Option<ReplyView>)>,
)
    requires
        t.confidence is NameOnly,
    ensures
        exists|ids: Seq<Seq<char>>| #[trigger]
            are_listed_ids(ids, replies) && target_report(t, replies).len() == (if ids.len() == 0 {
                0int
            } else {
                1
            }) && (ids.len() > 0 ==> {
                let f = target_report(t, replies)[0];
                f.severity is Warn && f.package == t.package && decimal(ids.len()).is_prefix_of(
                    f.message,
                )
            }),
{
    let ids = lemma_ids_once(replies);
    if ids.len() > 0 {
        let f = target_report(t, replies)[0];
        assert(f.message.take(decimal(ids.len()).len() as int) =~= decimal(ids.len()));
    }
}

/// Every pin of a lockfile is a target: the sources, then the packages, then
/// the snaps, with the version or the revision that is pinned.
pub proof fn law_every_pin_is_a_target(lock: LockFile, raw: Option<Seq<(Seq<char>, Json)>>)
    ensures
        ({
            let all = all_targets(lock, raw);
            let a = lock.sources@.len();
            let b = lock.packages@.len();
            &&& all.len() == a + b + lock.snaps@.len()
            &&& forall|i: int| 0 <= i < a ==> (#[trigger] all[i]).kind == "source"@
            &&& forall|i: int|
                #![trigger lock.packages@[i]]
                0 <= i < b ==> all[a + i].kind == "package"@ && all[a + i].name
                    == lock.packages@[i].0 && all[a + i].package == lock.packages@[i].0 && (
                lock.packages@[i].1.version@.len() > 0 ==> all[a + i].version == Some(
                    lock.packages@[i].1.version@,
                ) && all[a + i].confidence is Extracted) && (lock.packages@[i].1.version@.len() == 0
                    ==> all[a + i].confidence is Unmapped)
            &&& forall|i: int|
                #![trigger lock.snaps@[i]]
                0 <= i < lock.snaps@.len() ==> all[a + b + i].kind == "snap"@ && all[a + b + i].name
                    == lock.snaps@[i].0 && all[a + b + i].package == lock.snaps@[i].0 && all[a + b
                    + i].revision == Some(lock.snaps@[i].1.revision) && all[a + b
                    + i].confidence is NameOnly
        }),
{
}

/// A source pin with a registry's identity is asked for by it. Otherwise a
/// declared version counts before one in the address, and without any version
/// nothing is asked. The label is the output that declares it.
pub proof fn law_sources_are_identified(
    url: Seq<char>,
    declared: Option<(Seq<char>, Option<Seq<char>>)>,
)
    ensures
        ({
            let t = source_view(url, declared);
            let p = url_parts(url);
            &&& declared matches Some(d) ==> t.package == d.0
            &&& declared is None && p.name is Some ==> t.package == p.name->0
            &&& declared is None && p.name is None ==> t.package == url
            &&& p.name is None ==> t.confidence is Unmapped
            &&& p.name is Some ==> t.name == p.name->0
            &&& p.name is Some && p.ecosystem is Some ==> t.confidence is Exact && t.ecosystem
                == p.ecosystem && t.version == p.version
            &&& p.name is Some && p.ecosystem is None ==> t.ecosystem is None && match declared {
                Some((_, Some(v))) => t.confidence is Extracted && t.version == Some(v),
                _ => if p.version is Some {
                    t.confidence is Extracted && t.version == p.version
                } else {
                    t.confidence is Unmapped
                },
            }
        }),
{
}

/// The questions about a target name it, with its version unless only its name
/// is known: one in its own ecosystem where that is proved, else one in each
/// registry, and for a store snap one in each distribution.
pub proof fn law_questions_name_the_pin(t: TargetView)
    requires
        t.name.len() > 0,
    ensures
        ({
            let qs = target_queries(t);
            &&& forall|k: int|
                0 <= k < qs.len() ==> (#[trigger] qs[k]).name == t.name && (
                if t.confidence is NameOnly {
                    qs[k].version is None
                } else {
                    qs[k].version is Some && qs[k].version == t.version
                })
            &&& t.confidence is Unmapped ==> qs.len() == 0
            &&& t.confidence is Exact && t.version is Some && t.ecosystem is Some ==> qs.len() == 1
                && qs[0].ecosystem == t.ecosystem->0
            &&& t.confidence is Extracted && t.version is Some ==> qs.len() == 4 && qs[0].ecosystem
                == "PyPI"@ && qs[1].ecosystem == "npm"@ && qs[2].ecosystem == "crates.io"@
                && qs[3].ecosystem == "Go"@
            &&& t.confidence is NameOnly ==> qs.len() == 2 && qs[0].ecosystem == "Debian"@
                && qs[1].ecosystem == "Ubuntu"@
            &&& !(t.confidence is NameOnly) && t.version is None ==> qs.len() == 0
        }),
{
}

/// What is found about a target is in the report of all, and nothing else is.
pub proof fn law_reports_hold_what_is_found(
    ts: Seq<TargetView>,
    queries: Seq<QueryView>,
    entries: Seq<Option<ReplyView>>,
    cache_dir: Seq<char>,
    f: FindingView,
)
    ensures
        outcomes(ts, queries, entries, cache_dir).contains(f) <==> exists|k: int|
            0 <= k < ts.len() && #[trigger] target_outcome(
                ts[k],
                queries,
                entries,
                cache_dir,
            ).contains(f),
    decreases ts.len(),
{
    let all = outcomes(ts, queries, entries, cache_dir);
    if ts.len() > 0 {
        let head = ts.drop_last();
        let some = outcomes(head, queries, entries, cache_dir);
        let more = target_outcome(ts.last(), queries, entries, cache_dir);
        law_reports_hold_what_is_found(head, queries, entries, cache_dir, f);
        if all.contains(f) {
            let m = choose|m: int| 0 <= m < all.len() && all[m] == f;
            if m < some.len() {
                assert(some[m] == f);
                let k = choose|k: int|
                    0 <= k < head.len() && #[trigger] target_outcome(
                        head[k],
                        queries,
                        entries,
                        cache_dir,
                    ).contains(f);
                assert(head[k] == ts[k]);
            } else {
                assert(more[m - some.len()] == f);
                assert(target_outcome(ts[ts.len() - 1], queries, entries, cache_dir).contains(f));
            }
        }
        if exists|k: int|
            0 <= k < ts.len() && #[trigger] target_outcome(
                ts[k],
                queries,
                entries,
                cache_dir,
            ).contains(f) {
            let k = choose|k: int|
                0 <= k < ts.len() && #[trigger] target_outcome(
                    ts[k],
                    queries,
                    entries,
                    cache_dir,
                ).contains(f);
            if k < head.len() {
                assert(head[k] == ts[k]);
                assert(some.contains(f));
                let m = choose|m: int| 0 <= m < some.len() && some[m] == f;
                assert(all[m] == f);
            } else {
                let m = choose|m: int| 0 <= m < more.len() && more[m] == f;
                assert(all[some.len() + m] == f);
            }
        }
    }
}

/// A pin whose questions were all answered has the findings of its replies
/// alone; one with an open question has a warning besides.
pub proof fn law_only_open_questions_are_unaudited(
    t: TargetView,
    queries: Seq<QueryView>,
    entries: Seq<Option<ReplyView>>,
    cache_dir: Seq<char>,
)
    requires
        target_queries(t).len() > 0,
    ensures
        ({
            let replies = Seq::new(
                target_queries(t).len(),
                |j: int|
                    (target_queries(t)[j].ecosystem, entries[queries.index_of(target_queries(t)[j])]),
            );
            let found = target_outcome(t, queries, entries, cache_dir);
            if forall|j: int| 0 <= j < replies.len() ==> (#[trigger] replies[j]).1 is Some {
                found == target_report(t, replies)
            } else {
                found.len() == 1 + target_report(t, replies).len() && found[0].severity is Warn
                    && found[0].package == t.package && found.skip(1) == target_report(t, replies)
            }
        }),
{
    let replies = Seq::new(
        target_queries(t).len(),
        |j: int|
            (target_queries(t)[j].ecosystem, entries[queries.index_of(target_queries(t)[j])]),
    );
    assert(replies =~= replies_of(t, queries, entries));
    let found = target_outcome(t, queries, entries, cache_dir);
    if forall|j: int| 0 <= j < replies.len() ==> (#[trigger] replies[j]).1 is Some {
        assert(found =~= target_report(t, replies));
    } else {
        let j = choose|j: int| 0 <= j < replies.len() && !((#[trigger] replies[j]).1 is Some);
        assert(lacks_reply(replies));
        assert(found.skip(1) =~= target_report(t, replies));
    }
}

/// Every package with a pinned closure has a warning of its own, and no other
/// package has.
pub proof fn law_every_closure_is_reported(
    packages: Seq<(Seq<char>, LockedPackage)>,
    name: Seq<char>,
)
    ensures
        (exists|k: int|
            0 <= k < closure_views(packages).len() && (#[trigger] closure_views(
                packages,
            )[k]).package == name && closure_views(packages)[k].severity is Warn) <==> exists|i:
            int|
            0 <= i < packages.len() && (#[trigger] packages[i]).0 == name
                && packages[i].1.deps is Some,
        closure_views(packages).len() == packages.filter(
            |p: (Seq<char>, LockedPackage)| p.1.deps is Some,
        ).len(),
    decreases packages.len(),
{
    let keep = |p: (Seq<char>, LockedPackage)| p.1.deps is Some;
    if packages.len() == 0 {
        reveal(Seq::filter);
    } else {
        let tail = packages.skip(1);
        let all = closure_views(packages);
        let rest = closure_views(tail);
        law_every_closure_is_reported(tail, name);
        lemma_filter_first(packages, keep);
        let one = packages[0].1.deps is Some;
        let at = if one {
            1int
        } else {
            0
        };
        assert(forall|m: int| 0 <= m < rest.len() ==> all[m + at] == rest[m]);
        if exists|k: int| 0 <= k < all.len() && (#[trigger] all[k]).package == name
            && all[k].severity is Warn {
            let k = choose|k: int|
                0 <= k < all.len() && (#[trigger] all[k]).package == name
                    && all[k].severity is Warn;
            if one && k == 0 {
                assert(packages[0].0 == name);
            } else {
                assert(rest[k - at] == all[k]);
                let i = choose|i: int|
                    0 <= i < tail.len() && (#[trigger] tail[i]).0 == name && tail[i].1.deps is Some;
                assert(packages[i + 1] == tail[i]);
            }
        }
        if exists|i: int|
            0 <= i < packages.len() && (#[trigger] packages[i]).0 == name
                && packages[i].1.deps is Some {
            let i = choose|i: int|
                0 <= i < packages.len() && (#[trigger] packages[i]).0 == name
                    && packages[i].1.deps is Some;
            if i == 0 {
                assert(all[0].package == name);
            } else {
                assert(tail[i - 1] == packages[i]);
                let k = choose|k: int|
                    0 <= k < rest.len() && (#[trigger] rest[k]).package == name
                        && rest[k].severity is Warn;
                assert(all[k + at] == rest[k]);
            }
        }
    }
}

/// The batches follow on each other without a gap, from the first question to
/// the last, none of them empty or over a thousand.
pub proof fn law_batches_cover_all_questions(count: int, i: int)
    requires
        0 < count,
        0 <= i < (count + 999) / 1000,
    ensures
        batch_bounds(count, 0).0 == 0,
        batch_bounds(count, i).0 < batch_bounds(count, i).1 <= count,
        batch_bounds(count, i).1 - batch_bounds(count, i).0 <= 1000,
        i + 1 < (count + 999) / 1000 ==> batch_bounds(count, i).1 == batch_bounds(count, i + 1).0,
        i + 1 == (count + 999) / 1000 ==> batch_bounds(count, i).1 == count,
{
}

/// Of the targets exactly those count as unaudited that have a question without
/// a reply.
pub proof fn law_unaudited_targets_are_counted(
    ts: Seq<TargetView>,
    queries: Seq<QueryView>,
    entries: Seq<Option<ReplyView>>,
)
    ensures
        unaudited_count(ts, queries, entries) == ts.filter(
            |t: TargetView|
                exists|j: int|
                    0 <= j < target_queries(t).len() && entries[queries.index_of(
                        #[trigger] target_queries(t)[j],
                    )] is None,
        ).len(),
    decreases ts.len(),
{
    let open = |t: TargetView|
        exists|j: int|
            0 <= j < target_queries(t).len() && entries[queries.index_of(
                #[trigger] target_queries(t)[j],
            )] is None;
    reveal(Seq::filter);
    if ts.len() > 0 {
        law_unaudited_targets_are_counted(ts.drop_last(), queries, entries);
        let t = ts.last();
        let replies = replies_of(t, queries, entries);
        assert(is_unaudited(t, queries, entries) <==> open(t)) by {
            if is_unaudited(t, queries, entries) {
                let j = choose|j: int| 0 <= j < replies.len() && (#[trigger] replies[j]).1 is None;
                assert(entries[queries.index_of(target_queries(t)[j])] is None);
            }
            if open(t) {
                let j = choose|j: int|
                    0 <= j < target_queries(t).len() && entries[queries.index_of(
                        #[trigger] target_queries(t)[j],
                    )] is None;
                assert(replies[j].1 is None);
            }
        }
    }
}

/// The summary of an advisory is the first line of what is said of it, or else
/// its id; a long one is cut short and says so.
pub proof fn law_summaries_are_short_first_lines(vuln: JsonView)
    ensures
        summary_of(vuln).len() <= 160,
        ({
            let said = match vuln.text_at("summary"@) {
                Some(s) => s,
                None => match vuln.text_at("details"@) {
                    Some(s) => s,
                    None => Seq::empty(),
                },
            };
            let whole = if lines(said).len() > 0 && lines(said)[0].len() > 0 {
                lines(said)[0]
            } else {
                match vuln.text_at("id"@) {
                    Some(s) => s,
                    None => "unknown-vuln"@,
                }
            };
            &&& whole.len() <= 160 ==> summary_of(vuln) == whole
            &&& whole.len() > 160 ==> summary_of(vuln) == whole.take(157) + seq!['.', '.', '.']
        }),
{
    reveal_strlit("...");
    assert("..."@ =~= seq!['.', '.', '.']);
}

/// The CVE names of an advisory are those of its aliases that begin with `CVE-`.
pub proof fn law_every_cve_is_named(v: Seq<JsonView>, s: Seq<char>)
    ensures
        cve_names(v).contains(s) <==> "CVE-"@.is_prefix_of(s) && exists|i: int|
            0 <= i < v.len() && #[trigger] v[i] == JsonView::Text(s),
    decreases v.len(),
{
    let all = cve_names(v);
    if v.len() > 0 {
        let tail = v.skip(1);
        let rest = cve_names(tail);
        law_every_cve_is_named(tail, s);
        if all.contains(s) {
            let k = choose|k: int| 0 <= k < all.len() && all[k] == s;
            if rest.contains(s) {
                let i = choose|i: int| 0 <= i < tail.len() && #[trigger] tail[i] == JsonView::Text(s);
                assert(v[i + 1] == JsonView::Text(s));
            } else {
                if k > 0 || all.len() == rest.len() {
                    assert(rest[if all.len() == rest.len() {
                        k
                    } else {
                        k - 1
                    }] == s);
                }
                assert(v[0] == JsonView::Text(s));
            }
        }
        if "CVE-"@.is_prefix_of(s) && exists|i: int|
            0 <= i < v.len() && #[trigger] v[i] == JsonView::Text(s) {
            let i = choose|i: int| 0 <= i < v.len() && #[trigger] v[i] == JsonView::Text(s);
            if i == 0 {
                assert(all[0] == s);
            } else {
                assert(tail[i - 1] == JsonView::Text(s));
                assert(rest.contains(s));
                let k = choose|k: int| 0 <= k < rest.len() && rest[k] == s;
                if all.len() == rest.len() {
                    assert(all[k] == s);
                } else {
                    assert(all[k + 1] == s);
                }
            }
        }
    }
}

/// Advisories are counted by their ecosystem.
pub proof fn law_ecosystems_are_counted(v: Seq<AdvisoryView>, a: AdvisoryView, eco: Seq<char>)
    ensures
        eco_count(Seq::empty(), eco) == 0,
        a.ecosystem == eco ==> eco_count(v.push(a), eco) == eco_count(v, eco) + 1,
        a.ecosystem != eco ==> eco_count(v.push(a), eco) == eco_count(v, eco),
{
    assert(v.push(a).drop_last() =~= v);
}

/// A confirmed advisory is told of with its names, what it affects in which
/// version, where the version is from, and as of when.
pub proof fn law_confirmed_findings_tell_what_is_affected(t: TargetView, a: AdvisoryView)
    ensures
        t.version is Some && t.ecosystem == Some(a.ecosystem) && a.summary != a.id
            ==> confirmed_view(t, a).message == a.id + a.cves + ": "@ + a.summary + " — affects "@
            + t.name + " "@ + t.version->0 + " ["@ + a.ecosystem + "]; "@ + t.provenance
            + "; OSV data "@ + a.queried_at,
        t.version is Some && t.ecosystem == Some(a.ecosystem) && a.summary == a.id
            ==> confirmed_view(t, a).message == a.id + a.cves + " — affects "@ + t.name + " "@
            + t.version->0 + " ["@ + a.ecosystem + "]; "@ + t.provenance + "; OSV data "@
            + a.queried_at,
        confirmed_view(t, a).package == t.package,
        confirmed_view(t, a).severity is Error,
{
    if a.summary == a.id {
        assert(a.id + a.cves + Seq::<char>::empty() =~= a.id + a.cves);
    } else {
        assert(a.id + a.cves + (": "@ + a.summary) =~= a.id + a.cves + ": "@ + a.summary);
    }
}

} // verus!
