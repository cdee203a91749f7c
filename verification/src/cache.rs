//! The binary package cache: what keys a build, and what stays.
//!
//! A build is keyed by its input closure: everything that can change the
//! built artifact, written as deterministic JSON. The key is `v2:` and the
//! SHA-256 of that text.

use crate::digest::{hex_sha256, sha256};
use crate::json::{
    delimits, law_strings_delimit_themselves, lemma_assoc, lemma_glue, lemma_lists_delimit, lemma_optional_strings_delimit,
    lemma_same_prefix, quote,
    quote_or_null, quoted, quoted_or_null,
};
use crate::meta::{source_url, LockFile, PluginValue, SnapMeta, SnapPart, SourceSpec};
use crate::ordered::{
    ascending, keys_of, law_entries_are_determined, lemma_lookup, lemma_new_entry_at, lookup,
    sorted, stable_sort, Ordered, Ranked,
};
use crate::text::{
    decimal, hex_text, join, join_path, joined, lemma_text_lt_total, opt_text, path_in, str_eq,
    str_lt, text_lt, texts, to_decimal,
};
use vstd::prelude::*;
use vstd::utf8::encode_utf8;

verus! {

/// Cache statistics.
#[derive(Debug)]
pub struct CacheInfo {
    pub entries: usize,
    pub packages: usize,
    pub size_bytes: u64,
    pub root: String,
}

/// One member of the resolved `requires` closure.
#[derive(Debug)]
pub struct RequiresMember {
    pub name: String,
    /// Resolved revision (lockfile pin) or declared version, when known.
    pub pin: Option<String>,
    /// Content hash of the dependency, when the lockfile has one. `None`
    /// marks a dependency that is pinned by version at best.
    pub hash: Option<String>,
}

/// The canonical build-input closure: every input that can change the built
/// artifact.
///
/// ```json
/// {
///   "format_version": 2,
///   "parts": "<canonical parts JSON>",
///   "requires": [{"hash": "…|null", "name": "…", "pin": "…|null"}],
///   "source": "<sha256 of name:version:url, or none>",
///   "target": "<triplet or native>"
/// }
/// ```
#[derive(Debug)]
pub struct BuildClosure {
    /// SHA-256 over `name:version:url` (`none` for packages without source).
    pub source: String,
    /// Canonical parts JSON; empty when there are no parts.
    pub parts: String,
    /// Cross-compilation target triplet, or `native`.
    pub target: String,
    /// The resolved `requires` closure, by name, each name once.
    pub requires: Vec<RequiresMember>,
}

/// A member's pin and hash.
pub type MemberPin = (Option<Seq<char>>, Option<Seq<char>>);

/// The members of a closure: each name with its pin and hash.
pub open spec fn members(v: Seq<RequiresMember>) -> Seq<(Seq<char>, MemberPin)> {
    v.map_values(|m: RequiresMember| (m.name@, (opt_text(m.pin), opt_text(m.hash))))
}

/// The value of the first entry with the given key.
pub open spec fn first_lookup<V>(entries: Seq<(Seq<char>, V)>, key: Seq<char>) -> Option<V>
    decreases entries.len(),
{
    if entries.len() == 0 {
        None
    } else {
        match first_lookup(entries.drop_last(), key) {
            Some(v) => Some(v),
            None => if entries.last().0 == key {
                Some(entries.last().1)
            } else {
                None
            },
        }
    }
}

/// Whether `r` holds, by ascending name, the first member of each name in
/// `all`.
pub open spec fn is_canonical(
    r: Seq<(Seq<char>, MemberPin)>,
    all: Seq<(Seq<char>, MemberPin)>,
) -> bool {
    &&& ascending(keys_of(r))
    &&& forall|k: Seq<char>| #[trigger] lookup(r, k) == first_lookup(all, k)
}

/// The SHA-256 of a text in hexadecimal.
pub open spec fn text_sha256(s: Seq<char>) -> Seq<char> {
    hex_text(sha256(encode_utf8(s)))
}

/// The SHA-256 of a text in hexadecimal.
pub fn sha256_hex(input: &str) -> (r: String)
    ensures
        r@ == text_sha256(input@),
{
    hex_sha256(input.as_bytes())
}

/// What identifies a package's source: the digest of `name:version:url` for a
/// `source` package, `none` for any other.
pub open spec fn source_identity(meta: SnapMeta) -> Seq<char> {
    if opt_text(meta.type_) == Some("source"@) {
        let url = match meta.source {
            Some(s) => source_url(s),
            None => Seq::empty(),
        };
        text_sha256(meta.name@ + ":"@ + meta.version@ + ":"@ + url)
    } else {
        "none"@
    }
}

/// What identifies a package's source. The contents of the download are
/// pinned apart in the lockfile, so the key never needs the download.
pub fn source_identity_hash(meta: &SnapMeta) -> (r: String)
    ensures
        r@ == source_identity(*meta),
{
    let is_source: bool = match &meta.type_ {
        Some(t) => str_eq(t.as_str(), "source"),
        None => false,
    };
    if !is_source {
        return "none".to_owned();
    }
    let mut id = meta.name.clone();
    id.append(":");
    id.append(meta.version.as_str());
    id.append(":");
    match &meta.source {
        Some(s) => {
            id.append(s.url());
        },
        None => {
            assert(id@ + Seq::<char>::empty() =~= id@);
        },
    }
    sha256_hex(id.as_str())
}

// ── Parts ──

/// Texts as JSON strings.
pub open spec fn quoted_all(v: Seq<Seq<char>>) -> Seq<Seq<char>> {
    v.map_values(|s: Seq<char>| quoted(s))
}

/// The entries of a text table as JSON fields.
pub open spec fn table_fields(t: Seq<(Seq<char>, String)>) -> Seq<Seq<char>> {
    t.map_values(|e: (Seq<char>, String)| quoted(e.0) + ":"@ + quoted(e.1@))
}

/// A plugin option's value as JSON.
pub open spec fn option_text(v: PluginValue) -> Seq<char> {
    match v {
        PluginValue::Str(s) => quoted(s@),
        PluginValue::Bool(b) => if b {
            "true"@
        } else {
            "false"@
        },
        PluginValue::Table(t) => "{"@ + joined(table_fields(t@), ","@) + "}"@,
    }
}

/// Plugin options as JSON fields.
pub open spec fn option_fields(t: Seq<(Seq<char>, PluginValue)>) -> Seq<Seq<char>> {
    t.map_values(|e: (Seq<char>, PluginValue)| quoted(e.0) + ":"@ + option_text(e.1))
}

/// The plugin fields of a part: nothing without a plugin, else the options
/// where there are any, the plugin and the registry's version.
pub open spec fn plugin_fields(part: SnapPart) -> Seq<char> {
    match part.plugin {
        None => Seq::empty(),
        Some(p) => (match part.plugin_options {
            Some(o) => ",\"options\":{"@ + joined(option_fields(o@), ","@) + "}"@,
            None => Seq::empty(),
        }) + ",\"plugin\":"@ + quoted(p@) + ",\"plugin_version\":\"2\""@,
    }
}

/// One part as JSON.
pub open spec fn part_text(name: Seq<char>, part: SnapPart) -> Seq<char> {
    "{\"after\":["@ + joined(quoted_all(texts(part.after@)), ","@) + "],\"build\":"@ + quoted(
        part.build@,
    ) + ",\"name\":"@ + quoted(name) + plugin_fields(part) + "}"@
}

/// Parts as JSON: an array by name.
pub open spec fn parts_text(parts: Seq<(Seq<char>, SnapPart)>) -> Seq<char> {
    "["@ + joined(parts.map_values(|e: (Seq<char>, SnapPart)| part_text(e.0, e.1)), ","@) + "]"@
}

fn render_after(v: &Vec<String>) -> (r: String)
    ensures
        r@ == joined(quoted_all(texts(v@)), ","@),
{
    let mut items: Vec<String> = Vec::new();
    let mut i: usize = 0;
    let ghost all = quoted_all(texts(v@));
    while i < v.len()
        invariant
            i <= v.len(),
            all == quoted_all(texts(v@)),
            texts(items@) == all.take(i as int),
        decreases v.len() - i,
    {
        let ghost before = items@;
        items.push(quote(v[i].as_str()));
        assert(texts(items@) =~= texts(before).push(all[i as int]));
        assert(all.take(i + 1) =~= all.take(i as int).push(all[i as int]));
        i += 1;
    }
    assert(all.take(i as int) =~= all);
    join(&items, ",")
}

fn render_table(t: &Ordered<String>) -> (r: String)
    ensures
        r@ == joined(table_fields(t@), ","@),
{
    let mut items: Vec<String> = Vec::new();
    let mut i: usize = 0;
    let ghost all = table_fields(t@);
    while i < t.len()
        invariant
            i <= t@.len(),
            all == table_fields(t@),
            texts(items@) == all.take(i as int),
        decreases t@.len() - i,
    {
        let ghost before = items@;
        let mut field = quote(t.key_at(i).as_str());
        field.append(":");
        field.append(quote(t.value_at(i).as_str()).as_str());
        items.push(field);
        assert(texts(items@) =~= texts(before).push(all[i as int]));
        assert(all.take(i + 1) =~= all.take(i as int).push(all[i as int]));
        i += 1;
    }
    assert(all.take(i as int) =~= all);
    join(&items, ",")
}

fn render_option(v: &PluginValue) -> (r: String)
    ensures
        r@ == option_text(*v),
{
    match v {
        PluginValue::Str(s) => quote(s.as_str()),
        PluginValue::Bool(b) => if *b {
            "true".to_owned()
        } else {
            "false".to_owned()
        },
        PluginValue::Table(t) => {
            let mut out = "{".to_owned();
            out.append(render_table(t).as_str());
            out.append("}");
            out
        },
    }
}

fn render_options(t: &Ordered<PluginValue>) -> (r: String)
    ensures
        r@ == joined(option_fields(t@), ","@),
{
    let mut items: Vec<String> = Vec::new();
    let mut i: usize = 0;
    let ghost all = option_fields(t@);
    while i < t.len()
        invariant
            i <= t@.len(),
            all == option_fields(t@),
            texts(items@) == all.take(i as int),
        decreases t@.len() - i,
    {
        let ghost before = items@;
        let mut field = quote(t.key_at(i).as_str());
        field.append(":");
        field.append(render_option(t.value_at(i)).as_str());
        items.push(field);
        assert(texts(items@) =~= texts(before).push(all[i as int]));
        assert(all.take(i + 1) =~= all.take(i as int).push(all[i as int]));
        i += 1;
    }
    assert(all.take(i as int) =~= all);
    join(&items, ",")
}

fn render_part(name: &str, part: &SnapPart) -> (r: String)
    ensures
        r@ == part_text(name@, *part),
{
    let mut out = "{\"after\":[".to_owned();
    out.append(render_after(&part.after).as_str());
    out.append("],\"build\":");
    out.append(quote(part.build.as_str()).as_str());
    out.append(",\"name\":");
    out.append(quote(name).as_str());
    let mut more = String::new();
    match &part.plugin {
        None => {},
        Some(p) => {
            match &part.plugin_options {
                Some(o) => {
                    more.append(",\"options\":{");
                    assert(more@ =~= ",\"options\":{"@);
                    more.append(render_options(o).as_str());
                    more.append("}");
                },
                None => {},
            }
            more.append(",\"plugin\":");
            more.append(quote(p.as_str()).as_str());
            more.append(",\"plugin_version\":\"2\"");
        },
    }
    assert(more@ =~= plugin_fields(*part));
    out.append(more.as_str());
    out.append("}");
    out
}

/// Canonical JSON for a parts spec: parts by name, each with its command and
/// its `after` edges. A plugin part adds the plugin, the registry's version
/// and the options by name.
pub fn canonical_parts_json(parts: &Ordered<SnapPart>) -> (r: String)
    ensures
        r@ == parts_text(parts@),
{
    let mut items: Vec<String> = Vec::new();
    let mut i: usize = 0;
    let ghost all = parts@.map_values(|e: (Seq<char>, SnapPart)| part_text(e.0, e.1));
    while i < parts.len()
        invariant
            i <= parts@.len(),
            all == parts@.map_values(|e: (Seq<char>, SnapPart)| part_text(e.0, e.1)),
            texts(items@) == all.take(i as int),
        decreases parts@.len() - i,
    {
        let ghost before = items@;
        items.push(render_part(parts.key_at(i).as_str(), parts.value_at(i)));
        assert(texts(items@) =~= texts(before).push(all[i as int]));
        assert(all.take(i + 1) =~= all.take(i as int).push(all[i as int]));
        i += 1;
    }
    assert(all.take(i as int) =~= all);
    let mut out = "[".to_owned();
    out.append(join(&items, ",").as_str());
    out.append("]");
    out
}

// ── The closure ──

/// One member as JSON.
pub open spec fn member_text(m: (Seq<char>, MemberPin)) -> Seq<char> {
    "{\"hash\":"@ + quoted_or_null(m.1.1) + ",\"name\":"@ + quoted(m.0) + ",\"pin\":"@
        + quoted_or_null(m.1.0) + "}"@
}

/// The canonical JSON of a closure.
pub open spec fn closure_text(
    source: Seq<char>,
    parts: Seq<char>,
    target: Seq<char>,
    required: Seq<(Seq<char>, MemberPin)>,
) -> Seq<char> {
    "{\"format_version\":2,\"parts\":"@ + quoted(parts) + ",\"requires\":["@ + joined(
        required.map_values(|m: (Seq<char>, MemberPin)| member_text(m)),
        ","@,
    ) + "],\"source\":"@ + quoted(source) + ",\"target\":"@ + quoted(target) + "}"@
}

/// The canonical JSON of a closure.
pub open spec fn closure_json(c: BuildClosure) -> Seq<char> {
    closure_text(c.source@, c.parts@, c.target@, members(c.requires@))
}

impl BuildClosure {
    /// The closure of a package from its resolved `requires` members. Members
    /// come by name and each name once, so the order in which dependencies
    /// were walked never affects the key.
    pub fn for_meta(meta: &SnapMeta, required: Vec<RequiresMember>) -> (r: BuildClosure)
        ensures
            r.source@ == source_identity(*meta),
            r.parts@ == match meta.parts {
                Some(p) => parts_text(p@),
                None => Seq::empty(),
            },
            r.target@ == match meta.target {
                Some(t) => t@,
                None => "native"@,
            },
            is_canonical(members(r.requires@), members(required@)),
    {
        let ghost all = members(required@);
        let mut rest = required;
        let mut out: Vec<RequiresMember> = Vec::new();
        let ghost mut n: int = 0;
        assert(members(out@) =~= Seq::empty());
        assert(all.take(0) =~= Seq::empty());
        while rest.len() > 0
            invariant
                0 <= n <= all.len(),
                members(rest@) == all.skip(n),
                is_canonical(members(out@), all.take(n)),
            decreases rest.len(),
        {
            let ghost before = members(out@);
            let ghost left = rest@;
            assert(members(left).len() == left.len());
            assert(members(left)[0] == all.skip(n)[0]);
            let m = rest.remove(0);
            assert(members(rest@) =~= members(left).skip(1));
            assert(members(rest@) =~= all.skip(n + 1));
            assert(all.take(n + 1).drop_last() =~= all.take(n));
            assert(all.take(n + 1).last() == all[n]);
            let mut i: usize = 0;
            while i < out.len() && str_lt(out[i].name.as_str(), m.name.as_str())
                invariant
                    i <= out.len(),
                    before == members(out@),
                    forall|j: int| 0 <= j < i ==> text_lt((#[trigger] before[j]).0, m.name@),
                decreases out.len() - i,
            {
                assert(before[i as int].0 == out@[i as int].name@);
                i += 1;
            }
            let ghost key = m.name@;
            let ghost pin = (opt_text(m.pin), opt_text(m.hash));
            let known: bool = i < out.len() && str_eq(out[i].name.as_str(), m.name.as_str());
            proof {
                lemma_lookup(before, key);
                if i < before.len() {
                    assert(before[i as int].0 == out@[i as int].name@);
                    lemma_text_lt_total(before[i as int].0, key);
                }
            }
            if known {
                proof {
                    assert(before[i as int].0 == key);
                    crate::ordered::lemma_lookup_at(before, i as int);
                    assert forall|k: Seq<char>| #[trigger] lookup(before, k) == first_lookup(
                        all.take(n + 1),
                        k,
                    ) by {
                        assert(lookup(before, k) == first_lookup(all.take(n), k));
                    }
                }
            } else {
                out.insert(i, m);
                proof {
                    assert(members(out@) =~= before.insert(i as int, (key, pin)));
                    lemma_new_entry_at(before, i as int, key, pin);
                    assert forall|k: Seq<char>| #[trigger] lookup(members(out@), k)
                        == first_lookup(all.take(n + 1), k) by {
                        assert(lookup(before, k) == first_lookup(all.take(n), k));
                        if k == key {
                            lemma_absent(before, i as int, key);
                        }
                    }
                }
            }
            proof {
                n = n + 1;
            }
        }
        assert(members(rest@).len() == rest@.len());
        assert(all.take(n) =~= all);
        let parts = match &meta.parts {
            Some(p) => canonical_parts_json(p),
            None => String::new(),
        };
        let target = match &meta.target {
            Some(t) => t.clone(),
            None => "native".to_owned(),
        };
        BuildClosure { source: source_identity_hash(meta), parts, target, requires: out }
    }

    /// Deterministic canonical JSON of the closure.
    pub fn canonical_json(&self) -> (r: String)
        ensures
            r@ == closure_json(*self),
    {
        let mut items: Vec<String> = Vec::new();
        let mut i: usize = 0;
        let ghost ms = members(self.requires@);
        let ghost all = ms.map_values(|m: (Seq<char>, MemberPin)| member_text(m));
        while i < self.requires.len()
            invariant
                i <= self.requires.len(),
                ms == members(self.requires@),
                all == ms.map_values(|m: (Seq<char>, MemberPin)| member_text(m)),
                texts(items@) == all.take(i as int),
            decreases self.requires.len() - i,
        {
            let ghost before = items@;
            let m = &self.requires[i];
            let mut item = "{\"hash\":".to_owned();
            item.append(quote_or_null(&m.hash).as_str());
            item.append(",\"name\":");
            item.append(quote(m.name.as_str()).as_str());
            item.append(",\"pin\":");
            item.append(quote_or_null(&m.pin).as_str());
            item.append("}");
            items.push(item);
            assert(texts(items@) =~= texts(before).push(all[i as int]));
            assert(all.take(i + 1) =~= all.take(i as int).push(all[i as int]));
            i += 1;
        }
        assert(all.take(i as int) =~= all);
        let mut out = "{\"format_version\":2,\"parts\":".to_owned();
        out.append(quote(self.parts.as_str()).as_str());
        out.append(",\"requires\":[");
        out.append(join(&items, ",").as_str());
        out.append("],\"source\":");
        out.append(quote(self.source.as_str()).as_str());
        out.append(",\"target\":");
        out.append(quote(self.target.as_str()).as_str());
        out.append("}");
        out
    }

    /// The cache key: `v2:` and the SHA-256 of the canonical JSON.
    pub fn cache_key(&self) -> (r: String)
        ensures
            r@ == key_text(*self),
    {
        let mut out = "v2:".to_owned();
        out.append(sha256_hex(self.canonical_json().as_str()).as_str());
        out
    }
}

/// The cache key of a closure.
pub open spec fn key_text(c: BuildClosure) -> Seq<char> {
    "v2:"@ + text_sha256(closure_json(c))
}

/// A key below the entry at `i` and above those before it is not there.
proof fn lemma_absent<V>(a: Seq<(Seq<char>, V)>, i: int, key: Seq<char>)
    requires
        ascending(keys_of(a)),
        0 <= i <= a.len(),
        forall|j: int| 0 <= j < i ==> text_lt((#[trigger] a[j]).0, key),
        i < a.len() ==> text_lt(key, a[i].0),
    ensures
        lookup(a, key) is None,
{
    lemma_lookup(a, key);
    if lookup(a, key) is Some {
        let j = choose|j: int|
            0 <= j < a.len() && #[trigger] a[j] == (key, lookup(a, key)->Some_0);
        lemma_text_lt_total(key, key);
        if j >= i {
            let ks = keys_of(a);
            if j > i {
                assert(text_lt(ks[i], ks[j]));
                crate::text::lemma_text_lt_transitive(key, ks[i], ks[j]);
            }
        }
    }
}

/// The member that the lockfile pins under `name`: its revision and digest.
/// Where there is no pin the caller falls back to the declared version.
pub fn pinned_member(name: &str, lock: &LockFile) -> (r: Option<RequiresMember>)
    ensures
        match r {
            Some(m) => lookup(lock.snaps@, name@) is Some && m.name@ == name@ && opt_text(m.pin)
                == Some(decimal(lookup(lock.snaps@, name@)->Some_0.revision as nat)) && opt_text(
                m.hash,
            ) == Some(lookup(lock.snaps@, name@)->Some_0.sha3_384@),
            None => lookup(lock.snaps@, name@) is None,
        },
{
    match lock.snaps.get(name) {
        Some(snap) => Some(
            RequiresMember {
                name: name.to_owned(),
                pin: Some(to_decimal(snap.revision as u64)),
                hash: Some(snap.sha3_384.clone()),
            },
        ),
        None => None,
    }
}

// ── The cache ──

/// One directory of the cache: all packages built from one closure.
#[derive(Debug)]
pub struct CacheDir {
    pub path: String,
    /// When it was last changed, in nanoseconds since the epoch.
    pub modified: i128,
    /// When it was last accessed, in nanoseconds since the epoch.
    pub accessed: i128,
    /// The sizes of the files in it.
    pub files: Vec<u64>,
}

/// Binary package cache for built snaps.
#[derive(Debug)]
pub struct PackageCache {
    root: String,
    max_size: Option<u64>,
}

/// The default cache directory below the home directory.
pub open spec fn default_root(home: Seq<char>) -> Seq<char> {
    path_in(path_in(path_in(home, ".cache"@), "shuttle"@), "pkgs"@)
}

/// The file name of a built package.
pub open spec fn snap_filename(meta: SnapMeta, arch: Seq<char>) -> Seq<char> {
    meta.name@ + "_"@ + meta.version@ + "_"@ + arch + ".snap"@
}

/// The sum of sizes.
pub open spec fn total(sizes: Seq<u64>) -> int
    decreases sizes.len(),
{
    if sizes.len() == 0 {
        0
    } else {
        total(sizes.drop_last()) + sizes.last()
    }
}

/// The sizes of the first `n` directories.
pub open spec fn size_of_dirs(dirs: Seq<CacheDir>, n: int) -> int
    decreases n,
{
    if n <= 0 {
        0
    } else {
        size_of_dirs(dirs, n - 1) + total(dirs[n - 1].files@)
    }
}

/// The number of files in the first `n` directories.
pub open spec fn files_in_dirs(dirs: Seq<CacheDir>, n: int) -> int
    decreases n,
{
    if n <= 0 {
        0
    } else {
        files_in_dirs(dirs, n - 1) + dirs[n - 1].files@.len()
    }
}

proof fn lemma_total_grows(sizes: Seq<u64>, k: int)
    requires
        0 <= k <= sizes.len(),
    ensures
        0 <= total(sizes.take(k)) <= total(sizes) <= sizes.len() * u64::MAX,
    decreases sizes.len(),
{
    if k == sizes.len() {
        assert(sizes.take(k) =~= sizes);
        if k > 0 {
            lemma_total_grows(sizes.drop_last(), k - 1);
        }
    } else {
        lemma_total_grows(sizes.drop_last(), k);
        assert(sizes.drop_last().take(k) =~= sizes.take(k));
    }
    assert(sizes.len() > 0 ==> sizes.len() * u64::MAX == (sizes.len() - 1) * u64::MAX + u64::MAX)
        by (nonlinear_arith);
}

proof fn lemma_dirs_grow(dirs: Seq<CacheDir>, k: int, n: int)
    requires
        0 <= k <= n <= dirs.len(),
    ensures
        0 <= size_of_dirs(dirs, k) <= size_of_dirs(dirs, n),
        0 <= files_in_dirs(dirs, k) <= files_in_dirs(dirs, n),
    decreases n,
{
    if n > 0 {
        lemma_total_grows(dirs[n - 1].files@, 0);
        if k < n {
            lemma_dirs_grow(dirs, k, n - 1);
        } else {
            lemma_dirs_grow(dirs, k - 1, n - 1);
        }
    }
}

/// The sum of sizes.
fn sum_sizes(sizes: &Vec<u64>) -> (r: u128)
    requires
        total(sizes@) <= u128::MAX,
    ensures
        r == total(sizes@),
{
    let mut sum: u128 = 0;
    let mut i: usize = 0;
    assert(sizes@.take(0) =~= Seq::<u64>::empty());
    while i < sizes.len()
        invariant
            i <= sizes.len(),
            total(sizes@) <= u128::MAX,
            sum == total(sizes@.take(i as int)),
        decreases sizes.len() - i,
    {
        assert(sizes@.take(i + 1).drop_last() =~= sizes@.take(i as int));
        proof {
            lemma_total_grows(sizes@, i + 1);
        }
        sum = sum + sizes[i] as u128;
        i += 1;
    }
    assert(sizes@.take(i as int) =~= sizes@);
    sum
}

/// A directory that stands to be evicted: when it was last changed, its place
/// in the listing and its size.
pub struct Candidate {
    pub modified: i128,
    pub index: usize,
    pub size: u128,
}

impl Ranked for Candidate {
    open spec fn ranks(self, other: Self) -> bool {
        self.modified <= other.modified
    }

    fn rank(&self, other: &Self) -> (r: bool) {
        self.modified <= other.modified
    }
}

/// The sum of the candidates' sizes.
pub open spec fn candidates_size(v: Seq<Candidate>) -> int
    decreases v.len(),
{
    if v.len() == 0 {
        0
    } else {
        v[0].size + candidates_size(v.skip(1))
    }
}

/// How many candidates go, from the front, until the others fit in `target`.
pub open spec fn evicted(v: Seq<Candidate>, target: int) -> nat
    decreases v.len(),
{
    if candidates_size(v) <= target || v.len() == 0 {
        0
    } else {
        evicted(v.skip(1), target) + 1
    }
}

/// The candidates for the first `n` directories, in listing order.
pub open spec fn candidates(dirs: Seq<CacheDir>, n: int) -> Seq<Candidate>
    decreases n,
{
    if n <= 0 {
        Seq::empty()
    } else {
        candidates(dirs, n - 1).push(
            Candidate {
                modified: dirs[n - 1].modified,
                index: (n - 1) as usize,
                size: total(dirs[n - 1].files@) as u128,
            },
        )
    }
}

/// The places in the listing of the directories that go: oldest first, until
/// the others fit in `target`.
pub open spec fn evictions(dirs: Seq<CacheDir>, target: int) -> Seq<usize> {
    let v = sorted(candidates(dirs, dirs.len() as int));
    v.take(evicted(v, target) as int).map_values(|c: Candidate| c.index)
}

/// What stays after an eviction fits in the target, and with one directory
/// fewer evicted it would not have.
pub proof fn law_eviction_is_enough_and_no_more(v: Seq<Candidate>, target: int)
    requires
        0 <= target,
    ensures
        evicted(v, target) <= v.len(),
        candidates_size(v.skip(evicted(v, target) as int)) <= target,
        evicted(v, target) > 0 ==> candidates_size(v.skip(evicted(v, target) as int - 1)) > target,
    decreases v.len(),
{
    if candidates_size(v) <= target || v.len() == 0 {
        assert(v.skip(0) =~= v);
    } else {
        let r = v.skip(1);
        law_eviction_is_enough_and_no_more(r, target);
        let k = evicted(r, target) as int;
        assert(r.skip(k) =~= v.skip(k + 1));
        if k > 0 {
            assert(r.skip(k - 1) =~= v.skip(k));
        } else {
            assert(v.skip(0) =~= v);
        }
    }
}

proof fn lemma_candidates(dirs: Seq<CacheDir>, n: int)
    requires
        0 <= n <= dirs.len() <= usize::MAX,
    ensures
        candidates(dirs, n).len() == n,
    decreases n,
{
    if n > 0 {
        lemma_candidates(dirs, n - 1);
    }
}

proof fn lemma_sorted_size(v: Seq<Candidate>)
    ensures
        candidates_size(sorted(v)) == candidates_size(v),
    decreases v.len(),
{
    if v.len() > 0 {
        lemma_sorted_size(v.drop_last());
        lemma_insert_size(sorted(v.drop_last()), v.last());
        lemma_size_push(v.drop_last(), v.last());
        assert(v =~= v.drop_last().push(v.last()));
    }
}

proof fn lemma_insert_size(v: Seq<Candidate>, x: Candidate)
    ensures
        candidates_size(crate::ordered::insert_ranked(v, x)) == candidates_size(v) + x.size,
    decreases v.len(),
{
    if v.len() == 0 || v.last().ranks(x) {
        lemma_size_push(v, x);
    } else {
        lemma_insert_size(v.drop_last(), x);
        lemma_size_push(crate::ordered::insert_ranked(v.drop_last(), x), v.last());
        lemma_size_push(v.drop_last(), v.last());
        assert(v =~= v.drop_last().push(v.last()));
    }
}

proof fn lemma_size_push(v: Seq<Candidate>, x: Candidate)
    ensures
        candidates_size(v.push(x)) == candidates_size(v) + x.size,
    decreases v.len(),
{
    if v.len() == 0 {
        assert(v.push(x).skip(1) =~= v);
    } else {
        lemma_size_push(v.skip(1), x);
        assert(v.push(x).skip(1) =~= v.skip(1).push(x));
        assert(v.push(x)[0] == v[0]);
    }
}

proof fn lemma_candidates_size(dirs: Seq<CacheDir>, n: int)
    requires
        0 <= n <= dirs.len(),
        size_of_dirs(dirs, dirs.len() as int) <= u128::MAX,
    ensures
        candidates_size(candidates(dirs, n)) == size_of_dirs(dirs, n),
    decreases n,
{
    if n > 0 {
        lemma_candidates_size(dirs, n - 1);
        lemma_dirs_grow(dirs, n - 1, n);
        lemma_dirs_grow(dirs, n, dirs.len() as int);
        lemma_total_grows(dirs[n - 1].files@, 0);
        lemma_size_push(
            candidates(dirs, n - 1),
            candidates(dirs, n).last(),
        );
    }
}

/// Whether a directory last accessed at `accessed` was not accessed for
/// `max_days` at the instant `now` (both in nanoseconds since the epoch).
pub open spec fn is_stale(now: int, accessed: int, max_days: int) -> bool {
    now - accessed > max_days * 86_400_000_000_000
}

/// A place where it is among the files that are present.
pub open spec fn found_among(place: Option<Seq<char>>, present: Seq<Seq<char>>) -> Option<
    Seq<char>,
> {
    match place {
        Some(p) => if present.contains(p) {
            Some(p)
        } else {
            None
        },
        None => None,
    }
}

impl PackageCache {
    /// The cache's directory.
    pub closed spec fn root_path(&self) -> Seq<char> {
        self.root@
    }

    /// The size above which storing evicts the oldest directories.
    pub closed spec fn limit(&self) -> Option<u64> {
        self.max_size
    }

    /// A cache at `dir`; by default below the home directory `home`.
    pub fn new(dir: Option<String>, home: &str) -> (r: PackageCache)
        ensures
            r.root_path() == match dir {
                Some(d) => d@,
                None => default_root(home@),
            },
            r.limit() is None,
    {
        let root = match dir {
            Some(d) => d,
            None => {
                let a = join_path(home, ".cache");
                let b = join_path(a.as_str(), "shuttle");
                join_path(b.as_str(), "pkgs")
            },
        };
        PackageCache { root, max_size: None }
    }

    /// The cache with a maximum size in bytes, above which storing evicts the
    /// oldest directories.
    pub fn with_max_size(self, bytes: u64) -> (r: PackageCache)
        ensures
            r.root_path() == self.root_path(),
            r.limit() == Some(bytes),
    {
        PackageCache { root: self.root, max_size: Some(bytes) }
    }

    /// The cache's directory.
    pub fn root(&self) -> (r: &str)
        ensures
            r@ == self.root_path(),
    {
        self.root.as_str()
    }

    /// Where the package of `meta` for `arch` stands under a closure. A
    /// package that adopts its version has none: its key cannot tell two
    /// upstream versions apart.
    pub open spec fn place_of(&self, meta: SnapMeta, arch: Seq<char>, closure: BuildClosure) -> Option<
        Seq<char>,
    > {
        if meta.adopt_info is Some {
            None
        } else {
            Some(
                path_in(
                    path_in(self.root_path(), key_text(closure)),
                    snap_filename(meta, arch),
                ),
            )
        }
    }

    /// Where the package of `meta` for `arch` stands under a closure.
    pub fn place(&self, meta: &SnapMeta, arch: &str, closure: &BuildClosure) -> (r: Option<String>)
        ensures
            opt_text(r) == self.place_of(*meta, arch@, *closure),
    {
        if meta.adopt_info.is_some() {
            return None;
        }
        let dir = join_path(self.root.as_str(), closure.cache_key().as_str());
        let mut name = meta.name.clone();
        name.append("_");
        name.append(meta.version.as_str());
        name.append("_");
        name.append(arch);
        name.append(".snap");
        Some(join_path(dir.as_str(), name.as_str()))
    }

    /// The cached package of `meta` for `arch` under a closure, where it is
    /// among the files `present` in the cache.
    pub fn lookup(
        &self,
        meta: &SnapMeta,
        arch: &str,
        closure: &BuildClosure,
        present: &Vec<String>,
    ) -> (r: Option<String>)
        ensures
            opt_text(r) == found_among(self.place_of(*meta, arch@, *closure), texts(present@)),
    {
        match self.place(meta, arch, closure) {
            Some(p) => if crate::text::list_contains(present, p.as_str()) {
                Some(p)
            } else {
                None
            },
            None => None,
        }
    }

    /// The directory into which a built package is stored, if it is.
    pub open spec fn store_of(&self, meta: SnapMeta, closure: BuildClosure) -> Option<Seq<char>> {
        if closure.source@ == "none"@ || meta.adopt_info is Some {
            None
        } else {
            Some(path_in(self.root_path(), key_text(closure)))
        }
    }

    /// Where a built package is stored under a file name, if it is.
    pub fn store_place(&self, meta: &SnapMeta, closure: &BuildClosure, file: &str) -> (r: Option<
        String,
    >)
        ensures
            opt_text(r) == match self.store_of(*meta, *closure) {
                Some(dir) => Some(path_in(dir, file@)),
                None => None,
            },
    {
        match self.store_dir(meta, closure) {
            Some(dir) => Some(join_path(dir.as_str(), file)),
            None => None,
        }
    }

    /// The directory into which a built package is stored. Nothing is stored
    /// for a package without source, which is trivial, nor for one that
    /// adopts its version.
    pub fn store_dir(&self, meta: &SnapMeta, closure: &BuildClosure) -> (r: Option<String>)
        ensures
            opt_text(r) == self.store_of(*meta, *closure),
    {
        if str_eq(closure.source.as_str(), "none") || meta.adopt_info.is_some() {
            return None;
        }
        Some(join_path(self.root.as_str(), closure.cache_key().as_str()))
    }

    /// The statistics of the listed cache.
    pub fn info(&self, dirs: &Vec<CacheDir>) -> (r: CacheInfo)
        requires
            size_of_dirs(dirs@, dirs@.len() as int) <= u64::MAX,
            files_in_dirs(dirs@, dirs@.len() as int) <= usize::MAX,
        ensures
            r.entries == dirs@.len(),
            r.packages == files_in_dirs(dirs@, dirs@.len() as int),
            r.size_bytes == size_of_dirs(dirs@, dirs@.len() as int),
            r.root@ == self.root_path(),
    {
        let mut packages: usize = 0;
        let mut size: u64 = 0;
        let mut i: usize = 0;
        while i < dirs.len()
            invariant
                i <= dirs.len(),
                size_of_dirs(dirs@, dirs@.len() as int) <= u64::MAX,
                files_in_dirs(dirs@, dirs@.len() as int) <= usize::MAX,
                packages == files_in_dirs(dirs@, i as int),
                size == size_of_dirs(dirs@, i as int),
            decreases dirs.len() - i,
        {
            proof {
                lemma_dirs_grow(dirs@, i + 1, dirs@.len() as int);
                lemma_dirs_grow(dirs@, i as int, i + 1);
                lemma_total_grows(dirs@[i as int].files@, 0);
            }
            packages = packages + dirs[i].files.len();
            size = size + sum_sizes(&dirs[i].files) as u64;
            i += 1;
        }
        CacheInfo { entries: dirs.len(), packages, size_bytes: size, root: self.root.clone() }
    }

    /// The places in the listing of the directories not accessed for `max_days`.
    pub fn prune(&self, dirs: &Vec<CacheDir>, now: i128, max_days: u64) -> (r: Vec<usize>)
        requires
            -0x100_0000_0000_0000_0000_0000_0000 <= now <= 0x100_0000_0000_0000_0000_0000_0000,
            forall|i: int|
                0 <= i < dirs@.len() ==> -0x100_0000_0000_0000_0000_0000_0000 <= (
                #[trigger] dirs@[i]).accessed <= 0x100_0000_0000_0000_0000_0000_0000,
        ensures
            forall|k: int| 0 <= k < r@.len() ==> #[trigger] r@[k] < dirs@.len(),
            forall|k: int, m: int|
                0 <= k < m < r@.len() ==> #[trigger] r@[k] < #[trigger] r@[m],
            forall|i: int|
                0 <= i < dirs@.len() ==> (is_stale(
                    now as int,
                    (#[trigger] dirs@[i]).accessed as int,
                    max_days as int,
                ) <==> r@.contains(i as usize)),
    {
        let mut out: Vec<usize> = Vec::new();
        let mut i: usize = 0;
        while i < dirs.len()
            invariant
                i <= dirs.len(),
                -0x100_0000_0000_0000_0000_0000_0000 <= now <= 0x100_0000_0000_0000_0000_0000_0000,
                forall|k: int|
                    0 <= k < dirs@.len() ==> -0x100_0000_0000_0000_0000_0000_0000 <= (
                    #[trigger] dirs@[k]).accessed <= 0x100_0000_0000_0000_0000_0000_0000,
                forall|k: int| 0 <= k < out@.len() ==> #[trigger] out@[k] < i,
                forall|k: int, m: int|
                    0 <= k < m < out@.len() ==> #[trigger] out@[k] < #[trigger] out@[m],
                forall|a: int|
                    0 <= a < i ==> (is_stale(
                        now as int,
                        (#[trigger] dirs@[a]).accessed as int,
                        max_days as int,
                    ) <==> out@.contains(a as usize)),
            decreases dirs.len() - i,
        {
            let ghost before = out@;
            let age: i128 = now - dirs[i].accessed;
            let most: i128 = max_days as i128 * 86_400_000_000_000;
            if age > most {
                out.push(i);
                assert(out@[before.len() as int] == i);
            }
            assert forall|a: int| 0 <= a < i + 1 implies (is_stale(
                now as int,
                (#[trigger] dirs@[a]).accessed as int,
                max_days as int,
            ) <==> out@.contains(a as usize)) by {
                if a < i {
                    if before.contains(a as usize) {
                        let k = choose|k: int| 0 <= k < before.len() && before[k] == a as usize;
                        assert(out@[k] == a as usize);
                    }
                    if out@.contains(a as usize) {
                        let k = choose|k: int| 0 <= k < out@.len() && out@[k] == a as usize;
                        assert(before[k] == a as usize);
                    }
                } else if out@.contains(a as usize) {
                    let k = choose|k: int| 0 <= k < out@.len() && out@[k] == a as usize;
                    if k < before.len() {
                        assert(before[k] < i);
                    }
                }
            }
            i += 1;
        }
        out
    }

    /// The places in the listing of the directories that storing evicts:
    /// where the cache has a limit and is over it, the oldest, until the
    /// others fit.
    pub fn prune_stale(&self, dirs: &Vec<CacheDir>) -> (r: Vec<usize>)
        requires
            size_of_dirs(dirs@, dirs@.len() as int) <= u128::MAX,
        ensures
            r@ == match self.limit() {
                Some(max) => evictions(dirs@, max as int),
                None => Seq::<usize>::empty(),
            },
    {
        let target: u64 = match self.max_size {
            Some(m) => m,
            None => {
                return Vec::new();
            },
        };
        let n: usize = dirs.len();
        let mut list: Vec<Candidate> = Vec::new();
        let mut left: u128 = 0;
        let mut i: usize = 0;
        while i < n
            invariant
                i <= n,
                n == dirs@.len(),
                size_of_dirs(dirs@, n as int) <= u128::MAX,
                list@ == candidates(dirs@, i as int),
                left == size_of_dirs(dirs@, i as int),
            decreases n - i,
        {
            proof {
                lemma_dirs_grow(dirs@, i + 1, n as int);
                lemma_dirs_grow(dirs@, i as int, i + 1);
                lemma_total_grows(dirs@[i as int].files@, 0);
            }
            let size: u128 = sum_sizes(&dirs[i].files);
            list.push(Candidate { modified: dirs[i].modified, index: i, size });
            left = left + size;
            i += 1;
        }
        proof {
            lemma_candidates_size(dirs@, n as int);
            lemma_sorted_size(list@);
        }
        let ordered = stable_sort(list);
        let ghost v = ordered@;
        let ghost all = v.map_values(|c: Candidate| c.index);
        let mut out: Vec<usize> = Vec::new();
        let mut k: usize = 0;
        assert(v.skip(0) =~= v);
        while k < ordered.len() && left > target as u128
            invariant
                v == ordered@,
                k <= v.len(),
                all == v.map_values(|c: Candidate| c.index),
                left == candidates_size(v.skip(k as int)),
                out@ == all.take(k as int),
                evicted(v, target as int) == k + evicted(v.skip(k as int), target as int),
            decreases v.len() - k,
        {
            assert(v.skip(k as int)[0] == v[k as int]);
            assert(v.skip(k as int).skip(1) =~= v.skip(k + 1));
            proof {
                lemma_size_nonneg(v.skip(k + 1));
            }
            left = left - ordered[k].size;
            out.push(ordered[k].index);
            assert(all.take(k + 1) =~= all.take(k as int).push(all[k as int]));
            k += 1;
        }
        assert(evicted(v.skip(k as int), target as int) == 0);
        assert(all.take(k as int) =~= v.take(k as int).map_values(|c: Candidate| c.index));
        out
    }
}

proof fn lemma_size_nonneg(v: Seq<Candidate>)
    ensures
        candidates_size(v) >= 0,
    decreases v.len(),
{
    if v.len() > 0 {
        lemma_size_nonneg(v.skip(1));
    }
}

// ── Laws ──

/// The members of a closure are determined by which members there are: the
/// order in which the dependencies were walked and how often a member came up
/// do not matter, as long as equal names carry equal pins, and so neither the
/// JSON nor the key depends on them.
pub proof fn law_key_ignores_order(
    r: Seq<(Seq<char>, MemberPin)>,
    all: Seq<(Seq<char>, MemberPin)>,
    r2: Seq<(Seq<char>, MemberPin)>,
    all2: Seq<(Seq<char>, MemberPin)>,
)
    requires
        is_canonical(r, all),
        is_canonical(r2, all2),
        forall|i: int, j: int|
            0 <= i < all.len() && 0 <= j < all.len() && (#[trigger] all[i]).0 == (
            #[trigger] all[j]).0 ==> all[i].1 == all[j].1,
        forall|m: (Seq<char>, MemberPin)| #[trigger] all.contains(m) <==> all2.contains(m),
    ensures
        r == r2,
{
    assert forall|k: Seq<char>| #[trigger] lookup(r, k) == lookup(r2, k) by {
        assert(lookup(r, k) == first_lookup(all, k));
        assert(lookup(r2, k) == first_lookup(all2, k));
        lemma_first_lookup(all, k);
        lemma_first_lookup(all2, k);
        match first_lookup(all, k) {
            Some(v) => {
                let i = choose|i: int| 0 <= i < all.len() && #[trigger] all[i] == (k, v);
                assert(all.contains((k, v)));
                assert(all2.contains((k, v)));
                let j = choose|j: int| 0 <= j < all2.len() && all2[j] == (k, v);
                assert(all2[j].0 == k);
                let w = first_lookup(all2, k)->Some_0;
                let m = choose|m: int| 0 <= m < all2.len() && #[trigger] all2[m] == (k, w);
                assert(all2.contains((k, w)));
                assert(all.contains((k, w)));
                let n = choose|n: int| 0 <= n < all.len() && all[n] == (k, w);
                assert(all[i].0 == all[n].0);
            },
            None => {
                if first_lookup(all2, k) is Some {
                    let w = first_lookup(all2, k)->Some_0;
                    let m = choose|m: int| 0 <= m < all2.len() && #[trigger] all2[m] == (k, w);
                    assert(all2.contains((k, w)));
                    assert(all.contains((k, w)));
                    let j = choose|j: int| 0 <= j < all.len() && all[j] == (k, w);
                    assert(all[j].0 == k);
                }
            },
        }
    }
    law_entries_are_determined(r, r2);
}

proof fn lemma_first_lookup<V>(entries: Seq<(Seq<char>, V)>, key: Seq<char>)
    ensures
        match first_lookup(entries, key) {
            Some(v) => exists|i: int| 0 <= i < entries.len() && #[trigger] entries[i] == (key, v),
            None => forall|i: int| 0 <= i < entries.len() ==> (#[trigger] entries[i]).0 != key,
        },
    decreases entries.len(),
{
    if entries.len() > 0 {
        let rest = entries.drop_last();
        lemma_first_lookup(rest, key);
        match first_lookup(rest, key) {
            Some(v) => {
                let i = choose|i: int| 0 <= i < rest.len() && #[trigger] rest[i] == (key, v);
                assert(entries[i] == (key, v));
            },
            None => {
                assert forall|i: int| 0 <= i < rest.len() implies (#[trigger] entries[i]).0
                    != key by {
                    assert(rest[i] == entries[i]);
                }
                if entries.last().0 == key {
                    assert(entries[entries.len() - 1] == (key, entries.last().1));
                }
            },
        }
    }
}

/// A member delimits itself.
proof fn lemma_members_apart(
    a: (Seq<char>, MemberPin),
    x: Seq<char>,
    b: (Seq<char>, MemberPin),
    y: Seq<char>,
)
    requires
        member_text(a) + x == member_text(b) + y,
    ensures
        a == b,
        x == y,
{
    let p0 = "{\"hash\":"@;
    let p1 = ",\"name\":"@;
    let p2 = ",\"pin\":"@;
    let p3 = "}"@;
    let a3 = p3 + x;
    let b3 = p3 + y;
    let a2 = p2 + (quoted_or_null(a.1.0) + a3);
    let b2 = p2 + (quoted_or_null(b.1.0) + b3);
    let a1 = p1 + (quoted(a.0) + a2);
    let b1 = p1 + (quoted(b.0) + b2);
    lemma_glue(p0, quoted_or_null(a.1.1), p1, quoted(a.0), p2, quoted_or_null(a.1.0), p3, x);
    lemma_glue(p0, quoted_or_null(b.1.1), p1, quoted(b.0), p2, quoted_or_null(b.1.0), p3, y);
    lemma_same_prefix(p0, quoted_or_null(a.1.1) + a1, quoted_or_null(b.1.1) + b1);
    lemma_optional_strings_delimit(a.1.1, a1, b.1.1, b1);
    lemma_same_prefix(p1, quoted(a.0) + a2, quoted(b.0) + b2);
    law_strings_delimit_themselves(a.0, a2, b.0, b2);
    lemma_same_prefix(p2, quoted_or_null(a.1.0) + a3, quoted_or_null(b.1.0) + b3);
    lemma_optional_strings_delimit(a.1.0, a3, b.1.0, b3);
    lemma_same_prefix(p3, x, y);
}

/// A member begins with a brace.
proof fn lemma_member_begins(m: (Seq<char>, MemberPin))
    ensures
        member_text(m).len() > 0,
        member_text(m)[0] == '{',
{
    reveal_strlit("{\"hash\":");
}

/// Members delimit themselves.
proof fn lemma_member_delimits()
    ensures
        delimits(|m: (Seq<char>, MemberPin)| member_text(m)),
{
    let enc = |m: (Seq<char>, MemberPin)| member_text(m);
    assert forall|
        a: (Seq<char>, MemberPin),
        x: Seq<char>,
        b: (Seq<char>, MemberPin),
        y: Seq<char>,
    | #[trigger] (enc(a) + x) == #[trigger] (enc(b) + y) implies a == b && x == y by {
        lemma_members_apart(a, x, b, y);
    }
}

/// The pieces of a closure's JSON, glued together from the end.
proof fn lemma_glue_closure(
    a: Seq<char>,
    b: Seq<char>,
    c: Seq<char>,
    d: Seq<char>,
    e: Seq<char>,
    f: Seq<char>,
    g: Seq<char>,
    h: Seq<char>,
    i: Seq<char>,
)
    ensures
        a + b + c + d + (seq![']'] + e) + f + g + h + i == a + (b + (c + (d + seq![']'] + (e + (f
            + (g + (h + i))))))),
{
    lemma_glue(a, b, c, d, seq![']'] + e, f, g, h + i);
    lemma_assoc(a + b + c + d + (seq![']'] + e) + f + g, h, i);
    lemma_assoc(seq![']'], e, f + (g + (h + i)));
    lemma_assoc(d, seq![']'], e + (f + (g + (h + i))));
}

/// The canonical JSON tells closures apart: a change of the source, the
/// parts, the target or any member changes it.
pub proof fn law_closures_are_told_apart(
    s1: Seq<char>,
    p1: Seq<char>,
    t1: Seq<char>,
    r1: Seq<(Seq<char>, MemberPin)>,
    s2: Seq<char>,
    p2: Seq<char>,
    t2: Seq<char>,
    r2: Seq<(Seq<char>, MemberPin)>,
)
    requires
        closure_text(s1, p1, t1, r1) == closure_text(s2, p2, t2, r2),
    ensures
        s1 == s2,
        p1 == p2,
        t1 == t2,
        r1 == r2,
{
    let enc = |m: (Seq<char>, MemberPin)| member_text(m);
    let l0 = "{\"format_version\":2,\"parts\":"@;
    let l1 = ",\"requires\":["@;
    let l2 = "],\"source\":"@;
    let l3 = ",\"target\":"@;
    let l4 = "}"@;
    let src = ",\"source\":"@;
    reveal_strlit(",");
    reveal_strlit("],\"source\":");
    reveal_strlit(",\"source\":");
    assert(","@ =~= seq![',']);
    assert(l2 =~= seq![']'] + src);
    let a3 = l3 + (quoted(t1) + l4);
    let b3 = l3 + (quoted(t2) + l4);
    let a2 = src + (quoted(s1) + a3);
    let b2 = src + (quoted(s2) + b3);
    let ja = joined(r1.map_values(enc), seq![',']) + seq![']'] + a2;
    let jb = joined(r2.map_values(enc), seq![',']) + seq![']'] + b2;
    let a1 = l1 + ja;
    let b1 = l1 + jb;
    lemma_glue_closure(l0, quoted(p1), l1, joined(r1.map_values(enc), seq![',']), src, quoted(s1), l3, quoted(t1), l4);
    lemma_glue_closure(l0, quoted(p2), l1, joined(r2.map_values(enc), seq![',']), src, quoted(s2), l3, quoted(t2), l4);
    lemma_same_prefix(l0, quoted(p1) + a1, quoted(p2) + b1);
    law_strings_delimit_themselves(p1, a1, p2, b1);
    lemma_same_prefix(l1, ja, jb);
    lemma_member_delimits();
    assert forall|m: (Seq<char>, MemberPin)| (#[trigger] enc(m)).len() > 0 && enc(m)[0]
        != ']' by {
        lemma_member_begins(m);
    }
    lemma_lists_delimit(enc, ']', r1, a2, r2, b2);
    lemma_same_prefix(src, quoted(s1) + a3, quoted(s2) + b3);
    law_strings_delimit_themselves(s1, a3, s2, b3);
    lemma_same_prefix(l3, quoted(t1) + l4, quoted(t2) + l4);
    law_strings_delimit_themselves(t1, l4, t2, l4);
}

/// A package that is stored is looked up afterwards: the file of its name in
/// the directory of its closure, whatever else is there.
pub proof fn law_stored_is_looked_up(
    cache: PackageCache,
    meta: SnapMeta,
    arch: Seq<char>,
    closure: BuildClosure,
    present: Seq<Seq<char>>,
)
    requires
        cache.store_of(meta, closure) is Some,
        present.contains(path_in(cache.store_of(meta, closure)->0, snap_filename(meta, arch))),
    ensures
        found_among(cache.place_of(meta, arch, closure), present) == Some(
            path_in(cache.store_of(meta, closure)->0, snap_filename(meta, arch)),
        ),
{
}

proof fn lemma_hex_has_no_slash(b: Seq<u8>)
    ensures
        !hex_text(b).contains('/'),
    decreases b.len(),
{
    if b.len() > 0 {
        let before = hex_text(b.drop_last());
        lemma_hex_has_no_slash(b.drop_last());
        let text = hex_text(b);
        assert forall|i: int| 0 <= i < text.len() implies text[i] != '/' by {
            if i < before.len() {
                assert(text[i] == before[i]);
                assert(before.contains(before[i]));
            }
        }
    }
}

proof fn lemma_key_has_no_slash(c: BuildClosure)
    ensures
        key_text(c).len() >= 3,
        !key_text(c).contains('/'),
{
    reveal_strlit("v2:");
    let hex = text_sha256(closure_json(c));
    lemma_hex_has_no_slash(sha256(encode_utf8(closure_json(c))));
    let key = key_text(c);
    assert forall|i: int| 0 <= i < key.len() implies key[i] != '/' by {
        if i >= 3 {
            assert(key[i] == hex[i - 3]);
            assert(hex.contains(hex[i - 3]));
        }
    }
}

/// What stands before the first slash of two equal texts is equal.
proof fn lemma_cut_at_slash(a: Seq<char>, b: Seq<char>, c: Seq<char>, d: Seq<char>)
    requires
        !a.contains('/'),
        !c.contains('/'),
        a + "/"@ + b == c + "/"@ + d,
    ensures
        a == c,
{
    reveal_strlit("/");
    let x = a + "/"@ + b;
    let y = c + "/"@ + d;
    assert(x[a.len() as int] == '/');
    assert(y[c.len() as int] == '/');
    if a.len() < c.len() {
        assert(y[a.len() as int] == c[a.len() as int]);
        assert(c.contains('/'));
    }
    if c.len() < a.len() {
        assert(x[c.len() as int] == a[c.len() as int]);
        assert(a.contains('/'));
    }
    assert(a =~= x.take(a.len() as int));
    assert(c =~= y.take(a.len() as int));
}

/// Where a relative name in the directory of a closure stands.
proof fn lemma_place(root: Seq<char>, c: BuildClosure, name: Seq<char>)
    requires
        !(name.len() > 0 && name[0] == '/'),
    ensures
        path_in(path_in(root, key_text(c)), name) == path_in(root, Seq::empty()) + (key_text(c)
            + "/"@ + name),
{
    lemma_key_has_no_slash(c);
    reveal_strlit("/");
    let key = key_text(c);
    assert(key.contains(key[0]));
    assert(key.contains(key.last()));
    let dir = path_in(root, key);
    assert(dir.last() == key.last());
    assert(path_in(dir, name) =~= path_in(root, Seq::empty()) + (key + "/"@ + name));
}

/// Storing under one closure leaves the lookup under a closure with another
/// key as it was. Both file names are relative.
pub proof fn law_other_keys_are_left_alone(
    cache: PackageCache,
    meta: SnapMeta,
    arch: Seq<char>,
    closure: BuildClosure,
    stored: SnapMeta,
    other: BuildClosure,
    file: Seq<char>,
    present: Seq<Seq<char>>,
)
    requires
        cache.store_of(stored, other) is Some,
        key_text(closure) != key_text(other),
        !(file.len() > 0 && file[0] == '/'),
        snap_filename(meta, arch)[0] != '/',
    ensures
        found_among(
            cache.place_of(meta, arch, closure),
            present.push(path_in(cache.store_of(stored, other)->0, file)),
        ) == found_among(cache.place_of(meta, arch, closure), present),
{
    let name = snap_filename(meta, arch);
    let root = cache.root_path();
    let head = path_in(root, Seq::empty());
    let p = path_in(path_in(root, key_text(closure)), name);
    let q = path_in(path_in(root, key_text(other)), file);
    lemma_place(root, closure, name);
    lemma_place(root, other, file);
    lemma_key_has_no_slash(closure);
    lemma_key_has_no_slash(other);
    if p == q {
        let x = key_text(closure) + "/"@ + name;
        let y = key_text(other) + "/"@ + file;
        assert(x =~= p.skip(head.len() as int));
        assert(y =~= q.skip(head.len() as int));
        lemma_cut_at_slash(key_text(closure), name, key_text(other), file);
    }
    let grown = present.push(q);
    if present.contains(p) {
        let i = choose|i: int| 0 <= i < present.len() && present[i] == p;
        assert(grown[i] == p);
    }
    if grown.contains(p) {
        let i = choose|i: int| 0 <= i < grown.len() && grown[i] == p;
        assert(present[i] == p);
    }
}

/// What the JSON of a plugin option holds.
pub enum OptionView {
    Str(Seq<char>),
    Bool(bool),
    Table(Seq<(Seq<char>, Seq<char>)>),
}

/// What the JSON of a part holds: name, edges, command, and with a plugin the
/// plugin and its options.
#[verifier::ext_equal]
pub struct PartView {
    pub name: Seq<char>,
    pub after: Seq<Seq<char>>,
    pub build: Seq<char>,
    pub plugin: Option<(Seq<char>, Option<Seq<(Seq<char>, OptionView)>>)>,
}

/// The contents of a text table.
pub open spec fn table_view(t: Seq<(Seq<char>, String)>) -> Seq<(Seq<char>, Seq<char>)> {
    t.map_values(|e: (Seq<char>, String)| (e.0, e.1@))
}

/// The contents of a plugin option.
pub open spec fn option_view(v: PluginValue) -> OptionView {
    match v {
        PluginValue::Str(s) => OptionView::Str(s@),
        PluginValue::Bool(b) => OptionView::Bool(b),
        PluginValue::Table(t) => OptionView::Table(table_view(t@)),
    }
}

/// The contents of plugin options.
pub open spec fn options_view(t: Seq<(Seq<char>, PluginValue)>) -> Seq<(Seq<char>, OptionView)> {
    t.map_values(|e: (Seq<char>, PluginValue)| (e.0, option_view(e.1)))
}

/// The contents of a part, as far as they are part of the key.
pub open spec fn part_view(name: Seq<char>, part: SnapPart) -> PartView {
    PartView {
        name,
        after: texts(part.after@),
        build: part.build@,
        plugin: match part.plugin {
            Some(p) => Some(
                (
                    p@,
                    match part.plugin_options {
                        Some(o) => Some(options_view(o@)),
                        None => None,
                    },
                ),
            ),
            None => None,
        },
    }
}

/// The contents of parts.
pub open spec fn parts_view(parts: Seq<(Seq<char>, SnapPart)>) -> Seq<PartView> {
    parts.map_values(|e: (Seq<char>, SnapPart)| part_view(e.0, e.1))
}

/// A table entry as a JSON field.
spec fn field_text(e: (Seq<char>, Seq<char>)) -> Seq<char> {
    quoted(e.0) + ":"@ + quoted(e.1)
}

/// An option's contents as JSON.
spec fn option_json(v: OptionView) -> Seq<char> {
    match v {
        OptionView::Str(s) => quoted(s),
        OptionView::Bool(b) => if b {
            "true"@
        } else {
            "false"@
        },
        OptionView::Table(t) => "{"@ + joined(
            t.map_values(|e: (Seq<char>, Seq<char>)| field_text(e)),
            ","@,
        ) + "}"@,
    }
}

/// An option as a JSON field.
spec fn option_field(e: (Seq<char>, OptionView)) -> Seq<char> {
    quoted(e.0) + ":"@ + option_json(e.1)
}

/// The plugin fields for a part's contents.
spec fn plugin_json(p: Option<(Seq<char>, Option<Seq<(Seq<char>, OptionView)>>)>) -> Seq<char> {
    match p {
        None => Seq::empty(),
        Some(v) => (match v.1 {
            Some(o) => ",\"options\":{"@ + joined(
                o.map_values(|e: (Seq<char>, OptionView)| option_field(e)),
                ","@,
            ) + "}"@,
            None => Seq::empty(),
        }) + ",\"plugin\":"@ + quoted(v.0) + ",\"plugin_version\":\"2\""@,
    }
}

/// A part's contents as JSON.
spec fn part_json(p: PartView) -> Seq<char> {
    "{\"after\":["@ + joined(quoted_all(p.after), ","@) + "],\"build\":"@ + quoted(p.build)
        + ",\"name\":"@ + quoted(p.name) + plugin_json(p.plugin) + "}"@
}

/// A part's JSON is that of its contents.
proof fn lemma_part_json(name: Seq<char>, part: SnapPart)
    ensures
        part_text(name, part) == part_json(part_view(name, part)),
{
    match part.plugin {
        Some(p) => {
            match part.plugin_options {
                Some(o) => {
                    let a = option_fields(o@);
                    let b = options_view(o@).map_values(
                        |e: (Seq<char>, OptionView)| option_field(e),
                    );
                    assert(a =~= b) by {
                        assert forall|i: int| 0 <= i < a.len() implies a[i] == b[i] by {
                            lemma_option_json(o@[i].1);
                        }
                    }
                },
                None => {},
            }
        },
        None => {},
    }
}

proof fn lemma_option_json(v: PluginValue)
    ensures
        option_text(v) == option_json(option_view(v)),
{
    match v {
        PluginValue::Table(t) => {
            assert(table_fields(t@) =~= table_view(t@).map_values(
                |e: (Seq<char>, Seq<char>)| field_text(e),
            ));
        },
        _ => {},
    }
}

proof fn lemma_fields_apart(
    a: (Seq<char>, Seq<char>),
    x: Seq<char>,
    b: (Seq<char>, Seq<char>),
    y: Seq<char>,
)
    requires
        field_text(a) + x == field_text(b) + y,
    ensures
        a == b,
        x == y,
{
    let a1 = ":"@ + (quoted(a.1) + x);
    let b1 = ":"@ + (quoted(b.1) + y);
    assert(field_text(a) + x =~= quoted(a.0) + a1);
    assert(field_text(b) + y =~= quoted(b.0) + b1);
    law_strings_delimit_themselves(a.0, a1, b.0, b1);
    lemma_same_prefix(":"@, quoted(a.1) + x, quoted(b.1) + y);
    law_strings_delimit_themselves(a.1, x, b.1, y);
}

/// The literals of the JSON that begin or end a value.
proof fn lemma_literals()
    ensures
        ","@ == seq![','],
        "}"@ == seq!['}'],
        "{"@ == seq!['{'],
        "["@ == seq!['['],
        "]"@ == seq![']'],
        "true"@[0] == 't' && "true"@.len() == 4,
        "false"@[0] == 'f' && "false"@.len() == 5,
{
    reveal_strlit(",");
    reveal_strlit("}");
    reveal_strlit("{");
    reveal_strlit("[");
    reveal_strlit("]");
    reveal_strlit("true");
    reveal_strlit("false");
    assert(","@ =~= seq![',']);
    assert("}"@ =~= seq!['}']);
    assert("{"@ =~= seq!['{']);
    assert("["@ =~= seq!['[']);
    assert("]"@ =~= seq![']']);
}

proof fn lemma_tables_apart(
    s: Seq<(Seq<char>, Seq<char>)>,
    x: Seq<char>,
    t: Seq<(Seq<char>, Seq<char>)>,
    y: Seq<char>,
)
    requires
        option_json(OptionView::Table(s)) + x == option_json(OptionView::Table(t)) + y,
    ensures
        s == t,
        x == y,
{
    lemma_literals();
    let enc = |e: (Seq<char>, Seq<char>)| field_text(e);
    let js = joined(s.map_values(enc), seq![',']) + seq!['}'] + x;
    let jt = joined(t.map_values(enc), seq![',']) + seq!['}'] + y;
    assert(option_json(OptionView::Table(s)) + x =~= seq!['{'] + js);
    assert(option_json(OptionView::Table(t)) + y =~= seq!['{'] + jt);
    lemma_same_prefix(seq!['{'], js, jt);
    assert(delimits(enc)) by {
        assert forall|
            a: (Seq<char>, Seq<char>),
            u: Seq<char>,
            b: (Seq<char>, Seq<char>),
            w: Seq<char>,
        | #[trigger] (enc(a) + u) == #[trigger] (enc(b) + w) implies a == b && u == w by {
            lemma_fields_apart(a, u, b, w);
        }
    }
    assert forall|e: (Seq<char>, Seq<char>)| (#[trigger] enc(e)).len() > 0 && enc(e)[0] != '}' by {
        assert(enc(e)[0] == '"');
    }
    lemma_lists_delimit(enc, '}', s, x, t, y);
}

/// How an option's JSON begins.
proof fn lemma_option_begins(v: OptionView)
    ensures
        option_json(v).len() > 0,
        option_json(v)[0] == match v {
            OptionView::Str(_) => '"',
            OptionView::Bool(b) => if b {
                't'
            } else {
                'f'
            },
            OptionView::Table(_) => '{',
        },
{
    lemma_literals();
}

proof fn lemma_options_apart(a: OptionView, x: Seq<char>, b: OptionView, y: Seq<char>)
    requires
        option_json(a) + x == option_json(b) + y,
    ensures
        a == b,
        x == y,
{
    lemma_option_begins(a);
    lemma_option_begins(b);
    assert((option_json(a) + x)[0] == option_json(a)[0]);
    assert((option_json(b) + y)[0] == option_json(b)[0]);
    match (a, b) {
        (OptionView::Str(s), OptionView::Str(t)) => {
            law_strings_delimit_themselves(s, x, t, y);
        },
        (OptionView::Bool(s), OptionView::Bool(t)) => {
            lemma_same_prefix(option_json(a), x, y);
        },
        (OptionView::Table(s), OptionView::Table(t)) => {
            lemma_tables_apart(s, x, t, y);
        },
        _ => {},
    }
}

proof fn lemma_option_fields_apart(
    a: (Seq<char>, OptionView),
    x: Seq<char>,
    b: (Seq<char>, OptionView),
    y: Seq<char>,
)
    requires
        option_field(a) + x == option_field(b) + y,
    ensures
        a == b,
        x == y,
{
    let a1 = ":"@ + (option_json(a.1) + x);
    let b1 = ":"@ + (option_json(b.1) + y);
    assert(option_field(a) + x =~= quoted(a.0) + a1);
    assert(option_field(b) + y =~= quoted(b.0) + b1);
    law_strings_delimit_themselves(a.0, a1, b.0, b1);
    lemma_same_prefix(":"@, option_json(a.1) + x, option_json(b.1) + y);
    lemma_options_apart(a.1, x, b.1, y);
}

proof fn lemma_option_lists_apart(
    s: Seq<(Seq<char>, OptionView)>,
    x: Seq<char>,
    t: Seq<(Seq<char>, OptionView)>,
    y: Seq<char>,
)
    requires
        ({
            let enc = |e: (Seq<char>, OptionView)| option_field(e);
            joined(s.map_values(enc), seq![',']) + seq!['}'] + x == joined(
                t.map_values(enc),
                seq![','],
            ) + seq!['}'] + y
        }),
    ensures
        s == t,
        x == y,
{
    let enc = |e: (Seq<char>, OptionView)| option_field(e);
    assert(delimits(enc)) by {
        assert forall|
            a: (Seq<char>, OptionView),
            u: Seq<char>,
            b: (Seq<char>, OptionView),
            w: Seq<char>,
        | #[trigger] (enc(a) + u) == #[trigger] (enc(b) + w) implies a == b && u == w by {
            lemma_option_fields_apart(a, u, b, w);
        }
    }
    assert forall|e: (Seq<char>, OptionView)| (#[trigger] enc(e)).len() > 0 && enc(e)[0]
        != '}' by {
        assert(enc(e)[0] == '"');
    }
    lemma_lists_delimit(enc, '}', s, x, t, y);
}

/// The plugin field, the version field, the brace and what follows.
spec fn plugin_tail(p: Seq<char>, x: Seq<char>) -> Seq<char> {
    ",\"plugin\":"@ + (quoted(p) + (",\"plugin_version\":\"2\""@ + ("}"@ + x)))
}

/// How the plugin fields begin and what they are made of.
proof fn lemma_plugin_pieces(
    a: Option<(Seq<char>, Option<Seq<(Seq<char>, OptionView)>>)>,
    x: Seq<char>,
)
    ensures
        ({
            let l = plugin_json(a) + "}"@ + x;
            let enc = |e: (Seq<char>, OptionView)| option_field(e);
            match a {
                None => l == "}"@ + x && l[0] == '}',
                Some(p) => l[0] == ',' && match p.1 {
                    None => l == plugin_tail(p.0, x) && l[2] == 'p',
                    Some(o) => l[2] == 'o' && l == ",\"options\":{"@ + (joined(
                        o.map_values(enc),
                        seq![','],
                    ) + seq!['}'] + plugin_tail(p.0, x)),
                },
            }
        }),
{
    lemma_literals();
    reveal_strlit(",\"options\":{");
    reveal_strlit(",\"plugin\":");
    let e = Seq::<char>::empty();
    match a {
        None => {
            assert(e + "}"@ =~= "}"@);
        },
        Some(p) => {
            let pl = ",\"plugin\":"@;
            let pv = ",\"plugin_version\":\"2\""@;
            match p.1 {
                None => {
                    assert(e + pl =~= pl);
                    lemma_glue(e, e, e, pl, quoted(p.0), pv, "}"@, x);
                    assert(e + e + e + pl =~= pl);
                    lemma_assoc(pl + quoted(p.0) + pv, "}"@, x);
                    lemma_assoc(pl + quoted(p.0), pv, "}"@ + x);
                    lemma_assoc(pl, quoted(p.0), pv + ("}"@ + x));
                },
                Some(o) => {
                    let enc = |f: (Seq<char>, OptionView)| option_field(f);
                    let j = joined(o.map_values(enc), ","@);
                    let op = ",\"options\":{"@;
                    lemma_glue(op, j, "}"@, pl, quoted(p.0), pv, "}"@, x);
                    lemma_assoc(j, "}"@, plugin_tail(p.0, x));
                },
            }
        },
    }
}

/// The plugin fields and the brace behind them.
proof fn lemma_plugins_apart(
    a: Option<(Seq<char>, Option<Seq<(Seq<char>, OptionView)>>)>,
    x: Seq<char>,
    b: Option<(Seq<char>, Option<Seq<(Seq<char>, OptionView)>>)>,
    y: Seq<char>,
)
    requires
        plugin_json(a) + "}"@ + x == plugin_json(b) + "}"@ + y,
    ensures
        a == b,
        x == y,
{
    lemma_plugin_pieces(a, x);
    lemma_plugin_pieces(b, y);
    match (a, b) {
        (None, None) => {
            lemma_same_prefix("}"@, x, y);
        },
        (Some(p), Some(q)) => {
            let enc = |e: (Seq<char>, OptionView)| option_field(e);
            let pa = plugin_tail(p.0, x);
            let pb = plugin_tail(q.0, y);
            match (p.1, q.1) {
                (Some(s), Some(t)) => {
                    let js = joined(s.map_values(enc), seq![',']) + seq!['}'] + pa;
                    let jt = joined(t.map_values(enc), seq![',']) + seq!['}'] + pb;
                    lemma_same_prefix(",\"options\":{"@, js, jt);
                    lemma_option_lists_apart(s, pa, t, pb);
                },
                _ => {},
            }
            let pv = ",\"plugin_version\":\"2\""@;
            lemma_same_prefix(
                ",\"plugin\":"@,
                quoted(p.0) + (pv + ("}"@ + x)),
                quoted(q.0) + (pv + ("}"@ + y)),
            );
            law_strings_delimit_themselves(p.0, pv + ("}"@ + x), q.0, pv + ("}"@ + y));
            lemma_same_prefix(pv, "}"@ + x, "}"@ + y);
            lemma_same_prefix("}"@, x, y);
        },
        _ => {},
    }
}

/// What stands behind a part's `"build":` and before what follows the part.
spec fn build_tail(a: PartView, x: Seq<char>) -> Seq<char> {
    quoted(a.build) + (",\"name\":"@ + (quoted(a.name) + (plugin_json(a.plugin) + "}"@ + x)))
}

/// What stands behind a part's `"after":[`.
spec fn after_tail(a: PartView, x: Seq<char>) -> Seq<char> {
    let enc = |s: Seq<char>| quoted(s);
    joined(a.after.map_values(enc), seq![',']) + seq![']'] + (",\"build\":"@ + build_tail(a, x))
}

proof fn lemma_part_layout(a: PartView, x: Seq<char>)
    ensures
        part_json(a) + x == "{\"after\":["@ + after_tail(a, x),
{
    reveal_strlit("],\"build\":");
    reveal_strlit(",\"build\":");
    assert("],\"build\":"@ =~= seq![']'] + ",\"build\":"@);
    lemma_literals();
    let enc = |s: Seq<char>| quoted(s);
    assert(quoted_all(a.after) =~= a.after.map_values(enc));
    let l0 = "{\"after\":["@;
    let l1 = ",\"build\":"@;
    let l2 = ",\"name\":"@;
    let j = joined(quoted_all(a.after), ","@);
    let p = plugin_json(a.plugin);
    let head = l0 + j + "],\"build\":"@ + quoted(a.build) + l2 + quoted(a.name) + p;
    lemma_assoc(head, "}"@, x);
    lemma_assoc(p, "}"@, x);
    lemma_glue(
        l0,
        j,
        "],\"build\":"@,
        quoted(a.build),
        l2,
        quoted(a.name),
        p,
        "}"@ + x,
    );
    lemma_assoc(seq![']'], l1, build_tail(a, x));
    lemma_assoc(j, seq![']'], l1 + build_tail(a, x));
}

proof fn lemma_parts_apart(a: PartView, x: Seq<char>, b: PartView, y: Seq<char>)
    requires
        part_json(a) + x == part_json(b) + y,
    ensures
        a == b,
        x == y,
{
    lemma_part_layout(a, x);
    lemma_part_layout(b, y);
    lemma_same_prefix("{\"after\":["@, after_tail(a, x), after_tail(b, y));
    let l1 = ",\"build\":"@;
    let l2 = ",\"name\":"@;
    let enc = |s: Seq<char>| quoted(s);
    let pa = plugin_json(a.plugin) + "}"@ + x;
    let pb = plugin_json(b.plugin) + "}"@ + y;
    assert(delimits(enc)) by {
        assert forall|s: Seq<char>, u: Seq<char>, t: Seq<char>, w: Seq<char>| #[trigger]
            (enc(s) + u) == #[trigger] (enc(t) + w) implies s == t && u == w by {
            law_strings_delimit_themselves(s, u, t, w);
        }
    }
    assert forall|s: Seq<char>| (#[trigger] enc(s)).len() > 0 && enc(s)[0] != ']' by {
        assert(enc(s)[0] == '"');
    }
    lemma_lists_delimit(
        enc,
        ']',
        a.after,
        l1 + build_tail(a, x),
        b.after,
        l1 + build_tail(b, y),
    );
    lemma_same_prefix(l1, build_tail(a, x), build_tail(b, y));
    let na = l2 + (quoted(a.name) + pa);
    let nb = l2 + (quoted(b.name) + pb);
    law_strings_delimit_themselves(a.build, na, b.build, nb);
    lemma_same_prefix(l2, quoted(a.name) + pa, quoted(b.name) + pb);
    law_strings_delimit_themselves(a.name, pa, b.name, pb);
    lemma_plugins_apart(a.plugin, x, b.plugin, y);
}

/// The canonical parts JSON tells parts apart: a change of a name, a command,
/// an edge, a plugin or an option of a plugin changes it.
pub proof fn law_parts_are_told_apart(
    a: Seq<(Seq<char>, SnapPart)>,
    b: Seq<(Seq<char>, SnapPart)>,
)
    requires
        parts_text(a) == parts_text(b),
    ensures
        parts_view(a) == parts_view(b),
{
    lemma_literals();
    let enc = |p: PartView| part_json(p);
    let va = parts_view(a);
    let vb = parts_view(b);
    let ta = a.map_values(|e: (Seq<char>, SnapPart)| part_text(e.0, e.1));
    let tb = b.map_values(|e: (Seq<char>, SnapPart)| part_text(e.0, e.1));
    assert(ta =~= va.map_values(enc)) by {
        assert forall|i: int| 0 <= i < ta.len() implies ta[i] == va.map_values(enc)[i] by {
            lemma_part_json(a[i].0, a[i].1);
        }
    }
    assert(tb =~= vb.map_values(enc)) by {
        assert forall|i: int| 0 <= i < tb.len() implies tb[i] == vb.map_values(enc)[i] by {
            lemma_part_json(b[i].0, b[i].1);
        }
    }
    let e = Seq::<char>::empty();
    let ja = joined(va.map_values(enc), seq![',']) + seq![']'] + e;
    let jb = joined(vb.map_values(enc), seq![',']) + seq![']'] + e;
    assert(parts_text(a) =~= seq!['['] + ja);
    assert(parts_text(b) =~= seq!['['] + jb);
    lemma_same_prefix(seq!['['], ja, jb);
    assert(delimits(enc)) by {
        assert forall|p: PartView, u: Seq<char>, q: PartView, w: Seq<char>| #[trigger]
            (enc(p) + u) == #[trigger] (enc(q) + w) implies p == q && u == w by {
            lemma_parts_apart(p, u, q, w);
        }
    }
    assert forall|p: PartView| (#[trigger] enc(p)).len() > 0 && enc(p)[0] != ']' by {
        reveal_strlit("{\"after\":[");
        assert(enc(p)[0] == '{');
    }
    lemma_lists_delimit(enc, ']', va, e, vb, e);
}

/// A package of type `source` is identified by the digest of its name, version
/// and URL, so that a change of any of them is a change of what is digested;
/// any other is identified by `none`.
pub proof fn law_sources_are_identified_by_their_url(meta: SnapMeta, url: String, sha: String)
    ensures
        (meta.type_ is Some && meta.type_->0@ == "source"@ && meta.source == Some(
            SourceSpec::Unverified(url),
        )) ==> source_identity(meta) == hex_text(
            sha256(encode_utf8(meta.name@ + ":"@ + meta.version@ + ":"@ + url@)),
        ),
        (meta.type_ is Some && meta.type_->0@ == "source"@ && meta.source == Some(
            SourceSpec::Verified { url, sha256: sha },
        )) ==> source_identity(meta) == hex_text(
            sha256(encode_utf8(meta.name@ + ":"@ + meta.version@ + ":"@ + url@)),
        ),
        (meta.type_ is Some && meta.type_->0@ == "source"@ && meta.source is None)
            ==> source_identity(meta) == hex_text(
            sha256(encode_utf8(meta.name@ + ":"@ + meta.version@ + ":"@)),
        ),
        (meta.type_ is None || meta.type_->0@ != "source"@) ==> source_identity(meta) == "none"@,
{
    assert(meta.name@ + ":"@ + meta.version@ + ":"@ + Seq::<char>::empty() =~= meta.name@ + ":"@
        + meta.version@ + ":"@);
}

/// Of members that share a name the first counts.
pub proof fn law_the_first_member_of_a_name_counts(
    r: Seq<(Seq<char>, MemberPin)>,
    all: Seq<(Seq<char>, MemberPin)>,
    i: int,
)
    requires
        is_canonical(r, all),
        0 <= i < all.len(),
    ensures
        (forall|j: int| 0 <= j < i ==> (#[trigger] all[j]).0 != all[i].0) ==> r.contains(all[i]),
        exists|k: int| 0 <= k < r.len() && (#[trigger] r[k]).0 == all[i].0,
        forall|k: int| 0 <= k < r.len() ==> all.contains(#[trigger] r[k]),
        forall|k: int, m: int|
            0 <= k < m < r.len() ==> text_lt((#[trigger] r[k]).0, (#[trigger] r[m]).0),
{
    let key = all[i].0;
    lemma_first_lookup(all, key);
    assert(lookup(r, key) == first_lookup(all, key));
    lemma_lookup(r, key);
    let v = lookup(r, key)->0;
    let k0 = choose|k: int| 0 <= k < r.len() && #[trigger] r[k] == (key, v);
    assert(r[k0].0 == key);
    if forall|j: int| 0 <= j < i ==> (#[trigger] all[j]).0 != all[i].0 {
        lemma_first_is(all, i);
        assert(r[k0] == all[i]);
    }
    assert forall|k: int| 0 <= k < r.len() implies all.contains(#[trigger] r[k]) by {
        crate::ordered::lemma_lookup_at(r, k);
        assert(lookup(r, r[k].0) == first_lookup(all, r[k].0));
        lemma_first_lookup(all, r[k].0);
        let n = choose|n: int| 0 <= n < all.len() && #[trigger] all[n] == (r[k].0, r[k].1);
        assert(all[n] == r[k]);
    }
    assert forall|k: int, m: int| 0 <= k < m < r.len() implies text_lt(
        (#[trigger] r[k]).0,
        (#[trigger] r[m]).0,
    ) by {
        let ks = keys_of(r);
        assert(ks[k] == r[k].0 && ks[m] == r[m].0);
    }
}

proof fn lemma_first_is<V>(all: Seq<(Seq<char>, V)>, i: int)
    requires
        0 <= i < all.len(),
        forall|j: int| 0 <= j < i ==> (#[trigger] all[j]).0 != all[i].0,
    ensures
        first_lookup(all, all[i].0) == Some(all[i].1),
    decreases all.len(),
{
    let r = all.drop_last();
    if i < r.len() {
        assert(r[i] == all[i]);
        assert forall|j: int| 0 <= j < i implies (#[trigger] r[j]).0 != r[i].0 by {
            assert(r[j] == all[j]);
        }
        lemma_first_is(r, i);
    } else {
        lemma_first_lookup(r, all[i].0);
        if first_lookup(r, all[i].0) is Some {
            let v = first_lookup(r, all[i].0)->0;
            let j = choose|j: int| 0 <= j < r.len() && #[trigger] r[j] == (all[i].0, v);
            assert(all[j].0 == all[i].0);
        }
    }
}

/// The size of what is listed grows with each directory by the sizes of its
/// files, and the number of packages by their number.
pub proof fn law_statistics_add_up(dirs: Seq<CacheDir>, dir: CacheDir, sizes: Seq<u64>, size: u64)
    ensures
        total(Seq::<u64>::empty()) == 0,
        total(sizes.push(size)) == total(sizes) + size,
        size_of_dirs(Seq::<CacheDir>::empty(), 0) == 0,
        files_in_dirs(Seq::<CacheDir>::empty(), 0) == 0,
        size_of_dirs(dirs.push(dir), (dirs.len() + 1) as int) == size_of_dirs(dirs, dirs.len() as int)
            + total(dir.files@),
        files_in_dirs(dirs.push(dir), (dirs.len() + 1) as int) == files_in_dirs(dirs, dirs.len() as int)
            + dir.files@.len(),
{
    assert(sizes.push(size).drop_last() =~= sizes);
    lemma_same_dirs(dirs, dirs.push(dir), dirs.len() as int);
}

proof fn lemma_same_dirs(a: Seq<CacheDir>, b: Seq<CacheDir>, n: int)
    requires
        n <= a.len(),
        n <= b.len(),
        forall|i: int| 0 <= i < n ==> #[trigger] a[i] == b[i],
    ensures
        size_of_dirs(a, n) == size_of_dirs(b, n),
        files_in_dirs(a, n) == files_in_dirs(b, n),
    decreases n,
{
    if n > 0 {
        lemma_same_dirs(a, b, n - 1);
        assert(a[n - 1] == b[n - 1]);
    }
}

proof fn lemma_candidate_at(dirs: Seq<CacheDir>, n: int, i: int)
    requires
        0 <= i < n <= dirs.len(),
    ensures
        candidates(dirs, n).len() == n,
        candidates(dirs, n)[i] == (Candidate {
            modified: dirs[i].modified,
            index: i as usize,
            size: total(dirs[i].files@) as u128,
        }),
    decreases n,
{
    if n == 1 {
        assert(candidates(dirs, 0).len() == 0);
    }
    if i < n - 1 {
        lemma_candidate_at(dirs, n - 1, i);
    } else if n > 1 {
        lemma_candidate_at(dirs, n - 1, 0);
    }
}

/// Directories that go are those changed least recently: none that stays was
/// changed before one that goes, each goes once, and they go in the order in
/// which they were changed.
pub proof fn law_the_oldest_directories_go(dirs: Seq<CacheDir>, target: int, i: int, j: int)
    requires
        0 <= target,
        0 <= i < dirs.len() <= usize::MAX,
        0 <= j < dirs.len(),
        evictions(dirs, target).contains(i as usize),
        !evictions(dirs, target).contains(j as usize),
    ensures
        dirs[i].modified <= dirs[j].modified,
{
    let c = candidates(dirs, dirs.len() as int);
    let v = sorted(c);
    let n = evicted(v, target) as int;
    let out = evictions(dirs, target);
    law_eviction_is_enough_and_no_more(v, target);
    crate::ordered::law_sorting_permutes(c);
    assert forall|a: Candidate, b: Candidate| a.ranks(b) || b.ranks(a) by {}
    crate::ordered::law_sorting_orders(c);
    let p = choose|p: int| 0 <= p < out.len() && out[p] == i as usize;
    assert(out[p] == v[p].index);
    lemma_candidate_at(dirs, dirs.len() as int, j);
    lemma_candidate_at(dirs, dirs.len() as int, i);
    assert(c.to_multiset().contains(c[j])) by {
        c.to_multiset_ensures();
        assert(c.contains(c[j]));
    }
    v.to_multiset_ensures();
    assert(v.contains(c[j]));
    let q = choose|q: int| 0 <= q < v.len() && v[q] == c[j];
    if q < n {
        assert(out[q] == v[q].index);
        assert(out.contains(j as usize));
    }
    c.to_multiset_ensures();
    assert(v.to_multiset().contains(v[p])) by {
        assert(v.contains(v[p]));
    }
    assert(c.contains(v[p]));
    let m = choose|m: int| 0 <= m < c.len() && c[m] == v[p];
    lemma_candidate_at(dirs, dirs.len() as int, m);
    assert(m == i);
    assert(v[p].ranks(v[q]));
}

/// A cache without a limit keeps everything; one that fits keeps everything;
/// and one that does not fit loses something.
pub proof fn law_only_a_full_cache_evicts(dirs: Seq<CacheDir>, target: int)
    requires
        0 <= target,
        dirs.len() <= usize::MAX,
        size_of_dirs(dirs, dirs.len() as int) <= u128::MAX,
    ensures
        evictions(dirs, target).len() > 0 <==> size_of_dirs(dirs, dirs.len() as int) > target,
{
    let c = candidates(dirs, dirs.len() as int);
    let v = sorted(c);
    lemma_candidates_size(dirs, dirs.len() as int);
    lemma_sorted_size(c);
    law_eviction_is_enough_and_no_more(v, target);
    assert(v.skip(0) =~= v);
    lemma_nothing_evicted(v, target);
}

proof fn lemma_nothing_evicted(v: Seq<Candidate>, target: int)
    requires
        0 <= target,
    ensures
        evicted(v, target) == 0 <==> candidates_size(v) <= target,
{
}

/// A directory is stale from the first nanosecond past so many whole days, and
/// stays so.
pub proof fn law_directories_go_stale_after_days(accessed: int, days: int, t: int, later: int)
    requires
        0 <= days,
        0 <= later,
    ensures
        !is_stale(accessed + days * (24 * 60 * 60 * 1_000_000_000), accessed, days),
        is_stale(accessed + days * (24 * 60 * 60 * 1_000_000_000) + 1, accessed, days),
        is_stale(t, accessed, days) ==> is_stale(t + later, accessed, days),
        is_stale(t, accessed, days + 1) ==> is_stale(t, accessed, days),
{
    assert((days + 1) * 86_400_000_000_000 == days * 86_400_000_000_000 + 86_400_000_000_000)
        by (nonlinear_arith);
}

/// A package is stored and looked up unless it adopts its version; one without
/// source is not stored. Where it stands tells its name, version and
/// architecture, below the home directory unless another is given.
pub proof fn law_only_reproducible_packages_are_stored(
    cache: PackageCache,
    meta: SnapMeta,
    arch: Seq<char>,
    closure: BuildClosure,
    home: Seq<char>,
)
    ensures
        cache.place_of(meta, arch, closure) is None <==> meta.adopt_info is Some,
        cache.store_of(meta, closure) is None <==> meta.adopt_info is Some || closure.source@
            == "none"@,
        snap_filename(meta, arch) == meta.name@ + seq!['_'] + meta.version@ + seq!['_'] + arch
            + ".snap"@,
        (home.len() > 0 && home.last() != '/') ==> default_root(home) == home
            + "/.cache/shuttle/pkgs"@,
{
    reveal_strlit("_");
    assert("_"@ =~= seq!['_']);
    reveal_strlit("/");
    reveal_strlit(".cache");
    reveal_strlit("shuttle");
    reveal_strlit("pkgs");
    reveal_strlit("/.cache/shuttle/pkgs");
    if home.len() > 0 && home.last() != '/' {
        let a = path_in(home, ".cache"@);
        assert(a =~= home + "/"@ + ".cache"@);
        assert(a.last() == 'e');
        let b = path_in(a, "shuttle"@);
        assert(b =~= a + "/"@ + "shuttle"@);
        assert(b.last() == 'e');
        assert(default_root(home) =~= b + "/"@ + "pkgs"@);
        assert("/"@ + ".cache"@ + "/"@ + "shuttle"@ + "/"@ + "pkgs"@ =~= "/.cache/shuttle/pkgs"@);
        assert(default_root(home) =~= home + ("/"@ + ".cache"@ + "/"@ + "shuttle"@ + "/"@
            + "pkgs"@));
    }
}

} // verus!
