//! What a fetch decides: whether an artifact is the one that a lock pins,
//! which wheel is taken, whether a closure's pin moves, and where an
//! archive's entries go.

use crate::archive::{
    entry_views, fault_text, law_unpacking_gives_back_what_was_packed, packed, storable,
    unpack_canonical, unpacked, ArchiveError, EntryView, FaultView, TreeEntry,
};
use crate::dep_fetch::{PinView, PipPin};
use crate::digest::{
    encode_standard, hex_sha256, sha256, sha256_digest, sha512, sha512_digest, standard_text,
};
use crate::meta::{source_url, PackageDepsLock, SnapMeta, SourceSpec};
use crate::text::{
    find, law_cut_around_the_first_text, law_cut_at_the_first, law_cut_at_the_last, lemma_cut_char,
    lemma_filter_first, lemma_filter_members, lemma_find_from,
    after_last, before_first, chars_of, cut, drop_trailing, first_part, hex_text, last_part,
    opt_str, opt_text, split_once, split_whitespace, starts_with, str_eq, string_of, texts,
    trim_end_char, words,
};
use crate::wheel::{
    anchors_of, is_http, is_http_url, is_matching_wheel, matches_pin, normalize_name, normalized,
    parse_simple_index, resolve_url, resolved, tags_run, text_pairs, wheel_tags_match,
};
use vstd::prelude::*;

verus! {

// ── Integrity ──

/// Compares bytes without stopping at the first difference.
pub fn constant_eq(a: &[u8], b: &[u8]) -> (r: bool)
    ensures
        r == (a@ == b@),
{
    if a.len() != b.len() {
        return false;
    }
    let mut acc: u8 = 0;
    let mut i: usize = 0;
    while i < a.len()
        invariant
            i <= a.len(),
            a.len() == b.len(),
            acc == 0 <==> forall|k: int| 0 <= k < i ==> #[trigger] a@[k] == b@[k],
        decreases a.len() - i,
    {
        let x: u8 = a[i];
        let y: u8 = b[i];
        let was: u8 = acc;
        acc = was | (x ^ y);
        assert((was | (x ^ y)) == 0 <==> was == 0 && x == y) by (bit_vector);
        i += 1;
    }
    if acc == 0 {
        assert(a@ =~= b@);
    }
    acc == 0
}

/// Whether two texts are the same.
fn same_text(a: &str, b: &str) -> (r: bool)
    ensures
        r == (a@ == b@),
{
    proof {
        vstd::utf8::encode_utf8_decode_utf8(a@);
        vstd::utf8::encode_utf8_decode_utf8(b@);
    }
    constant_eq(a.as_bytes(), b.as_bytes())
}

/// The digests of an artifact in base64, by algorithm.
#[derive(Debug)]
pub struct SriDigests {
    pub sha256: String,
    pub sha512: String,
}

/// The model of [`SriDigests`].
pub struct SriDigestsView {
    pub sha256: Seq<char>,
    pub sha512: Seq<char>,
}

impl View for SriDigests {
    type V = SriDigestsView;

    open spec fn view(&self) -> SriDigestsView {
        SriDigestsView { sha256: self.sha256@, sha512: self.sha512@ }
    }
}

/// The digests of bytes.
pub open spec fn digests_of(bytes: Seq<u8>) -> SriDigestsView {
    SriDigestsView {
        sha256: standard_text(sha256(bytes)),
        sha512: standard_text(sha512(bytes)),
    }
}

/// The digest that an integrity entry's algorithm names; `None` for one that
/// is not computed.
pub open spec fn sri_digest(algo: Seq<char>, d: SriDigestsView) -> Option<Seq<char>> {
    if algo == "sha512"@ {
        Some(d.sha512)
    } else if algo == "sha256"@ {
        Some(d.sha256)
    } else {
        None
    }
}

/// Whether an entry names an algorithm that is computed.
pub open spec fn sri_supported(part: Seq<char>) -> bool {
    cut(part, "-"@) matches Some(c) && (c.0 == "sha512"@ || c.0 == "sha256"@)
}

/// Whether an entry holds the digest that its algorithm names.
pub open spec fn sri_matches(part: Seq<char>, d: SriDigestsView) -> bool {
    cut(part, "-"@) matches Some(c) && sri_digest(c.0, d) == Some(c.1)
}

/// The first entry without a `-`.
pub open spec fn sri_malformed(parts: Seq<Seq<char>>) -> Option<Seq<char>>
    decreases parts.len(),
{
    if parts.len() == 0 {
        None
    } else if cut(parts[0], "-"@) is None {
        Some(parts[0])
    } else {
        sri_malformed(parts.skip(1))
    }
}

/// What an integrity string says of an artifact with the given digests.
pub open spec fn sri_verdict(integrity: Seq<char>, d: SriDigestsView) -> Result<(), Seq<char>> {
    let parts = words(integrity);
    match sri_malformed(parts) {
        Some(part) => Err("malformed SRI integrity '"@ + part + "'"@),
        None => if !exists|i: int| 0 <= i < parts.len() && sri_supported(#[trigger] parts[i]) {
            Err(
                "integrity '"@ + integrity
                    + "' names no supported algorithm (sha512/sha256) — refusing an unverifiable artifact"@,
            )
        } else if !exists|i: int| 0 <= i < parts.len() && sri_matches(#[trigger] parts[i], d) {
            Err("integrity mismatch: artifact does not match '"@ + integrity + "'"@)
        } else {
            Ok(())
        },
    }
}

/// The digest that an algorithm names.
fn named_digest<'a>(algo: &str, d: &'a SriDigests) -> (r: Option<&'a str>)
    ensures
        opt_str(r) == sri_digest(algo@, d@),
{
    if str_eq(algo, "sha512") {
        Some(d.sha512.as_str())
    } else if str_eq(algo, "sha256") {
        Some(d.sha256.as_str())
    } else {
        None
    }
}

/// Checks the digests of an artifact against an npm integrity string: entries
/// `<algorithm>-<base64>`, one of which must match. A string without an
/// algorithm that is computed is an error, never a silent pass.
pub fn judge_sri(integrity: &str, digests: &SriDigests) -> (r: Result<(), String>)
    ensures
        match r {
            Ok(()) => sri_verdict(integrity@, digests@) == Ok::<(), Seq<char>>(()),
            Err(e) => sri_verdict(integrity@, digests@) == Err::<(), Seq<char>>(e@),
        },
{
    let entries = split_whitespace(integrity);
    let ghost parts = words(integrity@);
    let mut supported = false;
    let mut matched = false;
    let mut i: usize = 0;
    assert(parts.skip(0) =~= parts);
    while i < entries.len()
        invariant
            i <= entries.len(),
            parts == texts(entries@),
            parts == words(integrity@),
            sri_malformed(parts) == sri_malformed(parts.skip(i as int)),
            supported == exists|k: int| 0 <= k < i && sri_supported(#[trigger] parts[k]),
            matched == exists|k: int| 0 <= k < i && sri_matches(#[trigger] parts[k], digests@),
        decreases entries.len() - i,
    {
        assert(parts[i as int] == entries@[i as int]@);
        assert(parts.skip(i as int)[0] == parts[i as int]);
        assert(parts.skip(i as int).skip(1) =~= parts.skip(i + 1));
        let ghost had = supported;
        let ghost met = matched;
        let part = entries[i].as_str();
        match split_once(part, "-") {
            None => {
                let mut e = "malformed SRI integrity '".to_owned();
                e.append(part);
                e.append("'");
                return Err(e);
            },
            Some((algo, expected)) => {
                match named_digest(algo.as_str(), digests) {
                    Some(c) => {
                        supported = true;
                        if same_text(c, expected.as_str()) {
                            matched = true;
                        }
                    },
                    None => {},
                }
            },
        }
        proof {
            let here = parts[i as int];
            assert(supported == (had || sri_supported(here)));
            assert(matched == (met || sri_matches(here, digests@)));
            if had {
                let k = choose|k: int| 0 <= k < i && sri_supported(#[trigger] parts[k]);
                assert(sri_supported(parts[k]));
            }
            if met {
                let k = choose|k: int| 0 <= k < i && sri_matches(#[trigger] parts[k], digests@);
                assert(sri_matches(parts[k], digests@));
            }
        }
        i += 1;
    }
    assert(parts.skip(i as int) =~= Seq::<Seq<char>>::empty());
    if !supported {
        let mut e = "integrity '".to_owned();
        e.append(integrity);
        e.append(
            "' names no supported algorithm (sha512/sha256) — refusing an unverifiable artifact",
        );
        return Err(e);
    }
    if !matched {
        let mut e = "integrity mismatch: artifact does not match '".to_owned();
        e.append(integrity);
        e.append("'");
        return Err(e);
    }
    Ok(())
}

/// Checks an artifact against an npm integrity string.
pub fn verify_sri(bytes: &[u8], integrity: &str) -> (r: Result<(), String>)
    ensures
        match r {
            Ok(()) => sri_verdict(integrity@, digests_of(bytes@)) == Ok::<(), Seq<char>>(()),
            Err(e) => sri_verdict(integrity@, digests_of(bytes@)) == Err::<(), Seq<char>>(e@),
        },
{
    let digests = SriDigests {
        sha256: encode_standard(sha256_digest(bytes).as_slice()),
        sha512: encode_standard(sha512_digest(bytes).as_slice()),
    };
    judge_sri(integrity, &digests)
}

/// An artifact passes only with the digest of its own bytes: where the string
/// is accepted, one of its entries holds the digest that its algorithm gives.
pub proof fn law_accepted_artifacts_match(integrity: Seq<char>, bytes: Seq<u8>)
    requires
        sri_verdict(integrity, digests_of(bytes)) is Ok,
    ensures
        exists|i: int|
            0 <= i < words(integrity).len() && sri_matches(
                #[trigger] words(integrity)[i],
                digests_of(bytes),
            ),
{
}

// ── Wheels ──

/// The first `n` characters of a text.
pub open spec fn shortened(s: Seq<char>, n: int) -> Seq<char> {
    if s.len() <= n {
        s
    } else {
        s.take(n)
    }
}

/// The first `n` characters of a text.
pub fn shorten(s: &str, n: usize) -> (r: String)
    ensures
        r@ == shortened(s@, n as int),
{
    let a = chars_of(s);
    if a.len() <= n {
        s.to_owned()
    } else {
        assert(s@.subrange(0, n as int) =~= s@.take(n as int));
        string_of(&a, 0, n)
    }
}

/// A wheel to fetch: its address, its place in the tree, and the digest that
/// it must have, where one is known.
#[derive(Debug)]
pub struct WheelFetch {
    pub url: String,
    pub filename: String,
    pub expected: Option<String>,
}

/// The model of a [`WheelFetch`].
pub struct WheelView {
    pub url: Seq<char>,
    pub filename: Seq<char>,
    pub expected: Option<Seq<char>>,
}

impl View for WheelFetch {
    type V = WheelView;

    open spec fn view(&self) -> WheelView {
        WheelView {
            url: self.url@,
            filename: self.filename@,
            expected: opt_text(self.expected),
        }
    }
}

/// The first of a pin's digests.
pub open spec fn first_hash(pin: PinView) -> Option<Seq<char>> {
    if pin.hashes.len() > 0 {
        Some(pin.hashes[0])
    } else {
        None
    }
}

/// The wheel whose address the lock carries.
pub open spec fn direct_of(pin: PinView) -> Option<WheelView> {
    match pin.url {
        Some(url) => Some(
            WheelView { url, filename: last_part(url, "/"@), expected: first_hash(pin) },
        ),
        None => None,
    }
}

fn own_hash(pin: &PipPin) -> (r: Option<String>)
    ensures
        opt_text(r) == first_hash(pin@),
{
    if pin.hashes.len() > 0 {
        assert(texts(pin.hashes@)[0] == pin.hashes@[0]@);
        Some(pin.hashes[0].clone())
    } else {
        None
    }
}

/// The wheel whose address the lock carries.
pub fn direct_wheel(pin: &PipPin) -> (r: Option<WheelFetch>)
    ensures
        match r {
            Some(w) => direct_of(pin@) == Some(w@),
            None => direct_of(pin@) is None,
        },
{
    match &pin.url {
        Some(url) => Some(
            WheelFetch {
                url: url.clone(),
                filename: after_last(url.as_str(), "/"),
                expected: own_hash(pin),
            },
        ),
        None => None,
    }
}

/// The page of a project on an index.
pub open spec fn page_of(index: Seq<char>, name: Seq<char>) -> Seq<char> {
    drop_trailing(index, '/') + "/"@ + normalized(name) + "/"@
}

/// The page of a project on an index.
pub fn page_url(index: &str, name: &str) -> (r: String)
    ensures
        r@ == page_of(index@, name@),
{
    let mut out = trim_end_char(index, '/');
    out.append("/");
    out.append(normalize_name(name).as_str());
    out.append("/");
    out
}

/// The file name that an anchor offers: that of its text, or of its address
/// where it has no text.
pub open spec fn offered(anchor: (Seq<char>, Seq<char>)) -> Seq<char> {
    last_part(
        if anchor.1.len() > 0 {
            anchor.1
        } else {
            anchor.0
        },
        "/"@,
    )
}

/// The first anchor whose file is a wheel of the pin that this host can run.
pub open spec fn first_offer(
    anchors: Seq<(Seq<char>, Seq<char>)>,
    name: Seq<char>,
    version: Seq<char>,
) -> Option<(Seq<char>, Seq<char>)>
    decreases anchors.len(),
{
    if anchors.len() == 0 {
        None
    } else {
        let file = offered(anchors[0]);
        if matches_pin(file, name, version) && tags_run(file) {
            Some((anchors[0].0, file))
        } else {
            first_offer(anchors.skip(1), name, version)
        }
    }
}

/// The wheel that an index page offers for a pin, or why there is none. The
/// pin's own digest counts before the one in the address.
pub open spec fn page_wheel(pin: PinView, index: Seq<char>, page: Seq<char>) -> Result<
    WheelView,
    Seq<char>,
> {
    match first_offer(anchors_of(page), normalized(pin.name), pin.version) {
        None => Err(
            "pip: no wheel for "@ + pin.name + "=="@ + pin.version + " at "@ + index
                + " (only wheels are fetched; sdists would need a build — ADR-0017 Decision 2)"@,
        ),
        Some((href, filename)) => Ok(
            WheelView {
                url: resolved(page_of(index, pin.name), first_part(href, "#"@)),
                filename,
                expected: match first_hash(pin) {
                    Some(h) => Some(h),
                    None => match cut(href, "#sha256="@) {
                        Some(c) => Some(c.1),
                        None => None,
                    },
                },
            },
        ),
    }
}

/// Chooses the wheel that an index page offers for a pin.
pub fn choose_wheel(pin: &PipPin, index: &str, page: &str) -> (r: Result<WheelFetch, String>)
    ensures
        match r {
            Ok(w) => page_wheel(pin@, index@, page@) == Ok::<WheelView, Seq<char>>(w@),
            Err(e) => page_wheel(pin@, index@, page@) == Err::<WheelView, Seq<char>>(e@),
        },
{
    let anchors = parse_simple_index(page);
    let ghost all = anchors_of(page@);
    let name = normalize_name(pin.name.as_str());
    let mut i: usize = 0;
    assert(all.skip(0) =~= all);
    while i < anchors.len()
        invariant
            i <= anchors.len(),
            all == text_pairs(anchors@),
            all == anchors_of(page@),
            name@ == normalized(pin.name@),
            first_offer(all, name@, pin.version@) == first_offer(
                all.skip(i as int),
                name@,
                pin.version@,
            ),
        decreases anchors.len() - i,
    {
        assert(all[i as int] == (anchors@[i as int].0@, anchors@[i as int].1@));
        assert(all.skip(i as int)[0] == all[i as int]);
        assert(all.skip(i as int).skip(1) =~= all.skip(i + 1));
        let href = anchors[i].0.as_str();
        let text = anchors[i].1.as_str();
        let file = after_last(
            if text.is_empty() {
                href
            } else {
                text
            },
            "/",
        );
        if is_matching_wheel(file.as_str(), name.as_str(), pin.version.as_str())
            && wheel_tags_match(file.as_str()) {
            let base = page_url(index, pin.name.as_str());
            let url = resolve_url(base.as_str(), before_first(href, "#").as_str());
            let expected = match own_hash(pin) {
                Some(h) => Some(h),
                None => match split_once(href, "#sha256=") {
                    Some((_, h)) => Some(h),
                    None => None,
                },
            };
            return Ok(WheelFetch { url, filename: file, expected });
        }
        i += 1;
    }
    assert(all.skip(i as int) =~= Seq::<(Seq<char>, Seq<char>)>::empty());
    let mut e = "pip: no wheel for ".to_owned();
    e.append(pin.name.as_str());
    e.append("==");
    e.append(pin.version.as_str());
    e.append(" at ");
    e.append(index);
    e.append(" (only wheels are fetched; sdists would need a build — ADR-0017 Decision 2)");
    Err(e)
}

/// What becomes of a fetched wheel.
#[derive(Debug)]
pub enum WheelVerdict {
    Accepted,
    /// Accepted without a digest to check, with a warning.
    Unpinned(String),
    /// To be removed, with the error.
    Refused(String),
}

/// What is said of a wheel without a digest to check.
pub open spec fn unpinned_text(filename: Seq<char>, actual: Seq<char>, direct: bool) -> Seq<char> {
    "pip: wheel "@ + filename + " fetched unpinned (hash "@ + shortened(actual, 16) + (if direct {
        "… — pin it in the lock)"@
    } else {
        "… — add --hash=sha256 to the lock to pin)"@
    })
}

/// What is said of a wheel with another digest.
pub open spec fn mismatch_text(
    filename: Seq<char>,
    expected: Seq<char>,
    actual: Seq<char>,
) -> Seq<char> {
    "pip: wheel "@ + filename + " hash mismatch: expected "@ + expected + ", got "@ + actual
}

/// Whether `r` is the verdict on a fetched wheel whose bytes have the digest
/// `actual`: accepted where that is the one expected, refused where another is
/// expected, and accepted with a warning where none is.
pub open spec fn judges_wheel(
    r: WheelVerdict,
    w: WheelFetch,
    actual: Seq<char>,
    direct: bool,
) -> bool {
    match r {
        WheelVerdict::Accepted => w@.expected == Some(actual),
        WheelVerdict::Unpinned(t) => w@.expected is None && t@ == unpinned_text(
            w@.filename,
            actual,
            direct,
        ),
        WheelVerdict::Refused(t) => w@.expected is Some && w@.expected != Some(actual) && t@
            == mismatch_text(w@.filename, w@.expected->0, actual),
    }
}

/// Judges a fetched wheel by its bytes.
pub fn check_wheel(w: &WheelFetch, bytes: &[u8], direct: bool) -> (r: WheelVerdict)
    ensures
        judges_wheel(r, *w, hex_text(sha256(bytes@)), direct),
{
    let actual = hex_sha256(bytes);
    judge_wheel(w, actual.as_str(), direct)
}

/// Judges a fetched wheel by the digest of its bytes.
pub fn judge_wheel(w: &WheelFetch, actual: &str, direct: bool) -> (r: WheelVerdict)
    ensures
        judges_wheel(r, *w, actual@, direct),
{
    match &w.expected {
        Some(hash) => {
            if same_text(actual, hash.as_str()) {
                WheelVerdict::Accepted
            } else {
                let mut t = "pip: wheel ".to_owned();
                t.append(w.filename.as_str());
                t.append(" hash mismatch: expected ");
                t.append(hash.as_str());
                t.append(", got ");
                t.append(actual);
                WheelVerdict::Refused(t)
            }
        },
        None => {
            let mut t = "pip: wheel ".to_owned();
            t.append(w.filename.as_str());
            t.append(" fetched unpinned (hash ");
            t.append(shorten(actual, 16).as_str());
            t.append(
                if direct {
                    "… — pin it in the lock)"
                } else {
                    "… — add --hash=sha256 to the lock to pin)"
                },
            );
            WheelVerdict::Unpinned(t)
        },
    }
}

// ── The closure's pin ──

/// The first step towards a package's closure.
#[derive(Debug)]
pub enum PodStep {
    /// The pinned closure is in the store: it stays, and nothing is fetched.
    Keep,
    /// The closure has to be fetched.
    Fetch,
}

/// Decides whether a package's closure has to be fetched. A locked package
/// whose closure is in the store is never fetched again.
pub fn pod_step(
    meta: &SnapMeta,
    prev: Option<&PackageDepsLock>,
    floating: bool,
    cached: bool,
) -> (r: Result<PodStep, String>)
    ensures
        match r {
            Ok(PodStep::Keep) => meta.deps is Some && !floating && prev is Some && cached,
            Ok(PodStep::Fetch) => meta.deps is Some && !(!floating && prev is Some && cached),
            Err(e) => meta.deps is None && e@ == "internal: ensure_pod_deps called for '"@
                + meta.name@ + "' which declares no deps"@,
        },
{
    if meta.deps.is_none() {
        let mut e = "internal: ensure_pod_deps called for '".to_owned();
        e.append(meta.name.as_str());
        e.append("' which declares no deps");
        return Err(e);
    }
    if !floating && prev.is_some() && cached {
        return Ok(PodStep::Keep);
    }
    Ok(PodStep::Fetch)
}

/// What a fetched closure does to the pin.
#[derive(Debug)]
pub enum PodPin {
    /// The pin stays as it is, with its date.
    Kept,
    /// The pin moves, with a warning.
    Moved(PackageDepsLock, String),
    /// The closure is pinned for the first time, with a note.
    Pinned(PackageDepsLock, String),
}

/// The two hashes of a closure that changed, shortened.
pub open spec fn change_text(old_hash: Seq<char>, new_hash: Seq<char>) -> Seq<char> {
    shortened(old_hash, 12) + " → "@ + shortened(new_hash, 12)
}

fn change_note(old_hash: &str, new_hash: &str) -> (r: String)
    ensures
        r@ == change_text(old_hash@, new_hash@),
{
    let mut out = shorten(old_hash, 12);
    out.append(" → ");
    out.append(shorten(new_hash, 12).as_str());
    out
}

/// The error for a locked package whose closure changed upstream.
pub open spec fn moved_error(
    name: Seq<char>,
    old_hash: Seq<char>,
    new_hash: Seq<char>,
) -> Seq<char> {
    "dependency closure for '"@ + name + "' changed upstream ("@ + change_text(old_hash, new_hash)
        + ") but the package is locked and its cached store entry was missing — refusing to move the pin; run `shuttle deps fetch --latest` to move it deliberately"@
}

/// Decides what a fetched closure does to the pin: one that reproduces the
/// pin keeps it; a changed one moves the pin of a floating package and is
/// refused for a locked one.
pub fn pod_pin(
    name: &str,
    prev: Option<&PackageDepsLock>,
    floating: bool,
    hash: String,
    today: String,
) -> (r: Result<PodPin, String>)
    ensures
        match prev {
            Some(p) => if p.deps_hash@ == hash@ {
                r matches Ok(PodPin::Kept)
            } else if floating {
                r matches Ok(PodPin::Moved(lock, w)) && lock.deps_hash@ == hash@ && opt_text(
                    lock.fetched_at,
                ) == Some(today@) && w@ == "floating package '"@ + name@
                    + "': dependency closure changed ("@ + change_text(p.deps_hash@, hash@) + ")"@
            } else {
                r matches Err(e) && e@ == moved_error(name@, p.deps_hash@, hash@)
            },
            None => r matches Ok(PodPin::Pinned(lock, note)) && lock.deps_hash@ == hash@
                && opt_text(lock.fetched_at) == Some(today@) && note@
                == "pinned dependency closure for '"@ + name@ + "': "@ + shortened(hash@, 12)
                + "… (recorded in shuttle.lock)"@,
        },
{
    match prev {
        Some(p) => {
            if str_eq(p.deps_hash.as_str(), hash.as_str()) {
                return Ok(PodPin::Kept);
            }
            let change = change_note(p.deps_hash.as_str(), hash.as_str());
            if !floating {
                let mut e = "dependency closure for '".to_owned();
                e.append(name);
                e.append("' changed upstream (");
                e.append(change.as_str());
                e.append(
                    ") but the package is locked and its cached store entry was missing — refusing to move the pin; run `shuttle deps fetch --latest` to move it deliberately",
                );
                return Err(e);
            }
            let mut w = "floating package '".to_owned();
            w.append(name);
            w.append("': dependency closure changed (");
            w.append(change.as_str());
            w.append(")");
            Ok(PodPin::Moved(PackageDepsLock { deps_hash: hash, fetched_at: Some(today) }, w))
        },
        None => {
            let mut note = "pinned dependency closure for '".to_owned();
            note.append(name);
            note.append("': ");
            note.append(shorten(hash.as_str(), 12).as_str());
            note.append("… (recorded in shuttle.lock)");
            Ok(PodPin::Pinned(PackageDepsLock { deps_hash: hash, fetched_at: Some(today) }, note))
        },
    }
}

// ── The store's entry ──

/// What the store's entry for a hash gives: the entries of its archive, or
/// why it gives none.
pub open spec fn materialized(deps_hash: Seq<char>, blob: Option<Seq<u8>>) -> Result<
    Seq<EntryView>,
    Option<FaultView>,
> {
    match blob {
        None => Err(None),
        Some(bytes) => opened(deps_hash, hex_text(sha256(bytes)), bytes),
    }
}

/// The error for a missing or changed entry of the store.
pub open spec fn closure_error(deps_hash: Seq<char>, blob: Option<Seq<u8>>) -> Seq<char> {
    match blob {
        None => "cached dependency closure "@ + shortened(deps_hash, 12)
            + "… is missing from the pod store — run `shuttle deps fetch` to fetch it"@,
        Some(bytes) => hash_error(deps_hash, hex_text(sha256(bytes))),
    }
}

/// The bytes of an optional entry.
pub open spec fn opt_bytes(o: Option<Vec<u8>>) -> Option<Seq<u8>> {
    match o {
        Some(b) => Some(b@),
        None => None,
    }
}

/// Checks the store's entry for a closure against its hash and unpacks it.
/// Nothing is unpacked from bytes with another hash.
pub fn materialize_deps_entry(deps_hash: &str, blob: &Option<Vec<u8>>) -> (r: Result<
    Vec<TreeEntry>,
    String,
>)
    ensures
        match r {
            Ok(es) => materialized(deps_hash@, opt_bytes(*blob)) == Ok::<
                Seq<EntryView>,
                Option<FaultView>,
            >(entry_views(es@)),
            Err(e) => match materialized(deps_hash@, opt_bytes(*blob)) {
                Ok(_) => false,
                Err(None) => e@ == closure_error(deps_hash@, opt_bytes(*blob)),
                Err(Some(f)) => exists|x: ArchiveError| x@ == f && e@ == #[trigger] fault_text(x),
            },
        },
{
    match blob {
        None => {
            let mut e = "cached dependency closure ".to_owned();
            e.append(shorten(deps_hash, 12).as_str());
            e.append("… is missing from the pod store — run `shuttle deps fetch` to fetch it");
            Err(e)
        },
        Some(bytes) => {
            let actual = hex_sha256(bytes.as_slice());
            open_closure(deps_hash, actual.as_str(), bytes)
        },
    }
}

/// What bytes with the hash `actual` give where `deps_hash` is wanted.
pub open spec fn opened(deps_hash: Seq<char>, actual: Seq<char>, bytes: Seq<u8>) -> Result<
    Seq<EntryView>,
    Option<FaultView>,
> {
    if actual != deps_hash {
        Err(None)
    } else {
        match unpacked(bytes) {
            Ok(es) => Ok(es),
            Err(f) => Err(Some(f)),
        }
    }
}

/// The error for bytes with another hash.
pub open spec fn hash_error(deps_hash: Seq<char>, actual: Seq<char>) -> Seq<char> {
    "dependency closure hash mismatch: expected "@ + deps_hash + ", found "@ + actual
        + " — the store entry is corrupted or tampered with; refusing to build against it"@
}

/// Unpacks the bytes of a closure, given their hash.
pub fn open_closure(deps_hash: &str, actual: &str, bytes: &Vec<u8>) -> (r: Result<
    Vec<TreeEntry>,
    String,
>)
    ensures
        match r {
            Ok(es) => opened(deps_hash@, actual@, bytes@) == Ok::<
                Seq<EntryView>,
                Option<FaultView>,
            >(entry_views(es@)),
            Err(e) => match opened(deps_hash@, actual@, bytes@) {
                Ok(_) => false,
                Err(None) => e@ == hash_error(deps_hash@, actual@),
                Err(Some(f)) => exists|x: ArchiveError| x@ == f && e@ == #[trigger] fault_text(x),
            },
        },
{
    if !str_eq(actual, deps_hash) {
        let mut e = "dependency closure hash mismatch: expected ".to_owned();
        e.append(deps_hash);
        e.append(", found ");
        e.append(actual);
        e.append(
            " — the store entry is corrupted or tampered with; refusing to build against it",
        );
        return Err(e);
    }
    match unpack_canonical(bytes.as_slice()) {
        Ok(es) => Ok(es),
        Err(f) => {
            let e = f.message();
            assert(e@ == fault_text(f));
            Err(e)
        },
    }
}

/// The store gives back what was put in: the archive of a tree, kept under the
/// hash of its bytes, gives the tree's entries.
pub proof fn law_stored_closure_is_given_back(es: Seq<EntryView>)
    requires
        forall|i: int| 0 <= i < es.len() ==> storable(#[trigger] es[i]),
    ensures
        materialized(hex_text(sha256(packed(es))), Some(packed(es))) == Ok::<
            Seq<EntryView>,
            Option<FaultView>,
        >(es),
{
    law_unpacking_gives_back_what_was_packed(es);
}

/// Nothing comes out of the store under a hash that the bytes do not have.
pub proof fn law_only_the_pinned_closure_is_used(deps_hash: Seq<char>, blob: Option<Seq<u8>>)
    requires
        materialized(deps_hash, blob) is Ok,
    ensures
        blob is Some,
        hex_text(sha256(blob->0)) == deps_hash,
{
}

// ── The source tree ──

/// A source to download: its address and the name it is kept under.
#[derive(Debug)]
pub struct SourcePlan {
    pub url: String,
    pub filename: String,
}

/// The address of a package's source and its file name; or why the closure
/// cannot be resolved from it.
pub fn plan_source(meta: &SnapMeta) -> (r: Result<SourcePlan, String>)
    ensures
        match meta.source {
            None => r matches Err(e) && e@ == "package '"@ + meta.name@
                + "': deps requires source — the lockfile resolves from the source tree"@,
            Some(spec) => if is_http(source_url(spec)) {
                r matches Ok(p) && p.url@ == source_url(spec) && p.filename@ == last_part(
                    source_url(spec),
                    "/"@,
                )
            } else {
                r matches Err(e) && e@ == "package '"@ + meta.name@
                    + "': deps requires an http(s) source URL, got "@ + source_url(spec)
            },
        },
{
    match &meta.source {
        None => {
            let mut e = "package '".to_owned();
            e.append(meta.name.as_str());
            e.append("': deps requires source — the lockfile resolves from the source tree");
            Err(e)
        },
        Some(spec) => {
            let url = spec.url();
            if !is_http_url(url) {
                let mut e = "package '".to_owned();
                e.append(meta.name.as_str());
                e.append("': deps requires an http(s) source URL, got ");
                e.append(url);
                return Err(e);
            }
            Ok(SourcePlan { url: url.to_owned(), filename: after_last(url, "/") })
        },
    }
}

/// The digest that a source declares.
pub open spec fn declared_sha256(spec: SourceSpec) -> Option<Seq<char>> {
    match spec {
        SourceSpec::Unverified(_) => None,
        SourceSpec::Verified { url, sha256 } => Some(sha256@),
    }
}

/// Whether `r` is the verdict on a downloaded source whose bytes have the
/// digest `sha`: one without a declared digest passes.
pub open spec fn judges_source(r: Result<(), String>, spec: SourceSpec, sha: Seq<char>) -> bool {
    match declared_sha256(spec) {
        None => r is Ok,
        Some(expected) => if sha == expected {
            r is Ok
        } else {
            r matches Err(e) && e@ == "SHA-256 mismatch for "@ + source_url(spec)
                + ":\n  expected: "@ + expected + "\n  got:      "@ + sha
        },
    }
}

/// Checks the bytes of a downloaded source against the digest that is declared
/// for it.
pub fn check_source_bytes(spec: &SourceSpec, bytes: &[u8]) -> (r: Result<(), String>)
    ensures
        judges_source(r, *spec, hex_text(sha256(bytes@))),
{
    let sha = hex_sha256(bytes);
    check_source(spec, sha.as_str())
}

/// Checks the digest of a downloaded source against the one that is declared
/// for it.
pub fn check_source(spec: &SourceSpec, sha: &str) -> (r: Result<(), String>)
    ensures
        judges_source(r, *spec, sha@),
{
    match spec.expected_sha256() {
        None => Ok(()),
        Some(expected) => {
            if str_eq(sha, expected) {
                return Ok(());
            }
            let mut e = "SHA-256 mismatch for ".to_owned();
            e.append(spec.url());
            e.append(":\n  expected: ");
            e.append(expected);
            e.append("\n  got:      ");
            e.append(sha);
            Err(e)
        },
    }
}

/// The directories that are not hidden.
pub open spec fn visible(dirs: Seq<Seq<char>>) -> Seq<Seq<char>>
    decreases dirs.len(),
{
    if dirs.len() == 0 {
        dirs
    } else if "."@.is_prefix_of(dirs[0]) {
        visible(dirs.skip(1))
    } else {
        seq![dirs[0]] + visible(dirs.skip(1))
    }
}

/// The directory below an extraction that holds the source: the only visible
/// one, or none where the extraction itself does.
pub fn source_root(dirs: &Vec<String>) -> (r: Option<String>)
    ensures
        opt_text(r) == (if visible(texts(dirs@)).len() == 1 {
            Some(visible(texts(dirs@))[0])
        } else {
            None
        }),
{
    let ghost all = texts(dirs@);
    let mut found: Vec<String> = Vec::new();
    let mut i: usize = 0;
    assert(all.skip(0) =~= all);
    assert(texts(found@) + visible(all) =~= visible(all));
    while i < dirs.len()
        invariant
            i <= dirs.len(),
            all == texts(dirs@),
            texts(found@) + visible(all.skip(i as int)) == visible(all),
        decreases dirs.len() - i,
    {
        assert(all.skip(i as int)[0] == dirs@[i as int]@);
        assert(all.skip(i as int).skip(1) =~= all.skip(i + 1));
        if !starts_with(dirs[i].as_str(), ".") {
            let ghost before = found@;
            found.push(dirs[i].clone());
            proof {
                let d = all[i as int];
                assert(texts(found@) =~= texts(before).push(d));
                let more = visible(all.skip(i + 1));
                assert(texts(before) + (seq![d] + more) =~= texts(found@) + more);
            }
        }
        i += 1;
    }
    assert(all.skip(i as int) =~= Seq::<Seq<char>>::empty());
    assert(texts(found@) + Seq::<Seq<char>>::empty() =~= texts(found@));
    if found.len() == 1 {
        assert(texts(found@)[0] == found@[0]@);
        Some(found[0].clone())
    } else {
        None
    }
}

// ── Archive entries ──

/// The pieces of a path between its slashes, from one that begins at `start`.
pub open spec fn segments_from(b: Seq<u8>, start: int, i: int) -> Seq<Seq<u8>>
    decreases b.len() - i,
{
    if i < 0 || i >= b.len() {
        seq![b.skip(start)]
    } else if b[i] == 47 {
        seq![b.subrange(start, i)] + segments_from(b, i + 1, i + 1)
    } else {
        segments_from(b, start, i + 1)
    }
}

/// The segments that name something: not empty, and not `.`.
pub open spec fn named(segs: Seq<Seq<u8>>) -> Seq<Seq<u8>>
    decreases segs.len(),
{
    if segs.len() == 0 {
        segs
    } else if segs[0].len() == 0 || segs[0] == seq![46u8] {
        named(segs.skip(1))
    } else {
        seq![segs[0]] + named(segs.skip(1))
    }
}

/// The components of a path: the root `/` or a leading `.` where it has one,
/// then the segments that name something.
pub open spec fn components(b: Seq<u8>) -> Seq<Seq<u8>> {
    let segs = segments_from(b, 0, 0);
    if b.len() > 0 && b[0] == 47 {
        seq![seq![47u8]] + named(segs)
    } else if segs[0] == seq![46u8] {
        seq![segs[0]] + named(segs)
    } else {
        named(segs)
    }
}

/// Segments put together with slashes.
pub open spec fn rejoined(segs: Seq<Seq<u8>>) -> Seq<u8>
    decreases segs.len(),
{
    if segs.len() == 0 {
        Seq::empty()
    } else if segs.len() == 1 {
        segs[0]
    } else {
        rejoined(segs.drop_last()) + seq![47u8] + segs.last()
    }
}

/// Where an entry of a tarball goes below its destination.
#[derive(Debug)]
pub enum TarPlace {
    /// Nowhere: it is the archive's root itself.
    Root,
    /// At a path below the destination.
    Below(Vec<u8>),
    /// Nowhere: the path leads out of the destination.
    Escapes(Vec<u8>),
}

fn push_segment(out: &mut Vec<u8>, first: bool, b: &[u8], from: usize, to: usize)
    requires
        from <= to <= b.len(),
    ensures
        final(out)@ == old(out)@ + (if first {
            Seq::<u8>::empty()
        } else {
            seq![47u8]
        }) + b@.subrange(from as int, to as int),
{
    let ghost start = out@;
    if !first {
        out.push(47);
    }
    let ghost mid = out@;
    assert(mid =~= start + (if first {
        Seq::<u8>::empty()
    } else {
        seq![47u8]
    }));
    let mut i: usize = from;
    while i < to
        invariant
            from <= i <= to <= b.len(),
            out@ == mid + b@.subrange(from as int, i as int),
        decreases to - i,
    {
        out.push(b[i]);
        i += 1;
        assert(out@ =~= mid + b@.subrange(from as int, i as int));
    }
}

/// What is left of a path without its first component.
pub open spec fn stripped(b: Seq<u8>) -> Seq<Seq<u8>> {
    if components(b).len() == 0 {
        Seq::empty()
    } else {
        components(b).skip(1)
    }
}

/// Components without the first, unless the root was left out before.
spec fn behind_root(done: Seq<Seq<u8>>, whole: bool) -> Seq<Seq<u8>> {
    if whole || done.len() == 0 {
        done
    } else {
        done.skip(1)
    }
}

/// Where an entry goes: its path without the archive's root. One whose rest
/// holds `..` would leave the destination.
#[verifier::spinoff_prover]
pub fn tar_place(path: &[u8]) -> (r: TarPlace)
    ensures
        match r {
            TarPlace::Root => stripped(path@).len() == 0,
            TarPlace::Below(p) => stripped(path@).len() > 0 && !stripped(path@).contains(
                seq![46u8, 46u8],
            ) && p@ == rejoined(stripped(path@)),
            TarPlace::Escapes(p) => stripped(path@).contains(seq![46u8, 46u8]) && p@ == rejoined(
                stripped(path@),
            ),
        },
{
    let ghost b = path@;
    let ghost segs = segments_from(b, 0, 0);
    let ghost names = named(segs);
    let rooted: bool = path.len() > 0 && path[0] == 47;
    let dotted: bool = !rooted && path.len() > 0 && path[0] == 46 && (path.len() == 1 || path[1]
        == 47);
    proof {
        lemma_first_segment(b);
    }
    assert(dotted == (!rooted && segs[0] == seq![46u8]));
    let mut out: Vec<u8> = Vec::new();
    let whole: bool = rooted || dotted;
    let mut skip: bool = !whole;
    let mut count: usize = 0;
    let mut escapes: bool = false;
    let mut start: usize = 0;
    let mut i: usize = 0;
    let ghost mut done: Seq<Seq<u8>> = Seq::empty();
    proof {
        assert(names =~= done + named(segments_from(b, 0, 0)));
    }
    loop
        invariant_except_break
            names == done + named(segments_from(b, start as int, i as int)),
            count <= start,
        invariant
            b == path@,
            start <= i <= path.len(),
            skip == (!whole && done.len() == 0),
            out@ == rejoined(behind_root(done, whole)),
            count == behind_root(done, whole).len(),
            escapes == behind_root(done, whole).contains(seq![46u8, 46u8]),
        ensures
            names == done,
        decreases path.len() - i + 1,
    {
        let at_end: bool = i == path.len();
        if !at_end && path[i] != 47 {
            i += 1;
            continue;
        }
        let ghost seg = b.subrange(start as int, i as int);
        let ghost old_done = done;
        let ghost rest = if at_end {
            Seq::<Seq<u8>>::empty()
        } else {
            segments_from(b, i + 1, i + 1)
        };
        proof {
            if at_end {
                assert(b.skip(start as int) =~= seg);
                assert(segments_from(b, start as int, i as int) =~= seq![seg] + rest);
            }
            let here = segments_from(b, start as int, i as int);
            assert(here[0] == seg);
            assert(here.skip(1) =~= rest);
        }
        let len: usize = i - start;
        let idle: bool = len == 0 || (len == 1 && path[start] == 46);
        assert(idle == (seg.len() == 0 || seg == seq![46u8])) by {
            if len == 1 {
                assert(seg[0] == b[start as int]);
                if b[start as int] == 46 {
                    assert(seg =~= seq![46u8]);
                }
            }
        }
        if !idle {
            proof {
                done = old_done.push(seg);
                assert(old_done + (seq![seg] + named(rest)) =~= done + named(rest));
            }
            if skip {
                skip = false;
                proof {
                    assert(done.skip(1) =~= Seq::<Seq<u8>>::empty());
                }
            } else {
                let up: bool = len == 2 && path[start] == 46 && path[start + 1] == 46;
                assert(up == (seg == seq![46u8, 46u8])) by {
                    if len == 2 {
                        assert(seg[0] == b[start as int]);
                        assert(seg[1] == b[start + 1]);
                        if up {
                            assert(seg =~= seq![46u8, 46u8]);
                        }
                    }
                }
                let ghost before = behind_root(old_done, whole);
                let ghost after = behind_root(done, whole);
                let ghost was = out@;
                push_segment(&mut out, count == 0, path, start, i);
                proof {
                    assert(after =~= before.push(seg));
                    assert(after.drop_last() =~= before);
                    if before.len() == 0 {
                        assert(was =~= Seq::<u8>::empty());
                        assert(out@ =~= seg);
                    }
                    assert(after.contains(seq![46u8, 46u8]) == (before.contains(seq![46u8, 46u8])
                        || up)) by {
                        if before.contains(seq![46u8, 46u8]) {
                            let k = choose|k: int|
                                0 <= k < before.len() && before[k] == seq![46u8, 46u8];
                            assert(after[k] == seq![46u8, 46u8]);
                        }
                        if up {
                            assert(after[before.len() as int] == seg);
                        }
                        if after.contains(seq![46u8, 46u8]) {
                            let k = choose|k: int|
                                0 <= k < after.len() && after[k] == seq![46u8, 46u8];
                            if k < before.len() {
                                assert(before[k] == seq![46u8, 46u8]);
                            }
                        }
                    }
                }
                count += 1;
                if up {
                    escapes = true;
                }
            }
        }
        if at_end {
            assert(done + Seq::<Seq<u8>>::empty() =~= done);
            break;
        }
        i += 1;
        start = i;
    }
    proof {
        let comps = components(b);
        if whole {
            assert(comps.skip(1) =~= names);
        } else if names.len() > 0 {
            assert(comps =~= names);
        }
    }
    if count == 0 {
        TarPlace::Root
    } else if escapes {
        TarPlace::Escapes(out)
    } else {
        TarPlace::Below(out)
    }
}

/// What an entry of a tarball is.
#[derive(Debug, Clone, Copy, PartialEq, Eq, Structural)]
pub enum TarKind {
    Dir,
    Symlink,
    /// Anything else is unpacked as it comes.
    Other,
}

/// What to do with an entry of a tarball. Paths are below the destination.
#[derive(Debug)]
pub enum TarStep {
    Skip,
    MakeDir(Vec<u8>),
    Link { path: Vec<u8>, target: Vec<u8> },
    Unpack(Vec<u8>),
}

/// Why an entry of a tarball is refused.
#[derive(Debug)]
pub enum TarFault {
    /// Its path leads out of the destination.
    Escapes(Vec<u8>),
    /// It is a symlink that names no target.
    NoTarget,
}

/// Whether a path, without the archive's root, leads out of the destination.
pub open spec fn leaves(path: Seq<u8>) -> bool {
    stripped(path).contains(seq![46u8, 46u8])
}

/// Decides what to do with an entry: the archive's root is passed over, a path
/// that leaves the destination is refused, and the rest goes by its kind.
pub fn tar_step(path: &[u8], kind: TarKind, link: Option<Vec<u8>>) -> (r: Result<TarStep, TarFault>)
    ensures
        match r {
            Ok(TarStep::Skip) => stripped(path@).len() == 0,
            Ok(TarStep::MakeDir(p)) => stripped(path@).len() > 0 && !leaves(path@) && kind
                == TarKind::Dir && p@ == rejoined(stripped(path@)),
            Ok(TarStep::Link { path: p, target }) => stripped(path@).len() > 0 && !leaves(path@)
                && kind == TarKind::Symlink && p@ == rejoined(stripped(path@)) && link == Some(
                target,
            ),
            Ok(TarStep::Unpack(p)) => stripped(path@).len() > 0 && !leaves(path@) && kind
                == TarKind::Other && p@ == rejoined(stripped(path@)),
            Err(TarFault::Escapes(p)) => leaves(path@) && p@ == rejoined(stripped(path@)),
            Err(TarFault::NoTarget) => stripped(path@).len() > 0 && !leaves(path@) && kind
                == TarKind::Symlink && link is None,
        },
{
    match tar_place(path) {
        TarPlace::Root => Ok(TarStep::Skip),
        TarPlace::Escapes(p) => Err(TarFault::Escapes(p)),
        TarPlace::Below(p) => match kind {
            TarKind::Dir => Ok(TarStep::MakeDir(p)),
            TarKind::Symlink => match link {
                Some(target) => Ok(TarStep::Link { path: p, target }),
                None => Err(TarFault::NoTarget),
            },
            TarKind::Other => Ok(TarStep::Unpack(p)),
        },
    }
}

proof fn lemma_first_segment(b: Seq<u8>)
    ensures
        segments_from(b, 0, 0).len() > 0,
        (segments_from(b, 0, 0)[0] == seq![46u8]) == (b.len() > 0 && b[0] == 46 && (b.len() == 1
            || b[1] == 47)),
{
    lemma_segment_ends(b, 0);
    if b.len() > 0 && b[0] == 46 && (b.len() == 1 || b[1] == 47) {
        reveal_with_fuel(segments_from, 3);
        if b.len() == 1 {
            assert(b.skip(0) =~= seq![46u8]);
        } else {
            assert(b.subrange(0, 1) =~= seq![46u8]);
        }
    } else {
        let first = segments_from(b, 0, 0)[0];
        if first == seq![46u8] {
            assert(first[0] == b.take(1)[0]);
        }
    }
}

proof fn lemma_segment_ends(b: Seq<u8>, i: int)
    requires
        0 <= i <= b.len(),
        forall|k: int| 0 <= k < i ==> #[trigger] b[k] != 47,
    ensures
        segments_from(b, 0, i).len() > 0,
        ({
            let first = segments_from(b, 0, i)[0];
            &&& i <= first.len() <= b.len()
            &&& first == b.take(first.len() as int)
            &&& first.len() < b.len() ==> b[first.len() as int] == 47
        }),
    decreases b.len() - i,
{
    if i >= b.len() {
        assert(b.skip(0) =~= b.take(b.len() as int));
    } else if b[i] == 47 {
        assert(b.subrange(0, i) =~= b.take(i));
    } else {
        lemma_segment_ends(b, i + 1);
    }
}

// ── Laws ──

/// An integrity string accepts an artifact exactly where every entry names an
/// algorithm and one of them is the artifact's digest behind the name of an
/// algorithm that is computed.
pub proof fn law_integrity_is_judged_by_its_entries(integrity: Seq<char>, d: SriDigestsView)
    ensures
        sri_verdict(integrity, d) is Ok <==> {
            &&& forall|i: int|
                0 <= i < words(integrity).len() ==> (#[trigger] words(integrity)[i]).contains('-')
            &&& exists|i: int|
                0 <= i < words(integrity).len() && (#[trigger] words(integrity)[i] == "sha512-"@
                    + d.sha512 || words(integrity)[i] == "sha256-"@ + d.sha256)
        },
{
    reveal_strlit("-");
    reveal_strlit("sha512");
    reveal_strlit("sha256");
    reveal_strlit("sha512-");
    reveal_strlit("sha256-");
    assert("-"@ =~= seq!['-']);
    assert("sha512-"@ =~= "sha512"@ + seq!['-']);
    assert("sha256-"@ =~= "sha256"@ + seq!['-']);
    assert("sha512"@[3] != "sha256"@[3]);
    assert(!"sha512"@.contains('-'));
    assert(!"sha256"@.contains('-'));
    let ps = words(integrity);
    lemma_malformed(ps);
    assert forall|i: int| 0 <= i < ps.len() implies (sri_matches(#[trigger] ps[i], d) <==> (ps[i]
        == "sha512-"@ + d.sha512 || ps[i] == "sha256-"@ + d.sha256)) && (sri_matches(ps[i], d)
        ==> sri_supported(ps[i])) by {
        lemma_cut_char(ps[i], '-');
        law_cut_at_the_first("sha512"@, '-', d.sha512);
        law_cut_at_the_first("sha256"@, '-', d.sha256);
        assert("sha512"@ + seq!['-'] + d.sha512 =~= "sha512-"@ + d.sha512);
        assert("sha256"@ + seq!['-'] + d.sha256 =~= "sha256-"@ + d.sha256);
    }
    if sri_verdict(integrity, d) is Ok {
        let i = choose|i: int| 0 <= i < ps.len() && sri_matches(#[trigger] ps[i], d);
        assert(ps[i] == "sha512-"@ + d.sha512 || ps[i] == "sha256-"@ + d.sha256);
        assert forall|i: int| 0 <= i < ps.len() implies (#[trigger] ps[i]).contains('-') by {
            lemma_cut_char(ps[i], '-');
            let c = cut(ps[i], "-"@)->0;
            assert(ps[i][c.0.len() as int] == '-');
        }
    } else {
        if (forall|i: int| 0 <= i < ps.len() ==> (#[trigger] ps[i]).contains('-')) {
            if sri_malformed(ps) is Some {
                let i = choose|i: int|
                    0 <= i < ps.len() && (#[trigger] ps[i]) == sri_malformed(ps)->0;
                assert(ps[i].contains('-'));
                lemma_cut_char(ps[i], '-');
            }
            if exists|i: int|
                0 <= i < ps.len() && (#[trigger] ps[i] == "sha512-"@ + d.sha512 || ps[i]
                    == "sha256-"@ + d.sha256) {
                let i = choose|i: int|
                    0 <= i < ps.len() && (#[trigger] ps[i] == "sha512-"@ + d.sha512 || ps[i]
                        == "sha256-"@ + d.sha256);
                assert(sri_matches(ps[i], d));
                assert(sri_supported(ps[i]));
            }
        }
    }
}

proof fn lemma_malformed(ps: Seq<Seq<char>>)
    ensures
        match sri_malformed(ps) {
            Some(p) => cut(p, "-"@) is None && exists|i: int|
                0 <= i < ps.len() && #[trigger] ps[i] == p,
            None => forall|i: int| 0 <= i < ps.len() ==> cut(#[trigger] ps[i], "-"@) is Some,
        },
    decreases ps.len(),
{
    if ps.len() > 0 && cut(ps[0], "-"@) is Some {
        let tail = ps.skip(1);
        lemma_malformed(tail);
        match sri_malformed(tail) {
            Some(p) => {
                let i = choose|i: int| 0 <= i < tail.len() && #[trigger] tail[i] == p;
                assert(ps[i + 1] == p);
            },
            None => {
                assert forall|i: int| 0 <= i < ps.len() implies cut(
                    #[trigger] ps[i],
                    "-"@,
                ) is Some by {
                    if i > 0 {
                        assert(tail[i - 1] == ps[i]);
                    }
                }
            },
        }
    } else if ps.len() > 0 {
        assert(ps[0] == ps[0]);
    }
}

/// The digests that an artifact is judged by are those of its own bytes.
pub proof fn law_artifacts_carry_their_own_digests(bytes: Seq<u8>)
    ensures
        digests_of(bytes).sha256 == standard_text(sha256(bytes)),
        digests_of(bytes).sha512 == standard_text(sha512(bytes)),
{
}

/// A shortened text is the beginning of the text: all of it where it is short.
pub proof fn law_shortened_texts_begin_alike(s: Seq<char>, n: int)
    requires
        0 <= n,
    ensures
        shortened(s, n).is_prefix_of(s),
        shortened(s, n).len() == (if s.len() < n {
            s.len() as int
        } else {
            n
        }),
{
    assert(s.take(s.len() as int) =~= s);
}

/// A wheel whose address the lock carries is kept under the last piece of the
/// address, and must have the first digest of its pin.
pub proof fn law_direct_wheels_are_named_by_their_address(
    pin: PinView,
    dir: Seq<char>,
    file: Seq<char>,
)
    requires
        pin.url == Some(dir + seq!['/'] + file),
        !file.contains('/'),
    ensures
        direct_of(pin) is Some,
        direct_of(pin)->0.url == dir + seq!['/'] + file,
        direct_of(pin)->0.filename == file,
        pin.hashes.len() == 0 ==> direct_of(pin)->0.expected is None,
        pin.hashes.len() > 0 ==> direct_of(pin)->0.expected == Some(pin.hashes[0]),
{
    reveal_strlit("/");
    assert("/"@ =~= seq!['/']);
    law_cut_at_the_last(dir, '/', file);
}

/// A pin without an address is not fetched by address.
pub proof fn law_pins_without_address_are_looked_up(pin: PinView)
    ensures
        direct_of(pin) is None <==> pin.url is None,
{
}

/// The page of a project stands below its index, however many slashes end the
/// address of the index.
pub proof fn law_pages_stand_below_the_index(index: Seq<char>, name: Seq<char>)
    ensures
        page_of(index + seq!['/'], name) == page_of(index, name),
        (index.len() > 0 && index.last() != '/') ==> page_of(index, name) == index + seq!['/']
            + normalized(name) + seq!['/'],
{
    reveal_strlit("/");
    assert("/"@ =~= seq!['/']);
    assert((index + seq!['/']).drop_last() =~= index);
}

/// The first anchor counts whose file is a wheel of the pin that this host can
/// run; without one the page offers nothing.
pub proof fn law_the_first_fitting_wheel_is_taken(
    anchors: Seq<(Seq<char>, Seq<char>)>,
    name: Seq<char>,
    version: Seq<char>,
)
    ensures
        match first_offer(anchors, name, version) {
            Some((href, file)) => exists|i: int|
                0 <= i < anchors.len() && (#[trigger] anchors[i]).0 == href && file == offered(
                    anchors[i],
                ) && matches_pin(file, name, version) && tags_run(file) && forall|j: int|
                    0 <= j < i ==> !(matches_pin(offered(#[trigger] anchors[j]), name, version)
                        && tags_run(offered(anchors[j]))),
            None => forall|j: int|
                0 <= j < anchors.len() ==> !(matches_pin(
                    offered(#[trigger] anchors[j]),
                    name,
                    version,
                ) && tags_run(offered(anchors[j]))),
        },
    decreases anchors.len(),
{
    if anchors.len() > 0 {
        let tail = anchors.skip(1);
        let file = offered(anchors[0]);
        if matches_pin(file, name, version) && tags_run(file) {
            assert(anchors[0] == anchors[0]);
        } else {
            law_the_first_fitting_wheel_is_taken(tail, name, version);
            match first_offer(tail, name, version) {
                Some((href, f)) => {
                    let i = choose|i: int|
                        0 <= i < tail.len() && (#[trigger] tail[i]).0 == href && f == offered(
                            tail[i],
                        ) && matches_pin(f, name, version) && tags_run(f) && forall|j: int|
                            0 <= j < i ==> !(matches_pin(offered(#[trigger] tail[j]), name, version)
                                && tags_run(offered(tail[j])));
                    assert(anchors[i + 1] == tail[i]);
                    assert forall|j: int| 0 <= j < i + 1 implies !(matches_pin(
                        offered(#[trigger] anchors[j]),
                        name,
                        version,
                    ) && tags_run(offered(anchors[j]))) by {
                        if j > 0 {
                            assert(tail[j - 1] == anchors[j]);
                        }
                    }
                },
                None => {
                    assert forall|j: int| 0 <= j < anchors.len() implies !(matches_pin(
                        offered(#[trigger] anchors[j]),
                        name,
                        version,
                    ) && tags_run(offered(anchors[j]))) by {
                        if j > 0 {
                            assert(tail[j - 1] == anchors[j]);
                        }
                    }
                },
            }
        }
    }
}

/// An anchor offers the file that its text names; without a text, the file that
/// its address ends in.
pub proof fn law_anchors_offer_a_file(dir: Seq<char>, file: Seq<char>, href: Seq<char>)
    requires
        !file.contains('/'),
    ensures
        file.len() > 0 ==> offered((href, file)) == file,
        offered((href, dir + seq!['/'] + file)) == file,
        offered((dir + seq!['/'] + file, Seq::empty())) == file,
{
    reveal_strlit("/");
    assert("/"@ =~= seq!['/']);
    law_cut_at_the_last(dir, '/', file);
}

/// The wheel of a page is at the address of the anchor without its fragment. It
/// must have the pin's digest, else the one in the fragment; without either it
/// has none to have.
pub proof fn law_wheels_are_checked_by_pin_or_fragment(
    pin: PinView,
    index: Seq<char>,
    page: Seq<char>,
    address: Seq<char>,
    digest: Seq<char>,
    file: Seq<char>,
)
    requires
        !address.contains('#'),
    ensures
        first_offer(anchors_of(page), normalized(pin.name), pin.version) is None <==> page_wheel(
            pin,
            index,
            page,
        ) is Err,
        first_offer(anchors_of(page), normalized(pin.name), pin.version) == Some(
            (address + "#sha256="@ + digest, file),
        ) ==> (page_wheel(pin, index, page) matches Ok(w) && w.filename == file && w.url
            == resolved(page_of(index, pin.name), address) && w.expected == Some(
            if pin.hashes.len() > 0 {
                pin.hashes[0]
            } else {
                digest
            },
        )),
        first_offer(anchors_of(page), normalized(pin.name), pin.version) == Some((address, file))
            ==> (page_wheel(pin, index, page) matches Ok(w) && w.filename == file && w.url
            == resolved(page_of(index, pin.name), address) && w.expected == (if pin.hashes.len()
            > 0 {
            Some(pin.hashes[0])
        } else {
            None
        })),
{
    reveal_strlit("#");
    reveal_strlit("#sha256=");
    assert("#"@ =~= seq!['#']);
    let m = "#sha256="@;
    let s = address + m + digest;
    law_cut_at_the_first(address, '#', m.skip(1) + digest);
    assert(address + seq!['#'] + (m.skip(1) + digest) =~= s);
    assert forall|j: int| 0 <= j < address.len() implies #[trigger] s.subrange(j, j + m.len())
        != m by {
        assert(address.contains(address[j]));
        assert(s.subrange(j, j + m.len())[0] == s[j]);
        assert(s[j] == address[j]);
    }
    law_cut_around_the_first_text(address, m, digest);
    lemma_find_from(address, m, 0);
    if cut(address, m) is Some {
        let k = find(address, m)->0;
        assert(address.subrange(k, k + m.len())[0] == address[k]);
        assert(address.contains(address[k]));
    }
}

/// A fetched wheel is accepted exactly with the digest it must have, refused
/// exactly with another, and warned of exactly where it need have none.
pub proof fn law_wheels_are_judged_by_their_digest(
    r: WheelVerdict,
    w: WheelFetch,
    actual: Seq<char>,
    direct: bool,
)
    requires
        judges_wheel(r, w, actual, direct),
    ensures
        r is Accepted <==> w.expected is Some && w.expected->0@ == actual,
        r is Refused <==> w.expected is Some && w.expected->0@ != actual,
        r is Unpinned <==> w.expected is None,
{
}

/// A source with a declared digest passes exactly with that digest; one without
/// always passes.
pub proof fn law_sources_are_judged_by_their_digest(
    r: Result<(), String>,
    url: String,
    declared: String,
    sha: Seq<char>,
)
    ensures
        judges_source(r, SourceSpec::Verified { url, sha256: declared }, sha) ==> (r is Ok <==> sha
            == declared@),
        judges_source(r, SourceSpec::Unverified(url), sha) ==> r is Ok,
{
}

/// Directories are visible unless their name begins with a dot.
pub proof fn law_only_hidden_directories_are_passed_over(dirs: Seq<Seq<char>>)
    ensures
        visible(dirs) == dirs.filter(|d: Seq<char>| !(d.len() > 0 && d[0] == '.')),
    decreases dirs.len(),
{
    reveal_strlit(".");
    let keep = |d: Seq<char>| !(d.len() > 0 && d[0] == '.');
    if dirs.len() == 0 {
        reveal(Seq::filter);
        assert(dirs.filter(keep) =~= dirs);
    } else {
        law_only_hidden_directories_are_passed_over(dirs.skip(1));
        lemma_filter_first(dirs, keep);
        let d = dirs[0];
        assert("."@.is_prefix_of(d) <==> (d.len() > 0 && d[0] == '.')) by {
            if d.len() > 0 && d[0] == '.' {
                assert(d.subrange(0, 1) =~= "."@);
            } else if d.len() > 0 {
                assert("."@[0] == '.');
            }
        }
    }
}

proof fn lemma_segments_glue(a: Seq<u8>, b: Seq<u8>, start: int, i: int)
    requires
        0 <= start <= i <= a.len(),
    ensures
        segments_from(a + seq![47u8] + b, start, i) == segments_from(a, start, i) + segments_from(
            b,
            0,
            0,
        ),
    decreases a.len() - i,
{
    let s = a + seq![47u8] + b;
    let n = a.len() as int;
    if i == n {
        assert(s[n] == 47);
        assert(s.subrange(start, n) =~= a.skip(start));
        lemma_segments_shift(s, n + 1, 0, 0);
        assert(s.skip(n + 1) =~= b);
    } else {
        assert(s[i] == a[i]);
        if a[i] == 47 {
            lemma_segments_glue(a, b, i + 1, i + 1);
            assert(s.subrange(start, i) =~= a.subrange(start, i));
            assert(seq![a.subrange(start, i)] + (segments_from(a, i + 1, i + 1) + segments_from(
                b,
                0,
                0,
            )) =~= seq![a.subrange(start, i)] + segments_from(a, i + 1, i + 1) + segments_from(
                b,
                0,
                0,
            ));
        } else {
            lemma_segments_glue(a, b, start, i + 1);
        }
    }
}

proof fn lemma_segments_shift(s: Seq<u8>, by: int, start: int, i: int)
    requires
        0 <= by,
        0 <= start <= i,
        by + i <= s.len(),
    ensures
        segments_from(s, by + start, by + i) == segments_from(s.skip(by), start, i),
    decreases s.len() - by - i,
{
    let t = s.skip(by);
    if i >= t.len() {
        assert(s.skip(by + start) =~= t.skip(start));
    } else {
        assert(t[i] == s[by + i]);
        if t[i] == 47 {
            assert(s.subrange(by + start, by + i) =~= t.subrange(start, i));
            lemma_segments_shift(s, by, i + 1, i + 1);
        } else {
            lemma_segments_shift(s, by, start, i + 1);
        }
    }
}

proof fn lemma_one_segment(a: Seq<u8>, i: int)
    requires
        0 <= i <= a.len(),
        !a.contains(47u8),
    ensures
        segments_from(a, 0, i) == seq![a],
    decreases a.len() - i,
{
    if i < a.len() {
        assert(a.contains(a[i]));
        lemma_one_segment(a, i + 1);
    } else {
        assert(a.skip(0) =~= a);
    }
}

/// The segments of a path stand between its slashes.
pub proof fn law_segments_stand_between_slashes(a: Seq<u8>, b: Seq<u8>)
    ensures
        !a.contains(47u8) ==> segments_from(a, 0, 0) == seq![a],
        segments_from(a + seq![47u8] + b, 0, 0) == segments_from(a, 0, 0) + segments_from(b, 0, 0),
{
    lemma_segments_glue(a, b, 0, 0);
    if !a.contains(47u8) {
        lemma_one_segment(a, 0);
    }
}

/// The segments that name something are all but the empty ones and single dots.
pub proof fn law_idle_segments_are_dropped(segs: Seq<Seq<u8>>)
    ensures
        named(segs) == segs.filter(|x: Seq<u8>| x.len() > 0 && !(x.len() == 1 && x[0] == 46u8)),
    decreases segs.len(),
{
    let keep = |x: Seq<u8>| x.len() > 0 && !(x.len() == 1 && x[0] == 46u8);
    if segs.len() == 0 {
        reveal(Seq::filter);
        assert(segs.filter(keep) =~= segs);
    } else {
        law_idle_segments_are_dropped(segs.skip(1));
        lemma_filter_first(segs, keep);
        let x = segs[0];
        if x.len() == 1 && x[0] == 46 {
            assert(x =~= seq![46u8]);
        }
    }
}

/// An entry loses the first component of its path and nothing else: a named
/// root, a leading slash or a leading dot.
pub proof fn law_entries_lose_their_root(root: Seq<u8>, rest: Seq<u8>)
    ensures
        (root.len() > 0 && !root.contains(47u8)) ==> stripped(root + seq![47u8] + rest) == named(
            segments_from(rest, 0, 0),
        ),
        stripped(seq![47u8] + rest) == named(segments_from(rest, 0, 0)),
        !root.contains(47u8) ==> stripped(root).len() == 0,
{
    let p = root + seq![47u8] + rest;
    law_segments_stand_between_slashes(root, rest);
    if !root.contains(47u8) {
        lemma_one_segment(root, 0);
        let one = seq![root];
        assert(one.skip(1) =~= Seq::<Seq<u8>>::empty());
        assert(named(Seq::<Seq<u8>>::empty()).len() == 0);
        assert(one[0] == root);
        assert(named(one) =~= (if root.len() == 0 || root == seq![46u8] {
            Seq::<Seq<u8>>::empty()
        } else {
            one
        }));
        if root.len() > 0 {
            assert(root.contains(root[0]));
            assert(p[0] == root[0]);
            let segs = segments_from(p, 0, 0);
            assert(segs =~= seq![root] + segments_from(rest, 0, 0));
            assert(segs.skip(1) =~= segments_from(rest, 0, 0));
            assert(components(p).skip(1) =~= named(segments_from(rest, 0, 0)));
        }
        if root == seq![46u8] {
            assert(components(root).skip(1) =~= Seq::<Seq<u8>>::empty());
        } else if root.len() > 0 {
            assert(components(root).skip(1) =~= Seq::<Seq<u8>>::empty());
        } else {
            assert(components(root).len() == 0);
        }
    }
    let e = Seq::<u8>::empty();
    let q = seq![47u8] + rest;
    law_segments_stand_between_slashes(e, rest);
    assert(e + seq![47u8] + rest =~= q);
    let segs = segments_from(q, 0, 0);
    assert(segs =~= seq![e] + segments_from(rest, 0, 0));
    assert(segs.skip(1) =~= segments_from(rest, 0, 0));
    assert(components(q).skip(1) =~= named(segments_from(rest, 0, 0)));
}

/// Segments put together with slashes are given back by taking them apart.
pub proof fn law_rejoined_segments_come_apart(segs: Seq<Seq<u8>>)
    requires
        segs.len() > 0,
        forall|i: int| 0 <= i < segs.len() ==> !(#[trigger] segs[i]).contains(47u8),
    ensures
        segments_from(rejoined(segs), 0, 0) == segs,
    decreases segs.len(),
{
    if segs.len() == 1 {
        lemma_one_segment(segs[0], 0);
        assert(segs =~= seq![segs[0]]);
    } else {
        let r = segs.drop_last();
        assert forall|i: int| 0 <= i < r.len() implies !(#[trigger] r[i]).contains(47u8) by {
            assert(r[i] == segs[i]);
        }
        law_rejoined_segments_come_apart(r);
        law_segments_stand_between_slashes(rejoined(r), segs.last());
        lemma_one_segment(segs.last(), 0);
        assert(segs =~= r + seq![segs.last()]);
    }
}

/// An entry leaves its destination exactly where two dots stand between slashes
/// behind its root.
pub proof fn law_two_dots_lead_out(root: Seq<u8>, rest: Seq<u8>)
    requires
        root.len() > 0,
        !root.contains(47u8),
    ensures
        leaves(root + seq![47u8] + rest) <==> segments_from(rest, 0, 0).contains(
            seq![46u8, 46u8],
        ),
{
    law_entries_lose_their_root(root, rest);
    let segs = segments_from(rest, 0, 0);
    law_idle_segments_are_dropped(segs);
    let keep = |x: Seq<u8>| x.len() > 0 && !(x.len() == 1 && x[0] == 46u8);
    lemma_filter_members(segs, keep);
    let up = seq![46u8, 46u8];
    assert(keep(up));
    assert(segs.filter(keep).contains(up) <==> segs.contains(up) && keep(up));
}

/// Bytes are unpacked exactly where they have the hash that is wanted and are an
/// archive.
pub proof fn law_closures_open_by_their_hash(
    deps_hash: Seq<char>,
    actual: Seq<char>,
    bytes: Seq<u8>,
)
    ensures
        opened(deps_hash, actual, bytes) is Ok <==> actual == deps_hash && unpacked(bytes) is Ok,
        materialized(deps_hash, None) is Err,
        materialized(deps_hash, Some(bytes)) == opened(
            deps_hash,
            hex_text(sha256(bytes)),
            bytes,
        ),
{
}

} // verus!
