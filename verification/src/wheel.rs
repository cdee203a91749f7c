//! Python wheels: project names, file name tags, and the pages of a simple
//! index.

use crate::text::{
    decimal, law_cut_at_the_first, law_cut_at_the_last, law_ends_are_taken_off,
    law_numbers_are_read_back, law_parts_make_up_the_text, law_parts_stand_between_separators,
    lemma_decimal_plain, lemma_find_behind,
    chars_of, contains, find, find_chars, find_from, is_space, join, joined, lemma_find_from, lower,
    parts, rcut, rsplit_once, split_char, starts_with, str_eq, string_of, strip_prefix,
    strip_suffix, texts, to_lower, trim, trimmed, unsigned_value, before_suffix, after_prefix,
    parse_unsigned, holds, char_is_space,
};
use vstd::prelude::*;

verus! {

/// Whether a character separates the words of a project name.
pub open spec fn is_separator(c: char) -> bool {
    c == '-' || c == '_' || c == '.'
}

/// The rest of a project name, normalized, behind a separator or not.
pub open spec fn normalized_from(s: Seq<char>, dashed: bool) -> Seq<char>
    decreases s.len(),
{
    if s.len() == 0 {
        Seq::empty()
    } else if is_separator(s[0]) {
        (if dashed {
            Seq::<char>::empty()
        } else {
            seq!['-']
        }) + normalized_from(s.skip(1), true)
    } else {
        seq![lower(s[0])] + normalized_from(s.skip(1), false)
    }
}

/// A project name with runs of `-`, `_` and `.` as one `-`, in lower case.
pub open spec fn normalized(s: Seq<char>) -> Seq<char> {
    normalized_from(s, false)
}

/// Normalizes a project name.
pub fn normalize_name(name: &str) -> (r: String)
    ensures
        r@ == normalized(name@),
{
    let a = chars_of(name);
    let mut out = String::new();
    let mut dashed = false;
    let mut i: usize = 0;
    assert(name@.skip(0) =~= name@);
    assert(Seq::<char>::empty() + normalized(name@) =~= normalized(name@));
    while i < a.len()
        invariant
            a@ == name@,
            i <= a.len(),
            out@ + normalized_from(name@.skip(i as int), dashed) == normalized(name@),
        decreases a.len() - i,
    {
        let ghost rest = name@.skip(i as int);
        let ghost before = out@;
        assert(rest[0] == a@[i as int]);
        assert(rest.skip(1) =~= name@.skip(i + 1));
        let c = a[i];
        if c == '-' || c == '_' || c == '.' {
            if !dashed {
                out.push('-');
            }
            assert(before + normalized_from(rest, dashed) =~= out@ + normalized_from(
                name@.skip(i + 1),
                true,
            ));
            dashed = true;
        } else {
            out.push(to_lower(c));
            assert(before + normalized_from(rest, dashed) =~= out@ + normalized_from(
                name@.skip(i + 1),
                false,
            ));
            dashed = false;
        }
        i += 1;
    }
    assert(name@.skip(i as int) =~= Seq::<char>::empty());
    assert(out@ + Seq::<char>::empty() =~= out@);
    out
}

proof fn lemma_normal_chars(s: Seq<char>, dashed: bool)
    ensures
        forall|i: int|
            0 <= i < normalized_from(s, dashed).len() ==> {
                let c = #[trigger] normalized_from(s, dashed)[i];
                lower(c) == c && c != '_' && c != '.'
            },
        forall|i: int|
            0 <= i < normalized_from(s, dashed).len() - 1 ==> !(#[trigger] normalized_from(
                s,
                dashed,
            )[i] == '-' && normalized_from(s, dashed)[i + 1] == '-'),
        dashed && normalized_from(s, dashed).len() > 0 ==> normalized_from(s, dashed)[0] != '-',
    decreases s.len(),
{
    let n = normalized_from(s, dashed);
    if s.len() > 0 {
        let sep = is_separator(s[0]);
        lemma_normal_chars(s.skip(1), sep);
        let m = normalized_from(s.skip(1), sep);
        let k = n.len() - m.len();
        assert forall|i: int| 0 <= i < n.len() implies {
            let c = #[trigger] n[i];
            lower(c) == c && c != '_' && c != '.'
        } by {
            if i >= k {
                assert(n[i] == m[i - k]);
            }
        }
        assert forall|i: int| 0 <= i < n.len() - 1 implies !(#[trigger] n[i] == '-' && n[i + 1]
            == '-') by {
            if i >= k {
                assert(n[i] == m[i - k]);
                assert(n[i + 1] == m[i - k + 1]);
            } else {
                assert(n[i + 1] == m[0]);
            }
        }
    }
}

proof fn lemma_normal_stays(s: Seq<char>, dashed: bool)
    requires
        forall|i: int|
            0 <= i < s.len() ==> {
                let c = #[trigger] s[i];
                lower(c) == c && c != '_' && c != '.'
            },
        forall|i: int| 0 <= i < s.len() - 1 ==> !(#[trigger] s[i] == '-' && s[i + 1] == '-'),
        dashed && s.len() > 0 ==> s[0] != '-',
    ensures
        normalized_from(s, dashed) == s,
    decreases s.len(),
{
    if s.len() > 0 {
        let t = s.skip(1);
        assert forall|i: int| 0 <= i < t.len() implies {
            let c = #[trigger] t[i];
            lower(c) == c && c != '_' && c != '.'
        } by {
            assert(t[i] == s[i + 1]);
        }
        assert forall|i: int| 0 <= i < t.len() - 1 implies !(#[trigger] t[i] == '-' && t[i + 1]
            == '-') by {
            assert(t[i] == s[i + 1]);
            assert(t[i + 1] == s[i + 2]);
        }
        assert(lower(s[0]) == s[0]);
        if t.len() > 0 {
            assert(t[0] == s[0int + 1]);
            assert(!(s[0] == '-' && s[0int + 1] == '-'));
        }
        lemma_normal_stays(t, is_separator(s[0]));
        assert(seq![s[0]] + t =~= s);
    } else {
        assert(s =~= Seq::<char>::empty());
    }
}

/// Normalizing a second time changes nothing.
pub proof fn law_normalizing_twice(s: Seq<char>)
    ensures
        normalized(normalized(s)) == normalized(s),
{
    lemma_normal_chars(s, false);
    lemma_normal_stays(normalized(s), false);
}

/// Whether a file name is that of a wheel of `name` in `version`, where both
/// names are normalized.
pub open spec fn matches_pin(filename: Seq<char>, name: Seq<char>, version: Seq<char>) -> bool {
    match before_suffix(filename, ".whl"@) {
        None => false,
        Some(stem) => (name + "-"@ + version + "-"@).is_prefix_of(stem),
    }
}

/// Whether a file name reads `{name}-{version}-*.whl`.
pub fn is_matching_wheel(filename: &str, name: &str, version: &str) -> (r: bool)
    ensures
        r == matches_pin(filename@, name@, version@),
{
    match strip_suffix(filename, ".whl") {
        None => false,
        Some(stem) => {
            let mut prefix = name.to_owned();
            prefix.append("-");
            prefix.append(version);
            prefix.append("-");
            starts_with(stem.as_str(), prefix.as_str())
        },
    }
}

/// The tags of a wheel's file name, from the right: platform, ABI, Python.
pub open spec fn wheel_tags(filename: Seq<char>) -> Option<(Seq<char>, Seq<char>, Seq<char>)> {
    match before_suffix(filename, ".whl"@) {
        None => None,
        Some(stem) => match rcut(stem, "-"@) {
            None => None,
            Some((rest, platform)) => match rcut(rest, "-"@) {
                None => None,
                Some((rest2, abi)) => match rcut(rest2, "-"@) {
                    None => None,
                    Some((_, python)) => Some((python, abi, platform)),
                },
            },
        },
    }
}

/// The minor version in a tag `cp3…`.
pub open spec fn minor_of(tag: Seq<char>) -> Option<int> {
    match after_prefix(tag, "cp3"@) {
        None => None,
        Some(digits) => unsigned_value(digits, 255),
    }
}

/// Whether a tag names CPython 3.9 or newer.
pub open spec fn is_supported(tag: Seq<char>) -> bool {
    minor_of(tag) matches Some(n) && n >= 9
}

/// Whether Linux on x86-64 with the GNU C library runs a platform.
pub open spec fn platform_runs(platform: Seq<char>) -> bool {
    platform == "any"@ || (holds(platform, "linux"@) && !holds(platform, "musl"@) && holds(
        platform,
        "x86_64"@,
    ))
}

/// Whether this host can run the wheel of a file name.
pub open spec fn tags_run(filename: Seq<char>) -> bool {
    match wheel_tags(filename) {
        None => false,
        Some((python, abi, platform)) => {
            &&& platform_runs(platform)
            &&& python == "py3"@ || python == "py2.py3"@ || is_supported(python) || (abi == "abi3"@
                && minor_of(python) is Some)
            &&& abi == "none"@ || abi == "abi3"@ || is_supported(abi)
        },
    }
}

fn minor(tag: &str) -> (r: Option<u64>)
    ensures
        match r {
            Some(n) => minor_of(tag@) == Some(n as int),
            None => minor_of(tag@) is None,
        },
{
    match strip_prefix(tag, "cp3") {
        None => None,
        Some(digits) => parse_unsigned(digits.as_str(), 255),
    }
}

/// Whether this host can run the wheel of a file name: Linux on x86-64, and
/// CPython 3.9 or newer, or the stable ABI of any CPython 3.
pub fn wheel_tags_match(filename: &str) -> (r: bool)
    ensures
        r == tags_run(filename@),
{
    let stem = match strip_suffix(filename, ".whl") {
        None => {
            return false;
        },
        Some(stem) => stem,
    };
    let (rest, platform) = match rsplit_once(stem.as_str(), "-") {
        None => {
            return false;
        },
        Some(p) => p,
    };
    let (rest2, abi) = match rsplit_once(rest.as_str(), "-") {
        None => {
            return false;
        },
        Some(p) => p,
    };
    let (_, python) = match rsplit_once(rest2.as_str(), "-") {
        None => {
            return false;
        },
        Some(p) => p,
    };
    let platform_ok = str_eq(platform.as_str(), "any") || (contains(platform.as_str(), "linux")
        && !contains(platform.as_str(), "musl") && contains(platform.as_str(), "x86_64"));
    let python_minor = minor(python.as_str());
    let stable = str_eq(abi.as_str(), "abi3");
    let python_ok = str_eq(python.as_str(), "py3") || str_eq(python.as_str(), "py2.py3") || (
    match python_minor {
        Some(n) => n >= 9 || stable,
        None => false,
    });
    let abi_ok = str_eq(abi.as_str(), "none") || stable || (match minor(abi.as_str()) {
        Some(n) => n >= 9,
        None => false,
    });
    platform_ok && python_ok && abi_ok
}

// ── Index pages ──

/// The position of the first white space or `>` from `i` on, or the end.
pub open spec fn bare_end(s: Seq<char>, i: int) -> int
    decreases s.len() - i,
{
    if i < 0 || i >= s.len() {
        s.len() as int
    } else if is_space(s[i]) || s[i] == '>' {
        i
    } else {
        bare_end(s, i + 1)
    }
}

/// The value of the attribute `href` in a tag, quoted or bare.
pub open spec fn href_of(tag: Seq<char>) -> Option<Seq<char>> {
    match find(tag, "href="@) {
        None => None,
        Some(pos) => {
            let rest = tag.skip(pos + 5);
            if rest.len() == 0 {
                None
            } else if rest[0] == '"' || rest[0] == '\'' {
                match find(rest.skip(1), seq![rest[0]]) {
                    None => None,
                    Some(end) => Some(rest.skip(1).take(end)),
                }
            } else {
                Some(rest.take(bare_end(rest, 0)))
            }
        },
    }
}

/// What is found lies within the text.
pub proof fn lemma_find_bounds(s: Seq<char>, p: Seq<char>)
    ensures
        find(s, p) matches Some(k) ==> 0 <= k <= s.len() - p.len(),
{
    lemma_find_from(s, p, 0);
}

/// The anchors of a page, each with its address and its text.
pub open spec fn anchors_of(html: Seq<char>) -> Seq<(Seq<char>, Seq<char>)>
    decreases html.len(),
{
    match find(html, "<a "@) {
        None => Seq::empty(),
        Some(start) => {
            let rest = html.skip(start);
            match find(rest, ">"@) {
                None => Seq::empty(),
                Some(close) => {
                    let after = rest.skip(close + 1);
                    proof {
                        lemma_find_bounds(html, "<a "@);
                        lemma_find_bounds(rest, ">"@);
                        lemma_find_bounds(after, "</a>"@);
                        reveal_strlit(">");
                        reveal_strlit("</a>");
                    }
                    match href_of(rest.take(close + 1)) {
                        None => anchors_of(after),
                        Some(href) => match find(after, "</a>"@) {
                            None => Seq::empty(),
                            Some(end) => seq![(href, trimmed(after.take(end)))] + anchors_of(
                                after.skip(end + 4),
                            ),
                        },
                    }
                },
            }
        },
    }
}

/// The models of a list of pairs of texts.
pub open spec fn text_pairs(v: Seq<(String, String)>) -> Seq<(Seq<char>, Seq<char>)> {
    v.map_values(|p: (String, String)| (p.0@, p.1@))
}

proof fn lemma_find_shift(s: Seq<char>, p: Seq<char>, from: int, i: int)
    requires
        0 <= from <= s.len(),
        0 <= i,
    ensures
        match find_from(s, p, from + i) {
            Some(k) => find_from(s.skip(from), p, i) == Some(k - from),
            None => find_from(s.skip(from), p, i) is None,
        },
    decreases s.len() + 1 - from - i,
{
    let t = s.skip(from);
    if from + i + p.len() <= s.len() {
        assert(t.subrange(i, i + p.len()) =~= s.subrange(from + i, from + i + p.len()));
        if !crate::text::occurs_at(s, p, from + i) {
            lemma_find_shift(s, p, from, i + 1);
        }
    }
}

/// The value of the attribute `href` in a tag.
pub fn extract_href(tag: &str) -> (r: Option<String>)
    ensures
        match r {
            Some(h) => href_of(tag@) == Some(h@),
            None => href_of(tag@) is None,
        },
{
    let a = chars_of(tag);
    let len: usize = a.len();
    let pos: usize = match find_chars(&a, &chars_of("href="), 0) {
        None => {
            return None;
        },
        Some(p) => p,
    };
    proof {
        reveal_strlit("href=");
    }
    let from: usize = pos + 5;
    let ghost rest = tag@.skip(from as int);
    if from >= len {
        return None;
    }
    let quote = a[from];
    assert(quote == rest[0]);
    if quote == '"' || quote == '\'' {
        let mut mark: Vec<char> = Vec::new();
        mark.push(quote);
        assert(mark@ =~= seq![quote]);
        assert(rest.skip(1) =~= tag@.skip(from + 1));
        proof {
            lemma_find_shift(tag@, mark@, from + 1, 0);
        }
        match find_chars(&a, &mark, from + 1) {
            None => None,
            Some(end) => {
                proof {
                    lemma_find_from(tag@, mark@, from + 1);
                }
                assert(tag@.subrange(from + 1, end as int) =~= rest.skip(1).take(end - (from + 1)));
                Some(string_of(&a, from + 1, end))
            },
        }
    } else {
        let mut i: usize = from;
        while i < a.len() && !(char_is_space(a[i]) || a[i] == '>')
            invariant
                a@ == tag@,
                from <= i <= a.len(),
                rest == tag@.skip(from as int),
                bare_end(rest, 0) == bare_end(rest, i - from),
            decreases a.len() - i,
        {
            assert(rest[i - from] == a@[i as int]);
            i += 1;
        }
        if i < a.len() {
            assert(rest[i - from] == a@[i as int]);
        }
        assert(bare_end(rest, 0) == i - from);
        assert(tag@.subrange(from as int, i as int) =~= rest.take(i - from));
        Some(string_of(&a, from, i))
    }
}

/// Reads the anchors of an index page into addresses and texts.
pub fn parse_simple_index(html: &str) -> (r: Vec<(String, String)>)
    ensures
        text_pairs(r@) == anchors_of(html@),
{
    let a = chars_of(html);
    let open_mark = chars_of("<a ");
    let close_mark = chars_of(">");
    let end_mark = chars_of("</a>");
    let mut out: Vec<(String, String)> = Vec::new();
    let mut pos: usize = 0;
    assert(html@.skip(0) =~= html@);
    assert(text_pairs(out@) + anchors_of(html@) =~= anchors_of(html@));
    loop
        invariant
            a@ == html@,
            open_mark@ == "<a "@,
            close_mark@ == ">"@,
            end_mark@ == "</a>"@,
            pos <= a.len(),
            text_pairs(out@) + anchors_of(html@.skip(pos as int)) == anchors_of(html@),
        decreases a.len() - pos,
    {
        let ghost here = html@.skip(pos as int);
        proof {
            reveal_strlit(">");
            reveal_strlit("</a>");
            lemma_find_shift(html@, "<a "@, pos as int, 0);
        }
        let start: usize = match find_chars(&a, &open_mark, pos) {
            None => {
                assert(text_pairs(out@) + Seq::empty() =~= text_pairs(out@));
                return out;
            },
            Some(k) => k,
        };
        proof {
            lemma_find_from(html@, "<a "@, pos as int);
            assert(here.skip(start - pos) =~= html@.skip(start as int));
            lemma_find_shift(html@, ">"@, start as int, 0);
        }
        let ghost rest = html@.skip(start as int);
        let close: usize = match find_chars(&a, &close_mark, start) {
            None => {
                assert(text_pairs(out@) + Seq::empty() =~= text_pairs(out@));
                return out;
            },
            Some(k) => k,
        };
        let ghost after = html@.skip(close + 1);
        proof {
            lemma_find_from(html@, ">"@, start as int);
            assert(rest.skip(close - start + 1) =~= after);
            assert(rest.take(close - start + 1) =~= html@.subrange(start as int, close + 1));
        }
        let tag = string_of(&a, start, close + 1);
        match extract_href(tag.as_str()) {
            None => {
                pos = close + 1;
            },
            Some(href) => {
                proof {
                    lemma_find_shift(html@, "</a>"@, close + 1, 0);
                }
                let end: usize = match find_chars(&a, &end_mark, close + 1) {
                    None => {
                        assert(text_pairs(out@) + Seq::empty() =~= text_pairs(out@));
                        return out;
                    },
                    Some(k) => k,
                };
                proof {
                    lemma_find_from(html@, "</a>"@, close + 1);
                    assert(after.take(end - (close + 1)) =~= html@.subrange(close + 1, end as int));
                    assert(after.skip(end - (close + 1) + 4) =~= html@.skip(end + 4));
                }
                let ghost before = out@;
                let text = trim(string_of(&a, close + 1, end).as_str());
                let ghost item = (href@, text@);
                out.push((href, text));
                proof {
                    assert(text_pairs(out@) =~= text_pairs(before).push(item));
                    let more = anchors_of(html@.skip(end + 4));
                    assert(text_pairs(before) + (seq![item] + more) =~= text_pairs(out@) + more);
                }
                pos = end + 4;
            },
        }
    }
}

/// The path segments `segs` followed along those of a relative address.
pub open spec fn walked(segs: Seq<Seq<char>>, steps: Seq<Seq<char>>) -> Seq<Seq<char>>
    decreases steps.len(),
{
    if steps.len() == 0 {
        segs
    } else {
        let step = steps[0];
        walked(
            if step == "."@ || step.len() == 0 {
                segs
            } else if step == ".."@ {
                if segs.len() == 0 {
                    segs
                } else {
                    segs.drop_last()
                }
            } else {
                segs.push(step)
            },
            steps.skip(1),
        )
    }
}

/// The host part of an address that has a path: everything before the slash
/// that begins the path.
pub open spec fn site_of(base: Seq<char>) -> Option<Seq<char>> {
    match find(base, "://"@) {
        None => None,
        Some(k) => match find(base.skip(k + 3), "/"@) {
            None => None,
            Some(slash) => Some(base.take(k + 3 + slash)),
        },
    }
}

/// Whether an address is absolute.
pub open spec fn is_http(url: Seq<char>) -> bool {
    "http://"@.is_prefix_of(url) || "https://"@.is_prefix_of(url)
}

/// The address that `href` on the page `base` leads to.
pub open spec fn resolved(base: Seq<char>, href: Seq<char>) -> Seq<char> {
    if is_http(href) {
        href
    } else if "/"@.is_prefix_of(href) && site_of(base) is Some {
        site_of(base)->0 + href
    } else {
        let dir = match rcut(base, "/"@) {
            Some((d, _)) => d,
            None => base,
        };
        joined(walked(parts(dir, '/'), parts(href, '/')), "/"@)
    }
}

/// Whether an address is absolute.
pub fn is_http_url(url: &str) -> (r: bool)
    ensures
        r == is_http(url@),
{
    starts_with(url, "http://") || starts_with(url, "https://")
}

/// The host part of an address that has a path.
fn site(base: &str) -> (r: Option<String>)
    ensures
        match r {
            Some(s) => site_of(base@) == Some(s@),
            None => site_of(base@) is None,
        },
{
    let a = chars_of(base);
    let len: usize = a.len();
    proof {
        reveal_strlit("://");
    }
    match find_chars(&a, &chars_of("://"), 0) {
        None => None,
        Some(k) => {
            assert(k + 3 <= len);
            let from: usize = k + 3;
            proof {
                lemma_find_shift(base@, "/"@, from as int, 0);
            }
            match find_chars(&a, &chars_of("/"), from) {
                None => None,
                Some(slash) => {
                    assert(base@.subrange(0, slash as int) =~= base@.take(slash as int));
                    Some(string_of(&a, 0, slash))
                },
            }
        },
    }
}

/// Resolves a possibly relative address against that of its page: absolute,
/// from the root of the site, or with `..` segments.
pub fn resolve_url(base: &str, href: &str) -> (r: String)
    ensures
        r@ == resolved(base@, href@),
{
    if is_http_url(href) {
        return href.to_owned();
    }
    if starts_with(href, "/") {
        match site(base) {
            Some(s) => {
                let mut out = s;
                out.append(href);
                return out;
            },
            None => {},
        }
    }
    let dir = match rsplit_once(base, "/") {
        Some((d, _)) => d,
        None => base.to_owned(),
    };
    let mut segs = split_char(dir.as_str(), '/');
    let steps = split_char(href, '/');
    let ghost all = texts(steps@);
    let ghost start = texts(segs@);
    let mut i: usize = 0;
    assert(all.skip(0) =~= all);
    while i < steps.len()
        invariant
            i <= steps.len(),
            all == texts(steps@),
            walked(start, all) == walked(texts(segs@), all.skip(i as int)),
        decreases steps.len() - i,
    {
        let ghost before = segs@;
        assert(all.skip(i as int)[0] == steps@[i as int]@);
        assert(all.skip(i as int).skip(1) =~= all.skip(i + 1));
        let step = steps[i].as_str();
        if str_eq(step, ".") || step.is_empty() {
        } else if str_eq(step, "..") {
            if segs.len() > 0 {
                segs.pop();
                assert(texts(segs@) =~= texts(before).drop_last());
            }
        } else {
            segs.push(step.to_owned());
            assert(texts(segs@) =~= texts(before).push(step@));
        }
        i += 1;
    }
    assert(all.skip(i as int) =~= Seq::<Seq<char>>::empty());
    join(&segs, "/")
}

// ── Laws ──

/// Names that differ only in which separators stand between their words, or in
/// how many stand together, or in the case of a letter, are one name.
pub proof fn law_names_are_told_by_their_words(a: Seq<char>, c: char, d: char, b: Seq<char>)
    ensures
        is_separator(c) && is_separator(d) ==> normalized(a + (seq![c] + b)) == normalized(
            a + (seq![d] + b),
        ),
        is_separator(c) && is_separator(d) ==> normalized(a + (seq![c, d] + b)) == normalized(
            a + (seq!['-'] + b),
        ),
        'A' <= c && c <= 'Z' && d as int == c as int + 32 ==> normalized(a + (seq![c] + b))
            == normalized(a + (seq![d] + b)),
{
    assert((seq![c] + b).skip(1) =~= b);
    assert((seq![d] + b).skip(1) =~= b);
    assert((seq!['-'] + b).skip(1) =~= b);
    assert((seq![c, d] + b).skip(1) =~= seq![d] + b);
    if is_separator(c) && is_separator(d) {
        lemma_same_beginning(a, seq![c] + b, seq![d] + b, false);
        let two = seq![c, d] + b;
        let one = seq!['-'] + b;
        assert forall|e: bool| #[trigger] normalized_from(two, e) == normalized_from(one, e) by {
            assert(normalized_from(seq![d] + b, true) =~= normalized_from(b, true));
        }
        lemma_same_beginning(a, two, one, false);
    }
    if 'A' <= c && c <= 'Z' && d as int == c as int + 32 {
        assert(lower(c) == d && lower(d) == d);
        lemma_same_beginning(a, seq![c] + b, seq![d] + b, false);
    }
}

proof fn lemma_same_beginning(a: Seq<char>, x: Seq<char>, y: Seq<char>, dashed: bool)
    requires
        forall|e: bool| #[trigger] normalized_from(x, e) == normalized_from(y, e),
    ensures
        normalized_from(a + x, dashed) == normalized_from(a + y, dashed),
    decreases a.len(),
{
    if a.len() == 0 {
        assert(a + x =~= x);
        assert(a + y =~= y);
        assert(normalized_from(x, dashed) == normalized_from(y, dashed));
    } else {
        assert((a + x).skip(1) =~= a.skip(1) + x);
        assert((a + y).skip(1) =~= a.skip(1) + y);
        lemma_same_beginning(a.skip(1), x, y, is_separator(a[0]));
    }
}

/// A normalized name holds no capital letter, no `_` and no `.`, nor two `-`
/// together; and a name like that is normalized.
pub proof fn law_normal_names_are_plain(s: Seq<char>)
    ensures
        forall|i: int|
            0 <= i < normalized(s).len() ==> {
                let c = #[trigger] normalized(s)[i];
                lower(c) == c && c != '_' && c != '.'
            },
        forall|i: int|
            0 <= i < normalized(s).len() - 1 ==> !(#[trigger] normalized(s)[i] == '-'
                && normalized(s)[i + 1] == '-'),
        ((forall|i: int|
            0 <= i < s.len() ==> {
                let c = #[trigger] s[i];
                !('A' <= c && c <= 'Z') && c != '_' && c != '.'
            }) && (forall|i: int|
            0 <= i < s.len() - 1 ==> !(#[trigger] s[i] == '-' && s[i + 1] == '-')))
            ==> normalized(s) == s,
{
    lemma_normal_chars(s, false);
    if (forall|i: int|
        0 <= i < s.len() ==> {
            let c = #[trigger] s[i];
            !('A' <= c && c <= 'Z') && c != '_' && c != '.'
        }) && (forall|i: int|
        0 <= i < s.len() - 1 ==> !(#[trigger] s[i] == '-' && s[i + 1] == '-')) {
        lemma_normal_stays(s, false);
    }
}

/// A wheel of a pin is named by the pin's name and version and ends in `.whl`,
/// with anything between.
pub proof fn law_wheels_are_named_by_their_pin(
    file: Seq<char>,
    name: Seq<char>,
    version: Seq<char>,
    tags: Seq<char>,
)
    ensures
        matches_pin(name + "-"@ + version + "-"@ + tags + ".whl"@, name, version),
        matches_pin(file, name, version) ==> exists|t: Seq<char>|
            file == #[trigger] (name + "-"@ + version + "-"@ + t + ".whl"@),
{
    let p = name + "-"@ + version + "-"@;
    law_ends_are_taken_off(".whl"@, p + tags);
    assert(p.is_prefix_of(p + tags)) by {
        assert((p + tags).take(p.len() as int) =~= p);
    }
    if matches_pin(file, name, version) {
        law_ends_are_taken_off(".whl"@, file);
        let stem = before_suffix(file, ".whl"@)->0;
        let t = stem.skip(p.len() as int);
        assert(stem =~= p + t);
        assert(file =~= name + "-"@ + version + "-"@ + t + ".whl"@);
    }
}

/// The tags of a wheel are the last three pieces of its name.
pub proof fn law_tags_end_the_name(
    head: Seq<char>,
    python: Seq<char>,
    abi: Seq<char>,
    platform: Seq<char>,
)
    requires
        !python.contains('-'),
        !abi.contains('-'),
        !platform.contains('-'),
    ensures
        wheel_tags(head + "-"@ + python + "-"@ + abi + "-"@ + platform + ".whl"@) == Some(
            (python, abi, platform),
        ),
{
    reveal_strlit("-");
    assert("-"@ =~= seq!['-']);
    let r2 = head + "-"@ + python;
    let r1 = r2 + "-"@ + abi;
    let stem = r1 + "-"@ + platform;
    law_ends_are_taken_off(".whl"@, stem);
    law_cut_at_the_last(r1, '-', platform);
    law_cut_at_the_last(r2, '-', abi);
    law_cut_at_the_last(head, '-', python);
}

/// A wheel for any platform and any Python 3 runs; one for a CPython runs from
/// 3.9 on; one for the stable ABI runs from whatever CPython 3 it names; and
/// none runs on another platform.
pub proof fn law_wheels_run_from_their_version_on(head: Seq<char>, platform: Seq<char>, n: nat)
    requires
        !platform.contains('-'),
        n <= 255,
    ensures
        tags_run(head + "-"@ + "py3"@ + "-"@ + "none"@ + "-"@ + platform + ".whl"@)
            <==> platform_runs(platform),
        tags_run(head + "-"@ + "py2.py3"@ + "-"@ + "none"@ + "-"@ + platform + ".whl"@)
            <==> platform_runs(platform),
        tags_run(
            head + "-"@ + ("cp3"@ + decimal(n)) + "-"@ + ("cp3"@ + decimal(n)) + "-"@ + platform
                + ".whl"@,
        ) <==> platform_runs(platform) && n >= 9,
        tags_run(
            head + "-"@ + ("cp3"@ + decimal(n)) + "-"@ + "abi3"@ + "-"@ + platform + ".whl"@,
        ) <==> platform_runs(platform),
        tags_run(
            head + "-"@ + ("cp3"@ + decimal(n)) + "-"@ + "none"@ + "-"@ + platform + ".whl"@,
        ) <==> platform_runs(platform) && n >= 9,
        !tags_run(head + "-"@ + "py2"@ + "-"@ + "none"@ + "-"@ + platform + ".whl"@),
{
    reveal_strlit("py3");
    reveal_strlit("py2");
    reveal_strlit("py2.py3");
    reveal_strlit("none");
    reveal_strlit("abi3");
    reveal_strlit("cp3");
    law_numbers_are_read_back(n, 255);
    lemma_decimal_plain(n);
    let cp = "cp3"@ + decimal(n);
    assert(!cp.contains('-')) by {
        if cp.contains('-') {
            let k = choose|k: int| 0 <= k < cp.len() && cp[k] == '-';
            if k >= 3 {
                assert(decimal(n)[k - 3] == '-');
                assert(decimal(n).contains('-'));
            }
        }
    }
    law_ends_are_taken_off("cp3"@, decimal(n));
    law_ends_are_taken_off("cp3"@, "abi3"@);
    law_ends_are_taken_off("cp3"@, "none"@);
    law_ends_are_taken_off("cp3"@, "py2"@);
    assert(cp[0] == 'c');
    assert("py3"@[0] == 'p' && "py2.py3"@[0] == 'p' && "none"@[0] == 'n' && "abi3"@[0] == 'a');
    assert("py2"@[0] == 'p' && "py2"@[2] == '2' && "py3"@[2] == '3' && "py2"@.len() == 3);
    assert("cp3"@[0] == 'c');
    assert(minor_of("py2"@) is None);
    assert(!"py3"@.contains('-') && !"py2"@.contains('-') && !"py2.py3"@.contains('-')
        && !"none"@.contains('-') && !"abi3"@.contains('-'));
    law_tags_end_the_name(head, "py3"@, "none"@, platform);
    law_tags_end_the_name(head, "py2"@, "none"@, platform);
    law_tags_end_the_name(head, "py2.py3"@, "none"@, platform);
    law_tags_end_the_name(head, cp, cp, platform);
    law_tags_end_the_name(head, cp, "abi3"@, platform);
    law_tags_end_the_name(head, cp, "none"@, platform);
}

/// A platform runs that names Linux and x86-64 and not another C library; of
/// the others only `any` does.
pub proof fn law_platforms_name_what_runs(platform: Seq<char>)
    ensures
        platform_runs("any"@),
        platform != "any"@ ==> (platform_runs(platform) ==> holds(platform, "linux"@) && holds(
            platform,
            "x86_64"@,
        )),
        platform != "any"@ && holds(platform, "musl"@) ==> !platform_runs(platform),
        holds(platform, "linux"@) && holds(platform, "x86_64"@) && !holds(platform, "musl"@)
            ==> platform_runs(platform),
{
}

proof fn lemma_bare_end(s: Seq<char>, n: int, i: int)
    requires
        0 <= i <= n <= s.len(),
        forall|k: int| i <= k < n ==> !is_space(#[trigger] s[k]) && s[k] != '>',
        n < s.len() ==> is_space(s[n]) || s[n] == '>',
    ensures
        bare_end(s, i) == n,
    decreases n - i,
{
    if i < n {
        lemma_bare_end(s, n, i + 1);
    }
}

/// The address of a tag stands behind its first `href=`: between quotes, or up
/// to white space or the end of the tag.
pub proof fn law_addresses_stand_behind_href(
    pre: Seq<char>,
    quote: char,
    address: Seq<char>,
    post: Seq<char>,
)
    requires
        !pre.contains('h'),
    ensures
        (quote == '"' || quote == '\'') && !address.contains(quote) ==> href_of(
            pre + "href="@ + (seq![quote] + address + seq![quote] + post),
        ) == Some(address),
        (address.len() > 0 && address[0] != '"' && address[0] != '\'' && !address.contains('>')
            && (forall|k: int| 0 <= k < address.len() ==> !is_space(#[trigger] address[k])))
            ==> href_of(pre + "href="@ + (address + seq!['>'])) == Some(address),
{
    reveal_strlit("href=");
    let m = "href="@;
    let t1 = seq![quote] + address + seq![quote] + post;
    let t2 = address + seq!['>'];
    lemma_href_place(pre, t1);
    lemma_href_place(pre, t2);
    let s1 = pre + m + t1;
    let s2 = pre + m + t2;
    assert(s1.skip(pre.len() as int + 5) =~= t1);
    assert(s2.skip(pre.len() as int + 5) =~= t2);
    if (quote == '"' || quote == '\'') && !address.contains(quote) {
        let r = t1.skip(1);
        assert(r =~= address + seq![quote] + post);
        law_cut_at_the_first(address, quote, post);
        lemma_find_from(r, seq![quote], 0);
        let end = address.len() as int;
        assert(r.subrange(end, end + 1) =~= seq![quote]);
        assert(crate::text::occurs_at(r, seq![quote], end));
        let k = find(r, seq![quote])->0;
        if k < end {
            assert(r.subrange(k, k + 1)[0] == r[k]);
            assert(address.contains(address[k]));
        }
        assert(r.take(end) =~= address);
    }
    if address.len() > 0 && address[0] != '"' && address[0] != '\'' && !address.contains('>') && (
    forall|k: int| 0 <= k < address.len() ==> !is_space(#[trigger] address[k])) {
        assert forall|k: int| 0 <= k < address.len() implies !is_space(#[trigger] t2[k]) && t2[k]
            != '>' by {
            assert(t2[k] == address[k]);
            assert(address.contains(address[k]));
        }
        lemma_bare_end(t2, address.len() as int, 0);
        assert(t2.take(address.len() as int) =~= address);
    }
}

proof fn lemma_href_place(pre: Seq<char>, t: Seq<char>)
    requires
        !pre.contains('h'),
    ensures
        find(pre + "href="@ + t, "href="@) == Some(pre.len() as int),
{
    reveal_strlit("href=");
    lemma_find_behind(pre, "href="@, t);
}

/// The anchors of a page are read one behind the other: the address of a tag
/// `<a …>` and, trimmed, what stands before the next `</a>`. A tag without an
/// address is passed over.
pub proof fn law_anchors_follow_each_other(
    pre: Seq<char>,
    attrs: Seq<char>,
    text: Seq<char>,
    post: Seq<char>,
)
    requires
        !pre.contains('<'),
        !attrs.contains('>'),
        !text.contains('<'),
    ensures
        anchors_of(pre).len() == 0,
        href_of("<a "@ + attrs + ">"@) is Some ==> anchors_of(
            pre + "<a "@ + attrs + ">"@ + text + "</a>"@ + post,
        ) == seq![(href_of("<a "@ + attrs + ">"@)->0, trimmed(text))] + anchors_of(post),
        href_of("<a "@ + attrs + ">"@) is None ==> anchors_of(
            pre + "<a "@ + attrs + ">"@ + text + "</a>"@ + post,
        ) == anchors_of(text + "</a>"@ + post),
{
    reveal_strlit("<a ");
    reveal_strlit(">");
    reveal_strlit("</a>");
    let s = pre + "<a "@ + attrs + ">"@ + text + "</a>"@ + post;
    let rest = "<a "@ + attrs + ">"@ + text + "</a>"@ + post;
    lemma_find_behind(pre, "<a "@, attrs + ">"@ + text + "</a>"@ + post);
    assert(s =~= pre + "<a "@ + (attrs + ">"@ + text + "</a>"@ + post));
    assert(s.skip(pre.len() as int) =~= rest);
    let head = "<a "@ + attrs;
    assert(">"@ =~= seq!['>']);
    assert(!head.contains('>')) by {
        if head.contains('>') {
            let k = choose|k: int| 0 <= k < head.len() && head[k] == '>';
            if k >= 3 {
                assert(attrs[k - 3] == '>');
                assert(attrs.contains('>'));
            }
        }
    }
    let after = text + "</a>"@ + post;
    law_cut_at_the_first(head, '>', after);
    assert(rest =~= head + seq!['>'] + after);
    lemma_find_from(rest, ">"@, 0);
    let at = head.len() as int;
    assert(rest.subrange(at, at + 1) =~= ">"@);
    assert(crate::text::occurs_at(rest, ">"@, at));
    let k = find(rest, ">"@)->0;
    if k < at {
        assert(rest.subrange(k, k + 1)[0] == rest[k]);
        assert(head.contains(head[k]));
    }
    assert(rest.skip(at + 1) =~= after);
    assert(rest.take(at + 1) =~= "<a "@ + attrs + ">"@);
    lemma_find_behind(text, "</a>"@, post);
    assert(after.take(text.len() as int) =~= text);
    assert(after.skip(text.len() as int + 4) =~= post);
    lemma_find_from(pre, "<a "@, 0);
    if find(pre, "<a "@) is Some {
        let k = find(pre, "<a "@)->0;
        assert(pre.subrange(k, k + 3)[0] == pre[k]);
        assert(pre.contains(pre[k]));
    }
}

/// An absolute address stands for itself, and one from the root of the site
/// leads to the page's own site.
pub proof fn law_absolute_addresses_stand(
    base: Seq<char>,
    scheme: Seq<char>,
    host: Seq<char>,
    page: Seq<char>,
    x: Seq<char>,
)
    requires
        !scheme.contains(':'),
        !host.contains('/'),
    ensures
        resolved(base, "http://"@ + x) == "http://"@ + x,
        resolved(base, "https://"@ + x) == "https://"@ + x,
        resolved(scheme + "://"@ + host + "/"@ + page, "/"@ + x) == scheme + "://"@ + host + "/"@
            + x,
{
    reveal_strlit("http://");
    reveal_strlit("https://");
    reveal_strlit("/");
    reveal_strlit("://");
    law_ends_are_taken_off("http://"@, x);
    law_ends_are_taken_off("https://"@, x);
    law_ends_are_taken_off("/"@, x);
    let h = "/"@ + x;
    assert(h[0] == '/');
    assert("http://"@[0] == 'h' && "https://"@[0] == 'h');
    assert(!is_http(h));
    assert("/"@.is_prefix_of(h));
    let b = scheme + "://"@ + host + "/"@ + page;
    let tail = host + "/"@ + page;
    assert(b =~= scheme + "://"@ + tail);
    let at = scheme.len() as int;
    lemma_find_behind(scheme, "://"@, tail);
    assert(b.skip(at + 3) =~= tail);
    let n = host.len() as int;
    lemma_find_behind(host, "/"@, page);
    assert(b.take(at + 3 + n) =~= scheme + "://"@ + host);
    assert(scheme + "://"@ + host + h =~= scheme + "://"@ + host + "/"@ + x);
}

/// A relative address is followed step by step: `..` goes up, `.` and nothing
/// stay, and any other step goes down.
pub proof fn law_steps_are_followed(
    segs: Seq<Seq<char>>,
    a: Seq<char>,
    steps: Seq<Seq<char>>,
    step: Seq<char>,
)
    ensures
        walked(segs, Seq::empty()) == segs,
        walked(segs.push(a), seq![".."@] + steps) == walked(segs, steps),
        walked(Seq::empty(), seq![".."@] + steps) == walked(Seq::empty(), steps),
        walked(segs, seq!["."@] + steps) == walked(segs, steps),
        walked(segs, seq![Seq::<char>::empty()] + steps) == walked(segs, steps),
        (step.len() > 0 && step != "."@ && step != ".."@) ==> walked(segs, seq![step] + steps)
            == walked(segs.push(step), steps),
{
    reveal_strlit(".");
    reveal_strlit("..");
    assert((seq![".."@] + steps).skip(1) =~= steps);
    assert((seq!["."@] + steps).skip(1) =~= steps);
    assert((seq![Seq::<char>::empty()] + steps).skip(1) =~= steps);
    assert((seq![step] + steps).skip(1) =~= steps);
    assert(segs.push(a).drop_last() =~= segs);
    assert("."@.len() != ".."@.len());
}

/// A file name on a page leads to the file beside the page.
pub proof fn law_names_lead_beside_the_page(dir: Seq<char>, page: Seq<char>, name: Seq<char>)
    requires
        dir.len() > 0,
        !page.contains('/'),
        !name.contains('/'),
        name.len() > 0,
        name != "."@,
        name != ".."@,
    ensures
        resolved(dir + "/"@ + page, name) == dir + "/"@ + name,
{
    reveal_strlit("/");
    reveal_strlit("http://");
    reveal_strlit("https://");
    assert("/"@ =~= seq!['/']);
    law_cut_at_the_last(dir, '/', page);
    law_parts_make_up_the_text(dir, '/');
    law_parts_stand_between_separators(name, '/', name);
    law_steps_are_followed(parts(dir, '/'), name, Seq::empty(), name);
    assert(seq![name] + Seq::<Seq<char>>::empty() =~= seq![name]);
    let p = parts(dir, '/');
    assert(walked(p, seq![name]) == p.push(name));
    assert(p.push(name).drop_last() =~= p);
    assert(p.push(name).last() == name);
    assert(walked(p, parts(name, '/')) == p.push(name));
    assert(joined(p, "/"@) == dir);
    assert(!"/"@.is_prefix_of(name)) by {
        if "/"@.is_prefix_of(name) {
            assert(name[0] == "/"@[0]);
            assert(name.contains(name[0]));
        }
    }
    assert(joined(p.push(name), "/"@) == dir + "/"@ + name);
    assert(parts(name, '/') == seq![name]);
    assert(rcut(dir + "/"@ + page, "/"@) == Some((dir, page)));
    if is_http(name) {
        if "http://"@.is_prefix_of(name) {
            assert(name[5] == "http://"@[5]);
            assert(name.contains(name[5]));
        } else {
            assert(name[6] == "https://"@[6]);
            assert(name.contains(name[6]));
        }
    }
    assert(!is_http(name));
}

} // verus!
