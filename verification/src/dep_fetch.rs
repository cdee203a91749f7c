//! Dependency closures of interpreted packages: what a lock file pins, which
//! artifacts are fetched, and when a fetched artifact is accepted.
//!
//! The lock drives the fetch. Nothing here runs an installer: an artifact is
//! an address, a place in the tree and a digest that its bytes must have.

use crate::digest::sha256;
use crate::glob::{glob, glob_match};
use crate::json_doc::{json_document, parse_json, Json, JsonView};
use crate::ordered::{
    ascending, law_sorted_by_keeps, law_sorted_by_orders, lemma_sorted_views, name_set, sorted_by,
    stable_sort, Ranked,
};
use crate::text::{
    is_space, law_cut_at_the_first, law_ends_are_taken_off, lemma_filter_first, lemma_filter_members,
    lemma_find_from, lemma_text_lt_total, lemma_text_lt_transitive, lemma_trimmed_plain, occurs_at,
    after_last, before_first, chars_of, contains, cut, drop_trailing, ends_with, find, find_chars,
    first_part, holds, join, joined, last_part, lines, list_contains, opt_text, split_lines,
    split_once, split_whitespace, starts_with, str_eq, str_lt, string_of, strip_prefix, text_lt,
    texts, trim, trim_end_char, trimmed, words, after_prefix, to_decimal, decimal, lossy,
    lossy_text,
};
use crate::wheel::{
    is_http, is_http_url, is_matching_wheel, matches_pin, normalize_name, normalized, resolved,
    tags_run, wheel_tags_match,
};
use vstd::prelude::*;

verus! {

/// The simple index that wheels come from where a package names no other.
pub const DEFAULT_PIP_INDEX: &'static str = "https://pypi.org/simple";

// ── Pins ──

/// One pinned requirement of a pip lock.
#[derive(Debug)]
pub struct PipPin {
    pub name: String,
    pub version: String,
    /// SHA-256 digests in hexadecimal; none where the lock pins none.
    pub hashes: Vec<String>,
    /// The wheel's address, where the lock carries it.
    pub url: Option<String>,
}

/// The model of a [`PipPin`].
pub struct PinView {
    pub name: Seq<char>,
    pub version: Seq<char>,
    pub hashes: Seq<Seq<char>>,
    pub url: Option<Seq<char>>,
}

impl View for PipPin {
    type V = PinView;

    open spec fn view(&self) -> PinView {
        PinView {
            name: self.name@,
            version: self.version@,
            hashes: texts(self.hashes@),
            url: opt_text(self.url),
        }
    }
}

/// The models of a list of pins.
pub open spec fn pin_views(v: Seq<PipPin>) -> Seq<PinView> {
    v.map_values(|p: PipPin| p@)
}

/// What the tokens of a requirement line say so far: name and version, and
/// the digests.
pub struct LineState {
    pub pin: Option<(Seq<char>, Seq<char>)>,
    pub hashes: Seq<Seq<char>>,
}

/// What one more token says.
pub open spec fn token_read(st: LineState, token: Seq<char>) -> LineState {
    match after_prefix(token, "--hash=sha256:"@) {
        Some(hash) => LineState { pin: st.pin, hashes: st.hashes.push(hash) },
        None => match cut(token, "=="@) {
            Some((n, v)) => if "-"@.is_prefix_of(token) {
                st
            } else {
                LineState { pin: Some((first_part(n, "["@), v)), hashes: st.hashes }
            },
            None => st,
        },
    }
}

/// What tokens say, one after the other.
pub open spec fn tokens_read(st: LineState, tokens: Seq<Seq<char>>) -> LineState
    decreases tokens.len(),
{
    if tokens.len() == 0 {
        st
    } else {
        tokens_read(token_read(st, tokens[0]), tokens.skip(1))
    }
}

/// A line without a comment behind a space.
pub open spec fn uncommented(line: Seq<char>) -> Seq<char> {
    match find(line, " #"@) {
        Some(k) => line.take(k),
        None => line,
    }
}

/// The pin of a requirement line; `None` for a comment or a bare option.
pub open spec fn requirement_of(line: Seq<char>) -> Option<PinView> {
    let t = trimmed(line);
    if t.len() == 0 || "#"@.is_prefix_of(t) {
        None
    } else {
        let st = tokens_read(
            LineState { pin: None, hashes: Seq::empty() },
            words(uncommented(t)),
        );
        match st.pin {
            Some((name, version)) => Some(
                PinView { name, version, hashes: st.hashes, url: None },
            ),
            None => None,
        }
    }
}

/// Whether an optional pin is the one of a model.
pub open spec fn same_pin(r: Option<PipPin>, p: Option<PinView>) -> bool {
    match r {
        Some(x) => p == Some(x@),
        None => p is None,
    }
}

/// Reads one logical requirement line; `None` for lines that are none.
pub fn parse_requirement_line(line: &str) -> (r: Option<PipPin>)
    ensures
        same_pin(r, requirement_of(line@)),
{
    let t = trim(line);
    if t.as_str().is_empty() || starts_with(t.as_str(), "#") {
        return None;
    }
    let a = chars_of(t.as_str());
    let body = match find_chars(&a, &chars_of(" #"), 0) {
        Some(k) => {
            assert(t@.subrange(0, k as int) =~= t@.take(k as int));
            string_of(&a, 0, k)
        },
        None => t,
    };
    let tokens = split_whitespace(body.as_str());
    let ghost all = words(body@);
    let ghost first = LineState { pin: None, hashes: Seq::empty() };
    let mut pin: Option<(String, String)> = None;
    let mut hashes: Vec<String> = Vec::new();
    let mut i: usize = 0;
    assert(all.skip(0) =~= all);
    assert(texts(hashes@) =~= Seq::<Seq<char>>::empty());
    while i < tokens.len()
        invariant
            i <= tokens.len(),
            all == texts(tokens@),
            tokens_read(first, all) == tokens_read(
                LineState { pin: crate::text::opt_pair(pin), hashes: texts(hashes@) },
                all.skip(i as int),
            ),
        decreases tokens.len() - i,
    {
        let ghost before = hashes@;
        assert(all.skip(i as int)[0] == tokens@[i as int]@);
        assert(all.skip(i as int).skip(1) =~= all.skip(i + 1));
        let token = tokens[i].as_str();
        match strip_prefix(token, "--hash=sha256:") {
            Some(hash) => {
                let ghost h = hash@;
                hashes.push(hash);
                assert(texts(hashes@) =~= texts(before).push(h));
            },
            None => {
                match split_once(token, "==") {
                    Some((n, v)) => {
                        if !starts_with(token, "-") {
                            pin = Some((before_first(n.as_str(), "["), v));
                        }
                    },
                    None => {},
                }
            },
        }
        i += 1;
    }
    assert(all.skip(i as int) =~= Seq::<Seq<char>>::empty());
    match pin {
        Some((name, version)) => Some(PipPin { name, version, hashes, url: None }),
        None => None,
    }
}

/// The logical lines of a requirements file: a line that ends in a backslash
/// goes on in the next one.
pub open spec fn logical_lines(rows: Seq<Seq<char>>, begun: Seq<char>) -> Seq<Seq<char>>
    decreases rows.len(),
{
    if rows.len() == 0 {
        if trimmed(begun).len() == 0 {
            Seq::empty()
        } else {
            seq![begun]
        }
    } else {
        let line = trimmed(rows[0]);
        if "\\"@.is_suffix_of(line) {
            logical_lines(rows.skip(1), begun + drop_trailing(line, '\\') + seq![' '])
        } else {
            seq![begun + line] + logical_lines(rows.skip(1), Seq::empty())
        }
    }
}

/// The pins of logical lines, in order.
pub open spec fn requirements_of(rows: Seq<Seq<char>>) -> Seq<PinView>
    decreases rows.len(),
{
    if rows.len() == 0 {
        Seq::empty()
    } else {
        match requirement_of(rows[0]) {
            Some(p) => seq![p] + requirements_of(rows.skip(1)),
            None => requirements_of(rows.skip(1)),
        }
    }
}

/// The pins of a requirements file.
pub open spec fn file_pins(text: Seq<char>) -> Seq<PinView> {
    requirements_of(logical_lines(lines(text), Seq::empty()))
}

fn join_continuations(rows: &Vec<String>) -> (r: Vec<String>)
    ensures
        texts(r@) == logical_lines(texts(rows@), Seq::empty()),
{
    let ghost all = texts(rows@);
    let ghost whole = logical_lines(all, Seq::empty());
    let mut out: Vec<String> = Vec::new();
    let mut begun = String::new();
    let mut i: usize = 0;
    assert(all.skip(0) =~= all);
    assert(begun@ =~= Seq::<char>::empty());
    assert(texts(out@) + whole =~= whole);
    while i < rows.len()
        invariant
            i <= rows.len(),
            all == texts(rows@),
            texts(out@) + logical_lines(all.skip(i as int), begun@) == whole,
        decreases rows.len() - i,
    {
        let ghost before = out@;
        let ghost was = begun@;
        assert(all.skip(i as int)[0] == rows@[i as int]@);
        assert(all.skip(i as int).skip(1) =~= all.skip(i + 1));
        let line = trim(rows[i].as_str());
        if ends_with(line.as_str(), "\\") {
            begun.append(trim_end_char(line.as_str(), '\\').as_str());
            begun.push(' ');
            assert(begun@ =~= was + drop_trailing(line@, '\\') + seq![' ']);
        } else {
            begun.append(line.as_str());
            let ghost done = begun@;
            out.push(begun);
            begun = String::new();
            proof {
                assert(begun@ =~= Seq::<char>::empty());
                assert(texts(out@) =~= texts(before).push(done));
                let more = logical_lines(all.skip(i + 1), Seq::empty());
                assert(texts(before) + (seq![done] + more) =~= texts(out@) + more);
            }
        }
        i += 1;
    }
    assert(all.skip(i as int) =~= Seq::<Seq<char>>::empty());
    if !trim(begun.as_str()).as_str().is_empty() {
        let ghost before = out@;
        let ghost done = begun@;
        out.push(begun);
        assert(texts(out@) =~= texts(before).push(done));
        assert(texts(before) + seq![done] =~= texts(out@));
    } else {
        assert(texts(out@) + Seq::<Seq<char>>::empty() =~= texts(out@));
    }
    out
}

/// Reads a pinned requirements file: continued lines, digests, comments. Only
/// exact `name==version` pins count.
pub fn read_requirements(text: &str) -> (r: Vec<PipPin>)
    ensures
        pin_views(r@) == file_pins(text@),
{
    let rows = split_lines(text);
    let logical = join_continuations(&rows);
    let ghost all = texts(logical@);
    let mut out: Vec<PipPin> = Vec::new();
    let mut i: usize = 0;
    assert(all.skip(0) =~= all);
    assert(pin_views(out@) + requirements_of(all) =~= requirements_of(all));
    while i < logical.len()
        invariant
            i <= logical.len(),
            all == texts(logical@),
            pin_views(out@) + requirements_of(all.skip(i as int)) == requirements_of(all),
        decreases logical.len() - i,
    {
        let ghost before = out@;
        assert(all.skip(i as int)[0] == logical@[i as int]@);
        assert(all.skip(i as int).skip(1) =~= all.skip(i + 1));
        match parse_requirement_line(logical[i].as_str()) {
            Some(pin) => {
                let ghost p = pin@;
                out.push(pin);
                proof {
                    assert(pin_views(out@) =~= pin_views(before).push(p));
                    let more = requirements_of(all.skip(i + 1));
                    assert(pin_views(before) + (seq![p] + more) =~= pin_views(out@) + more);
                }
            },
            None => {},
        }
        i += 1;
    }
    assert(all.skip(i as int) =~= Seq::<Seq<char>>::empty());
    assert(pin_views(out@) + Seq::<PinView>::empty() =~= pin_views(out@));
    out
}

/// Reads the bytes of a pinned requirements file.
pub fn parse_pip_requirements(bytes: &[u8]) -> (r: Vec<PipPin>)
    ensures
        pin_views(r@) == file_pins(lossy(bytes@)),
{
    read_requirements(lossy_text(bytes).as_str())
}

// ── The cross-platform lock ──

/// A dependency edge of a locked package.
#[derive(Debug)]
pub struct UvDep {
    pub name: String,
}

/// Where a locked package comes from; only a registry has artifacts that
/// never change.
#[derive(Debug)]
pub struct UvSource {
    pub registry: Option<String>,
}

/// A wheel of a locked package.
#[derive(Debug)]
pub struct UvWheel {
    pub url: String,
    /// `sha256:<hex>`.
    pub hash: Option<String>,
}

/// A package of the lock.
#[derive(Debug)]
pub struct UvPackage {
    pub name: String,
    pub version: String,
    pub source: Option<UvSource>,
    pub wheels: Option<Vec<UvWheel>>,
    pub dependencies: Option<Vec<UvDep>>,
    pub dev_dependencies: Option<Vec<UvDep>>,
}

/// Whether a package comes from a registry.
pub open spec fn from_registry(p: UvPackage) -> bool {
    p.source matches Some(s) && s.registry is Some
}

/// The normalized names of optional edges.
pub open spec fn edge_names(o: Option<Vec<UvDep>>) -> Seq<Seq<char>> {
    match o {
        Some(v) => v@.map_values(|d: UvDep| normalized(d.name@)),
        None => Seq::empty(),
    }
}

/// Whether a package of the name `a` has a regular edge to `b`.
pub open spec fn depends(pkgs: Seq<UvPackage>, a: Seq<char>, b: Seq<char>) -> bool {
    exists|i: int| #[trigger]
        has_edge(pkgs, i, a, b)
}

/// Whether package `i` has the name `a` and a regular edge to `b`.
pub open spec fn has_edge(pkgs: Seq<UvPackage>, i: int, a: Seq<char>, b: Seq<char>) -> bool {
    0 <= i < pkgs.len() && normalized(pkgs[i].name@) == a && edge_names(
        pkgs[i].dependencies,
    ).contains(b)
}

/// Whether names lead from a root along regular edges.
pub open spec fn is_chain(
    pkgs: Seq<UvPackage>,
    roots: Set<Seq<char>>,
    chain: Seq<Seq<char>>,
) -> bool {
    &&& chain.len() > 0
    &&& roots.contains(chain[0])
    &&& forall|i: int| 0 <= i < chain.len() - 1 ==> #[trigger] depends(pkgs, chain[i], chain[i + 1])
}

/// Whether a name is reached from the roots, the roots included.
pub open spec fn reaches(pkgs: Seq<UvPackage>, roots: Set<Seq<char>>, x: Seq<char>) -> bool {
    exists|chain: Seq<Seq<char>>| #[trigger] is_chain(pkgs, roots, chain) && chain.last() == x
}

/// Whether a package that is installed from source depends on `x`.
pub open spec fn is_prod_root(pkgs: Seq<UvPackage>, x: Seq<char>) -> bool {
    exists|i: int|
        0 <= i < pkgs.len() && !from_registry(#[trigger] pkgs[i]) && edge_names(
            pkgs[i].dependencies,
        ).contains(x)
}

/// Whether a package depends on `x` for development.
pub open spec fn is_dev_root(pkgs: Seq<UvPackage>, x: Seq<char>) -> bool {
    exists|i: int|
        0 <= i < pkgs.len() && edge_names((#[trigger] pkgs[i]).dev_dependencies).contains(x)
}

/// The roots of what is installed.
pub open spec fn prod_roots(pkgs: Seq<UvPackage>) -> Set<Seq<char>> {
    Set::new(|x: Seq<char>| is_prod_root(pkgs, x))
}

/// The roots of what is used for development.
pub open spec fn dev_roots(pkgs: Seq<UvPackage>) -> Set<Seq<char>> {
    Set::new(|x: Seq<char>| is_dev_root(pkgs, x))
}

/// Whether a name is reached from development alone. Without anything
/// installed from source there is no telling the two apart, and none is.
pub open spec fn is_dev_only(pkgs: Seq<UvPackage>, x: Seq<char>) -> bool {
    &&& exists|y: Seq<char>| is_prod_root(pkgs, y)
    &&& reaches(pkgs, dev_roots(pkgs), x)
    &&& !reaches(pkgs, prod_roots(pkgs), x)
}

/// Whether a list holds a text.
pub open spec fn among(v: Seq<String>, x: Seq<char>) -> bool {
    texts(v).contains(x)
}

fn push_edges(out: &mut Vec<String>, edges: &Option<Vec<UvDep>>)
    ensures
        texts(final(out)@) == texts(old(out)@) + edge_names(*edges),
{
    match edges {
        None => {
            assert(texts(out@) + Seq::<Seq<char>>::empty() =~= texts(out@));
        },
        Some(v) => {
            let ghost names = edge_names(*edges);
            let ghost start = texts(out@);
            let mut i: usize = 0;
            assert(start + names.take(0) =~= start);
            while i < v.len()
                invariant
                    i <= v.len(),
                    names == v@.map_values(|d: UvDep| normalized(d.name@)),
                    texts(out@) == start + names.take(i as int),
                decreases v.len() - i,
            {
                let ghost before = out@;
                let name = normalize_name(v[i].name.as_str());
                let ghost n = name@;
                out.push(name);
                proof {
                    assert(texts(out@) =~= texts(before).push(n));
                    assert(names.take(i + 1) =~= names.take(i as int).push(n));
                    assert(start + names.take(i as int).push(n) =~= (start + names.take(
                        i as int,
                    )).push(n));
                }
                i += 1;
            }
            assert(names.take(v@.len() as int) =~= names);
        },
    }
}

/// All regular edge targets of a list of packages.
spec fn all_edges(pkgs: Seq<UvPackage>) -> Seq<Seq<char>>
    decreases pkgs.len(),
{
    if pkgs.len() == 0 {
        Seq::empty()
    } else {
        edge_names(pkgs[0].dependencies) + all_edges(pkgs.skip(1))
    }
}

proof fn lemma_all_edges(pkgs: Seq<UvPackage>, i: int, x: Seq<char>)
    requires
        0 <= i < pkgs.len(),
        edge_names(pkgs[i].dependencies).contains(x),
    ensures
        all_edges(pkgs).contains(x),
    decreases pkgs.len(),
{
    let head = edge_names(pkgs[0].dependencies);
    let tail = all_edges(pkgs.skip(1));
    if i == 0 {
        let k = choose|k: int| 0 <= k < head.len() && head[k] == x;
        assert((head + tail)[k] == x);
    } else {
        assert(pkgs.skip(1)[i - 1] == pkgs[i]);
        lemma_all_edges(pkgs.skip(1), i - 1, x);
        let k = choose|k: int| 0 <= k < tail.len() && tail[k] == x;
        assert((head + tail)[head.len() + k] == x);
    }
}

proof fn lemma_root_reached(pkgs: Seq<UvPackage>, roots: Set<Seq<char>>, x: Seq<char>)
    requires
        roots.contains(x),
    ensures
        reaches(pkgs, roots, x),
{
    let chain = seq![x];
    assert(is_chain(pkgs, roots, chain));
    assert(chain.last() == x);
}

proof fn lemma_edge_reached(
    pkgs: Seq<UvPackage>,
    roots: Set<Seq<char>>,
    x: Seq<char>,
    y: Seq<char>,
)
    requires
        reaches(pkgs, roots, x),
        depends(pkgs, x, y),
    ensures
        reaches(pkgs, roots, y),
{
    let chain = choose|chain: Seq<Seq<char>>| #[trigger]
        is_chain(pkgs, roots, chain) && chain.last() == x;
    let longer = chain.push(y);
    assert forall|i: int| 0 <= i < longer.len() - 1 implies #[trigger] depends(
        pkgs,
        longer[i],
        longer[i + 1],
    ) by {
        if i < chain.len() - 1 {
            assert(depends(pkgs, chain[i], chain[i + 1]));
        }
    }
    assert(is_chain(pkgs, roots, longer));
    assert(longer.last() == y);
}

/// What holds the roots and is closed under edges holds all that is reached.
proof fn lemma_closed_holds_reached(
    pkgs: Seq<UvPackage>,
    roots: Set<Seq<char>>,
    held: Seq<Seq<char>>,
    x: Seq<char>,
)
    requires
        forall|r: Seq<char>| #[trigger] roots.contains(r) ==> held.contains(r),
        forall|a: Seq<char>, b: Seq<char>|
            held.contains(a) && #[trigger] depends(pkgs, a, b) ==> held.contains(b),
        reaches(pkgs, roots, x),
    ensures
        held.contains(x),
{
    let chain = choose|chain: Seq<Seq<char>>| #[trigger]
        is_chain(pkgs, roots, chain) && chain.last() == x;
    lemma_chain_held(pkgs, roots, held, chain, chain.len() - 1);
}

proof fn lemma_chain_held(
    pkgs: Seq<UvPackage>,
    roots: Set<Seq<char>>,
    held: Seq<Seq<char>>,
    chain: Seq<Seq<char>>,
    i: int,
)
    requires
        forall|r: Seq<char>| #[trigger] roots.contains(r) ==> held.contains(r),
        forall|a: Seq<char>, b: Seq<char>|
            held.contains(a) && #[trigger] depends(pkgs, a, b) ==> held.contains(b),
        is_chain(pkgs, roots, chain),
        0 <= i < chain.len(),
    ensures
        held.contains(chain[i]),
    decreases i,
{
    if i > 0 {
        lemma_chain_held(pkgs, roots, held, chain, i - 1);
        assert(depends(pkgs, chain[i - 1], chain[i - 1 + 1]));
    }
}

proof fn lemma_distinct_fit(seen: Seq<Seq<char>>, all: Seq<Seq<char>>)
    requires
        seen.no_duplicates(),
        forall|x: Seq<char>| #[trigger] seen.contains(x) ==> all.contains(x),
    ensures
        seen.len() <= all.len(),
{
    broadcast use vstd::seq_lib::group_seq_properties;

    seen.unique_seq_to_set();
    all.lemma_cardinality_of_set();
    assert(seen.to_set().subset_of(all.to_set()));
    vstd::set_lib::lemma_len_subset(seen.to_set(), all.to_set());
}

/// The names that are reached from roots along regular edges, the roots
/// included; each once.
fn reachable_from(pkgs: &[UvPackage], roots: Vec<String>) -> (r: Vec<String>)
    ensures
        forall|x: Seq<char>|
            among(r@, x) <==> reaches(pkgs@, texts(roots@).to_set(), x),
{
    let ghost start = texts(roots@).to_set();
    let ghost given = texts(roots@);
    let ghost all = given + all_edges(pkgs@);
    let mut seen: Vec<String> = Vec::new();
    let mut queue: Vec<String> = roots;
    proof {
        assert forall|x: Seq<char>| #[trigger] texts(queue@).contains(x) implies reaches(
            pkgs@,
            start,
            x,
        ) && all.contains(x) by {
            lemma_root_reached(pkgs@, start, x);
            let k = choose|k: int| 0 <= k < texts(queue@).len() && texts(queue@)[k] == x;
            assert(all[k] == x);
        }
    }
    proof {
        assert forall|i: int, x: Seq<char>|
            0 <= i < pkgs@.len() && #[trigger] edge_names(pkgs@[i].dependencies).contains(
                x,
            ) implies all.contains(x) by {
            lemma_all_edges(pkgs@, i, x);
            let edges = all_edges(pkgs@);
            let k = choose|k: int| 0 <= k < edges.len() && edges[k] == x;
            assert(all[given.len() + k] == x);
        }
    }
    while queue.len() > 0
        invariant
            texts(seen@).no_duplicates(),
            forall|x: Seq<char>| #[trigger] texts(seen@).contains(x) ==> all.contains(x),
            forall|x: Seq<char>| #[trigger] texts(queue@).contains(x) ==> all.contains(x),
            forall|x: Seq<char>| #[trigger] texts(seen@).contains(x) ==> reaches(pkgs@, start, x),
            forall|x: Seq<char>| #[trigger] texts(queue@).contains(x) ==> reaches(pkgs@, start, x),
            forall|x: Seq<char>| #[trigger]
                start.contains(x) ==> texts(seen@).contains(x) || texts(queue@).contains(x),
            forall|a: Seq<char>, b: Seq<char>|
                texts(seen@).contains(a) && #[trigger] depends(pkgs@, a, b) ==> texts(
                    seen@,
                ).contains(b) || texts(queue@).contains(b),
            forall|i: int, x: Seq<char>|
                0 <= i < pkgs@.len() && #[trigger] edge_names(pkgs@[i].dependencies).contains(x)
                    ==> all.contains(x),
            seen@.len() <= all.len(),
        decreases all.len() - seen@.len(), queue@.len(),
    {
        let ghost was = queue@;
        let name = queue.pop().unwrap();
        let ghost n = name@;
        let ghost left = queue@;
        proof {
            assert(texts(was) =~= texts(left).push(n));
            assert(texts(was).contains(n)) by {
                assert(texts(was)[was.len() - 1] == n);
            }
            assert forall|x: Seq<char>| #[trigger] texts(left).contains(x) implies texts(
                was,
            ).contains(x) by {
                let k = choose|k: int| 0 <= k < texts(left).len() && texts(left)[k] == x;
                assert(texts(was)[k] == x);
            }
            assert forall|x: Seq<char>| #[trigger] texts(was).contains(x) implies x == n || texts(
                left,
            ).contains(x) by {
                let k = choose|k: int| 0 <= k < texts(was).len() && texts(was)[k] == x;
                if k < left.len() {
                    assert(texts(left)[k] == x);
                }
            }
        }
        if list_contains(&seen, name.as_str()) {
            continue;
        }
        let mut i: usize = 0;
        while i < pkgs.len()
            invariant
                i <= pkgs.len(),
                n == name@,
                reaches(pkgs@, start, n),
                forall|x: Seq<char>| #[trigger] texts(left).contains(x) ==> texts(queue@).contains(x),
                forall|x: Seq<char>| #[trigger] texts(queue@).contains(x) ==> all.contains(x),
                forall|x: Seq<char>| #[trigger]
                    texts(queue@).contains(x) ==> reaches(pkgs@, start, x),
                forall|j: int, y: Seq<char>|
                    j < i && #[trigger] has_edge(pkgs@, j, n, y) ==> texts(queue@).contains(y),
                forall|j: int, x: Seq<char>|
                    0 <= j < pkgs@.len() && #[trigger] edge_names(
                        pkgs@[j].dependencies,
                    ).contains(x) ==> all.contains(x),
            decreases pkgs.len() - i,
        {
            let from = normalize_name(pkgs[i].name.as_str());
            if str_eq(from.as_str(), name.as_str()) {
                let ghost before = texts(queue@);
                let ghost names = edge_names(pkgs@[i as int].dependencies);
                push_edges(&mut queue, &pkgs[i].dependencies);
                proof {
                    assert forall|x: Seq<char>| #[trigger] before.contains(x) implies texts(
                        queue@,
                    ).contains(x) by {
                        let k = choose|k: int| 0 <= k < before.len() && before[k] == x;
                        assert(texts(queue@)[k] == x);
                    }
                    assert forall|x: Seq<char>| #[trigger] names.contains(x) implies texts(
                        queue@,
                    ).contains(x) by {
                        let k = choose|k: int| 0 <= k < names.len() && names[k] == x;
                        assert(texts(queue@)[before.len() + k] == x);
                    }
                    assert forall|x: Seq<char>| #[trigger] texts(queue@).contains(
                        x,
                    ) implies all.contains(x) && reaches(pkgs@, start, x) by {
                        let k = choose|k: int| 0 <= k < texts(queue@).len() && texts(queue@)[k] == x;
                        if k < before.len() {
                            assert(before[k] == x);
                            assert(before.contains(x));
                        } else {
                            assert(names[k - before.len()] == x);
                            assert(names.contains(x));
                            assert(has_edge(pkgs@, i as int, n, x));
                            lemma_edge_reached(pkgs@, start, n, x);
                        }
                    }
                    assert forall|x: Seq<char>| #[trigger] texts(left).contains(
                        x,
                    ) implies texts(queue@).contains(x) by {
                        assert(before.contains(x));
                    }
                    assert forall|j: int, y: Seq<char>|
                        j < i + 1 && #[trigger] has_edge(pkgs@, j, n, y) implies texts(
                        queue@,
                    ).contains(y) by {
                        if j < i {
                            assert(before.contains(y));
                        } else {
                            assert(names.contains(y));
                        }
                    }
                }
            }
            i += 1;
        }
        let ghost old_seen = seen@;
        seen.push(name);
        proof {
            assert(texts(seen@) =~= texts(old_seen).push(n));
            assert(!texts(old_seen).contains(n));
            assert forall|x: Seq<char>| #[trigger] texts(seen@).contains(x) implies x == n || texts(
                old_seen,
            ).contains(x) by {
                let k = choose|k: int| 0 <= k < texts(seen@).len() && texts(seen@)[k] == x;
                if k < old_seen.len() {
                    assert(texts(old_seen)[k] == x);
                }
            }
            assert forall|x: Seq<char>| texts(old_seen).contains(x) || x == n implies #[trigger] texts(
                seen@,
            ).contains(x) by {
                if x == n {
                    assert(texts(seen@)[old_seen.len() as int] == n);
                } else {
                    let k = choose|k: int| 0 <= k < texts(old_seen).len() && texts(old_seen)[k] == x;
                    assert(texts(seen@)[k] == x);
                }
            }
            assert forall|a: Seq<char>, b: Seq<char>|
                texts(seen@).contains(a) && #[trigger] depends(pkgs@, a, b) implies texts(
                seen@,
            ).contains(b) || texts(queue@).contains(b) by {
                if a == n {
                    let j = choose|j: int| #[trigger] has_edge(pkgs@, j, a, b);
                    assert(has_edge(pkgs@, j, n, b));
                } else {
                    assert(texts(old_seen).contains(a));
                    if !texts(old_seen).contains(b) {
                        assert(texts(was).contains(b));
                    }
                }
            }
            lemma_distinct_fit(texts(seen@), all);
        }
    }
    proof {
        assert forall|x: Seq<char>| among(seen@, x) <==> reaches(pkgs@, start, x) by {
            if reaches(pkgs@, start, x) {
                lemma_closed_holds_reached(pkgs@, start, texts(seen@), x);
            }
        }
    }
    seen
}

/// The normalized names of the packages that exist for development alone, in
/// ascending order.
pub fn dev_only_names(pkgs: &[UvPackage]) -> (r: Vec<String>)
    ensures
        ascending(texts(r@)),
        forall|x: Seq<char>| among(r@, x) <==> is_dev_only(pkgs@, x),
{
    let mut dev: Vec<String> = Vec::new();
    let mut prod: Vec<String> = Vec::new();
    let mut i: usize = 0;
    while i < pkgs.len()
        invariant
            i <= pkgs.len(),
            forall|x: Seq<char>| #[trigger]
                texts(dev@).contains(x) <==> is_dev_root(pkgs@.take(i as int), x),
            forall|x: Seq<char>| #[trigger]
                texts(prod@).contains(x) <==> is_prod_root(pkgs@.take(i as int), x),
        decreases pkgs.len() - i,
    {
        let ghost less = pkgs@.take(i as int);
        let ghost more = pkgs@.take(i + 1);
        let ghost p = pkgs@[i as int];
        let ghost dev_before = texts(dev@);
        let ghost prod_before = texts(prod@);
        assert(more =~= less.push(p));
        let registered = match &pkgs[i].source {
            Some(s) => s.registry.is_some(),
            None => false,
        };
        push_edges(&mut dev, &pkgs[i].dev_dependencies);
        if !registered {
            push_edges(&mut prod, &pkgs[i].dependencies);
        }
        proof {
            assert forall|x: Seq<char>| #[trigger] texts(dev@).contains(x) <==> is_dev_root(
                more,
                x,
            ) by {
                lemma_contains_sum(dev_before, edge_names(p.dev_dependencies), x);
                lemma_dev_root_push(less, p, x);
            }
            assert forall|x: Seq<char>| #[trigger] texts(prod@).contains(x) <==> is_prod_root(
                more,
                x,
            ) by {
                lemma_contains_sum(prod_before, edge_names(p.dependencies), x);
                lemma_prod_root_push(less, p, x);
            }
        }
        i += 1;
    }
    assert(pkgs@.take(pkgs@.len() as int) =~= pkgs@);
    let mut only: Vec<String> = Vec::new();
    if prod.len() > 0 {
        proof {
            assert(texts(prod@).contains(texts(prod@)[0]));
            assert(is_prod_root(pkgs@, texts(prod@)[0]));
            assert(texts(dev@).to_set() =~= dev_roots(pkgs@));
            assert(texts(prod@).to_set() =~= prod_roots(pkgs@));
        }
        let dev_all = reachable_from(pkgs, dev);
        let prod_all = reachable_from(pkgs, prod);
        let mut j: usize = 0;
        while j < dev_all.len()
            invariant
                j <= dev_all.len(),
                forall|x: Seq<char>| #[trigger]
                    texts(only@).contains(x) <==> (texts(dev_all@).take(j as int).contains(x)
                        && !texts(prod_all@).contains(x)),
            decreases dev_all.len() - j,
        {
            let ghost before = texts(only@);
            let ghost d = texts(dev_all@);
            let ghost n = d[j as int];
            assert(d.take(j + 1) =~= d.take(j as int).push(n));
            let keep = !list_contains(&prod_all, dev_all[j].as_str());
            if keep {
                only.push(dev_all[j].clone());
                assert(texts(only@) =~= before.push(n));
            }
            proof {
                assert forall|x: Seq<char>| #[trigger] texts(only@).contains(x) <==> (d.take(
                    j + 1,
                ).contains(x) && !texts(prod_all@).contains(x)) by {
                    lemma_contains_push(before, n, x);
                    lemma_contains_push(d.take(j as int), n, x);
                }
            }
            j += 1;
        }
        proof {
            assert(texts(dev_all@).take(dev_all@.len() as int) =~= texts(dev_all@));
            assert forall|x: Seq<char>| #[trigger] texts(only@).contains(x) <==> is_dev_only(
                pkgs@,
                x,
            ) by {
                assert(among(dev_all@, x) <==> reaches(pkgs@, dev_roots(pkgs@), x));
                assert(among(prod_all@, x) <==> reaches(pkgs@, prod_roots(pkgs@), x));
            }
        }
    } else {
        proof {
            assert forall|x: Seq<char>| #[trigger] texts(only@).contains(x) <==> is_dev_only(
                pkgs@,
                x,
            ) by {
                if is_dev_only(pkgs@, x) {
                    let y = choose|y: Seq<char>| is_prod_root(pkgs@, y);
                    assert(texts(prod@).contains(y));
                }
            }
        }
    }
    let r = name_set(&only);
    proof {
        assert forall|x: Seq<char>| among(r@, x) <==> is_dev_only(pkgs@, x) by {
            assert(texts(r@).contains(x) <==> texts(only@).contains(x));
        }
    }
    r
}

proof fn lemma_contains_sum(a: Seq<Seq<char>>, b: Seq<Seq<char>>, x: Seq<char>)
    ensures
        (a + b).contains(x) <==> a.contains(x) || b.contains(x),
{
    if a.contains(x) {
        let k = choose|k: int| 0 <= k < a.len() && a[k] == x;
        assert((a + b)[k] == x);
    }
    if b.contains(x) {
        let k = choose|k: int| 0 <= k < b.len() && b[k] == x;
        assert((a + b)[a.len() + k] == x);
    }
    if (a + b).contains(x) {
        let k = choose|k: int| 0 <= k < (a + b).len() && (a + b)[k] == x;
        if k < a.len() {
            assert(a[k] == x);
        } else {
            assert(b[k - a.len()] == x);
        }
    }
}

proof fn lemma_contains_push(a: Seq<Seq<char>>, n: Seq<char>, x: Seq<char>)
    ensures
        a.push(n).contains(x) <==> a.contains(x) || x == n,
{
    assert(a.push(n) =~= a + seq![n]);
    lemma_contains_sum(a, seq![n], x);
    assert(seq![n].contains(x) <==> x == n) by {
        if x == n {
            assert(seq![n][0] == x);
        }
    }
}

proof fn lemma_dev_root_push(s: Seq<UvPackage>, p: UvPackage, x: Seq<char>)
    ensures
        is_dev_root(s.push(p), x) <==> is_dev_root(s, x) || edge_names(p.dev_dependencies).contains(
            x,
        ),
{
    let t = s.push(p);
    assert(t[s.len() as int] == p);
    if is_dev_root(s, x) {
        let i = choose|i: int|
            0 <= i < s.len() && edge_names((#[trigger] s[i]).dev_dependencies).contains(x);
        assert(edge_names(t[i].dev_dependencies).contains(x));
    }
    if is_dev_root(t, x) {
        let i = choose|i: int|
            0 <= i < t.len() && edge_names((#[trigger] t[i]).dev_dependencies).contains(x);
        if i < s.len() {
            assert(s[i] == t[i]);
        }
    }
}

proof fn lemma_prod_root_push(s: Seq<UvPackage>, p: UvPackage, x: Seq<char>)
    ensures
        is_prod_root(s.push(p), x) <==> is_prod_root(s, x) || (!from_registry(p) && edge_names(
            p.dependencies,
        ).contains(x)),
{
    let t = s.push(p);
    assert(t[s.len() as int] == p);
    if is_prod_root(s, x) {
        let i = choose|i: int|
            0 <= i < s.len() && !from_registry(#[trigger] s[i]) && edge_names(
                s[i].dependencies,
            ).contains(x);
        assert(edge_names(t[i].dependencies).contains(x));
    }
    if is_prod_root(t, x) {
        let i = choose|i: int|
            0 <= i < t.len() && !from_registry(#[trigger] t[i]) && edge_names(
                t[i].dependencies,
            ).contains(x);
        if i < s.len() {
            assert(s[i] == t[i]);
        }
    }
}

/// A wheel's file name with its name segment normalized.
pub open spec fn normal_filename(filename: Seq<char>) -> Seq<char> {
    match cut(filename, "-"@) {
        Some((name, rest)) => normalized(name) + "-"@ + rest,
        None => filename,
    }
}

/// Whether a wheel of the lock is one of a package's that this host can run.
pub open spec fn wheel_fits(w: UvWheel, p: UvPackage) -> bool {
    let filename = last_part(w.url@, "/"@);
    matches_pin(normal_filename(filename), normalized(p.name@), p.version@) && tags_run(filename)
}

/// The first wheel that fits.
pub open spec fn first_wheel(ws: Seq<UvWheel>, p: UvPackage) -> Option<UvWheel>
    decreases ws.len(),
{
    if ws.len() == 0 {
        None
    } else if wheel_fits(ws[0], p) {
        Some(ws[0])
    } else {
        first_wheel(ws.skip(1), p)
    }
}

/// The digests that a wheel of the lock pins.
pub open spec fn wheel_hashes(w: UvWheel) -> Seq<Seq<char>> {
    match w.hash {
        Some(h) => match after_prefix(h@, "sha256:"@) {
            Some(hex) => seq![hex],
            None => Seq::empty(),
        },
        None => Seq::empty(),
    }
}

/// A warning of the lock about a package.
pub open spec fn skip_text(p: UvPackage, why: Seq<char>) -> Seq<char> {
    "uv.lock: "@ + p.name@ + " "@ + p.version@ + why
}

/// A package's pin, or the warning with which it is skipped.
pub open spec fn package_pin(p: UvPackage) -> Result<PinView, Seq<char>> {
    match p.wheels {
        None => Err(
            skip_text(p, " has no wheels (sdist-only or non-registry source) — skipped"@),
        ),
        Some(ws) => if !from_registry(p) {
            Err(skip_text(p, " is not from a registry — skipped"@))
        } else {
            match first_wheel(ws@, p) {
                None => Err(skip_text(p, " has no wheel for this platform — skipped"@)),
                Some(w) => Ok(
                    PinView {
                        name: p.name@,
                        version: p.version@,
                        hashes: wheel_hashes(w),
                        url: Some(w.url@),
                    },
                ),
            }
        },
    }
}

fn skip_warning(p: &UvPackage, why: &str) -> (r: String)
    ensures
        r@ == skip_text(*p, why@),
{
    let mut out = "uv.lock: ".to_owned();
    out.append(p.name.as_str());
    out.append(" ");
    out.append(p.version.as_str());
    out.append(why);
    out
}

fn fits(w: &UvWheel, p: &UvPackage, name: &str) -> (r: bool)
    requires
        name@ == normalized(p.name@),
    ensures
        r == wheel_fits(*w, *p),
{
    let filename = after_last(w.url.as_str(), "/");
    let normal = match split_once(filename.as_str(), "-") {
        Some((n, rest)) => {
            let mut out = normalize_name(n.as_str());
            out.append("-");
            out.append(rest.as_str());
            out
        },
        None => filename.clone(),
    };
    is_matching_wheel(normal.as_str(), name, p.version.as_str()) && wheel_tags_match(
        filename.as_str(),
    )
}

/// The pin of a package: its first wheel that this host can run; or the
/// warning with which it is skipped, for a package without wheels, not from a
/// registry, or without a wheel for this platform.
pub fn pin_for_package(pkg: &UvPackage) -> (r: Result<PipPin, String>)
    ensures
        match r {
            Ok(pin) => package_pin(*pkg) == Ok::<PinView, Seq<char>>(pin@),
            Err(w) => package_pin(*pkg) == Err::<PinView, Seq<char>>(w@),
        },
{
    let ws = match &pkg.wheels {
        None => {
            return Err(
                skip_warning(pkg, " has no wheels (sdist-only or non-registry source) — skipped"),
            );
        },
        Some(ws) => ws,
    };
    let registered = match &pkg.source {
        Some(s) => s.registry.is_some(),
        None => false,
    };
    if !registered {
        return Err(skip_warning(pkg, " is not from a registry — skipped"));
    }
    let name = normalize_name(pkg.name.as_str());
    let ghost all = ws@;
    let mut i: usize = 0;
    assert(all.skip(0) =~= all);
    while i < ws.len()
        invariant
            i <= ws.len(),
            all == ws@,
            name@ == normalized(pkg.name@),
            from_registry(*pkg),
            pkg.wheels == Some(*ws),
            first_wheel(all, *pkg) == first_wheel(all.skip(i as int), *pkg),
        decreases ws.len() - i,
    {
        assert(all.skip(i as int)[0] == ws@[i as int]);
        assert(all.skip(i as int).skip(1) =~= all.skip(i + 1));
        let w = &ws[i];
        if fits(w, pkg, name.as_str()) {
            let mut hashes: Vec<String> = Vec::new();
            assert(texts(hashes@) =~= Seq::<Seq<char>>::empty());
            match &w.hash {
                Some(h) => {
                    match strip_prefix(h.as_str(), "sha256:") {
                        Some(hex) => {
                            let ghost t = hex@;
                            hashes.push(hex);
                            assert(texts(hashes@) =~= seq![t]);
                        },
                        None => {},
                    }
                },
                None => {},
            }
            return Ok(
                PipPin {
                    name: pkg.name.clone(),
                    version: pkg.version.clone(),
                    hashes,
                    url: Some(w.url.clone()),
                },
            );
        }
        i += 1;
    }
    Err(skip_warning(pkg, " has no wheel for this platform — skipped"))
}

/// Names in a warning: at most eight, then an ellipsis.
pub open spec fn name_list(names: Seq<Seq<char>>) -> Seq<char> {
    if names.len() <= 8 {
        joined(names, ", "@)
    } else {
        joined(names.take(8), ", "@) + ", …"@
    }
}

/// Writes the names of a warning: at most eight, then an ellipsis.
pub fn truncated_name_list(names: &Vec<String>) -> (r: String)
    ensures
        r@ == name_list(texts(names@)),
{
    if names.len() <= 8 {
        return join(names, ", ");
    }
    let mut some: Vec<String> = Vec::new();
    let mut i: usize = 0;
    while i < 8
        invariant
            i <= 8 < names.len(),
            texts(some@) == texts(names@).take(i as int),
        decreases 8 - i,
    {
        let ghost before = some@;
        some.push(names[i].clone());
        proof {
            let all = texts(names@);
            assert(texts(some@) =~= texts(before).push(all[i as int]));
            assert(all.take(i + 1) =~= all.take(i as int).push(all[i as int]));
        }
        i += 1;
    }
    let mut out = join(&some, ", ");
    out.append(", …");
    out
}

/// The pins of a lock's packages, in order: those of `rest`, of all packages
/// `all`, that are not for development alone and have a pin.
pub open spec fn locked_pins(all: Seq<UvPackage>, rest: Seq<UvPackage>) -> Seq<PinView>
    decreases rest.len(),
{
    if rest.len() == 0 {
        Seq::empty()
    } else if is_dev_only(all, normalized(rest[0].name@)) {
        locked_pins(all, rest.skip(1))
    } else {
        match package_pin(rest[0]) {
            Ok(p) => seq![p] + locked_pins(all, rest.skip(1)),
            Err(_) => locked_pins(all, rest.skip(1)),
        }
    }
}

/// The warnings about packages that have no pin, in order.
pub open spec fn skipped_pins(all: Seq<UvPackage>, rest: Seq<UvPackage>) -> Seq<Seq<char>>
    decreases rest.len(),
{
    if rest.len() == 0 {
        Seq::empty()
    } else if is_dev_only(all, normalized(rest[0].name@)) {
        skipped_pins(all, rest.skip(1))
    } else {
        match package_pin(rest[0]) {
            Ok(_) => skipped_pins(all, rest.skip(1)),
            Err(w) => seq![w] + skipped_pins(all, rest.skip(1)),
        }
    }
}

/// The names of the packages for development alone, in order.
pub open spec fn dev_packages(all: Seq<UvPackage>, rest: Seq<UvPackage>) -> Seq<Seq<char>>
    decreases rest.len(),
{
    if rest.len() == 0 {
        Seq::empty()
    } else if is_dev_only(all, normalized(rest[0].name@)) {
        seq![rest[0].name@] + dev_packages(all, rest.skip(1))
    } else {
        dev_packages(all, rest.skip(1))
    }
}

/// The warning that names what is left out as development alone.
pub open spec fn dev_warning(names: Seq<Seq<char>>) -> Seq<char> {
    "uv.lock: skipping "@ + decimal(names.len()) + " dev-only package(s): "@ + name_list(names)
}

/// All warnings about a lock's packages, in the order they are given.
pub open spec fn lock_warnings(pkgs: Seq<UvPackage>) -> Seq<Seq<char>> {
    let dev = dev_packages(pkgs, pkgs);
    if dev.len() == 0 {
        skipped_pins(pkgs, pkgs)
    } else {
        skipped_pins(pkgs, pkgs).push(dev_warning(dev))
    }
}

/// What a lock pins, and what it warns of.
#[derive(Debug)]
pub struct LockPins {
    pub pins: Vec<PipPin>,
    pub warnings: Vec<String>,
}

/// The pins of the packages of a cross-platform lock. Packages for
/// development alone are left out before any wheel is looked at, with one
/// warning that names them.
pub fn parse_uv_lock(pkgs: &[UvPackage]) -> (r: LockPins)
    ensures
        pin_views(r.pins@) == locked_pins(pkgs@, pkgs@),
        texts(r.warnings@) == lock_warnings(pkgs@),
{
    let dev_only = dev_only_names(pkgs);
    let ghost all = pkgs@;
    let mut pins: Vec<PipPin> = Vec::new();
    let mut warnings: Vec<String> = Vec::new();
    let mut dev: Vec<String> = Vec::new();
    let mut i: usize = 0;
    proof {
        assert(all.skip(0) =~= all);
        assert(pin_views(pins@) + locked_pins(all, all) =~= locked_pins(all, all));
        assert(texts(warnings@) + skipped_pins(all, all) =~= skipped_pins(all, all));
        assert(texts(dev@) + dev_packages(all, all) =~= dev_packages(all, all));
    }
    while i < pkgs.len()
        invariant
            i <= pkgs.len(),
            all == pkgs@,
            forall|x: Seq<char>| among(dev_only@, x) <==> is_dev_only(all, x),
            pin_views(pins@) + locked_pins(all, all.skip(i as int)) == locked_pins(all, all),
            texts(warnings@) + skipped_pins(all, all.skip(i as int)) == skipped_pins(all, all),
            texts(dev@) + dev_packages(all, all.skip(i as int)) == dev_packages(all, all),
        decreases pkgs.len() - i,
    {
        let ghost rest = all.skip(i as int);
        assert(rest[0] == all[i as int]);
        assert(rest.skip(1) =~= all.skip(i + 1));
        let ghost next = all.skip(i + 1);
        let name = normalize_name(pkgs[i].name.as_str());
        let only = list_contains(&dev_only, name.as_str());
        assert(only == is_dev_only(all, name@)) by {
            assert(among(dev_only@, name@) <==> is_dev_only(all, name@));
        }
        if only {
            let ghost before = dev@;
            dev.push(pkgs[i].name.clone());
            proof {
                let n = all[i as int].name@;
                assert(texts(dev@) =~= texts(before).push(n));
                let more = dev_packages(all, next);
                assert(texts(before) + (seq![n] + more) =~= texts(dev@) + more);
            }
        } else {
            match pin_for_package(&pkgs[i]) {
                Ok(pin) => {
                    let ghost before = pins@;
                    let ghost p = pin@;
                    pins.push(pin);
                    proof {
                        assert(pin_views(pins@) =~= pin_views(before).push(p));
                        let more = locked_pins(all, next);
                        assert(pin_views(before) + (seq![p] + more) =~= pin_views(pins@) + more);
                    }
                },
                Err(w) => {
                    let ghost before = warnings@;
                    let ghost t = w@;
                    warnings.push(w);
                    proof {
                        assert(texts(warnings@) =~= texts(before).push(t));
                        let more = skipped_pins(all, next);
                        assert(texts(before) + (seq![t] + more) =~= texts(warnings@) + more);
                    }
                },
            }
        }
        i += 1;
    }
    proof {
        let none = all.skip(i as int);
        assert(none =~= Seq::<UvPackage>::empty());
        assert(pin_views(pins@) + Seq::<PinView>::empty() =~= pin_views(pins@));
        assert(texts(warnings@) + Seq::<Seq<char>>::empty() =~= texts(warnings@));
        assert(texts(dev@) + Seq::<Seq<char>>::empty() =~= texts(dev@));
    }
    if dev.len() > 0 {
        let ghost before = warnings@;
        let mut w = "uv.lock: skipping ".to_owned();
        w.append(to_decimal(dev.len() as u64).as_str());
        w.append(" dev-only package(s): ");
        w.append(truncated_name_list(&dev).as_str());
        let ghost t = w@;
        warnings.push(w);
        assert(texts(warnings@) =~= texts(before).push(t));
    }
    LockPins { pins, warnings }
}

/// Whether a pip lock is a cross-platform one: it holds package tables.
pub open spec fn is_uv_lock(text: Seq<char>) -> bool {
    holds(text, "[[package]]"@)
}

/// Whether a pip lock is a cross-platform one.
pub fn sniffs_as_uv_lock(text: &str) -> (r: bool)
    ensures
        r == is_uv_lock(text@),
{
    contains(text, "[[package]]")
}

/// The pins of a pip lock in either format, told apart by its contents.
/// `packages` is what the text gives as package tables; only a cross-platform
/// lock looks at it.
pub fn parse_pip_pins(bytes: &[u8], packages: Result<Vec<UvPackage>, String>) -> (r: Result<
    LockPins,
    String,
>)
    ensures
        match r {
            Ok(l) => if is_uv_lock(lossy(bytes@)) {
                packages matches Ok(pkgs) && pin_views(l.pins@) == locked_pins(pkgs@, pkgs@)
                    && texts(l.warnings@) == lock_warnings(pkgs@)
            } else {
                pin_views(l.pins@) == file_pins(lossy(bytes@)) && l.warnings@.len() == 0
            },
            Err(e) => is_uv_lock(lossy(bytes@)) && (packages matches Err(why) && e@
                == "uv.lock is not valid TOML: "@ + why@),
        },
{
    let text = lossy_text(bytes);
    if sniffs_as_uv_lock(text.as_str()) {
        match packages {
            Ok(pkgs) => Ok(parse_uv_lock(pkgs.as_slice())),
            Err(why) => {
                let mut e = "uv.lock is not valid TOML: ".to_owned();
                e.append(why.as_str());
                Err(e)
            },
        }
    } else {
        Ok(LockPins { pins: read_requirements(text.as_str()), warnings: Vec::new() })
    }
}

/// Every pin that a lock gives is that of a package which is not for
/// development alone.
pub proof fn law_development_is_left_out(all: Seq<UvPackage>, rest: Seq<UvPackage>, i: int)
    requires
        0 <= i < locked_pins(all, rest).len(),
    ensures
        exists|k: int|
            0 <= k < rest.len() && !is_dev_only(all, normalized((#[trigger] rest[k]).name@))
                && package_pin(rest[k]) == Ok::<PinView, Seq<char>>(locked_pins(all, rest)[i]),
    decreases rest.len(),
{
    let tail = rest.skip(1);
    let skipped = is_dev_only(all, normalized(rest[0].name@)) || package_pin(rest[0]) is Err;
    if skipped || i > 0 {
        let j = if skipped {
            i
        } else {
            i - 1
        };
        law_development_is_left_out(all, tail, j);
        let k = choose|k: int|
            0 <= k < tail.len() && !is_dev_only(all, normalized((#[trigger] tail[k]).name@))
                && package_pin(tail[k]) == Ok::<PinView, Seq<char>>(locked_pins(all, tail)[j]);
        assert(rest[k + 1] == tail[k]);
    } else {
        assert(rest[0] == rest[0]);
        assert(!is_dev_only(all, normalized(rest[0].name@)));
    }
}

/// What is installed from source keeps what it depends on: a name reached
/// from it is never for development alone. Where nothing is installed from
/// source, no name is.
pub proof fn law_installed_closure_is_kept(pkgs: Seq<UvPackage>, x: Seq<char>)
    ensures
        reaches(pkgs, prod_roots(pkgs), x) ==> !is_dev_only(pkgs, x),
        (forall|i: int| 0 <= i < pkgs.len() ==> from_registry(#[trigger] pkgs[i])) ==> !is_dev_only(
            pkgs,
            x,
        ),
{
}

// ── The npm lock ──

/// One artifact that an npm lock pins: its place `node_modules/…`, its
/// address, and its integrity string where the lock has one.
#[derive(Debug)]
pub struct NpmArtifact {
    pub key: String,
    pub url: String,
    pub integrity: Option<String>,
}

/// The model of an [`NpmArtifact`].
pub struct ArtifactView {
    pub key: Seq<char>,
    pub url: Seq<char>,
    pub integrity: Option<Seq<char>>,
}

impl View for NpmArtifact {
    type V = ArtifactView;

    open spec fn view(&self) -> ArtifactView {
        ArtifactView { key: self.key@, url: self.url@, integrity: opt_text(self.integrity) }
    }
}

/// An artifact's model.
pub open spec fn artifact_view() -> spec_fn(NpmArtifact) -> ArtifactView {
    |a: NpmArtifact| a@
}

/// The models of a list of artifacts.
pub open spec fn artifact_views(v: Seq<NpmArtifact>) -> Seq<ArtifactView> {
    v.map_values(artifact_view())
}

/// Whether a key need not come after another.
pub open spec fn key_order() -> spec_fn(ArtifactView, ArtifactView) -> bool {
    |a: ArtifactView, b: ArtifactView| !text_lt(b.key, a.key)
}

impl Ranked for NpmArtifact {
    open spec fn ranks(self, other: Self) -> bool {
        !text_lt(other.key@, self.key@)
    }

    fn rank(&self, other: &Self) -> (r: bool) {
        !str_lt(other.key.as_str(), self.key.as_str())
    }
}

/// The artifact of a member of the lock's `packages`; `None` for the root
/// package and for workspace members.
pub open spec fn artifact_of(key: Seq<char>, entry: JsonView) -> Result<
    Option<ArtifactView>,
    Seq<char>,
> {
    if !"node_modules/"@.is_prefix_of(key) {
        Ok(None)
    } else {
        match entry.text_at("resolved"@) {
            None => Err(
                "package-lock.json: entry '"@ + key
                    + "' has no 'resolved' URL (link:/file:/workspace deps are unsupported)"@,
            ),
            Some(url) => if !is_http(url) {
                Err(
                    "package-lock.json: entry '"@ + key + "' resolved to non-http URL "@ + url,
                )
            } else {
                Ok(Some(ArtifactView { key, url, integrity: entry.text_at("integrity"@) }))
            },
        }
    }
}

/// The artifacts of the lock's `packages` from a member on, or the first
/// error.
pub open spec fn artifacts_of(members: Seq<(Seq<char>, JsonView)>) -> Result<
    Seq<ArtifactView>,
    Seq<char>,
>
    decreases members.len(),
{
    if members.len() == 0 {
        Ok(Seq::empty())
    } else {
        match artifact_of(members[0].0, members[0].1) {
            Err(e) => Err(e),
            Ok(a) => match artifacts_of(members.skip(1)) {
                Err(e) => Err(e),
                Ok(more) => Ok(
                    match a {
                        Some(x) => seq![x] + more,
                        None => more,
                    },
                ),
            },
        }
    }
}

/// The artifacts that a lock document pins, by key.
pub open spec fn npm_artifacts(doc: JsonView) -> Result<Seq<ArtifactView>, Seq<char>> {
    match doc.get("packages"@) {
        Some(JsonView::Object(members)) => match artifacts_of(members) {
            Ok(v) => Ok(sorted_by(v, key_order())),
            Err(e) => Err(e),
        },
        _ => Err(
            "package-lock.json has no 'packages' map (lockfileVersion 1 is unsupported — regenerate the lock with npm 7 or newer)"@,
        ),
    }
}

fn read_artifact(key: &String, entry: &Json) -> (r: Result<Option<NpmArtifact>, String>)
    ensures
        match r {
            Ok(a) => artifact_of(key@, entry@) == Ok::<Option<ArtifactView>, Seq<char>>(
                match a {
                    Some(x) => Some(x@),
                    None => None,
                },
            ),
            Err(e) => artifact_of(key@, entry@) == Err::<Option<ArtifactView>, Seq<char>>(e@),
        },
{
    if !starts_with(key.as_str(), "node_modules/") {
        return Ok(None);
    }
    match entry.text_at("resolved") {
        None => {
            let mut e = "package-lock.json: entry '".to_owned();
            e.append(key.as_str());
            e.append("' has no 'resolved' URL (link:/file:/workspace deps are unsupported)");
            Err(e)
        },
        Some(url) => {
            if !is_http_url(url.as_str()) {
                let mut e = "package-lock.json: entry '".to_owned();
                e.append(key.as_str());
                e.append("' resolved to non-http URL ");
                e.append(url.as_str());
                return Err(e);
            }
            let integrity = match entry.text_at("integrity") {
                Some(i) => Some(i.clone()),
                None => None,
            };
            Ok(Some(NpmArtifact { key: key.clone(), url: url.clone(), integrity }))
        },
    }
}

/// The artifacts that a parsed lock pins, in the order of their keys.
pub fn artifacts_in(doc: &Json) -> (r: Result<Vec<NpmArtifact>, String>)
    ensures
        match r {
            Ok(v) => npm_artifacts(doc@) == Ok::<Seq<ArtifactView>, Seq<char>>(artifact_views(v@)),
            Err(e) => npm_artifacts(doc@) == Err::<Seq<ArtifactView>, Seq<char>>(e@),
        },
{
    let packages = doc.get("packages");
    let members = match packages {
        Some(p) => match p {
            Json::Object(m) => m,
            _ => {
                return Err(
                    "package-lock.json has no 'packages' map (lockfileVersion 1 is unsupported — regenerate the lock with npm 7 or newer)".to_owned(),
                );
            },
        },
        None => {
            return Err(
                "package-lock.json has no 'packages' map (lockfileVersion 1 is unsupported — regenerate the lock with npm 7 or newer)".to_owned(),
            );
        },
    };
    let ghost all = doc@.get("packages"@)->0->Object_0;
    assert(all.len() == members@.len());
    let mut out: Vec<NpmArtifact> = Vec::new();
    let mut i: usize = 0;
    proof {
        assert(all.skip(0) =~= all);
        match artifacts_of(all) {
            Ok(v) => {
                assert(artifact_views(out@) + v =~= v);
            },
            Err(_) => {},
        }
    }
    while i < members.len()
        invariant
            i <= members.len(),
            all.len() == members@.len(),
            doc@.get("packages"@) == Some(JsonView::Object(all)),
            forall|k: int|
                0 <= k < all.len() ==> #[trigger] all[k] == (members@[k].0@, members@[k].1@),
            artifacts_of(all) == (match artifacts_of(all.skip(i as int)) {
                Ok(v) => Ok::<Seq<ArtifactView>, Seq<char>>(artifact_views(out@) + v),
                Err(e) => Err(e),
            }),
        decreases members.len() - i,
    {
        assert(all.skip(i as int)[0] == all[i as int]);
        assert(all.skip(i as int).skip(1) =~= all.skip(i + 1));
        match read_artifact(&members[i].0, &members[i].1) {
            Err(e) => {
                return Err(e);
            },
            Ok(None) => {},
            Ok(Some(a)) => {
                let ghost before = out@;
                let ghost x = a@;
                out.push(a);
                proof {
                    assert(artifact_views(out@) =~= artifact_views(before).push(x));
                    match artifacts_of(all.skip(i + 1)) {
                        Ok(more) => {
                            assert(artifact_views(before) + (seq![x] + more) =~= artifact_views(
                                out@,
                            ) + more);
                        },
                        Err(_) => {},
                    }
                }
            },
        }
        i += 1;
    }
    proof {
        assert(all.skip(i as int) =~= Seq::<(Seq<char>, JsonView)>::empty());
        assert(artifact_views(out@) + Seq::<ArtifactView>::empty() =~= artifact_views(out@));
        lemma_sorted_views(out@, artifact_view(), key_order());
    }
    Ok(stable_sort(out))
}

/// Reads a `package-lock.json`: every `node_modules/…` member with an http(s)
/// address is one artifact to fetch.
pub fn parse_npm_lock(bytes: &[u8]) -> (r: Result<Vec<NpmArtifact>, String>)
    ensures
        match json_document(bytes@) {
            Err(why) => r matches Err(e) && e@ == "package-lock.json is not valid JSON: "@ + why,
            Ok(doc) => match r {
                Ok(v) => npm_artifacts(doc) == Ok::<Seq<ArtifactView>, Seq<char>>(
                    artifact_views(v@),
                ),
                Err(e) => npm_artifacts(doc) == Err::<Seq<ArtifactView>, Seq<char>>(e@),
            },
        },
{
    match parse_json(bytes) {
        Err(why) => {
            let mut e = "package-lock.json is not valid JSON: ".to_owned();
            e.append(why.as_str());
            Err(e)
        },
        Ok(doc) => artifacts_in(&doc),
    }
}

/// The first pattern that matches a key.
pub open spec fn first_match(patterns: Seq<Seq<char>>, key: Seq<char>, i: int) -> Option<int>
    decreases patterns.len() - i,
{
    if i < 0 || i >= patterns.len() {
        None
    } else if glob(patterns[i], key) {
        Some(i)
    } else {
        first_match(patterns, key, i + 1)
    }
}

/// The artifacts that no pattern matches, in order.
pub open spec fn unexcluded(v: Seq<ArtifactView>, patterns: Seq<Seq<char>>) -> Seq<ArtifactView>
    decreases v.len(),
{
    if v.len() == 0 {
        Seq::empty()
    } else if first_match(patterns, v[0].key, 0) is Some {
        unexcluded(v.skip(1), patterns)
    } else {
        seq![v[0]] + unexcluded(v.skip(1), patterns)
    }
}

/// The warnings about artifacts that are left out, in order.
pub open spec fn exclusion_texts(v: Seq<ArtifactView>, patterns: Seq<Seq<char>>) -> Seq<Seq<char>>
    decreases v.len(),
{
    if v.len() == 0 {
        Seq::empty()
    } else {
        match first_match(patterns, v[0].key, 0) {
            Some(k) => seq![
                "npm closure: excluding '"@ + v[0].key + "' (matched deps.npm.exclude '"@
                    + patterns[k] + "')"@,
            ] + exclusion_texts(v.skip(1), patterns),
            None => exclusion_texts(v.skip(1), patterns),
        }
    }
}

/// Whether a pattern matches the key of an artifact.
pub open spec fn matches_any(v: Seq<ArtifactView>, pattern: Seq<char>) -> bool {
    exists|i: int| 0 <= i < v.len() && glob(pattern, (#[trigger] v[i]).key)
}

/// The warnings about patterns that match nothing, in order.
pub open spec fn idle_texts(v: Seq<ArtifactView>, patterns: Seq<Seq<char>>) -> Seq<Seq<char>>
    decreases patterns.len(),
{
    if patterns.len() == 0 {
        Seq::empty()
    } else if matches_any(v, patterns[0]) {
        idle_texts(v, patterns.skip(1))
    } else {
        seq!["npm closure: exclude pattern '"@ + patterns[0] + "' matched nothing (typo?)"@]
            + idle_texts(v, patterns.skip(1))
    }
}

/// What exclusion patterns leave of a closure, and what there is to say.
#[derive(Debug)]
pub struct Exclusion {
    pub kept: Vec<NpmArtifact>,
    /// One warning for each artifact that is left out.
    pub dropped: Vec<String>,
    /// How many were left out.
    pub summary: String,
    /// One warning for each pattern that matched nothing.
    pub idle: Vec<String>,
}

fn find_pattern(patterns: &Vec<String>, key: &str) -> (r: Option<usize>)
    ensures
        match r {
            Some(k) => k < patterns@.len() && first_match(texts(patterns@), key@, 0) == Some(
                k as int,
            ),
            None => first_match(texts(patterns@), key@, 0) is None,
        },
{
    let mut i: usize = 0;
    while i < patterns.len()
        invariant
            i <= patterns.len(),
            first_match(texts(patterns@), key@, 0) == first_match(texts(patterns@), key@, i as int),
        decreases patterns.len() - i,
    {
        assert(texts(patterns@)[i as int] == patterns@[i as int]@);
        if glob_match(patterns[i].as_str(), key) {
            return Some(i);
        }
        i += 1;
    }
    None
}

fn any_match(artifacts: &Vec<NpmArtifact>, pattern: &str) -> (r: bool)
    ensures
        r == matches_any(artifact_views(artifacts@), pattern@),
{
    let ghost views = artifact_views(artifacts@);
    let mut i: usize = 0;
    while i < artifacts.len()
        invariant
            i <= artifacts.len(),
            views == artifact_views(artifacts@),
            forall|k: int| 0 <= k < i ==> !glob(pattern@, (#[trigger] views[k]).key),
        decreases artifacts.len() - i,
    {
        assert(views[i as int] == artifacts@[i as int]@);
        if glob_match(pattern, artifacts[i].key.as_str()) {
            return true;
        }
        i += 1;
    }
    false
}

fn idle_warnings(artifacts: &Vec<NpmArtifact>, patterns: &Vec<String>) -> (r: Vec<String>)
    ensures
        texts(r@) == idle_texts(artifact_views(artifacts@), texts(patterns@)),
{
    let ghost views = artifact_views(artifacts@);
    let ghost all = texts(patterns@);
    let mut out: Vec<String> = Vec::new();
    let mut i: usize = 0;
    assert(all.skip(0) =~= all);
    assert(texts(out@) + idle_texts(views, all) =~= idle_texts(views, all));
    while i < patterns.len()
        invariant
            i <= patterns.len(),
            views == artifact_views(artifacts@),
            all == texts(patterns@),
            texts(out@) + idle_texts(views, all.skip(i as int)) == idle_texts(views, all),
        decreases patterns.len() - i,
    {
        assert(all.skip(i as int)[0] == patterns@[i as int]@);
        assert(all.skip(i as int).skip(1) =~= all.skip(i + 1));
        if !any_match(artifacts, patterns[i].as_str()) {
            let ghost before = out@;
            let mut w = "npm closure: exclude pattern '".to_owned();
            w.append(patterns[i].as_str());
            w.append("' matched nothing (typo?)");
            let ghost t = w@;
            out.push(w);
            proof {
                assert(texts(out@) =~= texts(before).push(t));
                let more = idle_texts(views, all.skip(i + 1));
                assert(texts(before) + (seq![t] + more) =~= texts(out@) + more);
            }
        }
        i += 1;
    }
    assert(all.skip(i as int) =~= Seq::<Seq<char>>::empty());
    assert(texts(out@) + Seq::<Seq<char>>::empty() =~= texts(out@));
    out
}

/// Leaves out the artifacts whose key a pattern matches, before anything is
/// fetched: they are never downloaded nor archived, so the closure's hash pins
/// what is left.
pub fn apply_npm_exclude(artifacts: Vec<NpmArtifact>, exclude: &Vec<String>) -> (r: Exclusion)
    ensures
        artifact_views(r.kept@) == unexcluded(artifact_views(artifacts@), texts(exclude@)),
        texts(r.dropped@) == exclusion_texts(artifact_views(artifacts@), texts(exclude@)),
        r.summary@ == "npm exclude: "@ + decimal(r.dropped@.len()) + " of "@ + decimal(
            artifacts@.len(),
        ) + " package(s) dropped by deps.npm.exclude"@,
        texts(r.idle@) == idle_texts(artifact_views(artifacts@), texts(exclude@)),
{
    let ghost views = artifact_views(artifacts@);
    let ghost patterns = texts(exclude@);
    let total: usize = artifacts.len();
    let idle = idle_warnings(&artifacts, exclude);
    let mut rest = artifacts;
    let mut kept: Vec<NpmArtifact> = Vec::new();
    let mut dropped: Vec<String> = Vec::new();
    proof {
        assert(views.skip(0) =~= views);
        assert(artifact_views(kept@) + unexcluded(views, patterns) =~= unexcluded(views, patterns));
        assert(texts(dropped@) + exclusion_texts(views, patterns) =~= exclusion_texts(
            views,
            patterns,
        ));
    }
    let ghost mut done: int = 0;
    while rest.len() > 0
        invariant
            0 <= done <= views.len(),
            patterns == texts(exclude@),
            artifact_views(rest@) == views.skip(done),
            artifact_views(kept@) + unexcluded(views.skip(done), patterns) == unexcluded(
                views,
                patterns,
            ),
            texts(dropped@) + exclusion_texts(views.skip(done), patterns) == exclusion_texts(
                views,
                patterns,
            ),
        decreases rest.len(),
    {
        let ghost here = rest@;
        let a = rest.remove(0);
        let ghost x = a@;
        proof {
            assert(artifact_views(here)[0] == x);
            assert(views.skip(done)[0] == x);
            assert(views.skip(done).skip(1) =~= views.skip(done + 1));
            assert(artifact_views(rest@) =~= artifact_views(here).skip(1));
        }
        match find_pattern(exclude, a.key.as_str()) {
            Some(k) => {
                let ghost before = dropped@;
                let mut w = "npm closure: excluding '".to_owned();
                w.append(a.key.as_str());
                w.append("' (matched deps.npm.exclude '");
                w.append(exclude[k].as_str());
                w.append("')");
                let ghost t = w@;
                dropped.push(w);
                proof {
                    assert(texts(dropped@) =~= texts(before).push(t));
                    let more = exclusion_texts(views.skip(done + 1), patterns);
                    assert(texts(before) + (seq![t] + more) =~= texts(dropped@) + more);
                }
            },
            None => {
                let ghost before = kept@;
                kept.push(a);
                proof {
                    assert(artifact_views(kept@) =~= artifact_views(before).push(x));
                    let more = unexcluded(views.skip(done + 1), patterns);
                    assert(artifact_views(before) + (seq![x] + more) =~= artifact_views(kept@)
                        + more);
                }
            },
        }
        proof {
            done = done + 1;
        }
    }
    proof {
        assert(views.skip(done) =~= Seq::<ArtifactView>::empty());
        assert(artifact_views(kept@) + Seq::<ArtifactView>::empty() =~= artifact_views(kept@));
        assert(texts(dropped@) + Seq::<Seq<char>>::empty() =~= texts(dropped@));
    }
    let mut summary = "npm exclude: ".to_owned();
    summary.append(to_decimal(dropped.len() as u64).as_str());
    summary.append(" of ");
    summary.append(to_decimal(total as u64).as_str());
    summary.append(" package(s) dropped by deps.npm.exclude");
    Exclusion { kept, dropped, summary, idle }
}

proof fn lemma_first_match(patterns: Seq<Seq<char>>, key: Seq<char>, i: int)
    requires
        0 <= i,
    ensures
        first_match(patterns, key, i) is None <==> forall|k: int|
            i <= k < patterns.len() ==> !glob(#[trigger] patterns[k], key),
    decreases patterns.len() - i,
{
    if i < patterns.len() && !glob(patterns[i], key) {
        lemma_first_match(patterns, key, i + 1);
    }
}

/// What is fetched is exactly what no pattern matches.
pub proof fn law_excluded_is_never_fetched(
    v: Seq<ArtifactView>,
    patterns: Seq<Seq<char>>,
    a: ArtifactView,
)
    ensures
        unexcluded(v, patterns).contains(a) <==> v.contains(a) && forall|k: int|
            0 <= k < patterns.len() ==> !glob(#[trigger] patterns[k], a.key),
        unexcluded(v, patterns).len() + exclusion_texts(v, patterns).len() == v.len(),
    decreases v.len(),
{
    let kept = unexcluded(v, patterns);
    lemma_first_match(patterns, a.key, 0);
    if v.len() > 0 {
        let tail = v.skip(1);
        let rest = unexcluded(tail, patterns);
        law_excluded_is_never_fetched(tail, patterns, a);
        assert(v.contains(a) <==> v[0] == a || tail.contains(a)) by {
            if tail.contains(a) {
                let k = choose|k: int| 0 <= k < tail.len() && tail[k] == a;
                assert(v[k + 1] == a);
            }
            if v.contains(a) {
                let k = choose|k: int| 0 <= k < v.len() && v[k] == a;
                if k > 0 {
                    assert(tail[k - 1] == a);
                }
            }
        }
        lemma_first_match(patterns, v[0].key, 0);
        if first_match(patterns, v[0].key, 0) is None {
            assert(kept =~= seq![v[0]] + rest);
            assert(kept.contains(a) <==> v[0] == a || rest.contains(a)) by {
                if v[0] == a {
                    assert(kept[0] == a);
                }
                if rest.contains(a) {
                    let k = choose|k: int| 0 <= k < rest.len() && rest[k] == a;
                    assert(kept[k + 1] == a);
                }
                if kept.contains(a) {
                    let k = choose|k: int| 0 <= k < kept.len() && kept[k] == a;
                    if k > 0 {
                        assert(rest[k - 1] == a);
                    }
                }
            }
        }
    }
}

// ── Laws ──

/// Whether a member of the lock's `packages` is installed: its key names a
/// place below `node_modules`.
pub open spec fn is_installed(m: (Seq<char>, JsonView)) -> bool {
    "node_modules/"@.is_prefix_of(m.0)
}

/// Whether an artifact is the one of a member: the member's key, and its
/// `resolved` and `integrity`.
pub open spec fn is_of_member(a: ArtifactView, m: (Seq<char>, JsonView)) -> bool {
    a.key == m.0 && Some(a.url) == m.1.text_at("resolved"@) && a.integrity == m.1.text_at(
        "integrity"@,
    )
}

/// The installed packages among members.
pub open spec fn installed(members: Seq<(Seq<char>, JsonView)>) -> Seq<(Seq<char>, JsonView)> {
    members.filter(|m: (Seq<char>, JsonView)| is_installed(m))
}

/// Whether an artifact of a list is the one of a member.
pub open spec fn has_artifact(v: Seq<ArtifactView>, m: (Seq<char>, JsonView)) -> bool {
    exists|k: int| 0 <= k < v.len() && is_of_member(#[trigger] v[k], m)
}

/// Whether an artifact is the one of an installed package among members.
pub open spec fn comes_of(a: ArtifactView, members: Seq<(Seq<char>, JsonView)>) -> bool {
    exists|i: int|
        0 <= i < members.len() && is_installed(#[trigger] members[i]) && is_of_member(
            a,
            members[i],
        )
}

proof fn lemma_artifacts_of(members: Seq<(Seq<char>, JsonView)>)
    ensures
        match artifacts_of(members) {
            Ok(v) => {
                let of = installed(members);
                v.len() == of.len() && forall|k: int|
                    0 <= k < v.len() ==> is_of_member(#[trigger] v[k], of[k]) && (
                    "http://"@.is_prefix_of(v[k].url) || "https://"@.is_prefix_of(v[k].url))
            },
            Err(_) => true,
        },
        artifacts_of(members) is Err <==> exists|i: int|
            0 <= i < members.len() && is_installed(#[trigger] members[i]) && (
            members[i].1.text_at("resolved"@) is None || !("http://"@.is_prefix_of(
                members[i].1.text_at("resolved"@)->0,
            ) || "https://"@.is_prefix_of(members[i].1.text_at("resolved"@)->0))),
    decreases members.len(),
{
    let keep = |m: (Seq<char>, JsonView)| is_installed(m);
    if members.len() == 0 {
        reveal(Seq::filter);
    } else {
        let tail = members.skip(1);
        lemma_artifacts_of(tail);
        lemma_filter_first(members, keep);
        let bad = |m: (Seq<char>, JsonView)|
            is_installed(m) && (m.1.text_at("resolved"@) is None || !("http://"@.is_prefix_of(
                m.1.text_at("resolved"@)->0,
            ) || "https://"@.is_prefix_of(m.1.text_at("resolved"@)->0)));
        if exists|i: int| 0 <= i < members.len() && bad(#[trigger] members[i]) {
            let i = choose|i: int| 0 <= i < members.len() && bad(#[trigger] members[i]);
            if i > 0 {
                assert(tail[i - 1] == members[i]);
            }
        }
        if exists|i: int| 0 <= i < tail.len() && bad(#[trigger] tail[i]) {
            let i = choose|i: int| 0 <= i < tail.len() && bad(#[trigger] tail[i]);
            assert(members[i + 1] == tail[i]);
        }
        if bad(members[0]) {
            assert(members[0] == members[0]);
        }
    }
}

/// A lock that is read gives exactly one artifact for every installed package,
/// nested ones too, with its address and its integrity; by key, and nothing
/// else.
pub proof fn law_every_installed_package_is_fetched(
    doc: JsonView,
    members: Seq<(Seq<char>, JsonView)>,
)
    requires
        doc.get("packages"@) == Some(JsonView::Object(members)),
        npm_artifacts(doc) is Ok,
    ensures
        npm_artifacts(doc)->Ok_0.len() == installed(members).len(),
        forall|i: int|
            0 <= i < members.len() && is_installed(#[trigger] members[i]) ==> has_artifact(
                npm_artifacts(doc)->Ok_0,
                members[i],
            ),
        forall|k: int|
            0 <= k < npm_artifacts(doc)->Ok_0.len() ==> comes_of(
                #[trigger] npm_artifacts(doc)->Ok_0[k],
                members,
            ),
        forall|j: int, k: int|
            0 <= j < k < npm_artifacts(doc)->Ok_0.len() ==> !text_lt(
                (#[trigger] npm_artifacts(doc)->Ok_0[k]).key,
                (#[trigger] npm_artifacts(doc)->Ok_0[j]).key,
            ),
{
    let raw = artifacts_of(members)->Ok_0;
    let v = npm_artifacts(doc)->Ok_0;
    let keep = |m: (Seq<char>, JsonView)| is_installed(m);
    let of = installed(members);
    lemma_artifacts_of(members);
    lemma_filter_members(members, keep);
    assert(v == sorted_by(raw, key_order()));
    lemma_sorted_artifacts(raw);
    assert forall|i: int|
        0 <= i < members.len() && is_installed(#[trigger] members[i]) implies has_artifact(
        v,
        members[i],
    ) by {
        assert(keep(members[i]) && members.contains(members[i]));
        assert(of.contains(members[i]));
        let j = choose|j: int| 0 <= j < of.len() && of[j] == members[i];
        assert(is_of_member(raw[j], of[j]));
        assert(raw.contains(raw[j]));
        assert(v.contains(raw[j]));
        let k = choose|k: int| 0 <= k < v.len() && v[k] == raw[j];
        assert(is_of_member(v[k], members[i]));
    }
    assert forall|k: int| 0 <= k < v.len() implies comes_of(#[trigger] v[k], members) by {
        assert(v.contains(v[k]));
        let j = choose|j: int| 0 <= j < raw.len() && raw[j] == v[k];
        assert(is_of_member(raw[j], of[j]));
        assert(of.contains(of[j]));
        let i = choose|i: int| 0 <= i < members.len() && members[i] == of[j];
        assert(keep(of[j]));
        assert(is_installed(members[i]) && is_of_member(v[k], members[i]));
    }
}

proof fn lemma_sorted_artifacts(raw: Seq<ArtifactView>)
    ensures
        sorted_by(raw, key_order()).len() == raw.len(),
        forall|a: ArtifactView| #[trigger]
            sorted_by(raw, key_order()).contains(a) <==> raw.contains(a),
        forall|j: int, k: int|
            0 <= j < k < raw.len() ==> !text_lt(
                (#[trigger] sorted_by(raw, key_order())[k]).key,
                (#[trigger] sorted_by(raw, key_order())[j]).key,
            ),
{
    let v = sorted_by(raw, key_order());
    law_sorted_by_keeps(raw, key_order(), ArtifactView {
        key: Seq::empty(),
        url: Seq::empty(),
        integrity: None,
    });
    assert forall|a: ArtifactView| #[trigger] v.contains(a) <==> raw.contains(a) by {
        law_sorted_by_keeps(raw, key_order(), a);
    }
    lemma_key_order();
    law_sorted_by_orders(raw, key_order());
    assert forall|j: int, k: int| 0 <= j < k < v.len() implies !text_lt(
        (#[trigger] v[k]).key,
        (#[trigger] v[j]).key,
    ) by {
        assert(key_order()(v[j], v[k]));
    }
}

proof fn lemma_key_order()
    ensures
        forall|a: ArtifactView, b: ArtifactView| #[trigger] key_order()(a, b) || key_order()(b, a),
        forall|a: ArtifactView, b: ArtifactView, c: ArtifactView| #[trigger]
            key_order()(a, b) && #[trigger] key_order()(b, c) ==> key_order()(a, c),
{
    assert forall|a: ArtifactView, b: ArtifactView| #[trigger] key_order()(a, b) || key_order()(
        b,
        a,
    ) by {
        lemma_text_lt_total(a.key, b.key);
    }
    assert forall|a: ArtifactView, b: ArtifactView, c: ArtifactView| #[trigger]
        key_order()(a, b) && #[trigger] key_order()(b, c) implies key_order()(a, c) by {
        lemma_text_lt_total(a.key, b.key);
        lemma_text_lt_total(b.key, c.key);
        lemma_text_lt_total(a.key, c.key);
        if text_lt(c.key, a.key) {
            if a.key == b.key {
            } else if b.key == c.key {
            } else {
                lemma_text_lt_transitive(a.key, b.key, c.key);
            }
        }
    }
}

/// A lock is refused exactly where an installed package has no address, or one
/// that is not fetched over HTTP, or where there is no map of packages.
pub proof fn law_unfetchable_locks_are_refused(doc: JsonView)
    ensures
        npm_artifacts(doc) is Ok <==> (doc.get("packages"@) matches Some(JsonView::Object(members))
            && forall|i: int|
            0 <= i < members.len() && is_installed(#[trigger] members[i]) ==> (
            members[i].1.text_at("resolved"@) matches Some(u) && ("http://"@.is_prefix_of(u)
                || "https://"@.is_prefix_of(u)))),
{
    match doc.get("packages"@) {
        Some(JsonView::Object(members)) => {
            lemma_artifacts_of(members);
        },
        _ => {},
    }
}

/// The digest that a token pins.
pub open spec fn pinned_hash(token: Seq<char>) -> Option<Seq<char>> {
    if "--hash=sha256:"@.is_prefix_of(token) {
        Some(token.skip(14))
    } else {
        None
    }
}

/// Every digest of a requirement line is kept, in order, and no other text is
/// taken for one.
pub proof fn law_every_digest_of_a_line_is_kept(st: LineState, tokens: Seq<Seq<char>>)
    ensures
        tokens_read(st, tokens).hashes == st.hashes + tokens.filter(
            |t: Seq<char>| pinned_hash(t) is Some,
        ).map_values(|t: Seq<char>| pinned_hash(t)->0),
    decreases tokens.len(),
{
    let keep = |t: Seq<char>| pinned_hash(t) is Some;
    let f = |t: Seq<char>| pinned_hash(t)->0;
    reveal_strlit("--hash=sha256:");
    if tokens.len() == 0 {
        reveal(Seq::filter);
        assert(tokens.filter(keep).map_values(f) =~= Seq::<Seq<char>>::empty());
        assert(st.hashes + Seq::<Seq<char>>::empty() =~= st.hashes);
    } else {
        let tail = tokens.skip(1);
        law_every_digest_of_a_line_is_kept(token_read(st, tokens[0]), tail);
        lemma_filter_first(tokens, keep);
        let more = tail.filter(keep).map_values(f);
        if keep(tokens[0]) {
            assert((seq![tokens[0]] + tail.filter(keep)).map_values(f) =~= seq![f(tokens[0])]
                + more);
            assert(st.hashes.push(f(tokens[0])) + more =~= st.hashes + (seq![f(tokens[0])]
                + more));
        }
    }
}

/// A line that pins a project by name and version pins that version, with all
/// of its digests, also where extras are asked for; a comment pins nothing.
pub proof fn law_requirements_are_read(
    name: Seq<char>,
    extras: Seq<char>,
    version: Seq<char>,
    hashes: Seq<Seq<char>>,
)
    requires
        name.len() > 0,
        forall|c: char| #[trigger] name.contains(c) ==> c != '=' && c != '[' && c != '-' && c != '#'
            && !is_space(c),
        extras.len() == 0 || extras[0] == '[',
        forall|c: char| #[trigger] extras.contains(c) ==> c != '=',
    ensures
        tokens_read(
            LineState { pin: None, hashes: Seq::empty() },
            seq![name + extras + "=="@ + version] + hashes.map_values(
                |h: Seq<char>| "--hash=sha256:"@ + h,
            ),
        ) == (LineState { pin: Some((name, version)), hashes }),
        requirement_of(seq!['#'] + name) is None,
{
    let token = name + extras + "=="@ + version;
    let f = |h: Seq<char>| "--hash=sha256:"@ + h;
    reveal_strlit("--hash=sha256:");
    reveal_strlit("==");
    reveal_strlit("-");
    reveal_strlit("[");
    reveal_strlit("#");
    assert(name.contains(name[0]));
    assert(token[0] == name[0]);
    assert(!"--hash=sha256:"@.is_prefix_of(token)) by {
        assert("--hash=sha256:"@[0] == '-');
    }
    assert(!"-"@.is_prefix_of(token)) by {
        assert("-"@[0] == '-');
    }
    let head = name + extras;
    lemma_find_from(token, "=="@, 0);
    assert(token.subrange(head.len() as int, head.len() as int + 2) =~= "=="@);
    assert(occurs_at(token, "=="@, head.len() as int));
    let k = find(token, "=="@)->0;
    if k < head.len() {
        assert(token.subrange(k, k + 2)[0] == '=');
        assert(token[k] == head[k]);
        if k < name.len() {
            assert(name.contains(name[k]));
        } else {
            assert(extras.contains(extras[k - name.len()]));
        }
        assert(false);
    }
    assert(token.take(k) =~= head);
    assert(token.skip(k + 2) =~= version);
    assert("["@ =~= seq!['[']);
    assert(!name.contains('['));
    if extras.len() == 0 {
        law_cut_at_the_first(name, '[', name);
        assert(head =~= name);
    } else {
        law_cut_at_the_first(name, '[', extras.skip(1));
        assert(head =~= name + seq!['['] + extras.skip(1));
    }
    let st = LineState { pin: Some((name, version)), hashes: Seq::empty() };
    let rest = hashes.map_values(f);
    let all = seq![token] + rest;
    assert(all[0] == token);
    assert(all.skip(1) =~= rest);
    lemma_only_hashes(st, hashes);
    assert(Seq::<Seq<char>>::empty() + hashes =~= hashes);
    let c = seq!['#'] + name;
    assert(name.contains(name[name.len() - 1]));
    assert(c.last() == name[name.len() - 1]);
    lemma_trimmed_plain(c);
    assert(c.take(1) =~= "#"@);
    assert("#"@.is_prefix_of(c));
}

proof fn lemma_only_hashes(st: LineState, hashes: Seq<Seq<char>>)
    ensures
        tokens_read(st, hashes.map_values(|h: Seq<char>| "--hash=sha256:"@ + h)) == (LineState {
            pin: st.pin,
            hashes: st.hashes + hashes,
        }),
    decreases hashes.len(),
{
    let f = |h: Seq<char>| "--hash=sha256:"@ + h;
    let w = hashes.map_values(f);
    if hashes.len() == 0 {
        assert(st.hashes + hashes =~= st.hashes);
    } else {
        law_ends_are_taken_off("--hash=sha256:"@, hashes[0]);
        let next = token_read(st, w[0]);
        assert(next.hashes =~= st.hashes.push(hashes[0]));
        assert(next.pin == st.pin);
        lemma_only_hashes(next, hashes.skip(1));
        assert(w.skip(1) =~= hashes.skip(1).map_values(f));
        assert(st.hashes.push(hashes[0]) + hashes.skip(1) =~= st.hashes + hashes);
    }
}

/// A line without a backslash at its end is a logical line of its own, and one
/// with a backslash goes on in the next, with a space between them.
pub proof fn law_backslashes_continue_lines(rows: Seq<Seq<char>>, begun: Seq<char>)
    requires
        rows.len() > 0,
    ensures
        ({
            let line = trimmed(rows[0]);
            if line.len() > 0 && line.last() == '\\' {
                logical_lines(rows, begun) == logical_lines(
                    rows.skip(1),
                    begun + drop_trailing(line, '\\') + seq![' '],
                )
            } else {
                logical_lines(rows, begun).len() > 0 && logical_lines(rows, begun)[0] == begun
                    + line && logical_lines(rows, begun).skip(1) == logical_lines(
                    rows.skip(1),
                    Seq::empty(),
                )
            }
        }),
{
    let line = trimmed(rows[0]);
    reveal_strlit("\\");
    assert("\\"@.is_suffix_of(line) <==> line.len() > 0 && line.last() == '\\') by {
        if line.len() > 0 && line.last() == '\\' {
            assert(line.skip(line.len() - 1) =~= "\\"@);
        }
        if "\\"@.is_suffix_of(line) {
            assert(line.last() == "\\"@[0]);
        }
    }
    if !"\\"@.is_suffix_of(line) {
        assert(logical_lines(rows, begun).skip(1) =~= logical_lines(rows.skip(1), Seq::empty()));
    }
}

/// Every logical line that is a requirement gives its pin, in order.
pub proof fn law_every_requirement_is_pinned(rows: Seq<Seq<char>>)
    ensures
        requirements_of(rows) == rows.filter(
            |r: Seq<char>| requirement_of(r) is Some,
        ).map_values(|r: Seq<char>| requirement_of(r)->0),
    decreases rows.len(),
{
    let keep = |r: Seq<char>| requirement_of(r) is Some;
    let f = |r: Seq<char>| requirement_of(r)->0;
    if rows.len() == 0 {
        reveal(Seq::filter);
        assert(rows.filter(keep).map_values(f) =~= Seq::<PinView>::empty());
    } else {
        let tail = rows.skip(1);
        law_every_requirement_is_pinned(tail);
        lemma_filter_first(rows, keep);
        if keep(rows[0]) {
            assert((seq![rows[0]] + tail.filter(keep)).map_values(f) =~= seq![f(rows[0])]
                + tail.filter(keep).map_values(f));
        }
    }
}

/// The pins of a lock are those of all packages that are not for development
/// alone and have one; each of the others has a warning.
pub proof fn law_every_other_package_is_pinned(all: Seq<UvPackage>, rest: Seq<UvPackage>)
    ensures
        locked_pins(all, rest) == rest.filter(
            |p: UvPackage| !is_dev_only(all, normalized(p.name@)) && package_pin(p) is Ok,
        ).map_values(|p: UvPackage| package_pin(p)->Ok_0),
        locked_pins(all, rest).len() + skipped_pins(all, rest).len() + dev_packages(
            all,
            rest,
        ).len() == rest.len(),
    decreases rest.len(),
{
    let keep = |p: UvPackage| !is_dev_only(all, normalized(p.name@)) && package_pin(p) is Ok;
    let f = |p: UvPackage| package_pin(p)->Ok_0;
    if rest.len() == 0 {
        reveal(Seq::filter);
        assert(rest.filter(keep).map_values(f) =~= Seq::<PinView>::empty());
    } else {
        let tail = rest.skip(1);
        law_every_other_package_is_pinned(all, tail);
        lemma_filter_first(rest, keep);
        if keep(rest[0]) {
            assert((seq![rest[0]] + tail.filter(keep)).map_values(f) =~= seq![f(rest[0])]
                + tail.filter(keep).map_values(f));
        }
    }
}

/// A package's pin is its name and version, with the address and the digest of
/// the first of its wheels that is of this name and version and runs here. A
/// package has none where no wheel is, or where it is not from a registry.
pub proof fn law_pins_are_of_the_first_fitting_wheel(p: UvPackage)
    ensures
        match package_pin(p) {
            Ok(pin) => p.wheels is Some && (p.source matches Some(s) && s.registry is Some)
                && pin.name == p.name@ && pin.version == p.version@ && exists|i: int|
                0 <= i < p.wheels->0@.len() && wheel_fits(#[trigger] p.wheels->0@[i], p) && pin.url
                    == Some(p.wheels->0@[i].url@) && (match p.wheels->0@[i].hash {
                    Some(h) => if "sha256:"@.is_prefix_of(h@) {
                        pin.hashes == seq![h@.skip(7)]
                    } else {
                        pin.hashes.len() == 0
                    },
                    None => pin.hashes.len() == 0,
                }) && forall|j: int| 0 <= j < i ==> !wheel_fits(#[trigger] p.wheels->0@[j], p),
            Err(_) => p.wheels is None || !(p.source matches Some(s) && s.registry is Some)
                || forall|j: int|
                0 <= j < p.wheels->0@.len() ==> !wheel_fits(#[trigger] p.wheels->0@[j], p),
        },
{
    reveal_strlit("sha256:");
    match p.wheels {
        Some(ws) => {
            lemma_first_wheel(ws@, p);
        },
        None => {},
    }
}

proof fn lemma_first_wheel(ws: Seq<UvWheel>, p: UvPackage)
    ensures
        match first_wheel(ws, p) {
            Some(w) => exists|i: int|
                0 <= i < ws.len() && wheel_fits(#[trigger] ws[i], p) && ws[i] == w && forall|j: int|
                    0 <= j < i ==> !wheel_fits(#[trigger] ws[j], p),
            None => forall|j: int| 0 <= j < ws.len() ==> !wheel_fits(#[trigger] ws[j], p),
        },
    decreases ws.len(),
{
    if ws.len() > 0 {
        let tail = ws.skip(1);
        lemma_first_wheel(tail, p);
        if wheel_fits(ws[0], p) {
            assert(ws[0] == ws[0]);
        } else {
            match first_wheel(tail, p) {
                Some(w) => {
                    let i = choose|i: int|
                        0 <= i < tail.len() && wheel_fits(#[trigger] tail[i], p) && tail[i] == w
                            && forall|j: int| 0 <= j < i ==> !wheel_fits(#[trigger] tail[j], p);
                    assert(ws[i + 1] == tail[i]);
                    assert forall|j: int| 0 <= j < i + 1 implies !wheel_fits(
                        #[trigger] ws[j],
                        p,
                    ) by {
                        if j > 0 {
                            assert(tail[j - 1] == ws[j]);
                        }
                    }
                },
                None => {
                    assert forall|j: int| 0 <= j < ws.len() implies !wheel_fits(
                        #[trigger] ws[j],
                        p,
                    ) by {
                        if j > 0 {
                            assert(tail[j - 1] == ws[j]);
                        }
                    }
                },
            }
        }
    }
}

/// Every pattern that matches no artifact is warned about, and no other is.
pub proof fn law_idle_patterns_are_named(v: Seq<ArtifactView>, patterns: Seq<Seq<char>>)
    ensures
        idle_texts(v, patterns).len() == patterns.filter(
            |p: Seq<char>| forall|i: int| 0 <= i < v.len() ==> !glob(p, (#[trigger] v[i]).key),
        ).len(),
    decreases patterns.len(),
{
    let idle = |p: Seq<char>| forall|i: int| 0 <= i < v.len() ==> !glob(p, (#[trigger] v[i]).key);
    if patterns.len() == 0 {
        reveal(Seq::filter);
    } else {
        law_idle_patterns_are_named(v, patterns.skip(1));
        lemma_filter_first(patterns, idle);
        assert(idle(patterns[0]) <==> !matches_any(v, patterns[0]));
    }
}

/// The first pattern that matches a key counts.
pub proof fn law_the_first_pattern_counts(patterns: Seq<Seq<char>>, key: Seq<char>, from: int)
    requires
        0 <= from,
    ensures
        match first_match(patterns, key, from) {
            Some(i) => from <= i < patterns.len() && glob(patterns[i], key) && forall|j: int|
                from <= j < i ==> !glob(#[trigger] patterns[j], key),
            None => forall|j: int|
                from <= j < patterns.len() ==> !glob(#[trigger] patterns[j], key),
        },
    decreases patterns.len() - from,
{
    if from < patterns.len() && !glob(patterns[from], key) {
        law_the_first_pattern_counts(patterns, key, from + 1);
    }
}

/// A wheel's file name has its project's name normalized, and the rest as it is.
pub proof fn law_file_names_are_normalized_in_their_name(name: Seq<char>, rest: Seq<char>)
    requires
        !name.contains('-'),
    ensures
        normal_filename(name + seq!['-'] + rest) == normalized(name) + seq!['-'] + rest,
        normal_filename(name) == name,
{
    reveal_strlit("-");
    assert("-"@ =~= seq!['-']);
    law_cut_at_the_first(name, '-', rest);
}

/// A wheel has the digest behind `sha256:`, and none of another kind.
pub proof fn law_wheels_have_sha256_digests(w: UvWheel, hex: Seq<char>)
    ensures
        (w.hash is Some && w.hash->0@ == "sha256:"@ + hex) ==> wheel_hashes(w) == seq![hex],
        w.hash is None ==> wheel_hashes(w).len() == 0,
        (w.hash is Some && !"sha256:"@.is_prefix_of(w.hash->0@)) ==> wheel_hashes(w).len() == 0,
{
    law_ends_are_taken_off("sha256:"@, hex);
}

/// A comment begins at a `#` behind a space.
pub proof fn law_comments_begin_behind_a_space(code: Seq<char>, comment: Seq<char>)
    requires
        !code.contains(' '),
    ensures
        uncommented(code + " #"@ + comment) == code,
        uncommented(code) == code,
{
    reveal_strlit(" #");
    crate::text::lemma_find_behind(code, " #"@, comment);
    let s = code + " #"@ + comment;
    assert(s.take(code.len() as int) =~= code);
    crate::text::lemma_find_from(code, " #"@, 0);
    if find(code, " #"@) is Some {
        let k = find(code, " #"@)->0;
        assert(code.subrange(k, k + 2)[0] == code[k]);
        assert(code.contains(code[k]));
    }
}

} // verus!
