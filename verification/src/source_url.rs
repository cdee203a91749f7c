//! What the address of a source says of the package it holds: its upstream
//! name, its version, and the ecosystem that names it.

use crate::text::{
    filled, law_cut_at_the_first, law_cut_at_the_last, law_ends_are_taken_off,
    law_parts_stand_between_separators, law_the_last_place_is_found, lemma_find_behind, parts,
    rfind,
    second_piece, after_last, after_prefix, before_first, before_suffix, contains, cut, drop_leading,
    first_part, holds, last_part, lowercase, lowercase_text, opt_str, opt_text, path_parts, rcut,
    rsplit_once, second_part, split_once, split_path, starts_with, str_eq, strip_prefix,
    strip_suffix, texts, trim_start_char, chars_of,
};
use crate::wheel::{normalize_name, normalized};
use vstd::prelude::*;

verus! {

/// Name, version and ecosystem, as far as an address gives them.
#[derive(Debug, PartialEq, Eq)]
pub struct UrlParts {
    pub name: Option<String>,
    pub version: Option<String>,
    pub ecosystem: Option<&'static str>,
}

/// The model of [`UrlParts`].
pub struct PartsView {
    pub name: Option<Seq<char>>,
    pub version: Option<Seq<char>>,
    pub ecosystem: Option<Seq<char>>,
}

impl View for UrlParts {
    type V = PartsView;

    open spec fn view(&self) -> PartsView {
        PartsView {
            name: opt_text(self.name),
            version: opt_text(self.version),
            ecosystem: opt_str(self.ecosystem),
        }
    }
}

/// An address that says nothing.
pub open spec fn no_parts() -> PartsView {
    PartsView { name: None, version: None, ecosystem: None }
}

/// An address of a registry, with all that it gives.
pub open spec fn full_parts(
    name: Seq<char>,
    version: Seq<char>,
    ecosystem: Seq<char>,
) -> PartsView {
    PartsView { name: Some(name), version: Some(version), ecosystem: Some(ecosystem) }
}

fn nothing() -> (r: UrlParts)
    ensures
        r@ == no_parts(),
{
    UrlParts { name: None, version: None, ecosystem: None }
}

fn all_of(name: String, version: String, ecosystem: &'static str) -> (r: UrlParts)
    ensures
        r@ == full_parts(name@, version@, ecosystem@),
{
    UrlParts { name: Some(name), version: Some(version), ecosystem: Some(ecosystem) }
}

/// The version in a file name `<base>-<version><suffix>`.
pub open spec fn file_version(file: Seq<char>, base: Seq<char>, suffix: Seq<char>) -> Option<
    Seq<char>,
> {
    match after_prefix(file, base + "-"@) {
        Some(v) => before_suffix(v, suffix),
        None => None,
    }
}

fn version_in(file: &str, base: &str, suffix: &str) -> (r: Option<String>)
    ensures
        opt_text(r) == file_version(file@, base@, suffix@),
{
    let mut prefix = base.to_owned();
    prefix.append("-");
    match strip_prefix(file, prefix.as_str()) {
        Some(v) => strip_suffix(v.as_str(), suffix),
        None => None,
    }
}

/// The name and the file of an npm path: `[@scope/]name/-/file`.
pub open spec fn npm_path(segs: Seq<Seq<char>>) -> Option<(Seq<char>, Seq<char>)> {
    if segs.len() == 4 && "@"@.is_prefix_of(segs[0]) && segs[2] == "-"@ {
        Some((segs[0] + "/"@ + segs[1], segs[3]))
    } else if segs.len() == 3 && segs[1] == "-"@ {
        Some((segs[0], segs[2]))
    } else {
        None
    }
}

/// What an address of the npm registry says. The file is named after the
/// name without its scope.
pub open spec fn npm_parts(url: Seq<char>) -> PartsView {
    match second_part(url, "registry.npmjs.org"@) {
        None => no_parts(),
        Some(path) => match npm_path(path_parts(path)) {
            None => no_parts(),
            Some((name, file)) => match file_version(file, last_part(name, "/"@), ".tgz"@) {
                Some(v) => full_parts(name, v, "npm"@),
                None => no_parts(),
            },
        },
    }
}

fn npm_source(url: &str) -> (r: UrlParts)
    ensures
        r@ == npm_parts(url@),
{
    let path = match second_piece(url, "registry.npmjs.org") {
        None => {
            return nothing();
        },
        Some(p) => p,
    };
    let segs = split_path(path.as_str());
    let ghost all = texts(segs@);
    let (name, file) = if segs.len() == 4 && starts_with(segs[0].as_str(), "@") && str_eq(
        segs[2].as_str(),
        "-",
    ) {
        assert(all[0] == segs@[0]@ && all[1] == segs@[1]@ && all[3] == segs@[3]@);
        let mut n = segs[0].clone();
        n.append("/");
        n.append(segs[1].as_str());
        (n, segs[3].clone())
    } else if segs.len() == 3 && str_eq(segs[1].as_str(), "-") {
        assert(all[0] == segs@[0]@ && all[2] == segs@[2]@);
        (segs[0].clone(), segs[2].clone())
    } else {
        proof {
            if segs@.len() == 4 {
                assert(all[0] == segs@[0]@ && all[2] == segs@[2]@);
            }
            if segs@.len() == 3 {
                assert(all[1] == segs@[1]@);
            }
        }
        return nothing();
    };
    let base = after_last(name.as_str(), "/");
    match version_in(file.as_str(), base.as_str(), ".tgz") {
        Some(v) => all_of(name, v, "npm"),
        None => nothing(),
    }
}

/// What a Python file name says: that of a wheel, or of a source archive.
pub open spec fn python_parts(file: Seq<char>) -> PartsView {
    match before_suffix(file, ".whl"@) {
        Some(stem) => match cut(stem, "-"@) {
            Some(c) => full_parts(normalized(c.0), first_part(c.1, "-"@), "PyPI"@),
            None => no_parts(),
        },
        None => {
            let stem = match before_suffix(file, ".tar.gz"@) {
                Some(s) => Some(s),
                None => before_suffix(file, ".zip"@),
            };
            match stem {
                None => no_parts(),
                Some(s) => match rcut(s, "-"@) {
                    Some(c) => full_parts(normalized(c.0), c.1, "PyPI"@),
                    None => no_parts(),
                },
            }
        },
    }
}

/// Reads a Python file name in lower case.
pub fn python_file(file: &str) -> (r: UrlParts)
    ensures
        r@ == python_parts(file@),
{
    match strip_suffix(file, ".whl") {
        Some(stem) => match split_once(stem.as_str(), "-") {
            Some((n, rest)) => all_of(
                normalize_name(n.as_str()),
                before_first(rest.as_str(), "-"),
                "PyPI",
            ),
            None => nothing(),
        },
        None => {
            let stem = match strip_suffix(file, ".tar.gz") {
                Some(s) => Some(s),
                None => strip_suffix(file, ".zip"),
            };
            match stem {
                None => nothing(),
                Some(s) => match rsplit_once(s.as_str(), "-") {
                    Some((n, v)) => all_of(normalize_name(n.as_str()), v, "PyPI"),
                    None => nothing(),
                },
            }
        },
    }
}

fn pypi_source(url: &str) -> (r: UrlParts)
    ensures
        r@ == python_parts(lowercase(last_part(url@, "/"@))),
{
    let file = after_last(url, "/");
    python_file(lowercase_text(file.as_str()).as_str())
}

/// What an address of crates.io says: of its API, or of a file.
pub open spec fn crates_parts(url: Seq<char>) -> PartsView {
    match second_part(url, "/api/v1/crates/"@) {
        Some(rest) => {
            let segs = path_parts(rest);
            if segs.len() >= 2 {
                full_parts(segs[0], segs[1], "crates.io"@)
            } else {
                no_parts()
            }
        },
        None => match second_part(url, "/crates/"@) {
            None => no_parts(),
            Some(rest) => {
                let segs = path_parts(rest);
                if segs.len() != 2 {
                    no_parts()
                } else {
                    match file_version(segs[1], segs[0], ".crate"@) {
                        Some(v) => full_parts(segs[0], v, "crates.io"@),
                        None => no_parts(),
                    }
                }
            },
        },
    }
}

fn crates_source(url: &str) -> (r: UrlParts)
    ensures
        r@ == crates_parts(url@),
{
    match second_piece(url, "/api/v1/crates/") {
        Some(rest) => {
            let segs = split_path(rest.as_str());
            if segs.len() >= 2 {
                proof {
                    let all = texts(segs@);
                    assert(all[0] == segs@[0]@ && all[1] == segs@[1]@);
                }
                return all_of(segs[0].clone(), segs[1].clone(), "crates.io");
            }
            nothing()
        },
        None => match second_piece(url, "/crates/") {
            None => nothing(),
            Some(rest) => {
                let segs = split_path(rest.as_str());
                if segs.len() != 2 {
                    return nothing();
                }
                proof {
                    let all = texts(segs@);
                    assert(all[0] == segs@[0]@ && all[1] == segs@[1]@);
                }
                match version_in(segs[1].as_str(), segs[0].as_str(), ".crate") {
                    Some(v) => all_of(segs[0].clone(), v, "crates.io"),
                    None => nothing(),
                }
            },
        },
    }
}

/// A version without the suffix of the file that carries it.
pub open spec fn go_version(file: Seq<char>) -> Seq<char> {
    match before_suffix(file, ".zip"@) {
        Some(v) => v,
        None => match before_suffix(file, ".info"@) {
            Some(v) => v,
            None => match before_suffix(file, ".mod"@) {
                Some(v) => v,
                None => file,
            },
        },
    }
}

/// What an address of the Go module proxy says.
pub open spec fn go_parts(url: Seq<char>) -> PartsView {
    match second_part(url, "proxy.golang.org"@) {
        None => no_parts(),
        Some(path) => match rcut(path, "/@v/"@) {
            None => no_parts(),
            Some(c) => {
                let module = drop_leading(c.0, '/');
                let version = go_version(c.1);
                if module.len() == 0 || version.len() == 0 {
                    no_parts()
                } else {
                    full_parts(module, version, "Go"@)
                }
            },
        },
    }
}

fn golang_source(url: &str) -> (r: UrlParts)
    ensures
        r@ == go_parts(url@),
{
    let path = match second_piece(url, "proxy.golang.org") {
        None => {
            return nothing();
        },
        Some(p) => p,
    };
    match rsplit_once(path.as_str(), "/@v/") {
        None => nothing(),
        Some((m, file)) => {
            let module = trim_start_char(m.as_str(), '/');
            if module.as_str().is_empty() {
                return nothing();
            }
            let version = match strip_suffix(file.as_str(), ".zip") {
                Some(v) => v,
                None => match strip_suffix(file.as_str(), ".info") {
                    Some(v) => v,
                    None => match strip_suffix(file.as_str(), ".mod") {
                        Some(v) => v,
                        None => file,
                    },
                },
            };
            if version.as_str().is_empty() {
                return nothing();
            }
            all_of(module, version, "Go")
        },
    }
}

/// A tag without the suffix of the archive that is named after it.
pub open spec fn bare_tag(tag: Seq<char>) -> Seq<char> {
    match before_suffix(tag, ".tar.gz"@) {
        Some(t) => t,
        None => match before_suffix(tag, ".tgz"@) {
            Some(t) => t,
            None => match before_suffix(tag, ".zip"@) {
                Some(t) => t,
                None => tag,
            },
        },
    }
}

/// A tag without a leading `v` that a digit follows.
pub open spec fn tag_version(tag: Seq<char>) -> Seq<char> {
    if tag.len() > 1 && tag[0] == 'v' && crate::text::is_digit(tag[1]) {
        tag.skip(1)
    } else {
        tag
    }
}

/// What an address of GitHub says around a marker before a tag; `None` where
/// the marker is absent or nothing stands before it.
pub open spec fn marker_parts(before: Seq<char>, after: Seq<char>) -> Option<PartsView> {
    let owners = path_parts(before);
    if owners.len() == 0 {
        None
    } else {
        let tagged = match after_prefix(after, "refs/tags/"@) {
            Some(t) => t,
            None => after,
        };
        let pieces = path_parts(tagged);
        let tag = if pieces.len() == 0 {
            Seq::empty()
        } else {
            pieces[0]
        };
        let version = tag_version(bare_tag(tag));
        Some(
            PartsView {
                name: Some(owners.last()),
                version: if version.len() == 0 {
                    None
                } else {
                    Some(version)
                },
                ecosystem: None,
            },
        )
    }
}

/// What an address of GitHub says: an archive or a release gives its tag; any
/// other address of the site gives the repository.
pub open spec fn github_parts(url: Seq<char>) -> PartsView {
    let marked = match cut(url, "/archive/"@) {
        Some(c) => marker_parts(c.0, c.1),
        None => match cut(url, "/releases/download/"@) {
            Some(c) => marker_parts(c.0, c.1),
            None => None,
        },
    };
    match marked {
        Some(p) => p,
        None => match second_part(url, "github.com"@) {
            Some(path) => if path_parts(path).len() >= 2 {
                PartsView { name: Some(path_parts(path)[1]), version: None, ecosystem: None }
            } else {
                no_parts()
            },
            None => no_parts(),
        },
    }
}

fn marker_source(before: &str, after: &str) -> (r: Option<UrlParts>)
    ensures
        match r {
            Some(p) => marker_parts(before@, after@) == Some(p@),
            None => marker_parts(before@, after@) is None,
        },
{
    let owners = split_path(before);
    if owners.len() == 0 {
        return None;
    }
    let repo = owners[owners.len() - 1].clone();
    assert(texts(owners@).last() == repo@);
    let tagged = match strip_prefix(after, "refs/tags/") {
        Some(t) => t,
        None => after.to_owned(),
    };
    let pieces = split_path(tagged.as_str());
    let tag = if pieces.len() == 0 {
        let t = String::new();
        assert(t@ =~= Seq::<char>::empty());
        t
    } else {
        assert(texts(pieces@)[0] == pieces@[0]@);
        pieces[0].clone()
    };
    let bare = match strip_suffix(tag.as_str(), ".tar.gz") {
        Some(t) => t,
        None => match strip_suffix(tag.as_str(), ".tgz") {
            Some(t) => t,
            None => match strip_suffix(tag.as_str(), ".zip") {
                Some(t) => t,
                None => tag,
            },
        },
    };
    let a = chars_of(bare.as_str());
    let version = if a.len() > 1 && a[0] == 'v' && a[1] >= '0' && a[1] <= '9' {
        assert(bare@.subrange(1, bare@.len() as int) =~= bare@.skip(1));
        crate::text::string_of(&a, 1, a.len())
    } else {
        bare
    };
    let version = if version.as_str().is_empty() {
        None
    } else {
        Some(version)
    };
    Some(UrlParts { name: Some(repo), version, ecosystem: None })
}

fn github_source(url: &str) -> (r: UrlParts)
    ensures
        r@ == github_parts(url@),
{
    let marked = match split_once(url, "/archive/") {
        Some((before, after)) => marker_source(before.as_str(), after.as_str()),
        None => match split_once(url, "/releases/download/") {
            Some((before, after)) => marker_source(before.as_str(), after.as_str()),
            None => None,
        },
    };
    match marked {
        Some(p) => p,
        None => match second_piece(url, "github.com") {
            Some(path) => {
                let segs = split_path(path.as_str());
                if segs.len() >= 2 {
                    assert(texts(segs@)[1] == segs@[1]@);
                    UrlParts { name: Some(segs[1].clone()), version: None, ecosystem: None }
                } else {
                    nothing()
                }
            },
            None => nothing(),
        },
    }
}

/// What the address of a source says. A registry gives everything or nothing,
/// so that no half of a name is ever asked for.
pub open spec fn url_parts(url: Seq<char>) -> PartsView {
    if holds(url, "registry.npmjs.org"@) {
        npm_parts(url)
    } else if holds(url, "files.pythonhosted.org"@) || holds(url, "pypi.org"@) {
        python_parts(lowercase(last_part(url, "/"@)))
    } else if holds(url, "crates.io"@) {
        crates_parts(url)
    } else if holds(url, "proxy.golang.org"@) {
        go_parts(url)
    } else if holds(url, "github.com"@) || holds(url, "githubusercontent.com"@) {
        github_parts(url)
    } else {
        no_parts()
    }
}

/// Reads what the address of a source says.
pub fn classify_source_url(url: &str) -> (r: UrlParts)
    ensures
        r@ == url_parts(url@),
{
    if contains(url, "registry.npmjs.org") {
        npm_source(url)
    } else if contains(url, "files.pythonhosted.org") || contains(url, "pypi.org") {
        pypi_source(url)
    } else if contains(url, "crates.io") {
        crates_source(url)
    } else if contains(url, "proxy.golang.org") {
        golang_source(url)
    } else if contains(url, "github.com") || contains(url, "githubusercontent.com") {
        github_source(url)
    } else {
        nothing()
    }
}

/// An ecosystem is only ever named together with a name and a version.
pub proof fn law_ecosystems_come_with_versions(url: Seq<char>)
    ensures
        url_parts(url).ecosystem is Some ==> url_parts(url).name is Some && url_parts(
            url,
        ).version is Some,
{
}

/// A file name gives the version between its base and its suffix.
pub proof fn law_versions_stand_behind_the_name(
    base: Seq<char>,
    version: Seq<char>,
    suffix: Seq<char>,
    file: Seq<char>,
)
    ensures
        file_version(base + "-"@ + version + suffix, base, suffix) == Some(version),
        file_version(file, base, suffix) is Some ==> file == base + "-"@ + file_version(
            file,
            base,
            suffix,
        )->0 + suffix,
{
    let p = base + "-"@;
    law_ends_are_taken_off(p, version + suffix);
    law_ends_are_taken_off(suffix, version);
    assert(p + (version + suffix) =~= base + "-"@ + version + suffix);
    if file_version(file, base, suffix) is Some {
        law_ends_are_taken_off(p, file);
        let rest = after_prefix(file, p)->0;
        law_ends_are_taken_off(suffix, rest);
        assert(file =~= base + "-"@ + file_version(file, base, suffix)->0 + suffix);
    }
}

/// A package of npm stands before `/-/`, with its scope where it has one.
pub proof fn law_npm_paths_name_the_package(
    scope: Seq<char>,
    name: Seq<char>,
    file: Seq<char>,
)
    ensures
        npm_path(seq![name, "-"@, file]) == Some((name, file)),
        npm_path(seq!["@"@ + scope, name, "-"@, file]) == Some(("@"@ + scope + "/"@ + name, file)),
{
    law_ends_are_taken_off("@"@, scope);
}

proof fn lemma_cut_behind(a: Seq<char>, m: Seq<char>, b: Seq<char>)
    requires
        m.len() > 0,
        !a.contains(m[0]),
    ensures
        cut(a + m + b, m) == Some((a, b)),
        holds(a + m + b, m),
        second_part(a + m + b, m) == Some(first_part(b, m)),
        !holds(b, m) ==> second_part(a + m + b, m) == Some(b),
{
    lemma_find_behind(a, m, b);
    let s = a + m + b;
    assert(s.take(a.len() as int) =~= a);
    assert(s.skip(a.len() as int + m.len()) =~= b);
}

/// An address of the npm registry gives the name and the version of the
/// package, scoped or not.
pub proof fn law_npm_addresses_are_read(name: Seq<char>, version: Seq<char>)
    requires
        name.len() > 0,
        !name.contains('/'),
        !version.contains('/'),
        !holds(
            "/"@ + name + "/-/"@ + name + "-"@ + version + ".tgz"@,
            "registry.npmjs.org"@,
        ),
    ensures
        url_parts(
            "https://"@ + "registry.npmjs.org"@ + ("/"@ + name + "/-/"@ + name + "-"@ + version
                + ".tgz"@),
        ) == full_parts(name, version, "npm"@),
{
    reveal_strlit("https://");
    reveal_strlit("registry.npmjs.org");
    reveal_strlit("/");
    reveal_strlit("/-/");
    reveal_strlit("-");
    reveal_strlit(".tgz");
    let e = Seq::<char>::empty();
    let file = name + "-"@ + version + ".tgz"@;
    let path = "/"@ + name + "/-/"@ + name + "-"@ + version + ".tgz"@;
    lemma_cut_behind("https://"@, "registry.npmjs.org"@, path);
    let p1 = name + "/-/"@ + file;
    let p2 = "-"@ + seq!['/'] + file;
    assert(path =~= e + seq!['/'] + p1);
    assert(p1 =~= name + seq!['/'] + p2);
    assert(!e.contains('/'));
    assert(!"-"@.contains('/'));
    assert(!file.contains('/')) by {
        if file.contains('/') {
            let k = choose|k: int| 0 <= k < file.len() && file[k] == '/';
            if k < name.len() {
                assert(name[k] == '/');
            } else if k > name.len() && k < name.len() + 1 + version.len() {
                assert(version[k - name.len() - 1] == '/');
            } else if k > name.len() {
                assert(".tgz"@[k - name.len() - 1 - version.len()] == '/');
            }
        }
    }
    law_parts_stand_between_separators(e, '/', p1);
    law_parts_stand_between_separators(name, '/', p2);
    law_parts_stand_between_separators("-"@, '/', file);
    law_parts_stand_between_separators(file, '/', e);
    let segs = seq![name, "-"@, file];
    let all = parts(path, '/');
    assert(all =~= seq![e] + segs);
    assert(filled(all) == segs) by {
        assert(all.skip(1) =~= segs);
        assert(segs.skip(1) =~= seq!["-"@, file]);
        assert(seq!["-"@, file].skip(1) =~= seq![file]);
        assert(seq![file].skip(1) =~= Seq::<Seq<char>>::empty());
        assert(filled(Seq::<Seq<char>>::empty()) =~= Seq::<Seq<char>>::empty());
        assert(filled(seq![file]) =~= seq![file]);
        assert(filled(seq!["-"@, file]) =~= seq!["-"@, file]);
        assert(filled(segs) =~= segs);
    }
    law_npm_paths_name_the_package(name, name, file);
    law_versions_stand_behind_the_name(name, version, ".tgz"@, file);
    assert("/"@ =~= seq!['/']);
    law_cut_at_the_last(name, '/', name);
}

/// A wheel gives its name, normalized, and the version behind it; a source
/// archive the version behind the last dash.
pub proof fn law_python_files_are_read(name: Seq<char>, version: Seq<char>, tags: Seq<char>)
    requires
        !version.contains('-'),
    ensures
        !name.contains('-') ==> python_parts(name + "-"@ + version + "-"@ + tags + ".whl"@)
            == full_parts(normalized(name), version, "PyPI"@),
        python_parts(name + "-"@ + version + ".tar.gz"@) == full_parts(
            normalized(name),
            version,
            "PyPI"@,
        ),
        python_parts(name + "-"@ + version + ".zip"@) == full_parts(
            normalized(name),
            version,
            "PyPI"@,
        ),
{
    reveal_strlit("-");
    reveal_strlit(".whl");
    reveal_strlit(".tar.gz");
    reveal_strlit(".zip");
    assert("-"@ =~= seq!['-']);
    let stem = name + "-"@ + version + "-"@ + tags;
    law_ends_are_taken_off(".whl"@, stem);
    let rest = version + seq!['-'] + tags;
    assert(stem =~= name + seq!['-'] + rest);
    if !name.contains('-') {
        law_cut_at_the_first(name, '-', rest);
    }
    law_cut_at_the_first(version, '-', tags);
    let s = name + seq!['-'] + version;
    law_cut_at_the_last(name, '-', version);
    law_ends_are_taken_off(".tar.gz"@, s);
    law_ends_are_taken_off(".zip"@, s);
    lemma_other_end(s, ".tar.gz"@, ".whl"@);
    lemma_other_end(s, ".zip"@, ".whl"@);
    lemma_other_end(s, ".zip"@, ".tar.gz"@);
}

proof fn lemma_other_end(s: Seq<char>, own: Seq<char>, other: Seq<char>)
    requires
        own.len() >= 2,
        other.len() >= 2,
        own.last() != other.last() || own[own.len() - 2] != other[other.len() - 2],
    ensures
        before_suffix(s + own, other) is None,
{
    let t = s + own;
    if other.is_suffix_of(t) {
        let u = t.subrange(t.len() - other.len(), t.len() as int);
        assert(u.last() == t.last());
        assert(u[u.len() - 2] == t[t.len() - 2]);
        assert(t.last() == own.last());
        assert(t[t.len() - 2] == own[own.len() - 2]);
    }
}

/// A version of a Go module loses the suffix of its file, whichever it is.
pub proof fn law_go_files_name_a_version(version: Seq<char>)
    ensures
        go_version(version + ".zip"@) == version,
        go_version(version + ".info"@) == version,
        go_version(version + ".mod"@) == version,
{
    reveal_strlit(".zip");
    reveal_strlit(".info");
    reveal_strlit(".mod");
    law_ends_are_taken_off(".zip"@, version);
    law_ends_are_taken_off(".info"@, version);
    law_ends_are_taken_off(".mod"@, version);
    lemma_other_end(version, ".info"@, ".zip"@);
    lemma_other_end(version, ".mod"@, ".zip"@);
    lemma_other_end(version, ".mod"@, ".info"@);
}

/// An address of the Go module proxy gives the module before the last `/@v/`
/// and the version behind it.
pub proof fn law_go_addresses_are_read(site: Seq<char>, module: Seq<char>, version: Seq<char>)
    requires
        !site.contains('p'),
        module.len() > 0,
        module[0] != '/',
        version.len() > 0,
        !version.contains('@'),
        !holds("/"@ + module + "/@v/"@ + version + ".zip"@, "proxy.golang.org"@),
    ensures
        go_parts(
            site + "proxy.golang.org"@ + ("/"@ + module + "/@v/"@ + version + ".zip"@),
        ) == full_parts(module, version, "Go"@),
{
    reveal_strlit("proxy.golang.org");
    reveal_strlit("/");
    reveal_strlit("/@v/");
    reveal_strlit(".zip");
    let m = "/@v/"@;
    let head = "/"@ + module;
    let file = version + ".zip"@;
    let path = "/"@ + module + m + version + ".zip"@;
    lemma_cut_behind(site, "proxy.golang.org"@, path);
    law_the_last_place_is_found(path, m);
    let at = head.len() as int;
    assert(path.subrange(at, at + 4) =~= m);
    let k = rfind(path, m)->0;
    assert(k == at) by {
        assert(rfind(path, m) is Some);
        if k > at {
            let u = path.subrange(k, k + 4);
            assert(u[1] == path[k + 1]);
            assert(path[k + 1] == '@');
            if k + 1 >= at + 4 {
                let q = k + 1 - at - 4;
                if q < version.len() {
                    assert(version[q] == '@');
                    assert(version.contains(version[q]));
                } else {
                    assert(path[k + 1] == ".zip"@[q - version.len()]);
                }
            } else {
                assert(path[k + 1] == m[k + 1 - at]);
            }
        }
        if k < at {
            assert(path.subrange(at, at + 4) != m);
        }
    }
    assert(path.take(at) =~= head);
    assert(path.skip(at + 4) =~= file);
    law_go_files_name_a_version(version);
    assert(head.skip(1) =~= module);
    assert(drop_leading(module, '/') == module);
    assert(drop_leading(head, '/') == module);
}

/// A tag loses the suffix of its archive, and a `v` before a digit.
pub proof fn law_tags_give_versions(tag: Seq<char>, digit: char, rest: Seq<char>)
    ensures
        bare_tag(tag + ".tar.gz"@) == tag,
        bare_tag(tag + ".tgz"@) == tag,
        bare_tag(tag + ".zip"@) == tag,
        '0' <= digit && digit <= '9' ==> tag_version(seq!['v', digit] + rest) == seq![digit]
            + rest,
        !('0' <= digit && digit <= '9') ==> tag_version(seq!['v', digit] + rest) == seq![
            'v',
            digit,
        ] + rest,
        (tag.len() > 0 && tag[0] != 'v') ==> tag_version(tag) == tag,
{
    reveal_strlit(".tar.gz");
    reveal_strlit(".tgz");
    reveal_strlit(".zip");
    law_ends_are_taken_off(".tar.gz"@, tag);
    law_ends_are_taken_off(".tgz"@, tag);
    law_ends_are_taken_off(".zip"@, tag);
    let t = tag + ".tgz"@;
    if ".tar.gz"@.is_suffix_of(t) {
        let u = t.subrange(t.len() - 7, t.len() as int);
        assert(u[4] == t[t.len() - 3]);
        assert(t[t.len() - 3] == ".tgz"@[1]);
        assert(".tar.gz"@[4] == '.');
    }
    lemma_other_end(tag, ".zip"@, ".tar.gz"@);
    lemma_other_end(tag, ".zip"@, ".tgz"@);
    assert((seq!['v', digit] + rest).skip(1) =~= seq![digit] + rest);
}

/// An archive of GitHub is named by its repository and versioned by its tag,
/// with or without `refs/tags/` before it and a file name behind it.
pub proof fn law_github_archives_are_read(before: Seq<char>, tag: Seq<char>, file: Seq<char>)
    requires
        path_parts(before).len() > 0,
        tag.len() > 0,
        !tag.contains('/'),
        tag_version(bare_tag(tag)).len() > 0,
    ensures
        marker_parts(before, "refs/tags/"@ + tag) == Some(
            PartsView {
                name: Some(path_parts(before).last()),
                version: Some(tag_version(bare_tag(tag))),
                ecosystem: None,
            },
        ),
        marker_parts(before, tag) == marker_parts(before, "refs/tags/"@ + tag),
        marker_parts(before, "refs/tags/"@ + (tag + "/"@ + file)) == marker_parts(
            before,
            "refs/tags/"@ + tag,
        ),
{
    reveal_strlit("refs/tags/");
    reveal_strlit("/");
    assert("/"@ =~= seq!['/']);
    law_ends_are_taken_off("refs/tags/"@, tag);
    law_ends_are_taken_off("refs/tags/"@, tag + "/"@ + file);
    law_parts_stand_between_separators(tag, '/', file);
    assert(filled(seq![tag])[0] == tag);
    assert(filled(seq![tag] + parts(file, '/'))[0] == tag);
    if "refs/tags/"@.is_prefix_of(tag) {
        assert(tag[4] == "refs/tags/"@[4]);
        assert(tag.contains(tag[4]));
    }
}

/// An address of the API of crates.io gives the two pieces behind its marker, and
/// one of a file the name and the version in the file's name.
pub proof fn law_crate_addresses_are_read(
    site: Seq<char>,
    name: Seq<char>,
    version: Seq<char>,
    rest: Seq<char>,
)
    requires
        !site.contains('/'),
        name.len() > 0,
        version.len() > 0,
        !name.contains('/'),
        !version.contains('/'),
    ensures
        !holds(name + "/"@ + version + "/"@ + rest, "/api/v1/crates/"@) ==> crates_parts(
            site + "/api/v1/crates/"@ + (name + "/"@ + version + "/"@ + rest),
        ) == full_parts(name, version, "crates.io"@),
{
    reveal_strlit("/");
    reveal_strlit("/api/v1/crates/");
    assert("/"@ =~= seq!['/']);
    let tail = name + "/"@ + version + "/"@ + rest;
    lemma_cut_behind(site, "/api/v1/crates/"@, tail);
    let p1 = version + seq!['/'] + rest;
    assert(tail =~= name + seq!['/'] + p1);
    law_parts_stand_between_separators(name, '/', p1);
    law_parts_stand_between_separators(version, '/', rest);
    let all = parts(tail, '/');
    let more = seq![version] + parts(rest, '/');
    assert(all =~= seq![name] + more);
    assert(all.skip(1) =~= more);
    assert(more.skip(1) =~= parts(rest, '/'));
    assert(filled(more) =~= seq![version] + filled(parts(rest, '/')));
    assert(filled(all) =~= seq![name] + filled(more));
}

/// An address of GitHub that names no tag gives the second piece of its path.
pub proof fn law_repositories_are_the_second_piece(
    site: Seq<char>,
    owner: Seq<char>,
    repo: Seq<char>,
)
    requires
        !site.contains('g'),
        owner.len() > 0,
        repo.len() > 0,
        !owner.contains('/'),
        !repo.contains('/'),
        !holds("/"@ + owner + "/"@ + repo, "github.com"@),
        !holds(site + "github.com"@ + ("/"@ + owner + "/"@ + repo), "/archive/"@),
        !holds(site + "github.com"@ + ("/"@ + owner + "/"@ + repo), "/releases/download/"@),
    ensures
        github_parts(site + "github.com"@ + ("/"@ + owner + "/"@ + repo)) == (PartsView {
            name: Some(repo),
            version: None,
            ecosystem: None,
        }),
{
    reveal_strlit("/");
    reveal_strlit("github.com");
    assert("/"@ =~= seq!['/']);
    let e = Seq::<char>::empty();
    let path = "/"@ + owner + "/"@ + repo;
    lemma_cut_behind(site, "github.com"@, path);
    let p1 = owner + seq!['/'] + repo;
    assert(path =~= e + seq!['/'] + p1);
    law_parts_stand_between_separators(e, '/', p1);
    law_parts_stand_between_separators(owner, '/', repo);
    law_parts_stand_between_separators(repo, '/', e);
    let two = seq![owner, repo];
    let all = parts(path, '/');
    assert(all =~= seq![e] + two);
    assert(all.skip(1) =~= two);
    assert(two.skip(1) =~= seq![repo]);
    assert(seq![repo].skip(1) =~= Seq::<Seq<char>>::empty());
    assert(filled(Seq::<Seq<char>>::empty()) =~= Seq::<Seq<char>>::empty());
    assert(filled(seq![repo]) =~= seq![repo]);
    assert(filled(two) =~= two);
    assert(filled(all) == two);
}

} // verus!
