//! The merged build prefix: what a source build sees of its dependencies.
//!
//! The payloads of all dependencies are merged into one `/usr`-like tree. The
//! same path with identical content merges; with differing content it is a
//! hard error that names both packages. Launcher wrappers that were written
//! for the layout of a pod are pointed at the prefix, and one that cannot
//! resolve there is refused.

use crate::ordered::{ascends, lookup, name_set, set_of, sort_texts, sorted_by, Ordered};
use crate::text::{
    law_cut_at_the_first, law_cut_at_the_last, law_ends_are_taken_off,
    law_lines_end_at_line_feeds, law_parts_stand_between_separators, lemma_cut_char,
    lemma_holds_part,
    after_last, after_prefix, chars_of, contains, cut, find, find_chars, holds, is_same_path, join, join_path,
    joined, last_part, lemma_cut, lemma_find_from, lemma_texts_push, lines, list_contains,
    matches_at, opt_pair, opt_str, opt_text, parts, path_in, rcut, replace, replaced, rsplit_once, same_path, split_char,
    split_lines, split_once, starts_with, str_eq, string_of, strip_prefix, texts, utf8_text,
};
use vstd::prelude::*;

verus! {

/// A dependency's payload: the package it came from, and its built file.
#[derive(Debug)]
pub struct Payload {
    pub pkg: String,
    pub snap: String,
}

// ── Merging ──

/// The packaging subtree of a payload. Every package has its own.
pub const META_SUBTREE: &'static str = "meta";

/// The info index, which every install generates anew.
pub const INFO_DIR_FILE: &'static str = "usr/share/info/dir";

/// What a payload has at a path.
#[derive(Debug)]
pub enum Node {
    Dir,
    /// A link, with its target.
    Link(String),
    File,
}

/// What the prefix already has at a path.
#[derive(Debug)]
pub enum Occupant {
    Nothing,
    Dir,
    /// A link, with its target, and whether it leads to a directory.
    Link { target: String, dir: bool },
    /// A regular file, and whether it holds what the incoming one holds.
    File { same: bool },
    /// Anything else.
    Other,
}

/// What happens to an entry.
#[derive(Debug, Clone, Copy, PartialEq, Eq, Structural)]
pub enum MergeAction {
    /// The directory is made where it is missing, and its entries are merged.
    Descend,
    /// The link is made.
    Link,
    /// The file is copied.
    Copy,
    /// What is there stays.
    Keep,
}

/// What happens to an entry, or nothing where the two differ.
pub open spec fn merged(node: Node, at: Occupant) -> Option<MergeAction> {
    match node {
        Node::Dir => match at {
            Occupant::Nothing | Occupant::Dir => Some(MergeAction::Descend),
            Occupant::Link { dir, .. } => if dir {
                Some(MergeAction::Descend)
            } else {
                None
            },
            _ => None,
        },
        Node::Link(target) => match at {
            Occupant::Nothing => Some(MergeAction::Link),
            Occupant::Link { target: there, .. } => if same_path(there@, target@) {
                Some(MergeAction::Keep)
            } else {
                None
            },
            _ => None,
        },
        Node::File => match at {
            Occupant::Nothing => Some(MergeAction::Copy),
            Occupant::File { same } => if same {
                Some(MergeAction::Keep)
            } else {
                None
            },
            _ => None,
        },
    }
}

/// The error for two payloads that differ at a path.
pub open spec fn conflict_text(rel: Seq<char>, existing: Option<Seq<char>>, incoming: Seq<char>) -> Seq<
    char,
> {
    "build prefix conflict: '"@ + rel + "' differs between '"@ + named(existing) + "' and '"@
        + incoming
        + "' — the merged build prefix requires identical content at shared paths"@
}

/// The package that a path came from, as far as it is known.
pub open spec fn named(owner: Option<Seq<char>>) -> Seq<char> {
    match owner {
        Some(p) => p,
        None => "an earlier payload"@,
    }
}

/// The path of an entry of a directory.
pub open spec fn child_path(rel: Seq<char>, name: Seq<char>) -> Seq<char> {
    if rel.len() == 0 {
        name
    } else {
        rel + "/"@ + name
    }
}

/// The path of an entry of a directory.
pub fn child_rel(rel: &str, name: &str) -> (r: String)
    ensures
        r@ == child_path(rel@, name@),
{
    if rel.is_empty() {
        return name.to_owned();
    }
    let mut out = rel.to_owned();
    out.append("/");
    out.append(name);
    out
}

/// Whether an entry never enters the prefix.
pub open spec fn left_out(rel: Seq<char>, name: Seq<char>) -> bool {
    (rel.len() == 0 && name == META_SUBTREE@) || child_path(rel, name) == INFO_DIR_FILE@
}

/// Whether an entry never enters the prefix: the packaging subtree at the root
/// of a payload, and the generated info index.
pub fn excluded(rel: &str, name: &str) -> (r: bool)
    ensures
        r == left_out(rel@, name@),
{
    (rel.is_empty() && str_eq(name, META_SUBTREE)) || str_eq(
        child_rel(rel, name).as_str(),
        INFO_DIR_FILE,
    )
}

/// Who brought each path of the prefix.
#[derive(Debug)]
pub struct Merge {
    pub owners: Ordered<String>,
}

impl Merge {
    /// Whether the owners are well-formed.
    pub open spec fn wf(&self) -> bool {
        self.owners.wf()
    }

    /// The package that brought a path first.
    pub open spec fn owner(&self, rel: Seq<char>) -> Option<Seq<char>> {
        match lookup(self.owners@, rel) {
            Some(p) => Some(p@),
            None => None,
        }
    }

    /// A prefix that is still empty.
    pub fn new() -> (r: Self)
        ensures
            r.wf(),
            forall|rel: Seq<char>| r.owner(rel) is None,
    {
        Merge { owners: Ordered::new() }
    }

    /// The package that brought a path first.
    pub fn owner_of(&self, rel: &str) -> (r: Option<&str>)
        ensures
            opt_str(r) == self.owner(rel@),
    {
        match self.owners.get(rel) {
            Some(p) => Some(p.as_str()),
            None => None,
        }
    }

    /// The error for two payloads that differ at a path. It names both.
    pub fn conflict(&self, rel: &str, incoming: &str) -> (r: String)
        ensures
            r@ == conflict_text(rel@, self.owner(rel@), incoming@),
    {
        let existing = match self.owner_of(rel) {
            Some(p) => p,
            None => "an earlier payload",
        };
        let mut out = "build prefix conflict: '".to_owned();
        out.append(rel);
        out.append("' differs between '");
        out.append(existing);
        out.append("' and '");
        out.append(incoming);
        out.append("' — the merged build prefix requires identical content at shared paths");
        out
    }

    /// Decides what happens to an entry of `pkg` at a path, given what the
    /// prefix has there. The first package that brings a path is its owner.
    pub fn merge_entry(&mut self, pkg: &str, rel: &str, node: &Node, at: &Occupant) -> (r: Result<
        MergeAction,
        String,
    >)
        requires
            old(self).wf(),
        ensures
            final(self).wf(),
            match merged(*node, *at) {
                Some(a) => r == Ok::<MergeAction, String>(a) && forall|k: Seq<char>| #[trigger]
                    final(self).owner(k) == (if k == rel@ && old(self).owner(k) is None {
                        Some(pkg@)
                    } else {
                        old(self).owner(k)
                    }),
                None => (r matches Err(e) && e@ == conflict_text(rel@, old(self).owner(rel@), pkg@))
                    && *final(self) == *old(self),
            },
    {
        let action = match node {
            Node::Dir => match at {
                Occupant::Nothing => Some(MergeAction::Descend),
                Occupant::Dir => Some(MergeAction::Descend),
                Occupant::Link { target: _, dir } => if *dir {
                    Some(MergeAction::Descend)
                } else {
                    None
                },
                _ => None,
            },
            Node::Link(target) => match at {
                Occupant::Nothing => Some(MergeAction::Link),
                Occupant::Link { target: there, dir: _ } => if is_same_path(
                    there.as_str(),
                    target.as_str(),
                ) {
                    Some(MergeAction::Keep)
                } else {
                    None
                },
                _ => None,
            },
            Node::File => match at {
                Occupant::Nothing => Some(MergeAction::Copy),
                Occupant::File { same } => if *same {
                    Some(MergeAction::Keep)
                } else {
                    None
                },
                _ => None,
            },
        };
        match action {
            None => Err(self.conflict(rel, pkg)),
            Some(a) => {
                if self.owners.get(rel).is_none() {
                    self.owners.insert(rel.to_owned(), pkg.to_owned());
                }
                Ok(a)
            },
        }
    }
}

/// Identical content merges: what is there stays.
pub proof fn law_identical_content_merges(node: Node, at: Occupant)
    requires
        match (node, at) {
            (Node::File, Occupant::File { same }) => same,
            (Node::Link(a), Occupant::Link { target, .. }) => a@ == target@,
            _ => false,
        },
    ensures
        merged(node, at) == Some(MergeAction::Keep),
{
}

/// A regular file that differs from what is there, in content or in kind, is
/// refused, and so is a link with another target.
pub proof fn law_differing_content_is_refused(node: Node, at: Occupant)
    requires
        match (node, at) {
            (_, Occupant::Nothing) => false,
            (Node::File, Occupant::File { same }) => !same,
            (Node::File, _) => true,
            (Node::Link(a), Occupant::Link { target, .. }) => !same_path(target@, a@),
            (Node::Link(_), _) => true,
            (Node::Dir, _) => false,
        },
    ensures
        merged(node, at) is None,
{
}

/// The names of the files of a payload: what stands last in each path.
pub open spec fn basenames(paths: Seq<Seq<char>>) -> Seq<Seq<char>> {
    Seq::new(paths.len(), |i: int| last_part(paths[i], "/"@))
}

/// The names of the entries of a payload at every depth, each once, in
/// ascending order.
pub fn payload_files(paths: &Vec<String>) -> (r: Vec<String>)
    ensures
        texts(r@) == set_of(basenames(texts(paths@))),
        forall|x: Seq<char>| #[trigger]
            texts(r@).contains(x) <==> basenames(texts(paths@)).contains(x),
{
    broadcast use lemma_texts_push;

    let ghost all = texts(paths@);
    let mut names: Vec<String> = Vec::new();
    let mut i: usize = 0;
    while i < paths.len()
        invariant
            i <= paths@.len(),
            all == texts(paths@),
            texts(names@) == basenames(all).take(i as int),
        decreases paths@.len() - i,
    {
        names.push(after_last(paths[i].as_str(), "/"));
        assert(basenames(all).take(i + 1) =~= basenames(all).take(i as int).push(
            basenames(all)[i as int],
        ));
        i += 1;
    }
    assert(basenames(all).take(i as int) =~= basenames(all));
    name_set(&names)
}

// ── Unpacking ──

/// The arguments that unpack a payload. Nothing of it is run.
pub open spec fn unpack_args(tool: Seq<char>, snap: Seq<char>, dest: Seq<char>) -> Seq<Seq<char>> {
    seq![tool, "-no-progress"@, "-d"@, dest, snap]
}

/// The arguments that unpack a payload.
pub fn unpack_argv(tool: &str, snap: &str, dest: &str) -> (r: Vec<String>)
    ensures
        texts(r@) == unpack_args(tool@, snap@, dest@),
{
    let mut out: Vec<String> = Vec::new();
    out.push(tool.to_owned());
    out.push("-no-progress".to_owned());
    out.push("-d".to_owned());
    out.push(dest.to_owned());
    out.push(snap.to_owned());
    assert(texts(out@) =~= unpack_args(tool@, snap@, dest@));
    out
}

// ── Launcher wrappers ──

/// The magic of a launcher wrapper.
pub const WRAPPER_MAGIC: &'static str = "#!/bin/sh\n";

/// The part of a pod's layout that names a package's tree.
pub const EXTENSION_SEGMENT: &'static str = "active/extensions/";

/// How a tree wrapper finds its pod.
pub const TREE_PODROOT_LINE: &'static str = "PODROOT=\"$(dirname \"$(dirname \"$(dirname \"$SCRIPT\")\")\")\"";

/// How a library wrapper finds its pod.
pub const LIB_PODROOT_LINE: &'static str = "PODROOT=\"$(dirname \"$(dirname \"$BLODIR\")\")\"";

/// Where a wrapper stands, in the shell.
pub const SELF_DIR: &'static str = "$(dirname \"$(readlink -f \"$0\")\")";

/// How a wrapper clears the search path of Python.
pub const PYTHONPATH_SCRUB: &'static str = "PYTHONPATH=\"${SHUTTLE_PYTHONPATH:-}\"\n";

/// How it keeps the caller's behind its own.
pub const PYTHONPATH_KEEP: &'static str = "PYTHONPATH=\"${SHUTTLE_PYTHONPATH:-}${PYTHONPATH:+:$PYTHONPATH}\"\n";

/// Which kind of wrapper a file is.
#[derive(Debug, Clone, Copy, PartialEq, Eq, Structural)]
pub enum WrapperShape {
    /// Runs a file of the package's tree in the pod.
    Tree,
    /// Runs a blob of the pod's store, with the package's libraries.
    Lib,
    /// Runs a bare interpreter on a blob of the pod's store.
    Flat,
}

/// Whether a word is the path of a blob in a pod's store.
pub open spec fn is_blob(word: Seq<char>) -> bool {
    word.len() > 0 && word[0] == '/' && holds(word, "/store/"@)
}

fn word_is_blob(word: &str) -> (r: bool)
    ensures
        r == is_blob(word@),
{
    let v = chars_of(word);
    v.len() > 0 && v[0] == '/' && contains(word, "/store/")
}

/// The quoted words at the beginning of a text, with single spaces between
/// them.
pub open spec fn quoted_words(args: Seq<char>) -> Seq<Seq<char>>
    decreases args.len(),
{
    if args.len() == 0 || args[0] != '"' {
        Seq::empty()
    } else {
        match cut(args.skip(1), "\""@) {
            None => Seq::empty(),
            Some(c) => if c.1.len() > 0 && c.1[0] == ' ' && c.1.len() < args.len() {
                seq![c.0] + quoted_words(c.1.skip(1))
            } else {
                seq![c.0]
            },
        }
    }
}

/// The word, if a text begins with a quoted one, and what stands behind it.
fn quoted_word(rest: &str) -> (r: Option<(String, String)>)
    ensures
        opt_pair(r) == (if rest@.len() == 0 || rest@[0] != '"' {
            None
        } else {
            cut(rest@.skip(1), "\""@)
        }),
        match r {
            Some(p) => p.1@.len() < rest@.len(),
            None => true,
        },
{
    let v = chars_of(rest);
    if v.len() == 0 || v[0] != '"' {
        return None;
    }
    let end: usize = v.len();
    let inner = string_of(&v, 1, end);
    assert(inner@ =~= rest@.skip(1));
    proof {
        reveal_strlit("\"");
        lemma_cut(rest@.skip(1), "\""@);
    }
    split_once(inner.as_str(), "\"")
}

/// The quoted words at the beginning of a text.
pub fn quoted_tokens(args: &str) -> (r: Vec<String>)
    ensures
        texts(r@) == quoted_words(args@),
{
    broadcast use lemma_texts_push;

    let mut out: Vec<String> = Vec::new();
    let mut rest = args.to_owned();
    assert(texts(out@) + quoted_words(args@) =~= quoted_words(args@));
    loop
        invariant_except_break
            texts(out@) + quoted_words(rest@) == quoted_words(args@),
        ensures
            texts(out@) == quoted_words(args@),
        decreases rest@.len(),
    {
        let ghost before = out@;
        match quoted_word(rest.as_str()) {
            None => {
                assert(texts(out@) + Seq::<Seq<char>>::empty() =~= texts(out@));
                break;
            },
            Some((word, tail)) => {
                let ghost w = word@;
                out.push(word);
                let t = chars_of(tail.as_str());
                if t.len() > 0 && t[0] == ' ' {
                    let end: usize = t.len();
                    let next = string_of(&t, 1, end);
                    assert(next@ =~= tail@.skip(1));
                    assert(texts(before) + (seq![w] + quoted_words(next@)) =~= texts(out@)
                        + quoted_words(next@));
                    rest = next;
                } else {
                    assert(texts(before) + seq![w] =~= texts(out@));
                    break;
                }
            },
        }
    }
    out
}

/// Whether a text is a bare interpreter on a blob.
pub open spec fn is_flat(text: Seq<char>) -> bool {
    let rows = lines(text);
    rows.len() > 1 && rows[0] == "#!/bin/sh"@ && {
        let words = quoted_words(
            match after_prefix(rows[1], "exec "@) {
                Some(a) => a,
                None => rows[1],
            },
        );
        words.len() == 3 && is_blob(words[1]) && words[2] == "$@"@
    }
}

/// Whether a text is a bare interpreter on a blob.
pub fn is_flat_script_wrapper(text: &str) -> (r: bool)
    ensures
        r == is_flat(text@),
{
    let rows = split_lines(text);
    let ghost all = texts(rows@);
    assert(all == lines(text@));
    if rows.len() < 2 {
        assert(all.len() < 2);
        return false;
    }
    assert(all[0] == rows@[0]@ && all[1] == rows@[1]@);
    if !str_eq(rows[0].as_str(), "#!/bin/sh") {
        return false;
    }
    let words = match strip_prefix(rows[1].as_str(), "exec ") {
        Some(a) => quoted_tokens(a.as_str()),
        None => quoted_tokens(rows[1].as_str()),
    };
    let ghost w = texts(words@);
    assert(w.len() == words@.len());
    if words.len() != 3 {
        return false;
    }
    assert(w[1] == words@[1]@ && w[2] == words@[2]@);
    word_is_blob(words[1].as_str()) && str_eq(words[2].as_str(), "$@")
}

/// Which kind of wrapper a text is, if it is one.
pub open spec fn shape_of(text: Seq<char>) -> Option<WrapperShape> {
    if holds(text, TREE_PODROOT_LINE@) {
        Some(WrapperShape::Tree)
    } else if holds(text, LIB_PODROOT_LINE@) {
        Some(WrapperShape::Lib)
    } else if is_flat(text) {
        Some(WrapperShape::Flat)
    } else {
        None
    }
}

/// Which kind of wrapper a text is, if it is one.
pub fn classify_wrapper(text: &str) -> (r: Option<WrapperShape>)
    ensures
        r == shape_of(text@),
{
    if contains(text, TREE_PODROOT_LINE) {
        return Some(WrapperShape::Tree);
    }
    if contains(text, LIB_PODROOT_LINE) {
        return Some(WrapperShape::Lib);
    }
    if is_flat_script_wrapper(text) {
        return Some(WrapperShape::Flat);
    }
    None
}

/// How much of a text is the `<pkg>/usr` that it begins with.
pub open spec fn pkg_usr_len(after: Seq<char>) -> Option<int> {
    match find(after, "/"@) {
        None => None,
        Some(i) => if after_prefix(after.skip(i), "/usr"@) is Some {
            Some(i + 4)
        } else {
            None
        },
    }
}

/// A text without the package trees of a pod's layout: the slash before them
/// goes with them.
pub open spec fn stripped(s: Seq<char>) -> Seq<char>
    decreases s.len(),
{
    match find(s, EXTENSION_SEGMENT@) {
        None => s,
        Some(i) => {
            let after = s.skip(i + EXTENSION_SEGMENT@.len());
            if after.len() >= s.len() {
                s
            } else {
                match pkg_usr_len(after) {
                    Some(n) => {
                        let start = if i > 0 && s[i - 1] == '/' {
                            i - 1
                        } else {
                            i
                        };
                        if 0 <= n <= after.len() {
                            s.take(start) + stripped(after.skip(n))
                        } else {
                            s
                        }
                    },
                    None => s.take(i + EXTENSION_SEGMENT@.len()) + stripped(after),
                }
            }
        },
    }
}

/// A text that names no package tree is kept as it is.
pub proof fn law_other_texts_are_kept(s: Seq<char>)
    requires
        !holds(s, EXTENSION_SEGMENT@),
    ensures
        stripped(s) == s,
{
}

proof fn lemma_segment(s: Seq<char>)
    ensures
        EXTENSION_SEGMENT@.len() == 18,
        match find(s, EXTENSION_SEGMENT@) {
            Some(i) => 0 <= i && i + 18 <= s.len(),
            None => true,
        },
{
    reveal_strlit("active/extensions/");
    lemma_find_from(s, EXTENSION_SEGMENT@, 0);
}

fn segment_len(after: &Vec<char>) -> (r: Option<usize>)
    ensures
        match r {
            Some(n) => pkg_usr_len(after@) == Some(n as int) && n <= after@.len(),
            None => pkg_usr_len(after@) is None,
        },
{
    proof {
        reveal_strlit("/usr");
        reveal_strlit("/");
        lemma_find_from(after@, "/"@, 0);
    }
    let slash = chars_of("/");
    let usr = chars_of("/usr");
    match find_chars(after, &slash, 0) {
        None => None,
        Some(i) => {
            let end: usize = after.len();
            assert(i + 1 <= end);
            if end - i >= 4 && matches_at(after, &usr, i) {
                assert(after@.skip(i as int).take(4) =~= after@.subrange(i as int, i + 4));
                assert(after_prefix(after@.skip(i as int), "/usr"@) is Some);
                Some(i + 4)
            } else {
                proof {
                    if after_prefix(after@.skip(i as int), "/usr"@) is Some {
                        assert(after@.skip(i as int).take(4) =~= after@.subrange(i as int, i + 4));
                    }
                }
                None
            }
        },
    }
}

/// Drops the package trees of a pod's layout, so that a reference into one
/// becomes a reference from the prefix's root.
pub fn strip_extension_segments(text: &str) -> (r: String)
    ensures
        r@ == stripped(text@),
{
    let segment = chars_of(EXTENSION_SEGMENT);
    let mut rest = chars_of(text);
    let mut out = String::new();
    assert(out@ + stripped(text@) =~= stripped(text@));
    loop
        invariant
            segment@ == EXTENSION_SEGMENT@,
            out@ + stripped(rest@) == stripped(text@),
        ensures
            out@ + rest@ == stripped(text@),
        decreases rest@.len(),
    {
        proof {
            lemma_segment(rest@);
        }
        let ghost before = out@;
        match find_chars(&rest, &segment, 0) {
            None => {
                break;
            },
            Some(i) => {
                let end: usize = rest.len();
                let after = chars_of(string_of(&rest, i + 18, end).as_str());
                assert(after@ =~= rest@.skip(i + 18));
                match segment_len(&after) {
                    Some(n) => {
                        let start: usize = if i > 0 && rest[i - 1] == '/' {
                            i - 1
                        } else {
                            i
                        };
                        let head = string_of(&rest, 0, start);
                        assert(head@ =~= rest@.take(start as int));
                        out.append(head.as_str());
                        let len: usize = after.len();
                        let next = chars_of(string_of(&after, n, len).as_str());
                        assert(next@ =~= after@.skip(n as int));
                        assert(before + (head@ + stripped(next@)) =~= out@ + stripped(next@));
                        rest = next;
                    },
                    None => {
                        let head = string_of(&rest, 0, i + 18);
                        assert(head@ =~= rest@.take(i + 18));
                        out.append(head.as_str());
                        assert(before + (head@ + stripped(after@)) =~= out@ + stripped(after@));
                        rest = after;
                    },
                }
            },
        }
    }
    let end: usize = rest.len();
    let tail = string_of(&rest, 0, end);
    assert(tail@ =~= rest@);
    out.append(tail.as_str());
    out
}

/// Words with every blob among the quoted ones replaced by `by`; all else is
/// kept.
pub open spec fn blobs_replaced(args: Seq<char>, by: Seq<char>) -> Seq<char>
    decreases args.len(),
{
    if args.len() == 0 || args[0] != '"' {
        args
    } else {
        match cut(args.skip(1), "\""@) {
            None => args,
            Some(c) => "\""@ + (if is_blob(c.0) {
                by
            } else {
                c.0
            }) + "\""@ + (if c.1.len() > 0 && c.1[0] == ' ' && c.1.len() < args.len() {
                " "@ + blobs_replaced(c.1.skip(1), by)
            } else {
                c.1
            }),
        }
    }
}

/// A line with the blobs of its `exec` replaced.
pub open spec fn exec_replaced(line: Seq<char>, by: Seq<char>) -> Seq<char> {
    match after_prefix(line, "exec "@) {
        Some(args) => "exec "@ + blobs_replaced(args, by),
        None => line,
    }
}

/// What a wrapper runs in place of a blob: the file that was kept beside it.
pub open spec fn sibling_ref(sibling: Seq<char>) -> Seq<char> {
    SELF_DIR@ + "/"@ + sibling
}

/// The lines with the blobs of each `exec` replaced.
pub open spec fn all_replaced(rows: Seq<Seq<char>>, by: Seq<char>) -> Seq<Seq<char>> {
    Seq::new(rows.len(), |i: int| exec_replaced(rows[i], by))
}

/// Rewrites the words behind an `exec`.
fn replace_blobs(args: &str, by: &str) -> (r: String)
    ensures
        r@ == blobs_replaced(args@, by@),
{
    let mut out = String::new();
    let mut rest = args.to_owned();
    assert(out@ + blobs_replaced(args@, by@) =~= blobs_replaced(args@, by@));
    loop
        invariant_except_break
            out@ + blobs_replaced(rest@, by@) == blobs_replaced(args@, by@),
        ensures
            out@ + rest@ == blobs_replaced(args@, by@),
        decreases rest@.len(),
    {
        let ghost before = out@;
        match quoted_word(rest.as_str()) {
            None => {
                break;
            },
            Some((word, tail)) => {
                out.append("\"");
                let ghost mid = if is_blob(word@) {
                    by@
                } else {
                    word@
                };
                if word_is_blob(word.as_str()) {
                    out.append(by);
                } else {
                    out.append(word.as_str());
                }
                out.append("\"");
                assert(out@ =~= before + ("\""@ + mid + "\""@));
                let t = chars_of(tail.as_str());
                if t.len() > 0 && t[0] == ' ' {
                    let end: usize = t.len();
                    let next = string_of(&t, 1, end);
                    assert(next@ =~= tail@.skip(1));
                    out.append(" ");
                    assert(before + ("\""@ + mid + "\""@ + (" "@ + blobs_replaced(next@, by@)))
                        =~= out@ + blobs_replaced(next@, by@));
                    rest = next;
                } else {
                    assert(before + ("\""@ + mid + "\""@ + tail@) =~= out@ + tail@);
                    rest = tail;
                    break;
                }
            },
        }
    }
    out.append(rest.as_str());
    out
}

/// Rewrites a line: where it is an `exec`, its blobs become the file that was
/// kept beside the wrapper.
pub fn rewrite_exec_body(line: &str, sibling: &str) -> (r: String)
    ensures
        r@ == exec_replaced(line@, sibling_ref(sibling@)),
{
    match strip_prefix(line, "exec ") {
        None => line.to_owned(),
        Some(args) => {
            let mut by = SELF_DIR.to_owned();
            by.append("/");
            by.append(sibling);
            let mut out = "exec ".to_owned();
            out.append(replace_blobs(args.as_str(), by.as_str()).as_str());
            out
        },
    }
}

/// Rewrites every line of a wrapper.
pub fn rewrite_blob_execs(text: &str, sibling: &str) -> (r: String)
    ensures
        r@ == joined(all_replaced(parts(text@, '\n'), sibling_ref(sibling@)), "\n"@),
{
    broadcast use lemma_texts_push;

    let rows = split_char(text, '\n');
    let ghost all = texts(rows@);
    let ghost want = all_replaced(all, sibling_ref(sibling@));
    let mut out: Vec<String> = Vec::new();
    let mut i: usize = 0;
    while i < rows.len()
        invariant
            i <= rows@.len(),
            all == texts(rows@),
            want == all_replaced(all, sibling_ref(sibling@)),
            texts(out@) == want.take(i as int),
        decreases rows@.len() - i,
    {
        out.push(rewrite_exec_body(rows[i].as_str(), sibling));
        assert(want.take(i + 1) =~= want.take(i as int).push(want[i as int]));
        i += 1;
    }
    assert(want.take(i as int) =~= want);
    join(&out, "\n")
}

/// Keeps the caller's search path of Python behind the wrapper's own.
pub fn preserve_caller_pythonpath(text: &str) -> (r: String)
    ensures
        r@ == replaced(text@, PYTHONPATH_SCRUB@, PYTHONPATH_KEEP@),
{
    proof {
        reveal_strlit("PYTHONPATH=\"${SHUTTLE_PYTHONPATH:-}\"\n");
    }
    replace(text, PYTHONPATH_SCRUB, PYTHONPATH_KEEP)
}

// ── Resolution ──

/// The refusal of a wrapper that cannot resolve in the prefix.
pub open spec fn refusal(rel: Seq<char>, pkg: Seq<char>, reason: Seq<char>) -> Seq<char> {
    "build prefix: refusing launcher wrapper '"@ + rel + "' (from payload '"@ + pkg + "'): "@
        + reason
        + " — the wrapper must resolve to the payload set or a declared requires; shipping it broken is not an option (issue #90)"@
}

/// The refusal of a wrapper that cannot resolve in the prefix.
pub fn unresolvable(rel: &str, pkg: &str, reason: &str) -> (r: String)
    ensures
        r@ == refusal(rel@, pkg@, reason@),
{
    let mut out = "build prefix: refusing launcher wrapper '".to_owned();
    out.append(rel);
    out.append("' (from payload '");
    out.append(pkg);
    out.append("'): ");
    out.append(reason);
    out.append(
        " — the wrapper must resolve to the payload set or a declared requires; shipping it broken is not an option (issue #90)",
    );
    out
}

/// A path that a wrapper needs in the prefix, and what is wrong where it is
/// missing.
#[derive(Debug)]
pub struct Need {
    pub path: String,
    pub failure: String,
}

/// The models of needs.
pub open spec fn needs_view(v: Seq<Need>) -> Seq<(Seq<char>, Seq<char>)> {
    Seq::new(v.len(), |i: int| (v[i].path@, v[i].failure@))
}

proof fn lemma_needs_push(v: Seq<Need>, n: Need)
    ensures
        needs_view(v.push(n)) == needs_view(v).push((n.path@, n.failure@)),
{
    assert(needs_view(v.push(n)) =~= needs_view(v).push((n.path@, n.failure@)));
}

/// Where the file stands that was kept beside a wrapper.
pub open spec fn sibling_path(rel: Seq<char>, sibling: Seq<char>) -> Seq<char> {
    match rcut(rel, "/"@) {
        Some(c) => path_in(c.0, sibling),
        None => sibling,
    }
}

/// The need for the file that was kept beside a wrapper.
pub open spec fn sibling_need(
    rel: Seq<char>,
    shape: WrapperShape,
    sibling: Seq<char>,
) -> Seq<(Seq<char>, Seq<char>)> {
    if shape is Tree {
        Seq::empty()
    } else {
        seq![
            (
                sibling_path(rel, sibling),
                "preserved sibling '"@ + sibling + "' is missing from the prefix"@,
            ),
        ]
    }
}

/// What a line needs of an interpreter: one that is run by its bare name must
/// be among the programs of the prefix.
pub open spec fn exec_need(line: Seq<char>, names: Seq<char>) -> Seq<(Seq<char>, Seq<char>)> {
    match after_prefix(line, "exec "@) {
        None => Seq::empty(),
        Some(args) => {
            let words = quoted_words(args);
            if words.len() == 0 || (words[0].len() > 0 && (words[0][0] == '$' || words[0][0]
                == '/')) {
                Seq::empty()
            } else {
                let path = "usr/bin/"@ + words[0];
                seq![
                    (
                        path,
                        "interpreter '"@ + words[0] + "' resolves to neither the merged payloads ("@
                            + names + ") nor a declared requires — no '"@ + path
                            + "' in the prefix"@,
                    ),
                ]
            }
        },
    }
}

/// The quoted words of a line that refer to the root.
pub open spec fn root_words(line: Seq<char>) -> Seq<Seq<char>>
    decreases line.len(),
{
    match cut(line, "\""@) {
        None => Seq::empty(),
        Some(a) => match cut(a.1, "\""@) {
            None => Seq::empty(),
            Some(b) => if b.1.len() >= line.len() {
                Seq::empty()
            } else if holds(b.0, "$PODROOT/"@) {
                seq![b.0] + root_words(b.1)
            } else {
                root_words(b.1)
            },
        },
    }
}

/// What the pieces of a word need: each that starts at the root and is a plain
/// path must be in the prefix. Patterns that the shell expands are passed over.
pub open spec fn piece_needs(pieces: Seq<Seq<char>>) -> Seq<(Seq<char>, Seq<char>)>
    decreases pieces.len(),
{
    if pieces.len() == 0 {
        Seq::empty()
    } else {
        let more = piece_needs(pieces.skip(1));
        match after_prefix(pieces[0], "$PODROOT/"@) {
            None => more,
            Some(rest) => if rest.len() == 0 || holds(rest, "*"@) || holds(rest, "${"@) {
                more
            } else {
                seq![
                    (rest, "exec/library target '"@ + rest + "' is missing from the prefix"@),
                ] + more
            },
        }
    }
}

/// What words need: each is a list of paths, with colons between them.
pub open spec fn word_needs(words: Seq<Seq<char>>) -> Seq<(Seq<char>, Seq<char>)>
    decreases words.len(),
{
    if words.len() == 0 {
        Seq::empty()
    } else {
        piece_needs(parts(words[0], ':')) + word_needs(words.skip(1))
    }
}

/// What lines need.
pub open spec fn line_needs(rows: Seq<Seq<char>>, names: Seq<char>) -> Seq<(Seq<char>, Seq<char>)>
    decreases rows.len(),
{
    if rows.len() == 0 {
        Seq::empty()
    } else {
        exec_need(rows[0], names) + word_needs(root_words(rows[0])) + line_needs(
            rows.skip(1),
            names,
        )
    }
}

/// Everything that a wrapper needs in the prefix.
pub open spec fn wrapper_needs(
    rel: Seq<char>,
    shape: WrapperShape,
    text: Seq<char>,
    sibling: Seq<char>,
    names: Seq<char>,
) -> Seq<(Seq<char>, Seq<char>)> {
    sibling_need(rel, shape, sibling) + line_needs(lines(text), names)
}

/// The names of the packages, in ascending order.
pub open spec fn names_of(payloads: Seq<Payload>) -> Seq<char> {
    joined(sorted_by(Seq::new(payloads.len(), |i: int| payloads[i].pkg@), ascends()), ", "@)
}

/// The names of the packages, in ascending order.
pub fn payload_names(payloads: &[Payload]) -> (r: String)
    ensures
        r@ == names_of(payloads@),
{
    broadcast use lemma_texts_push;

    let ghost want = Seq::new(payloads@.len(), |i: int| payloads@[i].pkg@);
    let mut names: Vec<String> = Vec::new();
    let mut i: usize = 0;
    while i < payloads.len()
        invariant
            i <= payloads@.len(),
            want == Seq::new(payloads@.len(), |i: int| payloads@[i].pkg@),
            texts(names@) == want.take(i as int),
        decreases payloads@.len() - i,
    {
        names.push(payloads[i].pkg.clone());
        assert(want.take(i + 1) =~= want.take(i as int).push(want[i as int]));
        i += 1;
    }
    assert(want.take(i as int) =~= want);
    join(&sort_texts(names), ", ")
}

fn add_exec_need(line: &str, names: &str, out: &mut Vec<Need>)
    ensures
        needs_view(final(out)@) == needs_view(old(out)@) + exec_need(line@, names@),
{
    assert(needs_view(out@) + Seq::<(Seq<char>, Seq<char>)>::empty() =~= needs_view(out@));
    let args = match strip_prefix(line, "exec ") {
        None => {
            return;
        },
        Some(a) => a,
    };
    let words = quoted_tokens(args.as_str());
    let ghost w = texts(words@);
    assert(w.len() == words@.len());
    if words.len() == 0 {
        return;
    }
    assert(w[0] == words@[0]@);
    let first = chars_of(words[0].as_str());
    if first.len() > 0 && (first[0] == '$' || first[0] == '/') {
        return;
    }
    let mut path = "usr/bin/".to_owned();
    path.append(words[0].as_str());
    let mut failure = "interpreter '".to_owned();
    failure.append(words[0].as_str());
    failure.append("' resolves to neither the merged payloads (");
    failure.append(names);
    failure.append(") nor a declared requires — no '");
    failure.append(path.as_str());
    failure.append("' in the prefix");
    let n = Need { path, failure };
    proof {
        lemma_needs_push(out@, n);
        assert(needs_view(out@) + seq![(n.path@, n.failure@)] =~= needs_view(out@).push(
            (n.path@, n.failure@),
        ));
    }
    out.push(n);
}

/// The quoted words of a line that refer to the root.
pub fn quoted_tokens_after_prefix(line: &str) -> (r: Vec<String>)
    ensures
        texts(r@) == root_words(line@),
{
    broadcast use lemma_texts_push;

    let mut out: Vec<String> = Vec::new();
    let mut rest = line.to_owned();
    assert(texts(out@) + root_words(line@) =~= root_words(line@));
    loop
        invariant_except_break
            texts(out@) + root_words(rest@) == root_words(line@),
        ensures
            texts(out@) == root_words(line@),
        decreases rest@.len(),
    {
        proof {
            reveal_strlit("\"");
            lemma_cut(rest@, "\""@);
        }
        assert(texts(out@) + Seq::<Seq<char>>::empty() =~= texts(out@));
        let tail = match split_once(rest.as_str(), "\"") {
            None => {
                break;
            },
            Some((_, t)) => t,
        };
        proof {
            lemma_cut(tail@, "\""@);
        }
        let (word, next) = match split_once(tail.as_str(), "\"") {
            None => {
                break;
            },
            Some(p) => p,
        };
        let ghost before = out@;
        let ghost w = word@;
        if contains(word.as_str(), "$PODROOT/") {
            out.push(word);
            assert(texts(before) + (seq![w] + root_words(next@)) =~= texts(out@) + root_words(
                next@,
            ));
        }
        rest = next;
    }
    out
}

fn add_piece_needs(word: &str, out: &mut Vec<Need>)
    ensures
        needs_view(final(out)@) == needs_view(old(out)@) + piece_needs(parts(word@, ':')),
{
    let pieces = split_char(word, ':');
    let ghost all = texts(pieces@);
    let ghost head = needs_view(out@);
    let mut i: usize = 0;
    assert(all.skip(0) =~= all);
    while i < pieces.len()
        invariant
            i <= pieces@.len(),
            all == texts(pieces@),
            needs_view(out@) + piece_needs(all.skip(i as int)) == head + piece_needs(all),
        decreases pieces@.len() - i,
    {
        assert(all.skip(i as int)[0] == pieces@[i as int]@);
        assert(all.skip(i as int).skip(1) =~= all.skip(i + 1));
        match strip_prefix(pieces[i].as_str(), "$PODROOT/") {
            None => {},
            Some(rest) => {
                if !(rest.as_str().is_empty() || contains(rest.as_str(), "*") || contains(
                    rest.as_str(),
                    "${",
                )) {
                    let mut failure = "exec/library target '".to_owned();
                    failure.append(rest.as_str());
                    failure.append("' is missing from the prefix");
                    let n = Need { path: rest, failure };
                    let ghost before = out@;
                    proof {
                        lemma_needs_push(out@, n);
                        let x = (n.path@, n.failure@);
                        let more = piece_needs(all.skip(i + 1));
                        assert(needs_view(before) + (seq![x] + more) =~= needs_view(before).push(x)
                            + more);
                    }
                    out.push(n);
                }
            },
        }
        i += 1;
    }
    assert(all.skip(i as int) =~= Seq::<Seq<char>>::empty());
    assert(needs_view(out@) + Seq::<(Seq<char>, Seq<char>)>::empty() =~= needs_view(out@));
}

fn add_word_needs(line: &str, out: &mut Vec<Need>)
    ensures
        needs_view(final(out)@) == needs_view(old(out)@) + word_needs(root_words(line@)),
{
    let words = quoted_tokens_after_prefix(line);
    let ghost all = texts(words@);
    let ghost head = needs_view(out@);
    let mut i: usize = 0;
    assert(all.skip(0) =~= all);
    while i < words.len()
        invariant
            i <= words@.len(),
            all == texts(words@),
            needs_view(out@) + word_needs(all.skip(i as int)) == head + word_needs(all),
        decreases words@.len() - i,
    {
        assert(all.skip(i as int)[0] == words@[i as int]@);
        assert(all.skip(i as int).skip(1) =~= all.skip(i + 1));
        let ghost before = needs_view(out@);
        add_piece_needs(words[i].as_str(), out);
        proof {
            let x = piece_needs(parts(all[i as int], ':'));
            let more = word_needs(all.skip(i + 1));
            assert(before + (x + more) =~= before + x + more);
        }
        i += 1;
    }
    assert(all.skip(i as int) =~= Seq::<Seq<char>>::empty());
    assert(needs_view(out@) + Seq::<(Seq<char>, Seq<char>)>::empty() =~= needs_view(out@));
}

/// Everything that a wrapper needs in the prefix: what it runs, where it looks
/// for libraries, and the file that was kept beside it.
pub fn references(
    rel: &str,
    shape: WrapperShape,
    text: &str,
    sibling: &str,
    payloads: &[Payload],
) -> (r: Vec<Need>)
    ensures
        needs_view(r@) == wrapper_needs(rel@, shape, text@, sibling@, names_of(payloads@)),
        shape is Tree || exists|i: int|
            0 <= i < r@.len() && (#[trigger] r@[i]).path@ == sibling_path(rel@, sibling@),
{
    let names = payload_names(payloads);
    let mut out: Vec<Need> = Vec::new();
    let is_tree = match shape {
        WrapperShape::Tree => true,
        _ => false,
    };
    if !is_tree {
        let path = match rsplit_once(rel, "/") {
            Some((dir, _)) => join_path(dir.as_str(), sibling),
            None => sibling.to_owned(),
        };
        let mut failure = "preserved sibling '".to_owned();
        failure.append(sibling);
        failure.append("' is missing from the prefix");
        out.push(Need { path, failure });
    }
    let ghost head = sibling_need(rel@, shape, sibling@);
    assert(needs_view(out@) =~= head);
    let rows = split_lines(text);
    let ghost all = texts(rows@);
    let mut i: usize = 0;
    assert(all.skip(0) =~= all);
    while i < rows.len()
        invariant
            i <= rows@.len(),
            all == texts(rows@),
            needs_view(out@) + line_needs(all.skip(i as int), names@) == head + line_needs(
                all,
                names@,
            ),
        decreases rows@.len() - i,
    {
        assert(all.skip(i as int)[0] == rows@[i as int]@);
        assert(all.skip(i as int).skip(1) =~= all.skip(i + 1));
        let ghost before = needs_view(out@);
        add_exec_need(rows[i].as_str(), names.as_str(), &mut out);
        add_word_needs(rows[i].as_str(), &mut out);
        proof {
            let x = exec_need(all[i as int], names@);
            let y = word_needs(root_words(all[i as int]));
            let more = line_needs(all.skip(i + 1), names@);
            assert(before + (x + y + more) =~= before + x + y + more);
        }
        i += 1;
    }
    assert(all.skip(i as int) =~= Seq::<Seq<char>>::empty());
    assert(needs_view(out@) + Seq::<(Seq<char>, Seq<char>)>::empty() =~= needs_view(out@));
    proof {
        if !(shape is Tree) {
            assert(needs_view(out@)[0] == head[0]);
            assert(out@[0].path@ == sibling_path(rel@, sibling@));
        }
    }
    out
}

/// What is wrong with a wrapper, given the paths that the prefix has.
pub open spec fn unmet(needs: Seq<(Seq<char>, Seq<char>)>, present: Seq<Seq<char>>) -> Seq<Seq<char>>
    decreases needs.len(),
{
    if needs.len() == 0 {
        Seq::empty()
    } else if present.contains(needs[0].0) {
        unmet(needs.skip(1), present)
    } else {
        seq![needs[0].1] + unmet(needs.skip(1), present)
    }
}

/// Accepts a wrapper where everything that it needs is present, and refuses it
/// with the least of what is wrong otherwise.
pub fn verify_resolution(rel: &str, pkg: &str, needs: &Vec<Need>, present: &Vec<String>) -> (r:
    Result<(), String>)
    ensures
        match r {
            Ok(_) => unmet(needs_view(needs@), texts(present@)).len() == 0,
            Err(e) => unmet(needs_view(needs@), texts(present@)).len() > 0 && e@ == refusal(
                rel@,
                pkg@,
                set_of(unmet(needs_view(needs@), texts(present@)))[0],
            ),
        },
        r is Ok <==> forall|i: int|
            0 <= i < needs@.len() ==> texts(present@).contains((#[trigger] needs@[i]).path@),
{
    broadcast use lemma_texts_push;

    let ghost all = needs_view(needs@);
    let ghost there = texts(present@);
    let mut failures: Vec<String> = Vec::new();
    let mut i: usize = 0;
    assert(all.skip(0) =~= all);
    assert(texts(failures@) + unmet(all, there) =~= unmet(all, there));
    while i < needs.len()
        invariant
            i <= needs@.len(),
            all == needs_view(needs@),
            there == texts(present@),
            texts(failures@) + unmet(all.skip(i as int), there) == unmet(all, there),
        decreases needs@.len() - i,
    {
        assert(all.skip(i as int)[0] == all[i as int]);
        assert(all.skip(i as int).skip(1) =~= all.skip(i + 1));
        if !list_contains(present, needs[i].path.as_str()) {
            let ghost before = failures@;
            failures.push(needs[i].failure.clone());
            proof {
                let x = needs@[i as int].failure@;
                let more = unmet(all.skip(i + 1), there);
                assert(texts(before) + (seq![x] + more) =~= texts(failures@) + more);
            }
        }
        i += 1;
    }
    assert(all.skip(i as int) =~= Seq::<(Seq<char>, Seq<char>)>::empty());
    assert(texts(failures@) + Seq::<Seq<char>>::empty() =~= texts(failures@));
    let ghost wrong = texts(failures@);
    proof {
        lemma_unmet(all, there);
        assert forall|i: int| 0 <= i < needs@.len() implies all[i].0 == (
        #[trigger] needs@[i]).path@ by {}
        if wrong.len() > 0 {
            let i = choose|i: int| 0 <= i < all.len() && !there.contains((#[trigger] all[i]).0);
            assert(needs@[i].path@ == all[i].0);
        }
    }
    if failures.len() == 0 {
        return Ok(());
    }
    assert(wrong.contains(wrong[0]));
    let set = name_set(&failures);
    assert(texts(set@).contains(wrong[0]));
    assert(texts(set@)[0] == set@[0]@);
    Err(unresolvable(rel, pkg, set[0].as_str()))
}

proof fn lemma_unmet(needs: Seq<(Seq<char>, Seq<char>)>, present: Seq<Seq<char>>)
    ensures
        unmet(needs, present).len() == 0 <==> forall|i: int|
            0 <= i < needs.len() ==> present.contains((#[trigger] needs[i]).0),
    decreases needs.len(),
{
    if needs.len() > 0 {
        let tail = needs.skip(1);
        lemma_unmet(tail, present);
        assert(forall|i: int| 0 <= i < tail.len() ==> #[trigger] tail[i] == needs[i + 1]);
        if forall|i: int| 0 <= i < tail.len() ==> present.contains((#[trigger] tail[i]).0) {
            assert forall|i: int| 1 <= i < needs.len() implies present.contains(
                (#[trigger] needs[i]).0,
            ) by {
                assert(tail[i - 1] == needs[i]);
            }
        } else {
            let i = choose|i: int|
                0 <= i < tail.len() && !present.contains((#[trigger] tail[i]).0);
            assert(!present.contains(needs[i + 1].0));
        }
    }
}

proof fn lemma_met(needs: Seq<(Seq<char>, Seq<char>)>, present: Seq<Seq<char>>, i: int)
    requires
        unmet(needs, present).len() == 0,
        0 <= i < needs.len(),
    ensures
        present.contains(needs[i].0),
    decreases needs.len(),
{
    if i > 0 {
        assert(needs.skip(1)[i - 1] == needs[i]);
        lemma_met(needs.skip(1), present, i - 1);
    }
}

/// A wrapper that is accepted finds everything that it needs in the prefix.
pub proof fn law_accepted_wrappers_resolve(
    needs: Seq<(Seq<char>, Seq<char>)>,
    present: Seq<Seq<char>>,
)
    requires
        unmet(needs, present).len() == 0,
    ensures
        forall|i: int| 0 <= i < needs.len() ==> present.contains((#[trigger] needs[i]).0),
{
    assert forall|i: int| 0 <= i < needs.len() implies present.contains(
        (#[trigger] needs[i]).0,
    ) by {
        lemma_met(needs, present, i);
    }
}

// ── One staged file ──

/// A wrapper as it stands in the prefix.
#[derive(Debug)]
pub struct Rewritten {
    pub text: String,
    pub shape: WrapperShape,
    /// The file that was kept beside it.
    pub sibling: String,
    /// The package that brought it.
    pub pkg: String,
}

/// Whether a wrapper stands where it finds the root: three names deep, under
/// `usr`.
pub open spec fn well_placed(rel: Seq<char>) -> bool {
    parts(rel, '/').len() == 3 && after_prefix(rel, "usr/"@) is Some
}

/// The name under which the file was kept that a wrapper stands in for.
pub open spec fn kept_name(rel: Seq<char>) -> Seq<char> {
    last_part(rel, "/"@) + ".real"@
}

/// The text of a wrapper in the prefix.
pub open spec fn rewritten_text(rel: Seq<char>, text: Seq<char>) -> Seq<char> {
    replaced(
        joined(
            all_replaced(parts(stripped(text), '\n'), sibling_ref(kept_name(rel))),
            "\n"@,
        ),
        PYTHONPATH_SCRUB@,
        PYTHONPATH_KEEP@,
    )
}

/// Rewrites a staged file, where it is one of this project's wrappers. Any
/// other file is left alone. A wrapper that stands where it would not find the
/// root is refused.
pub fn rewrite_file(rel: &str, text: &str, owner: Option<&str>) -> (r: Result<
    Option<Rewritten>,
    String,
>)
    ensures
        match shape_of(text@) {
            None => r matches Ok(o) && o is None,
            Some(shape) => if well_placed(rel@) {
                (r matches Ok(Some(w)) && w.text@ == rewritten_text(rel@, text@) && w.shape == shape
                    && w.sibling@ == kept_name(rel@) && w.pkg@ == (match owner {
                    Some(p) => p@,
                    None => Seq::empty(),
                }))
            } else {
                (r matches Err(e) && e@ == refusal(
                    rel@,
                    named(opt_str(owner)),
                    "wrapper placement is not usr/<dir>/<name>; the prefix-root derivation does not hold there"@,
                ))
            },
        },
{
    let shape = match classify_wrapper(text) {
        None => {
            return Ok(None);
        },
        Some(s) => s,
    };
    let names = split_char(rel, '/');
    assert(texts(names@).len() == names@.len());
    if names.len() != 3 || !starts_with(rel, "usr/") {
        let pkg = match owner {
            Some(p) => p,
            None => "an earlier payload",
        };
        return Err(
            unresolvable(
                rel,
                pkg,
                "wrapper placement is not usr/<dir>/<name>; the prefix-root derivation does not hold there",
            ),
        );
    }
    let mut sibling = after_last(rel, "/");
    sibling.append(".real");
    let bare = strip_extension_segments(text);
    let local = rewrite_blob_execs(bare.as_str(), sibling.as_str());
    let text = preserve_caller_pythonpath(local.as_str());
    let pkg = match owner {
        Some(p) => p.to_owned(),
        None => {
            let e = String::new();
            assert(e@ =~= Seq::<char>::empty());
            e
        },
    };
    Ok(Some(Rewritten { text, shape, sibling, pkg }))
}

/// The text of a file that begins as a wrapper does. Binaries, data and other
/// scripts have none.
pub fn wrapper_text(bytes: Vec<u8>) -> (r: Option<String>)
    ensures
        opt_text(r) == (if vstd::utf8::valid_utf8(bytes@) && after_prefix(
            vstd::utf8::decode_utf8(bytes@),
            WRAPPER_MAGIC@,
        ) is Some {
            Some(vstd::utf8::decode_utf8(bytes@))
        } else {
            None
        }),
{
    match utf8_text(bytes) {
        Err(_) => None,
        Ok(s) => {
            proof {
                vstd::utf8::encode_utf8_decode_utf8(s@);
            }
            if starts_with(s.as_str(), WRAPPER_MAGIC) {
                Some(s)
            } else {
                None
            }
        },
    }
}

// ── Laws ──

/// What happens to every kind of entry: a new path is brought; directories
/// merge, also where a link leads to one; the same file and the same link stay;
/// and anything else is refused.
pub proof fn law_entries_merge_by_kind(node: Node, at: Occupant)
    ensures
        merged(node, at) == match (node, at) {
            (Node::Dir, Occupant::Nothing) => Some(MergeAction::Descend),
            (Node::Link(_), Occupant::Nothing) => Some(MergeAction::Link),
            (Node::File, Occupant::Nothing) => Some(MergeAction::Copy),
            (Node::Dir, Occupant::Dir) => Some(MergeAction::Descend),
            (Node::Dir, Occupant::Link { target, dir }) => if dir {
                Some(MergeAction::Descend)
            } else {
                None
            },
            (Node::File, Occupant::File { same }) => if same {
                Some(MergeAction::Keep)
            } else {
                None
            },
            (Node::Link(a), Occupant::Link { target, dir }) => if same_path(target@, a@) {
                Some(MergeAction::Keep)
            } else {
                None
            },
            _ => None,
        },
{
}

/// Only the packaging subtree at the root and the info index are left out.
pub proof fn law_only_packaging_is_left_out(rel: Seq<char>, name: Seq<char>)
    requires
        !name.contains('/'),
        name.len() > 0,
    ensures
        left_out(rel, name) <==> (rel.len() == 0 && name == "meta"@) || (rel == "usr/share/info"@
            && name == "dir"@),
{
    reveal_strlit("/");
    reveal_strlit("dir");
    reveal_strlit("usr/share/info");
    reveal_strlit("usr/share/info/dir");
    let all = "usr/share/info/dir"@;
    let dir = "usr/share/info"@;
    assert("/"@ =~= seq!['/']);
    assert(all =~= dir + seq!['/'] + "dir"@);
    assert(!"dir"@.contains('/'));
    if child_path(rel, name) == all {
        if rel.len() == 0 {
            assert(all[3] == '/');
            assert(name.contains(name[3]));
        } else {
            law_cut_at_the_last(rel, '/', name);
            law_cut_at_the_last(dir, '/', "dir"@);
        }
    }
}

/// The file kept beside a wrapper stands in the wrapper's directory, under the
/// wrapper's name with `.real` behind it.
pub proof fn law_kept_files_stand_beside_the_wrapper(dir: Seq<char>, name: Seq<char>)
    requires
        !name.contains('/'),
        name.len() > 0,
        dir.len() > 0,
        dir.last() != '/',
    ensures
        kept_name(dir + seq!['/'] + name) == name + ".real"@,
        sibling_path(dir + seq!['/'] + name, name + ".real"@) == dir + seq!['/'] + name + ".real"@,
{
    reveal_strlit("/");
    assert("/"@ =~= seq!['/']);
    law_cut_at_the_last(dir, '/', name);
    let sibling = name + ".real"@;
    assert(sibling[0] == name[0]);
    assert(name.contains(name[0]));
    assert(path_in(dir, sibling) =~= dir + seq!['/'] + name + ".real"@);
}

/// Whatever a wrapper of the store runs, it needs the file that was kept beside
/// it: among the needs of every wrapper but a tree's is that file's path.
pub proof fn law_store_wrappers_need_what_was_kept(
    dir: Seq<char>,
    name: Seq<char>,
    shape: WrapperShape,
    text: Seq<char>,
    names: Seq<char>,
    present: Seq<Seq<char>>,
)
    requires
        shape is Lib || shape is Flat,
        !name.contains('/'),
        name.len() > 0,
        dir.len() > 0,
        dir.last() != '/',
        forall|i: int|
            0 <= i < wrapper_needs(
                dir + seq!['/'] + name,
                shape,
                text,
                name + ".real"@,
                names,
            ).len() ==> present.contains(
                (#[trigger] wrapper_needs(
                    dir + seq!['/'] + name,
                    shape,
                    text,
                    name + ".real"@,
                    names,
                )[i]).0,
            ),
    ensures
        present.contains(dir + seq!['/'] + name + ".real"@),
{
    law_kept_files_stand_beside_the_wrapper(dir, name);
    let rel = dir + seq!['/'] + name;
    let sibling = name + ".real"@;
    let all = wrapper_needs(rel, shape, text, sibling, names);
    assert(all[0].0 == sibling_path(rel, sibling));
}

/// Whether a path is among needs.
pub open spec fn needed(needs: Seq<(Seq<char>, Seq<char>)>, path: Seq<char>) -> bool {
    exists|i: int| 0 <= i < needs.len() && (#[trigger] needs[i]).0 == path
}

proof fn lemma_needed_sum(
    a: Seq<(Seq<char>, Seq<char>)>,
    b: Seq<(Seq<char>, Seq<char>)>,
    path: Seq<char>,
)
    ensures
        needed(a + b, path) <==> needed(a, path) || needed(b, path),
{
    let s = a + b;
    if needed(a, path) {
        let i = choose|i: int| 0 <= i < a.len() && (#[trigger] a[i]).0 == path;
        assert(s[i].0 == path);
    }
    if needed(b, path) {
        let i = choose|i: int| 0 <= i < b.len() && (#[trigger] b[i]).0 == path;
        assert(s[a.len() + i].0 == path);
    }
    if needed(s, path) {
        let i = choose|i: int| 0 <= i < s.len() && (#[trigger] s[i]).0 == path;
        if i < a.len() {
            assert(a[i].0 == path);
        } else {
            assert(b[i - a.len()].0 == path);
        }
    }
}

proof fn lemma_line_needed(rows: Seq<Seq<char>>, names: Seq<char>, i: int, path: Seq<char>)
    requires
        0 <= i < rows.len(),
        needed(exec_need(rows[i], names), path) || needed(word_needs(root_words(rows[i])), path),
    ensures
        needed(line_needs(rows, names), path),
    decreases rows.len(),
{
    let x = exec_need(rows[0], names);
    let y = word_needs(root_words(rows[0]));
    let more = line_needs(rows.skip(1), names);
    lemma_needed_sum(x, y, path);
    lemma_needed_sum(x + y, more, path);
    if i > 0 {
        assert(rows.skip(1)[i - 1] == rows[i]);
        lemma_line_needed(rows.skip(1), names, i - 1, path);
    }
}

/// A wrapper that runs an interpreter by its bare name needs that program in
/// the prefix.
pub proof fn law_bare_interpreters_are_needed(
    rel: Seq<char>,
    shape: WrapperShape,
    text: Seq<char>,
    sibling: Seq<char>,
    names: Seq<char>,
    i: int,
    word: Seq<char>,
    rest: Seq<char>,
)
    requires
        0 <= i < lines(text).len(),
        lines(text)[i] == "exec "@ + seq!['"'] + word + seq!['"'] + rest,
        !word.contains('"'),
        word.len() == 0 || (word[0] != '$' && word[0] != '/'),
    ensures
        needed(wrapper_needs(rel, shape, text, sibling, names), "usr/bin/"@ + word),
{
    let line = lines(text)[i];
    let args = seq!['"'] + (word + seq!['"'] + rest);
    assert(line =~= "exec "@ + args);
    law_ends_are_taken_off("exec "@, args);
    reveal_strlit("\"");
    assert("\""@ =~= seq!['"']);
    assert(args.skip(1) =~= word + seq!['"'] + rest);
    law_cut_at_the_first(word, '"', rest);
    assert(args[0] == '"');
    let words = quoted_words(args);
    assert(words[0] == word);
    let x = exec_need(line, names);
    assert(x[0].0 == "usr/bin/"@ + word);
    assert(needed(x, "usr/bin/"@ + word));
    lemma_line_needed(lines(text), names, i, "usr/bin/"@ + word);
    lemma_needed_sum(sibling_need(rel, shape, sibling), line_needs(lines(text), names), "usr/bin/"@
        + word);
}

proof fn lemma_root_word(line: Seq<char>, k: int)
    requires
        k % 2 == 1,
        0 <= k,
        k + 1 < parts(line, '"').len(),
        holds(parts(line, '"')[k], "$PODROOT/"@),
    ensures
        root_words(line).contains(parts(line, '"')[k]),
    decreases line.len(),
{
    reveal_strlit("\"");
    assert("\""@ =~= seq!['"']);
    lemma_cut_char(line, '"');
    match cut(line, "\""@) {
        None => {
            law_parts_stand_between_separators(line, '"', line);
        },
        Some(a) => {
            law_parts_stand_between_separators(a.0, '"', a.1);
            lemma_cut_char(a.1, '"');
            match cut(a.1, "\""@) {
                None => {
                    law_parts_stand_between_separators(a.1, '"', a.1);
                },
                Some(b) => {
                    law_parts_stand_between_separators(b.0, '"', b.1);
                    let all = parts(line, '"');
                    assert(all =~= seq![a.0, b.0] + parts(b.1, '"'));
                    if k == 1 {
                        assert(root_words(line)[0] == b.0);
                    } else {
                        assert(all[k] == parts(b.1, '"')[k - 2]);
                        lemma_root_word(b.1, k - 2);
                        let more = root_words(b.1);
                        let j = choose|j: int| 0 <= j < more.len() && more[j] == all[k];
                        if holds(b.0, "$PODROOT/"@) {
                            assert(root_words(line)[j + 1] == all[k]);
                        } else {
                            assert(root_words(line)[j] == all[k]);
                        }
                    }
                },
            }
        },
    }
}

proof fn lemma_piece_needed(pieces: Seq<Seq<char>>, m: int, path: Seq<char>)
    requires
        0 <= m < pieces.len(),
        pieces[m] == "$PODROOT/"@ + path,
        path.len() > 0,
        !holds(path, "*"@),
        !holds(path, "${"@),
    ensures
        needed(piece_needs(pieces), path),
    decreases pieces.len(),
{
    law_ends_are_taken_off("$PODROOT/"@, path);
    let more = piece_needs(pieces.skip(1));
    let all = piece_needs(pieces);
    if m == 0 {
        assert(all[0].0 == path);
    } else {
        assert(pieces.skip(1)[m - 1] == pieces[m]);
        lemma_piece_needed(pieces.skip(1), m - 1, path);
        let j = choose|j: int| 0 <= j < more.len() && (#[trigger] more[j]).0 == path;
        if all == more {
            assert(all[j].0 == path);
        } else {
            assert(all.skip(1) =~= more);
            assert(all[j + 1] == more[j]);
        }
    }
}

proof fn lemma_word_needed(words: Seq<Seq<char>>, word: Seq<char>, path: Seq<char>)
    requires
        words.contains(word),
        needed(piece_needs(parts(word, ':')), path),
    ensures
        needed(word_needs(words), path),
    decreases words.len(),
{
    let k = choose|k: int| 0 <= k < words.len() && words[k] == word;
    lemma_needed_sum(piece_needs(parts(words[0], ':')), word_needs(words.skip(1)), path);
    if k > 0 {
        assert(words.skip(1)[k - 1] == word);
        lemma_word_needed(words.skip(1), word, path);
    }
}

/// Every plain path below the root that a quoted word of a wrapper refers to,
/// alone or in a list with colons, is needed in the prefix. The words in quotes
/// are every second part between the quotes of a line.
pub proof fn law_root_references_are_needed(
    rel: Seq<char>,
    shape: WrapperShape,
    text: Seq<char>,
    sibling: Seq<char>,
    names: Seq<char>,
    i: int,
    k: int,
    m: int,
    path: Seq<char>,
)
    requires
        0 <= i < lines(text).len(),
        k % 2 == 1,
        0 <= k,
        k + 1 < parts(lines(text)[i], '"').len(),
        holds(parts(lines(text)[i], '"')[k], "$PODROOT/"@),
        0 <= m < parts(parts(lines(text)[i], '"')[k], ':').len(),
        parts(parts(lines(text)[i], '"')[k], ':')[m] == "$PODROOT/"@ + path,
        path.len() > 0,
        !holds(path, "*"@),
        !holds(path, "${"@),
    ensures
        needed(wrapper_needs(rel, shape, text, sibling, names), path),
{
    let line = lines(text)[i];
    let word = parts(line, '"')[k];
    lemma_root_word(line, k);
    lemma_piece_needed(parts(word, ':'), m, path);
    lemma_word_needed(root_words(line), word, path);
    lemma_line_needed(lines(text), names, i, path);
    lemma_needed_sum(sibling_need(rel, shape, sibling), line_needs(lines(text), names), path);
}

/// A quoted word behind an `exec` is replaced where it is an absolute path into
/// a store, and kept otherwise; so are all words behind it, one space apart.
pub proof fn law_store_paths_are_replaced(word: Seq<char>, rest: Seq<char>, by: Seq<char>)
    requires
        !word.contains('"'),
    ensures
        blobs_replaced(seq!['"'] + word + seq!['"'] + rest, by) == seq!['"'] + (if word.len() > 0
            && word[0] == '/' && holds(word, "/store/"@) {
            by
        } else {
            word
        }) + seq!['"'] + (if rest.len() > 0 && rest[0] == ' ' {
            seq![' '] + blobs_replaced(rest.skip(1), by)
        } else {
            rest
        }),
{
    let args = seq!['"'] + word + seq!['"'] + rest;
    reveal_strlit("\"");
    reveal_strlit(" ");
    assert("\""@ =~= seq!['"']);
    assert(" "@ =~= seq![' ']);
    assert(args.skip(1) =~= word + seq!['"'] + rest);
    law_cut_at_the_first(word, '"', rest);
}

/// Lines that are no `exec`, and words without a store path, are kept as they
/// are.
pub proof fn law_other_lines_are_kept(line: Seq<char>, by: Seq<char>)
    ensures
        !"exec "@.is_prefix_of(line) ==> exec_replaced(line, by) == line,
        !holds(line, "/store/"@) ==> exec_replaced(line, by) == line,
{
    if "exec "@.is_prefix_of(line) && !holds(line, "/store/"@) {
        let args = line.skip("exec "@.len() as int);
        assert(line =~= "exec "@ + args + Seq::<char>::empty());
        if holds(args, "/store/"@) {
            lemma_holds_part("exec "@, args, Seq::empty(), "/store/"@);
        }
        lemma_no_blobs(args, by);
        assert("exec "@ + args =~= line);
    }
}

proof fn lemma_no_blobs(args: Seq<char>, by: Seq<char>)
    requires
        !holds(args, "/store/"@),
    ensures
        blobs_replaced(args, by) == args,
    decreases args.len(),
{
    reveal_strlit("\"");
    reveal_strlit(" ");
    assert("\""@ =~= seq!['"']);
    if args.len() > 0 && args[0] == '"' {
        lemma_cut_char(args.skip(1), '"');
        match cut(args.skip(1), "\""@) {
            None => {},
            Some(c) => {
                assert(args =~= seq!['"'] + args.skip(1));
                assert(args =~= seq!['"'] + c.0 + (seq!['"'] + c.1));
                if holds(c.0, "/store/"@) {
                    lemma_holds_part(seq!['"'], c.0, seq!['"'] + c.1, "/store/"@);
                }
                if c.1.len() > 0 && c.1[0] == ' ' {
                    let rest = c.1.skip(1);
                    let front = seq!['"'] + c.0 + seq!['"'] + seq![' '];
                    assert(args =~= front + rest + Seq::<char>::empty());
                    if holds(rest, "/store/"@) {
                        lemma_holds_part(front, rest, Seq::empty(), "/store/"@);
                    }
                    lemma_no_blobs(rest, by);
                    assert(args =~= "\""@ + c.0 + "\""@ + (" "@ + rest));
                } else {
                    assert(args =~= "\""@ + c.0 + "\""@ + c.1);
                }
            },
        }
    }
}

/// The tree of a package in a pod's layout is dropped together with the slash
/// before it, and what follows is treated alike.
pub proof fn law_package_trees_are_dropped(a: Seq<char>, pkg: Seq<char>, b: Seq<char>)
    requires
        !pkg.contains('/'),
        find(a + "/active/extensions/"@ + pkg + "/usr"@ + b, "active/extensions/"@) == Some(
            a.len() as int + 1,
        ),
    ensures
        stripped(a + "/active/extensions/"@ + pkg + "/usr"@ + b) == a + stripped(b),
{
    let s = a + "/active/extensions/"@ + pkg + "/usr"@ + b;
    reveal_strlit("/active/extensions/");
    reveal_strlit("active/extensions/");
    reveal_strlit("/usr");
    reveal_strlit("/");
    assert("/"@ =~= seq!['/']);
    let i = (a.len() + 1) as int;
    let after = s.skip(i + 18);
    assert(after =~= pkg + "/usr"@ + b);
    let tail = "usr"@ + b;
    reveal_strlit("usr");
    assert(after =~= pkg + seq!['/'] + tail);
    law_cut_at_the_first(pkg, '/', tail);
    lemma_find_from(after, "/"@, 0);
    assert(find(after, "/"@) == Some(pkg.len() as int)) by {
        let k = find(after, "/"@)->0;
        assert(after.take(k) == pkg);
    }
    assert(after.skip(pkg.len() as int) =~= "/usr"@ + b);
    law_ends_are_taken_off("/usr"@, b);
    assert(pkg_usr_len(after) == Some(pkg.len() as int + 4));
    assert(s[i - 1] == '/');
    assert(s.take(i - 1) =~= a);
    assert(after.skip(pkg.len() as int + 4) =~= b);
}

/// A wrapper stands where it finds the root exactly where it is a file of a
/// directory of `usr`.
pub proof fn law_wrappers_stand_three_deep(dir: Seq<char>, name: Seq<char>)
    requires
        !dir.contains('/'),
        !name.contains('/'),
    ensures
        well_placed("usr"@ + seq!['/'] + (dir + seq!['/'] + name)),
        !well_placed("usr"@ + seq!['/'] + name),
        !well_placed(dir + seq!['/'] + name),
        dir != "usr"@ ==> !well_placed(dir + seq!['/'] + (name + seq!['/'] + name)),
{
    let usr = "usr"@;
    reveal_strlit("usr");
    reveal_strlit("usr/");
    assert("usr/"@ =~= usr + seq!['/']);
    assert(!usr.contains('/'));
    let low = dir + seq!['/'] + name;
    law_parts_stand_between_separators(usr, '/', low);
    law_parts_stand_between_separators(dir, '/', name);
    law_parts_stand_between_separators(name, '/', name);
    law_parts_stand_between_separators(usr, '/', name);
    law_parts_stand_between_separators(dir, '/', name + seq!['/'] + name);
    law_ends_are_taken_off("usr/"@, low);
    assert("usr/"@ + low =~= usr + seq!['/'] + low);
    if dir != usr {
        let s = dir + seq!['/'] + (name + seq!['/'] + name);
        if after_prefix(s, "usr/"@) is Some {
            law_ends_are_taken_off("usr/"@, s);
            let rest = after_prefix(s, "usr/"@)->0;
            assert(s == "usr/"@ + rest);
            assert(s =~= usr + seq!['/'] + rest);
            law_cut_at_the_first(usr, '/', rest);
            law_cut_at_the_first(dir, '/', name + seq!['/'] + name);
        }
    }
}

/// A text of two lines that runs a bare interpreter on a store's path, with the
/// arguments passed on, is recognized.
pub proof fn law_bare_interpreters_are_recognized(
    interp: Seq<char>,
    blob: Seq<char>,
    end: Seq<char>,
)
    requires
        !interp.contains('"') && !interp.contains('\n'),
        !blob.contains('"') && !blob.contains('\n'),
        end.len() == 0 || end == seq!['\n'],
    ensures
        is_flat(
            "#!/bin/sh"@ + seq!['\n'] + ("exec "@ + (seq!['"'] + interp + seq!['"', ' ', '"'] + blob
                + seq!['"', ' ', '"', '$', '@', '"'])) + end,
        ) <==> blob.len() > 0 && blob[0] == '/' && holds(blob, "/store/"@),
{
    let args = seq!['"'] + interp + seq!['"', ' ', '"'] + blob + seq!['"', ' ', '"', '$', '@', '"'];
    let line = "exec "@ + args;
    lemma_flat_words(interp, blob);
    lemma_flat_lines(interp, blob, end);
    law_ends_are_taken_off("exec "@, args);
}

proof fn lemma_flat_lines(interp: Seq<char>, blob: Seq<char>, end: Seq<char>)
    requires
        !interp.contains('\n'),
        !blob.contains('\n'),
        end.len() == 0 || end == seq!['\n'],
    ensures
        ({
            let line = "exec "@ + (seq!['"'] + interp + seq!['"', ' ', '"'] + blob
                + seq!['"', ' ', '"', '$', '@', '"']);
            lines("#!/bin/sh"@ + seq!['\n'] + line + end) == seq!["#!/bin/sh"@, line]
        }),
{
    let args = seq!['"'] + interp + seq!['"', ' ', '"'] + blob + seq!['"', ' ', '"', '$', '@', '"'];
    let line = "exec "@ + args;
    reveal_strlit("#!/bin/sh");
    reveal_strlit("exec ");
    assert(!"#!/bin/sh"@.contains('\n'));
    assert(!line.contains('\n')) by {
        if line.contains('\n') {
            let k = choose|k: int| 0 <= k < line.len() && line[k] == '\n';
            let n = interp.len() as int;
            let b = blob.len() as int;
            if k >= 6 && k < 6 + n {
                assert(interp[k - 6] == '\n');
            } else if k >= 9 + n && k < 9 + n + b {
                assert(blob[k - 9 - n] == '\n');
            }
        }
    }
    let text = "#!/bin/sh"@ + seq!['\n'] + line + end;
    assert(text =~= "#!/bin/sh"@ + seq!['\n'] + (line + end));
    law_lines_end_at_line_feeds("#!/bin/sh"@, line + end);
    law_lines_end_at_line_feeds(line, Seq::empty());
    assert(line.last() == '"');
    if end.len() == 0 {
        assert(line + end =~= line);
    } else {
        assert(line + end =~= line + seq!['\n'] + Seq::<char>::empty());
        assert(seq![line] + lines(Seq::<char>::empty()) =~= seq![line]);
    }
    assert(lines(text) =~= seq!["#!/bin/sh"@, line]);
}

proof fn lemma_flat_words(interp: Seq<char>, blob: Seq<char>)
    requires
        !interp.contains('"'),
        !blob.contains('"'),
    ensures
        quoted_words(
            seq!['"'] + interp + seq!['"', ' ', '"'] + blob + seq!['"', ' ', '"', '$', '@', '"'],
        ) == seq![interp, blob, "$@"@],
{
    let args = seq!['"'] + interp + seq!['"', ' ', '"'] + blob + seq!['"', ' ', '"', '$', '@', '"'];
    reveal_strlit("$@");
    let t3 = seq!['"'] + "$@"@ + seq!['"'] + Seq::<char>::empty();
    let t2 = seq!['"'] + blob + seq!['"'] + (seq![' '] + t3);
    let t1 = seq!['"'] + interp + seq!['"'] + (seq![' '] + t2);
    assert(args =~= t1);
    lemma_quoted_word(interp, seq![' '] + t2);
    lemma_quoted_word(blob, seq![' '] + t3);
    assert(!"$@"@.contains('"'));
    lemma_quoted_word("$@"@, Seq::empty());
    assert((seq![' '] + t2).skip(1) =~= t2);
    assert((seq![' '] + t3).skip(1) =~= t3);
    assert(quoted_words(args) =~= seq![interp, blob, "$@"@]);
}

proof fn lemma_quoted_word(word: Seq<char>, rest: Seq<char>)
    requires
        !word.contains('"'),
    ensures
        quoted_words(seq!['"'] + word + seq!['"'] + rest) == (if rest.len() > 0 && rest[0] == ' ' {
            seq![word] + quoted_words(rest.skip(1))
        } else {
            seq![word]
        }),
{
    let args = seq!['"'] + word + seq!['"'] + rest;
    reveal_strlit("\"");
    assert("\""@ =~= seq!['"']);
    assert(args.skip(1) =~= word + seq!['"'] + rest);
    law_cut_at_the_first(word, '"', rest);
}

/// A wrapper that sets its root by the line of a package tree is one of a tree;
/// one that sets it by the line of a library is one of a library; without either
/// it is flat or no wrapper.
pub proof fn law_root_lines_tell_the_shape(a: Seq<char>, b: Seq<char>)
    ensures
        shape_of(a + TREE_PODROOT_LINE@ + b) == Some(WrapperShape::Tree),
        !holds(a + LIB_PODROOT_LINE@ + b, TREE_PODROOT_LINE@) ==> shape_of(
            a + LIB_PODROOT_LINE@ + b,
        ) == Some(WrapperShape::Lib),
        !holds(a, TREE_PODROOT_LINE@) && !holds(a, LIB_PODROOT_LINE@) ==> (shape_of(a) is Some
            <==> is_flat(a)) && (shape_of(a) is Some ==> shape_of(a)->0 is Flat),
{
    crate::text::law_the_first_place_is_found(a + TREE_PODROOT_LINE@ + b, TREE_PODROOT_LINE@);
    crate::text::law_the_first_place_is_found(a + LIB_PODROOT_LINE@ + b, LIB_PODROOT_LINE@);
    let s = a + TREE_PODROOT_LINE@ + b;
    let t = a + LIB_PODROOT_LINE@ + b;
    let n = a.len() as int;
    assert(s.subrange(n, n + TREE_PODROOT_LINE@.len()) =~= TREE_PODROOT_LINE@);
    assert(t.subrange(n, n + LIB_PODROOT_LINE@.len()) =~= LIB_PODROOT_LINE@);
}

} // verus!
