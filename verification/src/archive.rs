//! The canonical archive of a materialized tree.
//!
//! Entries come by path, with normalized modes, and with no timestamps nor
//! owners, so one tree has one archive. The SHA-256 of the bytes is the
//! closure's hash and its name in the store.
//!
//! ```text
//! F <mode:o> <size> <path>\n<size bytes>
//! L <target_len> <target> <path>\n
//! D <path>\n
//! END\n
//! ```

use crate::digest::{hex_sha256, sha256};
use crate::ordered::Ordered;
use crate::text::{hex_text, utf8_text};
use vstd::prelude::*;
use vstd::utf8::{encode_utf8, valid_utf8};

verus! {

/// One entry of a tree.
#[derive(Debug)]
pub enum TreeKind {
    Dir,
    File { mode: u32, bytes: Vec<u8> },
    Link(String),
}

/// One entry read from an archive, with its path.
#[derive(Debug)]
pub struct TreeEntry {
    pub path: String,
    pub kind: TreeKind,
}

/// The model of an entry: paths and link targets are their UTF-8 bytes.
pub enum EntryView {
    Dir(Seq<u8>),
    File(Seq<u8>, int, Seq<u8>),
    Link(Seq<u8>, Seq<u8>),
}

/// The model of the entry `kind` at `path`.
pub open spec fn entry_view(path: Seq<char>, kind: TreeKind) -> EntryView {
    match kind {
        TreeKind::Dir => EntryView::Dir(encode_utf8(path)),
        TreeKind::File { mode, bytes } => EntryView::File(encode_utf8(path), mode as int, bytes@),
        TreeKind::Link(target) => EntryView::Link(encode_utf8(path), encode_utf8(target@)),
    }
}

impl View for TreeEntry {
    type V = EntryView;

    open spec fn view(&self) -> EntryView {
        entry_view(self.path@, self.kind)
    }
}

/// The models of a list of entries.
pub open spec fn entry_views(v: Seq<TreeEntry>) -> Seq<EntryView> {
    v.map_values(|e: TreeEntry| e@)
}

/// Why bytes are no archive.
#[derive(Debug)]
pub enum ArchiveError {
    Unterminated,
    BadHeader,
    MissingEnd,
    UnknownEntry(String),
    CorruptLink,
    CorruptLinkEntry,
    CorruptFileEntry,
    ShortBody,
}

/// The model of an [`ArchiveError`].
pub enum FaultView {
    Unterminated,
    BadHeader,
    MissingEnd,
    UnknownEntry(Seq<u8>),
    CorruptLink,
    CorruptLinkEntry,
    CorruptFileEntry,
    ShortBody,
}

impl View for ArchiveError {
    type V = FaultView;

    open spec fn view(&self) -> FaultView {
        match *self {
            ArchiveError::Unterminated => FaultView::Unterminated,
            ArchiveError::BadHeader => FaultView::BadHeader,
            ArchiveError::MissingEnd => FaultView::MissingEnd,
            ArchiveError::UnknownEntry(line) => FaultView::UnknownEntry(encode_utf8(line@)),
            ArchiveError::CorruptLink => FaultView::CorruptLink,
            ArchiveError::CorruptLinkEntry => FaultView::CorruptLinkEntry,
            ArchiveError::CorruptFileEntry => FaultView::CorruptFileEntry,
            ArchiveError::ShortBody => FaultView::ShortBody,
        }
    }
}

/// What an error says.
pub open spec fn fault_text(e: ArchiveError) -> Seq<char> {
    match e {
        ArchiveError::Unterminated => "corrupt closure archive: unterminated entry"@,
        ArchiveError::BadHeader => "corrupt closure archive: bad header"@,
        ArchiveError::MissingEnd => "corrupt closure archive: missing END marker"@,
        ArchiveError::UnknownEntry(line) => "corrupt closure archive: unknown entry '"@ + line@
            + "'"@,
        ArchiveError::CorruptLink => "corrupt link"@,
        ArchiveError::CorruptLinkEntry => "corrupt link entry"@,
        ArchiveError::CorruptFileEntry => "corrupt file entry"@,
        ArchiveError::ShortBody => "corrupt file entry: short body"@,
    }
}

impl ArchiveError {
    /// What the error says.
    pub fn message(&self) -> (r: String)
        ensures
            r@ == fault_text(*self),
    {
        match self {
            ArchiveError::Unterminated => "corrupt closure archive: unterminated entry".to_owned(),
            ArchiveError::BadHeader => "corrupt closure archive: bad header".to_owned(),
            ArchiveError::MissingEnd => "corrupt closure archive: missing END marker".to_owned(),
            ArchiveError::UnknownEntry(line) => {
                let mut out = "corrupt closure archive: unknown entry '".to_owned();
                out.append(line.as_str());
                out.append("'");
                out
            },
            ArchiveError::CorruptLink => "corrupt link".to_owned(),
            ArchiveError::CorruptLinkEntry => "corrupt link entry".to_owned(),
            ArchiveError::CorruptFileEntry => "corrupt file entry".to_owned(),
            ArchiveError::ShortBody => "corrupt file entry: short body".to_owned(),
        }
    }
}

// ── Numbers ──

/// A number in the given base, as ASCII digits.
pub open spec fn number_bytes(n: nat, base: nat) -> Seq<u8>
    decreases n,
{
    if n < base || base < 2 {
        seq![(48 + n) as u8]
    } else {
        proof {
            assert(n / base < n) by (nonlinear_arith)
                requires
                    n >= base,
                    base >= 2,
            ;
        }
        number_bytes(n / base, base).push((48 + n % base) as u8)
    }
}

/// The value of ASCII digits in the given base, read after `acc`; `None`
/// where a byte is no digit or the value exceeds `max`.
pub open spec fn digits_of(b: Seq<u8>, base: int, acc: int, max: int) -> Option<int>
    decreases b.len(),
{
    if b.len() == 0 {
        Some(acc)
    } else if !(48 <= b[0] < 48 + base) || acc * base + (b[0] - 48) > max {
        None
    } else {
        digits_of(b.skip(1), base, acc * base + (b[0] - 48), max)
    }
}

/// The number that bytes spell: digits, at least one, after an optional `+`.
pub open spec fn number_of(b: Seq<u8>, base: int, max: int) -> Option<int> {
    let digits = if b.len() > 0 && b[0] == 43 {
        b.skip(1)
    } else {
        b
    };
    if digits.len() == 0 {
        None
    } else {
        digits_of(digits, base, 0, max)
    }
}

fn push_number(out: &mut Vec<u8>, n: u64, base: u64)
    requires
        2 <= base <= 10,
    ensures
        final(out)@ == old(out)@ + number_bytes(n as nat, base as nat),
    decreases n,
{
    if n < base {
        out.push(48 + n as u8);
        assert(out@ =~= old(out)@ + seq![(48 + n) as u8]);
    } else {
        assert(n / base < n) by (nonlinear_arith)
            requires
                n >= base,
                base >= 2,
        ;
        push_number(out, n / base, base);
        let d: u64 = n % base;
        out.push(48 + d as u8);
        assert(out@ =~= old(out)@ + number_bytes(n as nat, base as nat));
    }
}

/// Reads the number that `b[from..to]` spells.
fn read_number(b: &[u8], from: usize, to: usize, base: u64, max: u64) -> (r: Option<u64>)
    requires
        from <= to <= b.len(),
        2 <= base <= 10,
    ensures
        match r {
            Some(n) => number_of(b@.subrange(from as int, to as int), base as int, max as int)
                == Some(n as int),
            None => number_of(b@.subrange(from as int, to as int), base as int, max as int) is None,
        },
{
    let ghost text = b@.subrange(from as int, to as int);
    let start: usize = if from < to && b[from] == 43 {
        from + 1
    } else {
        from
    };
    if start == to {
        return None;
    }
    let ghost digits = b@.subrange(start as int, to as int);
    assert(digits =~= if text.len() > 0 && text[0] == 43 {
        text.skip(1)
    } else {
        text
    });
    let mut acc: u64 = 0;
    let mut i: usize = start;
    while i < to
        invariant
            start <= i <= to <= b.len(),
            2 <= base <= 10,
            acc <= max,
            number_of(text, base as int, max as int) == digits_of(
                b@.subrange(i as int, to as int),
                base as int,
                acc as int,
                max as int,
            ),
            text == b@.subrange(from as int, to as int),
        decreases to - i,
    {
        let ghost rest = b@.subrange(i as int, to as int);
        assert(rest[0] == b@[i as int]);
        assert(rest.skip(1) =~= b@.subrange(i + 1, to as int));
        let c: u8 = b[i];
        if c < 48 || c as u64 >= 48 + base {
            return None;
        }
        assert(acc as int * base as int <= u64::MAX as int * 10) by (nonlinear_arith)
            requires
                acc <= u64::MAX,
                base <= 10,
        ;
        assert(0 <= acc as int * base as int) by (nonlinear_arith)
            requires
                acc >= 0,
                base >= 0,
        ;
        let wide: u128 = acc as u128 * base as u128 + (c - 48) as u128;
        if wide > max as u128 {
            return None;
        }
        acc = wide as u64;
        i += 1;
    }
    assert(b@.subrange(i as int, to as int) =~= Seq::<u8>::empty());
    Some(acc)
}

// ── Writing ──

/// The bytes of one entry.
pub open spec fn entry_bytes(e: EntryView) -> Seq<u8> {
    match e {
        EntryView::Dir(path) => seq![68u8, 32u8] + path + seq![10u8],
        EntryView::Link(path, target) => seq![76u8, 32u8] + number_bytes(target.len(), 10)
            + seq![32u8] + target + seq![32u8] + path + seq![10u8],
        EntryView::File(path, mode, bytes) => seq![70u8, 32u8] + number_bytes(mode as nat, 8)
            + seq![32u8] + number_bytes(bytes.len(), 10) + seq![32u8] + path + seq![10u8] + bytes,
    }
}

/// The archive of a list of entries.
pub open spec fn packed(es: Seq<EntryView>) -> Seq<u8>
    decreases es.len(),
{
    if es.len() == 0 {
        seq![69u8, 78u8, 68u8, 10u8]
    } else {
        entry_bytes(es[0]) + packed(es.skip(1))
    }
}

fn push_entry(out: &mut Vec<u8>, path: &str, kind: &TreeKind)
    ensures
        final(out)@ == old(out)@ + entry_bytes(entry_view(path@, *kind)),
{
    let ghost start = out@;
    match kind {
        TreeKind::Dir => {
            out.push(68);
            out.push(32);
            out.extend_from_slice(path.as_bytes());
            out.push(10);
            assert(out@ =~= start + entry_bytes(entry_view(path@, *kind)));
        },
        TreeKind::Link(target) => {
            let t = target.as_str().as_bytes();
            out.push(76);
            out.push(32);
            push_number(out, t.len() as u64, 10);
            out.push(32);
            out.extend_from_slice(t);
            out.push(32);
            out.extend_from_slice(path.as_bytes());
            out.push(10);
            assert(out@ =~= start + entry_bytes(entry_view(path@, *kind)));
        },
        TreeKind::File { mode, bytes } => {
            out.push(70);
            out.push(32);
            push_number(out, *mode as u64, 8);
            out.push(32);
            push_number(out, bytes.len() as u64, 10);
            out.push(32);
            out.extend_from_slice(path.as_bytes());
            out.push(10);
            out.extend_from_slice(bytes.as_slice());
            assert(out@ =~= start + entry_bytes(entry_view(path@, *kind)));
        },
    }
}

/// Whether `path` leads from its root only downwards: it is not absolute, does
/// not begin with `.`, and no part of it is `..`.
pub open spec fn stays_below(path: Seq<char>) -> bool {
    let ps = crate::text::parts(path, '/');
    &&& !(path.len() > 0 && path[0] == '/')
    &&& ps[0] != "."@
    &&& forall|i: int| 0 <= i < ps.len() ==> #[trigger] ps[i] != ".."@
}

/// Whether a path stays below its root.
pub fn check_rel_path(path: &str) -> (r: bool)
    ensures
        r == stays_below(path@),
{
    let a = crate::text::chars_of(path);
    if a.len() > 0 && a[0] == '/' {
        return false;
    }
    let ps = crate::text::split_char(path, '/');
    let ghost all = crate::text::texts(ps@);
    proof {
        lemma_parts_nonempty(path@, '/', 0, 0);
        assert(all.len() == ps@.len());
        assert(all[0] == ps@[0]@);
    }
    if crate::text::str_eq(ps[0].as_str(), ".") {
        return false;
    }
    let mut i: usize = 0;
    while i < ps.len()
        invariant
            i <= ps.len(),
            all == crate::text::texts(ps@),
            all == crate::text::parts(path@, '/'),
            forall|k: int| 0 <= k < i ==> #[trigger] all[k] != ".."@,
        decreases ps.len() - i,
    {
        assert(all[i as int] == ps@[i as int]@);
        if crate::text::str_eq(ps[i].as_str(), "..") {
            return false;
        }
        i += 1;
    }
    true
}

proof fn lemma_parts_nonempty(s: Seq<char>, c: char, start: int, i: int)
    ensures
        crate::text::parts_from(s, c, start, i).len() > 0,
    decreases s.len() - i,
{
    if i < s.len() {
        lemma_parts_nonempty(s, c, start, i + 1);
    }
}

/// The models of the entries of a tree, by path.
pub open spec fn tree_views(t: Seq<(Seq<char>, TreeKind)>) -> Seq<EntryView> {
    t.map_values(|e: (Seq<char>, TreeKind)| entry_view(e.0, e.1))
}

/// The first path of a tree that leaves its root.
pub open spec fn first_escape(t: Seq<(Seq<char>, TreeKind)>) -> Option<Seq<char>>
    decreases t.len(),
{
    if t.len() == 0 {
        None
    } else if !stays_below(t[0].0) {
        Some(t[0].0)
    } else {
        first_escape(t.skip(1))
    }
}

/// Writes the archive of a tree; refuses a path that leaves the root.
pub fn pack_canonical(tree: &Ordered<TreeKind>) -> (r: Result<Vec<u8>, String>)
    ensures
        match r {
            Ok(b) => first_escape(tree@) is None && b@ == packed(tree_views(tree@)),
            Err(path) => first_escape(tree@) == Some(path@),
        },
{
    let ghost all = tree_views(tree@);
    let mut out: Vec<u8> = Vec::new();
    let mut i: usize = 0;
    assert(tree@.skip(0) =~= tree@);
    assert(all.skip(0) =~= all);
    assert(Seq::<u8>::empty() + packed(all) =~= packed(all));
    while i < tree.len()
        invariant
            i <= tree@.len(),
            all == tree_views(tree@),
            first_escape(tree@) == first_escape(tree@.skip(i as int)),
            out@ + packed(all.skip(i as int)) == packed(all),
        decreases tree@.len() - i,
    {
        assert(tree@.skip(i as int)[0] == tree@[i as int]);
        assert(tree@.skip(i as int).skip(1) =~= tree@.skip(i + 1));
        assert(all.skip(i as int)[0] == all[i as int]);
        assert(all.skip(i as int).skip(1) =~= all.skip(i + 1));
        if !check_rel_path(tree.key_at(i).as_str()) {
            return Err(tree.key_at(i).clone());
        }
        let ghost before = out@;
        push_entry(&mut out, tree.key_at(i).as_str(), tree.value_at(i));
        assert(before + (entry_bytes(all[i as int]) + packed(all.skip(i + 1))) =~= out@ + packed(
            all.skip(i + 1),
        ));
        i += 1;
    }
    assert(all.skip(i as int) =~= Seq::<EntryView>::empty());
    let ghost before = out@;
    out.push(69);
    out.push(78);
    out.push(68);
    out.push(10);
    assert(out@ =~= before + packed(all.skip(i as int)));
    Ok(out)
}

/// A file's mode in an archive: any execute bit gives `755`, else `644`.
pub open spec fn normal_mode(mode: u32) -> u32 {
    if mode & 0o111 != 0 {
        0o755
    } else {
        0o644
    }
}

/// A file's mode in an archive.
pub fn archive_mode(mode: u32) -> (r: u32)
    ensures
        r == normal_mode(mode),
{
    if mode & 0o111 != 0 {
        0o755
    } else {
        0o644
    }
}

/// Whether a path can be archived: it holds no line break.
pub fn can_archive(path: &str) -> (r: bool)
    ensures
        r == (!crate::text::holds(path@, "\n"@) && !crate::text::holds(path@, "\r"@)),
{
    !crate::text::contains(path, "\n") && !crate::text::contains(path, "\r")
}

/// The hash of an archive: its name in the store.
pub fn closure_hash(bytes: &[u8]) -> (r: String)
    ensures
        r@ == hex_text(sha256(bytes@)),
{
    hex_sha256(bytes)
}

// ── Reading ──

/// The first position at or after `i` of a byte.
pub open spec fn byte_from(b: Seq<u8>, x: u8, i: int) -> Option<int>
    decreases b.len() - i,
{
    if i < 0 || i >= b.len() {
        None
    } else if b[i] == x {
        Some(i)
    } else {
        byte_from(b, x, i + 1)
    }
}

/// The entry that a link's header spells behind `L `.
pub open spec fn link_entry(rest: Seq<u8>) -> Result<EntryView, FaultView> {
    match byte_from(rest, 32, 0) {
        None => Err(FaultView::CorruptLinkEntry),
        Some(sp) => match number_of(rest.take(sp), 10, usize::MAX as int) {
            None => Err(FaultView::CorruptLinkEntry),
            Some(n) => {
                let r = rest.skip(sp + 1);
                if n + 1 > r.len() || !valid_utf8(r.take(n)) || !valid_utf8(r.skip(n + 1)) {
                    Err(FaultView::CorruptLinkEntry)
                } else {
                    Ok(EntryView::Link(r.skip(n + 1), r.take(n)))
                }
            },
        },
    }
}

/// The mode, the size and the path that a file's header spells behind `F `.
pub open spec fn file_header(rest: Seq<u8>) -> Result<(int, int, Seq<u8>), FaultView> {
    match byte_from(rest, 32, 0) {
        None => Err(FaultView::CorruptFileEntry),
        Some(sp) => {
            let tail = rest.skip(sp + 1);
            let sp2 = byte_from(tail, 32, 0);
            let size_text = match sp2 {
                None => tail,
                Some(k) => tail.take(k),
            };
            let path = match sp2 {
                None => Seq::empty(),
                Some(k) => tail.skip(k + 1),
            };
            match (
                number_of(rest.take(sp), 8, u32::MAX as int),
                number_of(size_text, 10, usize::MAX as int),
            ) {
                (Some(m), Some(n)) => Ok((m, n, path)),
                _ => Err(FaultView::CorruptFileEntry),
            }
        },
    }
}

/// Whether a header line is of the kind `c`: the byte alone or before a space.
pub open spec fn is_kind(line: Seq<u8>, c: u8) -> bool {
    line.len() > 0 && line[0] == c && (line.len() == 1 || line[1] == 32)
}

/// The entry of a header line with the bytes that follow it, and how many of
/// them it takes.
pub open spec fn entry_of(line: Seq<u8>, body: Seq<u8>) -> Result<(EntryView, int), FaultView> {
    if is_kind(line, 68) {
        Ok(
            (
                EntryView::Dir(
                    if line.len() == 1 {
                        Seq::empty()
                    } else {
                        line.skip(2)
                    },
                ),
                0,
            ),
        )
    } else if is_kind(line, 76) {
        if line.len() == 1 {
            Err(FaultView::CorruptLink)
        } else {
            match link_entry(line.skip(2)) {
                Err(f) => Err(f),
                Ok(e) => Ok((e, 0)),
            }
        }
    } else if is_kind(line, 70) {
        if line.len() == 1 {
            Err(FaultView::CorruptFileEntry)
        } else {
            match file_header(line.skip(2)) {
                Err(f) => Err(f),
                Ok(h) => if h.1 > body.len() {
                    Err(FaultView::ShortBody)
                } else {
                    Ok((EntryView::File(h.2, h.0, body.take(h.1)), h.1))
                },
            }
        }
    } else {
        Err(FaultView::UnknownEntry(line))
    }
}

/// The entries of an archive, or why the bytes are none.
pub open spec fn unpacked(b: Seq<u8>) -> Result<Seq<EntryView>, FaultView>
    decreases b.len(),
{
    if b.len() == 0 {
        Err(FaultView::MissingEnd)
    } else {
        match byte_from(b, 10, 0) {
            None => Err(FaultView::Unterminated),
            Some(nl) => {
                let line = b.take(nl);
                let body = b.skip(nl + 1);
                if !valid_utf8(line) {
                    Err(FaultView::BadHeader)
                } else if line == seq![69u8, 78u8, 68u8] {
                    Ok(Seq::empty())
                } else {
                    match entry_of(line, body) {
                        Err(f) => Err(f),
                        Ok(e) => {
                            let rest = body.skip(e.1);
                            if rest.len() < b.len() {
                                match unpacked(rest) {
                                    Err(f) => Err(f),
                                    Ok(es) => Ok(seq![e.0] + es),
                                }
                            } else {
                                Err(FaultView::MissingEnd)
                            }
                        },
                    }
                }
            },
        }
    }
}

/// The first position at or after `from` of a byte.
fn find_byte(b: &[u8], x: u8, from: usize, to: usize) -> (r: Option<usize>)
    requires
        from <= to <= b.len(),
    ensures
        match r {
            Some(i) => from <= i < to && byte_from(b@.subrange(from as int, to as int), x, 0)
                == Some(i - from),
            None => byte_from(b@.subrange(from as int, to as int), x, 0) is None,
        },
{
    let ghost part = b@.subrange(from as int, to as int);
    let mut i: usize = from;
    while i < to
        invariant
            from <= i <= to <= b.len(),
            part == b@.subrange(from as int, to as int),
            byte_from(part, x, 0) == byte_from(part, x, i - from),
        decreases to - i,
    {
        assert(part[i - from] == b@[i as int]);
        if b[i] == x {
            return Some(i);
        }
        i += 1;
    }
    None
}

proof fn lemma_byte_from(b: Seq<u8>, x: u8, i: int)
    requires
        0 <= i,
    ensures
        match byte_from(b, x, i) {
            Some(k) => i <= k < b.len() && b[k] == x && forall|j: int|
                i <= j < k ==> #[trigger] b[j] != x,
            None => forall|j: int| i <= j < b.len() ==> #[trigger] b[j] != x,
        },
    decreases b.len() - i,
{
    if i < b.len() && b[i] != x {
        lemma_byte_from(b, x, i + 1);
    }
}

/// A first position is determined by what stands there and before it.
proof fn lemma_byte_at(b: Seq<u8>, x: u8, k: int)
    requires
        0 <= k < b.len(),
        b[k] == x,
        forall|j: int| 0 <= j < k ==> #[trigger] b[j] != x,
    ensures
        byte_from(b, x, 0) == Some(k),
{
    lemma_byte_from(b, x, 0);
    match byte_from(b, x, 0) {
        Some(i) => {
            if i < k {
                assert(b[i] != x);
            } else if k < i {
                assert(b[k] != x);
            }
        },
        None => {
            assert(b[k] != x);
        },
    }
}

/// Cut at an ASCII byte, UTF-8 falls into UTF-8 before it and behind it.
proof fn lemma_cut_at_ascii(b: Seq<u8>, i: int)
    requires
        valid_utf8(b),
        0 <= i < b.len(),
        b[i] < 128,
    ensures
        valid_utf8(b.take(i)),
        valid_utf8(b.skip(i + 1)),
    decreases b.len(),
{
    let n = vstd::utf8::length_of_first_scalar(b);
    let rest = vstd::utf8::pop_first_scalar(b);
    assert(rest =~= b.skip(n));
    if i == 0 {
        assert(n == 1);
    } else {
        assert(n <= i) by {
            assert(1 <= n <= 4);
            assert(1 < n ==> vstd::utf8::is_continuation_byte(b[1]));
            assert(2 < n ==> vstd::utf8::is_continuation_byte(b[2]));
            assert(3 < n ==> vstd::utf8::is_continuation_byte(b[3]));
        }
        assert(rest[i - n] == b[i]);
        lemma_cut_at_ascii(rest, i - n);
        assert(rest.skip(i - n + 1) =~= b.skip(i + 1));
        let head = b.take(i);
        assert(vstd::utf8::valid_first_scalar(head));
        assert(vstd::utf8::pop_first_scalar(head) =~= rest.take(i - n));
    }
}

/// The text of `b[from..to]`, where it is UTF-8.
fn text_of(b: &[u8], from: usize, to: usize) -> (r: Option<String>)
    requires
        from <= to <= b.len(),
    ensures
        match r {
            Some(s) => encode_utf8(s@) == b@.subrange(from as int, to as int) && valid_utf8(
                b@.subrange(from as int, to as int),
            ),
            None => !valid_utf8(b@.subrange(from as int, to as int)),
        },
{
    let mut out: Vec<u8> = Vec::new();
    let mut i: usize = from;
    while i < to
        invariant
            from <= i <= to <= b.len(),
            out@ == b@.subrange(from as int, i as int),
        decreases to - i,
    {
        out.push(b[i]);
        i += 1;
        assert(out@ =~= b@.subrange(from as int, i as int));
    }
    match utf8_text(out) {
        Ok(s) => Some(s),
        Err(_) => None,
    }
}

/// The bytes `b[from..to]`.
fn bytes_of(b: &[u8], from: usize, to: usize) -> (r: Vec<u8>)
    requires
        from <= to <= b.len(),
    ensures
        r@ == b@.subrange(from as int, to as int),
{
    let mut out: Vec<u8> = Vec::new();
    let mut i: usize = from;
    while i < to
        invariant
            from <= i <= to <= b.len(),
            out@ == b@.subrange(from as int, i as int),
        decreases to - i,
    {
        out.push(b[i]);
        i += 1;
        assert(out@ =~= b@.subrange(from as int, i as int));
    }
    out
}

/// Reads a link's entry from `b[from..to]`, the header behind `L `.
fn unpack_link_entry(b: &[u8], from: usize, to: usize) -> (r: Result<TreeEntry, ArchiveError>)
    requires
        from <= to <= b.len(),
    ensures
        match r {
            Ok(e) => link_entry(b@.subrange(from as int, to as int)) == Ok::<EntryView, FaultView>(e@),
            Err(f) => link_entry(b@.subrange(from as int, to as int)) == Err::<EntryView, FaultView>(f@),
        },
{
    let ghost rest = b@.subrange(from as int, to as int);
    match find_byte(b, 32, from, to) {
        None => Err(ArchiveError::CorruptLinkEntry),
        Some(sp) => {
            assert(rest.take(sp - from) =~= b@.subrange(from as int, sp as int));
            assert(rest.skip(sp - from + 1) =~= b@.subrange(sp + 1, to as int));
            let ghost r = rest.skip(sp - from + 1);
            match read_number(b, from, sp, 10, usize::MAX as u64) {
                None => Err(ArchiveError::CorruptLinkEntry),
                Some(n) => {
                    let left: usize = to - sp - 1;
                    if n >= left as u64 {
                        return Err(ArchiveError::CorruptLinkEntry);
                    }
                    let n: usize = n as usize;
                    let mid: usize = sp + 1 + n;
                    assert(r.take(n as int) =~= b@.subrange(sp + 1, mid as int));
                    assert(r.skip(n + 1) =~= b@.subrange(mid + 1, to as int));
                    match (text_of(b, sp + 1, mid), text_of(b, mid + 1, to)) {
                        (Some(target), Some(path)) => Ok(
                            TreeEntry { path, kind: TreeKind::Link(target) },
                        ),
                        _ => Err(ArchiveError::CorruptLinkEntry),
                    }
                },
            }
        },
    }
}

/// Reads a file's entry from `b[from..to]`, the header behind `F `, and the
/// bytes behind `to`; and how many of them it takes.
fn unpack_file_entry(b: &[u8], from: usize, to: usize) -> (r: Result<
    (TreeEntry, usize),
    ArchiveError,
>)
    requires
        from <= to < b.len(),
        valid_utf8(b@.subrange(from as int, to as int)),
    ensures
        ({
            let h = file_header(b@.subrange(from as int, to as int));
            let body = b@.skip(to + 1);
            match r {
                Ok(e) => h is Ok && h->Ok_0.1 <= body.len() && e.1 == h->Ok_0.1 && e.0@
                    == EntryView::File(h->Ok_0.2, h->Ok_0.0, body.take(h->Ok_0.1)),
                Err(f) => match h {
                    Ok(x) => x.1 > body.len() && f@ == FaultView::ShortBody,
                    Err(g) => f@ == g,
                },
            }
        }),
{
    let ghost rest = b@.subrange(from as int, to as int);
    let ghost body = b@.skip(to + 1);
    let sp = match find_byte(b, 32, from, to) {
        None => {
            return Err(ArchiveError::CorruptFileEntry);
        },
        Some(sp) => sp,
    };
    let ghost tail = rest.skip(sp - from + 1);
    proof {
        lemma_byte_from(rest, 32, 0);
        lemma_cut_at_ascii(rest, sp - from);
        lemma_byte_from(tail, 32, 0);
        assert(rest.take(sp - from) =~= b@.subrange(from as int, sp as int));
        assert(tail =~= b@.subrange(sp + 1, to as int));
    }
    let second = find_byte(b, 32, sp + 1, to);
    let (size_end, path_start): (usize, usize) = match second {
        None => (to, to),
        Some(k) => (k, k + 1),
    };
    proof {
        match second {
            None => {
                assert(b@.subrange(to as int, to as int) =~= Seq::<u8>::empty());
            },
            Some(k) => {
                let at = k - (sp + 1);
                lemma_cut_at_ascii(tail, at);
                assert(tail.take(at) =~= b@.subrange(sp + 1, k as int));
                assert(tail.skip(at + 1) =~= b@.subrange(k + 1, to as int));
            },
        }
    }
    match (
        read_number(b, from, sp, 8, u32::MAX as u64),
        read_number(b, sp + 1, size_end, 10, usize::MAX as u64),
    ) {
        (Some(mode), Some(size)) => {
            proof {
                lemma_number_bound(b@.subrange(from as int, sp as int), 8, u32::MAX as int);
                lemma_number_bound(b@.subrange(sp + 1, size_end as int), 10, usize::MAX as int);
            }
            let left: usize = b.len() - to - 1;
            if size > left as u64 {
                return Err(ArchiveError::ShortBody);
            }
            let size: usize = size as usize;
            let bytes = bytes_of(b, to + 1, to + 1 + size);
            assert(bytes@ =~= body.take(size as int));
            match text_of(b, path_start, to) {
                Some(path) => Ok(
                    (
                        TreeEntry { path, kind: TreeKind::File { mode: mode as u32, bytes } },
                        size,
                    ),
                ),
                None => {
                    assert(false);
                    Err(ArchiveError::BadHeader)
                },
            }
        },
        _ => Err(ArchiveError::CorruptFileEntry),
    }
}

proof fn lemma_digits_bound(b: Seq<u8>, base: int, acc: int, max: int)
    requires
        0 <= acc <= max,
        0 <= base,
    ensures
        digits_of(b, base, acc, max) matches Some(n) ==> 0 <= n <= max,
    decreases b.len(),
{
    if b.len() > 0 && 48 <= b[0] < 48 + base && acc * base + (b[0] - 48) <= max {
        assert(acc * base >= 0) by (nonlinear_arith)
            requires
                acc >= 0,
                base >= 0,
        ;
        lemma_digits_bound(b.skip(1), base, acc * base + (b[0] - 48), max);
    }
}

proof fn lemma_number_bound(b: Seq<u8>, base: int, max: int)
    requires
        0 <= max,
        0 <= base,
    ensures
        number_of(b, base, max) matches Some(n) ==> 0 <= n <= max,
{
    lemma_digits_bound(b, base, 0, max);
    lemma_digits_bound(b.skip(1), base, 0, max);
}

/// Reads the entry of the header line `b[from..to]` with the bytes behind it;
/// and how many of them it takes.
fn unpack_entry(b: &[u8], from: usize, to: usize) -> (r: Result<(TreeEntry, usize), ArchiveError>)
    requires
        from <= to < b.len(),
        valid_utf8(b@.subrange(from as int, to as int)),
    ensures
        match r {
            Ok(e) => entry_of(b@.subrange(from as int, to as int), b@.skip(to + 1))
                == Ok::<(EntryView, int), FaultView>((e.0@, e.1 as int)) && e.1 <= b.len() - to - 1,
            Err(f) => entry_of(b@.subrange(from as int, to as int), b@.skip(to + 1))
                == Err::<(EntryView, int), FaultView>(f@),
        },
{
    let ghost line = b@.subrange(from as int, to as int);
    let len: usize = to - from;
    let alone: bool = len == 1;
    if len == 0 || !(alone || b[from + 1] == 32) || !(b[from] == 68 || b[from] == 76 || b[from]
        == 70) {
        return match text_of(b, from, to) {
            Some(s) => Err(ArchiveError::UnknownEntry(s)),
            None => {
                assert(false);
                Err(ArchiveError::BadHeader)
            },
        };
    }
    assert(line[0] == b@[from as int]);
    proof {
        if !alone {
            assert(line[1] == b@[from + 1]);
            lemma_cut_at_ascii(line, 1);
            assert(line.skip(2) =~= b@.subrange(from + 2, to as int));
        }
    }
    let c: u8 = b[from];
    if c == 68 {
        let start: usize = if alone {
            to
        } else {
            from + 2
        };
        assert(alone ==> b@.subrange(start as int, to as int) =~= Seq::<u8>::empty());
        match text_of(b, start, to) {
            Some(path) => Ok((TreeEntry { path, kind: TreeKind::Dir }, 0)),
            None => {
                assert(false);
                Err(ArchiveError::BadHeader)
            },
        }
    } else if c == 76 {
        if alone {
            return Err(ArchiveError::CorruptLink);
        }
        match unpack_link_entry(b, from + 2, to) {
            Ok(e) => Ok((e, 0)),
            Err(f) => Err(f),
        }
    } else {
        if alone {
            return Err(ArchiveError::CorruptFileEntry);
        }
        unpack_file_entry(b, from + 2, to)
    }
}

/// Reads an archive: its entries, in order.
pub fn unpack_canonical(b: &[u8]) -> (r: Result<Vec<TreeEntry>, ArchiveError>)
    ensures
        match r {
            Ok(es) => unpacked(b@) == Ok::<Seq<EntryView>, FaultView>(entry_views(es@)),
            Err(f) => unpacked(b@) == Err::<Seq<EntryView>, FaultView>(f@),
        },
{
    let mut out: Vec<TreeEntry> = Vec::new();
    let mut pos: usize = 0;
    assert(b@.skip(0) =~= b@);
    while pos < b.len()
        invariant
            pos <= b.len(),
            unpacked(b@) == continued(entry_views(out@), unpacked(b@.skip(pos as int))),
        decreases b.len() - pos,
    {
        let ghost here = b@.skip(pos as int);
        assert(here =~= b@.subrange(pos as int, b@.len() as int));
        let nl: usize = match find_byte(b, 10, pos, b.len()) {
            None => {
                return Err(ArchiveError::Unterminated);
            },
            Some(nl) => nl,
        };
        let ghost line = here.take(nl - pos);
        assert(line =~= b@.subrange(pos as int, nl as int));
        let ghost body = here.skip(nl - pos + 1);
        assert(body =~= b@.skip(nl + 1));
        match text_of(b, pos, nl) {
            None => {
                return Err(ArchiveError::BadHeader);
            },
            Some(_) => {},
        }
        if nl - pos == 3 && b[pos] == 69 && b[pos + 1] == 78 && b[pos + 2] == 68 {
            assert(line =~= seq![69u8, 78u8, 68u8]);
            assert(entry_views(out@) + Seq::<EntryView>::empty() =~= entry_views(out@));
            return Ok(out);
        }
        assert(line != seq![69u8, 78u8, 68u8]) by {
            if line == seq![69u8, 78u8, 68u8] {
                assert(line[0] == b@[pos as int]);
                assert(line[1] == b@[pos + 1]);
                assert(line[2] == b@[pos + 2]);
            }
        }
        match unpack_entry(b, pos, nl) {
            Err(f) => {
                return Err(f);
            },
            Ok((e, used)) => {
                let ghost before = out@;
                let ghost v = e@;
                out.push(e);
                pos = nl + 1 + used;
                proof {
                    assert(body.skip(used as int) =~= b@.skip(pos as int));
                    assert(entry_views(out@) =~= entry_views(before).push(v));
                    let rest = unpacked(b@.skip(pos as int));
                    match rest {
                        Ok(es) => {
                            assert(entry_views(before) + (seq![v] + es) =~= entry_views(out@) + es);
                        },
                        Err(_) => {},
                    }
                }
            },
        }
    }
    Err(ArchiveError::MissingEnd)
}

/// What was read, followed by what the rest holds.
pub open spec fn continued(
    done: Seq<EntryView>,
    rest: Result<Seq<EntryView>, FaultView>,
) -> Result<Seq<EntryView>, FaultView> {
    match rest {
        Ok(es) => Ok(done + es),
        Err(f) => Err(f),
    }
}

// ── Laws ──

/// Whether an entry can be archived: its path, and a link's target, are UTF-8
/// without a line break, and its numbers are a machine's.
pub open spec fn storable(e: EntryView) -> bool {
    match e {
        EntryView::Dir(path) => is_line(path),
        EntryView::File(path, mode, bytes) => is_line(path) && 0 <= mode <= u32::MAX && bytes.len()
            <= usize::MAX,
        EntryView::Link(path, target) => is_line(path) && is_line(target) && target.len()
            <= usize::MAX,
    }
}

/// Whether bytes are UTF-8 without a line break.
pub open spec fn is_line(b: Seq<u8>) -> bool {
    valid_utf8(b) && forall|i: int| 0 <= i < b.len() ==> #[trigger] b[i] != 10
}

spec fn are_digits(b: Seq<u8>, base: int) -> bool {
    b.len() > 0 && forall|i: int| 0 <= i < b.len() ==> 48 <= #[trigger] b[i] < 48 + base
}

proof fn lemma_digits_push(b: Seq<u8>, d: u8, base: int, acc: int, n: int, max: int)
    requires
        are_digits(b.push(d), base),
        0 <= acc,
        0 <= base,
        digits_of(b, base, acc, max) == Some(n),
        n * base + (d - 48) <= max,
    ensures
        digits_of(b.push(d), base, acc, max) == Some(n * base + (d - 48)),
    decreases b.len(),
{
    let all = b.push(d);
    if b.len() == 0 {
        assert(all[0] == d);
        assert(all.skip(1) =~= Seq::<u8>::empty());
        assert(n == acc);
        assert(digits_of(all.skip(1), base, acc * base + (d - 48), max) == Some(
            acc * base + (d - 48),
        ));
    } else {
        assert(all[0] == b[0]);
        assert(all.skip(1) =~= b.skip(1).push(d));
        assert forall|i: int| 0 <= i < all.skip(1).len() implies 48 <= #[trigger] all.skip(1)[i]
            < 48 + base by {
            assert(all.skip(1)[i] == all[i + 1]);
        }
        assert(acc * base >= 0) by (nonlinear_arith)
            requires
                acc >= 0,
                base >= 0,
        ;
        lemma_digits_push(b.skip(1), d, base, acc * base + (b[0] - 48), n, max);
    }
}

proof fn lemma_number_bytes(n: nat, base: nat, max: int)
    requires
        2 <= base <= 10,
        n <= max,
    ensures
        are_digits(number_bytes(n, base), base as int),
        digits_of(number_bytes(n, base), base as int, 0, max) == Some(n as int),
    decreases n,
{
    if n < base {
        let b = seq![(48 + n) as u8];
        assert(b.skip(1) =~= Seq::<u8>::empty());
        assert(digits_of(b.skip(1), base as int, n as int, max) == Some(n as int));
    } else {
        let q = n / base;
        let d = (48 + n % base) as u8;
        assert(q < n && q * base + n % base == n) by (nonlinear_arith)
            requires
                n >= base,
                base >= 2,
                q == n / base,
        ;
        lemma_number_bytes(q, base, max);
        lemma_digits_push(number_bytes(q, base), d, base as int, 0, q as int, max);
    }
}

proof fn lemma_number_reads(n: nat, base: nat, max: int)
    requires
        2 <= base <= 10,
        n <= max,
    ensures
        are_digits(number_bytes(n, base), base as int),
        number_of(number_bytes(n, base), base as int, max) == Some(n as int),
        valid_utf8(number_bytes(n, base)),
{
    lemma_number_bytes(n, base, max);
    lemma_ascii(number_bytes(n, base));
}

proof fn lemma_ascii(b: Seq<u8>)
    requires
        forall|i: int| 0 <= i < b.len() ==> #[trigger] b[i] < 128,
    ensures
        valid_utf8(b),
    decreases b.len(),
{
    if b.len() > 0 {
        assert(b[0] < 128);
        let x = b[0];
        assert((x & 0x7f) as u32 == x as u32) by (bit_vector)
            requires
                x < 128,
        ;
        assert(vstd::utf8::valid_first_scalar(b));
        let rest = vstd::utf8::pop_first_scalar(b);
        assert forall|i: int| 0 <= i < rest.len() implies #[trigger] rest[i] < 128 by {
            assert(rest[i] == b[i + 1]);
        }
        lemma_ascii(rest);
    }
}

/// The header line of an entry, without its line break.
spec fn header_of(e: EntryView) -> Seq<u8> {
    match e {
        EntryView::Dir(path) => seq![68u8, 32u8] + path,
        EntryView::Link(path, target) => seq![76u8, 32u8] + (number_bytes(target.len(), 10)
            + seq![32u8] + target + seq![32u8] + path),
        EntryView::File(path, mode, bytes) => seq![70u8, 32u8] + (number_bytes(mode as nat, 8)
            + seq![32u8] + (number_bytes(bytes.len(), 10) + seq![32u8] + path)),
    }
}

spec fn body_of(e: EntryView) -> Seq<u8> {
    match e {
        EntryView::File(_, _, bytes) => bytes,
        _ => Seq::empty(),
    }
}

proof fn lemma_entry_splits(e: EntryView)
    ensures
        entry_bytes(e) == header_of(e) + seq![10u8] + body_of(e),
{
    assert(entry_bytes(e) =~= header_of(e) + seq![10u8] + body_of(e));
}

proof fn lemma_line_joins(a: Seq<u8>, b: Seq<u8>)
    requires
        is_line(a),
        is_line(b),
    ensures
        is_line(a + b),
{
    vstd::utf8::valid_utf8_concat(a, b);
}

proof fn lemma_header_is_line(e: EntryView)
    requires
        storable(e),
    ensures
        is_line(header_of(e)),
{
    lemma_ascii(seq![68u8, 32u8]);
    lemma_ascii(seq![76u8, 32u8]);
    lemma_ascii(seq![70u8, 32u8]);
    lemma_ascii(seq![32u8]);
    let space = seq![32u8];
    match e {
        EntryView::Dir(path) => {
            lemma_line_joins(seq![68u8, 32u8], path);
        },
        EntryView::Link(path, target) => {
            let n = number_bytes(target.len(), 10);
            lemma_number_reads(target.len(), 10, usize::MAX as int);
            lemma_line_joins(n, space);
            lemma_line_joins(n + space, target);
            lemma_line_joins(n + space + target, space);
            lemma_line_joins(n + space + target + space, path);
            lemma_line_joins(seq![76u8, 32u8], n + space + target + space + path);
        },
        EntryView::File(path, mode, bytes) => {
            let m = number_bytes(mode as nat, 8);
            let n = number_bytes(bytes.len(), 10);
            lemma_number_reads(mode as nat, 8, u32::MAX as int);
            lemma_number_reads(bytes.len(), 10, usize::MAX as int);
            lemma_line_joins(n, space);
            lemma_line_joins(n + space, path);
            lemma_line_joins(m, space);
            lemma_line_joins(m + space, n + space + path);
            lemma_line_joins(seq![70u8, 32u8], m + space + (n + space + path));
        },
    }
}

/// Digits, a space and more: the first space ends the digits.
proof fn lemma_digits_end(n: Seq<u8>, base: int, more: Seq<u8>)
    requires
        are_digits(n, base),
        0 <= base,
    ensures
        byte_from(n + seq![32u8] + more, 32, 0) == Some(n.len() as int),
        (n + seq![32u8] + more).take(n.len() as int) == n,
        (n + seq![32u8] + more).skip((n.len() + 1) as int) == more,
{
    let all = n + seq![32u8] + more;
    assert forall|j: int| 0 <= j < n.len() implies #[trigger] all[j] != 32 by {
        assert(all[j] == n[j]);
    }
    lemma_byte_at(all, 32, n.len() as int);
    assert(all.take(n.len() as int) =~= n);
    assert(all.skip((n.len() + 1) as int) =~= more);
}

proof fn lemma_entry_reads(e: EntryView, more: Seq<u8>)
    requires
        storable(e),
    ensures
        entry_of(header_of(e), body_of(e) + more) == Ok::<(EntryView, int), FaultView>(
            (e, body_of(e).len() as int),
        ),
{
    let line = header_of(e);
    match e {
        EntryView::Dir(path) => {
            assert(line.skip(2) =~= path);
        },
        EntryView::Link(path, target) => {
            let n = number_bytes(target.len(), 10);
            let r = target + seq![32u8] + path;
            lemma_number_reads(target.len(), 10, usize::MAX as int);
            lemma_digits_end(n, 10, r);
            assert(line.skip(2) =~= n + seq![32u8] + r);
            assert(r.take(target.len() as int) =~= target);
            assert(r.skip((target.len() + 1) as int) =~= path);
        },
        EntryView::File(path, mode, bytes) => {
            let m = number_bytes(mode as nat, 8);
            let n = number_bytes(bytes.len(), 10);
            let tail = n + seq![32u8] + path;
            lemma_number_reads(mode as nat, 8, u32::MAX as int);
            lemma_number_reads(bytes.len(), 10, usize::MAX as int);
            lemma_digits_end(m, 8, tail);
            lemma_digits_end(n, 10, path);
            assert(line.skip(2) =~= m + seq![32u8] + tail);
            assert((bytes + more).take(bytes.len() as int) =~= bytes);
        },
    }
}

/// A line, its line break and more: the first line break ends the line.
proof fn lemma_line_ends(line: Seq<u8>, more: Seq<u8>)
    requires
        is_line(line),
    ensures
        byte_from(line + seq![10u8] + more, 10, 0) == Some(line.len() as int),
        (line + seq![10u8] + more).take(line.len() as int) == line,
        (line + seq![10u8] + more).skip((line.len() + 1) as int) == more,
{
    let all = line + seq![10u8] + more;
    assert forall|j: int| 0 <= j < line.len() implies #[trigger] all[j] != 10 by {
        assert(all[j] == line[j]);
    }
    lemma_byte_at(all, 10, line.len() as int);
    assert(all.take(line.len() as int) =~= line);
    assert(all.skip((line.len() + 1) as int) =~= more);
}

/// What was packed is what is unpacked: reading an archive gives back the
/// entries it was written from, in their order.
#[verifier::spinoff_prover]
#[verifier::rlimit(40)]
pub proof fn law_unpacking_gives_back_what_was_packed(es: Seq<EntryView>)
    requires
        forall|i: int| 0 <= i < es.len() ==> storable(#[trigger] es[i]),
    ensures
        unpacked(packed(es)) == Ok::<Seq<EntryView>, FaultView>(es),
    decreases es.len(),
{
    let all = packed(es);
    if es.len() == 0 {
        lemma_ascii(seq![69u8, 78u8, 68u8]);
        lemma_byte_at(all, 10, 3);
        assert(all.take(3) =~= seq![69u8, 78u8, 68u8]);
        assert(es =~= Seq::<EntryView>::empty());
    } else {
        let e = es[0];
        let rest = packed(es.skip(1));
        let line = header_of(e);
        lemma_entry_splits(e);
        lemma_header_is_line(e);
        assert(all =~= line + seq![10u8] + (body_of(e) + rest));
        lemma_line_ends(line, body_of(e) + rest);
        lemma_entry_reads(e, rest);
        assert(line[1] == 32);
        assert((body_of(e) + rest).skip(body_of(e).len() as int) =~= rest);
        assert forall|i: int| 0 <= i < es.skip(1).len() implies storable(
            #[trigger] es.skip(1)[i],
        ) by {
            assert(es.skip(1)[i] == es[i + 1]);
        }
        law_unpacking_gives_back_what_was_packed(es.skip(1));
        assert(seq![e] + es.skip(1) =~= es);
    }
}

/// One tree, one archive: trees with one archive hold the same entries.
pub proof fn law_archives_are_told_apart(a: Seq<EntryView>, b: Seq<EntryView>)
    requires
        forall|i: int| 0 <= i < a.len() ==> storable(#[trigger] a[i]),
        forall|i: int| 0 <= i < b.len() ==> storable(#[trigger] b[i]),
        packed(a) == packed(b),
    ensures
        a == b,
{
    law_unpacking_gives_back_what_was_packed(a);
    law_unpacking_gives_back_what_was_packed(b);
}

/// A path stays below its root exactly where it is not absolute, does not begin
/// with a dot, and has no two dots between its slashes.
pub proof fn law_paths_without_two_dots_stay_below(v: Seq<Seq<char>>)
    requires
        v.len() > 0,
        forall|i: int| 0 <= i < v.len() ==> !(#[trigger] v[i]).contains('/'),
    ensures
        stays_below(crate::text::joined(v, seq!['/'])) <==> {
            &&& !(v.len() > 1 && v[0].len() == 0)
            &&& v[0] != "."@
            &&& forall|i: int| 0 <= i < v.len() ==> #[trigger] v[i] != ".."@
        },
{
    let s = crate::text::joined(v, seq!['/']);
    crate::text::law_joined_texts_are_split_again(v, '/');
    if v.len() > 1 {
        crate::text::lemma_joined_first(v, seq!['/']);
    }
    if v[0].len() > 0 {
        assert(v[0].contains(v[0][0]));
        assert(s[0] == v[0][0]);
    }
}

/// The first path that leaves the root is named; a tree is packed where none
/// does.
pub proof fn law_the_first_escape_is_named(t: Seq<(Seq<char>, TreeKind)>)
    ensures
        match first_escape(t) {
            Some(p) => exists|i: int|
                0 <= i < t.len() && (#[trigger] t[i]).0 == p && !stays_below(p) && forall|j: int|
                    0 <= j < i ==> stays_below((#[trigger] t[j]).0),
            None => forall|j: int| 0 <= j < t.len() ==> stays_below((#[trigger] t[j]).0),
        },
    decreases t.len(),
{
    if t.len() > 0 {
        let tail = t.skip(1);
        if !stays_below(t[0].0) {
            assert(t[0].0 == t[0].0);
        } else {
            law_the_first_escape_is_named(tail);
            match first_escape(tail) {
                Some(p) => {
                    let i = choose|i: int|
                        0 <= i < tail.len() && (#[trigger] tail[i]).0 == p && !stays_below(p)
                            && forall|j: int| 0 <= j < i ==> stays_below((#[trigger] tail[j]).0);
                    assert(t[i + 1] == tail[i]);
                    assert forall|j: int| 0 <= j < i + 1 implies stays_below(
                        (#[trigger] t[j]).0,
                    ) by {
                        if j > 0 {
                            assert(tail[j - 1] == t[j]);
                        }
                    }
                },
                None => {
                    assert forall|j: int| 0 <= j < t.len() implies stays_below(
                        (#[trigger] t[j]).0,
                    ) by {
                        if j > 0 {
                            assert(tail[j - 1] == t[j]);
                        }
                    }
                },
            }
        }
    }
}

/// A file that anyone may execute is archived as one that everyone may; any
/// other as one that nobody may; and an archived mode is archived as it is.
pub proof fn law_execute_bits_are_kept(mode: u32)
    ensures
        normal_mode(mode | 0o100) == 0o755,
        normal_mode(mode | 0o010) == 0o755,
        normal_mode(mode | 0o001) == 0o755,
        normal_mode(mode & !0o111) == 0o644,
        normal_mode(normal_mode(mode)) == normal_mode(mode),
{
    assert((mode | 0o100) & 0o111 != 0) by (bit_vector);
    assert((mode | 0o010) & 0o111 != 0) by (bit_vector);
    assert((mode | 0o001) & 0o111 != 0) by (bit_vector);
    assert((mode & !0o111) & 0o111 == 0) by (bit_vector);
    assert(0o755u32 & 0o111 != 0) by (bit_vector);
    assert(0o644u32 & 0o111 == 0) by (bit_vector);
}

} // verus!
