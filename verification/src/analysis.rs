//! What a definition must pass before the analyzer sees it: no comment that
//! downgrades the analyzer, a source that parses, and requires that can be
//! resolved. Also where an output key is declared.
//!
//! Positions are lines and columns, both counted from one.

use crate::ordered::{lookup, Ordered};
use crate::text::{
    chars_of, decimal, lemma_texts_push, list_contains, opt_str, opt_text, str_eq, texts,
    to_decimal,
};
use full_moon::ast::{
    Call, Expression, Field, FunctionArgs, FunctionCall, LastStmt, Prefix, Suffix, VarExpression,
};
use full_moon::node::Node;
use full_moon::tokenizer::{Lexer, LexerResult, TokenType};
use full_moon::visitors::Visitor;
use vstd::prelude::*;
use vstd::utf8::encode_utf8;

verus! {

/// The version of these rules.
pub const RULESET_VERSION: &'static str = "1";

/// How many modules are asked for during one check.
pub const MAX_SEED_MODULES: usize = 64;

/// What is said of a require that is not a string literal.
pub const LITERAL_REQUIRE_MESSAGE: &'static str = "require argument must be a string literal";

/// Where a diagnostic stands. The last column is exclusive.
#[derive(Debug, Clone, Copy, PartialEq, Eq, Structural)]
pub struct Span {
    pub begin_line: u32,
    pub begin_col: u32,
    pub end_line: u32,
    pub end_col: u32,
}

/// A diagnostic, of these rules or of the analyzer.
#[derive(Debug)]
pub struct Diagnostic {
    pub begin_line: u32,
    pub begin_col: u32,
    pub end_line: u32,
    pub end_col: u32,
    pub message: String,
}

/// The model of a [`Diagnostic`].
pub struct DiagnosticView {
    pub span: Span,
    pub message: Seq<char>,
}

impl View for Diagnostic {
    type V = DiagnosticView;

    open spec fn view(&self) -> DiagnosticView {
        DiagnosticView {
            span: Span {
                begin_line: self.begin_line,
                begin_col: self.begin_col,
                end_line: self.end_line,
                end_col: self.end_col,
            },
            message: self.message@,
        }
    }
}

impl Diagnostic {
    /// Where the diagnostic stands.
    pub fn span(&self) -> (r: Span)
        ensures
            r == self@.span,
    {
        Span {
            begin_line: self.begin_line,
            begin_col: self.begin_col,
            end_line: self.end_line,
            end_col: self.end_col,
        }
    }
}

/// The place of a diagnostic that concerns the source as a whole.
pub open spec fn whole() -> Span {
    Span { begin_line: 1, begin_col: 1, end_line: 1, end_col: 0 }
}

/// A diagnostic that concerns the source as a whole.
pub open spec fn of_whole(message: Seq<char>) -> DiagnosticView {
    DiagnosticView { span: whole(), message }
}

fn about_whole(message: String) -> (r: Diagnostic)
    ensures
        r@ == of_whole(message@),
{
    Diagnostic { begin_line: 1, begin_col: 1, end_line: 1, end_col: 0, message }
}

// ── Comments that downgrade the analyzer ──

/// Whether a byte belongs to a word.
pub open spec fn is_word_byte(c: u8) -> bool {
    (0x30 <= c <= 0x39) || (0x41 <= c <= 0x5a) || (0x61 <= c <= 0x7a) || c == 0x5f
}

/// Where the word that begins at `i` ends.
pub open spec fn word_end(b: Seq<u8>, i: int) -> int
    decreases b.len() - i,
{
    if 0 <= i < b.len() && is_word_byte(b[i]) {
        word_end(b, i + 1)
    } else {
        i
    }
}

/// The word behind a `--!` that ends at `i`, if space or the end follows it.
pub open spec fn hot_word(b: Seq<u8>, i: int) -> Option<Seq<u8>> {
    let e = word_end(b, i);
    if e == i || (e < b.len() && b[e] != 0x20 && b[e] != 0x09 && b[e] != 0x0d && b[e] != 0x0a) {
        None
    } else {
        Some(b.subrange(i, e))
    }
}

/// Whether two dashes stand at `i`.
pub open spec fn dashes_at(b: Seq<u8>, i: int) -> bool {
    0 <= i && i + 1 < b.len() && b[i] == 0x2d && b[i + 1] == 0x2d
}

/// The word that downgrades the analyzer in a comment at `i`.
pub open spec fn downgrade_at(b: Seq<u8>, i: int) -> Option<Seq<char>> {
    if dashes_at(b, i) && i + 2 < b.len() && b[i + 2] == 0x21 {
        let w = hot_word(b, i + 3);
        if w == Some(encode_utf8("nonstrict"@)) {
            Some("nonstrict"@)
        } else if w == Some(encode_utf8("nocheck"@)) {
            Some("nocheck"@)
        } else {
            None
        }
    } else {
        None
    }
}

/// Where the line ends that `i` is on: at its newline.
pub open spec fn line_end(b: Seq<u8>, i: int) -> int
    decreases b.len() - i,
{
    if 0 <= i < b.len() && b[i] != 0x0a {
        line_end(b, i + 1)
    } else {
        i
    }
}

/// Where a quoted string ends whose interior begins at `i`: behind its quote,
/// or at the end of the line. A backslash takes the next byte with it.
pub open spec fn quoted_end(b: Seq<u8>, i: int, quote: u8) -> int
    decreases b.len() - i,
{
    if i < 0 || i >= b.len() {
        i
    } else if b[i] == 0x5c {
        if i + 1 < b.len() {
            quoted_end(b, i + 2, quote)
        } else {
            i + 1
        }
    } else if b[i] == quote {
        i + 1
    } else if b[i] == 0x0a {
        i
    } else {
        quoted_end(b, i + 1, quote)
    }
}

/// Where the equals signs end that begin at `i`.
pub open spec fn equals_end(b: Seq<u8>, i: int) -> int
    decreases b.len() - i,
{
    if 0 <= i < b.len() && b[i] == 0x3d {
        equals_end(b, i + 1)
    } else {
        i
    }
}

/// The level of the long bracket that opens at `i`: how many equals signs stand
/// between its two brackets.
pub open spec fn long_level(b: Seq<u8>, i: int) -> Option<int> {
    if 0 <= i < b.len() && b[i] == 0x5b {
        let e = equals_end(b, i + 1);
        if e < b.len() && b[e] == 0x5b {
            Some(e - i - 1)
        } else {
            None
        }
    } else {
        None
    }
}

/// Whether a long bracket of a level closes at `i`.
pub open spec fn closes_at(b: Seq<u8>, i: int, level: int) -> bool {
    0 <= i && i + level + 1 < b.len() && b[i] == 0x5d && equals_end(b, i + 1) == i + 1 + level
        && b[i + level + 1] == 0x5d
}

/// Where a long bracket ends whose interior begins at `i`: behind the closing
/// bracket of its level, or at the end of the source.
pub open spec fn long_end(b: Seq<u8>, i: int, level: int) -> int
    decreases b.len() - i,
{
    if i < 0 || i >= b.len() {
        b.len() as int
    } else if closes_at(b, i, level) {
        i + level + 2
    } else {
        long_end(b, i + 1, level)
    }
}

/// Where the piece of source ends that begins at `i`: a comment, a string, a
/// long bracket, or a single byte.
pub open spec fn piece_end(b: Seq<u8>, i: int) -> int {
    if dashes_at(b, i) {
        match long_level(b, i + 2) {
            Some(n) => long_end(b, i + n + 4, n),
            None => line_end(b, i),
        }
    } else if b[i] == 0x22 || b[i] == 0x27 {
        quoted_end(b, i + 1, b[i])
    } else {
        match long_level(b, i) {
            Some(n) => long_end(b, i + n + 2, n),
            None => i + 1,
        }
    }
}

/// The first comment from `i` on that downgrades the analyzer, outside strings
/// and long brackets, and its word.
pub open spec fn first_downgrade(b: Seq<u8>, i: int) -> Option<(int, Seq<char>)>
    decreases b.len() - i,
{
    if i < 0 || i >= b.len() {
        None
    } else {
        match downgrade_at(b, i) {
            Some(w) => Some((i, w)),
            None => if i < piece_end(b, i) <= b.len() {
                first_downgrade(b, piece_end(b, i))
            } else {
                None
            },
        }
    }
}

/// How many newlines stand before `i`.
pub open spec fn newlines(b: Seq<u8>, i: int) -> int
    decreases i,
{
    if i <= 0 {
        0
    } else {
        newlines(b, i - 1) + (if b[i - 1] == 0x0a {
            1int
        } else {
            0
        })
    }
}

/// Where the line begins that `i` is on.
pub open spec fn line_start(b: Seq<u8>, i: int) -> int
    decreases i,
{
    if i <= 0 {
        0
    } else if b[i - 1] == 0x0a {
        i
    } else {
        line_start(b, i - 1)
    }
}

/// The line of a byte.
pub open spec fn line_of(b: Seq<u8>, i: int) -> u32 {
    (newlines(b, i) + 1) as u32
}

/// The column of a byte.
pub open spec fn col_of(b: Seq<u8>, i: int) -> u32 {
    (i - line_start(b, i) + 1) as u32
}

/// What is said of a comment that downgrades the analyzer.
pub open spec fn downgrade_text(word: Seq<char>) -> Seq<char> {
    "definition downgrades the analyzer gate with hot comment '--!"@ + word
        + "': strictness is host-controlled; remove the comment (--!strict is allowed)"@
}

/// What is said of the first comment that downgrades the analyzer.
pub open spec fn downgrade_of(b: Seq<u8>) -> Option<DiagnosticView> {
    match first_downgrade(b, 0) {
        None => None,
        Some(f) => Some(
            DiagnosticView {
                span: Span {
                    begin_line: line_of(b, f.0),
                    begin_col: col_of(b, f.0),
                    end_line: line_of(b, f.0),
                    end_col: 0,
                },
                message: downgrade_text(f.1),
            },
        ),
    }
}

/// The model of an optional diagnostic.
pub open spec fn diagnostic_view(o: Option<Diagnostic>) -> Option<DiagnosticView> {
    match o {
        Some(d) => Some(d@),
        None => None,
    }
}

proof fn lemma_word_end(b: Seq<u8>, i: int)
    requires
        0 <= i <= b.len(),
    ensures
        i <= word_end(b, i) <= b.len(),
    decreases b.len() - i,
{
    if i < b.len() && is_word_byte(b[i]) {
        lemma_word_end(b, i + 1);
    }
}

fn bytes_are(b: &[u8], from: usize, to: usize, word: &str) -> (r: bool)
    requires
        from <= to <= b@.len(),
    ensures
        r == (b@.subrange(from as int, to as int) == encode_utf8(word@)),
{
    let w = word.as_bytes();
    let ghost part = b@.subrange(from as int, to as int);
    if w.len() != to - from {
        assert(part.len() != w@.len());
        return false;
    }
    let mut k: usize = 0;
    while k < w.len()
        invariant
            k <= w@.len(),
            from <= to <= b@.len(),
            w@.len() == to - from,
            w@ == encode_utf8(word@),
            part == b@.subrange(from as int, to as int),
            forall|j: int| 0 <= j < k ==> #[trigger] part[j] == w@[j],
        decreases w@.len() - k,
    {
        assert(part[k as int] == b@[from + k]);
        if b[from + k] != w[k] {
            assert(part[k as int] != w@[k as int]);
            return false;
        }
        k += 1;
    }
    assert(part =~= w@);
    true
}

fn downgrade_word(b: &[u8], i: usize) -> (r: Option<&'static str>)
    requires
        i < b@.len(),
    ensures
        match r {
            Some(w) => downgrade_at(b@, i as int) == Some(w@),
            None => downgrade_at(b@, i as int) is None,
        },
{
    let len: usize = b.len();
    if !(len - i > 2 && b[i] == 0x2d && b[i + 1] == 0x2d && b[i + 2] == 0x21) {
        return None;
    }
    let start: usize = i + 3;
    let mut j: usize = start;
    proof {
        lemma_word_end(b@, start as int);
    }
    while j < b.len() && ((0x30 <= b[j] && b[j] <= 0x39) || (0x41 <= b[j] && b[j] <= 0x5a) || (0x61
        <= b[j] && b[j] <= 0x7a) || b[j] == 0x5f)
        invariant
            start <= j <= b@.len(),
            word_end(b@, start as int) == word_end(b@, j as int),
        decreases b@.len() - j,
    {
        j += 1;
    }
    if j == start {
        return None;
    }
    if j < b.len() && b[j] != 0x20 && b[j] != 0x09 && b[j] != 0x0d && b[j] != 0x0a {
        return None;
    }
    if bytes_are(b, start, j, "nonstrict") {
        return Some("nonstrict");
    }
    if bytes_are(b, start, j, "nocheck") {
        return Some("nocheck");
    }
    None
}

fn skip_line_comment(b: &[u8], i: usize) -> (r: usize)
    requires
        i <= b@.len(),
    ensures
        r == line_end(b@, i as int),
        i <= r <= b@.len(),
{
    let mut j: usize = i;
    while j < b.len() && b[j] != 0x0a
        invariant
            i <= j <= b@.len(),
            line_end(b@, i as int) == line_end(b@, j as int),
        decreases b@.len() - j,
    {
        j += 1;
    }
    j
}

fn skip_quoted(b: &[u8], i: usize, quote: u8) -> (r: usize)
    requires
        i <= b@.len(),
    ensures
        r == quoted_end(b@, i as int, quote),
        i <= r <= b@.len(),
{
    let mut j: usize = i;
    while j < b.len()
        invariant
            i <= j <= b@.len(),
            quoted_end(b@, i as int, quote) == quoted_end(b@, j as int, quote),
        decreases b@.len() - j,
    {
        if b[j] == 0x5c {
            if j + 1 < b.len() {
                j += 2;
            } else {
                return j + 1;
            }
        } else if b[j] == quote {
            return j + 1;
        } else if b[j] == 0x0a {
            return j;
        } else {
            j += 1;
        }
    }
    j
}

fn skip_equals(b: &[u8], i: usize) -> (r: usize)
    requires
        i <= b@.len(),
    ensures
        r == equals_end(b@, i as int),
        i <= r <= b@.len(),
{
    let mut j: usize = i;
    while j < b.len() && b[j] == 0x3d
        invariant
            i <= j <= b@.len(),
            equals_end(b@, i as int) == equals_end(b@, j as int),
        decreases b@.len() - j,
    {
        j += 1;
    }
    j
}

fn long_bracket_level(b: &[u8], i: usize) -> (r: Option<usize>)
    requires
        i <= b@.len(),
    ensures
        match r {
            Some(n) => long_level(b@, i as int) == Some(n as int) && i + n + 2 <= b@.len(),
            None => long_level(b@, i as int) is None,
        },
{
    if i >= b.len() || b[i] != 0x5b {
        return None;
    }
    let e = skip_equals(b, i + 1);
    if e < b.len() && b[e] == 0x5b {
        Some(e - i - 1)
    } else {
        None
    }
}

fn skip_long_bracket(b: &[u8], i: usize, level: usize) -> (r: usize)
    requires
        i <= b@.len(),
        level <= b@.len(),
    ensures
        r == long_end(b@, i as int, level as int),
        i <= r <= b@.len(),
{
    let mut j: usize = i;
    while j < b.len()
        invariant
            i <= j <= b@.len(),
            long_end(b@, i as int, level as int) == long_end(b@, j as int, level as int),
        decreases b@.len() - j,
    {
        if b[j] == 0x5d {
            let e = skip_equals(b, j + 1);
            if e - (j + 1) == level && e < b.len() && b[e] == 0x5d {
                return e + 1;
            }
        }
        j += 1;
    }
    j
}

fn skip_piece(b: &[u8], i: usize) -> (r: usize)
    requires
        i < b@.len(),
    ensures
        r == piece_end(b@, i as int),
        i < r <= b@.len(),
{
    let len: usize = b.len();
    if b[i] == 0x2d && len - i > 1 && b[i + 1] == 0x2d {
        match long_bracket_level(b, i + 2) {
            Some(n) => skip_long_bracket(b, i + 2 + n + 2, n),
            None => {
                proof {
                    lemma_line_end(b@, i + 1);
                }
                skip_line_comment(b, i)
            },
        }
    } else if b[i] == 0x22 || b[i] == 0x27 {
        skip_quoted(b, i + 1, b[i])
    } else {
        match long_bracket_level(b, i) {
            Some(n) => skip_long_bracket(b, i + n + 2, n),
            None => i + 1,
        }
    }
}

/// The first comment that downgrades the analyzer, and its word.
pub fn find_mode_downgrade(b: &[u8]) -> (r: Option<(usize, &'static str)>)
    ensures
        match r {
            Some(f) => first_downgrade(b@, 0) == Some((f.0 as int, f.1@)) && f.0 < b@.len(),
            None => first_downgrade(b@, 0) is None,
        },
{
    let mut i: usize = 0;
    while i < b.len()
        invariant
            i <= b@.len(),
            first_downgrade(b@, 0) == first_downgrade(b@, i as int),
        decreases b@.len() - i,
    {
        match downgrade_word(b, i) {
            Some(w) => {
                return Some((i, w));
            },
            None => {},
        }
        i = skip_piece(b, i);
    }
    None
}

fn place_of(b: &[u8], at: usize) -> (r: (u32, u32))
    requires
        at < b@.len(),
    ensures
        r.0 == line_of(b@, at as int),
        r.1 == col_of(b@, at as int),
{
    let len: usize = b.len();
    let mut lines: usize = 0;
    let mut start: usize = 0;
    let mut i: usize = 0;
    while i < at
        invariant
            i <= at < b@.len(),
            lines == newlines(b@, i as int),
            lines <= i,
            start == line_start(b@, i as int),
            start <= i,
        decreases at - i,
    {
        if b[i] == 0x0a {
            lines += 1;
            start = i + 1;
        }
        i += 1;
    }
    assert(at < len);
    ((lines + 1) as u32, (at - start + 1) as u32)
}

/// Refuses a definition that downgrades the analyzer by a comment: strictness is
/// the host's decision. A comment that upgrades it is allowed.
pub fn mode_downgrade_diagnostic(source: &str) -> (r: Option<Diagnostic>)
    ensures
        diagnostic_view(r) == downgrade_of(encode_utf8(source@)),
{
    let b = source.as_bytes();
    match find_mode_downgrade(b) {
        None => None,
        Some((at, word)) => {
            let (line, col) = place_of(b, at);
            let mut message = "definition downgrades the analyzer gate with hot comment '--!".to_owned();
            message.append(word);
            message.append(
                "': strictness is host-controlled; remove the comment (--!strict is allowed)",
            );
            Some(
                Diagnostic { begin_line: line, begin_col: col, end_line: line, end_col: 0, message },
            )
        },
    }
}

/// Where the piece number `k` of a source begins.
pub open spec fn piece_start(b: Seq<u8>, k: nat) -> int
    decreases k,
{
    if k == 0 {
        0
    } else {
        piece_end(b, piece_start(b, (k - 1) as nat))
    }
}

/// A definition that is not refused has no comment that downgrades the
/// analyzer, wherever a piece of it begins.
pub proof fn law_accepted_definitions_stay_strict(b: Seq<u8>, k: nat)
    requires
        first_downgrade(b, 0) is None,
        forall|j: nat| j < k ==> #[trigger] piece_start(b, j) < b.len(),
        piece_start(b, k) < b.len(),
    ensures
        downgrade_at(b, piece_start(b, k)) is None,
{
    lemma_pieces(b, k);
}

proof fn lemma_pieces(b: Seq<u8>, k: nat)
    requires
        forall|j: nat| j < k ==> #[trigger] piece_start(b, j) < b.len(),
        piece_start(b, k) < b.len(),
        first_downgrade(b, 0) is None,
    ensures
        0 <= piece_start(b, k),
        first_downgrade(b, piece_start(b, k)) is None,
        downgrade_at(b, piece_start(b, k)) is None,
    decreases k,
{
    if k > 0 {
        let i = piece_start(b, (k - 1) as nat);
        assert(i < b.len());
        lemma_pieces(b, (k - 1) as nat);
        lemma_piece_end(b, i);
    }
}

proof fn lemma_line_end(b: Seq<u8>, i: int)
    requires
        0 <= i <= b.len(),
    ensures
        i <= line_end(b, i) <= b.len(),
    decreases b.len() - i,
{
    if i < b.len() && b[i] != 0x0a {
        lemma_line_end(b, i + 1);
    }
}

proof fn lemma_quoted_end(b: Seq<u8>, i: int, q: u8)
    requires
        0 <= i <= b.len(),
    ensures
        i <= quoted_end(b, i, q) <= b.len(),
    decreases b.len() - i,
{
    if i < b.len() {
        if b[i] == 0x5c {
            if i + 1 < b.len() {
                lemma_quoted_end(b, i + 2, q);
            }
        } else if b[i] != q && b[i] != 0x0a {
            lemma_quoted_end(b, i + 1, q);
        }
    }
}

proof fn lemma_equals_end(b: Seq<u8>, i: int)
    requires
        0 <= i <= b.len(),
    ensures
        i <= equals_end(b, i) <= b.len(),
    decreases b.len() - i,
{
    if i < b.len() && b[i] == 0x3d {
        lemma_equals_end(b, i + 1);
    }
}

proof fn lemma_long_end(b: Seq<u8>, i: int, level: int)
    requires
        0 <= i <= b.len(),
        0 <= level,
    ensures
        i <= long_end(b, i, level) <= b.len(),
    decreases b.len() - i,
{
    if i < b.len() && !closes_at(b, i, level) {
        lemma_long_end(b, i + 1, level);
    }
}

proof fn lemma_piece_end(b: Seq<u8>, i: int)
    requires
        0 <= i < b.len(),
    ensures
        i < piece_end(b, i) <= b.len(),
{
    if dashes_at(b, i) {
        lemma_equals_end(b, i + 2);
        if i + 3 <= b.len() {
            lemma_equals_end(b, i + 3);
        }
        lemma_line_end(b, i + 1);
        match long_level(b, i + 2) {
            Some(n) => lemma_long_end(b, i + n + 4, n),
            None => {},
        }
    } else if b[i] == 0x22 || b[i] == 0x27 {
        lemma_quoted_end(b, i + 1, b[i]);
    } else {
        lemma_equals_end(b, i + 1);
        match long_level(b, i) {
            Some(n) => lemma_long_end(b, i + n + 2, n),
            None => {},
        }
    }
}

// ── The syntax of a definition ──

/// A range of a source, as the parser reports it: lines and columns from one,
/// the last column one too far.
#[derive(Debug, Clone, Copy, PartialEq, Eq, Structural)]
pub struct SourceRange {
    pub begin_line: usize,
    pub begin_col: usize,
    pub end_line: usize,
    pub end_col: usize,
}

/// The key of a field of a table, and where it stands.
#[derive(Debug)]
pub enum FieldKey {
    /// `name = …`
    Name { name: String, range: Option<SourceRange> },
    /// `[key] = …`, with the contents of a key that is a string literal.
    Computed { literal: Option<String>, range: Option<SourceRange> },
    /// A field without a key, or of a kind that has none yet.
    Other,
}

/// The arguments of a call.
#[derive(Debug)]
pub enum Args {
    /// In parentheses.
    Parens(Vec<Expr>),
    /// A table without parentheses, with the keys of its fields.
    Table(Vec<FieldKey>),
    /// A string literal without parentheses, or a kind that is not known yet.
    Other,
}

/// What follows a name in a chain.
#[derive(Debug)]
pub enum Link {
    /// `f(…)`
    Call(Args),
    /// `x:f(…)`
    Method(Args),
    /// An index, or a kind that is not known yet.
    Other,
}

/// An expression, as far as output keys go.
#[derive(Debug)]
pub enum Expr {
    /// An expression in parentheses.
    Paren(Box<Expr>),
    /// A call, or a chain of calls.
    Call(Vec<Link>),
    /// A table, with the keys of its fields.
    Table(Vec<FieldKey>),
    /// Anything else.
    Other,
}

/// The arguments of a call, as far as a require goes.
#[derive(Debug)]
pub enum CallArgs {
    /// In parentheses: of each argument its text, where it is a string literal.
    Parens(Vec<Option<String>>),
    /// A string literal without parentheses.
    Text(String),
    /// Anything else.
    Other,
}

/// A link of a chain that is a plain call: its arguments, and the line and
/// column where they end, one column too far.
#[derive(Debug)]
pub struct PlainCall {
    pub args: CallArgs,
    pub end: Option<(usize, usize)>,
}

/// A call, or a chain that begins with one, somewhere in a source.
#[derive(Debug)]
pub struct CallSite {
    /// What the chain begins with, where it is a name, and the line and column
    /// where the name begins.
    pub name: Option<(String, (usize, usize))>,
    /// The links of the chain; those that are plain calls with what they are.
    pub links: Vec<Option<PlainCall>>,
}

/// The model of [`CallArgs`].
pub enum CallArgsView {
    Parens(Seq<Option<Seq<char>>>),
    Text(Seq<char>),
    Other,
}

/// The model of a [`PlainCall`].
pub struct PlainCallView {
    pub args: CallArgsView,
    pub end: Option<(usize, usize)>,
}

/// The model of a [`CallSite`].
pub struct CallSiteView {
    pub name: Option<(Seq<char>, (usize, usize))>,
    pub links: Seq<Option<PlainCallView>>,
}

/// The model of arguments of a call.
pub open spec fn call_args_view(a: CallArgs) -> CallArgsView {
    match a {
        CallArgs::Parens(v) => CallArgsView::Parens(
            v@.map_values(|o: Option<String>| opt_text(o)),
        ),
        CallArgs::Text(t) => CallArgsView::Text(t@),
        CallArgs::Other => CallArgsView::Other,
    }
}

/// The model of a link.
pub open spec fn plain_call_view(o: Option<PlainCall>) -> Option<PlainCallView> {
    match o {
        Some(c) => Some(PlainCallView { args: call_args_view(c.args), end: c.end }),
        None => None,
    }
}

/// The model of a call site.
pub open spec fn site_view(s: CallSite) -> CallSiteView {
    CallSiteView {
        name: match s.name {
            Some(n) => Some((n.0@, n.1)),
            None => None,
        },
        links: s.links@.map_values(|o: Option<PlainCall>| plain_call_view(o)),
    }
}

/// The models of call sites.
pub open spec fn site_views(v: Seq<CallSite>) -> Seq<CallSiteView> {
    v.map_values(|s: CallSite| site_view(s))
}

/// What a source that parses holds: the values of its last `return`, and its
/// calls in the order in which they stand.
#[derive(Debug)]
pub struct LuauSource {
    pub values: Vec<Expr>,
    pub calls: Vec<CallSite>,
}

/// What a parser says of a source that it cannot read.
#[derive(Debug)]
pub struct ParseFault {
    pub text: String,
    /// The line, where the tokenizer failed.
    pub line: Option<usize>,
}

/// What a tokenizer makes of a piece of a source.
#[derive(Debug)]
pub enum LexedToken {
    /// A token.
    Sound,
    /// A token that was mended, and its faults.
    Mended(Vec<ParseFault>),
    /// No token, and its faults.
    Broken(Vec<ParseFault>),
}

/// The model of a [`LexedToken`].
pub enum LexedView {
    Sound,
    Mended(Seq<(Seq<char>, Option<usize>)>),
    Broken(Seq<(Seq<char>, Option<usize>)>),
}

/// The models of faults.
pub open spec fn fault_views(v: Seq<ParseFault>) -> Seq<(Seq<char>, Option<usize>)> {
    v.map_values(|f: ParseFault| (f.text@, f.line))
}

impl View for LexedToken {
    type V = LexedView;

    open spec fn view(&self) -> LexedView {
        match *self {
            LexedToken::Sound => LexedView::Sound,
            LexedToken::Mended(v) => LexedView::Mended(fault_views(v@)),
            LexedToken::Broken(v) => LexedView::Broken(fault_views(v@)),
        }
    }
}

/// The models of tokens.
pub open spec fn lexed_views(v: Seq<LexedToken>) -> Seq<LexedView> {
    v.map_values(|t: LexedToken| t@)
}

/// The faults of a token.
pub open spec fn faults_of(t: LexedView) -> Seq<(Seq<char>, Option<usize>)> {
    match t {
        LexedView::Sound => Seq::empty(),
        LexedView::Mended(f) => f,
        LexedView::Broken(f) => f,
    }
}

/// The first fault among tokens.
pub open spec fn first_fault(v: Seq<LexedView>) -> Option<(Seq<char>, Option<usize>)>
    decreases v.len(),
{
    if v.len() == 0 {
        None
    } else if faults_of(v[0]).len() > 0 {
        Some(faults_of(v[0])[0])
    } else {
        first_fault(v.skip(1))
    }
}

/// Whether a parser can go through tokens: there is one, if only the end of the
/// source, and none is broken.
pub open spec fn readable(v: Seq<LexedView>) -> bool {
    v.len() > 0 && forall|i: int| 0 <= i < v.len() ==> !((#[trigger] v[i]) is Broken)
}

/// The model of a [`FieldKey`].
pub enum FieldKeyView {
    Name(Seq<char>, Option<SourceRange>),
    Computed(Option<Seq<char>>, Option<SourceRange>),
    Other,
}

impl View for FieldKey {
    type V = FieldKeyView;

    open spec fn view(&self) -> FieldKeyView {
        match *self {
            FieldKey::Name { name, range } => FieldKeyView::Name(name@, range),
            FieldKey::Computed { literal, range } => FieldKeyView::Computed(
                opt_text(literal),
                range,
            ),
            FieldKey::Other => FieldKeyView::Other,
        }
    }
}

/// The models of keys.
pub open spec fn key_views(v: Seq<FieldKey>) -> Seq<FieldKeyView> {
    v.map_values(|f: FieldKey| f@)
}

/// The model of an [`Expr`].
pub enum ExprView {
    Paren(Box<ExprView>),
    Call(Seq<LinkView>),
    Table(Seq<FieldKeyView>),
    Other,
}

/// The model of a [`Link`].
pub enum LinkView {
    Call(ArgsView),
    Method(ArgsView),
    Other,
}

/// The model of [`Args`].
pub enum ArgsView {
    Parens(Seq<ExprView>),
    Table(Seq<FieldKeyView>),
    Other,
}

/// The model of an expression.
pub open spec fn expr_view(e: Expr) -> ExprView
    decreases e,
{
    match e {
        Expr::Paren(x) => ExprView::Paren(Box::new(expr_view(*x))),
        Expr::Call(v) => ExprView::Call(
            Seq::new(
                v@.len(),
                |i: int|
                    if 0 <= i < v@.len() {
                        link_view(v@[i])
                    } else {
                        LinkView::Other
                    },
            ),
        ),
        Expr::Table(f) => ExprView::Table(key_views(f@)),
        Expr::Other => ExprView::Other,
    }
}

/// The model of what follows a name.
pub open spec fn link_view(l: Link) -> LinkView
    decreases l,
{
    match l {
        Link::Call(a) => LinkView::Call(args_view(a)),
        Link::Method(a) => LinkView::Method(args_view(a)),
        Link::Other => LinkView::Other,
    }
}

/// The model of arguments.
pub open spec fn args_view(a: Args) -> ArgsView
    decreases a,
{
    match a {
        Args::Parens(v) => ArgsView::Parens(
            Seq::new(
                v@.len(),
                |i: int|
                    if 0 <= i < v@.len() {
                        expr_view(v@[i])
                    } else {
                        ExprView::Other
                    },
            ),
        ),
        Args::Table(f) => ArgsView::Table(key_views(f@)),
        Args::Other => ArgsView::Other,
    }
}

/// The models of expressions.
pub open spec fn expr_views(v: Seq<Expr>) -> Seq<ExprView> {
    v.map_values(|e: Expr| expr_view(e))
}

/// The model of a fault.
pub open spec fn fault_view(o: Option<ParseFault>) -> Option<(Seq<char>, Option<usize>)> {
    match o {
        Some(f) => Some((f.text@, f.line)),
        None => None,
    }
}

/// An expression of the parser.
#[verifier::external_type_specification]
#[verifier::external_body]
pub struct ExExpression(full_moon::ast::Expression);

/// The arguments of a call.
#[verifier::external_type_specification]
#[verifier::external_body]
pub struct ExFunctionArgs(full_moon::ast::FunctionArgs);

/// What follows a name: a call, an index.
#[verifier::external_type_specification]
#[verifier::external_body]
pub struct ExSuffix(full_moon::ast::Suffix);

/// A field of a table.
#[verifier::external_type_specification]
#[verifier::external_body]
pub struct ExField(full_moon::ast::Field);

/// A position in a source.
#[verifier::external_type_specification]
#[verifier::external_body]
pub struct ExPosition(full_moon::tokenizer::Position);

/// An error of the parser.
#[verifier::external_type_specification]
#[verifier::external_body]
pub struct ExParseError(full_moon::Error);

/// What starts a chain of links.
#[verifier::external_type_specification]
#[verifier::external_body]
pub struct ExPrefix(full_moon::ast::Prefix);

/// A chain that ends in a call.
#[verifier::external_type_specification]
#[verifier::external_body]
pub struct ExFunctionCall(full_moon::ast::FunctionCall);

/// A chain that ends in an index.
#[verifier::external_type_specification]
#[verifier::external_body]
pub struct ExVarExpression(full_moon::ast::VarExpression);

/// A fault of the tokenizer.
#[verifier::external_type_specification]
#[verifier::external_body]
pub struct ExTokenizerError(full_moon::tokenizer::TokenizerError);

/// A token with what surrounds it.
#[verifier::external_type_specification]
#[verifier::external_body]
pub struct ExTokenReference(full_moon::tokenizer::TokenReference);

/// What the tokenizer makes of a piece of a source.
#[verifier::external_type_specification]
#[verifier::external_body]
#[verifier::reject_recursive_types(T)]
pub struct ExLexerResult<T>(full_moon::tokenizer::LexerResult<T>);

/// What the tokenizer makes of a source, piece by piece.
pub uninterp spec fn luau_tokens(source: Seq<char>) -> Seq<LexedView>;

/// What the parser reads in a source whose tokens are readable: the values of
/// its last `return` and its calls, or the first fault that it names.
pub uninterp spec fn luau_source(source: Seq<char>) -> Result<
    (Seq<ExprView>, Seq<CallSiteView>),
    Option<(Seq<char>, Option<usize>)>,
>;

/// What is read in a source. One whose tokens are not readable is not parsed:
/// the first fault of its tokens counts, also where a parser would stumble over
/// the order of the tokens before.
pub open spec fn luau_read(source: Seq<char>) -> Result<
    (Seq<ExprView>, Seq<CallSiteView>),
    Option<(Seq<char>, Option<usize>)>,
> {
    if readable(luau_tokens(source)) {
        luau_source(source)
    } else {
        Err(first_fault(luau_tokens(source)))
    }
}

/// The values of the last `return` of a source.
pub open spec fn luau_returns(source: Seq<char>) -> Result<
    Seq<ExprView>,
    Option<(Seq<char>, Option<usize>)>,
> {
    match luau_read(source) {
        Ok(p) => Ok(p.0),
        Err(f) => Err(f),
    }
}

/// `Node::range` of `full_moon`, as plain numbers.
#[verifier::external_body]
fn plain_range(
    r: Option<(full_moon::tokenizer::Position, full_moon::tokenizer::Position)>,
) -> Option<SourceRange> {
    r.map(
        |(a, b)|
            SourceRange {
                begin_line: a.line(),
                begin_col: a.character(),
                end_line: b.line(),
                end_col: b.character(),
            },
    )
}

/// The contents of a string token of `full_moon`, escapes and all; nothing for
/// any other expression.
#[verifier::external_body]
fn literal_text(e: &full_moon::ast::Expression) -> Option<String> {
    match e {
        Expression::String(t) => match t.token().token_type() {
            TokenType::StringLiteral { literal, .. } => Some(literal.to_string()),
            _ => Some(t.token().to_string()),
        },
        _ => None,
    }
}

/// A field of a `full_moon` table, one variant for one: its key and where the
/// key stands.
#[verifier::external_body]
fn field_key(f: &full_moon::ast::Field) -> FieldKey {
    match f {
        Field::NameKey { key, .. } => FieldKey::Name {
            name: key.token().to_string(),
            range: plain_range(key.range()),
        },
        Field::ExpressionKey { key, .. } => FieldKey::Computed {
            literal: literal_text(key),
            range: plain_range(key.range()),
        },
        _ => FieldKey::Other,
    }
}

/// The arguments of a `full_moon` call, one variant for one.
#[verifier::external_body]
fn args_tree(a: &full_moon::ast::FunctionArgs) -> Args {
    match a {
        FunctionArgs::Parentheses { arguments, .. } => Args::Parens(
            arguments.iter().map(expr_tree).collect(),
        ),
        FunctionArgs::TableConstructor(t) => Args::Table(t.fields().iter().map(field_key).collect()),
        _ => Args::Other,
    }
}

/// A suffix of `full_moon`, one variant for one.
#[verifier::external_body]
fn link_tree(s: &full_moon::ast::Suffix) -> Link {
    match s {
        Suffix::Call(Call::AnonymousCall(args)) => Link::Call(args_tree(args)),
        Suffix::Call(Call::MethodCall(method)) => Link::Method(args_tree(method.args())),
        _ => Link::Other,
    }
}

/// An expression of `full_moon`, one variant for one.
#[verifier::external_body]
fn expr_tree(e: &full_moon::ast::Expression) -> Expr {
    match e {
        Expression::Parentheses { expression, .. } => Expr::Paren(Box::new(expr_tree(expression))),
        Expression::FunctionCall(c) => Expr::Call(c.suffixes().map(link_tree).collect()),
        Expression::TableConstructor(t) => Expr::Table(t.fields().iter().map(field_key).collect()),
        _ => Expr::Other,
    }
}

/// An error of `full_moon`: its words, and the line of a tokenizer's.
#[verifier::external_body]
fn parse_fault(e: &full_moon::Error) -> ParseFault {
    match e {
        full_moon::Error::TokenizerError(t) => ParseFault {
            text: e.to_string(),
            line: Some(t.position().line()),
        },
        full_moon::Error::AstError(_) => ParseFault { text: e.to_string(), line: None },
    }
}

/// The arguments of a `full_moon` call, one variant for one, each by its text.
#[verifier::external_body]
fn call_args(a: &full_moon::ast::FunctionArgs) -> CallArgs {
    match a {
        FunctionArgs::Parentheses { arguments, .. } => CallArgs::Parens(
            arguments.iter().map(literal_text).collect(),
        ),
        FunctionArgs::String(t) => match t.token().token_type() {
            TokenType::StringLiteral { literal, .. } => CallArgs::Text(literal.to_string()),
            _ => CallArgs::Text(t.token().to_string()),
        },
        _ => CallArgs::Other,
    }
}

/// A suffix of `full_moon` where it is a plain call.
#[verifier::external_body]
fn plain_call(s: &full_moon::ast::Suffix) -> Option<PlainCall> {
    match s {
        Suffix::Call(Call::AnonymousCall(a)) => Some(
            PlainCall {
                args: call_args(a),
                end: a.end_position().map(|p| (p.line(), p.character())),
            },
        ),
        _ => None,
    }
}

/// A prefix of `full_moon` where it is a name, and where the name begins.
#[verifier::external_body]
fn called_name(p: &full_moon::ast::Prefix) -> Option<(String, (usize, usize))> {
    match p {
        Prefix::Name(n) => {
            let at = n.token().start_position();
            Some((n.token().to_string(), (at.line(), at.character())))
        },
        _ => None,
    }
}

/// Takes the calls that a walk of a `full_moon` tree comes to.
struct CallVisitor {
    sites: Vec<CallSite>,
}

/// The callbacks of `full_moon`'s walk: each call site is converted and kept.
impl Visitor for CallVisitor {
    #[verifier::external_body]
    fn visit_function_call(&mut self, call: &FunctionCall) {
        let links = call.suffixes().map(plain_call).collect();
        self.sites.push(CallSite { name: called_name(call.prefix()), links });
    }

    #[verifier::external_body]
    fn visit_var_expression(&mut self, chain: &VarExpression) {
        let links = chain.suffixes().map(plain_call).collect();
        self.sites.push(CallSite { name: called_name(chain.prefix()), links });
    }
}

/// A fault of `full_moon`'s tokenizer, in the words of its parser.
#[verifier::external_body]
fn token_fault(e: full_moon::tokenizer::TokenizerError) -> ParseFault {
    parse_fault(&full_moon::Error::TokenizerError(e))
}

/// A result of `full_moon`'s tokenizer, one variant for one.
#[verifier::external_body]
fn lexed_token(
    r: full_moon::tokenizer::LexerResult<full_moon::tokenizer::TokenReference>,
) -> LexedToken {
    match r {
        LexerResult::Ok(_) => LexedToken::Sound,
        LexerResult::Recovered(_, faults) => LexedToken::Mended(
            faults.into_iter().map(token_fault).collect(),
        ),
        LexerResult::Fatal(faults) => LexedToken::Broken(
            faults.into_iter().map(token_fault).collect(),
        ),
    }
}

/// `Lexer::consume` of `full_moon` until nothing is left, on the lexer with
/// which `full_moon::parse` begins: what it gives is named `luau_tokens`.
#[verifier::external_body]
fn lex_luau(source: &str) -> (r: Vec<LexedToken>)
    ensures
        lexed_views(r@) == luau_tokens(source@),
{
    let mut lexer = Lexer::new(source, full_moon::LuaVersion::new());
    std::iter::from_fn(|| lexer.consume()).map(lexed_token).collect()
}

/// `full_moon::parse`: the values of the `return` that ends the source and the
/// calls that `Visitor::visit_ast` comes to, or the first of the errors. Both
/// are named `luau_source`. The parser stops the program on some sources with a
/// broken token, and on one whose end the tokenizer lost behind a line that
/// begins with `#!`, so those are left out. It goes down one call for each
/// level at which a source is nested; how deep it can go is the stack's matter,
/// and nothing is said of a source that is nested deeper.
#[verifier::external_body]
fn parse_luau(source: &str) -> (r: Result<LuauSource, Option<ParseFault>>)
    requires
        readable(luau_tokens(source@)),
    ensures
        (match r {
            Ok(p) => luau_source(source@) == Ok::<
                (Seq<ExprView>, Seq<CallSiteView>),
                Option<(Seq<char>, Option<usize>)>,
            >((expr_views(p.values@), site_views(p.calls@))),
            Err(f) => luau_source(source@) == Err::<
                (Seq<ExprView>, Seq<CallSiteView>),
                Option<(Seq<char>, Option<usize>)>,
            >(fault_view(f)),
        }),
{
    let ast = full_moon::parse(source).map_err(|errors| errors.first().map(parse_fault))?;
    let mut visitor = CallVisitor { sites: Vec::new() };
    visitor.visit_ast(&ast);
    let values = match ast.nodes().last_stmt() {
        Some(LastStmt::Return(r)) => r.returns().iter().map(expr_tree).collect(),
        _ => Vec::new(),
    };
    Ok(LuauSource { values, calls: visitor.sites })
}

fn earliest(faults: &Vec<ParseFault>) -> (r: Option<ParseFault>)
    ensures
        fault_view(r) == if faults@.len() > 0 {
            Some(fault_views(faults@)[0])
        } else {
            None
        },
{
    if faults.len() == 0 {
        None
    } else {
        Some(ParseFault { text: faults[0].text.clone(), line: faults[0].line })
    }
}

/// Decides whether a parser can go through tokens; the first of their faults
/// where it cannot.
pub fn judge_tokens(tokens: &Vec<LexedToken>) -> (r: Result<(), Option<ParseFault>>)
    ensures
        match r {
            Ok(_) => readable(lexed_views(tokens@)),
            Err(f) => !readable(lexed_views(tokens@)) && fault_view(f) == first_fault(
                lexed_views(tokens@),
            ),
        },
{
    let ghost all = lexed_views(tokens@);
    let mut broken = tokens.len() == 0;
    let mut first: Option<ParseFault> = None;
    let mut i: usize = 0;
    assert(all.skip(0) =~= all);
    while i < tokens.len()
        invariant
            i <= tokens@.len(),
            all == lexed_views(tokens@),
            broken == (tokens@.len() == 0 || exists|k: int|
                0 <= k < i && (#[trigger] all[k]) is Broken),
            first_fault(all) == if first is Some {
                fault_view(first)
            } else {
                first_fault(all.skip(i as int))
            },
        decreases tokens@.len() - i,
    {
        assert(all.skip(i as int)[0] == tokens@[i as int]@);
        assert(all.skip(i as int).skip(1) =~= all.skip(i + 1));
        let found = match &tokens[i] {
            LexedToken::Sound => None,
            LexedToken::Mended(f) => earliest(f),
            LexedToken::Broken(f) => {
                assert(all[i as int] is Broken);
                broken = true;
                earliest(f)
            },
        };
        if first.is_none() {
            first = found;
        }
        i += 1;
    }
    if broken {
        Err(first)
    } else {
        Ok(())
    }
}

/// Reads a source: its tokens first, and where a parser can go through them,
/// what it says.
fn read_luau(source: &str) -> (r: Result<LuauSource, Option<ParseFault>>)
    ensures
        (match r {
            Ok(p) => luau_read(source@) == Ok::<
                (Seq<ExprView>, Seq<CallSiteView>),
                Option<(Seq<char>, Option<usize>)>,
            >((expr_views(p.values@), site_views(p.calls@))),
            Err(f) => luau_read(source@) == Err::<
                (Seq<ExprView>, Seq<CallSiteView>),
                Option<(Seq<char>, Option<usize>)>,
            >(fault_view(f)),
        }),
{
    let tokens = lex_luau(source);
    match judge_tokens(&tokens) {
        Err(f) => Err(f),
        Ok(_) => parse_luau(source),
    }
}

// ── Where an output key is declared ──

/// A range as a span: the last column is exclusive.
pub open spec fn span_of(r: SourceRange) -> Span {
    Span {
        begin_line: r.begin_line as u32,
        begin_col: r.begin_col as u32,
        end_line: r.end_line as u32,
        end_col: if r.end_col == 0 {
            0
        } else {
            (r.end_col - 1) as u32
        },
    }
}

fn to_span(r: SourceRange) -> (s: Span)
    ensures
        s == span_of(r),
{
    Span {
        begin_line: r.begin_line as u32,
        begin_col: r.begin_col as u32,
        end_line: r.end_line as u32,
        end_col: if r.end_col == 0 {
            0
        } else {
            (r.end_col - 1) as u32
        },
    }
}

/// The name of a key that is written out: as a name, or as a string literal.
pub open spec fn written(f: FieldKeyView) -> Option<Seq<char>> {
    match f {
        FieldKeyView::Name(name, _) => Some(name),
        FieldKeyView::Computed(literal, _) => literal,
        FieldKeyView::Other => None,
    }
}

/// Where a key stands.
pub open spec fn range_of(f: FieldKeyView) -> Option<SourceRange> {
    match f {
        FieldKeyView::Name(_, range) => range,
        FieldKeyView::Computed(_, range) => range,
        FieldKeyView::Other => None,
    }
}

/// Where fields with a key stand among the fields of a table.
pub open spec fn field_hits(fields: Seq<FieldKeyView>, key: Seq<char>) -> Seq<Span>
    decreases fields.len(),
{
    if fields.len() == 0 {
        Seq::empty()
    } else {
        let before = field_hits(fields.drop_last(), key);
        let f = fields.last();
        if written(f) == Some(key) && range_of(f) is Some {
            before.push(span_of(range_of(f)->0))
        } else {
            before
        }
    }
}

/// Where fields with a key stand in an expression: in the table that it is, and
/// in tables among the arguments of a call. Tables inside tables do not count.
pub open spec fn hits(e: ExprView, key: Seq<char>) -> Seq<Span>
    decreases e, 0int,
{
    match e {
        ExprView::Paren(x) => hits(*x, key),
        ExprView::Call(v) => chain_hits(v, v.len() as int, key),
        ExprView::Table(f) => field_hits(f, key),
        ExprView::Other => Seq::empty(),
    }
}

/// Where fields with a key stand in the first links of a chain.
pub open spec fn chain_hits(v: Seq<LinkView>, n: int, key: Seq<char>) -> Seq<Span>
    decreases v, n,
{
    if n <= 0 || n > v.len() {
        Seq::empty()
    } else {
        chain_hits(v, n - 1, key) + link_hits(v[n - 1], key)
    }
}

/// Where fields with a key stand in a link of a chain: among its arguments,
/// where it is a call.
pub open spec fn link_hits(l: LinkView, key: Seq<char>) -> Seq<Span>
    decreases l, 0int,
{
    match l {
        LinkView::Call(a) => args_hits(a, key),
        LinkView::Method(a) => args_hits(a, key),
        LinkView::Other => Seq::empty(),
    }
}

/// Where fields with a key stand among arguments.
pub open spec fn args_hits(a: ArgsView, key: Seq<char>) -> Seq<Span>
    decreases a, 0int,
{
    match a {
        ArgsView::Parens(v) => hits_upto(v, v.len() as int, key),
        ArgsView::Table(f) => field_hits(f, key),
        ArgsView::Other => Seq::empty(),
    }
}

/// Where fields with a key stand in the first expressions.
pub open spec fn hits_upto(v: Seq<ExprView>, n: int, key: Seq<char>) -> Seq<Span>
    decreases v, n,
{
    if n <= 0 || n > v.len() {
        Seq::empty()
    } else {
        hits_upto(v, n - 1, key) + hits(v[n - 1], key)
    }
}

/// Where an output key is declared among returned values: only where there is
/// exactly one place.
pub open spec fn unique_hit(v: Seq<ExprView>, key: Seq<char>) -> Option<Span> {
    let all = hits_upto(v, v.len() as int, key);
    if all.len() == 1 {
        Some(all[0])
    } else {
        None
    }
}

fn collect_table_field_spans(fields: &Vec<FieldKey>, key: &str, out: &mut Vec<Span>)
    ensures
        final(out)@ == old(out)@ + field_hits(key_views(fields@), key@),
{
    let ghost all = key_views(fields@);
    let ghost head = out@;
    let mut i: usize = 0;
    assert(out@ =~= head + field_hits(all.take(0), key@));
    while i < fields.len()
        invariant
            i <= fields@.len(),
            all == key_views(fields@),
            out@ == head + field_hits(all.take(i as int), key@),
        decreases fields@.len() - i,
    {
        proof {
            assert(all.take(i + 1).drop_last() =~= all.take(i as int));
            assert(all.take(i + 1).last() == fields@[i as int]@);
        }
        let (same, range) = match &fields[i] {
            FieldKey::Name { name, range } => (str_eq(name.as_str(), key), *range),
            FieldKey::Computed { literal, range } => (
                match literal {
                    Some(n) => str_eq(n.as_str(), key),
                    None => false,
                },
                *range,
            ),
            FieldKey::Other => (false, None),
        };
        if same {
            match range {
                Some(r) => {
                    let ghost before = field_hits(all.take(i as int), key@);
                    out.push(to_span(r));
                    assert(out@ =~= head + before.push(span_of(r)));
                },
                None => {},
            }
        }
        i += 1;
    }
    assert(all.take(i as int) =~= all);
}

fn collect_key_field_spans(e: &Expr, key: &str, out: &mut Vec<Span>)
    ensures
        final(out)@ == old(out)@ + hits(expr_view(*e), key@),
    decreases e,
{
    match e {
        Expr::Paren(x) => {
            collect_key_field_spans(x, key, out);
        },
        Expr::Call(v) => {
            let ghost all = expr_view(*e)->Call_0;
            let ghost head = out@;
            let mut i: usize = 0;
            assert(out@ =~= head + chain_hits(all, 0, key@));
            while i < v.len()
                invariant
                    i <= v@.len(),
                    *e == Expr::Call(*v),
                    all == expr_view(*e)->Call_0,
                    all.len() == v@.len(),
                    out@ == head + chain_hits(all, i as int, key@),
                decreases v@.len() - i,
            {
                assert(decreases_to!(*e => e->Call_0));
                assert(decreases_to!(v => v@));
                assert(decreases_to!(v@ => v@[i as int]));
                assert(all[i as int] == link_view(v@[i as int]));
                let ghost l = v@[i as int];
                let ghost before = out@;
                match &v[i] {
                    Link::Call(a) => {
                        assert(decreases_to!(l => l->Call_0));
                        collect_args_spans(a, key, out);
                    },
                    Link::Method(a) => {
                        assert(decreases_to!(l => l->Method_0));
                        collect_args_spans(a, key, out);
                    },
                    Link::Other => {},
                }
                assert(out@ =~= before + link_hits(link_view(l), key@));
                assert(out@ =~= head + chain_hits(all, i + 1, key@));
                i += 1;
            }
        },
        Expr::Table(f) => {
            collect_table_field_spans(f, key, out);
        },
        Expr::Other => {
            assert(out@ + Seq::<Span>::empty() =~= out@);
        },
    }
}

fn collect_args_spans(a: &Args, key: &str, out: &mut Vec<Span>)
    ensures
        final(out)@ == old(out)@ + args_hits(args_view(*a), key@),
    decreases a,
{
    match a {
        Args::Parens(v) => {
            let ghost all = args_view(*a)->Parens_0;
            let ghost head = out@;
            let mut i: usize = 0;
            assert(out@ =~= head + hits_upto(all, 0, key@));
            while i < v.len()
                invariant
                    i <= v@.len(),
                    *a == Args::Parens(*v),
                    all == args_view(*a)->Parens_0,
                    all.len() == v@.len(),
                    out@ == head + hits_upto(all, i as int, key@),
                decreases v@.len() - i,
            {
                assert(decreases_to!(*a => a->Parens_0));
                assert(decreases_to!(v => v@));
                assert(decreases_to!(v@ => v@[i as int]));
                assert(all[i as int] == expr_view(v@[i as int]));
                collect_key_field_spans(&v[i], key, out);
                assert(out@ =~= head + hits_upto(all, i + 1, key@));
                i += 1;
            }
        },
        Args::Table(f) => {
            collect_table_field_spans(f, key, out);
        },
        Args::Other => {
            assert(out@ + Seq::<Span>::empty() =~= out@);
        },
    }
}

/// Finds where an output key is declared among returned values. A key that is
/// declared twice, or not at all, has no place.
pub fn locate_in(values: &Vec<Expr>, key: &str) -> (r: Option<Span>)
    ensures
        r == unique_hit(expr_views(values@), key@),
{
    let ghost all = expr_views(values@);
    let mut out: Vec<Span> = Vec::new();
    let mut i: usize = 0;
    assert(out@ =~= hits_upto(all, 0, key@));
    while i < values.len()
        invariant
            i <= values@.len(),
            all == expr_views(values@),
            out@ == hits_upto(all, i as int, key@),
        decreases values@.len() - i,
    {
        assert(all[i as int] == expr_view(values@[i as int]));
        collect_key_field_spans(&values[i], key, &mut out);
        i += 1;
    }
    if out.len() == 1 {
        Some(out[0])
    } else {
        None
    }
}

fn has_nul(s: &str) -> (r: bool)
    ensures
        r == s@.contains('\0'),
{
    let v = chars_of(s);
    let mut i: usize = 0;
    while i < v.len()
        invariant
            i <= v@.len(),
            v@ == s@,
            forall|j: int| 0 <= j < i ==> s@[j] != '\0',
        decreases v@.len() - i,
    {
        if v[i] == '\0' {
            assert(s@[i as int] == '\0');
            return true;
        }
        i += 1;
    }
    false
}

/// Where an output key is declared in a source.
pub open spec fn located(source: Seq<char>, key: Seq<char>) -> Option<Span> {
    if source.contains('\0') || key.contains('\0') {
        None
    } else {
        match luau_returns(source) {
            Ok(v) => unique_hit(v, key),
            Err(_) => None,
        }
    }
}

/// Finds where an output key is declared in a definition: a field of a table
/// that the source returns. Where there is not exactly one such field, or the
/// source cannot be read, there is no answer: a wrong one is never given.
pub fn locate_output_key(source: &str, key: &str) -> (r: Option<Span>)
    ensures
        r == located(source@, key@),
{
    if has_nul(source) || has_nul(key) {
        return None;
    }
    match read_luau(source) {
        Ok(p) => locate_in(&p.values, key),
        Err(_) => None,
    }
}

/// A key that is declared in two places has none.
pub proof fn law_ambiguous_keys_have_no_place(v: Seq<ExprView>, key: Seq<char>)
    requires
        hits_upto(v, v.len() as int, key).len() != 1,
    ensures
        unique_hit(v, key) is None,
{
}

// ── Requires ──

/// What a call site is.
pub enum SiteClass {
    /// No require.
    Other,
    /// The require of a module.
    Literal(Seq<char>),
    /// A require of something computed, and where.
    Computed(Span),
}

/// The name in the arguments of a require, where they are a string literal and
/// nothing else.
pub open spec fn literal_arg(a: CallArgsView) -> Option<Seq<char>> {
    match a {
        CallArgsView::Parens(v) => if v.len() == 1 {
            v[0]
        } else {
            None
        },
        CallArgsView::Text(s) => Some(s),
        CallArgsView::Other => None,
    }
}

/// The span from where a name begins to where its arguments end; where that is
/// not known, to the name itself.
pub open spec fn site_span(begin: (usize, usize), end: Option<(usize, usize)>) -> Span {
    span_of(
        SourceRange {
            begin_line: begin.0,
            begin_col: begin.1,
            end_line: match end {
                Some(e) => e.0,
                None => begin.0,
            },
            end_col: match end {
                Some(e) => e.1,
                None => begin.1,
            },
        },
    )
}

/// What a call site is: a require is the name `require`, called.
pub open spec fn site_class(s: CallSiteView) -> SiteClass {
    match s.name {
        Some((name, begin)) => if name == "require"@ && s.links.len() > 0 {
            match s.links[0] {
                None => SiteClass::Other,
                Some(c) => match literal_arg(c.args) {
                    Some(n) => SiteClass::Literal(n),
                    None => SiteClass::Computed(site_span(begin, c.end)),
                },
            }
        } else {
            SiteClass::Other
        },
        None => SiteClass::Other,
    }
}

/// The modules that call sites require by name, in order.
pub open spec fn literal_names(sites: Seq<CallSiteView>) -> Seq<Seq<char>>
    decreases sites.len(),
{
    if sites.len() == 0 {
        Seq::empty()
    } else {
        let before = literal_names(sites.drop_last());
        match site_class(sites.last()) {
            SiteClass::Literal(n) => before.push(n),
            _ => before,
        }
    }
}

/// Where the first computed require stands.
pub open spec fn first_computed(sites: Seq<CallSiteView>) -> Option<Span>
    decreases sites.len(),
{
    if sites.len() == 0 {
        None
    } else {
        match first_computed(sites.drop_last()) {
            Some(s) => Some(s),
            None => match site_class(sites.last()) {
                SiteClass::Computed(s) => Some(s),
                _ => None,
            },
        }
    }
}

/// The requires of a source, by name and where the first computed one stands;
/// or what the parser says where it does not parse.
pub open spec fn luau_requires(source: Seq<char>) -> Result<
    (Seq<Seq<char>>, Option<Span>),
    Seq<char>,
> {
    match luau_read(source) {
        Ok(p) => Ok((literal_names(p.1), first_computed(p.1))),
        Err(f) => Err(fault_text(f)),
    }
}

/// The requires of a source.
#[derive(Debug)]
pub struct RequireScan {
    /// The modules that are required by name.
    pub literals: Vec<String>,
    /// Where the first require stands whose module is computed.
    pub non_literal_span: Option<Span>,
}

/// What a require names, if it is one, and where it stands.
enum Require {
    No,
    Literal(String),
    Computed(Span),
}

/// The model of a [`Require`].
spec fn require_view(r: Require) -> SiteClass {
    match r {
        Require::No => SiteClass::Other,
        Require::Literal(n) => SiteClass::Literal(n@),
        Require::Computed(s) => SiteClass::Computed(s),
    }
}

fn literal_of(a: &CallArgs) -> (r: Option<String>)
    ensures
        opt_text(r) == literal_arg(call_args_view(*a)),
{
    match a {
        CallArgs::Parens(v) => {
            if v.len() == 1 {
                assert(call_args_view(*a)->Parens_0[0] == opt_text(v@[0]));
                match &v[0] {
                    Some(t) => Some(t.clone()),
                    None => None,
                }
            } else {
                None
            }
        },
        CallArgs::Text(t) => Some(t.clone()),
        CallArgs::Other => None,
    }
}

fn classify(site: &CallSite) -> (r: Require)
    ensures
        require_view(r) == site_class(site_view(*site)),
{
    let ghost model = site_view(*site);
    let begin = match &site.name {
        None => {
            return Require::No;
        },
        Some((name, begin)) => {
            if !str_eq(name.as_str(), "require") {
                return Require::No;
            }
            *begin
        },
    };
    if site.links.len() == 0 {
        return Require::No;
    }
    assert(model.links[0] == plain_call_view(site.links@[0]));
    match &site.links[0] {
        None => Require::No,
        Some(c) => match literal_of(&c.args) {
            Some(n) => Require::Literal(n),
            None => {
                let end = match c.end {
                    Some(e) => e,
                    None => begin,
                };
                Require::Computed(
                    to_span(
                        SourceRange {
                            begin_line: begin.0,
                            begin_col: begin.1,
                            end_line: end.0,
                            end_col: end.1,
                        },
                    ),
                )
            },
        },
    }
}

/// Sorts out the requires among the calls of a source.
pub fn scan_requires(sites: &Vec<CallSite>) -> (r: RequireScan)
    ensures
        texts(r.literals@) == literal_names(site_views(sites@)),
        r.non_literal_span == first_computed(site_views(sites@)),
{
    broadcast use lemma_texts_push;

    let ghost all = site_views(sites@);
    let mut literals: Vec<String> = Vec::new();
    let mut computed: Option<Span> = None;
    let mut i: usize = 0;
    assert(texts(literals@) =~= literal_names(all.take(0)));
    while i < sites.len()
        invariant
            i <= sites@.len(),
            all == site_views(sites@),
            texts(literals@) == literal_names(all.take(i as int)),
            computed == first_computed(all.take(i as int)),
        decreases sites@.len() - i,
    {
        proof {
            assert(all.take(i + 1).drop_last() =~= all.take(i as int));
            assert(all.take(i + 1).last() == site_view(sites@[i as int]));
        }
        match classify(&sites[i]) {
            Require::No => {},
            Require::Literal(n) => {
                literals.push(n);
            },
            Require::Computed(s) => {
                if computed.is_none() {
                    computed = Some(s);
                }
            },
        }
        i += 1;
    }
    assert(all.take(i as int) =~= all);
    RequireScan { literals, non_literal_span: computed }
}

/// Finds the requires of a source; what the parser says where it does not
/// parse.
pub fn scan_source(source: &str) -> (r: Result<RequireScan, String>)
    ensures
        match r {
            Ok(s) => luau_requires(source@) == Ok::<(Seq<Seq<char>>, Option<Span>), Seq<char>>(
                (texts(s.literals@), s.non_literal_span),
            ),
            Err(e) => luau_requires(source@) == Err::<(Seq<Seq<char>>, Option<Span>), Seq<char>>(
                e@,
            ),
        },
{
    match read_luau(source) {
        Ok(p) => Ok(scan_requires(&p.calls)),
        Err(f) => Err(fault_words(&f)),
    }
}

// ── The check of a definition ──

/// What the parser's fault says.
pub open spec fn fault_text(f: Option<(Seq<char>, Option<usize>)>) -> Seq<char> {
    match f {
        None => "unknown parse failure"@,
        Some(x) => match x.1 {
            Some(n) => x.0 + " (at line "@ + decimal(n as nat) + ")"@,
            None => x.0,
        },
    }
}

fn fault_words(f: &Option<ParseFault>) -> (r: String)
    ensures
        r@ == fault_text(fault_view(*f)),
{
    match f {
        None => "unknown parse failure".to_owned(),
        Some(x) => match x.line {
            Some(n) => {
                let mut out = x.text.clone();
                out.append(" (at line ");
                out.append(to_decimal(n as u64).as_str());
                out.append(")");
                out
            },
            None => x.text.clone(),
        },
    }
}

/// Why a definition is refused before it is analyzed, given what the parser
/// reads in it.
pub open spec fn refused(
    source: Seq<char>,
    parsed: Result<Seq<ExprView>, Option<(Seq<char>, Option<usize>)>>,
) -> Option<DiagnosticView> {
    if source.contains('\0') {
        Some(of_whole("definition source contains a NUL byte; not type-checkable"@))
    } else {
        match downgrade_of(encode_utf8(source)) {
            Some(d) => Some(d),
            None => match parsed {
                Ok(_) => None,
                Err(f) => Some(
                    of_whole("definition does not parse as Luau: "@ + fault_text(f)),
                ),
            },
        }
    }
}

/// What the parser read, as a model.
pub open spec fn parsed_view(p: Result<Vec<Expr>, Option<ParseFault>>) -> Result<
    Seq<ExprView>,
    Option<(Seq<char>, Option<usize>)>,
> {
    match p {
        Ok(v) => Ok(expr_views(v@)),
        Err(f) => Err(fault_view(f)),
    }
}

/// Why the text of a definition is refused before it is parsed.
pub open spec fn refused_unread(source: Seq<char>) -> Option<DiagnosticView> {
    if source.contains('\0') {
        Some(of_whole("definition source contains a NUL byte; not type-checkable"@))
    } else {
        downgrade_of(encode_utf8(source))
    }
}

/// Decides whether the text of a definition may be parsed: it has no NUL and
/// downgrades nothing.
pub fn screen_text(source: &str) -> (r: Result<(), Diagnostic>)
    ensures
        match r {
            Ok(_) => refused_unread(source@) is None,
            Err(d) => refused_unread(source@) == Some(d@),
        },
{
    if has_nul(source) {
        return Err(
            about_whole("definition source contains a NUL byte; not type-checkable".to_owned()),
        );
    }
    match mode_downgrade_diagnostic(source) {
        Some(d) => Err(d),
        None => Ok(()),
    }
}

/// Decides whether a definition may be analyzed, given what the parser reads in
/// it.
pub fn screen_definition(source: &str, parsed: &Result<Vec<Expr>, Option<ParseFault>>) -> (r: Result<
    (),
    Diagnostic,
>)
    ensures
        match r {
            Ok(_) => refused(source@, parsed_view(*parsed)) is None,
            Err(d) => refused(source@, parsed_view(*parsed)) == Some(d@),
        },
{
    match screen_text(source) {
        Err(d) => {
            return Err(d);
        },
        Ok(_) => {},
    }
    match parsed {
        Ok(_) => Ok(()),
        Err(f) => Err(about_fault(f)),
    }
}

fn about_fault(f: &Option<ParseFault>) -> (r: Diagnostic)
    ensures
        r@ == of_whole("definition does not parse as Luau: "@ + fault_text(fault_view(*f))),
{
    let mut message = "definition does not parse as Luau: ".to_owned();
    message.append(fault_words(f).as_str());
    about_whole(message)
}

/// Decides whether a definition may be analyzed: it has no NUL, downgrades
/// nothing, and parses. What is refused for its text alone is not parsed.
pub fn screen_source(source: &str) -> (r: Result<(), Diagnostic>)
    ensures
        match r {
            Ok(_) => refused(source@, luau_returns(source@)) is None,
            Err(d) => refused(source@, luau_returns(source@)) == Some(d@),
        },
{
    match screen_text(source) {
        Err(d) => {
            return Err(d);
        },
        Ok(_) => {},
    }
    match read_luau(source) {
        Ok(_) => Ok(()),
        Err(f) => Err(about_fault(&f)),
    }
}

/// A comment that downgrades the analyzer refuses a definition whatever else it
/// says, and nothing else is reported.
pub proof fn law_downgrades_win(
    source: Seq<char>,
    parsed: Result<Seq<ExprView>, Option<(Seq<char>, Option<usize>)>>,
)
    requires
        !source.contains('\0'),
        downgrade_of(encode_utf8(source)) is Some,
    ensures
        refused(source, parsed) == downgrade_of(encode_utf8(source)),
{
}

/// A check in progress: the modules that were resolved, the names that were
/// seen, the sources that are still to be scanned.
#[derive(Debug)]
pub struct Seeding {
    pub sources: Ordered<String>,
    pub seen: Vec<String>,
    pub queue: Vec<String>,
    /// How many modules may still be asked for.
    pub budget: usize,
}

/// The modules that are asked for: each name once, as long as the budget lasts.
pub open spec fn asked(names: Seq<Seq<char>>, seen: Seq<Seq<char>>, budget: int) -> Seq<Seq<char>>
    decreases names.len(),
{
    if names.len() == 0 {
        Seq::empty()
    } else if seen.contains(names[0]) {
        asked(names.skip(1), seen, budget)
    } else if budget <= 0 {
        asked(names.skip(1), seen.push(names[0]), budget)
    } else {
        seq![names[0]] + asked(names.skip(1), seen.push(names[0]), budget - 1)
    }
}

/// The names that have been seen once more names were.
pub open spec fn seen_after(names: Seq<Seq<char>>, seen: Seq<Seq<char>>) -> Seq<Seq<char>>
    decreases names.len(),
{
    if names.len() == 0 {
        seen
    } else if seen.contains(names[0]) {
        seen_after(names.skip(1), seen)
    } else {
        seen_after(names.skip(1), seen.push(names[0]))
    }
}

proof fn lemma_asked(names: Seq<Seq<char>>, seen: Seq<Seq<char>>, budget: int)
    requires
        budget >= 0,
    ensures
        asked(names, seen, budget).len() <= budget,
        asked(names, seen, budget).no_duplicates(),
        forall|n: Seq<char>| #[trigger]
            asked(names, seen, budget).contains(n) ==> !seen.contains(n) && names.contains(n)
                && seen_after(names, seen).contains(n),
        forall|n: Seq<char>| seen.contains(n) ==> #[trigger] seen_after(names, seen).contains(n),
    decreases names.len(),
{
    if names.len() > 0 {
        let rest = names.skip(1);
        let x = names[0];
        if seen.contains(x) {
            lemma_asked(rest, seen, budget);
            assert(seen_after(names, seen) == seen_after(rest, seen));
            assert forall|n: Seq<char>| #[trigger]
                asked(names, seen, budget).contains(n) implies names.contains(n) by {
                assert(rest.contains(n));
                let k = choose|k: int| 0 <= k < rest.len() && rest[k] == n;
                assert(names[k + 1] == n);
            }
        } else {
            let grown = seen.push(x);
            let left = if budget <= 0 {
                budget
            } else {
                budget - 1
            };
            lemma_asked(rest, grown, left);
            let inner = asked(rest, grown, left);
            assert(grown[seen.len() as int] == x);
            assert(grown.contains(x));
            assert(seen_after(rest, grown).contains(x));
            assert forall|n: Seq<char>| seen.contains(n) implies #[trigger] seen_after(
                names,
                seen,
            ).contains(n) by {
                let k = choose|k: int| 0 <= k < seen.len() && seen[k] == n;
                assert(grown[k] == n);
                assert(grown.contains(n));
            }
            assert forall|n: Seq<char>| #[trigger] inner.contains(n) implies !seen.contains(n)
                && names.contains(n) && n != x by {
                if seen.contains(n) {
                    let k = choose|k: int| 0 <= k < seen.len() && seen[k] == n;
                    assert(grown[k] == n);
                }
                assert(rest.contains(n));
                let k = choose|k: int| 0 <= k < rest.len() && rest[k] == n;
                assert(names[k + 1] == n);
            }
            if budget > 0 {
                let all = asked(names, seen, budget);
                assert(all == seq![x] + inner);
                assert forall|i: int, j: int|
                    0 <= i < all.len() && 0 <= j < all.len() && i != j implies all[i] != all[j] by {
                    if i > 0 && j > 0 {
                        assert(all[i] == inner[i - 1] && all[j] == inner[j - 1]);
                    } else if i > 0 {
                        assert(all[i] == inner[i - 1]);
                        assert(inner.contains(all[i]));
                    } else {
                        assert(all[j] == inner[j - 1]);
                        assert(inner.contains(all[j]));
                    }
                }
                assert forall|n: Seq<char>| #[trigger] all.contains(n) implies !seen.contains(n)
                    && names.contains(n) && seen_after(names, seen).contains(n) by {
                    let k = choose|k: int| 0 <= k < all.len() && all[k] == n;
                    if k > 0 {
                        assert(inner[k - 1] == n);
                        assert(inner.contains(n));
                    } else {
                        assert(names[0] == n);
                    }
                }
            }
        }
    }
}

/// What is said of a source whose require at `span` is computed.
pub open spec fn computed_refusal(span: Span) -> DiagnosticView {
    DiagnosticView {
        span,
        message: LITERAL_REQUIRE_MESSAGE@
            + "; computed requires cannot be resolved by the analyzer gate"@,
    }
}

/// What is said of a module that does not parse, for the reason `fault`.
pub open spec fn unparsed_refusal(fault: Seq<char>) -> DiagnosticView {
    of_whole("required module does not parse as Luau: "@ + fault)
}

/// Starts the check of a definition, unless it is refused.
pub fn begin_check(source: &str) -> (r: Result<Seeding, Diagnostic>)
    ensures
        match r {
            Ok(s) => refused(source@, luau_returns(source@)) is None && s.sources.wf()
                && s.sources@.len() == 0 && s.seen@.len() == 0 && texts(s.queue@) == seq![source@]
                && s.budget == MAX_SEED_MODULES,
            Err(d) => refused(source@, luau_returns(source@)) == Some(d@),
        },
{
    match screen_source(source) {
        Err(d) => Err(d),
        Ok(_) => {
            let mut queue: Vec<String> = Vec::new();
            queue.push(source.to_owned());
            assert(texts(queue@) =~= seq![source@]);
            Ok(
                Seeding {
                    sources: Ordered::new(),
                    seen: Vec::new(),
                    queue,
                    budget: MAX_SEED_MODULES,
                },
            )
        },
    }
}

impl Seeding {
    /// Takes the next source to scan, the oldest first.
    pub fn next_source(&mut self) -> (r: Option<String>)
        ensures
            final(self).sources == old(self).sources,
            final(self).seen == old(self).seen,
            final(self).budget == old(self).budget,
            match r {
                Some(s) => old(self).queue@.len() > 0 && s@ == old(self).queue@[0]@ && texts(
                    final(self).queue@,
                ) == texts(old(self).queue@).skip(1),
                None => old(self).queue@.len() == 0 && final(self).queue == old(self).queue,
            },
    {
        if self.queue.len() == 0 {
            return None;
        }
        let ghost before = self.queue@;
        let s = self.queue.remove(0);
        assert(texts(self.queue@) =~= texts(before).skip(1));
        Some(s)
    }

    /// Takes the requires of the source that was scanned, or the parser's words
    /// where it does not parse, and says which modules to resolve: each name
    /// once in the whole check, and no more than the budget allows. A computed
    /// require refuses the definition.
    pub fn scanned(&mut self, scan: Result<RequireScan, String>) -> (r: Result<
        Vec<String>,
        Diagnostic,
    >)
        ensures
            final(self).sources == old(self).sources,
            final(self).queue == old(self).queue,
            match scan {
                Err(e) => (r matches Err(d) && d@ == unparsed_refusal(e@) && *final(self) == *old(
                    self,
                )),
                Ok(s) => match s.non_literal_span {
                    Some(span) => (r matches Err(d) && d@ == computed_refusal(span)
                        && *final(self) == *old(self)),
                    None => (r matches Ok(names) && texts(names@) == asked(
                        texts(s.literals@),
                        texts(old(self).seen@),
                        old(self).budget as int,
                    ) && texts(final(self).seen@) == seen_after(
                        texts(s.literals@),
                        texts(old(self).seen@),
                    ) && final(self).budget + names@.len() == old(self).budget),
                },
            },
    {
        broadcast use lemma_texts_push;

        let scan = match scan {
            Err(e) => {
                let mut message = "required module does not parse as Luau: ".to_owned();
                message.append(e.as_str());
                return Err(about_whole(message));
            },
            Ok(s) => s,
        };
        match scan.non_literal_span {
            Some(span) => {
                let mut message = LITERAL_REQUIRE_MESSAGE.to_owned();
                message.append("; computed requires cannot be resolved by the analyzer gate");
                return Err(
                    Diagnostic {
                        begin_line: span.begin_line,
                        begin_col: span.begin_col,
                        end_line: span.end_line,
                        end_col: span.end_col,
                        message,
                    },
                );
            },
            None => {},
        }
        let ghost all = texts(scan.literals@);
        let ghost seen0 = texts(self.seen@);
        let ghost budget0 = self.budget as int;
        let mut out: Vec<String> = Vec::new();
        let mut i: usize = 0;
        assert(all.skip(0) =~= all);
        assert(texts(out@) + asked(all, seen0, budget0) =~= asked(all, seen0, budget0));
        while i < scan.literals.len()
            invariant
                i <= scan.literals@.len(),
                all == texts(scan.literals@),
                self.sources == old(self).sources,
                self.queue == old(self).queue,
                self.budget + out@.len() == budget0,
                texts(out@) + asked(all.skip(i as int), texts(self.seen@), self.budget as int)
                    == asked(all, seen0, budget0),
                seen_after(all.skip(i as int), texts(self.seen@)) == seen_after(all, seen0),
            decreases scan.literals@.len() - i,
        {
            let ghost x = scan.literals@[i as int]@;
            assert(all.skip(i as int)[0] == x);
            assert(all.skip(i as int).skip(1) =~= all.skip(i + 1));
            let ghost now = texts(self.seen@);
            if !list_contains(&self.seen, scan.literals[i].as_str()) {
                self.seen.push(scan.literals[i].clone());
                assert(texts(self.seen@) =~= now.push(x));
                if self.budget > 0 {
                    let ghost before = out@;
                    self.budget = self.budget - 1;
                    out.push(scan.literals[i].clone());
                    proof {
                        let more = asked(
                            all.skip(i + 1),
                            texts(self.seen@),
                            self.budget as int,
                        );
                        assert(texts(before) + (seq![x] + more) =~= texts(out@) + more);
                    }
                }
            }
            i += 1;
        }
        assert(all.skip(i as int) =~= Seq::<Seq<char>>::empty());
        assert(texts(out@) + Seq::<Seq<char>>::empty() =~= texts(out@));
        Ok(out)
    }

    /// Takes the source of a module that was resolved: it is seeded, and
    /// scanned in its turn.
    pub fn resolved(&mut self, name: String, source: String)
        requires
            old(self).sources.wf(),
        ensures
            final(self).sources.wf(),
            forall|k: Seq<char>| #[trigger]
                lookup(final(self).sources@, k) == (if k == name@ {
                    Some(source)
                } else {
                    lookup(old(self).sources@, k)
                }),
            final(self).seen == old(self).seen,
            final(self).budget == old(self).budget,
            texts(final(self).queue@) == texts(old(self).queue@).push(source@),
    {
        broadcast use lemma_texts_push;

        self.queue.push(source.clone());
        self.sources.insert(name, source);
    }
}

/// No module is asked for twice, and no more are asked for than the budget
/// allows: what is asked for was not seen before, is seen afterwards, and comes
/// off the budget.
pub proof fn law_seeding_is_bounded(names: Seq<Seq<char>>, seen: Seq<Seq<char>>, budget: int)
    requires
        budget >= 0,
    ensures
        asked(names, seen, budget).len() <= budget,
        asked(names, seen, budget).no_duplicates(),
        forall|n: Seq<char>| #[trigger]
            asked(names, seen, budget).contains(n) ==> !seen.contains(n) && names.contains(n)
                && seen_after(names, seen).contains(n),
        forall|n: Seq<char>| seen.contains(n) ==> #[trigger] seen_after(names, seen).contains(n),
{
    lemma_asked(names, seen, budget);
}

// ── Admission ──

/// The sources of those of the named modules that are served, in order.
pub open spec fn served_sources(
    names: Seq<Seq<char>>,
    served: spec_fn(Seq<char>) -> Option<Seq<char>>,
) -> Seq<Seq<char>>
    decreases names.len(),
{
    if names.len() == 0 {
        Seq::empty()
    } else {
        let before = served_sources(names.drop_last(), served);
        match served(names.last()) {
            Some(s) => before.push(s),
            None => before,
        }
    }
}

/// The modules once those of the named ones that are served are among them.
pub open spec fn served_modules(
    modules: Map<Seq<char>, Seq<char>>,
    names: Seq<Seq<char>>,
    served: spec_fn(Seq<char>) -> Option<Seq<char>>,
) -> Map<Seq<char>, Seq<char>>
    decreases names.len(),
{
    if names.len() == 0 {
        modules
    } else {
        let before = served_modules(modules, names.drop_last(), served);
        match served(names.last()) {
            Some(s) => before.insert(names.last(), s),
            None => before,
        }
    }
}

/// No more sources are served than modules are asked for.
pub proof fn lemma_served_len(
    names: Seq<Seq<char>>,
    served: spec_fn(Seq<char>) -> Option<Seq<char>>,
)
    ensures
        served_sources(names, served).len() <= names.len(),
    decreases names.len(),
{
    if names.len() > 0 {
        lemma_served_len(names.drop_last(), served);
    }
}

/// What scanning the queued sources, and in turn the modules that they require,
/// comes to: all modules, or why the definition is refused.
pub open spec fn admission_from(
    queue: Seq<Seq<char>>,
    seen: Seq<Seq<char>>,
    budget: nat,
    modules: Map<Seq<char>, Seq<char>>,
    served: spec_fn(Seq<char>) -> Option<Seq<char>>,
) -> Result<Map<Seq<char>, Seq<char>>, DiagnosticView>
    decreases queue.len() + budget,
{
    if queue.len() == 0 {
        Ok(modules)
    } else {
        match luau_requires(queue[0]) {
            Err(e) => Err(unparsed_refusal(e)),
            Ok((_, Some(span))) => Err(computed_refusal(span)),
            Ok((names, None)) => {
                let more = asked(names, seen, budget as int);
                proof {
                    law_seeding_is_bounded(names, seen, budget as int);
                    lemma_served_len(more, served);
                }
                admission_from(
                    queue.skip(1) + served_sources(more, served),
                    seen_after(names, seen),
                    (budget - more.len()) as nat,
                    served_modules(modules, more, served),
                    served,
                )
            },
        }
    }
}

/// What a definition must pass before it is analyzed, where `served` says which
/// modules there are: all modules that it needs, or why it is refused.
pub open spec fn admission(
    source: Seq<char>,
    served: spec_fn(Seq<char>) -> Option<Seq<char>>,
) -> Result<Map<Seq<char>, Seq<char>>, DiagnosticView> {
    match refused(source, luau_returns(source)) {
        Some(d) => Err(d),
        None => admission_from(
            seq![source],
            Seq::empty(),
            MAX_SEED_MODULES as nat,
            Map::empty(),
            served,
        ),
    }
}

/// Why a definition is refused whatever modules there are, if it is: it may not
/// be analyzed, or has a computed require itself.
pub open spec fn refused_alone(source: Seq<char>) -> Option<DiagnosticView> {
    match refused(source, luau_returns(source)) {
        Some(d) => Some(d),
        None => match luau_requires(source) {
            Ok((_, Some(span))) => Some(computed_refusal(span)),
            _ => None,
        },
    }
}

/// Whether `served` is what a resolver answers.
pub open spec fn answers<F: Fn(&str) -> Option<String>>(
    resolve: F,
    served: spec_fn(Seq<char>) -> Option<Seq<char>>,
) -> bool {
    forall|name: &str, r: Option<String>| #[trigger]
        call_ensures(resolve, (name,), r) ==> opt_text(r) == served(name@)
}

/// The modules that a list of sources holds.
pub open spec fn modules_of(sources: Seq<(Seq<char>, String)>) -> Map<Seq<char>, Seq<char>> {
    Map::new(|k: Seq<char>| lookup(sources, k) is Some, |k: Seq<char>| lookup(sources, k)->0@)
}

/// Asks for modules, and takes those that there are.
fn resolve_all<F: Fn(&str) -> Option<String>>(
    seeding: &mut Seeding,
    names: Vec<String>,
    resolve: &F,
)
    requires
        old(seeding).sources.wf(),
        forall|n: &str| #[trigger] call_requires(*resolve, (n,)),
    ensures
        final(seeding).sources.wf(),
        final(seeding).seen == old(seeding).seen,
        final(seeding).budget == old(seeding).budget,
        final(seeding).queue@.len() <= old(seeding).queue@.len() + names@.len(),
        forall|served: spec_fn(Seq<char>) -> Option<Seq<char>>| #[trigger]
            answers(*resolve, served) ==> texts(final(seeding).queue@) == texts(
                old(seeding).queue@,
            ) + served_sources(texts(names@), served) && modules_of(final(seeding).sources@)
                == served_modules(modules_of(old(seeding).sources@), texts(names@), served),
{
    let ghost all = texts(names@);
    let ghost queue0 = texts(seeding.queue@);
    let ghost modules0 = modules_of(seeding.sources@);
    let mut i: usize = 0;
    assert forall|served: spec_fn(Seq<char>) -> Option<Seq<char>>| #[trigger]
        answers(*resolve, served) implies queue0 =~= queue0 + served_sources(all.take(0), served)
        && modules0 == served_modules(modules0, all.take(0), served) by {}
    while i < names.len()
        invariant
            i <= names@.len(),
            all == texts(names@),
            seeding.sources.wf(),
            seeding.seen == old(seeding).seen,
            seeding.budget == old(seeding).budget,
            seeding.queue@.len() <= old(seeding).queue@.len() + i,
            forall|n: &str| #[trigger] call_requires(*resolve, (n,)),
            forall|served: spec_fn(Seq<char>) -> Option<Seq<char>>| #[trigger]
                answers(*resolve, served) ==> texts(seeding.queue@) == queue0 + served_sources(
                    all.take(i as int),
                    served,
                ) && modules_of(seeding.sources@) == served_modules(
                    modules0,
                    all.take(i as int),
                    served,
                ),
        decreases names@.len() - i,
    {
        let ghost before = *seeding;
        let ghost name = names@[i as int]@;
        assert(all.take(i + 1).drop_last() =~= all.take(i as int));
        assert(all.take(i + 1).last() == name);
        let found = resolve(names[i].as_str());
        let ghost said = opt_text(found);
        match found {
            Some(source) => {
                seeding.resolved(names[i].clone(), source);
                assert(texts(seeding.queue@).len() == seeding.queue@.len());
                assert(texts(before.queue@).len() == before.queue@.len());
                assert(modules_of(seeding.sources@) =~= modules_of(before.sources@).insert(
                    name,
                    said->0,
                ));
            },
            None => {},
        }
        assert forall|served: spec_fn(Seq<char>) -> Option<Seq<char>>| #[trigger]
            answers(*resolve, served) implies texts(seeding.queue@) == queue0 + served_sources(
            all.take(i + 1),
            served,
        ) && modules_of(seeding.sources@) == served_modules(
            modules0,
            all.take(i + 1),
            served,
        ) by {
            assert(said == served(name));
            let so_far = served_sources(all.take(i as int), served);
            if said is Some {
                assert(queue0 + so_far.push(said->0) =~= (queue0 + so_far).push(said->0));
            }
        }
        i += 1;
    }
    assert(all.take(i as int) =~= all);
}

/// Decides whether a definition may be analyzed, and collects the modules that
/// it requires, and those that they require, from `resolve`. What cannot be
/// resolved is left out.
pub fn check_inputs<F: Fn(&str) -> Option<String>>(source: &str, resolve: &F) -> (r: Result<
    Ordered<String>,
    Diagnostic,
>)
    requires
        forall|n: &str| #[trigger] call_requires(*resolve, (n,)),
    ensures
        r matches Ok(sources) ==> sources.wf(),
        refused_alone(source@) is Some ==> (r matches Err(d) && Some(d@) == refused_alone(
            source@,
        )),
        forall|served: spec_fn(Seq<char>) -> Option<Seq<char>>| #[trigger]
            answers(*resolve, served) ==> match r {
                Ok(sources) => admission(source@, served) == Ok::<
                    Map<Seq<char>, Seq<char>>,
                    DiagnosticView,
                >(modules_of(sources@)),
                Err(d) => admission(source@, served) == Err::<
                    Map<Seq<char>, Seq<char>>,
                    DiagnosticView,
                >(d@),
            },
{
    let mut seeding = match begin_check(source) {
        Err(d) => {
            return Err(d);
        },
        Ok(s) => s,
    };
    let ghost first = seq![source@];
    let ghost full = MAX_SEED_MODULES as nat;
    assert(texts(seeding.seen@) =~= Seq::<Seq<char>>::empty());
    assert(modules_of(seeding.sources@) =~= Map::<Seq<char>, Seq<char>>::empty());
    loop
        invariant
            seeding.sources.wf(),
            refused(source@, luau_returns(source@)) is None,
            first == seq![source@],
            full == MAX_SEED_MODULES,
            texts(seeding.queue@) == first || (luau_requires(source@) matches Ok(q) && q.1 is None),
            forall|n: &str| #[trigger] call_requires(*resolve, (n,)),
            forall|served: spec_fn(Seq<char>) -> Option<Seq<char>>| #[trigger]
                answers(*resolve, served) ==> admission_from(
                    first,
                    Seq::empty(),
                    full,
                    Map::empty(),
                    served,
                ) == admission_from(
                    texts(seeding.queue@),
                    texts(seeding.seen@),
                    seeding.budget as nat,
                    modules_of(seeding.sources@),
                    served,
                ),
        decreases seeding.queue@.len() + seeding.budget,
    {
        let ghost before = seeding;
        let ghost queue = texts(seeding.queue@);
        assert(queue.len() == seeding.queue@.len());
        let text = match seeding.next_source() {
            None => {
                return Ok(seeding.sources);
            },
            Some(t) => t,
        };
        assert(text@ == queue[0]);
        assert(texts(seeding.queue@).len() == seeding.queue@.len());
        let scan = scan_source(text.as_str());
        let ghost model = luau_requires(text@);
        let names = match seeding.scanned(scan) {
            Err(d) => {
                return Err(d);
            },
            Ok(names) => names,
        };
        resolve_all(&mut seeding, names, resolve);
    }
}

// ── What the analyzer says ──

/// The models of diagnostics.
pub open spec fn diagnostic_views(v: Seq<Diagnostic>) -> Seq<DiagnosticView> {
    v.map_values(|d: Diagnostic| d@)
}

/// What is reported of an analysis: its diagnostics, or, where a module ran out
/// of time, that alone. What a module says that was cut off is not reliable.
pub open spec fn bounded(
    found: Seq<DiagnosticView>,
    timeouts: u32,
    limit: Option<Seq<char>>,
) -> Seq<DiagnosticView> {
    if timeouts == 0 {
        found
    } else {
        seq![
            of_whole(
                "analysis timed out"@ + (match limit {
                    Some(secs) => " after "@ + secs + "s"@,
                    None => Seq::empty(),
                }),
            ),
        ]
    }
}

/// What is reported of an analysis, given how many modules ran out of time, and
/// the limit in seconds.
pub fn check_bounded(found: Vec<Diagnostic>, timeouts: u32, limit: Option<&str>) -> (r: Vec<
    Diagnostic,
>)
    ensures
        diagnostic_views(r@) == bounded(diagnostic_views(found@), timeouts, opt_str(limit)),
{
    if timeouts == 0 {
        return found;
    }
    let mut after = String::new();
    assert(after@ =~= Seq::<char>::empty());
    match limit {
        Some(secs) => {
            after = " after ".to_owned();
            after.append(secs);
            after.append("s");
        },
        None => {},
    }
    let mut message = "analysis timed out".to_owned();
    message.append(after.as_str());
    let mut out: Vec<Diagnostic> = Vec::new();
    out.push(about_whole(message));
    assert(diagnostic_views(out@) =~= bounded(
        diagnostic_views(found@),
        timeouts,
        opt_str(limit),
    ));
    out
}

/// What is reported of an analysis in a worker: what the worker says, or that it
/// failed.
pub fn worker_diagnostics(reply: Result<Vec<Diagnostic>, String>) -> (r: Vec<Diagnostic>)
    ensures
        match reply {
            Ok(v) => r == v,
            Err(e) => diagnostic_views(r@) == seq![of_whole("analyzer worker failed: "@ + e@)],
        },
{
    match reply {
        Ok(v) => v,
        Err(e) => {
            let mut message = "analyzer worker failed: ".to_owned();
            message.append(e.as_str());
            let mut out: Vec<Diagnostic> = Vec::new();
            out.push(about_whole(message));
            assert(diagnostic_views(out@) =~= seq![
                of_whole("analyzer worker failed: "@ + e@),
            ]);
            out
        },
    }
}

/// An analysis that ran out of time never passes: it reports exactly one
/// diagnostic, whatever else was found.
pub proof fn law_timeouts_fail_closed(
    found: Seq<DiagnosticView>,
    timeouts: u32,
    limit: Option<Seq<char>>,
)
    requires
        timeouts > 0,
    ensures
        bounded(found, timeouts, limit).len() == 1,
{
}

// ── The two ways to check ──

/// What is handed to the analyzer: a definition that passed, and the modules
/// that it requires.
#[derive(Debug)]
pub struct CheckRequest {
    pub label: String,
    pub entry: String,
    pub sources: Ordered<String>,
}

/// Whether a request is for a definition and its modules.
pub open spec fn requests(
    q: CheckRequest,
    label: Seq<char>,
    source: Seq<char>,
    modules: Map<Seq<char>, Seq<char>>,
) -> bool {
    q.label@ == label && q.entry@ == source && q.sources.wf() && modules_of(q.sources@) == modules
}

/// Whether `r` is what checking a definition in this process reports, where
/// `inputs` is what admission comes to: the refusal and nothing else, or what
/// an analysis of the definition and its modules finds within the limit.
pub open spec fn checked_in_process<A: Fn(&CheckRequest) -> (Vec<Diagnostic>, u32)>(
    r: Seq<DiagnosticView>,
    label: Seq<char>,
    source: Seq<char>,
    inputs: Result<Map<Seq<char>, Seq<char>>, DiagnosticView>,
    analyze: A,
    limit: Option<Seq<char>>,
) -> bool {
    match inputs {
        Err(d) => r == seq![d],
        Ok(modules) => exists|q: &CheckRequest, out: (Vec<Diagnostic>, u32)|
            requests(*q, label, source, modules) && #[trigger] call_ensures(analyze, (q,), out)
                && r == bounded(diagnostic_views(out.0@), out.1, limit),
    }
}

/// What is reported of a worker's reply.
pub open spec fn worker_report(reply: Result<Vec<Diagnostic>, String>) -> Seq<DiagnosticView> {
    match reply {
        Ok(v) => diagnostic_views(v@),
        Err(e) => seq![of_whole("analyzer worker failed: "@ + e@)],
    }
}

/// Whether `r` is what checking a definition in a worker reports, where `inputs`
/// is what admission comes to: the refusal and nothing else, or what a worker
/// replies that was handed the definition and its modules.
pub open spec fn checked_in_worker<W: Fn(&CheckRequest) -> Result<Vec<Diagnostic>, String>>(
    r: Seq<DiagnosticView>,
    label: Seq<char>,
    source: Seq<char>,
    inputs: Result<Map<Seq<char>, Seq<char>>, DiagnosticView>,
    run: W,
) -> bool {
    match inputs {
        Err(d) => r == seq![d],
        Ok(modules) => exists|q: &CheckRequest, reply: Result<Vec<Diagnostic>, String>|
            requests(*q, label, source, modules) && #[trigger] call_ensures(run, (q,), reply) && r
                == worker_report(reply),
    }
}

fn report_refusal(d: Diagnostic) -> (r: Vec<Diagnostic>)
    ensures
        diagnostic_views(r@) == seq![d@],
{
    let mut out: Vec<Diagnostic> = Vec::new();
    out.push(d);
    assert(diagnostic_views(out@) =~= seq![d@]);
    out
}

/// Checks a definition in this process: admits it, then with `analyze`,
/// which gives what it found and how many modules ran out of time.
pub fn check_definition<
    F: Fn(&str) -> Option<String>,
    A: Fn(&CheckRequest) -> (Vec<Diagnostic>, u32),
>(label: &str, source: &str, resolve: &F, analyze: &A, limit: Option<&str>) -> (r: Vec<Diagnostic>)
    requires
        forall|n: &str| #[trigger] call_requires(*resolve, (n,)),
        forall|q: &CheckRequest| #[trigger] call_requires(*analyze, (q,)),
    ensures
        refused_alone(source@) is Some ==> diagnostic_views(r@) == seq![refused_alone(source@)->0],
        forall|served: spec_fn(Seq<char>) -> Option<Seq<char>>| #[trigger]
            answers(*resolve, served) ==> checked_in_process(
                diagnostic_views(r@),
                label@,
                source@,
                admission(source@, served),
                *analyze,
                opt_str(limit),
            ),
{
    let sources = match check_inputs(source, resolve) {
        Err(d) => {
            return report_refusal(d);
        },
        Ok(s) => s,
    };
    let request = CheckRequest { label: label.to_owned(), entry: source.to_owned(), sources };
    let (found, timeouts) = analyze(&request);
    check_bounded(found, timeouts, limit)
}

/// Checks a definition in a worker: admits it, then with `run`, which
/// hands the request to a worker and gives its reply, or why there is none.
pub fn check_definition_in_worker<
    F: Fn(&str) -> Option<String>,
    W: Fn(&CheckRequest) -> Result<Vec<Diagnostic>, String>,
>(label: &str, source: &str, resolve: &F, run: &W) -> (r: Vec<Diagnostic>)
    requires
        forall|n: &str| #[trigger] call_requires(*resolve, (n,)),
        forall|q: &CheckRequest| #[trigger] call_requires(*run, (q,)),
    ensures
        refused_alone(source@) is Some ==> diagnostic_views(r@) == seq![refused_alone(source@)->0],
        forall|served: spec_fn(Seq<char>) -> Option<Seq<char>>| #[trigger]
            answers(*resolve, served) ==> checked_in_worker(
                diagnostic_views(r@),
                label@,
                source@,
                admission(source@, served),
                *run,
            ),
{
    let sources = match check_inputs(source, resolve) {
        Err(d) => {
            return report_refusal(d);
        },
        Ok(s) => s,
    };
    let request = CheckRequest { label: label.to_owned(), entry: source.to_owned(), sources };
    let reply = run(&request);
    worker_diagnostics(reply)
}

/// The two ways to check refuse the same definitions and say the same of them:
/// one diagnostic, the refusal.
pub proof fn law_both_ways_refuse_alike<
    A: Fn(&CheckRequest) -> (Vec<Diagnostic>, u32),
    W: Fn(&CheckRequest) -> Result<Vec<Diagnostic>, String>,
>(
    here: Seq<DiagnosticView>,
    there: Seq<DiagnosticView>,
    label: Seq<char>,
    source: Seq<char>,
    served: spec_fn(Seq<char>) -> Option<Seq<char>>,
    analyze: A,
    limit: Option<Seq<char>>,
    run: W,
)
    requires
        admission(source, served) is Err,
        checked_in_process(here, label, source, admission(source, served), analyze, limit),
        checked_in_worker(there, label, source, admission(source, served), run),
    ensures
        here == there,
        here == seq![admission(source, served)->Err_0],
{
}

/// Whether a source parses and requires only modules by name.
pub open spec fn requires_by_name(source: Seq<char>) -> bool {
    luau_requires(source) matches Ok(q) && q.1 is None
}

proof fn lemma_served_modules(
    modules: Map<Seq<char>, Seq<char>>,
    names: Seq<Seq<char>>,
    served: spec_fn(Seq<char>) -> Option<Seq<char>>,
)
    ensures
        forall|k: Seq<char>| #[trigger]
            served_modules(modules, names, served).dom().contains(k) ==> (modules.dom().contains(k)
                && served_modules(modules, names, served)[k] == modules[k]) || served_sources(
                names,
                served,
            ).contains(served_modules(modules, names, served)[k]),
    decreases names.len(),
{
    if names.len() > 0 {
        lemma_served_modules(modules, names.drop_last(), served);
        let before = served_modules(modules, names.drop_last(), served);
        let sources = served_sources(names.drop_last(), served);
        if let Some(s) = served(names.last()) {
            assert forall|k: Seq<char>| #[trigger]
                served_modules(modules, names, served).dom().contains(k) implies (
            modules.dom().contains(k) && served_modules(modules, names, served)[k] == modules[k])
                || served_sources(names, served).contains(
                served_modules(modules, names, served)[k],
            ) by {
                if k == names.last() {
                    assert(sources.push(s)[sources.len() as int] == s);
                } else {
                    assert(before.dom().contains(k));
                    if sources.contains(before[k]) {
                        let j = choose|j: int| 0 <= j < sources.len() && sources[j] == before[k];
                        assert(sources.push(s)[j] == before[k]);
                    }
                }
            }
        }
    }
}

proof fn lemma_admission_from(
    queue: Seq<Seq<char>>,
    seen: Seq<Seq<char>>,
    budget: nat,
    modules: Map<Seq<char>, Seq<char>>,
    served: spec_fn(Seq<char>) -> Option<Seq<char>>,
)
    requires
        admission_from(queue, seen, budget, modules, served) is Ok,
    ensures
        forall|i: int| 0 <= i < queue.len() ==> requires_by_name(#[trigger] queue[i]),
        forall|k: Seq<char>| #[trigger]
            admission_from(queue, seen, budget, modules, served)->Ok_0.dom().contains(k) ==> (
            modules.dom().contains(k) && admission_from(queue, seen, budget, modules, served)->Ok_0[k]
                == modules[k]) || requires_by_name(
                admission_from(queue, seen, budget, modules, served)->Ok_0[k],
            ),
    decreases queue.len() + budget,
{
    if queue.len() > 0 {
        let names = luau_requires(queue[0])->Ok_0.0;
        let more = asked(names, seen, budget as int);
        law_seeding_is_bounded(names, seen, budget as int);
        lemma_served_len(more, served);
        let sources = served_sources(more, served);
        let next = queue.skip(1) + sources;
        let grown = served_modules(modules, more, served);
        lemma_admission_from(next, seen_after(names, seen), (budget - more.len()) as nat, grown, served);
        lemma_served_modules(modules, more, served);
        assert forall|i: int| 0 <= i < queue.len() implies requires_by_name(#[trigger] queue[i]) by {
            if i > 0 {
                assert(next[i - 1] == queue[i]);
            }
        }
        let all = admission_from(queue, seen, budget, modules, served)->Ok_0;
        assert forall|k: Seq<char>| #[trigger] all.dom().contains(k) implies (
        modules.dom().contains(k) && all[k] == modules[k]) || requires_by_name(all[k]) by {
            if !requires_by_name(all[k]) {
                assert(grown.dom().contains(k) && all[k] == grown[k]);
                if sources.contains(grown[k]) {
                    let j = choose|j: int| 0 <= j < sources.len() && sources[j] == grown[k];
                    assert(next[queue.len() - 1 + j] == grown[k]);
                }
            }
        }
    }
}

/// What is admitted holds no NUL and no comment that downgrades the
/// analyzer, and it and every module that goes with it parses and requires only
/// by name.
pub proof fn law_computed_requires_never_pass(
    source: Seq<char>,
    served: spec_fn(Seq<char>) -> Option<Seq<char>>,
)
    requires
        admission(source, served) is Ok,
    ensures
        !source.contains('\0'),
        downgrade_of(encode_utf8(source)) is None,
        requires_by_name(source),
        forall|k: Seq<char>| #[trigger]
            admission(source, served)->Ok_0.dom().contains(k) ==> requires_by_name(
                admission(source, served)->Ok_0[k],
            ),
{
    lemma_admission_from(
        seq![source],
        Seq::empty(),
        MAX_SEED_MODULES as nat,
        Map::empty(),
        served,
    );
    assert(requires_by_name(seq![source][0]));
}

// ── What is found in a source ──

/// The first fault of the first token that has one counts.
pub proof fn law_the_first_fault_counts(v: Seq<LexedView>)
    ensures
        match first_fault(v) {
            Some(f) => exists|i: int|
                0 <= i < v.len() && faults_of(#[trigger] v[i]).len() > 0 && faults_of(v[i])[0] == f
                    && forall|j: int| 0 <= j < i ==> faults_of(#[trigger] v[j]).len() == 0,
            None => forall|j: int| 0 <= j < v.len() ==> faults_of(#[trigger] v[j]).len() == 0,
        },
    decreases v.len(),
{
    if v.len() > 0 {
        let tail = v.skip(1);
        if faults_of(v[0]).len() == 0 {
            law_the_first_fault_counts(tail);
            match first_fault(tail) {
                Some(f) => {
                    let i = choose|i: int|
                        0 <= i < tail.len() && faults_of(#[trigger] tail[i]).len() > 0 && faults_of(
                            tail[i],
                        )[0] == f && forall|j: int|
                            0 <= j < i ==> faults_of(#[trigger] tail[j]).len() == 0;
                    assert(v[i + 1] == tail[i]);
                    assert forall|j: int| 0 <= j < i + 1 implies faults_of(
                        #[trigger] v[j],
                    ).len() == 0 by {
                        if j > 0 {
                            assert(tail[j - 1] == v[j]);
                        }
                    }
                },
                None => {
                    assert forall|j: int| 0 <= j < v.len() implies faults_of(
                        #[trigger] v[j],
                    ).len() == 0 by {
                        if j > 0 {
                            assert(tail[j - 1] == v[j]);
                        }
                    }
                },
            }
        } else {
            assert(v[0] == v[0]);
        }
    }
}

/// A fault is told with its line where that is known.
pub proof fn law_faults_are_told_with_their_line(text: Seq<char>, line: usize)
    ensures
        fault_text(Some((text, Some(line)))) == text + " (at line "@ + decimal(line as nat) + ")"@,
        fault_text(Some((text, None))) == text,
{
}

/// Every field of a table with a key is found where it stands: one that is
/// written by name or by a literal, and nothing else.
pub proof fn law_every_field_with_a_key_is_found(
    fields: Seq<FieldKeyView>,
    key: Seq<char>,
    span: Span,
)
    ensures
        field_hits(fields, key).contains(span) <==> exists|i: int|
            0 <= i < fields.len() && match #[trigger] fields[i] {
                FieldKeyView::Name(n, Some(r)) => n == key && span == span_of(r),
                FieldKeyView::Computed(Some(n), Some(r)) => n == key && span == span_of(r),
                _ => false,
            },
    decreases fields.len(),
{
    if fields.len() > 0 {
        let r = fields.drop_last();
        law_every_field_with_a_key_is_found(r, key, span);
        let before = field_hits(r, key);
        let all = field_hits(fields, key);
        let last = fields.len() - 1;
        if all.contains(span) {
            let k = choose|k: int| 0 <= k < all.len() && all[k] == span;
            if k < before.len() {
                assert(before[k] == span);
                assert(before.contains(span));
                let i = choose|i: int|
                    0 <= i < r.len() && match #[trigger] r[i] {
                        FieldKeyView::Name(n, Some(r)) => n == key && span == span_of(r),
                        FieldKeyView::Computed(Some(n), Some(r)) => n == key && span == span_of(r),
                        _ => false,
                    };
                assert(fields[i] == r[i]);
            } else {
                assert(fields[last] == fields.last());
            }
        }
        if exists|i: int|
            0 <= i < fields.len() && match #[trigger] fields[i] {
                FieldKeyView::Name(n, Some(r)) => n == key && span == span_of(r),
                FieldKeyView::Computed(Some(n), Some(r)) => n == key && span == span_of(r),
                _ => false,
            } {
            let i = choose|i: int|
                0 <= i < fields.len() && match #[trigger] fields[i] {
                    FieldKeyView::Name(n, Some(r)) => n == key && span == span_of(r),
                    FieldKeyView::Computed(Some(n), Some(r)) => n == key && span == span_of(r),
                    _ => false,
                };
            if i == last {
                assert(all[before.len() as int] == span);
            } else {
                assert(r[i] == fields[i]);
                assert(before.contains(span));
                let k = choose|k: int| 0 <= k < before.len() && before[k] == span;
                assert(all[k] == span);
            }
        }
    }
}

/// Tables are looked into wherever they stand: by themselves, in brackets, and
/// as arguments of calls and methods.
pub proof fn law_tables_are_looked_into(
    e: ExprView,
    f: Seq<FieldKeyView>,
    v: Seq<LinkView>,
    l: LinkView,
    es: Seq<ExprView>,
    key: Seq<char>,
)
    ensures
        hits(ExprView::Table(f), key) == field_hits(f, key),
        hits(ExprView::Paren(Box::new(e)), key) == hits(e, key),
        hits(ExprView::Other, key).len() == 0,
        link_hits(LinkView::Call(ArgsView::Table(f)), key) == field_hits(f, key),
        link_hits(LinkView::Method(ArgsView::Table(f)), key) == field_hits(f, key),
        link_hits(LinkView::Call(ArgsView::Parens(es)), key) == hits_upto(
            es,
            es.len() as int,
            key,
        ),
        link_hits(LinkView::Method(ArgsView::Parens(es)), key) == hits_upto(
            es,
            es.len() as int,
            key,
        ),
        link_hits(LinkView::Other, key).len() == 0,
{
    reveal_with_fuel(link_hits, 2);
    reveal_with_fuel(args_hits, 2);
    reveal_with_fuel(hits, 2);
}

/// What the values hold is found one value behind the other, and what a call
/// holds one link behind the other.
pub proof fn law_values_are_searched_in_order(
    es: Seq<ExprView>,
    ls: Seq<LinkView>,
    n: int,
    key: Seq<char>,
)
    ensures
        hits_upto(es, 0, key).len() == 0,
        0 <= n < es.len() ==> hits_upto(es, n + 1, key) == hits_upto(es, n, key) + hits(es[n], key),
        hits(ExprView::Call(ls), key) == chain_hits(ls, ls.len() as int, key),
        chain_hits(ls, 0, key).len() == 0,
        0 <= n < ls.len() ==> chain_hits(ls, n + 1, key) == chain_hits(ls, n, key) + link_hits(
            ls[n],
            key,
        ),
{
}

/// A key that stands in exactly one place is located there.
pub proof fn law_unique_keys_are_located(v: Seq<ExprView>, key: Seq<char>, span: Span)
    ensures
        unique_hit(v, key) == Some(span) <==> hits_upto(v, v.len() as int, key) == seq![span],
{
    let all = hits_upto(v, v.len() as int, key);
    if all.len() == 1 {
        assert(all =~= seq![all[0]]);
    }
    if all == seq![span] {
        assert(all[0] == span);
    }
}

/// A span runs from the beginning of its range to the last column in it.
pub proof fn law_spans_end_in_their_range(r: SourceRange)
    requires
        r.begin_line <= u32::MAX,
        r.begin_col <= u32::MAX,
        r.end_line <= u32::MAX,
        r.end_col <= u32::MAX,
    ensures
        span_of(r).begin_line == r.begin_line,
        span_of(r).begin_col == r.begin_col,
        span_of(r).end_line == r.end_line,
        r.end_col > 0 ==> span_of(r).end_col == r.end_col - 1,
        r.end_col == 0 ==> span_of(r).end_col == 0,
{
}

/// A call of `require` with one literal, in brackets or not, requires the module
/// of that name; with anything else it is computed; and any other call is none.
pub proof fn law_requires_are_recognized(
    begin: (usize, usize),
    end: Option<(usize, usize)>,
    name: Seq<char>,
    rest: Seq<Option<PlainCallView>>,
    args: CallArgsView,
    other: Seq<char>,
)
    ensures
        site_class(
            (CallSiteView {
                name: Some(("require"@, begin)),
                links: seq![Some(PlainCallView { args: CallArgsView::Text(name), end })] + rest,
            }),
        ) == SiteClass::Literal(name),
        site_class(
            (CallSiteView {
                name: Some(("require"@, begin)),
                links: seq![
                    Some(PlainCallView { args: CallArgsView::Parens(seq![Some(name)]), end }),
                ] + rest,
            }),
        ) == SiteClass::Literal(name),
        site_class(
            (CallSiteView {
                name: Some(("require"@, begin)),
                links: seq![Some(PlainCallView { args: CallArgsView::Other, end })] + rest,
            }),
        ) is Computed,
        site_class(
            (CallSiteView {
                name: Some(("require"@, begin)),
                links: seq![Some(PlainCallView { args: CallArgsView::Parens(seq![None]), end })]
                    + rest,
            }),
        ) is Computed,
        (args matches CallArgsView::Parens(v) && v.len() != 1) ==> site_class(
            (CallSiteView {
                name: Some(("require"@, begin)),
                links: seq![Some(PlainCallView { args, end })] + rest,
            }),
        ) is Computed,
        other != "require"@ ==> site_class(
            (CallSiteView {
                name: Some((other, begin)),
                links: seq![Some(PlainCallView { args, end })] + rest,
            }),
        ) is Other,
        site_class(
            (CallSiteView { name: None, links: seq![Some(PlainCallView { args, end })] + rest }),
        ) is Other,
{
    let a = seq![Some(PlainCallView { args: CallArgsView::Text(name), end })] + rest;
    assert(a[0] == Some(PlainCallView { args: CallArgsView::Text(name), end }));
    let b = seq![Some(PlainCallView { args: CallArgsView::Parens(seq![Some(name)]), end })] + rest;
    assert(b[0] == Some(PlainCallView { args: CallArgsView::Parens(seq![Some(name)]), end }));
    let c = seq![Some(PlainCallView { args: CallArgsView::Other, end })] + rest;
    assert(c[0] == Some(PlainCallView { args: CallArgsView::Other, end }));
    let d = seq![Some(PlainCallView { args, end })] + rest;
    assert(d[0] == Some(PlainCallView { args, end }));
}

/// Every module that is required by name is found, and the first computed
/// require of all counts.
pub proof fn law_every_require_is_found(sites: Seq<CallSiteView>, n: Seq<char>)
    ensures
        literal_names(sites).contains(n) <==> exists|i: int|
            0 <= i < sites.len() && site_class(#[trigger] sites[i]) == SiteClass::Literal(n),
        first_computed(sites) is None <==> forall|i: int|
            0 <= i < sites.len() ==> !(site_class(#[trigger] sites[i]) is Computed),
        first_computed(sites) matches Some(s) ==> exists|i: int|
            0 <= i < sites.len() && site_class(#[trigger] sites[i]) == SiteClass::Computed(s)
                && forall|j: int| 0 <= j < i ==> !(site_class(#[trigger] sites[j]) is Computed),
    decreases sites.len(),
{
    if sites.len() > 0 {
        let r = sites.drop_last();
        law_every_require_is_found(r, n);
        let before = literal_names(r);
        let all = literal_names(sites);
        let last = sites.len() - 1;
        assert(sites[last] == sites.last());
        assert forall|i: int| 0 <= i < r.len() implies r[i] == #[trigger] sites[i] by {}
        if all.contains(n) {
            let k = choose|k: int| 0 <= k < all.len() && all[k] == n;
            if k < before.len() {
                assert(before[k] == n);
                assert(before.contains(n));
                let i = choose|i: int|
                    0 <= i < r.len() && site_class(#[trigger] r[i]) == SiteClass::Literal(n);
                assert(site_class(sites[i]) == SiteClass::Literal(n));
            }
        }
        if exists|i: int|
            0 <= i < sites.len() && site_class(#[trigger] sites[i]) == SiteClass::Literal(n) {
            let i = choose|i: int|
                0 <= i < sites.len() && site_class(#[trigger] sites[i]) == SiteClass::Literal(n);
            if i == last {
                assert(all[before.len() as int] == n);
            } else {
                assert(r[i] == sites[i]);
                assert(before.contains(n));
                let k = choose|k: int| 0 <= k < before.len() && before[k] == n;
                assert(all[k] == n);
            }
        }
        match first_computed(r) {
            Some(s) => {
                let i = choose|i: int|
                    0 <= i < r.len() && site_class(#[trigger] r[i]) == SiteClass::Computed(s)
                        && forall|j: int|
                        0 <= j < i ==> !(site_class(#[trigger] r[j]) is Computed);
                assert(site_class(sites[i]) == SiteClass::Computed(s));
                assert forall|j: int| 0 <= j < i implies !(site_class(
                    #[trigger] sites[j],
                ) is Computed) by {
                    assert(r[j] == sites[j]);
                }
            },
            None => {
                assert forall|j: int| 0 <= j < last implies !(site_class(
                    #[trigger] sites[j],
                ) is Computed) by {
                    assert(r[j] == sites[j]);
                }
            },
        }
    }
}

/// A definition is refused exactly where it holds a NUL, downgrades the analyzer
/// or does not parse.
pub proof fn law_definitions_are_refused_for_a_reason(
    source: Seq<char>,
    parsed: Result<Seq<ExprView>, Option<(Seq<char>, Option<usize>)>>,
)
    ensures
        refused(source, parsed) is None <==> !source.contains('\0') && first_downgrade(
            encode_utf8(source),
            0,
        ) is None && parsed is Ok,
        refused_unread(source) is None <==> !source.contains('\0') && first_downgrade(
            encode_utf8(source),
            0,
        ) is None,
{
}

/// Every module that is asked for and served is among the modules with its
/// source, and no module comes from elsewhere.
pub proof fn law_served_modules_are_kept(
    modules: Map<Seq<char>, Seq<char>>,
    names: Seq<Seq<char>>,
    served: spec_fn(Seq<char>) -> Option<Seq<char>>,
    k: Seq<char>,
)
    ensures
        names.contains(k) && served(k) is Some ==> served_modules(modules, names, served).dom().contains(
            k,
        ) && served_modules(modules, names, served)[k] == served(k)->0,
        !(names.contains(k) && served(k) is Some) ==> (served_modules(
            modules,
            names,
            served,
        ).dom().contains(k) <==> modules.dom().contains(k)),
    decreases names.len(),
{
    if names.len() > 0 {
        let r = names.drop_last();
        law_served_modules_are_kept(modules, r, served, k);
        assert(names[names.len() - 1] == names.last());
        if names.contains(k) && k != names.last() {
            let i = choose|i: int| 0 <= i < names.len() && names[i] == k;
            assert(r[i] == k);
        }
        if r.contains(k) {
            let i = choose|i: int| 0 <= i < r.len() && r[i] == k;
            assert(names[i] == k);
        }
    }
}

/// With enough budget every name that was not seen is asked for.
pub proof fn law_every_new_module_is_asked_for(
    names: Seq<Seq<char>>,
    seen: Seq<Seq<char>>,
    budget: int,
    n: Seq<char>,
)
    requires
        names.len() <= budget,
        names.contains(n),
        !seen.contains(n),
    ensures
        asked(names, seen, budget).contains(n),
    decreases names.len(),
{
    let tail = names.skip(1);
    let all = asked(names, seen, budget);
    let at = choose|i: int| 0 <= i < names.len() && names[i] == n;
    if seen.contains(names[0]) {
        assert(tail[at - 1] == n);
        law_every_new_module_is_asked_for(tail, seen, budget, n);
    } else if names[0] == n {
        assert(all[0] == n);
    } else {
        assert(tail[at - 1] == n);
        let more = seen.push(names[0]);
        assert(!more.contains(n)) by {
            if more.contains(n) {
                let k = choose|k: int| 0 <= k < more.len() && more[k] == n;
                if k < seen.len() {
                    assert(seen[k] == n);
                }
            }
        }
        law_every_new_module_is_asked_for(tail, more, budget - 1, n);
        let rest = asked(tail, more, budget - 1);
        let k = choose|k: int| 0 <= k < rest.len() && rest[k] == n;
        assert(all[k + 1] == n);
    }
}

proof fn lemma_line_start(b: Seq<u8>, i: int, s: int)
    requires
        0 <= s <= i <= b.len(),
        s == 0 || b[s - 1] == 0x0a,
        forall|k: int| s <= k < i ==> #[trigger] b[k] != 0x0a,
    ensures
        line_start(b, i) == s,
        newlines(b, i) == newlines(b, s),
    decreases i - s,
{
    if i > s {
        assert(b[i - 1] != 0x0a);
        lemma_line_start(b, i - 1, s);
    }
}

/// A byte is on the line behind as many newlines as stand before it, and in the
/// column behind as many bytes as stand before it on the line.
pub proof fn law_places_count_lines_and_columns(b: Seq<u8>, s: int, i: int)
    requires
        0 <= s <= i <= b.len() < u32::MAX,
        s == 0 || b[s - 1] == 0x0a,
        forall|k: int| s <= k < i ==> #[trigger] b[k] != 0x0a,
    ensures
        col_of(b, i) == i - s + 1,
        newlines(b, i) == newlines(b, s),
        s > 0 ==> newlines(b, s) == newlines(b, s - 1) + 1,
        newlines(b, 0) == 0,
{
    lemma_line_start(b, i, s);
}

// ── How a source is scanned ──

proof fn lemma_word_end_is(b: Seq<u8>, i: int, n: int)
    requires
        0 <= i <= n <= b.len(),
        forall|k: int| i <= k < n ==> is_word_byte(#[trigger] b[k]),
        n < b.len() ==> !is_word_byte(b[n]),
    ensures
        word_end(b, i) == n,
    decreases n - i,
{
    if i < n {
        lemma_word_end_is(b, i + 1, n);
    }
}

/// A comment `--!` with one of the two words that downgrade the analyzer does so
/// where white space or the end of the source follows the word; followed by
/// anything else, or with another word, it does not.
pub proof fn law_hot_comments_downgrade(b: Seq<u8>, i: int, n: int)
    requires
        0 <= i,
        i + 3 <= n <= b.len(),
        b[i] == 0x2d,
        b[i + 1] == 0x2d,
        b[i + 2] == 0x21,
        forall|k: int| i + 3 <= k < n ==> is_word_byte(#[trigger] b[k]),
        n < b.len() ==> !is_word_byte(b[n]),
        n > i + 3,
    ensures
        downgrade_at(b, i) is Some <==> (b.subrange(i + 3, n) == encode_utf8("nonstrict"@)
            || b.subrange(i + 3, n) == encode_utf8("nocheck"@)) && (n == b.len() || b[n] == 0x20
            || b[n] == 0x09 || b[n] == 0x0d || b[n] == 0x0a),
{
    lemma_word_end_is(b, i + 3, n);
}

/// Only a comment `--!` downgrades the analyzer.
pub proof fn law_only_hot_comments_downgrade(b: Seq<u8>, i: int)
    requires
        0 <= i < b.len(),
        downgrade_at(b, i) is Some,
    ensures
        i + 3 < b.len() && b[i] == 0x2d && b[i + 1] == 0x2d && b[i + 2] == 0x21,
        downgrade_at(b, i)->0 == "nonstrict"@ || downgrade_at(b, i)->0 == "nocheck"@,
{
}

proof fn lemma_line_end_is(b: Seq<u8>, i: int, n: int)
    requires
        0 <= i <= n <= b.len(),
        forall|k: int| i <= k < n ==> #[trigger] b[k] != 0x0a,
        n < b.len() ==> b[n] == 0x0a,
    ensures
        line_end(b, i) == n,
    decreases n - i,
{
    if i < n {
        lemma_line_end_is(b, i + 1, n);
    }
}

/// A comment without a long bracket ends with its line.
pub proof fn law_comments_end_with_their_line(b: Seq<u8>, i: int, n: int)
    requires
        0 <= i,
        i + 2 <= n <= b.len(),
        b[i] == 0x2d,
        b[i + 1] == 0x2d,
        i + 2 == b.len() || b[i + 2] != 0x5b,
        forall|k: int| i <= k < n ==> #[trigger] b[k] != 0x0a,
        n < b.len() ==> b[n] == 0x0a,
    ensures
        piece_end(b, i) == n,
{
    lemma_line_end_is(b, i, n);
}

proof fn lemma_quoted_end_is(b: Seq<u8>, i: int, n: int, quote: u8)
    requires
        0 <= i <= n < b.len(),
        quote == 0x22 || quote == 0x27,
        forall|k: int|
            i <= k < n ==> #[trigger] b[k] != 0x5c && b[k] != quote && b[k] != 0x0a,
        b[n] == quote || b[n] == 0x0a,
    ensures
        quoted_end(b, i, quote) == (if b[n] == quote {
            n + 1
        } else {
            n
        }),
    decreases n - i,
{
    if i < n {
        assert(b[i] != 0x5c);
        lemma_quoted_end_is(b, i + 1, n, quote);
    }
}

/// A string ends behind its next quote, or at the end of the line; a backslash
/// takes the next byte with it.
pub proof fn law_strings_end_behind_their_quote(b: Seq<u8>, i: int, n: int, quote: u8)
    requires
        0 <= i,
        i + 1 <= n < b.len(),
        quote == 0x22 || quote == 0x27,
        b[i] == quote,
    ensures
        ((forall|k: int|
            i + 1 <= k < n ==> #[trigger] b[k] != 0x5c && b[k] != quote && b[k] != 0x0a) && b[n]
            == quote) ==> piece_end(b, i) == n + 1,
        ((forall|k: int|
            i + 1 <= k < n ==> #[trigger] b[k] != 0x5c && b[k] != quote && b[k] != 0x0a) && b[n]
            == 0x0a) ==> piece_end(b, i) == n,
        (b[n] == 0x5c && n + 1 < b.len()) ==> quoted_end(b, n, quote) == quoted_end(
            b,
            n + 2,
            quote,
        ),
{
    if (forall|k: int|
        i + 1 <= k < n ==> #[trigger] b[k] != 0x5c && b[k] != quote && b[k] != 0x0a) && (b[n]
        == quote || b[n] == 0x0a) {
        lemma_quoted_end_is(b, i + 1, n, quote);
    }
}

proof fn lemma_equals_end_is(b: Seq<u8>, i: int, n: int)
    requires
        0 <= i <= n < b.len(),
        forall|k: int| i <= k < n ==> #[trigger] b[k] == 0x3d,
        b[n] != 0x3d,
    ensures
        equals_end(b, i) == n,
    decreases n - i,
{
    if i < n {
        assert(b[i] == 0x3d);
        lemma_equals_end_is(b, i + 1, n);
    }
}

/// A long bracket opens with two brackets and so many equals signs between
/// them, and closes with as many.
pub proof fn law_long_brackets_close_at_their_level(b: Seq<u8>, i: int, level: int)
    requires
        0 <= i,
        0 <= level,
        i + level + 1 < b.len(),
        forall|k: int| i < k < i + level + 1 ==> #[trigger] b[k] == 0x3d,
    ensures
        (b[i] == 0x5b && b[i + level + 1] == 0x5b) ==> long_level(b, i) == Some(level),
        (b[i] == 0x5d && b[i + level + 1] == 0x5d) ==> closes_at(b, i, level) && long_end(
            b,
            i,
            level,
        ) == i + level + 2,
{
    if b[i + level + 1] != 0x3d {
        lemma_equals_end_is(b, i + 1, i + level + 1);
    }
}

/// A long bracket goes on to the next place where its level closes, and without
/// one to the end of the source.
pub proof fn law_long_brackets_go_on_until_closed(b: Seq<u8>, i: int, level: int)
    requires
        0 <= i < b.len(),
        !closes_at(b, i, level),
    ensures
        long_end(b, i, level) == long_end(b, i + 1, level),
        long_end(b, b.len() as int, level) == b.len(),
{
}

/// A source is scanned piece by piece: a comment that downgrades counts where
/// it stands, anything else is passed over as a whole, and what is no comment,
/// string or long bracket byte by byte.
pub proof fn law_sources_are_scanned_piece_by_piece(b: Seq<u8>, i: int)
    requires
        0 <= i < b.len(),
    ensures
        downgrade_at(b, i) is Some ==> first_downgrade(b, i) == Some((i, downgrade_at(b, i)->0)),
        (downgrade_at(b, i) is None && i < piece_end(b, i) <= b.len()) ==> first_downgrade(b, i)
            == first_downgrade(b, piece_end(b, i)),
        (b[i] != 0x2d && b[i] != 0x22 && b[i] != 0x27 && b[i] != 0x5b) ==> first_downgrade(b, i)
            == first_downgrade(b, i + 1),
        first_downgrade(b, b.len() as int) is None,
{
}

proof fn lemma_served_source(
    names: Seq<Seq<char>>,
    served: spec_fn(Seq<char>) -> Option<Seq<char>>,
    n: Seq<char>,
)
    requires
        names.contains(n),
        served(n) is Some,
    ensures
        served_sources(names, served).contains(served(n)->0),
    decreases names.len(),
{
    let r = names.drop_last();
    let before = served_sources(r, served);
    let all = served_sources(names, served);
    let i = choose|i: int| 0 <= i < names.len() && names[i] == n;
    if i == names.len() - 1 {
        assert(all[before.len() as int] == served(n)->0);
    } else {
        assert(r[i] == n);
        lemma_served_source(r, served, n);
        let k = choose|k: int| 0 <= k < before.len() && before[k] == served(n)->0;
        assert(all[k] == served(n)->0);
    }
}

/// Where a definition is admitted, every source that was queued and every module
/// that was taken in can be read and requires modules by name alone; and every
/// module has the source that is served for it.
pub proof fn law_every_admitted_module_is_read(
    queue: Seq<Seq<char>>,
    seen: Seq<Seq<char>>,
    budget: nat,
    modules: Map<Seq<char>, Seq<char>>,
    served: spec_fn(Seq<char>) -> Option<Seq<char>>,
)
    requires
        admission_from(queue, seen, budget, modules, served) is Ok,
    ensures
        forall|i: int| 0 <= i < queue.len() ==> requires_by_name(#[trigger] queue[i]),
        ({
            let m = admission_from(queue, seen, budget, modules, served)->Ok_0;
            &&& forall|k: Seq<char>| #[trigger] modules.dom().contains(k) ==> m.dom().contains(k)
            &&& forall|k: Seq<char>| #[trigger]
                m.dom().contains(k) ==> (modules.dom().contains(k) && m[k] == modules[k]) || (
                served(k) == Some(m[k]) && requires_by_name(m[k]))
        }),
    decreases queue.len() + budget,
{
    if queue.len() > 0 {
        let names = luau_requires(queue[0])->Ok_0.0;
        let more = asked(names, seen, budget as int);
        law_seeding_is_bounded(names, seen, budget as int);
        lemma_served_len(more, served);
        let fetched_sources = served_sources(more, served);
        let next = queue.skip(1) + fetched_sources;
        let after = seen_after(names, seen);
        let left = (budget - more.len()) as nat;
        let taken_in = served_modules(modules, more, served);
        law_every_admitted_module_is_read(next, after, left, taken_in, served);
        let m = admission_from(queue, seen, budget, modules, served)->Ok_0;
        assert forall|i: int| 0 <= i < queue.len() implies requires_by_name(
            #[trigger] queue[i],
        ) by {
            if i > 0 {
                assert(next[i - 1] == queue[i]);
            }
        }
        assert forall|k: Seq<char>| #[trigger] modules.dom().contains(k) implies m.dom().contains(
            k,
        ) by {
            law_served_modules_are_kept(modules, more, served, k);
            assert(taken_in.dom().contains(k));
        }
        assert forall|k: Seq<char>| #[trigger] m.dom().contains(k) implies (modules.dom().contains(
            k,
        ) && m[k] == modules[k]) || (served(k) == Some(m[k]) && requires_by_name(m[k])) by {
            law_served_modules_are_kept(modules, more, served, k);
            if more.contains(k) && served(k) is Some {
                lemma_served_source(more, served, k);
                let at = choose|j: int|
                    0 <= j < fetched_sources.len() && fetched_sources[j] == served(k)->0;
                assert(next[queue.len() - 1 + at] == served(k)->0);
                assert(requires_by_name(served(k)->0));
            } else if modules.dom().contains(k) {
                lemma_untouched(modules, more, served, k);
            }
        }
    }
}

proof fn lemma_untouched(
    modules: Map<Seq<char>, Seq<char>>,
    names: Seq<Seq<char>>,
    served: spec_fn(Seq<char>) -> Option<Seq<char>>,
    k: Seq<char>,
)
    requires
        !(names.contains(k) && served(k) is Some),
        modules.dom().contains(k),
    ensures
        served_modules(modules, names, served)[k] == modules[k],
    decreases names.len(),
{
    if names.len() > 0 {
        let r = names.drop_last();
        if r.contains(k) {
            let i = choose|i: int| 0 <= i < r.len() && r[i] == k;
            assert(names[i] == k);
        }
        assert(names[names.len() - 1] == names.last());
        lemma_untouched(modules, r, served, k);
    }
}

/// Where a definition is admitted, every module that it requires and that is
/// served is taken in, as long as it requires no more than may be taken in.
pub proof fn law_required_modules_are_taken_in(
    source: Seq<char>,
    served: spec_fn(Seq<char>) -> Option<Seq<char>>,
    n: Seq<char>,
)
    requires
        admission(source, served) is Ok,
        luau_requires(source) is Ok,
        luau_requires(source)->Ok_0.0.len() <= MAX_SEED_MODULES,
        luau_requires(source)->Ok_0.0.contains(n),
        served(n) is Some,
    ensures
        admission(source, served)->Ok_0.dom().contains(n),
        admission(source, served)->Ok_0[n] == served(n)->0,
{
    let queue = seq![source];
    let budget = MAX_SEED_MODULES as nat;
    let names = luau_requires(source)->Ok_0.0;
    let none = Seq::<Seq<char>>::empty();
    let more = asked(names, none, budget as int);
    law_every_admitted_module_is_read(queue, none, budget, Map::empty(), served);
    law_seeding_is_bounded(names, none, budget as int);
    lemma_served_len(more, served);
    law_every_new_module_is_asked_for(names, none, budget as int, n);
    law_served_modules_are_kept(Map::empty(), more, served, n);
    assert(queue[0] == source);
    law_every_admitted_module_is_read(
        queue.skip(1) + served_sources(more, served),
        seen_after(names, none),
        (budget - more.len()) as nat,
        served_modules(Map::empty(), more, served),
        served,
    );
}

} // verus!
