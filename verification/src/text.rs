//! Text as sequences of characters: the string operations the other modules
//! build on, each with its exact meaning over `Seq<char>`.

use vstd::prelude::*;

verus! {

/// `String::push` of the standard library appends one character.
pub assume_specification[ String::push ](s: &mut String, c: char)
    ensures
        final(s)@ == old(s)@.push(c),
;

/// The contents of a list of strings.
pub open spec fn texts(v: Seq<String>) -> Seq<Seq<char>> {
    v.map_values(|s: String| s@)
}

/// The characters of a string, as a vector.
pub fn chars_of(s: &str) -> (r: Vec<char>)
    ensures
        r@ == s@,
{
    let mut out: Vec<char> = Vec::new();
    for c in it: s.chars()
        invariant
            it.seq() == s@,
            out@ == s@.take(it.index() as int),
    {
        out.push(c);
    }
    out
}

/// The string made of the characters `v[from..to]`.
pub fn string_of(v: &Vec<char>, from: usize, to: usize) -> (r: String)
    requires
        from <= to <= v.len(),
    ensures
        r@ == v@.subrange(from as int, to as int),
{
    let mut out = String::new();
    let mut i: usize = from;
    while i < to
        invariant
            from <= i <= to <= v.len(),
            out@ == v@.subrange(from as int, i as int),
        decreases to - i,
    {
        out.push(v[i]);
        i += 1;
    }
    out
}

/// Whether two strings hold the same characters.
pub fn str_eq(a: &str, b: &str) -> (r: bool)
    ensures
        r == (a@ == b@),
{
    a.to_owned() == b.to_owned()
}

/// Pushing a string pushes its contents.
pub broadcast proof fn lemma_texts_push(v: Seq<String>, s: String)
    ensures
        #[trigger] texts(v.push(s)) == texts(v).push(s@),
{
    assert(texts(v.push(s)) =~= texts(v).push(s@));
}

/// Whether a character is white space (the Unicode property `White_Space`).
pub open spec fn is_space(c: char) -> bool {
    let n = c as int;
    ||| 9 <= n <= 13
    ||| n == 32
    ||| n == 0x85
    ||| n == 0xa0
    ||| n == 0x1680
    ||| 0x2000 <= n <= 0x200a
    ||| n == 0x2028
    ||| n == 0x2029
    ||| n == 0x202f
    ||| n == 0x205f
    ||| n == 0x3000
}

/// Tests a character for white space.
pub fn char_is_space(c: char) -> (r: bool)
    ensures
        r == is_space(c),
{
    let n: u32 = c as u32;
    (9 <= n && n <= 13) || n == 32 || n == 0x85 || n == 0xa0 || n == 0x1680 || (0x2000 <= n && n
        <= 0x200a) || n == 0x2028 || n == 0x2029 || n == 0x202f || n == 0x205f || n == 0x3000
}

/// Whether `c` is one of `0`..`9`.
pub open spec fn is_digit(c: char) -> bool {
    '0' <= c && c <= '9'
}

/// Whether `p` stands in `s` at position `i`.
pub open spec fn occurs_at(s: Seq<char>, p: Seq<char>, i: int) -> bool {
    0 <= i && i + p.len() <= s.len() && s.subrange(i, i + p.len()) == p
}

/// The first position at or after `i` where `p` stands in `s`.
pub open spec fn find_from(s: Seq<char>, p: Seq<char>, i: int) -> Option<int>
    decreases s.len() + 1 - i,
{
    if i < 0 || i + p.len() > s.len() {
        None
    } else if occurs_at(s, p, i) {
        Some(i)
    } else {
        find_from(s, p, i + 1)
    }
}

/// The first position where `p` stands in `s`.
pub open spec fn find(s: Seq<char>, p: Seq<char>) -> Option<int> {
    find_from(s, p, 0)
}

/// The last position at or before `i` where `p` stands in `s`.
pub open spec fn rfind_from(s: Seq<char>, p: Seq<char>, i: int) -> Option<int>
    decreases i + 1,
{
    if i < 0 {
        None
    } else if occurs_at(s, p, i) {
        Some(i)
    } else {
        rfind_from(s, p, i - 1)
    }
}

/// The last position where `p` stands in `s`.
pub open spec fn rfind(s: Seq<char>, p: Seq<char>) -> Option<int> {
    rfind_from(s, p, s.len() as int)
}

/// Whether `p` stands anywhere in `s`.
pub open spec fn holds(s: Seq<char>, p: Seq<char>) -> bool {
    find(s, p) is Some
}

/// `find_from` gives the first occurrence, and gives one whenever there is one.
pub proof fn lemma_find_from(s: Seq<char>, p: Seq<char>, i: int)
    requires
        0 <= i,
    ensures
        match find_from(s, p, i) {
            Some(k) => i <= k && occurs_at(s, p, k) && forall|j: int|
                i <= j < k ==> !occurs_at(s, p, j),
            None => forall|j: int| i <= j ==> !occurs_at(s, p, j),
        },
    decreases s.len() + 1 - i,
{
    if i + p.len() <= s.len() && !occurs_at(s, p, i) {
        lemma_find_from(s, p, i + 1);
    }
}

/// Tests whether `p` stands in `s` at position `i`.
pub fn matches_at(s: &Vec<char>, p: &Vec<char>, i: usize) -> (r: bool)
    ensures
        r == occurs_at(s@, p@, i as int),
{
    if i > s.len() || s.len() - i < p.len() {
        return false;
    }
    let mut k: usize = 0;
    while k < p.len()
        invariant
            i + p.len() <= s.len(),
            k <= p.len(),
            forall|j: int| 0 <= j < k ==> s@[i + j] == p@[j],
        decreases p.len() - k,
    {
        if s[i + k] != p[k] {
            assert(s@.subrange(i as int, i + p.len())[k as int] != p@[k as int]);
            return false;
        }
        k += 1;
    }
    assert(s@.subrange(i as int, i + p.len()) =~= p@);
    true
}

/// The first position at or after `from` where `p` stands in `s`.
pub fn find_chars(s: &Vec<char>, p: &Vec<char>, from: usize) -> (r: Option<usize>)
    ensures
        match r {
            Some(i) => find_from(s@, p@, from as int) == Some(i as int) && occurs_at(
                s@,
                p@,
                i as int,
            ),
            None => find_from(s@, p@, from as int) is None,
        },
{
    let mut i: usize = from;
    while i <= s.len() && p.len() <= s.len() - i
        invariant
            from <= i,
            i <= s.len() + 1 || i == from,
            find_from(s@, p@, from as int) == find_from(s@, p@, i as int),
        decreases s.len() + 1 - i,
    {
        if matches_at(s, p, i) {
            return Some(i);
        }
        if i == s.len() {
            assert(find_from(s@, p@, i + 1) is None);
            return None;
        }
        i += 1;
    }
    None
}

/// Whether `s` holds `p`.
pub fn contains(s: &str, p: &str) -> (r: bool)
    ensures
        r == holds(s@, p@),
{
    find_chars(&chars_of(s), &chars_of(p), 0).is_some()
}

/// Whether `s` begins with `p`.
pub fn starts_with(s: &str, p: &str) -> (r: bool)
    ensures
        r == p@.is_prefix_of(s@),
{
    matches_at(&chars_of(s), &chars_of(p), 0)
}

/// Whether `s` ends with `p`.
pub fn ends_with(s: &str, p: &str) -> (r: bool)
    ensures
        r == p@.is_suffix_of(s@),
{
    let a = chars_of(s);
    let b = chars_of(p);
    if a.len() < b.len() {
        return false;
    }
    matches_at(&a, &b, a.len() - b.len())
}

/// `s` without its prefix `p`, where it has it.
pub open spec fn after_prefix(s: Seq<char>, p: Seq<char>) -> Option<Seq<char>> {
    if p.is_prefix_of(s) {
        Some(s.skip(p.len() as int))
    } else {
        None
    }
}

/// `s` without its suffix `p`, where it has it.
pub open spec fn before_suffix(s: Seq<char>, p: Seq<char>) -> Option<Seq<char>> {
    if p.is_suffix_of(s) {
        Some(s.take(s.len() - p.len()))
    } else {
        None
    }
}

/// The contents of an optional string.
pub open spec fn opt_text(o: Option<String>) -> Option<Seq<char>> {
    match o {
        Some(s) => Some(s@),
        None => None,
    }
}

/// The contents of an optional string slice.
pub open spec fn opt_str(o: Option<&str>) -> Option<Seq<char>> {
    match o {
        Some(s) => Some(s@),
        None => None,
    }
}

/// The contents of an optional pair of strings.
pub open spec fn opt_pair(o: Option<(String, String)>) -> Option<(Seq<char>, Seq<char>)> {
    match o {
        Some(p) => Some((p.0@, p.1@)),
        None => None,
    }
}

/// `s` without its prefix `p`, where it has it.
pub fn strip_prefix(s: &str, p: &str) -> (r: Option<String>)
    ensures
        opt_text(r) == after_prefix(s@, p@),
{
    let a = chars_of(s);
    let b = chars_of(p);
    if matches_at(&a, &b, 0) {
        let rest = string_of(&a, b.len(), a.len());
        assert(rest@ =~= s@.skip(p@.len() as int));
        Some(rest)
    } else {
        None
    }
}

/// `s` without its suffix `p`, where it has it.
pub fn strip_suffix(s: &str, p: &str) -> (r: Option<String>)
    ensures
        opt_text(r) == before_suffix(s@, p@),
{
    if ends_with(s, p) {
        let a = chars_of(s);
        let b = chars_of(p);
        let rest = string_of(&a, 0, a.len() - b.len());
        assert(rest@ =~= s@.take(s@.len() - p@.len()));
        Some(rest)
    } else {
        None
    }
}

/// The two sides of the first `p` in `s`.
pub open spec fn cut(s: Seq<char>, p: Seq<char>) -> Option<(Seq<char>, Seq<char>)> {
    match find(s, p) {
        Some(i) => Some((s.take(i), s.skip(i + p.len()))),
        None => None,
    }
}

/// The two sides of the last `p` in `s`.
pub open spec fn rcut(s: Seq<char>, p: Seq<char>) -> Option<(Seq<char>, Seq<char>)> {
    match rfind(s, p) {
        Some(i) => Some((s.take(i), s.skip(i + p.len()))),
        None => None,
    }
}

/// A cut takes a text apart, and what is left behind a `p` that is not empty is
/// shorter.
pub proof fn lemma_cut(s: Seq<char>, p: Seq<char>)
    ensures
        match cut(s, p) {
            Some(c) => s == c.0 + p + c.1 && (p.len() > 0 ==> c.1.len() < s.len()),
            None => true,
        },
{
    lemma_find_from(s, p, 0);
    match find(s, p) {
        Some(i) => {
            assert(s.subrange(i, i + p.len()) == p);
            assert(s =~= s.take(i) + p + s.skip(i + p.len()));
        },
        None => {},
    }
}

/// Splits `s` at the first `p`.
pub fn split_once(s: &str, p: &str) -> (r: Option<(String, String)>)
    ensures
        opt_pair(r) == cut(s@, p@),
{
    let a = chars_of(s);
    let b = chars_of(p);
    match find_chars(&a, &b, 0) {
        Some(i) => {
            let end: usize = a.len();
            let left = string_of(&a, 0, i);
            let right = string_of(&a, i + b.len(), end);
            assert(left@ =~= s@.take(i as int));
            assert(right@ =~= s@.skip(i + p@.len()));
            Some((left, right))
        },
        None => None,
    }
}

/// The last position where `p` stands in `s`.
pub fn rfind_chars(s: &Vec<char>, p: &Vec<char>) -> (r: Option<usize>)
    ensures
        match r {
            Some(i) => rfind(s@, p@) == Some(i as int) && occurs_at(s@, p@, i as int),
            None => rfind(s@, p@) is None,
        },
{
    let mut i: usize = s.len();
    loop
        invariant
            i <= s.len(),
            rfind(s@, p@) == rfind_from(s@, p@, i as int),
        decreases i,
    {
        if matches_at(s, p, i) {
            return Some(i);
        }
        if i == 0 {
            assert(rfind_from(s@, p@, -1) is None);
            return None;
        }
        i -= 1;
    }
}

/// Splits `s` at the last `p`.
pub fn rsplit_once(s: &str, p: &str) -> (r: Option<(String, String)>)
    ensures
        opt_pair(r) == rcut(s@, p@),
{
    let a = chars_of(s);
    let b = chars_of(p);
    match rfind_chars(&a, &b) {
        Some(i) => {
            let end: usize = a.len();
            let left = string_of(&a, 0, i);
            let right = string_of(&a, i + b.len(), end);
            assert(left@ =~= s@.take(i as int));
            assert(right@ =~= s@.skip(i + p@.len()));
            Some((left, right))
        },
        None => None,
    }
}

/// What follows the last `p` in `s`: all of `s` where there is none.
pub open spec fn last_part(s: Seq<char>, p: Seq<char>) -> Seq<char> {
    match rcut(s, p) {
        Some(sides) => sides.1,
        None => s,
    }
}

/// What comes before the first `p` in `s`: all of `s` where there is none.
pub open spec fn first_part(s: Seq<char>, p: Seq<char>) -> Seq<char> {
    match cut(s, p) {
        Some(sides) => sides.0,
        None => s,
    }
}

/// What follows the last `p` in `s`: all of `s` where there is none.
pub fn after_last(s: &str, p: &str) -> (r: String)
    ensures
        r@ == last_part(s@, p@),
{
    match rsplit_once(s, p) {
        Some((_, right)) => right,
        None => s.to_owned(),
    }
}

/// What comes before the first `p` in `s`: all of `s` where there is none.
pub fn before_first(s: &str, p: &str) -> (r: String)
    ensures
        r@ == first_part(s@, p@),
{
    match split_once(s, p) {
        Some((left, _)) => left,
        None => s.to_owned(),
    }
}

/// The parts of `s[start..]` between the separators `c`, where no `c` stands
/// in `s[start..i]`.
pub open spec fn parts_from(s: Seq<char>, c: char, start: int, i: int) -> Seq<Seq<char>>
    decreases s.len() - i,
{
    if i >= s.len() {
        seq![s.subrange(start, s.len() as int)]
    } else if s[i] == c {
        seq![s.subrange(start, i)] + parts_from(s, c, i + 1, i + 1)
    } else {
        parts_from(s, c, start, i + 1)
    }
}

/// The parts of `s` between the separators `c`.
pub open spec fn parts(s: Seq<char>, c: char) -> Seq<Seq<char>> {
    parts_from(s, c, 0, 0)
}

/// Splits `s` at every `c`.
pub fn split_char(s: &str, c: char) -> (r: Vec<String>)
    ensures
        texts(r@) == parts(s@, c),
{
    broadcast use lemma_texts_push;

    let a = chars_of(s);
    let mut out: Vec<String> = Vec::new();
    let mut start: usize = 0;
    let mut i: usize = 0;
    while i < a.len()
        invariant
            a@ == s@,
            start <= i <= a.len(),
            parts(s@, c) == texts(out@) + parts_from(s@, c, start as int, i as int),
        decreases a.len() - i,
    {
        if a[i] == c {
            let piece = string_of(&a, start, i);
            let ghost before = out@;
            out.push(piece);
            assert(texts(before) + (seq![s@.subrange(start as int, i as int)] + parts_from(
                s@,
                c,
                i + 1,
                i + 1,
            )) =~= texts(out@) + parts_from(s@, c, i + 1, i + 1));
            start = i + 1;
        }
        i += 1;
    }
    let piece = string_of(&a, start, a.len());
    let ghost before = out@;
    out.push(piece);
    assert(texts(out@) =~= texts(before) + seq![s@.subrange(start as int, s@.len() as int)]);
    out
}

/// `s` without leading white space.
pub open spec fn trim_front(s: Seq<char>) -> Seq<char>
    decreases s.len(),
{
    if s.len() > 0 && is_space(s[0]) {
        trim_front(s.skip(1))
    } else {
        s
    }
}

/// `s` without trailing white space.
pub open spec fn trim_back(s: Seq<char>) -> Seq<char>
    decreases s.len(),
{
    if s.len() > 0 && is_space(s.last()) {
        trim_back(s.drop_last())
    } else {
        s
    }
}

/// `s` without white space at either end.
pub open spec fn trimmed(s: Seq<char>) -> Seq<char> {
    trim_back(trim_front(s))
}

/// `s` without trailing characters `c`.
pub open spec fn drop_trailing(s: Seq<char>, c: char) -> Seq<char>
    decreases s.len(),
{
    if s.len() > 0 && s.last() == c {
        drop_trailing(s.drop_last(), c)
    } else {
        s
    }
}

/// `s` without trailing white space.
pub fn trim_end(s: &str) -> (r: String)
    ensures
        r@ == trim_back(s@),
{
    let a = chars_of(s);
    let mut n: usize = a.len();
    assert(s@.take(n as int) =~= s@);
    while n > 0 && char_is_space(a[n - 1])
        invariant
            a@ == s@,
            n <= a.len(),
            trim_back(s@) == trim_back(s@.take(n as int)),
        decreases n,
    {
        assert(s@.take(n as int).drop_last() =~= s@.take(n - 1));
        n -= 1;
    }
    assert(a@.subrange(0, n as int) =~= s@.take(n as int));
    assert(n > 0 ==> s@.take(n as int).last() == a@[n - 1]);
    string_of(&a, 0, n)
}

/// `s` without leading white space.
pub fn trim_start(s: &str) -> (r: String)
    ensures
        r@ == trim_front(s@),
{
    let a = chars_of(s);
    let mut i: usize = 0;
    assert(s@.skip(0) =~= s@);
    while i < a.len() && char_is_space(a[i])
        invariant
            a@ == s@,
            i <= a.len(),
            trim_front(s@) == trim_front(s@.skip(i as int)),
        decreases a.len() - i,
    {
        assert(s@.skip(i as int).skip(1) =~= s@.skip(i + 1));
        i += 1;
    }
    assert(a@.subrange(i as int, a.len() as int) =~= s@.skip(i as int));
    string_of(&a, i, a.len())
}

/// `s` without white space at either end.
pub fn trim(s: &str) -> (r: String)
    ensures
        r@ == trimmed(s@),
{
    trim_end(trim_start(s).as_str())
}

/// `s` without trailing characters `c`.
pub fn trim_end_char(s: &str, c: char) -> (r: String)
    ensures
        r@ == drop_trailing(s@, c),
{
    let a = chars_of(s);
    let mut n: usize = a.len();
    assert(s@.take(n as int) =~= s@);
    while n > 0 && a[n - 1] == c
        invariant
            a@ == s@,
            n <= a.len(),
            drop_trailing(s@, c) == drop_trailing(s@.take(n as int), c),
        decreases n,
    {
        assert(s@.take(n as int).drop_last() =~= s@.take(n - 1));
        n -= 1;
    }
    assert(a@.subrange(0, n as int) =~= s@.take(n as int));
    assert(n > 0 ==> s@.take(n as int).last() == a@[n - 1]);
    string_of(&a, 0, n)
}

/// The runs of characters other than white space in `s[start..]`, where
/// `s[start..i]` holds no white space.
pub open spec fn words_from(s: Seq<char>, start: int, i: int) -> Seq<Seq<char>>
    decreases s.len() - i,
{
    if i >= s.len() {
        if start < i {
            seq![s.subrange(start, s.len() as int)]
        } else {
            Seq::empty()
        }
    } else if is_space(s[i]) {
        if start < i {
            seq![s.subrange(start, i)] + words_from(s, i + 1, i + 1)
        } else {
            words_from(s, i + 1, i + 1)
        }
    } else {
        words_from(s, start, i + 1)
    }
}

/// The words of `s`: its runs of characters other than white space.
pub open spec fn words(s: Seq<char>) -> Seq<Seq<char>> {
    words_from(s, 0, 0)
}

/// Splits `s` at white space; empty parts are left out.
pub fn split_whitespace(s: &str) -> (r: Vec<String>)
    ensures
        texts(r@) == words(s@),
{
    broadcast use lemma_texts_push;

    let a = chars_of(s);
    let mut out: Vec<String> = Vec::new();
    let mut start: usize = 0;
    let mut i: usize = 0;
    assert(texts(out@) + words(s@) =~= words(s@));
    while i < a.len()
        invariant
            a@ == s@,
            start <= i <= a.len(),
            words(s@) == texts(out@) + words_from(s@, start as int, i as int),
        decreases a.len() - i,
    {
        if char_is_space(a[i]) {
            if start < i {
                let piece = string_of(&a, start, i);
                let ghost before = out@;
                out.push(piece);
                assert(texts(before) + (seq![s@.subrange(start as int, i as int)] + words_from(
                    s@,
                    i + 1,
                    i + 1,
                )) =~= texts(out@) + words_from(s@, i + 1, i + 1));
            }
            start = i + 1;
        }
        i += 1;
    }
    let ghost before = out@;
    if start < a.len() {
        let piece = string_of(&a, start, a.len());
        out.push(piece);
        assert(texts(out@) =~= texts(before) + seq![s@.subrange(start as int, s@.len() as int)]);
    } else {
        assert(texts(out@) + Seq::<Seq<char>>::empty() =~= texts(out@));
    }
    out
}

/// A line without the carriage return that may end it.
pub open spec fn without_cr(line: Seq<char>) -> Seq<char> {
    if line.len() > 0 && line.last() == '\r' {
        line.drop_last()
    } else {
        line
    }
}

/// The lines of `s[start..]`, where no line feed stands in `s[start..i]`: a
/// line ends at a line feed, a carriage return before it belongs to the
/// ending, and nothing after the last line feed is no line.
pub open spec fn lines_from(s: Seq<char>, start: int, i: int) -> Seq<Seq<char>>
    decreases s.len() - i,
{
    if i >= s.len() {
        if start < i {
            seq![s.subrange(start, s.len() as int)]
        } else {
            Seq::empty()
        }
    } else if s[i] == '\n' {
        seq![without_cr(s.subrange(start, i))] + lines_from(s, i + 1, i + 1)
    } else {
        lines_from(s, start, i + 1)
    }
}

/// The lines of `s`.
pub open spec fn lines(s: Seq<char>) -> Seq<Seq<char>> {
    lines_from(s, 0, 0)
}

/// Splits `s` into its lines.
pub fn split_lines(s: &str) -> (r: Vec<String>)
    ensures
        texts(r@) == lines(s@),
{
    broadcast use lemma_texts_push;

    let a = chars_of(s);
    let mut out: Vec<String> = Vec::new();
    let mut start: usize = 0;
    let mut i: usize = 0;
    assert(texts(out@) + lines(s@) =~= lines(s@));
    while i < a.len()
        invariant
            a@ == s@,
            start <= i <= a.len(),
            lines(s@) == texts(out@) + lines_from(s@, start as int, i as int),
        decreases a.len() - i,
    {
        if a[i] == '\n' {
            let end: usize = if start < i && a[i - 1] == '\r' {
                i - 1
            } else {
                i
            };
            let piece = string_of(&a, start, end);
            assert(piece@ =~= without_cr(s@.subrange(start as int, i as int)));
            let ghost before = out@;
            out.push(piece);
            assert(texts(before) + (seq![piece@] + lines_from(s@, i + 1, i + 1)) =~= texts(out@)
                + lines_from(s@, i + 1, i + 1));
            start = i + 1;
        }
        i += 1;
    }
    let ghost before = out@;
    if start < a.len() {
        let piece = string_of(&a, start, a.len());
        out.push(piece);
        assert(texts(out@) =~= texts(before) + seq![s@.subrange(start as int, s@.len() as int)]);
    } else {
        assert(texts(out@) + Seq::<Seq<char>>::empty() =~= texts(out@));
    }
    out
}

/// The strings of `v` with `sep` between them.
pub open spec fn joined(v: Seq<Seq<char>>, sep: Seq<char>) -> Seq<char>
    decreases v.len(),
{
    if v.len() == 0 {
        Seq::empty()
    } else if v.len() == 1 {
        v[0]
    } else {
        joined(v.drop_last(), sep) + sep + v.last()
    }
}

/// Puts `sep` between the strings of `v`.
pub fn join(v: &Vec<String>, sep: &str) -> (r: String)
    ensures
        r@ == joined(texts(v@), sep@),
{
    let mut out = String::new();
    let mut i: usize = 0;
    let ghost all = texts(v@);
    while i < v.len()
        invariant
            i <= v.len(),
            all == texts(v@),
            out@ == joined(all.take(i as int), sep@),
        decreases v.len() - i,
    {
        assert(all.take(i + 1).drop_last() =~= all.take(i as int));
        assert(all.take(i + 1).last() == v@[i as int]@);
        if i > 0 {
            out.append(sep);
        }
        out.append(v[i].as_str());
        assert(Seq::<char>::empty() + v@[i as int]@ =~= v@[i as int]@);
        i += 1;
    }
    assert(all.take(v.len() as int) =~= all);
    out
}

/// The character for a digit below ten.
pub open spec fn digit_char(d: int) -> char {
    (d + 48) as char
}

/// A number in decimal.
pub open spec fn decimal(n: nat) -> Seq<char>
    decreases n,
{
    if n < 10 {
        seq![digit_char(n as int)]
    } else {
        decimal(n / 10).push(digit_char((n % 10) as int))
    }
}

/// The number in decimal.
pub fn to_decimal(n: u64) -> (r: String)
    ensures
        r@ == decimal(n as nat),
    decreases n,
{
    if n < 10 {
        let mut out = String::new();
        out.push((48u8 + n as u8) as char);
        assert(out@ =~= seq![digit_char(n as int)]);
        out
    } else {
        let mut out = to_decimal(n / 10);
        out.push((48u8 + (n % 10) as u8) as char);
        out
    }
}

/// A signed number in decimal.
pub open spec fn signed_decimal(n: int) -> Seq<char> {
    if n < 0 {
        seq!['-'] + decimal((-n) as nat)
    } else {
        decimal(n as nat)
    }
}

/// The signed number in decimal.
pub fn to_signed_decimal(n: i32) -> (r: String)
    ensures
        r@ == signed_decimal(n as int),
{
    let wide: i64 = n as i64;
    if wide < 0 {
        let mut out = String::new();
        out.push('-');
        out.append(to_decimal((-wide) as u64).as_str());
        assert(out@ =~= seq!['-'] + decimal((-(n as int)) as nat));
        out
    } else {
        to_decimal(wide as u64)
    }
}

/// The value of a run of decimal digits, read after `acc`; `None` where a
/// character is no digit or the value exceeds `max`.
pub open spec fn digits_value(s: Seq<char>, acc: int, max: int) -> Option<int>
    decreases s.len(),
{
    if s.len() == 0 {
        Some(acc)
    } else if !is_digit(s[0]) || acc * 10 + (s[0] as int - 48) > max {
        None
    } else {
        digits_value(s.skip(1), acc * 10 + (s[0] as int - 48), max)
    }
}

/// The number an unsigned decimal spells: digits, at least one, after an
/// optional `+`, with a value of at most `max`.
pub open spec fn unsigned_value(s: Seq<char>, max: int) -> Option<int> {
    if s.len() > 0 && s[0] == '+' {
        if s.len() == 1 {
            None
        } else {
            digits_value(s.skip(1), 0, max)
        }
    } else if s.len() == 0 {
        None
    } else {
        digits_value(s, 0, max)
    }
}

/// The contents of an optional number.
pub open spec fn opt_int(o: Option<u64>) -> Option<int> {
    match o {
        Some(n) => Some(n as int),
        None => None,
    }
}

/// Reads an unsigned decimal of at most `max`.
pub fn parse_unsigned(s: &str, max: u64) -> (r: Option<u64>)
    ensures
        opt_int(r) == unsigned_value(s@, max as int),
{
    let a = chars_of(s);
    let start: usize = if a.len() > 0 && a[0] == '+' {
        1
    } else {
        0
    };
    if a.len() == start {
        return None;
    }
    let mut acc: u64 = 0;
    let mut i: usize = start;
    let ghost rest = s@.skip(start as int);
    assert(start == 0 ==> rest =~= s@);
    while i < a.len()
        invariant
            a@ == s@,
            start <= i <= a.len(),
            acc <= max,
            unsigned_value(s@, max as int) == digits_value(rest, 0, max as int),
            digits_value(rest, 0, max as int) == digits_value(s@.skip(i as int), acc as int, max as int),
        decreases a.len() - i,
    {
        let c = a[i];
        assert(s@.skip(i as int)[0] == c);
        assert(s@.skip(i as int).skip(1) =~= s@.skip(i + 1));
        if c < '0' || c > '9' {
            return None;
        }
        let d: u64 = (c as u32 - 48) as u64;
        let wide: u128 = acc as u128 * 10 + d as u128;
        if wide > max as u128 {
            return None;
        }
        acc = wide as u64;
        i += 1;
    }
    Some(acc)
}

/// An ASCII letter in lower case; any other character as it is.
pub open spec fn lower(c: char) -> char {
    if 'A' <= c && c <= 'Z' {
        (c as int + 32) as char
    } else {
        c
    }
}

/// An ASCII letter in lower case; any other character as it is.
pub fn to_lower(c: char) -> (r: char)
    ensures
        r == lower(c),
{
    if 'A' <= c && c <= 'Z' {
        ((c as u32 as u8) + 32) as char
    } else {
        c
    }
}

/// `s` with its ASCII letters in lower case.
pub open spec fn lowered(s: Seq<char>) -> Seq<char> {
    s.map_values(|c: char| lower(c))
}

/// `s` with its ASCII letters in lower case.
pub fn to_lowercase(s: &str) -> (r: String)
    ensures
        r@ == lowered(s@),
{
    let a = chars_of(s);
    let mut out = String::new();
    let mut i: usize = 0;
    while i < a.len()
        invariant
            a@ == s@,
            i <= a.len(),
            out@ == lowered(s@.take(i as int)),
        decreases a.len() - i,
    {
        out.push(to_lower(a[i]));
        assert(lowered(s@.take(i + 1)) =~= lowered(s@.take(i as int)).push(lower(s@[i as int])));
        i += 1;
    }
    assert(s@.take(s@.len() as int) =~= s@);
    out
}

/// The lower-case hexadecimal digit for a value below sixteen.
pub open spec fn hex_digit(d: int) -> char {
    if d < 10 {
        (d + 48) as char
    } else {
        (d + 87) as char
    }
}

/// Bytes in lower-case hexadecimal, two digits each.
pub open spec fn hex_text(b: Seq<u8>) -> Seq<char>
    decreases b.len(),
{
    if b.len() == 0 {
        Seq::empty()
    } else {
        hex_text(b.drop_last()).push(hex_digit(b.last() as int / 16)).push(
            hex_digit(b.last() as int % 16),
        )
    }
}

fn hex_digit_of(d: u8) -> (r: char)
    requires
        d < 16,
    ensures
        r == hex_digit(d as int),
{
    if d < 10 {
        (d + 48) as char
    } else {
        (d + 87) as char
    }
}

/// The bytes in lower-case hexadecimal, two digits each.
pub fn hex(b: &[u8]) -> (r: String)
    ensures
        r@ == hex_text(b@),
{
    let mut out = String::new();
    let mut i: usize = 0;
    while i < b.len()
        invariant
            i <= b.len(),
            out@ == hex_text(b@.take(i as int)),
        decreases b.len() - i,
    {
        assert(b@.take(i + 1).drop_last() =~= b@.take(i as int));
        out.push(hex_digit_of(b[i] / 16));
        out.push(hex_digit_of(b[i] % 16));
        i += 1;
    }
    assert(b@.take(b@.len() as int) =~= b@);
    out
}

/// Hexadecimal text has two characters for each byte.
pub proof fn lemma_hex_text_len(b: Seq<u8>)
    ensures
        hex_text(b).len() == 2 * b.len(),
    decreases b.len(),
{
    if b.len() > 0 {
        lemma_hex_text_len(b.drop_last());
    }
}

/// Whether `a` comes before `b`: by the first character in which they
/// differ, else by length.
pub open spec fn text_lt(a: Seq<char>, b: Seq<char>) -> bool
    decreases a.len(),
{
    if b.len() == 0 {
        false
    } else if a.len() == 0 {
        true
    } else if a[0] == b[0] {
        text_lt(a.skip(1), b.skip(1))
    } else {
        a[0] < b[0]
    }
}

/// Whether `a` comes before `b`.
pub fn str_lt(a: &str, b: &str) -> (r: bool)
    ensures
        r == text_lt(a@, b@),
{
    let x = chars_of(a);
    let y = chars_of(b);
    let mut i: usize = 0;
    assert(a@.skip(0) =~= a@);
    assert(b@.skip(0) =~= b@);
    while i < x.len() && i < y.len()
        invariant
            x@ == a@,
            y@ == b@,
            i <= x.len(),
            i <= y.len(),
            text_lt(a@, b@) == text_lt(a@.skip(i as int), b@.skip(i as int)),
        decreases x.len() - i,
    {
        assert(a@.skip(i as int)[0] == x@[i as int]);
        assert(b@.skip(i as int)[0] == y@[i as int]);
        if x[i] != y[i] {
            return x[i] < y[i];
        }
        assert(a@.skip(i as int).skip(1) =~= a@.skip(i + 1));
        assert(b@.skip(i as int).skip(1) =~= b@.skip(i + 1));
        i += 1;
    }
    i < y.len()
}

/// The order of texts is total: of two different texts one comes first, and
/// not both ways round.
pub proof fn lemma_text_lt_total(a: Seq<char>, b: Seq<char>)
    ensures
        !(text_lt(a, b) && text_lt(b, a)),
        a == b ==> !text_lt(a, b),
        a != b ==> text_lt(a, b) || text_lt(b, a),
    decreases a.len(),
{
    if a.len() == 0 || b.len() == 0 {
        if a.len() == 0 && b.len() == 0 {
            assert(a =~= b);
        }
    } else if a[0] == b[0] {
        lemma_text_lt_total(a.skip(1), b.skip(1));
        if a.skip(1) == b.skip(1) {
            assert(a =~= seq![a[0]] + a.skip(1));
            assert(b =~= seq![b[0]] + b.skip(1));
        }
    }
}

/// The order of texts is transitive.
pub proof fn lemma_text_lt_transitive(a: Seq<char>, b: Seq<char>, c: Seq<char>)
    requires
        text_lt(a, b),
        text_lt(b, c),
    ensures
        text_lt(a, c),
    decreases a.len(),
{
    if a.len() > 0 && a[0] == b[0] && b[0] == c[0] {
        lemma_text_lt_transitive(a.skip(1), b.skip(1), c.skip(1));
    }
}

/// Whether `x` is among the first strings of `v`.
pub fn list_contains(v: &Vec<String>, x: &str) -> (r: bool)
    ensures
        r == texts(v@).contains(x@),
{
    let mut i: usize = 0;
    while i < v.len()
        invariant
            i <= v.len(),
            forall|j: int| 0 <= j < i ==> texts(v@)[j] != x@,
        decreases v.len() - i,
    {
        if str_eq(v[i].as_str(), x) {
            assert(texts(v@)[i as int] == x@);
            return true;
        }
        i += 1;
    }
    false
}

/// Why bytes are not UTF-8, for bytes that are not.
pub uninterp spec fn utf8_fault(bytes: Seq<u8>) -> Seq<char>;

/// `String::from_utf8` of the standard library: the text that the bytes
/// encode, where they are UTF-8; the reason is named `utf8_fault`.
#[verifier::external_body]
pub(crate) fn utf8_text(bytes: Vec<u8>) -> (r: Result<String, String>)
    ensures
        match r {
            Ok(s) => vstd::utf8::valid_utf8(bytes@) && vstd::utf8::encode_utf8(s@) == bytes@,
            Err(e) => !vstd::utf8::valid_utf8(bytes@) && e@ == utf8_fault(bytes@),
        },
{
    String::from_utf8(bytes).map_err(|e| e.to_string())
}

/// The text of bytes, with a replacement character for what is not UTF-8.
pub uninterp spec fn lossy(bytes: Seq<u8>) -> Seq<char>;

/// `String::from_utf8_lossy` of the standard library: named `lossy`; bytes
/// that are UTF-8 give the text they encode.
#[verifier::external_body]
pub(crate) fn lossy_text(bytes: &[u8]) -> (r: String)
    ensures
        r@ == lossy(bytes@),
        vstd::utf8::valid_utf8(bytes@) ==> vstd::utf8::encode_utf8(r@) == bytes@,
{
    String::from_utf8_lossy(bytes).into_owned()
}

/// The texts of `v`, each only where it comes first.
pub open spec fn distinct(v: Seq<Seq<char>>) -> Seq<Seq<char>>
    decreases v.len(),
{
    if v.len() == 0 {
        v
    } else if distinct(v.drop_last()).contains(v.last()) {
        distinct(v.drop_last())
    } else {
        distinct(v.drop_last()).push(v.last())
    }
}

/// `distinct` keeps every text and repeats none.
pub proof fn lemma_distinct(v: Seq<Seq<char>>)
    ensures
        distinct(v).no_duplicates(),
        forall|x: Seq<char>| #[trigger] distinct(v).contains(x) <==> v.contains(x),
    decreases v.len(),
{
    if v.len() > 0 {
        let w = v.drop_last();
        lemma_distinct(w);
        let d = distinct(w);
        assert forall|x: Seq<char>| #[trigger] distinct(v).contains(x) <==> v.contains(x) by {
            if v.contains(x) {
                let k = choose|k: int| 0 <= k < v.len() && v[k] == x;
                if k < w.len() {
                    assert(w[k] == x);
                    assert(distinct(w).contains(x));
                    let m = choose|m: int| 0 <= m < d.len() && d[m] == x;
                    assert(distinct(v)[m] == x);
                } else if !d.contains(v.last()) {
                    assert(distinct(v)[d.len() as int] == x);
                }
            }
            if distinct(v).contains(x) {
                let m = choose|m: int| 0 <= m < distinct(v).len() && distinct(v)[m] == x;
                if m < d.len() {
                    assert(d[m] == x);
                    assert(distinct(w).contains(x));
                    let k = choose|k: int| 0 <= k < w.len() && w[k] == x;
                    assert(v[k] == x);
                } else {
                    assert(v[v.len() - 1] == x);
                }
            }
        }
    }
}

/// Adds the texts of `more` to `out`, each where it is not there yet.
pub(crate) fn extend_distinct(
    out: &mut Vec<String>,
    more: &Vec<String>,
    Ghost(all): Ghost<Seq<Seq<char>>>,
)
    requires
        texts(old(out)@) == distinct(all),
    ensures
        texts(final(out)@) == distinct(all + texts(more@)),
{
    broadcast use lemma_texts_push;

    let mut i: usize = 0;
    let ghost m = texts(more@);
    assert(all + m.take(0) =~= all);
    while i < more.len()
        invariant
            i <= more.len(),
            m == texts(more@),
            texts(out@) == distinct(all + m.take(i as int)),
        decreases more.len() - i,
    {
        let ghost now = all + m.take(i + 1);
        assert(now.drop_last() =~= all + m.take(i as int));
        assert(now.last() == more@[i as int]@);
        if !list_contains(out, more[i].as_str()) {
            out.push(more[i].clone());
        }
        i += 1;
    }
    assert(m.take(i as int) =~= m);
}

/// The path `b` seen from the directory `a`: `b` itself where it is absolute.
pub open spec fn path_in(a: Seq<char>, b: Seq<char>) -> Seq<char> {
    if a.len() == 0 || (b.len() > 0 && b[0] == '/') {
        b
    } else if a.last() == '/' {
        a + b
    } else {
        a + "/"@ + b
    }
}

/// The path `b` seen from the directory `a`.
pub fn join_path(a: &str, b: &str) -> (r: String)
    ensures
        r@ == path_in(a@, b@),
{
    let x = chars_of(a);
    let y = chars_of(b);
    if x.len() == 0 || (y.len() > 0 && y[0] == '/') {
        return b.to_owned();
    }
    let mut out = a.to_owned();
    if x[x.len() - 1] != '/' {
        out.append("/");
    }
    out.append(b);
    out
}

/// What stands behind the first `p` and before the next one.
pub open spec fn second_part(s: Seq<char>, p: Seq<char>) -> Option<Seq<char>> {
    match cut(s, p) {
        Some(c) => Some(first_part(c.1, p)),
        None => None,
    }
}

/// What stands behind the first `p` and before the next one.
pub fn second_piece(s: &str, p: &str) -> (r: Option<String>)
    ensures
        opt_text(r) == second_part(s@, p@),
{
    match split_once(s, p) {
        Some((_, rest)) => Some(before_first(rest.as_str(), p)),
        None => None,
    }
}

/// The texts that are not empty.
pub open spec fn filled(v: Seq<Seq<char>>) -> Seq<Seq<char>>
    decreases v.len(),
{
    if v.len() == 0 {
        v
    } else if v[0].len() == 0 {
        filled(v.skip(1))
    } else {
        seq![v[0]] + filled(v.skip(1))
    }
}

/// The pieces between slashes that are not empty.
pub open spec fn path_parts(s: Seq<char>) -> Seq<Seq<char>> {
    filled(parts(s, '/'))
}

/// The pieces between slashes that are not empty.
pub fn split_path(s: &str) -> (r: Vec<String>)
    ensures
        texts(r@) == path_parts(s@),
{
    let all = split_char(s, '/');
    let ghost whole = texts(all@);
    let mut out: Vec<String> = Vec::new();
    let mut i: usize = 0;
    assert(whole.skip(0) =~= whole);
    assert(texts(out@) + filled(whole) =~= filled(whole));
    while i < all.len()
        invariant
            i <= all.len(),
            whole == texts(all@),
            texts(out@) + filled(whole.skip(i as int)) == filled(whole),
        decreases all.len() - i,
    {
        assert(whole.skip(i as int)[0] == all@[i as int]@);
        assert(whole.skip(i as int).skip(1) =~= whole.skip(i + 1));
        if !all[i].as_str().is_empty() {
            let ghost before = out@;
            out.push(all[i].clone());
            proof {
                let p = whole[i as int];
                assert(texts(out@) =~= texts(before).push(p));
                let more = filled(whole.skip(i + 1));
                assert(texts(before) + (seq![p] + more) =~= texts(out@) + more);
            }
        }
        i += 1;
    }
    assert(whole.skip(i as int) =~= Seq::<Seq<char>>::empty());
    assert(texts(out@) + Seq::<Seq<char>>::empty() =~= texts(out@));
    out
}

/// `s` without the characters `c` at its beginning.
pub open spec fn drop_leading(s: Seq<char>, c: char) -> Seq<char>
    decreases s.len(),
{
    if s.len() > 0 && s[0] == c {
        drop_leading(s.skip(1), c)
    } else {
        s
    }
}

/// `s` without the characters `c` at its beginning.
pub fn trim_start_char(s: &str, c: char) -> (r: String)
    ensures
        r@ == drop_leading(s@, c),
{
    let a = chars_of(s);
    let mut i: usize = 0;
    assert(s@.skip(0) =~= s@);
    while i < a.len() && a[i] == c
        invariant
            a@ == s@,
            i <= a.len(),
            drop_leading(s@, c) == drop_leading(s@.skip(i as int), c),
        decreases a.len() - i,
    {
        assert(s@.skip(i as int)[0] == a@[i as int]);
        assert(s@.skip(i as int).skip(1) =~= s@.skip(i + 1));
        i += 1;
    }
    if i < a.len() {
        assert(s@.skip(i as int)[0] == a@[i as int]);
    }
    assert(s@.subrange(i as int, s@.len() as int) =~= s@.skip(i as int));
    string_of(&a, i, a.len())
}

/// A text in lower case, by the rules of Unicode.
pub uninterp spec fn lowercase(s: Seq<char>) -> Seq<char>;

/// `str::to_lowercase` of the standard library: named `lowercase`; of a text
/// in ASCII, the letters in lower case.
#[verifier::external_body]
pub(crate) fn lowercase_text(s: &str) -> (r: String)
    ensures
        r@ == lowercase(s@),
        (forall|i: int| 0 <= i < s@.len() ==> (#[trigger] s@[i] as int) < 128) ==> r@ == lowered(s@),
{
    s.to_lowercase()
}

/// A copy of a list of strings.
pub fn copy_texts(v: &Vec<String>) -> (r: Vec<String>)
    ensures
        texts(r@) == texts(v@),
{
    broadcast use lemma_texts_push;

    let mut out: Vec<String> = Vec::new();
    let mut i: usize = 0;
    while i < v.len()
        invariant
            i <= v.len(),
            texts(out@) == texts(v@).take(i as int),
        decreases v.len() - i,
    {
        out.push(v[i].clone());
        assert(texts(v@).take(i + 1) =~= texts(v@).take(i as int).push(v@[i as int]@));
        i += 1;
    }
    assert(texts(v@).take(i as int) =~= texts(v@));
    out
}

/// Whether a path is rooted.
pub open spec fn rooted(s: Seq<char>) -> bool {
    s.len() > 0 && s[0] == '/'
}

/// The names without those that are `.`.
pub open spec fn without_dots(v: Seq<Seq<char>>) -> Seq<Seq<char>>
    decreases v.len(),
{
    if v.len() == 0 {
        v
    } else if v[0] == "."@ {
        without_dots(v.skip(1))
    } else {
        seq![v[0]] + without_dots(v.skip(1))
    }
}

/// The components of a path. A `.` counts only at the beginning of a path that
/// is not rooted.
pub open spec fn components(s: Seq<char>) -> Seq<Seq<char>> {
    let p = path_parts(s);
    if !rooted(s) && p.len() > 0 && p[0] == "."@ {
        seq!["."@] + without_dots(p)
    } else {
        without_dots(p)
    }
}

/// Whether two texts write the same path.
pub open spec fn same_path(a: Seq<char>, b: Seq<char>) -> bool {
    rooted(a) == rooted(b) && components(a) == components(b)
}

/// Whether a path is rooted.
pub fn is_rooted(s: &str) -> (r: bool)
    ensures
        r == rooted(s@),
{
    let v = chars_of(s);
    v.len() > 0 && v[0] == '/'
}

/// The components of a path.
pub fn path_components(s: &str) -> (r: Vec<String>)
    ensures
        texts(r@) == components(s@),
{
    broadcast use lemma_texts_push;

    let all = split_path(s);
    let ghost whole = texts(all@);
    let mut out: Vec<String> = Vec::new();
    if !is_rooted(s) && all.len() > 0 && str_eq(all[0].as_str(), ".") {
        out.push(".".to_owned());
    }
    let ghost head = texts(out@);
    let mut i: usize = 0;
    assert(whole.skip(0) =~= whole);
    proof {
        if all@.len() > 0 {
            assert(whole[0] == all@[0]@);
        }
        if head.len() > 0 {
            assert(head =~= seq!["."@]);
            assert(components(s@) == head + without_dots(whole));
        } else {
            assert(components(s@) =~= head + without_dots(whole));
        }
    }
    while i < all.len()
        invariant
            i <= all.len(),
            whole == texts(all@),
            texts(out@) + without_dots(whole.skip(i as int)) == components(s@),
        decreases all.len() - i,
    {
        assert(whole.skip(i as int)[0] == all@[i as int]@);
        assert(whole.skip(i as int).skip(1) =~= whole.skip(i + 1));
        if !str_eq(all[i].as_str(), ".") {
            let ghost before = out@;
            out.push(all[i].clone());
            proof {
                let p = whole[i as int];
                let more = without_dots(whole.skip(i + 1));
                assert(texts(before) + (seq![p] + more) =~= texts(out@) + more);
            }
        }
        i += 1;
    }
    assert(whole.skip(i as int) =~= Seq::<Seq<char>>::empty());
    assert(texts(out@) + Seq::<Seq<char>>::empty() =~= texts(out@));
    out
}

/// Whether two lists hold the same texts in the same order.
pub fn texts_eq(a: &Vec<String>, b: &Vec<String>) -> (r: bool)
    ensures
        r == (texts(a@) == texts(b@)),
{
    if a.len() != b.len() {
        assert(texts(a@).len() != texts(b@).len());
        return false;
    }
    let mut i: usize = 0;
    while i < a.len()
        invariant
            i <= a.len(),
            a@.len() == b@.len(),
            forall|j: int| 0 <= j < i ==> #[trigger] texts(a@)[j] == texts(b@)[j],
        decreases a.len() - i,
    {
        if !str_eq(a[i].as_str(), b[i].as_str()) {
            assert(texts(a@)[i as int] != texts(b@)[i as int]);
            return false;
        }
        i += 1;
    }
    assert(texts(a@) =~= texts(b@));
    true
}

/// Whether two texts write the same path.
pub fn is_same_path(a: &str, b: &str) -> (r: bool)
    ensures
        r == same_path(a@, b@),
{
    is_rooted(a) == is_rooted(b) && texts_eq(&path_components(a), &path_components(b))
}

/// `s` with every `p` in it, from the left, replaced by `q`.
pub open spec fn replaced(s: Seq<char>, p: Seq<char>, q: Seq<char>) -> Seq<char>
    decreases s.len(),
{
    match cut(s, p) {
        Some(c) => if c.1.len() < s.len() {
            c.0 + q + replaced(c.1, p, q)
        } else {
            s
        },
        None => s,
    }
}

/// Replaces every `p` in `s`, from the left.
pub fn replace(s: &str, p: &str, q: &str) -> (r: String)
    requires
        p@.len() > 0,
    ensures
        r@ == replaced(s@, p@, q@),
{
    let mut out = String::new();
    let mut rest = s.to_owned();
    assert(out@ + replaced(s@, p@, q@) =~= replaced(s@, p@, q@));
    loop
        invariant
            p@.len() > 0,
            out@ + replaced(rest@, p@, q@) == replaced(s@, p@, q@),
        ensures
            out@ + rest@ == replaced(s@, p@, q@),
        decreases rest@.len(),
    {
        match split_once(rest.as_str(), p) {
            None => {
                break;
            },
            Some((head, tail)) => {
                let ghost before = out@;
                proof {
                    lemma_cut(rest@, p@);
                }
                out.append(head.as_str());
                out.append(q);
                assert(before + (head@ + q@ + replaced(tail@, p@, q@)) =~= out@ + replaced(
                    tail@,
                    p@,
                    q@,
                ));
                rest = tail;
            },
        }
    }
    out.append(rest.as_str());
    out
}

// ── Laws ──

/// A search gives the first place where a text stands, and gives one whenever
/// there is one.
pub proof fn law_the_first_place_is_found(s: Seq<char>, p: Seq<char>)
    ensures
        match find(s, p) {
            Some(i) => 0 <= i && i + p.len() <= s.len() && s.subrange(i, i + p.len()) == p
                && forall|j: int|
                0 <= j < i ==> #[trigger] s.subrange(j, j + p.len()) != p,
            None => forall|j: int|
                0 <= j && j + p.len() <= s.len() ==> #[trigger] s.subrange(j, j + p.len()) != p,
        },
        holds(s, p) <==> exists|j: int|
            0 <= j && j + p.len() <= s.len() && #[trigger] s.subrange(j, j + p.len()) == p,
{
    lemma_find_from(s, p, 0);
    match find(s, p) {
        Some(i) => {
            assert(s.subrange(i, i + p.len()) == p);
            assert forall|j: int| 0 <= j < i implies #[trigger] s.subrange(j, j + p.len())
                != p by {
                assert(!occurs_at(s, p, j));
            }
        },
        None => {
            assert forall|j: int|
                0 <= j && j + p.len() <= s.len() implies #[trigger] s.subrange(j, j + p.len())
                != p by {
                assert(!occurs_at(s, p, j));
            }
        },
    }
}

proof fn lemma_rfind_from(s: Seq<char>, p: Seq<char>, i: int)
    ensures
        match rfind_from(s, p, i) {
            Some(k) => 0 <= k <= i && occurs_at(s, p, k) && forall|j: int|
                k < j <= i ==> !occurs_at(s, p, j),
            None => forall|j: int| 0 <= j <= i ==> !occurs_at(s, p, j),
        },
    decreases i + 1,
{
    if i >= 0 && !occurs_at(s, p, i) {
        lemma_rfind_from(s, p, i - 1);
    }
}

/// A search from behind gives the last place where a text stands.
pub proof fn law_the_last_place_is_found(s: Seq<char>, p: Seq<char>)
    ensures
        match rfind(s, p) {
            Some(i) => 0 <= i && i + p.len() <= s.len() && s.subrange(i, i + p.len()) == p
                && forall|j: int|
                i < j && j + p.len() <= s.len() ==> #[trigger] s.subrange(j, j + p.len()) != p,
            None => forall|j: int|
                0 <= j && j + p.len() <= s.len() ==> #[trigger] s.subrange(j, j + p.len()) != p,
        },
{
    lemma_rfind_from(s, p, s.len() as int);
    let low = match rfind(s, p) {
        Some(i) => i + 1,
        None => 0,
    };
    assert forall|j: int|
        low <= j && j + p.len() <= s.len() implies #[trigger] s.subrange(j, j + p.len()) != p by {
        assert(!occurs_at(s, p, j));
    }
}

/// A text is cut at the first of a character.
pub proof fn law_cut_at_the_first(a: Seq<char>, c: char, b: Seq<char>)
    requires
        !a.contains(c),
    ensures
        cut(a + seq![c] + b, seq![c]) == Some((a, b)),
        first_part(a + seq![c] + b, seq![c]) == a,
        cut(a, seq![c]) is None,
        first_part(a, seq![c]) == a,
        !holds(a, seq![c]),
        holds(a + seq![c] + b, seq![c]),
{
    let s = a + seq![c] + b;
    lemma_find_from(s, seq![c], 0);
    lemma_find_from(a, seq![c], 0);
    let at = a.len() as int;
    assert(s.subrange(at, at + 1) =~= seq![c]);
    assert(occurs_at(s, seq![c], at));
    match find(s, seq![c]) {
        Some(k) => {
            if k < at {
                assert(s.subrange(k, k + 1)[0] == c);
                assert(a[k] == c);
                assert(false);
            }
            assert(s.take(at) =~= a);
            assert(s.skip(at + 1) =~= b);
        },
        None => {},
    }
    match find(a, seq![c]) {
        Some(k) => {
            assert(a.subrange(k, k + 1)[0] == c);
            assert(a[k] == c);
        },
        None => {},
    }
}

/// A text is cut from behind at the last of a character.
pub proof fn law_cut_at_the_last(a: Seq<char>, c: char, b: Seq<char>)
    requires
        !b.contains(c),
    ensures
        rcut(a + seq![c] + b, seq![c]) == Some((a, b)),
        last_part(a + seq![c] + b, seq![c]) == b,
        rcut(b, seq![c]) is None,
        last_part(b, seq![c]) == b,
{
    let s = a + seq![c] + b;
    lemma_rfind_from(s, seq![c], s.len() as int);
    lemma_rfind_from(b, seq![c], b.len() as int);
    let at = a.len() as int;
    assert(s.subrange(at, at + 1) =~= seq![c]);
    assert(occurs_at(s, seq![c], at));
    match rfind(s, seq![c]) {
        Some(k) => {
            if k > at {
                assert(s.subrange(k, k + 1)[0] == c);
                assert(b[k - at - 1] == c);
                assert(false);
            }
            assert(s.take(at) =~= a);
            assert(s.skip(at + 1) =~= b);
        },
        None => {},
    }
    match rfind(b, seq![c]) {
        Some(k) => {
            assert(b.subrange(k, k + 1)[0] == c);
            assert(b[k] == c);
        },
        None => {},
    }
}

/// What stands behind a prefix, and before a suffix.
pub proof fn law_ends_are_taken_off(p: Seq<char>, s: Seq<char>)
    ensures
        after_prefix(p + s, p) == Some(s),
        before_suffix(s + p, p) == Some(s),
        after_prefix(s, p) is Some ==> s == p + after_prefix(s, p)->0,
        before_suffix(s, p) is Some ==> s == before_suffix(s, p)->0 + p,
{
    assert(p.is_prefix_of(p + s)) by {
        assert((p + s).take(p.len() as int) =~= p);
    }
    assert((p + s).skip(p.len() as int) =~= s);
    assert(p.is_suffix_of(s + p)) by {
        assert((s + p).skip(s.len() as int) =~= p);
    }
    assert((s + p).take(s.len() as int) =~= s);
    if after_prefix(s, p) is Some {
        assert(s =~= p + s.skip(p.len() as int));
    }
    if before_suffix(s, p) is Some {
        assert(s =~= s.take(s.len() - p.len()) + p);
    }
}

proof fn lemma_parts_from(s: Seq<char>, c: char, start: int, i: int)
    requires
        0 <= start <= i <= s.len(),
        forall|k: int| start <= k < i ==> s[k] != c,
    ensures
        parts_from(s, c, start, i).len() >= 1,
        parts_from(s, c, start, i) == parts(s.skip(start), c),
        forall|k: int|
            0 <= k < parts_from(s, c, start, i).len() ==> !(#[trigger] parts_from(
                s,
                c,
                start,
                i,
            )[k]).contains(c),
    decreases s.len() - start, s.len() - i,
{
    let t = s.skip(start);
    lemma_parts_shift(s, c, start, i, start);
    assert(parts_from(s, c, start, i) == parts_from(t, c, 0, i - start));
    lemma_parts_skip(t, c, i - start);
    if i < s.len() {
        if s[i] == c {
            lemma_parts_from(s, c, i + 1, i + 1);
            assert(!s.subrange(start, i).contains(c));
        } else {
            lemma_parts_from(s, c, start, i + 1);
        }
    } else {
        assert(!s.subrange(start, s.len() as int).contains(c));
    }
}

proof fn lemma_parts_shift(s: Seq<char>, c: char, start: int, i: int, by: int)
    requires
        0 <= by <= start <= i <= s.len(),
    ensures
        parts_from(s, c, start, i) == parts_from(s.skip(by), c, start - by, i - by),
    decreases s.len() - i,
{
    let t = s.skip(by);
    if i >= s.len() {
        assert(s.subrange(start, s.len() as int) =~= t.subrange(start - by, t.len() as int));
    } else if s[i] == c {
        assert(s.subrange(start, i) =~= t.subrange(start - by, i - by));
        lemma_parts_shift(s, c, i + 1, i + 1, by);
    } else {
        lemma_parts_shift(s, c, start, i + 1, by);
    }
}

proof fn lemma_parts_skip(s: Seq<char>, c: char, i: int)
    requires
        0 <= i <= s.len(),
        forall|k: int| 0 <= k < i ==> s[k] != c,
    ensures
        parts_from(s, c, 0, i) == parts(s, c),
    decreases i,
{
    if i > 0 {
        lemma_parts_skip(s, c, i - 1);
    }
}

/// A text without the separator is its only part, and one in front of a
/// separator is the first part.
pub proof fn law_parts_stand_between_separators(a: Seq<char>, c: char, b: Seq<char>)
    requires
        !a.contains(c),
    ensures
        parts(a, c) == seq![a],
        parts(a + seq![c] + b, c) == seq![a] + parts(b, c),
{
    let s = a + seq![c] + b;
    let at = a.len() as int;
    assert forall|k: int| 0 <= k < at implies s[k] != c by {
        assert(a.contains(a[k]));
    }
    assert forall|k: int| 0 <= k < at implies a[k] != c by {
        assert(a.contains(a[k]));
    }
    lemma_parts_skip(s, c, at);
    lemma_parts_skip(a, c, at);
    assert(a.subrange(0, at) =~= a);
    assert(s.subrange(0, at) =~= a);
    lemma_parts_from(s, c, at + 1, at + 1);
    assert(s.skip(at + 1) =~= b);
}

/// Texts with `c` between them have a text in front.
pub proof fn lemma_joined_first(v: Seq<Seq<char>>, sep: Seq<char>)
    requires
        v.len() >= 2,
    ensures
        joined(v, sep) == v[0] + sep + joined(v.skip(1), sep),
    decreases v.len(),
{
    if v.len() == 2 {
        assert(v.drop_last() =~= seq![v[0]]);
        assert(v.skip(1) =~= seq![v[1]]);
        assert(joined(seq![v[0]], sep) == v[0]);
        assert(joined(seq![v[1]], sep) == v[1]);
    } else {
        lemma_joined_first(v.drop_last(), sep);
        assert(v.drop_last().skip(1) =~= v.skip(1).drop_last());
        assert(v.skip(1).last() == v.last());
        assert(v[0] + sep + (joined(v.skip(1).drop_last(), sep) + sep + v.last()) =~= v[0] + sep
            + joined(v.skip(1).drop_last(), sep) + sep + v.last());
    }
}

/// The parts of a text hold no separator, and with the separator between them
/// they are the text.
pub proof fn law_parts_make_up_the_text(s: Seq<char>, c: char)
    ensures
        parts(s, c).len() >= 1,
        joined(parts(s, c), seq![c]) == s,
        forall|k: int| 0 <= k < parts(s, c).len() ==> !(#[trigger] parts(s, c)[k]).contains(c),
    decreases s.len(),
{
    lemma_parts_from(s, c, 0, 0);
    assert(s.skip(0) =~= s);
    if s.contains(c) {
        lemma_find_from(s, seq![c], 0);
        let k = choose|k: int| 0 <= k < s.len() && s[k] == c;
        assert(s.subrange(k, k + 1) =~= seq![c]);
        assert(occurs_at(s, seq![c], k));
        let i = find(s, seq![c])->0;
        let a = s.take(i);
        let b = s.skip(i + 1);
        assert(s.subrange(i, i + 1)[0] == c);
        assert(s =~= a + seq![c] + b);
        assert(!a.contains(c)) by {
            if a.contains(c) {
                let j = choose|j: int| 0 <= j < a.len() && a[j] == c;
                assert(s.subrange(j, j + 1) =~= seq![c]);
                assert(occurs_at(s, seq![c], j));
            }
        }
        law_parts_stand_between_separators(a, c, b);
        law_parts_make_up_the_text(b, c);
        lemma_joined_first(parts(s, c), seq![c]);
        assert(parts(s, c).skip(1) =~= parts(b, c));
    } else {
        law_parts_stand_between_separators(s, c, s);
    }
}

proof fn lemma_lines_shift(s: Seq<char>, start: int, i: int, by: int)
    requires
        0 <= by <= start <= i <= s.len(),
    ensures
        lines_from(s, start, i) == lines_from(s.skip(by), start - by, i - by),
    decreases s.len() - i,
{
    let t = s.skip(by);
    if i >= s.len() {
        assert(s.subrange(start, s.len() as int) =~= t.subrange(start - by, t.len() as int));
    } else if s[i] == '\n' {
        assert(s.subrange(start, i) =~= t.subrange(start - by, i - by));
        lemma_lines_shift(s, i + 1, i + 1, by);
    } else {
        lemma_lines_shift(s, start, i + 1, by);
    }
}

proof fn lemma_lines_skip(s: Seq<char>, i: int)
    requires
        0 <= i <= s.len(),
        forall|k: int| 0 <= k < i ==> s[k] != '\n',
    ensures
        lines_from(s, 0, i) == lines(s),
    decreases i,
{
    if i > 0 {
        lemma_lines_skip(s, i - 1);
    }
}

/// A line ends at a line feed, with or without a carriage return before it,
/// and what follows the last line feed is a line where it is not empty.
pub proof fn law_lines_end_at_line_feeds(a: Seq<char>, b: Seq<char>)
    requires
        !a.contains('\n'),
    ensures
        lines(Seq::<char>::empty()).len() == 0,
        a.len() > 0 ==> lines(a) == seq![a],
        lines(a + seq!['\r', '\n'] + b) == seq![a] + lines(b),
        !(a.len() > 0 && a.last() == '\r') ==> lines(a + seq!['\n'] + b) == seq![a] + lines(b),
        lines(a + seq!['\n'] + b).len() == 1 + lines(b).len(),
        lines(a + seq!['\n'] + b).skip(1) == lines(b),
{
    let at = a.len() as int;
    assert forall|k: int| 0 <= k < at implies a[k] != '\n' by {
        assert(a.contains(a[k]));
    }
    lemma_lines_skip(a, at);
    assert(a.subrange(0, at) =~= a);
    let s = a + seq!['\n'] + b;
    lemma_lines_skip(s, at);
    assert(s.subrange(0, at) =~= a);
    lemma_lines_shift(s, at + 1, at + 1, at + 1);
    assert(s.skip(at + 1) =~= b);
    assert(lines(s) == seq![without_cr(a)] + lines(b));
    assert((seq![without_cr(a)] + lines(b)).skip(1) =~= lines(b));
    let t = a + seq!['\r', '\n'] + b;
    assert forall|k: int| 0 <= k < at + 1 implies t[k] != '\n' by {
        if k < at {
            assert(t[k] == a[k]);
        }
    }
    lemma_lines_skip(t, at + 1);
    assert(t.subrange(0, at + 1) =~= a.push('\r'));
    assert(a.push('\r').drop_last() =~= a);
    lemma_lines_shift(t, at + 2, at + 2, at + 2);
    assert(t.skip(at + 2) =~= b);
}

proof fn lemma_trim_front(s: Seq<char>)
    ensures
        trim_front(s).len() <= s.len(),
        s.skip(s.len() - trim_front(s).len()) == trim_front(s),
        forall|k: int| 0 <= k < s.len() - trim_front(s).len() ==> is_space(#[trigger] s[k]),
        trim_front(s).len() > 0 ==> !is_space(trim_front(s)[0]),
    decreases s.len(),
{
    assert(s.skip(0) =~= s);
    if s.len() > 0 && is_space(s[0]) {
        let t = s.skip(1);
        lemma_trim_front(t);
        let n = t.len() - trim_front(t).len();
        assert(s.skip(n + 1) =~= t.skip(n));
        assert forall|k: int| 0 <= k < n + 1 implies is_space(#[trigger] s[k]) by {
            if k > 0 {
                assert(t[k - 1] == s[k]);
            }
        }
    }
}

proof fn lemma_trim_back(s: Seq<char>)
    ensures
        trim_back(s).len() <= s.len(),
        s.take(trim_back(s).len() as int) == trim_back(s),
        forall|k: int| trim_back(s).len() <= k < s.len() ==> is_space(#[trigger] s[k]),
        trim_back(s).len() > 0 ==> !is_space(trim_back(s).last()),
    decreases s.len(),
{
    assert(s.take(s.len() as int) =~= s);
    if s.len() > 0 && is_space(s.last()) {
        let t = s.drop_last();
        lemma_trim_back(t);
        let n = trim_back(t).len() as int;
        assert(s.take(n) =~= t.take(n));
        assert forall|k: int| n <= k < s.len() implies is_space(#[trigger] s[k]) by {
            if k < t.len() {
                assert(t[k] == s[k]);
            }
        }
    }
}

/// Trimming takes white space off both ends, and nothing else.
pub proof fn law_trimming_takes_white_space_off(s: Seq<char>)
    ensures
        exists|i: int, j: int|
            0 <= i <= j <= s.len() && #[trigger] s.subrange(i, j) == trimmed(s) && (forall|k: int|
                0 <= k < i || j <= k < s.len() ==> is_space(#[trigger] s[k])),
        trimmed(s).len() > 0 ==> !is_space(trimmed(s)[0]) && !is_space(trimmed(s).last()),
{
    let t = trim_front(s);
    lemma_trim_front(s);
    lemma_trim_back(t);
    let i = s.len() - t.len();
    let j = i + trimmed(s).len();
    assert(s.subrange(i, j) =~= t.take(trimmed(s).len() as int)) by {
        assert(s.skip(i) == t);
    }
    assert forall|k: int| 0 <= k < i || j <= k < s.len() implies is_space(#[trigger] s[k]) by {
        if k >= j {
            assert(s.skip(i)[k - i] == s[k]);
            assert(is_space(t[k - i]));
        }
    }
    if trimmed(s).len() > 0 {
        assert(t.take(trimmed(s).len() as int)[0] == t[0]);
    }
}

/// Only the given character is taken off behind, and all of it.
pub proof fn law_trailing_characters_are_dropped(s: Seq<char>, c: char)
    ensures
        drop_trailing(s, c).len() <= s.len(),
        s.take(drop_trailing(s, c).len() as int) == drop_trailing(s, c),
        forall|k: int| drop_trailing(s, c).len() <= k < s.len() ==> #[trigger] s[k] == c,
        drop_trailing(s, c).len() > 0 ==> drop_trailing(s, c).last() != c,
    decreases s.len(),
{
    assert(s.take(s.len() as int) =~= s);
    if s.len() > 0 && s.last() == c {
        let t = s.drop_last();
        law_trailing_characters_are_dropped(t, c);
        let n = drop_trailing(t, c).len() as int;
        assert(s.take(n) =~= t.take(n));
        assert forall|k: int| n <= k < s.len() implies #[trigger] s[k] == c by {
            if k < t.len() {
                assert(t[k] == s[k]);
            }
        }
    }
}

/// Only the given character is taken off in front, and all of it.
pub proof fn law_leading_characters_are_dropped(s: Seq<char>, c: char)
    ensures
        drop_leading(s, c).len() <= s.len(),
        s.skip(s.len() - drop_leading(s, c).len()) == drop_leading(s, c),
        forall|k: int| 0 <= k < s.len() - drop_leading(s, c).len() ==> #[trigger] s[k] == c,
        drop_leading(s, c).len() > 0 ==> drop_leading(s, c)[0] != c,
    decreases s.len(),
{
    assert(s.skip(0) =~= s);
    if s.len() > 0 && s[0] == c {
        let t = s.skip(1);
        law_leading_characters_are_dropped(t, c);
        let n = t.len() - drop_leading(t, c).len();
        assert(s.skip(n + 1) =~= t.skip(n));
        assert forall|k: int| 0 <= k < n + 1 implies #[trigger] s[k] == c by {
            if k > 0 {
                assert(t[k - 1] == s[k]);
            }
        }
    }
}

proof fn lemma_words_shift(s: Seq<char>, start: int, i: int, by: int)
    requires
        0 <= by <= start <= i <= s.len(),
    ensures
        words_from(s, start, i) == words_from(s.skip(by), start - by, i - by),
    decreases s.len() - i,
{
    let t = s.skip(by);
    if i >= s.len() {
        assert(s.subrange(start, s.len() as int) =~= t.subrange(start - by, t.len() as int));
    } else if is_space(s[i]) {
        assert(s.subrange(start, i) =~= t.subrange(start - by, i - by));
        lemma_words_shift(s, i + 1, i + 1, by);
    } else {
        lemma_words_shift(s, start, i + 1, by);
    }
}

proof fn lemma_words_skip(s: Seq<char>, i: int)
    requires
        0 <= i <= s.len(),
        forall|k: int| 0 <= k < i ==> !is_space(#[trigger] s[k]),
    ensures
        words_from(s, 0, i) == words(s),
    decreases i,
{
    if i > 0 {
        lemma_words_skip(s, i - 1);
    }
}

/// White space stands between words and in front of them and is no part of any,
/// and what holds none is one word.
pub proof fn law_words_stand_between_white_space(w: Seq<char>, c: char, rest: Seq<char>)
    requires
        forall|k: int| 0 <= k < w.len() ==> !is_space(#[trigger] w[k]),
        is_space(c),
    ensures
        words(Seq::<char>::empty()).len() == 0,
        words(seq![c] + rest) == words(rest),
        w.len() > 0 ==> words(w) == seq![w],
        w.len() > 0 ==> words(w + seq![c] + rest) == seq![w] + words(rest),
{
    let at = w.len() as int;
    let s = w + seq![c] + rest;
    lemma_words_skip(w, at);
    assert(w.subrange(0, at) =~= w);
    assert forall|k: int| 0 <= k < at implies !is_space(#[trigger] s[k]) by {
        assert(s[k] == w[k]);
    }
    lemma_words_skip(s, at);
    assert(s.subrange(0, at) =~= w);
    lemma_words_shift(s, at + 1, at + 1, at + 1);
    assert(s.skip(at + 1) =~= rest);
    let t = seq![c] + rest;
    lemma_words_shift(t, 1, 1, 1);
    assert(t.skip(1) =~= rest);
}

proof fn lemma_digits_value(n: nat, rest: Seq<char>, max: int)
    requires
        n <= max,
    ensures
        digits_value(decimal(n) + rest, 0, max) == digits_value(rest, n as int, max),
    decreases n,
{
    let d = digit_char((n % 10) as int);
    if n < 10 {
        let s = decimal(n) + rest;
        assert(s[0] == d);
        assert(s.skip(1) =~= rest);
    } else {
        lemma_digits_value(n / 10, seq![d] + rest, max);
        assert(decimal(n) + rest =~= decimal(n / 10) + (seq![d] + rest));
        let s = seq![d] + rest;
        assert(s[0] == d);
        assert(s.skip(1) =~= rest);
        assert((n / 10) * 10 + n % 10 == n);
    }
}

/// A number in decimal is read back, up to the bound and not beyond it.
pub proof fn law_numbers_are_read_back(n: nat, max: int)
    ensures
        n <= max ==> unsigned_value(decimal(n), max) == Some(n as int),
        n <= max ==> unsigned_value(seq!['+'] + decimal(n), max) == Some(n as int),
        forall|k: int| 0 <= k < decimal(n).len() ==> is_digit(#[trigger] decimal(n)[k]),
        decimal(n).len() >= 1,
{
    lemma_decimal_digits(n);
    if n <= max {
        lemma_digits_value(n, Seq::empty(), max);
        assert(decimal(n) + Seq::<char>::empty() =~= decimal(n));
        assert((seq!['+'] + decimal(n)).skip(1) =~= decimal(n));
        assert(is_digit(decimal(n)[0]));
    }
}

proof fn lemma_decimal_digits(n: nat)
    ensures
        decimal(n).len() >= 1,
        forall|k: int| 0 <= k < decimal(n).len() ==> is_digit(#[trigger] decimal(n)[k]),
    decreases n,
{
    if n >= 10 {
        lemma_decimal_digits(n / 10);
        assert forall|k: int| 0 <= k < decimal(n).len() implies is_digit(
            #[trigger] decimal(n)[k],
        ) by {
            if k < decimal(n / 10).len() {
                assert(decimal(n)[k] == decimal(n / 10)[k]);
            }
        }
    }
}

proof fn lemma_digits_bound(s: Seq<char>, acc: int, max: int)
    requires
        0 <= acc <= max,
    ensures
        digits_value(s, acc, max) matches Some(n) ==> acc <= n <= max && forall|k: int|
            0 <= k < s.len() ==> is_digit(#[trigger] s[k]),
    decreases s.len(),
{
    if s.len() > 0 && digits_value(s, acc, max) is Some {
        lemma_digits_bound(s.skip(1), acc * 10 + (s[0] as int - 48), max);
        assert forall|k: int| 0 <= k < s.len() implies is_digit(#[trigger] s[k]) by {
            if k > 0 {
                assert(s.skip(1)[k - 1] == s[k]);
            }
        }
    }
}

/// What is read as a number is made of digits, behind a plus sign or none, and
/// no number is over the bound.
pub proof fn law_only_digits_are_numbers(s: Seq<char>, max: int)
    requires
        0 <= max,
        unsigned_value(s, max) is Some,
    ensures
        0 <= unsigned_value(s, max)->0 <= max,
        s.len() > 0,
        s[0] == '+' || is_digit(s[0]),
        s[0] == '+' ==> s.len() > 1,
        forall|k: int| 1 <= k < s.len() ==> is_digit(#[trigger] s[k]),
{
    if s[0] == '+' {
        lemma_digits_bound(s.skip(1), 0, max);
        assert forall|k: int| 1 <= k < s.len() implies is_digit(#[trigger] s[k]) by {
            assert(s.skip(1)[k - 1] == s[k]);
        }
    } else {
        lemma_digits_bound(s, 0, max);
    }
}

/// Texts are ordered by the first character in which they differ, and where
/// one is the beginning of the other the shorter comes first.
pub proof fn law_texts_are_ordered_by_characters(a: Seq<char>, b: Seq<char>, i: int)
    requires
        0 <= i <= a.len(),
        i <= b.len(),
        a.take(i) == b.take(i),
        i == a.len() || i == b.len() || a[i] != b[i],
    ensures
        i == b.len() ==> !text_lt(a, b),
        i == a.len() && i < b.len() ==> text_lt(a, b),
        i < a.len() && i < b.len() ==> (text_lt(a, b) <==> a[i] < b[i]),
    decreases i,
{
    if i > 0 {
        assert(a.take(i)[0] == a[0] && b.take(i)[0] == b[0]);
        assert(a.skip(1).take(i - 1) =~= a.take(i).skip(1));
        assert(b.skip(1).take(i - 1) =~= b.take(i).skip(1));
        law_texts_are_ordered_by_characters(a.skip(1), b.skip(1), i - 1);
    }
}

/// The texts that are not empty stay, in their order.
pub proof fn law_only_empty_texts_go(v: Seq<Seq<char>>)
    ensures
        filled(v) == v.filter(|t: Seq<char>| t.len() > 0),
    decreases v.len(),
{
    let keep = |t: Seq<char>| t.len() > 0;
    if v.len() == 0 {
        reveal(Seq::filter);
        assert(v.filter(keep) =~= v);
    } else {
        law_only_empty_texts_go(v.skip(1));
        lemma_filter_first(v, keep);
    }
}

/// Filtering goes through a list from the front.
pub proof fn lemma_filter_first<A>(v: Seq<A>, keep: spec_fn(A) -> bool)
    requires
        v.len() > 0,
    ensures
        v.filter(keep) == (if keep(v[0]) {
            seq![v[0]] + v.skip(1).filter(keep)
        } else {
            v.skip(1).filter(keep)
        }),
{
    assert(v =~= seq![v[0]] + v.skip(1));
    Seq::filter_distributes_over_add(seq![v[0]], v.skip(1), keep);
    reveal(Seq::filter);
    assert(seq![v[0]].drop_last() =~= Seq::<A>::empty());
    assert(Seq::<A>::empty().filter(keep) =~= Seq::<A>::empty());
    assert(seq![v[0]].last() == v[0]);
    if keep(v[0]) {
        assert(seq![v[0]].filter(keep) =~= seq![v[0]]);
    } else {
        assert(seq![v[0]].filter(keep) =~= Seq::<A>::empty());
        assert(Seq::<A>::empty() + v.skip(1).filter(keep) =~= v.skip(1).filter(keep));
    }
}

/// What does not hold a text is not changed by replacing it, and in what does,
/// the first place is replaced, then all behind it.
pub proof fn law_every_place_is_replaced(s: Seq<char>, p: Seq<char>, q: Seq<char>)
    requires
        p.len() > 0,
    ensures
        !holds(s, p) ==> replaced(s, p, q) == s,
        find(s, p) matches Some(i) ==> replaced(s, p, q) == s.take(i) + q + replaced(
            s.skip(i + p.len()),
            p,
            q,
        ),
        q == p ==> replaced(s, p, q) == s,
    decreases s.len(),
{
    lemma_cut(s, p);
    if find(s, p) is Some {
        let i = find(s, p)->0;
        law_every_place_is_replaced(s.skip(i + p.len()), p, q);
    }
}

/// What has no white space at its ends is its own trimmed text.
pub proof fn lemma_trimmed_plain(s: Seq<char>)
    requires
        s.len() > 0 ==> !is_space(s[0]) && !is_space(s.last()),
    ensures
        trimmed(s) == s,
{
}

/// A number in decimal has no white space, and neither sign nor comma.
pub proof fn lemma_decimal_plain(n: nat)
    ensures
        trimmed(decimal(n)) == decimal(n),
        decimal(n).len() >= 1,
        forall|c: char| #[trigger] decimal(n).contains(c) ==> is_digit(c),
{
    lemma_decimal_digits(n);
    let d = decimal(n);
    assert(is_digit(d[0]) && is_digit(d[d.len() - 1]));
    lemma_trimmed_plain(d);
}

/// Texts without the separator are given back by splitting what they make with
/// the separator between them.
pub proof fn law_joined_texts_are_split_again(v: Seq<Seq<char>>, c: char)
    requires
        v.len() > 0,
        forall|i: int| 0 <= i < v.len() ==> !(#[trigger] v[i]).contains(c),
    ensures
        parts(joined(v, seq![c]), c) == v,
    decreases v.len(),
{
    if v.len() == 1 {
        law_parts_stand_between_separators(v[0], c, v[0]);
        assert(v =~= seq![v[0]]);
    } else {
        let rest = v.skip(1);
        assert forall|i: int| 0 <= i < rest.len() implies !(#[trigger] rest[i]).contains(c) by {
            assert(rest[i] == v[i + 1]);
        }
        law_joined_texts_are_split_again(rest, c);
        lemma_joined_first(v, seq![c]);
        law_parts_stand_between_separators(v[0], c, joined(rest, seq![c]));
        assert(v =~= seq![v[0]] + rest);
    }
}

/// Filtering keeps exactly what is to be kept.
pub proof fn lemma_filter_members<A>(v: Seq<A>, keep: spec_fn(A) -> bool)
    ensures
        forall|x: A| #[trigger] v.filter(keep).contains(x) <==> v.contains(x) && keep(x),
    decreases v.len(),
{
    if v.len() == 0 {
        reveal(Seq::filter);
    } else {
        let tail = v.skip(1);
        let f = v.filter(keep);
        let g = tail.filter(keep);
        lemma_filter_members(tail, keep);
        lemma_filter_first(v, keep);
        assert forall|x: A| #[trigger] f.contains(x) <==> v.contains(x) && keep(x) by {
            if f.contains(x) {
                let k = choose|k: int| 0 <= k < f.len() && f[k] == x;
                if keep(v[0]) && k == 0 {
                    assert(v[0] == x);
                } else {
                    let m = if keep(v[0]) {
                        k - 1
                    } else {
                        k
                    };
                    assert(g[m] == x);
                    assert(g.contains(x));
                    let j = choose|j: int| 0 <= j < tail.len() && tail[j] == x;
                    assert(v[j + 1] == x);
                }
            }
            if v.contains(x) && keep(x) {
                let k = choose|k: int| 0 <= k < v.len() && v[k] == x;
                if k == 0 {
                    assert(f[0] == x);
                } else {
                    assert(tail[k - 1] == x);
                    assert(g.contains(x));
                    let m = choose|m: int| 0 <= m < g.len() && g[m] == x;
                    if keep(v[0]) {
                        assert(f[m + 1] == x);
                    } else {
                        assert(f[m] == x);
                    }
                }
            }
        }
    }
}

/// What a cut at a character tells of a text.
pub proof fn lemma_cut_char(s: Seq<char>, c: char)
    ensures
        match cut(s, seq![c]) {
            Some(p) => s == p.0 + seq![c] + p.1 && !p.0.contains(c) && p.1.len() < s.len(),
            None => !s.contains(c),
        },
{
    lemma_cut(s, seq![c]);
    lemma_find_from(s, seq![c], 0);
    match cut(s, seq![c]) {
        Some(p) => {
            if p.0.contains(c) {
                let j = choose|j: int| 0 <= j < p.0.len() && p.0[j] == c;
                assert(s[j] == c);
                assert(s.subrange(j, j + 1) =~= seq![c]);
                assert(occurs_at(s, seq![c], j));
            }
        },
        None => {
            if s.contains(c) {
                let j = choose|j: int| 0 <= j < s.len() && s[j] == c;
                assert(s.subrange(j, j + 1) =~= seq![c]);
                assert(occurs_at(s, seq![c], j));
            }
        },
    }
}

/// What a part of a text holds, the text holds.
pub proof fn lemma_holds_part(a: Seq<char>, b: Seq<char>, c: Seq<char>, p: Seq<char>)
    requires
        holds(b, p),
    ensures
        holds(a + b + c, p),
{
    let s = a + b + c;
    lemma_find_from(b, p, 0);
    lemma_find_from(s, p, 0);
    let k = find(b, p)->0;
    assert(s.subrange(a.len() + k, a.len() + k + p.len()) =~= b.subrange(k, k + p.len()));
    assert(occurs_at(s, p, a.len() + k));
}

/// A text is cut around the first place where another stands in it, and what is
/// behind counts up to the next such place.
pub proof fn law_cut_around_the_first_text(a: Seq<char>, p: Seq<char>, b: Seq<char>)
    requires
        forall|j: int|
            0 <= j < a.len() ==> #[trigger] (a + p + b).subrange(j, j + p.len()) != p,
    ensures
        cut(a + p + b, p) == Some((a, b)),
        first_part(a + p + b, p) == a,
        second_part(a + p + b, p) == Some(first_part(b, p)),
        !holds(b, p) ==> second_part(a + p + b, p) == Some(b),
{
    let s = a + p + b;
    let at = a.len() as int;
    lemma_find_from(s, p, 0);
    lemma_find_from(b, p, 0);
    assert(s.subrange(at, at + p.len()) =~= p);
    assert(occurs_at(s, p, at));
    let k = find(s, p)->0;
    if k < at {
        assert(s.subrange(k, k + p.len()) != p);
    }
    assert(k == at);
    assert(s.take(at) =~= a);
    assert(s.skip(at + p.len()) =~= b);
}

/// A text is found where it first stands: behind what does not hold its first
/// character.
pub proof fn lemma_find_behind(a: Seq<char>, m: Seq<char>, b: Seq<char>)
    requires
        m.len() > 0,
        !a.contains(m[0]),
    ensures
        find(a + m + b, m) == Some(a.len() as int),
{
    let s = a + m + b;
    let at = a.len() as int;
    assert(s.subrange(at, at + m.len()) =~= m);
    assert forall|j: int| 0 <= j < at implies #[trigger] s[j] != m[0] by {
        assert(a.contains(a[j]));
    }
    lemma_find_first_char(s, m, at, 0);
}

proof fn lemma_find_first_char(s: Seq<char>, m: Seq<char>, at: int, i: int)
    requires
        m.len() > 0,
        0 <= i <= at,
        occurs_at(s, m, at),
        forall|j: int| 0 <= j < at ==> #[trigger] s[j] != m[0],
    ensures
        find_from(s, m, i) == Some(at),
    decreases at - i,
{
    if i < at {
        assert(s[i] != m[0]);
        if occurs_at(s, m, i) {
            assert(s.subrange(i, i + m.len())[0] == s[i]);
        }
        lemma_find_first_char(s, m, at, i + 1);
    }
}

} // verus!
