//! JSON text: how strings are written, and that they can be told apart again.

use crate::text::hex_digit;
use vstd::prelude::*;

verus! {

/// A character inside a JSON string.
pub open spec fn escaped_char(c: char) -> Seq<char> {
    if c == '"' {
        seq!['\\', '"']
    } else if c == '\\' {
        seq!['\\', '\\']
    } else if c as int == 8 {
        seq!['\\', 'b']
    } else if c as int == 9 {
        seq!['\\', 't']
    } else if c as int == 10 {
        seq!['\\', 'n']
    } else if c as int == 12 {
        seq!['\\', 'f']
    } else if c as int == 13 {
        seq!['\\', 'r']
    } else if (c as int) < 32 {
        seq!['\\', 'u', '0', '0', hex_digit(c as int / 16), hex_digit(c as int % 16)]
    } else {
        seq![c]
    }
}

/// The characters of a text inside a JSON string.
pub open spec fn escaped(s: Seq<char>) -> Seq<char>
    decreases s.len(),
{
    if s.len() == 0 {
        Seq::empty()
    } else {
        escaped_char(s[0]) + escaped(s.skip(1))
    }
}

/// A text as a JSON string.
pub open spec fn quoted(s: Seq<char>) -> Seq<char> {
    seq!['"'] + escaped(s) + seq!['"']
}

/// An optional text as a JSON string or `null`.
pub open spec fn quoted_or_null(o: Option<Seq<char>>) -> Seq<char> {
    match o {
        Some(s) => quoted(s),
        None => seq!['n', 'u', 'l', 'l'],
    }
}

/// `serde_json::to_string` of a string: the text between quotes, with quote,
/// backslash and control characters escaped.
#[verifier::external_body]
pub(crate) fn quote(s: &str) -> (r: String)
    ensures
        r@ == quoted(s@),
{
    serde_json::to_string(s).unwrap_or_default()
}

/// Writes an optional text as a JSON string or `null`.
pub(crate) fn quote_or_null(o: &Option<String>) -> (r: String)
    ensures
        r@ == quoted_or_null(crate::text::opt_text(*o)),
{
    match o {
        Some(s) => quote(s.as_str()),
        None => {
            proof {
                reveal_strlit("null");
                assert("null"@ =~= seq!['n', 'u', 'l', 'l']);
            }
            "null".to_owned()
        },
    }
}

/// Two texts behind one prefix are the same where the whole is.
pub proof fn lemma_same_prefix(p: Seq<char>, a: Seq<char>, b: Seq<char>)
    requires
        p + a == p + b,
    ensures
        a == b,
{
    assert(a =~= (p + a).skip(p.len() as int));
    assert(b =~= (p + b).skip(p.len() as int));
}

/// Different characters are escaped differently.
proof fn lemma_escapes_differ(c: char, d: char)
    requires
        escaped_char(c) == escaped_char(d),
    ensures
        c == d,
{
    let e = escaped_char(c);
    let f = escaped_char(d);
    if e.len() == 6 {
        assert(e[4] == f[4] && e[5] == f[5]);
        lemma_hex_digits_differ(c as int / 16, d as int / 16);
        lemma_hex_digits_differ(c as int % 16, d as int % 16);
        assert(c as int == 16 * (c as int / 16) + c as int % 16);
        assert(d as int == 16 * (d as int / 16) + d as int % 16);
    } else if e.len() == 2 {
        assert(e[1] == f[1]);
    } else {
        assert(e[0] == f[0]);
    }
}

proof fn lemma_hex_digits_differ(a: int, b: int)
    requires
        0 <= a < 16,
        0 <= b < 16,
        hex_digit(a) == hex_digit(b),
    ensures
        a == b,
{
    assert(hex_digit(a) as int == if a < 10 {
        a + 48
    } else {
        a + 87
    });
    assert(hex_digit(b) as int == if b < 10 {
        b + 48
    } else {
        b + 87
    });
}

/// Escaped texts before a quote are told apart.
proof fn lemma_escaped_apart(a: Seq<char>, x: Seq<char>, b: Seq<char>, y: Seq<char>)
    requires
        escaped(a) + seq!['"'] + x == escaped(b) + seq!['"'] + y,
    ensures
        a == b,
        x == y,
    decreases a.len(),
{
    let l = escaped(a) + seq!['"'] + x;
    let r = escaped(b) + seq!['"'] + y;
    if a.len() == 0 && b.len() == 0 {
        assert(a =~= b);
        assert(x =~= l.skip(1));
        assert(y =~= r.skip(1));
    } else if a.len() == 0 {
        assert(l[0] == '"');
        assert(r[0] == escaped_char(b[0])[0]);
    } else if b.len() == 0 {
        assert(r[0] == '"');
        assert(l[0] == escaped_char(a[0])[0]);
    } else {
        let ea = escaped_char(a[0]);
        let eb = escaped_char(b[0]);
        let ra = escaped(a.skip(1)) + seq!['"'] + x;
        let rb = escaped(b.skip(1)) + seq!['"'] + y;
        assert(l =~= ea + ra);
        assert(r =~= eb + rb);
        assert(l[0] == ea[0] && r[0] == eb[0]);
        if ea.len() > 1 && eb.len() > 1 {
            assert(l[1] == ea[1] && r[1] == eb[1]);
        }
        assert(ea.len() == eb.len());
        assert(ea =~= l.take(ea.len() as int));
        assert(eb =~= r.take(eb.len() as int));
        lemma_escapes_differ(a[0], b[0]);
        lemma_same_prefix(ea, ra, rb);
        lemma_escaped_apart(a.skip(1), x, b.skip(1), y);
        assert(a =~= seq![a[0]] + a.skip(1));
        assert(b =~= seq![b[0]] + b.skip(1));
    }
}

/// JSON strings delimit themselves: of two texts that begin with one each and
/// are the same, the strings and what follows them are the same.
pub proof fn law_strings_delimit_themselves(
    a: Seq<char>,
    x: Seq<char>,
    b: Seq<char>,
    y: Seq<char>,
)
    requires
        quoted(a) + x == quoted(b) + y,
    ensures
        a == b,
        x == y,
{
    let q = seq!['"'];
    assert(quoted(a) + x =~= q + (escaped(a) + q + x));
    assert(quoted(b) + y =~= q + (escaped(b) + q + y));
    lemma_same_prefix(q, escaped(a) + q + x, escaped(b) + q + y);
    lemma_escaped_apart(a, x, b, y);
}

/// The same of strings or `null`.
pub proof fn lemma_optional_strings_delimit(
    a: Option<Seq<char>>,
    x: Seq<char>,
    b: Option<Seq<char>>,
    y: Seq<char>,
)
    requires
        quoted_or_null(a) + x == quoted_or_null(b) + y,
    ensures
        a == b,
        x == y,
{
    let l = quoted_or_null(a) + x;
    let r = quoted_or_null(b) + y;
    match (a, b) {
        (Some(s), Some(t)) => {
            law_strings_delimit_themselves(s, x, t, y);
        },
        (None, None) => {
            lemma_same_prefix(seq!['n', 'u', 'l', 'l'], x, y);
        },
        (Some(s), None) => {
            assert(l[0] == '"' && r[0] == 'n');
        },
        (None, Some(t)) => {
            assert(l[0] == 'n' && r[0] == '"');
        },
    }
}

/// Whether the texts that `enc` writes delimit themselves.
pub open spec fn delimits<T>(enc: spec_fn(T) -> Seq<char>) -> bool {
    forall|a: T, x: Seq<char>, b: T, y: Seq<char>| #[trigger]
        (enc(a) + x) == #[trigger] (enc(b) + y) ==> a == b && x == y
}

/// The first of several joined texts comes first.
pub proof fn lemma_joined_front(v: Seq<Seq<char>>, sep: Seq<char>)
    requires
        v.len() > 1,
    ensures
        crate::text::joined(v, sep) == v[0] + sep + crate::text::joined(v.skip(1), sep),
    decreases v.len(),
{
    let j = crate::text::joined(v.drop_last(), sep);
    if v.len() == 2 {
        assert(v.drop_last()[0] == v[0]);
        assert(v.skip(1)[0] == v[1]);
        assert(crate::text::joined(v, sep) =~= v[0] + sep + v[1]);
    } else {
        lemma_joined_front(v.drop_last(), sep);
        assert(v.drop_last().skip(1) =~= v.skip(1).drop_last());
        assert(v.skip(1).last() == v.last());
        let m = crate::text::joined(v.skip(1).drop_last(), sep);
        assert((v[0] + sep + m) + sep + v.last() =~= v[0] + sep + (m + sep + v.last()));
    }
}

/// A list of self-delimiting texts, with commas between them and the
/// character `end` behind them, delimits itself.
pub proof fn lemma_lists_delimit<T>(
    enc: spec_fn(T) -> Seq<char>,
    end: char,
    a: Seq<T>,
    x: Seq<char>,
    b: Seq<T>,
    y: Seq<char>,
)
    requires
        delimits(enc),
        end != ',',
        forall|t: T| (#[trigger] enc(t)).len() > 0 && enc(t)[0] != end,
        crate::text::joined(a.map_values(enc), seq![',']) + seq![end] + x == crate::text::joined(
            b.map_values(enc),
            seq![','],
        ) + seq![end] + y,
    ensures
        a == b,
        x == y,
    decreases a.len(),
{
    let sep = seq![','];
    let ma = a.map_values(enc);
    let mb = b.map_values(enc);
    let l = crate::text::joined(ma, sep) + seq![end] + x;
    let r = crate::text::joined(mb, sep) + seq![end] + y;
    if a.len() == 0 || b.len() == 0 {
        if a.len() == 0 && b.len() == 0 {
            assert(a =~= b);
            assert(x =~= l.skip(1));
            assert(y =~= r.skip(1));
        } else if a.len() == 0 {
            assert(l[0] == end);
            lemma_list_begins(enc, sep, b);
            assert(r[0] == enc(b[0])[0]);
        } else {
            assert(r[0] == end);
            lemma_list_begins(enc, sep, a);
            assert(l[0] == enc(a[0])[0]);
        }
    } else {
        let ta = tail_of(ma, sep, end, x);
        let tb = tail_of(mb, sep, end, y);
        lemma_tail(ma, sep, end, x);
        lemma_tail(mb, sep, end, y);
        assert(ma[0] == enc(a[0]) && mb[0] == enc(b[0]));
        assert(enc(a[0]) + ta == enc(b[0]) + tb);
        assert(a[0] == b[0] && ta == tb);
        if a.len() == 1 && b.len() == 1 {
            assert(a =~= b);
            assert(x =~= ta.skip(1));
            assert(y =~= tb.skip(1));
        } else if a.len() == 1 {
            assert(ta[0] == end && tb[0] == ',');
        } else if b.len() == 1 {
            assert(tb[0] == end && ta[0] == ',');
        } else {
            let ra = a.skip(1);
            let rb = b.skip(1);
            assert(ma.skip(1) =~= ra.map_values(enc));
            assert(mb.skip(1) =~= rb.map_values(enc));
            let la = crate::text::joined(ra.map_values(enc), sep) + seq![end] + x;
            let lb = crate::text::joined(rb.map_values(enc), sep) + seq![end] + y;
            assert(ta == sep + la);
            assert(tb == sep + lb);
            lemma_same_prefix(sep, la, lb);
            lemma_lists_delimit(enc, end, ra, x, rb, y);
            assert(a =~= seq![a[0]] + ra);
            assert(b =~= seq![b[0]] + rb);
        }
    }
}

/// What follows the first item of a list.
spec fn tail_of(v: Seq<Seq<char>>, sep: Seq<char>, end: char, x: Seq<char>) -> Seq<char> {
    if v.len() == 1 {
        seq![end] + x
    } else {
        sep + (crate::text::joined(v.skip(1), sep) + seq![end] + x)
    }
}

proof fn lemma_tail(v: Seq<Seq<char>>, sep: Seq<char>, end: char, x: Seq<char>)
    requires
        v.len() > 0,
    ensures
        crate::text::joined(v, sep) + seq![end] + x == v[0] + tail_of(v, sep, end, x),
{
    if v.len() == 1 {
        assert(v[0] + seq![end] + x =~= v[0] + (seq![end] + x));
    } else {
        lemma_joined_front(v, sep);
        let j = crate::text::joined(v.skip(1), sep);
        assert(v[0] + sep + j + seq![end] + x =~= v[0] + (sep + (j + seq![end] + x)));
    }
}

proof fn lemma_list_begins<T>(enc: spec_fn(T) -> Seq<char>, sep: Seq<char>, a: Seq<T>)
    requires
        a.len() > 0,
        forall|t: T| (#[trigger] enc(t)).len() > 0,
    ensures
        crate::text::joined(a.map_values(enc), sep).len() > 0,
        crate::text::joined(a.map_values(enc), sep)[0] == enc(a[0])[0],
{
    let m = a.map_values(enc);
    assert(m[0] == enc(a[0]));
    if a.len() > 1 {
        lemma_joined_front(m, sep);
    }
}

/// Texts can be glued together from either end.
pub proof fn lemma_assoc(a: Seq<char>, b: Seq<char>, c: Seq<char>)
    ensures
        (a + b) + c == a + (b + c),
{
    assert((a + b) + c =~= a + (b + c));
}

/// Seven texts and what follows them, glued together from the end.
pub proof fn lemma_glue(
    a: Seq<char>,
    b: Seq<char>,
    c: Seq<char>,
    d: Seq<char>,
    e: Seq<char>,
    f: Seq<char>,
    g: Seq<char>,
    x: Seq<char>,
)
    ensures
        a + b + c + d + e + f + g + x == a + (b + (c + (d + (e + (f + (g + x)))))),
{
    lemma_assoc(a + b + c + d + e + f, g, x);
    lemma_assoc(a + b + c + d + e, f, g + x);
    lemma_assoc(a + b + c + d, e, f + (g + x));
    lemma_assoc(a + b + c, d, e + (f + (g + x)));
    lemma_assoc(a + b, c, d + (e + (f + (g + x))));
    lemma_assoc(a, b, c + (d + (e + (f + (g + x)))));
}

} // verus!
