//! Verification of Snap Store assertions.
//!
//! A store answer is not trusted by itself: the digest it gives must be backed
//! by a signed `snap-revision` assertion whose signature chain roots in the
//! trust anchor, an `account-key` assertion that is trusted by construction.
//!
//! ```text
//! snap-revision assertion   (binds snap-sha3-384 to snap-id, revision, size)
//!   <- signed by the store account key (sign-key-sha3-384 header)
//! account-key assertion     (binds the OpenPGP public key body to the key id)
//!   <- signed by the trust anchor
//! ```
//!
//! Verification fails closed: any parse failure, signature failure, key-id
//! mismatch, validity-window violation or field mismatch is an
//! [`AssertError::Untrusted`]. Only a transport failure is
//! [`AssertError::Network`].
//!
//! An assertion is `HEADERS "\n\n" BODY "\n\n" SIGNATURE`, the body being
//! optional base64. The signed content is the exact text up to the last
//! `"\n\n"`. Bodies and signatures are base64 of `0x01` and OpenPGP packets.

use crate::calendar::{day_number, days_from_civil};
use crate::command::{exit_code, reported_code, CommandRunner, RunnerOutput};
use crate::digest::{
    decode_standard, decode_unpadded, decode_url, encode_url, sha3_384, sha3_384_digest,
    standard_decoded, unpadded_decoded, url_decoded, url_text,
};
use crate::openpgp::{
    check_header, check_public_key, check_signature, hash_content, header_fault, public_key_fault,
    read_signature, signature_fault, signature_parts, signed_hash, HashFault, HashFaultView,
    SignatureParts,
};
use crate::text::{
    before_first, before_suffix, chars_of, cut, decimal, drop_trailing, first_part, hex_digit,
    join, joined, lines, opt_int, opt_str, opt_text, parse_unsigned, parts, rcut, rsplit_once,
    signed_decimal, split_char, split_lines, split_once, split_whitespace, str_eq, strip_suffix,
    texts, to_decimal, to_signed_decimal, trim, trim_end_char, trimmed, unsigned_value, words,
};
use vstd::prelude::*;
use vstd::string::to_string_from_display_ensures;
use vstd::utf8::{encode_utf8, valid_utf8};

verus! {

/// Why assertion verification did not pass.
#[derive(Debug)]
pub enum AssertError {
    /// The store could not be reached: no evidence either way.
    Network { url: String, detail: String },
    /// An assertion was obtained but is malformed, badly signed, or
    /// contradicts the expected pin. Never to be downgraded.
    Untrusted { name: String, detail: String },
}

/// What an error says.
pub open spec fn error_text(e: AssertError) -> Seq<char> {
    match e {
        AssertError::Network { url, detail } => "assertion store unreachable ("@ + url@ + "): "@
            + detail@,
        AssertError::Untrusted { name, detail } => "untrusted store assertion for '"@ + name@
            + "': "@ + detail@,
    }
}

impl AssertError {
    /// What the error says.
    pub fn message(&self) -> (r: String)
        ensures
            r@ == error_text(*self),
    {
        match self {
            AssertError::Network { url, detail } => {
                let mut out = "assertion store unreachable (".to_owned();
                out.append(url.as_str());
                out.append("): ");
                out.append(detail.as_str());
                out
            },
            AssertError::Untrusted { name, detail } => {
                let mut out = "untrusted store assertion for '".to_owned();
                out.append(name.as_str());
                out.append("': ");
                out.append(detail.as_str());
                out
            },
        }
    }
}

/// Whether `e` refuses the snap `name` for the reason `detail`.
pub open spec fn refuses(e: AssertError, name: Seq<char>, detail: Seq<char>) -> bool {
    e matches AssertError::Untrusted { name: n, detail: d } && n@ == name && d@ == detail
}

/// Whether `e` reports `url` as unreachable for the reason `detail`.
pub open spec fn unreachable_at(e: AssertError, url: Seq<char>, detail: Seq<char>) -> bool {
    e matches AssertError::Network { url: u, detail: d } && u@ == url && d@ == detail
}

fn network(url: &str, detail: String) -> (r: AssertError)
    ensures
        unreachable_at(r, url@, detail@),
{
    AssertError::Network { url: url.to_owned(), detail }
}

fn untrusted(name: &str, detail: String) -> (r: AssertError)
    ensures
        refuses(r, name@, detail@),
{
    AssertError::Untrusted { name: name.to_owned(), detail }
}

/// `a` followed by `b`.
fn say(a: &str, b: &str) -> (r: String)
    ensures
        r@ == a@ + b@,
{
    let mut out = a.to_owned();
    out.append(b);
    out
}

/// `a`, `b` and `c` in turn.
fn say3(a: &str, b: &str, c: &str) -> (r: String)
    ensures
        r@ == a@ + b@ + c@,
{
    let mut out = say(a, b);
    out.append(c);
    out
}

// ── Packets ──

/// One OpenPGP packet in a stream: its tag and where it stands.
#[derive(Debug, PartialEq, Eq, Structural, Clone, Copy)]
pub struct Packet {
    pub tag: u8,
    pub start: usize,
    pub end: usize,
}

/// The packet with tag `tag` at `data[start..end]`.
pub open spec fn packet(tag: int, start: int, end: int) -> Packet {
    Packet { tag: tag as u8, start: start as usize, end: end as usize }
}

/// Where the body of a packet at `i` begins and how long it is, from its
/// new-format length bytes, or why they cannot be read.
pub open spec fn body_extent(data: Seq<u8>, i: int) -> Result<(int, int), Seq<char>> {
    if data[i] < 0xc0 {
        Err("unsupported OpenPGP packet header at byte "@ + decimal(i as nat))
    } else if i + 1 >= data.len() {
        Err("truncated OpenPGP packet header"@)
    } else if data[i + 1] < 192 {
        Ok((i + 2, data[i + 1] as int))
    } else if data[i + 1] < 224 {
        if i + 2 >= data.len() {
            Err("truncated OpenPGP packet length"@)
        } else {
            Ok((i + 3, (data[i + 1] - 192) * 256 + data[i + 2] + 192))
        }
    } else if data[i + 1] == 255 {
        if data.len() < i + 6 {
            Err("truncated OpenPGP packet length"@)
        } else {
            Ok(
                (
                    i + 6,
                    data[i + 2] * 0x100_0000 + data[i + 3] * 0x1_0000 + data[i + 4] * 0x100
                        + data[i + 5],
                ),
            )
        }
    } else {
        Err("unsupported OpenPGP partial packet length"@)
    }
}

/// The packet at `i`, or why there is none.
pub open spec fn packet_at(data: Seq<u8>, i: int) -> Result<Packet, Seq<char>> {
    match body_extent(data, i) {
        Err(d) => Err(d),
        Ok(b) => if b.0 + b.1 > data.len() {
            Err("truncated OpenPGP packet body"@)
        } else {
            Ok(packet(data[i] - 0xc0, i, b.0 + b.1))
        },
    }
}

/// The packets of the stream from `i` on, or why it is none.
pub open spec fn packets_from(data: Seq<u8>, i: int) -> Result<Seq<Packet>, Seq<char>>
    decreases data.len() - i,
{
    if i < 0 || i >= data.len() || data.len() > usize::MAX {
        Ok(Seq::empty())
    } else {
        match packet_at(data, i) {
            Err(d) => Err(d),
            Ok(p) => match packets_from(data, p.end as int) {
                Err(d) => Err(d),
                Ok(rest) => Ok(seq![p] + rest),
            },
        }
    }
}

/// The packets of a stream called `what`, or why it is none.
pub open spec fn stream_packets(what: Seq<char>, data: Seq<u8>) -> Result<Seq<Packet>, Seq<char>> {
    match packets_from(data, 0) {
        Err(d) => Err(what + ": "@ + d),
        Ok(ps) => Ok(ps),
    }
}

/// Packets that were read before, in front of the rest of a stream.
spec fn after_packets(before: Seq<Packet>, rest: Result<Seq<Packet>, Seq<char>>) -> Result<
    Seq<Packet>,
    Seq<char>,
> {
    match rest {
        Err(d) => Err(d),
        Ok(ps) => Ok(before + ps),
    }
}

/// The packets of a stream stand one behind the other and fill it.
pub proof fn law_packets_fill_the_stream(data: Seq<u8>, i: int)
    requires
        0 <= i <= data.len() <= usize::MAX,
        packets_from(data, i) is Ok,
    ensures
        ({
            let ps = packets_from(data, i)->Ok_0;
            &&& forall|k: int|
                0 <= k < ps.len() ==> (#[trigger] ps[k]).start < ps[k].end <= data.len()
                    && ps[k].tag < 64
            &&& forall|k: int|
                0 <= k < ps.len() - 1 ==> (#[trigger] ps[k]).end == ps[k + 1].start
            &&& ps.len() == 0 ==> i == data.len()
            &&& ps.len() > 0 ==> ps[0].start == i && ps.last().end == data.len()
        }),
    decreases data.len() - i,
{
    if i < data.len() {
        let p = packet_at(data, i)->Ok_0;
        law_packets_fill_the_stream(data, p.end as int);
        let rest = packets_from(data, p.end as int)->Ok_0;
        let ps = packets_from(data, i)->Ok_0;
        assert(ps =~= seq![p] + rest);
        assert forall|k: int| 0 <= k < ps.len() implies (#[trigger] ps[k]).start < ps[k].end
            <= data.len() && ps[k].tag < 64 by {
            if k > 0 {
                assert(ps[k] == rest[k - 1]);
            }
        }
        assert forall|k: int| 0 <= k < ps.len() - 1 implies (#[trigger] ps[k]).end == ps[k
            + 1].start by {
            if k > 0 {
                assert(ps[k] == rest[k - 1]);
                assert(ps[k + 1] == rest[k]);
            } else {
                assert(ps[1] == rest[0]);
            }
        }
        if rest.len() > 0 {
            assert(ps.last() == rest.last());
        }
    }
}

/// The extent of the packet body at `i`.
fn read_extent(data: &[u8], i: usize) -> (r: Result<(usize, usize), String>)
    requires
        i < data.len(),
    ensures
        match r {
            Ok(b) => body_extent(data@, i as int) == Ok::<(int, int), Seq<char>>(
                (b.0 as int, b.1 as int),
            ) && i < b.0 <= data.len(),
            Err(e) => body_extent(data@, i as int) == Err::<(int, int), Seq<char>>(e@),
        },
{
    let first: u8 = data[i];
    assert(first & 0x80 == 0 || first & 0x40 == 0 <==> first < 0xc0) by (bit_vector);
    if first & 0x80 == 0 || first & 0x40 == 0 {
        return Err(
            say(
                "unsupported OpenPGP packet header at byte ",
                to_decimal(i as u64).as_str(),
            ),
        );
    }
    if data.len() - i < 2 {
        return Err("truncated OpenPGP packet header".to_owned());
    }
    let lb: u8 = data[i + 1];
    if lb < 192 {
        Ok((i + 2, lb as usize))
    } else if lb < 224 {
        if data.len() - i < 3 {
            return Err("truncated OpenPGP packet length".to_owned());
        }
        Ok((i + 3, (lb as usize - 192) * 256 + data[i + 2] as usize + 192))
    } else if lb == 255 {
        if data.len() - i < 6 {
            return Err("truncated OpenPGP packet length".to_owned());
        }
        let n: u32 = data[i + 2] as u32 * 0x100_0000 + data[i + 3] as u32 * 0x1_0000 + data[i
            + 4] as u32 * 0x100 + data[i + 5] as u32;
        Ok((i + 6, n as usize))
    } else {
        Err("unsupported OpenPGP partial packet length".to_owned())
    }
}

/// Splits a packet stream into its packets. Only new-format packets with a
/// definite length are accepted.
pub fn split_packets(name: &str, data: &[u8], what: &str) -> (r: Result<Vec<Packet>, AssertError>)
    ensures
        match r {
            Ok(ps) => stream_packets(what@, data@) == Ok::<Seq<Packet>, Seq<char>>(ps@),
            Err(e) => stream_packets(what@, data@) is Err && refuses(
                e,
                name@,
                stream_packets(what@, data@)->Err_0,
            ),
        },
{
    let mut out: Vec<Packet> = Vec::new();
    let mut i: usize = 0;
    proof {
        if packets_from(data@, 0) is Ok {
            assert(out@ + packets_from(data@, 0)->Ok_0 =~= packets_from(data@, 0)->Ok_0);
        }
    }
    while i < data.len()
        invariant
            i <= data.len(),
            packets_from(data@, 0) == after_packets(out@, packets_from(data@, i as int)),
        decreases data.len() - i,
    {
        let first: u8 = data[i];
        match read_extent(data, i) {
            Err(d) => {
                return Err(untrusted(name, say3(what, ": ", d.as_str())));
            },
            Ok((body, len)) => {
                if data.len() - body < len {
                    return Err(
                        untrusted(name, say3(what, ": ", "truncated OpenPGP packet body")),
                    );
                }
                assert(first >= 0xc0 ==> first & 0x3f == first - 0xc0) by (bit_vector);
                let p = Packet { tag: first & 0x3f, start: i, end: body + len };
                assert(packet_at(data@, i as int) == Ok::<Packet, Seq<char>>(p));
                let ghost before = out@;
                out.push(p);
                proof {
                    let rest = packets_from(data@, p.end as int);
                    if rest is Ok {
                        assert(before + (seq![p] + rest->Ok_0) =~= out@ + rest->Ok_0);
                    }
                }
                i = body + len;
            },
        }
    }
    assert(out@ + Seq::<Packet>::empty() =~= out@);
    Ok(out)
}

// ── Encodings ──

/// The value of a hexadecimal digit of either case.
pub open spec fn hex_value(c: char) -> Option<int> {
    if '0' <= c && c <= '9' {
        Some(c as int - 48)
    } else if 'a' <= c && c <= 'f' {
        Some(c as int - 87)
    } else if 'A' <= c && c <= 'F' {
        Some(c as int - 55)
    } else {
        None
    }
}

/// Whether text is pairs of hexadecimal digits.
pub open spec fn is_hex(s: Seq<char>) -> bool {
    s.len() % 2 == 0 && forall|i: int| 0 <= i < s.len() ==> hex_value(#[trigger] s[i]) is Some
}

/// The bytes that pairs of hexadecimal digits spell.
pub open spec fn hex_bytes(s: Seq<char>) -> Seq<u8> {
    Seq::new(
        s.len() / 2,
        |i: int| (hex_value(s[2 * i])->Some_0 * 16 + hex_value(s[2 * i + 1])->Some_0) as u8,
    )
}

fn hex_value_of(c: char) -> (r: Option<u8>)
    ensures
        match r {
            Some(v) => hex_value(c) == Some(v as int) && v < 16,
            None => hex_value(c) is None,
        },
{
    if '0' <= c && c <= '9' {
        Some((c as u32 - 48) as u8)
    } else if 'a' <= c && c <= 'f' {
        Some((c as u32 - 87) as u8)
    } else if 'A' <= c && c <= 'F' {
        Some((c as u32 - 55) as u8)
    } else {
        None
    }
}

/// Decodes hexadecimal text called `what`.
pub fn hex_decode(name: &str, what: &str, s: &str) -> (r: Result<Vec<u8>, AssertError>)
    ensures
        match r {
            Ok(b) => is_hex(s@) && b@ == hex_bytes(s@),
            Err(e) => !is_hex(s@) && refuses(e, name@, what@ + ": invalid hex '"@ + s@ + "'"@),
        },
{
    let a = chars_of(s);
    let mut out: Vec<u8> = Vec::new();
    let mut i: usize = 0;
    let mut fine: bool = a.len() % 2 == 0;
    while fine && i < a.len()
        invariant
            a@ == s@,
            a.len() % 2 == 0 || !fine,
            fine ==> i % 2 == 0 && i <= a.len() && out@.len() == i / 2,
            fine ==> forall|k: int| 0 <= k < i ==> hex_value(#[trigger] s@[k]) is Some,
            fine ==> forall|k: int| 0 <= k < i / 2 ==> #[trigger] out@[k] == hex_bytes(s@)[k],
            !fine ==> !is_hex(s@),
        decreases a.len() - i, fine as int,
    {
        match (hex_value_of(a[i]), hex_value_of(a[i + 1])) {
            (Some(h), Some(l)) => {
                assert(hex_bytes(s@)[i as int / 2] == (h * 16 + l) as u8) by {
                    assert(2 * (i as int / 2) == i);
                }
                let ghost before = out@;
                out.push(h * 16 + l);
                assert forall|k: int| 0 <= k < (i + 2) as int / 2 implies #[trigger] out@[k]
                    == hex_bytes(s@)[k] by {
                    if k < i as int / 2 {
                        assert(out@[k] == before[k]);
                    }
                }
                i += 2;
            },
            _ => {
                assert(hex_value(s@[i as int]) is None || hex_value(s@[i + 1]) is None);
                fine = false;
            },
        }
    }
    if fine {
        assert(out@ =~= hex_bytes(s@));
        Ok(out)
    } else {
        let mut detail = say3(what, ": invalid hex '", s);
        detail.append("'");
        Err(untrusted(name, detail))
    }
}

/// Hexadecimal text of bytes decodes to the bytes.
pub proof fn law_hex_is_read_back(b: Seq<u8>)
    ensures
        is_hex(crate::text::hex_text(b)),
        hex_bytes(crate::text::hex_text(b)) == b,
    decreases b.len(),
{
    crate::text::lemma_hex_text_len(b);
    if b.len() > 0 {
        let f = b.drop_last();
        law_hex_is_read_back(f);
        crate::text::lemma_hex_text_len(f);
        let t = crate::text::hex_text(f);
        let s = crate::text::hex_text(b);
        let last = b.last() as int;
        assert(s =~= t.push(hex_digit(last / 16)).push(hex_digit(last % 16)));
        lemma_hex_digit(last / 16);
        lemma_hex_digit(last % 16);
        assert forall|i: int| 0 <= i < s.len() implies hex_value(#[trigger] s[i]) is Some by {
            if i < t.len() {
                assert(s[i] == t[i]);
            }
        }
        assert(hex_bytes(s) =~= b) by {
            assert forall|i: int| 0 <= i < b.len() implies hex_bytes(s)[i] == b[i] by {
                if i < f.len() {
                    assert(s[2 * i] == t[2 * i]);
                    assert(s[2 * i + 1] == t[2 * i + 1]);
                    assert(hex_bytes(t)[i] == f[i]);
                }
            }
        }
    } else {
        assert(hex_bytes(crate::text::hex_text(b)) =~= b);
    }
}

proof fn lemma_hex_digit(d: int)
    requires
        0 <= d < 16,
    ensures
        hex_value(hex_digit(d)) == Some(d),
{
}

/// What the text of a digest or key id called `what` decodes to: the URL-safe
/// alphabet, or else the standard one, without padding.
pub open spec fn id_bytes(what: Seq<char>, s: Seq<char>) -> Result<Seq<u8>, Seq<char>> {
    match url_decoded(encode_utf8(s)) {
        Ok(b) => Ok(b),
        Err(_) => match unpadded_decoded(encode_utf8(s)) {
            Ok(b) => Ok(b),
            Err(e) => Err(what + ": invalid base64 '"@ + s + "': "@ + e),
        },
    }
}

/// Decodes the text of a digest or key id.
pub fn b64url_decode(name: &str, what: &str, s: &str) -> (r: Result<Vec<u8>, AssertError>)
    ensures
        match r {
            Ok(b) => id_bytes(what@, s@) == Ok::<Seq<u8>, Seq<char>>(b@),
            Err(e) => id_bytes(what@, s@) is Err && refuses(e, name@, id_bytes(what@, s@)->Err_0),
        },
{
    match decode_url(s.as_bytes()) {
        Ok(b) => Ok(b),
        Err(_) => match decode_unpadded(s.as_bytes()) {
            Ok(b) => Ok(b),
            Err(e) => {
                let mut detail = say3(what, ": invalid base64 '", s);
                detail.append("': ");
                detail.append(e.as_str());
                Err(untrusted(name, detail))
            },
        },
    }
}

/// A byte as `0x` and two hexadecimal digits.
pub open spec fn byte_text(b: int) -> Seq<char> {
    "0x"@.push(hex_digit(b / 16)).push(hex_digit(b % 16))
}

/// The packet stream in the envelope bytes `raw`: what follows the version
/// byte `0x01`, or why there is none.
pub open spec fn envelope_stream(what: Seq<char>, raw: Seq<u8>) -> Result<Seq<u8>, Seq<char>> {
    if raw.len() == 0 {
        Err(what + ": empty envelope"@)
    } else if raw[0] == 1 && raw.len() > 1 {
        Ok(raw.skip(1))
    } else {
        Err(what + ": unsupported envelope version "@ + byte_text(raw[0] as int))
    }
}

/// The packet stream in an envelope's base64 text, which white space may
/// wrap.
pub open spec fn envelope(what: Seq<char>, text: Seq<char>) -> Result<Seq<u8>, Seq<char>> {
    match standard_decoded(encode_utf8(joined(words(text), Seq::empty()))) {
        Err(e) => Err(what + ": invalid base64: "@ + e),
        Ok(raw) => envelope_stream(what, raw),
    }
}

/// Opens the envelope bytes `raw`.
pub fn open_envelope(name: &str, what: &str, raw: Vec<u8>) -> (r: Result<Vec<u8>, AssertError>)
    ensures
        match r {
            Ok(b) => envelope_stream(what@, raw@) == Ok::<Seq<u8>, Seq<char>>(b@),
            Err(e) => envelope_stream(what@, raw@) is Err && refuses(
                e,
                name@,
                envelope_stream(what@, raw@)->Err_0,
            ),
        },
{
    if raw.len() == 0 {
        return Err(untrusted(name, say(what, ": empty envelope")));
    }
    if raw[0] == 1 && raw.len() > 1 {
        let mut out: Vec<u8> = Vec::new();
        let mut i: usize = 1;
        while i < raw.len()
            invariant
                1 <= i <= raw.len(),
                out@ == raw@.subrange(1, i as int),
            decreases raw.len() - i,
        {
            out.push(raw[i]);
            i += 1;
        }
        assert(raw@.skip(1) =~= raw@.subrange(1, raw@.len() as int));
        return Ok(out);
    }
    let mut version = "0x".to_owned();
    let one: [u8; 1] = [raw[0]];
    let digits = crate::text::hex(&one);
    proof {
        reveal_with_fuel(crate::text::hex_text, 2);
        assert(one@.drop_last() =~= Seq::<u8>::empty());
        assert(one@.last() == raw@[0]);
    }
    version.append(digits.as_str());
    assert(version@ =~= byte_text(raw@[0] as int));
    Err(untrusted(name, say3(what, ": unsupported envelope version ", version.as_str())))
}

/// Decodes an envelope and opens it.
pub fn envelope_decode(name: &str, what: &str, b64_text: &str) -> (r: Result<Vec<u8>, AssertError>)
    ensures
        match r {
            Ok(b) => envelope(what@, b64_text@) == Ok::<Seq<u8>, Seq<char>>(b@),
            Err(e) => envelope(what@, b64_text@) is Err && refuses(
                e,
                name@,
                envelope(what@, b64_text@)->Err_0,
            ),
        },
{
    proof {
        reveal_strlit("");
        assert(""@ =~= Seq::<char>::empty());
    }
    let packed = join(&split_whitespace(b64_text), "");
    match decode_standard(packed.as_str().as_bytes()) {
        Err(e) => Err(untrusted(name, say3(what, ": invalid base64: ", e.as_str()))),
        Ok(raw) => open_envelope(name, what, raw),
    }
}

// ── Time ──

/// The instant that `YYYY-MM-DDTHH:MM:SS[.frac]Z` names, in epoch seconds.
pub open spec fn instant(s: Seq<char>) -> Option<int> {
    match before_suffix(s, "Z"@) {
        None => None,
        Some(core) => match cut(core, "T"@) {
            None => None,
            Some(sides) => {
                let d = parts(sides.0, '-');
                let t = parts(sides.1, ':');
                if d.len() < 3 || t.len() < 3 {
                    None
                } else {
                    match (
                        unsigned_value(d[0], i64::MAX as int),
                        unsigned_value(d[1], u32::MAX as int),
                        unsigned_value(d[2], u32::MAX as int),
                        unsigned_value(t[0], u64::MAX as int),
                        unsigned_value(t[1], u64::MAX as int),
                        unsigned_value(first_part(t[2], "."@), u64::MAX as int),
                    ) {
                        (Some(y), Some(mo), Some(da), Some(h), Some(mi), Some(se)) => {
                            if 1 <= mo <= 12 && 1 <= da <= 31 {
                                Some(
                                    day_number(y, mo, da) * 86_400 + h * 3_600 + mi * 60 + se,
                                )
                            } else {
                                None
                            }
                        },
                        _ => None,
                    }
                }
            },
        },
    }
}

/// The contents of an optional instant.
pub open spec fn opt_instant(o: Option<i128>) -> Option<int> {
    match o {
        Some(n) => Some(n as int),
        None => None,
    }
}

/// Reads an instant in the form the store writes, in epoch seconds.
pub fn parse_epoch(s: &str) -> (r: Option<i128>)
    ensures
        opt_instant(r) == instant(s@),
{
    let core = match strip_suffix(s, "Z") {
        None => {
            return None;
        },
        Some(c) => c,
    };
    let (date, time) = match split_once(core.as_str(), "T") {
        None => {
            return None;
        },
        Some(p) => p,
    };
    let d = split_char(date.as_str(), '-');
    let t = split_char(time.as_str(), ':');
    assert(texts(d@).len() == d@.len());
    assert(texts(t@).len() == t@.len());
    if d.len() < 3 || t.len() < 3 {
        return None;
    }
    assert(texts(d@)[0] == d@[0]@ && texts(d@)[1] == d@[1]@ && texts(d@)[2] == d@[2]@);
    assert(texts(t@)[0] == t@[0]@ && texts(t@)[1] == t@[1]@ && texts(t@)[2] == t@[2]@);
    let second = before_first(t[2].as_str(), ".");
    match (
        parse_unsigned(d[0].as_str(), i64::MAX as u64),
        parse_unsigned(d[1].as_str(), u32::MAX as u64),
        parse_unsigned(d[2].as_str(), u32::MAX as u64),
        parse_unsigned(t[0].as_str(), u64::MAX),
        parse_unsigned(t[1].as_str(), u64::MAX),
        parse_unsigned(second.as_str(), u64::MAX),
    ) {
        (Some(y), Some(mo), Some(da), Some(h), Some(mi), Some(se)) => {
            if mo < 1 || mo > 12 || da < 1 || da > 31 {
                return None;
            }
            let days: i128 = days_from_civil(y, mo as u32, da as u32);
            assert(-1_000_000 <= days <= 400 * 0x1_0000_0000_0000_0000);
            Some(days * 86_400 + h as i128 * 3_600 + mi as i128 * 60 + se as i128)
        },
        _ => None,
    }
}

// ── Assertions ──

/// One parsed assertion.
#[derive(Debug)]
pub struct Assertion {
    pub assertion_type: String,
    pub authority_id: String,
    pub sign_key_id: String,
    /// The header lines in order; of two with one key the later counts.
    pub headers: Vec<(String, String)>,
    /// The signed content: the bytes up to the last blank line.
    pub content: Vec<u8>,
    /// The packet stream of the body; empty where there is none.
    pub body: Vec<u8>,
    /// The packet stream of the signature.
    pub signature_packets: Vec<u8>,
}

/// The model of an [`Assertion`].
#[verifier::ext_equal]
pub struct AssertionView {
    pub assertion_type: Seq<char>,
    pub authority_id: Seq<char>,
    pub sign_key_id: Seq<char>,
    pub headers: Seq<(Seq<char>, Seq<char>)>,
    pub content: Seq<u8>,
    pub body: Seq<u8>,
    pub signature_packets: Seq<u8>,
}

impl View for Assertion {
    type V = AssertionView;

    open spec fn view(&self) -> AssertionView {
        AssertionView {
            assertion_type: self.assertion_type@,
            authority_id: self.authority_id@,
            sign_key_id: self.sign_key_id@,
            headers: crate::build_sched::pair_texts(self.headers@),
            content: self.content@,
            body: self.body@,
            signature_packets: self.signature_packets@,
        }
    }
}

/// The value of the last header with the given key.
pub open spec fn header_value(h: Seq<(Seq<char>, Seq<char>)>, key: Seq<char>) -> Option<Seq<char>>
    decreases h.len(),
{
    if h.len() == 0 {
        None
    } else if h.last().0 == key {
        Some(h.last().1)
    } else {
        header_value(h.drop_last(), key)
    }
}

/// The value of a required header, or the refusal.
pub open spec fn required_value(h: Seq<(Seq<char>, Seq<char>)>, key: Seq<char>) -> Result<
    Seq<char>,
    Seq<char>,
> {
    match header_value(h, key) {
        Some(v) => Ok(v),
        None => Err("assertion is missing required header '"@ + key + "'"@),
    }
}

/// The value of the last header with the given key.
fn find_header<'a>(h: &'a Vec<(String, String)>, key: &str) -> (r: Option<&'a str>)
    ensures
        opt_str(r) == header_value(crate::build_sched::pair_texts(h@), key@),
{
    let ghost all = crate::build_sched::pair_texts(h@);
    let mut n: usize = h.len();
    assert(all.take(n as int) =~= all);
    while n > 0
        invariant
            n <= h.len(),
            all == crate::build_sched::pair_texts(h@),
            header_value(all, key@) == header_value(all.take(n as int), key@),
        decreases n,
    {
        assert(all.take(n as int).drop_last() =~= all.take(n - 1));
        assert(all.take(n as int).last() == (h@[n - 1].0@, h@[n - 1].1@));
        if str_eq(h[n - 1].0.as_str(), key) {
            return Some(h[n - 1].1.as_str());
        }
        n -= 1;
    }
    None
}

impl Assertion {
    /// The value of a header.
    pub fn header(&self, key: &str) -> (r: Option<&str>)
        ensures
            opt_str(r) == header_value(self@.headers, key@),
    {
        find_header(&self.headers, key)
    }

    /// The value of a required header.
    pub fn required(&self, name: &str, key: &str) -> (r: Result<&str, AssertError>)
        ensures
            match r {
                Ok(v) => required_value(self@.headers, key@) == Ok::<Seq<char>, Seq<char>>(v@),
                Err(e) => required_value(self@.headers, key@) is Err && refuses(
                    e,
                    name@,
                    required_value(self@.headers, key@)->Err_0,
                ),
            },
    {
        match self.header(key) {
            Some(v) => Ok(v),
            None => Err(
                untrusted(name, say3("assertion is missing required header '", key, "'")),
            ),
        }
    }
}

/// The headers that lines of the form `key: value` spell, or the refusal of
/// the first line that is none.
pub open spec fn header_lines(ls: Seq<Seq<char>>) -> Result<
    Seq<(Seq<char>, Seq<char>)>,
    Seq<char>,
>
    decreases ls.len(),
{
    if ls.len() == 0 {
        Ok(Seq::empty())
    } else {
        match header_lines(ls.drop_last()) {
            Err(d) => Err(d),
            Ok(h) => match cut(ls.last(), ": "@) {
                None => Err("malformed assertion header line '"@ + ls.last() + "'"@),
                Some(kv) => Ok(h.push(kv)),
            },
        }
    }
}

/// The refusal of the first malformed line stays when more lines follow.
proof fn lemma_header_lines_refusal(ls: Seq<Seq<char>>, n: int)
    requires
        0 <= n <= ls.len(),
        header_lines(ls.take(n)) is Err,
    ensures
        header_lines(ls) == header_lines(ls.take(n)),
    decreases ls.len() - n,
{
    if n < ls.len() {
        assert(ls.take(n + 1).drop_last() =~= ls.take(n));
        lemma_header_lines_refusal(ls, n + 1);
    } else {
        assert(ls.take(n) =~= ls);
    }
}

/// Reads the header lines.
fn parse_headers(name: &str, head: &str) -> (r: Result<Vec<(String, String)>, AssertError>)
    ensures
        match r {
            Ok(h) => header_lines(lines(head@)) == Ok::<
                Seq<(Seq<char>, Seq<char>)>,
                Seq<char>,
            >(crate::build_sched::pair_texts(h@)),
            Err(e) => header_lines(lines(head@)) is Err && refuses(
                e,
                name@,
                header_lines(lines(head@))->Err_0,
            ),
        },
{
    let ls = split_lines(head);
    let ghost all = texts(ls@);
    let mut out: Vec<(String, String)> = Vec::new();
    let mut i: usize = 0;
    assert(all.take(0) =~= Seq::<Seq<char>>::empty());
    assert(crate::build_sched::pair_texts(out@) =~= Seq::<(Seq<char>, Seq<char>)>::empty());
    while i < ls.len()
        invariant
            i <= ls.len(),
            all == texts(ls@),
            all == lines(head@),
            header_lines(all.take(i as int)) == Ok::<Seq<(Seq<char>, Seq<char>)>, Seq<char>>(
                crate::build_sched::pair_texts(out@),
            ),
        decreases ls.len() - i,
    {
        assert(all.take(i + 1).drop_last() =~= all.take(i as int));
        assert(all.take(i + 1).last() == ls@[i as int]@);
        match split_once(ls[i].as_str(), ": ") {
            None => {
                proof {
                    lemma_header_lines_refusal(all, i + 1);
                }
                return Err(
                    untrusted(
                        name,
                        say3("malformed assertion header line '", ls[i].as_str(), "'"),
                    ),
                );
            },
            Some(kv) => {
                let ghost before = out@;
                let ghost pair = (kv.0@, kv.1@);
                out.push(kv);
                assert(crate::build_sched::pair_texts(out@) =~= crate::build_sched::pair_texts(
                    before,
                ).push(pair));
            },
        }
        i += 1;
    }
    assert(all.take(i as int) =~= all);
    Ok(out)
}

/// The head and the body text of an assertion's content.
pub open spec fn head_and_body(content: Seq<char>) -> (Seq<char>, Seq<char>) {
    match cut(content, "\n\n"@) {
        Some(sides) => if sides.1.len() > 0 {
            sides
        } else {
            (content, Seq::empty())
        },
        None => (content, Seq::empty()),
    }
}

/// The assertion with the given parts, once its headers are known.
pub open spec fn assembled(
    h: Seq<(Seq<char>, Seq<char>)>,
    content: Seq<char>,
    body_text: Seq<char>,
    sig_text: Seq<char>,
) -> Result<AssertionView, Seq<char>> {
    match (
        header_value(h, "type"@),
        header_value(h, "authority-id"@),
        header_value(h, "sign-key-sha3-384"@),
    ) {
        (None, _, _) => Err("assertion is missing header 'type'"@),
        (_, None, _) => Err("assertion is missing header 'authority-id'"@),
        (_, _, None) => Err("assertion is missing header 'sign-key-sha3-384'"@),
        (Some(t), Some(a), Some(k)) => {
            let body = if body_text.len() == 0 {
                Ok(Seq::empty())
            } else {
                envelope("assertion body"@, body_text)
            };
            match (body, envelope("assertion signature"@, sig_text)) {
                (Err(d), _) => Err(d),
                (_, Err(d)) => Err(d),
                (Ok(b), Ok(sig)) => Ok(
                    AssertionView {
                        assertion_type: t,
                        authority_id: a,
                        sign_key_id: k,
                        headers: h,
                        content: encode_utf8(content),
                        body: b,
                        signature_packets: sig,
                    },
                ),
            }
        },
    }
}

/// The assertion that text in wire format spells, or why it is none.
pub open spec fn assertion_of(raw: Seq<char>) -> Result<AssertionView, Seq<char>> {
    match rcut(drop_trailing(raw, '\n'), "\n\n"@) {
        None => Err("content/signature separator not found"@),
        Some(sides) => {
            let parts = head_and_body(sides.0);
            match header_lines(lines(parts.0)) {
                Err(d) => Err(d),
                Ok(h) => assembled(h, sides.0, parts.1, sides.1),
            }
        },
    }
}

/// Parses one assertion in wire format.
pub fn parse_assertion(name: &str, raw: &str) -> (r: Result<Assertion, AssertError>)
    ensures
        match r {
            Ok(a) => assertion_of(raw@) == Ok::<AssertionView, Seq<char>>(a@),
            Err(e) => assertion_of(raw@) is Err && refuses(e, name@, assertion_of(raw@)->Err_0),
        },
{
    let trimmed_raw = trim_end_char(raw, '\n');
    let (content, sig_text) = match rsplit_once(trimmed_raw.as_str(), "\n\n") {
        None => {
            return Err(untrusted(name, "content/signature separator not found".to_owned()));
        },
        Some(p) => p,
    };
    let (head, body_text) = match split_once(content.as_str(), "\n\n") {
        Some((h, b)) => {
            if b.as_str().is_empty() {
                (content.clone(), String::new())
            } else {
                (h, b)
            }
        },
        None => (content.clone(), String::new()),
    };
    assert((head@, body_text@) == head_and_body(content@));
    let headers = match parse_headers(name, head.as_str()) {
        Err(e) => {
            return Err(e);
        },
        Ok(h) => h,
    };
    let assertion_type = match find_header(&headers, "type") {
        None => {
            return Err(untrusted(name, "assertion is missing header 'type'".to_owned()));
        },
        Some(v) => v.to_owned(),
    };
    let authority_id = match find_header(&headers, "authority-id") {
        None => {
            return Err(untrusted(name, "assertion is missing header 'authority-id'".to_owned()));
        },
        Some(v) => v.to_owned(),
    };
    let sign_key_id = match find_header(&headers, "sign-key-sha3-384") {
        None => {
            return Err(
                untrusted(name, "assertion is missing header 'sign-key-sha3-384'".to_owned()),
            );
        },
        Some(v) => v.to_owned(),
    };
    let body = if body_text.as_str().is_empty() {
        Vec::new()
    } else {
        match envelope_decode(name, "assertion body", body_text.as_str()) {
            Err(e) => {
                return Err(e);
            },
            Ok(b) => b,
        }
    };
    assert(body_text@.len() == 0 ==> body@ =~= Seq::<u8>::empty());
    let signature_packets = match envelope_decode(name, "assertion signature", sig_text.as_str()) {
        Err(e) => {
            return Err(e);
        },
        Ok(b) => b,
    };
    let wire = content.as_str().as_bytes();
    let mut bytes: Vec<u8> = Vec::new();
    bytes.extend_from_slice(wire);
    assert(bytes@ =~= encode_utf8(content@));
    let a = Assertion {
        assertion_type,
        authority_id,
        sign_key_id,
        headers,
        content: bytes,
        body,
        signature_packets,
    };
    Ok(a)
}

// ── Keys and signatures ──

/// The public-key packet in the body of an account key called `what`, or why
/// there is none.
pub open spec fn key_packet(what: Seq<char>, body: Seq<u8>) -> Result<Seq<u8>, Seq<char>> {
    match stream_packets(what, body) {
        Err(d) => Err(d),
        Ok(ps) => if ps.len() == 0 {
            Err(what + ": no OpenPGP packets in body"@)
        } else if ps[0].tag != 6 {
            Err(what + ": expected a public-key packet, got tag "@ + decimal(ps[0].tag as nat))
        } else {
            let p = body.subrange(ps[0].start as int, ps[0].end as int);
            match (header_fault(p), public_key_fault(p)) {
                (Some(e), _) => Err(what + ": invalid packet header: "@ + e),
                (None, Some(e)) => Err(what + ": invalid public key: "@ + e),
                (None, None) => Ok(p),
            }
        },
    }
}

fn copy_range(data: &Vec<u8>, from: usize, to: usize) -> (r: Vec<u8>)
    requires
        from <= to <= data.len(),
    ensures
        r@ == data@.subrange(from as int, to as int),
{
    let mut out: Vec<u8> = Vec::new();
    let mut i: usize = from;
    while i < to
        invariant
            from <= i <= to <= data.len(),
            out@ == data@.subrange(from as int, i as int),
        decreases to - i,
    {
        out.push(data[i]);
        i += 1;
    }
    out
}

/// Extracts the public-key packet from an account key's body.
pub fn public_key_from_body(name: &str, what: &str, body: &Vec<u8>) -> (r: Result<
    Vec<u8>,
    AssertError,
>)
    ensures
        match r {
            Ok(k) => key_packet(what@, body@) == Ok::<Seq<u8>, Seq<char>>(k@),
            Err(e) => key_packet(what@, body@) is Err && refuses(
                e,
                name@,
                key_packet(what@, body@)->Err_0,
            ),
        },
{
    let ps = match split_packets(name, body.as_slice(), what) {
        Err(e) => {
            return Err(e);
        },
        Ok(ps) => ps,
    };
    if ps.len() == 0 {
        return Err(untrusted(name, say(what, ": no OpenPGP packets in body")));
    }
    if ps[0].tag != 6 {
        let tag = to_decimal(ps[0].tag as u64);
        return Err(
            untrusted(name, say3(what, ": expected a public-key packet, got tag ", tag.as_str())),
        );
    }
    assert(body.len() == body@.len());
    proof {
        law_packets_fill_the_stream(body@, 0);
        assert(ps@[0].start < ps@[0].end);
    }
    let p = copy_range(body, ps[0].start, ps[0].end);
    match check_header(p.as_slice()) {
        Some(e) => {
            return Err(untrusted(name, say3(what, ": invalid packet header: ", e.as_str())));
        },
        None => {},
    }
    match check_public_key(p.as_slice()) {
        Some(e) => {
            return Err(untrusted(name, say3(what, ": invalid public key: ", e.as_str())));
        },
        None => {},
    }
    Ok(p)
}

/// The first signature packet (tag 2) of a list.
pub open spec fn first_signature(ps: Seq<Packet>) -> Option<Packet>
    decreases ps.len(),
{
    if ps.len() == 0 {
        None
    } else if ps[0].tag == 2 {
        Some(ps[0])
    } else {
        first_signature(ps.skip(1))
    }
}

/// The reason in a hashing fault, as a refusal states it.
pub open spec fn hash_fault_text(f: HashFaultView) -> Seq<char> {
    match f {
        HashFaultView::Algorithm(e) => "unsupported hash algorithm: "@ + e,
        HashFaultView::Content(e) => "cannot hash content: "@ + e,
        HashFaultView::Signature(e) => "cannot hash signature: "@ + e,
        HashFaultView::Trailer(e) => "cannot build trailer: "@ + e,
    }
}

/// Why a signature packet that was read, or could not be, cannot be checked, if
/// it cannot.
pub open spec fn parts_verdict(read: Result<SignatureParts, Seq<char>>) -> Option<Seq<char>> {
    match read {
        Err(e) => Some("invalid signature packet: "@ + e),
        Ok(sig) => if !sig.configured {
            Some("unsupported signature version"@)
        } else if sig.hash_value is None {
            Some("missing signed hash value"@)
        } else if !sig.signed {
            Some("missing signature bytes"@)
        } else {
            None
        },
    }
}

/// Why a hash of the content, or the step at which hashing failed, is not the
/// hash that a signature with the first bytes `head` covers, if it is not.
pub open spec fn hash_verdict(head: (u8, u8), hashed: Result<Seq<u8>, HashFaultView>) -> Option<
    Seq<char>,
> {
    match hashed {
        Err(f) => Some(hash_fault_text(f)),
        Ok(h) => if h[0] != head.0 || h[1] != head.1 {
            Some("signature does not cover this assertion content"@)
        } else {
            None
        },
    }
}

/// Why the signature packet `p` is no signature over `content` by `key`, if
/// it is none.
pub open spec fn packet_verdict(p: Seq<u8>, content: Seq<u8>, key: Seq<u8>) -> Option<Seq<char>> {
    match (header_fault(p), parts_verdict(signature_parts(p))) {
        (Some(e), _) => Some("invalid signature header: "@ + e),
        (None, Some(d)) => Some(d),
        (None, None) => match hash_verdict(
            signature_parts(p)->Ok_0.hash_value->Some_0,
            signed_hash(p, content),
        ) {
            Some(d) => Some(d),
            None => match signature_fault(key, p, signed_hash(p, content)->Ok_0) {
                Some(e) => Some("signature verification failed: "@ + e),
                None => None,
            },
        },
    }
}

/// Why the assertion called `what` is not signed by `key`, if it is not.
pub open spec fn signature_verdict(
    what: Seq<char>,
    a: AssertionView,
    key: Seq<u8>,
) -> Option<Seq<char>> {
    match stream_packets(what, a.signature_packets) {
        Err(d) => Some(d),
        Ok(ps) => match first_signature(ps) {
            None => Some(what + ": no signature packet"@),
            Some(s) => match packet_verdict(
                a.signature_packets.subrange(s.start as int, s.end as int),
                a.content,
                key,
            ) {
                Some(d) => Some(what + ": "@ + d),
                None => None,
            },
        },
    }
}

/// Whether `r` is the verdict `v` on the snap `name`.
pub open spec fn is_verdict(
    r: Result<(), AssertError>,
    name: Seq<char>,
    v: Option<Seq<char>>,
) -> bool {
    match (r, v) {
        (Ok(_), None) => true,
        (Err(e), Some(d)) => refuses(e, name, d),
        _ => false,
    }
}

/// Judges what a signature packet was read as.
pub fn judge_parts(read: &Result<SignatureParts, String>) -> (r: Option<String>)
    ensures
        opt_text(r) == parts_verdict(
            match *read {
                Ok(p) => Ok(p),
                Err(e) => Err(e@),
            },
        ),
{
    match read {
        Err(e) => Some(say("invalid signature packet: ", e.as_str())),
        Ok(sig) => {
            if !sig.configured {
                Some("unsupported signature version".to_owned())
            } else if sig.hash_value.is_none() {
                Some("missing signed hash value".to_owned())
            } else if !sig.signed {
                Some("missing signature bytes".to_owned())
            } else {
                None
            }
        },
    }
}

/// Judges the hash of the content by the first bytes that the signature holds.
pub fn judge_hash(head: (u8, u8), hashed: &Result<Vec<u8>, HashFault>) -> (r: Option<String>)
    requires
        hashed matches Ok(h) ==> h@.len() >= 2,
    ensures
        opt_text(r) == hash_verdict(
            head,
            match *hashed {
                Ok(h) => Ok(h@),
                Err(f) => Err(f@),
            },
        ),
{
    match hashed {
        Err(f) => Some(
            match f {
                HashFault::Algorithm(e) => say("unsupported hash algorithm: ", e.as_str()),
                HashFault::Content(e) => say("cannot hash content: ", e.as_str()),
                HashFault::Signature(e) => say("cannot hash signature: ", e.as_str()),
                HashFault::Trailer(e) => say("cannot build trailer: ", e.as_str()),
            },
        ),
        Ok(h) => {
            if h[0] != head.0 || h[1] != head.1 {
                Some("signature does not cover this assertion content".to_owned())
            } else {
                None
            }
        },
    }
}

/// Judges one signature packet.
fn verify_packet(p: &Vec<u8>, content: &Vec<u8>, key: &Vec<u8>) -> (r: Option<String>)
    requires
        header_fault(key@) is None,
        public_key_fault(key@) is None,
    ensures
        opt_text(r) == packet_verdict(p@, content@, key@),
{
    match check_header(p.as_slice()) {
        Some(e) => {
            return Some(say("invalid signature header: ", e.as_str()));
        },
        None => {},
    }
    let read = read_signature(p.as_slice());
    match judge_parts(&read) {
        Some(d) => {
            return Some(d);
        },
        None => {},
    }
    let head = match read {
        Ok(SignatureParts { configured: _, hash_value: Some(v), signed: _ }) => v,
        _ => {
            assert(false);
            (0, 0)
        },
    };
    let hashed = hash_content(p.as_slice(), content.as_slice());
    match judge_hash(head, &hashed) {
        Some(d) => Some(d),
        None => match hashed {
            Ok(h) => match check_signature(key.as_slice(), p.as_slice(), h.as_slice()) {
                Some(e) => Some(say("signature verification failed: ", e.as_str())),
                None => None,
            },
            Err(_) => {
                assert(false);
                None
            },
        },
    }
}

/// Verifies an assertion's signature over its content. The key is the one the
/// assertion's `sign-key-sha3-384` selects; the key id inside the OpenPGP
/// signature is not consulted.
pub(crate) fn verify_signature(
    name: &str,
    what: &str,
    assertion: &Assertion,
    key: &Vec<u8>,
) -> (r: Result<(), AssertError>)
    requires
        header_fault(key@) is None,
        public_key_fault(key@) is None,
    ensures
        is_verdict(r, name@, signature_verdict(what@, assertion@, key@)),
{
    let ps = match split_packets(name, assertion.signature_packets.as_slice(), what) {
        Err(e) => {
            return Err(e);
        },
        Ok(ps) => ps,
    };
    assert(assertion.signature_packets.len() == assertion@.signature_packets.len());
    proof {
        law_packets_fill_the_stream(assertion@.signature_packets, 0);
    }
    let mut i: usize = 0;
    assert(ps@.skip(0) =~= ps@);
    while i < ps.len() && ps[i].tag != 2
        invariant
            i <= ps.len(),
            first_signature(ps@) == first_signature(ps@.skip(i as int)),
        decreases ps.len() - i,
    {
        assert(ps@.skip(i as int)[0] == ps@[i as int]);
        assert(ps@.skip(i as int).skip(1) =~= ps@.skip(i + 1));
        i += 1;
    }
    if i == ps.len() {
        return Err(untrusted(name, say(what, ": no signature packet")));
    }
    assert(ps@.skip(i as int)[0] == ps@[i as int]);
    assert(ps@[i as int].start < ps@[i as int].end);
    let p = copy_range(&assertion.signature_packets, ps[i].start, ps[i].end);
    match verify_packet(&p, &assertion.content, key) {
        Some(d) => Err(untrusted(name, say3(what, ": ", d.as_str()))),
        None => Ok(()),
    }
}

/// Why the key id of an account key called `what` is not that of its body, if
/// it is not: the id is the SHA3-384 of the envelope, version byte included.
pub open spec fn binding_verdict(what: Seq<char>, a: AssertionView) -> Option<Seq<char>> {
    match required_value(a.headers, "public-key-sha3-384"@) {
        Err(d) => Some(d),
        Ok(id) => match id_bytes(what, id) {
            Err(d) => Some(d),
            Ok(b) => if b != sha3_384(seq![1u8] + a.body) {
                Some(what + ": public-key-sha3-384 does not match the key body"@)
            } else {
                None
            },
        },
    }
}

fn bytes_eq(a: &[u8], b: &[u8]) -> (r: bool)
    ensures
        r == (a@ == b@),
{
    if a.len() != b.len() {
        return false;
    }
    let mut i: usize = 0;
    while i < a.len()
        invariant
            a.len() == b.len(),
            i <= a.len(),
            forall|k: int| 0 <= k < i ==> a@[k] == b@[k],
        decreases a.len() - i,
    {
        if a[i] != b[i] {
            return false;
        }
        i += 1;
    }
    assert(a@ =~= b@);
    true
}

/// Checks that the key id binds the key body.
pub fn check_key_material_binding(name: &str, what: &str, assertion: &Assertion) -> (r: Result<
    (),
    AssertError,
>)
    ensures
        is_verdict(r, name@, binding_verdict(what@, assertion@)),
{
    let id = match assertion.required(name, "public-key-sha3-384") {
        Err(e) => {
            return Err(e);
        },
        Ok(v) => v,
    };
    let mut enveloped: Vec<u8> = Vec::new();
    enveloped.push(1u8);
    enveloped.extend_from_slice(assertion.body.as_slice());
    assert(enveloped@ =~= seq![1u8] + assertion@.body);
    let expected = match b64url_decode(name, what, id) {
        Err(e) => {
            return Err(e);
        },
        Ok(b) => b,
    };
    let actual = sha3_384_digest(enveloped.as_slice());
    judge_binding(name, what, expected.as_slice(), actual.as_slice())
}

/// Compares the key id that an account key called `what` names with the digest
/// of its body.
pub fn judge_binding(name: &str, what: &str, id: &[u8], digest: &[u8]) -> (r: Result<
    (),
    AssertError,
>)
    ensures
        is_verdict(
            r,
            name@,
            if id@ == digest@ {
                None
            } else {
                Some(what@ + ": public-key-sha3-384 does not match the key body"@)
            },
        ),
{
    if !bytes_eq(id, digest) {
        return Err(
            untrusted(name, say(what, ": public-key-sha3-384 does not match the key body")),
        );
    }
    Ok(())
}

/// The instant that an optional header value names.
pub open spec fn header_instant(a: AssertionView, key: Seq<char>) -> Option<int> {
    match header_value(a.headers, key) {
        Some(v) => instant(v),
        None => None,
    }
}

/// Whether a header is there and names no instant.
pub open spec fn unreadable_instant(a: AssertionView, key: Seq<char>) -> bool {
    header_value(a.headers, key) is Some && header_instant(a, key) is None
}

/// Why the instant at which an assertion was signed cannot be told, if the
/// assertion names one.
pub open spec fn stamp_verdict(a: AssertionView) -> Option<Seq<char>> {
    if unreadable_instant(a, "timestamp"@) {
        Some("snap revision has no valid 'timestamp'"@)
    } else {
        None
    }
}

/// Why an account key does not cover the present instant `now` and the
/// instant `signed` of an assertion it signed, if it does not.
pub open spec fn window_verdict(
    a: AssertionView,
    signed: Option<int>,
    now: int,
) -> Option<Seq<char>> {
    match header_instant(a, "since"@) {
        None => Some("account key has no valid 'since'"@),
        Some(since) => {
            let until = header_instant(a, "until"@);
            if unreadable_instant(a, "until"@) {
                Some("account key has no valid 'until'"@)
            } else if now < since {
                Some(
                    "account key not valid yet (since "@ + header_value(
                        a.headers,
                        "since"@,
                    )->Some_0 + ")"@,
                )
            } else if until is Some && now >= until->Some_0 {
                Some("account key expired"@)
            } else if signed is Some && (signed->Some_0 < since || (until is Some
                && signed->Some_0 >= until->Some_0)) {
                Some("assertion timestamp outside the signing key's validity window"@)
            } else {
                None
            }
        },
    }
}

/// Whether an instant lies in the span for which an account key is valid.
pub open spec fn signed_within(a: AssertionView, instant: int) -> bool {
    &&& header_instant(a, "since"@) is Some && header_instant(a, "since"@)->Some_0 <= instant
    &&& header_instant(a, "until"@) is Some ==> instant < header_instant(a, "until"@)->Some_0
}

fn instant_of_header(a: &Assertion, key: &str) -> (r: Option<i128>)
    ensures
        opt_instant(r) == header_instant(a@, key@),
{
    match a.header(key) {
        Some(v) => parse_epoch(v),
        None => None,
    }
}

/// Checks that the account key is alive at `now` and was alive when it signed.
pub fn check_validity_window(
    name: &str,
    account_key: &Assertion,
    assertion_timestamp: Option<i128>,
    now: u64,
) -> (r: Result<(), AssertError>)
    ensures
        is_verdict(
            r,
            name@,
            window_verdict(account_key@, opt_instant(assertion_timestamp), now as int),
        ),
{
    let since = match instant_of_header(account_key, "since") {
        None => {
            return Err(untrusted(name, "account key has no valid 'since'".to_owned()));
        },
        Some(s) => s,
    };
    let until = instant_of_header(account_key, "until");
    if until.is_none() && account_key.header("until").is_some() {
        return Err(untrusted(name, "account key has no valid 'until'".to_owned()));
    }
    if (now as i128) < since {
        let shown = match account_key.header("since") {
            Some(v) => v.to_owned(),
            None => "?".to_owned(),
        };
        return Err(
            untrusted(name, say3("account key not valid yet (since ", shown.as_str(), ")")),
        );
    }
    if let Some(u) = until {
        if (now as i128) >= u {
            return Err(untrusted(name, "account key expired".to_owned()));
        }
    }
    if let Some(ts) = assertion_timestamp {
        let late: bool = match until {
            Some(u) => ts >= u,
            None => false,
        };
        if ts < since || late {
            return Err(
                untrusted(
                    name,
                    "assertion timestamp outside the signing key's validity window".to_owned(),
                ),
            );
        }
    }
    Ok(())
}

/// What a pin expects of a snap-revision assertion.
pub struct Expected<'a> {
    pub snap_id: Option<&'a str>,
    pub revision: u32,
    pub digest: &'a [u8],
    pub size: Option<u64>,
}

/// The model of [`Expected`].
pub struct ExpectedView {
    pub snap_id: Option<Seq<char>>,
    pub revision: int,
    pub digest: Seq<u8>,
    pub size: Option<int>,
}

impl<'a> View for Expected<'a> {
    type V = ExpectedView;

    open spec fn view(&self) -> ExpectedView {
        ExpectedView {
            snap_id: opt_str(self.snap_id),
            revision: self.revision as int,
            digest: self.digest@,
            size: opt_int(self.size),
        }
    }
}

/// Why the signed digest is not the expected one, if it is not.
pub open spec fn digest_verdict(a: AssertionView, digest: Seq<u8>) -> Option<Seq<char>> {
    match required_value(a.headers, "snap-sha3-384"@) {
        Err(d) => Some(d),
        Ok(text) => match id_bytes("sha3-384"@, text) {
            Err(d) => Some(d),
            Ok(b) => if b != digest {
                Some(
                    "sha3-384 mismatch: assertion binds "@ + text + ", expected the pinned digest"@,
                )
            } else {
                None
            },
        },
    }
}

/// Why the signed snap id is not the expected one, if it is not.
pub open spec fn snap_id_verdict(a: AssertionView, expected: Option<Seq<char>>) -> Option<
    Seq<char>,
> {
    match expected {
        None => None,
        Some(want) => match required_value(a.headers, "snap-id"@) {
            Err(d) => Some(d),
            Ok(id) => if id != want {
                Some(
                    "snap id mismatch: assertion binds '"@ + id + "', expected '"@ + want + "'"@,
                )
            } else {
                None
            },
        },
    }
}

/// Why the signed revision is not the expected one, if it is not.
pub open spec fn revision_verdict(a: AssertionView, expected: int) -> Option<Seq<char>> {
    match required_value(a.headers, "snap-revision"@) {
        Err(d) => Some(d),
        Ok(text) => match unsigned_value(text, u32::MAX as int) {
            None => Some("invalid snap-revision header '"@ + text + "'"@),
            Some(n) => if n != expected {
                Some(
                    "revision mismatch: assertion binds revision "@ + decimal(n as nat)
                        + ", expected "@ + decimal(expected as nat),
                )
            } else {
                None
            },
        },
    }
}

/// Why the signed size is not the expected one, if it is not.
pub open spec fn size_verdict(a: AssertionView, expected: Option<int>) -> Option<Seq<char>> {
    match expected {
        None => None,
        Some(want) => match required_value(a.headers, "snap-size"@) {
            Err(d) => Some(d),
            Ok(text) => match unsigned_value(text, u64::MAX as int) {
                None => Some("invalid snap-size header"@),
                Some(n) => if n != want {
                    Some(
                        "snap size mismatch: assertion binds "@ + decimal(n as nat)
                            + ", expected "@ + decimal(want as nat),
                    )
                } else {
                    None
                },
            },
        },
    }
}

/// The first of two reasons.
pub open spec fn first_of(a: Option<Seq<char>>, b: Option<Seq<char>>) -> Option<Seq<char>> {
    match a {
        Some(d) => Some(d),
        None => b,
    }
}

/// Why the signed fields are not the expected ones, if they are not: digest,
/// snap id, revision and size, in this order.
pub open spec fn fields_verdict(a: AssertionView, want: ExpectedView) -> Option<Seq<char>> {
    first_of(
        digest_verdict(a, want.digest),
        first_of(
            snap_id_verdict(a, want.snap_id),
            first_of(revision_verdict(a, want.revision), size_verdict(a, want.size)),
        ),
    )
}

fn check_digest(name: &str, assertion: &Assertion, digest: &[u8]) -> (r: Result<(), AssertError>)
    ensures
        is_verdict(r, name@, digest_verdict(assertion@, digest@)),
{
    let text = match assertion.required(name, "snap-sha3-384") {
        Err(e) => {
            return Err(e);
        },
        Ok(v) => v,
    };
    let bytes = match b64url_decode(name, "sha3-384", text) {
        Err(e) => {
            return Err(e);
        },
        Ok(b) => b,
    };
    judge_digest(name, text, bytes.as_slice(), digest)
}

/// Compares the digest that an assertion binds, as text and as bytes, with the
/// expected one.
pub fn judge_digest(name: &str, text: &str, bound: &[u8], digest: &[u8]) -> (r: Result<
    (),
    AssertError,
>)
    ensures
        is_verdict(
            r,
            name@,
            if bound@ == digest@ {
                None
            } else {
                Some(
                    "sha3-384 mismatch: assertion binds "@ + text@
                        + ", expected the pinned digest"@,
                )
            },
        ),
{
    if !bytes_eq(bound, digest) {
        return Err(
            untrusted(
                name,
                say3(
                    "sha3-384 mismatch: assertion binds ",
                    text,
                    ", expected the pinned digest",
                ),
            ),
        );
    }
    Ok(())
}

/// Checks the signed snap id, where one is expected.
pub fn check_snap_id(name: &str, assertion: &Assertion, expected: Option<&str>) -> (r: Result<
    (),
    AssertError,
>)
    ensures
        is_verdict(r, name@, snap_id_verdict(assertion@, opt_str(expected))),
{
    if let Some(want) = expected {
        let id = match assertion.required(name, "snap-id") {
            Err(e) => {
                return Err(e);
            },
            Ok(v) => v,
        };
        if !str_eq(id, want) {
            let mut detail = say3("snap id mismatch: assertion binds '", id, "', expected '");
            detail.append(want);
            detail.append("'");
            return Err(untrusted(name, detail));
        }
    }
    Ok(())
}

/// Checks the signed revision.
pub fn check_revision(name: &str, assertion: &Assertion, expected: u32) -> (r: Result<(), AssertError>)
    ensures
        is_verdict(r, name@, revision_verdict(assertion@, expected as int)),
{
    let text = match assertion.required(name, "snap-revision") {
        Err(e) => {
            return Err(e);
        },
        Ok(v) => v,
    };
    let n = match parse_unsigned(text, u32::MAX as u64) {
        None => {
            return Err(untrusted(name, say3("invalid snap-revision header '", text, "'")));
        },
        Some(n) => n,
    };
    if n != expected as u64 {
        let shown = to_decimal(n);
        let mut detail = say3(
            "revision mismatch: assertion binds revision ",
            shown.as_str(),
            ", expected ",
        );
        detail.append(to_decimal(expected as u64).as_str());
        return Err(untrusted(name, detail));
    }
    Ok(())
}

/// Checks the signed size, where one is expected.
pub fn check_size(name: &str, assertion: &Assertion, expected: Option<u64>) -> (r: Result<
    (),
    AssertError,
>)
    ensures
        is_verdict(r, name@, size_verdict(assertion@, opt_int(expected))),
{
    if let Some(want) = expected {
        let text = match assertion.required(name, "snap-size") {
            Err(e) => {
                return Err(e);
            },
            Ok(v) => v,
        };
        let n = match parse_unsigned(text, u64::MAX) {
            None => {
                return Err(untrusted(name, "invalid snap-size header".to_owned()));
            },
            Some(n) => n,
        };
        if n != want {
            let shown = to_decimal(n);
            let mut detail = say3(
                "snap size mismatch: assertion binds ",
                shown.as_str(),
                ", expected ",
            );
            detail.append(to_decimal(want).as_str());
            return Err(untrusted(name, detail));
        }
    }
    Ok(())
}

/// Checks the signed fields of a snap-revision assertion against the pin.
pub fn cross_check_fields(name: &str, assertion: &Assertion, want: &Expected<'_>) -> (r: Result<
    (),
    AssertError,
>)
    ensures
        is_verdict(r, name@, fields_verdict(assertion@, want@)),
{
    match check_digest(name, assertion, want.digest) {
        Err(e) => {
            return Err(e);
        },
        Ok(_) => {},
    }
    match check_snap_id(name, assertion, want.snap_id) {
        Err(e) => {
            return Err(e);
        },
        Ok(_) => {},
    }
    match check_revision(name, assertion, want.revision) {
        Err(e) => {
            return Err(e);
        },
        Ok(_) => {},
    }
    check_size(name, assertion, want.size)
}

// ── The chain ──

/// The public-key packet of the trust anchor `root`, or why it anchors
/// nothing.
pub open spec fn anchor_key(root: AssertionView) -> Result<Seq<u8>, Seq<char>> {
    if root.assertion_type != "account-key"@ {
        Err("trust anchor is not an account-key assertion"@)
    } else {
        match binding_verdict("trust anchor"@, root) {
            Some(d) => Err(d),
            None => key_packet("trust anchor"@, root.body),
        }
    }
}

/// Why the account key `acc` is not vouched for by the anchor, if it is not.
pub open spec fn account_verdict(
    acc: AssertionView,
    root: AssertionView,
    root_key: Seq<u8>,
) -> Option<Seq<char>> {
    if acc.assertion_type != "account-key"@ {
        Some("signing key assertion is not an account-key"@)
    } else if acc.authority_id != root.authority_id {
        Some(
            "account key authority '"@ + acc.authority_id
                + "' does not match the trust anchor authority '"@ + root.authority_id + "'"@,
        )
    } else {
        signature_verdict("account key"@, acc, root_key)
    }
}

/// Why `rev` does not name the account key `acc` as its signer, if it does
/// not.
pub open spec fn signer_verdict(rev: AssertionView, acc: AssertionView) -> Option<Seq<char>> {
    if rev.assertion_type != "snap-revision"@ {
        Some("assertion is not a snap-revision"@)
    } else {
        match required_value(acc.headers, "public-key-sha3-384"@) {
            Err(d) => Some(d),
            Ok(id) => match (id_bytes("sha3-384"@, rev.sign_key_id), id_bytes("sha3-384"@, id)) {
                (Err(d), _) => Some(d),
                (Ok(_), Err(d)) => Some(d),
                (Ok(a), Ok(b)) => if a != b {
                    Some(
                        "account key id '"@ + id
                            + "' does not match the assertion's sign-key-sha3-384"@,
                    )
                } else if rev.authority_id != acc.authority_id {
                    Some(
                        "assertion authority '"@ + rev.authority_id
                            + "' does not match signing key account '"@ + acc.authority_id + "'"@,
                    )
                } else {
                    None
                },
            },
        }
    }
}

/// Why `rev` is not signed by the account key `acc` and alive at `now`, if it
/// is not.
pub open spec fn signed_verdict(rev: AssertionView, acc: AssertionView, now: int) -> Option<
    Seq<char>,
> {
    match first_of(signer_verdict(rev, acc), binding_verdict("account key"@, acc)) {
        Some(d) => Some(d),
        None => match key_packet("account key"@, acc.body) {
            Err(d) => Some(d),
            Ok(key) => first_of(
                first_of(
                    stamp_verdict(rev),
                    window_verdict(acc, header_instant(rev, "timestamp"@), now),
                ),
                signature_verdict("snap revision"@, rev, key),
            ),
        },
    }
}

/// Why the chain from the anchor over the account key to the snap revision
/// does not back the expected pin at `now`, if it does not.
pub open spec fn chain_verdict(
    anchor: Seq<char>,
    account: Seq<char>,
    revision: Seq<char>,
    want: ExpectedView,
    now: int,
) -> Option<Seq<char>> {
    match assertion_of(anchor) {
        Err(d) => Some(d),
        Ok(root) => match anchor_key(root) {
            Err(d) => Some(d),
            Ok(root_key) => match assertion_of(account) {
                Err(d) => Some(d),
                Ok(acc) => match account_verdict(acc, root, root_key) {
                    Some(d) => Some(d),
                    None => match assertion_of(revision) {
                        Err(d) => Some(d),
                        Ok(rev) => first_of(
                            signed_verdict(rev, acc, now),
                            fields_verdict(rev, want),
                        ),
                    },
                },
            },
        },
    }
}

fn check_anchor(name: &str, root: &Assertion) -> (r: Result<Vec<u8>, AssertError>)
    ensures
        match r {
            Ok(k) => anchor_key(root@) == Ok::<Seq<u8>, Seq<char>>(k@),
            Err(e) => anchor_key(root@) is Err && refuses(e, name@, anchor_key(root@)->Err_0),
        },
{
    if !str_eq(root.assertion_type.as_str(), "account-key") {
        return Err(untrusted(name, "trust anchor is not an account-key assertion".to_owned()));
    }
    match check_key_material_binding(name, "trust anchor", root) {
        Err(e) => {
            return Err(e);
        },
        Ok(_) => {},
    }
    public_key_from_body(name, "trust anchor", &root.body)
}

fn check_account(name: &str, acc: &Assertion, root: &Assertion, root_key: &Vec<u8>) -> (r: Result<
    (),
    AssertError,
>)
    requires
        header_fault(root_key@) is None,
        public_key_fault(root_key@) is None,
    ensures
        is_verdict(r, name@, account_verdict(acc@, root@, root_key@)),
{
    if !str_eq(acc.assertion_type.as_str(), "account-key") {
        return Err(untrusted(name, "signing key assertion is not an account-key".to_owned()));
    }
    if !str_eq(acc.authority_id.as_str(), root.authority_id.as_str()) {
        let mut detail = say3(
            "account key authority '",
            acc.authority_id.as_str(),
            "' does not match the trust anchor authority '",
        );
        detail.append(root.authority_id.as_str());
        detail.append("'");
        return Err(untrusted(name, detail));
    }
    verify_signature(name, "account key", acc, root_key)
}

fn check_signer(name: &str, rev: &Assertion, acc: &Assertion) -> (r: Result<(), AssertError>)
    ensures
        is_verdict(r, name@, signer_verdict(rev@, acc@)),
{
    if !str_eq(rev.assertion_type.as_str(), "snap-revision") {
        return Err(untrusted(name, "assertion is not a snap-revision".to_owned()));
    }
    let id = match acc.required(name, "public-key-sha3-384") {
        Err(e) => {
            return Err(e);
        },
        Ok(v) => v,
    };
    let a = match b64url_decode(name, "sha3-384", rev.sign_key_id.as_str()) {
        Err(e) => {
            return Err(e);
        },
        Ok(b) => b,
    };
    let b = match b64url_decode(name, "sha3-384", id) {
        Err(e) => {
            return Err(e);
        },
        Ok(b) => b,
    };
    if !bytes_eq(a.as_slice(), b.as_slice()) {
        return Err(
            untrusted(
                name,
                say3(
                    "account key id '",
                    id,
                    "' does not match the assertion's sign-key-sha3-384",
                ),
            ),
        );
    }
    if !str_eq(rev.authority_id.as_str(), acc.authority_id.as_str()) {
        let mut detail = say3(
            "assertion authority '",
            rev.authority_id.as_str(),
            "' does not match signing key account '",
        );
        detail.append(acc.authority_id.as_str());
        detail.append("'");
        return Err(untrusted(name, detail));
    }
    Ok(())
}

fn check_signed(name: &str, rev: &Assertion, acc: &Assertion, now: u64) -> (r: Result<
    (),
    AssertError,
>)
    ensures
        is_verdict(r, name@, signed_verdict(rev@, acc@, now as int)),
{
    match check_signer(name, rev, acc) {
        Err(e) => {
            return Err(e);
        },
        Ok(_) => {},
    }
    match check_key_material_binding(name, "account key", acc) {
        Err(e) => {
            return Err(e);
        },
        Ok(_) => {},
    }
    let key = match public_key_from_body(name, "account key", &acc.body) {
        Err(e) => {
            return Err(e);
        },
        Ok(k) => k,
    };
    let timestamp = instant_of_header(rev, "timestamp");
    if timestamp.is_none() && rev.header("timestamp").is_some() {
        return Err(untrusted(name, "snap revision has no valid 'timestamp'".to_owned()));
    }
    match check_validity_window(name, acc, timestamp, now) {
        Err(e) => {
            return Err(e);
        },
        Ok(_) => {},
    }
    verify_signature(name, "snap revision", rev, &key)
}

/// Verifies the chain from the trust anchor over the account key to the snap
/// revision, all given as text, against the pin at the instant `now`.
pub fn verify_chain(
    name: &str,
    anchor_raw: &str,
    snap_revision_raw: &str,
    account_key_raw: &str,
    want: &Expected<'_>,
    now: u64,
) -> (r: Result<(), AssertError>)
    ensures
        is_verdict(
            r,
            name@,
            chain_verdict(anchor_raw@, account_key_raw@, snap_revision_raw@, want@, now as int),
        ),
{
    let root = match parse_assertion(name, anchor_raw) {
        Err(e) => {
            return Err(e);
        },
        Ok(a) => a,
    };
    let root_key = match check_anchor(name, &root) {
        Err(e) => {
            return Err(e);
        },
        Ok(k) => k,
    };
    let acc = match parse_assertion(name, account_key_raw) {
        Err(e) => {
            return Err(e);
        },
        Ok(a) => a,
    };
    match check_account(name, &acc, &root, &root_key) {
        Err(e) => {
            return Err(e);
        },
        Ok(_) => {},
    }
    let rev = match parse_assertion(name, snap_revision_raw) {
        Err(e) => {
            return Err(e);
        },
        Ok(a) => a,
    };
    match check_signed(name, &rev, &acc, now) {
        Err(e) => {
            return Err(e);
        },
        Ok(_) => {},
    }
    cross_check_fields(name, &rev, want)
}

/// What a verified chain vouches for: the anchor's key signed the account
/// key, the account key's id is that of its body and is the one the revision
/// names, the account key is alive and signed the revision while it was valid,
/// every instant that the two name was read, and the signed digest, snap id, revision and size are the expected ones.
pub proof fn law_verified_chain_backs_the_pin(
    anchor: Seq<char>,
    account: Seq<char>,
    revision: Seq<char>,
    want: ExpectedView,
    now: int,
)
    requires
        chain_verdict(anchor, account, revision, want, now) is None,
    ensures
        assertion_of(anchor) is Ok && assertion_of(account) is Ok && assertion_of(revision) is Ok,
        ({
            let root = assertion_of(anchor)->Ok_0;
            let acc = assertion_of(account)->Ok_0;
            let rev = assertion_of(revision)->Ok_0;
            let root_key = key_packet("trust anchor"@, root.body);
            let key = key_packet("account key"@, acc.body);
            &&& root_key is Ok && key is Ok
            &&& signature_verdict("account key"@, acc, root_key->Ok_0) is None
            &&& signature_verdict("snap revision"@, rev, key->Ok_0) is None
            &&& binding_verdict("account key"@, acc) is None
            &&& signer_verdict(rev, acc) is None
            &&& header_instant(acc, "since"@) is Some && header_instant(acc, "since"@)->Some_0
                <= now
            &&& header_value(acc.headers, "until"@) is Some ==> header_instant(
                acc,
                "until"@,
            ) is Some && now < header_instant(acc, "until"@)->Some_0
            &&& header_value(rev.headers, "timestamp"@) is Some ==> header_instant(
                rev,
                "timestamp"@,
            ) is Some && signed_within(acc, header_instant(rev, "timestamp"@)->Some_0)
            &&& header_value(rev.headers, "snap-sha3-384"@) is Some && id_bytes(
                "sha3-384"@,
                header_value(rev.headers, "snap-sha3-384"@)->Some_0,
            ) == Ok::<Seq<u8>, Seq<char>>(want.digest)
            &&& want.snap_id is Some ==> header_value(rev.headers, "snap-id"@) == want.snap_id
            &&& header_value(rev.headers, "snap-revision"@) is Some && unsigned_value(
                header_value(rev.headers, "snap-revision"@)->Some_0,
                u32::MAX as int,
            ) == Some(want.revision)
            &&& want.size is Some ==> header_value(rev.headers, "snap-size"@) is Some
                && unsigned_value(
                header_value(rev.headers, "snap-size"@)->Some_0,
                u64::MAX as int,
            ) == want.size
        }),
{
}

/// The digest's two encodings never need to match as text: a revision whose
/// digest header is the URL-safe base64 of the bytes that `hex` spells passes
/// the digest check.
pub proof fn law_digest_encodings_agree(a: AssertionView, hex: Seq<char>, header: Seq<char>)
    requires
        is_hex(hex),
        header_value(a.headers, "snap-sha3-384"@) == Some(header),
    ensures
        url_decoded(encode_utf8(header)) == Ok::<Seq<u8>, Seq<char>>(hex_bytes(hex))
            ==> digest_verdict(a, hex_bytes(hex)) is None,
{
}

// ── The store ──

/// The argv that fetches a raw assertion from `url`.
pub open spec fn fetch_command(url: Seq<char>) -> Seq<Seq<char>> {
    seq![
        "curl"@,
        "-sSf"@,
        "--max-time"@,
        "30"@,
        "-H"@,
        "Snap-Device-Series: 16"@,
        "-H"@,
        "Accept: application/x.ubuntu.assertion"@,
        url,
    ]
}

/// The argv that fetches a raw assertion from `url`. The `Accept` header
/// selects the raw signed form.
pub fn fetch_argv(url: &str) -> (r: Vec<String>)
    ensures
        texts(r@) == fetch_command(url@),
{
    let r = vec![
        "curl".to_owned(),
        "-sSf".to_owned(),
        "--max-time".to_owned(),
        "30".to_owned(),
        "-H".to_owned(),
        "Snap-Device-Series: 16".to_owned(),
        "-H".to_owned(),
        "Accept: application/x.ubuntu.assertion".to_owned(),
        url.to_owned(),
    ];
    assert(texts(r@) =~= fetch_command(url@));
    r
}

/// The reason that a failed fetch gives.
pub open spec fn fetch_failure(code: int, stderr: Seq<char>) -> Seq<char> {
    if stderr.len() == 0 {
        "curl exited with "@ + signed_decimal(reported_code(code))
    } else {
        trimmed(stderr)
    }
}

/// Whether `r` is what the output of a fetch of `url` comes to: the assertion's
/// text, or the transport failure.
pub open spec fn reads_output(
    r: Result<String, AssertError>,
    url: Seq<char>,
    output: RunnerOutput,
) -> bool {
    match r {
        Ok(text) => output.code == 0 && output.stdout@.len() > 0 && valid_utf8(output.stdout@)
            && encode_utf8(text@) == output.stdout@,
        Err(e) => if output.code != 0 {
            unreachable_at(e, url, fetch_failure(output.code as int, output.stderr@))
        } else if output.stdout@.len() == 0 {
            unreachable_at(e, url, "empty response"@)
        } else {
            !valid_utf8(output.stdout@) && unreachable_at(
                e,
                url,
                "non-UTF-8 assertion body: "@ + crate::text::utf8_fault(output.stdout@),
            )
        },
    }
}

/// Reads the reply to a fetch of `url`: the assertion's text, or the
/// transport failure.
pub fn assertion_reply(url: &str, output: RunnerOutput) -> (r: Result<String, AssertError>)
    ensures
        reads_output(r, url@, output),
{
    if output.code != 0 {
        let detail = if output.stderr.as_str().is_empty() {
            let code = to_signed_decimal(exit_code(&output));
            say("curl exited with ", code.as_str())
        } else {
            trim(output.stderr.as_str())
        };
        return Err(network(url, detail));
    }
    if output.stdout.len() == 0 {
        return Err(network(url, "empty response".to_owned()));
    }
    match crate::text::utf8_text(output.stdout) {
        Ok(s) => Ok(s),
        Err(e) => Err(network(url, say("non-UTF-8 assertion body: ", e.as_str()))),
    }
}

/// Whether `r` is what an outcome of the fetch command for `url` comes to: the
/// command could not be run, or its output is read.
pub open spec fn reads_outcome(
    r: Result<String, AssertError>,
    url: Seq<char>,
    outcome: std::io::Result<RunnerOutput>,
) -> bool {
    match outcome {
        Ok(output) => reads_output(r, url, output),
        Err(e) => exists|shown: String| #[trigger]
            to_string_from_display_ensures::<std::io::Error>(&e, shown) && r is Err
                && unreachable_at(r->Err_0, url, "curl not found: "@ + shown@),
    }
}

/// Whether `got` is what the runner answered, in some outcome of the fetch
/// command for `url`.
pub open spec fn fetched<R: CommandRunner>(
    runner: &R,
    url: Seq<char>,
    got: Result<String, AssertError>,
) -> bool {
    exists|argv: &[String], outcome: std::io::Result<RunnerOutput>|
        texts(argv@) == fetch_command(url) && #[trigger] call_ensures(
            R::run,
            (runner, argv),
            outcome,
        ) && reads_outcome(got, url, outcome)
}

/// Fetches one raw assertion: runs the fetch command for `url` and reads what
/// comes of it. A failure is always one of the transport.
pub fn fetch_assertion<R: CommandRunner>(runner: &R, url: &str) -> (r: Result<String, AssertError>)
    ensures
        r is Err ==> r->Err_0 is Network && r->Err_0->url@ == url@,
        fetched(runner, url@, r),
{
    let argv = fetch_argv(url);
    match runner.run(argv.as_slice()) {
        Err(e) => {
            let shown = e.to_string();
            Err(network(url, say("curl not found: ", shown.as_str())))
        },
        Ok(out) => assertion_reply(url, out),
    }
}

/// The address of the snap-revision assertion for a digest.
pub open spec fn revision_url(digest: Seq<u8>) -> Seq<char> {
    "https://api.snapcraft.io/v2/assertions/snap-revision/"@ + url_text(digest)
}

/// The address of the account-key assertion with the given id.
pub open spec fn account_url(key_id: Seq<char>) -> Seq<char> {
    "https://api.snapcraft.io/v2/assertions/account-key/"@ + key_id
}

/// The address of the snap-revision assertion for a digest.
pub fn revision_address(digest: &[u8]) -> (r: String)
    ensures
        r@ == revision_url(digest@),
{
    let b64 = encode_url(digest);
    say("https://api.snapcraft.io/v2/assertions/snap-revision/", b64.as_str())
}

/// The address of the account-key assertion that the revision answered, `sr`,
/// was signed with.
pub fn account_address(name: &str, sr: &str) -> (r: Result<String, AssertError>)
    ensures
        match assertion_of(sr@) {
            Err(d) => r is Err && refuses(r->Err_0, name@, d),
            Ok(a) => r is Ok && r->Ok_0@ == account_url(a.sign_key_id),
        },
{
    match parse_assertion(name, sr) {
        Err(e) => Err(e),
        Ok(a) => Ok(
            say("https://api.snapcraft.io/v2/assertions/account-key/", a.sign_key_id.as_str()),
        ),
    }
}

/// Whether `r` follows from the revision answered, `sr`, and from what the
/// runner answered when asked for the account key that `sr` names.
pub open spec fn follows_from_revision<R: CommandRunner>(
    r: Result<(), AssertError>,
    runner: &R,
    anchor: Seq<char>,
    name: Seq<char>,
    sr: Seq<char>,
    want: ExpectedView,
    now: int,
) -> bool {
    match assertion_of(sr) {
        Err(d) => r is Err && refuses(r->Err_0, name, d),
        Ok(a) => exists|ak: Result<String, AssertError>| #[trigger]
            fetched(runner, account_url(a.sign_key_id), ak) && (match ak {
                Err(e) => r == Err::<(), AssertError>(e),
                Ok(t) => is_verdict(r, name, chain_verdict(anchor, t@, sr, want, now)),
            }),
    }
}

/// Whether `r` follows from what the runner answered when asked for the
/// revision with the wanted digest.
pub open spec fn follows_from_answers<R: CommandRunner>(
    r: Result<(), AssertError>,
    runner: &R,
    anchor: Seq<char>,
    name: Seq<char>,
    want: ExpectedView,
    now: int,
) -> bool {
    exists|sr: Result<String, AssertError>| #[trigger]
        fetched(runner, revision_url(want.digest), sr) && (match sr {
            Err(e) => r == Err::<(), AssertError>(e),
            Ok(t) => follows_from_revision(r, runner, anchor, name, t@, want, now),
        })
}

/// Verifies the revision answered, `sr`, with the account key that it names,
/// which is fetched through `runner`.
fn verify_answered<R: CommandRunner>(
    runner: &R,
    anchor_raw: &str,
    now: u64,
    name: &str,
    sr: &str,
    want: &Expected<'_>,
) -> (r: Result<(), AssertError>)
    ensures
        follows_from_revision(r, runner, anchor_raw@, name@, sr@, want@, now as int),
{
    let url = match account_address(name, sr) {
        Err(e) => {
            return Err(e);
        },
        Ok(u) => u,
    };
    let answer = fetch_assertion(runner, url.as_str());
    assert(fetched(runner, account_url(assertion_of(sr@)->Ok_0.sign_key_id), answer));
    match answer {
        Err(e) => Err(e),
        Ok(ak) => verify_chain(name, anchor_raw, sr, ak.as_str(), want, now),
    }
}

/// Verifies a store-resolved snap revision against its signed assertion
/// chain, fetching the assertions through `runner`. `sha3_384_hex` is the
/// digest in hexadecimal; it is compared by decoded bytes. Where it is no
/// hexadecimal, that is the error; else the revision is asked for, then the
/// account key that signed it, and a failed fetch, a malformed revision or the
/// verdict on the chain is what comes back.
pub fn verify_revision_with<R: CommandRunner>(
    runner: &R,
    anchor_raw: &str,
    now: u64,
    name: &str,
    snap_id: Option<&str>,
    revision: u32,
    sha3_384_hex: &str,
    size: Option<u64>,
) -> (r: Result<(), AssertError>)
    ensures
        if is_hex(sha3_384_hex@) {
            follows_from_answers(
                r,
                runner,
                anchor_raw@,
                name@,
                (ExpectedView {
                    snap_id: opt_str(snap_id),
                    revision: revision as int,
                    digest: hex_bytes(sha3_384_hex@),
                    size: opt_int(size),
                }),
                now as int,
            )
        } else {
            r is Err && refuses(
                r->Err_0,
                name@,
                "store digest: invalid hex '"@ + sha3_384_hex@ + "'"@,
            )
        },
{
    let digest = match hex_decode(name, "store digest", sha3_384_hex) {
        Err(e) => {
            proof {
                reveal_strlit("store digest");
                reveal_strlit(": invalid hex '");
                reveal_strlit("store digest: invalid hex '");
                assert("store digest"@ + ": invalid hex '"@ =~= "store digest: invalid hex '"@);
            }
            return Err(e);
        },
        Ok(d) => d,
    };
    let want = Expected { snap_id, revision, digest: digest.as_slice(), size };
    let url = revision_address(digest.as_slice());
    let answer = fetch_assertion(runner, url.as_str());
    assert(fetched(runner, revision_url(want@.digest), answer));
    match answer {
        Err(e) => Err(e),
        Ok(sr) => verify_answered(runner, anchor_raw, now, name, sr.as_str(), &want),
    }
}

// ── What each check asks for ──

/// Of headers with one key the last counts, and other headers do not matter.
pub proof fn law_the_last_header_counts(
    h: Seq<(Seq<char>, Seq<char>)>,
    key: Seq<char>,
    value: Seq<char>,
    other: Seq<char>,
)
    ensures
        header_value(h.push((key, value)), key) == Some(value),
        other != key ==> header_value(h.push((other, value)), key) == header_value(h, key),
        header_value(Seq::empty(), key) is None,
{
    assert(h.push((key, value)).drop_last() =~= h);
    assert(h.push((other, value)).drop_last() =~= h);
}

/// A header is read from its line: the key before the first `: `, the value
/// behind it. One line without `: ` spoils them all.
pub proof fn law_headers_are_read_line_by_line(
    ls: Seq<Seq<char>>,
    key: Seq<char>,
    value: Seq<char>,
    bad: Seq<char>,
)
    requires
        !key.contains(':'),
        !bad.contains(':'),
    ensures
        header_lines(Seq::empty()) == Ok::<Seq<(Seq<char>, Seq<char>)>, Seq<char>>(Seq::empty()),
        header_lines(ls) is Ok ==> header_lines(ls.push(key + ": "@ + value)) == Ok::<
            Seq<(Seq<char>, Seq<char>)>,
            Seq<char>,
        >(header_lines(ls)->Ok_0.push((key, value))),
        header_lines(ls) is Err ==> header_lines(ls.push(key + ": "@ + value)) is Err,
        header_lines(ls.push(bad)) is Err,
{
    reveal_strlit(": ");
    let m = ": "@;
    let s = key + m + value;
    crate::text::lemma_find_behind(key, m, value);
    assert(s.take(key.len() as int) =~= key);
    assert(s.skip(key.len() as int + 2) =~= value);
    assert(ls.push(s).drop_last() =~= ls);
    assert(ls.push(bad).drop_last() =~= ls);
    crate::text::lemma_find_from(bad, m, 0);
    if cut(bad, m) is Some {
        let k = crate::text::find(bad, m)->0;
        assert(bad.subrange(k, k + 2)[0] == bad[k]);
        assert(bad.contains(bad[k]));
    }
}

/// An assertion is its content and, behind the last empty line, its signature;
/// newlines at the end do not matter.
pub proof fn law_signatures_stand_behind_the_content(content: Seq<char>, sig: Seq<char>)
    requires
        sig.len() > 0,
        !sig.contains('\n'),
    ensures
        rcut(drop_trailing(content + "\n\n"@ + sig, '\n'), "\n\n"@) == Some((content, sig)),
        assertion_of(content + "\n\n"@ + sig + seq!['\n']) == assertion_of(
            content + "\n\n"@ + sig,
        ),
{
    reveal_strlit("\n\n");
    let m = "\n\n"@;
    let s = content + m + sig;
    assert(s.last() == sig.last());
    assert(sig.contains(sig.last()));
    assert(drop_trailing(s, '\n') == s);
    assert((s + seq!['\n']).drop_last() =~= s);
    crate::text::law_the_last_place_is_found(s, m);
    let at = content.len() as int;
    assert(s.subrange(at, at + 2) =~= m);
    let k = crate::text::rfind(s, m)->0;
    assert(k == at) by {
        if k > at {
            let u = s.subrange(k, k + 2);
            assert(u[1] == s[k + 1]);
            assert(s[k + 1] == sig[k - at - 1]);
            assert(sig.contains(sig[k - at - 1]));
        }
        if k < at {
            assert(s.subrange(at, at + 2) != m);
        }
    }
    assert(s.take(at) =~= content);
    assert(s.skip(at + 2) =~= sig);
}

/// An account key covers an instant from its `since` on and, where it names an
/// `until`, before that: the present one, and the one of what it signed.
pub proof fn law_keys_are_valid_from_since_until_until(
    a: AssertionView,
    signed: Option<int>,
    now: int,
)
    ensures
        window_verdict(a, signed, now) is None <==> {
            &&& header_value(a.headers, "since"@) matches Some(s) && (instant(s) matches Some(since)
                && since <= now && (signed matches Some(t) ==> since <= t))
            &&& header_value(a.headers, "until"@) matches Some(u) ==> (instant(u) matches Some(
                until,
            ) && now < until && (signed matches Some(t) ==> t < until))
        },
{
}

/// The fields of a revision are the expected ones exactly where each header
/// that is asked for is there and says so.
pub proof fn law_fields_are_those_expected(a: AssertionView, want: ExpectedView)
    ensures
        fields_verdict(a, want) is None <==> {
            &&& header_value(a.headers, "snap-sha3-384"@) matches Some(t) && id_bytes(
                "sha3-384"@,
                t,
            ) == Ok::<Seq<u8>, Seq<char>>(want.digest)
            &&& want.snap_id is Some ==> header_value(a.headers, "snap-id"@) == want.snap_id
            &&& header_value(a.headers, "snap-revision"@) matches Some(t) && unsigned_value(
                t,
                u32::MAX as int,
            ) == Some(want.revision)
            &&& want.size is Some ==> (header_value(a.headers, "snap-size"@) matches Some(t)
                && unsigned_value(t, u64::MAX as int) == want.size)
        },
{
    let d = header_value(a.headers, "snap-sha3-384"@);
    if d is Some {
        if id_bytes("sha3-384"@, d->0) is Ok && id_bytes("sha3-384"@, d->0)->Ok_0 == want.digest {
            assert(digest_verdict(a, want.digest) is None);
        }
    }
}

/// The id of a key is bound to the key exactly where it spells the digest of the
/// key's envelope.
pub proof fn law_key_ids_are_digests_of_their_keys(what: Seq<char>, a: AssertionView)
    ensures
        binding_verdict(what, a) is None <==> (header_value(
            a.headers,
            "public-key-sha3-384"@,
        ) matches Some(id) && (id_bytes(what, id) matches Ok(b) && b == sha3_384(
            seq![1u8] + a.body,
        ))),
{
}

/// A revision names its signer exactly where it is a revision, the ids spell the
/// same bytes and the authority is the key's.
pub proof fn law_revisions_name_their_signer(rev: AssertionView, acc: AssertionView)
    ensures
        signer_verdict(rev, acc) is None <==> {
            &&& rev.assertion_type == "snap-revision"@
            &&& rev.authority_id == acc.authority_id
            &&& header_value(acc.headers, "public-key-sha3-384"@) matches Some(id) && (id_bytes(
                "sha3-384"@,
                rev.sign_key_id,
            ) matches Ok(x) && (id_bytes("sha3-384"@, id) matches Ok(y) && x == y))
        },
{
}

/// An anchor gives its key exactly where it is an account key whose id is bound
/// to it; and it vouches for an account key of its own authority that it signed.
pub proof fn law_anchors_vouch_for_their_authority(
    root: AssertionView,
    acc: AssertionView,
    key: Seq<u8>,
)
    ensures
        anchor_key(root) is Ok <==> root.assertion_type == "account-key"@ && binding_verdict(
            "trust anchor"@,
            root,
        ) is None && key_packet("trust anchor"@, root.body) is Ok,
        anchor_key(root) is Ok ==> anchor_key(root) == key_packet("trust anchor"@, root.body),
        account_verdict(acc, root, key) is None <==> acc.assertion_type == "account-key"@
            && acc.authority_id == root.authority_id && signature_verdict(
            "account key"@,
            acc,
            key,
        ) is None,
{
}

/// A chain backs a pin exactly where its three assertions can be read, the
/// anchor gives a key that vouches for the account key, the account key is the
/// signer of the revision, alive, and signed it, and the fields are the expected
/// ones.
pub proof fn law_chains_back_a_pin_link_by_link(
    anchor: Seq<char>,
    account: Seq<char>,
    revision: Seq<char>,
    want: ExpectedView,
    now: int,
)
    ensures
        chain_verdict(anchor, account, revision, want, now) is None <==> (assertion_of(
            anchor,
        ) matches Ok(root) && (assertion_of(account) matches Ok(acc) && (assertion_of(
            revision,
        ) matches Ok(rev) && (anchor_key(root) matches Ok(root_key) && (key_packet(
            "account key"@,
            acc.body,
        ) matches Ok(key) && account_verdict(acc, root, root_key) is None && signer_verdict(
            rev,
            acc,
        ) is None && binding_verdict("account key"@, acc) is None && !unreadable_instant(
            rev,
            "timestamp"@,
        ) && window_verdict(acc, header_instant(rev, "timestamp"@), now) is None
            && signature_verdict("snap revision"@, rev, key) is None && fields_verdict(
            rev,
            want,
        ) is None))))),
{
}

/// The first signature packet counts; without one there is none.
pub proof fn law_the_first_signature_counts(ps: Seq<Packet>)
    ensures
        match first_signature(ps) {
            Some(p) => exists|i: int|
                0 <= i < ps.len() && #[trigger] ps[i] == p && p.tag == 2 && forall|j: int|
                    0 <= j < i ==> (#[trigger] ps[j]).tag != 2,
            None => forall|j: int| 0 <= j < ps.len() ==> (#[trigger] ps[j]).tag != 2,
        },
    decreases ps.len(),
{
    if ps.len() > 0 {
        let tail = ps.skip(1);
        if ps[0].tag == 2 {
            assert(ps[0] == ps[0]);
        } else {
            law_the_first_signature_counts(tail);
            match first_signature(tail) {
                Some(p) => {
                    let i = choose|i: int|
                        0 <= i < tail.len() && #[trigger] tail[i] == p && p.tag == 2 && forall|
                            j: int,
                        |
                            0 <= j < i ==> (#[trigger] tail[j]).tag != 2;
                    assert(ps[i + 1] == p);
                    assert forall|j: int| 0 <= j < i + 1 implies (#[trigger] ps[j]).tag != 2 by {
                        if j > 0 {
                            assert(tail[j - 1] == ps[j]);
                        }
                    }
                },
                None => {
                    assert forall|j: int| 0 <= j < ps.len() implies (#[trigger] ps[j]).tag
                        != 2 by {
                        if j > 0 {
                            assert(tail[j - 1] == ps[j]);
                        }
                    }
                },
            }
        }
    }
}

/// An envelope of the first version gives what follows the version; any other
/// gives nothing.
pub proof fn law_envelopes_carry_their_version(what: Seq<char>, stream: Seq<u8>, version: u8)
    ensures
        stream.len() > 0 ==> envelope_stream(what, seq![1u8] + stream) == Ok::<
            Seq<u8>,
            Seq<char>,
        >(stream),
        version != 1 ==> envelope_stream(what, seq![version] + stream) is Err,
        envelope_stream(what, seq![1u8]) is Err,
        envelope_stream(what, Seq::empty()) is Err,
{
    assert((seq![1u8] + stream).skip(1) =~= stream);
}

/// The length of a packet's body is read in each of its forms: in one byte, in
/// two, and in four behind a mark.
pub proof fn law_packet_lengths_are_read_back(data: Seq<u8>, i: int, n: int)
    requires
        0 <= i < data.len(),
        data[i] >= 0xc0,
    ensures
        (0 <= n < 192 && i + 1 < data.len() && data[i + 1] == n) ==> body_extent(data, i) == Ok::<
            (int, int),
            Seq<char>,
        >((i + 2, n)),
        (192 <= n < 8384 && i + 2 < data.len() && data[i + 1] == (n - 192) / 256 + 192 && data[i
            + 2] == (n - 192) % 256) ==> body_extent(data, i) == Ok::<(int, int), Seq<char>>(
            (i + 3, n),
        ),
        (0 <= n < 0x1_0000_0000 && i + 5 < data.len() && data[i + 1] == 255 && data[i + 2] == n
            / 0x100_0000 && data[i + 3] == n / 0x1_0000 % 256 && data[i + 4] == n / 0x100 % 256
            && data[i + 5] == n % 256) ==> body_extent(data, i) == Ok::<(int, int), Seq<char>>(
            (i + 6, n),
        ),
{
    let a = n / 256;
    let b = a / 256;
    assert(n / 0x1_0000 == b);
    assert(n / 0x100_0000 == b / 256);
}

/// A packet is there exactly where its body ends within the stream; its tag is
/// in the low bits of its first byte.
pub proof fn law_packets_end_in_the_stream(data: Seq<u8>, i: int)
    requires
        0 <= i < data.len() <= usize::MAX,
    ensures
        packet_at(data, i) is Ok <==> (body_extent(data, i) matches Ok(b) && b.0 + b.1
            <= data.len()),
        packet_at(data, i) matches Ok(p) ==> p.tag == data[i] - 0xc0 && p.start == i,
{
}

/// A fetch gives an assertion exactly where it succeeded with text.
pub proof fn law_fetches_give_text(
    r: Result<String, AssertError>,
    url: Seq<char>,
    output: RunnerOutput,
)
    requires
        reads_output(r, url, output),
    ensures
        r is Ok <==> output.code == 0 && output.stdout@.len() > 0 && valid_utf8(output.stdout@),
        r is Err ==> r->Err_0 is Network,
{
}

/// A signature over the content holds exactly where its packet can be read, the
/// hash begins as the packet says, and the key accepts it.
pub proof fn law_signatures_cover_the_content(p: Seq<u8>, content: Seq<u8>, key: Seq<u8>)
    ensures
        packet_verdict(p, content, key) is None <==> {
            &&& header_fault(p) is None
            &&& signature_parts(p) matches Ok(s) && (s.configured && s.signed && (
            s.hash_value matches Some(head) && (signed_hash(p, content) matches Ok(h) && h[0]
                == head.0 && h[1] == head.1 && signature_fault(key, p, h) is None)))
        },
{
}

} // verus!
