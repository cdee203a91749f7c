use base64::engine::general_purpose::{STANDARD, URL_SAFE_NO_PAD};
use base64::Engine;
use pgp::crypto::ed25519::{Mode, SecretKey as Ed25519Secret};
use pgp::crypto::hash::HashAlgorithm;
use pgp::crypto::public_key::PublicKeyAlgorithm;
use pgp::packet::{
    PacketHeader, PacketTrait, PublicKey, SecretKey, SignatureConfig, SignatureType,
};
use pgp::types::{
    KeyVersion, Password, PlainSecretParams, PublicParams, SecretParams, Tag, Timestamp,
};
use sha3::Digest;
use shuttle::assertion::{
    account_address, assertion_reply, b64url_decode, check_key_material_binding, check_validity_window,
    check_revision, check_size, check_snap_id, cross_check_fields, envelope_decode, fetch_argv,
    fetch_assertion, hex_decode, judge_binding, judge_digest, judge_hash, judge_parts,
    parse_assertion, parse_epoch, public_key_from_body, revision_address, split_packets, verify_chain,
    verify_revision_with,
    AssertError, Assertion, Expected,
};
use shuttle::calendar::iso_date;
use shuttle::command::{exit_code, CommandRunner, RunnerOutput};
use shuttle::openpgp::{HashFault, SignatureParts};

const HELLO_SNAP_ID: &str = "buPKUD3TKqCOgLEjjHx5kSiCpIs5cMuQ";
const HELLO_DIGEST_HEX: &str = "b07bdb78e762c2e6020c75fafc92055b323a6f8da3ab42a3963da5ade386aba11f77e3c8f919b8aa23f3aa5c06c844f9";
const HELLO_SIZE: u64 = 20480;
/// 2026-01-01.
const NOW: u64 = 1_767_225_600;

/// A signing key made from a seed.
struct Key {
    secret: SecretKey,
}

impl Key {
    fn new(seed: u8) -> Key {
        let raw = Ed25519Secret::try_from_bytes([seed; 32], Mode::Ed25519).unwrap();
        let public = PublicKey::new_with_header(
            PacketHeader::new_fixed(Tag::PublicKey, 38),
            KeyVersion::V4,
            PublicKeyAlgorithm::Ed25519,
            Timestamp::from_secs(1_459_468_800),
            None,
            PublicParams::Ed25519((&raw).into()),
        )
        .unwrap();
        let params = SecretParams::Plain(PlainSecretParams::Ed25519(raw));
        Key { secret: SecretKey::new(public, params).unwrap() }
    }

    /// The enveloped packet of the public key.
    fn body(&self) -> Vec<u8> {
        let mut out = vec![1u8];
        self.secret.public_key().to_writer_with_header(&mut out).unwrap();
        out
    }

    fn id(&self) -> String {
        URL_SAFE_NO_PAD.encode(sha3::Sha3_384::digest(self.body()))
    }

    /// The assertion with this content, signed.
    fn sign(&self, content: &str) -> String {
        let config = SignatureConfig::v4(
            SignatureType::Binary,
            PublicKeyAlgorithm::Ed25519,
            HashAlgorithm::Sha512,
        );
        let sig = config.sign(&self.secret, &Password::empty(), content.as_bytes()).unwrap();
        let mut out = vec![1u8];
        sig.to_writer_with_header(&mut out).unwrap();
        format!("{content}\n\n{}\n", STANDARD.encode(out))
    }

    /// An account key assertion for `key`, signed by this key.
    fn vouch(&self, key: &Key, extra: &str) -> String {
        self.sign(&format!(
            "type: account-key\nauthority-id: canonical\npublic-key-sha3-384: {}\n\
             account-id: canonical\nname: store\nsince: 2016-04-01T00:00:00.0Z\n{extra}\
             body-length: 1\nsign-key-sha3-384: {}\n\n{}",
            key.id(),
            self.id(),
            STANDARD.encode(key.body()),
        ))
    }

    fn revision(&self, revision: &str) -> String {
        self.revision_at(revision, "2019-04-17T16:44:02.929465Z")
    }

    fn revision_at(&self, revision: &str, timestamp: &str) -> String {
        let digest = hex_decode("hello-world", "digest", HELLO_DIGEST_HEX).unwrap();
        self.sign(&format!(
            "type: snap-revision\nauthority-id: canonical\nsnap-sha3-384: {}\n\
             developer-id: canonical\nsnap-id: {HELLO_SNAP_ID}\nsnap-revision: {revision}\n\
             snap-size: {HELLO_SIZE}\ntimestamp: {timestamp}\n\
             sign-key-sha3-384: {}",
            URL_SAFE_NO_PAD.encode(digest),
            self.id(),
        ))
    }
}

/// A trusted root, the store's key, and a revision that the store signed.
struct Chain {
    anchor: String,
    account_key: String,
    revision: String,
}

fn signed() -> Chain {
    let root = Key::new(1);
    let store = Key::new(2);
    Chain {
        anchor: root.vouch(&root, ""),
        account_key: root.vouch(&store, ""),
        revision: store.revision("29"),
    }
}

impl Chain {
    fn verify(
        &self,
        snap_id: Option<&str>,
        revision: u32,
        digest: &str,
        size: Option<u64>,
    ) -> Result<(), AssertError> {
        let digest = hex_decode("hello-world", "digest", digest).unwrap();
        let want = Expected { snap_id, revision, digest: &digest, size };
        verify_chain(
            "hello-world",
            &self.anchor,
            &self.revision,
            &self.account_key,
            &want,
            NOW,
        )
    }

    fn verify_hello(&self, revision: u32) -> Result<(), AssertError> {
        self.verify(Some(HELLO_SNAP_ID), revision, HELLO_DIGEST_HEX, Some(HELLO_SIZE))
    }
}

/// Flips one character of the base64 body block, which is signed, without
/// breaking base64 validity.
fn tamper_body_first_char(text: &str) -> String {
    let (head, rest) = text.split_once("\n\n").unwrap();
    let (body, sig) = rest.split_once("\n\n").unwrap();
    let mut c: Vec<char> = body.chars().collect();
    c[0] = if c[0] == 'A' { 'B' } else { 'A' };
    let body: String = c.into_iter().collect();
    format!("{head}\n\n{body}\n\n{sig}")
}

fn refusal(r: Result<(), AssertError>) -> String {
    r.unwrap_err().message()
}

#[test]
fn test_valid_chain_verifies() {
    signed()
        .verify_hello(29)
        .unwrap_or_else(|e| panic!("valid chain must verify: {}", e.message()));
}

#[test]
fn test_tampered_revision_header_fails_signature() {
    // The expected revision is that of the changed header, so only the
    // signature over the content can catch the flip.
    let mut chain = signed();
    chain.revision = chain.revision.replace("snap-revision: 29", "snap-revision: 28");
    let err = refusal(chain.verify_hello(28));
    assert!(err.contains("signature"), "got: {err}");
}

#[test]
fn test_tampered_account_key_body_fails() {
    let mut chain = signed();
    chain.account_key = tamper_body_first_char(&chain.account_key);
    let err = refusal(chain.verify_hello(29));
    assert!(err.contains("untrusted"), "got: {err}");
}

#[test]
fn test_wrong_revision_fails_cross_check() {
    let err = refusal(signed().verify_hello(28));
    assert!(err.contains("revision"), "got: {err}");
}

#[test]
fn test_wrong_digest_fails_cross_check() {
    let err = refusal(signed().verify(
        Some(HELLO_SNAP_ID),
        29,
        &"ab".repeat(48),
        Some(HELLO_SIZE),
    ));
    assert!(err.contains("sha3-384"), "got: {err}");
}

#[test]
fn test_wrong_snap_id_fails_cross_check() {
    let err = refusal(signed().verify(
        Some("not-the-snap-id"),
        29,
        HELLO_DIGEST_HEX,
        Some(HELLO_SIZE),
    ));
    assert!(err.contains("snap id"), "got: {err}");
}

#[test]
fn test_wrong_size_fails_cross_check() {
    let err = refusal(signed().verify(
        Some(HELLO_SNAP_ID),
        29,
        HELLO_DIGEST_HEX,
        Some(HELLO_SIZE + 1),
    ));
    assert!(err.contains("size"), "got: {err}");
}

#[test]
fn test_unbound_account_key_fails() {
    // The root key is a valid account-key assertion, but the snap-revision
    // was signed by the store key: the id binding must refuse it.
    let mut chain = signed();
    chain.account_key = chain.anchor.clone();
    let err = refusal(chain.verify_hello(29));
    assert!(err.contains("sign-key-sha3-384"), "got: {err}");
}

#[test]
fn test_digest_encoding_canonicalization() {
    // A digest is hex in the store's channel map; the assertion binds the same
    // bytes URL-safe-base64 encoded. Byte comparison must accept that.
    let hex = hex_decode("hello-world", "digest", HELLO_DIGEST_HEX).unwrap();
    let b64 = URL_SAFE_NO_PAD.encode(&hex);
    let asserted = parse_assertion("hello-world", &signed().revision).unwrap();
    assert_eq!(b64, asserted.header("snap-sha3-384").unwrap());
    assert_eq!(b64url_decode("hello-world", "digest", &b64).unwrap(), hex);
}

#[test]
fn test_parse_epoch() {
    assert_eq!(parse_epoch("2016-04-01T00:00:00.0Z"), Some(1_459_468_800));
    assert_eq!(parse_epoch("2019-04-17T16:44:02.929465Z"), Some(1_555_519_442));
    assert_eq!(parse_epoch("nonsense"), None);
}

#[test]
fn instants_are_read_back() {
    for s in [0u64, 59, 86_399, 951_782_400, 1_555_519_442, 4_107_542_399, 253_402_300_799] {
        let day = iso_date(s);
        let time = format!("{:02}:{:02}:{:02}", s % 86_400 / 3_600, s % 3_600 / 60, s % 60);
        assert_eq!(parse_epoch(&format!("{day}T{time}Z")), Some(s as i128), "{s}");
        assert_eq!(parse_epoch(&format!("{day}T{time}.929465Z")), Some(s as i128), "{s}");
    }
}

#[test]
fn timestamps_out_of_shape_are_refused() {
    for text in [
        "2016-04-01T00:00:00",
        "2016-04-01 00:00:00Z",
        "2016-13-01T00:00:00Z",
        "2016-00-01T00:00:00Z",
        "2016-04-32T00:00:00Z",
        "2016-04T00:00:00Z",
        "2016-04-01T00:00Z",
        "x-04-01T00:00:00Z",
    ] {
        assert_eq!(parse_epoch(text), None, "{text}");
    }
    assert_eq!(parse_epoch("1970-01-01T00:00:00Z"), Some(0));
    assert_eq!(parse_epoch("2000-02-29T01:02:03Z"), Some(951_786_123));
}

#[test]
fn a_foreign_signer_is_refused() {
    let chain = signed();
    let stranger = Key::new(3);
    let forged = Chain {
        anchor: chain.anchor.clone(),
        account_key: stranger.vouch(&Key::new(2), ""),
        revision: chain.revision.clone(),
    };
    let err = refusal(forged.verify_hello(29));
    assert!(err.contains("account key: signature"), "got: {err}");
    let forged = Chain {
        anchor: chain.anchor.clone(),
        account_key: chain.account_key.clone(),
        revision: stranger
            .revision("29")
            .replace(&stranger.id(), &Key::new(2).id()),
    };
    let err = refusal(forged.verify_hello(29));
    assert!(err.contains("snap revision: signature"), "got: {err}");
}

#[test]
fn keys_out_of_their_window_are_refused() {
    let root = Key::new(1);
    let store = Key::new(2);
    let with = |extra: &str| Chain {
        anchor: root.vouch(&root, ""),
        account_key: root.vouch(&store, extra),
        revision: store.revision("29"),
    };
    let err = refusal(with("until: 2020-01-01T00:00:00Z\n").verify_hello(29));
    assert!(err.contains("account key expired"), "got: {err}");
    with("until: 2030-01-01T00:00:00Z\n")
        .verify_hello(29)
        .unwrap_or_else(|e| panic!("{}", e.message()));
    let key = parse_assertion("x", &with("until: 2030-01-01T00:00:00Z\n").account_key).unwrap();
    assert!(check_validity_window("x", &key, None, NOW).is_ok());
    let err = refusal(check_validity_window("x", &key, None, 0));
    assert!(err.contains("not valid yet (since 2016-04-01T00:00:00.0Z)"), "got: {err}");
    let err = refusal(check_validity_window("x", &key, Some(0), NOW));
    assert!(err.contains("validity window"), "got: {err}");
    let unstamped = Chain { revision: store.revision_at("29", "garbage"), ..with("") };
    let err = refusal(unstamped.verify_hello(29));
    assert!(err.contains("snap revision has no valid 'timestamp'"), "got: {err}");
    let early = Chain { revision: store.revision_at("29", "2016-03-31T23:59:59Z"), ..with("") };
    let err = refusal(early.verify_hello(29));
    assert!(err.contains("validity window"), "got: {err}");
    let err = refusal(with("until: garbage\n").verify_hello(29));
    assert!(err.contains("account key has no valid 'until'"), "got: {err}");
    let rev = parse_assertion("x", &store.revision("29")).unwrap();
    let err = refusal(check_validity_window("x", &rev, None, NOW));
    assert!(err.contains("no valid 'since'"), "got: {err}");
}

#[test]
fn swapped_key_material_is_refused() {
    let root = Key::new(1);
    let key = parse_assertion("x", &root.vouch(&Key::new(2), "")).unwrap();
    assert!(check_key_material_binding("x", "account key", &key).is_ok());
    assert!(public_key_from_body("x", "account key", &key.body).is_ok());
    let swapped = Assertion { body: Key::new(3).body()[1..].to_vec(), ..key };
    let err = refusal(check_key_material_binding("x", "account key", &swapped));
    assert!(err.contains("does not match the key body"), "got: {err}");
    assert!(public_key_from_body("x", "k", &vec![]).is_err());
    assert!(public_key_from_body("x", "k", &vec![0xc2, 1, 0]).is_err());
    assert!(public_key_from_body("x", "k", &vec![0xc6, 1, 0]).is_err());
}

#[test]
fn other_assertions_take_no_part_in_a_chain() {
    let chain = signed();
    let swapped = Chain {
        anchor: chain.revision.clone(),
        account_key: chain.account_key.clone(),
        revision: chain.revision.clone(),
    };
    let err = refusal(swapped.verify_hello(29));
    assert!(err.contains("trust anchor is not an account-key assertion"), "got: {err}");
    let swapped = Chain {
        anchor: chain.anchor.clone(),
        account_key: chain.revision.clone(),
        revision: chain.revision.clone(),
    };
    let err = refusal(swapped.verify_hello(29));
    assert!(err.contains("signing key assertion is not an account-key"), "got: {err}");
    let swapped = Chain {
        anchor: chain.anchor.clone(),
        account_key: chain.account_key.clone(),
        revision: chain.account_key.clone(),
    };
    let err = refusal(swapped.verify_hello(29));
    assert!(err.contains("assertion is not a snap-revision"), "got: {err}");
}

#[test]
fn malformed_assertions_are_refused() {
    let refused = |raw: &str| parse_assertion("x", raw).unwrap_err().message();
    let err = refused("type: x");
    assert!(err.contains("separator not found"), "got: {err}");
    let err = refused("type x\n\nAQE=");
    assert!(err.contains("malformed assertion header line 'type x'"), "got: {err}");
    let err = refused("authority-id: a\nsign-key-sha3-384: k\n\nAQE=");
    assert!(err.contains("missing header 'type'"), "got: {err}");
    let err = refused("type: a\nsign-key-sha3-384: k\n\nAQE=");
    assert!(err.contains("missing header 'authority-id'"), "got: {err}");
    let err = refused("type: a\nauthority-id: k\n\nAQE=");
    assert!(err.contains("missing header 'sign-key-sha3-384'"), "got: {err}");
    let err = refused("type: a\nauthority-id: k\nsign-key-sha3-384: k\n\n###");
    assert!(err.contains("assertion signature: invalid base64"), "got: {err}");
    assert_eq!(
        refused("type: x"),
        "untrusted store assertion for 'x': content/signature separator not found"
    );
}

#[test]
fn envelopes_are_versioned() {
    assert_eq!(envelope_decode("x", "w", "AQ ID\n").unwrap(), vec![2, 3]);
    let err = envelope_decode("x", "w", "AgM=").unwrap_err().message();
    assert!(err.contains("w: unsupported envelope version 0x02"), "got: {err}");
    let err = envelope_decode("x", "w", "").unwrap_err().message();
    assert!(err.contains("w: empty envelope"), "got: {err}");
    assert!(envelope_decode("x", "w", "AQ==").is_err());
}

#[test]
fn packets_are_split_by_their_lengths() {
    let mut data = vec![0xc6, 2, 7, 8, 0xc2, 192, 0];
    data.extend(vec![9u8; 192]);
    data.extend([0xc2, 255, 0, 0, 0, 1, 5]);
    let tags: Vec<_> = split_packets("x", &data, "w")
        .unwrap()
        .iter()
        .map(|p| (p.tag, p.start, p.end))
        .collect();
    assert_eq!(tags, vec![(6, 0, 4), (2, 4, 199), (2, 199, 206)]);
    for (bytes, text) in [
        (&[0x06u8, 0][..], "unsupported OpenPGP packet header at byte 0"),
        (&[0x86, 0], "unsupported OpenPGP packet header at byte 0"),
        (&[0xc6], "truncated OpenPGP packet header"),
        (&[0xc6, 192], "truncated OpenPGP packet length"),
        (&[0xc6, 255, 0, 0], "truncated OpenPGP packet length"),
        (&[0xc6, 230], "unsupported OpenPGP partial packet length"),
        (&[0xc6, 3, 1], "truncated OpenPGP packet body"),
    ] {
        let err = split_packets("x", bytes, "w").unwrap_err().message();
        assert!(err.ends_with(&format!("w: {text}")), "got: {err}");
    }
}

#[test]
fn encodings_are_checked() {
    assert_eq!(hex_decode("x", "d", "00fFa1").unwrap(), vec![0, 255, 161]);
    for text in ["0", "zz", "0g", "é"] {
        let err = hex_decode("x", "d", text).unwrap_err().message();
        assert!(err.contains(&format!("d: invalid hex '{text}'")), "got: {err}");
    }
    // Both alphabets are read.
    assert_eq!(b64url_decode("x", "d", "-_8").unwrap(), vec![251, 255]);
    assert_eq!(b64url_decode("x", "d", "+/8").unwrap(), vec![251, 255]);
    assert!(b64url_decode("x", "d", "*").is_err());
}

#[test]
fn numbers_of_a_revision_must_be_numbers() {
    let digest = hex_decode("x", "d", HELLO_DIGEST_HEX).unwrap();
    let want = Expected { snap_id: None, revision: 29, digest: &digest, size: None };
    let rev = parse_assertion("x", &Key::new(2).revision("many")).unwrap();
    let err = refusal(cross_check_fields("x", &rev, &want));
    assert!(err.contains("invalid snap-revision header 'many'"), "got: {err}");
    let rev = parse_assertion("x", &Key::new(2).revision("29")).unwrap();
    assert!(cross_check_fields("x", &rev, &want).is_ok());
    let err = rev.required("x", "grade").unwrap_err().message();
    assert!(err.contains("grade"), "got: {err}");
}

/// A store that holds the assertions of a chain.
struct Store {
    chain: Chain,
    code: i32,
}

impl CommandRunner for Store {
    fn run(&self, argv: &[String]) -> std::io::Result<RunnerOutput> {
        let url = argv.last().unwrap();
        let body = if url.contains("/account-key/") {
            &self.chain.account_key
        } else {
            &self.chain.revision
        };
        Ok(RunnerOutput {
            code: self.code,
            stdout: body.as_bytes().to_vec(),
            stderr: if self.code == 0 { String::new() } else { " no route \n".to_string() },
        })
    }
}

/// A host without curl.
struct Bare;

impl CommandRunner for Bare {
    fn run(&self, _argv: &[String]) -> std::io::Result<RunnerOutput> {
        Err(std::io::Error::from(std::io::ErrorKind::NotFound))
    }
}

#[test]
fn revisions_are_verified_through_the_store() {
    let store = Store { chain: signed(), code: 0 };
    let verify = |store: &Store, revision: u32| {
        verify_revision_with(
            store,
            &store.chain.anchor,
            NOW,
            "hello-world",
            Some(HELLO_SNAP_ID),
            revision,
            HELLO_DIGEST_HEX,
            Some(HELLO_SIZE),
        )
    };
    assert!(verify(&store, 29).is_ok());
    assert!(matches!(verify(&store, 30).unwrap_err(), AssertError::Untrusted { .. }));
    let down = Store { chain: signed(), code: 6 };
    match verify(&down, 29).unwrap_err() {
        AssertError::Network { url, detail } => {
            assert!(url.contains("/v2/assertions/snap-revision/"), "{url}");
            assert_eq!(detail, "no route");
        }
        other => panic!("{other:?}"),
    }
    match fetch_assertion(&Bare, "http://store").unwrap_err() {
        AssertError::Network { url, detail } => {
            assert_eq!(url, "http://store");
            assert!(detail.starts_with("curl not found: "), "{detail}");
        }
        other => panic!("{other:?}"),
    }
}

#[test]
fn replies_of_the_store_are_read() {
    let reply = |code: i32, stdout: &[u8], stderr: &str| {
        let out = RunnerOutput { code, stdout: stdout.to_vec(), stderr: stderr.to_string() };
        assertion_reply("u", out)
    };
    assert_eq!(reply(0, b"text", "").unwrap(), "text");
    let detail = |r: Result<String, AssertError>| match r.unwrap_err() {
        AssertError::Network { detail, .. } => detail,
        other => panic!("{other:?}"),
    };
    assert_eq!(detail(reply(22, b"", "")), "curl exited with 22");
    assert_eq!(detail(reply(-1, b"", "")), "curl exited with 1");
    assert_eq!(detail(reply(0, b"", "")), "empty response");
    assert!(detail(reply(0, &[0xff], "")).starts_with("non-UTF-8 assertion body: "));
    let argv = fetch_argv("u");
    assert_eq!(argv[0], "curl");
    assert_eq!(argv.last().unwrap(), "u");
    assert_eq!(argv.len(), 9);
    let out = RunnerOutput { code: -1, stdout: vec![], stderr: String::new() };
    assert_eq!(exit_code(&out), 1);
}

#[test]
fn unusable_signatures_are_told_apart() {
    let parts = |configured: bool, hash_value: Option<(u8, u8)>, signed: bool| {
        judge_parts(&Ok(SignatureParts { configured, hash_value, signed }))
    };
    assert_eq!(parts(true, Some((1, 2)), true), None);
    assert_eq!(parts(false, None, false).unwrap(), "unsupported signature version");
    assert_eq!(parts(true, None, false).unwrap(), "missing signed hash value");
    assert_eq!(parts(true, Some((1, 2)), false).unwrap(), "missing signature bytes");
    assert_eq!(judge_parts(&Err("x".into())).unwrap(), "invalid signature packet: x");
}

#[test]
fn hashes_are_held_against_the_signed_bytes() {
    assert_eq!(judge_hash((1, 2), &Ok(vec![1, 2, 3])), None);
    assert_eq!(
        judge_hash((1, 2), &Ok(vec![1, 3, 3])).unwrap(),
        "signature does not cover this assertion content"
    );
    for (fault, text) in [
        (HashFault::Algorithm("x".into()), "unsupported hash algorithm: x"),
        (HashFault::Content("x".into()), "cannot hash content: x"),
        (HashFault::Signature("x".into()), "cannot hash signature: x"),
        (HashFault::Trailer("x".into()), "cannot build trailer: x"),
    ] {
        assert_eq!(judge_hash((1, 2), &Err(fault)).unwrap(), text);
    }
}

#[test]
fn digests_are_compared_as_bytes() {
    assert!(judge_digest("x", "AQI", &[1, 2], &[1, 2]).is_ok());
    let err = refusal(judge_digest("x", "AQI", &[1, 2], &[1, 3]));
    assert!(err.ends_with("sha3-384 mismatch: assertion binds AQI, expected the pinned digest"));
    assert!(judge_binding("x", "account key", &[1], &[1]).is_ok());
    let err = refusal(judge_binding("x", "account key", &[1], &[2]));
    assert!(err.ends_with("account key: public-key-sha3-384 does not match the key body"));
    let rev = parse_assertion("x", &Key::new(2).revision("29")).unwrap();
    assert!(check_snap_id("x", &rev, None).is_ok() && check_snap_id("x", &rev, Some("y")).is_err());
    assert!(check_revision("x", &rev, 29).is_ok() && check_revision("x", &rev, 30).is_err());
    assert!(check_size("x", &rev, None).is_ok() && check_size("x", &rev, Some(1)).is_err());
}

/// A store that has the revision and not the account key.
struct Half(Chain);

impl CommandRunner for Half {
    fn run(&self, argv: &[String]) -> std::io::Result<RunnerOutput> {
        let known = argv[8].contains("/snap-revision/");
        Ok(RunnerOutput {
            code: if known { 0 } else { 22 },
            stdout: self.0.revision.as_bytes().to_vec(),
            stderr: String::new(),
        })
    }
}

#[test]
fn the_account_key_is_asked_for_by_the_revision_answered() {
    assert_eq!(
        revision_address(&[0xfb, 0xff]),
        "https://api.snapcraft.io/v2/assertions/snap-revision/-_8"
    );
    let chain = signed();
    let key_id = parse_assertion("hello-world", &chain.revision).unwrap().sign_key_id;
    let want = format!("https://api.snapcraft.io/v2/assertions/account-key/{key_id}");
    assert_eq!(account_address("hello-world", &chain.revision).unwrap(), want);
    assert!(matches!(
        account_address("hello-world", "no assertion").unwrap_err(),
        AssertError::Untrusted { .. }
    ));
    let half = Half(chain);
    let verify = |hex: &str| {
        verify_revision_with(&half, &half.0.anchor, NOW, "hello-world", None, 29, hex, None)
    };
    match verify(HELLO_DIGEST_HEX).unwrap_err() {
        AssertError::Network { url, detail } => {
            assert_eq!((url, detail.as_str()), (want, "curl exited with 22"))
        }
        other => panic!("{other:?}"),
    }
    match verify("xyz").unwrap_err() {
        AssertError::Untrusted { name, detail } => assert_eq!(
            (name.as_str(), detail.as_str()),
            ("hello-world", "store digest: invalid hex 'xyz'")
        ),
        other => panic!("{other:?}"),
    }
}
