//! The OpenPGP calls behind assertion verification. Keys and signatures are
//! handed over as the bytes of their packets.

use pgp::packet::{PacketHeader, PublicKey, Signature};
use pgp::types::VerifyingKey;
use std::io::Cursor;
use vstd::prelude::*;

verus! {

/// What a signature packet holds, as far as a verifier asks for it.
pub struct SignatureParts {
    /// Whether its version is one with a known layout.
    pub configured: bool,
    /// The first two bytes of the signed hash.
    pub hash_value: Option<(u8, u8)>,
    /// Whether it carries signature bytes.
    pub signed: bool,
}

/// The step at which hashing the signed content failed, with the reason.
pub enum HashFault {
    Algorithm(String),
    Content(String),
    Signature(String),
    Trailer(String),
}

/// [`HashFault`] with the reason as text.
pub enum HashFaultView {
    Algorithm(Seq<char>),
    Content(Seq<char>),
    Signature(Seq<char>),
    Trailer(Seq<char>),
}

impl View for HashFault {
    type V = HashFaultView;

    open spec fn view(&self) -> HashFaultView {
        match *self {
            HashFault::Algorithm(e) => HashFaultView::Algorithm(e@),
            HashFault::Content(e) => HashFaultView::Content(e@),
            HashFault::Signature(e) => HashFaultView::Signature(e@),
            HashFault::Trailer(e) => HashFaultView::Trailer(e@),
        }
    }
}

/// Why the header of a packet cannot be read, if it cannot.
pub uninterp spec fn header_fault(packet: Seq<u8>) -> Option<Seq<char>>;

/// Why a packet with a readable header holds no public key, if it holds none.
pub uninterp spec fn public_key_fault(packet: Seq<u8>) -> Option<Seq<char>>;

/// What the signature in a packet with a readable header holds, or why there
/// is none.
pub uninterp spec fn signature_parts(packet: Seq<u8>) -> Result<SignatureParts, Seq<char>>;

/// Why the hash algorithm of the signature in `packet` has no hasher, if it
/// has none.
pub uninterp spec fn hasher_fault(packet: Seq<u8>) -> Option<Seq<char>>;

/// Why the signature in `packet` cannot cover `content`, if it cannot.
pub uninterp spec fn content_fault(packet: Seq<u8>, content: Seq<u8>) -> Option<Seq<char>>;

/// How many bytes of the signature in `packet` are hashed behind the content,
/// or why they cannot be.
pub uninterp spec fn hashed_length(packet: Seq<u8>) -> Result<usize, Seq<char>>;

/// What ends the hashed bytes of the signature in `packet` behind `length`
/// bytes of its own, or why there is no such end.
pub uninterp spec fn hash_trailer(packet: Seq<u8>, length: usize) -> Result<Seq<u8>, Seq<char>>;

/// The digest over `content`, the hashed bytes of the signature in `packet` and
/// `tail`.
pub uninterp spec fn digest_over(packet: Seq<u8>, content: Seq<u8>, tail: Seq<u8>) -> Seq<u8>;

/// The hash that the signature in `packet` signs when it covers `content`, or
/// the step at which hashing failed.
pub open spec fn signed_hash(packet: Seq<u8>, content: Seq<u8>) -> Result<
    Seq<u8>,
    HashFaultView,
> {
    match hasher_fault(packet) {
        Some(e) => Err(HashFaultView::Algorithm(e)),
        None => match content_fault(packet, content) {
            Some(e) => Err(HashFaultView::Content(e)),
            None => match hashed_length(packet) {
                Err(e) => Err(HashFaultView::Signature(e)),
                Ok(n) => match hash_trailer(packet, n) {
                    Err(e) => Err(HashFaultView::Trailer(e)),
                    Ok(tail) => Ok(digest_over(packet, content, tail)),
                },
            },
        },
    }
}

/// Why the signature in `packet` over `hash` is none by the key in `key`, if
/// it is none.
pub uninterp spec fn signature_fault(
    key: Seq<u8>,
    packet: Seq<u8>,
    hash: Seq<u8>,
) -> Option<Seq<char>>;

/// `PacketHeader::try_from_reader` on the packet: named `header_fault`.
#[verifier::external_body]
pub(crate) fn check_header(packet: &[u8]) -> (r: Option<String>)
    ensures
        crate::text::opt_text(r) == header_fault(packet@),
{
    PacketHeader::try_from_reader(Cursor::new(packet)).err().map(|e| e.to_string())
}

/// `PublicKey::try_from_reader` behind the packet's header: named
/// `public_key_fault`.
#[verifier::external_body]
pub(crate) fn check_public_key(packet: &[u8]) -> (r: Option<String>)
    requires
        header_fault(packet@) is None,
    ensures
        crate::text::opt_text(r) == public_key_fault(packet@),
{
    let mut reader = Cursor::new(packet);
    let header = PacketHeader::try_from_reader(&mut reader).unwrap();
    PublicKey::try_from_reader(header, &mut reader).err().map(|e| e.to_string())
}

/// `Signature::try_from_reader` behind the packet's header, with what
/// `config`, `signed_hash_value` and `signature` say of it: named
/// `signature_parts`.
#[verifier::external_body]
pub(crate) fn read_signature(packet: &[u8]) -> (r: Result<SignatureParts, String>)
    requires
        header_fault(packet@) is None,
    ensures
        match r {
            Ok(p) => signature_parts(packet@) == Ok::<SignatureParts, Seq<char>>(p),
            Err(e) => signature_parts(packet@) == Err::<SignatureParts, Seq<char>>(e@),
        },
{
    let mut reader = Cursor::new(packet);
    let header = PacketHeader::try_from_reader(&mut reader).unwrap();
    let sig = Signature::try_from_reader(header, &mut reader).map_err(|e| e.to_string())?;
    Ok(SignatureParts {
        configured: sig.config().is_some(),
        hash_value: sig.signed_hash_value().map(|v| (v[0], v[1])),
        signed: sig.signature().is_some(),
    })
}

/// `HashAlgorithm::new_hasher` of the signature's algorithm: named
/// `hasher_fault`.
#[verifier::external_body]
fn check_hasher(packet: &[u8]) -> (r: Option<String>)
    requires
        header_fault(packet@) is None,
        signature_parts(packet@) is Ok,
        signature_parts(packet@)->Ok_0.configured,
    ensures
        crate::text::opt_text(r) == hasher_fault(packet@),
{
    let mut reader = Cursor::new(packet);
    let header = PacketHeader::try_from_reader(&mut reader).unwrap();
    let sig = Signature::try_from_reader(header, &mut reader).unwrap();
    sig.config().unwrap().hash_alg.new_hasher().err().map(|e| e.to_string())
}

/// `SignatureConfig::hash_data_to_sign` on a fresh hasher: whether it takes the
/// content is named `content_fault`.
#[verifier::external_body]
fn check_content(packet: &[u8], content: &[u8]) -> (r: Option<String>)
    requires
        header_fault(packet@) is None,
        signature_parts(packet@) is Ok,
        signature_parts(packet@)->Ok_0.configured,
        hasher_fault(packet@) is None,
    ensures
        crate::text::opt_text(r) == content_fault(packet@, content@),
{
    let mut reader = Cursor::new(packet);
    let header = PacketHeader::try_from_reader(&mut reader).unwrap();
    let sig = Signature::try_from_reader(header, &mut reader).unwrap();
    let config = sig.config().unwrap();
    let mut hasher = config.hash_alg.new_hasher().unwrap();
    config.hash_data_to_sign(&mut hasher, content).err().map(|e| e.to_string())
}

/// `SignatureConfig::hash_signature_data` on a fresh hasher: the length that it
/// gives is named `hashed_length`. It does not depend on the hasher.
#[verifier::external_body]
fn read_hashed_length(packet: &[u8]) -> (r: Result<usize, String>)
    requires
        header_fault(packet@) is None,
        signature_parts(packet@) is Ok,
        signature_parts(packet@)->Ok_0.configured,
        hasher_fault(packet@) is None,
    ensures
        match r {
            Ok(n) => hashed_length(packet@) == Ok::<usize, Seq<char>>(n),
            Err(e) => hashed_length(packet@) == Err::<usize, Seq<char>>(e@),
        },
{
    let mut reader = Cursor::new(packet);
    let header = PacketHeader::try_from_reader(&mut reader).unwrap();
    let sig = Signature::try_from_reader(header, &mut reader).unwrap();
    let config = sig.config().unwrap();
    let mut hasher = config.hash_alg.new_hasher().unwrap();
    config.hash_signature_data(&mut hasher).map_err(|e| e.to_string())
}

/// `SignatureConfig::trailer`: named `hash_trailer`.
#[verifier::external_body]
fn read_trailer(packet: &[u8], length: usize) -> (r: Result<Vec<u8>, String>)
    requires
        header_fault(packet@) is None,
        signature_parts(packet@) is Ok,
        signature_parts(packet@)->Ok_0.configured,
    ensures
        match r {
            Ok(t) => hash_trailer(packet@, length) == Ok::<Seq<u8>, Seq<char>>(t@),
            Err(e) => hash_trailer(packet@, length) == Err::<Seq<u8>, Seq<char>>(e@),
        },
{
    let mut reader = Cursor::new(packet);
    let header = PacketHeader::try_from_reader(&mut reader).unwrap();
    let sig = Signature::try_from_reader(header, &mut reader).unwrap();
    sig.config().unwrap().trailer(length).map_err(|e| e.to_string())
}

/// `DynDigest::finalize` of a hasher that took the content, the signature's own
/// bytes and `tail`: named `digest_over`. A digest has sixteen bytes or more.
#[verifier::external_body]
fn finish_digest(packet: &[u8], content: &[u8], tail: &[u8]) -> (r: Vec<u8>)
    requires
        header_fault(packet@) is None,
        signature_parts(packet@) is Ok,
        signature_parts(packet@)->Ok_0.configured,
        hasher_fault(packet@) is None,
        content_fault(packet@, content@) is None,
        hashed_length(packet@) is Ok,
    ensures
        r@ == digest_over(packet@, content@, tail@),
        r@.len() >= 16,
{
    let mut reader = Cursor::new(packet);
    let header = PacketHeader::try_from_reader(&mut reader).unwrap();
    let sig = Signature::try_from_reader(header, &mut reader).unwrap();
    let config = sig.config().unwrap();
    let mut hasher = config.hash_alg.new_hasher().unwrap();
    config.hash_data_to_sign(&mut hasher, content).unwrap();
    config.hash_signature_data(&mut hasher).unwrap();
    hasher.update(tail);
    hasher.finalize().to_vec()
}

/// The hash of `content` under the signature's configuration, or the first step
/// that failed.
pub(crate) fn hash_content(packet: &[u8], content: &[u8]) -> (r: Result<Vec<u8>, HashFault>)
    requires
        header_fault(packet@) is None,
        signature_parts(packet@) is Ok,
        signature_parts(packet@)->Ok_0.configured,
    ensures
        match r {
            Ok(h) => signed_hash(packet@, content@) == Ok::<Seq<u8>, HashFaultView>(h@)
                && h@.len() >= 16,
            Err(e) => signed_hash(packet@, content@) == Err::<Seq<u8>, HashFaultView>(e@),
        },
{
    if let Some(e) = check_hasher(packet) {
        return Err(HashFault::Algorithm(e));
    }
    if let Some(e) = check_content(packet, content) {
        return Err(HashFault::Content(e));
    }
    let length = match read_hashed_length(packet) {
        Err(e) => {
            return Err(HashFault::Signature(e));
        },
        Ok(n) => n,
    };
    match read_trailer(packet, length) {
        Err(e) => Err(HashFault::Trailer(e)),
        Ok(tail) => Ok(finish_digest(packet, content, tail.as_slice())),
    }
}

/// `VerifyingKey::verify` of the key over the hash: named `signature_fault`.
#[verifier::external_body]
pub(crate) fn check_signature(key: &[u8], packet: &[u8], hash: &[u8]) -> (r: Option<String>)
    requires
        header_fault(key@) is None,
        public_key_fault(key@) is None,
        header_fault(packet@) is None,
        signature_parts(packet@) is Ok,
        signature_parts(packet@)->Ok_0.configured,
        signature_parts(packet@)->Ok_0.signed,
    ensures
        crate::text::opt_text(r) == signature_fault(key@, packet@, hash@),
{
    let mut k = Cursor::new(key);
    let key_header = PacketHeader::try_from_reader(&mut k).unwrap();
    let key = PublicKey::try_from_reader(key_header, &mut k).unwrap();
    let mut p = Cursor::new(packet);
    let header = PacketHeader::try_from_reader(&mut p).unwrap();
    let sig = Signature::try_from_reader(header, &mut p).unwrap();
    let algorithm = sig.config().unwrap().hash_alg;
    key.verify(algorithm, hash, sig.signature().unwrap()).err().map(|e| e.to_string())
}

} // verus!
