//! Hashing, hex encoding and Ed25519 signatures as the ledger uses them,
//! and canonical JSON content hashes.
use vstd::prelude::*;
use vstd::utf8::encode_utf8;

use ed25519_dalek::{Signer, Verifier};
use sha2::Digest;

use crate::json::{hex_digit, CanonicalJson};
use crate::models::{CommitPayload, UnsignedTransaction};
use crate::text::{is_err_with, owned};

verus! {

/// The SHA-256 digest of a byte string.
pub uninterp spec fn spec_sha256(data: Seq<u8>) -> Seq<u8>;

/// The Ed25519 public key (compressed point) of a 32-byte secret key.
pub uninterp spec fn spec_ed25519_public_key(secret: Seq<u8>) -> Seq<u8>;

/// The Ed25519 signature of a message under a 32-byte secret key.
pub uninterp spec fn spec_ed25519_sign(secret: Seq<u8>, message: Seq<u8>) -> Seq<u8>;

/// What checking a signature of a message under a 32-byte public key gives:
/// `None` when the signature has 64 bytes, the key decompresses to a curve
/// point and the signature equation holds, else the text of the error.
pub uninterp spec fn spec_ed25519_verify_error(public: Seq<u8>, message: Seq<u8>, signature: Seq<u8>) -> Option<
    Seq<char>,
>;

/// Whether a signature verifies for a message under a 32-byte public key.
pub open spec fn spec_ed25519_verify(public: Seq<u8>, message: Seq<u8>, signature: Seq<u8>) -> bool {
    spec_ed25519_verify_error(public, message, signature) is None
}

/// The message of the error that hex decoding gives for text that is not hex.
pub uninterp spec fn spec_hex_decode_error(text: Seq<char>) -> Seq<char>;

/// SHA-256 of `data`.
///
/// Trusted: `sha2::Sha256::digest` returns the 32-byte SHA-256 digest of its input.
#[verifier::external_body]
fn sha256_digest(data: &[u8]) -> (res: Vec<u8>)
    ensures
        res@ == spec_sha256(data@),
        res@.len() == 32,
{
    sha2::Sha256::digest(data).to_vec()
}

/// Lower-case hex text of a byte string: two digits per byte, high nibble first.
pub open spec fn hex_encode_spec(bytes: Seq<u8>) -> Seq<char> {
    Seq::new(
        2 * bytes.len(),
        |i: int|
            if i % 2 == 0 {
                hex_digit((bytes[i / 2] / 16) as nat)
            } else {
                hex_digit((bytes[i / 2] % 16) as nat)
            },
    )
}

/// A hexadecimal digit in either case.
pub open spec fn is_hex_char(c: char) -> bool {
    ('0' <= c && c <= '9') || ('a' <= c && c <= 'f') || ('A' <= c && c <= 'F')
}

/// The value of a hexadecimal digit.
pub open spec fn hex_char_value(c: char) -> nat {
    if '0' <= c && c <= '9' {
        (c as u32 - '0' as u32) as nat
    } else if 'a' <= c && c <= 'f' {
        (c as u32 - 'a' as u32 + 10) as nat
    } else {
        (c as u32 - 'A' as u32 + 10) as nat
    }
}

/// Text that decodes as hex: an even number of hexadecimal digits.
pub open spec fn hex_decodable(s: Seq<char>) -> bool {
    &&& s.len() % 2 == 0
    &&& forall|i: int| 0 <= i < s.len() ==> #[trigger] is_hex_char(s[i])
}

/// The bytes that hex text decodes to.
pub open spec fn hex_decode_spec(s: Seq<char>) -> Seq<u8> {
    Seq::new(
        s.len() / 2,
        |i: int| (hex_char_value(s[2 * i]) * 16 + hex_char_value(s[2 * i + 1])) as u8,
    )
}

/// Each hex digit reads back as its value.
pub proof fn lemma_hex_digit_value(n: nat)
    requires
        n < 16,
    ensures
        is_hex_char(hex_digit(n)),
        hex_char_value(hex_digit(n)) == n,
{
    if n == 0 {} else if n == 1 {} else if n == 2 {} else if n == 3 {} else if n == 4 {}
    else if n == 5 {} else if n == 6 {} else if n == 7 {} else if n == 8 {} else if n == 9 {}
    else if n == 10 {} else if n == 11 {} else if n == 12 {} else if n == 13 {} else if n == 14 {}
    else {}
}

/// Hex text decodes back to the bytes it encodes.
pub proof fn lemma_hex_roundtrip(b: Seq<u8>)
    ensures
        hex_encode_spec(b).len() == 2 * b.len(),
        hex_decodable(hex_encode_spec(b)),
        hex_decode_spec(hex_encode_spec(b)) == b,
{
    let s = hex_encode_spec(b);
    assert forall|i: int| 0 <= i < s.len() implies #[trigger] is_hex_char(s[i]) by {
        lemma_hex_digit_value((b[i / 2] / 16) as nat);
        lemma_hex_digit_value((b[i / 2] % 16) as nat);
    }
    assert forall|i: int| 0 <= i < b.len() implies hex_decode_spec(s)[i] == b[i] by {
        assert((2 * i) / 2 == i);
        assert((2 * i + 1) / 2 == i);
        assert((2 * i) % 2 == 0);
        assert((2 * i + 1) % 2 == 1);
        lemma_hex_digit_value((b[i] / 16) as nat);
        lemma_hex_digit_value((b[i] % 16) as nat);
        assert(s[2 * i] == hex_digit((b[i] / 16) as nat));
        assert(s[2 * i + 1] == hex_digit((b[i] % 16) as nat));
    }
    assert(hex_decode_spec(s) =~= b);
}

/// Lower-case hex encoding of bytes.
///
/// Trusted: `hex::encode` writes each byte as two lower-case hex digits,
/// high nibble first (`HEX_CHARS_LOWER` in the crate's source).
#[verifier::external_body]
fn hex_encode(bytes: &[u8]) -> (res: String)
    ensures
        res@ == hex_encode_spec(bytes@),
{
    hex::encode(bytes)
}

/// Hex decoding of text; a failure is given as its error's message.
///
/// Trusted: `hex::decode` fails on an odd byte length or on a byte that is not a
/// hex digit of either case, and otherwise turns each pair of digits into one byte,
/// high nibble first. For text, that is: it succeeds exactly on an even number of
/// ASCII hex digits. The error, and so its `Display` text, is a function of the
/// text (`spec_hex_decode_error`): "Odd number of digits" for an odd number of
/// bytes, else one naming the first byte that is not a digit and its position.
#[verifier::external_body]
fn hex_decode(text: &str) -> (res: Result<Vec<u8>, String>)
    ensures
        res is Ok <==> hex_decodable(text@),
        res matches Ok(bytes) ==> bytes@ == hex_decode_spec(text@),
        res matches Err(e) ==> e@ == spec_hex_decode_error(text@),
        res matches Err(e) ==> (encode_utf8(text@).len() % 2 == 1 ==> e@ == "Odd number of digits"@),
        encode_utf8(text@).len() % 2 == 1 ==> res is Err,
{
    match hex::decode(text) {
        Ok(bytes) => Ok(bytes),
        Err(error) => Err(error.to_string()),
    }
}

/// The Ed25519 public key of a secret key.
///
/// Trusted: `SigningKey::from_bytes(secret).verifying_key().to_bytes()` is the
/// 32-byte compressed public key, a function of the secret alone.
#[verifier::external_body]
fn ed25519_public_key(secret: &Vec<u8>) -> (res: Vec<u8>)
    requires
        secret@.len() == 32,
    ensures
        res@ == spec_ed25519_public_key(secret@),
        res@.len() == 32,
{
    let secret: [u8; 32] = secret.as_slice().try_into().unwrap();
    ed25519_dalek::SigningKey::from_bytes(&secret).verifying_key().to_bytes().to_vec()
}

/// The Ed25519 signature of a message.
///
/// Trusted: `SigningKey::from_bytes(secret).sign(message).to_bytes()` is the
/// deterministic 64-byte RFC 8032 signature, and a signature made this way
/// verifies under the key's own public key.
#[verifier::external_body]
fn ed25519_sign(secret: &Vec<u8>, message: &[u8]) -> (res: Vec<u8>)
    requires
        secret@.len() == 32,
    ensures
        res@ == spec_ed25519_sign(secret@, message@),
        res@.len() == 64,
        spec_ed25519_verify(spec_ed25519_public_key(secret@), message@, res@),
{
    let secret: [u8; 32] = secret.as_slice().try_into().unwrap();
    ed25519_dalek::SigningKey::from_bytes(&secret).sign(message).to_bytes().to_vec()
}

/// Ed25519 verification of a signature given as bytes; a failure is given as
/// its error's message.
///
/// Trusted: `Signature::from_slice` fails unless the signature has 64 bytes,
/// with the bare "signature error"; `VerifyingKey::from_bytes` fails unless the
/// key decompresses; `verify` fails unless the signature holds. What the three
/// steps give, the error's `Display` text included, is a function of the key,
/// the message and the signature (`spec_ed25519_verify_error`).
#[verifier::external_body]
fn ed25519_verify(public: &Vec<u8>, message: &[u8], signature: &Vec<u8>) -> (res: Result<(), String>)
    requires
        public@.len() == 32,
    ensures
        res is Ok <==> spec_ed25519_verify_error(public@, message@, signature@) is None,
        res matches Err(e) ==> spec_ed25519_verify_error(public@, message@, signature@) == Some(e@),
        res matches Err(e) ==> (signature@.len() != 64 ==> e@ == "signature error"@),
        signature@.len() != 64 ==> res is Err,
{
    let public: [u8; 32] = public.as_slice().try_into().unwrap();
    let signature = match ed25519_dalek::Signature::from_slice(signature) {
        Ok(signature) => signature,
        Err(error) => return Err(error.to_string()),
    };
    let key = match ed25519_dalek::VerifyingKey::from_bytes(&public) {
        Ok(key) => key,
        Err(error) => return Err(error.to_string()),
    };
    match key.verify(message, &signature) {
        Ok(()) => Ok(()),
        Err(error) => Err(error.to_string()),
    }
}

/// The current time in milliseconds since the Unix epoch.
///
/// Trusted: reads the system clock; nothing is stated of the value.
#[verifier::external_body]
pub fn now_millis() -> u64 {
    std::time::SystemTime::now().duration_since(std::time::UNIX_EPOCH).unwrap_or_default().as_millis() as u64
}

/// Lower-case hex of the SHA-256 digest of the UTF-8 bytes of `s`.
pub open spec fn spec_sha256_hex(s: Seq<char>) -> Seq<char> {
    hex_encode_spec(spec_sha256(encode_utf8(s)))
}

/// The SHA-256 digest of `content`'s UTF-8 bytes, as lower-case hex.
pub fn sha256_hex(content: &str) -> (res: String)
    ensures
        res@ == spec_sha256_hex(content@),
{
    let digest = sha256_digest(content.as_bytes());
    hex_encode(digest.as_slice())
}

/// The SHA-256 digest of `content`.
pub fn sha256_bytes(content: &[u8]) -> (res: Vec<u8>)
    ensures
        res@ == spec_sha256(content@),
        res@.len() == 32,
{
    sha256_digest(content)
}

/// The canonical JSON text of a record. Serialising these records cannot fail.
pub fn canonical_json<T: CanonicalJson + ?Sized>(value: &T) -> (res: Result<String, String>)
    ensures
        res matches Ok(text) && text@ == value.json_spec(),
{
    let mut out = String::new();
    value.write_json(&mut out);
    Ok(out)
}

/// The SHA-256 hex digest of a record's canonical JSON text.
pub fn hash_json<T: CanonicalJson + ?Sized>(value: &T) -> (res: Result<String, String>)
    ensures
        res matches Ok(hash) && hash@ == spec_sha256_hex(value.json_spec()),
{
    let mut out = String::new();
    value.write_json(&mut out);
    Ok(sha256_hex(&out))
}

/// The id of a round-ordered ledger entry: the hash of its content.
pub open spec fn spec_entry_id(unsigned: UnsignedTransaction) -> Seq<char> {
    spec_sha256_hex(unsigned.json_spec())
}

/// The hash of a commit payload, which becomes the ledger hash after it.
pub open spec fn spec_commit_hash(payload: CommitPayload) -> Seq<char> {
    spec_sha256_hex(payload.json_spec())
}

/// The content id of a round-ordered ledger entry.
pub fn transaction_id(unsigned: &UnsignedTransaction) -> (res: Result<String, String>)
    ensures
        res matches Ok(id) && id@ == spec_entry_id(*unsigned),
{
    hash_json(unsigned)
}

/// The hash of a commit payload.
pub fn commit_hash(payload: &CommitPayload) -> (res: Result<String, String>)
    ensures
        res matches Ok(hash) && hash@ == spec_commit_hash(*payload),
{
    hash_json(payload)
}

/// Hex text of exactly 32 bytes, the form of Ed25519 keys.
pub open spec fn is_key_hex(s: Seq<char>) -> bool {
    hex_decodable(s) && hex_decode_spec(s).len() == 32
}

/// The message for text that is not the hex of a 32-byte value.
pub open spec fn key_hex_error(s: Seq<char>) -> Seq<char> {
    if hex_decodable(s) {
        "expected 32-byte hex value"@
    } else {
        spec_hex_decode_error(s)
    }
}

/// Decodes hex text of a 32-byte value.
fn decode_32(hex_value: &str) -> (res: Result<Vec<u8>, String>)
    ensures
        res is Ok <==> is_key_hex(hex_value@),
        res matches Ok(bytes) ==> bytes@ == hex_decode_spec(hex_value@) && bytes@.len() == 32,
        res matches Err(e) ==> e@ == key_hex_error(hex_value@),
{
    match hex_decode(hex_value) {
        Ok(bytes) => {
            if bytes.len() == 32 {
                Ok(bytes)
            } else {
                Err(owned("expected 32-byte hex value"))
            }
        },
        Err(error) => Err(error),
    }
}

/// The hex signature text that `sign_hex` produces.
pub open spec fn spec_sign_hex(secret_key: Seq<char>, message: Seq<char>) -> Seq<char> {
    hex_encode_spec(spec_ed25519_sign(hex_decode_spec(secret_key), encode_utf8(message)))
}

/// The hex public key text that `public_key_for_secret` produces.
pub open spec fn spec_public_key_hex(secret_key: Seq<char>) -> Seq<char> {
    hex_encode_spec(spec_ed25519_public_key(hex_decode_spec(secret_key)))
}

/// Whether the hex signature decodes to 64 bytes that verify for the message's
/// UTF-8 bytes under the decoded public key.
pub open spec fn signature_holds(public_key: Seq<char>, message: Seq<char>, signature: Seq<char>) -> bool {
    &&& hex_decodable(signature)
    &&& hex_decode_spec(signature).len() == 64
    &&& spec_ed25519_verify(hex_decode_spec(public_key), encode_utf8(message), hex_decode_spec(signature))
}

/// Whether `verify_hex` accepts: both values decode, the key has 32 bytes and
/// the decoded signature verifies for the message's UTF-8 bytes.
pub open spec fn spec_verify_hex(public_key: Seq<char>, message: Seq<char>, signature: Seq<char>) -> bool {
    &&& is_key_hex(public_key)
    &&& signature_holds(public_key, message, signature)
}

/// What `verify_hex` refuses with, if anything: a key that is not 32-byte hex,
/// a signature that is not hex, or the Ed25519 check's error.
pub open spec fn verify_hex_error(public_key: Seq<char>, message: Seq<char>, signature: Seq<char>) -> Option<Seq<char>> {
    if !is_key_hex(public_key) {
        Some(key_hex_error(public_key))
    } else if !hex_decodable(signature) {
        Some(spec_hex_decode_error(signature))
    } else {
        spec_ed25519_verify_error(hex_decode_spec(public_key), encode_utf8(message), hex_decode_spec(signature))
    }
}

/// Signs the UTF-8 bytes of `message` with the hex secret key; returns the
/// signature as lower-case hex.
pub fn sign_hex(secret_key: &str, message: &str) -> (res: Result<String, String>)
    ensures
        res is Ok <==> is_key_hex(secret_key@),
        res matches Ok(signature) ==> signature@ == spec_sign_hex(secret_key@, message@),
        res matches Ok(signature) ==> signature_holds(spec_public_key_hex(secret_key@), message@, signature@),
        res matches Err(e) ==> e@ == key_hex_error(secret_key@),
{
    let secret = decode_32(secret_key)?;
    let signature = ed25519_sign(&secret, message.as_bytes());
    proof {
        lemma_hex_roundtrip(signature@);
        lemma_hex_roundtrip(spec_ed25519_public_key(secret@));
    }
    Ok(hex_encode(signature.as_slice()))
}

/// Verifies a hex signature of the UTF-8 bytes of `message` under a hex public key.
pub fn verify_hex(public_key: &str, message: &str, signature: &str) -> (res: Result<(), String>)
    ensures
        res is Ok <==> spec_verify_hex(public_key@, message@, signature@),
        res is Ok <==> verify_hex_error(public_key@, message@, signature@) is None,
        res matches Err(e) ==> verify_hex_error(public_key@, message@, signature@) == Some(e@),
{
    let public = decode_32(public_key)?;
    let signature_bytes = hex_decode(signature)?;
    ed25519_verify(&public, message.as_bytes(), &signature_bytes)
}

/// The hex public key of a hex secret key.
pub fn public_key_for_secret(secret_key: &str) -> (res: Result<String, String>)
    ensures
        res is Ok <==> is_key_hex(secret_key@),
        res matches Ok(public) ==> public@ == spec_public_key_hex(secret_key@),
        res matches Ok(public) ==> is_key_hex(public@),
        res matches Err(e) ==> e@ == key_hex_error(secret_key@),
{
    let secret = decode_32(secret_key)?;
    let public = ed25519_public_key(&secret);
    proof {
        lemma_hex_roundtrip(public@);
    }
    Ok(hex_encode(public.as_slice()))
}

/// A secret-key seed derived from some material: the SHA-256 hex digest of it.
pub fn seed_from_material(material: &str) -> (res: String)
    ensures
        res@ == spec_sha256_hex(material@),
{
    let digest = sha256_bytes(material.as_bytes());
    hex_encode(digest.as_slice())
}

/// The first eight characters of a hash (all of it when shorter).
pub fn short_hash(hash: &str) -> (res: String)
    ensures
        res@ == hash@.take(if hash@.len() < 8 { hash@.len() as int } else { 8 }),
{
    let mut res = String::new();
    let mut taken: usize = 0;
    let ghost mut k: int = 0;
    for c in it: hash.chars()
        invariant
            k == it.index(),
            it.seq() == hash@,
            taken as int == if k < 8 { k } else { 8 },
            res@ == hash@.take(taken as int),
    {
        if taken < 8 {
            assert(hash@.take(k + 1) == hash@.take(k).push(c));
            crate::text::string_push(&mut res, c);
            taken = taken + 1;
        }
        proof { k = k + 1; }
    }
    res
}

} // verus!
