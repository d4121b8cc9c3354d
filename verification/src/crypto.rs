//! Keys, signatures and hashes.
use crate::receipt::{InferenceReceipt, ReceiptView};
use crate::text::{decimal_text, join};
use crate::wire::{append_le, append_str};
use ed25519_dalek::{Signer, Verifier};
use rand::RngCore;
use sha2::Digest;
use vstd::prelude::*;
use vstd::utf8::encode_utf8;

verus! {

// ---------------------------------------------------------------------------
// Hexadecimal text
// ---------------------------------------------------------------------------

/// The hexadecimal digit of `n`, for `0 <= n <= 15`, in lower case.
pub open spec fn hex_digit(n: int) -> char {
    if n < 10 {
        (n + '0' as int) as char
    } else {
        (n - 10 + 'a' as int) as char
    }
}

/// What a hexadecimal digit stands for, in either case.
pub open spec fn hex_value(c: char) -> Option<int> {
    if '0' <= c <= '9' {
        Some(c as int - '0' as int)
    } else if 'a' <= c <= 'f' {
        Some(c as int - 'a' as int + 10)
    } else if 'A' <= c <= 'F' {
        Some(c as int - 'A' as int + 10)
    } else {
        None
    }
}

/// Two lower-case digits for each byte, the high one first.
pub open spec fn hex_text(bytes: Seq<u8>) -> Seq<char> {
    Seq::new(
        2 * bytes.len(),
        |i: int|
            if i % 2 == 0 {
                hex_digit(bytes[i / 2] as int / 16)
            } else {
                hex_digit(bytes[i / 2] as int % 16)
            },
    )
}

/// The bytes that pairs of hexadecimal digits stand for.
pub open spec fn hex_bytes(s: Seq<char>) -> Option<Seq<u8>> {
    if s.len() % 2 == 0 && forall|i: int| 0 <= i < s.len() ==> (#[trigger] hex_value(s[i])) is Some {
        Some(
            Seq::new(
                s.len() / 2,
                |i: int|
                    (hex_value(s[2 * i])->Some_0 * 16 + hex_value(s[2 * i + 1])->Some_0) as u8,
            ),
        )
    } else {
        None
    }
}

/// The words of the `hex` crate for a text that is not hexadecimal.
pub uninterp spec fn hex_error_text(s: Seq<char>) -> Seq<char>;

/// `hex::encode` writes two lower-case digits for each byte.
#[verifier::external_body]
fn hex_encode(data: &[u8]) -> (r: String)
    ensures
        r@ == hex_text(data@),
{
    hex::encode(data)
}

/// `hex::decode` reads an even number of hexadecimal digits of either case, and refuses any
/// other text with words that depend on that text alone.
#[verifier::external_body]
pub(crate) fn hex_decode(s: &str) -> (r: Result<Vec<u8>, String>)
    ensures
        match r {
            Ok(bytes) => hex_bytes(s@) == Some(bytes@),
            Err(words) => hex_bytes(s@) is None && words@ == hex_error_text(s@),
        },
{
    hex::decode(s).map_err(|e| e.to_string())
}

/// Reading what was written in hexadecimal gives the bytes back.
pub proof fn law_hex_reads_back(bytes: Seq<u8>)
    ensures
        hex_bytes(hex_text(bytes)) == Some(bytes),
{
    let s = hex_text(bytes);
    assert forall|i: int| 0 <= i < s.len() implies (#[trigger] hex_value(s[i])) is Some by {}
    let back = hex_bytes(s)->Some_0;
    assert(back.len() == bytes.len());
    assert forall|i: int| 0 <= i < bytes.len() implies back[i] == bytes[i] by {
        assert((2 * i) / 2 == i && (2 * i) % 2 == 0);
        assert((2 * i + 1) / 2 == i && (2 * i + 1) % 2 == 1);
        assert(s[2 * i] == hex_digit(bytes[i] as int / 16));
        assert(s[2 * i + 1] == hex_digit(bytes[i] as int % 16));
    }
    assert(back == bytes);
}

// ---------------------------------------------------------------------------
// Ed25519
// ---------------------------------------------------------------------------

/// The public key of a secret key.
pub uninterp spec fn ed25519_public(secret: Seq<u8>) -> Seq<u8>;

/// The signature that a secret key makes of a message.
pub uninterp spec fn ed25519_signature(secret: Seq<u8>, message: Seq<u8>) -> Seq<u8>;

/// Whether 32 bytes are a public key.
pub uninterp spec fn ed25519_is_key(bytes: Seq<u8>) -> bool;

/// The words of `ed25519_dalek` for bytes that are no public key.
pub open spec fn ed25519_key_error() -> Seq<char> {
    "signature error: Cannot decompress Edwards point"@
}

/// Whether a public key accepts a signature of a message.
pub uninterp spec fn ed25519_accepts(key: Seq<u8>, message: Seq<u8>, signature: Seq<u8>) -> bool;

/// `SigningKey::from_bytes` and `verifying_key` derive the public key, which is a valid one.
#[verifier::external_body]
fn ed25519_derive(secret: &[u8; 32]) -> (r: [u8; 32])
    ensures
        r@ == ed25519_public(secret@),
        ed25519_is_key(r@),
{
    ed25519_dalek::SigningKey::from_bytes(secret).verifying_key().to_bytes()
}

/// `VerifyingKey::from_bytes` accepts the encodings of points of the curve and refuses other
/// bytes, always with the same words.
#[verifier::external_body]
pub(crate) fn ed25519_check_key(bytes: &[u8; 32]) -> (r: Result<(), String>)
    ensures
        match r {
            Ok(_) => ed25519_is_key(bytes@),
            Err(words) => !ed25519_is_key(bytes@) && words@ == ed25519_key_error(),
        },
{
    ed25519_dalek::VerifyingKey::from_bytes(bytes).map(|_| ()).map_err(|e| e.to_string())
}

/// `SigningKey::sign` makes a signature that the key's own public key accepts.
#[verifier::external_body]
fn ed25519_sign(secret: &[u8; 32], message: &[u8]) -> (r: [u8; 64])
    ensures
        r@ == ed25519_signature(secret@, message@),
        ed25519_accepts(ed25519_public(secret@), message@, r@),
{
    ed25519_dalek::SigningKey::from_bytes(secret).sign(message).to_bytes()
}

/// `VerifyingKey::verify` decides whether a key accepts a signature of a message. Bytes that are
/// no key accept none.
#[verifier::external_body]
fn ed25519_verify(key: &[u8; 32], message: &[u8], signature: &[u8; 64]) -> (r: bool)
    ensures
        r == ed25519_accepts(key@, message@, signature@),
        r ==> ed25519_is_key(key@),
{
    match ed25519_dalek::VerifyingKey::from_bytes(key) {
        Ok(k) => k.verify(message, &ed25519_dalek::Signature::from_bytes(signature)).is_ok(),
        Err(_) => false,
    }
}

/// `OsRng::fill_bytes` draws bytes from the operating system; nothing is promised of them.
#[verifier::external_body]
fn random_secret() -> (r: [u8; 32]) {
    let mut bytes = [0u8; 32];
    rand::rngs::OsRng.fill_bytes(&mut bytes);
    bytes
}

/// A secret key.
#[derive(Clone, Copy)]
pub struct SigningKey {
    secret: [u8; 32],
}

impl View for SigningKey {
    type V = Seq<u8>;

    closed spec fn view(&self) -> Seq<u8> {
        self.secret@
    }
}

impl SigningKey {
    /// The secret key made of the given bytes.
    pub fn from_bytes(secret: &[u8; 32]) -> (r: SigningKey)
        ensures
            r@ == secret@,
    {
        SigningKey { secret: *secret }
    }

    /// The bytes of the secret key.
    pub fn to_bytes(&self) -> (r: [u8; 32])
        ensures
            r@ == self@,
    {
        self.secret
    }

    /// The public key that belongs to the secret key.
    pub fn verifying_key(&self) -> (r: VerifyingKey)
        ensures
            r@ == ed25519_public(self@),
            r.valid(),
    {
        VerifyingKey { bytes: ed25519_derive(&self.secret) }
    }
}

/// A public key.
#[derive(Debug, Clone, Copy, PartialEq, Eq)]
pub struct VerifyingKey {
    bytes: [u8; 32],
}

impl View for VerifyingKey {
    type V = Seq<u8>;

    closed spec fn view(&self) -> Seq<u8> {
        self.bytes@
    }
}

impl VerifyingKey {
    /// Whether the bytes are those of a public key.
    pub open spec fn valid(self) -> bool {
        self@.len() == 32 && ed25519_is_key(self@)
    }

    /// The bytes of the public key.
    pub fn to_bytes(&self) -> (r: [u8; 32])
        ensures
            r@ == self@,
    {
        self.bytes
    }
}

pub(crate) fn array_32(bytes: &Vec<u8>) -> (r: [u8; 32])
    requires
        bytes@.len() == 32,
    ensures
        r@ == bytes@,
{
    let mut a: [u8; 32] = [0u8; 32];
    let mut i: usize = 0;
    while i < 32
        invariant
            i <= 32,
            bytes@.len() == 32,
            forall|j: int| 0 <= j < i ==> a@[j] == bytes@[j],
        decreases 32 - i,
    {
        a[i] = bytes[i];
        i += 1;
    }
    assert(a@ == bytes@);
    a
}

fn array_64(bytes: &Vec<u8>) -> (r: [u8; 64])
    requires
        bytes@.len() == 64,
    ensures
        r@ == bytes@,
{
    let mut a: [u8; 64] = [0u8; 64];
    let mut i: usize = 0;
    while i < 64
        invariant
            i <= 64,
            bytes@.len() == 64,
            forall|j: int| 0 <= j < i ==> a@[j] == bytes@[j],
        decreases 64 - i,
    {
        a[i] = bytes[i];
        i += 1;
    }
    assert(a@ == bytes@);
    a
}

/// Whether a secret is one that was drawn at random.
pub closed spec fn is_drawn_secret(secret: [u8; 32]) -> bool {
    call_ensures(random_secret, (), secret)
}

/// Nothing but what was drawn is a drawn secret.
proof fn law_drawn_secrets_come_from_the_draw(secret: [u8; 32])
    ensures
        is_drawn_secret(secret) <==> call_ensures(random_secret, (), secret),
{
}

/// A fresh pair of keys.
pub fn generate_keypair() -> (r: (SigningKey, VerifyingKey))
    ensures
        exists|secret: [u8; 32]| #[trigger] is_drawn_secret(secret) && r.0@ == secret@,
        r.1@ == ed25519_public(r.0@),
        r.1.valid(),
{
    let secret = random_secret();
    assert(is_drawn_secret(secret));
    let signing_key = SigningKey::from_bytes(&secret);
    let verifying_key = signing_key.verifying_key();
    (signing_key, verifying_key)
}

/// A public key in hexadecimal.
pub fn pubkey_to_hex(verifying_key: &VerifyingKey) -> (r: String)
    ensures
        r@ == hex_text(verifying_key@),
{
    hex_encode(verifying_key.to_bytes().as_slice())
}

/// What a hexadecimal text gives as a public key, or the words of the refusal.
pub open spec fn pubkey_of_hex(s: Seq<char>) -> Result<Seq<u8>, Seq<char>> {
    match hex_bytes(s) {
        None => Err("Invalid hex: "@ + hex_error_text(s)),
        Some(bytes) => pubkey_of_bytes(bytes),
    }
}

/// What bytes give as a public key, or the words of the refusal.
pub open spec fn pubkey_of_bytes(bytes: Seq<u8>) -> Result<Seq<u8>, Seq<char>> {
    if bytes.len() != 32 {
        Err(
            "Invalid public key length: "@ + crate::text::decimal(bytes.len()) + " (expected 32)"@,
        )
    } else if !ed25519_is_key(bytes) {
        Err("Invalid public key: "@ + ed25519_key_error())
    } else {
        Ok(bytes)
    }
}

/// The public key made of the given bytes.
pub fn pubkey_from_bytes(bytes: &Vec<u8>) -> (r: Result<VerifyingKey, String>)
    ensures
        match r {
            Ok(key) => key.valid() && pubkey_of_bytes(bytes@) == Ok::<Seq<u8>, Seq<char>>(key@),
            Err(words) => pubkey_of_bytes(bytes@) == Err::<Seq<u8>, Seq<char>>(words@),
        },
{
    if bytes.len() != 32 {
        let mut words = join("Invalid public key length: ", &decimal_text(bytes.len() as u64));
        words.append(" (expected 32)");
        return Err(words);
    }
    let array = array_32(bytes);
    match ed25519_check_key(&array) {
        Ok(_) => Ok(VerifyingKey { bytes: array }),
        Err(e) => Err(join("Invalid public key: ", &e)),
    }
}

/// Read a public key in hexadecimal.
pub fn hex_to_pubkey(hex_str: &str) -> (r: Result<VerifyingKey, String>)
    ensures
        match r {
            Ok(key) => key.valid() && pubkey_of_hex(hex_str@) == Ok::<Seq<u8>, Seq<char>>(key@),
            Err(words) => pubkey_of_hex(hex_str@) == Err::<Seq<u8>, Seq<char>>(words@),
        },
{
    match hex_decode(hex_str) {
        Ok(bytes) => pubkey_from_bytes(&bytes),
        Err(e) => Err(join("Invalid hex: ", &e)),
    }
}

/// Reading the hexadecimal text of a public key gives the key back.
pub proof fn law_pubkey_hex_round_trip(key: VerifyingKey)
    requires
        key.valid(),
    ensures
        pubkey_of_hex(hex_text(key@)) == Ok::<Seq<u8>, Seq<char>>(key@),
{
    law_hex_reads_back(key@);
}

/// The words for a key file of the wrong length.
pub open spec fn corrupted_key_text(path: Seq<char>, len: nat) -> Seq<char> {
    "Corrupted key file '"@ + path + "': expected 32 bytes, got "@ + crate::text::decimal(len)
}

/// The pair of keys of the key file at `path`, and the bytes to store there, if any. `stored` is
/// what the file holds, or nothing where there is no such file; then the pair is a fresh one.
pub fn load_or_generate_keypair(path: &str, stored: Option<Vec<u8>>) -> (r: Result<
    (SigningKey, VerifyingKey, Option<Vec<u8>>),
    String,
>)
    ensures
        match (stored, r) {
            (Some(bytes), Ok((signing, verifying, to_store))) => {
                &&& bytes@.len() == 32
                &&& signing@ == bytes@
                &&& verifying@ == ed25519_public(bytes@)
                &&& verifying.valid()
                &&& to_store is None
            },
            (Some(bytes), Err(words)) => {
                &&& bytes@.len() != 32
                &&& words@ == corrupted_key_text(path@, bytes@.len())
            },
            (None, Ok((signing, verifying, to_store))) => {
                &&& exists|secret: [u8; 32]| #[trigger]
                    is_drawn_secret(secret) && signing@ == secret@
                &&& verifying@ == ed25519_public(signing@)
                &&& verifying.valid()
                &&& to_store is Some
                &&& to_store->Some_0@ == signing@
                &&& signing@.len() == 32
            },
            (None, Err(_)) => false,
        },
{
    match stored {
        Some(bytes) => {
            if bytes.len() != 32 {
                let mut words = join("Corrupted key file '", path);
                words.append("': expected 32 bytes, got ");
                words.append(&decimal_text(bytes.len() as u64));
                return Err(words);
            }
            let signing_key = SigningKey::from_bytes(&array_32(&bytes));
            let verifying_key = signing_key.verifying_key();
            Ok((signing_key, verifying_key, None))
        },
        None => {
            let (signing_key, verifying_key) = generate_keypair();
            let secret = signing_key.to_bytes();
            let mut bytes: Vec<u8> = Vec::new();
            crate::wire::append_bytes(&mut bytes, secret.as_slice());
            assert(bytes@ == secret@);
            Ok((signing_key, verifying_key, Some(bytes)))
        },
    }
}

/// Sign a message; the signature in hexadecimal.
pub fn sign_bytes(signing_key: &SigningKey, message: &[u8]) -> (r: String)
    ensures
        r@ == hex_text(ed25519_signature(signing_key@, message@)),
        signature_valid(hex_text(ed25519_public(signing_key@)), message@, r@),
{
    let key = signing_key.verifying_key();
    let signature = ed25519_sign(&signing_key.to_bytes(), message);
    proof {
        law_hex_reads_back(signature@);
        law_hex_reads_back(key@);
    }
    hex_encode(signature.as_slice())
}

/// Whether a signature in hexadecimal is one that the public key in hexadecimal accepts.
pub open spec fn signature_valid(
    pubkey_hex: Seq<char>,
    message: Seq<u8>,
    signature_hex: Seq<char>,
) -> bool {
    match (hex_bytes(pubkey_hex), hex_bytes(signature_hex)) {
        (Some(key), Some(signature)) => key.len() == 32 && ed25519_is_key(key) && signature.len()
            == 64 && ed25519_accepts(key, message, signature),
        _ => false,
    }
}

/// Verify a signature of a message. Malformed keys and signatures verify nothing.
pub fn verify_signature(pubkey_hex: &str, message: &[u8], signature_hex: &str) -> (r: bool)
    ensures
        r == signature_valid(pubkey_hex@, message@, signature_hex@),
{
    let verifying_key = match hex_to_pubkey(pubkey_hex) {
        Ok(k) => k,
        Err(_) => return false,
    };
    let sig_bytes = match hex_decode(signature_hex) {
        Ok(b) => b,
        Err(_) => return false,
    };
    if sig_bytes.len() != 64 {
        return false;
    }
    ed25519_verify(&verifying_key.to_bytes(), message, &array_64(&sig_bytes))
}

// ---------------------------------------------------------------------------
// SHA-256
// ---------------------------------------------------------------------------

/// The SHA-256 digest of bytes.
pub uninterp spec fn sha256_digest(data: Seq<u8>) -> Seq<u8>;

/// `Sha256::digest` computes the digest of bytes, 32 bytes long.
#[verifier::external_body]
fn sha256(data: &[u8]) -> (r: [u8; 32])
    ensures
        r@ == sha256_digest(data@),
{
    let mut hasher = sha2::Sha256::new();
    hasher.update(data);
    hasher.finalize().into()
}

/// The SHA-256 digest of a text, in hexadecimal.
pub fn sha256_hash(data: &str) -> (r: String)
    ensures
        r@ == hex_text(sha256_digest(encode_utf8(data@))),
        r@.len() == 64,
{
    hex_encode(sha256(data.as_bytes()).as_slice())
}

// ---------------------------------------------------------------------------
// Receipts
// ---------------------------------------------------------------------------

/// The bytes of a receipt that are signed: every field but the signatures, texts with their
/// length in front and numbers in little-endian order.
pub open spec fn signed_message(r: ReceiptView) -> Seq<u8> {
    crate::wire::text_field(r.receipt_id) + (crate::wire::text_field(r.client_pubkey) + (
    crate::wire::text_field(r.node_pubkey) + (crate::wire::text_field(r.query_hash)
        + signed_numbers(r))))
}

/// The numbers of a receipt that are signed.
pub open spec fn signed_numbers(r: ReceiptView) -> Seq<u8> {
    crate::wire::le_bytes(r.tokens_generated as nat, 8) + (crate::wire::le_bytes(r.tps as nat, 8)
        + (crate::wire::le_bytes(r.network_median_tps as nat, 8) + (crate::wire::le_bytes(
        r.tqw_nano as nat,
        8,
    ) + (crate::wire::le_bytes(r.amount_nano as nat, 8) + crate::wire::le_bytes(
        r.timestamp as nat,
        8,
    )))))
}

/// The bytes of a receipt that are signed.
pub fn get_receipt_signing_bytes(receipt: &InferenceReceipt) -> (r: Vec<u8>)
    ensures
        r@ == signed_message(receipt@),
{
    let mut bytes: Vec<u8> = Vec::with_capacity(256);
    append_str(&mut bytes, &receipt.receipt_id);
    append_str(&mut bytes, &receipt.client_pubkey);
    append_str(&mut bytes, &receipt.node_pubkey);
    append_str(&mut bytes, &receipt.query_hash);
    append_le(&mut bytes, receipt.tokens_generated as u64, 8);
    append_le(&mut bytes, receipt.tps, 8);
    append_le(&mut bytes, receipt.network_median_tps, 8);
    append_le(&mut bytes, receipt.tqw_nano, 8);
    append_le(&mut bytes, receipt.amount_nano, 8);
    append_le(&mut bytes, receipt.timestamp, 8);
    assert(bytes@ == signed_message(receipt@));
    bytes
}

/// Whether the node's signature on a receipt is valid.
pub open spec fn node_signature_valid(r: ReceiptView) -> bool {
    match r.node_signature {
        Some(s) => signature_valid(r.node_pubkey, signed_message(r), s),
        None => false,
    }
}

/// Whether the client's signature on a receipt is valid.
pub open spec fn client_signature_valid(r: ReceiptView) -> bool {
    match r.client_signature {
        Some(s) => signature_valid(r.client_pubkey, signed_message(r), s),
        None => false,
    }
}

/// Whether both signatures on a receipt are valid.
pub open spec fn signatures_valid(r: ReceiptView) -> bool {
    node_signature_valid(r) && client_signature_valid(r)
}

/// A receipt with the node's signature set.
pub open spec fn with_node_signature(r: ReceiptView, signature: Seq<char>) -> ReceiptView {
    ReceiptView { node_signature: Some(signature), ..r }
}

/// A receipt with the client's signature set.
pub open spec fn with_client_signature(r: ReceiptView, signature: Seq<char>) -> ReceiptView {
    ReceiptView { client_signature: Some(signature), ..r }
}

/// Sign a receipt as the node. The signature is valid where the key is the one that the receipt
/// names.
pub fn sign_receipt_as_node(signing_key: &SigningKey, receipt: &mut InferenceReceipt)
    ensures
        final(receipt)@ == with_node_signature(
            old(receipt)@,
            hex_text(ed25519_signature(signing_key@, signed_message(old(receipt)@))),
        ),
        old(receipt)@.node_pubkey == hex_text(ed25519_public(signing_key@))
            ==> node_signature_valid(final(receipt)@),
{
    let msg = get_receipt_signing_bytes(receipt);
    let sig = sign_bytes(signing_key, msg.as_slice());
    receipt.node_signature = Some(sig);
}

/// Sign a receipt as the client. The signature is valid where the key is the one that the
/// receipt names.
pub fn sign_receipt_as_client(signing_key: &SigningKey, receipt: &mut InferenceReceipt)
    ensures
        final(receipt)@ == with_client_signature(
            old(receipt)@,
            hex_text(ed25519_signature(signing_key@, signed_message(old(receipt)@))),
        ),
        old(receipt)@.client_pubkey == hex_text(ed25519_public(signing_key@))
            ==> client_signature_valid(final(receipt)@),
{
    let msg = get_receipt_signing_bytes(receipt);
    let sig = sign_bytes(signing_key, msg.as_slice());
    receipt.client_signature = Some(sig);
}

/// Verify both signatures of a receipt.
pub fn verify_receipt_signatures(receipt: &InferenceReceipt) -> (r: bool)
    ensures
        r == signatures_valid(receipt@),
{
    let msg = get_receipt_signing_bytes(receipt);
    let node_ok = match &receipt.node_signature {
        Some(sig) => verify_signature(&receipt.node_pubkey, msg.as_slice(), sig),
        None => false,
    };
    let client_ok = match &receipt.client_signature {
        Some(sig) => verify_signature(&receipt.client_pubkey, msg.as_slice(), sig),
        None => false,
    };
    node_ok && client_ok
}

/// Setting one party's signature leaves the validity of the other's as it is: the order of
/// signing does not matter, and a receipt that both have signed verifies.
pub proof fn law_signing_keeps_other_signature(r: ReceiptView, signature: Seq<char>)
    ensures
        signed_message(with_node_signature(r, signature)) == signed_message(r),
        signed_message(with_client_signature(r, signature)) == signed_message(r),
        client_signature_valid(with_node_signature(r, signature)) == client_signature_valid(r),
        node_signature_valid(with_client_signature(r, signature)) == node_signature_valid(r),
{
}

/// Two receipts with the same signed bytes agree in every signed field: no field can be altered
/// without altering what was signed. Texts are taken to be no longer than their length field
/// can say.
pub proof fn law_signed_bytes_bind_fields(a: ReceiptView, b: ReceiptView)
    requires
        crate::wire::fits_field(a.receipt_id),
        crate::wire::fits_field(a.client_pubkey),
        crate::wire::fits_field(a.node_pubkey),
        crate::wire::fits_field(a.query_hash),
        crate::wire::fits_field(b.receipt_id),
        crate::wire::fits_field(b.client_pubkey),
        crate::wire::fits_field(b.node_pubkey),
        crate::wire::fits_field(b.query_hash),
        signed_message(a) == signed_message(b),
    ensures
        a.receipt_id == b.receipt_id,
        a.client_pubkey == b.client_pubkey,
        a.node_pubkey == b.node_pubkey,
        a.query_hash == b.query_hash,
        a.tokens_generated == b.tokens_generated,
        a.tps == b.tps,
        a.network_median_tps == b.network_median_tps,
        a.tqw_nano == b.tqw_nano,
        a.amount_nano == b.amount_nano,
        a.timestamp == b.timestamp,
{
    let n1 = signed_numbers(a);
    let n2 = signed_numbers(b);
    let q1 = crate::wire::text_field(a.query_hash) + n1;
    let q2 = crate::wire::text_field(b.query_hash) + n2;
    let p1 = crate::wire::text_field(a.node_pubkey) + q1;
    let p2 = crate::wire::text_field(b.node_pubkey) + q2;
    let c1 = crate::wire::text_field(a.client_pubkey) + p1;
    let c2 = crate::wire::text_field(b.client_pubkey) + p2;
    crate::wire::lemma_text_field_prefix(a.receipt_id, b.receipt_id, c1, c2);
    crate::wire::lemma_text_field_prefix(a.client_pubkey, b.client_pubkey, p1, p2);
    crate::wire::lemma_text_field_prefix(a.node_pubkey, b.node_pubkey, q1, q2);
    crate::wire::lemma_text_field_prefix(a.query_hash, b.query_hash, n1, n2);
    let e1 = crate::wire::le_bytes(a.timestamp as nat, 8);
    let e2 = crate::wire::le_bytes(b.timestamp as nat, 8);
    let d1 = crate::wire::le_bytes(a.amount_nano as nat, 8) + e1;
    let d2 = crate::wire::le_bytes(b.amount_nano as nat, 8) + e2;
    let w1 = crate::wire::le_bytes(a.tqw_nano as nat, 8) + d1;
    let w2 = crate::wire::le_bytes(b.tqw_nano as nat, 8) + d2;
    let m1 = crate::wire::le_bytes(a.network_median_tps as nat, 8) + w1;
    let m2 = crate::wire::le_bytes(b.network_median_tps as nat, 8) + w2;
    let t1 = crate::wire::le_bytes(a.tps as nat, 8) + m1;
    let t2 = crate::wire::le_bytes(b.tps as nat, 8) + m2;
    crate::wire::lemma_u64_prefix(a.tokens_generated as u64, b.tokens_generated as u64, t1, t2);
    crate::wire::lemma_u64_prefix(a.tps, b.tps, m1, m2);
    crate::wire::lemma_u64_prefix(a.network_median_tps, b.network_median_tps, w1, w2);
    crate::wire::lemma_u64_prefix(a.tqw_nano, b.tqw_nano, d1, d2);
    crate::wire::lemma_u64_prefix(a.amount_nano, b.amount_nano, e1, e2);
    assert(e1 + Seq::<u8>::empty() == e2 + Seq::<u8>::empty());
    crate::wire::lemma_u64_prefix(
        a.timestamp,
        b.timestamp,
        Seq::<u8>::empty(),
        Seq::<u8>::empty(),
    );
}

/// A receipt is in order exactly where each party has signed it: there is a signature of the node
/// and one of the client, each of 64 bytes in hexadecimal, that the key of that party accepts for
/// the bytes of the receipt.
pub proof fn law_both_parties_must_sign(r: ReceiptView)
    ensures
        signatures_valid(r) <==> {
            &&& r.node_signature is Some
            &&& r.client_signature is Some
            &&& hex_bytes(r.node_pubkey) is Some
            &&& hex_bytes(r.client_pubkey) is Some
            &&& hex_bytes(r.node_signature->Some_0) is Some
            &&& hex_bytes(r.client_signature->Some_0) is Some
            &&& ({
                let node = hex_bytes(r.node_pubkey)->Some_0;
                let client = hex_bytes(r.client_pubkey)->Some_0;
                let by_node = hex_bytes(r.node_signature->Some_0)->Some_0;
                let by_client = hex_bytes(r.client_signature->Some_0)->Some_0;
                &&& node.len() == 32 && client.len() == 32
                &&& by_node.len() == 64 && by_client.len() == 64
                &&& ed25519_is_key(node) && ed25519_is_key(client)
                &&& ed25519_accepts(node, signed_message(r), by_node)
                &&& ed25519_accepts(client, signed_message(r), by_client)
            })
        },
{
}

/// The signed bytes of a receipt are its four texts and its six numbers, one after the other: the
/// ID, the client, the node, the query; the tokens, the speed, the median, the weight, the amount,
/// the time. Each text is written behind its length in four bytes, each number in eight bytes, the
/// lowest first.
pub proof fn law_signed_bytes_hold_the_fields(r: ReceiptView)
    ensures
        ({
            let texts = crate::wire::text_field(r.receipt_id) + crate::wire::text_field(
                r.client_pubkey,
            ) + crate::wire::text_field(r.node_pubkey) + crate::wire::text_field(r.query_hash);
            let bytes = signed_message(r);
            let n = texts.len() as int;
            let number = |k: int| crate::wire::le_value(bytes.subrange(n + 8 * k, n + 8 * k + 8));
            &&& bytes.len() == n + 48
            &&& bytes.take(n) == texts
            &&& number(0) == r.tokens_generated
            &&& number(1) == r.tps
            &&& number(2) == r.network_median_tps
            &&& number(3) == r.tqw_nano
            &&& number(4) == r.amount_nano
            &&& number(5) == r.timestamp
        }),
{
    let texts = crate::wire::text_field(r.receipt_id) + crate::wire::text_field(r.client_pubkey)
        + crate::wire::text_field(r.node_pubkey) + crate::wire::text_field(r.query_hash);
    let bytes = signed_message(r);
    let n = texts.len() as int;
    crate::wire::lemma_pow256();
    crate::wire::law_bytes_have_the_value(r.tokens_generated as nat, 8);
    crate::wire::law_bytes_have_the_value(r.tps as nat, 8);
    crate::wire::law_bytes_have_the_value(r.network_median_tps as nat, 8);
    crate::wire::law_bytes_have_the_value(r.tqw_nano as nat, 8);
    crate::wire::law_bytes_have_the_value(r.amount_nano as nat, 8);
    crate::wire::law_bytes_have_the_value(r.timestamp as nat, 8);
    assert(bytes.take(n) == texts);
    assert(bytes.subrange(n, n + 8) == crate::wire::le_bytes(r.tokens_generated as nat, 8));
    assert(bytes.subrange(n + 8, n + 16) == crate::wire::le_bytes(r.tps as nat, 8));
    assert(bytes.subrange(n + 16, n + 24) == crate::wire::le_bytes(
        r.network_median_tps as nat,
        8,
    ));
    assert(bytes.subrange(n + 24, n + 32) == crate::wire::le_bytes(r.tqw_nano as nat, 8));
    assert(bytes.subrange(n + 32, n + 40) == crate::wire::le_bytes(r.amount_nano as nat, 8));
    assert(bytes.subrange(n + 40, n + 48) == crate::wire::le_bytes(r.timestamp as nat, 8));
}

/// Hexadecimal text is read with either case and nothing else: pairs of digits from 0 to 9 and from
/// A to F.
pub proof fn law_hex_is_pairs_of_digits(s: Seq<char>)
    ensures
        hex_bytes(s) is Some <==> s.len() % 2 == 0 && forall|k: int|
            0 <= k < s.len() ==> ('0' <= #[trigger] s[k] <= '9' || 'a' <= s[k] <= 'f' || 'A' <= s[k]
                <= 'F'),
        hex_bytes(s) is Some ==> hex_bytes(s)->Some_0.len() * 2 == s.len(),
{
    if forall|k: int|
        0 <= k < s.len() ==> ('0' <= #[trigger] s[k] <= '9' || 'a' <= s[k] <= 'f' || 'A' <= s[k]
            <= 'F') {
        assert forall|k: int| 0 <= k < s.len() implies (#[trigger] hex_value(s[k])) is Some by {}
    }
    if hex_bytes(s) is Some {
        assert forall|k: int| 0 <= k < s.len() implies ('0' <= #[trigger] s[k] <= '9' || 'a' <= s[k]
            <= 'f' || 'A' <= s[k] <= 'F') by {
            assert(hex_value(s[k]) is Some);
        }
    }
}

/// Bytes are a public key exactly where there are 32 of them that encode a point, and the key is
/// those bytes.
pub proof fn law_public_keys_are_32_bytes(bytes: Seq<u8>)
    ensures
        pubkey_of_bytes(bytes) is Ok <==> bytes.len() == 32 && ed25519_is_key(bytes),
        pubkey_of_bytes(bytes) is Ok ==> pubkey_of_bytes(bytes)->Ok_0 == bytes,
        pubkey_of_hex(hex_text(bytes)) == pubkey_of_bytes(bytes),
{
    law_hex_reads_back(bytes);
}

/// A signature is valid exactly where the key is 32 bytes of a public key and the signature 64
/// bytes, both in hexadecimal, and the key accepts it for the message.
pub proof fn law_signature_needs_key_and_message(
    pubkey_hex: Seq<char>,
    message: Seq<u8>,
    signature_hex: Seq<char>,
)
    ensures
        signature_valid(pubkey_hex, message, signature_hex) <==> {
            &&& hex_bytes(pubkey_hex) is Some
            &&& hex_bytes(signature_hex) is Some
            &&& hex_bytes(pubkey_hex)->Some_0.len() == 32
            &&& hex_bytes(signature_hex)->Some_0.len() == 64
            &&& ed25519_is_key(hex_bytes(pubkey_hex)->Some_0)
            &&& ed25519_accepts(
                hex_bytes(pubkey_hex)->Some_0,
                message,
                hex_bytes(signature_hex)->Some_0,
            )
        },
{
}

/// Hexadecimal text is written with two digits for each byte, in lower case.
pub proof fn law_hex_is_written_in_lower_case(bytes: Seq<u8>, i: int)
    requires
        0 <= i < 2 * bytes.len(),
    ensures
        hex_text(bytes).len() == 2 * bytes.len(),
        '0' <= hex_text(bytes)[i] <= '9' || 'a' <= hex_text(bytes)[i] <= 'f',
{
}

} // verus!
