//! Record encryption and decryption (the cryptor).
//!
//! A wire record is `len_le16 || ciphertext[len] || tag[16]` with
//! `1 <= len <= MAX_RECORD_LEN`. The 2-byte length field is also the AEAD
//! associated data, which binds the payload length to the tag. The nonce is
//! 4 zero bytes followed by the 8-byte little-endian per-direction counter;
//! the counter starts at 0 and increments by exactly 1 per successful record.

use vstd::prelude::*;
use vstd::bytes::*;

use chacha20poly1305::aead::{Aead, KeyInit, Payload};

use crate::MAX_RECORD_LEN;
use crate::TransportError;

verus! {

/// The 96-bit record nonce: 4 zero bytes followed by the little-endian
/// counter. Meaningful for `0 <= counter < 2^64`.
pub open spec fn nonce_spec(counter: int) -> Seq<u8> {
    seq![0u8, 0u8, 0u8, 0u8] + spec_u64_to_le_bytes(counter as u64)
}

/// What ChaCha20-Poly1305 sealing returns for a key, nonce, associated data
/// and plaintext: the ciphertext with the 16-byte tag appended.
pub uninterp spec fn sealed(key: Seq<u8>, nonce: Seq<u8>, aad: Seq<u8>, pt: Seq<u8>) -> Seq<u8>;

/// The sealed bytes `body` open under `key`, `counter` and the associated
/// data `aad` to exactly the plaintext `pt`.
pub open spec fn opens_to(key: Seq<u8>, counter: int, aad: Seq<u8>, body: Seq<u8>, pt: Seq<u8>) -> bool {
    body == sealed(key, nonce_spec(counter), aad, pt)
}

/// The full wire record for `pt` under `key` at `counter`: little-endian
/// length prefix, then ciphertext and tag.
pub open spec fn record_spec(key: Seq<u8>, counter: int, pt: Seq<u8>) -> Seq<u8>
    recommends
        1 <= pt.len() <= MAX_RECORD_LEN,
{
    spec_u16_to_le_bytes(pt.len() as u16) + sealed(
        key,
        nonce_spec(counter),
        spec_u16_to_le_bytes(pt.len() as u16),
        pt,
    )
}

/// Build the 12-byte nonce for a counter value.
pub fn nonce_for(counter: u64) -> (r: Vec<u8>)
    ensures
        r@ == nonce_spec(counter as int),
        r@.len() == 12,
{
    let mut r: Vec<u8> = vec![0u8, 0u8, 0u8, 0u8];
    let mut tail = u64_to_le_bytes(counter);
    r.append(&mut tail);
    proof {
        assert(r@ =~= nonce_spec(counter as int));
    }
    r
}

/// Relies on chacha20poly1305's `Aead::encrypt` (ChaCha20-Poly1305, IETF
/// variant): a deterministic function of key, nonce, associated data and
/// plaintext, returning the ciphertext (same length as the plaintext) with
/// the 16-byte tag appended. It errors only when the plaintext exceeds the
/// algorithm's limits, far above `MAX_RECORD_LEN`.
#[verifier::external_body]
fn aead_seal(key: &[u8], nonce: &[u8], aad: &[u8], plaintext: &[u8]) -> (r: Vec<u8>)
    requires
        key@.len() == 32,
        nonce@.len() == 12,
        plaintext@.len() <= MAX_RECORD_LEN,
    ensures
        r@ == sealed(key@, nonce@, aad@, plaintext@),
        r@.len() == plaintext@.len() + 16,
{
    let cipher = chacha20poly1305::ChaCha20Poly1305::new_from_slice(key).expect("key is 32 bytes");
    let nonce = chacha20poly1305::Nonce::try_from(nonce).expect("nonce is 12 bytes");
    cipher.encrypt(&nonce, Payload { msg: plaintext, aad }).expect("length within AEAD limits")
}

/// Relies on chacha20poly1305's `Aead::decrypt`: with the key, nonce and
/// associated data used for sealing it returns the original plaintext, and it
/// errors when the appended tag does not authenticate the ciphertext.
#[verifier::external_body]
fn aead_open(key: &[u8], nonce: &[u8], aad: &[u8], body: &[u8]) -> (r: Option<Vec<u8>>)
    requires
        key@.len() == 32,
        nonce@.len() == 12,
    ensures
        r matches Some(p) ==> p@.len() + 16 == body@.len() && (forall|pt: Seq<u8>|
            body@ == sealed(key@, nonce@, aad@, pt) ==> p@ == pt),
        r is Some <== exists|pt: Seq<u8>| body@ == sealed(key@, nonce@, aad@, pt),
{
    let cipher = chacha20poly1305::ChaCha20Poly1305::new_from_slice(key).expect("key is 32 bytes");
    let nonce = chacha20poly1305::Nonce::try_from(nonce).expect("nonce is 12 bytes");
    match cipher.decrypt(&nonce, Payload { msg: body, aad }) {
        Ok(p) => Some(p),
        Err(_) => None,
    }
}

/// Encrypt one plaintext chunk into a full wire record and advance the
/// direction counter by exactly 1.
pub fn encrypt_record(key: &[u8], plaintext: &[u8], counter: &mut u64) -> (r: Vec<u8>)
    requires
        key@.len() == 32,
        1 <= plaintext@.len() <= MAX_RECORD_LEN,
        *old(counter) < u64::MAX,
    ensures
        r@ == record_spec(key@, *old(counter) as int, plaintext@),
        r@.len() == plaintext@.len() + 18,
        *final(counter) == *old(counter) + 1,
{
    proof {
        lemma_auto_spec_u16_to_from_le_bytes();
    }
    let len16: u16 = plaintext.len() as u16;
    let aad = u16_to_le_bytes(len16);
    let nonce = nonce_for(*counter);
    let mut body = aead_seal(key, nonce.as_slice(), aad.as_slice(), plaintext);
    let mut r = aad;
    r.append(&mut body);
    *counter = *counter + 1;
    proof {
        assert(r@ =~= record_spec(key@, *old(counter) as int, plaintext@));
    }
    r
}

/// Decrypt one framed record body (`ciphertext || tag`) whose 2-byte header
/// is the associated data. On success the direction counter advances by
/// exactly 1; an authentication failure is fatal and leaves it unchanged.
pub fn decrypt_record(key: &[u8], header: &[u8], body: &[u8], counter: &mut u64) -> (r: Result<
    Vec<u8>,
    TransportError,
>)
    requires
        key@.len() == 32,
        *old(counter) < u64::MAX,
    ensures
        forall|pt: Seq<u8>|
            opens_to(key@, *old(counter) as int, header@, body@, pt) ==> (r matches Ok(p)
                && p@ == pt),
        r matches Ok(p) ==> p@.len() + 16 == body@.len() && *final(counter) == *old(counter) + 1,
        r matches Err(e) ==> e == TransportError::AuthenticationFailed && *final(counter) == *old(
            counter,
        ),
{
    let nonce = nonce_for(*counter);
    match aead_open(key, nonce.as_slice(), header, body) {
        Some(p) => {
            *counter = *counter + 1;
            Ok(p)
        },
        None => Err(TransportError::AuthenticationFailed),
    }
}

/// Round trip of a single record: what `encrypt_record` emits at a counter
/// splits into the length header and a body that opens, at the same counter
/// and under the header as associated data, to exactly the plaintext that
/// went in.
pub proof fn lemma_record_round_trip(key: Seq<u8>, counter: int, pt: Seq<u8>)
    requires
        1 <= pt.len() <= MAX_RECORD_LEN,
    ensures
        record_spec(key, counter, pt).take(2) == spec_u16_to_le_bytes(pt.len() as u16),
        opens_to(
            key,
            counter,
            spec_u16_to_le_bytes(pt.len() as u16),
            record_spec(key, counter, pt).skip(2),
            pt,
        ),
{
    lemma_auto_spec_u16_to_from_le_bytes();
    let hdr = spec_u16_to_le_bytes(pt.len() as u16);
    let body = sealed(key, nonce_spec(counter), hdr, pt);
    assert(record_spec(key, counter, pt).take(2) =~= hdr);
    assert(record_spec(key, counter, pt).skip(2) =~= body);
}

/// Record encryption is deterministic: two encryptors started from the same
/// key and counter produce byte-identical records when fed the same
/// plaintext.
pub proof fn lemma_encrypt_deterministic(
    key1: Seq<u8>,
    key2: Seq<u8>,
    c1: int,
    c2: int,
    pt1: Seq<u8>,
    pt2: Seq<u8>,
)
    requires
        key1 == key2,
        c1 == c2,
        pt1 == pt2,
    ensures
        record_spec(key1, c1, pt1) == record_spec(key2, c2, pt2),
{
}

} // verus!
