//! Per-direction session keys.
//!
//! Each session derives two 32-byte ChaCha20-Poly1305 keys from the 32-byte
//! pair-verify shared secret with HKDF-SHA-512, salt `"Control-Salt"`, and one
//! of two info labels. The labels are named from the controller's perspective:
//! the accessory's read key (used to decrypt controller-to-accessory records)
//! uses `"Control-Write-Encryption-Key"`, and the accessory's write key (used
//! to encrypt accessory-to-controller records) uses
//! `"Control-Read-Encryption-Key"`. This crossover is dictated by HAP.

use vstd::prelude::*;

verus! {

/// The 64-byte output of HKDF-SHA-512 (extract-then-expand, RFC 5869) for the
/// given salt, input keying material and info, expanded to one full
/// SHA-512 block of output keying material.
pub uninterp spec fn hkdf_sha512_okm(salt: Seq<u8>, ikm: Seq<u8>, info: Seq<u8>) -> Seq<u8>;

/// The ASCII bytes of `"Control-Salt"`.
pub open spec fn control_salt_spec() -> Seq<u8> {
    seq![
        0x43u8, 0x6f, 0x6e, 0x74, 0x72, 0x6f, 0x6c, 0x2d, 0x53, 0x61, 0x6c, 0x74,
    ]
}

/// The ASCII bytes of `"Control-Read-Encryption-Key"`.
pub open spec fn control_read_info_spec() -> Seq<u8> {
    seq![
        0x43u8, 0x6f, 0x6e, 0x74, 0x72, 0x6f, 0x6c, 0x2d, 0x52, 0x65, 0x61, 0x64, 0x2d, 0x45,
        0x6e, 0x63, 0x72, 0x79, 0x70, 0x74, 0x69, 0x6f, 0x6e, 0x2d, 0x4b, 0x65, 0x79,
    ]
}

/// The ASCII bytes of `"Control-Write-Encryption-Key"`.
pub open spec fn control_write_info_spec() -> Seq<u8> {
    seq![
        0x43u8, 0x6f, 0x6e, 0x74, 0x72, 0x6f, 0x6c, 0x2d, 0x57, 0x72, 0x69, 0x74, 0x65, 0x2d,
        0x45, 0x6e, 0x63, 0x72, 0x79, 0x70, 0x74, 0x69, 0x6f, 0x6e, 0x2d, 0x4b, 0x65, 0x79,
    ]
}

/// A derived direction key: the first 32 bytes of the HKDF-SHA-512 output
/// keying material under salt `"Control-Salt"`. Per RFC 5869 the 32-byte OKM
/// is exactly the 32-byte prefix of the 64-byte OKM for the same inputs.
pub open spec fn derived_key_spec(ikm: Seq<u8>, info: Seq<u8>) -> Seq<u8> {
    hkdf_sha512_okm(control_salt_spec(), ikm, info).take(32)
}

/// The key under which the accessory decrypts inbound records.
pub open spec fn read_key_spec(shared_secret: Seq<u8>) -> Seq<u8> {
    derived_key_spec(shared_secret, control_write_info_spec())
}

/// The key under which the accessory encrypts outbound records.
pub open spec fn write_key_spec(shared_secret: Seq<u8>) -> Seq<u8> {
    derived_key_spec(shared_secret, control_read_info_spec())
}

/// Relies on `ring::hkdf`: `Salt::new` + `extract` + `expand` + `Okm::fill`
/// compute HKDF-SHA-512 (RFC 5869), a pure function of salt, input keying
/// material and info. With `HKDF_SHA512` as output length the expansion is one
/// 64-byte block, so `expand` and `fill` cannot fail.
#[verifier::external_body]
fn hkdf_sha512(salt: &[u8], ikm: &[u8], info: &[u8]) -> (r: [u8; 64])
    ensures
        r@ == hkdf_sha512_okm(salt@, ikm@, info@),
{
    let s = ring::hkdf::Salt::new(ring::hkdf::HKDF_SHA512, salt);
    let prk = s.extract(ikm);
    let info_parts = [info];
    let okm = prk.expand(&info_parts, ring::hkdf::HKDF_SHA512).expect("one block is within HKDF bounds");
    let mut out = [0u8; 64];
    okm.fill(&mut out).expect("output length equals the requested length");
    out
}

/// The exec bytes of `"Control-Salt"`.
fn control_salt() -> (r: Vec<u8>)
    ensures
        r@ == control_salt_spec(),
{
    let r: Vec<u8> = vec![
        0x43, 0x6f, 0x6e, 0x74, 0x72, 0x6f, 0x6c, 0x2d, 0x53, 0x61, 0x6c, 0x74,
    ];
    proof {
        assert(r@ =~= control_salt_spec());
    }
    r
}

/// The exec bytes of `"Control-Read-Encryption-Key"`.
fn control_read_info() -> (r: Vec<u8>)
    ensures
        r@ == control_read_info_spec(),
{
    let r: Vec<u8> = vec![
        0x43, 0x6f, 0x6e, 0x74, 0x72, 0x6f, 0x6c, 0x2d, 0x52, 0x65, 0x61, 0x64, 0x2d, 0x45,
        0x6e, 0x63, 0x72, 0x79, 0x70, 0x74, 0x69, 0x6f, 0x6e, 0x2d, 0x4b, 0x65, 0x79,
    ];
    proof {
        assert(r@ =~= control_read_info_spec());
    }
    r
}

/// The exec bytes of `"Control-Write-Encryption-Key"`.
fn control_write_info() -> (r: Vec<u8>)
    ensures
        r@ == control_write_info_spec(),
{
    let r: Vec<u8> = vec![
        0x43, 0x6f, 0x6e, 0x74, 0x72, 0x6f, 0x6c, 0x2d, 0x57, 0x72, 0x69, 0x74, 0x65, 0x2d,
        0x45, 0x6e, 0x63, 0x72, 0x79, 0x70, 0x74, 0x69, 0x6f, 0x6e, 0x2d, 0x4b, 0x65, 0x79,
    ];
    proof {
        assert(r@ =~= control_write_info_spec());
    }
    r
}

/// Derive one 32-byte key from the shared secret and an info label.
pub fn compute_key(shared_secret: &[u8; 32], info: &[u8]) -> (r: Vec<u8>)
    ensures
        r@ == derived_key_spec(shared_secret@, info@),
        r@.len() == 32,
{
    let salt = control_salt();
    let okm = hkdf_sha512(salt.as_slice(), shared_secret.as_slice(), info);
    let prefix = vstd::slice::slice_subrange(okm.as_slice(), 0, 32);
    let r = vstd::slice::slice_to_vec(prefix);
    proof {
        assert(r@ =~= derived_key_spec(shared_secret@, info@));
    }
    r
}

/// The key under which the accessory decrypts inbound records, derived with
/// the controller-perspective label `"Control-Write-Encryption-Key"`.
pub fn compute_read_key(shared_secret: &[u8; 32]) -> (r: Vec<u8>)
    ensures
        r@ == read_key_spec(shared_secret@),
        r@.len() == 32,
{
    let info = control_write_info();
    compute_key(shared_secret, info.as_slice())
}

/// The key under which the accessory encrypts outbound records, derived with
/// the controller-perspective label `"Control-Read-Encryption-Key"`.
pub fn compute_write_key(shared_secret: &[u8; 32]) -> (r: Vec<u8>)
    ensures
        r@ == write_key_spec(shared_secret@),
        r@.len() == 32,
{
    let info = control_read_info();
    compute_key(shared_secret, info.as_slice())
}

} // verus!
