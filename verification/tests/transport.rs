//! End-to-end behaviour of the secure transport core: key derivation, record
//! round trips, framing at arbitrary split points, chunking boundaries,
//! counter discipline, mode transition, and fatal-failure latching.

use hap_transport::channel::{ChannelMode, SecureChannel, Session};
use hap_transport::framer::Framer;
use hap_transport::keys::{compute_key, compute_read_key, compute_write_key};
use hap_transport::record::{decrypt_record, encrypt_record, nonce_for};
use hap_transport::{TransportError, MAX_RECORD_LEN};

use chacha20poly1305::aead::{Aead, KeyInit, Payload};
use chacha20poly1305::ChaCha20Poly1305;

fn zero_session() -> Session {
    Session { controller_id: [7u8; 16], shared_secret: [0u8; 32] }
}

fn encrypted_channel() -> SecureChannel {
    let mut ch = SecureChannel::new();
    ch.adopt_session(&zero_session());
    ch
}

/// The wire bytes a controller would send: records sealed under the
/// accessory's read key with counters starting at `counter`.
fn controller_records(secret: &[u8; 32], counter: &mut u64, plaintext: &[u8]) -> Vec<u8> {
    let key = compute_read_key(secret);
    let mut wire = Vec::new();
    for chunk in plaintext.chunks(MAX_RECORD_LEN) {
        wire.extend_from_slice(&encrypt_record(&key, chunk, counter));
    }
    wire
}

/// Split `wire` into (length, record bytes) pairs for inspection.
fn parse_records(mut wire: &[u8]) -> Vec<(usize, Vec<u8>)> {
    let mut out = Vec::new();
    while !wire.is_empty() {
        assert!(wire.len() >= 2, "truncated length prefix");
        let l = wire[0] as usize + 256 * wire[1] as usize;
        let total = 2 + l + 16;
        assert!(wire.len() >= total, "truncated record");
        out.push((l, wire[..total].to_vec()));
        wire = &wire[total..];
    }
    out
}

#[test]
fn keys_are_32_bytes_and_direction_distinct() {
    let secret = [0u8; 32];
    let rk = compute_read_key(&secret);
    let wk = compute_write_key(&secret);
    assert_eq!(rk.len(), 32);
    assert_eq!(wk.len(), 32);
    assert_ne!(rk, wk, "the two direction keys must differ");
    // The derivation is not the identity and not constant.
    assert_ne!(&rk[..], &secret[..]);
    assert_ne!(rk, compute_read_key(&[1u8; 32]));
    // Deterministic: same inputs, same key.
    assert_eq!(rk, compute_read_key(&secret));
}

#[test]
fn compute_key_depends_on_info() {
    let secret = [3u8; 32];
    let a = compute_key(&secret, b"Control-Read-Encryption-Key");
    let b = compute_key(&secret, b"Control-Write-Encryption-Key");
    assert_ne!(a, b);
    assert_eq!(a, compute_write_key(&secret));
    assert_eq!(b, compute_read_key(&secret));
}

#[test]
fn nonce_is_zero_prefix_and_le_counter() {
    assert_eq!(nonce_for(0), vec![0u8; 12]);
    assert_eq!(
        nonce_for(0x0102030405060708),
        vec![0, 0, 0, 0, 0x08, 0x07, 0x06, 0x05, 0x04, 0x03, 0x02, 0x01]
    );
}

#[test]
fn record_round_trip() {
    let key = compute_write_key(&[9u8; 32]);
    let mut enc_counter: u64 = 0;
    let mut dec_counter: u64 = 0;
    for plaintext in [&b"x"[..], &b"hello, world"[..], &[0xAAu8; 1024][..]] {
        let rec = encrypt_record(&key, plaintext, &mut enc_counter);
        assert_eq!(rec.len(), plaintext.len() + 18);
        let got = decrypt_record(&key, &rec[..2], &rec[2..], &mut dec_counter)
            .expect("aligned counters must round-trip");
        assert_eq!(got, plaintext);
    }
    assert_eq!(enc_counter, 3);
    assert_eq!(dec_counter, 3);
}

#[test]
fn record_ciphertext_differs_from_plaintext() {
    let key = compute_write_key(&[0u8; 32]);
    let mut counter: u64 = 0;
    let plaintext = b"HTTP/1.1 200 OK\r\n\r\n";
    let rec = encrypt_record(&key, plaintext, &mut counter);
    assert_ne!(&rec[2..2 + plaintext.len()], &plaintext[..]);
}

#[test]
fn single_record_encrypt_matches_direct_aead() {
    // Shared secret of 32 zero bytes, counter 0, plaintext "x": the record is
    // the length prefix 0x01 0x00, then ChaCha20-Poly1305 of the one byte
    // under the derived write key with the all-zero nonce, then the tag.
    let mut ch = encrypted_channel();
    let wire = ch.write_outbound(b"x").unwrap();
    assert_eq!(wire.len(), 1 + 18);
    assert_eq!(&wire[..2], &[0x01, 0x00]);

    let key = compute_write_key(&[0u8; 32]);
    let cipher = ChaCha20Poly1305::new_from_slice(&key).unwrap();
    let nonce = chacha20poly1305::Nonce::try_from(&[0u8; 12][..]).unwrap();
    let sealed = cipher
        .encrypt(&nonce, Payload { msg: b"x", aad: &[0x01, 0x00] })
        .unwrap();
    assert_eq!(&wire[2..], &sealed[..]);
}

#[test]
fn passthrough_echo() {
    // No session delivered: 19 bytes cross to the socket unchanged.
    let mut ch = SecureChannel::new();
    assert_eq!(ch.mode(), ChannelMode::Passthrough);
    let out = ch.write_outbound(b"HTTP/1.1 200 OK\r\n\r\n").unwrap();
    assert_eq!(out, b"HTTP/1.1 200 OK\r\n\r\n");
    assert_eq!(out.len(), 19);
    let back = ch.read_inbound(b"GET / HTTP/1.1\r\n\r\n").unwrap();
    assert_eq!(back, b"GET / HTTP/1.1\r\n\r\n");
    assert_eq!(ch.mode(), ChannelMode::Passthrough);
}

#[test]
fn mode_transition_is_one_way_and_not_interleaved() {
    let mut ch = SecureChannel::new();
    assert_eq!(ch.controller_id(), None);
    // Before delivery: cleartext.
    let before = ch.write_outbound(b"cleartext").unwrap();
    assert_eq!(before, b"cleartext");
    // After delivery: every byte leaves inside a valid record.
    ch.adopt_session(&zero_session());
    assert_eq!(ch.mode(), ChannelMode::Encrypted);
    assert_eq!(ch.controller_id(), Some([7u8; 16]));
    assert_eq!(ch.encrypt_count(), 0);
    assert_eq!(ch.decrypt_count(), 0);
    let after = ch.write_outbound(b"ciphertext").unwrap();
    let records = parse_records(&after);
    assert_eq!(records.len(), 1);
    assert_eq!(records[0].0, 10);
    assert_ne!(&after[2..12], &b"ciphertext"[..]);
}

#[test]
fn chunking_boundary_1024_and_1025() {
    let mut ch = encrypted_channel();
    let one = ch.write_outbound(&[1u8; 1024]).unwrap();
    let records = parse_records(&one);
    assert_eq!(records.len(), 1);
    assert_eq!(records[0].0, 1024);
    assert_eq!(ch.encrypt_count(), 1);

    let mut ch = encrypted_channel();
    let two = ch.write_outbound(&[2u8; 1025]).unwrap();
    let records = parse_records(&two);
    assert_eq!(records.len(), 2);
    assert_eq!(records[0].0, 1024);
    assert_eq!(records[1].0, 1);
    assert_eq!(ch.encrypt_count(), 2);
}

#[test]
fn boundary_chunking_2049() {
    // A write of 2049 bytes leaves as three records of 1024, 1024 and 1.
    let mut ch = encrypted_channel();
    let wire = ch.write_outbound(&[5u8; 2049]).unwrap();
    let records = parse_records(&wire);
    let lens: Vec<usize> = records.iter().map(|r| r.0).collect();
    assert_eq!(lens, vec![1024, 1024, 1]);
    assert_eq!(ch.encrypt_count(), 3);
}

#[test]
fn empty_write_emits_no_record() {
    let mut ch = encrypted_channel();
    let wire = ch.write_outbound(b"").unwrap();
    assert!(wire.is_empty());
    assert_eq!(ch.encrypt_count(), 0);
}

#[test]
fn counter_equals_records_and_encryption_is_deterministic() {
    let mut a = encrypted_channel();
    let mut b = encrypted_channel();
    let mut wire_a = Vec::new();
    let mut wire_b = Vec::new();
    for msg in [&b"first"[..], &[9u8; 1500][..], &b"third"[..]] {
        wire_a.extend_from_slice(&a.write_outbound(msg).unwrap());
        wire_b.extend_from_slice(&b.write_outbound(msg).unwrap());
    }
    // 1 + 2 + 1 records.
    assert_eq!(a.encrypt_count(), 4);
    assert_eq!(b.encrypt_count(), 4);
    assert_eq!(wire_a, wire_b, "same key and plaintext sequence, same bytes");
}

#[test]
fn channel_round_trip_multi_record() {
    // What a controller seals under the accessory's read key comes back out
    // of the channel as the original plaintext, across chunk boundaries.
    let secret = [0u8; 32];
    let mut counter: u64 = 0;
    let plaintext: Vec<u8> = (0..65536u32).map(|i| (i % 251) as u8).collect();
    let wire = controller_records(&secret, &mut counter, &plaintext);
    assert_eq!(counter, 64);

    let mut ch = encrypted_channel();
    let got = ch.read_inbound(&wire).unwrap();
    assert_eq!(got, plaintext);
    assert_eq!(ch.decrypt_count(), 64);
    assert_eq!(ch.pending_len(), 0);
}

#[test]
fn framer_resumes_across_arbitrary_splits() {
    // The same record stream fed whole and fed in slices of 1, 2, 3, ... bytes
    // yields the same frames.
    let secret = [4u8; 32];
    let mut counter: u64 = 0;
    let mut plaintext = vec![0u8; 2500];
    for (i, b) in plaintext.iter_mut().enumerate() {
        *b = (i % 13) as u8;
    }
    let wire = controller_records(&secret, &mut counter, &plaintext);

    let mut whole = Framer::new();
    let frames_whole = whole.feed(&wire).unwrap();
    assert_eq!(frames_whole.len(), 3);

    for step in [1usize, 2, 3, 7, 19, 1024, 1041, 2000] {
        let mut split = Framer::new();
        let mut frames_split = Vec::new();
        for piece in wire.chunks(step) {
            // An empty chunk neither loses bytes nor completes a frame.
            assert!(split.feed(&[]).unwrap().is_empty());
            frames_split.extend(split.feed(piece).unwrap());
        }
        assert_eq!(frames_split.len(), frames_whole.len(), "step {step}");
        for (a, b) in frames_split.iter().zip(frames_whole.iter()) {
            assert_eq!(a.header, b.header, "step {step}");
            assert_eq!(a.body, b.body, "step {step}");
        }
        assert_eq!(split.pending_len(), 0);
    }
}

#[test]
fn framer_split_header() {
    // The bytes 0x05 0x00 as two separate 1-byte chunks, then 21 bytes of
    // body and tag: exactly one record.
    let mut framer = Framer::new();
    assert!(framer.feed(&[0x05]).unwrap().is_empty());
    assert_eq!(framer.pending_len(), 1);
    assert!(framer.feed(&[0x00]).unwrap().is_empty());
    assert_eq!(framer.pending_len(), 2);
    let body = [0x33u8; 21];
    let frames = framer.feed(&body).unwrap();
    assert_eq!(frames.len(), 1);
    assert_eq!(frames[0].header, vec![0x05, 0x00]);
    assert_eq!(frames[0].body, body.to_vec());
    assert_eq!(framer.pending_len(), 0);
}

#[test]
fn framer_rejects_oversize_frame() {
    // A length prefix of 1025 is fatal and nothing further is processed.
    let mut framer = Framer::new();
    assert!(matches!(framer.feed(&[0x01, 0x04]), Err(TransportError::FrameTooLarge)));
    assert!(matches!(framer.feed(&[0x01, 0x00]), Err(TransportError::FrameTooLarge)));
}

#[test]
fn framer_rejects_zero_length_frame() {
    let mut framer = Framer::new();
    assert!(matches!(framer.feed(&[0x00, 0x00]), Err(TransportError::FrameTooLarge)));
}

#[test]
fn channel_rejects_oversize_frame() {
    let mut ch = encrypted_channel();
    assert_eq!(ch.read_inbound(&[0x01, 0x04]), Err(TransportError::FrameTooLarge));
    assert_eq!(ch.mode(), ChannelMode::Closed);
    assert_eq!(ch.read_inbound(b"anything"), Err(TransportError::ChannelClosed));
    assert_eq!(ch.write_outbound(b"anything"), Err(TransportError::ChannelClosed));
}

#[test]
fn any_single_bit_flip_is_fatal() {
    // Flipping any single bit of a record's length prefix, ciphertext or tag
    // makes the read fail, and nothing later is delivered.
    let secret = [0u8; 32];
    let plaintext = b"attested payload";
    for bit in 0..(2 + plaintext.len() + 16) * 8 {
        let mut counter: u64 = 0;
        let mut wire = controller_records(&secret, &mut counter, plaintext);
        wire[bit / 8] ^= 1 << (bit % 8);
        let mut ch = encrypted_channel();
        let r = ch.read_inbound(&wire);
        match r {
            Ok(delivered) => {
                // A flip inside the length prefix may leave the record
                // merely incomplete: nothing is delivered yet, and no
                // plaintext ever surfaces from the damaged record.
                assert!(bit < 16, "body or tag flip must not decrypt (bit {bit})");
                assert!(delivered.is_empty(), "no plaintext from a damaged record");
            },
            Err(e) => {
                assert!(
                    e == TransportError::AuthenticationFailed
                        || e == TransportError::FrameTooLarge,
                    "bit {bit}"
                );
                assert_eq!(ch.mode(), ChannelMode::Closed);
                // No subsequent record is delivered.
                let mut counter2: u64 = 1;
                let next = controller_records(&secret, &mut counter2, b"next");
                assert_eq!(ch.read_inbound(&next), Err(TransportError::ChannelClosed));
            },
        }
    }
}

#[test]
fn counter_desync_detected() {
    // After 3 successful records, drop one on the wire: the next record
    // fails authentication and the connection closes.
    let secret = [0u8; 32];
    let mut counter: u64 = 0;
    let mut ch = encrypted_channel();
    for i in 0..3u8 {
        let wire = controller_records(&secret, &mut counter, &[i; 10]);
        assert_eq!(ch.read_inbound(&wire).unwrap(), vec![i; 10]);
    }
    assert_eq!(ch.decrypt_count(), 3);
    // Record number 4 is lost on the wire.
    let _lost = controller_records(&secret, &mut counter, b"lost");
    let fifth = controller_records(&secret, &mut counter, b"after the gap");
    assert_eq!(ch.read_inbound(&fifth), Err(TransportError::AuthenticationFailed));
    assert_eq!(ch.mode(), ChannelMode::Closed);
    assert_eq!(ch.read_inbound(b""), Err(TransportError::ChannelClosed));
}

#[test]
fn direction_key_asymmetry() {
    // With the info labels swapped, round-trip decryption fails.
    let secret = [0u8; 32];
    let write_key = compute_write_key(&secret);
    let read_key = compute_read_key(&secret);
    let mut enc_counter: u64 = 0;
    let rec = encrypt_record(&write_key, b"direction matters", &mut enc_counter);
    let mut dec_counter: u64 = 0;
    assert_eq!(
        decrypt_record(&read_key, &rec[..2], &rec[2..], &mut dec_counter),
        Err(TransportError::AuthenticationFailed)
    );
    assert_eq!(dec_counter, 0, "a failed decryption leaves the counter alone");
}

#[test]
fn partial_record_held_across_reads() {
    // A record arriving in two pieces is held, then decrypted whole.
    let secret = [0u8; 32];
    let mut counter: u64 = 0;
    let wire = controller_records(&secret, &mut counter, b"split across reads");
    let mut ch = encrypted_channel();
    let first = ch.read_inbound(&wire[..7]).unwrap();
    assert!(first.is_empty());
    assert_eq!(ch.pending_len(), 7);
    let second = ch.read_inbound(&wire[7..]).unwrap();
    assert_eq!(second, b"split across reads");
    assert_eq!(ch.pending_len(), 0);
}
