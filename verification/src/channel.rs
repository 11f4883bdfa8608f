//! The per-connection secure channel: session gate, outbound chunking and
//! encryption, inbound framing and decryption.
//!
//! A channel starts in passthrough mode, where bytes cross unchanged in both
//! directions: pair-setup and pair-verify traffic travels over the same TCP
//! connection in cleartext HTTP form. Delivery of the session (a one-shot
//! event handled by the surrounding driver) latches encrypted mode, a one-way
//! transition. From then on, outbound plaintext is split into chunks of at
//! most `MAX_RECORD_LEN` bytes, each sealed into one wire record, and inbound
//! bytes are framed and each record decrypted. Per-direction 64-bit counters
//! start at 0 and advance by exactly 1 per record. Any framing or
//! authentication failure is fatal: the channel latches `Failed` and refuses
//! all further traffic, since counter desynchronisation is unrecoverable.

use vstd::prelude::*;
use vstd::bytes::{lemma_auto_spec_u16_to_from_le_bytes, spec_u16_to_le_bytes};
use vstd::arithmetic::div_mod::{lemma_basic_div, lemma_div_plus_one};
use vstd::seq_lib::lemma_flatten_concat;

use crate::MAX_RECORD_LEN;
use crate::TransportError;
use crate::framer::{frame_count, frames_views, split_frames, Framer};
use crate::keys::{compute_read_key, compute_write_key, read_key_spec, write_key_spec};
use crate::record::{decrypt_record, encrypt_record, nonce_spec, opens_to, record_spec, sealed};

verus! {

/// A session delivered once by the pair-verify collaborator: the identity of
/// the paired controller and the 32-byte HKDF input from which both
/// direction keys are derived.
#[derive(Debug)]
pub struct Session {
    /// The 16 bytes of the UUID identifying the paired controller.
    pub controller_id: [u8; 16],
    /// The pair-verify shared secret.
    pub shared_secret: [u8; 32],
}

/// The externally visible mode of a channel.
#[derive(Clone, Copy, Debug, PartialEq, Eq, Structural)]
pub enum ChannelMode {
    /// No session yet: bytes cross unchanged.
    Passthrough,
    /// A session is latched: all traffic is framed and encrypted.
    Encrypted,
    /// A fatal framing or authentication error occurred.
    Closed,
}

/// The plaintext, split into chunks of at most `MAX_RECORD_LEN` bytes: every
/// chunk but the last is full, and a non-empty remainder forms the last.
pub open spec fn chunks_of(pt: Seq<u8>) -> Seq<Seq<u8>>
    decreases pt.len(),
{
    if pt.len() == 0 {
        Seq::empty()
    } else if pt.len() <= MAX_RECORD_LEN {
        seq![pt]
    } else {
        seq![pt.take(MAX_RECORD_LEN as int)] + chunks_of(pt.skip(MAX_RECORD_LEN as int))
    }
}

/// How many records a write of `n` bytes produces: `ceil(n / MAX_RECORD_LEN)`.
pub open spec fn chunk_count(n: int) -> int {
    if n <= 0 {
        0
    } else {
        (n - 1) / (MAX_RECORD_LEN as int) + 1
    }
}

/// The wire bytes of the records for the plaintext chunks `pts`, encrypted
/// in order under `key` with counters `c0, c0 + 1, ...`.
pub open spec fn records_stream(key: Seq<u8>, c0: int, pts: Seq<Seq<u8>>) -> Seq<u8>
    decreases pts.len(),
{
    if pts.len() == 0 {
        Seq::empty()
    } else {
        record_spec(key, c0, pts.first()) + records_stream(key, c0 + 1, pts.drop_first())
    }
}

/// Every framed record opens, under `key` with counters `c0, c0 + 1, ...`
/// and its own header as associated data, to the corresponding plaintext.
pub open spec fn frames_open_to(
    key: Seq<u8>,
    c0: int,
    fs: Seq<(Seq<u8>, Seq<u8>)>,
    pts: Seq<Seq<u8>>,
) -> bool {
    &&& pts.len() == fs.len()
    &&& forall|i: int|
        #![trigger fs[i], pts[i]]
        0 <= i < fs.len() ==> opens_to(key, c0 + i, fs[i].0, fs[i].1, pts[i])
}

/// Splitting a plaintext into chunks loses, duplicates and reorders nothing:
/// the chunks concatenate back to the plaintext.
pub proof fn lemma_chunks_flatten(pt: Seq<u8>)
    ensures
        chunks_of(pt).flatten() == pt,
    decreases pt.len(),
{
    if pt.len() == 0 {
        assert(chunks_of(pt).flatten() =~= pt);
    } else if pt.len() <= MAX_RECORD_LEN {
        chunks_of(pt).lemma_flatten_one_element();
    } else {
        let m = MAX_RECORD_LEN as int;
        lemma_chunks_flatten(pt.skip(m));
        lemma_flatten_concat(seq![pt.take(m)], chunks_of(pt.skip(m)));
        seq![pt.take(m)].lemma_flatten_one_element();
        assert(pt.take(m) + pt.skip(m) =~= pt);
    }
}

/// One full chunk more: the chunk count of `n` bytes, `n` above the chunk
/// size, is one more than that of `n - MAX_RECORD_LEN`.
pub proof fn lemma_chunk_count_step(n: int)
    requires
        n > MAX_RECORD_LEN,
    ensures
        chunk_count(n) == 1 + chunk_count(n - MAX_RECORD_LEN),
{
    let m = MAX_RECORD_LEN as int;
    lemma_div_plus_one(n - 1 - m, m);
}

/// A write of `n` bytes produces exactly `ceil(n / MAX_RECORD_LEN)` records.
pub proof fn lemma_chunks_count(pt: Seq<u8>)
    ensures
        chunks_of(pt).len() == chunk_count(pt.len() as int),
    decreases pt.len(),
{
    let m = MAX_RECORD_LEN as int;
    if pt.len() == 0 {
    } else if pt.len() <= MAX_RECORD_LEN {
        lemma_basic_div(pt.len() as int - 1, m);
    } else {
        lemma_chunks_count(pt.skip(m));
        lemma_chunk_count_step(pt.len() as int);
    }
}

/// Every chunk is between 1 and `MAX_RECORD_LEN` bytes, and every chunk but
/// the last is exactly full.
pub proof fn lemma_chunks_sizes(pt: Seq<u8>)
    ensures
        forall|i: int|
            0 <= i < chunks_of(pt).len() ==> 1 <= (#[trigger] chunks_of(pt)[i]).len()
                <= MAX_RECORD_LEN,
        forall|i: int|
            0 <= i < chunks_of(pt).len() - 1 ==> (#[trigger] chunks_of(pt)[i]).len()
                == MAX_RECORD_LEN,
    decreases pt.len(),
{
    let m = MAX_RECORD_LEN as int;
    let cs = chunks_of(pt);
    if pt.len() == 0 {
    } else if pt.len() <= MAX_RECORD_LEN {
        assert forall|i: int| 0 <= i < cs.len() implies 1 <= (#[trigger] cs[i]).len() <= MAX_RECORD_LEN by {
            assert(cs[i] == pt);
        }
    } else {
        lemma_chunks_sizes(pt.skip(m));
        let tail = chunks_of(pt.skip(m));
        assert forall|i: int| 0 <= i < cs.len() implies 1 <= (#[trigger] cs[i]).len() <= MAX_RECORD_LEN by {
            if i == 0 {
                assert(cs[0] == pt.take(m));
            } else {
                assert(cs[i] == tail[i - 1]);
            }
        }
        assert forall|i: int| 0 <= i < cs.len() - 1 implies (#[trigger] cs[i]).len() == MAX_RECORD_LEN by {
            if i == 0 {
                assert(cs[0] == pt.take(m));
            } else {
                assert(cs[i] == tail[i - 1]);
            }
        }
    }
}

/// A record stream parses back into exactly the records it was built from:
/// one frame per chunk, nothing left over, and each frame opens at its
/// counter to its chunk. The premise on the sealed bodies' lengths is what
/// the sealing wrapper's contract guarantees of every real sealing: the body
/// is 16 bytes longer than its plaintext.
proof fn lemma_stream_parses(key: Seq<u8>, c0: int, pts: Seq<Seq<u8>>)
    requires
        forall|i: int| 0 <= i < pts.len() ==> 1 <= (#[trigger] pts[i]).len() <= MAX_RECORD_LEN,
        forall|i: int|
            0 <= i < pts.len() ==> sealed(
                key,
                nonce_spec(c0 + i),
                spec_u16_to_le_bytes((#[trigger] pts[i]).len() as u16),
                pts[i],
            ).len() == pts[i].len() + 16,
    ensures
        split_frames(records_stream(key, c0, pts)) matches Some((fs, rest)) && rest
            == Seq::<u8>::empty() && frames_open_to(key, c0, fs, pts),
    decreases pts.len(),
{
    lemma_auto_spec_u16_to_from_le_bytes();
    if pts.len() == 0 {
        assert(records_stream(key, c0, pts) == Seq::<u8>::empty());
        assert(frames_open_to(key, c0, Seq::empty(), pts));
    } else {
        let p0 = pts.first();
        let l = p0.len() as int;
        let hdr = spec_u16_to_le_bytes(p0.len() as u16);
        let body = sealed(key, nonce_spec(c0), hdr, p0);
        let tail_pts = pts.drop_first();
        let b = records_stream(key, c0, pts);
        let tail = records_stream(key, c0 + 1, tail_pts);
        assert(sealed(key, nonce_spec(c0), spec_u16_to_le_bytes(pts[0].len() as u16), pts[0]).len()
            == pts[0].len() + 16);
        assert(body.len() == l + 16);
        assert(b == (hdr + body) + tail);
        assert(b.take(2) =~= hdr);
        assert(spec_u16_from_le_bytes_val(hdr) == l) by {
            assert(spec_u16_to_le_bytes(vstd::bytes::spec_u16_from_le_bytes(hdr)) == hdr);
        }
        assert(b.subrange(2, l + 18) =~= body);
        assert(b.skip(l + 18) =~= tail);
        assert forall|i: int| 0 <= i < tail_pts.len() implies 1 <= (#[trigger] tail_pts[i]).len()
            <= MAX_RECORD_LEN by {
            assert(tail_pts[i] == pts[i + 1]);
        }
        assert forall|i: int|
            0 <= i < tail_pts.len() implies sealed(
            key,
            nonce_spec(c0 + 1 + i),
            spec_u16_to_le_bytes((#[trigger] tail_pts[i]).len() as u16),
            tail_pts[i],
        ).len() == tail_pts[i].len() + 16 by {
            assert(tail_pts[i] == pts[i + 1]);
            assert(sealed(
                key,
                nonce_spec(c0 + (i + 1)),
                spec_u16_to_le_bytes(pts[i + 1].len() as u16),
                pts[i + 1],
            ).len() == pts[i + 1].len() + 16);
        }
        lemma_stream_parses(key, c0 + 1, tail_pts);
        let (fs_tail, rest_tail) = split_frames(tail)->Some_0;
        assert(split_frames(b) == Some((seq![(hdr, body)] + fs_tail, rest_tail)));
        let fs = seq![(hdr, body)] + fs_tail;
        assert(frames_open_to(key, c0, fs, pts)) by {
            assert forall|i: int| 0 <= i < fs.len() implies opens_to(
                key,
                c0 + i,
                (#[trigger] fs[i]).0,
                fs[i].1,
                pts[i],
            ) by {
                if i == 0 {
                    assert(fs[0] == (hdr, body));
                    assert(pts[0] == p0);
                } else {
                    assert(fs[i] == fs_tail[i - 1]);
                    assert(pts[i] == tail_pts[i - 1]);
                    assert(opens_to(
                        key,
                        (c0 + 1) + (i - 1),
                        fs_tail[i - 1].0,
                        fs_tail[i - 1].1,
                        tail_pts[i - 1],
                    ));
                }
            }
        }
    }
}

/// A helper name for the parsed value of a 2-byte header.
spec fn spec_u16_from_le_bytes_val(s: Seq<u8>) -> int {
    vstd::bytes::spec_u16_from_le_bytes(s) as int
}

/// Round trip: the wire bytes that an encrypted write of `pt` produces parse
/// back into exactly one frame per chunk with nothing left over, every frame
/// opens at the matching counter to its chunk, and the chunks concatenate to
/// `pt`. A paired reader with an aligned counter therefore recovers `pt`
/// exactly. The premise on the sealed bodies' lengths is what the sealing
/// wrapper's contract guarantees of every real sealing.
pub proof fn lemma_round_trip(key: Seq<u8>, c0: int, pt: Seq<u8>)
    requires
        forall|i: int|
            0 <= i < chunks_of(pt).len() ==> sealed(
                key,
                nonce_spec(c0 + i),
                spec_u16_to_le_bytes((#[trigger] chunks_of(pt)[i]).len() as u16),
                chunks_of(pt)[i],
            ).len() == chunks_of(pt)[i].len() + 16,
    ensures
        split_frames(records_stream(key, c0, chunks_of(pt))) matches Some((fs, rest)) && rest
            == Seq::<u8>::empty() && frames_open_to(key, c0, fs, chunks_of(pt)),
        chunks_of(pt).flatten() == pt,
{
    lemma_chunks_sizes(pt);
    lemma_chunks_flatten(pt);
    lemma_stream_parses(key, c0, chunks_of(pt));
}

#[derive(Debug)]
enum State {
    Passthrough,
    Encrypted {
        read_key: Vec<u8>,
        write_key: Vec<u8>,
        controller_id: [u8; 16],
        decrypt_count: u64,
        encrypt_count: u64,
        framer: Framer,
    },
    Failed,
}

/// The per-connection secure channel.
#[derive(Debug)]
pub struct SecureChannel {
    state: State,
}

impl SecureChannel {
    /// The mode the channel is in: exactly one of the three at any time.
    pub closed spec fn mode_spec(self) -> ChannelMode {
        match self.state {
            State::Passthrough => ChannelMode::Passthrough,
            State::Encrypted { .. } => ChannelMode::Encrypted,
            State::Failed => ChannelMode::Closed,
        }
    }

    /// No session yet: bytes cross unchanged.
    pub open spec fn is_passthrough(self) -> bool {
        self.mode_spec() == ChannelMode::Passthrough
    }

    /// A session is latched: traffic is framed and encrypted.
    pub open spec fn is_encrypted(self) -> bool {
        self.mode_spec() == ChannelMode::Encrypted
    }

    /// A fatal error occurred; nothing more crosses.
    pub open spec fn has_failed(self) -> bool {
        self.mode_spec() == ChannelMode::Closed
    }

    /// The key under which inbound records are decrypted.
    pub closed spec fn read_key(self) -> Seq<u8> {
        match self.state {
            State::Encrypted { read_key, .. } => read_key@,
            _ => Seq::empty(),
        }
    }

    /// The key under which outbound records are encrypted.
    pub closed spec fn write_key(self) -> Seq<u8> {
        match self.state {
            State::Encrypted { write_key, .. } => write_key@,
            _ => Seq::empty(),
        }
    }

    /// How many inbound records have been decrypted.
    pub closed spec fn dec_count(self) -> u64 {
        match self.state {
            State::Encrypted { decrypt_count, .. } => decrypt_count,
            _ => 0,
        }
    }

    /// How many outbound records have been encrypted.
    pub closed spec fn enc_count(self) -> u64 {
        match self.state {
            State::Encrypted { encrypt_count, .. } => encrypt_count,
            _ => 0,
        }
    }

    /// The bytes of the inbound partial record buffered by the framer.
    pub closed spec fn inbound_pending(self) -> Seq<u8> {
        match self.state {
            State::Encrypted { framer, .. } => framer.pending(),
            _ => Seq::empty(),
        }
    }

    /// The identity of the paired controller, once a session is latched.
    pub closed spec fn controller(self) -> Option<Seq<u8>> {
        match self.state {
            State::Encrypted { controller_id, .. } => Some(controller_id@),
            _ => None,
        }
    }

    /// In encrypted mode the keys are 32 bytes and the framer is intact:
    /// a framing failure latches the whole channel.
    pub closed spec fn wf(self) -> bool {
        match self.state {
            State::Encrypted { read_key, write_key, framer, .. } => {
                &&& read_key@.len() == 32
                &&& write_key@.len() == 32
                &&& framer.wf()
                &&& !framer.has_failed()
            },
            _ => true,
        }
    }

    /// A fresh channel in passthrough mode.
    pub fn new() -> (r: SecureChannel)
        ensures
            r.wf(),
            r.is_passthrough(),
    {
        SecureChannel { state: State::Passthrough }
    }

    /// The current mode.
    pub fn mode(&self) -> (r: ChannelMode)
        ensures
            r == self.mode_spec(),
    {
        match self.state {
            State::Passthrough => ChannelMode::Passthrough,
            State::Encrypted { .. } => ChannelMode::Encrypted,
            State::Failed => ChannelMode::Closed,
        }
    }

    /// How many inbound records have been decrypted.
    pub fn decrypt_count(&self) -> (r: u64)
        ensures
            r == self.dec_count(),
    {
        match &self.state {
            State::Encrypted { decrypt_count, .. } => *decrypt_count,
            _ => 0,
        }
    }

    /// How many outbound records have been encrypted.
    pub fn encrypt_count(&self) -> (r: u64)
        ensures
            r == self.enc_count(),
    {
        match &self.state {
            State::Encrypted { encrypt_count, .. } => *encrypt_count,
            _ => 0,
        }
    }

    /// How many bytes of an inbound partial record are buffered.
    pub fn pending_len(&self) -> (r: usize)
        ensures
            r == self.inbound_pending().len(),
    {
        match &self.state {
            State::Encrypted { framer, .. } => framer.pending_len(),
            _ => 0,
        }
    }

    /// The identity of the paired controller, once a session is latched.
    pub fn controller_id(&self) -> (r: Option<[u8; 16]>)
        ensures
            match r {
                Some(id) => self.controller() == Some(id@),
                None => self.controller() is None,
            },
    {
        match &self.state {
            State::Encrypted { controller_id, .. } => Some(*controller_id),
            _ => None,
        }
    }

    /// Latch the session: derive both direction keys from the shared secret
    /// and switch to encrypted mode, counters at 0. The transition is
    /// one-way; it happens at most once per connection.
    pub fn adopt_session(&mut self, session: &Session)
        requires
            old(self).wf(),
            old(self).is_passthrough(),
        ensures
            final(self).wf(),
            final(self).is_encrypted(),
            final(self).read_key() == read_key_spec(session.shared_secret@),
            final(self).write_key() == write_key_spec(session.shared_secret@),
            final(self).dec_count() == 0,
            final(self).enc_count() == 0,
            final(self).inbound_pending() == Seq::<u8>::empty(),
            final(self).controller() == Some(session.controller_id@),
    {
        let read_key = compute_read_key(&session.shared_secret);
        let write_key = compute_write_key(&session.shared_secret);
        self.state = State::Encrypted {
            read_key,
            write_key,
            controller_id: session.controller_id,
            decrypt_count: 0,
            encrypt_count: 0,
            framer: Framer::new(),
        };
    }

    /// Accept outbound plaintext and return the bytes to put on the socket.
    /// In passthrough mode they cross verbatim. In encrypted mode the
    /// plaintext is split into chunks of at most `MAX_RECORD_LEN` bytes, each
    /// sealed into one wire record under the write key, and the write counter
    /// advances by the number of records; an empty write produces no record.
    pub fn write_outbound(&mut self, plaintext: &[u8]) -> (r: Result<Vec<u8>, TransportError>)
        requires
            old(self).wf(),
            old(self).is_encrypted() ==> old(self).enc_count() + chunk_count(
                plaintext@.len() as int,
            ) <= u64::MAX,
        ensures
            final(self).wf(),
            old(self).has_failed() ==> (r matches Err(e) && e == TransportError::ChannelClosed)
                && *final(self) == *old(self),
            old(self).is_passthrough() ==> (r matches Ok(v) && v@ == plaintext@) && *final(self)
                == *old(self),
            old(self).is_encrypted() ==> ({
                &&& r matches Ok(v) && v@ == records_stream(
                    old(self).write_key(),
                    old(self).enc_count() as int,
                    chunks_of(plaintext@),
                )
                &&& final(self).is_encrypted()
                &&& final(self).read_key() == old(self).read_key()
                &&& final(self).write_key() == old(self).write_key()
                &&& final(self).enc_count() == old(self).enc_count() + chunks_of(
                    plaintext@,
                ).len()
                &&& final(self).dec_count() == old(self).dec_count()
                &&& final(self).inbound_pending() == old(self).inbound_pending()
                &&& final(self).controller() == old(self).controller()
            }),
    {
        let mut st = State::Passthrough;
        core::mem::swap(&mut st, &mut self.state);
        match st {
            State::Passthrough => {
                self.state = State::Passthrough;
                Ok(vstd::slice::slice_to_vec(plaintext))
            },
            State::Failed => {
                self.state = State::Failed;
                Err(TransportError::ChannelClosed)
            },
            State::Encrypted {
                read_key,
                write_key,
                controller_id,
                decrypt_count,
                mut encrypt_count,
                framer,
            } => {
                proof {
                    lemma_chunks_count(plaintext@);
                }
                let ghost key: Seq<u8> = write_key@;
                let ghost c0: int = encrypt_count as int;
                let mut out: Vec<u8> = Vec::new();
                let mut offset: usize = 0;
                let ghost done: int = 0;
                proof {
                    assert(plaintext@.skip(0) =~= plaintext@);
                    assert(out@ + records_stream(key, c0, chunks_of(plaintext@))
                        =~= records_stream(key, c0, chunks_of(plaintext@)));
                }
                while plaintext.len() - offset > MAX_RECORD_LEN
                    invariant
                        write_key@ == key,
                        key.len() == 32,
                        offset <= plaintext.len(),
                        plaintext.len() <= usize::MAX,
                        encrypt_count as int == c0 + done,
                        done == chunks_of(plaintext@).len() - chunks_of(
                            plaintext@.skip(offset as int),
                        ).len(),
                        c0 + chunks_of(plaintext@).len() <= u64::MAX,
                        chunks_of(plaintext@).len() == chunk_count(plaintext@.len() as int),
                        records_stream(key, c0, chunks_of(plaintext@)) == out@ + records_stream(
                            key,
                            encrypt_count as int,
                            chunks_of(plaintext@.skip(offset as int)),
                        ),
                    decreases plaintext.len() - offset,
                {
                    let ghost rem: Seq<u8> = plaintext@.skip(offset as int);
                    proof {
                        lemma_chunks_count(rem);
                        lemma_chunk_count_step(rem.len() as int);
                        lemma_chunks_count(rem.skip(MAX_RECORD_LEN as int));
                    }
                    let chunk = vstd::slice::slice_subrange(
                        plaintext,
                        offset,
                        offset + MAX_RECORD_LEN,
                    );
                    proof {
                        assert(chunk@ =~= rem.take(MAX_RECORD_LEN as int));
                        assert(rem.skip(MAX_RECORD_LEN as int) =~= plaintext@.skip(
                            offset as int + MAX_RECORD_LEN,
                        ));
                        assert(chunks_of(rem).first() == rem.take(MAX_RECORD_LEN as int));
                        assert(chunks_of(rem).drop_first() =~= chunks_of(
                            rem.skip(MAX_RECORD_LEN as int),
                        ));
                    }
                    let mut rec = encrypt_record(write_key.as_slice(), chunk, &mut encrypt_count);
                    out.append(&mut rec);
                    offset = offset + MAX_RECORD_LEN;
                    proof {
                        done = done + 1;
                    }
                }
                if plaintext.len() > offset {
                    let ghost rem: Seq<u8> = plaintext@.skip(offset as int);
                    let ghost c: int = encrypt_count as int;
                    proof {
                        lemma_chunks_count(rem);
                        assert(chunks_of(rem) == seq![rem]);
                        assert(chunks_of(rem).first() == rem);
                        assert(chunks_of(rem).drop_first() =~= Seq::<Seq<u8>>::empty());
                        assert(records_stream(key, c + 1, Seq::<Seq<u8>>::empty())
                            == Seq::<u8>::empty());
                        assert(records_stream(key, c, chunks_of(rem)) =~= record_spec(key, c, rem));
                    }
                    let chunk = vstd::slice::slice_subrange(plaintext, offset, plaintext.len());
                    proof {
                        assert(chunk@ =~= rem);
                    }
                    let mut rec = encrypt_record(write_key.as_slice(), chunk, &mut encrypt_count);
                    out.append(&mut rec);
                    proof {
                        assert(out@ =~= records_stream(key, c0, chunks_of(plaintext@)));
                    }
                } else {
                    proof {
                        assert(plaintext@.skip(offset as int) =~= Seq::<u8>::empty());
                        assert(chunks_of(Seq::<u8>::empty()) == Seq::<Seq<u8>>::empty());
                        assert(records_stream(key, encrypt_count as int, Seq::<Seq<u8>>::empty())
                            == Seq::<u8>::empty());
                        assert(out@ =~= records_stream(key, c0, chunks_of(plaintext@)));
                    }
                }
                self.state = State::Encrypted {
                    read_key,
                    write_key,
                    controller_id,
                    decrypt_count,
                    encrypt_count,
                    framer,
                };
                Ok(out)
            },
        }
    }

    /// Accept bytes read from the socket and return the plaintext they
    /// complete. In passthrough mode they cross verbatim. In encrypted mode
    /// they are framed; every completed record is decrypted under the read
    /// key and the read counter advances per record. An invalid length
    /// prefix or an authentication failure closes the channel for good, and
    /// no partial plaintext of the failing feed is released.
    pub fn read_inbound(&mut self, bytes: &[u8]) -> (r: Result<Vec<u8>, TransportError>)
        requires
            old(self).wf(),
            old(self).is_encrypted() ==> old(self).dec_count() + frame_count(
                old(self).inbound_pending() + bytes@,
            ) <= u64::MAX,
        ensures
            final(self).wf(),
            old(self).has_failed() ==> (r matches Err(e) && e == TransportError::ChannelClosed)
                && *final(self) == *old(self),
            old(self).is_passthrough() ==> (r matches Ok(v) && v@ == bytes@) && *final(self)
                == *old(self),
            old(self).is_encrypted() ==> match split_frames(
                old(self).inbound_pending() + bytes@,
            ) {
                None => (r matches Err(e) && e == TransportError::FrameTooLarge)
                    && final(self).has_failed(),
                Some((fs, rest)) => {
                    &&& (r matches Ok(v) ==> ({
                        &&& forall|pts: Seq<Seq<u8>>|
                            frames_open_to(
                                old(self).read_key(),
                                old(self).dec_count() as int,
                                fs,
                                pts,
                            ) ==> v@ == pts.flatten()
                        &&& final(self).is_encrypted()
                        &&& final(self).read_key() == old(self).read_key()
                        &&& final(self).write_key() == old(self).write_key()
                        &&& final(self).dec_count() == old(self).dec_count() + fs.len()
                        &&& final(self).enc_count() == old(self).enc_count()
                        &&& final(self).inbound_pending() == rest
                        &&& final(self).controller() == old(self).controller()
                    }))
                    &&& ((exists|pts: Seq<Seq<u8>>|
                        frames_open_to(
                            old(self).read_key(),
                            old(self).dec_count() as int,
                            fs,
                            pts,
                        )) ==> r is Ok)
                    &&& (r matches Err(e) ==> e == TransportError::AuthenticationFailed
                        && final(self).has_failed())
                },
            },
    {
        let mut st = State::Passthrough;
        core::mem::swap(&mut st, &mut self.state);
        match st {
            State::Passthrough => {
                self.state = State::Passthrough;
                Ok(vstd::slice::slice_to_vec(bytes))
            },
            State::Failed => {
                self.state = State::Failed;
                Err(TransportError::ChannelClosed)
            },
            State::Encrypted {
                read_key,
                write_key,
                controller_id,
                mut decrypt_count,
                encrypt_count,
                mut framer,
            } => {
                let ghost key: Seq<u8> = read_key@;
                let ghost c0: int = decrypt_count as int;
                let ghost total: Seq<u8> = framer.pending() + bytes@;
                match framer.feed(bytes) {
                    Err(_) => {
                        self.state = State::Failed;
                        Err(TransportError::FrameTooLarge)
                    },
                    Ok(frames) => {
                        let ghost fs: Seq<(Seq<u8>, Seq<u8>)> = frames_views(frames@);
                        let ghost rest0: Seq<u8> = framer.pending();
                        let mut out: Vec<u8> = Vec::new();
                        let ghost mut pts_actual: Seq<Seq<u8>> = Seq::empty();
                        let mut i: usize = 0;
                        proof {
                            assert(out@ =~= pts_actual.flatten());
                            assert(split_frames(total) == Some((fs, rest0)));
                        }
                        while i < frames.len()
                            invariant
                                old(self).is_encrypted(),
                                !old(self).has_failed(),
                                !old(self).is_passthrough(),
                                total == old(self).inbound_pending() + bytes@,
                                split_frames(total) == Some((fs, rest0)),
                                key == old(self).read_key(),
                                c0 == old(self).dec_count() as int,
                                read_key@ == key,
                                key.len() == 32,
                                i <= frames.len(),
                                fs == frames_views(frames@),
                                fs.len() == frames@.len(),
                                forall|j: int|
                                    0 <= j < frames@.len() ==> (#[trigger] frames@[j]).wf(),
                                forall|j: int|
                                    0 <= j < frames@.len() ==> fs[j] == (
                                        frames@[j].header@,
                                        frames@[j].body@,
                                    ),
                                c0 + fs.len() <= u64::MAX,
                                decrypt_count as int == c0 + i,
                                pts_actual.len() == i,
                                out@ == pts_actual.flatten(),
                                forall|j: int, pt: Seq<u8>|
                                    #![trigger pts_actual[j], opens_to(key, c0 + j, fs[j].0, fs[j].1, pt)]
                                    0 <= j < i && opens_to(key, c0 + j, fs[j].0, fs[j].1, pt)
                                        ==> pt == pts_actual[j],
                            decreases frames.len() - i,
                        {
                            let f = &frames[i];
                            let ghost pre: Seq<Seq<u8>> = pts_actual;
                            match decrypt_record(
                                read_key.as_slice(),
                                f.header.as_slice(),
                                f.body.as_slice(),
                                &mut decrypt_count,
                            ) {
                                Ok(mut p) => {
                                    proof {
                                        pts_actual = pts_actual.push(p@);
                                        pre.lemma_flatten_push(p@);
                                    }
                                    out.append(&mut p);
                                    i = i + 1;
                                },
                                Err(_) => {
                                    proof {
                                        assert forall|pts: Seq<Seq<u8>>|
                                            !frames_open_to(key, c0, fs, pts) by {
                                            if frames_open_to(key, c0, fs, pts) {
                                                assert(opens_to(
                                                    key,
                                                    c0 + i,
                                                    fs[i as int].0,
                                                    fs[i as int].1,
                                                    pts[i as int],
                                                ));
                                            }
                                        }
                                    }
                                    self.state = State::Failed;
                                    return Err(TransportError::AuthenticationFailed);
                                },
                            }
                        }
                        proof {
                            assert forall|pts: Seq<Seq<u8>>|
                                frames_open_to(key, c0, fs, pts) implies out@ == pts.flatten() by {
                                assert forall|j: int| 0 <= j < fs.len() implies pts[j]
                                    == pts_actual[j] by {
                                    assert(opens_to(key, c0 + j, fs[j].0, fs[j].1, pts[j]));
                                }
                                assert(pts =~= pts_actual);
                            }
                        }
                        self.state = State::Encrypted {
                            read_key,
                            write_key,
                            controller_id,
                            decrypt_count,
                            encrypt_count,
                            framer,
                        };
                        Ok(out)
                    },
                }
            },
        }
    }
}

} // verus!
