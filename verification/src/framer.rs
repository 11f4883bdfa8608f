//! Incremental frame parsing (the framer).
//!
//! A pull-driven state machine that consumes the inbound byte stream at
//! arbitrary split points and emits every complete record: 2-byte
//! little-endian length `L` with `1 <= L <= MAX_RECORD_LEN`, then `L + 16`
//! bytes of ciphertext and tag. It holds at most one partial record between
//! feeds, so no byte is lost or duplicated across partial socket reads. A
//! length prefix of zero or above `MAX_RECORD_LEN` is fatal.

use vstd::prelude::*;
use vstd::bytes::*;
use vstd::seq_lib::lemma_flatten_concat;

use crate::MAX_RECORD_LEN;
use crate::TransportError;

verus! {

/// One complete framed record as read off the wire: the 2-byte little-endian
/// length header and the body `ciphertext || tag` of length `len + 16`.
#[derive(Debug)]
pub struct Frame {
    pub header: Vec<u8>,
    pub body: Vec<u8>,
}

/// A length prefix the protocol accepts.
pub open spec fn frame_len_ok(l: int) -> bool {
    1 <= l <= MAX_RECORD_LEN
}

impl Frame {
    /// The header holds a valid length and the body is exactly that length
    /// plus the 16-byte tag.
    pub open spec fn wf(self) -> bool {
        &&& self.header@.len() == 2
        &&& frame_len_ok(spec_u16_from_le_bytes(self.header@) as int)
        &&& self.body@.len() == spec_u16_from_le_bytes(self.header@) + 16
    }

    /// The header and body bytes as one pair.
    pub open spec fn view_pair(self) -> (Seq<u8>, Seq<u8>) {
        (self.header@, self.body@)
    }
}

/// The header/body pairs of a sequence of frames.
pub open spec fn frames_views(v: Seq<Frame>) -> Seq<(Seq<u8>, Seq<u8>)> {
    v.map_values(|f: Frame| f.view_pair())
}

/// Split a byte stream into its complete leading frames and the leftover
/// partial tail; `None` as soon as an invalid length prefix is reached.
pub open spec fn split_frames(b: Seq<u8>) -> Option<(Seq<(Seq<u8>, Seq<u8>)>, Seq<u8>)>
    decreases b.len(),
{
    if b.len() < 2 {
        Some((Seq::empty(), b))
    } else {
        let l = spec_u16_from_le_bytes(b.take(2)) as int;
        if !frame_len_ok(l) {
            None
        } else if b.len() < l + 18 {
            Some((Seq::empty(), b))
        } else {
            match split_frames(b.skip(l + 18)) {
                None => None,
                Some((fs, rest)) => Some(
                    (seq![(b.take(2), b.subrange(2, l + 18))] + fs, rest),
                ),
            }
        }
    }
}

/// How many complete frames a byte stream holds (0 where its length prefix
/// is invalid, since parsing stops there).
pub open spec fn frame_count(b: Seq<u8>) -> int {
    match split_frames(b) {
        Some((fs, _)) => fs.len() as int,
        None => 0,
    }
}

/// Each complete frame consumes at least 19 bytes of the stream, so the
/// frame count is bounded by the stream length.
pub proof fn lemma_split_frames_count(b: Seq<u8>)
    ensures
        split_frames(b) matches Some((fs, rest)) ==> 19 * fs.len() + rest.len() <= b.len(),
    decreases b.len(),
{
    if b.len() >= 2 {
        let l = spec_u16_from_le_bytes(b.take(2)) as int;
        if frame_len_ok(l) && b.len() >= l + 18 {
            lemma_split_frames_count(b.skip(l + 18));
        }
    }
}

/// Framing robustness, two pieces: parsing `a + b` yields the frames of `a`
/// followed by the frames of `a`'s leftover extended by `b`, with the same
/// failure behaviour. Feeding a stream in pieces therefore parses exactly as
/// feeding it whole.
pub proof fn lemma_split_frames_concat(a: Seq<u8>, b: Seq<u8>)
    ensures
        match split_frames(a) {
            None => split_frames(a + b) is None,
            Some((fs1, rest1)) => match split_frames(rest1 + b) {
                None => split_frames(a + b) is None,
                Some((fs2, rest2)) => split_frames(a + b) == Some((fs1 + fs2, rest2)),
            },
        },
    decreases a.len(),
{
    if a.len() < 2 {
        // The frames of `a` are empty and its leftover is `a` itself.
        assert(a + b =~= a + b);
        match split_frames(a + b) {
            None => {},
            Some((fs2, rest2)) => {
                assert(Seq::<(Seq<u8>, Seq<u8>)>::empty() + fs2 =~= fs2);
            },
        }
    } else {
        let l = spec_u16_from_le_bytes(a.take(2)) as int;
        assert((a + b).take(2) =~= a.take(2));
        if !frame_len_ok(l) {
            // Both parses fail on the same header.
        } else if a.len() < l + 18 {
            // `a` holds a partial frame: its leftover is `a` itself, and the
            // combined parse equals the parse of `a + b` directly.
            match split_frames(a + b) {
                None => {},
                Some((fs2, rest2)) => {
                    assert(Seq::<(Seq<u8>, Seq<u8>)>::empty() + fs2 =~= fs2);
                },
            }
        } else {
            let a2 = a.skip(l + 18);
            assert((a + b).skip(l + 18) =~= a2 + b);
            assert((a + b).subrange(2, l + 18) =~= a.subrange(2, l + 18));
            lemma_split_frames_concat(a2, b);
            let f0 = (a.take(2), a.subrange(2, l + 18));
            match split_frames(a2) {
                None => {},
                Some((fs1t, rest1)) => {
                    match split_frames(rest1 + b) {
                        None => {},
                        Some((fs2, rest2)) => {
                            assert(split_frames(a2 + b) == Some((fs1t + fs2, rest2)));
                            assert(seq![f0] + (fs1t + fs2) =~= (seq![f0] + fs1t) + fs2);
                        },
                    }
                },
            }
        }
    }
}

/// The frames obtained by feeding a stream part by part: the frames already
/// complete after the previous parts, then those completed by the last part.
pub open spec fn split_frames_parts(parts: Seq<Seq<u8>>) -> Option<
    (Seq<(Seq<u8>, Seq<u8>)>, Seq<u8>),
>
    decreases parts.len(),
{
    if parts.len() == 0 {
        Some((Seq::empty(), Seq::empty()))
    } else {
        match split_frames_parts(parts.drop_last()) {
            None => None,
            Some((fs, rest)) => match split_frames(rest + parts.last()) {
                None => None,
                Some((fs2, rest2)) => Some((fs + fs2, rest2)),
            },
        }
    }
}

/// Framing robustness: for every partition of a byte stream into parts,
/// feeding the parts one by one yields exactly the frames of the whole
/// stream, with the same leftover and the same failure behaviour.
pub proof fn lemma_framing_robust(parts: Seq<Seq<u8>>)
    ensures
        split_frames_parts(parts) == split_frames(parts.flatten()),
    decreases parts.len(),
{
    if parts.len() == 0 {
        assert(parts.flatten() =~= Seq::<u8>::empty());
    } else {
        let p = parts.drop_last();
        let x = parts.last();
        lemma_framing_robust(p);
        lemma_flatten_concat(p, seq![x]);
        seq![x].lemma_flatten_one_element();
        assert(p + seq![x] =~= parts);
        assert(parts.flatten() == p.flatten() + x);
        lemma_split_frames_concat(p.flatten(), x);
    }
}

/// The inbound framing state machine. It buffers at most one partial record
/// and latches permanent failure on an invalid length prefix.
#[derive(Debug)]
pub struct Framer {
    buf: Vec<u8>,
    failed: bool,
}

impl Framer {
    /// The buffered bytes of the current partial record.
    pub closed spec fn pending(self) -> Seq<u8> {
        self.buf@
    }

    /// Whether an invalid length prefix has been seen.
    pub closed spec fn has_failed(self) -> bool {
        self.failed
    }

    /// Until failure, the staging buffer holds at most one partial record:
    /// parsing it again completes no frame and consumes nothing.
    pub closed spec fn wf(self) -> bool {
        !self.failed ==> split_frames(self.buf@) == Some(
            (Seq::<(Seq<u8>, Seq<u8>)>::empty(), self.buf@),
        )
    }

    /// A fresh framer awaiting the first length byte.
    pub fn new() -> (r: Framer)
        ensures
            r.wf(),
            !r.has_failed(),
            r.pending() == Seq::<u8>::empty(),
    {
        Framer { buf: Vec::new(), failed: false }
    }

    /// How many bytes of the current partial record are buffered.
    pub fn pending_len(&self) -> (r: usize)
        ensures
            r == self.pending().len(),
    {
        self.buf.len()
    }

    /// Consume `input` at any split point, emit every frame it completes, and
    /// keep the partial tail. An invalid length prefix is fatal: the framer
    /// latches failure and reports `FrameTooLarge` now and on every later
    /// feed.
    pub fn feed(&mut self, input: &[u8]) -> (r: Result<Vec<Frame>, TransportError>)
        requires
            old(self).wf(),
        ensures
            final(self).wf(),
            old(self).has_failed() ==> ({
                &&& r matches Err(e) && e == TransportError::FrameTooLarge
                &&& *final(self) == *old(self)
            }),
            !old(self).has_failed() ==> match split_frames(old(self).pending() + input@) {
                None => {
                    &&& r matches Err(e) && e == TransportError::FrameTooLarge
                    &&& final(self).has_failed()
                },
                Some((fs, rest)) => {
                    &&& r matches Ok(v) && frames_views(v@) == fs && (forall|i: int|
                        0 <= i < v@.len() ==> (#[trigger] v@[i]).wf())
                    &&& !final(self).has_failed()
                    &&& final(self).pending() == rest
                },
            },
    {
        if self.failed {
            return Err(TransportError::FrameTooLarge);
        }
        let ghost total: Seq<u8> = self.buf@ + input@;
        let mut tail = vstd::slice::slice_to_vec(input);
        self.buf.append(&mut tail);
        let mut out: Vec<Frame> = Vec::new();
        proof {
            assert(frames_views(out@) + Seq::<(Seq<u8>, Seq<u8>)>::empty() =~= frames_views(
                out@,
            ));
        }
        loop
            invariant
                total == old(self).pending() + input@,
                !old(self).has_failed(),
                !self.failed,
                forall|i: int| 0 <= i < out@.len() ==> (#[trigger] out@[i]).wf(),
                match split_frames(self.buf@) {
                    None => split_frames(total) is None,
                    Some((fs, rest)) => split_frames(total) == Some(
                        (frames_views(out@) + fs, rest),
                    ),
                },
            ensures
                !self.failed,
                forall|i: int| 0 <= i < out@.len() ==> (#[trigger] out@[i]).wf(),
                split_frames(total) == Some((frames_views(out@), self.buf@)),
            decreases self.buf.len(),
        {
            if self.buf.len() < 2 {
                proof {
                    assert(frames_views(out@) + Seq::<(Seq<u8>, Seq<u8>)>::empty()
                        =~= frames_views(out@));
                }
                break;
            }
            let hdr_slice = vstd::slice::slice_subrange(self.buf.as_slice(), 0, 2);
            proof {
                assert(hdr_slice@ =~= self.buf@.take(2));
            }
            let l = u16_from_le_bytes(hdr_slice) as usize;
            if l < 1 || l > MAX_RECORD_LEN {
                proof {
                    assert(split_frames(self.buf@) is None);
                }
                self.failed = true;
                return Err(TransportError::FrameTooLarge);
            }
            if self.buf.len() < l + 18 {
                proof {
                    assert(frames_views(out@) + Seq::<(Seq<u8>, Seq<u8>)>::empty()
                        =~= frames_views(out@));
                }
                break;
            }
            let ghost buf0: Seq<u8> = self.buf@;
            let header = vstd::slice::slice_to_vec(hdr_slice);
            let body_slice = vstd::slice::slice_subrange(self.buf.as_slice(), 2, l + 18);
            let body = vstd::slice::slice_to_vec(body_slice);
            let frame = Frame { header, body };
            let new_buf = self.buf.split_off(l + 18);
            self.buf = new_buf;
            proof {
                assert(self.buf@ =~= buf0.skip(l as int + 18));
                assert(frame.view_pair() == (buf0.take(2), buf0.subrange(2, l as int + 18)));
                match split_frames(self.buf@) {
                    None => {},
                    Some((fs2, rest2)) => {
                        assert(split_frames(buf0) == Some(
                            (seq![frame.view_pair()] + fs2, rest2),
                        ));
                        assert(frames_views(out@.push(frame)) =~= frames_views(out@).push(
                            frame.view_pair(),
                        ));
                        assert(frames_views(out@) + (seq![frame.view_pair()] + fs2)
                            =~= frames_views(out@).push(frame.view_pair()) + fs2);
                    },
                }
            }
            out.push(frame);
        }
        Ok(out)
    }
}

} // verus!
