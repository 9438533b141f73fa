//! The framing layer: turns a raw byte stream into a sequence of
//! discrete length-prefixed frames and back.
//!
//! A frame is a 4-byte big-endian length prefix followed by exactly
//! that many payload bytes. The prefix must lie between 1 and
//! `MAX_FRAME_PAYLOAD`: empty frames are not accepted (keep-alives are
//! not supported) and oversized prefixes are rejected to bound memory.
//! The layer never inspects payload content.

use vstd::prelude::*;
use crate::wire::{be32_of, be32_val, lemma_be32_round_trip, put_be32, get_be32};

verus! {

/// Frames longer than this are rejected, to bound the memory one
/// connection can demand.
pub const MAX_FRAME_PAYLOAD: u32 = 0x80_0000;

/// A framing fault. Framing faults are fatal to the connection: the
/// stream cannot be resynchronized once a prefix is wrong.
#[derive(Clone, Copy, Debug, PartialEq, Eq, Structural)]
pub enum FramingError {
    /// The stream ended before a declared-length payload was fully read.
    Truncated,
    /// A length prefix exceeded `MAX_FRAME_PAYLOAD`.
    OversizedFrame,
    /// A length prefix of zero; payload-free frames are not accepted.
    EmptyFrame,
}

/// The bytes of one frame carrying `payload`.
pub open spec fn frame_of(payload: Seq<u8>) -> Seq<u8> {
    be32_of(payload.len() as u32) + payload
}

/// Whether `payload` can be carried by a frame at all.
pub open spec fn payload_frameable(payload: Seq<u8>) -> bool {
    1 <= payload.len() <= MAX_FRAME_PAYLOAD
}

/// What the head of a byte stream holds, to a frame decoder.
#[verifier::ext_equal]
pub enum FrameStep {
    /// Too few bytes yet for a prefix or for the declared payload.
    NeedMore,
    /// A complete frame: its payload, and the bytes after it.
    Frame(Seq<u8>, Seq<u8>),
    /// A prefix that no well-formed stream contains.
    Reject(FramingError),
}

/// Decodes the first frame of `s`, if one is complete at its head.
pub open spec fn frame_step(s: Seq<u8>) -> FrameStep {
    if s.len() < 4 {
        FrameStep::NeedMore
    } else {
        let n = be32_val(s);
        if n == 0 {
            FrameStep::Reject(FramingError::EmptyFrame)
        } else if n > MAX_FRAME_PAYLOAD as nat {
            FrameStep::Reject(FramingError::OversizedFrame)
        } else if s.len() < 4 + n {
            FrameStep::NeedMore
        } else {
            FrameStep::Frame(s.subrange(4, 4 + n as int), s.skip(4 + n as int))
        }
    }
}

/// The decoding of a whole stream: the complete frames at its head, the
/// bytes left over after them, and the fault its head holds, if any.
#[verifier::ext_equal]
pub struct StreamDecode {
    pub frames: Seq<Seq<u8>>,
    pub leftover: Seq<u8>,
    pub reject: Option<FramingError>,
}

/// Decodes every complete frame at the head of `s`.
pub open spec fn decode_all(s: Seq<u8>) -> StreamDecode
    decreases s.len(),
{
    match frame_step(s) {
        FrameStep::NeedMore => StreamDecode { frames: seq![], leftover: s, reject: None },
        FrameStep::Reject(e) => StreamDecode { frames: seq![], leftover: s, reject: Some(e) },
        FrameStep::Frame(f, rest) => {
            let d = decode_all(rest);
            StreamDecode { frames: seq![f] + d.frames, leftover: d.leftover, reject: d.reject }
        },
    }
}

/// A step on a stream is a step on any extension of it, once the step
/// no longer needs more bytes.
proof fn lemma_frame_step_extend(s: Seq<u8>, t: Seq<u8>)
    ensures
        frame_step(s) matches FrameStep::Reject(e) ==> (frame_step(s + t) == FrameStep::Reject(e)),
        frame_step(s) matches FrameStep::Frame(f, rest) ==> frame_step(s + t) == FrameStep::Frame(
            f,
            rest + t,
        ),
{
    if s.len() >= 4 {
        assert(be32_val(s + t) == be32_val(s));
        let n = be32_val(s);
        if 1 <= n <= MAX_FRAME_PAYLOAD as nat && s.len() >= 4 + n {
            assert((s + t).subrange(4, 4 + n as int) =~= s.subrange(4, 4 + n as int));
            assert((s + t).skip(4 + n as int) =~= s.skip(4 + n as int) + t);
        }
    }
}

/// Frame integrity: decoding is incremental. Extending a stream by more
/// bytes keeps every frame already decoded and decodes the rest from
/// the leftover alone — so the decoded frame sequence depends only on
/// the concatenation of the chunks a stream arrives in, never on where
/// the chunk boundaries fall.
pub proof fn lemma_decode_extend(s: Seq<u8>, t: Seq<u8>)
    requires
        decode_all(s).reject is None,
    ensures
        decode_all(s + t).frames == decode_all(s).frames + decode_all(
            decode_all(s).leftover + t,
        ).frames,
        decode_all(s + t).leftover == decode_all(decode_all(s).leftover + t).leftover,
        decode_all(s + t).reject == decode_all(decode_all(s).leftover + t).reject,
    decreases s.len(),
{
    lemma_frame_step_extend(s, t);
    match frame_step(s) {
        FrameStep::NeedMore => {
            assert(decode_all(s).leftover == s);
            assert(decode_all(s).frames =~= seq![]);
            assert(decode_all(s + t).frames =~= decode_all(s).frames + decode_all(s + t).frames);
        },
        FrameStep::Reject(_) => {},
        FrameStep::Frame(f, rest) => {
            lemma_decode_extend(rest, t);
            assert(decode_all(s + t).frames =~= decode_all(s).frames + decode_all(
                decode_all(s).leftover + t,
            ).frames);
        },
    }
}

/// A fault at the head of a stream stays the same fault however many
/// bytes follow: a broken prefix cannot be mended by more input.
pub proof fn lemma_reject_extend(s: Seq<u8>, t: Seq<u8>)
    requires
        decode_all(s).reject is Some,
    ensures
        decode_all(s + t).reject == decode_all(s).reject,
    decreases s.len(),
{
    lemma_frame_step_extend(s, t);
    match frame_step(s) {
        FrameStep::NeedMore => {},
        FrameStep::Reject(_) => {},
        FrameStep::Frame(f, rest) => {
            lemma_reject_extend(rest, t);
        },
    }
}

/// A frame put at the head of a stream is the first frame decoded from
/// it, and the rest of the stream decodes independently after it.
pub proof fn lemma_decode_frame_of(payload: Seq<u8>, rest: Seq<u8>)
    requires
        payload_frameable(payload),
    ensures
        decode_all(frame_of(payload) + rest) == (StreamDecode {
            frames: seq![payload] + decode_all(rest).frames,
            leftover: decode_all(rest).leftover,
            reject: decode_all(rest).reject,
        }),
{
    let s = frame_of(payload) + rest;
    lemma_be32_round_trip(payload.len() as u32);
    assert(be32_val(s) == be32_val(be32_of(payload.len() as u32)));
    assert(s.subrange(4, 4 + payload.len() as int) =~= payload);
    assert(s.skip(4 + payload.len() as int) =~= rest);
    assert(decode_all(s) =~= StreamDecode {
        frames: seq![payload] + decode_all(rest).frames,
        leftover: decode_all(rest).leftover,
        reject: decode_all(rest).reject,
    });
}

/// Wraps `payload` in a frame: a 4-byte big-endian length prefix, then
/// the payload itself.
pub fn encode_frame(payload: &Vec<u8>) -> (r: Result<Vec<u8>, FramingError>)
    ensures
        payload@.len() == 0 ==> (r matches Err(e) && e == FramingError::EmptyFrame),
        payload@.len() > MAX_FRAME_PAYLOAD ==> (r matches Err(e) && e == FramingError::OversizedFrame),
        payload_frameable(payload@) ==> (r matches Ok(f) && f@ == frame_of(payload@)),
{
    let n = payload.len();
    if n == 0 {
        return Err(FramingError::EmptyFrame);
    }
    if n > MAX_FRAME_PAYLOAD as usize {
        return Err(FramingError::OversizedFrame);
    }
    let mut out: Vec<u8> = Vec::new();
    put_be32(&mut out, n as u32);
    let mut i: usize = 0;
    while i < payload.len()
        invariant
            i <= payload@.len(),
            out@ == be32_of(payload@.len() as u32) + payload@.take(i as int),
        decreases payload@.len() - i,
    {
        out.push(payload[i]);
        i = i + 1;
        proof {
            assert(out@ =~= be32_of(payload@.len() as u32) + payload@.take(i as int));
        }
    }
    proof {
        assert(payload@.take(payload@.len() as int) =~= payload@);
    }
    Ok(out)
}

/// An incremental frame decoder: bytes go in as they arrive off the
/// stream, in chunks of any size; complete frames come out. Its view is
/// the bytes received and not yet decoded into a frame.
pub struct FrameDecoder {
    buf: Vec<u8>,
    start: usize,
}

impl FrameDecoder {
    /// The decoder's bookkeeping is sound.
    pub closed spec fn wf(&self) -> bool {
        self.start <= self.buf@.len()
    }

    pub closed spec fn view(&self) -> Seq<u8> {
        self.buf@.skip(self.start as int)
    }

    /// A fresh decoder holding no bytes.
    pub fn new() -> (d: FrameDecoder)
        ensures
            d.wf(),
            d@ == Seq::<u8>::empty(),
    {
        let d = FrameDecoder { buf: Vec::new(), start: 0 };
        proof {
            assert(d@ =~= Seq::<u8>::empty());
        }
        d
    }

    /// Receives one chunk of the stream, of any size.
    pub fn push_chunk(&mut self, chunk: &Vec<u8>)
        requires
            old(self).wf(),
        ensures
            final(self).wf(),
            final(self)@ == old(self)@ + chunk@,
    {
        let mut i: usize = 0;
        while i < chunk.len()
            invariant
                i <= chunk@.len(),
                old(self).wf(),
                self.buf@ == old(self).buf@ + chunk@.take(i as int),
                self.start == old(self).start,
            decreases chunk@.len() - i,
        {
            self.buf.push(chunk[i]);
            i = i + 1;
            proof {
                assert(self.buf@ =~= old(self).buf@ + chunk@.take(i as int));
            }
        }
        proof {
            assert(chunk@.take(chunk@.len() as int) =~= chunk@);
            assert(final(self)@ =~= old(self)@ + chunk@);
        }
    }

    /// Takes the next complete frame's payload out of the decoder, if
    /// the bytes received so far hold one; reports a fault if they
    /// cannot head any well-formed stream.
    pub fn next_frame(&mut self) -> (r: Result<Option<Vec<u8>>, FramingError>)
        requires
            old(self).wf(),
        ensures
            final(self).wf(),
            match frame_step(old(self)@) {
                FrameStep::NeedMore => r matches Ok(p) && p is None && final(self)@ == old(self)@,
                FrameStep::Reject(e) => r matches Err(e2) && e2 == e && final(self)@ == old(self)@,
                FrameStep::Frame(f, rest) => r matches Ok(p) && p matches Some(v) && v@ == f
                    && final(self)@ == rest,
            },
    {
        let avail = self.buf.len() - self.start;
        if avail < 4 {
            return Ok(None);
        }
        let n = get_be32(&self.buf, self.start);
        proof {
            assert(self.buf@.skip(self.start as int) == self@);
        }
        if n == 0 {
            return Err(FramingError::EmptyFrame);
        }
        if n > MAX_FRAME_PAYLOAD {
            return Err(FramingError::OversizedFrame);
        }
        let n = n as usize;
        if avail - 4 < n {
            return Ok(None);
        }
        let mut payload: Vec<u8> = Vec::new();
        let base = self.start + 4;
        let total = self.buf.len();
        let mut i: usize = 0;
        while i < n
            invariant
                i <= n,
                base + n <= total,
                total == self.buf@.len(),
                base == self.start + 4,
                payload@ == self.buf@.subrange(base as int, base as int + i as int),
            decreases n - i,
        {
            payload.push(self.buf[base + i]);
            i = i + 1;
            proof {
                assert(payload@ =~= self.buf@.subrange(base as int, base as int + i as int));
            }
        }
        self.start = base + n;
        proof {
            assert(payload@ =~= old(self)@.subrange(4, 4 + n as int));
            assert(final(self)@ =~= old(self)@.skip(4 + n as int));
        }
        Ok(Some(payload))
    }

    /// The stream has ended. A clean end leaves no bytes behind; any
    /// leftover means the peer stopped mid-frame.
    pub fn finish(&self) -> (r: Result<(), FramingError>)
        requires
            self.wf(),
        ensures
            self@.len() == 0 ==> (r matches Ok(u) && u == ()),
            self@.len() > 0 ==> (r matches Err(e) && e == FramingError::Truncated),
    {
        if self.start < self.buf.len() {
            Err(FramingError::Truncated)
        } else {
            Ok(())
        }
    }
}

/// Decodes every frame of a stream that arrived split into chunks
/// of arbitrary sizes, feeding the decoder one chunk at a time:
/// what comes out is exactly the decoding of the unsplit stream,
/// wherever the chunk boundaries fall.
pub fn decode_chunks(chunks: &Vec<Vec<u8>>) -> (r: Result<Vec<Vec<u8>>, FramingError>)
    ensures
        ({
            let d = decode_all(chunks.deep_view().flatten());
            match d.reject {
                Some(e) => r matches Err(e2) && e2 == e,
                None => if d.leftover.len() == 0 {
                    r matches Ok(fs) && fs.deep_view() == d.frames
                } else {
                    (r matches Err(e2) && e2 == FramingError::Truncated)
                },
            }
        }),
{
    let ghost dv = chunks.deep_view();
    let mut dec = FrameDecoder::new();
    let mut out: Vec<Vec<u8>> = Vec::new();
    let n = chunks.len();
    let mut i: usize = 0;
    proof {
        assert(dv.take(0) =~= Seq::<Seq<u8>>::empty());
        assert(dv.take(0).flatten() =~= Seq::<u8>::empty());
        assert(out.deep_view() =~= Seq::<Seq<u8>>::empty());
    }
    while i < n
        invariant
            i <= n,
            n == chunks@.len(),
            dv == chunks.deep_view(),
            dec.wf(),
            frame_step(dec@) is NeedMore,
            decode_all(dv.take(i as int).flatten()).reject is None,
            out.deep_view() == decode_all(dv.take(i as int).flatten()).frames,
            dec@ == decode_all(dv.take(i as int).flatten()).leftover,
        decreases n - i,
    {
        let ghost consumed = dv.take(i as int).flatten();
        let ghost pre = dec@;
        dec.push_chunk(&chunks[i]);
        proof {
            assert(chunks@[i as int].deep_view() == dv[i as int]);
            assert(chunks@[i as int].deep_view() =~= chunks@[i as int]@);
            dv.take(i as int).lemma_flatten_push(dv[i as int]);
            assert(dv.take(i as int).push(dv[i as int]) =~= dv.take(i as int + 1));
            assert(dv.take(i as int + 1).flatten() == consumed + dv[i as int]);
            lemma_decode_extend(consumed, dv[i as int]);
            assert(decode_all(consumed).leftover == pre);
            assert(decode_all(pre).frames =~= Seq::<Seq<u8>>::empty());
            assert(out.deep_view() + decode_all(dec@).frames =~= decode_all(
                dv.take(i as int + 1).flatten(),
            ).frames);
        }
        let mut more = true;
        while more
            invariant
                i < n,
                n == chunks@.len(),
                dv == chunks.deep_view(),
                dec.wf(),
                decode_all(dv.take(i as int + 1).flatten()).reject == decode_all(dec@).reject,
                decode_all(dv.take(i as int + 1).flatten()).leftover == decode_all(
                    dec@,
                ).leftover,
                out.deep_view() + decode_all(dec@).frames == decode_all(
                    dv.take(i as int + 1).flatten(),
                ).frames,
                !more ==> frame_step(dec@) is NeedMore,
            decreases dec@.len(), (if more { 1int } else { 0int }),
        {
            let ghost before = dec@;
            let ghost out_before = out.deep_view();
            match dec.next_frame() {
                Ok(None) => {
                    more = false;
                },
                Ok(Some(f)) => {
                    proof {
                        assert(decode_all(before).frames == seq![f@] + decode_all(
                            dec@,
                        ).frames);
                    }
                    out.push(f);
                    proof {
                        assert(out.deep_view() =~~= out_before.push(f@));
                        assert(out.deep_view() + decode_all(dec@).frames =~= out_before + (
                        seq![f@] + decode_all(dec@).frames));
                    }
                },
                Err(e) => {
                    proof {
                        let head = dv.take(i as int + 1).flatten();
                        let tail = dv.skip(i as int + 1).flatten();
                        assert(decode_all(head).reject == Some(e));
                        lemma_reject_extend(head, tail);
                        assert(dv.take(i as int + 1) + dv.skip(i as int + 1) =~= dv);
                        vstd::seq_lib::lemma_flatten_concat(
                            dv.take(i as int + 1),
                            dv.skip(i as int + 1),
                        );
                        assert(dv.flatten() == head + tail);
                    }
                    return Err(e);
                },
            }
        }
        proof {
            assert(decode_all(dec@).frames =~= Seq::<Seq<u8>>::empty());
            assert(out.deep_view() =~= decode_all(dv.take(i as int + 1).flatten()).frames);
        }
        i = i + 1;
    }
    proof {
        assert(dv.take(n as int) =~= dv);
    }
    match dec.finish() {
        Ok(_) => Ok(out),
        Err(e) => Err(e),
    }
}


} // verus!
