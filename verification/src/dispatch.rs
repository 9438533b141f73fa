//! The dispatch engine: pulls frames off the inbound stream, decodes
//! each into a request, answers deadline-expired and unknown-method
//! calls itself, and hands every other call out for invocation; when a
//! call completes, it produces the one response frame that carries that
//! call's identifier.
//!
//! The engine is a state machine over plain values. The caller owns the
//! socket and the scheduler: it feeds inbound byte chunks in, performs
//! the actions handed back (invoke a handler, write a frame), and
//! reports each handler's completion. Responses may complete in any
//! order; correlation is by call identifier alone.

use vstd::prelude::*;
use crate::codec::{CodecError, dec_envelope, enc_envelope, lemma_codec_round_trip,
    response_valid_outcome, serialize_envelope};
use crate::envelope::{DispatchError, Envelope, EnvelopeV, Request, RequestV, Response, ResponseV,
    outcome_view};
use crate::framing::{FrameDecoder, FrameStep, FramingError, MAX_FRAME_PAYLOAD, encode_frame,
    frame_of, frame_step};

verus! {

/// The longest result a response frame can carry: the frame ceiling
/// less the response envelope's fixed overhead (one tag byte, an
/// 8-byte call identifier, one outcome byte, a 4-byte length prefix).
pub const MAX_RESULT_LEN: u32 = MAX_FRAME_PAYLOAD - 14;

/// A fault that tears the connection down: once framing or decoding
/// goes wrong mid-stream, no later byte can be trusted.
#[derive(Clone, Copy, Debug, PartialEq, Eq, Structural)]
pub enum ConnectionFault {
    Framing(FramingError),
    Codec(CodecError),
}

/// What the engine asks of its caller.
pub enum Action {
    /// Run the bound operation for this request and report its
    /// completion through `complete`.
    Invoke(Request),
    /// Write this frame to the peer, whole and uninterleaved.
    Reply(Vec<u8>),
}

/// The mathematical state of the engine.
#[verifier::ext_equal]
pub struct EngineV {
    /// Bytes received and not yet decoded into a frame.
    pub buffered: Seq<u8>,
    /// The method names the handler binding knows.
    pub methods: Seq<Seq<u8>>,
    /// Identifiers of calls handed out and not yet completed.
    pub in_flight: Seq<u64>,
    /// Whether the terminal state has been reached.
    pub closed: bool,
}

/// Whether `m` is a method the handler binding knows.
pub open spec fn known_method(methods: Seq<Seq<u8>>, m: Seq<u8>) -> bool {
    exists|k: int| 0 <= k < methods.len() && methods[k] == m
}

/// Whether `q`'s deadline, if any, has passed at `now`.
pub open spec fn timed_out(q: RequestV, now: u64) -> bool {
    q.deadline_millis matches Some(d) && d <= now
}

/// The error, if any, that answers `q` without invoking the handler:
/// an already-elapsed deadline is reported first, then an unknown
/// method name.
pub open spec fn immediate_reject(q: RequestV, methods: Seq<Seq<u8>>, now: u64) -> Option<
    DispatchError,
> {
    if timed_out(q, now) {
        Some(DispatchError::TimeoutError)
    } else if !known_method(methods, q.method) {
        Some(DispatchError::UnknownMethod)
    } else {
        None
    }
}

/// The serialized response that answers call `id` with `outcome`.
pub open spec fn response_wire(id: u64, outcome: Result<Seq<u8>, DispatchError>) -> Seq<u8> {
    enc_envelope(EnvelopeV::Resp(ResponseV { id, outcome }))
}

/// The frame that carries `response_wire(id, outcome)`.
pub open spec fn response_frame(id: u64, outcome: Result<Seq<u8>, DispatchError>) -> Seq<u8> {
    frame_of(response_wire(id, outcome))
}

/// The first occurrence of `x` removed from `s`.
pub open spec fn remove_first(s: Seq<u64>, x: u64) -> Seq<u64>
    decreases s.len(),
{
    if s.len() == 0 {
        s
    } else if s[0] == x {
        s.skip(1)
    } else {
        seq![s[0]] + remove_first(s.skip(1), x)
    }
}

/// Compares two byte strings.
fn bytes_eq(a: &Vec<u8>, b: &Vec<u8>) -> (r: bool)
    ensures
        r == (a@ == b@),
{
    let n = a.len();
    if n != b.len() {
        return false;
    }
    let mut i: usize = 0;
    while i < n
        invariant
            i <= n,
            n == a@.len(),
            n == b@.len(),
            forall|j: int| 0 <= j < i ==> a@[j] == b@[j],
        decreases n - i,
    {
        if a[i] != b[i] {
            return false;
        }
        i = i + 1;
    }
    proof {
        assert(a@ =~= b@);
    }
    true
}

/// A response's serialized length: its fixed overhead, plus the result
/// and its length prefix when there is one.
proof fn lemma_response_wire_len(id: u64, outcome: Result<Seq<u8>, DispatchError>)
    ensures
        response_wire(id, outcome).len() == match outcome {
            Ok(b) => 14 + b.len(),
            Err(_) => 10nat,
        },
{
}

/// Builds the one frame that answers call `id` with `outcome`.
pub fn build_response_frame(id: u64, outcome: Result<Vec<u8>, DispatchError>) -> (r: Vec<u8>)
    requires
        outcome matches Ok(b) ==> b@.len() <= MAX_RESULT_LEN,
    ensures
        r@ == response_frame(id, outcome_view(outcome)),
{
    proof {
        lemma_response_wire_len(id, outcome_view(outcome));
    }
    let payload = serialize_envelope(&Envelope::Resp(Response { id, outcome }));
    match encode_frame(&payload) {
        Ok(f) => f,
        Err(_) => {
            proof {
                assert(false);
            }
            Vec::new()
        },
    }
}

/// Correlation: the response produced for a completed call carries that
/// call's own identifier, whatever order completions arrive in; when
/// the identifiers are distinct, no call's response decodes to another
/// call's identifier.
pub proof fn lemma_correlation(calls: Seq<(u64, Result<Seq<u8>, DispatchError>)>, i: int, j: int)
    requires
        forall|k: int| 0 <= k < calls.len() ==> response_valid_outcome(#[trigger] calls[k].1),
        forall|a: int, b: int| 0 <= a < b < calls.len() ==> calls[a].0 != calls[b].0,
        0 <= i < calls.len(),
        0 <= j < calls.len(),
    ensures
        dec_envelope(response_wire(calls[i].0, calls[i].1)) == Some(
            EnvelopeV::Resp(ResponseV { id: calls[i].0, outcome: calls[i].1 }),
        ),
        i != j ==> (dec_envelope(response_wire(calls[i].0, calls[i].1)) matches Some(e)
            && e matches EnvelopeV::Resp(p) && p.id != calls[j].0),
{
    lemma_codec_round_trip(EnvelopeV::Resp(ResponseV { id: calls[i].0, outcome: calls[i].1 }));
}

/// The dispatch engine for one connection.
pub struct DispatchEngine {
    decoder: FrameDecoder,
    methods: Vec<Vec<u8>>,
    in_flight: Vec<u64>,
    closed: bool,
}

impl View for DispatchEngine {
    type V = EngineV;

    closed spec fn view(&self) -> EngineV {
        EngineV {
            buffered: self.decoder@,
            methods: self.methods.deep_view(),
            in_flight: self.in_flight@,
            closed: self.closed,
        }
    }
}

impl DispatchEngine {
    /// The engine's bookkeeping is sound.
    pub closed spec fn wf(&self) -> bool {
        self.decoder.wf()
    }

    /// An engine for one connection, bound to the given method names.
    pub fn new(methods: Vec<Vec<u8>>) -> (e: DispatchEngine)
        ensures
            e.wf(),
            e@ == (EngineV {
                buffered: Seq::<u8>::empty(),
                methods: methods.deep_view(),
                in_flight: Seq::<u64>::empty(),
                closed: false,
            }),
    {
        let e = DispatchEngine {
            decoder: FrameDecoder::new(),
            methods,
            in_flight: Vec::new(),
            closed: false,
        };
        proof {
            assert(e@ =~= EngineV {
                buffered: Seq::<u8>::empty(),
                methods: e.methods.deep_view(),
                in_flight: Seq::<u64>::empty(),
                closed: false,
            });
        }
        e
    }

    /// Whether the terminal state has been reached.
    pub fn is_closed(&self) -> (r: bool)
        ensures
            r == self@.closed,
    {
        self.closed
    }

    /// How many calls are handed out and not yet completed.
    pub fn in_flight_count(&self) -> (r: usize)
        ensures
            r == self@.in_flight.len(),
    {
        self.in_flight.len()
    }

    /// Whether call `id` has been handed out and not yet completed.
    pub fn is_in_flight(&self, id: u64) -> (r: bool)
        ensures
            r == self@.in_flight.contains(id),
    {
        let n = self.in_flight.len();
        let mut k: usize = 0;
        while k < n
            invariant
                k <= n,
                n == self.in_flight@.len(),
                forall|j: int| 0 <= j < k ==> self.in_flight@[j] != id,
            decreases n - k,
        {
            if self.in_flight[k] == id {
                return true;
            }
            k = k + 1;
        }
        false
    }

    /// Whether `m` is a method the handler binding knows.
    fn knows_method(&self, m: &Vec<u8>) -> (r: bool)
        ensures
            r == known_method(self@.methods, m@),
    {
        let n = self.methods.len();
        let mut k: usize = 0;
        while k < n
            invariant
                k <= n,
                n == self.methods@.len(),
                forall|j: int| 0 <= j < k ==> self@.methods[j] != m@,
            decreases n - k,
        {
            if bytes_eq(&self.methods[k], m) {
                proof {
                    assert(self@.methods[k as int] == self.methods@[k as int]@);
                }
                return true;
            }
            proof {
                assert(self@.methods[k as int] == self.methods@[k as int]@);
            }
            k = k + 1;
        }
        false
    }

    /// Receives one chunk of the inbound stream, of any size.
    pub fn ingest(&mut self, chunk: &Vec<u8>)
        requires
            old(self).wf(),
            !old(self)@.closed,
        ensures
            final(self).wf(),
            final(self)@ == (EngineV { buffered: old(self)@.buffered + chunk@, ..old(self)@ }),
    {
        self.decoder.push_chunk(chunk);
        proof {
            assert(final(self)@ =~= EngineV {
                buffered: old(self)@.buffered + chunk@,
                ..old(self)@
            });
        }
    }

    /// Decodes at most one inbound frame and says what to do for it:
    /// nothing yet, a reply the engine wrote itself (an elapsed
    /// deadline, an unknown method), a handler invocation, or the
    /// fault that closes the connection.
    pub fn poll(&mut self, now_millis: u64) -> (r: Result<Option<Action>, ConnectionFault>)
        requires
            old(self).wf(),
            !old(self)@.closed,
        ensures
            final(self).wf(),
            final(self)@.methods == old(self)@.methods,
            match frame_step(old(self)@.buffered) {
                FrameStep::NeedMore => {
                    &&& r matches Ok(a) && a is None
                    &&& final(self)@ == old(self)@
                },
                FrameStep::Reject(e) => {
                    &&& r matches Err(f) && f == ConnectionFault::Framing(e)
                    &&& final(self)@ == (EngineV { closed: true, ..old(self)@ })
                },
                FrameStep::Frame(f, rest) => {
                    &&& final(self)@.buffered == rest
                    &&& match dec_envelope(f) {
                        Some(EnvelopeV::Req(q)) => {
                            &&& !final(self)@.closed
                            &&& match immediate_reject(q, old(self)@.methods, now_millis) {
                                Some(err) => {
                                    &&& r matches Ok(a) && a matches Some(act) && act matches Action::Reply(w) && w@ == response_frame(q.id, Err(err))
                                    &&& final(self)@.in_flight == old(self)@.in_flight
                                },
                                None => {
                                    &&& r matches Ok(a) && a matches Some(act) && act matches Action::Invoke(rq) && rq@ == q
                                    &&& final(self)@.in_flight == old(self)@.in_flight.push(q.id)
                                },
                            }
                        },
                        _ => {
                            &&& r matches Err(fault) && fault == ConnectionFault::Codec(CodecError::Malformed)
                            &&& final(self)@.closed
                            &&& final(self)@.in_flight == old(self)@.in_flight
                        },
                    }
                },
            },
    {
        match self.decoder.next_frame() {
            Err(e) => {
                self.closed = true;
                Err(ConnectionFault::Framing(e))
            },
            Ok(None) => {
                proof {
                    assert(final(self)@ =~= old(self)@);
                }
                Ok(None)
            },
            Ok(Some(payload)) => {
                match crate::codec::deserialize_envelope(&payload) {
                    Err(_) => {
                        self.closed = true;
                        Err(ConnectionFault::Codec(CodecError::Malformed))
                    },
                    Ok(Envelope::Resp(_)) => {
                        self.closed = true;
                        Err(ConnectionFault::Codec(CodecError::Malformed))
                    },
                    Ok(Envelope::Req(q)) => {
                        if q.context.deadline_elapsed(now_millis) {
                            let w = build_response_frame(
                                q.id,
                                Err(DispatchError::TimeoutError),
                            );
                            Ok(Some(Action::Reply(w)))
                        } else if !self.knows_method(&q.method) {
                            let w = build_response_frame(
                                q.id,
                                Err(DispatchError::UnknownMethod),
                            );
                            Ok(Some(Action::Reply(w)))
                        } else {
                            self.in_flight.push(q.id);
                            Ok(Some(Action::Invoke(q)))
                        }
                    },
                }
            },
        }
    }

    /// A handed-out call has completed: produces the one frame that
    /// answers it, and retires its identifier.
    pub fn complete(&mut self, id: u64, outcome: Result<Vec<u8>, DispatchError>) -> (r: Vec<u8>)
        requires
            old(self).wf(),
            old(self)@.in_flight.contains(id),
            outcome matches Ok(b) ==> b@.len() <= MAX_RESULT_LEN,
        ensures
            final(self).wf(),
            r@ == response_frame(id, outcome_view(outcome)),
            final(self)@ == (EngineV {
                in_flight: remove_first(old(self)@.in_flight, id),
                ..old(self)@
            }),
    {
        let n = self.in_flight.len();
        let mut k: usize = 0;
        while k < n
            invariant
                k <= n,
                n == self.in_flight@.len(),
                self == old(self),
                old(self).wf(),
                outcome matches Ok(b) ==> b@.len() <= MAX_RESULT_LEN,
                forall|j: int| 0 <= j < k ==> self.in_flight@[j] != id,
            decreases n - k,
        {
            if self.in_flight[k] == id {
                self.in_flight.remove(k);
                proof {
                    lemma_remove_first_at(old(self)@.in_flight, id, k as int);
                    assert(final(self)@ =~= EngineV {
                        in_flight: remove_first(old(self)@.in_flight, id),
                        ..old(self)@
                    });
                }
                return build_response_frame(id, outcome);
            }
            k = k + 1;
        }
        proof {
            assert(false);
        }
        Vec::new()
    }

    /// The peer has closed the stream. A mid-frame end is a framing
    /// fault; a clean end reaches the terminal state, abandoning any
    /// calls still in flight (their responses would have nowhere to go)
    /// and reporting how many were abandoned.
    pub fn on_stream_end(&mut self) -> (r: Result<usize, ConnectionFault>)
        requires
            old(self).wf(),
            !old(self)@.closed,
        ensures
            final(self).wf(),
            final(self)@.closed,
            final(self)@.buffered == old(self)@.buffered,
            final(self)@.methods == old(self)@.methods,
            old(self)@.buffered.len() > 0 ==> (r matches Err(f) && f == ConnectionFault::Framing(
                FramingError::Truncated,
            ) && final(self)@.in_flight == old(self)@.in_flight),
            old(self)@.buffered.len() == 0 ==> (r matches Ok(n) && n == old(
                self,
            )@.in_flight.len() && final(self)@.in_flight.len() == 0),
    {
        self.closed = true;
        match self.decoder.finish() {
            Err(_) => Err(ConnectionFault::Framing(FramingError::Truncated)),
            Ok(()) => {
                let n = self.in_flight.len();
                self.in_flight.clear();
                Ok(n)
            },
        }
    }
}

/// Removing the first occurrence of `x`, found at index `k`, is
/// removing index `k`.
proof fn lemma_remove_first_at(s: Seq<u64>, x: u64, k: int)
    requires
        0 <= k < s.len(),
        s[k] == x,
        forall|j: int| 0 <= j < k ==> s[j] != x,
    ensures
        remove_first(s, x) == s.remove(k),
    decreases k,
{
    if k == 0 {
        assert(remove_first(s, x) == s.skip(1));
        assert(s.remove(0) =~= s.skip(1));
    } else {
        lemma_remove_first_at(s.skip(1), x, k - 1);
        assert(remove_first(s, x) == seq![s[0]] + remove_first(s.skip(1), x));
        assert(seq![s[0]] + s.skip(1).remove(k - 1) =~= s.remove(k));
    }
}

} // verus!