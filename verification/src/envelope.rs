//! The decoded units of communication: request and response envelopes
//! and the per-call context metadata attached to every request.

use vstd::prelude::*;

verus! {

/// One forward-compatible context extension: an uninterpreted key and
/// value that ride with the call. The core never reads them; they are
/// carried for the handler and for peers that know the key.
#[derive(Debug)]
pub struct Extension {
    pub key: Vec<u8>,
    pub value: Vec<u8>,
}

/// The mathematical value of a context extension.
#[verifier::ext_equal]
pub struct ExtensionV {
    pub key: Seq<u8>,
    pub value: Seq<u8>,
}

impl View for Extension {
    type V = ExtensionV;

    open spec fn view(&self) -> ExtensionV {
        ExtensionV { key: self.key@, value: self.value@ }
    }
}

/// Per-call metadata carried by every request: an optional absolute
/// deadline (milliseconds on a monotonic clock), an optional trace
/// identifier, and any forward-compatible key/value extensions. A
/// context is created once per inbound request and never mutated
/// afterwards; it owns nothing of the connection.
#[derive(Debug)]
pub struct Context {
    pub deadline_millis: Option<u64>,
    pub trace_id: Option<u64>,
    pub extensions: Vec<Extension>,
}

impl Context {
    /// The deadline, if one was attached to the call.
    pub fn deadline(&self) -> (r: Option<u64>)
        ensures
            r == self.deadline_millis,
    {
        self.deadline_millis
    }

    /// The trace identifier, if one was attached to the call.
    pub fn trace(&self) -> (r: Option<u64>)
        ensures
            r == self.trace_id,
    {
        self.trace_id
    }

    /// Whether the deadline, if any, has already passed at `now_millis`.
    pub fn deadline_elapsed(&self, now_millis: u64) -> (r: bool)
        ensures
            r == (self.deadline_millis matches Some(d) && d <= now_millis),
    {
        match self.deadline_millis {
            Some(d) => d <= now_millis,
            None => false,
        }
    }
}

/// An error reported in place of a result in a response envelope.
#[derive(Clone, Copy, Debug, PartialEq, Eq, Structural)]
pub enum DispatchError {
    /// The request named a method the handler binding does not know.
    UnknownMethod,
    /// The handler ran and failed.
    HandlerFailure,
    /// The call's deadline passed before a result was produced.
    TimeoutError,
}

/// An inbound call: a call identifier unique within the connection, a
/// method name, a serialized argument, and the attached context.
#[derive(Debug)]
pub struct Request {
    pub id: u64,
    pub method: Vec<u8>,
    pub arg: Vec<u8>,
    pub context: Context,
}

/// The reply to a call: the originating call's identifier and either a
/// serialized result or the error that stands in for one.
#[derive(Debug)]
pub struct Response {
    pub id: u64,
    pub outcome: Result<Vec<u8>, DispatchError>,
}

/// A decoded unit of communication: one of a request or a response.
#[derive(Debug)]
pub enum Envelope {
    Req(Request),
    Resp(Response),
}

/// The mathematical value of a request: byte strings as sequences.
#[verifier::ext_equal]
pub struct RequestV {
    pub id: u64,
    pub method: Seq<u8>,
    pub arg: Seq<u8>,
    pub deadline_millis: Option<u64>,
    pub trace_id: Option<u64>,
    pub extensions: Seq<ExtensionV>,
}

/// The mathematical value of a response.
#[verifier::ext_equal]
pub struct ResponseV {
    pub id: u64,
    pub outcome: Result<Seq<u8>, DispatchError>,
}

/// The mathematical value of an envelope.
#[verifier::ext_equal]
pub enum EnvelopeV {
    Req(RequestV),
    Resp(ResponseV),
}

impl View for Request {
    type V = RequestV;

    open spec fn view(&self) -> RequestV {
        RequestV {
            id: self.id,
            method: self.method@,
            arg: self.arg@,
            deadline_millis: self.context.deadline_millis,
            trace_id: self.context.trace_id,
            extensions: self.context.extensions@.map_values(|e: Extension| e@),
        }
    }
}

/// The mathematical value of a call's outcome.
pub open spec fn outcome_view(o: Result<Vec<u8>, DispatchError>) -> Result<Seq<u8>, DispatchError> {
    match o {
        Ok(b) => Ok(b@),
        Err(e) => Err(e),
    }
}

impl View for Response {
    type V = ResponseV;

    open spec fn view(&self) -> ResponseV {
        ResponseV { id: self.id, outcome: outcome_view(self.outcome) }
    }
}

impl View for Envelope {
    type V = EnvelopeV;

    open spec fn view(&self) -> EnvelopeV {
        match self {
            Envelope::Req(r) => EnvelopeV::Req(r@),
            Envelope::Resp(r) => EnvelopeV::Resp(r@),
        }
    }
}

} // verus!
