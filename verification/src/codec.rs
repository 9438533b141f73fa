//! The codec layer: serializes a request or response envelope to the
//! bytes carried inside one frame, and deserializes such bytes back.
//!
//! The encoding is deterministic and self-delimiting: a tag byte names
//! the envelope kind, integers are big-endian and fixed-width, optional
//! fields carry a one-byte presence flag, and byte strings carry a
//! 4-byte length prefix. Input that is truncated, mistagged, or longer
//! than the value it encodes is rejected as malformed, never coerced.

use vstd::prelude::*;
use crate::envelope::{Context, DispatchError, Envelope, EnvelopeV, Extension, ExtensionV, Request,
    RequestV, Response, ResponseV, outcome_view};
use crate::wire::{be32_of, be32_val, be64_of, be64_val, lemma_be32_round_trip,
    lemma_be64_round_trip, put_be32, put_be64, get_be32, get_be64};

verus! {

/// The encoding of a byte string: a 4-byte length prefix, then the bytes.
pub open spec fn enc_bytes(b: Seq<u8>) -> Seq<u8> {
    be32_of(b.len() as u32) + b
}

/// The tag byte that opens every encoded request.
pub const TAG_REQUEST: u8 = 1;

/// The tag byte that opens every encoded response.
pub const TAG_RESPONSE: u8 = 2;

/// The outcome byte of a response that carries a result.
pub const OUTCOME_OK: u8 = 0;

/// A codec fault: bytes that no valid envelope encodes to. Codec faults
/// are fatal to the connection.
#[derive(Clone, Copy, Debug, PartialEq, Eq, Structural)]
pub enum CodecError {
    Malformed,
}

/// The outcome byte of a response that carries `e` in place of a result.
pub open spec fn err_code(e: DispatchError) -> u8 {
    match e {
        DispatchError::UnknownMethod => 1u8,
        DispatchError::HandlerFailure => 2u8,
        DispatchError::TimeoutError => 3u8,
    }
}

/// The encoding of an optional integer: a presence flag, then the value.
pub open spec fn enc_opt_u64(o: Option<u64>) -> Seq<u8> {
    match o {
        None => seq![0u8],
        Some(n) => seq![1u8] + be64_of(n),
    }
}

/// The encoding of one context extension: its key, then its value.
pub open spec fn enc_extension(x: ExtensionV) -> Seq<u8> {
    enc_bytes(x.key) + enc_bytes(x.value)
}

/// The encodings of a list of extensions, one after another.
pub open spec fn enc_ext_list(xs: Seq<ExtensionV>) -> Seq<u8>
    decreases xs.len(),
{
    if xs.len() == 0 {
        Seq::<u8>::empty()
    } else {
        enc_extension(xs[0]) + enc_ext_list(xs.skip(1))
    }
}

/// The encoding of a context's extensions: a 4-byte count, then each
/// extension in order.
pub open spec fn enc_extensions(xs: Seq<ExtensionV>) -> Seq<u8> {
    be32_of(xs.len() as u32) + enc_ext_list(xs)
}

/// The encoding of a request, after its tag byte.
pub open spec fn enc_request_body(q: RequestV) -> Seq<u8> {
    be64_of(q.id) + enc_opt_u64(q.deadline_millis) + enc_opt_u64(q.trace_id) + enc_extensions(
        q.extensions,
    ) + enc_bytes(q.method) + enc_bytes(q.arg)
}

/// The encoding of a response's outcome.
pub open spec fn enc_outcome(o: Result<Seq<u8>, DispatchError>) -> Seq<u8> {
    match o {
        Ok(b) => seq![OUTCOME_OK] + enc_bytes(b),
        Err(e) => seq![err_code(e)],
    }
}

/// The encoding of a response, after its tag byte.
pub open spec fn enc_response_body(p: ResponseV) -> Seq<u8> {
    be64_of(p.id) + enc_outcome(p.outcome)
}

/// The encoding of an envelope: what `serialize_envelope` returns.
pub open spec fn enc_envelope(e: EnvelopeV) -> Seq<u8> {
    match e {
        EnvelopeV::Req(q) => seq![TAG_REQUEST] + enc_request_body(q),
        EnvelopeV::Resp(p) => seq![TAG_RESPONSE] + enc_response_body(p),
    }
}

/// Whether one extension's byte strings fit their 4-byte length prefixes.
pub open spec fn extension_valid(x: ExtensionV) -> bool {
    x.key.len() <= u32::MAX && x.value.len() <= u32::MAX
}

/// Whether a request's byte strings and extension list fit their
/// 4-byte length and count prefixes.
pub open spec fn request_valid(q: RequestV) -> bool {
    &&& q.method.len() <= u32::MAX
    &&& q.arg.len() <= u32::MAX
    &&& q.extensions.len() <= u32::MAX
    &&& forall|i: int| 0 <= i < q.extensions.len() ==> extension_valid(#[trigger] q.extensions[i])
}

/// Whether an outcome's result, if any, fits its 4-byte length prefix.
pub open spec fn response_valid_outcome(o: Result<Seq<u8>, DispatchError>) -> bool {
    match o {
        Ok(b) => b.len() <= u32::MAX,
        Err(_) => true,
    }
}

/// Whether a response's result fits its 4-byte length prefix.
pub open spec fn response_valid(p: ResponseV) -> bool {
    response_valid_outcome(p.outcome)
}

/// Whether an envelope can be encoded at all.
pub open spec fn envelope_valid(e: EnvelopeV) -> bool {
    match e {
        EnvelopeV::Req(q) => request_valid(q),
        EnvelopeV::Resp(p) => response_valid(p),
    }
}

/// Decodes one byte; yields it and the rest.
pub open spec fn dec_u8(s: Seq<u8>) -> Option<(u8, Seq<u8>)> {
    if s.len() >= 1 {
        Some((s[0], s.skip(1)))
    } else {
        None
    }
}

/// Decodes a fixed-width big-endian integer; yields it and the rest.
pub open spec fn dec_be64(s: Seq<u8>) -> Option<(u64, Seq<u8>)> {
    if s.len() >= 8 {
        Some((be64_val(s) as u64, s.skip(8)))
    } else {
        None
    }
}

/// Decodes an optional integer: a presence flag, then the value.
pub open spec fn dec_opt_u64(s: Seq<u8>) -> Option<(Option<u64>, Seq<u8>)> {
    if s.len() < 1 {
        None
    } else if s[0] == 0 {
        Some((None, s.skip(1)))
    } else if s[0] == 1 {
        match dec_be64(s.skip(1)) {
            Some((n, rest)) => Some((Some(n), rest)),
            None => None,
        }
    } else {
        None
    }
}

/// Decodes a length-prefixed byte string; yields it and the rest.
pub open spec fn dec_bytes(s: Seq<u8>) -> Option<(Seq<u8>, Seq<u8>)> {
    if s.len() < 4 {
        None
    } else {
        let n = be32_val(s);
        if s.len() < 4 + n {
            None
        } else {
            Some((s.subrange(4, 4 + n as int), s.skip(4 + n as int)))
        }
    }
}

/// Decodes `n` extensions, one after another; yields them and the rest.
pub open spec fn dec_ext_list(s: Seq<u8>, n: nat) -> Option<(Seq<ExtensionV>, Seq<u8>)>
    decreases n,
{
    if n == 0 {
        Some((Seq::<ExtensionV>::empty(), s))
    } else {
        match dec_bytes(s) {
            None => None,
            Some((key, s1)) => match dec_bytes(s1) {
                None => None,
                Some((value, s2)) => match dec_ext_list(s2, (n - 1) as nat) {
                    None => None,
                    Some((rest, s3)) => Some((seq![ExtensionV { key, value }] + rest, s3)),
                },
            },
        }
    }
}

/// Decodes a context's extensions: a 4-byte count, then that many
/// extensions; yields them and the rest.
pub open spec fn dec_extensions(s: Seq<u8>) -> Option<(Seq<ExtensionV>, Seq<u8>)> {
    if s.len() < 4 {
        None
    } else {
        dec_ext_list(s.skip(4), be32_val(s))
    }
}

/// Decodes a request body; yields it and the rest.
pub open spec fn dec_request_body(s: Seq<u8>) -> Option<(RequestV, Seq<u8>)> {
    match dec_be64(s) {
        None => None,
        Some((id, s1)) => match dec_opt_u64(s1) {
            None => None,
            Some((deadline, s2)) => match dec_opt_u64(s2) {
                None => None,
                Some((trace, s3)) => match dec_extensions(s3) {
                    None => None,
                    Some((extensions, s4)) => match dec_bytes(s4) {
                        None => None,
                        Some((method, s5)) => match dec_bytes(s5) {
                            None => None,
                            Some((arg, s6)) => Some(
                                (
                                    RequestV {
                                        id,
                                        method,
                                        arg,
                                        deadline_millis: deadline,
                                        trace_id: trace,
                                        extensions,
                                    },
                                    s6,
                                ),
                            ),
                        },
                    },
                },
            },
        },
    }
}

/// Decodes a response's outcome; yields it and the rest.
pub open spec fn dec_outcome(s: Seq<u8>) -> Option<(Result<Seq<u8>, DispatchError>, Seq<u8>)> {
    if s.len() < 1 {
        None
    } else if s[0] == OUTCOME_OK {
        match dec_bytes(s.skip(1)) {
            Some((b, rest)) => Some((Ok(b), rest)),
            None => None,
        }
    } else if s[0] == err_code(DispatchError::UnknownMethod) {
        Some((Err(DispatchError::UnknownMethod), s.skip(1)))
    } else if s[0] == err_code(DispatchError::HandlerFailure) {
        Some((Err(DispatchError::HandlerFailure), s.skip(1)))
    } else if s[0] == err_code(DispatchError::TimeoutError) {
        Some((Err(DispatchError::TimeoutError), s.skip(1)))
    } else {
        None
    }
}

/// Decodes a response body; yields it and the rest.
pub open spec fn dec_response_body(s: Seq<u8>) -> Option<(ResponseV, Seq<u8>)> {
    match dec_be64(s) {
        None => None,
        Some((id, s1)) => match dec_outcome(s1) {
            None => None,
            Some((outcome, s2)) => Some((ResponseV { id, outcome }, s2)),
        },
    }
}

/// Decodes a whole envelope: what `deserialize_envelope` accepts.
/// Trailing bytes after the envelope are malformed input.
pub open spec fn dec_envelope(s: Seq<u8>) -> Option<EnvelopeV> {
    if s.len() < 1 {
        None
    } else if s[0] == TAG_REQUEST {
        match dec_request_body(s.skip(1)) {
            Some((q, rest)) => if rest.len() == 0 {
                Some(EnvelopeV::Req(q))
            } else {
                None
            },
            None => None,
        }
    } else if s[0] == TAG_RESPONSE {
        match dec_response_body(s.skip(1)) {
            Some((p, rest)) => if rest.len() == 0 {
                Some(EnvelopeV::Resp(p))
            } else {
                None
            },
            None => None,
        }
    } else {
        None
    }
}

/// A decoded fixed-width integer is the integer encoded.
proof fn lemma_dec_be64_enc(n: u64, t: Seq<u8>)
    ensures
        dec_be64(be64_of(n) + t) == Some((n, t)),
{
    lemma_be64_round_trip(n);
    let s = be64_of(n) + t;
    assert(be64_val(s) == be64_val(be64_of(n)));
    assert(s.skip(8) =~= t);
}

/// A decoded optional integer is the optional integer encoded.
proof fn lemma_dec_opt_enc(o: Option<u64>, t: Seq<u8>)
    ensures
        dec_opt_u64(enc_opt_u64(o) + t) == Some((o, t)),
{
    match o {
        None => {
            assert((seq![0u8] + t)[0] == 0);
            assert((seq![0u8] + t).skip(1) =~= t);
        },
        Some(n) => {
            let s = (seq![1u8] + be64_of(n)) + t;
            assert(s[0] == 1);
            assert(s.skip(1) =~= be64_of(n) + t);
            lemma_dec_be64_enc(n, t);
        },
    }
}

/// A decoded byte string is the byte string encoded.
proof fn lemma_dec_bytes_enc(b: Seq<u8>, t: Seq<u8>)
    requires
        b.len() <= u32::MAX,
    ensures
        dec_bytes(enc_bytes(b) + t) == Some((b, t)),
{
    let s = enc_bytes(b) + t;
    lemma_be32_round_trip(b.len() as u32);
    assert(be32_val(s) == be32_val(be32_of(b.len() as u32)));
    assert(s.subrange(4, 4 + b.len() as int) =~= b);
    assert(s.skip(4 + b.len() as int) =~= t);
}

/// A decoded extension list is the list encoded.
proof fn lemma_dec_ext_list_enc(xs: Seq<ExtensionV>, t: Seq<u8>)
    requires
        forall|i: int| 0 <= i < xs.len() ==> extension_valid(#[trigger] xs[i]),
    ensures
        dec_ext_list(enc_ext_list(xs) + t, xs.len()) == Some((xs, t)),
    decreases xs.len(),
{
    if xs.len() == 0 {
        assert(enc_ext_list(xs) + t =~= t);
    } else {
        let x = xs[0];
        let rest = xs.skip(1);
        assert(enc_ext_list(xs) + t =~= enc_bytes(x.key) + (enc_bytes(x.value) + (enc_ext_list(
            rest,
        ) + t)));
        lemma_dec_bytes_enc(x.key, enc_bytes(x.value) + (enc_ext_list(rest) + t));
        lemma_dec_bytes_enc(x.value, enc_ext_list(rest) + t);
        assert(forall|i: int| 0 <= i < rest.len() ==> extension_valid(#[trigger] rest[i]));
        lemma_dec_ext_list_enc(rest, t);
        assert((ExtensionV { key: x.key, value: x.value }) =~= x);
        assert(seq![x] + rest =~= xs);
    }
}

/// Decoded extensions are the extensions encoded.
proof fn lemma_dec_extensions_enc(xs: Seq<ExtensionV>, t: Seq<u8>)
    requires
        xs.len() <= u32::MAX,
        forall|i: int| 0 <= i < xs.len() ==> extension_valid(#[trigger] xs[i]),
    ensures
        dec_extensions(enc_extensions(xs) + t) == Some((xs, t)),
{
    let s = enc_extensions(xs) + t;
    lemma_be32_round_trip(xs.len() as u32);
    assert(be32_val(s) == be32_val(be32_of(xs.len() as u32)));
    assert(s.skip(4) =~= enc_ext_list(xs) + t);
    lemma_dec_ext_list_enc(xs, t);
}

/// A decoded outcome is the outcome encoded.
proof fn lemma_dec_outcome_enc(o: Result<Seq<u8>, DispatchError>, t: Seq<u8>)
    requires
        o matches Ok(b) ==> b.len() <= u32::MAX,
    ensures
        dec_outcome(enc_outcome(o) + t) == Some((o, t)),
{
    match o {
        Ok(b) => {
            let s = (seq![OUTCOME_OK] + enc_bytes(b)) + t;
            assert(s[0] == OUTCOME_OK);
            assert(s.skip(1) =~= enc_bytes(b) + t);
            lemma_dec_bytes_enc(b, t);
        },
        Err(e) => {
            let s = seq![err_code(e)] + t;
            assert(err_code(e) == 1 || err_code(e) == 2 || err_code(e) == 3);
            assert(s.skip(1) =~= t);
        },
    }
}

/// Round-trip law: decoding the encoding of any valid envelope yields
/// that envelope, exactly.
pub proof fn lemma_codec_round_trip(e: EnvelopeV)
    requires
        envelope_valid(e),
    ensures
        dec_envelope(enc_envelope(e)) == Some(e),
{
    let empty = Seq::<u8>::empty();
    match e {
        EnvelopeV::Req(q) => {
            let t5 = enc_bytes(q.arg);
            let t4 = enc_bytes(q.method) + t5;
            let t3 = enc_extensions(q.extensions) + t4;
            let t2 = enc_opt_u64(q.trace_id) + t3;
            let t1 = enc_opt_u64(q.deadline_millis) + t2;
            let s = seq![TAG_REQUEST] + enc_request_body(q);
            assert(s[0] == TAG_REQUEST);
            assert(s.skip(1) =~= be64_of(q.id) + t1);
            lemma_dec_be64_enc(q.id, t1);
            lemma_dec_opt_enc(q.deadline_millis, t2);
            lemma_dec_opt_enc(q.trace_id, t3);
            lemma_dec_extensions_enc(q.extensions, t4);
            lemma_dec_bytes_enc(q.method, t5);
            assert(t5 =~= enc_bytes(q.arg) + empty);
            lemma_dec_bytes_enc(q.arg, empty);
            assert(dec_request_body(s.skip(1)) == Some(
                (
                    RequestV {
                        id: q.id,
                        method: q.method,
                        arg: q.arg,
                        deadline_millis: q.deadline_millis,
                        trace_id: q.trace_id,
                        extensions: q.extensions,
                    },
                    empty,
                ),
            ));
            assert((RequestV {
                id: q.id,
                method: q.method,
                arg: q.arg,
                deadline_millis: q.deadline_millis,
                trace_id: q.trace_id,
                extensions: q.extensions,
            }) =~= q);
        },
        EnvelopeV::Resp(p) => {
            let t1 = enc_outcome(p.outcome);
            let s = seq![TAG_RESPONSE] + enc_response_body(p);
            assert(s[0] == TAG_RESPONSE);
            assert(s.skip(1) =~= be64_of(p.id) + t1);
            lemma_dec_be64_enc(p.id, t1);
            assert(t1 =~= enc_outcome(p.outcome) + empty);
            lemma_dec_outcome_enc(p.outcome, empty);
            assert(dec_response_body(s.skip(1)) == Some(
                (ResponseV { id: p.id, outcome: p.outcome }, empty),
            ));
            assert((ResponseV { id: p.id, outcome: p.outcome }) =~= p);
        },
    }
}

/// Appends every byte of `b` to `out`.
fn push_all(out: &mut Vec<u8>, b: &Vec<u8>)
    ensures
        final(out)@ == old(out)@ + b@,
{
    let mut i: usize = 0;
    while i < b.len()
        invariant
            i <= b@.len(),
            out@ == old(out)@ + b@.take(i as int),
        decreases b@.len() - i,
    {
        out.push(b[i]);
        i = i + 1;
        proof {
            assert(out@ =~= old(out)@ + b@.take(i as int));
        }
    }
    proof {
        assert(b@.take(b@.len() as int) =~= b@);
    }
}

/// Appends the encoding of an optional integer to `out`.
fn put_opt_u64(out: &mut Vec<u8>, o: &Option<u64>)
    ensures
        final(out)@ == old(out)@ + enc_opt_u64(*o),
{
    match o {
        None => {
            out.push(0);
            proof {
                assert(out@ =~= old(out)@ + enc_opt_u64(None));
            }
        },
        Some(n) => {
            out.push(1);
            put_be64(out, *n);
            proof {
                assert(out@ =~= old(out)@ + enc_opt_u64(Some(*n)));
            }
        },
    }
}

/// Appends the encoding of a length-prefixed byte string to `out`.
fn put_bytes(out: &mut Vec<u8>, b: &Vec<u8>)
    requires
        b@.len() <= u32::MAX,
    ensures
        final(out)@ == old(out)@ + enc_bytes(b@),
{
    put_be32(out, b.len() as u32);
    push_all(out, b);
    proof {
        assert(out@ =~= old(out)@ + enc_bytes(b@));
    }
}

/// Appending one extension to a list appends its encoding.
proof fn lemma_enc_ext_list_push(xs: Seq<ExtensionV>, x: ExtensionV)
    ensures
        enc_ext_list(xs.push(x)) == enc_ext_list(xs) + enc_extension(x),
    decreases xs.len(),
{
    if xs.len() == 0 {
        assert(xs.push(x)[0] == x);
        assert(xs.push(x).skip(1) =~= Seq::<ExtensionV>::empty());
        assert(enc_ext_list(xs.push(x).skip(1)) == Seq::<u8>::empty());
        assert(enc_ext_list(xs.push(x)) == enc_extension(x) + enc_ext_list(xs.push(x).skip(1)));
        assert(enc_ext_list(xs) == Seq::<u8>::empty());
        assert(enc_extension(x) + Seq::<u8>::empty() =~= Seq::<u8>::empty() + enc_extension(x));
    } else {
        assert(xs.push(x)[0] == xs[0]);
        assert(xs.push(x).skip(1) =~= xs.skip(1).push(x));
        lemma_enc_ext_list_push(xs.skip(1), x);
        assert(enc_ext_list(xs.push(x)) == enc_extension(xs[0]) + enc_ext_list(xs.skip(1).push(x)));
        assert(enc_ext_list(xs) == enc_extension(xs[0]) + enc_ext_list(xs.skip(1)));
        assert(enc_extension(xs[0]) + (enc_ext_list(xs.skip(1)) + enc_extension(x)) =~= (
        enc_extension(xs[0]) + enc_ext_list(xs.skip(1))) + enc_extension(x));
    }
}

/// Appends the encoding of a context's extensions to `out`.
fn put_extensions(out: &mut Vec<u8>, exts: &Vec<Extension>)
    requires
        exts@.len() <= u32::MAX,
        forall|i: int| 0 <= i < exts@.len() ==> extension_valid(#[trigger] exts@[i]@),
    ensures
        final(out)@ == old(out)@ + enc_extensions(exts@.map_values(|e: Extension| e@)),
{
    let ghost xs = exts@.map_values(|e: Extension| e@);
    let n = exts.len();
    put_be32(out, n as u32);
    let mut i: usize = 0;
    while i < n
        invariant
            i <= n,
            n == exts@.len(),
            n <= u32::MAX,
            xs == exts@.map_values(|e: Extension| e@),
            xs.len() == n,
            forall|j: int| 0 <= j < exts@.len() ==> extension_valid(#[trigger] exts@[j]@),
            out@ == old(out)@ + be32_of(n as u32) + enc_ext_list(xs.take(i as int)),
        decreases n - i,
    {
        proof {
            assert(extension_valid(exts@[i as int]@));
        }
        put_bytes(out, &exts[i].key);
        put_bytes(out, &exts[i].value);
        proof {
            assert(xs[i as int] == exts@[i as int]@);
            lemma_enc_ext_list_push(xs.take(i as int), xs[i as int]);
            assert(xs.take(i as int).push(xs[i as int]) =~= xs.take(i as int + 1));
            assert(out@ =~= old(out)@ + be32_of(n as u32) + enc_ext_list(xs.take(i as int + 1)));
        }
        i = i + 1;
    }
    proof {
        assert(xs.take(n as int) =~= xs);
        assert(final(out)@ =~= old(out)@ + enc_extensions(xs));
    }
}

/// The outcome byte that stands in for `e`.
fn err_code_byte(e: &DispatchError) -> (r: u8)
    ensures
        r == err_code(*e),
{
    match e {
        DispatchError::UnknownMethod => 1,
        DispatchError::HandlerFailure => 2,
        DispatchError::TimeoutError => 3,
    }
}

/// Serializes an envelope to the bytes one frame carries.
pub fn serialize_envelope(e: &Envelope) -> (r: Vec<u8>)
    requires
        envelope_valid(e@),
    ensures
        r@ == enc_envelope(e@),
{
    let mut out: Vec<u8> = Vec::new();
    match e {
        Envelope::Req(q) => {
            out.push(TAG_REQUEST);
            put_be64(&mut out, q.id);
            put_opt_u64(&mut out, &q.context.deadline_millis);
            put_opt_u64(&mut out, &q.context.trace_id);
            proof {
                assert forall|i: int|
                    0 <= i < q.context.extensions@.len() implies extension_valid(
                    #[trigger] q.context.extensions@[i]@,
                ) by {
                    assert(q@.extensions[i] == q.context.extensions@[i]@);
                }
            }
            put_extensions(&mut out, &q.context.extensions);
            put_bytes(&mut out, &q.method);
            put_bytes(&mut out, &q.arg);
            proof {
                assert(out@ =~= enc_envelope(e@));
            }
        },
        Envelope::Resp(p) => {
            out.push(TAG_RESPONSE);
            put_be64(&mut out, p.id);
            match &p.outcome {
                Ok(b) => {
                    out.push(OUTCOME_OK);
                    put_bytes(&mut out, b);
                },
                Err(err) => {
                    let c = err_code_byte(err);
                    out.push(c);
                },
            }
            proof {
                assert(out@ =~= enc_envelope(e@));
            }
        },
    }
    out
}

/// Reads one byte at `i`.
fn read_u8(s: &Vec<u8>, i: usize) -> (r: Option<(u8, usize)>)
    requires
        i <= s@.len(),
    ensures
        match r {
            Some((b, j)) => j == i + 1 && j <= s@.len() && dec_u8(s@.skip(i as int)) == Some(
                (b, s@.skip(j as int)),
            ),
            None => dec_u8(s@.skip(i as int)) is None,
        },
{
    let n = s.len();
    if i < n {
        let b = s[i];
        proof {
            assert(s@.skip(i as int)[0] == s@[i as int]);
            assert(s@.skip(i as int).skip(1) =~= s@.skip(i as int + 1));
        }
        Some((b, i + 1))
    } else {
        None
    }
}

/// Reads the big-endian integer at `i`.
fn read_be64(s: &Vec<u8>, i: usize) -> (r: Option<(u64, usize)>)
    requires
        i <= s@.len(),
    ensures
        match r {
            Some((v, j)) => j == i + 8 && j <= s@.len() && dec_be64(s@.skip(i as int)) == Some(
                (v, s@.skip(j as int)),
            ),
            None => dec_be64(s@.skip(i as int)) is None,
        },
{
    let n = s.len();
    if n - i < 8 {
        return None;
    }
    let v = get_be64(s, i);
    proof {
        assert(s@.skip(i as int).skip(8) =~= s@.skip(i as int + 8));
    }
    Some((v, i + 8))
}

/// Reads the optional integer at `i`: a presence flag, then the value.
fn read_opt_u64(s: &Vec<u8>, i: usize) -> (r: Option<(Option<u64>, usize)>)
    requires
        i <= s@.len(),
    ensures
        match r {
            Some((o, j)) => i <= j <= s@.len() && dec_opt_u64(s@.skip(i as int)) == Some(
                (o, s@.skip(j as int)),
            ),
            None => dec_opt_u64(s@.skip(i as int)) is None,
        },
{
    match read_u8(s, i) {
        None => None,
        Some((flag, j1)) => {
            if flag == 0 {
                Some((None, j1))
            } else if flag == 1 {
                match read_be64(s, j1) {
                    None => None,
                    Some((v, j2)) => Some((Some(v), j2)),
                }
            } else {
                None
            }
        },
    }
}

/// Reads the length-prefixed byte string at `i`.
fn read_bytes(s: &Vec<u8>, i: usize) -> (r: Option<(Vec<u8>, usize)>)
    requires
        i <= s@.len(),
    ensures
        match r {
            Some((v, j)) => i <= j <= s@.len() && dec_bytes(s@.skip(i as int)) == Some(
                (v@, s@.skip(j as int)),
            ),
            None => dec_bytes(s@.skip(i as int)) is None,
        },
{
    let n = s.len();
    if n - i < 4 {
        return None;
    }
    let m = get_be32(s, i);
    if (m as usize) > n - i - 4 {
        return None;
    }
    let m = m as usize;
    let base = i + 4;
    let mut v: Vec<u8> = Vec::new();
    let mut k: usize = 0;
    while k < m
        invariant
            k <= m,
            base + m <= n,
            n == s@.len(),
            base == i + 4,
            v@ == s@.subrange(base as int, base as int + k as int),
        decreases m - k,
    {
        v.push(s[base + k]);
        k = k + 1;
        proof {
            assert(v@ =~= s@.subrange(base as int, base as int + k as int));
        }
    }
    proof {
        assert(v@ =~= s@.skip(i as int).subrange(4, 4 + m as int));
        assert(s@.skip(i as int).skip(4 + m as int) =~= s@.skip(i as int + 4 + m as int));
    }
    Some((v, base + m))
}

/// Reads the context extensions at `i`: a 4-byte count, then that many
/// key/value pairs.
fn read_extensions(s: &Vec<u8>, i: usize) -> (r: Option<(Vec<Extension>, usize)>)
    requires
        i <= s@.len(),
    ensures
        match r {
            Some((xs, j)) => i <= j <= s@.len() && dec_extensions(s@.skip(i as int)) == Some(
                (xs@.map_values(|e: Extension| e@), s@.skip(j as int)),
            ),
            None => dec_extensions(s@.skip(i as int)) is None,
        },
{
    let total = s.len();
    if total - i < 4 {
        return None;
    }
    let m = get_be32(s, i);
    let start = i + 4;
    proof {
        assert(s@.skip(i as int).skip(4) =~= s@.skip(start as int));
    }
    let mut xs: Vec<Extension> = Vec::new();
    let mut cur = start;
    let mut k: u32 = 0;
    while k < m
        invariant
            k <= m,
            i <= s@.len(),
            i + 4 <= s@.len(),
            start == i + 4,
            start <= cur,
            cur <= s@.len(),
            m as nat == be32_val(s@.skip(i as int)),
            dec_extensions(s@.skip(i as int)) == dec_ext_list(s@.skip(start as int), m as nat),
            match dec_ext_list(s@.skip(cur as int), (m - k) as nat) {
                Some(p) => dec_ext_list(s@.skip(start as int), m as nat) == Some(
                    (xs@.map_values(|e: Extension| e@) + p.0, p.1),
                ),
                None => dec_ext_list(s@.skip(start as int), m as nat) is None,
            },
        decreases m - k,
    {
        let ghost acc = xs@.map_values(|e: Extension| e@);
        let ghost n_rem = (m - k) as nat;
        let (key, c1) = match read_bytes(s, cur) {
            None => {
                return None;
            },
            Some(p) => p,
        };
        let (value, c2) = match read_bytes(s, c1) {
            None => {
                return None;
            },
            Some(p) => p,
        };
        let ext = Extension { key, value };
        let ghost ext_v = ext@;
        xs.push(ext);
        proof {
            let d_inner = dec_ext_list(s@.skip(c2 as int), (n_rem - 1) as nat);
            if d_inner is Some {
                let p = d_inner.unwrap();
                assert(dec_ext_list(s@.skip(cur as int), n_rem) == Some(
                    (seq![ext_v] + p.0, p.1),
                ));
                assert(xs@.map_values(|e: Extension| e@) =~= acc.push(ext_v));
                assert(acc.push(ext_v) + p.0 =~= acc + (seq![ext_v] + p.0));
            } else {
                assert(dec_ext_list(s@.skip(cur as int), n_rem) is None);
            }
        }
        cur = c2;
        k = k + 1;
    }
    proof {
        assert(dec_ext_list(s@.skip(cur as int), 0) == Some(
            (Seq::<ExtensionV>::empty(), s@.skip(cur as int)),
        ));
        assert(xs@.map_values(|e: Extension| e@) + Seq::<ExtensionV>::empty() =~= xs@.map_values(
            |e: Extension| e@,
        ));
        assert(dec_extensions(s@.skip(i as int)) == Some(
            (xs@.map_values(|e: Extension| e@), s@.skip(cur as int)),
        ));
    }
    Some((xs, cur))
}

/// Reads the outcome of a response at `i`.
fn read_outcome(s: &Vec<u8>, i: usize) -> (r: Option<(Result<Vec<u8>, DispatchError>, usize)>)
    requires
        i <= s@.len(),
    ensures
        match r {
            Some((o, j)) => i <= j <= s@.len() && dec_outcome(s@.skip(i as int)) == Some(
                (outcome_view(o), s@.skip(j as int)),
            ),
            None => dec_outcome(s@.skip(i as int)) is None,
        },
{
    match read_u8(s, i) {
        None => None,
        Some((c, j1)) => {
            if c == OUTCOME_OK {
                match read_bytes(s, j1) {
                    None => None,
                    Some((b, j2)) => Some((Ok(b), j2)),
                }
            } else if c == 1 {
                Some((Err(DispatchError::UnknownMethod), j1))
            } else if c == 2 {
                Some((Err(DispatchError::HandlerFailure), j1))
            } else if c == 3 {
                Some((Err(DispatchError::TimeoutError), j1))
            } else {
                None
            }
        },
    }
}

/// Deserializes the bytes of one frame into the envelope they encode.
/// Truncated, mistagged or overlong input is malformed; it is rejected,
/// never coerced.
pub fn deserialize_envelope(bytes: &Vec<u8>) -> (r: Result<Envelope, CodecError>)
    ensures
        match dec_envelope(bytes@) {
            Some(e) => r matches Ok(v) && v@ == e,
            None => r matches Err(err) && err == CodecError::Malformed,
        },
{
    let n = bytes.len();
    proof {
        assert(bytes@.skip(0) =~= bytes@);
    }
    match read_u8(bytes, 0) {
        None => Err(CodecError::Malformed),
        Some((tag, i1)) => {
            if tag == TAG_REQUEST {
                match read_be64(bytes, i1) {
                    None => Err(CodecError::Malformed),
                    Some((id, i2)) => match read_opt_u64(bytes, i2) {
                        None => Err(CodecError::Malformed),
                        Some((deadline, i3)) => match read_opt_u64(bytes, i3) {
                            None => Err(CodecError::Malformed),
                            Some((trace, i4)) => match read_extensions(bytes, i4) {
                                None => Err(CodecError::Malformed),
                                Some((extensions, i5)) => match read_bytes(bytes, i5) {
                                    None => Err(CodecError::Malformed),
                                    Some((method, i6)) => match read_bytes(bytes, i6) {
                                        None => Err(CodecError::Malformed),
                                        Some((arg, i7)) => {
                                            if i7 == n {
                                                Ok(
                                                    Envelope::Req(
                                                        Request {
                                                            id,
                                                            method,
                                                            arg,
                                                            context: Context {
                                                                deadline_millis: deadline,
                                                                trace_id: trace,
                                                                extensions,
                                                            },
                                                        },
                                                    ),
                                                )
                                            } else {
                                                Err(CodecError::Malformed)
                                            }
                                        },
                                    },
                                },
                            },
                        },
                    },
                }
            } else if tag == TAG_RESPONSE {
                match read_be64(bytes, i1) {
                    None => Err(CodecError::Malformed),
                    Some((id, i2)) => match read_outcome(bytes, i2) {
                        None => Err(CodecError::Malformed),
                        Some((outcome, i3)) => {
                            if i3 == n {
                                Ok(Envelope::Resp(Response { id, outcome }))
                            } else {
                                Err(CodecError::Malformed)
                            }
                        },
                    },
                }
            } else {
                Err(CodecError::Malformed)
            }
        },
    }
}

} // verus!
