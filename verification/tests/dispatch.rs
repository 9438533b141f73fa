use hello_rpc::codec::{deserialize_envelope, serialize_envelope, CodecError};
use hello_rpc::dispatch::{Action, ConnectionFault, DispatchEngine};
use hello_rpc::envelope::{Context, DispatchError, Envelope, Request, Response};
use hello_rpc::framing::{encode_frame, FrameDecoder, FramingError};

fn request_frame(id: u64, method: &[u8], arg: &[u8], deadline: Option<u64>) -> Vec<u8> {
    let payload = serialize_envelope(&Envelope::Req(Request {
        id,
        method: method.to_vec(),
        arg: arg.to_vec(),
        context: Context { deadline_millis: deadline, trace_id: None, extensions: Vec::new() },
    }));
    encode_frame(&payload).expect("request fits a frame")
}

fn engine() -> DispatchEngine {
    DispatchEngine::new(vec![b"hello".to_vec()])
}

fn decode_response(frame: &Vec<u8>) -> Response {
    let mut dec = FrameDecoder::new();
    dec.push_chunk(frame);
    let payload = dec.next_frame().expect("well-formed frame").expect("a complete frame");
    assert_eq!(dec.finish(), Ok(()), "a response frame carries nothing after it");
    match deserialize_envelope(&payload) {
        Ok(Envelope::Resp(p)) => p,
        other => panic!("expected a response envelope, got {:?}", other),
    }
}

#[test]
fn unknown_method_is_answered_without_closing() {
    let mut e = engine();
    e.ingest(&request_frame(2, b"missing", b"", None));
    match e.poll(0) {
        Ok(Some(Action::Reply(frame))) => {
            let p = decode_response(&frame);
            assert_eq!(p.id, 2);
            assert_eq!(p.outcome, Err(DispatchError::UnknownMethod));
        }
        other => panic!("expected a reply action, got {}", fmt(&other)),
    }
    assert!(!e.is_closed());
    assert_eq!(e.in_flight_count(), 0);
    assert!(matches!(e.poll(0), Ok(None)));
}

#[test]
fn elapsed_deadline_is_answered_without_invoking() {
    let mut e = engine();
    e.ingest(&request_frame(5, b"hello", b"Alice", Some(100)));
    match e.poll(200) {
        Ok(Some(Action::Reply(frame))) => {
            let p = decode_response(&frame);
            assert_eq!(p.id, 5);
            assert_eq!(p.outcome, Err(DispatchError::TimeoutError));
        }
        other => panic!("expected a reply action, got {}", fmt(&other)),
    }
    assert_eq!(e.in_flight_count(), 0);
}

#[test]
fn unelapsed_deadline_is_dispatched() {
    let mut e = engine();
    e.ingest(&request_frame(5, b"hello", b"Alice", Some(300)));
    match e.poll(200) {
        Ok(Some(Action::Invoke(q))) => assert_eq!(q.id, 5),
        other => panic!("expected an invocation, got {}", fmt(&other)),
    }
    assert_eq!(e.in_flight_count(), 1);
}

#[test]
fn out_of_order_completions_keep_their_identifiers() {
    let mut e = engine();
    for id in [1u64, 2, 3] {
        e.ingest(&request_frame(id, b"hello", b"x", None));
    }
    let mut invoked: Vec<Request> = Vec::new();
    loop {
        match e.poll(0) {
            Ok(Some(Action::Invoke(q))) => invoked.push(q),
            Ok(None) => break,
            other => panic!("expected invocations, got {}", fmt(&other)),
        }
    }
    assert_eq!(invoked.iter().map(|q| q.id).collect::<Vec<_>>(), vec![1, 2, 3]);
    assert_eq!(e.in_flight_count(), 3);

    // Complete in an arbitrary order; each response carries its own id.
    for id in [3u64, 1, 2] {
        let frame = e.complete(id, Ok(format!("answer {}", id).into_bytes()));
        let p = decode_response(&frame);
        assert_eq!(p.id, id);
        assert_eq!(p.outcome, Ok(format!("answer {}", id).into_bytes()));
    }
    assert_eq!(e.in_flight_count(), 0);
}

#[test]
fn malformed_payload_closes_the_connection() {
    let mut e = engine();
    let garbage = encode_frame(&vec![9, 9, 9]).unwrap();
    e.ingest(&garbage);
    assert!(matches!(e.poll(0), Err(ConnectionFault::Codec(CodecError::Malformed))));
    assert!(e.is_closed());
}

#[test]
fn inbound_response_envelope_is_a_codec_fault() {
    let mut e = engine();
    let payload = serialize_envelope(&Envelope::Resp(Response { id: 1, outcome: Err(DispatchError::HandlerFailure) }));
    e.ingest(&encode_frame(&payload).unwrap());
    assert!(matches!(e.poll(0), Err(ConnectionFault::Codec(CodecError::Malformed))));
    assert!(e.is_closed());
}

#[test]
fn bad_prefix_closes_the_connection() {
    let mut e = engine();
    e.ingest(&vec![0xFF, 0xFF, 0xFF, 0xFF]);
    assert!(matches!(
        e.poll(0),
        Err(ConnectionFault::Framing(FramingError::OversizedFrame))
    ));
    assert!(e.is_closed());
}

#[test]
fn stream_end_mid_frame_is_truncation() {
    let mut e = engine();
    e.ingest(&vec![0, 0, 0, 9, 1, 2]);
    assert!(matches!(e.poll(0), Ok(None)));
    assert!(matches!(
        e.on_stream_end(),
        Err(ConnectionFault::Framing(FramingError::Truncated))
    ));
    assert!(e.is_closed());
}

#[test]
fn clean_stream_end_reports_abandoned_calls() {
    let mut e = engine();
    e.ingest(&request_frame(8, b"hello", b"x", None));
    assert!(matches!(e.poll(0), Ok(Some(Action::Invoke(_)))));
    assert_eq!(e.on_stream_end(), Ok(1));
    assert!(e.is_closed());
    assert_eq!(e.in_flight_count(), 0);
}

fn fmt(r: &Result<Option<Action>, ConnectionFault>) -> String {
    match r {
        Ok(None) => "no action".to_string(),
        Ok(Some(Action::Invoke(q))) => format!("invoke call {}", q.id),
        Ok(Some(Action::Reply(_))) => "a reply".to_string(),
        Err(f) => format!("fault {:?}", f),
    }
}
