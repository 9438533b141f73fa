//! The whole exchange, client to server and back, over in-memory byte
//! streams split into arbitrary chunks.

use hello_rpc::codec::{deserialize_envelope, serialize_envelope};
use hello_rpc::dispatch::{Action, DispatchEngine};
use hello_rpc::envelope::{Context, DispatchError, Envelope, Request, Response};
use hello_rpc::framing::{encode_frame, FrameDecoder};
use hello_rpc::lifecycle::ConnectionPolicy;

#[test]
fn single_exchange_then_clean_close() {
    // The client frames one call.
    let call = Envelope::Req(Request {
        id: 1,
        method: b"hello".to_vec(),
        arg: b"Alice".to_vec(),
        context: Context { deadline_millis: None, trace_id: Some(7), extensions: Vec::new() },
    });
    let wire = encode_frame(&serialize_envelope(&call)).expect("the call fits a frame");

    // The server accepts its one connection.
    let mut policy = ConnectionPolicy::single_connection();
    assert!(policy.try_admit());
    let client_addr = "127.0.0.1:54321";

    // The bytes arrive in uneven chunks; the engine hands the call out.
    let mut server = DispatchEngine::new(vec![b"hello".to_vec()]);
    let (a, b) = wire.split_at(wire.len() / 3);
    server.ingest(&a.to_vec());
    assert!(matches!(server.poll(0), Ok(None)));
    server.ingest(&b.to_vec());
    let request = match server.poll(0) {
        Ok(Some(Action::Invoke(q))) => q,
        _ => panic!("expected the call to be handed to the handler"),
    };
    assert_eq!(request.id, 1);
    assert_eq!(request.method, b"hello".to_vec());
    assert_eq!(request.context.trace_id, Some(7));

    // The handler (business logic, outside the core) greets the caller.
    let name = String::from_utf8(request.arg.clone()).unwrap();
    let greeting = format!("Hello, {}! You are connected from {}.", name, client_addr);
    let reply_frame = server.complete(request.id, Ok(greeting.into_bytes()));

    // The client reads the one response off the wire.
    let mut client = FrameDecoder::new();
    client.push_chunk(&reply_frame);
    let payload = client.next_frame().unwrap().expect("a complete response frame");
    match deserialize_envelope(&payload) {
        Ok(Envelope::Resp(Response { id, outcome })) => {
            assert_eq!(id, 1);
            assert_eq!(
                outcome,
                Ok(b"Hello, Alice! You are connected from 127.0.0.1:54321.".to_vec())
            );
        }
        other => panic!("expected the response, got {:?}", other),
    }

    // The peer closes; the connection ends cleanly with nothing in flight.
    assert_eq!(server.on_stream_end(), Ok(0));
    assert!(server.is_closed());

    // The policy admits no second connection.
    assert!(policy.exhausted());
    assert!(!policy.try_admit());
}

#[test]
fn second_call_on_one_connection_survives_an_unknown_method() {
    let mut server = DispatchEngine::new(vec![b"hello".to_vec()]);

    let unknown = Envelope::Req(Request {
        id: 2,
        method: b"missing".to_vec(),
        arg: Vec::new(),
        context: Context { deadline_millis: None, trace_id: None, extensions: Vec::new() },
    });
    server.ingest(&encode_frame(&serialize_envelope(&unknown)).unwrap());
    match server.poll(0) {
        Ok(Some(Action::Reply(frame))) => {
            let mut dec = FrameDecoder::new();
            dec.push_chunk(&frame);
            let payload = dec.next_frame().unwrap().unwrap();
            match deserialize_envelope(&payload) {
                Ok(Envelope::Resp(p)) => {
                    assert_eq!(p.id, 2);
                    assert_eq!(p.outcome, Err(DispatchError::UnknownMethod));
                }
                other => panic!("expected the error response, got {:?}", other),
            }
        }
        _ => panic!("expected the engine to answer the unknown method itself"),
    }

    // The connection is still open: a later, known call still goes through.
    assert!(!server.is_closed());
    let ok_call = Envelope::Req(Request {
        id: 3,
        method: b"hello".to_vec(),
        arg: b"Bob".to_vec(),
        context: Context { deadline_millis: None, trace_id: None, extensions: Vec::new() },
    });
    server.ingest(&encode_frame(&serialize_envelope(&ok_call)).unwrap());
    assert!(matches!(server.poll(0), Ok(Some(Action::Invoke(_)))));
}
