use hello_rpc::codec::{deserialize_envelope, serialize_envelope, CodecError};
use hello_rpc::envelope::{Context, DispatchError, Envelope, Extension, Request, Response};

fn request(id: u64, method: &[u8], arg: &[u8], deadline: Option<u64>, trace: Option<u64>) -> Envelope {
    Envelope::Req(Request {
        id,
        method: method.to_vec(),
        arg: arg.to_vec(),
        context: Context { deadline_millis: deadline, trace_id: trace, extensions: Vec::new() },
    })
}

fn response(id: u64, outcome: Result<Vec<u8>, DispatchError>) -> Envelope {
    Envelope::Resp(Response { id, outcome })
}

#[test]
fn request_round_trips() {
    let bytes = serialize_envelope(&request(7, b"hello", b"Alice", Some(12_000), Some(42)));
    match deserialize_envelope(&bytes) {
        Ok(Envelope::Req(q)) => {
            assert_eq!(q.id, 7);
            assert_eq!(q.method, b"hello".to_vec());
            assert_eq!(q.arg, b"Alice".to_vec());
            assert_eq!(q.context.deadline_millis, Some(12_000));
            assert_eq!(q.context.trace_id, Some(42));
        }
        other => panic!("expected a request, got {:?}", other),
    }
}

#[test]
fn request_without_context_fields_round_trips() {
    let bytes = serialize_envelope(&request(0, b"m", b"", None, None));
    match deserialize_envelope(&bytes) {
        Ok(Envelope::Req(q)) => {
            assert_eq!(q.id, 0);
            assert_eq!(q.method, b"m".to_vec());
            assert_eq!(q.arg, Vec::<u8>::new());
            assert_eq!(q.context.deadline_millis, None);
            assert_eq!(q.context.trace_id, None);
        }
        other => panic!("expected a request, got {:?}", other),
    }
}

#[test]
fn response_ok_round_trips() {
    let bytes = serialize_envelope(&response(u64::MAX, Ok(b"result".to_vec())));
    match deserialize_envelope(&bytes) {
        Ok(Envelope::Resp(p)) => {
            assert_eq!(p.id, u64::MAX);
            assert_eq!(p.outcome, Ok(b"result".to_vec()));
        }
        other => panic!("expected a response, got {:?}", other),
    }
}

#[test]
fn response_errors_round_trip() {
    for err in [
        DispatchError::UnknownMethod,
        DispatchError::HandlerFailure,
        DispatchError::TimeoutError,
    ] {
        let bytes = serialize_envelope(&response(3, Err(err)));
        match deserialize_envelope(&bytes) {
            Ok(Envelope::Resp(p)) => {
                assert_eq!(p.id, 3);
                assert_eq!(p.outcome, Err(err));
            }
            other => panic!("expected a response, got {:?}", other),
        }
    }
}

#[test]
fn response_error_exact_bytes() {
    let bytes = serialize_envelope(&response(1, Err(DispatchError::UnknownMethod)));
    assert_eq!(bytes, vec![2, 0, 0, 0, 0, 0, 0, 0, 1, 1]);
}

#[test]
fn request_exact_bytes() {
    let bytes = serialize_envelope(&request(1, b"hi", b"A", None, None));
    assert_eq!(
        bytes,
        vec![
            1, // request tag
            0, 0, 0, 0, 0, 0, 0, 1, // call identifier
            0, // no deadline
            0, // no trace id
            0, 0, 0, 0, // no extensions
            0, 0, 0, 2, b'h', b'i', // method
            0, 0, 0, 1, b'A', // argument
        ]
    );
}

#[test]
fn deadline_exact_bytes() {
    let bytes = serialize_envelope(&request(1, b"m", b"", Some(0x0102), None));
    assert_eq!(
        bytes,
        vec![
            1,
            0, 0, 0, 0, 0, 0, 0, 1,
            1, 0, 0, 0, 0, 0, 0, 1, 2, // deadline present, big-endian value
            0,
            0, 0, 0, 0,
            0, 0, 0, 1, b'm',
            0, 0, 0, 0,
        ]
    );
}

#[test]
fn context_extensions_round_trip() {
    let call = Envelope::Req(Request {
        id: 9,
        method: b"hello".to_vec(),
        arg: b"Alice".to_vec(),
        context: Context {
            deadline_millis: None,
            trace_id: None,
            extensions: vec![
                Extension { key: b"tenant".to_vec(), value: b"acme".to_vec() },
                Extension { key: b"region".to_vec(), value: b"eu".to_vec() },
            ],
        },
    });
    let bytes = serialize_envelope(&call);
    match deserialize_envelope(&bytes) {
        Ok(Envelope::Req(q)) => {
            assert_eq!(q.context.extensions.len(), 2);
            assert_eq!(q.context.extensions[0].key, b"tenant".to_vec());
            assert_eq!(q.context.extensions[0].value, b"acme".to_vec());
            assert_eq!(q.context.extensions[1].key, b"region".to_vec());
            assert_eq!(q.context.extensions[1].value, b"eu".to_vec());
        }
        other => panic!("expected a request, got {:?}", other),
    }
}

#[test]
fn extension_exact_bytes() {
    let call = Envelope::Req(Request {
        id: 1,
        method: b"m".to_vec(),
        arg: Vec::new(),
        context: Context {
            deadline_millis: None,
            trace_id: None,
            extensions: vec![Extension { key: b"k".to_vec(), value: b"vv".to_vec() }],
        },
    });
    let bytes = serialize_envelope(&call);
    assert_eq!(
        bytes,
        vec![
            1,
            0, 0, 0, 0, 0, 0, 0, 1,
            0,
            0,
            0, 0, 0, 1, // one extension
            0, 0, 0, 1, b'k',
            0, 0, 0, 2, b'v', b'v',
            0, 0, 0, 1, b'm',
            0, 0, 0, 0,
        ]
    );
}

#[test]
fn truncated_extension_list_is_rejected() {
    // A count of two extensions, but the bytes end after the first.
    let bytes = vec![
        1, // request tag
        0, 0, 0, 0, 0, 0, 0, 1, // call identifier
        0, 0, // no deadline, no trace id
        0, 0, 0, 2, // two extensions declared
        0, 0, 0, 1, b'k', 0, 0, 0, 1, b'v', // only one present
    ];
    assert!(matches!(deserialize_envelope(&bytes), Err(CodecError::Malformed)));
}

#[test]
fn malformed_inputs_are_rejected() {
    let cases: Vec<Vec<u8>> = vec![
        vec![],                                  // no tag
        vec![3],                                 // unknown tag
        vec![1, 0, 0, 0],                        // truncated identifier
        vec![2, 0, 0, 0, 0, 0, 0, 0, 1],         // response without an outcome
        vec![2, 0, 0, 0, 0, 0, 0, 0, 1, 9],      // unknown outcome byte
        vec![1, 0, 0, 0, 0, 0, 0, 0, 1, 2, 0],   // presence flag that is neither 0 nor 1
    ];
    for bytes in cases {
        assert!(matches!(deserialize_envelope(&bytes), Err(CodecError::Malformed)), "input {:?}", bytes);
    }
}

#[test]
fn trailing_bytes_are_rejected() {
    let mut bytes = serialize_envelope(&response(1, Err(DispatchError::HandlerFailure)));
    bytes.push(0);
    assert!(matches!(deserialize_envelope(&bytes), Err(CodecError::Malformed)));
}

#[test]
fn truncated_encoding_is_rejected() {
    let bytes = serialize_envelope(&request(5, b"hello", b"Alice", Some(9), None));
    for cut in 0..bytes.len() {
        let prefix = bytes[..cut].to_vec();
        assert!(matches!(deserialize_envelope(&prefix), Err(CodecError::Malformed)), "cut {}", cut);
    }
}
