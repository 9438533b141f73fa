use hello_rpc::framing::{decode_chunks, encode_frame, FrameDecoder, FramingError};

fn frame(payload: &[u8]) -> Vec<u8> {
    encode_frame(&payload.to_vec()).expect("frameable payload")
}

#[test]
fn encode_frame_exact_bytes() {
    let f = frame(&[0xAA, 0xBB]);
    assert_eq!(f, vec![0, 0, 0, 2, 0xAA, 0xBB]);
}

#[test]
fn encode_frame_rejects_empty_payload() {
    assert_eq!(encode_frame(&Vec::new()), Err(FramingError::EmptyFrame));
}

#[test]
fn whole_stream_decodes_to_both_frames() {
    let mut stream = frame(&[1, 2, 3]);
    stream.extend_from_slice(&frame(&[9]));

    let mut dec = FrameDecoder::new();
    dec.push_chunk(&stream);
    assert_eq!(dec.next_frame(), Ok(Some(vec![1, 2, 3])));
    assert_eq!(dec.next_frame(), Ok(Some(vec![9])));
    assert_eq!(dec.next_frame(), Ok(None));
    assert_eq!(dec.finish(), Ok(()));
}

#[test]
fn byte_by_byte_chunks_decode_to_the_same_frames() {
    let mut stream = frame(&[1, 2, 3]);
    stream.extend_from_slice(&frame(&[9]));

    let mut dec = FrameDecoder::new();
    let mut got: Vec<Vec<u8>> = Vec::new();
    for b in &stream {
        dec.push_chunk(&vec![*b]);
        while let Ok(Some(f)) = dec.next_frame() {
            got.push(f);
        }
    }
    assert_eq!(got, vec![vec![1, 2, 3], vec![9]]);
    assert_eq!(dec.finish(), Ok(()));
}

#[test]
fn decode_chunks_is_split_invariant() {
    let mut stream = frame(&[7, 7]);
    stream.extend_from_slice(&frame(&[1, 2, 3, 4, 5]));
    let expected = vec![vec![7, 7], vec![1, 2, 3, 4, 5]];

    // Unsplit, split at every byte, and split unevenly: same frames.
    assert_eq!(decode_chunks(&vec![stream.clone()]), Ok(expected.clone()));

    let bytes: Vec<Vec<u8>> = stream.iter().map(|b| vec![*b]).collect();
    assert_eq!(decode_chunks(&bytes), Ok(expected.clone()));

    let uneven = vec![
        stream[..3].to_vec(),
        stream[3..10].to_vec(),
        Vec::new(),
        stream[10..].to_vec(),
    ];
    assert_eq!(decode_chunks(&uneven), Ok(expected));
}

#[test]
fn truncated_frame_is_reported_at_stream_end() {
    // A prefix that declares five payload bytes, but only three arrive.
    let mut dec = FrameDecoder::new();
    dec.push_chunk(&vec![0, 0, 0, 5, 1, 2, 3]);
    assert_eq!(dec.next_frame(), Ok(None));
    assert_eq!(dec.finish(), Err(FramingError::Truncated));
}

#[test]
fn decode_chunks_reports_truncation() {
    let r = decode_chunks(&vec![vec![0, 0, 0, 5], vec![1, 2]]);
    assert_eq!(r, Err(FramingError::Truncated));
}

#[test]
fn oversized_prefix_is_rejected() {
    let mut dec = FrameDecoder::new();
    dec.push_chunk(&vec![0xFF, 0xFF, 0xFF, 0xFF]);
    assert_eq!(dec.next_frame(), Err(FramingError::OversizedFrame));
}

#[test]
fn zero_prefix_is_rejected() {
    let mut dec = FrameDecoder::new();
    dec.push_chunk(&vec![0, 0, 0, 0, 9]);
    assert_eq!(dec.next_frame(), Err(FramingError::EmptyFrame));
}
