use socketsweep::protocol::{decode_frame, encode_frame, FrameError, MAX_FRAME_BYTES};

#[test]
fn a_frame_is_a_little_endian_length_then_the_body() {
    let framed = encode_frame(b"abc").unwrap();
    assert_eq!(framed, vec![3, 0, 0, 0, b'a', b'b', b'c']);
    let big = vec![7u8; 0x0102];
    let framed = encode_frame(&big).unwrap();
    assert_eq!(&framed[..4], &[0x02, 0x01, 0, 0]);
    assert_eq!(framed.len(), 0x0102 + 4);
}

#[test]
fn bodies_round_trip_through_the_framing() {
    let body = vec![0xFFu8, 0xFE, b'p', b'i', b'c', 0x80];
    let framed = encode_frame(&body).unwrap();
    let (back, used) = decode_frame(&framed).unwrap().unwrap();
    assert_eq!(back, body);
    assert_eq!(used, framed.len());
}

#[test]
fn many_bodies_read_back_in_order() {
    let mut stream = Vec::new();
    for i in 0..100u8 {
        stream.extend(encode_frame(&[i, i]).unwrap());
    }
    let mut at = 0;
    for i in 0..100u8 {
        let (body, used) = decode_frame(&stream[at..]).unwrap().unwrap();
        assert_eq!(body, vec![i, i]);
        at += used;
    }
    // Clean end of stream, not an error.
    assert!(decode_frame(&stream[at..]).unwrap().is_none());
}

#[test]
fn oversized_length_prefix_is_rejected_without_allocating() {
    let mut buf = (MAX_FRAME_BYTES + 1).to_le_bytes().to_vec();
    buf.extend_from_slice(b"whatever");
    let err = decode_frame(&buf).unwrap_err();
    assert!(matches!(err, FrameError::OversizedPrefix { .. }), "got {err:?}");
    assert_eq!(err, FrameError::OversizedPrefix { len: MAX_FRAME_BYTES + 1 });
}

#[test]
fn truncated_body_is_an_error_not_a_silent_none() {
    let mut buf = encode_frame(b"/sdcard/DCIM and then some").unwrap();
    buf.truncate(buf.len() - 3);
    let err = decode_frame(&buf).unwrap_err();
    assert!(matches!(err, FrameError::Truncated { .. }), "got {err:?}");
    assert_eq!(err, FrameError::Truncated { len: 26 });
}

#[test]
fn only_an_empty_stream_is_a_clean_end() {
    assert!(decode_frame(&[]).unwrap().is_none());
    assert_eq!(decode_frame(&[5, 0]).unwrap_err(), FrameError::ShortPrefix { len: 2 });
    assert_eq!(decode_frame(&[1, 0, 0]).unwrap_err(), FrameError::ShortPrefix { len: 3 });
}

#[test]
fn an_empty_body_frames_to_four_zero_bytes() {
    assert_eq!(encode_frame(&[]).unwrap(), vec![0, 0, 0, 0]);
    let (body, used) = decode_frame(&[0, 0, 0, 0, 9]).unwrap().unwrap();
    assert!(body.is_empty());
    assert_eq!(used, 4);
}

#[test]
fn a_body_over_the_limit_is_not_framed() {
    let body = vec![0u8; MAX_FRAME_BYTES as usize + 1];
    assert_eq!(
        encode_frame(&body).unwrap_err(),
        FrameError::TooLarge { len: MAX_FRAME_BYTES as usize + 1 }
    );
}
