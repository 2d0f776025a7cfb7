use gmod_gabp::gabp::frame::{encode_frame, FrameDecoder, FrameError, MAX_FRAME_BYTES};

#[test]
fn encodes_lsp_style_frame() {
    let frame = encode_frame(br#"{"ok":true}"#);
    let text = String::from_utf8(frame).unwrap();

    assert!(text.starts_with("Content-Length: 11\r\n"));
    assert!(text.contains("Content-Type: application/json\r\n\r\n"));
    assert!(text.ends_with(r#"{"ok":true}"#));
}

#[test]
fn decodes_fragmented_frame() {
    let frame = encode_frame(br#"{"v":"gabp/1"}"#);
    let mut decoder = FrameDecoder::new(MAX_FRAME_BYTES);

    assert!(decoder.push(&frame[..10]).unwrap().is_empty());
    let messages = decoder.push(&frame[10..]).unwrap();

    assert_eq!(messages, vec![br#"{"v":"gabp/1"}"#.to_vec()]);
}

#[test]
fn encodes_exact_header_bytes() {
    let frame = encode_frame(b"");
    assert_eq!(
        frame,
        b"Content-Length: 0\r\nContent-Type: application/json\r\n\r\n".to_vec()
    );
    let frame = encode_frame(&[7u8; 1234]);
    assert!(frame.starts_with(b"Content-Length: 1234\r\n"));
    assert_eq!(frame.len(), 52 + 4 + 1234);
}

#[test]
fn decodes_two_frames_from_one_push() {
    let mut bytes = encode_frame(b"first");
    bytes.extend_from_slice(&encode_frame(b"second"));
    let mut decoder = FrameDecoder::new(MAX_FRAME_BYTES);
    let messages = decoder.push(&bytes).unwrap();
    assert_eq!(messages, vec![b"first".to_vec(), b"second".to_vec()]);
    assert!(decoder.push(b"").unwrap().is_empty());
}

#[test]
fn decodes_byte_by_byte() {
    let mut bytes = encode_frame(b"{\"a\":1}");
    bytes.extend_from_slice(&encode_frame(b"[]"));
    let mut decoder = FrameDecoder::new(MAX_FRAME_BYTES);
    let mut all = Vec::new();
    for b in &bytes {
        all.extend(decoder.push(&[*b]).unwrap());
    }
    assert_eq!(all, vec![b"{\"a\":1}".to_vec(), b"[]".to_vec()]);
}

#[test]
fn body_may_hold_header_terminator() {
    let body = b"a\r\n\r\nb".to_vec();
    let mut decoder = FrameDecoder::new(MAX_FRAME_BYTES);
    let messages = decoder.push(&encode_frame(&body)).unwrap();
    assert_eq!(messages, vec![body]);
}

#[test]
fn waits_for_the_whole_body() {
    let mut decoder = FrameDecoder::new(MAX_FRAME_BYTES);
    assert!(decoder.push(b"Content-Length: 4\r\n\r\nab").unwrap().is_empty());
    assert_eq!(decoder.push(b"cdEXTRA").unwrap(), vec![b"abcd".to_vec()]);
}

#[test]
fn header_name_ignores_case_and_value_is_trimmed() {
    let mut decoder = FrameDecoder::new(MAX_FRAME_BYTES);
    let messages = decoder
        .push(b"X-Other: 1\r\ncontent-LENGTH:\t 3 \r\n\r\nxyz")
        .unwrap();
    assert_eq!(messages, vec![b"xyz".to_vec()]);
}

#[test]
fn first_content_length_field_wins() {
    let mut decoder = FrameDecoder::new(MAX_FRAME_BYTES);
    let messages = decoder
        .push(b"Content-Length: 2\r\nContent-Length: 5\r\n\r\nhi")
        .unwrap();
    assert_eq!(messages, vec![b"hi".to_vec()]);
}

#[test]
fn accepts_plus_sign_and_unicode_space() {
    let mut decoder = FrameDecoder::new(MAX_FRAME_BYTES);
    let mut bytes = "Content-Length:\u{a0}+2\u{3000}\r\n\r\nok".as_bytes().to_vec();
    bytes.extend_from_slice(b"");
    assert_eq!(decoder.push(&bytes).unwrap(), vec![b"ok".to_vec()]);
}

#[test]
fn invalid_utf8_in_other_header_lines_is_tolerated() {
    let mut decoder = FrameDecoder::new(MAX_FRAME_BYTES);
    let mut bytes = b"X-Junk: \xff\xfe\r\n".to_vec();
    bytes.extend_from_slice(b"Content-Length: 1\r\n\r\nz");
    assert_eq!(decoder.push(&bytes).unwrap(), vec![b"z".to_vec()]);
}

#[test]
fn invalid_utf8_in_the_value_is_invalid_length() {
    let mut decoder = FrameDecoder::new(MAX_FRAME_BYTES);
    let bytes = b"Content-Length: 1\xff\r\n\r\nz".to_vec();
    assert_eq!(decoder.push(&bytes), Err(FrameError::InvalidContentLength));
}

#[test]
fn reports_missing_content_length() {
    let mut decoder = FrameDecoder::new(MAX_FRAME_BYTES);
    assert_eq!(
        decoder.push(b"Content-Type: application/json\r\n\r\n{}"),
        Err(FrameError::MissingContentLength)
    );
}

#[test]
fn reports_invalid_content_length() {
    let mut decoder = FrameDecoder::new(MAX_FRAME_BYTES);
    assert_eq!(
        decoder.push(b"Content-Length: twelve\r\n\r\n"),
        Err(FrameError::InvalidContentLength)
    );
    let mut decoder = FrameDecoder::new(MAX_FRAME_BYTES);
    assert_eq!(
        decoder.push(b"Content-Length: -1\r\n\r\n"),
        Err(FrameError::InvalidContentLength)
    );
    let mut decoder = FrameDecoder::new(MAX_FRAME_BYTES);
    assert_eq!(
        decoder.push(b"Content-Length: 99999999999999999999999\r\n\r\n"),
        Err(FrameError::InvalidContentLength)
    );
}

#[test]
fn reports_message_too_large() {
    let mut decoder = FrameDecoder::new(4);
    assert_eq!(
        decoder.push(b"Content-Length: 5\r\n\r\nhello"),
        Err(FrameError::MessageTooLarge { length: 5, max: 4 })
    );
}

#[test]
fn error_drops_earlier_frames_and_keeps_failing() {
    let mut bytes = encode_frame(b"ok");
    bytes.extend_from_slice(b"Content-Length: x\r\n\r\n");
    let mut decoder = FrameDecoder::new(MAX_FRAME_BYTES);
    assert_eq!(decoder.push(&bytes), Err(FrameError::InvalidContentLength));
    assert_eq!(decoder.push(b""), Err(FrameError::InvalidContentLength));
}

#[test]
fn frames_come_out_whole_however_the_stream_is_cut() {
    let bodies: Vec<Vec<u8>> = vec![
        br#"{"a":1}"#.to_vec(),
        b"x\r\n\r\ny".to_vec(),
        Vec::new(),
        br#"{"b":[true]}"#.to_vec(),
    ];
    let mut stream = Vec::new();
    for b in &bodies {
        stream.extend_from_slice(&encode_frame(b));
    }
    for size in 1..=stream.len() {
        let mut decoder = FrameDecoder::new(MAX_FRAME_BYTES);
        let mut out = Vec::new();
        assert!(decoder.push(&[]).unwrap().is_empty());
        for chunk in stream.chunks(size) {
            out.extend(decoder.push(chunk).unwrap());
        }
        assert_eq!(out, bodies, "pieces of {size} bytes");
    }
}
