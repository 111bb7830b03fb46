use pixel_agents_tui::daemon::framing::{
    encode_asset, encode_ndjson, encode_pty_in, encode_pty_out, Frame, FrameDecoder, FramingError, BINARY_MAX,
    NDJSON_MAX, TAG_NDJSON, TAG_PTY_OUT,
};
use serde_json::Value;

fn obj(pairs: &[(&str, Value)]) -> Value {
    let mut m = serde_json::Map::new();
    for (k, v) in pairs {
        m.insert((*k).to_string(), v.clone());
    }
    Value::Object(m)
}

fn ndjson(v: &Value) -> Vec<u8> {
    encode_ndjson(&serde_json::to_vec(v).unwrap()).unwrap()
}

fn decode_all(encoded: &[u8]) -> Vec<Frame> {
    let mut dec = FrameDecoder::new();
    dec.push(encoded);
    dec.drain().expect("decode failed")
}

fn decode_byte_by_byte(encoded: &[u8]) -> Frame {
    let mut dec = FrameDecoder::new();
    for (i, &byte) in encoded.iter().enumerate() {
        dec.push(std::slice::from_ref(&byte));
        let frames = dec.drain().expect("decode error mid-feed");
        if i < encoded.len() - 1 {
            assert!(frames.is_empty(), "expected no frame after byte {i}, got {}", frames.len());
        } else {
            assert_eq!(frames.len(), 1, "expected exactly 1 frame on final byte");
            return frames.into_iter().next().unwrap();
        }
    }
    panic!("empty input");
}

#[test]
fn ndjson_roundtrip() {
    let v = obj(&[("kind", Value::from("hello")), ("token", Value::from("abc123"))]);
    let encoded = ndjson(&v);
    let frames = decode_all(&encoded);
    assert_eq!(frames.len(), 1);
    let Frame::Ndjson(s) = &frames[0] else { panic!("not ndjson") };
    let decoded: Value = serde_json::from_str(s).unwrap();
    assert_eq!(decoded, v);
}

#[test]
fn ndjson_byte_by_byte() {
    let v = obj(&[("method", Value::from("agent.list"))]);
    let encoded = ndjson(&v);
    let frame = decode_byte_by_byte(&encoded);
    let Frame::Ndjson(s) = frame else { panic!("not ndjson") };
    let decoded: Value = serde_json::from_str(&s).unwrap();
    assert_eq!(decoded, v);
}

#[test]
fn ndjson_multiple_frames() {
    let a = ndjson(&obj(&[("kind", Value::from("req")), ("reqId", Value::from(1))]));
    let b = ndjson(&obj(&[("kind", Value::from("req")), ("reqId", Value::from(2))]));
    let mut combined = Vec::new();
    combined.extend_from_slice(&a);
    combined.extend_from_slice(&b);
    let frames = decode_all(&combined);
    assert_eq!(frames.len(), 2);
    for (i, f) in frames.iter().enumerate() {
        let Frame::Ndjson(s) = f else { panic!("not ndjson") };
        let v: Value = serde_json::from_str(s).unwrap();
        assert_eq!(v["reqId"], i as u64 + 1);
    }
}

#[test]
fn ndjson_split_mid_payload() {
    let encoded = ndjson(&obj(&[("x", Value::from("hello world"))]));
    let mid = encoded.len() / 2;
    let mut dec = FrameDecoder::new();
    dec.push(&encoded[..mid]);
    assert!(dec.drain().unwrap().is_empty());
    dec.push(&encoded[mid..]);
    let frames = dec.drain().unwrap();
    assert_eq!(frames.len(), 1);
}

#[test]
fn ndjson_empty_payload() {
    let encoded = ndjson(&obj(&[]));
    assert_eq!(encoded, b"\x00{}\n".to_vec());
    let frames = decode_all(&encoded);
    assert_eq!(frames.len(), 1);
}

#[test]
fn pty_out_roundtrip() {
    let data = b"hello from the agent\r\n";
    let encoded = encode_pty_out(42, data);
    let frames = decode_all(&encoded);
    assert_eq!(frames.len(), 1);
    let Frame::PtyOut { stream_id, bytes } = &frames[0] else { panic!("not pty_out") };
    assert_eq!(*stream_id, 42);
    assert_eq!(&bytes[..], data);
}

#[test]
fn pty_out_byte_by_byte() {
    let data = b"\x1b[32mGreen\x1b[0m";
    let encoded = encode_pty_out(7, data);
    let frame = decode_byte_by_byte(&encoded);
    let Frame::PtyOut { stream_id, bytes } = frame else { panic!("not pty_out") };
    assert_eq!(stream_id, 7);
    assert_eq!(&bytes[..], data);
}

#[test]
fn pty_out_empty_payload() {
    let encoded = encode_pty_out(0, b"");
    let frames = decode_all(&encoded);
    assert_eq!(frames.len(), 1);
    let Frame::PtyOut { stream_id, bytes } = &frames[0] else { panic!() };
    assert_eq!(*stream_id, 0);
    assert!(bytes.is_empty());
}

#[test]
fn pty_in_roundtrip() {
    let data = b"ls -la\r";
    let encoded = encode_pty_in(3, data).unwrap();
    let frames = decode_all(&encoded);
    assert_eq!(frames.len(), 1);
    let Frame::PtyIn { stream_id, bytes } = &frames[0] else { panic!("not pty_in") };
    assert_eq!(*stream_id, 3);
    assert_eq!(&bytes[..], data);
}

#[test]
fn pty_in_byte_by_byte() {
    let data = b"cargo build\r";
    let encoded = encode_pty_in(99, data).unwrap();
    let frame = decode_byte_by_byte(&encoded);
    let Frame::PtyIn { stream_id, bytes } = frame else { panic!("not pty_in") };
    assert_eq!(stream_id, 99);
    assert_eq!(&bytes[..], data);
}

#[test]
fn asset_roundtrip_not_final() {
    let data = b"\x89PNG\r\nchunk1";
    let encoded = encode_asset(17, 3, data, false);
    let frames = decode_all(&encoded);
    assert_eq!(frames.len(), 1);
    let Frame::Asset { asset_id, tier, is_final, bytes } = &frames[0] else { panic!("not asset") };
    assert_eq!(*asset_id, 17);
    assert_eq!(*tier, 3);
    assert!(!is_final);
    assert_eq!(&bytes[..], data);
}

#[test]
fn asset_roundtrip_final() {
    let data = b"last chunk";
    let encoded = encode_asset(5, 1, data, true);
    let frames = decode_all(&encoded);
    let Frame::Asset { tier, is_final, .. } = &frames[0] else { panic!() };
    assert_eq!(*tier, 1);
    assert!(is_final);
}

#[test]
fn asset_tier_max_value() {
    let encoded = encode_asset(0, 0x7f, b"x", true);
    let frames = decode_all(&encoded);
    let Frame::Asset { tier, is_final, .. } = &frames[0] else { panic!() };
    assert_eq!(*tier, 0x7f);
    assert!(is_final);
}

#[test]
fn asset_byte_by_byte() {
    let data = b"sprite_data";
    let encoded = encode_asset(100, 2, data, true);
    let frame = decode_byte_by_byte(&encoded);
    let Frame::Asset { asset_id, tier, is_final, bytes } = frame else { panic!() };
    assert_eq!(asset_id, 100);
    assert_eq!(tier, 2);
    assert!(is_final);
    assert_eq!(&bytes[..], data);
}

#[test]
fn mixed_frame_types_sequential() {
    let nd = ndjson(&obj(&[("kind", Value::from("evt"))]));
    let pty = encode_pty_out(1, b"output");
    let asset = encode_asset(2, 0, b"blob", true);
    let mut combined = Vec::new();
    combined.extend_from_slice(&nd);
    combined.extend_from_slice(&pty);
    combined.extend_from_slice(&asset);
    let frames = decode_all(&combined);
    assert_eq!(frames.len(), 3);
    assert!(matches!(frames[0], Frame::Ndjson(_)));
    assert!(matches!(frames[1], Frame::PtyOut { .. }));
    assert!(matches!(frames[2], Frame::Asset { .. }));
}

#[test]
fn ndjson_too_large_no_newline() {
    let mut buf = vec![TAG_NDJSON];
    buf.extend(std::iter::repeat(b'x').take(NDJSON_MAX + 1));
    let mut dec = FrameDecoder::new();
    dec.push(&buf);
    assert!(dec.drain().is_err());
    assert!(dec.drain().is_err());
}

#[test]
fn binary_too_large() {
    let mut buf = vec![TAG_PTY_OUT];
    buf.extend_from_slice(&1u32.to_be_bytes());
    buf.extend_from_slice(&((BINARY_MAX + 1) as u32).to_be_bytes());
    let mut dec = FrameDecoder::new();
    dec.push(&buf);
    assert!(dec.drain().is_err());
}

#[test]
fn unknown_tag() {
    let mut dec = FrameDecoder::new();
    dec.push(&[0xFF]);
    assert!(dec.drain().is_err());
}

#[test]
fn poisoned_after_error() {
    let mut dec = FrameDecoder::new();
    dec.push(&[0xFF]);
    let _ = dec.drain();
    assert!(dec.drain().is_err());
}

#[test]
fn partial_pty_header_then_complete() {
    let encoded = encode_pty_out(5, b"data");
    let mut dec = FrameDecoder::new();
    dec.push(&encoded[..4]);
    assert!(dec.drain().unwrap().is_empty());
    dec.push(&encoded[4..]);
    let frames = dec.drain().unwrap();
    assert_eq!(frames.len(), 1);
}

#[test]
fn partial_pty_payload_then_complete() {
    let data = b"big output here";
    let encoded = encode_pty_out(1, data);
    let split = 10;
    let mut dec = FrameDecoder::new();
    dec.push(&encoded[..split]);
    assert!(dec.drain().unwrap().is_empty());
    dec.push(&encoded[split..]);
    let frames = dec.drain().unwrap();
    assert_eq!(frames.len(), 1);
    let Frame::PtyOut { bytes, .. } = &frames[0] else { panic!() };
    assert_eq!(&bytes[..], data);
}

#[test]
fn unknown_tag_error_names_the_tag() {
    let mut dec = FrameDecoder::new();
    dec.push(&[0x09]);
    assert_eq!(dec.drain().unwrap_err(), FramingError::UnknownTag { tag: 0x09 });
    assert_eq!(dec.drain().unwrap_err(), FramingError::Poisoned);
}

#[test]
fn oversized_pty_in_is_refused() {
    let data = vec![0u8; BINARY_MAX + 1];
    assert_eq!(encode_pty_in(1, &data).unwrap_err(), FramingError::PtyPayloadTooLarge { len: BINARY_MAX + 1 });
}

#[test]
fn asset_frame_bytes_are_exact() {
    let v = encode_asset(0x01020304, 5, b"ab", true);
    assert_eq!(v, vec![0x02, 1, 2, 3, 4, 0x85, 0, 0, 0, 2, b'a', b'b']);
}

#[test]
fn chunked_delivery_matches_one_push() {
    let mut all = Vec::new();
    all.extend_from_slice(&encode_pty_out(9, b"xyz"));
    all.extend_from_slice(&encode_asset(4, 1, b"q", false));
    let whole = decode_all(&all);
    let mut dec = FrameDecoder::new();
    let mut pieces = Vec::new();
    for chunk in all.chunks(3) {
        dec.push(chunk);
        pieces.extend(dec.drain().unwrap());
    }
    assert_eq!(whole.len(), pieces.len());
    assert_eq!(format!("{:?}", whole), format!("{:?}", pieces));
}

#[test]
fn framing_error_messages() {
    assert_eq!(FramingError::UnknownTag { tag: 0x7f }.message(), "framing error: unknown frame tag 0x7f");
    assert_eq!(
        FramingError::BinaryTooLong { tag: 0x01, len: 2000000 }.message(),
        "framing error: PTY frame len 2000000 > 1048576 cap (tag=0x01)"
    );
    assert_eq!(FramingError::Poisoned.message(), "framing error: buffer poisoned from prior protocol error");
    assert_eq!(
        FramingError::NdjsonPayloadTooLarge { len: 262145 }.message(),
        "framing error: NDJSON payload 262145 > 262144 cap"
    );
}

#[test]
fn invalid_utf8_error_names_the_bad_sequence() {
    let mut dec = FrameDecoder::new();
    dec.push(&[0x00, b'{', 0xff, b'}', b'\n']);
    let err = dec.drain().unwrap_err();
    assert_eq!(err, FramingError::NdjsonInvalidUtf8 { valid_up_to: 1, error_len: Some(1) });
    let std_text = std::str::from_utf8(&[b'{', 0xff, b'}']).unwrap_err().to_string();
    assert_eq!(err.message(), format!("framing error: NDJSON invalid UTF-8: {std_text}"));
    assert_eq!(
        err.message(),
        "framing error: NDJSON invalid UTF-8: invalid utf-8 sequence of 1 bytes from index 1"
    );

    let mut cut = FrameDecoder::new();
    cut.push(&[0x00, b'a', 0xe2, 0x82, b'\n']);
    let err = cut.drain().unwrap_err();
    assert_eq!(err, FramingError::NdjsonInvalidUtf8 { valid_up_to: 1, error_len: None });
    let std_text = std::str::from_utf8(&[b'a', 0xe2, 0x82]).unwrap_err().to_string();
    assert_eq!(err.message(), format!("framing error: NDJSON invalid UTF-8: {std_text}"));
    assert_eq!(err.message(), "framing error: NDJSON invalid UTF-8: incomplete utf-8 byte sequence from index 1");
}
