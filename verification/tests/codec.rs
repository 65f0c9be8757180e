use memd::codec::{DecodeError, EncodeError, ReqMemMsg, ResMemMsg, frame_size};

#[test]
fn round_trip_store_request() {
    let r = ReqMemMsg::StoreKeyVal("foo".to_string(), "bar".to_string());
    let f = r.encode().unwrap();
    let back = ReqMemMsg::decode(&f).unwrap();
    assert_eq!(back, ReqMemMsg::StoreKeyVal("foo".to_string(), "bar".to_string()));
}

#[test]
fn round_trip_fetch_request() {
    let r = ReqMemMsg::FetchKey("some key".to_string());
    let f = r.encode().unwrap();
    let back = ReqMemMsg::decode(&f).unwrap();
    assert_eq!(back, ReqMemMsg::FetchKey("some key".to_string()));
}

#[test]
fn round_trip_every_response_variant() {
    let cases = vec![
        ResMemMsg::KeyNotFound("key not found".to_string()),
        ResMemMsg::KeySaved("Key:Val saved in mem".to_string()),
        ResMemMsg::KeyValue("bar".to_string()),
        ResMemMsg::FailToDes("not of acceptable request message format".to_string()),
    ];
    let expect = vec![
        ResMemMsg::KeyNotFound("key not found".to_string()),
        ResMemMsg::KeySaved("Key:Val saved in mem".to_string()),
        ResMemMsg::KeyValue("bar".to_string()),
        ResMemMsg::FailToDes("not of acceptable request message format".to_string()),
    ];
    for (c, e) in cases.into_iter().zip(expect.into_iter()) {
        let f = c.encode().unwrap();
        assert_eq!(ResMemMsg::decode(&f).unwrap(), e);
    }
}

#[test]
fn round_trip_multibyte_strings() {
    let r = ReqMemMsg::StoreKeyVal("clé".to_string(), "värde ✓".to_string());
    let f = r.encode().unwrap();
    let back = ReqMemMsg::decode(&f).unwrap();
    assert_eq!(back, ReqMemMsg::StoreKeyVal("clé".to_string(), "värde ✓".to_string()));
}

#[test]
fn multibyte_key_uses_utf8_byte_length() {
    // "é" is one character but two UTF-8 bytes: tag + 2-byte length + 2 bytes.
    let f = ReqMemMsg::FetchKey("é".to_string()).encode().unwrap();
    assert_eq!(f.len(), 2 + 1 + 2 + 2);
    assert_eq!(f[0], 0);
    assert_eq!(f[1], 5);
    assert_eq!(&f[5..], "é".as_bytes());
}

#[test]
fn frame_layout_exact_bytes() {
    let f = ReqMemMsg::FetchKey("ab".to_string()).encode().unwrap();
    assert_eq!(f, vec![0x00, 0x05, 0x01, 0x00, 0x02, b'a', b'b']);
    let g = ReqMemMsg::StoreKeyVal("k".to_string(), "vw".to_string()).encode().unwrap();
    assert_eq!(g, vec![0x00, 0x08, 0x00, 0x00, 0x01, b'k', 0x00, 0x02, b'v', b'w']);
}

#[test]
fn response_frame_layout_exact_bytes() {
    let f = ResMemMsg::KeyValue("x".to_string()).encode().unwrap();
    assert_eq!(f, vec![0x00, 0x04, 0x02, 0x00, 0x01, b'x']);
}

#[test]
fn exact_frame_decodes_and_shorter_fails() {
    let f = ReqMemMsg::FetchKey("abc".to_string()).encode().unwrap();
    // exactly 2 + L bytes decodes
    assert!(ReqMemMsg::decode(&f).is_ok());
    // every shorter prefix is incomplete, never an out-of-bounds read
    for cut in 0..f.len() {
        assert_eq!(ReqMemMsg::decode(&f[..cut]), Err(DecodeError::Incomplete));
    }
}

#[test]
fn bytes_after_the_frame_are_ignored() {
    let mut f = ReqMemMsg::FetchKey("abc".to_string()).encode().unwrap();
    f.extend_from_slice(&[0xFF, 0x00, 0x17]);
    assert_eq!(ReqMemMsg::decode(&f).unwrap(), ReqMemMsg::FetchKey("abc".to_string()));
}

#[test]
fn bad_tag_is_malformed() {
    // complete frame, payload tag 9 names no request
    let buf = vec![0x00, 0x04, 0x09, 0x00, 0x01, b'a'];
    assert_eq!(ReqMemMsg::decode(&buf), Err(DecodeError::Malformed));
}

#[test]
fn invalid_utf8_is_malformed() {
    // tag FetchKey, field length 1, one byte that is no UTF-8 string
    let buf = vec![0x00, 0x04, 0x01, 0x00, 0x01, 0xFF];
    assert_eq!(ReqMemMsg::decode(&buf), Err(DecodeError::Malformed));
}

#[test]
fn field_length_mismatch_is_malformed() {
    // payload declares a 5-byte field but the payload ends after 1
    let buf = vec![0x00, 0x04, 0x01, 0x00, 0x05, b'a'];
    assert_eq!(ReqMemMsg::decode(&buf), Err(DecodeError::Malformed));
    // trailing payload bytes past the field are refused too
    let buf2 = vec![0x00, 0x05, 0x01, 0x00, 0x01, b'a', b'b'];
    assert_eq!(ReqMemMsg::decode(&buf2), Err(DecodeError::Malformed));
}

#[test]
fn empty_payload_is_malformed() {
    let buf = vec![0x00, 0x00];
    assert_eq!(ReqMemMsg::decode(&buf), Err(DecodeError::Malformed));
    assert_eq!(ResMemMsg::decode(&buf), Err(DecodeError::Malformed));
}

#[test]
fn oversized_payload_fails_encoding() {
    let big = "x".repeat(70_000);
    assert_eq!(
        ReqMemMsg::FetchKey(big.clone()).encode(),
        Err(EncodeError::PayloadTooLarge)
    );
    assert_eq!(
        ReqMemMsg::StoreKeyVal("k".to_string(), big.clone()).encode(),
        Err(EncodeError::PayloadTooLarge)
    );
    let half = "y".repeat(40_000);
    assert_eq!(
        ReqMemMsg::StoreKeyVal(half.clone(), half).encode(),
        Err(EncodeError::PayloadTooLarge)
    );
    assert_eq!(ResMemMsg::KeyValue(big).encode(), Err(EncodeError::PayloadTooLarge));
}

#[test]
fn largest_fitting_key_round_trips() {
    // payload 3 + 65532 == 65535: the largest fetch that fits
    let key = "z".repeat(65_532);
    let f = ReqMemMsg::FetchKey(key.clone()).encode().unwrap();
    assert_eq!(f.len(), 2 + 65_535);
    assert_eq!(ReqMemMsg::decode(&f).unwrap(), ReqMemMsg::FetchKey(key.clone()));
    // one byte more cannot be represented
    let key2 = "z".repeat(65_533);
    assert_eq!(ReqMemMsg::FetchKey(key2).encode(), Err(EncodeError::PayloadTooLarge));
}

#[test]
fn frame_size_reads_the_header() {
    assert_eq!(frame_size(&[]), None);
    assert_eq!(frame_size(&[0x01]), None);
    assert_eq!(frame_size(&[0x01, 0x02]), Some(2 + 258));
    assert_eq!(frame_size(&[0x00, 0x00, 0xAA]), Some(2));
}
