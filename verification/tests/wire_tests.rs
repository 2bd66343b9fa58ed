use kvstore::error::KvError;
use kvstore::wire::decode_message;
use kvstore::wire::frame_bytes;
use kvstore::wire::frame_length;
use kvstore::wire::frame_message;

#[test]
fn frames_carry_length_then_bytes() {
    assert_eq!(frame_message("").unwrap(), vec![0, 0, 0, 0]);
    assert_eq!(frame_message("world").unwrap(), b"\x05\x00\x00\x00world".to_vec());
    assert_eq!(frame_message("é").unwrap(), b"\x02\x00\x00\x00\xc3\xa9".to_vec());
    let long = vec![7u8; 300];
    let framed = frame_bytes(&long).unwrap();
    assert_eq!(&framed[..4], &[0x2c, 0x01, 0, 0]);
    assert_eq!(&framed[4..], &long[..]);
}

#[test]
fn header_length_is_little_endian() {
    assert_eq!(frame_length(&[0x05, 0, 0, 0]), 5);
    assert_eq!(frame_length(&[0x01, 0x02, 0x03, 0x04]), 0x0403_0201);
    assert_eq!(frame_length(&[0xff, 0xff, 0xff, 0xff]), u32::MAX);
}

#[test]
fn reply_roundtrip() {
    for message in ["", "world", "ünïcödé ✓"] {
        let framed = frame_message(message).unwrap();
        let len = frame_length(&framed[..4]) as usize;
        assert_eq!(len, framed.len() - 4);
        assert_eq!(decode_message(framed[4..].to_vec()).unwrap(), message);
    }
}

#[test]
fn decode_rejects_invalid_utf8() {
    assert_eq!(decode_message(vec![0xff]), Err(KvError::InvalidUtf8));
    assert_eq!(decode_message(vec![0xed, 0xa0, 0x80]), Err(KvError::InvalidUtf8));
    assert_eq!(decode_message(b"ok".to_vec()), Ok("ok".to_string()));
}
