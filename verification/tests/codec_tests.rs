use embedded_db::codec::{Codec, CodecError, Json, Postcard};

#[test]
fn postcard_encodes_small_value_as_one_byte() {
    let b = Postcard::encode(&100u32, 16).unwrap();
    assert_eq!(b, vec![100u8]);
}

#[test]
fn postcard_encodes_larger_value_as_varint() {
    // 300 = 0b1_0010_1100: low seven bits with the continuation bit, then 2
    let b = Postcard::encode(&300u32, 16).unwrap();
    assert_eq!(b, vec![0xAC, 0x02]);
}

#[test]
fn postcard_round_trips() {
    for v in [0u32, 1, 127, 128, 300, 65535, 0xDEAD_BEEF, u32::MAX] {
        let b = Postcard::encode(&v, 16).unwrap();
        assert_eq!(Postcard::decode(b.as_slice()), Ok(v));
    }
}

#[test]
fn postcard_encode_buffer_too_small() {
    assert_eq!(Postcard::encode(&300u32, 1), Err(CodecError::BufferTooSmall));
}

#[test]
fn postcard_decode_rejects_garbage() {
    assert_eq!(
        Postcard::decode(&[][..]),
        Err(CodecError::DeserializationError)
    );
    assert_eq!(
        Postcard::decode(&[0xFF, 0xFF, 0xFF, 0xFF, 0xFF][..]),
        Err(CodecError::DeserializationError)
    );
}

#[test]
fn json_encodes_decimal_text() {
    let b = Json::encode(&100u32, 16).unwrap();
    assert_eq!(b, b"100".to_vec());
}

#[test]
fn json_round_trips() {
    for v in [0u32, 9, 10, 4096, u32::MAX] {
        let b = Json::encode(&v, 16).unwrap();
        assert_eq!(Json::decode(b.as_slice()), Ok(v));
    }
}

#[test]
fn json_encode_buffer_too_small() {
    assert_eq!(Json::encode(&100u32, 2), Err(CodecError::BufferTooSmall));
}

#[test]
fn json_decode_rejects_garbage() {
    assert_eq!(
        Json::decode(&b"abc"[..]),
        Err(CodecError::DeserializationError)
    );
}

#[test]
fn json_is_larger_but_readable_postcard_is_compact() {
    let j = Json::encode(&4294967295u32, 16).unwrap();
    let p = Postcard::encode(&4294967295u32, 16).unwrap();
    assert_eq!(j.len(), 10);
    assert_eq!(p.len(), 5);
}
