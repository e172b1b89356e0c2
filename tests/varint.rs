use wasi_js_transformer::varint::{decode_varint, encode_varint};
use wasi_js_transformer::PatchError;

#[test]
fn encodes_canonically() {
    assert_eq!(encode_varint(0), vec![0x00]);
    assert_eq!(encode_varint(127), vec![0x7f]);
    assert_eq!(encode_varint(128), vec![0x80, 0x01]);
    assert_eq!(encode_varint(624485), vec![0xe5, 0x8e, 0x26]);
    assert_eq!(encode_varint(u32::MAX), vec![0xff, 0xff, 0xff, 0xff, 0x0f]);
}

#[test]
fn decodes_at_a_position() {
    let buf = vec![0xaa, 0xe5, 0x8e, 0x26, 0x01];
    assert_eq!(decode_varint(&buf, 1), Ok((624485, 3)));
    assert_eq!(decode_varint(&buf, 4), Ok((1, 1)));
}

#[test]
fn refuses_truncated_overlong_and_wide() {
    assert_eq!(decode_varint(&vec![0x80], 0), Err(PatchError::MalformedVarint));
    assert_eq!(decode_varint(&vec![0x01], 1), Err(PatchError::MalformedVarint));
    assert_eq!(decode_varint(&vec![0x80, 0x00], 0), Err(PatchError::MalformedVarint));
    assert_eq!(decode_varint(&vec![0xff, 0xff, 0xff, 0xff, 0x1f], 0), Err(PatchError::MalformedVarint));
}

#[test]
fn round_trips() {
    for v in [0u32, 1, 127, 128, 300, 16383, 16384, 1 << 28, u32::MAX] {
        let e = encode_varint(v);
        assert_eq!(decode_varint(&e, 0), Ok((v, e.len())));
    }
}
