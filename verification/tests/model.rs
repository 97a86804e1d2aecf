use pikarust_core::nnue::model::{
    NnueError, NnueModel, decode_signed_leb128_i16, decode_signed_leb128_i32, groups_fit_for_parse,
    read_leb128_i16, read_leb128_i32, unpack,
};

const LEB128_MAGIC: &[u8; 17] = b"COMPRESSED_LEB128";

fn encode_signed_leb128_i16(mut val: i16, out: &mut Vec<u8>) {
    loop {
        let mut byte = (val & 0x7f) as u8;
        val >>= 7;
        let more = !((val == 0 && byte & 0x40 == 0) || (val == -1 && byte & 0x40 != 0));
        if more {
            byte |= 0x80;
        }
        out.push(byte);
        if !more {
            break;
        }
    }
}

fn encode_signed_leb128_i32(mut val: i32, out: &mut Vec<u8>) {
    loop {
        let mut byte = (val & 0x7f) as u8;
        val >>= 7;
        let more = !((val == 0 && byte & 0x40 == 0) || (val == -1 && byte & 0x40 != 0));
        if more {
            byte |= 0x80;
        }
        out.push(byte);
        if !more {
            break;
        }
    }
}

fn block(leb_bytes: &[u8]) -> Vec<u8> {
    let mut block = Vec::new();
    block.extend_from_slice(LEB128_MAGIC);
    block.extend_from_slice(&(leb_bytes.len() as u32).to_le_bytes());
    block.extend_from_slice(leb_bytes);
    block
}

#[test]
fn test_leb128_i16_roundtrip() {
    let values: Vec<i16> = vec![0, 1, -1, 127, -128, 255, -256, i16::MAX, i16::MIN];
    for &val in &values {
        let mut encoded = Vec::new();
        encode_signed_leb128_i16(val, &mut encoded);
        let mut pos = 0;
        let decoded = decode_signed_leb128_i16(&encoded, &mut pos).expect("decode failed");
        assert_eq!(val, decoded, "roundtrip failed for {val}");
        assert_eq!(pos, encoded.len());
    }
}

#[test]
fn test_leb128_i32_roundtrip() {
    let values: Vec<i32> = vec![0, 1, -1, 127, -128, 32767, -32768, i32::MAX, i32::MIN];
    for &val in &values {
        let mut encoded = Vec::new();
        encode_signed_leb128_i32(val, &mut encoded);
        let mut pos = 0;
        let decoded = decode_signed_leb128_i32(&encoded, &mut pos).expect("decode failed");
        assert_eq!(val, decoded, "roundtrip failed for {val}");
        assert_eq!(pos, encoded.len());
    }
}

#[test]
fn test_read_leb128_i16_block() {
    let values: [i16; 4] = [100, -50, 0, 300];
    let mut leb_bytes = Vec::new();
    for &v in &values {
        encode_signed_leb128_i16(v, &mut leb_bytes);
    }
    let block = block(&leb_bytes);
    let mut output = [0i16; 4];
    let consumed = read_leb128_i16(&block, 0, &mut output).expect("read failed");
    assert_eq!(consumed, block.len());
    assert_eq!(output, values);
}

#[test]
fn test_read_leb128_i32_block() {
    let values: [i32; 3] = [100_000, -50_000, 0];
    let mut leb_bytes = Vec::new();
    for &v in &values {
        encode_signed_leb128_i32(v, &mut leb_bytes);
    }
    let block = block(&leb_bytes);
    let mut output = [0i32; 3];
    let consumed = read_leb128_i32(&block, 0, &mut output).expect("read failed");
    assert_eq!(consumed, block.len());
    assert_eq!(output, values);
}

#[test]
fn decoding_exact_values() {
    let mut pos = 0;
    assert_eq!(decode_signed_leb128_i16(&[0x7f], &mut pos).unwrap(), -1);
    let mut pos = 0;
    assert_eq!(decode_signed_leb128_i16(&[0x80, 0x80, 0x7e], &mut pos).unwrap(), i16::MIN);
    let mut pos = 1;
    assert_eq!(decode_signed_leb128_i32(&[9, 0xe5, 0x8e, 0x26], &mut pos).unwrap(), 624_485);
    assert_eq!(pos, 4);
}

#[test]
fn decoding_past_the_end_is_a_read_error() {
    let mut pos = 0;
    assert!(matches!(decode_signed_leb128_i16(&[0x80, 0x80], &mut pos), Err(NnueError::Io(_))));
}

#[test]
fn block_errors_name_their_cause() {
    let mut out = [0i16; 2];
    assert!(matches!(
        read_leb128_i16(b"COMPRESSED", 0, &mut out),
        Err(NnueError::UnexpectedEof { offset: 0 })
    ));
    assert!(matches!(
        read_leb128_i16(b"COMPRESSED_LEB129\x00\x00\x00\x00", 0, &mut out),
        Err(NnueError::InvalidLeb128Magic { offset: 0 })
    ));
    let short = block(&[1, 2]);
    assert!(matches!(
        read_leb128_i16(&short[..short.len() - 1], 0, &mut out),
        Err(NnueError::UnexpectedEof { offset: 21 })
    ));
    let one = block(&[5]);
    assert!(matches!(
        read_leb128_i16(&one, 0, &mut out),
        Err(NnueError::Leb128CountMismatch { decoded: 1, expected: 2 })
    ));
    let open = block(&[5, 0x81]);
    assert!(matches!(read_leb128_i16(&open, 0, &mut out), Err(NnueError::Io(_))));
}

#[test]
fn block_ignores_trailing_bytes() {
    let mut out = [0i16; 1];
    let b = block(&[3, 4, 5]);
    assert_eq!(read_leb128_i16(&b, 0, &mut out).unwrap(), b.len());
    assert_eq!(out, [3]);
}

#[test]
fn parse_checks_the_version_first() {
    let data = [1u8, 2, 3, 4];
    assert!(matches!(
        NnueModel::parse(&data),
        Err(NnueError::InvalidVersion { got: 0x0403_0201 })
    ));
    assert!(matches!(NnueModel::parse(&[1u8, 2]), Err(NnueError::UnexpectedEof { offset: 0 })));
    let mut ok_version = 0x7AF3_2F20u32.to_le_bytes().to_vec();
    ok_version.extend_from_slice(&[0, 0, 0, 0, 5, 0, 0, 0, b'a']);
    assert!(matches!(NnueModel::parse(&ok_version), Err(NnueError::UnexpectedEof { offset: 12 })));
}

#[test]
fn load_bytes_unpacks_before_parsing() {
    let packed = zstd::stream::encode_all(&[1u8, 2, 3, 4][..], 3).unwrap();
    assert_eq!(unpack(&packed).unwrap(), vec![1u8, 2, 3, 4]);
    assert!(matches!(
        NnueModel::load_bytes(&packed),
        Err(NnueError::InvalidVersion { got: 0x0403_0201 })
    ));
    assert!(matches!(NnueModel::load_bytes(b"not zstd"), Err(NnueError::Zstd(_))));
}

#[test]
fn overlong_groups_are_found_before_parsing() {
    let mut data = 0x7AF3_2F20u32.to_le_bytes().to_vec();
    data.extend_from_slice(&[0, 0, 0, 0, 0, 0, 0, 0]);
    data.extend_from_slice(&[0, 0, 0, 0]);
    data.extend_from_slice(&block(&[0x80, 0x80, 0x80, 0x01]));
    assert!(!groups_fit_for_parse(&data));
    let mut fine = 0x7AF3_2F20u32.to_le_bytes().to_vec();
    fine.extend_from_slice(&[0, 0, 0, 0, 0, 0, 0, 0]);
    fine.extend_from_slice(&[0, 0, 0, 0]);
    fine.extend_from_slice(&block(&[0x80, 0x80, 0x01]));
    assert!(groups_fit_for_parse(&fine));
}
