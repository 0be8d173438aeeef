use bilidm::varint::{decode_varint, skip_field};

#[test]
fn decode_single_byte() {
    let data = [0x01u8];
    let mut offset = 0usize;
    assert_eq!(decode_varint(&data, &mut offset), Some(1));
    assert_eq!(offset, 1);
}

#[test]
fn decode_two_bytes() {
    let data = [0xACu8, 0x02, 0x99];
    let mut offset = 0usize;
    assert_eq!(decode_varint(&data, &mut offset), Some(300));
    assert_eq!(offset, 2);
}

#[test]
fn decode_from_middle() {
    let data = [0x05u8, 0x96, 0x01];
    let mut offset = 1usize;
    assert_eq!(decode_varint(&data, &mut offset), Some(150));
    assert_eq!(offset, 3);
}

#[test]
fn decode_at_end_keeps_offset() {
    let data = [0x05u8];
    let mut offset = 1usize;
    assert_eq!(decode_varint(&data, &mut offset), None);
    assert_eq!(offset, 1);
    let mut offset = 7usize;
    assert_eq!(decode_varint(&data, &mut offset), None);
    assert_eq!(offset, 7);
    let mut offset = 0usize;
    assert_eq!(decode_varint(&[], &mut offset), None);
    assert_eq!(offset, 0);
}

#[test]
fn decode_truncated_moves_to_end() {
    let data = [0x80u8, 0x80, 0x80];
    let mut offset = 0usize;
    assert_eq!(decode_varint(&data, &mut offset), None);
    assert_eq!(offset, 3);
}

#[test]
fn decode_too_long_stops_after_ten_bytes() {
    let data = [0xFFu8; 12];
    let mut offset = 1usize;
    assert_eq!(decode_varint(&data, &mut offset), None);
    assert_eq!(offset, 11);
}

#[test]
fn decode_max_value() {
    let mut data = [0xFFu8; 10];
    data[9] = 0x01;
    let mut offset = 0usize;
    assert_eq!(decode_varint(&data, &mut offset), Some(u64::MAX));
    assert_eq!(offset, 10);
}

#[test]
fn decode_tenth_byte_keeps_only_its_low_bit() {
    let mut data = [0x80u8; 10];
    data[9] = 0x02;
    let mut offset = 0usize;
    assert_eq!(decode_varint(&data, &mut offset), Some(0));
    assert_eq!(offset, 10);
    data[9] = 0x7F;
    let mut offset = 0usize;
    assert_eq!(decode_varint(&data, &mut offset), Some(1u64 << 63));
}

#[test]
fn skip_varint_field() {
    let data = [0xACu8, 0x02, 0x01];
    let mut offset = 0usize;
    assert!(skip_field(0, &data, &mut offset));
    assert_eq!(offset, 2);
}

#[test]
fn skip_varint_field_fails_at_end() {
    let data = [0xACu8];
    let mut offset = 0usize;
    assert!(!skip_field(0, &data, &mut offset));
    assert_eq!(offset, 1);
}

#[test]
fn skip_fixed64_field() {
    let data = [0u8; 9];
    let mut offset = 1usize;
    assert!(skip_field(1, &data, &mut offset));
    assert_eq!(offset, 9);
    let mut offset = 2usize;
    assert!(!skip_field(1, &data, &mut offset));
    assert_eq!(offset, 10);
}

#[test]
fn skip_fixed32_field() {
    let data = [0u8; 4];
    let mut offset = 0usize;
    assert!(skip_field(5, &data, &mut offset));
    assert_eq!(offset, 4);
    let mut offset = 1usize;
    assert!(!skip_field(5, &data, &mut offset));
    assert_eq!(offset, 5);
}

#[test]
fn skip_length_delimited_field() {
    let data = [0x03u8, 1, 2, 3, 4];
    let mut offset = 0usize;
    assert!(skip_field(2, &data, &mut offset));
    assert_eq!(offset, 4);
    let data = [0x05u8, 1, 2];
    let mut offset = 0usize;
    assert!(!skip_field(2, &data, &mut offset));
    assert_eq!(offset, 6);
    let data = [0x85u8];
    let mut offset = 0usize;
    assert!(!skip_field(2, &data, &mut offset));
    assert_eq!(offset, 1);
}

#[test]
fn skip_unknown_wire_type_fails_in_place() {
    let data = [0u8; 8];
    for wire in [3u64, 4, 6, 7] {
        let mut offset = 2usize;
        assert!(!skip_field(wire, &data, &mut offset));
        assert_eq!(offset, 2);
    }
}

fn encode(mut v: u64) -> Vec<u8> {
    let mut out = Vec::new();
    loop {
        let b = (v & 0x7F) as u8;
        v >>= 7;
        if v == 0 {
            out.push(b);
            return out;
        }
        out.push(b | 0x80);
    }
}

#[test]
fn decode_reads_back_encodings() {
    for v in [0u64, 1, 127, 128, 300, 16383, 16384, 1 << 35, u64::MAX - 1, u64::MAX] {
        let mut data = encode(v);
        let n = data.len();
        data.extend_from_slice(&[0xFF, 0x00]);
        let mut offset = 0usize;
        assert_eq!(decode_varint(&data, &mut offset), Some(v));
        assert_eq!(offset, n);
    }
}

#[test]
fn decode_ignores_what_follows() {
    let mut offset = 0usize;
    assert_eq!(decode_varint(&[0x96, 0x01], &mut offset), Some(150));
    let mut offset2 = 0usize;
    assert_eq!(decode_varint(&[0x96, 0x01, 0x80, 0x80], &mut offset2), Some(150));
    assert_eq!(offset, offset2);
}
