use lsm_engine::utils::{
    decode_varint_32, encode_varint_32, get_varint_32, varint_length, VarintError,
};

fn encoded(v: u32) -> Vec<u8> {
    let mut buf = [0u8; 5];
    let n = encode_varint_32(&mut buf, v);
    buf[..n].to_vec()
}

#[test]
fn test_encode_and_decode_varint_32() {
    let mut buf = [0u8; 5];
    let _ = encode_varint_32(&mut buf, 1);
    assert_eq!(decode_varint_32(&buf), Some(1));

    let mut buf = [0u8; 5];
    let _ = encode_varint_32(&mut buf, 3);
    assert_eq!(decode_varint_32(&buf), Some(3));

    let mut buf = [0u8; 5];
    let _ = encode_varint_32(&mut buf, 10);
    assert_eq!(decode_varint_32(&buf), Some(10));

    let mut buf = [0u8; 5];
    let _ = encode_varint_32(&mut buf, 100);
    assert_eq!(decode_varint_32(&buf), Some(100));

    let mut buf = [0u8; 5];
    let _ = encode_varint_32(&mut buf, 1234);
    assert_eq!(decode_varint_32(&buf), Some(1234));

    let mut buf = [0u8; 5];
    let _ = encode_varint_32(&mut buf, 123456);
    assert_eq!(decode_varint_32(&buf), Some(123456));

    let mut buf = [0u8; 5];
    let _ = encode_varint_32(&mut buf, 3);
    assert_eq!(decode_varint_32(&buf), Some(3));
}

#[test]
fn varint_exact_bytes() {
    assert_eq!(encoded(0), vec![0]);
    assert_eq!(encoded(127), vec![127]);
    assert_eq!(encoded(128), vec![128, 1]);
    assert_eq!(encoded(300), vec![172, 2]);
    assert_eq!(encoded(16384), vec![128, 128, 1]);
    assert_eq!(encoded(123456), vec![192, 196, 7]);
    assert_eq!(encoded(u32::MAX), vec![255, 255, 255, 255, 15]);
}

#[test]
fn varint_encode_leaves_the_rest() {
    let mut buf = [9u8; 5];
    assert_eq!(encode_varint_32(&mut buf, 1), 1);
    assert_eq!(buf, [1, 9, 9, 9, 9]);
    let mut buf = [9u8; 7];
    assert_eq!(encode_varint_32(&mut buf, 300), 2);
    assert_eq!(buf, [172, 2, 9, 9, 9, 9, 9]);
}

#[test]
fn varint_encode_into_exact_room() {
    let mut buf = [0u8; 1];
    assert_eq!(encode_varint_32(&mut buf, 5), 1);
    assert_eq!(buf, [5]);
}

#[test]
fn varint_round_trip_at_the_edges() {
    let values = [
        0u32,
        1,
        127,
        128,
        16383,
        16384,
        2097151,
        2097152,
        268435455,
        268435456,
        u32::MAX - 1,
        u32::MAX,
    ];
    for v in values {
        let bytes = encoded(v);
        assert_eq!(bytes.len() as u32, varint_length(v as u64));
        assert_eq!(get_varint_32(&bytes), Ok((v, bytes.len())));
        assert_eq!(decode_varint_32(&bytes), Some(v));
    }
}

#[test]
fn varint_round_trip_with_bytes_after() {
    let mut bytes = encoded(300);
    bytes.extend_from_slice(&[255, 255, 255]);
    assert_eq!(get_varint_32(&bytes), Ok((300, 2)));
}

#[test]
fn varint_length_values() {
    assert_eq!(varint_length(0), 1);
    assert_eq!(varint_length(127), 1);
    assert_eq!(varint_length(128), 2);
    assert_eq!(varint_length(16383), 2);
    assert_eq!(varint_length(16384), 3);
    assert_eq!(varint_length(u32::MAX as u64), 5);
    assert_eq!(varint_length(1u64 << 35), 6);
    assert_eq!(varint_length(u64::MAX), 10);
}

#[test]
fn varint_truncated() {
    assert_eq!(get_varint_32(&[]), Err(VarintError::Truncated));
    assert_eq!(get_varint_32(&[0x80]), Err(VarintError::Truncated));
    assert_eq!(get_varint_32(&[0xff, 0xff, 0xff]), Err(VarintError::Truncated));
    assert_eq!(get_varint_32(&[0x80; 12]), Err(VarintError::Truncated));
    assert_eq!(decode_varint_32(&[0x80]), None);
    assert_eq!(decode_varint_32(&[]), None);
}

#[test]
fn varint_five_bytes_are_cut_to_32_bits() {
    assert_eq!(get_varint_32(&[255, 255, 255, 255, 127]), Ok((u32::MAX, 5)));
    assert_eq!(get_varint_32(&[255, 255, 255, 255, 16]), Ok((0x0fff_ffff, 5)));
    assert_eq!(get_varint_32(&[128, 128, 128, 128, 16]), Ok((0, 5)));
    assert_eq!(get_varint_32(&[129, 128, 128, 128, 0x7f]), Ok((0xf000_0001, 5)));
    assert_eq!(decode_varint_32(&[255, 255, 255, 255, 127]), Some(u32::MAX));
    assert_eq!(decode_varint_32(&[255, 255, 255, 255, 16]), Some(0x0fff_ffff));
    // what follows the first byte with a clear high bit is not read
    assert_eq!(get_varint_32(&[255, 255, 255, 255, 127, 255, 255]), Ok((u32::MAX, 5)));
}

#[test]
fn varint_fails_on_short_input_only_for_want_of_an_end() {
    let bytes = [0u8, 1, 0x7f, 0x80, 0x81, 0xff];
    let mut inputs: Vec<Vec<u8>> = vec![Vec::new()];
    for len in 1..=3 {
        let shorter: Vec<Vec<u8>> =
            inputs.iter().filter(|i| i.len() == len - 1).cloned().collect();
        for input in shorter {
            for b in bytes {
                let mut longer = input.clone();
                longer.push(b);
                inputs.push(longer);
            }
        }
    }
    inputs.push(vec![0x80, 0x80, 0x80, 0x80, 0x80]);
    inputs.push(vec![0xff, 0xff, 0xff, 0xff, 0x7f]);
    inputs.push(vec![0xff, 0xff, 0xff, 0x7f, 0xff]);
    for input in inputs {
        let no_end = input.iter().all(|b| b & 0x80 != 0);
        assert_eq!(decode_varint_32(&input).is_none(), no_end);
        assert_eq!(get_varint_32(&input) == Err(VarintError::Truncated), no_end);
        if let Some(j) = input.iter().position(|b| b & 0x80 == 0) {
            let mut value: u32 = 0;
            for i in 0..=j {
                value |= ((input[i] & 0x7f) as u32) << (7 * i);
            }
            assert_eq!(get_varint_32(&input), Ok((value, j + 1)));
        }
    }
}

#[test]
fn varint_overflow() {
    assert_eq!(get_varint_32(&[128, 128, 128, 128, 128, 1]), Err(VarintError::Overflow));
    assert_eq!(get_varint_32(&[255, 255, 255, 255, 255, 0]), Err(VarintError::Overflow));
    assert_eq!(
        get_varint_32(&[128, 128, 128, 128, 128, 128, 128, 128, 128, 128, 128, 1]),
        Err(VarintError::Overflow)
    );
    assert_eq!(decode_varint_32(&[128, 128, 128, 128, 128, 1]), None);
    // a longer encoding of a number that fits
    assert_eq!(get_varint_32(&[255, 255, 255, 255, 143, 0]), Ok((u32::MAX, 6)));
}

#[test]
fn varint_longer_than_needed() {
    assert_eq!(get_varint_32(&[0x80, 0x00]), Ok((0, 2)));
    assert_eq!(get_varint_32(&[0x81, 0x80, 0x80, 0x80, 0x80, 0x80, 0x00]), Ok((1, 7)));
}
