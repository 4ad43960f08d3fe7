use buffering::endian::{decode, encode, overwrite, probe_order, ByteOrder};

#[test]
fn decode_reads_in_either_order() {
    let bytes = [0xAA, 0x01, 0x02, 0x03, 0x04, 0xBB];
    assert_eq!(decode(&bytes, 1, 4, ByteOrder::Big), 0x0102_0304);
    assert_eq!(decode(&bytes, 1, 4, ByteOrder::Little), 0x0403_0201);
    assert_eq!(decode(&bytes, 1, 2, ByteOrder::Big), 258);
    assert_eq!(decode(&bytes, 1, 2, ByteOrder::Little), 513);
    assert_eq!(decode(&bytes, 5, 1, ByteOrder::Big), 0xBB);
    assert_eq!(decode(&bytes, 5, 1, ByteOrder::Little), 0xBB);
    assert_eq!(decode(&bytes, 3, 0, ByteOrder::Big), 0);
    assert_eq!(decode(&bytes, 6, 0, ByteOrder::Little), 0);
}

#[test]
fn decode_reads_sixteen_bytes() {
    let bytes: Vec<u8> = (1..=16).collect();
    assert_eq!(
        decode(&bytes, 0, 16, ByteOrder::Big),
        0x0102_0304_0506_0708_090A_0B0C_0D0E_0F10
    );
    assert_eq!(
        decode(&bytes, 0, 16, ByteOrder::Little),
        0x100F_0E0D_0C0B_0A09_0807_0605_0403_0201
    );
    assert_eq!(decode(&[0xFF; 16], 0, 16, ByteOrder::Big), u128::MAX);
}

#[test]
fn encode_writes_in_either_order() {
    let mut buffer = [0xEE; 6];
    encode(&mut buffer, 1, 4, 0x0102_0304, ByteOrder::Big);
    assert_eq!(buffer, [0xEE, 1, 2, 3, 4, 0xEE]);
    encode(&mut buffer, 1, 4, 0x0102_0304, ByteOrder::Little);
    assert_eq!(buffer, [0xEE, 4, 3, 2, 1, 0xEE]);
    encode(&mut buffer, 0, 0, 77, ByteOrder::Big);
    assert_eq!(buffer, [0xEE, 4, 3, 2, 1, 0xEE]);
    encode(&mut buffer, 4, 2, 5, ByteOrder::Big);
    assert_eq!(buffer, [0xEE, 4, 3, 2, 0, 5]);
    encode(&mut buffer, 4, 2, 1280, ByteOrder::Little);
    assert_eq!(buffer, [0xEE, 4, 3, 2, 0, 5]);
}

#[test]
fn encode_drops_what_is_above_the_width() {
    let mut buffer = [0u8; 2];
    encode(&mut buffer, 0, 2, 0x0A0B_0C0D, ByteOrder::Big);
    assert_eq!(buffer, [0x0C, 0x0D]);
    encode(&mut buffer, 0, 2, 0x0A0B_0C0D, ByteOrder::Little);
    assert_eq!(buffer, [0x0D, 0x0C]);
}

#[test]
fn encode_then_decode_gives_the_value() {
    for order in [ByteOrder::Big, ByteOrder::Little] {
        for (width, value) in [(1usize, 0xF0u128), (2, 0xF0E1), (4, 0xF0E1_D2C3), (8, u64::MAX as u128), (16, u128::MAX - 5)] {
            let mut buffer = vec![0u8; width + 2];
            encode(&mut buffer, 1, width, value, order);
            assert_eq!(decode(&buffer, 1, width, order), value);
            assert_eq!(buffer[0], 0);
            assert_eq!(buffer[width + 1], 0);
        }
    }
}

#[test]
fn overwrite_copies_into_place() {
    let mut target = [1u8, 2, 3, 4, 5];
    overwrite(&mut target, 1, &[8, 9]);
    assert_eq!(target, [1, 8, 9, 4, 5]);
    overwrite(&mut target, 5, &[]);
    assert_eq!(target, [1, 8, 9, 4, 5]);
    overwrite(&mut target, 0, &[0, 0, 0, 0, 0]);
    assert_eq!(target, [0; 5]);
}

#[test]
fn probe_order_reads_the_first_byte() {
    assert_eq!(probe_order(1u16.to_le_bytes()), ByteOrder::Little);
    assert_eq!(probe_order(1u16.to_be_bytes()), ByteOrder::Big);
    assert_eq!(probe_order([1, 0]), ByteOrder::Little);
    assert_eq!(probe_order([0, 1]), ByteOrder::Big);
    assert_eq!(probe_order([1, 1]), ByteOrder::Little);
    assert_eq!(probe_order([0, 0]), ByteOrder::Big);
}
