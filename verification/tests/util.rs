use img_parts::util::{
    read_u16, read_u32, read_u32_le, read_u8, read_u8_len4_array, read_u8_len8_array, same_id,
    split_to_checked, u24_from_le_bytes, u24_to_le_bytes,
};
use img_parts::{Bytes, Error};

#[test]
fn read_u8_checked() {
    let mut buf = Bytes::from_static(&[0x00, 0x01, 0x02]);

    assert_eq!(read_u8(&mut buf), Ok(0x00));
    assert_eq!(read_u8(&mut buf), Ok(0x01));
    assert_eq!(read_u8(&mut buf), Ok(0x02));

    assert_eq!(read_u8(&mut buf), Err(Error::Truncated));
}

#[test]
fn split_checked() {
    let mut buf = Bytes::from_static(&[0x00, 0x01, 0x02, 0x03]);

    assert_eq!(
        split_to_checked(&mut buf, 2).as_ref(),
        Ok(&Bytes::from_static(&[0x00, 0x01]))
    );
    assert_eq!(
        split_to_checked(&mut buf, 2).as_ref(),
        Ok(&Bytes::from_static(&[0x02, 0x03]))
    );

    assert_eq!(split_to_checked(&mut buf, 2), Err(Error::Truncated));
}

#[test]
fn split_checked_leaves_a_short_buffer_as_it_is() {
    let mut buf = Bytes::from_static(&[7, 8, 9]);
    assert_eq!(split_to_checked(&mut buf, 4), Err(Error::Truncated));
    assert_eq!(buf, Bytes::from_static(&[7, 8, 9]));
    assert_eq!(split_to_checked(&mut buf, 0), Ok(Bytes::new()));
    assert_eq!(split_to_checked(&mut buf, 3), Ok(Bytes::from_static(&[7, 8, 9])));
    assert!(buf.is_empty());
}

#[test]
fn read_u16_is_big_endian() {
    let mut buf = Bytes::from_static(&[0x12, 0x34, 0x56]);
    assert_eq!(read_u16(&mut buf), Ok(0x1234));
    assert_eq!(buf, Bytes::from_static(&[0x56]));
    assert_eq!(read_u16(&mut buf), Err(Error::Truncated));
    assert_eq!(buf, Bytes::from_static(&[0x56]));
}

#[test]
fn read_u32_is_big_endian() {
    let mut buf = Bytes::from_static(&[0x01, 0x02, 0x03, 0x04, 0x05, 0x06, 0x07]);
    assert_eq!(read_u32(&mut buf), Ok(0x0102_0304));
    assert_eq!(read_u32(&mut buf), Err(Error::Truncated));
    assert_eq!(buf.len(), 3);
}

#[test]
fn read_u32_le_is_little_endian() {
    let mut buf = Bytes::from_static(&[0x01, 0x02, 0x03, 0x04, 0xFF]);
    assert_eq!(read_u32_le(&mut buf), Ok(0x0403_0201));
    assert_eq!(read_u32_le(&mut buf), Err(Error::Truncated));
    assert_eq!(buf, Bytes::from_static(&[0xFF]));
}

#[test]
fn read_arrays() {
    let mut buf = Bytes::from_static(b"RIFFabcdefgh123");
    assert_eq!(read_u8_len4_array(&mut buf), Ok(*b"RIFF"));
    assert_eq!(read_u8_len8_array(&mut buf), Ok(*b"abcdefgh"));
    assert_eq!(read_u8_len4_array(&mut buf), Err(Error::Truncated));
    assert_eq!(read_u8_len8_array(&mut buf), Err(Error::Truncated));
    assert_eq!(buf, Bytes::from_static(b"123"));
}

#[test]
fn u24_from_le() {
    assert_eq!(u24_from_le_bytes([0x01, 0x02, 0x03]), 0x0003_0201);
    assert_eq!(u24_from_le_bytes([0xFF, 0xFF, 0xFF]), 0x00FF_FFFF);
    assert_eq!(u24_from_le_bytes([0, 0, 0]), 0);
}

#[test]
fn u24_to_le() {
    assert_eq!(u24_to_le_bytes(0x0003_0201), [0x01, 0x02, 0x03]);
    assert_eq!(u24_to_le_bytes(0x00FF_FFFF), [0xFF, 0xFF, 0xFF]);
    // the fourth byte is dropped
    assert_eq!(u24_to_le_bytes(0xAB12_3456), [0x56, 0x34, 0x12]);
}

#[test]
fn u24_round_trip() {
    for n in [0u32, 1, 255, 256, 65_535, 65_536, 0x00AB_CDEF, 0x00FF_FFFF] {
        assert_eq!(u24_from_le_bytes(u24_to_le_bytes(n)), n);
    }
}

#[test]
fn same_id_compares_all_four_bytes() {
    assert!(same_id(b"VP8X", b"VP8X"));
    assert!(!same_id(b"VP8X", b"VP8L"));
    assert!(!same_id(b"xP8X", b"VP8X"));
}
