use img_parts::{Bytes, EncodeAt, ImageEncoder, Pieces};

fn pieces(last: &'static [u8]) -> Pieces {
    Pieces::new(vec![
        Bytes::from_static(b"abcd"),
        Bytes::from_static(b"9876"),
        Bytes::from_static(last),
    ])
}

#[test]
fn image_encoder_iter() {
    let encoder_at = pieces(b"ducks!");
    let mut encoder = ImageEncoder::new(encoder_at);

    assert_eq!(Some(Bytes::from_static(b"abcd")), encoder.next());
    assert_eq!(Some(Bytes::from_static(b"9876")), encoder.next());
    assert_eq!(Some(Bytes::from_static(b"ducks!")), encoder.next());
    assert!(encoder.next().is_none());
}

#[test]
fn image_encoder_read() {
    let encoder_at = pieces(b"duck!");
    let encoder = ImageEncoder::new(encoder_at);
    let mut reader = encoder.read();

    let expected = [
        Bytes::from_static(b"abcd"),
        Bytes::from_static(b"9876"),
        Bytes::from_static(b"duck!"),
    ];

    for exp in &expected {
        let mut buf = [0; 32];
        let read = reader.read(&mut buf).expect("read something");

        assert_eq!(exp, &buf[..read]);
    }

    let mut buf = [0; 32];
    let read = reader.read(&mut buf).expect("read nothing");
    assert_eq!(0, read);
    assert_eq!([0; 32], buf);
}

#[test]
fn image_encoder_read_buffered() {
    let encoder_at = pieces(b"duck!");
    let encoder = ImageEncoder::new(encoder_at);
    let mut reader = encoder.read();

    let expected = [
        Bytes::from_static(b"ab"),
        Bytes::from_static(b"cd"),
        Bytes::from_static(b"98"),
        Bytes::from_static(b"76"),
        Bytes::from_static(b"du"),
        Bytes::from_static(b"ck"),
        Bytes::from_static(b"!"),
    ];

    for exp in &expected {
        let mut buf = [0; 2];
        let read = reader.read(&mut buf).expect("read something");

        assert_eq!(exp, &buf[..read]);
    }

    let mut buf = [0; 32];
    let read = reader.read(&mut buf).expect("read nothing");
    assert_eq!(0, read);
    assert_eq!([0; 32], buf);
}

#[test]
fn image_encoder_write_to() {
    let encoder_at = pieces(b"duck!");
    let encoder = ImageEncoder::new(encoder_at);

    let mut vec = Vec::new();
    let written = encoder.write_to(&mut vec).expect("write_to");
    assert_eq!(written, 13);
    assert_eq!(vec, b"abcd9876duck!");
}

#[test]
fn image_encoder_reader_read() {
    let encoder_at = pieces(b"ducks!");
    let encoder = ImageEncoder::new(encoder_at);
    let mut reader = encoder.read();

    let mut r = [0u8; 2];
    assert_eq!(reader.read(&mut r).unwrap(), 2);
    assert_eq!(&r, b"ab");

    let mut r = [0u8; 1];
    assert_eq!(reader.read(&mut r).unwrap(), 1);
    assert_eq!(&r, b"c");

    let mut r = [0u8; 8];
    assert_eq!(reader.read(&mut r).unwrap(), 1);
    assert_eq!(&r[..1], b"d");

    let mut r = [0u8; 8];
    assert_eq!(reader.read(&mut r).unwrap(), 4);
    assert_eq!(&r[..4], b"9876");

    let mut r = [0u8; 4];
    assert_eq!(reader.read(&mut r).unwrap(), 4);
    assert_eq!(&r[..4], b"duck");

    let mut r = [0u8; 4];
    assert_eq!(reader.read(&mut r).unwrap(), 2);
    assert_eq!(&r[..2], b"s!");

    for _ in 0..3 {
        let mut r = [0u8; 4];
        assert_eq!(reader.read(&mut r).unwrap(), 0);
        assert_eq!(&r[..], &[0, 0, 0, 0]);
    }
}

#[test]
fn image_encoder_bytes_joins_the_fragments() {
    let encoder = pieces(b"ducks!").encoder();
    assert_eq!(encoder.bytes(), Bytes::from_static(b"abcd9876ducks!"));
}

#[test]
fn image_encoder_bytes_after_next_holds_what_is_left() {
    let mut encoder = pieces(b"ducks!").encoder();
    assert_eq!(encoder.next(), Some(Bytes::from_static(b"abcd")));
    assert_eq!(encoder.bytes(), Bytes::from_static(b"9876ducks!"));
}

#[test]
fn image_encoder_write_to_appends_to_the_sink() {
    let mut sink = b"xy".to_vec();
    let written = pieces(b"!").encoder().write_to(&mut sink).unwrap();
    assert_eq!(written, 9);
    assert_eq!(sink, b"xyabcd9876!");
}

#[test]
fn image_encoder_of_nothing_is_empty() {
    let mut encoder = Pieces::new(Vec::new()).encoder();
    assert!(encoder.next().is_none());
    assert_eq!(encoder.bytes(), Bytes::new());
}

#[test]
fn reader_leaves_an_empty_buffer_alone() {
    let mut reader = pieces(b"!").encoder().read();
    let mut none: [u8; 0] = [];
    assert_eq!(reader.read(&mut none).unwrap(), 0);
    let mut r = [0u8; 8];
    assert_eq!(reader.read(&mut r).unwrap(), 4);
    assert_eq!(&r[..4], b"abcd");
}

#[test]
fn pieces_are_encodable() {
    let pieces = pieces(b"duck!");
    assert!(pieces.is_encodable());
    assert_eq!(pieces.encoded_len(), 13);
    let mut pos = 1;
    assert_eq!(pieces.encode_at(&mut pos), Some(Bytes::from_static(b"9876")));
    let mut pos = 4;
    assert_eq!(pieces.encode_at(&mut pos), None);
    assert_eq!(pos, 1);
}
