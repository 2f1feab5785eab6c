use img_parts::png::image::{is_png, CHUNK_EXIF, CHUNK_ICCP, SIGNATURE};
use img_parts::png::{Png, PngChunk};
use img_parts::{Bytes, EncodeAt, Error, ImageEXIF, ImageICC};

const IEND: [u8; 12] = [
    0x00, 0x00, 0x00, 0x00, 0x49, 0x45, 0x4E, 0x44, 0xAE, 0x42, 0x60, 0x82,
];

fn chunk_bytes(kind: [u8; 4], contents: &'static [u8]) -> Vec<u8> {
    PngChunk::new(kind, Bytes::from_static(contents))
        .encoder()
        .bytes()
        .to_vec()
}

/// A small image: a header chunk, two data chunks and the end chunk.
fn sample() -> Vec<u8> {
    let mut file = SIGNATURE.to_vec();
    file.extend(chunk_bytes(*b"IHDR", &[0, 0, 0, 1, 0, 0, 0, 1, 8, 2, 0, 0, 0]));
    file.extend(chunk_bytes(*b"IDAT", b"first data"));
    file.extend(chunk_bytes(*b"IDAT", b"more"));
    file.extend_from_slice(&IEND);
    file
}

fn parse(bytes: &[u8]) -> Png {
    Png::from_bytes(Bytes::copy_from_slice(bytes)).expect("parse")
}

fn kinds(png: &Png) -> Vec<[u8; 4]> {
    png.chunks().iter().map(|chunk| chunk.kind()).collect()
}

#[test]
fn crc_of_known_chunks() {
    assert_eq!(
        PngChunk::new(*b"IEND", Bytes::new()).crc(),
        [0xAE, 0x42, 0x60, 0x82]
    );
    // the CRC-32 of "123456789"
    assert_eq!(
        PngChunk::new(*b"1234", Bytes::from_static(b"56789")).crc(),
        [0xCB, 0xF4, 0x39, 0x26]
    );
}

#[test]
fn png_chunk_fragments() {
    let chunk = PngChunk::new(*b"1234", Bytes::from_static(b"56789"));
    assert_eq!(chunk.kind(), *b"1234");
    assert_eq!(chunk.contents(), &Bytes::from_static(b"56789"));
    assert_eq!(chunk.len(), 17);
    let mut pos = 0;
    assert_eq!(
        chunk.encode_at(&mut pos),
        Some(Bytes::from_static(&[0, 0, 0, 5, b'1', b'2', b'3', b'4']))
    );
    let mut pos = 1;
    assert_eq!(chunk.encode_at(&mut pos), Some(Bytes::from_static(b"56789")));
    let mut pos = 2;
    assert_eq!(
        chunk.encode_at(&mut pos),
        Some(Bytes::from_static(&[0xCB, 0xF4, 0x39, 0x26]))
    );
    let mut pos = 5;
    assert_eq!(chunk.encode_at(&mut pos), None);
    assert_eq!(pos, 2);
}

#[test]
fn empty_chunk_still_has_three_fragments() {
    let mut encoder = PngChunk::new(*b"IEND", Bytes::new()).encoder();
    assert_eq!(encoder.next(), Some(Bytes::from_static(&IEND[..8])));
    assert_eq!(encoder.next(), Some(Bytes::new()));
    assert_eq!(encoder.next(), Some(Bytes::from_static(&IEND[8..])));
    assert_eq!(encoder.next(), None);
}

#[test]
fn chunk_from_bytes() {
    let mut buf = Bytes::from_static(&[
        0, 0, 0, 5, b'1', b'2', b'3', b'4', b'5', b'6', b'7', b'8', b'9', 0xCB, 0xF4, 0x39, 0x26,
        0xEE,
    ]);
    let chunk = PngChunk::from_bytes(&mut buf).expect("chunk");
    assert_eq!(chunk, PngChunk::new(*b"1234", Bytes::from_static(b"56789")));
    assert_eq!(buf, Bytes::from_static(&[0xEE]));
    assert_eq!(PngChunk::from_bytes(&mut buf), Err(Error::Truncated));
}

#[test]
fn smallest_file() {
    let mut file = SIGNATURE.to_vec();
    file.extend_from_slice(&IEND);
    let png = parse(&file);
    assert_eq!(kinds(&png), vec![*b"IEND"]);
    assert_eq!(png.len(), 20);
    assert_eq!(png.encoder().bytes(), Bytes::from(file));

    let png = parse(&SIGNATURE);
    assert_eq!(png.chunks().len(), 0);
    assert_eq!(png.len(), 8);
    assert_eq!(png.encoder().bytes(), Bytes::from_static(&SIGNATURE));
}

#[test]
fn png_round_trip_is_byte_for_byte() {
    let file = sample();
    let png = parse(&file);
    assert_eq!(kinds(&png), vec![*b"IHDR", *b"IDAT", *b"IDAT", *b"IEND"]);
    assert_eq!(png.len(), file.len());
    assert_eq!(png.len(), 8 + 25 + 22 + 16 + 12);
    assert_eq!(png.encoder().bytes(), Bytes::from(file));
}

#[test]
fn png_image_encode_at_rebases_the_index() {
    let png = parse(&sample());
    let mut pos = 0;
    assert_eq!(png.encode_at(&mut pos), Some(Bytes::from_static(&SIGNATURE)));
    let mut pos = 5;
    assert_eq!(png.encode_at(&mut pos), Some(Bytes::from_static(b"first data")));
    assert_eq!(pos, 5);
    let mut pos = 13;
    assert_eq!(png.encode_at(&mut pos), None);
    assert_eq!(pos, 0);
    let mut pos = 20;
    assert_eq!(png.encode_at(&mut pos), None);
    assert_eq!(pos, 7);
}

#[test]
fn png_wrong_signature() {
    let mut file = sample();
    file[0] = 0x88;
    assert_eq!(Png::from_bytes(Bytes::from(file)), Err(Error::WrongSignature));
    assert_eq!(
        Png::from_bytes(Bytes::from_static(b"\xFF\xD8\xFF\xE0\x00\x10JFIF")),
        Err(Error::WrongSignature)
    );
}

#[test]
fn flipping_any_bit_of_type_or_contents_is_a_bad_crc() {
    let file = sample();
    // the second chunk stands behind the signature and the header chunk
    let start = 8 + 25;
    for byte in start + 4..start + 8 + 10 {
        for bit in 0..8 {
            let mut changed = file.clone();
            changed[byte] ^= 1 << bit;
            assert_eq!(
                Png::from_bytes(Bytes::from(changed)),
                Err(Error::BadCRC),
                "byte {} bit {}",
                byte,
                bit
            );
        }
    }
}

#[test]
fn changed_crc_is_a_bad_crc() {
    let mut file = sample();
    let last = file.len() - 1;
    file[last] ^= 0x01;
    assert_eq!(Png::from_bytes(Bytes::from(file)), Err(Error::BadCRC));
}

#[test]
fn png_every_truncation_is_truncated_or_shorter() {
    let file = sample();
    let whole = parse(&file);
    let ends = [8usize, 8 + 25, 8 + 25 + 22, 8 + 25 + 22 + 16];
    for k in 0..file.len() {
        let result = Png::from_bytes(Bytes::copy_from_slice(&file[..k]));
        match ends.iter().position(|end| *end == k) {
            Some(n) => {
                let png = result.expect("shorter image");
                assert_eq!(png.chunks().as_slice(), &whole.chunks()[..n]);
                assert_eq!(png.len(), k);
            }
            None => assert_eq!(result, Err(Error::Truncated), "cut at {}", k),
        }
    }
}

#[test]
fn sniff_png() {
    assert!(is_png(&sample()));
    assert!(is_png(&SIGNATURE));
    assert!(!is_png(&SIGNATURE[..7]));
    assert!(!is_png(b"\x89PNG\r\n\x1a\r"));
}

#[test]
fn chunks_by_type() {
    let mut png = parse(&sample());
    assert_eq!(
        png.chunk_by_type(*b"IDAT").map(|c| c.contents().clone()),
        Some(Bytes::from_static(b"first data"))
    );
    assert!(png.chunk_by_type(*b"tEXt").is_none());
    let data = png.chunks_by_type(*b"IDAT");
    assert_eq!(data.len(), 2);
    assert_eq!(data[1].contents(), &Bytes::from_static(b"more"));

    png.remove_chunks_by_type(*b"IDAT");
    assert_eq!(kinds(&png), vec![*b"IHDR", *b"IEND"]);
    png.chunks_mut()
        .insert(1, PngChunk::new(*b"tEXt", Bytes::from_static(b"k\0v")));
    assert_eq!(kinds(&png), vec![*b"IHDR", *b"tEXt", *b"IEND"]);
}

#[test]
fn set_icc_profile_inserts_a_deflated_chunk_at_index_1() {
    let profile: Vec<u8> = vec![0; 1000];
    let mut png = parse(&sample());
    assert_eq!(png.icc_profile(), None);
    png.set_icc_profile(Some(Bytes::from(profile.clone())));
    assert_eq!(
        kinds(&png),
        vec![*b"IHDR", CHUNK_ICCP, *b"IDAT", *b"IDAT", *b"IEND"]
    );
    let contents = png.chunks()[1].contents().clone();
    // the name, its end, the method, and a zlib stream
    assert_eq!(&contents[..5], b"icc\0\0");
    assert_eq!(contents[5], 0x78);
    assert!(contents.len() < 100);
    assert_eq!(png.icc_profile(), Some(Bytes::from(profile.clone())));

    let written = png.encoder().bytes();
    assert_eq!(parse(&written).icc_profile(), Some(Bytes::from(profile)));
}

#[test]
fn png_set_icc_profile_replaces_and_removes() {
    let mut png = parse(&sample());
    png.set_icc_profile(Some(Bytes::from_static(b"first")));
    png.set_icc_profile(Some(Bytes::from_static(b"second profile")));
    assert_eq!(png.chunks().len(), 5);
    assert_eq!(png.icc_profile(), Some(Bytes::from_static(b"second profile")));
    png.set_icc_profile(None);
    assert_eq!(png, parse(&sample()));
}

#[test]
fn png_set_icc_profile_with_its_own_profile_changes_nothing() {
    let mut png = parse(&sample());
    png.set_icc_profile(Some(Bytes::from_static(b"a profile, a profile, a profile")));
    let before = png.clone().encoder().bytes();
    let own = png.icc_profile();
    png.set_icc_profile(own);
    assert_eq!(png.encoder().bytes(), before);
}

#[test]
fn icc_profile_inflates_a_known_stream() {
    let mut png = parse(&sample());
    png.chunks_mut().insert(
        1,
        PngChunk::new(
            CHUNK_ICCP,
            Bytes::from_static(b"a name\x00\x00\x78\x9C\x4B\x04\x00\x00\x62\x00\x62"),
        ),
    );
    assert_eq!(png.icc_profile(), Some(Bytes::from_static(b"a")));
}

#[test]
fn icc_profile_that_cannot_be_read_is_none() {
    let cases: [&'static [u8]; 6] = [
        // no end of the name
        b"icc",
        // no method
        b"icc\x00",
        // another method
        b"icc\x00\x01\x78\x9C\x4B\x04\x00\x00\x62\x00\x62",
        // no stream
        b"icc\x00\x00",
        // no zlib stream
        b"icc\x00\x00not deflated",
        // nothing at all
        b"",
    ];
    for contents in cases {
        let mut png = parse(&sample());
        png.chunks_mut()
            .insert(1, PngChunk::new(CHUNK_ICCP, Bytes::from_static(contents)));
        assert_eq!(png.icc_profile(), None, "{:?}", contents);
    }
}

#[test]
fn icc_profile_is_that_of_the_first_chunk() {
    let mut png = parse(&sample());
    png.set_icc_profile(Some(Bytes::from_static(b"good")));
    png.chunks_mut()
        .insert(1, PngChunk::new(CHUNK_ICCP, Bytes::from_static(b"bad")));
    assert_eq!(png.icc_profile(), None);
    png.chunks_mut().remove(1);
    assert_eq!(png.icc_profile(), Some(Bytes::from_static(b"good")));
}

#[test]
fn set_exif_inserts_a_chunk_before_the_last() {
    let mut png = parse(&sample());
    assert_eq!(png.exif(), None);
    png.set_exif(Some(Bytes::from_static(b"MM\x00\x2A")));
    assert_eq!(
        kinds(&png),
        vec![*b"IHDR", *b"IDAT", *b"IDAT", CHUNK_EXIF, *b"IEND"]
    );
    assert_eq!(png.chunks()[3].contents(), &Bytes::from_static(b"MM\x00\x2A"));
    assert_eq!(png.exif(), Some(Bytes::from_static(b"MM\x00\x2A")));

    png.set_exif(Some(Bytes::from_static(b"II")));
    assert_eq!(png.chunks().len(), 5);
    assert_eq!(png.exif(), Some(Bytes::from_static(b"II")));

    let written = png.clone().encoder().bytes();
    assert_eq!(parse(&written), png);

    png.set_exif(None);
    assert_eq!(png, parse(&sample()));
}

#[test]
fn images_that_were_read_are_encodable() {
    let png = parse(&sample());
    assert!(png.is_encodable());
    assert!(png.chunks()[0].is_encodable());
    assert_eq!(png.encoded_len(), sample().len());
}

#[test]
fn metadata_can_be_set_where_another_chunk_is_left() {
    let some = Some(Bytes::from_static(b"data"));
    let png = parse(&sample());
    assert!(png.can_set_icc_profile(&some));
    assert!(png.can_set_exif(&some));

    let mut empty = parse(&SIGNATURE);
    assert!(!empty.can_set_icc_profile(&some));
    assert!(!empty.can_set_exif(&some));
    assert!(empty.can_set_icc_profile(&None));
    assert!(empty.can_set_exif(&None));

    empty
        .chunks_mut()
        .push(PngChunk::new(CHUNK_ICCP, Bytes::from_static(b"icc\0\0")));
    assert!(!empty.can_set_icc_profile(&some));
    assert!(empty.can_set_exif(&some));
}
