use img_parts::riff::{has_kind, has_subchunks, RiffChunk, RiffContent};
use img_parts::vp8::{has_keyframe_header, size_from_vp8_header, VP8Kind};
use img_parts::webp::flags::WebPFlags;
use img_parts::webp::{
    is_webp, WebP, CHUNK_ALPH, CHUNK_EXIF, CHUNK_ICCP, CHUNK_VP8, CHUNK_VP8L, CHUNK_VP8X,
};
use img_parts::{Bytes, EncodeAt, Error, ImageEXIF, ImageICC};

const FRAME: [u8; 11] = [
    0x10, 0x02, 0x00, // a key frame
    0x9D, 0x01, 0x2A, // the start code
    0x40, 0x01, // 320 wide
    0xF0, 0x00, // 240 high
    0xAA,
];

/// A lossy image in the simple format, 320 by 240.
fn simple() -> Vec<u8> {
    let mut file = b"RIFF\x18\x00\x00\x00WEBPVP8 \x0B\x00\x00\x00".to_vec();
    file.extend_from_slice(&FRAME);
    file.push(0);
    file
}

/// The same image with the profile `[1, 2, 3]`.
fn with_profile() -> Vec<u8> {
    let mut file = b"RIFF\x36\x00\x00\x00WEBP".to_vec();
    file.extend_from_slice(b"VP8X\x0A\x00\x00\x00\x20\x00\x00\x00\x3F\x01\x00\xEF\x00\x00");
    file.extend_from_slice(b"ICCP\x03\x00\x00\x00\x01\x02\x03\x00");
    file.extend_from_slice(b"VP8 \x0B\x00\x00\x00");
    file.extend_from_slice(&FRAME);
    file.push(0);
    file
}

fn parse(bytes: &[u8]) -> WebP {
    WebP::from_bytes(Bytes::copy_from_slice(bytes)).expect("parse")
}

fn ids(webp: &WebP) -> Vec<[u8; 4]> {
    webp.chunks().iter().map(|chunk| chunk.id()).collect()
}

fn data(id: [u8; 4], bytes: &'static [u8]) -> RiffChunk {
    RiffChunk::new(id, RiffContent::Data(Bytes::from_static(bytes)))
}

#[test]
fn ids_with_subchunks_and_kind() {
    assert!(has_subchunks(*b"RIFF") && has_kind(*b"RIFF"));
    assert!(has_subchunks(*b"LIST") && has_kind(*b"LIST"));
    assert!(has_subchunks(*b"seqt") && !has_kind(*b"seqt"));
    assert!(!has_subchunks(*b"VP8 ") && !has_kind(*b"VP8 "));
    assert!(!has_subchunks(*b"list") && !has_kind(*b"riff"));
}

#[test]
fn riff_data_chunk_sizes_and_padding() {
    let even = data(*b"abcd", b"1234");
    assert_eq!(even.content().len(), 4);
    assert_eq!(even.len(), 12);
    assert_eq!(even.encoder().bytes(), Bytes::from_static(b"abcd\x04\x00\x00\x001234"));

    let odd = data(*b"abcd", b"123");
    assert_eq!(odd.content().len(), 3);
    assert_eq!(odd.len(), 12);
    assert_eq!(odd.encoder().bytes(), Bytes::from_static(b"abcd\x03\x00\x00\x00123\x00"));

    let empty = data(*b"abcd", b"");
    assert_eq!(empty.len(), 8);
    assert_eq!(empty.encoder().bytes(), Bytes::from_static(b"abcd\x00\x00\x00\x00"));
}

#[test]
fn riff_content_fragments() {
    let odd = RiffContent::Data(Bytes::from_static(b"123"));
    let mut pos = 0;
    assert_eq!(odd.encode_at(&mut pos), Some(Bytes::from_static(b"123")));
    let mut pos = 1;
    assert_eq!(odd.encode_at(&mut pos), Some(Bytes::from_static(&[0])));
    let mut pos = 5;
    assert_eq!(odd.encode_at(&mut pos), None);
    assert_eq!(pos, 3);

    let even = RiffContent::Data(Bytes::from_static(b"1234"));
    let mut pos = 1;
    assert_eq!(even.encode_at(&mut pos), None);
    assert_eq!(pos, 0);
    assert_eq!(even.data(), Some(&Bytes::from_static(b"1234")));
    assert!(even.list().is_none());
}

#[test]
fn riff_nested_lists() {
    let file: &[u8] = b"RIFF\x42\x00\x00\x00TESTLIST\x18\x00\x00\x00INFOone \x03\x00\x00\x00abc\x00two \x00\x00\x00\x00seqt\x0C\x00\x00\x00leaf\x04\x00\x00\x00wxyzlast\x01\x00\x00\x00!\x00";
    let riff = RiffChunk::from_bytes(Bytes::from_static(file)).expect("parse");
    assert_eq!(riff.id(), *b"RIFF");
    assert_eq!(riff.len(), 74);
    let (kind, chunks) = riff.content().list().expect("list");
    assert_eq!(kind, Some(*b"TEST"));
    assert_eq!(chunks.len(), 3);

    assert_eq!(chunks[0].id(), *b"LIST");
    let (kind, inner) = chunks[0].content().list().expect("list");
    assert_eq!(kind, Some(*b"INFO"));
    assert_eq!(inner.len(), 2);
    assert_eq!(inner[0], data(*b"one ", b"abc"));
    assert_eq!(inner[1], data(*b"two ", b""));
    assert_eq!(chunks[0].len(), 32);

    assert_eq!(chunks[1].id(), *b"seqt");
    let (kind, inner) = chunks[1].content().list().expect("list");
    assert_eq!(kind, None);
    assert_eq!(inner.len(), 1);
    assert_eq!(inner[0], data(*b"leaf", b"wxyz"));

    assert_eq!(chunks[2], data(*b"last", b"!"));

    assert_eq!(riff.encoder().bytes(), Bytes::from_static(file));
}

#[test]
fn riff_fragments_walk_the_tree_depth_first() {
    let riff = RiffChunk::new(
        *b"RIFF",
        RiffContent::List {
            kind: Some(*b"TEST"),
            subchunks: vec![
                RiffChunk::new(
                    *b"seqt",
                    RiffContent::List { kind: None, subchunks: vec![data(*b"leaf", b"abc")] },
                ),
                data(*b"end ", b""),
            ],
        },
    );
    let expected: [&[u8]; 8] = [
        b"RIFF\x20\x00\x00\x00",
        b"TEST",
        b"seqt\x0C\x00\x00\x00",
        b"leaf\x03\x00\x00\x00",
        b"abc",
        b"\x00",
        b"end \x00\x00\x00\x00",
        b"",
    ];
    for (i, fragment) in expected.iter().enumerate() {
        let mut pos = i;
        assert_eq!(riff.encode_at(&mut pos), Some(Bytes::copy_from_slice(fragment)), "{}", i);
        assert_eq!(pos, i);
    }
    let mut pos = 10;
    assert_eq!(riff.encode_at(&mut pos), None);
    assert_eq!(pos, 2);
    assert_eq!(riff.len(), 40);
    assert_eq!(riff.clone().encoder().bytes().len(), 40);
    assert_eq!(RiffChunk::from_bytes(riff.clone().encoder().bytes()), Ok(riff));
}

#[test]
fn riff_wrong_signature_and_truncation() {
    assert_eq!(
        RiffChunk::from_bytes(Bytes::from_static(b"RIFX\x04\x00\x00\x00WEBP")),
        Err(Error::WrongSignature)
    );
    assert_eq!(RiffChunk::from_bytes(Bytes::from_static(b"RIF")), Err(Error::Truncated));
    assert_eq!(RiffChunk::from_bytes(Bytes::from_static(b"RIFF\x04\x00")), Err(Error::Truncated));
    // a list too short for its kind
    assert_eq!(
        RiffChunk::from_bytes(Bytes::from_static(b"RIFF\x02\x00\x00\x00WE")),
        Err(Error::Truncated)
    );
    // data of odd size without its padding
    assert_eq!(
        RiffChunk::from_bytes(Bytes::from_static(b"RIFF\x0F\x00\x00\x00WEBPabcd\x03\x00\x00\x00123")),
        Err(Error::Truncated)
    );
    // the id of a chunk inside is not held to be RIFF
    assert!(RiffChunk::from_bytes(Bytes::from_static(
        b"RIFF\x10\x00\x00\x00WEBPabcd\x03\x00\x00\x00123\x00"
    ))
    .is_ok());
}

#[test]
fn riff_from_bytes_impl_takes_one_chunk() {
    let mut buf = Bytes::from_static(b"abcd\x03\x00\x00\x00123\x7Fnext");
    let chunk = RiffChunk::from_bytes_impl(&mut buf, false).expect("chunk");
    assert_eq!(chunk, data(*b"abcd", b"123"));
    assert_eq!(buf, Bytes::from_static(b"next"));
    let mut buf = Bytes::from_static(b"abcd\x03\x00\x00\x00123\x7Fnext");
    assert_eq!(RiffChunk::from_bytes_impl(&mut buf, true), Err(Error::WrongSignature));
}

#[test]
fn riff_chunk_parts_can_be_changed() {
    let mut chunk = data(*b"abcd", b"123");
    *chunk.content_mut() = RiffContent::Data(Bytes::from_static(b"45"));
    assert_eq!(chunk, data(*b"abcd", b"45"));
    let (id, content) = chunk.into_parts();
    assert_eq!(id, *b"abcd");
    assert_eq!(content, RiffContent::Data(Bytes::from_static(b"45")));
}

#[test]
fn frame_header() {
    assert!(has_keyframe_header(&FRAME));
    assert_eq!(size_from_vp8_header(&FRAME), (320, 240));
    // the two highest bits of each number are no part of the size
    assert_eq!(
        size_from_vp8_header(&[0, 0, 0, 0x9D, 0x01, 0x2A, 0xFF, 0xFF, 0x01, 0xC0]),
        (0x3FFF, 1)
    );
    assert!(!has_keyframe_header(&FRAME[..9]));
    assert!(!has_keyframe_header(&[0x11, 0x02, 0x00, 0x9D, 0x01, 0x2A, 0x40, 0x01, 0xF0, 0x00]));
    assert!(!has_keyframe_header(&[0x10, 0x02, 0x00, 0x9D, 0x01, 0x2B, 0x40, 0x01, 0xF0, 0x00]));
}

#[test]
fn parse_simple() {
    let webp = parse(&simple());
    assert_eq!(ids(&webp), vec![CHUNK_VP8]);
    assert_eq!(webp.kind(), VP8Kind::VP8);
    assert_eq!(webp.dimensions(), Some((320, 240)));
    assert_eq!(webp.len(), 32);
    assert!(webp.has_chunk(CHUNK_VP8));
    assert!(!webp.has_chunk(CHUNK_VP8X));
    assert_eq!(webp.icc_profile(), None);
    assert_eq!(webp.exif(), None);
    assert_eq!(WebPFlags::from_webp(&webp), WebPFlags([0, 0, 0, 0]));
    assert_eq!(WebPFlags::default(), WebPFlags([0, 0, 0, 0]));
}

#[test]
fn webp_round_trip_is_byte_for_byte() {
    for file in [simple(), with_profile()] {
        let webp = parse(&file);
        assert_eq!(webp.len() as usize, file.len());
        assert_eq!(webp.encoder().bytes(), Bytes::from(file));
    }
}

#[test]
fn webp_wrong_signature() {
    assert_eq!(
        WebP::from_bytes(Bytes::from_static(b"RIFF\x04\x00\x00\x00WAVE")),
        Err(Error::WrongSignature)
    );
    assert_eq!(
        WebP::from_bytes(Bytes::from_static(b"LIST\x04\x00\x00\x00WEBP")),
        Err(Error::WrongSignature)
    );
    assert_eq!(
        WebP::new(RiffChunk::new(*b"RIFF", RiffContent::Data(Bytes::from_static(b"WEBP")))),
        Err(Error::WrongSignature)
    );
    assert_eq!(
        WebP::new(RiffChunk::new(
            *b"LIST",
            RiffContent::List { kind: Some(*b"WEBP"), subchunks: Vec::new() }
        )),
        Err(Error::WrongSignature)
    );
    assert_eq!(
        WebP::new(RiffChunk::new(
            *b"RIFF",
            RiffContent::List { kind: None, subchunks: Vec::new() }
        )),
        Err(Error::WrongSignature)
    );
    assert!(WebP::new(RiffChunk::new(
        *b"RIFF",
        RiffContent::List { kind: Some(*b"WEBP"), subchunks: Vec::new() }
    ))
    .is_ok());
}

#[test]
fn every_truncation_is_truncated() {
    let file = with_profile();
    for k in 0..file.len() {
        assert_eq!(
            WebP::from_bytes(Bytes::copy_from_slice(&file[..k])),
            Err(Error::Truncated),
            "cut at {}",
            k
        );
    }
    let mut longer = file.clone();
    longer.extend_from_slice(b"more");
    assert_eq!(parse(&longer), parse(&file));
}

#[test]
fn sniff_webp() {
    assert!(is_webp(&simple()));
    assert!(!is_webp(b"RIFF\x04\x00\x00\x00WEBP"));
    assert!(!is_webp(b"RIFF\x04\x00\x00\x00WAVEfmt "));
    assert!(!is_webp(b"riff\x04\x00\x00\x00WEBPVP8 "));
}

#[test]
fn setting_a_profile_makes_a_simple_image_extended() {
    let mut webp = parse(&simple());
    webp.set_icc_profile(Some(Bytes::from_static(&[1, 2, 3])));
    assert_eq!(ids(&webp), vec![CHUNK_VP8X, CHUNK_ICCP, CHUNK_VP8]);
    assert_eq!(webp.kind(), VP8Kind::VP8X);
    assert_eq!(webp.dimensions(), Some((320, 240)));
    assert_eq!(webp.icc_profile(), Some(Bytes::from_static(&[1, 2, 3])));
    let flags = webp.chunk_by_id(CHUNK_VP8X).unwrap().content().data().unwrap().clone();
    assert_eq!(
        flags,
        Bytes::from_static(&[0x20, 0, 0, 0, 0x3F, 0x01, 0x00, 0xEF, 0x00, 0x00])
    );
    assert_eq!(flags[0] & 0x20, 0x20);
    assert_eq!(WebPFlags::from_webp(&webp), WebPFlags([0x20, 0, 0, 0]));
    assert_eq!(webp.len(), 62);
    assert_eq!(webp.encoder().bytes(), Bytes::from(with_profile()));
}

#[test]
fn removing_the_profile_makes_the_image_simple_again() {
    let mut webp = parse(&with_profile());
    webp.set_icc_profile(None);
    assert_eq!(ids(&webp), vec![CHUNK_VP8]);
    assert_eq!(webp.kind(), VP8Kind::VP8);
    assert_eq!(webp.encoder().bytes(), Bytes::from(simple()));
}

#[test]
fn webp_set_icc_profile_with_its_own_profile_changes_nothing() {
    let mut webp = parse(&with_profile());
    let own = webp.icc_profile();
    assert_eq!(own, Some(Bytes::from_static(&[1, 2, 3])));
    webp.set_icc_profile(own);
    assert_eq!(webp.encoder().bytes(), Bytes::from(with_profile()));
}

#[test]
fn set_icc_profile_replaces_the_profile() {
    let mut webp = parse(&with_profile());
    webp.set_icc_profile(Some(Bytes::from_static(b"another")));
    assert_eq!(ids(&webp), vec![CHUNK_VP8X, CHUNK_ICCP, CHUNK_VP8]);
    assert_eq!(webp.icc_profile(), Some(Bytes::from_static(b"another")));
}

#[test]
fn setting_exif_makes_a_simple_image_extended() {
    let mut webp = parse(&simple());
    webp.set_exif(Some(Bytes::from_static(b"MM\x00\x2A")));
    assert_eq!(ids(&webp), vec![CHUNK_VP8X, CHUNK_EXIF, CHUNK_VP8]);
    assert_eq!(webp.kind(), VP8Kind::VP8X);
    assert_eq!(
        webp.chunks()[1],
        data(CHUNK_EXIF, b"Exif\x00\x00MM\x00\x2A")
    );
    assert_eq!(
        webp.chunks()[0],
        data(CHUNK_VP8X, &[0x08, 0, 0, 0, 0x3F, 0x01, 0x00, 0xEF, 0x00, 0x00])
    );
    assert_eq!(webp.exif(), Some(Bytes::from_static(b"MM\x00\x2A")));
    assert_eq!(WebPFlags::from_webp(&webp), WebPFlags([0x08, 0, 0, 0]));

    let written = webp.clone().encoder().bytes();
    assert_eq!(parse(&written), webp);

    webp.set_exif(None);
    assert_eq!(webp.encoder().bytes(), Bytes::from(simple()));
}

#[test]
fn webp_profile_and_exif_together() {
    let mut webp = parse(&simple());
    webp.set_exif(Some(Bytes::from_static(b"exif")));
    webp.set_icc_profile(Some(Bytes::from_static(b"profile")));
    // new metadata goes behind the VP8X chunk
    assert_eq!(ids(&webp), vec![CHUNK_VP8X, CHUNK_ICCP, CHUNK_EXIF, CHUNK_VP8]);
    assert_eq!(WebPFlags::from_webp(&webp), WebPFlags([0x28, 0, 0, 0]));
    webp.set_icc_profile(None);
    // the image still has EXIF metadata, and stays extended
    assert_eq!(ids(&webp), vec![CHUNK_VP8X, CHUNK_EXIF, CHUNK_VP8]);
    webp.set_exif(None);
    assert_eq!(ids(&webp), vec![CHUNK_VP8]);
}

#[test]
fn exif_without_the_exif_bytes_is_none() {
    let mut webp = parse(&simple());
    webp.chunks_mut().push(data(CHUNK_EXIF, b"MM\x00\x2A"));
    assert_eq!(webp.exif(), None);
    webp.chunks_mut().pop();
    webp.chunks_mut().push(data(CHUNK_EXIF, b"Exif\x00\x00"));
    assert_eq!(webp.exif(), Some(Bytes::new()));
}

#[test]
fn kind_of_a_lossless_image() {
    let file = b"RIFF\x12\x00\x00\x00WEBPVP8L\x05\x00\x00\x00\x2F\x00\x00\x00\x00\x00";
    let webp = parse(file);
    assert_eq!(webp.kind(), VP8Kind::VP8L);
    assert_eq!(ids(&webp), vec![CHUNK_VP8L]);
    assert_eq!(webp.dimensions(), None);
}

#[test]
fn dimensions_of_an_extended_image_are_those_of_its_canvas() {
    let mut webp = parse(&simple());
    webp.chunks_mut().insert(
        0,
        data(CHUNK_VP8X, &[0x10, 0, 0, 0, 0xFF, 0xFF, 0xFF, 0x00, 0x00, 0x00]),
    );
    webp.chunks_mut().insert(1, data(CHUNK_ALPH, b"alpha"));
    assert_eq!(webp.kind(), VP8Kind::VP8X);
    assert_eq!(webp.dimensions(), Some((0x0100_0000, 1)));
    // a VP8X chunk that is too short gives no size
    webp.chunks_mut()[0] = data(CHUNK_VP8X, &[0x10, 0, 0, 0, 0xFF, 0xFF, 0xFF, 0x00, 0x00]);
    assert_eq!(webp.dimensions(), Some((320, 240)));
}

#[test]
fn dimensions_of_a_frame_without_the_header_are_none() {
    let mut webp = parse(&simple());
    webp.chunks_mut()[0] = data(CHUNK_VP8, &[0x11, 0x02, 0x00, 0x9D, 0x01, 0x2A, 0x40, 0x01, 0xF0, 0x00]);
    assert_eq!(webp.dimensions(), None);
    webp.chunks_mut()[0] = data(CHUNK_VP8, b"short");
    assert_eq!(webp.dimensions(), None);
}

#[test]
fn chunks_by_id() {
    let mut webp = parse(&with_profile());
    webp.chunks_mut().push(data(CHUNK_ICCP, b"second"));
    assert_eq!(
        webp.chunk_by_id(CHUNK_ICCP),
        Some(&data(CHUNK_ICCP, &[1, 2, 3]))
    );
    assert!(webp.chunk_by_id(CHUNK_EXIF).is_none());
    let found = webp.chunks_by_id(CHUNK_ICCP);
    assert_eq!(found.len(), 2);
    assert_eq!(found[1], &data(CHUNK_ICCP, b"second"));
    webp.remove_chunks_by_id(CHUNK_ICCP);
    assert_eq!(ids(&webp), vec![CHUNK_VP8X, CHUNK_VP8]);
}

#[test]
fn into_riff_is_the_chunk_that_was_read() {
    let riff = RiffChunk::from_bytes(Bytes::from(with_profile())).unwrap();
    assert_eq!(parse(&with_profile()).into_riff(), riff);
}

#[test]
fn webp_image_encode_at_rebases_the_index() {
    let webp = parse(&with_profile());
    let mut pos = 0;
    assert_eq!(webp.encode_at(&mut pos), Some(Bytes::from_static(b"RIFF\x36\x00\x00\x00")));
    let mut pos = 1;
    assert_eq!(webp.encode_at(&mut pos), Some(Bytes::from_static(b"WEBP")));
    let mut pos = 6;
    assert_eq!(webp.encode_at(&mut pos), Some(Bytes::from_static(&[0])));
    let mut pos = 9;
    assert_eq!(webp.encode_at(&mut pos), Some(Bytes::from_static(&[0])));
    let mut pos = 12;
    assert_eq!(webp.encode_at(&mut pos), None);
    assert_eq!(pos, 2);
}

#[test]
fn checked_len_is_the_len() {
    let webp = parse(&with_profile());
    assert!(webp.is_encodable());
    assert_eq!(webp.checked_len(), Some(62));
    assert_eq!(webp.encoded_len(), 62);
    let riff = webp.into_riff();
    assert!(riff.is_encodable());
    assert_eq!(riff.checked_len(), Some(62));
    assert_eq!(riff.content().checked_len(), Some(54));
    assert!(riff.content().is_encodable());
    let odd = RiffContent::Data(Bytes::from_static(b"123"));
    assert_eq!(odd.checked_len(), Some(3));
    assert_eq!(odd.encoded_len(), 4);
}

#[test]
fn metadata_can_be_set_where_the_size_is_known() {
    let some = Some(Bytes::from_static(b"data"));
    let lossy = parse(&simple());
    assert!(lossy.can_set_icc_profile(&some));
    assert!(lossy.can_set_exif(&some));
    assert!(lossy.can_set_icc_profile(&None));

    // a lossless image has no frame to take the size from
    let lossless = parse(b"RIFF\x12\x00\x00\x00WEBPVP8L\x05\x00\x00\x00\x2F\x00\x00\x00\x00\x00");
    assert!(!lossless.can_set_icc_profile(&some));
    assert!(!lossless.can_set_exif(&some));
    assert!(lossless.can_set_icc_profile(&None));
    assert!(lossless.can_set_exif(&None));

    // an extended image needs no new VP8X chunk
    let extended = parse(&with_profile());
    assert!(extended.can_set_icc_profile(&some));
    assert!(extended.can_set_exif(&some));

    // a frame of no width cannot be the size of a canvas
    let mut flat = parse(&simple());
    flat.chunks_mut()[0] = data(CHUNK_VP8, &[0, 0, 0, 0x9D, 0x01, 0x2A, 0x00, 0x00, 0xF0, 0x00]);
    assert_eq!(flat.dimensions(), Some((0, 240)));
    assert!(!flat.can_set_icc_profile(&some));
}

#[test]
fn extended_image_given_its_own_profile_keeps_its_bytes() {
    // VP8X, ICCP, ALPH, VP8
    let mut webp = parse(&with_profile());
    webp.chunks_mut().insert(2, data(CHUNK_ALPH, b"alpha"));
    let file = webp.encoder().bytes();

    let mut webp = parse(&file);
    assert_eq!(ids(&webp), vec![CHUNK_VP8X, CHUNK_ICCP, CHUNK_ALPH, CHUNK_VP8]);
    let own = webp.icc_profile();
    assert_eq!(own, Some(Bytes::from_static(&[1, 2, 3])));
    assert!(webp.can_set_icc_profile(&own));
    webp.set_icc_profile(own);
    assert_eq!(ids(&webp), vec![CHUNK_VP8X, CHUNK_ICCP, CHUNK_ALPH, CHUNK_VP8]);
    assert_eq!(webp.encoder().bytes(), file);
}

#[test]
fn extended_lossless_image_given_its_own_profile_keeps_its_bytes() {
    // VP8X, ICCP, VP8L
    let mut webp = parse(b"RIFF\x12\x00\x00\x00WEBPVP8L\x05\x00\x00\x00\x2F\x00\x00\x00\x00\x00");
    webp.chunks_mut().insert(
        0,
        data(CHUNK_VP8X, &[0x20, 0, 0, 0, 0x3F, 0x01, 0x00, 0xEF, 0x00, 0x00]),
    );
    webp.chunks_mut().insert(1, data(CHUNK_ICCP, b"profile"));
    let file = webp.encoder().bytes();

    let mut webp = parse(&file);
    let own = webp.icc_profile();
    assert!(webp.can_set_icc_profile(&own));
    webp.set_icc_profile(own);
    assert_eq!(ids(&webp), vec![CHUNK_VP8X, CHUNK_ICCP, CHUNK_VP8L]);
    assert_eq!(webp.encoder().bytes(), file);
}

#[test]
fn new_metadata_stands_right_behind_the_vp8x_chunk() {
    // an extended image without metadata
    let mut webp = parse(&simple());
    webp.chunks_mut().insert(
        0,
        data(CHUNK_VP8X, &[0x10, 0, 0, 0, 0x3F, 0x01, 0x00, 0xEF, 0x00, 0x00]),
    );
    webp.chunks_mut().insert(1, data(CHUNK_ALPH, b"alpha"));
    webp.set_icc_profile(Some(Bytes::from_static(b"profile")));
    assert_eq!(ids(&webp), vec![CHUNK_VP8X, CHUNK_ICCP, CHUNK_ALPH, CHUNK_VP8]);
    webp.set_exif(Some(Bytes::from_static(b"exif")));
    assert_eq!(
        ids(&webp),
        vec![CHUNK_VP8X, CHUNK_EXIF, CHUNK_ICCP, CHUNK_ALPH, CHUNK_VP8]
    );
}
