use img_parts::jpeg::markers;
use img_parts::jpeg::{is_jpeg, Jpeg, JpegSegment};
use img_parts::{Bytes, EncodeAt, Error, ImageEXIF, ImageICC};

/// A small image: APP0, DQT, SOF0, and a scan header with entropy data
/// that holds a stuffed byte and ends in the end-of-image marker.
fn sample() -> Vec<u8> {
    vec![
        0xFF, 0xD8, // SOI
        0xFF, 0xE0, 0x00, 0x06, b'J', b'F', b'I', b'F', // APP0
        0xFF, 0xDB, 0x00, 0x04, 0x01, 0x02, // DQT
        0xFF, 0xC0, 0x00, 0x05, 0x08, 0x00, 0x10, // SOF0
        0xFF, 0xDA, 0x00, 0x04, 0xAA, 0xBB, // SOS
        0x11, 0x22, 0xFF, 0x00, 0x33, 0xFF, 0xD9, // entropy data and EOI
    ]
}

fn parse(bytes: &[u8]) -> Jpeg {
    Jpeg::from_bytes(Bytes::copy_from_slice(bytes)).expect("parse")
}

fn profile(len: usize) -> Vec<u8> {
    (0..len).map(|i| (i * 7 + i / 251) as u8).collect()
}

#[test]
fn test_encode_at_underflow() {
    let segment = JpegSegment::new_with_entropy(0xFF, Bytes::new(), Bytes::from(vec![4, 5, 6]));

    // This would cause an underflow if decrement not checked.
    let mut pos = 1;
    segment.encode_at(&mut pos);
}

#[test]
fn segment_without_contents_yields_its_entropy_second() {
    let segment = JpegSegment::new_with_entropy(0xFF, Bytes::new(), Bytes::from(vec![4, 5, 6]));
    let mut pos = 1;
    assert_eq!(segment.encode_at(&mut pos), Some(Bytes::from_static(&[4, 5, 6])));
    assert_eq!(pos, 1);
    let mut pos = 2;
    assert_eq!(segment.encode_at(&mut pos), None);
    assert_eq!(pos, 0);
}

#[test]
fn segment_fragments_and_rebased_index() {
    let segment = JpegSegment::new_with_entropy(
        markers::SOS,
        Bytes::from_static(&[1, 2]),
        Bytes::from_static(&[9, 0xFF, 0xD9]),
    );
    let mut pos = 0;
    assert_eq!(
        segment.encode_at(&mut pos),
        Some(Bytes::from_static(&[0xFF, 0xDA, 0x00, 0x04]))
    );
    let mut pos = 1;
    assert_eq!(segment.encode_at(&mut pos), Some(Bytes::from_static(&[1, 2])));
    let mut pos = 2;
    assert_eq!(segment.encode_at(&mut pos), Some(Bytes::from_static(&[9, 0xFF, 0xD9])));
    let mut pos = 7;
    assert_eq!(segment.encode_at(&mut pos), None);
    assert_eq!(pos, 4);
}

#[test]
fn has_length_by_marker() {
    for marker in 0u8..=255 {
        let expected = (0xC0..=0xCF).contains(&marker)
            || (0xD0..=0xD7).contains(&marker)
            || (0xE0..=0xEF).contains(&marker)
            || marker == 0xDA
            || marker == 0xDB
            || marker == 0xDD
            || marker == 0xFE;
        assert_eq!(markers::has_length(marker), expected, "marker {:X}", marker);
        assert_eq!(markers::has_entropy(marker), marker == 0xDA);
    }
}

#[test]
fn segment_sizes() {
    let plain = JpegSegment::new(0x01);
    assert_eq!(plain.len(), 2);
    assert_eq!(plain.len_with_entropy(), 2);
    assert!(!plain.has_entropy());

    let comment = JpegSegment::new_with_contents(markers::COM, Bytes::from_static(b"hi"));
    assert_eq!(comment.marker(), markers::COM);
    assert_eq!(comment.contents(), &Bytes::from_static(b"hi"));
    assert_eq!(comment.len(), 6);

    let scan = JpegSegment::new_with_entropy(
        markers::SOS,
        Bytes::from_static(&[1, 2, 3]),
        Bytes::from_static(&[4, 5, 0xFF, 0xD9]),
    );
    assert_eq!(scan.len(), 7);
    assert_eq!(scan.len_with_entropy(), 11);
    assert!(scan.has_entropy());
}

#[test]
fn segment_encodes_its_length_only_where_the_marker_has_one() {
    let comment = JpegSegment::new_with_contents(markers::COM, Bytes::from_static(b"hi"));
    assert_eq!(
        comment.encoder().bytes(),
        Bytes::from_static(&[0xFF, 0xFE, 0x00, 0x04, b'h', b'i'])
    );
    let plain = JpegSegment::new(0x01);
    assert_eq!(plain.encoder().bytes(), Bytes::from_static(&[0xFF, 0x01]));
}

#[test]
fn parse_sample() {
    let jpeg = parse(&sample());
    let segments = jpeg.segments();
    assert_eq!(segments.len(), 4);
    assert_eq!(
        segments[0],
        JpegSegment::new_with_contents(markers::APP0, Bytes::from_static(b"JFIF"))
    );
    assert_eq!(
        segments[1],
        JpegSegment::new_with_contents(markers::DQT, Bytes::from_static(&[1, 2]))
    );
    assert_eq!(
        segments[2],
        JpegSegment::new_with_contents(markers::SOF0, Bytes::from_static(&[8, 0, 16]))
    );
    assert_eq!(
        segments[3],
        JpegSegment::new_with_entropy(
            markers::SOS,
            Bytes::from_static(&[0xAA, 0xBB]),
            Bytes::from_static(&[0x11, 0x22, 0xFF, 0x00, 0x33, 0xFF, 0xD9]),
        )
    );
    assert!(segments[3].has_entropy());
    assert!(!segments[0].has_entropy());
}

#[test]
fn jpeg_round_trip_is_byte_for_byte() {
    let file = sample();
    let jpeg = parse(&file);
    assert_eq!(jpeg.len(), file.len());
    assert_eq!(jpeg.len(), 36);
    assert_eq!(jpeg.encoder().bytes(), Bytes::from(file));
}

#[test]
fn round_trip_keeps_what_follows_the_end_of_the_image() {
    let mut file = sample();
    file.extend_from_slice(b"trailer");
    let jpeg = parse(&file);
    assert_eq!(jpeg.segments().len(), 4);
    assert_eq!(jpeg.len(), file.len());
    assert_eq!(jpeg.encoder().bytes(), Bytes::from(file));
}

#[test]
fn encoder_yields_the_fragments_in_order() {
    let mut encoder = parse(&sample()).encoder();
    let expected: [&[u8]; 10] = [
        &[0xFF, 0xD8],
        &[0xFF, 0xE0, 0x00, 0x06],
        b"JFIF",
        &[0xFF, 0xDB, 0x00, 0x04],
        &[0x01, 0x02],
        &[0xFF, 0xC0, 0x00, 0x05],
        &[0x08, 0x00, 0x10],
        &[0xFF, 0xDA, 0x00, 0x04],
        &[0xAA, 0xBB],
        &[0x11, 0x22, 0xFF, 0x00, 0x33, 0xFF, 0xD9],
    ];
    for fragment in expected {
        assert_eq!(encoder.next(), Some(Bytes::copy_from_slice(fragment)));
    }
    assert_eq!(encoder.next(), None);
    assert_eq!(encoder.next(), None);
}

#[test]
fn jpeg_image_encode_at_rebases_the_index() {
    let jpeg = parse(&sample());
    let mut pos = 0;
    assert_eq!(jpeg.encode_at(&mut pos), Some(Bytes::from_static(&[0xFF, 0xD8])));
    let mut pos = 9;
    assert_eq!(
        jpeg.encode_at(&mut pos),
        Some(Bytes::from_static(&[0x11, 0x22, 0xFF, 0x00, 0x33, 0xFF, 0xD9]))
    );
    assert_eq!(pos, 9);
    let mut pos = 12;
    assert_eq!(jpeg.encode_at(&mut pos), None);
    assert_eq!(pos, 2);
}

#[test]
fn minimal_jpeg_has_no_segments() {
    let jpeg = parse(&[0xFF, 0xD8, 0xFF, 0xD9]);
    assert_eq!(jpeg.segments().len(), 0);
    // the start-of-image marker, and no segment
    assert_eq!(jpeg.len(), 2);
    assert_eq!(jpeg.encoder().bytes(), Bytes::from_static(&[0xFF, 0xD8]));
}

#[test]
fn fill_bytes_are_passed_over() {
    let jpeg = parse(&[0xFF, 0xD8, 0x00, 0x00, 0xFF, 0xFF, 0xE0, 0x00, 0x02, 0xFF, 0xD9]);
    assert_eq!(jpeg.segments().len(), 1);
    assert_eq!(jpeg.segments()[0], JpegSegment::new(markers::APP0));
    assert_eq!(jpeg.len(), 6);
}

#[test]
fn marker_without_length_is_a_segment_by_itself() {
    let jpeg = parse(&[0xFF, 0xD8, 0xFF, 0x01, 0xFF, 0xD9]);
    assert_eq!(jpeg.segments().len(), 1);
    assert_eq!(jpeg.segments()[0], JpegSegment::new(0x01));
}

#[test]
fn jpeg_wrong_signature() {
    assert_eq!(
        Jpeg::from_bytes(Bytes::from_static(&[0x89, 0x50, 0x4E, 0x47])),
        Err(Error::WrongSignature)
    );
    assert_eq!(
        Jpeg::from_bytes(Bytes::from_static(&[0xFF, 0xD9, 0xFF, 0xD9])),
        Err(Error::WrongSignature)
    );
}

#[test]
fn truncated_files() {
    assert_eq!(Jpeg::from_bytes(Bytes::new()), Err(Error::Truncated));
    assert_eq!(Jpeg::from_bytes(Bytes::from_static(&[0xFF])), Err(Error::Truncated));
    assert_eq!(Jpeg::from_bytes(Bytes::from_static(&[0xFF, 0xD8])), Err(Error::Truncated));
    // a length that does not count its own two bytes
    assert_eq!(
        Jpeg::from_bytes(Bytes::from_static(&[0xFF, 0xD8, 0xFF, 0xE0, 0x00, 0x01, 0xFF, 0xD9])),
        Err(Error::Truncated)
    );
    // contents that the file ends in
    assert_eq!(
        Jpeg::from_bytes(Bytes::from_static(&[0xFF, 0xD8, 0xFF, 0xE0, 0x00, 0x05, 0x01])),
        Err(Error::Truncated)
    );
    // a scan header that nothing follows
    assert_eq!(
        Jpeg::from_bytes(Bytes::from_static(&[0xFF, 0xD8, 0xFF, 0xDA, 0x00, 0x02])),
        Err(Error::Truncated)
    );
}

#[test]
fn jpeg_every_truncation_is_truncated_or_shorter() {
    let file = sample();
    for k in 0..file.len() {
        let result = Jpeg::from_bytes(Bytes::copy_from_slice(&file[..k]));
        if k < 30 {
            assert_eq!(result, Err(Error::Truncated), "cut at {}", k);
        } else {
            let jpeg = result.expect("shorter image");
            assert_eq!(jpeg.segments().len(), 4);
            assert_eq!(jpeg.len(), k);
            assert_eq!(jpeg.encoder().bytes(), Bytes::copy_from_slice(&file[..k]));
        }
    }
}

#[test]
fn sniff_jpeg() {
    assert!(is_jpeg(&sample()));
    assert!(!is_jpeg(&[0xFF, 0xD8, 0xFF, 0xD9]));
    assert!(!is_jpeg(&[0xFF, 0xD8, 0x00, 0xFF, 0xD9]));
    assert!(!is_jpeg(&[]));
}

#[test]
fn segments_by_marker() {
    let mut jpeg = parse(&sample());
    jpeg.segments_mut().insert(
        1,
        JpegSegment::new_with_contents(markers::COM, Bytes::from_static(b"one")),
    );
    jpeg.segments_mut().push(JpegSegment::new_with_contents(
        markers::COM,
        Bytes::from_static(b"two"),
    ));
    assert_eq!(jpeg.segments().len(), 6);
    assert_eq!(
        jpeg.segment_by_marker(markers::COM).map(|s| s.contents().clone()),
        Some(Bytes::from_static(b"one"))
    );
    assert!(jpeg.segment_by_marker(markers::APP5).is_none());
    let comments = jpeg.segments_by_marker(markers::COM);
    assert_eq!(comments.len(), 2);
    assert_eq!(comments[0].contents(), &Bytes::from_static(b"one"));
    assert_eq!(comments[1].contents(), &Bytes::from_static(b"two"));

    jpeg.remove_segments_by_marker(markers::COM);
    assert_eq!(jpeg, parse(&sample()));
    jpeg.remove_segments_by_marker(markers::APP5);
    assert_eq!(jpeg, parse(&sample()));
}

#[test]
fn no_profile_and_no_exif() {
    let jpeg = parse(&sample());
    assert_eq!(jpeg.icc_profile(), None);
    assert_eq!(jpeg.exif(), None);
}

#[test]
fn set_icc_profile_inserts_one_segment_at_index_3() {
    let mut jpeg = parse(&sample());
    jpeg.set_icc_profile(Some(Bytes::from_static(&[1, 2, 3, 4, 5])));
    assert_eq!(jpeg.segments().len(), 5);
    let segment = &jpeg.segments()[3];
    assert_eq!(segment.marker(), markers::APP2);
    assert_eq!(
        segment.contents(),
        &Bytes::from_static(b"ICC_PROFILE\x00\x01\x01\x01\x02\x03\x04\x05")
    );
    assert_eq!(jpeg.segments()[2].marker(), markers::SOF0);
    assert_eq!(jpeg.segments()[4].marker(), markers::SOS);
    assert_eq!(jpeg.icc_profile(), Some(Bytes::from_static(&[1, 2, 3, 4, 5])));

    let mut expected = sample()[..23].to_vec();
    expected.extend_from_slice(&[0xFF, 0xE2, 0x00, 0x15]);
    expected.extend_from_slice(b"ICC_PROFILE\x00\x01\x01\x01\x02\x03\x04\x05");
    expected.extend_from_slice(&sample()[23..]);
    assert_eq!(jpeg.len(), expected.len());
    assert_eq!(jpeg.encoder().bytes(), Bytes::from(expected));
}

#[test]
fn jpeg_set_icc_profile_replaces_and_removes() {
    let mut jpeg = parse(&sample());
    jpeg.set_icc_profile(Some(Bytes::from_static(b"first")));
    jpeg.set_icc_profile(Some(Bytes::from_static(b"second")));
    assert_eq!(jpeg.segments().len(), 5);
    assert_eq!(jpeg.icc_profile(), Some(Bytes::from_static(b"second")));
    jpeg.set_icc_profile(None);
    assert_eq!(jpeg, parse(&sample()));
    assert_eq!(jpeg.icc_profile(), None);
}

#[test]
fn jpeg_set_icc_profile_with_its_own_profile_changes_nothing() {
    let mut jpeg = parse(&sample());
    jpeg.set_icc_profile(Some(Bytes::from(profile(700))));
    let before = jpeg.clone().encoder().bytes();
    let own = jpeg.icc_profile();
    assert_eq!(own, Some(Bytes::from(profile(700))));
    jpeg.set_icc_profile(own);
    assert_eq!(jpeg.encoder().bytes(), before);
}

#[test]
fn long_profile_is_split_into_three_segments() {
    let data = profile(2 * 65519 + 10);
    let mut jpeg = parse(&sample());
    jpeg.set_icc_profile(Some(Bytes::from(data.clone())));
    assert_eq!(jpeg.segments().len(), 7);
    // each new segment went in at index 3, before those made earlier
    let expected = [(3u8, 10usize), (2, 65519), (1, 65519)];
    for (i, (seqno, len)) in expected.iter().enumerate() {
        let segment = &jpeg.segments()[3 + i];
        assert_eq!(segment.marker(), markers::APP2);
        let contents = segment.contents();
        assert_eq!(&contents[..12], b"ICC_PROFILE\0");
        assert_eq!(contents[12], *seqno);
        assert_eq!(contents[13], 3);
        assert_eq!(contents.len(), 14 + len);
        assert_eq!(segment.len(), 4 + 14 + len);
    }
    assert_eq!(&jpeg.segments()[5].contents()[14..], &data[..65519]);
    assert_eq!(&jpeg.segments()[4].contents()[14..], &data[65519..2 * 65519]);
    assert_eq!(&jpeg.segments()[3].contents()[14..], &data[2 * 65519..]);
    assert_eq!(jpeg.icc_profile(), Some(Bytes::from(data)));

    let bytes = jpeg.clone().encoder().bytes();
    assert_eq!(bytes.len(), jpeg.len());
    assert_eq!(Jpeg::from_bytes(bytes), Ok(jpeg));
}

#[test]
fn profile_of_a_full_segment_gets_an_empty_last_part() {
    let data = profile(65519);
    let mut jpeg = parse(&sample());
    jpeg.set_icc_profile(Some(Bytes::from(data.clone())));
    assert_eq!(jpeg.segments().len(), 6);
    assert_eq!(jpeg.segments()[3].contents().len(), 14);
    assert_eq!(jpeg.segments()[3].contents()[12], 2);
    assert_eq!(jpeg.segments()[4].contents().len(), 14 + 65519);
    assert_eq!(jpeg.segments()[4].contents()[12], 1);
    assert_eq!(jpeg.icc_profile(), Some(Bytes::from(data)));
}

#[test]
fn empty_profile_is_one_segment() {
    let mut jpeg = parse(&sample());
    jpeg.set_icc_profile(Some(Bytes::new()));
    assert_eq!(jpeg.segments().len(), 5);
    assert_eq!(
        jpeg.segments()[3].contents(),
        &Bytes::from_static(b"ICC_PROFILE\x00\x01\x01")
    );
    assert_eq!(jpeg.icc_profile(), Some(Bytes::new()));
}

#[test]
fn profile_is_joined_by_sequence_number() {
    let mut jpeg = parse(&sample());
    let parts: [(u8, &'static [u8]); 3] = [(2, b"-middle-"), (3, b"end"), (1, b"start")];
    for (seqno, data) in parts {
        jpeg.segments_mut()
            .insert(1, JpegSegment::new_icc(seqno, 3, Bytes::from_static(data)));
    }
    // in the file: 1, 3, 2
    assert_eq!(jpeg.segments()[1].contents()[12], 1);
    assert_eq!(jpeg.segments()[2].contents()[12], 3);
    assert_eq!(jpeg.segments()[3].contents()[12], 2);
    assert_eq!(jpeg.icc_profile(), Some(Bytes::from_static(b"start-middle-end")));

    let written = jpeg.encoder().bytes();
    assert_eq!(
        parse(&written).icc_profile(),
        Some(Bytes::from_static(b"start-middle-end"))
    );
}

#[test]
fn parts_of_one_sequence_number_keep_the_joining_order() {
    let mut jpeg = parse(&sample());
    let parts: [&'static [u8]; 4] = [b"a", b"b", b"c", b"d"];
    for (i, data) in parts.iter().enumerate() {
        jpeg.segments_mut()
            .insert(i, JpegSegment::new_icc(1, 4, Bytes::from_static(data)));
    }
    // the first two parts of the file are joined last
    assert_eq!(jpeg.icc_profile(), Some(Bytes::from_static(b"cdab")));
}

#[test]
fn segments_that_only_look_like_a_profile_are_passed_over() {
    let mut jpeg = parse(&sample());
    // the right bytes under another marker
    jpeg.segments_mut().push(JpegSegment::new_with_contents(
        markers::APP1,
        Bytes::from_static(b"ICC_PROFILE\x00\x01\x01data"),
    ));
    // the right marker, too short for the two numbers
    jpeg.segments_mut().push(JpegSegment::new_with_contents(
        markers::APP2,
        Bytes::from_static(b"ICC_PROFILE\x00\x01"),
    ));
    // the right marker, other bytes
    jpeg.segments_mut().push(JpegSegment::new_with_contents(
        markers::APP2,
        Bytes::from_static(b"ICC_PROFILE_\x01\x01data"),
    ));
    assert_eq!(jpeg.icc_profile(), None);
    assert_eq!(jpeg.segments()[4].icc(), None);
    assert_eq!(jpeg.segments()[5].icc(), None);
    assert_eq!(jpeg.segments()[6].icc(), None);
}

#[test]
fn segment_icc_parts() {
    let segment = JpegSegment::new_icc(2, 5, Bytes::from_static(b"part"));
    assert_eq!(segment.marker(), markers::APP2);
    assert_eq!(segment.icc(), Some((2, 5, Bytes::from_static(b"part"))));
    assert_eq!(segment.exif(), None);
}

#[test]
fn set_exif_inserts_a_segment_at_index_3() {
    let mut jpeg = parse(&sample());
    jpeg.set_exif(Some(Bytes::from_static(b"MM\x00\x2A")));
    assert_eq!(jpeg.segments().len(), 5);
    assert_eq!(jpeg.segments()[3].marker(), markers::APP1);
    assert_eq!(
        jpeg.segments()[3].contents(),
        &Bytes::from_static(b"Exif\x00\x00MM\x00\x2A")
    );
    assert_eq!(jpeg.exif(), Some(Bytes::from_static(b"MM\x00\x2A")));
    assert_eq!(jpeg.icc_profile(), None);

    jpeg.set_exif(Some(Bytes::from_static(b"II")));
    assert_eq!(jpeg.segments().len(), 5);
    assert_eq!(jpeg.exif(), Some(Bytes::from_static(b"II")));

    jpeg.set_exif(None);
    assert_eq!(jpeg, parse(&sample()));
}

#[test]
fn exif_is_that_of_the_first_segment_with_the_exif_bytes() {
    let mut jpeg = parse(&sample());
    jpeg.segments_mut().insert(
        0,
        JpegSegment::new_with_contents(markers::APP1, Bytes::from_static(b"http://ns.adobe.com/")),
    );
    jpeg.segments_mut().push(JpegSegment::new_exif(Bytes::from_static(b"one")));
    jpeg.segments_mut().push(JpegSegment::new_exif(Bytes::from_static(b"two")));
    assert_eq!(jpeg.exif(), Some(Bytes::from_static(b"one")));
    assert_eq!(jpeg.segments()[0].exif(), None);
    assert_eq!(jpeg.segments()[5].exif(), Some(Bytes::from_static(b"one")));
}

#[test]
fn jpeg_profile_and_exif_together() {
    let mut jpeg = parse(&sample());
    jpeg.set_icc_profile(Some(Bytes::from_static(b"profile")));
    jpeg.set_exif(Some(Bytes::from_static(b"exif")));
    assert_eq!(jpeg.segments().len(), 6);
    assert_eq!(jpeg.segments()[3].marker(), markers::APP1);
    assert_eq!(jpeg.segments()[4].marker(), markers::APP2);
    let written = jpeg.encoder().bytes();
    let read = parse(&written);
    assert_eq!(read.icc_profile(), Some(Bytes::from_static(b"profile")));
    assert_eq!(read.exif(), Some(Bytes::from_static(b"exif")));
}

#[test]
fn segment_is_encodable_while_its_length_fits_16_bits() {
    let fits = JpegSegment::new_with_contents(markers::COM, Bytes::from(vec![0; 65533]));
    assert!(fits.is_encodable());
    assert_eq!(fits.clone().encoder().next(), Some(Bytes::from_static(&[0xFF, 0xFE, 0xFF, 0xFF])));
    let long = JpegSegment::new_with_contents(markers::COM, Bytes::from(vec![0; 65534]));
    assert!(!long.is_encodable());
    // a marker without a length sets no limit
    let plain = JpegSegment::new_with_contents(0x01, Bytes::from(vec![0; 65534]));
    assert!(plain.is_encodable());

    let mut jpeg = parse(&sample());
    assert!(jpeg.is_encodable());
    jpeg.segments_mut().insert(1, fits);
    assert!(jpeg.is_encodable());
    jpeg.segments_mut().insert(1, long);
    assert!(!jpeg.is_encodable());
}

#[test]
fn metadata_can_be_set_where_three_other_segments_are_left() {
    let jpeg = parse(&sample());
    let some = Some(Bytes::from_static(b"data"));
    assert!(jpeg.can_set_icc_profile(&some));
    assert!(jpeg.can_set_exif(&some));

    let empty = parse(&[0xFF, 0xD8, 0xFF, 0xD9]);
    assert!(!empty.can_set_icc_profile(&some));
    assert!(!empty.can_set_exif(&some));
    assert!(empty.can_set_icc_profile(&None));
    assert!(empty.can_set_exif(&None));

    // two segments, and two that carry a profile
    let mut jpeg = parse(&sample());
    jpeg.segments_mut().truncate(2);
    jpeg.segments_mut().push(JpegSegment::new_icc(1, 1, Bytes::from_static(b"icc")));
    jpeg.segments_mut().push(JpegSegment::new_icc(1, 1, Bytes::from_static(b"icc")));
    assert!(!jpeg.can_set_icc_profile(&some));
    assert!(jpeg.can_set_exif(&some));
    jpeg.segments_mut().push(JpegSegment::new(0x01));
    assert!(jpeg.can_set_icc_profile(&some));
}

#[test]
fn entropy_data_ends_at_the_next_marker() {
    let jpeg = parse(&sample());
    let scan = &jpeg.segments()[3];
    assert_eq!(
        scan.entropy(),
        &Bytes::from_static(&[0x11, 0x22, 0xFF, 0x00, 0x33, 0xFF, 0xD9])
    );
    // the stuffed byte is data, the end-of-image marker is not
    assert_eq!(
        scan.entropy_data(),
        Bytes::from_static(&[0x11, 0x22, 0xFF, 0x00, 0x33])
    );
    assert_eq!(jpeg.segments()[0].entropy_data(), Bytes::new());

    let open = JpegSegment::new_with_entropy(
        markers::SOS,
        Bytes::new(),
        Bytes::from_static(&[0x01, 0xFF, 0x00, 0xFF]),
    );
    assert_eq!(open.entropy_data(), Bytes::from_static(&[0x01, 0xFF, 0x00, 0xFF]));
    let restart = JpegSegment::new_with_entropy(
        markers::SOS,
        Bytes::new(),
        Bytes::from_static(&[0x01, 0xFF, 0xD0, 0x02, 0xFF, 0xD9]),
    );
    assert_eq!(restart.entropy_data(), Bytes::from_static(&[0x01]));
}

#[test]
fn profile_of_more_than_255_segments_cannot_be_set() {
    let jpeg = parse(&sample());
    let longest = Some(Bytes::from(vec![0u8; 255 * 65519 - 1]));
    assert!(jpeg.can_set_icc_profile(&longest));
    let too_long = Some(Bytes::from(vec![0u8; 255 * 65519]));
    assert!(!jpeg.can_set_icc_profile(&too_long));
}

#[test]
fn longest_profile_is_split_into_255_segments() {
    let data = vec![7u8; 255 * 65519 - 1];
    let mut jpeg = parse(&sample());
    jpeg.set_icc_profile(Some(Bytes::from(data.clone())));
    assert_eq!(jpeg.segments().len(), 4 + 255);
    assert_eq!(jpeg.segments()[3].contents()[12], 255);
    assert_eq!(jpeg.segments()[3].contents()[13], 255);
    assert_eq!(jpeg.segments()[3].contents().len(), 14 + 65518);
    assert_eq!(jpeg.segments()[257].contents()[12], 1);
    assert!(jpeg.is_encodable());
    assert_eq!(jpeg.icc_profile(), Some(Bytes::from(data)));
}
