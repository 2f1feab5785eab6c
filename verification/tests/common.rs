use img_parts::jpeg::Jpeg;
use img_parts::png::Png;
use img_parts::webp::WebP;
use img_parts::{Bytes, DynImage, Error, ImageEXIF, ImageICC};

fn jpeg() -> Vec<u8> {
    vec![
        0xFF, 0xD8, // SOI
        0xFF, 0xE0, 0x00, 0x06, b'J', b'F', b'I', b'F', // APP0
        0xFF, 0xDB, 0x00, 0x04, 0x01, 0x02, // DQT
        0xFF, 0xC0, 0x00, 0x05, 0x08, 0x00, 0x10, // SOF0
        0xFF, 0xDA, 0x00, 0x04, 0xAA, 0xBB, // SOS
        0x11, 0x22, 0xFF, 0xD9, // entropy data and EOI
    ]
}

fn png() -> Vec<u8> {
    vec![
        0x89, 0x50, 0x4E, 0x47, 0x0D, 0x0A, 0x1A, 0x0A, // signature
        0x00, 0x00, 0x00, 0x05, b'1', b'2', b'3', b'4', b'5', b'6', b'7', b'8', b'9', 0xCB, 0xF4,
        0x39, 0x26, // a chunk
        0x00, 0x00, 0x00, 0x00, 0x49, 0x45, 0x4E, 0x44, 0xAE, 0x42, 0x60, 0x82, // IEND
    ]
}

fn webp() -> Vec<u8> {
    vec![
        b'R', b'I', b'F', b'F', 24, 0, 0, 0, b'W', b'E', b'B', b'P', // RIFF of the kind WEBP
        b'V', b'P', b'8', b' ', 11, 0, 0, 0, // VP8 chunk
        0x10, 0x02, 0x00, 0x9D, 0x01, 0x2A, 0x40, 0x01, 0xF0, 0x00, 0xAA, // frame
        0x00, // padding
    ]
}

#[test]
fn from_bytes_picks_the_format_by_the_signature() {
    let image = DynImage::from_bytes(Bytes::from(jpeg())).unwrap().unwrap();
    assert_eq!(
        image,
        DynImage::Jpeg(Jpeg::from_bytes(Bytes::from(jpeg())).unwrap())
    );
    let image = DynImage::from_bytes(Bytes::from(png())).unwrap().unwrap();
    assert_eq!(
        image,
        DynImage::Png(Png::from_bytes(Bytes::from(png())).unwrap())
    );
    let image = DynImage::from_bytes(Bytes::from(webp())).unwrap().unwrap();
    assert_eq!(
        image,
        DynImage::WebP(WebP::from_bytes(Bytes::from(webp())).unwrap())
    );
}

#[test]
fn from_bytes_of_another_format_is_none() {
    assert_eq!(DynImage::from_bytes(Bytes::from_static(b"GIF89a....")), Ok(None));
    assert_eq!(DynImage::from_bytes(Bytes::new()), Ok(None));
    // too short for the signature of a JPEG file
    assert_eq!(
        DynImage::from_bytes(Bytes::from_static(&[0xFF, 0xD8, 0xFF, 0xD9])),
        Ok(None)
    );
    // a RIFF file of another kind
    assert_eq!(
        DynImage::from_bytes(Bytes::from_static(b"RIFF\x04\x00\x00\x00WAVE.")),
        Ok(None)
    );
}

#[test]
fn from_bytes_of_a_broken_file_is_an_error() {
    let file = jpeg();
    assert_eq!(
        DynImage::from_bytes(Bytes::copy_from_slice(&file[..20])),
        Err(Error::Truncated)
    );
    let mut file = png();
    file[13] ^= 0x40;
    assert_eq!(DynImage::from_bytes(Bytes::from(file)), Err(Error::BadCRC));
    let file = webp();
    assert_eq!(
        DynImage::from_bytes(Bytes::copy_from_slice(&file[..31])),
        Err(Error::Truncated)
    );
}

#[test]
fn read_write_every_format() {
    for file in [jpeg(), png(), webp()] {
        let buf = Bytes::from(file);
        let img = DynImage::from_bytes(buf.clone())
            .expect("from_bytes")
            .expect("supported");
        assert_eq!(img.len(), buf.len());
        let out = img.encoder().bytes();
        assert_eq!(out.len(), buf.len());
        assert_eq!(out, buf);
    }
}

#[test]
fn metadata_of_every_format() {
    for file in [jpeg(), png(), webp()] {
        let mut img = DynImage::from_bytes(Bytes::from(file.clone()))
            .unwrap()
            .unwrap();
        assert_eq!(img.icc_profile(), None);
        assert_eq!(img.exif(), None);

        assert!(img.can_set_icc_profile(&Some(Bytes::from_static(b"a profile"))));
        img.set_icc_profile(Some(Bytes::from_static(b"a profile")));
        assert_eq!(img.icc_profile(), Some(Bytes::from_static(b"a profile")));
        assert!(img.can_set_exif(&Some(Bytes::from_static(b"some exif"))));
        img.set_exif(Some(Bytes::from_static(b"some exif")));
        assert_eq!(img.exif(), Some(Bytes::from_static(b"some exif")));
        assert_eq!(img.icc_profile(), Some(Bytes::from_static(b"a profile")));

        let len = img.len();
        let written = img.encoder().bytes();
        assert_eq!(written.len(), len);
        let mut read = DynImage::from_bytes(written).unwrap().unwrap();
        assert_eq!(read.icc_profile(), Some(Bytes::from_static(b"a profile")));
        assert_eq!(read.exif(), Some(Bytes::from_static(b"some exif")));

        read.set_icc_profile(None);
        read.set_exif(None);
        assert_eq!(read.icc_profile(), None);
        assert_eq!(read.exif(), None);
        assert_eq!(read.encoder().bytes(), Bytes::from(file));
    }
}

#[test]
fn from_an_image_of_one_format() {
    let image: DynImage = Jpeg::from_bytes(Bytes::from(jpeg())).unwrap().into();
    assert!(matches!(image, DynImage::Jpeg(_)));
    let image = DynImage::from(Png::from_bytes(Bytes::from(png())).unwrap());
    assert!(matches!(image, DynImage::Png(_)));
    let image = DynImage::from(WebP::from_bytes(Bytes::from(webp())).unwrap());
    assert!(matches!(image, DynImage::WebP(_)));
}

#[test]
fn error_messages() {
    assert_eq!(
        Error::WrongSignature.message(),
        "the file signature didn't match the expected signature"
    );
    assert_eq!(
        Error::BadCRC.message(),
        "the chunk CRC didn't match the expected calculated CRC"
    );
    assert_eq!(Error::Truncated.message(), "a truncated chunk was read");
    assert_eq!(Error::Io.message(), "writing to the output sink failed");
}
