use img_parts::jpeg::markers;
use img_parts::jpeg::{stuff, unstuff, Entropy, EntropyScanner};
use img_parts::Error;

#[test]
fn test_read_entropy() {
    let input: &[u8] = &[
        0xE2, 0xFF, 0xE2, 0x51, 0xE7, 0xFF, 0x00, 0xAA, 0xFD, 0xFF, 0x00, 0xCA, 0xFF, 0xD9,
    ];

    let output = Entropy::read(&input[..]).expect("read_entropy");
    assert_eq!(output.len(), input.len());
    assert_eq!(output.raw().as_slice(), &input[..input.len() - 2]);
}

#[test]
fn test_write_entropy() {
    let mut raw = vec![0xE2, 0xFF, 0xE2, 0x51, 0xE7, 0xFF, 0xAA, 0xFD, 0xFF, 0xCA];

    let entropy = Entropy::new(raw.clone());

    let mut output = Vec::new();
    entropy.write_to(&mut output).expect("write_entropy");

    raw.push(markers::P);
    raw.push(markers::EOI);

    assert_eq!(entropy.len(), raw.len());
    assert_eq!(output.as_slice(), raw.as_slice());
}

#[test]
fn read_entropy_without_end_is_truncated() {
    assert_eq!(Entropy::read(&[0x01, 0x02, 0xFF]), Err(Error::Truncated));
    assert_eq!(Entropy::read(&[0x01, 0x02, 0xFF, 0x00]), Err(Error::Truncated));
    assert_eq!(Entropy::read(&[]), Err(Error::Truncated));
}

#[test]
fn read_entropy_keeps_marker_pairs_together() {
    // the second `FF` is data of the first, so the `D9` behind it ends nothing
    let input: &[u8] = &[0xFF, 0xFF, 0xD9, 0x07, 0xFF, 0xD9, 0x55];
    let output = Entropy::read(input).expect("read");
    assert_eq!(output.raw().as_slice(), &[0xFF, 0xFF, 0xD9, 0x07]);
}

#[test]
fn scanner_holds_back_the_first_byte_of_a_marker() {
    let mut scanner = EntropyScanner::new();
    assert!(!scanner.feed(0x12));
    assert!(!scanner.feed(0xFF));
    assert_eq!(scanner.clone().finish().raw().as_slice(), &[0x12]);
    assert!(!scanner.feed(0x00));
    assert_eq!(scanner.clone().finish().raw().as_slice(), &[0x12, 0xFF, 0x00]);
    // the end-of-image marker ends nothing where no byte is held back
    assert!(!scanner.feed(0xD9));
    assert!(!scanner.feed(0xFF));
    assert!(scanner.feed(0xD9));
    assert_eq!(scanner.finish().raw().as_slice(), &[0x12, 0xFF, 0x00, 0xD9]);
}

#[test]
fn stuffing_puts_a_zero_behind_every_marker_byte() {
    assert_eq!(
        stuff(&[0x01, 0xFF, 0x02, 0xFF]),
        vec![0x01, 0xFF, 0x00, 0x02, 0xFF, 0x00]
    );
    assert_eq!(stuff(&[0xFF, 0x00]), vec![0xFF, 0x00, 0x00]);
    assert_eq!(stuff(&[]), Vec::<u8>::new());
}

#[test]
fn unstuffing_leaves_out_the_zero_behind_a_marker_byte() {
    assert_eq!(unstuff(&[0x01, 0xFF, 0x00, 0x02]), vec![0x01, 0xFF, 0x02]);
    assert_eq!(unstuff(&[0xFF, 0x00, 0x00]), vec![0xFF, 0x00]);
    // other zero bytes are data
    assert_eq!(unstuff(&[0xFF, 0xD9, 0x00, 0x00]), vec![0xFF, 0xD9, 0x00, 0x00]);
    assert_eq!(unstuff(&[0xFF]), vec![0xFF]);
}

#[test]
fn unstuffing_undoes_stuffing() {
    let data: Vec<u8> = vec![0xFF, 0xFF, 0x00, 0x12, 0xFF, 0xD9, 0x00, 0xFF];
    assert_eq!(unstuff(&stuff(&data)), data);
    assert_eq!(stuff(&data).len(), data.len() + 4);
}
