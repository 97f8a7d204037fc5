use lzma_codec::{CompressOptions, Encoder, WriteUnpackedSize};

fn unknown_size() -> CompressOptions {
    CompressOptions { unpacked_size: WriteUnpackedSize::WriteToHeader(None) }
}

const HEADER_UNKNOWN: [u8; 13] =
    [0x5D, 0x00, 0x00, 0x80, 0x00, 0xFF, 0xFF, 0xFF, 0xFF, 0xFF, 0xFF, 0xFF, 0xFF];

#[test]
fn empty_input_unknown_size() {
    let out = Encoder::from_stream(&unknown_size()).process(&[]);
    let mut expected = HEADER_UNKNOWN.to_vec();
    expected.extend_from_slice(&[0x00, 0x83, 0xFF, 0xFB, 0xFF, 0xFF, 0xC0, 0x00, 0x00, 0x00]);
    assert_eq!(out, expected);
}

#[test]
fn empty_input_known_size() {
    let opts = CompressOptions { unpacked_size: WriteUnpackedSize::WriteToHeader(Some(0)) };
    let out = Encoder::from_stream(&opts).process(&[]);
    assert_eq!(
        out,
        vec![0x5D, 0x00, 0x00, 0x80, 0x00, 0, 0, 0, 0, 0, 0, 0, 0, 0x00, 0x00, 0x00, 0x00, 0x00]
    );
}

#[test]
fn one_byte_known_size() {
    let opts = CompressOptions { unpacked_size: WriteUnpackedSize::WriteToHeader(Some(1)) };
    let out = Encoder::from_stream(&opts).process(b"a");
    assert_eq!(
        out,
        vec![0x5D, 0x00, 0x00, 0x80, 0x00, 1, 0, 0, 0, 0, 0, 0, 0, 0x00, 0x30, 0x7F, 0xFC, 0x00, 0x00]
    );
}

#[test]
fn one_byte_end_marker() {
    let out = Encoder::from_stream(&unknown_size()).process(b"a");
    let mut expected = HEADER_UNKNOWN.to_vec();
    expected.extend_from_slice(&[
        0x00, 0x30, 0xC1, 0xFB, 0xFF, 0xFF, 0xFF, 0xE0, 0x00, 0x00, 0x00,
    ]);
    assert_eq!(out, expected);
}

#[test]
fn text_end_marker() {
    let out = Encoder::from_stream(&unknown_size()).process(b"Hello, world!");
    let mut expected = HEADER_UNKNOWN.to_vec();
    expected.extend_from_slice(&[
        0x00, 0x24, 0x19, 0x49, 0x86, 0xE7, 0xD6, 0x3B, 0x91, 0xA7, 0x78, 0x42, 0xD7, 0xC2, 0xF7,
        0x46, 0x8C, 0x22, 0x7F, 0xFF, 0xDD, 0x8F, 0x00, 0x00,
    ]);
    assert_eq!(out, expected);
}

#[test]
fn skip_writing_size_header() {
    let opts = CompressOptions { unpacked_size: WriteUnpackedSize::SkipWritingToHeader };
    let out = Encoder::from_stream(&opts).process(b"a");
    assert_eq!(out, vec![0x5D, 0x00, 0x00, 0x80, 0x00, 0x00, 0x30, 0x7F, 0xFC, 0x00, 0x00]);
}

#[test]
fn raw_encoder_writes_no_header() {
    let out = Encoder::new(&unknown_size()).process(&[]);
    assert_eq!(out, vec![0x00, 0x83, 0xFF, 0xFB, 0xFF, 0xFF, 0xC0, 0x00, 0x00, 0x00]);
}

#[test]
fn long_input_ends_with_marker_after_literals() {
    let data: Vec<u8> = (0..5000u32).map(|i| (i * 7 % 251) as u8).collect();
    let known = CompressOptions { unpacked_size: WriteUnpackedSize::SkipWritingToHeader };
    let with_marker = Encoder::new(&unknown_size()).process(&data);
    let without = Encoder::new(&known).process(&data);
    assert!(with_marker.len() > without.len());
    assert_eq!(with_marker[0], 0);
}
