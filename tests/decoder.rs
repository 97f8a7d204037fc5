use lzma_codec::{
    decode_stream, decompress, CompressOptions, DecompressOptions, Encoder, LzmaError, LzmaParams,
    LzmaProperties, ReadUnpackedSize, WriteUnpackedSize,
};

fn compress(data: &[u8], size: Option<u64>) -> Vec<u8> {
    let opts = CompressOptions { unpacked_size: WriteUnpackedSize::WriteToHeader(size) };
    Encoder::from_stream(&opts).process(data)
}

fn from_header() -> DecompressOptions {
    DecompressOptions { unpacked_size: ReadUnpackedSize::ReadFromHeader }
}

fn raw_params(size: Option<u64>) -> LzmaParams {
    LzmaParams::new(LzmaProperties { lc: 3, lp: 0, pb: 2 }, 0x1000, size)
}

fn samples() -> Vec<Vec<u8>> {
    let mut v = vec![Vec::new(), b"a".to_vec(), b"Hello, world!".to_vec()];
    v.push((0..=255u8).cycle().take(3000).collect());
    let mut x: u32 = 12345;
    v.push(
        (0..20000)
            .map(|_| {
                x = x.wrapping_mul(1_103_515_245).wrapping_add(12345);
                (x >> 16) as u8
            })
            .collect(),
    );
    v.push(vec![0u8; 10000]);
    v
}

#[test]
fn round_trip_unknown_size() {
    for data in samples() {
        let packed = compress(&data, None);
        assert_eq!(decompress(&packed, &from_header()), Ok(data.clone()));
    }
}

#[test]
fn round_trip_known_size() {
    for data in samples() {
        let packed = compress(&data, Some(data.len() as u64));
        assert_eq!(decompress(&packed, &from_header()), Ok(data.clone()));
    }
}

#[test]
fn round_trip_raw_streams() {
    for data in samples() {
        let skip = CompressOptions { unpacked_size: WriteUnpackedSize::SkipWritingToHeader };
        let packed = Encoder::from_stream(&skip).process(&data);
        let opts = DecompressOptions {
            unpacked_size: ReadUnpackedSize::UseProvided(Some(data.len() as u64)),
        };
        assert_eq!(decompress(&packed, &opts), Ok(data.clone()));
        let unknown = CompressOptions { unpacked_size: WriteUnpackedSize::WriteToHeader(None) };
        let body = Encoder::new(&unknown).process(&data);
        assert_eq!(decode_stream(&body, &raw_params(None)), Ok(data.clone()));
    }
}

#[test]
fn end_marker_stops_decoding() {
    let data = b"abcabcabc".to_vec();
    let mut packed = compress(&data, None);
    packed.extend_from_slice(&[0x12, 0x34, 0x56]);
    assert_eq!(decompress(&packed, &from_header()), Ok(data));
}

#[test]
fn truncated_streams_fail() {
    let short: Vec<Vec<u8>> = vec![
        Vec::new(),
        b"a".to_vec(),
        b"Hello, world!".to_vec(),
        (0..=255u8).cycle().take(400).collect(),
    ];
    for data in short {
        for size in [None, Some(data.len() as u64)] {
            let packed = compress(&data, size);
            for cut in 0..packed.len() {
                let r = decompress(&packed[..cut], &from_header());
                if cut < 13 {
                    assert_eq!(r, Err(LzmaError::HeaderTooShort));
                } else {
                    match r {
                        Err(e) => assert_eq!(e, LzmaError::Corrupted),
                        Ok(out) => assert_eq!(out, data),
                    }
                    if cut + 5 < packed.len() {
                        assert!(decompress(&packed[..cut], &from_header()).is_err());
                    }
                }
            }
        }
    }
}

#[test]
fn known_size_larger_than_stream_fails() {
    let packed = compress(b"abc", None);
    let opts =
        DecompressOptions { unpacked_size: ReadUnpackedSize::ReadHeaderButUseProvided(Some(4)) };
    assert_eq!(decompress(&packed, &opts), Err(LzmaError::Corrupted));
}

#[test]
fn match_beyond_output_is_corruption() {
    // a match as the first token: distance 1 with nothing emitted yet
    let far = [0x00, 0x7F, 0xFF, 0xFC, 0x00, 0x00];
    assert_eq!(decode_stream(&far, &raw_params(None)), Err(LzmaError::Corrupted));
}

#[test]
fn overlapping_match_copies_one_byte_at_a_time() {
    // the literal 'a', then a match of length 2 at distance 1
    let stream = [0x00, 0x30, 0xBF, 0xFC, 0x00, 0x00, 0x00];
    assert_eq!(decode_stream(&stream, &raw_params(Some(3))), Ok(b"aaa".to_vec()));
}

#[test]
fn decode_refuses_invalid_properties_and_short_input() {
    let bad = LzmaParams::new(LzmaProperties { lc: 9, lp: 0, pb: 0 }, 0x1000, None);
    assert_eq!(decode_stream(&[0; 16], &bad), Err(LzmaError::InvalidProperties));
    assert!(decode_stream(&[0; 4], &raw_params(None)).is_err());
    let mut header = vec![230u8];
    header.extend_from_slice(&[0; 20]);
    assert_eq!(decompress(&header, &from_header()), Err(LzmaError::InvalidProperties));
}

#[test]
fn empty_known_size_decodes_to_nothing() {
    assert_eq!(decode_stream(&[0, 1, 2, 3, 4], &raw_params(Some(0))), Ok(Vec::new()));
    let mut packed = compress(b"", Some(0));
    packed.truncate(18);
    assert_eq!(decompress(&packed, &from_header()), Ok(Vec::new()));
}
