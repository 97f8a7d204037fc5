use lzma_codec::{
    header_size, DecompressOptions, LzmaError, LzmaParams, LzmaProperties, ReadUnpackedSize,
};

fn props(lc: u32, lp: u32, pb: u32) -> LzmaProperties {
    LzmaProperties { lc, lp, pb }
}

fn from_header() -> DecompressOptions {
    DecompressOptions { unpacked_size: ReadUnpackedSize::ReadFromHeader }
}

#[test]
fn validate_accepts_every_combination_in_bounds() {
    for lc in 0..=8 {
        for lp in 0..=4 {
            for pb in 0..=4 {
                props(lc, lp, pb).validate();
                assert!(props(lc, lp, pb).check().is_ok());
            }
        }
    }
}

#[test]
fn check_refuses_each_bound() {
    assert_eq!(props(9, 0, 0).check(), Err(LzmaError::InvalidProperties));
    assert_eq!(props(0, 5, 0).check(), Err(LzmaError::InvalidProperties));
    assert_eq!(props(0, 0, 5).check(), Err(LzmaError::InvalidProperties));
    assert_eq!(props(u32::MAX, u32::MAX, u32::MAX).check(), Err(LzmaError::InvalidProperties));
}

#[test]
fn write_header_layout() {
    let p = LzmaParams::new(props(3, 0, 2), 0x0080_0000, Some(0x0102_0304_0506_0708));
    let mut out = vec![0xAA];
    assert_eq!(p.write_header(&mut out), Ok(()));
    assert_eq!(
        out,
        vec![0xAA, 0x5D, 0x00, 0x00, 0x80, 0x00, 0x08, 0x07, 0x06, 0x05, 0x04, 0x03, 0x02, 0x01]
    );
}

#[test]
fn write_header_absent_size_is_all_ones() {
    let p = LzmaParams::new(props(0, 0, 0), 0x1000, None);
    let mut out = Vec::new();
    assert_eq!(p.write_header(&mut out), Ok(()));
    assert_eq!(out, vec![0, 0x00, 0x10, 0, 0, 0xFF, 0xFF, 0xFF, 0xFF, 0xFF, 0xFF, 0xFF, 0xFF]);
}

#[test]
fn write_header_refuses_invalid_properties() {
    let p = LzmaParams::new(props(9, 0, 0), 0x1000, None);
    let mut out = vec![1, 2];
    assert_eq!(p.write_header(&mut out), Err(LzmaError::InvalidProperties));
    assert_eq!(out, vec![1, 2]);
}

#[test]
fn header_round_trip_all_properties() {
    for lc in 0..=8 {
        for lp in 0..=4 {
            for pb in 0..=4 {
                for size in [None, Some(0), Some(12345), Some(u64::MAX - 1)] {
                    let p = LzmaParams::new(props(lc, lp, pb), 0x0001_2345, size);
                    let mut out = Vec::new();
                    p.write_header(&mut out).unwrap();
                    let back = LzmaParams::read_header(&out, &from_header()).unwrap();
                    assert_eq!(back, p);
                }
            }
        }
    }
}

#[test]
fn header_round_trip_raises_small_dictionary_and_sentinel_size() {
    let p = LzmaParams::new(props(1, 2, 3), 0x0FFF, Some(u64::MAX));
    let mut out = Vec::new();
    p.write_header(&mut out).unwrap();
    let back = LzmaParams::read_header(&out, &from_header()).unwrap();
    assert_eq!(back, LzmaParams::new(props(1, 2, 3), 0x1000, None));
}

#[test]
fn read_header_invalid_properties_byte() {
    for b in 225..=255u8 {
        let mut input = vec![b];
        input.extend_from_slice(&[0; 12]);
        assert_eq!(
            LzmaParams::read_header(&input, &from_header()),
            Err(LzmaError::InvalidProperties)
        );
        assert_eq!(
            LzmaParams::read_header(&[b], &from_header()),
            Err(LzmaError::InvalidProperties)
        );
    }
}

#[test]
fn read_header_too_short() {
    let full = [0x5D, 0, 0, 0x80, 0, 1, 0, 0, 0, 0, 0, 0, 0];
    for n in 0..13 {
        assert_eq!(
            LzmaParams::read_header(&full[..n], &from_header()),
            Err(LzmaError::HeaderTooShort)
        );
    }
    assert!(LzmaParams::read_header(&full, &from_header()).is_ok());
    let raw = DecompressOptions { unpacked_size: ReadUnpackedSize::UseProvided(Some(7)) };
    assert_eq!(LzmaParams::read_header(&full[..4], &raw), Err(LzmaError::HeaderTooShort));
    assert_eq!(
        LzmaParams::read_header(&full[..5], &raw),
        Ok(LzmaParams::new(props(3, 0, 2), 0x0080_0000, Some(7)))
    );
    assert_eq!(header_size(&raw), 5);
    assert_eq!(header_size(&from_header()), 13);
}

#[test]
fn read_header_decomposes_properties_byte() {
    let input = [224, 0x34, 0x12, 0, 0, 5, 0, 0, 0, 0, 0, 0, 0];
    let p = LzmaParams::read_header(&input, &from_header()).unwrap();
    assert_eq!(p, LzmaParams::new(props(8, 4, 4), 0x1234_u32.max(0x1000), Some(5)));
    let input = [0x5D, 0x00, 0x00, 0x80, 0x00, 5, 0, 0, 0, 0, 0, 0, 0];
    let p = LzmaParams::read_header(&input, &from_header()).unwrap();
    assert_eq!(p.properties, props(3, 0, 2));
    assert_eq!(p.dict_size, 0x0080_0000);
}

#[test]
fn read_header_but_use_provided_size() {
    let input = [0, 0, 0x20, 0, 0, 9, 0, 0, 0, 0, 0, 0, 0];
    let opts = DecompressOptions { unpacked_size: ReadUnpackedSize::ReadHeaderButUseProvided(None) };
    let p = LzmaParams::read_header(&input, &opts).unwrap();
    assert_eq!(p, LzmaParams::new(props(0, 0, 0), 0x2000, None));
    assert_eq!(LzmaParams::read_header(&input[..12], &opts), Err(LzmaError::HeaderTooShort));
}
