use footile::mask::accum;
use footile::Mask;
use footile::MaskError;

fn patterned(width: u32, height: u32) -> Mask {
    let mut m = Mask::new(width, height).unwrap();
    let len = m.pixels().len();
    for i in 0..len {
        m.fill(i, 1, (i % 251) as u8 + 1).unwrap();
    }
    m
}

#[test]
fn test_mask() {
    let mut m = Mask::new(10, 10).unwrap();
    m.clear();
    assert!(m.width() == 10);
    assert!(m.height() == 10);
    assert!(m.pixels().len() == 100);
    m.fill(40, 20, 255u8).unwrap();
    assert!(m.pixels()[0] == 0u8);
    assert!(m.pixels()[39] == 0u8);
    assert!(m.pixels()[40] == 255u8);
    assert!(m.pixels()[59] == 255u8);
    assert!(m.pixels()[60] == 0u8);
    assert!(m.pixels()[99] == 0u8);
}

#[test]
fn new_is_zero_filled() {
    let m = Mask::new(7, 3).unwrap();
    assert_eq!(m.width(), 7);
    assert_eq!(m.height(), 3);
    assert_eq!(m.pixels(), &[0u8; 21][..]);
}

#[test]
fn new_accepts_empty_masks() {
    let m = Mask::new(0, 5).unwrap();
    assert_eq!((m.width(), m.height()), (0, 5));
    assert!(m.pixels().is_empty());
    let m = Mask::new(5, 0).unwrap();
    assert_eq!((m.width(), m.height()), (5, 0));
    assert!(m.pixels().is_empty());
    let m = Mask::new(u32::MAX, 0).unwrap();
    assert_eq!(m.width(), u32::MAX);
    assert!(m.pixels().is_empty());
}

#[test]
fn new_refuses_unaddressable_area() {
    assert_eq!(Mask::new(u32::MAX, u32::MAX).unwrap_err(), MaskError::InvalidDimensions);
    assert_eq!(Mask::new((1 << 31) + 1, u32::MAX).unwrap_err(), MaskError::InvalidDimensions);
    assert_eq!(Mask::new(u32::MAX, (1 << 31) + 1).unwrap_err(), MaskError::InvalidDimensions);
}

#[test]
fn clear_resets_every_byte() {
    let mut m = patterned(13, 9);
    assert!(m.pixels().iter().all(|&b| b != 0));
    m.clear();
    assert_eq!(m.width(), 13);
    assert_eq!(m.height(), 9);
    assert_eq!(m.pixels().len(), 13 * 9);
    assert!(m.pixels().iter().all(|&b| b == 0));
}

#[test]
fn fill_overwrites_the_range_and_nothing_else() {
    let cases: [(usize, usize, u8); 6] =
        [(0, 0, 9), (0, 1, 0), (5, 17, 255), (0, 48, 3), (47, 1, 128), (48, 0, 1)];
    for (offset, length, value) in cases {
        let before = patterned(8, 6);
        let mut m = patterned(8, 6);
        assert_eq!(m.fill(offset, length, value), Ok(()));
        for i in 0..48 {
            if offset <= i && i < offset + length {
                assert_eq!(m.pixels()[i], value);
            } else {
                assert_eq!(m.pixels()[i], before.pixels()[i]);
            }
        }
        assert_eq!((m.width(), m.height()), (8, 6));
    }
}

#[test]
fn fill_refuses_a_range_outside_the_buffer() {
    let before = patterned(8, 6);
    let mut m = patterned(8, 6);
    assert_eq!(m.fill(40, 9, 1), Err(MaskError::OutOfBounds));
    assert_eq!(m.fill(49, 0, 1), Err(MaskError::OutOfBounds));
    assert_eq!(m.fill(0, 49, 1), Err(MaskError::OutOfBounds));
    assert_eq!(m.fill(usize::MAX, 2, 1), Err(MaskError::OutOfBounds));
    assert_eq!(m.fill(2, usize::MAX, 1), Err(MaskError::OutOfBounds));
    assert_eq!(m.pixels(), before.pixels());
}

#[test]
fn set_writes_into_the_first_row() {
    let mut m = Mask::new(4, 3).unwrap();
    assert_eq!(m.set(0, 17), Ok(()));
    assert_eq!(m.set(3, 255), Ok(()));
    assert_eq!(m.pixels(), &[17, 0, 0, 255, 0, 0, 0, 0, 0, 0, 0, 0][..]);
}

#[test]
fn set_keeps_the_low_byte() {
    let mut m = Mask::new(4, 1).unwrap();
    m.set(0, 300).unwrap();
    m.set(1, -1).unwrap();
    m.set(2, 256).unwrap();
    m.set(3, i32::MIN + 5).unwrap();
    assert_eq!(m.pixels(), &[44, 255, 0, 5][..]);
}

#[test]
fn set_refuses_a_column_outside_the_mask() {
    let mut m = patterned(4, 3);
    let before = patterned(4, 3);
    assert_eq!(m.set(-1, 1), Err(MaskError::OutOfBounds));
    assert_eq!(m.set(4, 1), Err(MaskError::OutOfBounds));
    assert_eq!(m.set(i32::MAX, 1), Err(MaskError::OutOfBounds));
    assert_eq!(m.set(i32::MIN, 1), Err(MaskError::OutOfBounds));
    assert_eq!(m.pixels(), before.pixels());
    let mut flat = Mask::new(4, 0).unwrap();
    assert_eq!(flat.set(0, 1), Err(MaskError::OutOfBounds));
}

#[test]
fn accumulate_saturates() {
    let mut m = Mask::new(6, 4).unwrap();
    let mut scan = Mask::new(6, 1).unwrap();
    scan.fill(0, 6, 200).unwrap();
    assert_eq!(m.accumulate(&scan, 2), Ok(()));
    assert_eq!(&m.pixels()[12..18], &[200u8; 6][..]);
    assert_eq!(m.accumulate(&scan, 2), Ok(()));
    assert_eq!(&m.pixels()[12..18], &[255u8; 6][..]);
    assert_eq!(&m.pixels()[..12], &[0u8; 12][..]);
    assert_eq!(&m.pixels()[18..], &[0u8; 6][..]);
}

#[test]
fn accumulate_adds_byte_by_byte() {
    let mut m = Mask::new(3, 2).unwrap();
    m.fill(0, 6, 100).unwrap();
    let mut scan = Mask::new(3, 1).unwrap();
    scan.set(0, 27).unwrap();
    scan.set(1, 155).unwrap();
    scan.set(2, 156).unwrap();
    assert_eq!(m.accumulate(&scan, 1), Ok(()));
    assert_eq!(m.pixels(), &[100, 100, 100, 127, 255, 255][..]);
    assert_eq!(m.accumulate(&scan, 0), Ok(()));
    assert_eq!(m.pixels(), &[127, 255, 255, 127, 255, 255][..]);
}

#[test]
fn accumulate_refuses_a_buffer_of_other_dimensions() {
    let mut m = patterned(5, 4);
    let before = patterned(5, 4);
    let narrow = Mask::new(4, 1).unwrap();
    let wide = Mask::new(6, 1).unwrap();
    let tall = Mask::new(5, 2).unwrap();
    let flat = Mask::new(5, 0).unwrap();
    assert_eq!(m.accumulate(&narrow, 0), Err(MaskError::DimensionMismatch));
    assert_eq!(m.accumulate(&wide, 0), Err(MaskError::DimensionMismatch));
    assert_eq!(m.accumulate(&tall, 0), Err(MaskError::DimensionMismatch));
    assert_eq!(m.accumulate(&flat, 0), Err(MaskError::DimensionMismatch));
    assert_eq!(m.accumulate(&tall, 9), Err(MaskError::DimensionMismatch));
    assert_eq!(m.pixels(), before.pixels());
}

#[test]
fn accumulate_refuses_a_row_outside_the_mask() {
    let mut m = patterned(5, 4);
    let before = patterned(5, 4);
    let mut scan = Mask::new(5, 1).unwrap();
    scan.fill(0, 5, 1).unwrap();
    assert_eq!(m.accumulate(&scan, 4), Err(MaskError::OutOfBounds));
    assert_eq!(m.accumulate(&scan, u32::MAX), Err(MaskError::OutOfBounds));
    assert_eq!(m.pixels(), before.pixels());
    assert_eq!(m.accumulate(&scan, 3), Ok(()));
    assert_eq!(&m.pixels()[..15], &before.pixels()[..15]);
    assert_eq!(m.pixels()[15], before.pixels()[15] + 1);
}

#[test]
fn accumulate_into_a_mask_without_columns() {
    let mut m = Mask::new(0, 3).unwrap();
    let scan = Mask::new(0, 1).unwrap();
    assert_eq!(m.accumulate(&scan, 2), Ok(()));
    assert_eq!(m.accumulate(&scan, 3), Err(MaskError::OutOfBounds));
    assert!(m.pixels().is_empty());
}

#[test]
fn scan_line_borrows_one_row() {
    let mut m = patterned(4, 3);
    let before = patterned(4, 3);
    {
        let line = m.scan_line(1);
        assert_eq!(&line[..], &before.pixels()[4..8]);
        line[0] = 0;
        line[3] = 9;
    }
    assert_eq!(&m.pixels()[..4], &before.pixels()[..4]);
    assert_eq!(&m.pixels()[4..8], &[0, before.pixels()[5], before.pixels()[6], 9][..]);
    assert_eq!(&m.pixels()[8..], &before.pixels()[8..]);
}

#[test]
fn accum_adds_clamped() {
    let mut a = [0u8, 1, 100, 200, 255, 128];
    let b = [0u8, 254, 155, 56, 1, 128];
    accum(&mut a, &b);
    assert_eq!(a, [0, 255, 255, 255, 255, 255]);
    let mut c = [10u8, 20, 30];
    accum(&mut c, &[1, 2, 3]);
    assert_eq!(c, [11, 22, 33]);
    let mut empty: [u8; 0] = [];
    accum(&mut empty, &[]);
}

#[test]
fn iter_yields_the_bytes_in_row_major_order() {
    let m = patterned(5, 3);
    let seen: Vec<u8> = m.iter().copied().collect();
    assert_eq!(seen.len(), 15);
    assert_eq!(&seen[..], m.pixels());
    assert_eq!(seen[7], 8);
}
