use footile::encode::write_encoded;
use footile::Mask;
use footile::MaskError;

fn decode(bytes: &[u8]) -> (u32, u32, png::ColorType, png::BitDepth, Vec<u8>) {
    let decoder = png::Decoder::new(bytes);
    let (info, mut reader) = decoder.read_info().unwrap();
    let mut data = vec![0u8; info.buffer_size()];
    reader.next_frame(&mut data).unwrap();
    (info.width, info.height, info.color_type, info.bit_depth, data)
}

#[test]
fn write_png_encodes_a_grayscale_image() {
    let mut m = Mask::new(7, 5).unwrap();
    for i in 0..35usize {
        m.fill(i, 1, (i * 7) as u8).unwrap();
    }
    let mut out = Vec::new();
    assert_eq!(m.write_png(&mut out), Ok(()));
    assert_eq!(&out[..8], &[137, 80, 78, 71, 13, 10, 26, 10]);
    assert_eq!(&out[out.len() - 8..out.len() - 4], b"IEND");
    let (width, height, color, depth, data) = decode(&out);
    assert_eq!((width, height), (7, 5));
    assert_eq!(color, png::ColorType::Grayscale);
    assert_eq!(depth, png::BitDepth::Eight);
    assert_eq!(&data[..], m.pixels());
}

#[test]
fn write_png_is_a_function_of_the_mask() {
    let mut a = Mask::new(16, 16).unwrap();
    let mut b = Mask::new(16, 16).unwrap();
    a.fill(30, 100, 77).unwrap();
    b.fill(30, 100, 77).unwrap();
    let mut first = Vec::new();
    let mut second = Vec::new();
    a.write_png(&mut first).unwrap();
    b.write_png(&mut second).unwrap();
    assert_eq!(first, second);
}

#[test]
fn write_png_appends_to_what_is_there() {
    let m = Mask::new(2, 2).unwrap();
    let mut alone = Vec::new();
    m.write_png(&mut alone).unwrap();
    let mut out = vec![9u8, 8, 7];
    m.write_png(&mut out).unwrap();
    assert_eq!(&out[..3], &[9, 8, 7]);
    assert_eq!(&out[3..], &alone[..]);
}

#[test]
fn write_png_refuses_an_empty_mask() {
    for (w, h) in [(0u32, 0u32), (0, 4), (4, 0)] {
        let m = Mask::new(w, h).unwrap();
        let mut out = vec![1u8, 2];
        assert_eq!(m.write_png(&mut out), Err(MaskError::Encoding));
        assert_eq!(out, [1, 2]);
    }
}

#[test]
fn write_encoded_appends_the_stream() {
    let mut out = vec![5u8];
    assert_eq!(write_encoded(&mut out, Ok(vec![1, 2, 3])), Ok(()));
    assert_eq!(out, [5, 1, 2, 3]);
    assert_eq!(write_encoded(&mut out, Ok(Vec::new())), Ok(()));
    assert_eq!(out, [5, 1, 2, 3]);
}

#[test]
fn write_encoded_reports_a_refusal() {
    let mut out = vec![5u8];
    let refused = Err(png::EncodingError::Format("zero".into()));
    assert_eq!(write_encoded(&mut out, refused), Err(MaskError::Encoding));
    assert_eq!(out, [5]);
}
