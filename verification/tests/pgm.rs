use footile::pgm::parse_decimal;
use footile::pgm::parse_pgm_header;
use footile::pgm::write_decimal;
use footile::pgm::write_pgm_header;
use footile::Mask;

fn numeral(n: u32) -> Vec<u8> {
    let mut out = Vec::new();
    write_decimal(&mut out, n);
    out
}

#[test]
fn write_decimal_spells_numerals() {
    assert_eq!(numeral(0), b"0");
    assert_eq!(numeral(7), b"7");
    assert_eq!(numeral(10), b"10");
    assert_eq!(numeral(1905), b"1905");
    assert_eq!(numeral(4294967295), b"4294967295");
    let mut out = b"ab".to_vec();
    write_decimal(&mut out, 120);
    assert_eq!(out, b"ab120");
}

#[test]
fn write_pgm_header_names_the_dimensions() {
    let mut out = Vec::new();
    write_pgm_header(&mut out, 84, 64);
    assert_eq!(out, b"P5\n84 64\n255\n");
    write_pgm_header(&mut out, 0, 4294967295);
    assert_eq!(out, b"P5\n84 64\n255\nP5\n0 4294967295\n255\n");
}

#[test]
fn write_pgm_lays_out_header_and_bytes() {
    let mut m = Mask::new(3, 2).unwrap();
    m.fill(1, 4, 200).unwrap();
    m.set(0, 10).unwrap();
    let mut out = Vec::new();
    m.write_pgm(&mut out);
    let mut expected = b"P5\n3 2\n255\n".to_vec();
    expected.extend_from_slice(&[10, 200, 200, 200, 200, 0]);
    assert_eq!(out, expected);
    assert_eq!(m.pixels(), &[10, 200, 200, 200, 200, 0][..]);
}

#[test]
fn write_pgm_appends_to_what_is_there() {
    let m = Mask::new(10, 10).unwrap();
    let mut out = vec![1u8, 2, 3];
    m.write_pgm(&mut out);
    assert_eq!(&out[..3], &[1, 2, 3]);
    assert_eq!(&out[3..16], b"P5\n10 10\n255\n");
    assert_eq!(out.len(), 3 + 13 + 100);
    assert!(out[16..].iter().all(|&b| b == 0));
}

#[test]
fn pgm_header_round_trip() {
    let dims: [(u32, u32); 8] = [
        (10, 10),
        (1, 1),
        (0, 0),
        (0, 7),
        (128, 1),
        (99, 100),
        (4294967295, 0),
        (0, 4294967295),
    ];
    for (w, h) in dims {
        let mut m = Mask::new(w, h).unwrap();
        let len = m.pixels().len();
        m.fill(0, len, 0x35).unwrap();
        let mut out = Vec::new();
        m.write_pgm(&mut out);
        assert_eq!(parse_pgm_header(&out), Some((w, h)));
    }
}

#[test]
fn parse_pgm_header_reads_a_bare_header() {
    assert_eq!(parse_pgm_header(b"P5\n84 64\n255\n"), Some((84, 64)));
    assert_eq!(parse_pgm_header(b"P5\n0 0\n255\n"), Some((0, 0)));
    assert_eq!(parse_pgm_header(b"P5\n4294967295 4294967295\n255\n123"), Some((4294967295, 4294967295)));
}

#[test]
fn parse_pgm_header_refuses_what_is_no_header() {
    let bad: [&[u8]; 22] = [
        b"",
        b"P5",
        b"P5\n",
        b"P6\n84 64\n255\n",
        b"p5\n84 64\n255\n",
        b"P5 84 64\n255\n",
        b"P5\n 84 64\n255\n",
        b"P5\n84  64\n255\n",
        b"P5\n84\n64\n255\n",
        b"P5\n84 64 255\n",
        b"P5\n84 64\n255",
        b"P5\n84 64\n255 ",
        b"P5\n84 64\n256\n",
        b"P5\n84 64\n25\n",
        b"P5\n84 64\n2550\n",
        b"P5\n084 64\n255\n",
        b"P5\n84 064\n255\n",
        b"P5\n00 0\n255\n",
        b"P5\n4294967296 1\n255\n",
        b"P5\n1 4294967296\n255\n",
        b"P5\n99999999999999999999 1\n255\n",
        b"P5\n-1 1\n255\n",
    ];
    for bytes in bad {
        assert_eq!(parse_pgm_header(bytes), None);
    }
}

#[test]
fn parse_decimal_reads_one_numeral() {
    assert_eq!(parse_decimal(b"120 7", 0), Some((120, 3)));
    assert_eq!(parse_decimal(b"120 7", 1), Some((20, 3)));
    assert_eq!(parse_decimal(b"120 7", 4), Some((7, 5)));
    assert_eq!(parse_decimal(b"0", 0), Some((0, 1)));
    assert_eq!(parse_decimal(b"4294967295x", 0), Some((4294967295, 10)));
    assert_eq!(parse_decimal(b"120 7", 2), Some((0, 3)));
}

#[test]
fn parse_decimal_refuses_what_is_no_numeral() {
    assert_eq!(parse_decimal(b"120 7", 3), None);
    assert_eq!(parse_decimal(b"120 7", 5), None);
    assert_eq!(parse_decimal(b"", 0), None);
    assert_eq!(parse_decimal(b"007", 0), None);
    assert_eq!(parse_decimal(b"4294967296", 0), None);
    assert_eq!(parse_decimal(b"42949672950", 0), None);
    assert_eq!(parse_decimal(b"x1", 0), None);
}
