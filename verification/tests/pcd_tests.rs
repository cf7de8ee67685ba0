use rust_lio::pcd::{is_whitespace_char, parse_pcd, parse_usize_chars, trim_chars, PcdError};

fn point(v: &mut Vec<u8>, x: f32, y: f32, z: f32, i: f32) {
    for f in [x, y, z, i, 0.0, 0.0, 1.0, 0.5] {
        v.extend_from_slice(&f.to_bits().to_le_bytes());
    }
}

fn header(points: &str, data: &str) -> Vec<u8> {
    format!(
        "# .PCD v0.7 - Point Cloud Data file format\nVERSION 0.7\nFIELDS x y z intensity normal_x normal_y normal_z curvature\nSIZE 4 4 4 4 4 4 4 4\nTYPE F F F F F F F F\nCOUNT 1 1 1 1 1 1 1 1\nWIDTH 2\nHEIGHT 1\nVIEWPOINT 0 0 0 1 0 0 0\n{}\n{}\n",
        points, data
    )
    .into_bytes()
}

#[test]
fn binary_points_are_read() {
    let mut f = header("POINTS 2", "DATA binary");
    point(&mut f, 1.0, 2.0, 3.0, 10.0);
    point(&mut f, -1.0, -2.0, -3.0, 20.0);
    let pts = parse_pcd(&f).unwrap();
    assert_eq!(pts.len(), 2);
    assert_eq!(f32::from_bits(pts[0].x), 1.0);
    assert_eq!(f32::from_bits(pts[0].z), 3.0);
    assert_eq!(f32::from_bits(pts[0].intensity), 10.0);
    assert_eq!(f32::from_bits(pts[1].y), -2.0);
    assert_eq!(f32::from_bits(pts[1].intensity), 20.0);
}

#[test]
fn zero_points_give_an_empty_cloud_whatever_the_format() {
    assert!(parse_pcd(&header("POINTS 0", "DATA ascii")).unwrap().is_empty());
    assert!(parse_pcd(b"VERSION 0.7\n").unwrap().is_empty());
    assert!(parse_pcd(b"").unwrap().is_empty());
}

#[test]
fn only_binary_is_supported() {
    assert_eq!(parse_pcd(&header("POINTS 3", "DATA ascii")).err(), Some(PcdError::UnsupportedFormat));
    assert_eq!(parse_pcd(b"POINTS 3\n").err(), Some(PcdError::UnsupportedFormat));
    assert_eq!(parse_pcd(b"POINTS 3\nDATA \n").err(), Some(PcdError::UnsupportedFormat));
}

#[test]
fn truncated_points_are_an_error() {
    let mut f = header("POINTS 2", "DATA binary");
    point(&mut f, 1.0, 2.0, 3.0, 10.0);
    let mut cut = f.clone();
    point(&mut cut, 4.0, 5.0, 6.0, 7.0);
    // The second point keeps its first 16 bytes: enough.
    cut.truncate(f.len() + 16);
    let pts = parse_pcd(&cut).unwrap();
    assert_eq!(f32::from_bits(pts[1].x), 4.0);
    assert_eq!(f32::from_bits(pts[1].intensity), 7.0);
    cut.truncate(f.len() + 15);
    assert_eq!(parse_pcd(&cut).err(), Some(PcdError::UnexpectedEof));
    assert_eq!(parse_pcd(&f).err(), Some(PcdError::UnexpectedEof));
}

#[test]
fn header_line_must_be_utf8() {
    let mut f = b"VERSION 0.7\n".to_vec();
    f.extend_from_slice(&[0xFF, 0xFE, b'\n']);
    f.extend_from_slice(b"POINTS 1\nDATA binary\n");
    assert_eq!(parse_pcd(&f).err(), Some(PcdError::InvalidUtf8));
}

#[test]
fn header_entries_tolerate_white_space() {
    let mut f = b"\t POINTS \t +1 extra\r\n  DATA   binary  \r\n".to_vec();
    point(&mut f, 9.0, 8.0, 7.0, 6.0);
    let pts = parse_pcd(&f).unwrap();
    assert_eq!(pts.len(), 1);
    assert_eq!(f32::from_bits(pts[0].x), 9.0);
}

#[test]
fn unparsable_point_count_counts_as_zero() {
    assert!(parse_pcd(b"POINTS abc\nDATA ascii\n").unwrap().is_empty());
    assert!(parse_pcd(b"POINTS 99999999999999999999999\nDATA ascii\n").unwrap().is_empty());
    assert!(parse_pcd(b"POINTS -3\nDATA ascii\n").unwrap().is_empty());
    // "POINTS" needs the space after it.
    assert!(parse_pcd(b"POINTS\nDATA ascii\n").unwrap().is_empty());
}

#[test]
fn last_points_line_wins() {
    let mut f = b"POINTS 5\nPOINTS 1\nDATA binary\n".to_vec();
    point(&mut f, 1.0, 1.0, 1.0, 1.0);
    assert_eq!(parse_pcd(&f).unwrap().len(), 1);
}

#[test]
fn usize_parsing() {
    let p = |s: &str| parse_usize_chars(&s.chars().collect());
    assert_eq!(p("42"), Some(42));
    assert_eq!(p("+7"), Some(7));
    assert_eq!(p("007"), Some(7));
    assert_eq!(p("+"), None);
    assert_eq!(p(""), None);
    assert_eq!(p("1a"), None);
    assert_eq!(p("-1"), None);
    assert_eq!(p(&usize::MAX.to_string()), Some(usize::MAX));
    assert_eq!(p("18446744073709551616"), None);
}

#[test]
fn whitespace_and_trim() {
    for c in [' ', '\t', '\n', '\r', '\u{0B}', '\u{0C}', '\u{85}', '\u{A0}', '\u{2003}', '\u{3000}'] {
        assert!(is_whitespace_char(c));
        assert_eq!(is_whitespace_char(c), c.is_whitespace());
    }
    for c in ['a', '0', '_', '\u{200B}', '\u{FEFF}'] {
        assert!(!is_whitespace_char(c));
        assert_eq!(is_whitespace_char(c), c.is_whitespace());
    }
    let t: String = trim_chars(&" \u{A0}ab c\t\n".chars().collect()).into_iter().collect();
    assert_eq!(t, "ab c");
    let e: String = trim_chars(&"  ".chars().collect()).into_iter().collect();
    assert_eq!(e, "");
}
