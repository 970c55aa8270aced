use bav::pgm::{add_pgm_frame, parse_pgm, parse_u16, token, NumberError, PgmError};
use std::num::IntErrorKind;

#[test]
fn tokens_skip_whitespace_and_comments() {
    let bytes = b"  # a comment\n\tP5 #x\n12#3 end";
    let mut cursor = 0;
    assert_eq!(token(bytes, &mut cursor), Some(&b"P5"[..]));
    assert_eq!(cursor, 17);
    assert_eq!(token(bytes, &mut cursor), Some(&b"12#3"[..]));
    assert_eq!(token(bytes, &mut cursor), Some(&b"end"[..]));
    assert_eq!(token(bytes, &mut cursor), None);
    assert_eq!(cursor, bytes.len());
}

#[test]
fn numbers_read_as_str_parse_reads_them() {
    assert_eq!(parse_u16(b"0"), Ok(0));
    assert_eq!(parse_u16(b"+17"), Ok(17));
    assert_eq!(parse_u16(b"00065535"), Ok(65_535));
    assert_eq!(parse_u16(b"65536"), Err(NumberError::TooLarge));
    assert_eq!(parse_u16(b"+"), Err(NumberError::InvalidDigit));
    assert_eq!(parse_u16(b"-1"), Err(NumberError::InvalidDigit));
    assert_eq!(parse_u16(b""), Err(NumberError::Empty));
    assert_eq!(parse_u16(b"1x"), Err(NumberError::InvalidDigit));
    assert_eq!(parse_u16(b"99999a"), Err(NumberError::TooLarge));
    assert_eq!(parse_u16(b"6553a"), Err(NumberError::InvalidDigit));
    for text in ["255", "+1", "-0", "-", "99999", "12a", " 1", "", "70000x", "0065536"] {
        let expected = text.parse::<u16>().map_err(|error| match error.kind() {
            IntErrorKind::Empty => NumberError::Empty,
            IntErrorKind::InvalidDigit => NumberError::InvalidDigit,
            _ => NumberError::TooLarge,
        });
        assert_eq!(parse_u16(text.as_bytes()), expected, "{text:?}");
    }
}

#[test]
fn a_binary_pgm_file_reads_back() {
    let mut bytes = b"P5\n# made by hand\n3 2\n255\n".to_vec();
    bytes.extend_from_slice(&[1, 2, 3, 4, 5, 6, 7]);
    assert_eq!(parse_pgm(&bytes), Ok((3, 2, vec![1, 2, 3, 4, 5, 6])));
}

#[test]
fn pixels_start_after_the_single_separator() {
    let mut bytes = b"P5 2 1 255\n".to_vec();
    bytes.extend_from_slice(&[0x20, 0xC8]);
    assert_eq!(parse_pgm(&bytes), Ok((2, 1, vec![0x20, 0xC8])));
    let mut newline_first = b"P5 3 1 255 ".to_vec();
    newline_first.extend_from_slice(&[b'\n', b'\t', 7]);
    assert_eq!(parse_pgm(&newline_first), Ok((3, 1, vec![b'\n', b'\t', 7])));
    assert_eq!(parse_pgm(b"P5 1 1 255"), Err(PgmError::TruncatedPixels));
    assert_eq!(parse_pgm(b"P5 1 1 255\n"), Err(PgmError::TruncatedPixels));
}

#[test]
fn malformed_pgm_files_are_rejected() {
    assert_eq!(parse_pgm(b"   "), Err(PgmError::MissingMagic));
    assert_eq!(parse_pgm(b"P2 1 1 255 x"), Err(PgmError::NotBinary));
    assert_eq!(parse_pgm(b"P5"), Err(PgmError::MissingWidth));
    assert_eq!(parse_pgm(b"P5 1"), Err(PgmError::MissingHeight));
    assert_eq!(parse_pgm(b"P5 1 1"), Err(PgmError::MissingMaximum));
    assert_eq!(
        parse_pgm(b"P5 x 1 255 a"),
        Err(PgmError::BadNumber(NumberError::InvalidDigit))
    );
    assert_eq!(
        parse_pgm(b"P5 1 70000 255 a"),
        Err(PgmError::BadNumber(NumberError::TooLarge))
    );
    assert_eq!(parse_pgm(b"P5 1 1 \xff\xfe a"), Err(PgmError::NotUtf8));
    assert_eq!(
        parse_pgm("P5 1 1 2\u{e9}5 a".as_bytes()),
        Err(PgmError::BadNumber(NumberError::InvalidDigit))
    );
    assert_eq!(parse_pgm(b"P5 1 1 65535 a"), Err(PgmError::NotEightBit));
    assert_eq!(parse_pgm(b"P5 2 2 255\nabc"), Err(PgmError::TruncatedPixels));
}

#[test]
fn pgm_frames_must_share_one_size() {
    let mut dimensions = None;
    let mut frames = Vec::new();
    assert!(add_pgm_frame(&mut dimensions, &mut frames, 2, 1, &[200, 10]));
    assert!(add_pgm_frame(&mut dimensions, &mut frames, 2, 1, &[0, 255]));
    assert_eq!(dimensions, Some((2, 1)));
    assert_eq!(frames, vec![vec![0b1000_0000], vec![0b0100_0000]]);
    assert!(!add_pgm_frame(&mut dimensions, &mut frames, 1, 2, &[255, 255]));
    assert_eq!(dimensions, Some((2, 1)));
    assert_eq!(frames.len(), 2);
}
