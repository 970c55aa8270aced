use bav::braille_text::{parse_braille_frames, BrailleError};

fn chars(text: &str) -> Vec<char> {
    text.chars().collect()
}

#[test]
fn blocks_with_a_timing_line_become_frames() {
    let text = "1\r\n00:00 --> 00:01\r\n\u{2801}\u{2800}\r\n\r\nnot a frame\n\n2\n00:01 --> 00:02\n\u{2800}\u{2880}\n";
    let set = parse_braille_frames(&chars(text)).unwrap();
    assert_eq!((set.width, set.height), (4, 4));
    assert_eq!(set.frames, vec![vec![0x80, 0, 0, 0], vec![0, 0, 0, 0x10]]);
}

#[test]
fn braille_text_errors_are_reported() {
    assert!(matches!(parse_braille_frames(&chars("nothing here")), Err(BrailleError::NoFrames)));
    assert!(matches!(
        parse_braille_frames(&chars("1\n-->\n\u{2800}\u{2800}\n\u{2800}")),
        Err(BrailleError::InconsistentWidth)
    ));
    assert!(matches!(
        parse_braille_frames(&chars("1\n-->\n\u{2800}\n\n2\n-->\n\u{2800}\u{2800}")),
        Err(BrailleError::InconsistentDimensions)
    ));
    assert!(matches!(
        parse_braille_frames(&chars("1\n-->\n\u{2800}a")),
        Err(BrailleError::NonBraille(0x61))
    ));
    let wide: String = std::iter::repeat('\u{2800}').take(40_000).collect();
    assert!(matches!(
        parse_braille_frames(&chars(&format!("1\n-->\n{wide}"))),
        Err(BrailleError::TooWide)
    ));
}
