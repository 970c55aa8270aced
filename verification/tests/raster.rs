use bav::raster::{
    pack_frame, pixel, read_raw_frames, render_braille, render_mask, unpack_braille,
    RawFramesError,
};

#[test]
fn packing_lights_bright_pixels_from_the_high_bit() {
    let pixels = [
        200u8, 0, 128, 127, 0, 0, 0, 0, 255, 10, //
        0, 0, 0, 0, 0, 0, 0, 0, 0, 128,
    ];
    let packed = pack_frame(10, 2, &pixels);
    assert_eq!(packed, vec![0b1010_0000, 0b1000_0000, 0b0000_0000, 0b0100_0000]);
    assert!(pixel(&packed, 10, 0, 0));
    assert!(!pixel(&packed, 10, 1, 0));
    assert!(pixel(&packed, 10, 8, 0));
    assert!(pixel(&packed, 10, 9, 1));
    assert!(!pixel(&packed, 10, 8, 1));
}

#[test]
fn raw_frames_are_split_and_packed() {
    let data = [255u8, 0, 0, 255, 0, 0, 255, 255];
    let frames = read_raw_frames(&data, 2, 2).unwrap();
    assert_eq!(frames, vec![vec![0b1000_0000, 0b0100_0000], vec![0, 0b1100_0000]]);
    assert_eq!(read_raw_frames(&[], 2, 2), Err(RawFramesError::NoFrames));
    assert_eq!(read_raw_frames(&data[..6], 2, 2), Err(RawFramesError::IncompleteFrame));
    assert_eq!(read_raw_frames(&data[..3], 2, 2), Err(RawFramesError::IncompleteFrame));
}

#[test]
fn mask_rendering_samples_the_frame() {
    let frame = [0b1000_0001u8, 0b0000_0000, 0b1111_1111, 0b1111_1111];
    let lines = render_mask(&frame, 16, 2, 4, 2);
    assert_eq!(lines, vec!["1000".to_string(), "1111".to_string()]);
}

#[test]
fn braille_rendering_maps_dots_to_bits() {
    let frame = [0b1000_0000u8, 0b0100_0000, 0b0000_0000, 0b1100_0000];
    let lines = render_braille(&frame, 2, 4, 1, 1);
    assert_eq!(
        lines,
        vec![char::from_u32(0x2800 + 0x01 + 0x10 + 0x40 + 0x80).unwrap().to_string()]
    );
    let blank = render_braille(&[0u8; 4], 2, 4, 1, 1);
    assert_eq!(blank, vec!["\u{2800}".to_string()]);
}

#[test]
fn unpacking_braille_lights_raised_dots() {
    let lines = vec![vec!['\u{28FF}', '\u{2801}'], vec!['\u{2800}', '\u{2880}']];
    let frame = unpack_braille(&lines, 4, 8).unwrap();
    assert_eq!(
        frame,
        vec![
            0b1110_0000, 0b1100_0000, 0b1100_0000, 0b1100_0000,
            0b0000_0000, 0b0000_0000, 0b0000_0000, 0b0001_0000,
        ]
    );
    assert_eq!(unpack_braille(&[vec!['\u{2801}', 'x', '\u{263A}']], 6, 4), Err('x' as u32));
}

#[test]
fn rendering_what_was_unpacked_gives_the_same_cells() {
    let lines = vec![vec!['\u{28A5}', '\u{2853}', '\u{2800}'], vec!['\u{28FF}', '\u{2811}', '\u{2860}']];
    let frame = unpack_braille(&lines, 6, 8).unwrap();
    let rendered: Vec<Vec<char>> = render_braille(&frame, 6, 8, 3, 2)
        .iter()
        .map(|line| line.chars().collect())
        .collect();
    assert_eq!(rendered, lines);
}
