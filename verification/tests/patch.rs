use bav::patch::{write_patch, FRAME_PATCH, MASK_PATCH};

#[test]
fn a_first_patch_carries_every_row() {
    let mut output = Vec::new();
    write_patch(&mut output, FRAME_PATCH, 7, &[], &["ab".to_string(), "c".to_string()]);
    assert_eq!(
        output,
        vec![
            22, 0, 0, 0, 1, 7, 0, 0, 0, 2, 0, //
            0, 0, 2, 0, 0, 0, b'a', b'b', //
            1, 0, 1, 0, 0, 0, b'c',
        ]
    );
}

#[test]
fn later_patches_carry_only_changed_rows() {
    let previous = vec!["aa".to_string(), "bb".to_string(), "cc".to_string()];
    let current = vec!["aa".to_string(), "bx".to_string(), "cc".to_string(), "d".to_string()];
    let mut output = Vec::new();
    write_patch(&mut output, MASK_PATCH, 1, &previous, &current);
    assert_eq!(
        output,
        vec![
            22, 0, 0, 0, 2, 1, 0, 0, 0, 2, 0, //
            1, 0, 2, 0, 0, 0, b'b', b'x', //
            3, 0, 1, 0, 0, 0, b'd',
        ]
    );
    let mut unchanged = Vec::new();
    write_patch(&mut unchanged, MASK_PATCH, 2, &current, &current);
    assert_eq!(unchanged, vec![7, 0, 0, 0, 2, 2, 0, 0, 0, 0, 0]);
}

#[test]
fn braille_rows_are_sent_as_utf8() {
    let previous = vec!["\u{2800}\u{2801}".to_string()];
    let current = vec!["\u{2800}\u{28FF}".to_string()];
    let mut output = Vec::new();
    write_patch(&mut output, FRAME_PATCH, 3, &previous, &current);
    let mut expected = vec![19, 0, 0, 0, 1, 3, 0, 0, 0, 1, 0, 0, 0, 6, 0, 0, 0];
    expected.extend_from_slice(current[0].as_bytes());
    assert_eq!(output, expected);
}
