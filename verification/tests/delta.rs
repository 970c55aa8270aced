use bav::delta::{apply_delta, encode_delta};
use bav::Error;

#[test]
fn delta_of_one_changed_run_has_the_documented_layout() {
    let previous = [0u8, 0, 0, 0, 7];
    let current = [0u8, 1, 3, 0, 7];
    let payload = encode_delta(&previous, &current);
    assert_eq!(payload, vec![1, 0, 0, 0, 1, 0, 0, 0, 2, 0, 1, 3]);
}

#[test]
fn identical_frames_need_no_runs() {
    let frame = [9u8, 8, 7];
    assert_eq!(encode_delta(&frame, &frame), vec![0, 0, 0, 0]);
}

#[test]
fn separate_changes_make_separate_runs() {
    let previous = [0u8; 6];
    let current = [1u8, 0, 0, 2, 2, 0];
    let payload = encode_delta(&previous, &current);
    assert_eq!(
        payload,
        vec![2, 0, 0, 0, 0, 0, 0, 0, 1, 0, 1, 3, 0, 0, 0, 2, 0, 2, 2]
    );
}

#[test]
fn applying_a_delta_gives_back_the_frame() {
    let previous: Vec<u8> = (0..200).map(|value| value as u8).collect();
    let current: Vec<u8> = (0..200)
        .map(|value| if value % 7 < 3 { (value * 3) as u8 } else { value as u8 })
        .collect();
    let payload = encode_delta(&previous, &current);
    let mut frame = previous.clone();
    apply_delta(&mut frame, &payload).unwrap();
    assert_eq!(frame, current);
}

#[test]
fn long_runs_are_split_at_the_run_limit() {
    let previous = vec![0u8; 70_000];
    let current = vec![0xFFu8; 70_000];
    let payload = encode_delta(&previous, &current);
    assert_eq!(u32::from_le_bytes(payload[0..4].try_into().unwrap()), 2);
    assert_eq!(u16::from_le_bytes([payload[8], payload[9]]), 65_535);
    let mut frame = previous.clone();
    apply_delta(&mut frame, &payload).unwrap();
    assert_eq!(frame, current);
}

#[test]
fn truncated_or_overreaching_deltas_are_rejected() {
    let mut frame = vec![0u8; 4];
    assert!(matches!(apply_delta(&mut frame, &[1, 0]), Err(Error::Truncated)));
    assert!(matches!(
        apply_delta(&mut frame, &[1, 0, 0, 0, 0, 0, 0, 0, 2, 0, 1]),
        Err(Error::Truncated)
    ));
    let mut frame = vec![0u8; 4];
    assert!(matches!(
        apply_delta(&mut frame, &[1, 0, 0, 0, 3, 0, 0, 0, 2, 0, 1, 1]),
        Err(Error::Truncated)
    ));
}

#[test]
fn runs_before_a_bad_run_stay_applied() {
    let mut frame = vec![0u8; 4];
    let payload = [
        2, 0, 0, 0, // two runs
        1, 0, 0, 0, 2, 0, 0xAA, 0xBB, // bytes 1 and 2
        3, 0, 0, 0, 2, 0, 1, 1, // reaches past the frame
    ];
    assert!(matches!(apply_delta(&mut frame, &payload), Err(Error::Truncated)));
    assert_eq!(frame, vec![0, 0xAA, 0xBB, 0]);
}
