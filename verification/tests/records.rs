use bav::records::{decode_records, encode_records, write_record};
use bav::Error;

#[test]
fn a_record_is_its_kind_length_and_payload() {
    let mut output = vec![9];
    write_record(&mut output, 1, &[4, 5]);
    assert_eq!(output, vec![9, 1, 2, 0, 0, 0, 4, 5]);
}

#[test]
fn records_start_with_a_keyframe_and_read_back() {
    let frames = vec![vec![1u8, 2, 3], vec![1, 2, 4], vec![0, 0, 0]];
    let raw = encode_records(&frames);
    assert_eq!(&raw[0..8], &[0, 3, 0, 0, 0, 1, 2, 3]);
    assert_eq!(raw[8], 1);
    assert_eq!(decode_records(&raw, 3, 3).unwrap(), frames);
}

#[test]
fn decoding_rejects_bad_record_sequences() {
    let frames = vec![vec![1u8, 2, 3], vec![1, 2, 4]];
    let raw = encode_records(&frames);
    assert!(matches!(
        decode_records(&raw, 2, 4),
        Err(Error::Invalid("chunk does not start with a keyframe"))
    ));
    let mut delta_first = raw.clone();
    delta_first[0] = 1;
    assert!(matches!(
        decode_records(&delta_first, 2, 3),
        Err(Error::Invalid("chunk does not start with a keyframe"))
    ));
    let mut keyframe_second = raw.clone();
    keyframe_second[8] = 0;
    assert!(matches!(
        decode_records(&keyframe_second, 2, 3),
        Err(Error::Invalid("unexpected record type"))
    ));
    assert!(matches!(decode_records(&raw, 3, 3), Err(Error::Truncated)));
    assert!(matches!(decode_records(&raw[..raw.len() - 1], 2, 3), Err(Error::Truncated)));
}
